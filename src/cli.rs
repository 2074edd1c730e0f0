use vstd::prelude::*;
use vstd::string::*;

verus! {

/// The command line: one mode, an optional archive path and the entries to
/// archive.
pub struct Args {
    pub list: bool,
    pub extract: bool,
    pub archive_name: Option<String>,
    pub create: bool,
    pub entries: Option<Vec<String>>,
}

/// What to do, with the paths it needs.
pub enum Command {
    /// Print the member names of the archive at the path, or of standard input.
    List(Option<String>),
    /// Write out the members of the archive at the path, or of standard input.
    Extract(Option<String>),
    /// Archive the entries into the file at the path.
    Create(Vec<String>, String),
}

/// Why the command line cannot be carried out.
#[derive(Debug, Clone, Copy, PartialEq, Eq)]
pub enum CommandError {
    NoMode,
    NoEntries,
    NoArchiveName,
    InvalidExtension,
}

impl CommandError {
    /// A human-readable description.
    pub fn message(&self) -> (r: String)
        ensures
            r@ == match self {
                CommandError::NoMode => "No mode specified"@,
                CommandError::NoEntries => "No file or directory specified"@,
                CommandError::NoArchiveName => "No archive name specified"@,
                CommandError::InvalidExtension => "Invalid file extension, expected .tar"@,
            },
    {
        match self {
            CommandError::NoMode => "No mode specified".to_owned(),
            CommandError::NoEntries => "No file or directory specified".to_owned(),
            CommandError::NoArchiveName => "No archive name specified".to_owned(),
            CommandError::InvalidExtension => "Invalid file extension, expected .tar".to_owned(),
        }
    }
}

pub open spec fn has_tar_extension_spec(s: Seq<char>) -> bool {
    s.len() >= 4 && s.subrange(s.len() - 4, s.len() as int) == seq!['.', 't', 'a', 'r']
}

/// Whether a path ends in `.tar`.
pub fn has_tar_extension(name: &str) -> (r: bool)
    ensures
        r == has_tar_extension_spec(name@),
{
    let n = name.unicode_len();
    if n < 4 {
        return false;
    }
    let r = name.get_char(n - 4) == '.' && name.get_char(n - 3) == 't' && name.get_char(n - 2)
        == 'a' && name.get_char(n - 1) == 'r';
    assert(r == (name@.subrange(n - 4, n as int) =~= seq!['.', 't', 'a', 'r']));
    r
}

/// Whether a path to read an archive from is accepted: standard input, or a
/// path ending in `.tar`.
pub open spec fn source_ok(p: Option<String>) -> bool {
    match p {
        None => true,
        Some(s) => has_tar_extension_spec(s@),
    }
}

/// Decides what the command line asks for. Creating needs entries and an
/// archive name; reading from a path needs the `.tar` extension.
pub fn plan_command(args: &Args) -> (r: Result<Command, CommandError>)
    ensures
        !args.list && !args.extract && !args.create ==> r == Err::<Command, CommandError>(
            CommandError::NoMode,
        ),
        args.create && args.entries.is_none() ==> r == Err::<Command, CommandError>(
            CommandError::NoEntries,
        ),
        args.create && args.entries.is_some() && args.archive_name.is_none() ==> r == Err::<
            Command,
            CommandError,
        >(CommandError::NoArchiveName),
        args.create && args.entries.is_some() && args.archive_name.is_some() ==> r.is_ok() && (
        match r.unwrap() {
            Command::Create(e, a) => e@ == args.entries.unwrap()@ && a@
                == args.archive_name.unwrap()@,
            _ => false,
        }),
        !args.create && (args.list || args.extract) && !source_ok(args.archive_name) ==> r
            == Err::<Command, CommandError>(CommandError::InvalidExtension),
        !args.create && args.list && source_ok(args.archive_name) ==> r.is_ok() && (match r.unwrap() {
            Command::List(a) => a == args.archive_name,
            _ => false,
        }),
        !args.create && !args.list && args.extract && source_ok(args.archive_name) ==> r.is_ok()
            && (match r.unwrap() {
            Command::Extract(a) => a == args.archive_name,
            _ => false,
        }),
{
    if !args.list && !args.extract && !args.create {
        return Err(CommandError::NoMode);
    }
    if args.create {
        let entries = match &args.entries {
            None => {
                return Err(CommandError::NoEntries);
            },
            Some(e) => e.clone(),
        };
        let archive_name = match &args.archive_name {
            None => {
                return Err(CommandError::NoArchiveName);
            },
            Some(a) => a.clone(),
        };
        return Ok(Command::Create(entries, archive_name));
    }
    if let Some(a) = &args.archive_name {
        if !has_tar_extension(a.as_str()) {
            return Err(CommandError::InvalidExtension);
        }
    }
    let source = args.archive_name.clone();
    if args.list {
        Ok(Command::List(source))
    } else {
        Ok(Command::Extract(source))
    }
}

} // verus!
