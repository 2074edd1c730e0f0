use vstd::prelude::*;
use crate::text::as_chars;

verus! {

pub open spec fn is_octal_digit(c: char) -> bool {
    48 <= c as u32 <= 55
}

/// The value of a string of octal digits, most significant first.
pub open spec fn digits_value(s: Seq<char>) -> nat
    decreases s.len(),
{
    if s.len() == 0 {
        0
    } else {
        digits_value(s.drop_last()) * 8 + (s.last() as u32 - 48) as nat
    }
}

pub open spec fn all_octal(s: Seq<char>) -> bool {
    forall|i: int| 0 <= i < s.len() ==> is_octal_digit(#[trigger] s[i])
}

/// The digits that unsigned parsing reads: a single leading `+` is allowed.
pub open spec fn unsigned_digits(s: Seq<char>) -> Seq<char> {
    if s.len() > 0 && s[0] == '+' {
        s.drop_first()
    } else {
        s
    }
}

/// What `from_str_radix(s, 8)` gives for an unsigned type whose largest value
/// is `max`: the value, or `None` for an empty, non-octal or too large text.
pub open spec fn parse_octal_spec(s: Seq<char>, max: nat) -> Option<nat> {
    let d = unsigned_digits(s);
    if d.len() > 0 && all_octal(d) && digits_value(d) <= max {
        Some(digits_value(d))
    } else {
        None
    }
}

/// The shortest octal rendering of `v`, as ASCII bytes.
pub open spec fn octal_digits(v: nat) -> Seq<u8>
    decreases v,
{
    if v < 8 {
        seq![(48 + v) as u8]
    } else {
        octal_digits(v / 8).push((48 + v % 8) as u8)
    }
}

/// `n` ASCII `'0'` bytes.
pub open spec fn zeros(n: nat) -> Seq<u8> {
    Seq::new(n, |i: int| 48u8)
}

/// The octal rendering of `v`, left-filled with `'0'` to at least `n` digits.
pub open spec fn zero_padded(v: nat, n: nat) -> Seq<u8> {
    let d = octal_digits(v);
    if d.len() < n {
        zeros((n - d.len()) as nat) + d
    } else {
        d
    }
}

/// A numeric field's text: for a width of one the bare digits, otherwise
/// the digits padded to `width - 1` and followed by `terminator`.
pub open spec fn format_octal_spec(v: nat, width: nat, terminator: u8) -> Seq<u8> {
    if width == 1 {
        octal_digits(v)
    } else {
        zero_padded(v, (width - 1) as nat).push(terminator)
    }
}

/// The digits of a value in reverse order, least significant first.
pub open spec fn reversed(s: Seq<u8>) -> Seq<u8> {
    Seq::new(s.len(), |i: int| s[s.len() - 1 - i])
}

pub open spec fn pow8(k: nat) -> nat
    decreases k,
{
    if k == 0 {
        1
    } else {
        8 * pow8((k - 1) as nat)
    }
}

/// A value below `8^k` has at most `k` octal digits.
pub proof fn lemma_octal_digits_len(v: nat, k: nat)
    requires
        k >= 1,
        v < pow8(k),
    ensures
        octal_digits(v).len() <= k,
    decreases v,
{
    if v >= 8 {
        if k == 1 {
            assert(pow8(1) == 8) by {
                reveal_with_fuel(pow8, 2);
            }
        } else {
            let p = pow8((k - 1) as nat);
            assert(v / 8 < p) by (nonlinear_arith)
                requires
                    v < 8 * p,
            ;
            lemma_octal_digits_len(v / 8, (k - 1) as nat);
        }
    }
}

proof fn lemma_prefix_value_le(s: Seq<char>, j: int)
    requires
        all_octal(s),
        0 <= j <= s.len(),
    ensures
        digits_value(s.subrange(0, j)) <= digits_value(s),
    decreases s.len(),
{
    if j < s.len() {
        let t = s.drop_last();
        assert(all_octal(t)) by {
            assert forall|i: int| 0 <= i < t.len() implies is_octal_digit(#[trigger] t[i]) by {
                assert(t[i] == s[i]);
            }
        }
        lemma_prefix_value_le(t, j);
        assert(t.subrange(0, j) =~= s.subrange(0, j));
        assert(is_octal_digit(s[s.len() - 1]));
    } else {
        assert(s.subrange(0, j) =~= s);
    }
}

/// Parses octal text as `from_str_radix(s, 8)` does for an unsigned type
/// whose largest value is `max`.
pub fn parse_octal(s: &Vec<char>, max: u64) -> (r: Option<u64>)
    requires
        max >= 7,
    ensures
        match parse_octal_spec(s@, max as nat) {
            Some(v) => r == Some(v as u64),
            None => r.is_none(),
        },
{
    let n = s.len();
    if n == 0 {
        return None;
    }
    let start: usize = if s[0] == '+' { 1 } else { 0 };
    let ghost d = unsigned_digits(s@);
    assert(d =~= s@.subrange(start as int, n as int));
    if start == n {
        return None;
    }
    let mut acc: u64 = 0;
    let mut i: usize = start;
    while i < n
        invariant
            start <= i <= n == s@.len(),
            d == s@.subrange(start as int, n as int),
            d == unsigned_digits(s@),
            all_octal(s@.subrange(start as int, i as int)),
            acc as nat == digits_value(s@.subrange(start as int, i as int)),
            acc <= max,
            max >= 7,
        decreases n - i,
    {
        let c = s[i];
        let u: u32 = c as u32;
        let ghost pre = s@.subrange(start as int, i as int);
        let ghost next = s@.subrange(start as int, i + 1);
        assert(next.drop_last() =~= pre);
        if !(48 <= u && u <= 55) {
            assert(d[i - start] == c);
            assert(!is_octal_digit(d[i - start]));
            assert(!all_octal(d));
            return None;
        }
        assert(all_octal(next)) by {
            assert forall|k: int| 0 <= k < next.len() implies is_octal_digit(#[trigger] next[k]) by {
                if k < pre.len() {
                    assert(next[k] == pre[k]);
                }
            }
        }
        let dig: u64 = (u - 48) as u64;
        assert(next.last() == c);
        assert(digits_value(next) == acc * 8 + dig);
        if acc > (max - dig) / 8 {
            assert(acc * 8 + dig > max) by (nonlinear_arith)
                requires
                    acc > (max - dig) / 8,
                    dig <= 7,
                    max >= 7,
            ;
            assert(d.subrange(0, i + 1 - start) =~= next);
            proof {
                if all_octal(d) {
                    lemma_prefix_value_le(d, i + 1 - start);
                }
            }
            return None;
        }
        assert(acc * 8 + dig <= max) by (nonlinear_arith)
            requires
                acc <= (max - dig) / 8,
                dig <= 7,
                max >= 7,
        ;
        acc = acc * 8 + dig;
        i = i + 1;
    }
    assert(s@.subrange(start as int, n as int) =~= d);
    Some(acc)
}

/// Renders `value` in octal: zero-filled to `width - 1` digits and followed
/// by `terminator`, or the bare digits where `width` is one.
pub fn format_octal(value: u64, width: usize, terminator: u8) -> (r: Vec<u8>)
    requires
        1 <= width,
    ensures
        r@ == format_octal_spec(value as nat, width as nat, terminator),
{
    let mut rev: Vec<u8> = Vec::new();
    let mut v: u64 = value;
    while v >= 8
        invariant
            octal_digits(value as nat) == octal_digits(v as nat) + reversed(rev@),
            v <= value,
        decreases v,
    {
        let ghost old_rev = rev@;
        let dig: u8 = (48 + v % 8) as u8;
        rev.push(dig);
        assert(reversed(rev@) =~= seq![dig] + reversed(old_rev));
        assert(octal_digits(v as nat) == octal_digits((v / 8) as nat).push(dig));
        assert(octal_digits(v as nat) + reversed(old_rev) =~= octal_digits((v / 8) as nat) + (
        seq![dig] + reversed(old_rev)));
        v = v / 8;
    }
    let ghost old_rev = rev@;
    rev.push((48 + v) as u8);
    assert(reversed(rev@) =~= seq![(48 + v) as u8] + reversed(old_rev));
    assert(octal_digits(value as nat) =~= reversed(rev@));
    let digits_len = rev.len();
    let mut r: Vec<u8> = Vec::new();
    if width > 1 && digits_len < width - 1 {
        let mut k: usize = 0;
        while k < width - 1 - digits_len
            invariant
                k <= width - 1 - digits_len,
                r@ == zeros(k as nat),
            decreases width - 1 - digits_len - k,
        {
            r.push(48u8);
            k = k + 1;
            assert(r@ =~= zeros(k as nat));
        }
    }
    let ghost pad = r@;
    let mut j: usize = digits_len;
    while j > 0
        invariant
            j <= digits_len == rev@.len(),
            r@ == pad + reversed(rev@).subrange(0, digits_len - j),
        decreases j,
    {
        j = j - 1;
        r.push(rev[j]);
        assert(r@ =~= pad + reversed(rev@).subrange(0, digits_len - j));
    }
    assert(reversed(rev@).subrange(0, digits_len as int) =~= reversed(rev@));
    if width > 1 {
        r.push(terminator);
    }
    r
}

/// The rendering of a value is nonempty octal text that reads back as the
/// value.
pub proof fn lemma_octal_digits_read_back(v: nat)
    ensures
        octal_digits(v).len() >= 1,
        all_octal(as_chars(octal_digits(v))),
        digits_value(as_chars(octal_digits(v))) == v,
        forall|i: int|
            0 <= i < octal_digits(v).len() ==> 48 <= #[trigger] octal_digits(v)[i] <= 55,
    decreases v,
{
    let d = octal_digits(v);
    if v >= 8 {
        lemma_octal_digits_read_back(v / 8);
        let p = octal_digits(v / 8);
        assert(as_chars(d).drop_last() =~= as_chars(p));
        assert(forall|i: int| 0 <= i < p.len() ==> d[i] == p[i]);
        let c = as_chars(d).last();
        assert(c == ((48 + v % 8) as u8) as char);
        assert(c as u32 == 48 + v % 8);
        assert(digits_value(as_chars(d)) == digits_value(as_chars(p)) * 8 + (c as u32 - 48) as nat);
        assert(digits_value(as_chars(d)) == v);
    } else {
        let c = as_chars(d).last();
        assert(c as u32 == 48 + v);
        assert(as_chars(d).drop_last() =~= Seq::<char>::empty());
        assert(digits_value(Seq::<char>::empty()) == 0);
        assert(digits_value(as_chars(d)) == v);
    }
    assert forall|i: int| 0 <= i < d.len() implies is_octal_digit(#[trigger] as_chars(d)[i]) by {
        assert(48 <= d[i] <= 55);
    }
}

/// Leading `'0'` characters do not change a value.
pub proof fn lemma_leading_zeros(k: nat, d: Seq<char>)
    ensures
        digits_value(as_chars(zeros(k)) + d) == digits_value(d),
    decreases d.len(), k,
{
    let z = as_chars(zeros(k));
    if d.len() == 0 {
        assert(z + d =~= z);
        if k > 0 {
            assert(z.drop_last() =~= as_chars(zeros((k - 1) as nat)));
            lemma_leading_zeros((k - 1) as nat, d);
            assert(as_chars(zeros((k - 1) as nat)) + d =~= as_chars(zeros((k - 1) as nat)));
        }
    } else {
        assert((z + d).drop_last() =~= z + d.drop_last());
        lemma_leading_zeros(k, d.drop_last());
    }
}

/// The digits of a zero-padded rendering are octal and read back as the value.
pub proof fn lemma_zero_padded_read_back(v: nat, n: nat)
    ensures
        all_octal(as_chars(zero_padded(v, n))),
        digits_value(as_chars(zero_padded(v, n))) == v,
        zero_padded(v, n).len() >= 1,
        zero_padded(v, n).len() >= n,
        octal_digits(v).len() <= n ==> zero_padded(v, n).len() == n,
        forall|i: int|
            0 <= i < zero_padded(v, n).len() ==> 48 <= #[trigger] zero_padded(v, n)[i] <= 55,
{
    lemma_octal_digits_read_back(v);
    let d = octal_digits(v);
    if d.len() < n {
        let k = (n - d.len()) as nat;
        assert(as_chars(zeros(k) + d) =~= as_chars(zeros(k)) + as_chars(d));
        lemma_leading_zeros(k, as_chars(d));
        let zp = zero_padded(v, n);
        assert forall|i: int| 0 <= i < zp.len() implies 48 <= #[trigger] zp[i] <= 55 by {
            if i >= k {
                assert(zp[i] == d[i - k]);
            }
        }
        assert forall|i: int| 0 <= i < zp.len() implies is_octal_digit(
            #[trigger] as_chars(zp)[i],
        ) by {
            assert(48 <= zp[i] <= 55);
        }
    }
}

} // verus!
