use vstd::prelude::*;

verus! {

/// Number of bytes in one archive block.
pub const BLOCK_SIZE: usize = 512;

/// A single archive block.
pub type Block = [u8; 512];

/// Sum of the unsigned values of a byte sequence.
pub open spec fn byte_sum(s: Seq<u8>) -> int
    decreases s.len(),
{
    if s.len() == 0 {
        0
    } else {
        byte_sum(s.drop_last()) + s.last() as int
    }
}

/// Sum of the bytes of `b` in `[lo, hi)`, computed by a loop.
pub fn sum_range(b: &Block, lo: usize, hi: usize) -> (r: u32)
    requires
        lo <= hi <= 512,
    ensures
        r as int == byte_sum(b@.subrange(lo as int, hi as int)),
        r <= 255 * (hi - lo),
{
    let mut sum: u32 = 0;
    let mut i: usize = lo;
    while i < hi
        invariant
            lo <= i <= hi <= 512,
            sum as int == byte_sum(b@.subrange(lo as int, i as int)),
            sum <= 255 * (i - lo),
        decreases hi - i,
    {
        assert(b@.subrange(lo as int, i + 1).drop_last() =~= b@.subrange(lo as int, i as int));
        sum = sum + b[i] as u32;
        i = i + 1;
    }
    sum
}

/// Whether every byte of a block is zero.
pub open spec fn is_zero(b: Seq<u8>) -> bool {
    forall|i: int| 0 <= i < b.len() ==> b[i] == 0
}

/// The `i`-th whole block of `data`.
pub open spec fn chunk(data: Seq<u8>, i: int) -> Seq<u8> {
    data.subrange(512 * i, 512 * i + 512)
}

/// The `i`-th block of `data`, zero-filled past the end of `data`.
pub open spec fn padded_chunk(data: Seq<u8>, i: int) -> Seq<u8> {
    Seq::new(512, |j: int| if 512 * i + j < data.len() { data[512 * i + j] } else { 0u8 })
}

/// The number of blocks that `n` bytes take up, the last one padded.
pub open spec fn blocks_for(n: nat) -> nat {
    (n + 511) / 512
}

/// The views of a sequence of blocks.
pub open spec fn views(blocks: Seq<Block>) -> Seq<Seq<u8>> {
    blocks.map_values(|b: Block| b@)
}

/// The bytes of blocks laid end to end.
pub open spec fn flatten(blocks: Seq<Seq<u8>>) -> Seq<u8>
    decreases blocks.len(),
{
    if blocks.len() == 0 {
        Seq::empty()
    } else {
        flatten(blocks.drop_last()) + blocks.last()
    }
}

pub fn is_zero_block(b: &Block) -> (r: bool)
    ensures
        r == is_zero(b@),
{
    let mut i: usize = 0;
    while i < 512
        invariant
            i <= 512,
            forall|j: int| 0 <= j < i ==> b@[j] == 0,
        decreases 512 - i,
    {
        if b[i] != 0 {
            return false;
        }
        i = i + 1;
    }
    true
}

/// Splits `data` into whole blocks; a trailing part shorter than a block is
/// dropped.
pub fn to_blocks(data: &Vec<u8>) -> (r: Vec<Block>)
    ensures
        r@.len() == data@.len() / 512,
        forall|i: int| 0 <= i < r@.len() ==> (#[trigger] r@[i])@ == chunk(data@, i),
{
    let len = data.len();
    let n = len / 512;
    let mut r: Vec<Block> = Vec::new();
    let mut k: usize = 0;
    while k < n
        invariant
            k <= n == data@.len() / 512,
            n == len / 512,
            len == data@.len(),
            r@.len() == k,
            forall|i: int| 0 <= i < k ==> (#[trigger] r@[i])@ == chunk(data@, i),
        decreases n - k,
    {
        let mut b: Block = [0u8; 512];
        assert(k * 512 < len) by (nonlinear_arith)
            requires
                k < n,
                n == len / 512,
        ;
        let base = k * 512;
        let mut j: usize = 0;
        while j < 512
            invariant
                k < n == data@.len() / 512,
                base == 512 * k,
                j <= 512,
                forall|t: int| 0 <= t < j ==> b@[t] == data@[512 * k + t],
            decreases 512 - j,
        {
            b[j] = data[base + j];
            j = j + 1;
        }
        assert(b@ =~= chunk(data@, k as int));
        r.push(b);
        k = k + 1;
    }
    r
}

/// Splits a file's bytes into blocks, the last one zero-filled.
pub fn file_to_blocks(file: &Vec<u8>) -> (r: Vec<Block>)
    ensures
        r@.len() == blocks_for(file@.len()),
        forall|i: int| 0 <= i < r@.len() ==> (#[trigger] r@[i])@ == padded_chunk(file@, i),
{
    let len = file.len();
    let n = len / 512 + if len % 512 == 0 { 0 } else { 1 };
    assert(n == blocks_for(len as nat));
    let mut r: Vec<Block> = Vec::new();
    let mut k: usize = 0;
    while k < n
        invariant
            k <= n == blocks_for(len as nat),
            len == file@.len(),
            r@.len() == k,
            forall|i: int| 0 <= i < k ==> (#[trigger] r@[i])@ == padded_chunk(file@, i),
        decreases n - k,
    {
        let mut b: Block = [0u8; 512];
        assert(k * 512 < len) by (nonlinear_arith)
            requires
                k < n,
                n == (len + 511) / 512,
        ;
        let base = k * 512;
        let mut j: usize = 0;
        while j < 512 && base + j < len
            invariant
                k < n == blocks_for(len as nat),
                len == file@.len(),
                base == 512 * k,
                j <= 512,
                base + j <= len,
                forall|t: int| 0 <= t < j ==> b@[t] == file@[512 * k + t],
                forall|t: int| j <= t < 512 ==> b@[t] == 0,
            decreases 512 - j,
        {
            b[j] = file[base + j];
            j = j + 1;
        }
        assert(j == 512 || base + j >= len);
        assert(b@ =~= padded_chunk(file@, k as int));
        r.push(b);
        k = k + 1;
    }
    r
}

/// Lays blocks end to end as bytes.
pub fn blocks_to_bytes(blocks: &Vec<Block>) -> (r: Vec<u8>)
    ensures
        r@ == flatten(views(blocks@)),
{
    let mut r: Vec<u8> = Vec::new();
    let mut k: usize = 0;
    while k < blocks.len()
        invariant
            k <= blocks@.len(),
            r@ == flatten(views(blocks@.take(k as int))),
        decreases blocks@.len() - k,
    {
        let ghost before = r@;
        let mut j: usize = 0;
        while j < 512
            invariant
                k < blocks@.len(),
                j <= 512,
                r@ == before + blocks@[k as int]@.take(j as int),
            decreases 512 - j,
        {
            r.push(blocks[k][j]);
            j = j + 1;
            assert(r@ =~= before + blocks@[k as int]@.take(j as int));
        }
        assert(views(blocks@.take(k + 1)).drop_last() =~= views(blocks@.take(k as int)));
        assert(blocks@[k as int]@.take(512) =~= blocks@[k as int]@);
        k = k + 1;
    }
    assert(blocks@.take(blocks@.len() as int) =~= blocks@);
    r
}

} // verus!
