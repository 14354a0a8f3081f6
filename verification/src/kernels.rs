//! Weights in their stored forms, and the integer parts of the kernels: how rows are shared out to
//! workers, how codes are packed, and exact products of 8-bit blocks. Scales are single-precision
//! bit patterns.

use vstd::arithmetic::div_mod::*;
use vstd::prelude::*;

use crate::bytes;
use crate::bytes::Element;
use crate::kv;

verus! {

/// Rows that one worker takes at a time.
pub const ROWS_PER_CHUNK: usize = 16;

/// Weights that share a scale.
pub const QBLOCK: usize = 32;

/// The single-precision bit pattern of a number in brain floating point, whose bits are the upper
/// half.
pub fn bf16_to_f32(bits: u16) -> (r: u32)
    ensures
        r == bits * 65536,
{
    bits as u32 * 65536
}

// ---------------------------------------------------------------------------------------
// Sharing out rows
// ---------------------------------------------------------------------------------------

/// Chunks that cover `n` rows.
pub open spec fn chunks_of(n: int) -> int {
    (n + ROWS_PER_CHUNK - 1) / (ROWS_PER_CHUNK as int)
}

/// Chunks that cover `n` rows.
pub fn chunk_count(n: usize) -> (r: usize)
    requires
        n + ROWS_PER_CHUNK - 1 <= usize::MAX,
    ensures
        r == chunks_of(n as int),
{
    (n + (ROWS_PER_CHUNK - 1)) / ROWS_PER_CHUNK
}

/// The first row of chunk `c` and the row behind its last.
pub open spec fn rows_of(c: int, n: int) -> (int, int) {
    let first = c * ROWS_PER_CHUNK;
    (
        first,
        if first + ROWS_PER_CHUNK < n {
            first + ROWS_PER_CHUNK
        } else {
            n
        },
    )
}

/// The rows of chunk `c`.
pub fn chunk_rows(c: usize, n: usize) -> (r: (usize, usize))
    requires
        c < chunks_of(n as int),
        n + ROWS_PER_CHUNK - 1 <= usize::MAX,
    ensures
        (r.0 as int, r.1 as int) == rows_of(c as int, n as int),
        r.0 < r.1 <= n,
{
    let first: usize = c * ROWS_PER_CHUNK;
    let end: usize = if n - first > ROWS_PER_CHUNK {
        first + ROWS_PER_CHUNK
    } else {
        n
    };
    (first, end)
}

/// Every row belongs to exactly one chunk.
pub proof fn chunks_share_rows(n: int, row: int)
    requires
        0 <= row < n,
    ensures
        0 <= row / (ROWS_PER_CHUNK as int) < chunks_of(n),
        forall|c: int|
            0 <= c < chunks_of(n) ==> ((#[trigger] rows_of(c, n)).0 <= row < rows_of(c, n).1 <==> c
                == row / (ROWS_PER_CHUNK as int)),
{
}

/// Bytes of a row, where a buffer of `bytes` is to be shared out by rows: it has rows that it can be
/// split into, and sharing out is wanted.
pub fn row_split(wanted: bool, bytes: usize, rows: usize) -> (r: Option<usize>)
    ensures
        match r {
            Some(b) => wanted && rows > 0 && bytes > 0 && b * rows == bytes,
            None => !wanted || rows == 0 || bytes == 0 || bytes % rows != 0,
        },
{
    if !wanted || rows == 0 || bytes == 0 || bytes % rows != 0 {
        return None;
    }
    proof {
        lemma_fundamental_div_mod(bytes as int, rows as int);
        assert(rows * (bytes / rows) == (bytes / rows) * rows) by (nonlinear_arith);
    }
    Some(bytes / rows)
}

/// The part of a buffer that chunk `c` owns, where a row has `per` bytes: where it starts and how
/// long it is.
pub open spec fn part_of(c: int, rows: int, per: int) -> (int, int) {
    let (first, end) = rows_of(c, rows);
    (first * per, (end - first) * per)
}

/// Shares out the `bytes` of a buffer of `rows` rows in the chunks of rows that the workers take:
/// where the part of each chunk starts and how long it is. `None` where the buffer cannot be split
/// by rows, or sharing out is not wanted.
pub fn per_owner_rows(wanted: bool, bytes: usize, rows: usize) -> (r: Option<Vec<(usize, usize)>>)
    requires
        rows + ROWS_PER_CHUNK - 1 <= usize::MAX,
    ensures
        match r {
            Some(parts) => {
                &&& wanted && rows > 0 && bytes > 0 && bytes % rows == 0
                &&& parts@.len() == chunks_of(rows as int)
                &&& forall|c: int|
                    0 <= c < parts@.len() ==> ((#[trigger] parts@[c]).0 as int, parts@[c].1 as int)
                        == part_of(c, rows as int, (bytes / rows) as int)
            },
            None => !wanted || rows == 0 || bytes == 0 || bytes % rows != 0,
        },
{
    let per: usize = match row_split(wanted, bytes, rows) {
        Some(per) => per,
        None => {
            return None;
        },
    };
    proof {
        lemma_fundamental_div_mod_converse(bytes as int, rows as int, per as int, 0);
    }
    let mut parts: Vec<(usize, usize)> = Vec::new();
    let chunks: usize = chunk_count(rows);
    for c in 0..chunks
        invariant
            chunks == chunks_of(rows as int),
            rows + ROWS_PER_CHUNK - 1 <= usize::MAX,
            per * rows == bytes,
            parts@.len() == c,
            forall|i: int|
                0 <= i < c ==> ((#[trigger] parts@[i]).0 as int, parts@[i].1 as int) == part_of(
                    i,
                    rows as int,
                    per as int,
                ),
    {
        let (first, end) = chunk_rows(c, rows);
        assert(first * per <= bytes && (end - first) * per <= bytes) by (nonlinear_arith)
            requires
                first <= rows,
                end <= rows,
                first <= end,
                per * rows == bytes,
        ;
        parts.push((first * per, (end - first) * per));
    }
    Some(parts)
}

/// Every byte of a buffer that is shared out by rows belongs to the part of exactly one chunk: the
/// one that its row belongs to.
pub proof fn parts_share_bytes(rows: int, per: int, b: int)
    requires
        0 < per,
        0 <= b < rows * per,
    ensures
        ({
            let owner = (b / per) / (ROWS_PER_CHUNK as int);
            &&& 0 <= owner < chunks_of(rows)
            &&& forall|c: int|
                0 <= c < chunks_of(rows) ==> ({
                    let (start, len) = #[trigger] part_of(c, rows, per);
                    start <= b < start + len <==> c == owner
                })
        }),
{
    let row = b / per;
    lemma_fundamental_div_mod(b, per);
    lemma_mod_bound(b, per);
    assert(0 <= row < rows) by (nonlinear_arith)
        requires
            b == per * row + b % per,
            0 <= b % per < per,
            0 <= b < rows * per,
            0 < per,
    ;
    chunks_share_rows(rows, row);
    assert forall|c: int| 0 <= c < chunks_of(rows) implies ({
        let (start, len) = #[trigger] part_of(c, rows, per);
        start <= b < start + len <==> c == row / (ROWS_PER_CHUNK as int)
    }) by {
        let (first, end) = rows_of(c, rows);
        assert(first <= row < end <==> c == row / (ROWS_PER_CHUNK as int));
        assert(first * per + (end - first) * per == end * per) by (nonlinear_arith);
        assert(first * per <= b <==> first <= row) by (nonlinear_arith)
            requires
                b == per * row + b % per,
                0 <= b % per < per,
        ;
        assert(b < end * per <==> row < end) by (nonlinear_arith)
            requires
                b == per * row + b % per,
                0 <= b % per < per,
        ;
    }
}

/// `elems` numbers whose bytes are all zero. `rows` says how they will be shared out, which changes
/// nothing of the contents.
pub fn alloc_rows<T: Element>(elems: usize, rows: usize) -> (r: Vec<T>)
    ensures
        r@ == Seq::new(elems as nat, |i: int| T::nothing()),
{
    let mut out: Vec<T> = Vec::with_capacity(elems);
    for k in 0..elems
        invariant
            out@.len() == k,
            forall|i: int| 0 <= i < out@.len() ==> #[trigger] out@[i] == T::nothing(),
    {
        out.push(T::zero());
    }
    assert(out@ =~= Seq::new(elems as nat, |i: int| T::nothing()));
    out
}

/// The numbers that `src` holds. `rows` says how they will be shared out, which changes nothing of
/// the contents.
pub fn copy_rows<T: Element>(src: &[u8], rows: usize) -> (r: Vec<T>)
    requires
        src@.len() % T::size() == 0,
    ensures
        r@ == bytes::values::<T>(src@),
{
    bytes::read_values(src)
}

// ---------------------------------------------------------------------------------------
// Codes
// ---------------------------------------------------------------------------------------

/// Two 4-bit codes in a byte, the first in the lower half.
pub fn pack_codes(lo: u8, hi: u8) -> (r: u8)
    requires
        lo < 16,
        hi < 16,
    ensures
        r == lo + 16 * hi,
        low_value(r) == lo - 8,
        high_value(r) == hi - 8,
{
    lo + 16 * hi
}

/// The value of the code in the lower half.
pub open spec fn low_value(b: u8) -> int {
    b % 16 - 8
}

/// The value of the code in the upper half.
pub open spec fn high_value(b: u8) -> int {
    b / 16 - 8
}

/// The value of the code in the lower half.
pub fn low_code(b: u8) -> (r: i32)
    ensures
        r == low_value(b),
        -8 <= r <= 7,
{
    (b % 16) as i32 - 8
}

/// The value of the code in the upper half.
pub fn high_code(b: u8) -> (r: i32)
    ensures
        r == high_value(b),
        -8 <= r <= 7,
{
    (b / 16) as i32 - 8
}

/// The sum of products of the first `n` of two blocks.
pub open spec fn product(a: Seq<i8>, b: Seq<i8>, n: int) -> int
    decreases n,
{
    if n <= 0 {
        0
    } else {
        product(a, b, n - 1) + a[n - 1] * b[n - 1]
    }
}

/// The exact product of block `block` of two rows of codes.
pub fn block_dot(a: &[i8], b: &[i8], block: usize) -> (r: i32)
    requires
        (block + 1) * QBLOCK <= a@.len(),
        (block + 1) * QBLOCK <= b@.len(),
    ensures
        r == product(
            a@.subrange(block * QBLOCK, (block + 1) * QBLOCK),
            b@.subrange(block * QBLOCK, (block + 1) * QBLOCK),
            QBLOCK as int,
        ),
{
    let mut sum: i32 = 0;
    assert(a@.len() == a.len());
    let at: usize = block * QBLOCK;
    let ghost (x, y) = (
        a@.subrange(block * QBLOCK, (block + 1) * QBLOCK),
        b@.subrange(block * QBLOCK, (block + 1) * QBLOCK),
    );
    for i in 0..QBLOCK
        invariant
            at == block * QBLOCK,
            at + QBLOCK <= a@.len(),
            at + QBLOCK <= b@.len(),
            a@.len() == a.len(),
            x == a@.subrange(block * QBLOCK, (block + 1) * QBLOCK),
            y == b@.subrange(block * QBLOCK, (block + 1) * QBLOCK),
            sum == product(x, y, i as int),
            -16384 * i <= sum <= 16384 * i,
    {
        let (p, q): (i32, i32) = (a[at + i] as i32, b[at + i] as i32);
        assert(p == x[i as int] && q == y[i as int]);
        assert(-16384 <= p * q <= 16384) by (nonlinear_arith)
            requires
                -128 <= p <= 127,
                -128 <= q <= 127,
        ;
        sum = sum + p * q;
    }
    sum
}

// ---------------------------------------------------------------------------------------
// Matrices
// ---------------------------------------------------------------------------------------

/// A matrix of 8-bit codes with a scale for every block of [`QBLOCK`] in a row.
pub struct QMat {
    pub n: usize,
    pub k: usize,
    pub q: Vec<i8>,
    pub scales: Vec<u32>,
}

/// A matrix of 4-bit codes with a scale for every block of [`QBLOCK`] in a row. Byte `i` of a block
/// holds the codes of weights `i` and `i + 16`.
pub struct Q4Mat {
    pub n: usize,
    pub k: usize,
    pub q: Vec<u8>,
    pub scales: Vec<u32>,
}

/// Activations as 8-bit codes with a scale for every block.
pub struct Q8Act {
    pub q: Vec<i8>,
    pub scales: Vec<u32>,
    pub k: usize,
}

/// Bytes of codes and scales.
pub open spec fn coded_bytes(codes: int, scales: int) -> int {
    codes + scales * 4
}

/// Bytes of `codes` codes and `scales` scales, up to the largest machine word.
fn add_bytes(codes: usize, scales: usize) -> (r: usize)
    ensures
        r == kv::capped(coded_bytes(codes as int, scales as int)),
{
    let sum: u128 = codes as u128 + scales as u128 * 4;
    if sum < usize::MAX as u128 {
        sum as usize
    } else {
        usize::MAX
    }
}

impl QMat {
    /// There is a code for every weight and a scale for every block.
    pub open spec fn wf(self) -> bool {
        &&& self.q@.len() == self.n * self.k
        &&& self.k % QBLOCK == 0
        &&& self.scales@.len() == self.n * (self.k / QBLOCK)
    }

    /// Bytes of the codes and scales, up to the largest machine word.
    pub fn bytes(&self) -> (r: usize)
        ensures
            r == kv::capped(coded_bytes(self.q@.len() as int, self.scales@.len() as int)),
    {
        add_bytes(self.q.len(), self.scales.len())
    }
}

impl Q4Mat {
    /// There are two codes in a byte and a scale for every block.
    pub open spec fn wf(self) -> bool {
        &&& self.q@.len() * 2 == self.n * self.k
        &&& self.k % QBLOCK == 0
        &&& self.scales@.len() == self.n * (self.k / QBLOCK)
    }

    /// Bytes of the codes and scales, up to the largest machine word.
    pub fn bytes(&self) -> (r: usize)
        ensures
            r == kv::capped(coded_bytes(self.q@.len() as int, self.scales@.len() as int)),
    {
        add_bytes(self.q.len(), self.scales.len())
    }
}

/// A product is that of the numbers in the same places, whichever block comes first; a block that is
/// one in one place and zero elsewhere picks the number in that place.
pub proof fn products_pair_places(a: Seq<i8>, b: Seq<i8>, n: int, i: int)
    requires
        0 <= n <= a.len(),
        n <= b.len(),
    ensures
        product(a, b, n) == product(b, a, n),
        0 <= i < n && (forall|j: int|
            0 <= j < n ==> #[trigger] b[j] == (if j == i {
                1i8
            } else {
                0i8
            })) ==> product(a, b, n) == a[i],
        (forall|j: int| 0 <= j < n ==> #[trigger] b[j] == 0i8) ==> product(a, b, n) == 0,
    decreases n,
{
    if n > 0 {
        products_pair_places(a, b, n - 1, i);
        let (x, y) = (a[n - 1], b[n - 1]);
        assert(x * y == y * x) by (nonlinear_arith);
        assert(y == 0 ==> x * y == 0) by (nonlinear_arith);
        assert(y == 1 ==> x * y == x) by (nonlinear_arith);
        if 0 <= i < n && (forall|j: int|
            0 <= j < n ==> #[trigger] b[j] == (if j == i {
                1i8
            } else {
                0i8
            })) {
            assert(b[n - 1] == (if n - 1 == i {
                1i8
            } else {
                0i8
            }));
            if i == n - 1 {
                assert forall|j: int| 0 <= j < n - 1 implies #[trigger] b[j] == 0i8 by {}
            }
        }
        if forall|j: int| 0 <= j < n ==> #[trigger] b[j] == 0i8 {
            assert(b[n - 1] == 0i8);
        }
    }
}

} // verus!
