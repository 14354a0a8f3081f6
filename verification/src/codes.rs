//! Blocks of codes: the weight that sets a block's scale, 4-bit codes in their bytes, and the codes
//! of a matrix row.

use vstd::prelude::*;
use vstd::slice::*;

use crate::kernels;
use crate::kernels::{Q4Mat, QMat, QBLOCK};

verus! {

// ---------------------------------------------------------------------------------------
// Scales
// ---------------------------------------------------------------------------------------

/// How large a number in brain floating point is, whatever its sign: its place among those that are
/// not negative.
pub open spec fn magnitude(b: u16) -> int {
    b as int % 0x8000
}

/// The pattern is that of a number.
pub open spec fn is_number(b: u16) -> bool {
    magnitude(b) <= 0x7f80
}

/// Weight `i` is the first of the largest ones of a block that is not all zero.
pub open spec fn peak_at(s: Seq<u16>, i: int) -> bool {
    &&& 0 <= i < s.len()
    &&& is_number(s[i])
    &&& magnitude(s[i]) > 0
    &&& forall|j: int|
        0 <= j < s.len() && is_number(#[trigger] s[j]) ==> magnitude(s[j]) <= magnitude(s[i])
    &&& forall|j: int|
        0 <= j < i && is_number(#[trigger] s[j]) ==> magnitude(s[j]) < magnitude(s[i])
}

/// No weight of the block is a number other than zero.
pub open spec fn all_zero(s: Seq<u16>) -> bool {
    forall|j: int| 0 <= j < s.len() && is_number(#[trigger] s[j]) ==> magnitude(s[j]) == 0
}

/// The weight with the largest magnitude, which sets the scale of its block: of several the first,
/// and zero where all are zero. What is no number does not count.
pub fn peak(block: &[u16]) -> (r: u16)
    ensures
        all_zero(block@) ==> r == 0,
        !all_zero(block@) ==> exists|i: int| #[trigger] peak_at(block@, i) && r == block@[i],
{
    let mut best: u16 = 0;
    let ghost mut at: int = -1;
    for i in 0..block.len()
        invariant
            at < i,
            at < 0 ==> best == 0 && all_zero(block@.take(i as int)),
            at >= 0 ==> peak_at(block@.take(i as int), at) && best == block@[at],
    {
        let b: u16 = block[i];
        let ghost (front, next) = (block@.take(i as int), block@.take(i + 1));
        assert(forall|j: int| 0 <= j < i ==> next[j] == front[j]);
        assert(next[i as int] == b);
        if b % 0x8000 <= 0x7f80 && b % 0x8000 > best % 0x8000 {
            best = b;
            proof {
                assert(peak_at(next, i as int)) by {
                    if at >= 0 {
                        assert(front[at] == block@[at]);
                    }
                    assert forall|j: int| 0 <= j < i && is_number(#[trigger] next[j]) implies magnitude(
                        next[j],
                    ) < magnitude(b) by {
                        assert(next[j] == front[j]);
                    }
                }
                at = i as int;
            }
        } else {
            proof {
                if at >= 0 {
                    assert(front[at] == block@[at]);
                    assert(peak_at(next, at));
                } else {
                    assert(all_zero(next)) by {
                        assert forall|j: int| 0 <= j < next.len() && is_number(
                            #[trigger] next[j],
                        ) implies magnitude(next[j]) == 0 by {
                            if j < i {
                                assert(next[j] == front[j]);
                            }
                        }
                    }
                }
            }
        }
    }
    assert(block@.take(block@.len() as int) =~= block@);
    proof {
        if at >= 0 {
            assert(peak_at(block@, at));
        }
    }
    best
}

/// There is one largest weight that counts.
pub proof fn one_peak(s: Seq<u16>, i: int, j: int)
    requires
        peak_at(s, i),
        peak_at(s, j),
    ensures
        i == j,
{
    if i < j {
        assert(magnitude(s[i]) < magnitude(s[j]));
    }
    if j < i {
        assert(magnitude(s[j]) < magnitude(s[i]));
    }
}

// ---------------------------------------------------------------------------------------
// 4-bit codes
// ---------------------------------------------------------------------------------------

/// The bytes of a row of 4-bit codes. Byte `j` of a block holds code `j` in its lower half and code
/// `j + 16` in its upper half.
pub open spec fn packed(codes: Seq<u8>) -> Seq<u8> {
    Seq::new(
        codes.len() / 2,
        |p: int|
            {
                let at = (p / 16) * 32 + p % 16;
                (codes[at] + 16 * codes[at + 16]) as u8
            },
    )
}

/// The values of the codes in the bytes of a row.
pub open spec fn unpacked(q: Seq<u8>) -> Seq<int> {
    Seq::new(
        q.len() * 2,
        |w: int|
            if w % 32 < 16 {
                kernels::low_value(q[(w / 32) * 16 + w % 32])
            } else {
                kernels::high_value(q[(w / 32) * 16 + w % 32 - 16])
            },
    )
}

/// The codes are 4-bit codes, in whole blocks.
pub open spec fn are_codes(codes: Seq<u8>) -> bool {
    &&& codes.len() % 32 == 0
    &&& forall|i: int| 0 <= i < codes.len() ==> (#[trigger] codes[i]) < 16
}

/// Packs the codes of a row.
pub fn pack_row(codes: &[u8]) -> (r: Vec<u8>)
    requires
        are_codes(codes@),
    ensures
        r@ == packed(codes@),
{
    let mut out: Vec<u8> = Vec::new();
    let n: usize = codes.len() / 2;
    for p in 0..n
        invariant
            n == codes@.len() / 2,
            codes@.len() == codes.len(),
            are_codes(codes@),
            out@ == packed(codes@).take(p as int),
    {
        let at: usize = (p / 16) * 32 + p % 16;
        let b: u8 = kernels::pack_codes(codes[at], codes[at + 16]);
        out.push(b);
        assert(packed(codes@).take(p + 1) =~= packed(codes@).take(p as int).push(b));
    }
    assert(packed(codes@).take(n as int) =~= packed(codes@));
    out
}

/// The values of a row of codes.
pub open spec fn as_ints(s: Seq<i8>) -> Seq<int> {
    s.map_values(|x: i8| x as int)
}

/// Unpacks the codes of a row.
pub fn unpack_row(q: &[u8]) -> (r: Vec<i8>)
    requires
        q@.len() % 16 == 0,
        q@.len() * 2 <= usize::MAX,
    ensures
        as_ints(r@) == unpacked(q@),
{
    let mut out: Vec<i8> = Vec::new();
    let n: usize = q.len() * 2;
    for w in 0..n
        invariant
            n == q@.len() * 2,
            q@.len() % 16 == 0,
            as_ints(out@) == unpacked(q@).take(w as int),
    {
        let v: i8 = if w % 32 < 16 {
            kernels::low_code(q[(w / 32) * 16 + w % 32]) as i8
        } else {
            kernels::high_code(q[(w / 32) * 16 + (w % 32 - 16)]) as i8
        };
        let ghost before = as_ints(out@);
        out.push(v);
        proof {
            assert(as_ints(out@) =~= before.push(v as int));
            assert(unpacked(q@).take(w + 1) =~= unpacked(q@).take(w as int).push(v as int));
        }
    }
    assert(unpacked(q@).take(n as int) =~= unpacked(q@));
    out
}

/// Codes that were packed are unpacked as they were, each as its value.
pub proof fn codes_come_back(codes: Seq<u8>, w: int)
    requires
        are_codes(codes),
        0 <= w < codes.len(),
    ensures
        unpacked(packed(codes)).len() == codes.len(),
        unpacked(packed(codes))[w] == codes[w] - 8,
{
    let p = (w / 32) * 16 + (if w % 32 < 16 {
        w % 32
    } else {
        w % 32 - 16
    });
    let at = (p / 16) * 32 + p % 16;
    assert(at == (w / 32) * 32 + (if w % 32 < 16 {
        w % 32
    } else {
        w % 32 - 16
    }));
    assert(at + 16 < codes.len());
    assert(codes[at] < 16 && codes[at + 16] < 16);
    assert(packed(codes)[p] == codes[at] + 16 * codes[at + 16]);
}

// ---------------------------------------------------------------------------------------
// Rows
// ---------------------------------------------------------------------------------------

/// Row `i` of a matrix with rows of `k` lies within its `n` rows.
proof fn lemma_row(i: int, n: int, k: int)
    requires
        0 <= i < n,
        0 <= k,
    ensures
        0 <= i * k,
        i * k + k == (i + 1) * k,
        (i + 1) * k <= n * k,
{
    assert(0 <= i * k && i * k + k == (i + 1) * k && (i + 1) * k <= n * k) by (nonlinear_arith)
        requires
            0 <= i < n,
            0 <= k,
    ;
}

impl QMat {
    /// The codes and the scales of row `i`.
    pub fn row(&self, i: usize) -> (r: (&[i8], &[u32]))
        requires
            self.wf(),
            i < self.n,
        ensures
            r.0@ == self.q@.subrange(i * self.k, (i + 1) * self.k),
            r.1@ == self.scales@.subrange(
                i * (self.k / QBLOCK),
                (i + 1) * (self.k / QBLOCK),
            ),
    {
        let blocks: usize = self.k / QBLOCK;
        proof {
            lemma_row(i as int, self.n as int, self.k as int);
            lemma_row(i as int, self.n as int, blocks as int);
        }
        assert(self.q.len() == self.q@.len());
        assert(self.scales.len() == self.scales@.len());
        let from: usize = i * self.k;
        let at: usize = i * blocks;
        (
            slice_subrange(self.q.as_slice(), from, from + self.k),
            slice_subrange(self.scales.as_slice(), at, at + blocks),
        )
    }
}

impl Q4Mat {
    /// The bytes and the scales of row `i`.
    pub fn row(&self, i: usize) -> (r: (&[u8], &[u32]))
        requires
            self.wf(),
            i < self.n,
        ensures
            r.0@ == self.q@.subrange(i * (self.k / 2), (i + 1) * (self.k / 2)),
            r.1@ == self.scales@.subrange(
                i * (self.k / QBLOCK),
                (i + 1) * (self.k / QBLOCK),
            ),
            r.0@.len() % 16 == 0,
    {
        let blocks: usize = self.k / QBLOCK;
        let half: usize = self.k / 2;
        proof {
            lemma_row(i as int, self.n as int, half as int);
            lemma_row(i as int, self.n as int, blocks as int);
            assert(self.n * self.k == 2 * (self.n * half)) by (nonlinear_arith)
                requires
                    self.k == 2 * half,
            ;
        }
        assert(self.q.len() == self.q@.len());
        assert(self.scales.len() == self.scales@.len());
        let from: usize = i * half;
        let at: usize = i * blocks;
        (
            slice_subrange(self.q.as_slice(), from, from + half),
            slice_subrange(self.scales.as_slice(), at, at + blocks),
        )
    }
}

/// The byte at place `p` of a row holds two codes of one block of 32: one of its first half in the
/// lower bits and the one that stands 16 behind it in the upper bits.
pub proof fn bytes_hold_both_halves(codes: Seq<u8>, p: int)
    requires
        are_codes(codes),
        0 <= p < codes.len() / 2,
    ensures
        packed(codes).len() == codes.len() / 2,
        packed(codes)[p] % 16 == codes[(p / 16) * 32 + p % 16],
        packed(codes)[p] / 16 == codes[(p / 16) * 32 + p % 16 + 16],
{
    let at = (p / 16) * 32 + p % 16;
    assert(at + 16 < codes.len());
    assert(codes[at] < 16 && codes[at + 16] < 16);
}

} // verus!
