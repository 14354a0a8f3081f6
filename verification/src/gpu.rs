//! The layouts of matrices on a graphics device.

use vstd::arithmetic::div_mod::*;
use vstd::prelude::*;
use vstd::slice::*;

use crate::kernels::{QMat, QBLOCK};

verus! {

/// Rows of a tile.
pub const TILE: usize = 64;

/// The codes of matrices, one behind the other.
pub open spec fn joined_codes(parts: Seq<&QMat>) -> Seq<i8>
    decreases parts.len(),
{
    if parts.len() == 0 {
        seq![]
    } else {
        joined_codes(parts.drop_last()) + parts.last().q@
    }
}

/// The scales of matrices, one behind the other.
pub open spec fn joined_scales(parts: Seq<&QMat>) -> Seq<u32>
    decreases parts.len(),
{
    if parts.len() == 0 {
        seq![]
    } else {
        joined_scales(parts.drop_last()) + parts.last().scales@
    }
}

/// The rows of matrices together.
pub open spec fn joined_rows(parts: Seq<&QMat>) -> int
    decreases parts.len(),
{
    if parts.len() == 0 {
        0
    } else {
        joined_rows(parts.drop_last()) + parts.last().n
    }
}

/// Rows of some of the matrices are no more than those of all.
proof fn lemma_rows_grow(parts: Seq<&QMat>, i: int)
    requires
        0 <= i <= parts.len(),
    ensures
        0 <= joined_rows(parts.take(i)) <= joined_rows(parts),
    decreases parts.len(),
{
    if i < parts.len() {
        lemma_rows_grow(parts.drop_last(), i);
        assert(parts.drop_last().take(i) =~= parts.take(i));
    } else {
        assert(parts.take(i) =~= parts);
        if parts.len() > 0 {
            lemma_rows_grow(parts.drop_last(), i - 1);
        }
    }
}

/// Puts matrices with the same number of columns on top of each other.
pub fn concat_q8(parts: &[&QMat]) -> (r: QMat)
    requires
        parts@.len() > 0,
        forall|i: int| 0 <= i < parts@.len() ==> (#[trigger] parts@[i]).k == parts@[0].k,
        joined_rows(parts@) <= usize::MAX,
    ensures
        r.k == parts@[0].k,
        r.n == joined_rows(parts@),
        r.q@ == joined_codes(parts@),
        r.scales@ == joined_scales(parts@),
        (forall|i: int| 0 <= i < parts@.len() ==> (#[trigger] parts@[i]).wf()) ==> r.wf(),
{
    let k: usize = parts[0].k;
    let mut q: Vec<i8> = Vec::new();
    let mut scales: Vec<u32> = Vec::new();
    let mut n: usize = 0;
    for i in 0..parts.len()
        invariant
            joined_rows(parts@) <= usize::MAX,
            n == joined_rows(parts@.take(i as int)),
            q@ == joined_codes(parts@.take(i as int)),
            scales@ == joined_scales(parts@.take(i as int)),
    {
        assert(parts@.take(i + 1).drop_last() =~= parts@.take(i as int));
        proof {
            lemma_rows_grow(parts@, i + 1);
        }
        let mut c: Vec<i8> = slice_to_vec(parts[i].q.as_slice());
        q.append(&mut c);
        let mut s: Vec<u32> = slice_to_vec(parts[i].scales.as_slice());
        scales.append(&mut s);
        n = n + parts[i].n;
    }
    proof {
        assert(parts@.take(parts@.len() as int) =~= parts@);
        if forall|i: int| 0 <= i < parts@.len() ==> (#[trigger] parts@[i]).wf() {
            assert(parts@[0].wf());
            lemma_joined_sizes(parts@, k);
        }
    }
    QMat { n, k, q, scales }
}

/// Matrices on top of each other have the codes and scales of all their rows.
proof fn lemma_joined_sizes(parts: Seq<&QMat>, k: usize)
    requires
        forall|i: int| 0 <= i < parts.len() ==> (#[trigger] parts[i]).wf() && parts[i].k == k,
    ensures
        joined_codes(parts).len() == joined_rows(parts) * k,
        joined_scales(parts).len() == joined_rows(parts) * (k / QBLOCK),
    decreases parts.len(),
{
    if parts.len() > 0 {
        let p = parts.drop_last();
        assert forall|i: int| 0 <= i < p.len() implies (#[trigger] p[i]).wf() && p[i].k == k by {
            assert(p[i] == parts[i]);
        }
        lemma_joined_sizes(p, k);
        let m = parts[parts.len() - 1];
        assert(m.wf());
        let (a, b) = (joined_rows(p), m.n as int);
        assert((a + b) * k == a * k + b * k) by (nonlinear_arith);
        assert((a + b) * (k / QBLOCK) == a * (k / QBLOCK) + b * (k / QBLOCK)) by (nonlinear_arith);
    } else {
        assert(0 * k == 0 && 0 * (k / QBLOCK) == 0) by (nonlinear_arith);
    }
}

/// Tiles that cover `n` rows.
pub open spec fn tiles(n: int) -> int {
    (n + TILE - 1) / (TILE as int)
}

/// What stands at place `p` of the tiled layout of `src`, `n` rows of `per` words: tiles of 64 rows
/// follow each other; within a tile the words follow each other, and of each word the rows do. Rows
/// that fill up the last tile hold zeros.
pub open spec fn tiled(src: Seq<u32>, n: int, per: int, p: int) -> u32 {
    let tile = (p / (TILE as int)) / per;
    let word = (p / (TILE as int)) % per;
    let row = tile * TILE + p % (TILE as int);
    if row < n {
        src[row * per + word]
    } else {
        0
    }
}

/// The tiled layout of `src`, `n` rows of `per` words.
pub fn interleave(src: &[u32], n: usize, per: usize) -> (r: Vec<u32>)
    requires
        src@.len() == n * per,
        per > 0,
        n + TILE <= usize::MAX,
    ensures
        r@.len() == tiles(n as int) * per * TILE,
        forall|p: int|
            0 <= p < r@.len() ==> #[trigger] r@[p] == tiled(src@, n as int, per as int, p),
{
    let count: usize = (n + (TILE - 1)) / TILE;
    let mut out: Vec<u32> = Vec::new();
    proof {
        assert(0 * per == 0 && 0 * TILE == 0) by (nonlinear_arith);
    }
    for t in 0..count
        invariant
            src@.len() == n * per,
            src@.len() == src.len(),
            per > 0,
            n + TILE <= usize::MAX,
            count == tiles(n as int),
            out@.len() == (t * per) * TILE,
            forall|p: int|
                0 <= p < out@.len() ==> #[trigger] out@[p] == tiled(src@, n as int, per as int, p),
    {
        for w in 0..per
            invariant
                src@.len() == n * per,
                src@.len() == src.len(),
                per > 0,
                n + TILE <= usize::MAX,
                t < count,
                count == tiles(n as int),
                out@.len() == (t * per + w) * TILE,
                forall|p: int|
                    0 <= p < out@.len() ==> #[trigger] out@[p] == tiled(
                        src@,
                        n as int,
                        per as int,
                        p,
                    ),
        {
            for lane in 0..TILE
                invariant
                    src@.len() == n * per,
                    src@.len() == src.len(),
                    per > 0,
                    n + TILE <= usize::MAX,
                    w < per,
                    t < count,
                    count == tiles(n as int),
                    out@.len() == (t * per + w) * TILE + lane,
                    forall|p: int|
                        0 <= p < out@.len() ==> #[trigger] out@[p] == tiled(
                            src@,
                            n as int,
                            per as int,
                            p,
                        ),
            {
                let row: usize = t * TILE + lane;
                let x: u32 = if row < n {
                    proof {
                        assert(row * per + w < n * per) by (nonlinear_arith)
                            requires
                                row + 1 <= n,
                                w < per,
                        ;
                        assert(0 <= row * per) by (nonlinear_arith);
                    }
                    src[row * per + w]
                } else {
                    0
                };
                proof {
                    let p = (t * per + w) * TILE + lane;
                    lemma_fundamental_div_mod_converse(p, TILE as int, t * per + w, lane as int);
                    lemma_fundamental_div_mod_converse(
                        t * per + w,
                        per as int,
                        t as int,
                        w as int,
                    );
                    assert(x == tiled(src@, n as int, per as int, p));
                }
                out.push(x);
            }
            assert((t * per + w) * TILE + TILE == (t * per + (w + 1)) * TILE) by (nonlinear_arith);
        }
        assert(t * per + per == (t + 1) * per) by (nonlinear_arith);
    }
    out
}

/// The place of word `w` of row `r` in the tiled layout.
pub open spec fn place(r: int, w: int, per: int) -> int {
    ((r / (TILE as int)) * per + w) * TILE + r % (TILE as int)
}

/// Every word of every row is found at its place.
pub proof fn tiling_keeps_words(src: Seq<u32>, n: int, per: int, r: int, w: int)
    requires
        0 <= r < n,
        0 <= w < per,
    ensures
        tiled(src, n, per, place(r, w, per)) == src[r * per + w],
{
    let t = r / (TILE as int);
    let lane = r % (TILE as int);
    lemma_fundamental_div_mod_converse(place(r, w, per), TILE as int, t * per + w, lane);
    lemma_fundamental_div_mod_converse(t * per + w, per, t, w);
}

/// The little-endian words of codes: four codes to a word.
pub open spec fn words(q: Seq<i8>) -> Seq<u32> {
    Seq::new((q.len() / 4) as nat, |i: int| word(q, i))
}

/// Word `i` of codes.
pub open spec fn word(q: Seq<i8>, i: int) -> u32 {
    (crate::bytes::unsigned(q[4 * i]) + 256 * crate::bytes::unsigned(q[4 * i + 1]) + 65536
        * crate::bytes::unsigned(q[4 * i + 2]) + 16777216 * crate::bytes::unsigned(
        q[4 * i + 3],
    )) as u32
}

/// A code as a byte.
fn code_byte(x: i8) -> (r: u32)
    ensures
        r == crate::bytes::unsigned(x),
        r < 256,
{
    if x >= 0 {
        x as u32
    } else {
        (x as i32 + 256) as u32
    }
}

/// The little-endian words of codes.
pub fn pack_words(q: &[i8]) -> (r: Vec<u32>)
    ensures
        r@ == words(q@),
{
    let n: usize = q.len() / 4;
    let mut out: Vec<u32> = Vec::new();
    for i in 0..n
        invariant
            n == q@.len() / 4,
            q@.len() == q.len(),
            out@.len() == i,
            forall|j: int| 0 <= j < i ==> #[trigger] out@[j] == word(q@, j),
    {
        let (a, b, c, d): (u32, u32, u32, u32) = (
            code_byte(q[4 * i]),
            code_byte(q[4 * i + 1]),
            code_byte(q[4 * i + 2]),
            code_byte(q[4 * i + 3]),
        );
        out.push(a + 256 * b + 65536 * c + 16777216 * d);
    }
    assert(out@ =~= words(q@));
    out
}

/// Matrices on top of each other keep their rows: the codes and the scales of the first parts are
/// followed by those of the last.
pub proof fn parts_stand_in_order(parts: Seq<&QMat>)
    requires
        parts.len() > 0,
    ensures
        joined_codes(parts).take(parts[0].q@.len() as int) == parts[0].q@,
        joined_scales(parts).take(parts[0].scales@.len() as int) == parts[0].scales@,
        joined_codes(parts).skip(joined_codes(parts).len() - parts.last().q@.len())
            == parts.last().q@,
        joined_scales(parts).skip(joined_scales(parts).len() - parts.last().scales@.len())
            == parts.last().scales@,
        joined_rows(parts) >= parts[0].n,
    decreases parts.len(),
{
    let p = parts.drop_last();
    if parts.len() > 1 {
        parts_stand_in_order(p);
        assert(p[0] == parts[0]);
        assert(joined_codes(parts).take(parts[0].q@.len() as int) =~= joined_codes(p).take(
            parts[0].q@.len() as int,
        )) by {
            lemma_first_fits(p);
        }
        assert(joined_scales(parts).take(parts[0].scales@.len() as int) =~= joined_scales(p).take(
            parts[0].scales@.len() as int,
        )) by {
            lemma_first_fits(p);
        }
    } else {
        assert(joined_codes(p) =~= seq![]);
        assert(joined_scales(p) =~= seq![]);
        assert(joined_rows(p) == 0);
        assert(joined_codes(parts) =~= parts[0].q@);
        assert(joined_scales(parts) =~= parts[0].scales@);
        assert(parts[0].q@.take(parts[0].q@.len() as int) =~= parts[0].q@);
        assert(parts[0].scales@.take(parts[0].scales@.len() as int) =~= parts[0].scales@);
    }
    assert(joined_codes(parts).skip(joined_codes(parts).len() - parts.last().q@.len())
        =~= parts.last().q@);
    assert(joined_scales(parts).skip(joined_scales(parts).len() - parts.last().scales@.len())
        =~= parts.last().scales@);
}

/// All parts together are no shorter than the first.
proof fn lemma_first_fits(parts: Seq<&QMat>)
    requires
        parts.len() > 0,
    ensures
        joined_codes(parts).len() >= parts[0].q@.len(),
        joined_scales(parts).len() >= parts[0].scales@.len(),
    decreases parts.len(),
{
    if parts.len() > 1 {
        lemma_first_fits(parts.drop_last());
        assert(parts.drop_last()[0] == parts[0]);
    }
}

/// The codes of a word are found in its bytes, the first in the lowest.
pub proof fn words_hold_their_codes(q: Seq<i8>, i: int)
    requires
        0 <= i < q.len() / 4,
    ensures
        words(q).len() == q.len() / 4,
        words(q)[i] % 256 == crate::bytes::unsigned(q[4 * i]),
        (words(q)[i] / 256) % 256 == crate::bytes::unsigned(q[4 * i + 1]),
        (words(q)[i] / 65536) % 256 == crate::bytes::unsigned(q[4 * i + 2]),
        words(q)[i] / 16777216 == crate::bytes::unsigned(q[4 * i + 3]),
{
}

} // verus!
