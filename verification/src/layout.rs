//! Where the numbers of a step stand: rows that are picked out and put side by side, the parts of a
//! row that belong to a head, and how the cells of a product are shared out.

use vstd::arithmetic::div_mod::*;
use vstd::arithmetic::mul::*;
use vstd::prelude::*;
use vstd::slice::*;

use crate::config::LinCfg;
use crate::kernels;
use crate::kernels::ROWS_PER_CHUNK;

verus! {

// ---------------------------------------------------------------------------------------
// Rows
// ---------------------------------------------------------------------------------------

/// Row `j` of a matrix with rows of `width`.
pub open spec fn row<T>(x: Seq<T>, j: int, width: int) -> Seq<T> {
    x.subrange(j * width, j * width + width)
}

/// The first `n` of the rows `rows`, side by side.
pub open spec fn picked<T>(x: Seq<T>, rows: Seq<usize>, width: int, n: int) -> Seq<T>
    decreases n,
{
    if n <= 0 {
        seq![]
    } else {
        picked(x, rows, width, n - 1) + row(x, rows[n - 1] as int, width)
    }
}

/// The rows lie within the matrix.
pub open spec fn rows_within(rows: Seq<usize>, width: int, len: int) -> bool {
    forall|r: int| 0 <= r < rows.len() ==> (#[trigger] rows[r]) * width + width <= len
}

/// The rows `rows` of `x`, side by side.
pub fn pick_rows<T: Copy>(x: &[T], rows: &[usize], width: usize) -> (r: Vec<T>)
    requires
        rows_within(rows@, width as int, x@.len() as int),
    ensures
        r@ == picked(x@, rows@, width as int, rows@.len() as int),
{
    let mut out: Vec<T> = Vec::new();
    assert(x.len() == x@.len());
    for i in 0..rows.len()
        invariant
            x.len() == x@.len(),
            rows_within(rows@, width as int, x@.len() as int),
            out@ == picked(x@, rows@, width as int, i as int),
    {
        let j: usize = rows[i];
        assert(rows@[i as int] * width + width <= x@.len());
        assert(0 <= j * width) by (nonlinear_arith);
        let at: usize = j * width;
        let mut one: Vec<T> = slice_to_vec(slice_subrange(x, at, at + width));
        out.append(&mut one);
    }
    out
}

/// Picked rows stand where they were put.
pub proof fn picked_rows_stand<T>(x: Seq<T>, rows: Seq<usize>, width: int, n: int, r: int)
    requires
        0 <= r < n <= rows.len(),
        0 <= width,
        rows_within(rows, width, x.len() as int),
    ensures
        picked(x, rows, width, n).len() == n * width,
        row(picked(x, rows, width, n), r, width) == row(x, rows[r] as int, width),
    decreases n,
{
    let front = picked(x, rows, width, n - 1);
    let last = rows[n - 1];
    assert(last * width + width <= x.len());
    assert(0 <= last * width) by (nonlinear_arith)
        requires
            0 <= width,
            0 <= last,
    ;
    assert(n * width == (n - 1) * width + width) by (nonlinear_arith);
    if n == 1 {
        assert(0 * width == 0);
        assert(front.len() == 0);
    } else {
        picked_rows_stand(x, rows, width, n - 1, 0);
    }
    let all = picked(x, rows, width, n);
    if r < n - 1 {
        picked_rows_stand(x, rows, width, n - 1, r);
        assert(0 <= r * width && r * width + width <= (n - 1) * width) by (nonlinear_arith)
            requires
                0 <= r < n - 1,
                0 <= width,
        ;
        assert(row(all, r, width) =~= row(front, r, width));
    } else {
        assert(row(all, r, width) =~= row(x, last as int, width));
    }
}

/// A matrix as its rows.
pub fn split_rows<T: Copy>(x: &[T], width: usize) -> (r: Vec<Vec<T>>)
    requires
        width > 0,
        x@.len() % (width as nat) == 0,
    ensures
        r@.len() == x@.len() / (width as nat),
        forall|i: int| 0 <= i < r@.len() ==> (#[trigger] r@[i])@ == row(x@, i, width as int),
{
    let mut out: Vec<Vec<T>> = Vec::new();
    let n: usize = x.len() / width;
    proof {
        lemma_fundamental_div_mod(x@.len() as int, width as int);
    }
    for i in 0..n
        invariant
            x.len() == x@.len(),
            x@.len() == width * n,
            out@.len() == i,
            forall|k: int| 0 <= k < i ==> (#[trigger] out@[k])@ == row(x@, k, width as int),
    {
        assert(0 <= i * width && i * width + width <= width * n) by (nonlinear_arith)
            requires
                0 <= i < n,
                0 <= width,
        ;
        let at: usize = i * width;
        out.push(slice_to_vec(slice_subrange(x, at, at + width)));
    }
    out
}

/// The embeddings of tokens, one behind the other, as single-precision bit patterns.
pub open spec fn embedded(embed: Seq<u16>, items: Seq<(u32, usize)>, hidden: int, n: int) -> Seq<u32>
    decreases n,
{
    if n <= 0 {
        seq![]
    } else {
        embedded(embed, items, hidden, n - 1) + row(embed, items[n - 1].0 as int, hidden).map_values(
            |b: u16| (b * 65536) as u32,
        )
    }
}

/// The embeddings of the tokens of a step, one behind the other, as single-precision bit patterns.
pub fn embed_rows(embed: &[u16], items: &[(u32, usize)], hidden: usize) -> (r: Vec<u32>)
    requires
        forall|j: int|
            0 <= j < items@.len() ==> (#[trigger] items@[j]).0 * hidden + hidden <= embed@.len(),
        forall|j: int| 0 <= j < items@.len() ==> (#[trigger] items@[j]).0 <= usize::MAX,
    ensures
        r@ == embedded(embed@, items@, hidden as int, items@.len() as int),
{
    let mut out: Vec<u32> = Vec::new();
    assert(embed.len() == embed@.len());
    for j in 0..items.len()
        invariant
            embed.len() == embed@.len(),
            forall|j: int|
                0 <= j < items@.len() ==> (#[trigger] items@[j]).0 * hidden + hidden
                    <= embed@.len(),
            forall|j: int| 0 <= j < items@.len() ==> (#[trigger] items@[j]).0 <= usize::MAX,
            out@ == embedded(embed@, items@, hidden as int, j as int),
    {
        let t: u32 = items[j].0;
        assert(items@[j as int].0 * hidden + hidden <= embed@.len());
        assert(items@[j as int].0 <= usize::MAX);
        assert(0 <= t * hidden) by (nonlinear_arith);
        let at: usize = t as usize * hidden;
        let ghost before = out@;
        let ghost line = row(embed@, t as int, hidden as int);
        for d in 0..hidden
            invariant
                embed.len() == embed@.len(),
                at + hidden <= embed@.len(),
                line == embed@.subrange(at as int, at + hidden),
                out@ == before + line.take(d as int).map_values(|b: u16| (b * 65536) as u32),
        {
            let v: u32 = kernels::bf16_to_f32(embed[at + d]);
            out.push(v);
            assert(line.take(d + 1).map_values(|b: u16| (b * 65536) as u32) =~= line.take(
                d as int,
            ).map_values(|b: u16| (b * 65536) as u32).push(v));
        }
        assert(line.take(hidden as int) =~= line);
    }
    out
}

// ---------------------------------------------------------------------------------------
// Heads
// ---------------------------------------------------------------------------------------

/// The part of `len` numbers at `off` in block `b` of blocks of `stride`.
pub open spec fn part<T>(q: Seq<T>, b: int, stride: int, off: int, len: int) -> Seq<T> {
    q.subrange(b * stride + off, b * stride + off + len)
}

/// That part of the first `n` blocks, one behind the other.
pub open spec fn gathered<T>(q: Seq<T>, n: int, stride: int, off: int, len: int) -> Seq<T>
    decreases n,
{
    if n <= 0 {
        seq![]
    } else {
        gathered(q, n - 1, stride, off, len) + part(q, n - 1, stride, off, len)
    }
}

/// The part of `len` numbers at `off` of every block of `stride` numbers, one behind the other. The
/// query of a head with a gate stands before its gate in the head's block.
pub fn gather<T: Copy>(q: &[T], blocks: usize, stride: usize, off: usize, len: usize) -> (r: Vec<T>)
    requires
        blocks * stride <= q@.len(),
        off + len <= stride,
    ensures
        r@ == gathered(q@, blocks as int, stride as int, off as int, len as int),
{
    let mut out: Vec<T> = Vec::new();
    assert(q.len() == q@.len());
    for b in 0..blocks
        invariant
            q.len() == q@.len(),
            blocks * stride <= q@.len(),
            off + len <= stride,
            out@ == gathered(q@, b as int, stride as int, off as int, len as int),
    {
        assert(0 <= b * stride && b * stride + stride <= blocks * stride) by (nonlinear_arith)
            requires
                0 <= b < blocks,
                0 <= stride,
        ;
        let at: usize = b * stride + off;
        let mut one: Vec<T> = slice_to_vec(slice_subrange(q, at, at + len));
        out.append(&mut one);
    }
    out
}

/// Gathered parts stand in the order of their blocks.
pub proof fn gathered_parts_stand<T>(q: Seq<T>, n: int, stride: int, off: int, len: int, b: int)
    requires
        0 <= b < n,
        0 <= off,
        0 <= len,
        off + len <= stride,
        n * stride <= q.len(),
    ensures
        gathered(q, n, stride, off, len).len() == n * len,
        row(gathered(q, n, stride, off, len), b, len) == part(q, b, stride, off, len),
    decreases n,
{
    assert(n * len == (n - 1) * len + len) by (nonlinear_arith);
    assert(n * stride == (n - 1) * stride + stride) by (nonlinear_arith);
    assert(0 <= (n - 1) * stride) by (nonlinear_arith)
        requires
            1 <= n,
            0 <= stride,
    ;
    let front = gathered(q, n - 1, stride, off, len);
    if n == 1 {
        assert(0 * len == 0);
        assert(front.len() == 0);
    } else {
        gathered_parts_stand(q, n - 1, stride, off, len, 0);
    }
    let all = gathered(q, n, stride, off, len);
    if b < n - 1 {
        gathered_parts_stand(q, n - 1, stride, off, len, b);
        assert(0 <= b * len && b * len + len <= (n - 1) * len) by (nonlinear_arith)
            requires
                0 <= b < n - 1,
                0 <= len,
        ;
        assert(row(all, b, len) =~= row(front, b, len));
    } else {
        assert(row(all, b, len) =~= part(q, b, stride, off, len));
    }
}

/// The key head that serves query head `head`.
pub open spec fn served_by(head: int, heads: int, kv_heads: int) -> int {
    head / (heads / kv_heads)
}

/// Task `c` of attention over several items: the item, its head, and the key head that serves it.
pub fn attention_task(c: usize, heads: usize, kv_heads: usize) -> (r: (usize, usize, usize))
    requires
        0 < kv_heads,
        heads % kv_heads == 0,
        0 < heads,
    ensures
        r.0 == c as int / heads as int,
        r.1 == c as int % heads as int,
        r.2 == served_by(r.1 as int, heads as int, kv_heads as int),
        r.1 < heads,
        r.2 < kv_heads,
{
    let (item, head): (usize, usize) = (c / heads, c % heads);
    let group: usize = heads / kv_heads;
    proof {
        lemma_fundamental_div_mod(heads as int, kv_heads as int);
        if group == 0 {
            assert(kv_heads * group == 0);
        }
        lemma_fundamental_div_mod(head as int, group as int);
        let kv = head as int / group as int;
        assert(kv < kv_heads) by (nonlinear_arith)
            requires
                head < heads,
                heads == kv_heads * group,
                head >= group * kv,
                group > 0,
        ;
    }
    (item, head, head / group)
}

/// Every item and head have one task, and every key head serves as many heads as the others: those
/// that follow one another.
pub proof fn heads_are_served(item: int, head: int, heads: int, kv_heads: int)
    requires
        0 < kv_heads,
        heads % kv_heads == 0,
        0 <= head < heads,
        0 <= item,
    ensures
        (item * heads + head) / heads == item,
        (item * heads + head) % heads == head,
        ({
            let group = heads / kv_heads;
            let kv = served_by(head, heads, kv_heads);
            0 <= kv < kv_heads && kv * group <= head < (kv + 1) * group
        }),
{
    let group = heads / kv_heads;
    let kv = served_by(head, heads, kv_heads);
    lemma_fundamental_div_mod_converse(item * heads + head, heads, item, head);
    lemma_fundamental_div_mod(heads, kv_heads);
    if group <= 0 {
        assert(kv_heads * group <= 0) by (nonlinear_arith)
            requires
                kv_heads > 0,
                group <= 0,
        ;
    }
    lemma_fundamental_div_mod(head, group);
    assert(0 <= kv) by {
        lemma_div_pos_is_pos(head, group);
    }
    assert(kv * group <= head < (kv + 1) * group) by (nonlinear_arith)
        requires
            head == group * kv + head % group,
            0 <= head % group < group,
    ;
    assert(kv < kv_heads) by (nonlinear_arith)
        requires
            head < heads,
            heads == kv_heads * group,
            kv * group <= head,
            group > 0,
    ;
}

/// Where the key or value of key head `kv` at position `t` stands.
pub open spec fn kv_at(t: int, kv: int, kv_heads: int, hd: int) -> int {
    t * (kv_heads * hd) + kv * hd
}

/// Where the key or value of key head `kv` at position `t` stands, in rows of `kv_heads` heads of
/// `hd` numbers.
pub fn kv_start(t: usize, kv: usize, kv_heads: usize, hd: usize) -> (r: usize)
    requires
        kv < kv_heads,
        (t + 1) * (kv_heads * hd) <= usize::MAX,
    ensures
        r == t * (kv_heads * hd) + kv * hd,
        r == kv_at(t as int, kv as int, kv_heads as int, hd as int),
        r + hd <= (t + 1) * (kv_heads * hd),
{
    let ghost stride = kv_heads * hd;
    assert(0 <= stride && 0 <= t * stride && t * stride + stride == (t + 1) * stride && stride <= (t
        + 1) * stride && kv * hd + hd <= stride && 0 <= kv * hd) by (nonlinear_arith)
        requires
            stride == kv_heads * hd,
            0 <= kv < kv_heads,
            0 <= hd,
            0 <= t,
    ;
    let s: usize = kv_heads * hd;
    t * s + kv * hd
}

// ---------------------------------------------------------------------------------------
// Pieces
// ---------------------------------------------------------------------------------------

/// Pieces of at most `size` that `n` is cut into.
pub open spec fn pieces_of(n: int, size: int) -> int {
    if n % size == 0 {
        n / size
    } else {
        n / size + 1
    }
}

/// Piece `i`: its start and what is behind its end.
pub open spec fn piece_of(i: int, n: int, size: int) -> (int, int) {
    (
        i * size,
        if n - i * size < size {
            n
        } else {
            i * size + size
        },
    )
}

/// Cuts `n` into pieces of `size`, the last of which may be shorter.
pub fn pieces(n: usize, size: usize) -> (r: Vec<(usize, usize)>)
    requires
        size > 0,
    ensures
        r@.len() == pieces_of(n as int, size as int),
        forall|i: int|
            0 <= i < r@.len() ==> ((#[trigger] r@[i]).0 as int, r@[i].1 as int) == piece_of(
                i,
                n as int,
                size as int,
            ),
{
    let mut out: Vec<(usize, usize)> = Vec::new();
    let mut at: usize = 0;
    assert(0 * size == 0);
    while at < n
        invariant
            size > 0,
            at <= n,
            at < n ==> at == out@.len() * size,
            at == n ==> out@.len() == pieces_of(n as int, size as int),
            forall|i: int|
                0 <= i < out@.len() ==> ((#[trigger] out@[i]).0 as int, out@[i].1 as int)
                    == piece_of(i, n as int, size as int),
        decreases n - at,
    {
        let ghost k = out@.len() as int;
        let end: usize = if n - at < size {
            n
        } else {
            at + size
        };
        proof {
            assert((k + 1) * size == k * size + size) by (nonlinear_arith);
            if end == n {
                if n - at < size {
                    lemma_fundamental_div_mod_converse(n as int, size as int, k, n - at);
                } else {
                    lemma_fundamental_div_mod_converse(n as int, size as int, k + 1, 0);
                }
            }
        }
        out.push((at, end));
        at = end;
    }
    proof {
        if n == 0 {
            lemma_fundamental_div_mod_converse(0, size as int, 0, 0);
        }
    }
    out
}

/// Every element stands in exactly one piece.
pub proof fn pieces_cover(n: int, size: int, x: int)
    requires
        0 < size,
        0 <= x < n,
    ensures
        0 <= x / size < pieces_of(n, size),
        forall|i: int|
            0 <= i < pieces_of(n, size) ==> ((#[trigger] piece_of(i, n, size)).0 <= x < piece_of(
                i,
                n,
                size,
            ).1 <==> i == x / size),
{
    let q = x / size;
    lemma_fundamental_div_mod(x, size);
    lemma_fundamental_div_mod(n, size);
    lemma_div_pos_is_pos(x, size);
    assert(q * size <= x < q * size + size) by (nonlinear_arith)
        requires
            x == size * q + x % size,
            0 <= x % size < size,
    ;
    assert(q < pieces_of(n, size)) by (nonlinear_arith)
        requires
            q * size <= x < n,
            n == size * (n / size) + n % size,
            0 <= n % size < size,
            pieces_of(n, size) == (if n % size == 0 {
                n / size
            } else {
                n / size + 1
            }),
    ;
    assert forall|i: int| 0 <= i < pieces_of(n, size) implies ((#[trigger] piece_of(i, n, size)).0
        <= x < piece_of(i, n, size).1 <==> i == q) by {
        if i < q {
            assert(i * size + size <= q * size) by (nonlinear_arith)
                requires
                    i + 1 <= q,
                    size > 0,
            ;
        }
        if q < i {
            assert(q * size + size <= i * size) by (nonlinear_arith)
                requires
                    q + 1 <= i,
                    size > 0,
            ;
        }
    }
}

// ---------------------------------------------------------------------------------------
// Experts side by side
// ---------------------------------------------------------------------------------------

/// The chunk that writes number `p` of blocks of `n` numbers each.
pub open spec fn chunk_of(p: int, n: int) -> int {
    (p / n) * kernels::chunks_of(n) + (p % n) / (ROWS_PER_CHUNK as int)
}

/// What chunk `c` writes of blocks of `n` numbers each: from, and up to.
pub open spec fn written(c: int, n: int) -> (int, int) {
    let per = kernels::chunks_of(n);
    let b = c / per;
    let rows = kernels::rows_of(c % per, n);
    (b * n + rows.0, b * n + rows.1)
}

/// Chunk `c` of products whose results, blocks of `n` numbers, stand side by side: the block, its
/// rows, and where they are written. With two products for every expert, the first of expert `s` is
/// block `2 * s`.
pub fn block_task(c: usize, blocks: usize, n: usize) -> (r: (usize, usize, usize, usize))
    requires
        0 < n,
        n + ROWS_PER_CHUNK - 1 <= usize::MAX,
        blocks * n <= usize::MAX,
        c < blocks * kernels::chunks_of(n as int),
    ensures
        r.0 < blocks,
        r.0 == c as int / kernels::chunks_of(n as int),
        (r.1 as int, r.2 as int) == kernels::rows_of(c as int % kernels::chunks_of(n as int), n as int),
        r.1 < r.2 <= n,
        r.3 == r.0 * n + r.1,
        (r.3 as int, r.3 + (r.2 - r.1)) == written(c as int, n as int),
        r.3 + (r.2 - r.1) <= blocks * n,
{
    let per: usize = kernels::chunk_count(n);
    assert(per > 0);
    let b: usize = c / per;
    proof {
        lemma_fundamental_div_mod(c as int, per as int);
        assert(b < blocks) by (nonlinear_arith)
            requires
                c < blocks * per,
                c >= per * b,
                per > 0,
        ;
        assert(0 <= b * n && b * n + n <= blocks * n) by (nonlinear_arith)
            requires
                0 <= b < blocks,
                0 <= n,
        ;
    }
    let (first, end) = kernels::chunk_rows(c % per, n);
    (b, first, end, b * n + first)
}

/// Every number of the results is written by exactly one chunk.
pub proof fn numbers_are_written_once(blocks: int, n: int, p: int)
    requires
        0 < n,
        0 <= p < blocks * n,
    ensures
        0 <= chunk_of(p, n) < blocks * kernels::chunks_of(n),
        forall|c: int|
            0 <= c < blocks * kernels::chunks_of(n) ==> ((#[trigger] written(c, n)).0 <= p < written(
                c,
                n,
            ).1 <==> c == chunk_of(p, n)),
{
    let per = kernels::chunks_of(n);
    let (b, x) = (p / n, p % n);
    lemma_fundamental_div_mod(p, n);
    lemma_div_pos_is_pos(p, n);
    kernels::chunks_share_rows(n, x);
    let pc = x / (ROWS_PER_CHUNK as int);
    assert(b < blocks) by (nonlinear_arith)
        requires
            p < blocks * n,
            p >= n * b,
            n > 0,
    ;
    let at = chunk_of(p, n);
    lemma_fundamental_div_mod_converse(at, per, b, pc);
    assert(0 <= b * per && b * per + per <= blocks * per) by (nonlinear_arith)
        requires
            0 <= b < blocks,
            0 < per,
    ;
    assert(b * n == n * b) by (nonlinear_arith);
    assert forall|c: int| 0 <= c < blocks * per implies ((#[trigger] written(c, n)).0 <= p < written(
        c,
        n,
    ).1 <==> c == at) by {
        let cb = c / per;
        let cp = c % per;
        lemma_fundamental_div_mod(c, per);
        let rows = kernels::rows_of(cp, n);
        assert(0 <= rows.0 && rows.1 <= n);
        if cb < b {
            assert(cb * n + n <= b * n) by (nonlinear_arith)
                requires
                    cb + 1 <= b,
                    n > 0,
            ;
        }
        if b < cb {
            assert(b * n + n <= cb * n) by (nonlinear_arith)
                requires
                    b + 1 <= cb,
                    n > 0,
            ;
        }
        if cb == b {
            assert(written(c, n).0 <= p < written(c, n).1 <==> rows.0 <= x < rows.1);
            assert(per * cb == b * per) by (nonlinear_arith)
                requires
                    cb == b,
            ;
        }
    }
}

// ---------------------------------------------------------------------------------------
// Tiles
// ---------------------------------------------------------------------------------------

/// A part of a product of rows with inputs.
pub enum Tile {
    /// Four rows from `row` on, with two inputs from `input` on.
    Square { row: usize, input: usize },
    /// Four rows from `row` on, with one input.
    Column { row: usize, input: usize },
    /// One row with all inputs.
    Line { row: usize },
}

/// The tile holds the product of row `a` with input `b`.
pub open spec fn holds(t: Tile, a: int, b: int, inputs: int) -> bool {
    match t {
        Tile::Square { row, input } => row <= a < row + 4 && input <= b < input + 2,
        Tile::Column { row, input } => row <= a < row + 4 && b == input,
        Tile::Line { row } => a == row && 0 <= b < inputs,
    }
}

/// How many of the tiles hold a product.
pub open spec fn times(s: Seq<Tile>, a: int, b: int, inputs: int) -> nat
    decreases s.len(),
{
    if s.len() == 0 {
        0
    } else {
        times(s.drop_last(), a, b, inputs) + (if holds(s.last(), a, b, inputs) {
            1nat
        } else {
            0nat
        })
    }
}

/// One tile more.
proof fn lemma_times(s: Seq<Tile>, t: Tile, a: int, b: int, inputs: int)
    ensures
        times(s.push(t), a, b, inputs) == times(s, a, b, inputs) + (if holds(t, a, b, inputs) {
            1nat
        } else {
            0nat
        }),
{
    assert(s.push(t).drop_last() =~= s);
}

/// Cuts the product of `rows` rows with `inputs` inputs into tiles, so that every product stands in
/// exactly one of them.
pub fn tiles(rows: usize, inputs: usize) -> (r: Vec<Tile>)
    ensures
        forall|a: int, b: int|
            #[trigger] times(r@, a, b, inputs as int) == (if 0 <= a < rows && 0 <= b < inputs {
                1nat
            } else {
                0nat
            }),
{
    let mut out: Vec<Tile> = Vec::new();
    let mut i: usize = 0;
    while rows - i >= 4
        invariant
            i <= rows,
            forall|a: int, b: int|
                #[trigger] times(out@, a, b, inputs as int) == (if 0 <= a < i && 0 <= b < inputs {
                    1nat
                } else {
                    0nat
                }),
        decreases rows - i,
    {
        let mut j: usize = 0;
        while inputs - j >= 2
            invariant
                i + 4 <= rows,
                j <= inputs,
                forall|a: int, b: int|
                    #[trigger] times(out@, a, b, inputs as int) == (if (0 <= a < i && 0 <= b
                        < inputs) || (i <= a < i + 4 && 0 <= b < j) {
                        1nat
                    } else {
                        0nat
                    }),
            decreases inputs - j,
        {
            let t: Tile = Tile::Square { row: i, input: j };
            let ghost before = out@;
            out.push(t);
            proof {
                assert forall|a: int, b: int| #[trigger]
                    times(out@, a, b, inputs as int) == (if (0 <= a < i && 0 <= b < inputs) || (i
                        <= a < i + 4 && 0 <= b < j + 2) {
                        1nat
                    } else {
                        0nat
                    }) by {
                    lemma_times(before, t, a, b, inputs as int);
                }
            }
            j += 2;
        }
        if j < inputs {
            let t: Tile = Tile::Column { row: i, input: j };
            let ghost before = out@;
            out.push(t);
            proof {
                assert forall|a: int, b: int| #[trigger]
                    times(out@, a, b, inputs as int) == (if 0 <= a < i + 4 && 0 <= b < inputs {
                        1nat
                    } else {
                        0nat
                    }) by {
                    lemma_times(before, t, a, b, inputs as int);
                }
            }
        }
        i += 4;
    }
    while i < rows
        invariant
            i <= rows,
            forall|a: int, b: int|
                #[trigger] times(out@, a, b, inputs as int) == (if 0 <= a < i && 0 <= b < inputs {
                    1nat
                } else {
                    0nat
                }),
        decreases rows - i,
    {
        let t: Tile = Tile::Line { row: i };
        let ghost before = out@;
        out.push(t);
        proof {
            assert forall|a: int, b: int| #[trigger]
                times(out@, a, b, inputs as int) == (if 0 <= a < i + 1 && 0 <= b < inputs {
                    1nat
                } else {
                    0nat
                }) by {
                lemma_times(before, t, a, b, inputs as int);
            }
        }
        i += 1;
    }
    out
}

// ---------------------------------------------------------------------------------------
// Recurrent layers
// ---------------------------------------------------------------------------------------

/// The inputs of one channel that a step reads: those that were kept, and those of the step.
pub open spec fn channel<T>(kept: Seq<T>, new: Seq<T>) -> Seq<T> {
    kept + new
}

/// What is kept of a channel behind a step: the last inputs.
pub open spec fn kept_after<T>(kept: Seq<T>, new: Seq<T>) -> Seq<T> {
    channel(kept, new).skip(new.len() as int)
}

/// The inputs of channel `ch` in a step of `count` rows.
pub open spec fn column<T>(rows: Seq<T>, width: int, ch: int, count: nat) -> Seq<T> {
    Seq::new(count, |t: int| rows[t * width + ch])
}

/// The inputs of channel `ch` that a step of `count` rows of `width` reads; `keep` inputs of every
/// channel were kept. The convolution for row `t` reads `keep + 1` of them from `t` on.
pub fn channel_inputs<T: Copy>(
    kept: &[T],
    rows: &[T],
    keep: usize,
    width: usize,
    ch: usize,
    count: usize,
) -> (r: Vec<T>)
    requires
        ch < width,
        (ch + 1) * keep <= kept@.len(),
        count * width <= rows@.len(),
    ensures
        r@ == channel(
            row(kept@, ch as int, keep as int),
            column(rows@, width as int, ch as int, count as nat),
        ),
        r@.len() == keep + count,
{
    assert(kept.len() == kept@.len() && rows.len() == rows@.len());
    assert(0 <= ch * keep && ch * keep + keep == (ch + 1) * keep) by (nonlinear_arith);
    let at: usize = ch * keep;
    let mut out: Vec<T> = slice_to_vec(slice_subrange(kept, at, at + keep));
    let ghost col = column(rows@, width as int, ch as int, count as nat);
    for t in 0..count
        invariant
            rows.len() == rows@.len(),
            ch < width,
            count * width <= rows@.len(),
            col == column(rows@, width as int, ch as int, count as nat),
            out@ == row(kept@, ch as int, keep as int) + col.take(t as int),
    {
        assert(0 <= t * width && t * width + width <= count * width) by (nonlinear_arith)
            requires
                0 <= t < count,
                0 <= width,
        ;
        out.push(rows[t * width + ch]);
        assert(col.take(t + 1) =~= col.take(t as int).push(col[t as int]));
    }
    assert(col.take(count as int) =~= col);
    out
}

/// Keeps the last inputs of channel `ch`, of which a step read `inputs`.
pub fn keep_inputs<T: Copy>(kept: &mut Vec<T>, inputs: &[T], keep: usize, ch: usize)
    requires
        (ch + 1) * keep <= old(kept)@.len(),
        keep <= inputs@.len(),
    ensures
        final(kept)@.len() == old(kept)@.len(),
        row(final(kept)@, ch as int, keep as int) == inputs@.skip(inputs@.len() - keep),
        forall|p: int|
            0 <= p < old(kept)@.len() && !(ch * keep <= p < (ch + 1) * keep) ==> final(kept)@[p]
                == old(kept)@[p],
{
    assert(kept.len() == kept@.len());
    assert(0 <= ch * keep && ch * keep + keep == (ch + 1) * keep) by (nonlinear_arith);
    let at: usize = ch * keep;
    let from: usize = inputs.len() - keep;
    let ghost was = kept@;
    for j in 0..keep
        invariant
            at == ch * keep,
            at + keep <= was.len(),
            was.len() == kept@.len(),
            was.len() <= usize::MAX,
            from + keep == inputs@.len(),
            inputs.len() == inputs@.len(),
            forall|p: int|
                0 <= p < was.len() ==> #[trigger] kept@[p] == (if at <= p < at + j {
                    inputs@[from + p - at]
                } else {
                    was[p]
                }),
    {
        kept.set(at + j, inputs[from + j]);
    }
    assert(row(kept@, ch as int, keep as int) =~= inputs@.skip(from as int));
}

/// Two steps keep what one step over both would keep.
pub proof fn steps_keep_the_same<T>(kept: Seq<T>, first: Seq<T>, second: Seq<T>)
    ensures
        kept_after(kept_after(kept, first), second) == kept_after(kept, first + second),
{
    assert(kept_after(kept_after(kept, first), second) =~= kept_after(kept, first + second));
}

/// Every row of two steps reads what it would read in one step over both.
pub proof fn steps_read_the_same<T>(kept: Seq<T>, first: Seq<T>, second: Seq<T>, t: int)
    requires
        0 <= t < first.len() + second.len(),
    ensures
        ({
            let whole = channel(kept, first + second).subrange(t, t + kept.len() + 1);
            if t < first.len() {
                channel(kept, first).subrange(t, t + kept.len() + 1) == whole
            } else {
                let u = t - first.len();
                channel(kept_after(kept, first), second).subrange(u, u + kept.len() + 1) == whole
            }
        }),
{
    let whole = channel(kept, first + second).subrange(t, t + kept.len() + 1);
    if t < first.len() {
        assert(channel(kept, first).subrange(t, t + kept.len() + 1) =~= whole);
    } else {
        let u = t - first.len();
        assert(channel(kept_after(kept, first), second).subrange(u, u + kept.len() + 1) =~= whole);
    }
}

/// Where the query, the key and the value of value head `hv` stand.
pub open spec fn parts_at(lin: LinCfg, hv: int) -> (int, int, int) {
    let hk = served_by(hv, lin.nv as int, lin.nk as int);
    let keys = lin.nk * lin.dk;
    (hk * lin.dk, keys + hk * lin.dk, 2 * keys + hv * lin.dv)
}

/// Where the query, the key and the value of value head `hv` stand in a row of a recurrent layer.
pub fn lin_starts(lin: &LinCfg, hv: usize) -> (r: (usize, usize, usize))
    requires
        lin.fits(),
        0 < lin.nk,
        lin.nv % lin.nk == 0,
        hv < lin.nv,
    ensures
        ({
            let hk = served_by(hv as int, lin.nv as int, lin.nk as int);
            let keys = lin.nk * lin.dk;
            &&& 0 <= hk < lin.nk
            &&& r.0 == hk * lin.dk
            &&& r.1 == keys + hk * lin.dk
            &&& r.2 == 2 * keys + hv * lin.dv
            &&& r.0 + lin.dk <= keys
            &&& r.1 + lin.dk <= 2 * keys
            &&& r.2 + lin.dv <= 2 * keys + lin.nv * lin.dv
        }),
        (r.0 as int, r.1 as int, r.2 as int) == parts_at(*lin, hv as int),
{
    let group: usize = lin.nv / lin.nk;
    let ghost keys = lin.nk * lin.dk;
    proof {
        heads_are_served(0, hv as int, lin.nv as int, lin.nk as int);
        lemma_fundamental_div_mod(lin.nv as int, lin.nk as int);
        if group == 0 {
            assert(lin.nk * group == 0);
        }
    }
    let hk: usize = hv / group;
    assert(hk == served_by(hv as int, lin.nv as int, lin.nk as int));
    assert(0 <= hk * lin.dk && hk * lin.dk + lin.dk <= lin.nk * lin.dk) by (nonlinear_arith)
        requires
            0 <= hk < lin.nk,
            0 <= lin.dk,
    ;
    assert(0 <= hv * lin.dv && hv * lin.dv + lin.dv <= lin.nv * lin.dv) by (nonlinear_arith)
        requires
            0 <= hv < lin.nv,
            0 <= lin.dv,
    ;
    let key_dim: usize = lin.key_dim();
    let q: usize = hk * lin.dk;
    (q, key_dim + q, 2 * key_dim + hv * lin.dv)
}

/// Row `j` of the embeddings is that of token `j`, each number widened.
pub proof fn embeddings_stand(
    embed: Seq<u16>,
    items: Seq<(u32, usize)>,
    hidden: int,
    n: int,
    j: int,
    x: int,
)
    requires
        0 <= j < n <= items.len(),
        0 <= x < hidden,
        forall|j: int|
            0 <= j < items.len() ==> (#[trigger] items[j]).0 * hidden + hidden <= embed.len(),
    ensures
        embedded(embed, items, hidden, n).len() == n * hidden,
        embedded(embed, items, hidden, n)[j * hidden + x] == embed[items[j].0 * hidden + x]
            * 65536,
    decreases n,
{
    let front = embedded(embed, items, hidden, n - 1);
    assert(items[n - 1].0 * hidden >= 0) by (nonlinear_arith)
        requires
            hidden > 0,
    ;
    assert(items[n - 1].0 * hidden + hidden <= embed.len());
    assert(n * hidden == (n - 1) * hidden + hidden) by (nonlinear_arith);
    if n > 1 {
        embeddings_stand(embed, items, hidden, n - 1, if j < n - 1 {
            j
        } else {
            0
        }, x);
    } else {
        assert((n - 1) * hidden == 0) by (nonlinear_arith)
            requires
                n == 1,
        ;
    }
    if j < n - 1 {
        assert(0 <= j * hidden && j * hidden + x < (n - 1) * hidden) by (nonlinear_arith)
            requires
                0 <= j < n - 1,
                0 <= x < hidden,
        ;
    }
}

/// No number of a key or value belongs to two positions or two heads.
pub proof fn keys_stand_apart(t: int, kv: int, u: int, kw: int, kv_heads: int, hd: int)
    requires
        0 <= t,
        0 <= u,
        0 <= kv < kv_heads,
        0 <= kw < kv_heads,
        0 < hd,
        t < u || (t == u && kv < kw),
    ensures
        0 <= kv_at(t, kv, kv_heads, hd),
        kv_at(t, kv, kv_heads, hd) + hd <= kv_at(u, kw, kv_heads, hd),
{
    let stride = kv_heads * hd;
    assert(kv * hd + hd <= stride && 0 <= kv * hd && 0 <= kw * hd && 0 <= stride)
        by (nonlinear_arith)
        requires
            stride == kv_heads * hd,
            0 <= kv < kv_heads,
            0 <= kw,
            0 < hd,
    ;
    assert(0 <= t * stride) by (nonlinear_arith)
        requires
            0 <= t,
            0 <= stride,
    ;
    if t < u {
        assert(t * stride + stride <= u * stride) by (nonlinear_arith)
            requires
                t < u,
                0 <= stride,
        ;
    } else {
        assert(kv * hd + hd <= kw * hd) by (nonlinear_arith)
            requires
                kv < kw,
                0 < hd,
        ;
    }
}

/// In a row of a recurrent layer all queries stand before all keys and all keys before all values;
/// value heads that follow one another and share a key head share its query and key, and no two of
/// them share a value.
pub proof fn queries_keys_values_follow(lin: LinCfg, hv: int, hw: int)
    requires
        0 < lin.nk,
        lin.nv % lin.nk == 0,
        0 <= hv < hw < lin.nv,
    ensures
        ({
            let (q, k, v) = parts_at(lin, hv);
            let (r, l, w) = parts_at(lin, hw);
            let group = lin.nv as int / lin.nk as int;
            &&& 0 <= q
            &&& q + lin.dk <= l
            &&& r + lin.dk <= k
            &&& k + lin.dk <= w
            &&& l + lin.dk <= v
            &&& v + lin.dv <= w
            &&& hv / group == hw / group ==> q == r && k == l
            &&& k - q == l - r
        }),
{
    let (a, b) = (
        served_by(hv, lin.nv as int, lin.nk as int),
        served_by(hw, lin.nv as int, lin.nk as int),
    );
    heads_are_served(0, hv, lin.nv as int, lin.nk as int);
    heads_are_served(0, hw, lin.nv as int, lin.nk as int);
    let keys = lin.nk * lin.dk;
    assert(0 <= a * lin.dk && a * lin.dk + lin.dk <= keys) by (nonlinear_arith)
        requires
            0 <= a < lin.nk,
            keys == lin.nk * lin.dk,
    ;
    assert(0 <= b * lin.dk && b * lin.dk + lin.dk <= keys) by (nonlinear_arith)
        requires
            0 <= b < lin.nk,
            keys == lin.nk * lin.dk,
    ;
    assert(0 <= hv * lin.dv && hv * lin.dv + lin.dv <= hw * lin.dv) by (nonlinear_arith)
        requires
            0 <= hv < hw,
    ;
}

} // verus!
