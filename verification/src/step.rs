//! What one pass through the network does with its items: the position of each token, the rows
//! whose logits are wanted, the runs of items of one sequence, and the items of each expert.

use vstd::prelude::*;

use crate::kv::GPU_MAX_CONTEXT;
use crate::scheduler;

verus! {

/// Most items of one pass on a device.
pub const MAX_ITEMS: usize = 512;

/// Rows of logits that the device's buffer holds.
pub const MAX_LOGITS: usize = 16;

/// Items of sequence `sq` before item `j`.
pub open spec fn count(items: Seq<(u32, usize)>, sq: usize, j: int) -> nat
    decreases j,
{
    if j <= 0 {
        0
    } else {
        count(items, sq, j - 1) + (if items[j - 1].1 == sq {
            1nat
        } else {
            0nat
        })
    }
}

/// The position of item `j`: items of one sequence take consecutive positions behind those that its
/// state holds.
pub open spec fn position(items: Seq<(u32, usize)>, lens: Seq<usize>, j: int) -> int {
    lens[items[j].1 as int] + count(items, items[j].1, j)
}

/// Every item has a position below `limit`.
pub open spec fn in_context(items: Seq<(u32, usize)>, lens: Seq<usize>, limit: int) -> bool {
    forall|j: int| 0 <= j < items.len() ==> #[trigger] position(items, lens, j) < limit
}

/// Every item belongs to one of `n` sequences.
pub open spec fn addressed(items: Seq<(u32, usize)>, n: int) -> bool {
    forall|j: int| 0 <= j < items.len() ==> (#[trigger] items[j]).1 < n
}

/// Item `j` is the last of its sequence.
pub open spec fn is_last(items: Seq<(u32, usize)>, j: int) -> bool {
    forall|i: int| j < i < items.len() ==> (#[trigger] items[i]).1 != items[j].1
}

/// Item `j` is the first of its sequence.
pub open spec fn is_first(items: Seq<(u32, usize)>, j: int) -> bool {
    forall|i: int| 0 <= i < j ==> (#[trigger] items[i]).1 != items[j].1
}

/// The last item of sequence `sq` among the first `n`; -1 where there is none.
pub open spec fn last_of(items: Seq<(u32, usize)>, sq: usize, n: int) -> int
    decreases n,
{
    if n <= 0 {
        -1
    } else if items[n - 1].1 == sq {
        n - 1
    } else {
        last_of(items, sq, n - 1)
    }
}

/// The items whose logits are wanted: all of the first `n`; or, of the sequences that begin among
/// the first `n`, the last item of each, in the order in which the sequences first appear.
pub open spec fn wanted(items: Seq<(u32, usize)>, all: bool, n: int) -> Seq<int>
    decreases n,
{
    if n <= 0 {
        seq![]
    } else if all {
        wanted(items, all, n - 1).push(n - 1)
    } else if is_first(items, n - 1) {
        wanted(items, all, n - 1).push(last_of(items, items[n - 1].1, items.len() as int))
    } else {
        wanted(items, all, n - 1)
    }
}

/// The runs of neighbouring items of one sequence: the sequence, the first item, how many.
pub open spec fn runs(items: Seq<(u32, usize)>) -> Seq<(int, int, int)>
    decreases items.len(),
{
    if items.len() == 0 {
        seq![]
    } else {
        let front = runs(items.drop_last());
        let sq = items.last().1 as int;
        if front.len() > 0 && front.last().0 == sq {
            front.drop_last().push((sq, front.last().1, front.last().2 + 1))
        } else {
            front.push((sq, items.len() - 1, 1))
        }
    }
}

/// What a pass needs to know of its items.
pub struct Plan {
    /// The position of each item.
    pub pos: Vec<usize>,
    /// The number of items of each sequence.
    pub seen: Vec<usize>,
    /// Neighbouring items of one sequence: the sequence, the first item, how many.
    pub ranges: Vec<(usize, usize, usize)>,
    /// The items whose logits are wanted.
    pub lasts: Vec<usize>,
}

/// The runs as numbers.
pub open spec fn as_runs(s: Seq<(usize, usize, usize)>) -> Seq<(int, int, int)> {
    s.map_values(|r: (usize, usize, usize)| (r.0 as int, r.1 as int, r.2 as int))
}

/// The items as numbers.
pub open spec fn as_ints(s: Seq<usize>) -> Seq<int> {
    s.map_values(|x: usize| x as int)
}

/// `p` is the plan of a pass over `items`.
pub open spec fn plans(
    p: Plan,
    items: Seq<(u32, usize)>,
    lens: Seq<usize>,
    all: bool,
) -> bool {
    &&& p.pos@.len() == items.len()
    &&& forall|j: int| 0 <= j < items.len() ==> #[trigger] p.pos@[j] == position(items, lens, j)
    &&& p.seen@.len() == lens.len()
    &&& forall|sq: int|
        0 <= sq < lens.len() ==> #[trigger] p.seen@[sq] == count(
            items,
            sq as usize,
            items.len() as int,
        )
    &&& as_runs(p.ranges@) == runs(items)
    &&& as_ints(p.lasts@) == wanted(items, all, items.len() as int)
}

/// The items of a sequence are at most all items.
proof fn lemma_count(items: Seq<(u32, usize)>, sq: usize, j: int)
    requires
        0 <= j,
    ensures
        count(items, sq, j) <= j,
    decreases j,
{
    if j > 0 {
        lemma_count(items, sq, j - 1);
    }
}

/// The runs lie one behind the other from the first item to the last, each of items of one sequence,
/// and no two neighbouring runs belong together.
pub proof fn runs_cover(items: Seq<(u32, usize)>)
    ensures
        items.len() == 0 <==> runs(items).len() == 0,
        items.len() > 0 ==> runs(items)[0].1 == 0,
        items.len() > 0 ==> runs(items).last().1 + runs(items).last().2 == items.len(),
        forall|i: int|
            0 <= i < runs(items).len() ==> {
                let r = #[trigger] runs(items)[i];
                &&& 0 <= r.0 <= usize::MAX
                &&& 0 <= r.1
                &&& 1 <= r.2
                &&& r.1 + r.2 <= items.len()
                &&& forall|j: int| r.1 <= j < r.1 + r.2 ==> (#[trigger] items[j]).1 == r.0
            },
        forall|i: int|
            #![trigger runs(items)[i]]
            0 <= i && i + 1 < runs(items).len() ==> {
                &&& runs(items)[i].1 + runs(items)[i].2 == runs(items)[i + 1].1
                &&& runs(items)[i].0 != runs(items)[i + 1].0
            },
    decreases items.len(),
{
    if items.len() > 0 {
        let p = items.drop_last();
        runs_cover(p);
        let (all, front) = (runs(items), runs(p));
        let sq = items.last().1 as int;
        let joined = front.len() > 0 && front.last().0 == sq;
        assert forall|i: int| 0 <= i < all.len() implies {
            let r = #[trigger] all[i];
            &&& 0 <= r.0 <= usize::MAX
            &&& 0 <= r.1
            &&& 1 <= r.2
            &&& r.1 + r.2 <= items.len()
            &&& forall|j: int| r.1 <= j < r.1 + r.2 ==> (#[trigger] items[j]).1 == r.0
        } by {
            let r = all[i];
            if i < front.len() {
                let f = front[i];
                assert forall|j: int| r.1 <= j < r.1 + r.2 implies (#[trigger] items[j]).1
                    == r.0 by {
                    if j < f.1 + f.2 {
                        assert(p[j] == items[j]);
                    }
                }
            }
        }
        assert forall|i: int| #![trigger all[i]] 0 <= i && i + 1 < all.len() implies {
            &&& all[i].1 + all[i].2 == all[i + 1].1
            &&& all[i].0 != all[i + 1].0
        } by {
            assert(all[i] == front[i]);
            if i + 1 < front.len() {
                assert(front[i + 1].1 == all[i + 1].1 && front[i + 1].0 == all[i + 1].0);
            }
        }
    }
}

/// The positions of the items and the number of items of each sequence; `None` where an item would
/// have a position at or above `limit`.
fn place(items: &[(u32, usize)], lens: &[usize], limit: usize) -> (r: Option<
    (Vec<usize>, Vec<usize>),
>)
    requires
        addressed(items@, lens@.len() as int),
    ensures
        match r {
            Some((pos, seen)) => {
                &&& in_context(items@, lens@, limit as int)
                &&& pos@.len() == items@.len()
                &&& forall|j: int|
                    0 <= j < items@.len() ==> #[trigger] pos@[j] == position(items@, lens@, j)
                &&& seen@.len() == lens@.len()
                &&& forall|sq: int|
                    0 <= sq < lens@.len() ==> #[trigger] seen@[sq] == count(
                        items@,
                        sq as usize,
                        items@.len() as int,
                    )
            },
            None => !in_context(items@, lens@, limit as int),
        },
{
    let mut pos: Vec<usize> = Vec::new();
    let mut seen: Vec<usize> = Vec::new();
    for i in 0..lens.len()
        invariant
            seen@.len() == i,
            forall|sq: int| 0 <= sq < i ==> #[trigger] seen@[sq] == 0,
    {
        seen.push(0);
    }
    for j in 0..items.len()
        invariant
            addressed(items@, lens@.len() as int),
            seen@.len() == lens@.len(),
            pos@.len() == j,
            forall|i: int| 0 <= i < j ==> #[trigger] pos@[i] == position(items@, lens@, i),
            forall|i: int| 0 <= i < j ==> #[trigger] position(items@, lens@, i) < limit,
            forall|sq: int|
                0 <= sq < lens@.len() ==> #[trigger] seen@[sq] == count(
                    items@,
                    sq as usize,
                    j as int,
                ),
    {
        assert(items@[j as int].1 < lens@.len());
        let sq: usize = items[j].1;
        proof {
            lemma_count(items@, sq, j as int);
            assert(seen@[sq as int] == count(items@, sq, j as int));
        }
        if lens[sq] >= limit || seen[sq] >= limit - lens[sq] {
            assert(position(items@, lens@, j as int) >= limit);
            return None;
        }
        pos.push(lens[sq] + seen[sq]);
        let ghost before = seen@;
        let n: usize = seen[sq] + 1;
        seen.set(sq, n);
        assert forall|s: int| 0 <= s < lens@.len() implies #[trigger] seen@[s] == count(
            items@,
            s as usize,
            j + 1,
        ) by {
            assert(before[s] == count(items@, s as usize, j as int));
        }
    }
    Some((pos, seen))
}

/// A sequence with an item among the first `n` has a last one there.
proof fn lemma_has_last(items: Seq<(u32, usize)>, j: int, n: int)
    requires
        0 <= j < n <= items.len(),
    ensures
        j <= last_of(items, items[j].1, n) < n,
        items[last_of(items, items[j].1, n)].1 == items[j].1,
        forall|i: int|
            last_of(items, items[j].1, n) < i < n ==> (#[trigger] items[i]).1 != items[j].1,
    decreases n,
{
    if items[n - 1].1 != items[j].1 {
        lemma_has_last(items, j, n - 1);
    }
}

/// The last item of each of `n_seqs` sequences; 0 where there is none.
fn find_lasts(items: &[(u32, usize)], n_seqs: usize) -> (r: Vec<usize>)
    requires
        addressed(items@, n_seqs as int),
    ensures
        r@.len() == n_seqs,
        forall|j: int|
            0 <= j < items@.len() ==> r@[(#[trigger] items@[j]).1 as int] == last_of(
                items@,
                items@[j].1,
                items@.len() as int,
            ),
{
    let mut last: Vec<usize> = Vec::new();
    for i in 0..n_seqs
        invariant
            last@.len() == i,
    {
        last.push(0);
    }
    for n in 0..items.len()
        invariant
            addressed(items@, n_seqs as int),
            last@.len() == n_seqs,
            forall|j: int|
                0 <= j < n ==> last@[(#[trigger] items@[j]).1 as int] == last_of(
                    items@,
                    items@[j].1,
                    n as int,
                ),
    {
        assert(items@[n as int].1 < n_seqs);
        last.set(items[n].1, n);
    }
    last
}

/// The items whose logits are wanted.
fn find_wanted(items: &[(u32, usize)], n_seqs: usize, all: bool) -> (r: Vec<usize>)
    requires
        addressed(items@, n_seqs as int),
    ensures
        as_ints(r@) == wanted(items@, all, items@.len() as int),
{
    let last: Vec<usize> = find_lasts(items, n_seqs);
    let mut seen: Vec<bool> = Vec::new();
    for i in 0..n_seqs
        invariant
            seen@.len() == i,
            forall|sq: int| 0 <= sq < i ==> !#[trigger] seen@[sq],
    {
        seen.push(false);
    }
    let mut out: Vec<usize> = Vec::new();
    for j in 0..items.len()
        invariant
            addressed(items@, n_seqs as int),
            last@.len() == n_seqs,
            forall|i: int|
                0 <= i < items@.len() ==> last@[(#[trigger] items@[i]).1 as int] == last_of(
                    items@,
                    items@[i].1,
                    items@.len() as int,
                ),
            seen@.len() == n_seqs,
            forall|sq: int|
                0 <= sq < n_seqs ==> (#[trigger] seen@[sq] <==> exists|i: int|
                    0 <= i < j && (#[trigger] items@[i]).1 == sq),
            as_ints(out@) == wanted(items@, all, j as int),
    {
        assert(items@[j as int].1 < n_seqs);
        let sq: usize = items[j].1;
        let ghost (before, was) = (out@, seen@);
        let known: bool = seen[sq];
        assert(known == !is_first(items@, j as int)) by {
            assert(was[sq as int] == known);
        }
        if all {
            out.push(j);
            assert(as_ints(out@) =~= as_ints(before).push(j as int));
        } else if !known {
            out.push(last[sq]);
            assert(as_ints(out@) =~= as_ints(before).push(last[sq as int] as int));
        }
        seen.set(sq, true);
        assert forall|s: int| 0 <= s < n_seqs implies (#[trigger] seen@[s] <==> exists|i: int|
            0 <= i < j + 1 && (#[trigger] items@[i]).1 == s) by {
            if s == sq {
                assert(items@[j as int].1 == s);
            } else {
                assert(seen@[s] == was[s]);
            }
        }
    }
    out
}

/// The runs of neighbouring items of one sequence.
fn find_runs(items: &[(u32, usize)]) -> (r: Vec<(usize, usize, usize)>)
    ensures
        as_runs(r@) == runs(items@),
{
    let mut out: Vec<(usize, usize, usize)> = Vec::new();
    assert(as_runs(out@) =~= runs(items@.take(0)));
    for j in 0..items.len()
        invariant
            as_runs(out@) == runs(items@.take(j as int)),
    {
        let ghost before = out@;
        let ghost front = items@.take(j as int);
        assert(items@.take(j + 1).drop_last() =~= front);
        let sq: usize = items[j].1;
        let n: usize = out.len();
        if n > 0 && out[n - 1].0 == sq {
            let r: (usize, usize, usize) = out[n - 1];
            assert(as_runs(before)[n - 1] == (r.0 as int, r.1 as int, r.2 as int));
            assert(runs(front)[n - 1].2 <= front.len()) by {
                runs_cover(front);
            }
            out.set(n - 1, (r.0, r.1, r.2 + 1));
            assert(as_runs(out@) =~= as_runs(before).drop_last().push(
                (sq as int, r.1 as int, r.2 + 1),
            ));
        } else {
            out.push((sq, j, 1));
            assert(as_runs(out@) =~= as_runs(before).push((sq as int, j as int, 1)));
        }
    }
    assert(items@.take(items@.len() as int) =~= items@);
    out
}

/// The plan of a pass over `items`, each a token and the sequence that it belongs to, where `lens`
/// are the positions that each sequence's state holds. `None` where the context of a sequence is
/// full.
pub fn plan(items: &[(u32, usize)], lens: &[usize], max_context: usize, all: bool) -> (r: Option<
    Plan,
>)
    requires
        addressed(items@, lens@.len() as int),
    ensures
        match r {
            Some(p) => in_context(items@, lens@, max_context as int) && plans(
                p,
                items@,
                lens@,
                all,
            ),
            None => !in_context(items@, lens@, max_context as int),
        },
{
    match place(items, lens, max_context) {
        Some((pos, seen)) => Some(
            Plan {
                pos,
                seen,
                ranges: find_runs(items),
                lasts: find_wanted(items, lens.len(), all),
            },
        ),
        None => None,
    }
}

/// Why a device cannot run a pass.
#[derive(Debug, Clone, Copy, PartialEq, Eq, Structural)]
pub enum GpuLimit {
    /// More items than one pass takes.
    Items,
    /// A position beyond the device's context.
    Context,
    /// More rows of logits than the buffer holds.
    Logits,
}

/// The limit that a pass over `items` breaks first.
pub open spec fn broken_limit(
    items: Seq<(u32, usize)>,
    lens: Seq<usize>,
    all: bool,
) -> Option<GpuLimit> {
    if items.len() > MAX_ITEMS {
        Some(GpuLimit::Items)
    } else if !in_context(items, lens, GPU_MAX_CONTEXT as int) {
        Some(GpuLimit::Context)
    } else if wanted(items, all, items.len() as int).len() > MAX_LOGITS {
        Some(GpuLimit::Logits)
    } else {
        None
    }
}

/// The plan of a pass on a device.
pub fn gpu_plan(items: &[(u32, usize)], lens: &[usize], all: bool) -> (r: Result<Plan, GpuLimit>)
    requires
        addressed(items@, lens@.len() as int),
    ensures
        match r {
            Ok(p) => broken_limit(items@, lens@, all) is None && plans(p, items@, lens@, all),
            Err(e) => broken_limit(items@, lens@, all) == Some(e),
        },
{
    if items.len() > MAX_ITEMS {
        return Err(GpuLimit::Items);
    }
    match plan(items, lens, GPU_MAX_CONTEXT, all) {
        Some(p) => {
            assert(p.lasts@.len() == as_ints(p.lasts@).len());
            if p.lasts.len() > MAX_LOGITS {
                Err(GpuLimit::Logits)
            } else {
                Ok(p)
            }
        },
        None => Err(GpuLimit::Context),
    }
}

/// The numbers that describe each run to the device: in blocks of 64, first item and how many.
pub fn run_params(ranges: &[(usize, usize, usize)]) -> (r: Vec<u32>)
    requires
        ranges@.len() * 64 <= usize::MAX,
        forall|i: int|
            0 <= i < ranges@.len() ==> (#[trigger] ranges@[i]).1 <= u32::MAX && ranges@[i].2
                <= u32::MAX,
    ensures
        r@.len() == ranges@.len() * 64,
        forall|i: int, k: int|
            #![trigger r@[i * 64 + k]]
            0 <= i < ranges@.len() && 0 <= k < 64 ==> r@[i * 64 + k] == (if k == 0 {
                ranges@[i].1 as int
            } else if k == 1 {
                ranges@[i].2 as int
            } else {
                0
            }),
{
    let mut out: Vec<u32> = Vec::new();
    for i in 0..ranges.len()
        invariant
            ranges@.len() * 64 <= usize::MAX,
            out@.len() == i * 64,
            forall|i: int|
                0 <= i < ranges@.len() ==> (#[trigger] ranges@[i]).1 <= u32::MAX && ranges@[i].2
                    <= u32::MAX,
            forall|a: int, k: int|
                #![trigger out@[a * 64 + k]]
                0 <= a < i && 0 <= k < 64 ==> out@[a * 64 + k] == (if k == 0 {
                    ranges@[a].1 as int
                } else if k == 1 {
                    ranges@[a].2 as int
                } else {
                    0
                }),
    {
        let ghost before = out@;
        assert(ranges@[i as int].1 <= u32::MAX && ranges@[i as int].2 <= u32::MAX);
        out.push(ranges[i].1 as u32);
        out.push(ranges[i].2 as u32);
        for k in 2..64
            invariant
                out@.len() == i * 64 + k,
                before.len() == i * 64,
                out@.take(i * 64) == before,
                out@[i * 64] == ranges@[i as int].1,
                out@[i * 64 + 1] == ranges@[i as int].2,
                forall|c: int| 2 <= c < k ==> #[trigger] out@[i * 64 + c] == 0,
        {
            out.push(0);
            assert(out@.take(i * 64) =~= before);
        }
        assert forall|a: int, k: int|
            #![trigger out@[a * 64 + k]]
            0 <= a < i + 1 && 0 <= k < 64 implies out@[a * 64 + k] == (if k == 0 {
            ranges@[a].1 as int
        } else if k == 1 {
            ranges@[a].2 as int
        } else {
            0
        }) by {
            if a < i {
                assert(out@.take(i * 64)[a * 64 + k] == before[a * 64 + k]);
            } else {
                assert(a * 64 + k == i * 64 + k);
            }
        }
    }
    out
}

/// Groups of `size` that cover `n`.
pub open spec fn groups(n: int, size: int) -> int {
    (n + size - 1) / size
}

/// Groups of 64 that cover `n` rows.
pub fn row_groups(n: usize) -> (r: usize)
    requires
        n + 63 <= usize::MAX,
    ensures
        r == groups(n as int, 64),
{
    (n + 63) / 64
}

/// Groups of 256 that cover `n` elements.
pub fn element_groups(n: usize) -> (r: usize)
    requires
        n + 255 <= usize::MAX,
    ensures
        r == groups(n as int, 256),
{
    (n + 255) / 256
}

// ---------------------------------------------------------------------------------------
// Laws
// ---------------------------------------------------------------------------------------

/// Neighbouring items of one sequence take neighbouring positions.
pub proof fn neighbours_follow(items: Seq<(u32, usize)>, lens: Seq<usize>, j: int)
    requires
        0 <= j,
        j + 1 < items.len(),
        items[j].1 == items[j + 1].1,
    ensures
        position(items, lens, j + 1) == position(items, lens, j) + 1,
{
}

/// No two items of one sequence take one position.
pub proof fn positions_differ(items: Seq<(u32, usize)>, lens: Seq<usize>, i: int, j: int)
    requires
        0 <= i < j < items.len(),
        items[i].1 == items[j].1,
    ensures
        position(items, lens, i) < position(items, lens, j),
{
    lemma_count_grows(items, items[i].1, i + 1, j);
}

/// Counts grow.
proof fn lemma_count_grows(items: Seq<(u32, usize)>, sq: usize, i: int, j: int)
    requires
        0 <= i <= j,
    ensures
        count(items, sq, i) <= count(items, sq, j),
    decreases j - i,
{
    if i < j {
        lemma_count_grows(items, sq, i, j - 1);
    }
}

/// A pass that gives all logits gives one row per item.
pub proof fn all_are_wanted(items: Seq<(u32, usize)>, n: int)
    requires
        0 <= n <= items.len(),
    ensures
        wanted(items, true, n) == Seq::new(n as nat, |i: int| i),
    decreases n,
{
    if n > 0 {
        all_are_wanted(items, n - 1);
    }
    assert(wanted(items, true, n) =~= Seq::new(n as nat, |i: int| i));
}

/// The sequence of an item of a batch of rows is its row.
proof fn lemma_flat_row(rows: Seq<Seq<u32>>, i: int, k: int)
    requires
        rows.len() <= usize::MAX,
        0 <= i < rows.len(),
        0 <= k < rows[i].len(),
    ensures
        0 <= scheduler::row_start(rows, i),
        scheduler::row_start(rows, i) + k < scheduler::flat(rows).len(),
        scheduler::flat(rows)[scheduler::row_start(rows, i) + k] == (rows[i][k], i as usize),
{
    scheduler::rows_are_apart(rows, i);
    let (a, b) = (scheduler::row_start(rows, i), scheduler::row_start(rows, i + 1));
    assert(b == a + rows[i].len());
    assert(scheduler::flat(rows).subrange(a, b)[k] == scheduler::flat(rows)[a + k]);
}

/// Every item of a batch of rows lies between the start of its row and the start of the next.
proof fn lemma_flat_at(rows: Seq<Seq<u32>>, j: int)
    requires
        rows.len() <= usize::MAX,
        0 <= j < scheduler::flat(rows).len(),
    ensures
        ({
            let r = scheduler::flat(rows)[j].1 as int;
            &&& 0 <= r < rows.len()
            &&& scheduler::row_start(rows, r) <= j < scheduler::row_start(rows, r + 1)
        }),
    decreases rows.len(),
{
    let p = rows.drop_last();
    let n = rows.len() as int;
    scheduler::rows_are_apart(rows, n - 1);
    if j < scheduler::flat(p).len() {
        lemma_flat_at(p, j);
        let r = scheduler::flat(p)[j].1 as int;
        scheduler::lemma_start_front(rows, r);
        scheduler::lemma_start_front(rows, r + 1);
    } else {
        if n > 1 {
            scheduler::rows_are_apart(p, 0);
        }
        scheduler::lemma_start_front(rows, n - 1);
    }
}

/// Before a row's start no item belongs to it.
proof fn lemma_none_before(rows: Seq<Seq<u32>>, i: int, j: int)
    requires
        rows.len() <= usize::MAX,
        0 <= i < rows.len(),
        0 <= j <= scheduler::row_start(rows, i),
    ensures
        count(scheduler::flat(rows), i as usize, j) == 0,
    decreases j,
{
    if j > 0 {
        lemma_none_before(rows, i, j - 1);
        scheduler::rows_are_apart(rows, i);
        lemma_flat_at(rows, j - 1);
        let r = scheduler::flat(rows)[j - 1].1 as int;
        if r == i {
            assert(scheduler::row_start(rows, i) <= j - 1);
        }
    }
}

/// In a batch of rows, token `k` of row `i` takes the position `k` behind those that the state of
/// sequence `i` holds.
pub proof fn rows_take_positions(rows: Seq<Seq<u32>>, lens: Seq<usize>, i: int, k: int)
    requires
        rows.len() <= usize::MAX,
        rows.len() <= lens.len(),
        0 <= i < rows.len(),
        0 <= k < rows[i].len(),
    ensures
        position(scheduler::flat(rows), lens, scheduler::row_start(rows, i) + k) == lens[i] + k,
    decreases k,
{
    let items = scheduler::flat(rows);
    let at = scheduler::row_start(rows, i);
    lemma_flat_row(rows, i, k);
    if k == 0 {
        lemma_none_before(rows, i, at);
    } else {
        rows_take_positions(rows, lens, i, k - 1);
        lemma_flat_row(rows, i, k - 1);
    }
}

/// In a batch of rows, an item is the first of its sequence where it is the first of its row, and
/// the last of row `i` is the last of sequence `i`.
proof fn lemma_row_ends(rows: Seq<Seq<u32>>, i: int, k: int)
    requires
        rows.len() <= usize::MAX,
        0 <= i < rows.len(),
        0 <= k < rows[i].len(),
    ensures
        ({
            let items = scheduler::flat(rows);
            let at = scheduler::row_start(rows, i);
            &&& 0 <= at
            &&& at + k < items.len()
            &&& items[at + k].1 == i
            &&& is_first(items, at + k) == (k == 0)
            &&& last_of(items, i as usize, items.len() as int) == scheduler::row_start(rows, i + 1)
                - 1
        }),
{
    let items = scheduler::flat(rows);
    let at = scheduler::row_start(rows, i);
    let end = rows[i].len() - 1;
    lemma_flat_row(rows, i, k);
    lemma_flat_row(rows, i, end);
    scheduler::lemma_starts_grow(rows, 0, i);
    if k > 0 {
        lemma_flat_row(rows, i, 0);
        assert(items[at].1 == items[at + k].1);
    } else {
        assert forall|j: int| 0 <= j < at implies (#[trigger] items[j]).1 != items[at].1 by {
            lemma_flat_at(rows, j);
        }
    }
    lemma_has_last(items, at + end, items.len() as int);
    let l = last_of(items, i as usize, items.len() as int);
    lemma_flat_at(rows, l);
    assert(scheduler::row_start(rows, i + 1) == at + rows[i].len());
}

/// Within a row nothing is wanted behind its first item.
proof fn lemma_wanted_in_row(rows: Seq<Seq<u32>>, i: int, k: int)
    requires
        rows.len() <= usize::MAX,
        0 <= i < rows.len(),
        0 < k <= rows[i].len(),
    ensures
        wanted(scheduler::flat(rows), false, scheduler::row_start(rows, i) + k) == wanted(
            scheduler::flat(rows),
            false,
            scheduler::row_start(rows, i),
        ).push(scheduler::row_start(rows, i + 1) - 1),
    decreases k,
{
    lemma_row_ends(rows, i, k - 1);
    if k > 1 {
        lemma_wanted_in_row(rows, i, k - 1);
    }
}

/// A pass over a batch of rows that gives logits for the last item of each sequence gives one row
/// of logits per sequence, in the order of the sequences.
pub proof fn rows_give_one_each(rows: Seq<Seq<u32>>, n: int)
    requires
        rows.len() <= usize::MAX,
        0 <= n <= rows.len(),
        forall|i: int| 0 <= i < rows.len() ==> (#[trigger] rows[i]).len() > 0,
    ensures
        ({
            let w = wanted(scheduler::flat(rows), false, scheduler::row_start(rows, n));
            &&& w.len() == n
            &&& forall|i: int|
                0 <= i < n ==> #[trigger] w[i] == scheduler::row_start(rows, i + 1) - 1
        }),
    decreases n,
{
    if n > 0 {
        rows_give_one_each(rows, n - 1);
        lemma_wanted_in_row(rows, n - 1, rows[n - 1].len() as int);
        assert(scheduler::row_start(rows, n) == scheduler::row_start(rows, n - 1)
            + rows[n - 1].len());
    }
}

/// Some item of sequence `a` stands before all items of sequence `b`.
pub open spec fn appears_before(items: Seq<(u32, usize)>, a: usize, b: usize) -> bool {
    exists|i: int| #[trigger]
        stands_before(items, i, b) && 0 <= i < items.len() && items[i].1 == a
}

/// Up to item `i` there is none of sequence `b`.
pub open spec fn stands_before(items: Seq<(u32, usize)>, i: int, b: usize) -> bool {
    forall|k: int| 0 <= k <= i ==> (#[trigger] items[k]).1 != b
}

/// What is wanted of the sequences that begin among the first `n` items.
proof fn lemma_answered(items: Seq<(u32, usize)>, n: int)
    requires
        0 <= n <= items.len(),
    ensures
        ({
            let w = wanted(items, false, n);
            &&& forall|r: int|
                0 <= r < w.len() ==> 0 <= #[trigger] w[r] < items.len() && is_last(items, w[r])
            &&& forall|r: int|
                0 <= r < w.len() ==> exists|i: int|
                    0 <= i < n && (#[trigger] items[i]).1 == items[#[trigger] w[r]].1
            &&& forall|j: int|
                0 <= j < n ==> w.contains(
                    last_of(items, (#[trigger] items[j]).1, items.len() as int),
                )
            &&& forall|r: int, t: int|
                0 <= r < t < w.len() ==> appears_before(
                    items,
                    items[#[trigger] w[r]].1,
                    items[#[trigger] w[t]].1,
                )
        }),
    decreases n,
{
    if n > 0 {
        lemma_answered(items, n - 1);
        let (p, w) = (wanted(items, false, n - 1), wanted(items, false, n));
        let sq = items[n - 1].1;
        let l = last_of(items, sq, items.len() as int);
        lemma_has_last(items, n - 1, items.len() as int);
        if is_first(items, n - 1) {
            assert(w == p.push(l));
            assert(items[n - 1].1 == items[w[p.len() as int]].1);
            assert forall|r: int| 0 <= r < w.len() implies exists|i: int|
                0 <= i < n && (#[trigger] items[i]).1 == items[#[trigger] w[r]].1 by {
                if r < p.len() {
                    assert(w[r] == p[r]);
                }
            }
            assert forall|r: int, t: int| 0 <= r < t < w.len() implies appears_before(
                items,
                items[#[trigger] w[r]].1,
                items[#[trigger] w[t]].1,
            ) by {
                assert(w[r] == p[r]);
                if t < p.len() {
                    assert(w[t] == p[t]);
                } else {
                    let i = choose|i: int|
                        0 <= i < n - 1 && (#[trigger] items[i]).1 == items[p[r]].1;
                    assert(stands_before(items, i, items[w[t]].1));
                }
            }
            assert forall|j: int| 0 <= j < n implies w.contains(
                last_of(items, (#[trigger] items[j]).1, items.len() as int),
            ) by {
                if j < n - 1 {
                    let x = last_of(items, items[j].1, items.len() as int);
                    let i = choose|i: int| 0 <= i < p.len() && p[i] == x;
                    assert(w[i] == x);
                } else {
                    assert(w[p.len() as int] == l);
                }
            }
        } else {
            let i = choose|i: int| 0 <= i < n - 1 && (#[trigger] items[i]).1 == sq;
            assert(items[i].1 == sq);
        }
    }
}

/// Of sequences whose items are mixed, each is answered once, behind its last item, and the
/// answers come in the order in which the sequences first appear.
pub proof fn sequences_are_answered(items: Seq<(u32, usize)>)
    ensures
        ({
            let w = wanted(items, false, items.len() as int);
            &&& forall|j: int|
                0 <= j < items.len() ==> (w.contains(j) <==> #[trigger] is_last(items, j))
            &&& forall|r: int, t: int|
                0 <= r < t < w.len() ==> items[#[trigger] w[r]].1 != items[#[trigger] w[t]].1
                    && appears_before(items, items[w[r]].1, items[w[t]].1)
        }),
{
    let n = items.len() as int;
    let w = wanted(items, false, n);
    lemma_answered(items, n);
    assert forall|j: int| 0 <= j < n implies (w.contains(j) <==> #[trigger] is_last(items, j)) by {
        if is_last(items, j) {
            lemma_has_last(items, j, n);
            let l = last_of(items, items[j].1, n);
            assert(items[l].1 == items[j].1);
        }
    }
    assert forall|r: int, t: int| 0 <= r < t < w.len() implies items[#[trigger] w[r]].1
        != items[#[trigger] w[t]].1 by {
        assert(appears_before(items, items[w[r]].1, items[w[t]].1));
    }
}

// ---------------------------------------------------------------------------------------
// Experts
// ---------------------------------------------------------------------------------------

/// The choices of the first `n` tokens, in order: the token and which of its choices.
pub open spec fn choices_of(top: Seq<Seq<usize>>, e: usize, n: int) -> Seq<(int, int)>
    decreases n,
{
    if n <= 0 {
        seq![]
    } else {
        choices_of(top, e, n - 1) + chosen_by(top[n - 1], e, n - 1, top[n - 1].len() as int)
    }
}

/// Which of the first `k` choices of token `j` are expert `e`.
pub open spec fn chosen_by(row: Seq<usize>, e: usize, j: int, k: int) -> Seq<(int, int)>
    decreases k,
{
    if k <= 0 {
        seq![]
    } else if row[k - 1] == e {
        chosen_by(row, e, j, k - 1).push((j, k - 1))
    } else {
        chosen_by(row, e, j, k - 1)
    }
}

/// Pairs as numbers.
pub open spec fn as_pairs(s: Seq<(usize, usize)>) -> Seq<(int, int)> {
    s.map_values(|p: (usize, usize)| (p.0 as int, p.1 as int))
}

/// The choices of all tokens.
pub open spec fn tops(top: Seq<Vec<usize>>) -> Seq<Seq<usize>> {
    top.map_values(|r: Vec<usize>| r@)
}

/// Groups the tokens of a pass by the experts that they chose: for each expert the tokens that chose
/// it, in order, with which of the token's choices it was. Each expert then runs once for all of
/// its tokens.
pub fn group_by_expert(top: &Vec<Vec<usize>>, experts: usize) -> (r: Vec<Vec<(usize, usize)>>)
    requires
        forall|j: int, k: int|
            0 <= j < top@.len() && 0 <= k < top@[j]@.len() ==> #[trigger] top@[j]@[k] < experts,
    ensures
        r@.len() == experts,
        forall|e: int|
            0 <= e < experts ==> as_pairs((#[trigger] r@[e])@) == choices_of(
                tops(top@),
                e as usize,
                top@.len() as int,
            ),
{
    let ghost all = tops(top@);
    let mut out: Vec<Vec<(usize, usize)>> = Vec::new();
    for e in 0..experts
        invariant
            out@.len() == e,
            forall|i: int| 0 <= i < e ==> as_pairs((#[trigger] out@[i])@) =~= seq![],
    {
        out.push(Vec::new());
    }
    for j in 0..top.len()
        invariant
            all == tops(top@),
            out@.len() == experts,
            forall|j: int, k: int|
                0 <= j < top@.len() && 0 <= k < top@[j]@.len() ==> #[trigger] top@[j]@[k] < experts,
            forall|e: int|
                0 <= e < experts ==> as_pairs((#[trigger] out@[e])@) == choices_of(
                    all,
                    e as usize,
                    j as int,
                ),
    {
        let count: usize = top[j].len();
        let ghost row = top@[j as int]@;
        assert(all[j as int] == row);
        assert forall|e: int| 0 <= e < experts implies as_pairs((#[trigger] out@[e])@)
            == choices_of(all, e as usize, j as int) + chosen_by(
            row,
            e as usize,
            j as int,
            0,
        ) by {
            assert(choices_of(all, e as usize, j as int) + chosen_by(
                row,
                e as usize,
                j as int,
                0,
            ) =~= choices_of(all, e as usize, j as int));
        }
        for k in 0..count
            invariant
                all == tops(top@),
                j < top@.len(),
                row == top@[j as int]@,
                count == row.len(),
                out@.len() == experts,
                forall|j: int, k: int|
                    0 <= j < top@.len() && 0 <= k < top@[j]@.len() ==> #[trigger] top@[j]@[k]
                        < experts,
                forall|e: int|
                    0 <= e < experts ==> as_pairs((#[trigger] out@[e])@) == choices_of(
                        all,
                        e as usize,
                        j as int,
                    ) + chosen_by(row, e as usize, j as int, k as int),
        {
            assert(top@[j as int]@[k as int] < experts);
            let e: usize = top[j][k];
            let ghost before = out@;
            out[e].push((j, k));
            assert forall|x: int| 0 <= x < experts implies as_pairs((#[trigger] out@[x])@)
                == choices_of(all, x as usize, j as int) + chosen_by(
                row,
                x as usize,
                j as int,
                k + 1,
            ) by {
                assert(as_pairs(before[x]@) == choices_of(all, x as usize, j as int) + chosen_by(
                    row,
                    x as usize,
                    j as int,
                    k as int,
                ));
                if x == e {
                    assert(as_pairs(out@[x]@) =~= as_pairs(before[x]@).push((j as int, k as int)));
                    assert(as_pairs(out@[x]@) =~= choices_of(all, x as usize, j as int)
                        + chosen_by(row, x as usize, j as int, k + 1));
                } else {
                    assert(out@[x] == before[x]);
                }
            }
        }
    }
    out
}

/// Every choice of every token is served by exactly the expert chosen: `(j, k)` stands in the list
/// of expert `e` if and only if choice `k` of token `j` is `e`.
pub proof fn choices_are_served(top: Seq<Seq<usize>>, e: usize, n: int, j: int, k: int)
    requires
        0 <= n <= top.len(),
    ensures
        choices_of(top, e, n).contains((j, k)) <==> 0 <= j < n && 0 <= k < top[j].len() && top[j][k]
            == e,
    decreases n,
{
    if n > 0 {
        choices_are_served(top, e, n - 1, j, k);
        let row = top[n - 1];
        lemma_chosen(row, e, n - 1, row.len() as int, j, k);
        let (a, b) = (
            choices_of(top, e, n - 1),
            chosen_by(row, e, n - 1, row.len() as int),
        );
        let c = a + b;
        if a.contains((j, k)) {
            let i = choose|i: int| 0 <= i < a.len() && a[i] == (j, k);
            assert(c[i] == (j, k));
        }
        if b.contains((j, k)) {
            let i = choose|i: int| 0 <= i < b.len() && b[i] == (j, k);
            assert(c[a.len() + i] == (j, k));
        }
        if c.contains((j, k)) {
            let i = choose|i: int| 0 <= i < c.len() && c[i] == (j, k);
            if i < a.len() {
                assert(a[i] == (j, k));
            } else {
                assert(b[i - a.len()] == (j, k));
            }
        }
    }
}

/// The choices of one token that are expert `e`.
proof fn lemma_chosen(row: Seq<usize>, e: usize, t: int, n: int, j: int, k: int)
    requires
        0 <= n <= row.len(),
    ensures
        chosen_by(row, e, t, n).contains((j, k)) <==> j == t && 0 <= k < n && row[k] == e,
    decreases n,
{
    if n > 0 {
        lemma_chosen(row, e, t, n - 1, j, k);
        let (c, p) = (chosen_by(row, e, t, n), chosen_by(row, e, t, n - 1));
        if row[n - 1] == e {
            assert(c[c.len() - 1] == (t, n - 1));
            if p.contains((j, k)) {
                let i = choose|i: int| 0 <= i < p.len() && p[i] == (j, k);
                assert(c[i] == (j, k));
            }
            if c.contains((j, k)) {
                let i = choose|i: int| 0 <= i < c.len() && c[i] == (j, k);
                if i < p.len() {
                    assert(p[i] == (j, k));
                }
            }
        }
    }
}

/// A state grows by the tokens of its own row: what a pass over a batch of rows counts for sequence
/// `i` is the length of row `i`.
pub proof fn states_grow_by_their_rows(rows: Seq<Seq<u32>>, i: int)
    requires
        rows.len() <= usize::MAX,
        0 <= i < rows.len(),
    ensures
        count(
            scheduler::flat(rows),
            i as usize,
            scheduler::flat(rows).len() as int,
        ) == rows[i].len(),
{
    let items = scheduler::flat(rows);
    let at = scheduler::row_start(rows, i);
    scheduler::rows_are_apart(rows, i);
    lemma_none_before(rows, i, at);
    lemma_count_row(rows, i, rows[i].len() as int);
    lemma_none_behind(rows, i, items.len() as int);
}

/// Within its row a sequence counts every item.
proof fn lemma_count_row(rows: Seq<Seq<u32>>, i: int, k: int)
    requires
        rows.len() <= usize::MAX,
        0 <= i < rows.len(),
        0 <= k <= rows[i].len(),
    ensures
        count(scheduler::flat(rows), i as usize, scheduler::row_start(rows, i) + k) == k,
    decreases k,
{
    if k == 0 {
        scheduler::lemma_starts_grow(rows, 0, i);
        lemma_none_before(rows, i, scheduler::row_start(rows, i));
    } else {
        lemma_count_row(rows, i, k - 1);
        lemma_flat_row(rows, i, k - 1);
        scheduler::lemma_starts_grow(rows, 0, i);
    }
}

/// Behind its row a sequence counts nothing more.
proof fn lemma_none_behind(rows: Seq<Seq<u32>>, i: int, j: int)
    requires
        rows.len() <= usize::MAX,
        0 <= i < rows.len(),
        scheduler::row_start(rows, i + 1) <= j <= scheduler::flat(rows).len(),
    ensures
        count(scheduler::flat(rows), i as usize, j) == rows[i].len(),
    decreases j,
{
    let end = scheduler::row_start(rows, i + 1);
    scheduler::lemma_starts_grow(rows, 0, i + 1);
    if j == end {
        lemma_count_row(rows, i, rows[i].len() as int);
    } else {
        lemma_none_behind(rows, i, j - 1);
        lemma_flat_at(rows, j - 1);
        let r = scheduler::flat(rows)[j - 1].1 as int;
        if r == i {
            assert(j - 1 < end);
        }
    }
}

/// A pass over a batch of rows is within the context exactly where every sequence with a token to
/// compute has room for its row behind the positions that its state holds.
pub proof fn rows_need_room(rows: Seq<Seq<u32>>, lens: Seq<usize>, limit: int)
    requires
        rows.len() <= usize::MAX,
        rows.len() <= lens.len(),
    ensures
        in_context(scheduler::flat(rows), lens, limit) <==> forall|i: int|
            0 <= i < rows.len() && (#[trigger] rows[i]).len() > 0 ==> lens[i] + rows[i].len()
                <= limit,
{
    let items = scheduler::flat(rows);
    if in_context(items, lens, limit) {
        assert forall|i: int| 0 <= i < rows.len() && (#[trigger] rows[i]).len() > 0 implies lens[i]
            + rows[i].len() <= limit by {
            let k = rows[i].len() - 1;
            rows_take_positions(rows, lens, i, k);
            lemma_row_ends(rows, i, k);
            assert(position(items, lens, scheduler::row_start(rows, i) + k) < limit);
        }
    }
    if forall|i: int|
        0 <= i < rows.len() && (#[trigger] rows[i]).len() > 0 ==> lens[i] + rows[i].len()
            <= limit {
        assert forall|j: int| 0 <= j < items.len() implies #[trigger] position(items, lens, j)
            < limit by {
            lemma_flat_at(rows, j);
            let r = items[j].1 as int;
            let k = j - scheduler::row_start(rows, r);
            assert(scheduler::row_start(rows, r + 1) == scheduler::row_start(rows, r)
                + rows[r].len());
            rows_take_positions(rows, lens, r, k);
        }
    }
}

/// The plan of a pass over a batch of rows: token `k` of row `i` stands `k` behind the positions that
/// the state of sequence `i` holds, each state grows by its own row, and the results that are wanted
/// are those of every token or of the last token of every row.
pub proof fn plans_follow_rows(
    p: Plan,
    rows: Seq<Seq<u32>>,
    lens: Seq<usize>,
    all: bool,
    i: int,
    k: int,
)
    requires
        rows.len() <= usize::MAX,
        rows.len() == lens.len(),
        plans(p, scheduler::flat(rows), lens, all),
        0 <= i < rows.len(),
        0 <= k < rows[i].len(),
        forall|x: int| 0 <= x < rows.len() ==> (#[trigger] rows[x]).len() > 0,
    ensures
        p.pos@.len() == scheduler::row_start(rows, rows.len() as int),
        p.pos@[scheduler::row_start(rows, i) + k] == lens[i] + k,
        p.seen@.len() == rows.len(),
        p.seen@[i] == rows[i].len(),
        !all ==> p.lasts@.len() == rows.len() && p.lasts@[i] == scheduler::row_start(rows, i + 1)
            - 1,
        all ==> p.lasts@.len() == p.pos@.len() && p.lasts@[scheduler::row_start(rows, i) + k]
            == scheduler::row_start(rows, i) + k,
{
    let items = scheduler::flat(rows);
    let n = rows.len() as int;
    let j = scheduler::row_start(rows, i) + k;
    scheduler::rows_are_apart(rows, i);
    scheduler::rows_are_apart(rows, n - 1);
    lemma_row_ends(rows, i, k);
    rows_take_positions(rows, lens, i, k);
    states_grow_by_their_rows(rows, i);
    assert(p.pos@[j] == position(items, lens, j));
    assert(p.seen@[i] == count(items, i as usize, items.len() as int));
    let w = wanted(items, all, items.len() as int);
    assert(as_ints(p.lasts@) == w);
    assert(as_ints(p.lasts@).len() == p.lasts@.len());
    if all {
        all_are_wanted(items, items.len() as int);
        assert(as_ints(p.lasts@)[j] == p.lasts@[j]);
    } else {
        rows_give_one_each(rows, n);
        assert(as_ints(p.lasts@)[i] == p.lasts@[i]);
    }
}

/// A pass on a device is refused only for a reason: it has more items than fit, a position beyond the
/// context, or more results than fit; and one that breaks none of these is not refused.
pub proof fn device_limits_are_kept(items: Seq<(u32, usize)>, lens: Seq<usize>, all: bool)
    ensures
        match broken_limit(items, lens, all) {
            Some(GpuLimit::Items) => items.len() > 512,
            Some(GpuLimit::Context) => exists|j: int|
                0 <= j < items.len() && #[trigger] position(items, lens, j) >= 2048,
            Some(GpuLimit::Logits) => wanted(items, all, items.len() as int).len() > 16,
            None => {
                &&& items.len() <= 512
                &&& wanted(items, all, items.len() as int).len() <= 16
                &&& forall|j: int|
                    0 <= j < items.len() ==> #[trigger] position(items, lens, j) < 2048
            },
        },
{
}

} // verus!
