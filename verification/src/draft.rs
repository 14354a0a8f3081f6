//! Draft tokens by prompt lookup: where the last tokens of a sequence stood before, what followed
//! them then is a guess at what follows now.

use vstd::prelude::*;

verus! {

/// The last `n` tokens also stand at `i`, before the end.
pub open spec fn recurs(toks: Seq<u32>, n: int, i: int) -> bool {
    &&& 0 <= i
    &&& i < toks.len() - n
    &&& toks.subrange(i, i + n) == toks.subrange(toks.len() - n, toks.len() as int)
}

/// The last place before the end at which the last `n` tokens stand.
pub open spec fn last_recurrence(toks: Seq<u32>, n: int, i: int) -> bool {
    &&& recurs(toks, n, i)
    &&& forall|j: int| i < j ==> !#[trigger] recurs(toks, n, j)
}

/// What followed the last `n` tokens where they stood at `i`: at most `k` tokens, none of them of
/// the last `n` themselves.
pub open spec fn followers(toks: Seq<u32>, n: int, k: int, i: int) -> Seq<u32> {
    let from = i + n;
    let end = if from + k < toks.len() - n {
        from + k
    } else {
        toks.len() - n
    };
    if from < end {
        toks.subrange(from, end)
    } else {
        seq![]
    }
}

/// `d` is what followed the longest run of at most `n` (and at least two) last tokens that stood
/// before with something behind it; the latest such place counts.
pub open spec fn drafted(toks: Seq<u32>, n: int, k: int, d: Option<Seq<u32>>) -> bool
    decreases n,
{
    if n < 2 {
        d is None
    } else {
        let fitting = toks.len() > n && exists|i: int|
            #[trigger] last_recurrence(toks, n, i) && followers(toks, n, k, i).len() > 0;
        if fitting {
            exists|i: int|
                #[trigger] last_recurrence(toks, n, i) && d == Some(followers(toks, n, k, i))
        } else {
            drafted(toks, n - 1, k, d)
        }
    }
}

/// The last place at which the last `n` tokens stand before the end.
fn find_recurrence(toks: &[u32], n: usize) -> (r: Option<usize>)
    requires
        n < toks@.len(),
    ensures
        match r {
            Some(i) => last_recurrence(toks@, n as int, i as int),
            None => forall|i: int| !#[trigger] recurs(toks@, n as int, i),
        },
{
    let start: usize = toks.len() - n;
    let mut i: usize = start;
    while i > 0
        invariant
            n < toks@.len(),
            start == toks@.len() - n,
            i <= start,
            forall|j: int| i <= j ==> !#[trigger] recurs(toks@, n as int, j),
        decreases i,
    {
        i -= 1;
        let ghost here = toks@.subrange(i as int, i + n);
        let ghost tail = toks@.subrange(toks@.len() - n, toks@.len() as int);
        let mut same: bool = true;
        let mut p: usize = 0;
        while p < n && same
            invariant
                n < toks@.len() == toks.len(),
                start == toks@.len() - n,
                i < start,
                p <= n,
                here == toks@.subrange(i as int, i + n),
                tail == toks@.subrange(toks@.len() - n, toks@.len() as int),
                same ==> forall|q: int| 0 <= q < p ==> #[trigger] here[q] == tail[q],
                !same ==> here != tail,
            decreases n - p + (if same { 1int } else { 0 }),
        {
            assert(here[p as int] == toks@[i + p] && tail[p as int] == toks@[start + p]);
            if toks[i + p] != toks[start + p] {
                same = false;
            } else {
                p += 1;
            }
        }
        assert(same ==> here =~= tail);
        if same {
            return Some(i);
        }
    }
    None
}

/// Where the last `n` tokens stood before, up to `k` of the tokens that followed them; fewer than
/// `n` last tokens are tried in turn, down to two.
pub fn ngram_draft(toks: &[u32], n: usize, k: usize) -> (r: Option<Vec<u32>>)
    ensures
        drafted(
            toks@,
            n as int,
            k as int,
            match r {
                Some(d) => Some(d@),
                None => None,
            },
        ),
        r matches Some(d) ==> 0 < d@.len() <= k,
{
    let len: usize = toks.len();
    let mut m: usize = n;
    while m >= 2
        invariant
            len == toks@.len(),
            m <= n,
            forall|d: Option<Seq<u32>>|
                drafted(toks@, m as int, k as int, d) ==> drafted(toks@, n as int, k as int, d),
        decreases m,
    {
        if len > m {
            if let Some(i) = find_recurrence(toks, m) {
                let from: usize = i + m;
                if from < len - m && k > 0 {
                    let room: usize = len - m - from;
                    let count: usize = if k < room {
                        k
                    } else {
                        room
                    };
                    let part = vstd::slice::slice_subrange(toks, from, from + count);
                    let d: Vec<u32> = vstd::slice::slice_to_vec(part);
                    proof {
                        assert(d@ == followers(toks@, m as int, k as int, i as int));
                        assert(last_recurrence(toks@, m as int, i as int));
                        assert(drafted(toks@, m as int, k as int, Some(d@)));
                    }
                    return Some(d);
                }
                proof {
                    assert(followers(toks@, m as int, k as int, i as int).len() == 0);
                    assert forall|j: int| #[trigger] last_recurrence(toks@, m as int, j) implies j
                        == i by {
                        assert(recurs(toks@, m as int, j));
                        assert(recurs(toks@, m as int, i as int));
                    }
                }
            } else {
                assert(forall|i: int| !#[trigger] last_recurrence(toks@, m as int, i));
            }
        }
        m -= 1;
    }
    None
}

/// A draft is a stretch of the sequence itself.
pub proof fn draft_is_quoted(toks: Seq<u32>, n: int, k: int, d: Seq<u32>)
    requires
        drafted(toks, n, k, Some(d)),
    ensures
        exists|from: int|
            0 <= from && from + d.len() <= toks.len() && d == #[trigger] toks.subrange(
                from,
                from + d.len(),
            ),
    decreases n,
{
    if n >= 2 {
        let fitting = toks.len() > n && exists|i: int|
            #[trigger] last_recurrence(toks, n, i) && followers(toks, n, k, i).len() > 0;
        if fitting {
            let i = choose|i: int|
                #[trigger] last_recurrence(toks, n, i) && Some(d) == Some(followers(toks, n, k, i));
            let from = i + n;
            if d.len() > 0 {
                assert(d == toks.subrange(from, from + d.len()));
            } else {
                assert(d =~= toks.subrange(0, 0int + d.len()));
            }
        } else {
            draft_is_quoted(toks, n - 1, k, d);
        }
    }
}

/// A sequence has one draft: equal tokens give equal guesses.
pub proof fn draft_is_determined(
    toks: Seq<u32>,
    n: int,
    k: int,
    a: Option<Seq<u32>>,
    b: Option<Seq<u32>>,
)
    requires
        drafted(toks, n, k, a),
        drafted(toks, n, k, b),
    ensures
        a == b,
    decreases n,
{
    if n >= 2 {
        let fitting = toks.len() > n && exists|i: int|
            #[trigger] last_recurrence(toks, n, i) && followers(toks, n, k, i).len() > 0;
        if fitting {
            let i = choose|i: int|
                #[trigger] last_recurrence(toks, n, i) && a == Some(followers(toks, n, k, i));
            let j = choose|j: int|
                #[trigger] last_recurrence(toks, n, j) && b == Some(followers(toks, n, k, j));
            assert(recurs(toks, n, i) && recurs(toks, n, j));
        } else {
            draft_is_determined(toks, n - 1, k, a, b);
        }
    }
}

/// The last `m` tokens, with at least one token behind them that is not one of the last `m`, stood
/// before, for some `m` from two to `n`, and at most `k` tokens can be drafted with `k` above zero:
/// there is something to draft. The latest place where they stood counts.
pub open spec fn repeats(toks: Seq<u32>, n: int, k: int) -> bool {
    k > 0 && exists|m: int, i: int|
        2 <= m <= n && 0 <= i && i + m < toks.len() - m && #[trigger] toks.subrange(i, i + m)
            == toks.subrange(toks.len() - m, toks.len() as int) && forall|j: int|
            i < j < toks.len() - m ==> #[trigger] toks.subrange(j, j + m) != toks.subrange(
                toks.len() - m,
                toks.len() as int,
            )
}

/// A draft is what followed, at an earlier place, the tokens that the sequence now ends with: at
/// least two and at most `n` of them. It has at least one token and at most `k`, and stands before
/// those last tokens.
pub proof fn drafts_follow_their_tokens(toks: Seq<u32>, n: int, k: int, d: Seq<u32>)
    requires
        drafted(toks, n, k, Some(d)),
    ensures
        0 < d.len() <= k,
        exists|m: int, i: int|
            2 <= m <= n && 0 <= i && i + m + d.len() <= toks.len() - m && #[trigger] toks.subrange(
                i,
                i + m,
            ) == toks.subrange(toks.len() - m, toks.len() as int) && d == toks.subrange(
                i + m,
                i + m + d.len(),
            ),
    decreases n,
{
    if n >= 2 {
        let fitting = toks.len() > n && exists|i: int|
            #[trigger] last_recurrence(toks, n, i) && followers(toks, n, k, i).len() > 0;
        if fitting {
            let i = choose|i: int|
                #[trigger] last_recurrence(toks, n, i) && Some(d) == Some(followers(toks, n, k, i));
            let j = choose|j: int|
                #[trigger] last_recurrence(toks, n, j) && followers(toks, n, k, j).len() > 0;
            assert(recurs(toks, n, i) && recurs(toks, n, j));
            assert(i == j);
            assert(d =~= toks.subrange(i + n, i + n + d.len()));
            assert(toks.subrange(i, i + n) == toks.subrange(toks.len() - n, toks.len() as int));
        } else {
            drafts_follow_their_tokens(toks, n - 1, k, d);
        }
    }
}

/// Where there is something to draft, something is drafted.
pub proof fn repeats_are_drafted(toks: Seq<u32>, n: int, k: int, d: Option<Seq<u32>>)
    requires
        drafted(toks, n, k, d),
        repeats(toks, n, k),
    ensures
        d is Some,
    decreases n,
{
    let (m, i) = choose|m: int, i: int|
        2 <= m <= n && 0 <= i && i + m < toks.len() - m && #[trigger] toks.subrange(i, i + m)
            == toks.subrange(toks.len() - m, toks.len() as int) && forall|j: int|
            i < j < toks.len() - m ==> #[trigger] toks.subrange(j, j + m) != toks.subrange(
                toks.len() - m,
                toks.len() as int,
            );
    if m == n {
        assert(recurs(toks, n, i));
        assert(last_recurrence(toks, n, i));
        assert(followers(toks, n, k, i).len() > 0);
    } else {
        let fitting = toks.len() > n && exists|i: int|
            #[trigger] last_recurrence(toks, n, i) && followers(toks, n, k, i).len() > 0;
        if !fitting {
            assert(toks.subrange(i, i + m) == toks.subrange(toks.len() - m, toks.len() as int));
            repeats_are_drafted(toks, n - 1, k, d);
        }
    }
}

/// The longest run counts, and of its places the latest: where the last `n` tokens stood before with
/// something behind them, the draft is what stood behind the latest of those places.
pub proof fn longest_and_latest_is_drafted(
    toks: Seq<u32>,
    n: int,
    k: int,
    d: Option<Seq<u32>>,
    i: int,
)
    requires
        n >= 2,
        k > 0,
        drafted(toks, n, k, d),
        0 <= i,
        i + n < toks.len() - n,
        toks.subrange(i, i + n) == toks.subrange(toks.len() - n, toks.len() as int),
        forall|j: int|
            i < j < toks.len() - n ==> #[trigger] toks.subrange(j, j + n) != toks.subrange(
                toks.len() - n,
                toks.len() as int,
            ),
    ensures
        d matches Some(t) && t.len() > 0 && t == toks.subrange(i + n, i + n + t.len()) && (t.len()
            == k || i + n + t.len() == toks.len() - n) && t.len() <= k,
{
    assert(recurs(toks, n, i));
    assert(last_recurrence(toks, n, i));
    let t = followers(toks, n, k, i);
    assert(t.len() > 0);
    let j = choose|j: int| #[trigger]
        last_recurrence(toks, n, j) && d == Some(followers(toks, n, k, j));
    assert(recurs(toks, n, j));
    assert(i == j);
    assert(t =~= toks.subrange(i + n, i + n + t.len()));
}

} // verus!
