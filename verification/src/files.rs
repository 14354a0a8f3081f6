//! The files of a checkpoint directory: which are read, in which order, and the text by which a
//! changed checkpoint is told from an unchanged one.

use vstd::prelude::*;
use vstd::string::*;

use crate::text;

verus! {

/// `a` stands before `b` in the dictionary, or is `b`.
pub open spec fn before(a: Seq<char>, b: Seq<char>) -> bool
    decreases a.len(),
{
    if a.len() == 0 {
        true
    } else if b.len() == 0 {
        false
    } else if a[0] == b[0] {
        before(a.drop_first(), b.drop_first())
    } else {
        a[0] < b[0]
    }
}

/// Whether `a` stands before `b` in the dictionary, or is `b`.
fn stands_before(a: &[char], b: &[char]) -> (r: bool)
    ensures
        r == before(a@, b@),
{
    let mut i: usize = 0;
    assert(a@.skip(0) =~= a@ && b@.skip(0) =~= b@);
    while i < a.len() && i < b.len()
        invariant
            i <= a@.len(),
            i <= b@.len(),
            before(a@, b@) == before(a@.skip(i as int), b@.skip(i as int)),
        decreases a@.len() - i,
    {
        assert(a@.skip(i as int).drop_first() =~= a@.skip(i + 1));
        assert(b@.skip(i as int).drop_first() =~= b@.skip(i + 1));
        if a[i] != b[i] {
            return a[i] < b[i];
        }
        i += 1;
    }
    i == a.len()
}

/// The dictionary's order is total.
pub proof fn order_is_total(a: Seq<char>, b: Seq<char>)
    ensures
        before(a, b) || before(b, a),
    decreases a.len(),
{
    if a.len() > 0 && b.len() > 0 && a[0] == b[0] {
        order_is_total(a.drop_first(), b.drop_first());
    }
}

/// The dictionary's order carries over.
pub proof fn order_carries_over(a: Seq<char>, b: Seq<char>, c: Seq<char>)
    requires
        before(a, b),
        before(b, c),
    ensures
        before(a, c),
    decreases a.len(),
{
    if a.len() > 0 && b.len() > 0 && c.len() > 0 && a[0] == b[0] && b[0] == c[0] {
        order_carries_over(a.drop_first(), b.drop_first(), c.drop_first());
    }
}

/// A file of a directory: its name, and its length and time of change where they are known.
pub struct DirEntry {
    pub name: String,
    pub stat: Option<(u64, u64)>,
}

/// What a [`DirEntry`] says.
pub type Listed = (Seq<char>, Option<(u64, u64)>);

impl DirEntry {
    /// What it says.
    pub open spec fn view(&self) -> Listed {
        (self.name@, self.stat)
    }
}

/// What entries say.
pub open spec fn listing(s: Seq<DirEntry>) -> Seq<Listed> {
    s.map_values(|e: DirEntry| e@)
}

/// The place of `x` in a sorted list: behind everything that does not stand behind it.
pub open spec fn slot(s: Seq<Listed>, x: Seq<char>, n: int) -> int
    decreases n,
{
    if n <= 0 {
        0
    } else if before(s[n - 1].0, x) {
        n
    } else {
        slot(s, x, n - 1)
    }
}

/// The entries by name.
pub open spec fn sorted(s: Seq<Listed>) -> Seq<Listed>
    decreases s.len(),
{
    if s.len() == 0 {
        seq![]
    } else {
        let front = sorted(s.drop_last());
        front.insert(slot(front, s.last().0, front.len() as int), s.last())
    }
}

/// A place in a list is no further than its end.
proof fn lemma_slot(s: Seq<Listed>, x: Seq<char>, n: int)
    requires
        0 <= n,
    ensures
        0 <= slot(s, x, n) <= n,
        slot(s, x, n) > 0 ==> before(s[slot(s, x, n) - 1].0, x),
        forall|i: int| slot(s, x, n) <= i < n ==> !before((#[trigger] s[i]).0, x),
    decreases n,
{
    if n > 0 && !before(s[n - 1].0, x) {
        lemma_slot(s, x, n - 1);
    }
}

/// In order by name.
pub open spec fn in_order(s: Seq<Listed>) -> bool {
    forall|i: int, j: int|
        0 <= i < j < s.len() ==> before((#[trigger] s[i]).0, (#[trigger] s[j]).0)
}

/// Sorting puts the entries in order, and keeps every one of them.
pub proof fn sorting_sorts(s: Seq<Listed>)
    ensures
        in_order(sorted(s)),
        sorted(s).to_multiset() == s.to_multiset(),
        sorted(s).len() == s.len(),
    decreases s.len(),
{
    if s.len() > 0 {
        let p = s.drop_last();
        let x = s.last();
        sorting_sorts(p);
        let front = sorted(p);
        let k = slot(front, x.0, front.len() as int);
        lemma_slot(front, x.0, front.len() as int);
        let all = sorted(s);
        assert forall|i: int, j: int| 0 <= i < j < all.len() implies before(
            (#[trigger] all[i]).0,
            (#[trigger] all[j]).0,
        ) by {
            let a = if i < k {
                i
            } else {
                i - 1
            };
            let b = if j < k {
                j
            } else {
                j - 1
            };
            if i == k {
                assert(all[j] == front[b]);
                order_is_total(front[b].0, x.0);
            } else if j == k {
                assert(all[i] == front[a]);
                if a < k - 1 {
                    order_carries_over(front[a].0, front[k - 1].0, x.0);
                }
            } else {
                assert(all[i] == front[a] && all[j] == front[b]);
            }
        }
        vstd::seq_lib::to_multiset_insert(front, k, x);
        assert(s =~= p.push(x));
        vstd::seq_lib::to_multiset_build(p, x);
    } else {
        assert(sorted(s) =~= s);
    }
}

/// Sorts entries by name.
pub fn sort(s: Vec<DirEntry>) -> (r: Vec<DirEntry>)
    ensures
        listing(r@) == sorted(listing(s@)),
{
    let ghost all = listing(s@);
    let mut out: Vec<DirEntry> = Vec::new();
    for i in 0..s.len()
        invariant
            all == listing(s@),
            listing(out@) == sorted(all.take(i as int)),
    {
        let e = DirEntry { name: s[i].name.clone(), stat: s[i].stat };
        assert(e@ == all[i as int]);
        let name: Vec<char> = text::chars_of(e.name.as_str());
        let ghost front = listing(out@);
        let mut k: usize = out.len();
        while k > 0 && !stands_before(text::chars_of(out[k - 1].name.as_str()).as_slice(), name.as_slice())
            invariant
                k <= out@.len(),
                front == listing(out@),
                slot(front, name@, front.len() as int) == slot(front, name@, k as int),
            decreases k,
        {
            k -= 1;
        }
        proof {
            lemma_slot(front, name@, front.len() as int);
            assert(all.take(i + 1).drop_last() =~= all.take(i as int));
        }
        out.insert(k, e);
        assert(listing(out@) =~= front.insert(k as int, e@));
    }
    assert(all.take(all.len() as int) =~= all);
    out
}

/// `s` ends with `suffix`.
pub open spec fn ends_with(s: Seq<char>, suffix: Seq<char>) -> bool {
    suffix.len() <= s.len() && s.skip(s.len() - suffix.len()) == suffix
}

/// Whether `s` ends with `suffix`.
pub fn has_suffix(s: &str, suffix: &str) -> (r: bool)
    ensures
        r == ends_with(s@, suffix@),
{
    let a: Vec<char> = text::chars_of(s);
    let b: Vec<char> = text::chars_of(suffix);
    if b.len() > a.len() {
        return false;
    }
    let at: usize = a.len() - b.len();
    assert(a@.subrange(at as int, at + b@.len()) =~= a@.skip(at as int));
    text::matches_at(a.as_slice(), b.as_slice(), at)
}

/// The entries whose names end with `.safetensors`.
pub open spec fn shards_of(s: Seq<Listed>) -> Seq<Listed> {
    s.filter(|e: Listed| ends_with(e.0, ".safetensors"@))
}

/// The files to read, in order: the one file of an undivided checkpoint where there is one, else
/// every file of the directory whose name ends with `.safetensors`.
pub fn checkpoint_files(single: Option<DirEntry>, dir: Vec<DirEntry>) -> (r: Vec<DirEntry>)
    ensures
        listing(r@) == (match single {
            Some(e) => seq![e@],
            None => sorted(shards_of(listing(dir@))),
        }),
{
    if let Some(e) = single {
        let mut one: Vec<DirEntry> = Vec::new();
        one.push(e);
        assert(listing(one@) =~= seq![e@]);
        return one;
    }
    let ghost all = listing(dir@);
    let mut out: Vec<DirEntry> = Vec::new();
    let ghost keep = |e: Listed| ends_with(e.0, ".safetensors"@);
    assert(all.take(0).filter(keep) =~= seq![]) by {
        reveal(Seq::filter);
    }
    for i in 0..dir.len()
        invariant
            all == listing(dir@),
            keep == (|e: Listed| ends_with(e.0, ".safetensors"@)),
            listing(out@) == all.take(i as int).filter(keep),
    {
        let ghost front = listing(out@);
        proof {
            reveal(Seq::filter);
            assert(all.take(i + 1).drop_last() =~= all.take(i as int));
            assert(all.take(i + 1).last() == dir@[i as int]@);
        }
        if has_suffix(dir[i].name.as_str(), ".safetensors") {
            let e = DirEntry { name: dir[i].name.clone(), stat: dir[i].stat };
            out.push(e);
            assert(listing(out@) =~= front.push(all[i as int]));
        }
    }
    assert(all.take(all.len() as int) =~= all);
    sort(out)
}

/// Of a directory the files of tensors are read, all of them and no others.
pub proof fn tensor_files_are_read(s: Seq<Listed>, e: Listed)
    ensures
        shards_of(s).contains(e) <==> s.contains(e) && ends_with(e.0, ".safetensors"@),
        sorted(shards_of(s)).to_multiset() == shards_of(s).to_multiset(),
        in_order(sorted(shards_of(s))),
{
    let keep = |e: Listed| ends_with(e.0, ".safetensors"@);
    lemma_filtered(s, keep, e);
    sorting_sorts(shards_of(s));
}

/// What is left of a list has the property and stood in it.
proof fn lemma_filtered(s: Seq<Listed>, keep: spec_fn(Listed) -> bool, e: Listed)
    ensures
        s.filter(keep).contains(e) <==> s.contains(e) && keep(e),
    decreases s.len(),
{
    reveal(Seq::filter);
    if s.len() > 0 {
        let p = s.drop_last();
        lemma_filtered(p, keep, e);
        let (f, g) = (s.filter(keep), p.filter(keep));
        let n = s.len() - 1;
        if f.contains(e) {
            let x = choose|x: int| 0 <= x < f.len() && f[x] == e;
            if x < g.len() {
                assert(g[x] == e);
                let y = choose|y: int| 0 <= y < p.len() && p[y] == e;
                assert(s[y] == e);
            } else {
                assert(s[n] == e);
            }
        }
        if s.contains(e) && keep(e) {
            let y = choose|y: int| 0 <= y < s.len() && s[y] == e;
            if y < n {
                assert(p[y] == e);
                let x = choose|x: int| 0 <= x < g.len() && g[x] == e;
                assert(f[x] == e);
            } else {
                assert(f[g.len() as int] == e);
            }
        }
    }
}

/// Names of which each stands before the other are the same.
pub proof fn order_tells_names_apart(a: Seq<char>, b: Seq<char>)
    requires
        before(a, b),
        before(b, a),
    ensures
        a == b,
    decreases a.len(),
{
    if a.len() > 0 && b.len() > 0 {
        order_tells_names_apart(a.drop_first(), b.drop_first());
        assert(a =~= seq![a[0]] + a.drop_first());
        assert(b =~= seq![b[0]] + b.drop_first());
    } else {
        assert(a =~= b);
    }
}

/// No name occurs twice.
pub open spec fn named_once(s: Seq<Listed>) -> bool {
    forall|i: int, j: int| 0 <= i < j < s.len() ==> (#[trigger] s[i]).0 != (#[trigger] s[j]).0
}

/// Entries that are in order by name stand in one order only.
proof fn lemma_one_order(a: Seq<Listed>, b: Seq<Listed>)
    requires
        in_order(a),
        in_order(b),
        named_once(a),
        a.to_multiset() == b.to_multiset(),
    ensures
        a == b,
    decreases a.len(),
{
    a.to_multiset_ensures();
    b.to_multiset_ensures();
    assert(a.len() == b.len());
    if a.len() == 0 {
        assert(a =~= b);
    } else {
        assert(b.to_multiset().count(b[0]) > 0) by {
            assert(b.contains(b[0]));
        }
        assert(a.contains(b[0]));
        assert(a.to_multiset().count(a[0]) > 0) by {
            assert(a.contains(a[0]));
        }
        assert(b.contains(a[0]));
        let i = choose|i: int| 0 <= i < a.len() && a[i] == b[0];
        let j = choose|j: int| 0 <= j < b.len() && b[j] == a[0];
        if i > 0 && j > 0 {
            assert(before(a[0].0, a[i].0));
            assert(before(b[0].0, b[j].0));
            order_tells_names_apart(a[0].0, b[0].0);
            assert(a[0].0 != a[i].0);
        }
        assert(a[0] == b[0]);
        let (p, q) = (a.drop_first(), b.drop_first());
        assert(p =~= a.remove(0) && q =~= b.remove(0));
        assert(p.to_multiset() =~= a.to_multiset().remove(a[0]));
        assert(q.to_multiset() =~= b.to_multiset().remove(b[0]));
        assert(in_order(p)) by {
            assert forall|x: int, y: int| 0 <= x < y < p.len() implies before(
                (#[trigger] p[x]).0,
                (#[trigger] p[y]).0,
            ) by {
                assert(before(a[x + 1].0, a[y + 1].0));
            }
        }
        assert(in_order(q)) by {
            assert forall|x: int, y: int| 0 <= x < y < q.len() implies before(
                (#[trigger] q[x]).0,
                (#[trigger] q[y]).0,
            ) by {
                assert(before(b[x + 1].0, b[y + 1].0));
            }
        }
        assert(named_once(p)) by {
            assert forall|x: int, y: int| 0 <= x < y < p.len() implies (#[trigger] p[x]).0 != (
            #[trigger] p[y]).0 by {
                assert(a[x + 1].0 != a[y + 1].0);
            }
        }
        lemma_one_order(p, q);
        assert(a =~= seq![a[0]] + p);
        assert(b =~= seq![b[0]] + q);
    }
}

/// In whatever order a directory lists its files, they are sorted alike.
pub proof fn listings_sort_alike(s: Seq<Listed>, t: Seq<Listed>)
    requires
        s.to_multiset() == t.to_multiset(),
        named_once(s),
    ensures
        sorted(s) == sorted(t),
{
    lemma_sorted_once(s);
    sorting_sorts(s);
    sorting_sorts(t);
    lemma_one_order(sorted(s), sorted(t));
}

/// Sorting brings in no name twice.
proof fn lemma_sorted_once(s: Seq<Listed>)
    requires
        named_once(s),
    ensures
        named_once(sorted(s)),
    decreases s.len(),
{
    if s.len() > 0 {
        let p = s.drop_last();
        let x = s.last();
        assert(named_once(p)) by {
            assert forall|i: int, j: int| 0 <= i < j < p.len() implies (#[trigger] p[i]).0 != (
            #[trigger] p[j]).0 by {
                assert(s[i].0 != s[j].0);
            }
        }
        lemma_sorted_once(p);
        sorting_sorts(p);
        let front = sorted(p);
        let k = slot(front, x.0, front.len() as int);
        lemma_slot(front, x.0, front.len() as int);
        let all = sorted(s);
        front.to_multiset_ensures();
        p.to_multiset_ensures();
        assert forall|i: int| 0 <= i < front.len() implies (#[trigger] front[i]).0 != x.0 by {
            assert(front.contains(front[i]));
            assert(front.to_multiset().count(front[i]) > 0);
            assert(p.to_multiset().count(front[i]) > 0);
            assert(p.contains(front[i]));
            let j = choose|j: int| 0 <= j < p.len() && p[j] == front[i];
            assert(s[j].0 != s[s.len() - 1].0);
        }
        assert forall|i: int, j: int| 0 <= i < j < all.len() implies (#[trigger] all[i]).0 != (
        #[trigger] all[j]).0 by {
            let (a, b) = (
                if i < k {
                    i
                } else {
                    i - 1
                },
                if j < k {
                    j
                } else {
                    j - 1
                },
            );
            if i == k {
                assert(all[j] == front[b]);
            } else if j == k {
                assert(all[i] == front[a]);
            } else {
                assert(all[i] == front[a] && all[j] == front[b]);
            }
        }
    }
}

} // verus!
