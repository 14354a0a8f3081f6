//! States of recent prompts. A new prompt that begins like an earlier one takes over the state of
//! the common part and only computes the rest.

use vstd::prelude::*;
use vstd::slice::*;

use crate::kv;
use crate::kv::Kv;
use crate::text;

verus! {

/// Shortest common part worth taking over.
pub const MIN_PREFIX: usize = 4;

/// One remembered prompt: its tokens, the state of exactly those tokens, and when it was last used.
pub struct Entry<F, B> {
    pub tokens: Vec<u32>,
    pub kv: Kv<F, B>,
    pub used: u64,
}

/// What an [`Entry`] holds.
#[verifier::ext_equal]
pub ghost struct Remembered<F, B> {
    pub tokens: Seq<u32>,
    pub kv: kv::KvRows<F, B>,
    pub used: u64,
}

impl<F, B> Entry<F, B> {
    /// What the entry holds.
    pub open spec fn view(&self) -> Remembered<F, B> {
        Remembered { tokens: self.tokens@, kv: self.kv@, used: self.used }
    }
}

/// The remembered prompts, within a budget of bytes.
pub struct PrefixCache<F, B> {
    pub entries: Vec<Entry<F, B>>,
    pub clock: u64,
    pub budget: usize,
}

/// What a [`PrefixCache`] holds.
#[verifier::ext_equal]
pub ghost struct Memory<F, B> {
    pub entries: Seq<Remembered<F, B>>,
    pub clock: u64,
    pub budget: usize,
}

impl<F, B> Memory<F, B> {
    /// No two entries were last used at the same time.
    pub open spec fn timed(self) -> bool {
        &&& forall|i: int|
            0 <= i < self.entries.len() ==> (#[trigger] self.entries[i]).used <= self.clock
        &&& forall|i: int, j: int|
            0 <= i < j < self.entries.len() ==> (#[trigger] self.entries[i]).used != (
            #[trigger] self.entries[j]).used
    }

    /// Every entry's state is that of exactly its tokens, and no two entries were last used at the
    /// same time.
    pub open spec fn wf(self) -> bool {
        &&& self.timed()
        &&& forall|i: int|
            0 <= i < self.entries.len() ==> (#[trigger] self.entries[i]).kv.len()
                == self.entries[i].tokens.len()
    }
}

/// Length of the longest common beginning.
pub open spec fn common(a: Seq<u32>, b: Seq<u32>) -> nat
    decreases a.len(),
{
    if a.len() > 0 && b.len() > 0 && a[0] == b[0] {
        1 + common(a.drop_first(), b.drop_first())
    } else {
        0
    }
}

/// How much of `prompt` an entry can serve: the common beginning, leaving at least one token to
/// compute, if the state can be cut to it.
pub open spec fn usable<F, B>(e: Remembered<F, B>, prompt: Seq<u32>) -> nat {
    let c = common(e.tokens, prompt);
    let n: nat = if c < prompt.len() {
        c
    } else {
        (prompt.len() - 1) as nat
    };
    if e.kv.can_cut(n as int) {
        n
    } else {
        0
    }
}

/// Entry `i` serves `n` tokens of `prompt`, the most of all and the first to serve as many.
pub open spec fn serves<F, B>(
    entries: Seq<Remembered<F, B>>,
    prompt: Seq<u32>,
    n: int,
    i: int,
) -> bool {
    &&& 0 <= i < entries.len()
    &&& n == usable(entries[i], prompt)
    &&& n >= MIN_PREFIX
    &&& forall|j: int| 0 <= j < entries.len() ==> usable(#[trigger] entries[j], prompt) <= n
    &&& forall|j: int| 0 <= j < i ==> usable(#[trigger] entries[j], prompt) < n
}

/// No entry serves `prompt`.
pub open spec fn unserved<F, B>(entries: Seq<Remembered<F, B>>, prompt: Seq<u32>) -> bool {
    forall|j: int| 0 <= j < entries.len() ==> usable(#[trigger] entries[j], prompt) < MIN_PREFIX
}

/// Some entry begins with `tokens`.
pub open spec fn covered<F, B>(entries: Seq<Remembered<F, B>>, tokens: Seq<u32>) -> bool {
    exists|j: int|
        0 <= j < entries.len() && text::begins_with((#[trigger] entries[j]).tokens, tokens)
}

/// The entries whose tokens `tokens` does not begin with.
pub open spec fn kept<F, B>(
    entries: Seq<Remembered<F, B>>,
    tokens: Seq<u32>,
) -> Seq<Remembered<F, B>>
    decreases entries.len(),
{
    if entries.len() == 0 {
        seq![]
    } else {
        let front = kept(entries.drop_last(), tokens);
        if text::begins_with(tokens, entries.last().tokens) {
            front
        } else {
            front.push(entries.last())
        }
    }
}

/// The memory with `tokens` added and every entry dropped that they make superfluous.
pub open spec fn admitted<F, B>(
    m: Memory<F, B>,
    tokens: Seq<u32>,
    state: kv::KvRows<F, B>,
) -> Memory<F, B> {
    let clock = (m.clock + 1) as u64;
    Memory {
        entries: kept(m.entries, tokens).push(
            Remembered { tokens, kv: state.cut_to(tokens.len()), used: clock },
        ),
        clock,
        budget: m.budget,
    }
}

/// The place of the entry that was used longest ago.
pub open spec fn oldest<F, B>(entries: Seq<Remembered<F, B>>) -> int
    decreases entries.len(),
{
    if entries.len() <= 1 {
        0
    } else {
        let o = oldest(entries.drop_last());
        if entries.last().used < entries[o].used {
            entries.len() - 1
        } else {
            o
        }
    }
}

/// The sum of `sizes`.
pub open spec fn total(sizes: Seq<usize>) -> int
    decreases sizes.len(),
{
    if sizes.len() == 0 {
        0
    } else {
        total(sizes.drop_last()) + sizes.last()
    }
}

/// `sizes` are bytes that the entries can take.
pub open spec fn sized<F, B>(entries: Seq<Remembered<F, B>>, sizes: Seq<usize>) -> bool {
    &&& sizes.len() == entries.len()
    &&& forall|i: int|
        0 <= i < entries.len() ==> (#[trigger] entries[i]).kv.occupies(sizes[i])
}

/// There is one entry at most, or the bytes that the entries take are within the budget.
pub open spec fn within_budget<F, B>(m: Memory<F, B>) -> bool {
    m.entries.len() <= 1 || exists|sizes: Seq<usize>| #[trigger]
        sized(m.entries, sizes) && total(sizes) <= m.budget
}

/// No entry begins with the tokens of another.
pub open spec fn apart<F, B>(entries: Seq<Remembered<F, B>>) -> bool {
    forall|i: int, j: int|
        0 <= i < entries.len() && 0 <= j < entries.len() && i != j ==> !text::begins_with(
            (#[trigger] entries[i]).tokens,
            (#[trigger] entries[j]).tokens,
        )
}

/// What is left when entries leave, the one used longest ago first, until the sizes of the others
/// are within `budget` or only one is left.
pub open spec fn evicted<F, B>(
    entries: Seq<Remembered<F, B>>,
    sizes: Seq<usize>,
    budget: int,
) -> Seq<Remembered<F, B>>
    decreases entries.len(),
{
    if total(sizes) > budget && entries.len() > 1 && 0 <= oldest(entries) < entries.len() {
        let o = oldest(entries);
        evicted(entries.remove(o), sizes.remove(o), budget)
    } else {
        entries
    }
}

/// The memory when entry `i` has been used.
pub open spec fn touched<F, B>(m: Memory<F, B>, i: int) -> Memory<F, B> {
    let clock = (m.clock + 1) as u64;
    Memory {
        entries: m.entries.update(i, Remembered { used: clock, ..m.entries[i] }),
        clock,
        ..m
    }
}

/// Length of the longest common beginning.
fn common_len(a: &[u32], b: &[u32]) -> (r: usize)
    ensures
        r == common(a@, b@),
        r <= a@.len(),
        r <= b@.len(),
{
    let mut i: usize = 0;
    assert(a@.skip(0) =~= a@ && b@.skip(0) =~= b@);
    while i < a.len() && i < b.len() && a[i] == b[i]
        invariant
            i <= a.len(),
            i <= b.len(),
            common(a@, b@) == i + common(a@.skip(i as int), b@.skip(i as int)),
        decreases a.len() - i,
    {
        assert(a@.skip(i as int).drop_first() =~= a@.skip(i + 1));
        assert(b@.skip(i as int).drop_first() =~= b@.skip(i + 1));
        i += 1;
    }
    i
}

/// The common beginning is common, and no longer than either.
pub proof fn lemma_common(a: Seq<u32>, b: Seq<u32>)
    ensures
        common(a, b) <= a.len(),
        common(a, b) <= b.len(),
        a.take(common(a, b) as int) == b.take(common(a, b) as int),
    decreases a.len(),
{
    if a.len() > 0 && b.len() > 0 && a[0] == b[0] {
        let (p, q) = (a.drop_first(), b.drop_first());
        lemma_common(p, q);
        let n = common(a, b) as int;
        assert forall|i: int| 0 <= i < n implies a.take(n)[i] == b.take(n)[i] by {
            if i > 0 {
                assert(p.take(n - 1)[i - 1] == a[i]);
                assert(q.take(n - 1)[i - 1] == b[i]);
            }
        }
        assert(a.take(n) =~= b.take(n));
    } else {
        assert(a.take(0) =~= b.take(0));
    }
}

/// The oldest entry is one of the entries, and none was used before it.
pub proof fn lemma_oldest<F, B>(entries: Seq<Remembered<F, B>>)
    requires
        entries.len() > 0,
    ensures
        0 <= oldest(entries) < entries.len(),
        forall|i: int|
            0 <= i < entries.len() ==> entries[oldest(entries)].used <= (
            #[trigger] entries[i]).used,
    decreases entries.len(),
{
    if entries.len() > 1 {
        let p = entries.drop_last();
        lemma_oldest(p);
        assert forall|i: int| 0 <= i < entries.len() implies entries[oldest(entries)].used <= (
        #[trigger] entries[i]).used by {
            if i < p.len() {
                assert(p[i] == entries[i]);
            }
            assert(p[oldest(p)] == entries[oldest(p)]);
        }
    }
}

/// Whether `s` begins with `prefix`.
fn begins(s: &[u32], prefix: &[u32]) -> (r: bool)
    ensures
        r == text::begins_with(s@, prefix@),
{
    if prefix.len() > s.len() {
        return false;
    }
    for i in 0..prefix.len()
        invariant
            prefix@.len() <= s@.len(),
            forall|j: int| 0 <= j < i ==> s@[j] == prefix@[j],
    {
        if s[i] != prefix[i] {
            assert(s@.take(prefix@.len() as int)[i as int] != prefix@[i as int]);
            return false;
        }
    }
    assert(s@.take(prefix@.len() as int) =~= prefix@);
    true
}

impl<F, B> PrefixCache<F, B> {
    /// What the memory holds.
    pub open spec fn view(&self) -> Memory<F, B> {
        Memory {
            entries: self.entries@.map_values(|e: Entry<F, B>| e@),
            clock: self.clock,
            budget: self.budget,
        }
    }

    /// An empty memory of `asked` megabytes, or of `default_mb` where nothing was asked for.
    pub fn new(default_mb: usize, asked: Option<usize>) -> (r: PrefixCache<F, B>)
        ensures
            r@ == (Memory::<F, B> {
                entries: seq![],
                clock: 0,
                budget: (match asked {
                    Some(n) => n,
                    None => default_mb,
                }) << 20usize,
            }),
            r@.wf(),
            ({
                let mb = match asked {
                    Some(n) => n,
                    None => default_mb,
                };
                mb <= usize::MAX / 1048576 ==> r@.budget == mb * 1048576
            }),
    {
        let mb: usize = match asked {
            Some(n) => n,
            None => default_mb,
        };
        let r = PrefixCache { entries: Vec::new(), clock: 0, budget: mb << 20usize };
        assert(r@.entries =~= seq![]);
        proof {
            assert(mb <= 0xfff ==> mb << 20usize == mb * 1048576) by (bit_vector);
            if usize::BITS == 64 {
                assert(mb <= 0xfff_ffff_ffff ==> mb << 20usize == mb * 1048576) by (bit_vector)
                    requires
                        usize::BITS == 64,
                ;
            }
        }
        r
    }

    /// The entry that serves most of `prompt`, and how many tokens it serves. Serving counts as
    /// use.
    pub fn lookup(&mut self, prompt: &[u32]) -> (r: Option<(usize, usize)>)
        requires
            prompt@.len() > 0,
            old(self).clock < u64::MAX,
        ensures
            match r {
                Some((n, i)) => {
                    let clock = (old(self)@.clock + 1) as u64;
                    let e = old(self)@.entries[i as int];
                    &&& serves(old(self)@.entries, prompt@, n as int, i as int)
                    &&& n < prompt@.len()
                    &&& e.kv.can_cut(n as int)
                    &&& e.tokens.take(n as int) == prompt@.take(n as int)
                    &&& final(self)@ == (Memory {
                        entries: old(self)@.entries.update(
                            i as int,
                            Remembered { used: clock, ..e },
                        ),
                        clock,
                        ..old(self)@
                    })
                    &&& final(self)@ == touched(old(self)@, i as int)
                },
                None => {
                    &&& unserved(old(self)@.entries, prompt@)
                    &&& final(self)@ == old(self)@
                },
            },
            old(self)@.wf() ==> final(self)@.wf(),
    {
        let ghost all = self@.entries;
        let mut best: Option<(usize, usize)> = None;
        for i in 0..self.entries.len()
            invariant
                all == self@.entries,
                prompt@.len() > 0,
                match best {
                    Some((n, b)) => {
                        &&& b < i
                        &&& n == usable(all[b as int], prompt@)
                        &&& n >= MIN_PREFIX
                        &&& forall|j: int| 0 <= j < i ==> usable(#[trigger] all[j], prompt@) <= n
                        &&& forall|j: int| 0 <= j < b ==> usable(#[trigger] all[j], prompt@) < n
                    },
                    None => forall|j: int|
                        0 <= j < i ==> usable(#[trigger] all[j], prompt@) < MIN_PREFIX,
                },
        {
            let e = &self.entries[i];
            assert(all[i as int] == e@);
            let c: usize = common_len(e.tokens.as_slice(), prompt);
            let mut n: usize = if c < prompt.len() {
                c
            } else {
                prompt.len() - 1
            };
            if !e.kv.can_truncate(n) {
                n = 0;
            }
            let better: bool = match best {
                Some((len, _)) => n > len,
                None => true,
            };
            if n >= MIN_PREFIX && better {
                best = Some((n, i));
            }
        }
        match best {
            Some((n, i)) => {
                self.clock = self.clock + 1;
                let clock: u64 = self.clock;
                self.entries[i].used = clock;
                proof {
                    let e = all[i as int];
                    assert(self@.entries =~= all.update(i as int, Remembered { used: clock, ..e }));
                    lemma_common(e.tokens, prompt@);
                    let c = common(e.tokens, prompt@) as int;
                    assert(e.tokens.take(n as int) =~= e.tokens.take(c).take(n as int));
                    assert(prompt@.take(n as int) =~= prompt@.take(c).take(n as int));
                }
                Some((n, i))
            },
            None => None,
        }
    }

    /// Whether some entry begins with `tokens`.
    pub fn covers(&self, tokens: &[u32]) -> (r: bool)
        ensures
            r == covered(self@.entries, tokens@),
    {
        for i in 0..self.entries.len()
            invariant
                forall|j: int|
                    0 <= j < i ==> !text::begins_with(
                        (#[trigger] self@.entries[j]).tokens,
                        tokens@,
                    ),
        {
            assert(self@.entries[i as int] == self.entries@[i as int]@);
            if begins(self.entries[i].tokens.as_slice(), tokens) {
                return true;
            }
        }
        false
    }

    /// Adds `tokens`, which no entry covers, with the state of at least those tokens, and drops the
    /// entries that they make superfluous.
    fn enter(&mut self, tokens: &[u32], state: Kv<F, B>)
        requires
            state@.can_cut(tokens@.len() as int),
            old(self).clock < u64::MAX,
        ensures
            final(self)@ == admitted(old(self)@, tokens@, state@),
    {
        let ghost all = self@.entries;
        let ghost mut done: int = 0;
        let mut i: usize = 0;
        assert(all.skip(0) =~= all);
        assert(kept(all.take(0), tokens@) =~= seq![]);
        while i < self.entries.len()
            invariant
                0 <= done <= all.len(),
                self.clock == old(self).clock,
                self.budget == old(self).budget,
                i == kept(all.take(done), tokens@).len(),
                self@.entries == kept(all.take(done), tokens@) + all.skip(done),
            decreases self.entries.len() - i,
        {
            let ghost before = self@.entries;
            assert(before.len() == self.entries@.len());
            assert(before[i as int] == all[done]);
            assert(all.take(done + 1).drop_last() =~= all.take(done));
            if begins(tokens, self.entries[i].tokens.as_slice()) {
                let _ = self.entries.remove(i);
                assert(self@.entries =~= before.remove(i as int));
                assert(self@.entries =~= kept(all.take(done + 1), tokens@) + all.skip(done + 1));
            } else {
                i += 1;
                assert(self@.entries =~= kept(all.take(done + 1), tokens@) + all.skip(done + 1));
            }
            proof {
                done = done + 1;
            }
        }
        proof {
            assert(self@.entries.len() == self.entries@.len());
            assert(done == all.len());
            assert(all.take(done) =~= all);
            assert(self@.entries =~= kept(all, tokens@));
        }
        let mut state = state;
        let n: usize = tokens.len();
        state.truncate(n);
        self.clock = self.clock + 1;
        let ghost front = self@.entries;
        let e = Entry { tokens: slice_to_vec(tokens), kv: state, used: self.clock };
        self.entries.push(e);
        assert(self@.entries =~= front.push(e@));
    }

    /// The place of the entry that was used longest ago.
    fn find_oldest(&self) -> (r: usize)
        requires
            self@.entries.len() > 0,
        ensures
            r == oldest(self@.entries),
            r < self@.entries.len(),
    {
        let ghost all = self@.entries;
        let mut o: usize = 0;
        let mut i: usize = 1;
        while i < self.entries.len()
            invariant
                all == self@.entries,
                all.len() == self.entries@.len(),
                1 <= i <= all.len(),
                o == oldest(all.take(i as int)),
                o < i,
            decreases all.len() - i,
        {
            assert(all.take(i + 1).drop_last() =~= all.take(i as int));
            assert(all[i as int] == self.entries@[i as int]@);
            assert(all[o as int] == self.entries@[o as int]@);
            if self.entries[i].used < self.entries[o].used {
                o = i;
            }
            i += 1;
        }
        assert(all.take(i as int) =~= all);
        o
    }

    /// Drops the entries that were used longest ago until the sizes of the others are within the
    /// budget or only one is left.
    pub fn evict(&mut self, sizes: Vec<usize>)
        requires
            sizes@.len() == old(self)@.entries.len(),
        ensures
            final(self)@ == (Memory {
                entries: evicted(old(self)@.entries, sizes@, old(self)@.budget as int),
                ..old(self)@
            }),
    {
        let mut sizes = sizes;
        let ghost (all, given) = (self@.entries, sizes@);
        loop
            invariant
                sizes@.len() == self@.entries.len(),
                self.clock == old(self).clock,
                self.budget == old(self).budget,
                evicted(self@.entries, sizes@, self.budget as int) == evicted(
                    all,
                    given,
                    self.budget as int,
                ),
            ensures
                self.clock == old(self).clock,
                self.budget == old(self).budget,
                self@.entries == evicted(all, given, self.budget as int),
            decreases self@.entries.len(),
        {
            let sum: u128 = sum_sizes(sizes.as_slice());
            if !(sum > self.budget as u128 && self.entries.len() > 1) {
                break;
            }
            let o: usize = self.find_oldest();
            let ghost (before, sized) = (self@.entries, sizes@);
            let _ = self.entries.remove(o);
            let _ = sizes.remove(o);
            assert(self@.entries =~= before.remove(o as int));
        }
    }

    /// Remembers `tokens` with the state of at least those tokens, unless an entry covers them
    /// already. Old entries leave for it, the one used longest ago first, until the bytes that the
    /// others take are within the budget or only the new one is left.
    pub fn insert(&mut self, tokens: &[u32], state: Kv<F, B>)
        requires
            state@.can_cut(tokens@.len() as int),
            old(self).clock < u64::MAX,
        ensures
            covered(old(self)@.entries, tokens@) ==> final(self)@ == old(self)@,
            !covered(old(self)@.entries, tokens@) ==> {
                let m = admitted(old(self)@, tokens@, state@);
                exists|sizes: Seq<usize>| #[trigger]
                    sized(m.entries, sizes) && final(self)@ == (Memory {
                        entries: evicted(m.entries, sizes, m.budget as int),
                        ..m
                    })
            },
            !covered(old(self)@.entries, tokens@) ==> within_budget(final(self)@),
            apart(old(self)@.entries) ==> apart(final(self)@.entries),
            old(self)@.wf() && tokens@.len() <= state@.len() ==> final(self)@.wf(),
            old(self)@.wf() ==> covered(final(self)@.entries, tokens@),
    {
        if self.covers(tokens) {
            return;
        }
        self.enter(tokens, state);
        let mut sizes: Vec<usize> = Vec::new();
        let ghost m = self@;
        for i in 0..self.entries.len()
            invariant
                sizes@.len() == i,
                self@ == m,
                forall|j: int|
                    0 <= j < i ==> (#[trigger] m.entries[j]).kv.occupies(sizes@[j]),
        {
            assert(m.entries[i as int] == self.entries@[i as int]@);
            sizes.push(self.entries[i].kv.bytes());
        }
        assert(sized(m.entries, sizes@));
        let ghost s = sizes@;
        self.evict(sizes);
        proof {
            assert(self@ == (Memory { entries: evicted(m.entries, s, m.budget as int), ..m }));
            eviction_meets_budget(m.entries, s, m.budget as int);
            assert(within_budget(self@));
            if apart(old(self)@.entries) {
                admission_keeps_apart(old(self)@, tokens@, state@);
                eviction_keeps_apart(m.entries, s, m.budget as int);
            }
            if old(self)@.wf() {
                assert(tokens@.len() == tokens.len());
                admission_keeps_wf(old(self)@, tokens@, state@);
                eviction_keeps_newest(m, s);
                let newest = self@.entries[self@.entries.len() - 1];
                assert(newest.tokens.take(tokens@.len() as int) =~= tokens@);
            }
        }
    }
}

/// The sum of `sizes`.
fn sum_sizes(sizes: &[usize]) -> (r: u128)
    ensures
        r == total(sizes@),
{
    let mut sum: u128 = 0;
    for i in 0..sizes.len()
        invariant
            sum == total(sizes@.take(i as int)),
            sum <= i * (u64::MAX as int),
    {
        assert(sizes@.take(i + 1).drop_last() =~= sizes@.take(i as int));
        assert(i * (u64::MAX as int) + u64::MAX == (i + 1) * (u64::MAX as int)) by (nonlinear_arith);
        assert((i + 1) * (u64::MAX as int) <= (u64::MAX as int) * (u64::MAX as int))
            by (nonlinear_arith)
            requires
                i + 1 <= u64::MAX,
        ;
        sum = sum + sizes[i] as u128;
    }
    assert(sizes@.take(sizes@.len() as int) =~= sizes@);
    sum
}

/// The sizes of the entries that [`evicted`] leaves.
pub open spec fn evicted_sizes<F, B>(
    entries: Seq<Remembered<F, B>>,
    sizes: Seq<usize>,
    budget: int,
) -> Seq<usize>
    decreases entries.len(),
{
    if total(sizes) > budget && entries.len() > 1 && 0 <= oldest(entries) < entries.len() {
        let o = oldest(entries);
        evicted_sizes(entries.remove(o), sizes.remove(o), budget)
    } else {
        sizes
    }
}

// ---------------------------------------------------------------------------------------
// Laws
// ---------------------------------------------------------------------------------------

/// The entries that stay are within the budget, unless only one stays.
pub proof fn eviction_meets_budget<F, B>(
    entries: Seq<Remembered<F, B>>,
    sizes: Seq<usize>,
    budget: int,
)
    requires
        sizes.len() == entries.len(),
    ensures
        evicted_sizes(entries, sizes, budget).len() == evicted(entries, sizes, budget).len(),
        total(evicted_sizes(entries, sizes, budget)) <= budget || evicted(
            entries,
            sizes,
            budget,
        ).len() <= 1,
        sized(entries, sizes) ==> sized(
            evicted(entries, sizes, budget),
            evicted_sizes(entries, sizes, budget),
        ),
    decreases entries.len(),
{
    if total(sizes) > budget && entries.len() > 1 {
        lemma_oldest(entries);
        let o = oldest(entries);
        if sized(entries, sizes) {
            let (e, s) = (entries.remove(o), sizes.remove(o));
            assert forall|i: int| 0 <= i < e.len() implies (#[trigger] e[i]).kv.occupies(s[i]) by {
                let k = if i < o {
                    i
                } else {
                    i + 1
                };
                assert(e[i] == entries[k] && s[i] == sizes[k]);
            }
        }
        eviction_meets_budget(entries.remove(o), sizes.remove(o), budget);
    }
}

/// The latest entry is never dropped, and dropping keeps the order of the others.
pub proof fn eviction_keeps_newest<F, B>(m: Memory<F, B>, sizes: Seq<usize>)
    requires
        m.timed(),
        m.entries.len() > 0,
        sizes.len() == m.entries.len(),
        m.entries.last().used == m.clock,
    ensures
        ({
            let left = evicted(m.entries, sizes, m.budget as int);
            &&& left.len() > 0
            &&& left.last() == m.entries.last()
            &&& (Memory { entries: left, ..m }).timed()
            &&& m.wf() ==> (Memory { entries: left, ..m }).wf()
        }),
    decreases m.entries.len(),
{
    if total(sizes) > m.budget && m.entries.len() > 1 {
        lemma_oldest(m.entries);
        let o = oldest(m.entries);
        let n = m.entries.len();
        assert(m.entries[0].used != m.entries[n - 1].used);
        assert(m.entries[o].used <= m.entries[0].used);
        assert(o != n - 1);
        let rest = Memory { entries: m.entries.remove(o), ..m };
        assert forall|i: int| 0 <= i < rest.entries.len() implies {
            &&& m.wf() ==> (#[trigger] rest.entries[i]).kv.len() == rest.entries[i].tokens.len()
            &&& rest.entries[i].used <= rest.clock
        } by {
            assert(rest.entries[i] == m.entries[if i < o {
                i
            } else {
                i + 1
            }]);
        }
        assert forall|i: int, j: int| 0 <= i < j < rest.entries.len() implies (
        #[trigger] rest.entries[i]).used != (#[trigger] rest.entries[j]).used by {
            let a = if i < o {
                i
            } else {
                i + 1
            };
            let b = if j < o {
                j
            } else {
                j + 1
            };
            assert(rest.entries[i] == m.entries[a] && rest.entries[j] == m.entries[b]);
        }
        eviction_keeps_newest(rest, sizes.remove(o));
    }
}

/// What stays when superfluous entries are dropped was there before, in the same order.
proof fn lemma_kept<F, B>(entries: Seq<Remembered<F, B>>, tokens: Seq<u32>)
    ensures
        kept(entries, tokens).len() <= entries.len(),
        forall|i: int|
            0 <= i < kept(entries, tokens).len() ==> exists|j: int|
                i <= j < entries.len() && #[trigger] kept(entries, tokens)[i] == entries[j],
        forall|i: int|
            0 <= i < kept(entries, tokens).len() ==> !text::begins_with(
                tokens,
                (#[trigger] kept(entries, tokens)[i]).tokens,
            ),
        forall|i: int, j: int|
            #![trigger kept(entries, tokens)[i], kept(entries, tokens)[j]]
            0 <= i < j < kept(entries, tokens).len() ==> exists|a: int, b: int|
                #![trigger entries[a], entries[b]]
                0 <= a < b < entries.len() && kept(entries, tokens)[i] == entries[a] && kept(
                    entries,
                    tokens,
                )[j] == entries[b],
    decreases entries.len(),
{
    if entries.len() > 0 {
        let p = entries.drop_last();
        lemma_kept(p, tokens);
        let k = kept(entries, tokens);
        let q = kept(p, tokens);
        let last = entries.len() - 1;
        assert forall|i: int| 0 <= i < k.len() implies exists|j: int|
            i <= j < entries.len() && #[trigger] k[i] == entries[j] by {
            if i < q.len() {
                let j = choose|j: int| i <= j < p.len() && #[trigger] q[i] == p[j];
                assert(k[i] == entries[j]);
            } else {
                assert(k[i] == entries[last]);
            }
        }
        assert forall|i: int| 0 <= i < k.len() implies !text::begins_with(
            tokens,
            (#[trigger] k[i]).tokens,
        ) by {
            if i < q.len() {
                assert(k[i] == q[i]);
            }
        }
        assert forall|i: int, j: int| #![trigger k[i], k[j]] 0 <= i < j < k.len() implies exists|
            a: int,
            b: int,
        |
            #![trigger entries[a], entries[b]]
            0 <= a < b < entries.len() && k[i] == entries[a] && k[j] == entries[b] by {
            if j < q.len() {
                assert(q[i] == k[i] && q[j] == k[j]);
                let (a, b) = choose|a: int, b: int|
                    #![trigger p[a], p[b]]
                    0 <= a < b < p.len() && q[i] == p[a] && q[j] == p[b];
                assert(k[i] == entries[a] && k[j] == entries[b]);
            } else {
                let a = choose|a: int| i <= a < p.len() && #[trigger] q[i] == p[a];
                assert(k[i] == entries[a] && k[j] == entries[last]);
            }
        }
    }
}

/// Adding a prompt that no entry covers leaves no entry that begins with the tokens of another.
pub proof fn admission_keeps_apart<F, B>(
    m: Memory<F, B>,
    tokens: Seq<u32>,
    state: kv::KvRows<F, B>,
)
    requires
        apart(m.entries),
        !covered(m.entries, tokens),
    ensures
        apart(admitted(m, tokens, state).entries),
{
    lemma_kept(m.entries, tokens);
    let a = admitted(m, tokens, state).entries;
    let k = kept(m.entries, tokens);
    assert forall|i: int, j: int|
        0 <= i < a.len() && 0 <= j < a.len() && i != j implies !text::begins_with(
        (#[trigger] a[i]).tokens,
        (#[trigger] a[j]).tokens,
    ) by {
        if i < k.len() && j < k.len() {
            let (x, y) = if i < j {
                (i, j)
            } else {
                (j, i)
            };
            assert(a[x] == k[x] && a[y] == k[y]);
            let (p, q) = choose|p: int, q: int|
                #![trigger m.entries[p], m.entries[q]]
                0 <= p < q < m.entries.len() && k[x] == m.entries[p] && k[y] == m.entries[q];
            assert(k[x] == m.entries[p] && k[y] == m.entries[q]);
        } else if i < k.len() {
            assert(a[i] == k[i]);
            let p = choose|p: int| i <= p < m.entries.len() && #[trigger] k[i] == m.entries[p];
            assert(a[i] == m.entries[p]);
        } else {
            assert(a[j] == k[j]);
        }
    }
}

/// Dropping entries leaves none that begins with the tokens of another.
pub proof fn eviction_keeps_apart<F, B>(
    entries: Seq<Remembered<F, B>>,
    sizes: Seq<usize>,
    budget: int,
)
    requires
        apart(entries),
        sizes.len() == entries.len(),
    ensures
        apart(evicted(entries, sizes, budget)),
    decreases entries.len(),
{
    if total(sizes) > budget && entries.len() > 1 {
        lemma_oldest(entries);
        let o = oldest(entries);
        let rest = entries.remove(o);
        assert forall|i: int, j: int|
            0 <= i < rest.len() && 0 <= j < rest.len() && i != j implies !text::begins_with(
            (#[trigger] rest[i]).tokens,
            (#[trigger] rest[j]).tokens,
        ) by {
            let a = if i < o {
                i
            } else {
                i + 1
            };
            let b = if j < o {
                j
            } else {
                j + 1
            };
            assert(rest[i] == entries[a] && rest[j] == entries[b]);
        }
        eviction_keeps_apart(rest, sizes.remove(o), budget);
    }
}

/// What is dropped was used no later than anything that stays, and what stays was there.
pub proof fn eviction_spares_the_recent<F, B>(
    entries: Seq<Remembered<F, B>>,
    sizes: Seq<usize>,
    budget: int,
)
    requires
        sizes.len() == entries.len(),
    ensures
        ({
            let left = evicted(entries, sizes, budget);
            &&& forall|j: int| 0 <= j < left.len() ==> entries.contains(#[trigger] left[j])
            &&& forall|i: int, j: int|
                0 <= i < entries.len() && 0 <= j < left.len() && !left.contains(
                    #[trigger] entries[i],
                ) ==> entries[i].used <= (#[trigger] left[j]).used
        }),
    decreases entries.len(),
{
    let left = evicted(entries, sizes, budget);
    if total(sizes) > budget && entries.len() > 1 {
        lemma_oldest(entries);
        let o = oldest(entries);
        let rest = entries.remove(o);
        eviction_spares_the_recent(rest, sizes.remove(o), budget);
        assert forall|j: int| 0 <= j < left.len() implies entries.contains(#[trigger] left[j]) by {
            let x = choose|x: int| 0 <= x < rest.len() && rest[x] == left[j];
            assert(left[j] == entries[if x < o {
                x
            } else {
                x + 1
            }]);
        }
        assert forall|i: int, j: int|
            0 <= i < entries.len() && 0 <= j < left.len() && !left.contains(
                #[trigger] entries[i],
            ) implies entries[i].used <= (#[trigger] left[j]).used by {
            if i == o {
                let x = choose|x: int| 0 <= x < entries.len() && entries[x] == left[j];
                assert(entries[o].used <= entries[x].used);
            } else {
                assert(entries[i] == rest[if i < o {
                    i
                } else {
                    i - 1
                }]);
            }
        }
    } else {
        assert forall|j: int| 0 <= j < left.len() implies entries.contains(#[trigger] left[j]) by {
            assert(entries[j] == left[j]);
        }
        assert forall|i: int, j: int|
            0 <= i < entries.len() && 0 <= j < left.len() && !left.contains(
                #[trigger] entries[i],
            ) implies entries[i].used <= (#[trigger] left[j]).used by {
            assert(left[i] == entries[i]);
        }
    }
}

/// Adding a prompt keeps the times of use apart; with a state of at least its tokens, every entry's
/// state stays that of exactly its tokens.
pub proof fn admission_keeps_wf<F, B>(
    m: Memory<F, B>,
    tokens: Seq<u32>,
    state: kv::KvRows<F, B>,
)
    requires
        m.timed(),
        m.clock < u64::MAX,
    ensures
        admitted(m, tokens, state).timed(),
        m.wf() && tokens.len() <= state.len() ==> admitted(m, tokens, state).wf(),
{
    lemma_kept(m.entries, tokens);
    let a = admitted(m, tokens, state);
    let k = kept(m.entries, tokens);
    assert forall|i: int| 0 <= i < a.entries.len() implies {
        &&& m.wf() && tokens.len() <= state.len() ==> (#[trigger] a.entries[i]).kv.len()
            == a.entries[i].tokens.len()
        &&& a.entries[i].used <= a.clock
    } by {
        if i < k.len() {
            assert(a.entries[i] == k[i]);
            let j = choose|j: int| i <= j < m.entries.len() && #[trigger] k[i] == m.entries[j];
            assert(m.entries[j].used <= m.clock);
        }
    }
    assert forall|i: int, j: int| 0 <= i < j < a.entries.len() implies (
    #[trigger] a.entries[i]).used != (#[trigger] a.entries[j]).used by {
        assert(a.entries[i] == k[i]);
        if j < k.len() {
            assert(a.entries[j] == k[j]);
            let (x, y) = choose|x: int, y: int|
                #![trigger m.entries[x], m.entries[y]]
                0 <= x < y < m.entries.len() && k[i] == m.entries[x] && k[j] == m.entries[y];
            assert(m.entries[x].used != m.entries[y].used);
        } else {
            let x = choose|x: int| i <= x < m.entries.len() && #[trigger] k[i] == m.entries[x];
            assert(m.entries[x].used <= m.clock);
        }
    }
}

/// A prompt that was just remembered is found again: whatever was dropped for it, the memory covers
/// it, and a longer prompt that begins with it is served at least all of its tokens.
pub proof fn remembered_is_served<F, B>(
    m: Memory<F, B>,
    tokens: Seq<u32>,
    state: kv::KvRows<F, B>,
    sizes: Seq<usize>,
    prompt: Seq<u32>,
)
    requires
        m.wf(),
        m.clock < u64::MAX,
        MIN_PREFIX <= tokens.len() <= state.len(),
        state.can_cut(tokens.len() as int),
        sizes.len() == admitted(m, tokens, state).entries.len(),
        text::begins_with(prompt, tokens),
        prompt.len() > tokens.len(),
    ensures
        ({
            let a = admitted(m, tokens, state);
            let left = evicted(a.entries, sizes, a.budget as int);
            &&& covered(left, tokens)
            &&& usable(left.last(), prompt) == tokens.len()
            &&& !unserved(left, prompt)
        }),
{
    beginning_is_common(prompt, tokens);
    let a = admitted(m, tokens, state);
    admission_keeps_wf(m, tokens, state);
    eviction_keeps_newest(a, sizes);
    let left = evicted(a.entries, sizes, a.budget as int);
    let last = left[left.len() - 1];
    assert(last == a.entries.last());
    assert(last.tokens.take(tokens.len() as int) =~= tokens);
    assert(last.kv.can_cut(tokens.len() as int));
    assert(usable(last, prompt) == tokens.len());
}

/// A prompt shares all of its beginning with that beginning.
pub proof fn beginning_is_common(prompt: Seq<u32>, tokens: Seq<u32>)
    requires
        text::begins_with(prompt, tokens),
    ensures
        common(tokens, prompt) == tokens.len(),
    decreases tokens.len(),
{
    if tokens.len() > 0 {
        assert(prompt.take(tokens.len() as int)[0] == prompt[0]);
        let (t, p) = (tokens.drop_first(), prompt.drop_first());
        assert(p.take(t.len() as int) =~= t) by {
            assert forall|i: int| 0 <= i < t.len() implies p.take(t.len() as int)[i] == t[i] by {
                assert(prompt.take(tokens.len() as int)[i + 1] == tokens[i + 1]);
            }
        }
        beginning_is_common(p, t);
    }
}

/// No longer beginning is common.
pub proof fn common_is_longest(a: Seq<u32>, b: Seq<u32>, n: int)
    requires
        0 <= n <= a.len(),
        n <= b.len(),
        a.take(n) == b.take(n),
    ensures
        n <= common(a, b),
    decreases n,
{
    if n > 0 {
        assert(a.take(n)[0] == a[0] && b.take(n)[0] == b[0]);
        let (p, q) = (a.drop_first(), b.drop_first());
        assert(p.take(n - 1) =~= q.take(n - 1)) by {
            assert forall|i: int| 0 <= i < n - 1 implies #[trigger] p.take(n - 1)[i] == q.take(
                n - 1,
            )[i] by {
                assert(a.take(n)[i + 1] == a[i + 1] && b.take(n)[i + 1] == b[i + 1]);
                assert(p.take(n - 1)[i] == a[i + 1] && q.take(n - 1)[i] == b[i + 1]);
            }
        }
        common_is_longest(p, q, n - 1);
    }
}

/// What is taken over is a beginning of the prompt that the entry's tokens share, shorter than the
/// prompt, so that its last token is still computed; and it is as long as that allows wherever the
/// state can be cut there.
pub proof fn what_serves_is_shared<F, B>(e: Remembered<F, B>, prompt: Seq<u32>, n: int)
    requires
        prompt.len() > 0,
        0 <= n <= e.tokens.len(),
        n < prompt.len(),
        e.tokens.take(n) == prompt.take(n),
    ensures
        usable(e, prompt) < prompt.len(),
        usable(e, prompt) <= e.tokens.len(),
        e.tokens.take(usable(e, prompt) as int) == prompt.take(usable(e, prompt) as int),
        usable(e, prompt) > 0 ==> e.kv.can_cut(usable(e, prompt) as int),
        (forall|k: int| #[trigger] e.kv.can_cut(k)) ==> n <= usable(e, prompt),
{
    let c = common(e.tokens, prompt) as int;
    let u = usable(e, prompt) as int;
    lemma_common(e.tokens, prompt);
    common_is_longest(e.tokens, prompt, n);
    assert(e.tokens.take(u) =~= e.tokens.take(c).take(u));
    assert(prompt.take(u) =~= prompt.take(c).take(u));
    if forall|k: int| #[trigger] e.kv.can_cut(k) {
        let m = if c < prompt.len() {
            c
        } else {
            prompt.len() - 1
        };
        assert(e.kv.can_cut(m));
    }
}

/// A state that cannot be rolled back serves only prompts that begin with all of its tokens and go on.
pub proof fn recurrent_states_serve_whole<F, B>(e: Remembered<F, B>, prompt: Seq<u32>)
    requires
        prompt.len() > 0,
        e.kv.len() == e.tokens.len(),
        forall|k: int| #[trigger] e.kv.can_cut(k) ==> k == e.kv.len(),
    ensures
        usable(e, prompt) == 0 || (usable(e, prompt) == e.tokens.len() && text::begins_with(
            prompt,
            e.tokens,
        )),
{
    let c = common(e.tokens, prompt) as int;
    lemma_common(e.tokens, prompt);
    if usable(e, prompt) > 0 {
        let u = usable(e, prompt) as int;
        assert(e.kv.can_cut(u));
        assert(u <= c);
        assert(e.tokens.take(c) =~= e.tokens);
    }
}

/// Fewer than four tokens are not worth taking over; four are.
pub proof fn short_beginnings_are_left<F, B>(
    entries: Seq<Remembered<F, B>>,
    prompt: Seq<u32>,
    n: int,
    i: int,
)
    ensures
        serves(entries, prompt, n, i) ==> n >= 4,
        unserved(entries, prompt) && 0 <= i < entries.len() ==> usable(entries[i], prompt) < 4,
        serves(entries, prompt, n, i) ==> !unserved(entries, prompt),
{
}

/// Nothing leaves that need not: entries that are within the budget all stay, and one that leaves
/// does so while those that were left with it were above the budget.
pub proof fn nothing_leaves_within_budget<F, B>(
    entries: Seq<Remembered<F, B>>,
    sizes: Seq<usize>,
    budget: int,
)
    requires
        sizes.len() == entries.len(),
    ensures
        total(sizes) <= budget ==> evicted(entries, sizes, budget) == entries,
        total(sizes) > budget && entries.len() > 1 ==> evicted(entries, sizes, budget) == evicted(
            entries.remove(oldest(entries)),
            sizes.remove(oldest(entries)),
            budget,
        ),
        entries.len() > 0 ==> evicted(entries, sizes, budget).len() > 0,
    decreases entries.len(),
{
    if entries.len() > 0 {
        lemma_oldest(entries);
        if total(sizes) > budget && entries.len() > 1 {
            let o = oldest(entries);
            nothing_leaves_within_budget(entries.remove(o), sizes.remove(o), budget);
        }
    }
}

/// A prompt that is remembered makes those superfluous that it begins with, and no others.
pub proof fn beginnings_are_replaced<F, B>(
    m: Memory<F, B>,
    tokens: Seq<u32>,
    state: kv::KvRows<F, B>,
    i: int,
)
    requires
        0 <= i < m.entries.len(),
    ensures
        admitted(m, tokens, state).entries.last().tokens == tokens,
        admitted(m, tokens, state).entries.last().kv == state.cut_to(tokens.len()),
        !text::begins_with(tokens, m.entries[i].tokens) ==> admitted(
            m,
            tokens,
            state,
        ).entries.contains(m.entries[i]),
        text::begins_with(tokens, m.entries[i].tokens) ==> !kept(m.entries, tokens).contains(
            m.entries[i],
        ),
{
    lemma_kept_exactly(m.entries, tokens, m.entries[i]);
    let k = kept(m.entries, tokens);
    let all = admitted(m, tokens, state).entries;
    if !text::begins_with(tokens, m.entries[i].tokens) {
        assert(m.entries.contains(m.entries[i]));
        let x = choose|x: int| 0 <= x < k.len() && k[x] == m.entries[i];
        assert(all[x] == k[x]);
    }
}

/// Who stays was there and is no beginning.
proof fn lemma_kept_exactly<F, B>(
    entries: Seq<Remembered<F, B>>,
    tokens: Seq<u32>,
    e: Remembered<F, B>,
)
    ensures
        kept(entries, tokens).contains(e) <==> entries.contains(e) && !text::begins_with(
            tokens,
            e.tokens,
        ),
    decreases entries.len(),
{
    let k = kept(entries, tokens);
    if entries.len() > 0 {
        let p = entries.drop_last();
        let front = kept(p, tokens);
        lemma_kept_exactly(p, tokens, e);
        let n = entries.len() - 1;
        if k.contains(e) {
            let x = choose|x: int| 0 <= x < k.len() && k[x] == e;
            if x < front.len() {
                assert(front[x] == e);
                let y = choose|y: int| 0 <= y < p.len() && p[y] == e;
                assert(entries[y] == e);
            } else {
                assert(entries[n] == e);
            }
        }
        if entries.contains(e) && !text::begins_with(tokens, e.tokens) {
            let y = choose|y: int| 0 <= y < entries.len() && entries[y] == e;
            if y < n {
                assert(p[y] == e);
                let x = choose|x: int| 0 <= x < front.len() && front[x] == e;
                assert(k[x] == e);
            } else {
                assert(k[front.len() as int] == e);
            }
        }
    }
}

/// An entry that has served was used later than every other, so that it is not the next to leave; what
/// it holds, and what the others hold, is as it was.
pub proof fn served_entries_leave_last<F, B>(m: Memory<F, B>, i: int, j: int)
    requires
        m.timed(),
        m.clock < u64::MAX,
        0 <= i < m.entries.len(),
        0 <= j < m.entries.len(),
    ensures
        ({
            let t = touched(m, i);
            &&& t.entries.len() == m.entries.len()
            &&& t.entries[j].tokens == m.entries[j].tokens
            &&& t.entries[j].kv == m.entries[j].kv
            &&& j != i ==> t.entries[j].used < t.entries[i].used
            &&& m.entries.len() > 1 ==> oldest(t.entries) != i
            &&& t.timed()
            &&& t.budget == m.budget
        }),
{
    let t = touched(m, i);
    assert(m.entries[j].used <= m.clock);
    assert forall|k: int| 0 <= k < t.entries.len() implies (#[trigger] t.entries[k]).used
        <= t.clock by {
        assert(m.entries[k].used <= m.clock);
    }
    assert forall|a: int, b: int| 0 <= a < b < t.entries.len() implies (
    #[trigger] t.entries[a]).used != (#[trigger] t.entries[b]).used by {
        assert(m.entries[a].used != m.entries[b].used);
        assert(m.entries[a].used <= m.clock && m.entries[b].used <= m.clock);
    }
    if m.entries.len() > 1 {
        lemma_oldest(t.entries);
        let k = if i == 0 {
            1int
        } else {
            0int
        };
        assert(m.entries[k].used <= m.clock);
        assert(t.entries[oldest(t.entries)].used <= t.entries[k].used);
    }
}

/// The entry that serves is the best of all: no entry whose state can be cut there shares a longer
/// beginning with the prompt, and where none serves, none shares four tokens that could be used.
pub proof fn best_entry_serves<F, B>(
    entries: Seq<Remembered<F, B>>,
    prompt: Seq<u32>,
    n: int,
    i: int,
    j: int,
    k: int,
)
    requires
        prompt.len() > 0,
        0 <= j < entries.len(),
        0 <= k < prompt.len(),
        k <= entries[j].tokens.len(),
        entries[j].tokens.take(k) == prompt.take(k),
        forall|x: int| #[trigger] entries[j].kv.can_cut(x),
    ensures
        serves(entries, prompt, n, i) ==> k <= n,
        serves(entries, prompt, n, i) && usable(entries[j], prompt) == n ==> i <= j,
        unserved(entries, prompt) ==> k < 4,
{
    what_serves_is_shared(entries[j], prompt, k);
    if serves(entries, prompt, n, i) {
        assert(usable(entries[j], prompt) <= n);
    }
}

} // verus!
