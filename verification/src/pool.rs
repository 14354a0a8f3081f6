//! How a pool of workers shares out the chunks of a job.
//!
//! Chunks are taken from one shared counter, or, owner first, from a counter per worker: worker `w`
//! walks the chunks `w`, `w + W`, `w + 2W` and so on, and then helps the others, so that the same
//! rows go to the same worker as long as nobody falls behind. A step of a worker is one atomic
//! operation on one counter; steps of different workers may come in any order.

use vstd::arithmetic::div_mod::*;
use vstd::prelude::*;
use vstd::string::*;

use crate::text;

verus! {

/// A job that is being shared out.
pub struct Job {
    pub workers: usize,
    pub chunks: usize,
    /// Owner first; else from the shared counter.
    pub owned: bool,
    pub next: usize,
    pub next_owned: Vec<usize>,
}

/// A worker's own progress: how many counters it has found empty.
pub struct Worker {
    pub me: usize,
    pub drained: usize,
}

/// What a step of a worker gives.
#[derive(Debug, Clone, Copy, PartialEq, Eq, Structural)]
pub enum Step {
    /// A chunk to run.
    Chunk(usize),
    /// Nothing from this counter; there are others to try.
    Empty,
    /// Nothing from any counter.
    Done,
}

impl Job {
    /// The counters have not left their tracks.
    pub open spec fn wf(self) -> bool {
        &&& self.workers > 0
        &&& self.chunks + self.workers <= usize::MAX
        &&& self.next_owned@.len() == self.workers
        &&& forall|w: int|
            0 <= w < self.workers ==> (#[trigger] self.next_owned@[w]) % self.workers == w
    }

    /// Every counter stands at its start.
    pub open spec fn fresh(self) -> bool {
        &&& self.next == 0
        &&& forall|w: int| 0 <= w < self.workers ==> #[trigger] self.next_owned@[w] == w
    }

    /// Chunk `c` has been handed out.
    pub open spec fn handed(self, c: int) -> bool {
        &&& 0 <= c < self.chunks
        &&& if self.owned {
            c < self.next_owned@[c % (self.workers as int)]
        } else {
            c < self.next
        }
    }

    /// Every chunk has been handed out.
    pub open spec fn all_handed(self) -> bool {
        forall|c: int| 0 <= c < self.chunks ==> #[trigger] self.handed(c)
    }

    /// A worker has found empty what it says: the counters of its own and of the workers behind it,
    /// or the shared counter.
    pub open spec fn knows(self, w: Worker) -> bool {
        &&& w.me < self.workers
        &&& w.drained <= self.workers
        &&& self.owned ==> forall|k: int|
            0 <= k < w.drained ==> self.next_owned@[#[trigger] owner(w.me as int, k, self.workers as int)]
                >= self.chunks
        &&& !self.owned && w.drained == self.workers ==> self.next >= self.chunks
    }

    /// A job of which nothing has been handed out.
    pub fn new(workers: usize, chunks: usize, owned: bool) -> (r: Job)
        requires
            workers > 0,
            chunks + workers <= usize::MAX,
        ensures
            r.wf(),
            r.workers == workers,
            r.chunks == chunks,
            r.owned == owned,
            r.fresh(),
            forall|c: int| !#[trigger] r.handed(c),
    {
        let mut next_owned: Vec<usize> = Vec::new();
        for w in 0..workers
            invariant
                next_owned@.len() == w,
                forall|i: int| 0 <= i < w ==> #[trigger] next_owned@[i] == i,
        {
            next_owned.push(w);
        }
        let r = Job { workers, chunks, owned, next: 0, next_owned };
        proof {
            assert forall|w: int| 0 <= w < workers implies (#[trigger] r.next_owned@[w])
                % r.workers == w by {
                lemma_small_mod(w as nat, workers as nat);
            }
            assert forall|c: int| !#[trigger] r.handed(c) by {
                if 0 <= c < chunks {
                    lemma_mod_bound(c, workers as int);
                    let w = c % (workers as int);
                    assert(r.next_owned@[w] == w);
                    lemma_mod_decreases(c as nat, workers as nat);
                }
            }
        }
        r
    }
}

/// The worker whose counter `me` tries after `k` others.
pub open spec fn owner(me: int, k: int, workers: int) -> int {
    (me + k) % workers
}

impl Worker {
    /// A worker that has not tried any counter.
    pub fn new(me: usize) -> (r: Worker)
        ensures
            r.me == me,
            r.drained == 0,
    {
        Worker { me, drained: 0 }
    }
}

/// A number that is no larger than another and has the same remainder lies a multiple before it, and
/// no number between them with that remainder lies closer than the step.
proof fn lemma_between(a: int, b: int, m: int)
    requires
        m > 0,
        a % m == b % m,
        a < b,
    ensures
        a + m <= b,
{
    lemma_fundamental_div_mod(a, m);
    lemma_fundamental_div_mod(b, m);
    let (p, q) = (a / m, b / m);
    if p >= q {
        assert(m * p >= m * q) by (nonlinear_arith)
            requires
                p >= q,
                m > 0,
        ;
    } else {
        assert(m * q >= m * p + m) by (nonlinear_arith)
            requires
                q >= p + 1,
                m > 0,
        ;
    }
}

impl Job {
    /// One step of worker `w`: it takes the next chunk of the counter that it is at, or finds that
    /// counter empty. Owner first, a worker begins with its own counter and goes on to the others'
    /// in a circle.
    pub fn step(&mut self, w: &mut Worker) -> (r: Step)
        requires
            old(self).wf(),
            old(self).knows(*old(w)),
        ensures
            final(self).wf(),
            final(self).knows(*final(w)),
            final(w).me == old(w).me,
            final(self).workers == old(self).workers,
            final(self).chunks == old(self).chunks,
            final(self).owned == old(self).owned,
            old(self).owned ==> ({
                let o = owner(old(w).me as int, old(w).drained as int, old(self).workers as int);
                match r {
                    Step::Chunk(c) => {
                        &&& c == old(self).next_owned@[o]
                        &&& final(self).next_owned@ == old(self).next_owned@.update(
                            o,
                            (c + old(self).workers) as usize,
                        )
                        &&& c + old(self).workers <= usize::MAX
                    },
                    Step::Empty => {
                        &&& old(self).next_owned@[o] >= old(self).chunks
                        &&& final(self).next_owned@ == old(self).next_owned@
                    },
                    Step::Done => {
                        &&& final(self).next_owned@ == old(self).next_owned@
                        &&& final(w).drained == old(self).workers
                    },
                }
            }),
            !old(self).owned ==> (match r {
                Step::Chunk(c) => c == old(self).next && final(self).next == c + 1,
                Step::Empty => false,
                Step::Done => final(self).next == old(self).next,
            }),
            match r {
                Step::Chunk(c) => {
                    &&& c < old(self).chunks
                    &&& !old(self).handed(c as int)
                    &&& forall|x: int| #[trigger]
                        final(self).handed(x) <==> old(self).handed(x) || x == c
                    &&& final(w).drained == old(w).drained
                },
                Step::Empty => {
                    &&& forall|x: int| #[trigger] final(self).handed(x) <==> old(self).handed(x)
                    &&& final(w).drained == old(w).drained + 1
                    &&& final(w).drained < old(self).workers
                },
                Step::Done => {
                    &&& final(self).all_handed()
                    &&& old(self).all_handed()
                },
            },
            forall|v: Worker| #[trigger] old(self).knows(v) ==> final(self).knows(v),
    {
        if w.drained >= self.workers {
            proof {
                lemma_drained(*self, *w);
            }
            return Step::Done;
        }
        if !self.owned {
            let c: usize = self.next;
            if c < self.chunks {
                self.next = c + 1;
                return Step::Chunk(c);
            }
            w.drained = self.workers;
            return Step::Done;
        }
        let n: usize = self.workers;
        proof {
            lemma_mod_bound(w.me + w.drained, n as int);
            if w.me + w.drained >= n {
                lemma_fundamental_div_mod_converse(
                    w.me + w.drained,
                    n as int,
                    1,
                    w.me + w.drained - n,
                );
            } else {
                lemma_small_mod((w.me + w.drained) as nat, n as nat);
            }
        }
        let at: usize = if w.drained >= n - w.me {
            w.drained - (n - w.me)
        } else {
            w.me + w.drained
        };
        assert(at == owner(w.me as int, w.drained as int, n as int));
        let c: usize = self.next_owned[at];
        if c < self.chunks {
            self.next_owned.set(at, c + n);
            proof {
                let (was, now) = (*old(self), *self);
                assert(was.next_owned@[at as int] % was.workers == at);
                lemma_mod_add_multiples_vanish(c as int, n as int);
                assert((c + n) % (n as int) == at as int) by {
                    lemma_mod_add_multiples_vanish(c as int, n as int);
                }
                assert forall|x: int| #[trigger] now.handed(x) <==> was.handed(x) || x == c by {
                    if 0 <= x < was.chunks {
                        lemma_mod_bound(x, n as int);
                        if x % (n as int) == at && c < x < c + n {
                            lemma_between(c as int, x, n as int);
                        }
                    }
                }
                assert forall|v: Worker| #[trigger] was.knows(v) implies now.knows(v) by {
                    assert forall|k: int| 0 <= k < v.drained implies now.next_owned@[
                        #[trigger] owner(v.me as int, k, n as int)
                    ] >= now.chunks by {
                        lemma_mod_bound(v.me + k, n as int);
                    }
                }
            }
            return Step::Chunk(c);
        }
        w.drained = w.drained + 1;
        if w.drained == self.workers {
            proof {
                lemma_drained(*self, *w);
            }
            return Step::Done;
        }
        Step::Empty
    }
}

/// A worker that has found every counter empty knows that every chunk has been handed out.
pub proof fn lemma_drained(j: Job, w: Worker)
    requires
        j.wf(),
        j.knows(w),
        w.drained == j.workers,
    ensures
        j.all_handed(),
{
    let n = j.workers as int;
    assert forall|c: int| 0 <= c < j.chunks implies #[trigger] j.handed(c) by {
        if j.owned {
            lemma_mod_bound(c, n);
            let o = c % n;
            let k = if o >= w.me {
                o - w.me
            } else {
                o - w.me + n
            };
            if o >= w.me {
                lemma_small_mod(o as nat, n as nat);
            } else {
                lemma_fundamental_div_mod_converse(w.me + k, n, 1, o);
            }
            assert(owner(w.me as int, k, n) == o);
        }
    }
}

/// A worker is given the chunks of its own stride first, and then those of the others' strides in a
/// circle: the chunk that is next for it is of the stride that it has come to, and nothing is left
/// of the strides before.
pub proof fn strides_are_walked_in_turn(j: Job, w: Worker)
    requires
        j.wf(),
        j.owned,
        j.knows(w),
        w.drained < j.workers,
    ensures
        ({
            let o = owner(w.me as int, w.drained as int, j.workers as int);
            &&& 0 <= o < j.workers
            &&& j.next_owned@[o] % j.workers == o
            &&& w.drained == 0 ==> o == w.me
        }),
        forall|k: int, c: int|
            0 <= k < w.drained && 0 <= c < j.chunks && c % (j.workers as int) == #[trigger] owner(
                w.me as int,
                k,
                j.workers as int,
            ) ==> #[trigger] j.handed(c),
{
    let n = j.workers as int;
    lemma_mod_bound(w.me + w.drained, n);
    if w.drained == 0 {
        lemma_small_mod(w.me as nat, n as nat);
    }
}

/// What becomes of a job.
pub enum Dispatch {
    /// There is nothing to do.
    Nothing,
    /// The caller runs all chunks itself, in order.
    Inline(usize),
    /// The workers share out the chunks.
    Shared(Job),
}

/// A pool of workers; the caller is one of them.
pub struct Pool {
    pub workers: usize,
}

impl Pool {
    /// A pool of `threads` workers.
    pub fn new(threads: usize) -> (r: Pool)
        requires
            threads > 0,
        ensures
            r.workers == threads,
    {
        Pool { workers: threads }
    }

    /// How many workers there are.
    pub fn threads(&self) -> (r: usize)
        ensures
            r == self.workers,
    {
        self.workers
    }

    /// Starts a job of `chunks` chunks, taken from one shared counter.
    pub fn run(&self, chunks: usize) -> (r: Dispatch)
        requires
            self.workers > 0,
            chunks + self.workers <= usize::MAX,
        ensures
            dispatched(r, self.workers, chunks, false),
    {
        self.run_impl(chunks, false)
    }

    /// Starts a job of `chunks` chunks, taken owner first where that is `on`.
    pub fn run_static(&self, chunks: usize, on: bool) -> (r: Dispatch)
        requires
            self.workers > 0,
            chunks + self.workers <= usize::MAX,
        ensures
            dispatched(r, self.workers, chunks, on),
    {
        self.run_impl(chunks, on)
    }

    /// Starts a job of `chunks` chunks.
    pub fn run_impl(&self, chunks: usize, owned: bool) -> (r: Dispatch)
        requires
            self.workers > 0,
            chunks + self.workers <= usize::MAX,
        ensures
            dispatched(r, self.workers, chunks, owned),
    {
        if chunks == 0 {
            return Dispatch::Nothing;
        }
        if chunks == 1 || self.workers == 1 {
            return Dispatch::Inline(chunks);
        }
        Dispatch::Shared(Job::new(self.workers, chunks, owned))
    }
}

/// `d` is the start of a job of `chunks` chunks for `workers` workers: none of it has been run.
pub open spec fn dispatched(d: Dispatch, workers: usize, chunks: usize, owned: bool) -> bool {
    if chunks == 0 {
        d is Nothing
    } else if chunks == 1 || workers == 1 {
        d == Dispatch::Inline(chunks)
    } else {
        d matches Dispatch::Shared(j) && {
            &&& j.wf()
            &&& j.workers == workers
            &&& j.chunks == chunks
            &&& j.owned == owned
            &&& j.fresh()
            &&& forall|c: int| !#[trigger] j.handed(c)
        }
    }
}

/// A history of steps: which worker moved, and what it was given.
pub ghost struct Moment {
    pub job: Job,
    pub given: Seq<int>,
}

/// The history hands out every chunk at most once, and exactly the chunks that the job counts as
/// handed out.
pub open spec fn faithful(m: Moment) -> bool {
    &&& m.job.wf()
    &&& forall|i: int, j: int|
        0 <= i < j < m.given.len() ==> #[trigger] m.given[i] != #[trigger] m.given[j]
    &&& forall|c: int| #[trigger] m.job.handed(c) <==> m.given.contains(c)
}

/// Whatever the order of the workers' steps, no chunk is handed out twice: a step that gives a chunk
/// gives one that nobody was given before.
pub proof fn chunks_are_given_once(m: Moment, after: Job, c: int)
    requires
        faithful(m),
        after.wf(),
        !m.job.handed(c),
        forall|x: int| #[trigger] after.handed(x) <==> m.job.handed(x) || x == c,
    ensures
        faithful(Moment { job: after, given: m.given.push(c) }),
{
    let g = m.given.push(c);
    assert(!m.given.contains(c));
    assert forall|i: int, j: int| 0 <= i < j < g.len() implies #[trigger] g[i]
        != #[trigger] g[j] by {
        if j == m.given.len() {
            assert(m.given[i] == g[i]);
            assert(m.given.contains(g[i]));
        } else {
            assert(m.given[i] == g[i] && m.given[j] == g[j]);
        }
    }
    assert forall|x: int| #[trigger] after.handed(x) <==> g.contains(x) by {
        if x == c {
            assert(g[m.given.len() as int] == c);
        } else if m.given.contains(x) {
            let i = choose|i: int| 0 <= i < m.given.len() && m.given[i] == x;
            assert(g[i] == x);
        } else if g.contains(x) {
            let i = choose|i: int| 0 <= i < g.len() && g[i] == x;
            assert(m.given[i] == x);
        }
    }
}

/// When a worker finds nothing left, every chunk has been given to somebody, exactly once.
pub proof fn done_means_all_given(m: Moment)
    requires
        faithful(m),
        m.job.all_handed(),
    ensures
        forall|c: int| 0 <= c < m.job.chunks ==> #[trigger] m.given.contains(c),
        m.given.no_duplicates(),
{
    assert forall|c: int| 0 <= c < m.job.chunks implies #[trigger] m.given.contains(c) by {
        assert(m.job.handed(c));
    }
}

// ---------------------------------------------------------------------------------------
// Waiting for each other
// ---------------------------------------------------------------------------------------

/// How the caller and its workers wait for each other: a new generation wakes the workers, and the
/// caller goes on when none of them is pending.
pub struct Barrier {
    pub generation: u64,
    pub pending: usize,
}

impl Barrier {
    /// Nobody waits.
    pub fn new() -> (r: Barrier)
        ensures
            r.generation == 0,
            r.pending == 0,
    {
        Barrier { generation: 0, pending: 0 }
    }

    /// Posts a job for all workers but the caller.
    pub fn post(&mut self, workers: usize)
        requires
            workers > 0,
            old(self).pending == 0,
            old(self).generation < u64::MAX,
        ensures
            final(self).generation == old(self).generation + 1,
            final(self).pending == workers - 1,
    {
        self.generation = self.generation + 1;
        self.pending = workers - 1;
    }

    /// Whether there is a job that a worker which last saw generation `seen` has not seen.
    pub fn is_new(&self, seen: u64) -> (r: bool)
        ensures
            r == (self.generation != seen),
    {
        self.generation != seen
    }

    /// A worker is done. Returns whether it was the last.
    pub fn finish(&mut self) -> (r: bool)
        requires
            old(self).pending > 0,
        ensures
            final(self).pending == old(self).pending - 1,
            final(self).generation == old(self).generation,
            r == (final(self).pending == 0),
    {
        self.pending = self.pending - 1;
        self.pending == 0
    }
}

// ---------------------------------------------------------------------------------------
// How many workers
// ---------------------------------------------------------------------------------------

/// The different texts among the first `n`, without white space at their ends.
pub open spec fn different(lines: Seq<String>, n: int) -> Set<Seq<char>>
    decreases n,
{
    if n <= 0 {
        Set::empty()
    } else {
        different(lines, n - 1).insert(text::trimmed(lines[n - 1]@))
    }
}

/// How many different texts there are, white space at their ends aside.
fn count_different(lines: &Vec<String>) -> (r: usize)
    ensures
        r == different(lines@, lines@.len() as int).len(),
{
    let mut seen: Vec<Vec<char>> = Vec::new();
    let ghost mut set: Set<Seq<char>> = Set::empty();
    for i in 0..lines.len()
        invariant
            set == different(lines@, i as int),
            set.finite(),
            set.len() == seen@.len(),
            forall|k: int| 0 <= k < seen@.len() ==> set.contains((#[trigger] seen@[k])@),
            forall|s: Seq<char>| #[trigger]
                set.contains(s) ==> exists|k: int|
                    0 <= k < seen@.len() && (#[trigger] seen@[k])@ == s,
    {
        let line: Vec<char> = text::trim(text::chars_of(lines[i].as_str()).as_slice());
        let mut known: bool = false;
        for k in 0..seen.len()
            invariant
                known <==> exists|x: int| 0 <= x < k && (#[trigger] seen@[x])@ == line@,
        {
            if equal(seen[k].as_slice(), line.as_slice()) {
                known = true;
                assert(seen@[k as int]@ == line@);
            }
        }
        let ghost (before, old_set) = (seen@, set);
        if !known {
            seen.push(line);
        }
        proof {
            set = set.insert(line@);
            assert(known ==> set =~= old_set);
            assert forall|k: int| 0 <= k < seen@.len() implies set.contains(
                (#[trigger] seen@[k])@,
            ) by {
                if k < before.len() {
                    assert(before[k] == seen@[k]);
                }
            }
            assert forall|s: Seq<char>| #[trigger] set.contains(s) implies exists|k: int|
                0 <= k < seen@.len() && (#[trigger] seen@[k])@ == s by {
                if old_set.contains(s) {
                    let k = choose|k: int| 0 <= k < before.len() && (#[trigger] before[k])@ == s;
                    assert(seen@[k] == before[k]);
                } else {
                    assert(!known);
                    assert(seen@[before.len() as int]@ == line@);
                }
            }
        }
    }
    seen.len()
}

/// Whether two texts are the same.
fn equal(a: &[char], b: &[char]) -> (r: bool)
    ensures
        r == (a@ == b@),
{
    if a.len() != b.len() {
        return false;
    }
    assert(a@.subrange(0, b@.len() as int) =~= a@);
    text::matches_at(a, b, 0)
}

/// How many cores there are, given the siblings that each hardware thread lists: one for each
/// different list, at least one and no more than hardware threads; all hardware threads where no
/// list is known.
pub fn physical_cores(siblings: &Vec<String>, logical: usize) -> (r: usize)
    ensures
        ({
            let n = different(siblings@, siblings@.len() as int).len();
            r == if n == 0 {
                logical as int
            } else if logical == 0 {
                1
            } else if n < logical {
                n as int
            } else {
                logical as int
            }
        }),
{
    let n: usize = count_different(siblings);
    if n == 0 {
        return logical;
    }
    let m: usize = if n < logical {
        n
    } else {
        logical
    };
    if m < 1 {
        1
    } else {
        m
    }
}

/// A job is run whole: with chunks there is something to run, all of them stand in it, none has been
/// run before, and nobody else is asked where one worker is enough.
pub proof fn jobs_are_run_whole(d: Dispatch, workers: usize, chunks: usize, owned: bool)
    requires
        dispatched(d, workers, chunks, owned),
    ensures
        match d {
            Dispatch::Nothing => chunks == 0,
            Dispatch::Inline(n) => n == chunks && chunks > 0 && (chunks == 1 || workers == 1),
            Dispatch::Shared(j) => {
                &&& j.chunks == chunks
                &&& j.workers == workers
                &&& j.owned == owned
                &&& chunks > 1
                &&& forall|c: int| !#[trigger] j.handed(c)
            },
        },
{
}

} // verus!
