//! The parts of sampling that are exact: the random numbers, and the order of logits. Logits are
//! single-precision bit patterns.

use vstd::prelude::*;

verus! {

/// How many of the largest logits are sampled from.
pub const TOP_K: usize = 256;

/// The place of a bit pattern in the total order of single-precision numbers: positive numbers by
/// their patterns, negative numbers below them in reverse.
pub open spec fn rank(bits: u32) -> int {
    if bits < 0x8000_0000 {
        bits as int
    } else {
        -1 - (bits - 0x8000_0000)
    }
}

/// The place of a bit pattern in the total order.
fn rank_of(bits: u32) -> (r: i64)
    ensures
        r == rank(bits),
{
    if bits < 0x8000_0000 {
        bits as i64
    } else {
        -1 - (bits as i64 - 0x8000_0000)
    }
}

/// Different patterns have different places.
pub proof fn order_tells_patterns_apart(a: u32, b: u32)
    requires
        rank(a) == rank(b),
    ensures
        a == b,
{
}

/// The number with pattern `bits` is zero or below zero; one that is no number is not.
pub open spec fn not_positive(bits: u32) -> bool {
    bits == 0 || 0x8000_0000 <= bits <= 0xff80_0000
}

/// Whether sampling at that temperature takes the largest logit.
pub fn is_greedy(temperature: u32) -> (r: bool)
    ensures
        r == not_positive(temperature),
{
    temperature == 0 || (temperature >= 0x8000_0000 && temperature <= 0xff80_0000)
}

/// `i` is the place of the largest logit; of several, the last.
pub open spec fn largest_at(logits: Seq<u32>, i: int) -> bool {
    &&& 0 <= i < logits.len()
    &&& forall|j: int| 0 <= j < logits.len() ==> rank(#[trigger] logits[j]) <= rank(logits[i])
    &&& forall|j: int| i < j < logits.len() ==> rank(#[trigger] logits[j]) < rank(logits[i])
}

/// The place of the largest logit; of several, the last.
pub fn argmax(logits: &[u32]) -> (r: usize)
    requires
        logits@.len() > 0,
    ensures
        largest_at(logits@, r as int),
{
    let mut best: usize = 0;
    let mut i: usize = 1;
    while i < logits.len()
        invariant
            1 <= i <= logits@.len(),
            best < i,
            forall|j: int|
                0 <= j < i ==> rank(#[trigger] logits@[j]) <= rank(logits@[best as int]),
            forall|j: int|
                best < j < i ==> rank(#[trigger] logits@[j]) < rank(logits@[best as int]),
        decreases logits@.len() - i,
    {
        if rank_of(logits[i]) >= rank_of(logits[best]) {
            best = i;
        }
        i += 1;
    }
    best
}

/// `s` are the places of the `k` largest logits, or of all where there are fewer, the largest first.
pub open spec fn are_largest(logits: Seq<u32>, k: int, s: Seq<usize>) -> bool {
    &&& s.len() == (if k < logits.len() {
        k
    } else {
        logits.len() as int
    })
    &&& forall|i: int| 0 <= i < s.len() ==> (#[trigger] s[i]) < logits.len()
    &&& s.no_duplicates()
    &&& forall|i: int, j: int|
        0 <= i < j < s.len() ==> rank(logits[#[trigger] s[i] as int]) >= rank(
            logits[#[trigger] s[j] as int],
        )
    &&& forall|x: usize, j: int|
        x < logits.len() && !(#[trigger] s.contains(x)) && 0 <= j < s.len() ==> rank(
            logits[x as int],
        ) <= rank(logits[#[trigger] s[j] as int])
}

/// The places of the `k` largest logits, the largest first. Equal logits come in any order.
pub fn largest(logits: &[u32], k: usize) -> (r: Vec<usize>)
    ensures
        are_largest(logits@, k as int, r@),
{
    let mut out: Vec<usize> = Vec::new();
    assert(are_largest(logits@.take(0), k as int, out@));
    for i in 0..logits.len()
        invariant
            are_largest(logits@.take(i as int), k as int, out@),
    {
        let ghost front = logits@.take(i as int);
        let ghost next = logits@.take(i + 1);
        let ghost s = out@;
        let n: usize = out.len();
        assert(forall|j: int| 0 <= j < n ==> (#[trigger] s[j]) < i);
        let x: i64 = rank_of(logits[i]);
        let enters: bool = n < k || (n > 0 && x > rank_of(logits[out[n - 1]]));
        if enters {
            let mut p: usize = n;
            while p > 0 && rank_of(logits[out[p - 1]]) < x
                invariant
                    p <= n,
                    n == out@.len(),
                    s == out@,
                    i < logits@.len(),
                    x == rank(logits@[i as int]),
                    forall|j: int| 0 <= j < n ==> (#[trigger] s[j]) < i,
                    forall|j: int| p <= j < n ==> rank(logits@[#[trigger] s[j] as int]) < x,
                decreases p,
            {
                p -= 1;
            }
            out.insert(p, i);
            if out.len() > k {
                let _ = out.pop();
            }
            proof {
                lemma_enter(logits@, i as int, k as int, s, p as int, out@);
            }
        } else {
            proof {
                assert forall|y: usize, j: int|
                    y < next.len() && !(#[trigger] s.contains(y)) && 0 <= j < s.len() implies rank(
                    next[y as int],
                ) <= rank(next[#[trigger] s[j] as int]) by {
                    if y < i {
                        assert(front[y as int] == next[y as int]);
                        assert(front[s[j] as int] == next[s[j] as int]);
                    } else if j < n - 1 {
                        assert(rank(front[s[j] as int]) >= rank(front[s[n - 1] as int]));
                    }
                }
                assert forall|a: int, b: int| 0 <= a < b < s.len() implies rank(
                    next[#[trigger] s[a] as int],
                ) >= rank(next[#[trigger] s[b] as int]) by {
                    assert(front[s[a] as int] == next[s[a] as int]);
                    assert(front[s[b] as int] == next[s[b] as int]);
                }
                assert(are_largest(next, k as int, out@));
            }
        }
    }
    assert(logits@.take(logits@.len() as int) =~= logits@);
    out
}

/// Entering one more logit keeps the list.
proof fn lemma_enter(logits: Seq<u32>, i: int, k: int, s: Seq<usize>, p: int, out: Seq<usize>)
    requires
        0 <= i < logits.len(),
        i <= usize::MAX,
        0 <= k,
        are_largest(logits.take(i), k, s),
        0 <= p <= s.len(),
        s.len() < k || (s.len() > 0 && rank(logits[i]) > rank(logits[s[s.len() - 1] as int])),
        forall|j: int| p <= j < s.len() ==> rank(logits[#[trigger] s[j] as int]) < rank(logits[i]),
        p > 0 ==> rank(logits[s[p - 1] as int]) >= rank(logits[i]),
        out == (if s.len() + 1 > k {
            s.insert(p, i as usize).drop_last()
        } else {
            s.insert(p, i as usize)
        }),
    ensures
        are_largest(logits.take(i + 1), k, out),
{
    let front = logits.take(i);
    let next = logits.take(i + 1);
    let g = s.insert(p, i as usize);
    let x = i as usize;
    assert(forall|j: int| 0 <= j < s.len() ==> (#[trigger] s[j]) < i);
    assert forall|a: int| 0 <= a < g.len() implies (#[trigger] g[a]) == (if a < p {
        s[a]
    } else if a == p {
        x
    } else {
        s[a - 1]
    }) by {}
    assert forall|a: int, b: int| 0 <= a < b < g.len() implies rank(
        next[#[trigger] g[a] as int],
    ) >= rank(next[#[trigger] g[b] as int]) && g[a] != g[b] by {
        let (c, d) = (
            if a < p {
                a
            } else {
                a - 1
            },
            if b < p {
                b
            } else {
                b - 1
            },
        );
        if a == p {
            assert(g[b] == s[d]);
        } else if b == p {
            assert(g[a] == s[c]);
            if c < p - 1 {
                assert(rank(front[s[c] as int]) >= rank(front[s[p - 1] as int]));
            }
        } else {
            assert(g[a] == s[c] && g[b] == s[d]);
            assert(rank(front[s[c] as int]) >= rank(front[s[d] as int]));
            assert(s[c] != s[d]);
        }
    }
    assert forall|a: int| 0 <= a < out.len() implies (#[trigger] out[a]) < next.len() by {
        assert(out[a] == g[a]);
    }
    assert(out.no_duplicates()) by {
        assert forall|a: int, b: int| 0 <= a < out.len() && 0 <= b < out.len() && a != b implies out[a]
            != out[b] by {
            assert(out[a] == g[a] && out[b] == g[b]);
            if a < b {
                assert(g[a] != g[b]);
            } else {
                assert(g[b] != g[a]);
            }
        }
    }
    assert forall|a: int, b: int| 0 <= a < b < out.len() implies rank(
        next[#[trigger] out[a] as int],
    ) >= rank(next[#[trigger] out[b] as int]) by {
        assert(out[a] == g[a] && out[b] == g[b]);
    }
    assert forall|y: usize, j: int|
        y < next.len() && !(#[trigger] out.contains(y)) && 0 <= j < out.len() implies rank(
        next[y as int],
    ) <= rank(next[#[trigger] out[j] as int]) by {
        assert(out[j] == g[j]);
        let last = g.len() - 1;
        if g.contains(y) {
            let a = choose|a: int| 0 <= a < g.len() && g[a] == y;
            if a < out.len() {
                assert(out[a] == y);
            }
            assert(a == last);
            assert(rank(next[g[j] as int]) >= rank(next[g[last] as int]));
        } else {
            if y == x {
                assert(g[p] == x);
            }
            if s.contains(y) {
                let a = choose|a: int| 0 <= a < s.len() && s[a] == y;
                assert(g[if a < p {
                    a
                } else {
                    a + 1
                }] == y);
            }
            assert(!s.contains(y));
            assert(y < i);
            assert(s.len() >= k) by {
                if s.len() < k {
                    lemma_all_listed(front, k, s, y);
                }
            }
            let c = if j < p {
                j
            } else if j == p {
                s.len() - 1
            } else {
                j - 1
            };
            assert(rank(front[y as int]) <= rank(front[s[c] as int]));
        }
    }
}

/// Where fewer than `k` are listed, all are.
proof fn lemma_all_listed(front: Seq<u32>, k: int, s: Seq<usize>, y: usize)
    requires
        are_largest(front, k, s),
        s.len() < k,
        y < front.len(),
    ensures
        s.contains(y),
{
    if !s.contains(y) {
        let t = s.push(y);
        assert(t.no_duplicates()) by {
            assert forall|a: int, b: int| 0 <= a < t.len() && 0 <= b < t.len() && a != b implies t[a]
                != t[b] by {
                if a == s.len() {
                    assert(s.contains(s[b]));
                } else if b == s.len() {
                    assert(s.contains(s[a]));
                }
            }
        }
        let ints = t.map_values(|u: usize| u as int);
        let all = vstd::set_lib::set_int_range(0, front.len() as int);
        vstd::set_lib::lemma_int_range(0, front.len() as int);
        assert(ints.no_duplicates());
        ints.unique_seq_to_set();
        assert(ints.to_set().subset_of(all)) by {
            assert forall|v: int| ints.to_set().contains(v) implies all.contains(v) by {
                let a = choose|a: int| 0 <= a < ints.len() && ints[a] == v;
                if a < s.len() {
                    assert(s[a] < front.len());
                }
            }
        }
        vstd::set_lib::lemma_len_subset(ints.to_set(), all);
    }
}

// ---------------------------------------------------------------------------------------
// Random numbers
// ---------------------------------------------------------------------------------------

/// The next state of the generator.
pub open spec fn stirred(x: u64) -> u64 {
    let a = x ^ (x << 13u64);
    let b = a ^ (a >> 7u64);
    b ^ (b << 17u64)
}

/// How tokens are sampled from logits. `temperature` and `top_p` are single-precision bit patterns.
pub struct Sampler {
    pub temperature: u32,
    pub top_p: u32,
    /// The state of the generator of random numbers.
    pub rng: u64,
}

/// What sampling comes down to.
pub enum Choice {
    /// This token.
    Token(u32),
    /// One of these tokens, the likeliest first, by a random number of 24 bits.
    Among(Vec<usize>, u32),
}

impl Sampler {
    /// A generator never gets stuck: its state is never zero.
    pub open spec fn wf(&self) -> bool {
        self.rng != 0
    }

    /// A sampler whose random numbers start from `seed`, made odd.
    pub fn new(temperature: u32, top_p: u32, seed: u64) -> (r: Sampler)
        ensures
            r.temperature == temperature,
            r.top_p == top_p,
            r.rng == seed | 1,
            r.wf(),
    {
        assert(seed | 1 != 0) by (bit_vector);
        Sampler { temperature, top_p, rng: seed | 1 }
    }

    /// The next random number of 24 bits.
    pub fn next(&mut self) -> (r: u32)
        requires
            old(self).wf(),
        ensures
            final(self).rng == stirred(old(self).rng),
            final(self).temperature == old(self).temperature,
            final(self).top_p == old(self).top_p,
            final(self).wf(),
            r == final(self).rng >> 40u64,
            r < 0x100_0000,
    {
        let x: u64 = self.rng;
        let a: u64 = x ^ (x << 13u64);
        let b: u64 = a ^ (a >> 7u64);
        let c: u64 = b ^ (b << 17u64);
        assert(x != 0 ==> x ^ (x << 13u64) != 0) by (bit_vector);
        assert(a != 0 ==> a ^ (a >> 7u64) != 0) by (bit_vector);
        assert(b != 0 ==> b ^ (b << 17u64) != 0) by (bit_vector);
        self.rng = c;
        assert(c >> 40u64 < 0x100_0000) by (bit_vector);
        (c >> 40u64) as u32
    }

    /// What sampling from `logits` comes down to: the largest logit's token where the temperature
    /// is not above zero, and else one of the likeliest tokens, by the next random number.
    pub fn sample(&mut self, logits: &[u32]) -> (r: Choice)
        requires
            old(self).wf(),
            0 < logits@.len() <= u32::MAX,
        ensures
            final(self).wf(),
            final(self).temperature == old(self).temperature,
            final(self).top_p == old(self).top_p,
            match r {
                Choice::Token(t) => {
                    &&& not_positive(old(self).temperature)
                    &&& largest_at(logits@, t as int)
                    &&& final(self).rng == old(self).rng
                },
                Choice::Among(s, draw) => {
                    &&& !not_positive(old(self).temperature)
                    &&& are_largest(logits@, TOP_K as int, s@)
                    &&& s@.len() > 0
                    &&& s@.len() == 256 || s@.len() == logits@.len() < 256
                    &&& final(self).rng == stirred(old(self).rng)
                    &&& draw == final(self).rng >> 40u64
                    &&& draw < 0x100_0000
                },
            },
    {
        if is_greedy(self.temperature) {
            let t: usize = argmax(logits);
            return Choice::Token(t as u32);
        }
        let s: Vec<usize> = largest(logits, TOP_K);
        let draw: u32 = self.next();
        Choice::Among(s, draw)
    }
}

/// Different states have different successors: the generator runs through its states in cycles.
pub proof fn stirring_loses_nothing(x: u64, y: u64)
    requires
        stirred(x) == stirred(y),
    ensures
        x == y,
{
    let (a, c) = (x ^ (x << 13u64), y ^ (y << 13u64));
    let (b, d) = (a ^ (a >> 7u64), c ^ (c >> 7u64));
    assert(b ^ (b << 17u64) == d ^ (d << 17u64) ==> b == d) by (bit_vector);
    assert(a ^ (a >> 7u64) == c ^ (c >> 7u64) ==> a == c) by (bit_vector);
    assert(x ^ (x << 13u64) == y ^ (y << 13u64) ==> x == y) by (bit_vector);
}

/// The order is that of the numbers: of two positive ones the larger pattern is the larger number, of
/// two negative ones the smaller, and a negative one is below every positive one.
pub proof fn order_is_that_of_numbers(a: u32, b: u32)
    requires
        a < b,
    ensures
        b < 0x8000_0000 ==> rank(a) < rank(b),
        a >= 0x8000_0000 ==> rank(b) < rank(a),
        a < 0x8000_0000 && b >= 0x8000_0000 ==> rank(b) < rank(a),
{
}

/// The largest logit is the first of the largest ones, up to equal ones.
pub proof fn largest_comes_first(logits: Seq<u32>, i: int, k: int, s: Seq<usize>)
    requires
        largest_at(logits, i),
        are_largest(logits, k, s),
        k > 0,
        logits.len() <= usize::MAX,
    ensures
        s.len() > 0,
        logits[s[0] as int] == logits[i],
{
    let x = s[0];
    assert(x < logits.len());
    if s.contains(i as usize) {
        let j = choose|j: int| 0 <= j < s.len() && s[j] == i as usize;
        if j > 0 {
            assert(rank(logits[s[0] as int]) >= rank(logits[s[j] as int]));
        }
    } else if i <= usize::MAX {
        assert(rank(logits[i as usize as int]) <= rank(logits[s[0] as int]));
    }
    assert(rank(logits[x as int]) <= rank(logits[i]));
    assert(rank(logits[x as int]) >= rank(logits[i]));
    order_tells_patterns_apart(logits[x as int], logits[i]);
}

/// Of equally large logits the last counts, and there is one place that counts.
pub proof fn last_of_equals_counts(logits: Seq<u32>, i: int, j: int)
    requires
        largest_at(logits, i),
        0 <= j < logits.len(),
    ensures
        logits[j] == logits[i] ==> j <= i,
        largest_at(logits, j) ==> j == i,
        rank(logits[j]) <= rank(logits[i]),
{
    if largest_at(logits, j) {
        assert(rank(logits[i]) <= rank(logits[j]));
        assert(rank(logits[j]) <= rank(logits[i]));
    }
}

/// A temperature that is a number is greedy exactly where it is not above zero.
pub proof fn cold_is_greedy(bits: u32)
    requires
        bits % 0x8000_0000 <= 0x7f80_0000,
    ensures
        not_positive(bits) <==> rank(bits) <= rank(0),
{
}

/// What is no number is not greedy.
pub proof fn no_number_is_not_greedy(bits: u32)
    requires
        bits % 0x8000_0000 > 0x7f80_0000,
    ensures
        !not_positive(bits),
{
}

} // verus!
