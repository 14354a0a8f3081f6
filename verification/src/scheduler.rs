//! Continuous batching. Every decode step runs all active sequences through the network together;
//! draft tokens are verified in the same pass. The decisions stand here: who joins the batch, what
//! a step feeds to the network, which sampled tokens are kept, and when a sequence ends.

use vstd::prelude::*;
use vstd::slice::*;
use vstd::string::*;

use crate::draft;
use crate::kv;
use crate::kv::{Kv, KvCache};
use crate::text;

verus! {

/// Most sequences in one batch.
pub const MAX_BATCH: usize = 16;

/// Steps without prompt lookup after a draft of which nothing was kept.
pub const BACKOFF: u32 = 3;

/// What a client asks for. `temperature` and `top_p` are single-precision bit patterns.
#[derive(Debug)]
pub struct Request {
    pub prompt_ids: Vec<u32>,
    pub max_tokens: usize,
    pub temperature: u32,
    pub top_p: u32,
    pub seed: u64,
    pub stop_ids: Vec<u32>,
}

/// Why a sequence ended.
#[derive(Debug, Clone, Copy, PartialEq, Eq, Structural)]
pub enum Finish {
    /// A stop token was sampled.
    Stop,
    /// The client went away.
    Disconnected,
    /// The client has all the tokens it asked for.
    Length,
}

/// The name of a reason in the protocol.
pub open spec fn finish_name(f: Finish) -> Seq<char> {
    match f {
        Finish::Stop => "stop"@,
        Finish::Disconnected => "disconnected"@,
        Finish::Length => "length"@,
    }
}

impl Finish {
    /// The name of the reason in the protocol.
    pub fn name(&self) -> (r: &'static str)
        ensures
            r@ == finish_name(*self),
    {
        match self {
            Finish::Stop => "stop",
            Finish::Disconnected => "disconnected",
            Finish::Length => "length",
        }
    }
}

/// How the engine drafts.
pub struct Settings {
    /// Tokens per step from the draft model.
    pub spec_k: usize,
    /// Last tokens to look up.
    pub ngram_n: usize,
    /// Most tokens per lookup.
    pub ngram_k: usize,
    /// Whether prompt lookup is used.
    pub ngram_on: bool,
}

/// Nothing is drafted: neither by lookup nor by a draft model.
pub open spec fn never_drafts(s: Settings) -> bool {
    s.spec_k == 0 && !s.ngram_on
}

/// `asked`, or `otherwise` where nothing was asked for.
pub open spec fn or_default(asked: Option<usize>, otherwise: usize) -> usize {
    match asked {
        Some(n) => n,
        None => otherwise,
    }
}

/// `s` is what follows from what the network can do and from what was asked for.
pub open spec fn chosen(
    s: Settings,
    rollback: bool,
    has_draft: bool,
    spec_k: Option<usize>,
    ngram_n: Option<usize>,
    ngram_k: Option<usize>,
    ngram: Option<Seq<char>>,
) -> bool {
    &&& s.spec_k == (if has_draft && rollback {
        or_default(spec_k, 4)
    } else {
        0
    })
    &&& s.ngram_n == or_default(ngram_n, 3)
    &&& s.ngram_k == or_default(ngram_k, 6)
    &&& s.ngram_on == (rollback && ngram != Some("0"@))
}

impl Settings {
    /// The settings for a network that can or cannot be rolled back, with or without a draft model.
    /// The other arguments are what was asked for. A network that cannot be rolled back never
    /// drafts.
    pub fn new(
        rollback: bool,
        has_draft: bool,
        spec_k: Option<usize>,
        ngram_n: Option<usize>,
        ngram_k: Option<usize>,
        ngram: Option<&str>,
    ) -> (r: Settings)
        ensures
            r.spec_k == (if has_draft && rollback {
                or_default(spec_k, 4)
            } else {
                0
            }),
            r.ngram_n == or_default(ngram_n, 3),
            r.ngram_k == or_default(ngram_k, 6),
            r.ngram_on == (rollback && !(ngram matches Some(v) && v@ == "0"@)),
            !rollback ==> never_drafts(r),
            ngram matches Some(v) && v@ == "0"@ ==> !r.ngram_on,
            !has_draft ==> r.spec_k == 0,
            chosen(
                r,
                rollback,
                has_draft,
                spec_k,
                ngram_n,
                ngram_k,
                match ngram {
                    Some(v) => Some(v@),
                    None => None,
                },
            ),
    {
        Settings {
            spec_k: if has_draft && rollback {
                match spec_k {
                    Some(n) => n,
                    None => 4,
                }
            } else {
                0
            },
            ngram_n: match ngram_n {
                Some(n) => n,
                None => 3,
            },
            ngram_k: match ngram_k {
                Some(n) => n,
                None => 6,
            },
            ngram_on: rollback && match ngram {
                Some(v) => !text::same(v, "0"),
                None => true,
            },
        }
    }
}

/// Megabytes of remembered prompts where nothing was asked for.
pub fn default_prefix_mb(on_gpu: bool) -> (r: usize)
    ensures
        r == if on_gpu {
            512usize
        } else {
            1024
        },
{
    if on_gpu {
        512
    } else {
        1024
    }
}

/// Whether a batch of `active` sequences, with `incoming` about to join, takes another.
pub fn takes_more(active: usize, incoming: usize) -> (r: bool)
    ensures
        r == (active + incoming < MAX_BATCH),
{
    active < MAX_BATCH && incoming < MAX_BATCH - active
}

/// A sequence that is being generated. `X` is what the caller attaches to it.
pub struct Sequence<F, B, X> {
    pub req: Request,
    /// The state of all tokens but the last, which is fed next.
    pub cache: Kv<F, B>,
    /// The draft model's state.
    pub draft_cache: KvCache<F>,
    /// The prompt and everything since.
    pub committed: Vec<u32>,
    pub attached: X,
    pub generated: usize,
    /// Sizes of the batches of this sequence's steps, added up.
    pub batch_sizes: usize,
    pub steps: usize,
    pub drafted: usize,
    pub accepted: usize,
    /// Steps that prompt lookup still sits out.
    pub ngram_backoff: u32,
    pub ngram_hits: usize,
    pub ngram_tries: usize,
}

/// What a token does to a sequence of which the client has `generated` tokens: a stop token ends
/// it, an undelivered token ends it, and so does the last token that was asked for.
pub open spec fn outcome(
    stop_ids: Seq<u32>,
    max_tokens: int,
    generated: int,
    t: u32,
    delivered: bool,
) -> Option<Finish> {
    if stop_ids.contains(t) {
        Some(Finish::Stop)
    } else if !delivered {
        Some(Finish::Disconnected)
    } else if generated + 1 >= max_tokens {
        Some(Finish::Length)
    } else {
        None
    }
}

/// Tokens that the client has after `t`.
pub open spec fn counted(stop_ids: Seq<u32>, generated: int, t: u32, delivered: bool) -> int {
    if !stop_ids.contains(t) && delivered {
        generated + 1
    } else {
        generated
    }
}

/// `a + b`, up to the largest machine word.
pub open spec fn sat(a: int, b: int) -> int {
    if a + b <= usize::MAX {
        a + b
    } else {
        usize::MAX as int
    }
}

impl<F, B, X> Sequence<F, B, X> {
    /// The sequence is in the midst of generation: it has tokens left to generate, its tokens begin
    /// with the prompt, and its state is that of all tokens but the last.
    pub open spec fn wf(self) -> bool {
        &&& self.req.prompt_ids@.len() > 0
        &&& text::begins_with(self.committed@, self.req.prompt_ids@)
        &&& self.committed@.len() == self.req.prompt_ids@.len() + self.generated
        &&& 0 < self.generated < self.req.max_tokens
        &&& self.cache@.len() == self.committed@.len() - 1
    }

    /// A sequence whose prompt has been computed into `cache`.
    pub fn begin(req: Request, cache: Kv<F, B>, draft_cache: KvCache<F>, attached: X) -> (r: Self)
        ensures
            r.req == req,
            r.cache == cache,
            r.draft_cache == draft_cache,
            r.attached == attached,
            r.committed@ == req.prompt_ids@,
            r.generated == 0,
            r.batch_sizes == 0,
            r.steps == 0,
            r.drafted == 0,
            r.accepted == 0,
            r.ngram_backoff == 0,
            r.ngram_hits == 0,
            r.ngram_tries == 0,
    {
        let committed: Vec<u32> = slice_to_vec(req.prompt_ids.as_slice());
        Sequence {
            req,
            cache,
            draft_cache,
            committed,
            attached,
            generated: 0,
            batch_sizes: 0,
            steps: 0,
            drafted: 0,
            accepted: 0,
            ngram_backoff: 0,
            ngram_hits: 0,
            ngram_tries: 0,
        }
    }

    /// Whether `t` ends the sequence without being sent.
    pub fn is_stop(&self, t: u32) -> (r: bool)
        ensures
            r == self.req.stop_ids@.contains(t),
    {
        for i in 0..self.req.stop_ids.len()
            invariant
                forall|j: int| 0 <= j < i ==> self.req.stop_ids@[j] != t,
        {
            if self.req.stop_ids[i] == t {
                return true;
            }
        }
        false
    }

    /// Counts a sampled token. `delivered` says whether it reached the client; nobody is asked that
    /// of a stop token. Returns why the sequence ends, if it does.
    pub fn emit(&mut self, t: u32, delivered: bool) -> (r: Option<Finish>)
        requires
            old(self).generated < usize::MAX,
        ensures
            r == outcome(
                old(self).req.stop_ids@,
                old(self).req.max_tokens as int,
                old(self).generated as int,
                t,
                delivered,
            ),
            final(self).generated == counted(
                old(self).req.stop_ids@,
                old(self).generated as int,
                t,
                delivered,
            ),
            *final(self) == (Sequence { generated: final(self).generated, ..*old(self) }),
    {
        if self.is_stop(t) {
            return Some(Finish::Stop);
        }
        if !delivered {
            return Some(Finish::Disconnected);
        }
        self.generated = self.generated + 1;
        if self.generated >= self.req.max_tokens {
            return Some(Finish::Length);
        }
        None
    }

    /// Takes the token that the prompt's own pass gave. Returns why the sequence ends, if it does.
    pub fn first_token(&mut self, t: u32, delivered: bool) -> (r: Option<Finish>)
        requires
            old(self).generated == 0,
        ensures
            r == outcome(
                old(self).req.stop_ids@,
                old(self).req.max_tokens as int,
                0,
                t,
                delivered,
            ),
            final(self).committed@ == (if r is Some {
                old(self).committed@
            } else {
                old(self).committed@.push(t)
            }),
            final(self).generated == counted(old(self).req.stop_ids@, 0, t, delivered),
            *final(self) == (Sequence {
                generated: final(self).generated,
                committed: final(self).committed,
                ..*old(self)
            }),
            r is None && old(self).committed@ == old(self).req.prompt_ids@ && old(
                self,
            ).req.prompt_ids@.len() > 0 && old(self).cache@.len() == old(self).committed@.len()
                ==> final(self).wf(),
    {
        let end = self.emit(t, delivered);
        if end.is_some() {
            return end;
        }
        self.committed.push(t);
        proof {
            let prompt = self.req.prompt_ids@;
            if old(self).committed@ == prompt {
                assert(self.committed@.take(prompt.len() as int) =~= prompt);
            }
        }
        None
    }

    /// The draft that prompt lookup gives, if it is not sitting out this step.
    pub fn lookup_draft(&mut self, n: usize, k: usize) -> (r: Option<Vec<u32>>)
        ensures
            old(self).ngram_backoff > 0 ==> {
                &&& r is None
                &&& *final(self) == (Sequence {
                    ngram_backoff: (old(self).ngram_backoff - 1) as u32,
                    ..*old(self)
                })
            },
            old(self).ngram_backoff == 0 ==> {
                &&& draft::drafted(
                    old(self).committed@,
                    n as int,
                    k as int,
                    match r {
                        Some(d) => Some(d@),
                        None => None,
                    },
                )
                &&& *final(self) == (Sequence {
                    ngram_tries: final(self).ngram_tries,
                    ..*old(self)
                })
                &&& final(self).ngram_tries == (if r is Some {
                    sat(old(self).ngram_tries as int, 1)
                } else {
                    old(self).ngram_tries as int
                })
            },
            r matches Some(d) ==> 0 < d@.len() <= k,
    {
        if self.ngram_backoff > 0 {
            self.ngram_backoff = self.ngram_backoff - 1;
            return None;
        }
        let d = draft::ngram_draft(self.committed.as_slice(), n, k);
        if d.is_some() {
            self.ngram_tries = self.ngram_tries.saturating_add(1);
        }
        d
    }

    /// Rolls the draft model's state back to tokens that are all but the last, and returns the
    /// tokens that it has to be fed.
    pub fn resync(&mut self) -> (r: Vec<u32>)
        requires
            old(self).committed@.len() > 0,
            old(self).draft_cache@.len >= old(self).committed@.len() ==> old(
                self,
            ).draft_cache@.can_cut(old(self).committed@.len() - 1),
        ensures
            ({
                let need = (old(self).committed@.len() - 1) as nat;
                let d = if old(self).draft_cache@.len > need {
                    old(self).draft_cache@.cut_to(need)
                } else {
                    old(self).draft_cache@
                };
                &&& final(self).draft_cache@ == d
                &&& r@ == old(self).committed@.skip(d.len as int)
                &&& r@.len() > 0
            }),
            *final(self) == (Sequence { draft_cache: final(self).draft_cache, ..*old(self) }),
    {
        let need: usize = self.committed.len() - 1;
        if self.draft_cache.len > need {
            self.draft_cache.truncate(need);
        }
        let from: usize = self.draft_cache.len;
        let part = slice_subrange(self.committed.as_slice(), from, self.committed.len());
        assert(part@ =~= self.committed@.skip(from as int));
        slice_to_vec(part)
    }

    /// The tokens that the next pass feeds for this sequence: its last token and its draft.
    pub fn target_row(&self, draft: &[u32]) -> (r: Vec<u32>)
        requires
            self.committed@.len() > 0,
        ensures
            r@ == seq![self.committed@.last()] + draft@,
            r@ == fed(self.committed@, draft@),
    {
        let mut row: Vec<u32> = Vec::new();
        row.push(self.committed[self.committed.len() - 1]);
        for i in 0..draft.len()
            invariant
                row@ == seq![self.committed@.last()] + draft@.take(i as int),
        {
            row.push(draft[i]);
            assert(row@ =~= seq![self.committed@.last()] + draft@.take(i + 1));
        }
        assert(draft@.take(draft@.len() as int) =~= draft@);
        row
    }
}

/// What a pass is fed of a sequence: its last token, whose state is not there yet, and its draft.
pub open spec fn fed(committed: Seq<u32>, draft: Seq<u32>) -> Seq<u32> {
    seq![committed.last()] + draft
}

/// The verification of one sequence's draft.
pub struct Round {
    /// The row of the pass that comes next.
    pub row: usize,
    /// Draft tokens kept so far.
    pub accepted: usize,
    pub finished: Option<Finish>,
    /// Another row is to be sampled.
    pub open: bool,
}

/// Where a sequence stands in a round.
pub ghost struct Line {
    pub committed: Seq<u32>,
    pub generated: int,
    pub row: int,
    pub accepted: int,
    pub finished: Option<Finish>,
    pub open: bool,
}

/// A round that has not sampled anything.
pub open spec fn fresh(committed: Seq<u32>, generated: int) -> Line {
    Line { committed, generated, row: 0, accepted: 0, finished: None, open: true }
}

/// What the token `t`, sampled from the next row, does: it is committed; the round goes on to the
/// next row only where the sequence goes on and `t` is what the draft says.
pub open spec fn judged(
    l: Line,
    stop_ids: Seq<u32>,
    max_tokens: int,
    draft: Seq<u32>,
    t: u32,
    delivered: bool,
) -> Line {
    let o = outcome(stop_ids, max_tokens, l.generated, t, delivered);
    let right = o is None && l.row < draft.len() && t == draft[l.row];
    Line {
        committed: l.committed.push(t),
        generated: counted(stop_ids, l.generated, t, delivered),
        row: if right {
            l.row + 1
        } else {
            l.row
        },
        accepted: if right {
            l.accepted + 1
        } else {
            l.accepted
        },
        finished: o,
        open: right,
    }
}

impl Round {
    /// A round that has not sampled anything.
    pub fn new() -> (r: Round)
        ensures
            r.row == 0,
            r.accepted == 0,
            r.finished is None,
            r.open,
    {
        Round { row: 0, accepted: 0, finished: None, open: true }
    }
}

impl<F, B, X> Sequence<F, B, X> {
    /// Where the sequence stands in `round`.
    pub open spec fn line(self, round: Round) -> Line {
        Line {
            committed: self.committed@,
            generated: self.generated as int,
            row: round.row as int,
            accepted: round.accepted as int,
            finished: round.finished,
            open: round.open,
        }
    }

    /// Takes the token that was sampled from the round's next row.
    pub fn judge(&mut self, round: &mut Round, draft: &[u32], t: u32, delivered: bool)
        requires
            old(self).generated < usize::MAX,
            old(round).open,
            old(round).accepted <= old(round).row <= draft@.len(),
        ensures
            final(self).line(*final(round)) == judged(
                old(self).line(*old(round)),
                old(self).req.stop_ids@,
                old(self).req.max_tokens as int,
                draft@,
                t,
                delivered,
            ),
            *final(self) == (Sequence {
                committed: final(self).committed,
                generated: final(self).generated,
                ..*old(self)
            }),
            final(round).accepted <= final(round).row <= draft@.len(),
    {
        let o = self.emit(t, delivered);
        self.committed.push(t);
        round.finished = o;
        if o.is_none() && round.row < draft.len() && t == draft[round.row] {
            round.row = round.row + 1;
            round.accepted = round.accepted + 1;
        } else {
            round.open = false;
        }
    }

    /// Ends a round: counts it, sits out prompt lookup where its draft was useless, and rolls the
    /// state back to all tokens but the last.
    pub fn settle(&mut self, batch: usize, drafted: usize, from_ngram: bool, accepted: usize)
        requires
            old(self).committed@.len() > 0,
        ensures
            final(self).batch_sizes == sat(old(self).batch_sizes as int, batch as int),
            final(self).steps == sat(old(self).steps as int, 1),
            final(self).drafted == sat(old(self).drafted as int, drafted as int),
            final(self).accepted == sat(old(self).accepted as int, accepted as int),
            final(self).ngram_backoff == (if from_ngram && accepted == 0 {
                BACKOFF
            } else {
                old(self).ngram_backoff
            }),
            final(self).ngram_hits == (if from_ngram && accepted > 0 {
                sat(old(self).ngram_hits as int, 1)
            } else {
                old(self).ngram_hits as int
            }),
            ({
                let n = (old(self).committed@.len() - 1) as nat;
                final(self).cache@ == if old(self).cache@.can_cut(n as int) {
                    old(self).cache@.cut_to(n)
                } else {
                    old(self).cache@
                }
            }),
            *final(self) == (Sequence {
                batch_sizes: final(self).batch_sizes,
                steps: final(self).steps,
                drafted: final(self).drafted,
                accepted: final(self).accepted,
                ngram_backoff: final(self).ngram_backoff,
                ngram_hits: final(self).ngram_hits,
                cache: final(self).cache,
                ..*old(self)
            }),
            settled(*old(self), *final(self), batch, drafted, from_ngram, accepted),
    {
        self.batch_sizes = self.batch_sizes.saturating_add(batch);
        self.steps = self.steps.saturating_add(1);
        self.drafted = self.drafted.saturating_add(drafted);
        self.accepted = self.accepted.saturating_add(accepted);
        if from_ngram {
            if accepted == 0 {
                self.ngram_backoff = BACKOFF;
            } else {
                self.ngram_hits = self.ngram_hits.saturating_add(1);
            }
        }
        let n: usize = self.committed.len() - 1;
        if self.cache.can_truncate(n) {
            self.cache.truncate(n);
        }
    }
}

/// `after` is `before` behind a round in a batch of `batch` sequences, of whose draft of `drafted`
/// tokens `accepted` were kept.
pub open spec fn settled<F, B, X>(
    before: Sequence<F, B, X>,
    after: Sequence<F, B, X>,
    batch: usize,
    drafted: usize,
    from_ngram: bool,
    accepted: usize,
) -> bool {
    let n = (before.committed@.len() - 1) as nat;
    &&& after.batch_sizes == sat(before.batch_sizes as int, batch as int)
    &&& after.steps == sat(before.steps as int, 1)
    &&& after.drafted == sat(before.drafted as int, drafted as int)
    &&& after.accepted == sat(before.accepted as int, accepted as int)
    &&& after.ngram_backoff == (if from_ngram && accepted == 0 {
        BACKOFF
    } else {
        before.ngram_backoff
    })
    &&& after.ngram_hits == (if from_ngram && accepted > 0 {
        sat(before.ngram_hits as int, 1)
    } else {
        before.ngram_hits as int
    })
    &&& after.cache@ == (if before.cache@.can_cut(n as int) {
        before.cache@.cut_to(n)
    } else {
        before.cache@
    })
    &&& after == (Sequence {
        batch_sizes: after.batch_sizes,
        steps: after.steps,
        drafted: after.drafted,
        accepted: after.accepted,
        ngram_backoff: after.ngram_backoff,
        ngram_hits: after.ngram_hits,
        cache: after.cache,
        ..before
    })
}

// ---------------------------------------------------------------------------------------
// The batch of a step
// ---------------------------------------------------------------------------------------

/// The items of a pass: the tokens of each row, with the row that they belong to.
pub open spec fn flat(rows: Seq<Seq<u32>>) -> Seq<(u32, usize)>
    decreases rows.len(),
{
    if rows.len() == 0 {
        seq![]
    } else {
        let i = (rows.len() - 1) as usize;
        flat(rows.drop_last()) + rows.last().map_values(|t: u32| (t, i))
    }
}

/// Where the items of row `i` start.
pub open spec fn row_start(rows: Seq<Seq<u32>>, i: int) -> int
    decreases i,
{
    if i <= 0 {
        0
    } else {
        row_start(rows, i - 1) + rows[i - 1].len()
    }
}

/// The contents of the rows.
pub open spec fn contents(rows: Seq<Vec<u32>>) -> Seq<Seq<u32>> {
    rows.map_values(|r: Vec<u32>| r@)
}

/// The items of a pass: the tokens of each row, with the row that they belong to.
pub fn flatten(rows: &Vec<Vec<u32>>) -> (r: Vec<(u32, usize)>)
    ensures
        r@ == flat(contents(rows@)),
{
    let mut out: Vec<(u32, usize)> = Vec::new();
    let ghost all = contents(rows@);
    for i in 0..rows.len()
        invariant
            all == contents(rows@),
            out@ == flat(all.take(i as int)),
    {
        let ghost front = out@;
        let count: usize = rows[i].len();
        for j in 0..count
            invariant
                i < rows@.len(),
                count == rows@[i as int]@.len(),
                out@ == front + rows@[i as int]@.take(j as int).map_values(|t: u32| (t, i)),
        {
            out.push((rows[i][j], i));
            assert(out@ =~= front + rows@[i as int]@.take(j + 1).map_values(|t: u32| (t, i)));
        }
        assert(rows@[i as int]@.take(rows@[i as int]@.len() as int) =~= rows@[i as int]@);
        assert(all.take(i + 1).drop_last() =~= all.take(i as int));
        assert(all.take(i + 1).last() == rows@[i as int]@);
    }
    assert(all.take(all.len() as int) =~= all);
    out
}

/// Where the items of each row start.
pub fn row_starts(rows: &Vec<Vec<u32>>) -> (r: Vec<usize>)
    requires
        row_start(contents(rows@), rows@.len() as int) <= usize::MAX,
    ensures
        r@.len() == rows@.len(),
        forall|i: int| 0 <= i < r@.len() ==> #[trigger] r@[i] == row_start(contents(rows@), i),
{
    let mut out: Vec<usize> = Vec::new();
    let mut at: usize = 0;
    let ghost all = contents(rows@);
    for i in 0..rows.len()
        invariant
            all == contents(rows@),
            row_start(all, rows@.len() as int) <= usize::MAX,
            at == row_start(all, i as int),
            out@.len() == i,
            forall|j: int| 0 <= j < i ==> #[trigger] out@[j] == row_start(all, j),
    {
        out.push(at);
        proof {
            lemma_starts_grow(all, i + 1, all.len() as int);
            assert(all[i as int] == rows@[i as int]@);
        }
        at = at + rows[i].len();
    }
    out
}

/// Rows start one after another.
pub proof fn lemma_starts_grow(rows: Seq<Seq<u32>>, i: int, j: int)
    requires
        0 <= i <= j,
    ensures
        row_start(rows, i) <= row_start(rows, j),
    decreases j - i,
{
    if i < j {
        lemma_starts_grow(rows, i, j - 1);
    }
}

/// `row_start` looks only at the rows before.
pub proof fn lemma_start_front(rows: Seq<Seq<u32>>, i: int)
    requires
        rows.len() > 0,
        0 <= i < rows.len(),
    ensures
        row_start(rows.drop_last(), i) == row_start(rows, i),
    decreases i,
{
    if i > 0 {
        lemma_start_front(rows, i - 1);
    }
}

/// The items of row `i` are exactly those from its start to the start of the next row: the slice of
/// a pass's results that belongs to a sequence is the one of its own tokens, in order.
pub proof fn rows_are_apart(rows: Seq<Seq<u32>>, i: int)
    requires
        0 <= i < rows.len(),
        rows.len() <= usize::MAX,
    ensures
        flat(rows).len() == row_start(rows, rows.len() as int),
        0 <= row_start(rows, i),
        row_start(rows, i + 1) <= flat(rows).len(),
        flat(rows).subrange(row_start(rows, i), row_start(rows, i + 1)) == rows[i].map_values(
            |t: u32| (t, i as usize),
        ),
    decreases rows.len(),
{
    let p = rows.drop_last();
    let n = rows.len() as int;
    lemma_starts_grow(rows, 0, i);
    lemma_start_front(rows, n - 1);
    if n > 1 {
        rows_are_apart(p, 0);
    } else {
        assert(flat(p).len() == 0);
    }
    assert(flat(p).len() == row_start(rows, n - 1));
    assert(flat(rows).len() == row_start(rows, n));
    if i < n - 1 {
        rows_are_apart(p, i);
        lemma_start_front(rows, i);
        lemma_start_front(rows, i + 1);
        lemma_starts_grow(rows, i + 1, n);
        assert(flat(rows).subrange(row_start(rows, i), row_start(rows, i + 1)) =~= flat(
            p,
        ).subrange(row_start(rows, i), row_start(rows, i + 1)));
        assert(p[i] == rows[i]);
    } else {
        assert(flat(rows).subrange(row_start(rows, i), row_start(rows, i + 1)) =~= rows[i].map_values(
            |t: u32| (t, i as usize),
        ));
    }
}

/// Whether some sequence has no draft from prompt lookup.
pub fn needs_model_draft(from_ngram: &[bool]) -> (r: bool)
    ensures
        r == exists|i: int| 0 <= i < from_ngram@.len() && !#[trigger] from_ngram@[i],
{
    for i in 0..from_ngram.len()
        invariant
            forall|j: int| 0 <= j < i ==> #[trigger] from_ngram@[j],
    {
        if !from_ngram[i] {
            return true;
        }
    }
    false
}

/// Whether some draft holds a token: then the pass has to give logits for every item.
pub fn any_draft(drafts: &Vec<Vec<u32>>) -> (r: bool)
    ensures
        r == exists|i: int| 0 <= i < drafts@.len() && (#[trigger] drafts@[i])@.len() > 0,
{
    for i in 0..drafts.len()
        invariant
            forall|j: int| 0 <= j < i ==> (#[trigger] drafts@[j])@.len() == 0,
    {
        if drafts[i].len() > 0 {
            return true;
        }
    }
    false
}

/// What becomes of round `round` of the draft model, where `spec_k` tokens are to be drafted:
/// whether its tokens are kept, and whether another round follows.
pub fn draft_round(round: usize, spec_k: usize) -> (r: (bool, bool))
    ensures
        r.0 == (round < spec_k),
        r.1 == (round + 1 < spec_k),
{
    (round < spec_k, round < spec_k && spec_k - round > 1)
}

/// Adds the draft model's token of each sequence to its draft, unless prompt lookup gave it one.
pub fn extend_drafts(drafts: &mut Vec<Vec<u32>>, from_ngram: &[bool], tokens: &[u32])
    requires
        old(drafts)@.len() == from_ngram@.len() == tokens@.len(),
    ensures
        final(drafts)@.len() == old(drafts)@.len(),
        forall|i: int|
            0 <= i < tokens@.len() ==> (#[trigger] final(drafts)@[i])@ == (if from_ngram@[i] {
                old(drafts)@[i]@
            } else {
                old(drafts)@[i]@.push(tokens@[i])
            }),
{
    for i in 0..tokens.len()
        invariant
            drafts@.len() == old(drafts)@.len() == from_ngram@.len() == tokens@.len(),
            forall|j: int|
                0 <= j < i ==> (#[trigger] drafts@[j])@ == (if from_ngram@[j] {
                    old(drafts)@[j]@
                } else {
                    old(drafts)@[j]@.push(tokens@[j])
                }),
            forall|j: int| i <= j < tokens@.len() ==> #[trigger] drafts@[j] == old(drafts)@[j],
    {
        if !from_ngram[i] {
            drafts[i].push(tokens[i]);
        }
    }
}

// ---------------------------------------------------------------------------------------
// Laws of a round
// ---------------------------------------------------------------------------------------

/// The tokens of a round are its start and the draft's tokens up to the next row.
pub open spec fn in_step(l: Line, base: Seq<u32>, draft: Seq<u32>) -> bool {
    &&& 0 <= l.row <= draft.len()
    &&& l.accepted == l.row
    &&& l.open ==> l.finished is None && l.committed == base + draft.take(l.row)
}

/// A fresh round is in step.
pub proof fn fresh_in_step(base: Seq<u32>, generated: int, draft: Seq<u32>)
    ensures
        in_step(fresh(base, generated), base, draft),
{
    assert(base + draft.take(0) =~= base);
}

/// A round stays in step: whenever a row is sampled, the tokens that the pass saw for that row (the
/// start of the round and the draft before the row) are exactly the tokens committed so far. So no
/// token is ever committed behind a context other than the one it was computed for.
pub proof fn judging_stays_in_step(
    l: Line,
    stop_ids: Seq<u32>,
    max_tokens: int,
    base: Seq<u32>,
    draft: Seq<u32>,
    t: u32,
    delivered: bool,
)
    requires
        l.open,
        in_step(l, base, draft),
    ensures
        in_step(judged(l, stop_ids, max_tokens, draft, t, delivered), base, draft),
        judged(l, stop_ids, max_tokens, draft, t, delivered).committed == (base + draft.take(
            l.row,
        )).push(t),
{
    let m = judged(l, stop_ids, max_tokens, draft, t, delivered);
    if m.open {
        assert(m.committed =~= base + draft.take(m.row));
    }
}

/// `n` steps without drafts, each taking the token that `next` gives for the tokens so far, or
/// fewer where the sequence ends.
pub open spec fn plain(
    stop_ids: Seq<u32>,
    max_tokens: int,
    next: spec_fn(Seq<u32>) -> u32,
    committed: Seq<u32>,
    generated: int,
    n: nat,
) -> Line
    decreases n,
{
    if n == 0 {
        fresh(committed, generated)
    } else {
        let l = judged(
            fresh(committed, generated),
            stop_ids,
            max_tokens,
            seq![],
            next(committed),
            true,
        );
        if l.finished is Some || n == 1 {
            l
        } else {
            plain(stop_ids, max_tokens, next, l.committed, l.generated, (n - 1) as nat)
        }
    }
}

/// The rest of a round in which each row gives the token of `next` for what the pass saw.
pub open spec fn speculative(
    l: Line,
    stop_ids: Seq<u32>,
    max_tokens: int,
    next: spec_fn(Seq<u32>) -> u32,
    base: Seq<u32>,
    draft: Seq<u32>,
) -> Line
    decreases draft.len() - l.row + (if l.open {
        1int
    } else {
        0
    }),
{
    if !l.open || l.row > draft.len() {
        l
    } else {
        let m = judged(l, stop_ids, max_tokens, draft, next(base + draft.take(l.row)), true);
        if m.open && m.row > draft.len() {
            m
        } else {
            speculative(m, stop_ids, max_tokens, next, base, draft)
        }
    }
}

/// Two lines hold the same tokens and ended alike.
pub open spec fn same_tokens(a: Line, b: Line) -> bool {
    a.committed == b.committed && a.generated == b.generated && a.finished == b.finished
}

/// From any point of a round on, the round commits what plain decoding commits.
proof fn lemma_rest_is_plain(
    l: Line,
    stop_ids: Seq<u32>,
    max_tokens: int,
    next: spec_fn(Seq<u32>) -> u32,
    base: Seq<u32>,
    draft: Seq<u32>,
) -> (n: nat)
    requires
        l.open,
        in_step(l, base, draft),
    ensures
        1 <= n <= draft.len() - l.row + 1,
        same_tokens(
            speculative(l, stop_ids, max_tokens, next, base, draft),
            plain(stop_ids, max_tokens, next, l.committed, l.generated, n),
        ),
    decreases draft.len() - l.row,
{
    let t = next(base + draft.take(l.row));
    let m = judged(l, stop_ids, max_tokens, draft, t, true);
    judging_stays_in_step(l, stop_ids, max_tokens, base, draft, t, true);
    let one = judged(
        fresh(l.committed, l.generated),
        stop_ids,
        max_tokens,
        seq![],
        next(l.committed),
        true,
    );
    assert(one.committed == m.committed && one.generated == m.generated && one.finished
        == m.finished);
    if m.open {
        let k = lemma_rest_is_plain(m, stop_ids, max_tokens, next, base, draft);
        k + 1
    } else {
        assert(speculative(m, stop_ids, max_tokens, next, base, draft) == m);
        1
    }
}

/// Drafts do not change what is generated: whatever the draft, a round in which every row is
/// sampled by a rule that looks at the tokens so far commits the tokens, and ends as, some number
/// of steps without drafts does. At least one step, and at most one more than the draft is long.
pub proof fn drafts_change_nothing(
    stop_ids: Seq<u32>,
    max_tokens: int,
    next: spec_fn(Seq<u32>) -> u32,
    base: Seq<u32>,
    generated: int,
    draft: Seq<u32>,
)
    ensures
        exists|n: nat|
            1 <= n <= draft.len() + 1 && same_tokens(
                speculative(fresh(base, generated), stop_ids, max_tokens, next, base, draft),
                #[trigger] plain(stop_ids, max_tokens, next, base, generated, n),
            ),
{
    fresh_in_step(base, generated, draft);
    let n = lemma_rest_is_plain(
        fresh(base, generated),
        stop_ids,
        max_tokens,
        next,
        base,
        draft,
    );
    assert(same_tokens(
        speculative(fresh(base, generated), stop_ids, max_tokens, next, base, draft),
        plain(stop_ids, max_tokens, next, base, generated, n),
    ));
}

/// The rounds of a request, one for each of `drafts`, or fewer where the sequence ends: each round
/// begins with the tokens that the one before it committed.
pub open spec fn served(
    stop_ids: Seq<u32>,
    max_tokens: int,
    next: spec_fn(Seq<u32>) -> u32,
    committed: Seq<u32>,
    generated: int,
    drafts: Seq<Seq<u32>>,
) -> Line
    decreases drafts.len(),
{
    if drafts.len() == 0 {
        fresh(committed, generated)
    } else {
        let l = speculative(
            fresh(committed, generated),
            stop_ids,
            max_tokens,
            next,
            committed,
            drafts[0],
        );
        if l.finished is Some || drafts.len() == 1 {
            l
        } else {
            served(
                stop_ids,
                max_tokens,
                next,
                l.committed,
                l.generated,
                drafts.drop_first(),
            )
        }
    }
}

/// Steps without drafts go on where they stopped.
proof fn lemma_plain_goes_on(
    stop_ids: Seq<u32>,
    max_tokens: int,
    next: spec_fn(Seq<u32>) -> u32,
    committed: Seq<u32>,
    generated: int,
    n: nat,
    m: nat,
)
    requires
        n >= 1,
        m >= 1,
        plain(stop_ids, max_tokens, next, committed, generated, n).finished is None,
    ensures
        ({
            let l = plain(stop_ids, max_tokens, next, committed, generated, n);
            plain(stop_ids, max_tokens, next, committed, generated, n + m) == plain(
                stop_ids,
                max_tokens,
                next,
                l.committed,
                l.generated,
                m,
            )
        }),
    decreases n,
{
    let one = judged(
        fresh(committed, generated),
        stop_ids,
        max_tokens,
        seq![],
        next(committed),
        true,
    );
    if n > 1 {
        lemma_plain_goes_on(
            stop_ids,
            max_tokens,
            next,
            one.committed,
            one.generated,
            (n - 1) as nat,
            m,
        );
        assert((n - 1) as nat + m == (n + m - 1) as nat);
    }
}

/// Further steps without drafts change nothing of a sequence that has ended.
proof fn lemma_plain_ends_once(
    stop_ids: Seq<u32>,
    max_tokens: int,
    next: spec_fn(Seq<u32>) -> u32,
    committed: Seq<u32>,
    generated: int,
    n: nat,
    m: nat,
)
    requires
        1 <= n <= m,
        plain(stop_ids, max_tokens, next, committed, generated, n).finished is Some,
    ensures
        plain(stop_ids, max_tokens, next, committed, generated, m) == plain(
            stop_ids,
            max_tokens,
            next,
            committed,
            generated,
            n,
        ),
    decreases n,
{
    let one = judged(
        fresh(committed, generated),
        stop_ids,
        max_tokens,
        seq![],
        next(committed),
        true,
    );
    if one.finished is None {
        lemma_plain_ends_once(
            stop_ids,
            max_tokens,
            next,
            one.committed,
            one.generated,
            (n - 1) as nat,
            (m - 1) as nat,
        );
    }
}

/// A sequence that goes on after `n` steps without drafts has `n` tokens more, and not all.
proof fn lemma_plain_counts(
    stop_ids: Seq<u32>,
    max_tokens: int,
    next: spec_fn(Seq<u32>) -> u32,
    committed: Seq<u32>,
    generated: int,
    n: nat,
)
    requires
        n >= 1,
        plain(stop_ids, max_tokens, next, committed, generated, n).finished is None,
    ensures
        plain(stop_ids, max_tokens, next, committed, generated, n).generated == generated + n,
        generated + n < max_tokens,
    decreases n,
{
    let one = judged(
        fresh(committed, generated),
        stop_ids,
        max_tokens,
        seq![],
        next(committed),
        true,
    );
    if n > 1 {
        lemma_plain_counts(
            stop_ids,
            max_tokens,
            next,
            one.committed,
            one.generated,
            (n - 1) as nat,
        );
    }
}

/// The rounds of a request commit what steps without drafts commit, at least one for each round.
proof fn lemma_served_is_plain(
    stop_ids: Seq<u32>,
    max_tokens: int,
    next: spec_fn(Seq<u32>) -> u32,
    committed: Seq<u32>,
    generated: int,
    drafts: Seq<Seq<u32>>,
) -> (n: nat)
    requires
        drafts.len() >= 1,
    ensures
        n >= 1,
        ({
            let l = served(stop_ids, max_tokens, next, committed, generated, drafts);
            &&& same_tokens(l, plain(stop_ids, max_tokens, next, committed, generated, n))
            &&& l.finished is None ==> n >= drafts.len()
        }),
    decreases drafts.len(),
{
    drafts_change_nothing(stop_ids, max_tokens, next, committed, generated, drafts[0]);
    let l = speculative(
        fresh(committed, generated),
        stop_ids,
        max_tokens,
        next,
        committed,
        drafts[0],
    );
    let a = choose|n: nat|
        1 <= n <= drafts[0].len() + 1 && same_tokens(
            l,
            #[trigger] plain(stop_ids, max_tokens, next, committed, generated, n),
        );
    if l.finished is Some || drafts.len() == 1 {
        a
    } else {
        let b = lemma_served_is_plain(
            stop_ids,
            max_tokens,
            next,
            l.committed,
            l.generated,
            drafts.drop_first(),
        );
        lemma_plain_goes_on(stop_ids, max_tokens, next, committed, generated, a, b);
        a + b
    }
}

/// Speculation changes nothing over a whole request: whatever the drafts of its rounds, a request
/// whose tokens are sampled by a rule that looks at the tokens so far ends with the same tokens and
/// for the same reason. Drafts that are all empty are decoding without speculation.
pub proof fn speculation_changes_nothing(
    stop_ids: Seq<u32>,
    max_tokens: int,
    next: spec_fn(Seq<u32>) -> u32,
    committed: Seq<u32>,
    generated: int,
    drafts: Seq<Seq<u32>>,
    others: Seq<Seq<u32>>,
)
    requires
        served(stop_ids, max_tokens, next, committed, generated, drafts).finished is Some,
        served(stop_ids, max_tokens, next, committed, generated, others).finished is Some,
    ensures
        same_tokens(
            served(stop_ids, max_tokens, next, committed, generated, drafts),
            served(stop_ids, max_tokens, next, committed, generated, others),
        ),
{
    let a = lemma_served_is_plain(stop_ids, max_tokens, next, committed, generated, drafts);
    let b = lemma_served_is_plain(stop_ids, max_tokens, next, committed, generated, others);
    if a <= b {
        lemma_plain_ends_once(stop_ids, max_tokens, next, committed, generated, a, b);
    } else {
        lemma_plain_ends_once(stop_ids, max_tokens, next, committed, generated, b, a);
    }
}

/// Every request ends: after as many rounds as tokens are left to generate, whatever the drafts.
pub proof fn requests_end(
    stop_ids: Seq<u32>,
    max_tokens: int,
    next: spec_fn(Seq<u32>) -> u32,
    committed: Seq<u32>,
    generated: int,
    drafts: Seq<Seq<u32>>,
)
    requires
        drafts.len() >= 1,
        drafts.len() >= max_tokens - generated,
    ensures
        served(stop_ids, max_tokens, next, committed, generated, drafts).finished is Some,
{
    let n = lemma_served_is_plain(stop_ids, max_tokens, next, committed, generated, drafts);
    if served(stop_ids, max_tokens, next, committed, generated, drafts).finished is None {
        lemma_plain_counts(stop_ids, max_tokens, next, committed, generated, n);
    }
}

/// What a client that stays is told of a request: the tokens, and why they end, if they do. The first
/// token comes from the prompt's own pass, the others from rounds with `drafts`. `next` is the
/// token that is sampled behind given tokens; since a sampler is asked once for each token, its
/// random numbers follow from how many tokens there are.
pub open spec fn answered(
    req: Request,
    next: spec_fn(Seq<u32>) -> u32,
    drafts: Seq<Seq<u32>>,
) -> (Seq<u32>, Option<Finish>) {
    let (prompt, stop_ids, max_tokens) = (
        req.prompt_ids@,
        req.stop_ids@,
        req.max_tokens as int,
    );
    let first = next(prompt);
    match outcome(stop_ids, max_tokens, 0, first, true) {
        Some(why) => (seq![first].take(counted(stop_ids, 0, first, true)), Some(why)),
        None => {
            let l = served(stop_ids, max_tokens, next, prompt.push(first), 1, drafts);
            (l.committed.skip(prompt.len() as int).take(l.generated), l.finished)
        },
    }
}

/// Speculation changes speed, never output: a request that is served to its end is answered with
/// the same tokens and for the same reason, whatever the drafts of its rounds, and a request that
/// has as many rounds as tokens were asked for is served to its end.
pub proof fn answers_do_not_depend_on_drafts(
    req: Request,
    next: spec_fn(Seq<u32>) -> u32,
    drafts: Seq<Seq<u32>>,
    others: Seq<Seq<u32>>,
)
    ensures
        answered(req, next, drafts).1 is Some && answered(req, next, others).1 is Some
            ==> answered(req, next, drafts) == answered(req, next, others),
        drafts.len() >= req.max_tokens && drafts.len() > 0 ==> answered(
            req,
            next,
            drafts,
        ).1 is Some,
{
    let (prompt, stop_ids, max_tokens) = (
        req.prompt_ids@,
        req.stop_ids@,
        req.max_tokens as int,
    );
    let first = next(prompt);
    if outcome(stop_ids, max_tokens, 0, first, true) is None {
        let base = prompt.push(first);
        if drafts.len() >= max_tokens && drafts.len() > 0 {
            requests_end(stop_ids, max_tokens, next, base, 1, drafts);
        }
        if answered(req, next, drafts).1 is Some && answered(req, next, others).1 is Some {
            speculation_changes_nothing(
                stop_ids,
                max_tokens,
                next,
                base,
                1,
                drafts,
                others,
            );
        }
    }
}

/// A round in progress: it began with tokens `base`, of which `before` were generated.
pub open spec fn underway(
    l: Line,
    max_tokens: int,
    base: Seq<u32>,
    before: int,
    draft: Seq<u32>,
) -> bool {
    &&& in_step(l, base, draft)
    &&& text::begins_with(l.committed, base)
    &&& l.finished is None ==> {
        &&& l.committed.len() - base.len() == l.generated - before
        &&& 0 < l.generated < max_tokens
    }
    &&& l.committed.len() <= base.len() + draft.len() + 1
    &&& l.open ==> l.committed.len() == base.len() + l.row
}

/// Every judged token keeps a round underway.
pub proof fn judging_stays_underway(
    l: Line,
    stop_ids: Seq<u32>,
    max_tokens: int,
    base: Seq<u32>,
    before: int,
    draft: Seq<u32>,
    t: u32,
    delivered: bool,
)
    requires
        l.open,
        underway(l, max_tokens, base, before, draft),
    ensures
        underway(
            judged(l, stop_ids, max_tokens, draft, t, delivered),
            max_tokens,
            base,
            before,
            draft,
        ),
{
    judging_stays_in_step(l, stop_ids, max_tokens, base, draft, t, delivered);
    let m = judged(l, stop_ids, max_tokens, draft, t, delivered);
    assert(m.committed.take(base.len() as int) =~= l.committed.take(base.len() as int));
}

/// A sequence that goes on after a round is well formed again: its state, which the pass extended
/// by its last token and its draft, is rolled back to all tokens but the last. A state that cannot
/// be rolled back stays in step as long as it was given no draft.
pub proof fn rounds_keep_sequences<F, B, X>(
    start: Sequence<F, B, X>,
    end: Sequence<F, B, X>,
    passed: kv::KvRows<F, B>,
    l: Line,
    draft: Seq<u32>,
)
    requires
        start.wf(),
        passed.len() == start.cache@.len() + 1 + draft.len(),
        !passed.can_cut((l.committed.len() - 1) as int) ==> draft.len() == 0,
        underway(
            l,
            start.req.max_tokens as int,
            start.committed@,
            start.generated as int,
            draft,
        ),
        !l.open,
        l.finished is None,
        end.req == start.req,
        end.committed@ == l.committed,
        end.generated == l.generated,
        l.committed.len() > start.committed@.len(),
        l.committed.len() <= usize::MAX,
        end.cache@ == (if passed.can_cut((l.committed.len() - 1) as int) {
            passed.cut_to((l.committed.len() - 1) as nat)
        } else {
            passed
        }),
    ensures
        end.wf(),
{
    let prompt = start.req.prompt_ids@;
    let n = prompt.len() as int;
    assert(end.committed@.take(n) =~= end.committed@.take(start.committed@.len() as int).take(n));
    assert(start.committed@.take(n) == prompt);
}

/// What is generated follows from the model alone: from `base` on, each token is what `next` gives
/// for the tokens before it.
pub open spec fn follows(next: spec_fn(Seq<u32>) -> u32, base: Seq<u32>, c: Seq<u32>) -> bool {
    &&& base.len() <= c.len()
    &&& c.take(base.len() as int) == base
    &&& forall|p: int| base.len() <= p < c.len() ==> #[trigger] c[p] == next(c.take(p))
}

/// What steps without drafts leave: the model's tokens, none of them a stop token but the last of a
/// sequence that stopped, and as many as the count says.
proof fn lemma_plain_follows(
    stop_ids: Seq<u32>,
    max_tokens: int,
    next: spec_fn(Seq<u32>) -> u32,
    committed: Seq<u32>,
    generated: int,
    n: nat,
)
    requires
        n >= 1,
    ensures
        ({
            let l = plain(stop_ids, max_tokens, next, committed, generated, n);
            let k = l.committed.len() - committed.len();
            &&& follows(next, committed, l.committed)
            &&& k >= 1
            &&& k == 1 || generated + k - 1 < max_tokens
            &&& forall|p: int|
                committed.len() <= p < l.committed.len() - 1 ==> !stop_ids.contains(
                    #[trigger] l.committed[p],
                )
            &&& match l.finished {
                Some(Finish::Stop) => stop_ids.contains(l.committed.last()) && l.generated
                    == generated + k - 1,
                Some(Finish::Length) => !stop_ids.contains(l.committed.last()) && l.generated
                    == generated + k && l.generated >= max_tokens,
                Some(Finish::Disconnected) => false,
                None => !stop_ids.contains(l.committed.last()) && l.generated == generated + k
                    && l.generated < max_tokens,
            }
        }),
    decreases n,
{
    let one = judged(
        fresh(committed, generated),
        stop_ids,
        max_tokens,
        seq![],
        next(committed),
        true,
    );
    let t = next(committed);
    assert(one.committed == committed.push(t));
    assert(one.committed.take(committed.len() as int) =~= committed);
    if one.finished is None && n > 1 {
        lemma_plain_follows(
            stop_ids,
            max_tokens,
            next,
            one.committed,
            one.generated,
            (n - 1) as nat,
        );
        let l = plain(stop_ids, max_tokens, next, committed, generated, n);
        let m = committed.len() as int;
        assert(l.committed.take(m + 1) == one.committed);
        assert(l.committed.take(m) =~= l.committed.take(m + 1).take(m));
        assert(l.committed[m] == l.committed.take(m + 1)[m]);
    }
}

/// What a client is told is what the model says, and no more than was asked for: each token is what
/// the model gives behind the prompt and the tokens before it, none is a stop token, and there are
/// never more than were asked for (but always the first). An answer that stopped did so because the
/// model gave a stop token next; one that ended for its length has exactly the tokens asked for; a
/// client that stays is never said to be gone. Drafts play no part in any of this.
pub proof fn answers_are_the_models(
    req: Request,
    next: spec_fn(Seq<u32>) -> u32,
    drafts: Seq<Seq<u32>>,
)
    ensures
        ({
            let (tokens, why) = answered(req, next, drafts);
            let most = if req.max_tokens > 1 {
                req.max_tokens as int
            } else {
                1
            };
            &&& forall|i: int|
                0 <= i < tokens.len() ==> #[trigger] tokens[i] == next(
                    req.prompt_ids@ + tokens.take(i),
                )
            &&& forall|i: int|
                0 <= i < tokens.len() ==> !req.stop_ids@.contains(#[trigger] tokens[i])
            &&& tokens.len() <= most
            &&& why == Some(Finish::Stop) ==> req.stop_ids@.contains(
                next(req.prompt_ids@ + tokens),
            )
            &&& why == Some(Finish::Length) ==> tokens.len() == most
            &&& why != Some(Finish::Disconnected)
            &&& why is None ==> tokens.len() < req.max_tokens
        }),
{
    let (prompt, stop_ids, max_tokens) = (
        req.prompt_ids@,
        req.stop_ids@,
        req.max_tokens as int,
    );
    let first = next(prompt);
    let (tokens, why) = answered(req, next, drafts);
    let n = prompt.len() as int;
    assert(prompt + Seq::<u32>::empty() =~= prompt);
    if outcome(stop_ids, max_tokens, 0, first, true) is Some {
        assert(seq![first].take(0) =~= Seq::<u32>::empty());
        assert(seq![first].take(1) =~= seq![first]);
        assert(seq![first].take(1).take(0) =~= Seq::<u32>::empty());
        assert(tokens.len() == 0 ==> prompt + tokens =~= prompt);
    } else {
        let base = prompt.push(first);
        let l = served(stop_ids, max_tokens, next, base, 1, drafts);
        if drafts.len() == 0 {
            assert(l.committed.skip(n) =~= seq![first]);
            assert(tokens =~= seq![first]);
            assert(tokens.take(0) =~= Seq::<u32>::empty());
        } else {
            let k = lemma_served_is_plain(stop_ids, max_tokens, next, base, 1, drafts);
            lemma_plain_follows(stop_ids, max_tokens, next, base, 1, k);
            let all = l.committed;
            assert(all.take(n + 1) == base);
            assert(all.take(n) =~= all.take(n + 1).take(n));
            assert(base.take(n) =~= prompt);
            assert(all[n] == all.take(n + 1)[n]);
            assert forall|i: int| 0 <= i < tokens.len() implies #[trigger] tokens[i] == next(
                prompt + tokens.take(i),
            ) && !stop_ids.contains(tokens[i]) by {
                assert(tokens[i] == all[n + i]);
                assert(prompt + tokens.take(i) =~= all.take(n + i)) by {
                    assert forall|p: int| 0 <= p < n implies all[p] == prompt[p] by {
                        assert(all[p] == all.take(n)[p]);
                    }
                }
            }
            if why == Some(Finish::Stop) {
                assert(prompt + tokens =~= all.take(all.len() - 1)) by {
                    assert forall|p: int| 0 <= p < n implies all[p] == prompt[p] by {
                        assert(all[p] == all.take(n)[p]);
                    }
                }
            }
        }
    }
}

/// A client that is gone ends its sequence at the next token, whatever that is, and is not counted
/// to have it.
pub proof fn gone_clients_end_sequences(
    l: Line,
    stop_ids: Seq<u32>,
    max_tokens: int,
    draft: Seq<u32>,
    t: u32,
)
    ensures
        ({
            let m = judged(l, stop_ids, max_tokens, draft, t, false);
            m.finished is Some && !m.open && m.generated == l.generated && m.accepted == l.accepted
        }),
{
}

/// Drafting needs a state that can be rolled back; lookup is on wherever there is one and it was not
/// switched off, and a draft model is used wherever there is one too. What was asked for is
/// followed.
pub proof fn drafting_needs_rollback(
    s: Settings,
    rollback: bool,
    has_draft: bool,
    spec_k: Option<usize>,
    ngram_n: Option<usize>,
    ngram_k: Option<usize>,
    ngram: Option<Seq<char>>,
)
    requires
        chosen(s, rollback, has_draft, spec_k, ngram_n, ngram_k, ngram),
    ensures
        !rollback ==> never_drafts(s),
        !has_draft ==> s.spec_k == 0,
        ngram == Some("0"@) ==> !s.ngram_on,
        rollback && ngram is None ==> s.ngram_on,
        rollback && has_draft ==> (spec_k matches Some(n) ==> s.spec_k == n),
        ngram_n matches Some(n) ==> s.ngram_n == n,
        ngram_k matches Some(n) ==> s.ngram_k == n,
{
}

/// What a pass is fed continues what the state holds: the tokens of the state and the first tokens of
/// the row are the sequence and the draft so far, so that each row of results is for the context
/// that it is judged by.
pub proof fn rows_continue_sequences(committed: Seq<u32>, draft: Seq<u32>, k: int)
    requires
        committed.len() > 0,
        0 <= k <= draft.len(),
    ensures
        fed(committed, draft).len() == draft.len() + 1,
        committed.drop_last() + fed(committed, draft).take(k + 1) == committed + draft.take(k),
{
    assert(committed.drop_last() + fed(committed, draft).take(k + 1) =~= committed + draft.take(k));
}

/// A round ends with the state of all tokens but the last, wherever it can be rolled back there, and
/// with the tokens as they are. A lookup of which nothing was kept is sat out for three steps; one
/// of which something was kept is counted.
pub proof fn rounds_end_in_step<F, B, X>(
    before: Sequence<F, B, X>,
    after: Sequence<F, B, X>,
    batch: usize,
    drafted: usize,
    from_ngram: bool,
    accepted: usize,
)
    requires
        settled(before, after, batch, drafted, from_ngram, accepted),
        before.committed@.len() > 0,
    ensures
        ({
            let n = before.committed@.len() - 1;
            &&& before.cache@.can_cut(n) && before.cache@.len() >= n ==> after.cache@.len() == n
            &&& !before.cache@.can_cut(n) ==> after.cache@ == before.cache@
        }),
        after.committed@ == before.committed@,
        after.generated == before.generated,
        after.req == before.req,
        from_ngram && accepted == 0 ==> after.ngram_backoff == 3,
        !(from_ngram && accepted == 0) ==> after.ngram_backoff == before.ngram_backoff,
        from_ngram && accepted > 0 && before.ngram_hits < usize::MAX ==> after.ngram_hits
            == before.ngram_hits + 1,
        !(from_ngram && accepted > 0) ==> after.ngram_hits == before.ngram_hits,
        before.steps < usize::MAX ==> after.steps == before.steps + 1,
        before.drafted + drafted <= usize::MAX ==> after.drafted == before.drafted + drafted,
        before.accepted + accepted <= usize::MAX ==> after.accepted == before.accepted + accepted,
        before.batch_sizes + batch <= usize::MAX ==> after.batch_sizes == before.batch_sizes
            + batch,
{
}

/// The reasons for an end have the names of the protocol, and different reasons different names.
pub proof fn reasons_have_their_names(f: Finish, g: Finish)
    ensures
        f is Stop ==> finish_name(f) == "stop"@,
        f is Length ==> finish_name(f) == "length"@,
        f != g ==> finish_name(f) != finish_name(g),
{
    reveal_strlit("stop");
    reveal_strlit("length");
    reveal_strlit("disconnected");
    assert("stop"@.len() == 4 && "length"@.len() == 6 && "disconnected"@.len() == 12);
}

} // verus!
