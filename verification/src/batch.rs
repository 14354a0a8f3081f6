//! The sequences that are generated together, and what each phase of a step does to them.

use vstd::prelude::*;

use crate::draft;
use crate::scheduler;
use crate::scheduler::{Finish, Sequence, Settings, MAX_BATCH};

verus! {

/// The active sequences.
pub struct Batch<F, B, X> {
    pub active: Vec<Sequence<F, B, X>>,
    pub settings: Settings,
}

/// What prompt lookup does to one sequence: `after` and the draft `d` follow from `before`.
pub open spec fn looked_up<F, B, X>(
    before: Sequence<F, B, X>,
    after: Sequence<F, B, X>,
    settings: Settings,
    d: Seq<u32>,
    found: bool,
) -> bool {
    let draft = if found {
        Some(d)
    } else {
        None
    };
    &&& !found ==> d.len() == 0
    &&& if !settings.ngram_on {
        !found && after == before
    } else if before.ngram_backoff > 0 {
        !found && after == (Sequence {
            ngram_backoff: (before.ngram_backoff - 1) as u32,
            ..before
        })
    } else {
        &&& draft::drafted(
            before.committed@,
            settings.ngram_n as int,
            settings.ngram_k as int,
            draft,
        )
        &&& after.ngram_tries == (if found {
            scheduler::sat(before.ngram_tries as int, 1)
        } else {
            before.ngram_tries as int
        })
        &&& after == (Sequence { ngram_tries: after.ngram_tries, ..before })
    }
}

/// The draft state can be rolled back as far as it has to be.
pub open spec fn can_resync<F, B, X>(s: Sequence<F, B, X>) -> bool {
    let need = s.committed@.len() - 1;
    s.draft_cache@.len > need ==> s.draft_cache@.can_cut(need)
}

/// `after` is `before` with its draft state rolled back to at most all tokens but the last; `row`
/// is the tokens that it lacks.
pub open spec fn resynced<F, B, X>(
    before: Sequence<F, B, X>,
    after: Sequence<F, B, X>,
    row: Seq<u32>,
) -> bool {
    let need = (before.committed@.len() - 1) as nat;
    let d = if before.draft_cache@.len > need {
        before.draft_cache@.cut_to(need)
    } else {
        before.draft_cache@
    };
    &&& after.draft_cache@ == d
    &&& row == before.committed@.skip(d.len as int)
    &&& row.len() > 0
    &&& after == (Sequence { draft_cache: after.draft_cache, ..before })
}

/// The sequences that go on.
pub open spec fn staying<F, B, X>(
    s: Seq<Sequence<F, B, X>>,
    ends: Seq<Option<Finish>>,
) -> Seq<Sequence<F, B, X>>
    decreases s.len(),
{
    if s.len() == 0 {
        seq![]
    } else {
        let front = staying(s.drop_last(), ends.drop_last());
        match ends.last() {
            Some(_) => front,
            None => front.push(s.last()),
        }
    }
}

/// The sequences that end, with the reason.
pub open spec fn leaving<F, B, X>(
    s: Seq<Sequence<F, B, X>>,
    ends: Seq<Option<Finish>>,
) -> Seq<(Sequence<F, B, X>, Finish)>
    decreases s.len(),
{
    if s.len() == 0 {
        seq![]
    } else {
        let front = leaving(s.drop_last(), ends.drop_last());
        match ends.last() {
            Some(f) => front.push((s.last(), f)),
            None => front,
        }
    }
}

impl<F, B, X> Batch<F, B, X> {
    /// No more sequences than a pass takes, each in the midst of generation.
    pub open spec fn wf(self) -> bool {
        &&& self.active@.len() <= MAX_BATCH
        &&& forall|i: int| 0 <= i < self.active@.len() ==> (#[trigger] self.active@[i]).wf()
    }

    /// A batch of no sequences.
    pub fn new(settings: Settings) -> (r: Self)
        ensures
            r.active@.len() == 0,
            r.settings == settings,
            r.wf(),
    {
        Batch { active: Vec::new(), settings }
    }

    /// Takes in a sequence with the first token that its prompt gave. Where that token ends it, the
    /// sequence comes back with the reason.
    pub fn join(&mut self, s: Sequence<F, B, X>, first: u32, delivered: bool) -> (r: Option<
        (Sequence<F, B, X>, Finish),
    >)
        requires
            old(self).wf(),
            old(self).active@.len() < MAX_BATCH,
            s.generated == 0,
            s.committed@ == s.req.prompt_ids@,
            s.req.prompt_ids@.len() > 0,
            s.cache@.len() == s.committed@.len(),
        ensures
            final(self).wf(),
            final(self).settings == old(self).settings,
            match scheduler::outcome(
                s.req.stop_ids@,
                s.req.max_tokens as int,
                0,
                first,
                delivered,
            ) {
                Some(why) => {
                    &&& final(self).active@ == old(self).active@
                    &&& r matches Some((e, f)) && f == why && e.committed@
                        == s.committed@ && e.generated == scheduler::counted(
                        s.req.stop_ids@,
                        0,
                        first,
                        delivered,
                    ) && e == (Sequence { generated: e.generated, committed: e.committed, ..s })
                },
                None => {
                    &&& r is None
                    &&& final(self).active@.len() == old(self).active@.len() + 1
                    &&& final(self).active@.drop_last() == old(self).active@
                    &&& ({
                        let e = final(self).active@.last();
                        &&& e.committed@ == s.committed@.push(first)
                        &&& e.generated == 1
                        &&& e == (Sequence { generated: e.generated, committed: e.committed, ..s })
                    })
                },
            },
    {
        let mut s = s;
        match s.first_token(first, delivered) {
            Some(f) => Some((s, f)),
            None => {
                self.active.push(s);
                assert(self.active@.drop_last() =~= old(self).active@);
                None
            },
        }
    }

    /// Looks up a draft for every sequence: the drafts, empty where there is none, and whether one
    /// was found.
    pub fn look_up(&mut self) -> (r: (Vec<Vec<u32>>, Vec<bool>))
        requires
            old(self).wf(),
        ensures
            final(self).wf(),
            final(self).settings == old(self).settings,
            final(self).active@.len() == old(self).active@.len() == r.0@.len() == r.1@.len(),
            forall|i: int|
                0 <= i < old(self).active@.len() ==> looked_up(
                    #[trigger] old(self).active@[i],
                    final(self).active@[i],
                    old(self).settings,
                    r.0@[i]@,
                    r.1@[i],
                ),
            !old(self).settings.ngram_on ==> final(self).active@ == old(self).active@,
            forall|i: int|
                0 <= i < r.0@.len() && !old(self).settings.ngram_on ==> (#[trigger] r.0@[i])@.len()
                    == 0,
            forall|i: int|
                0 <= i < r.1@.len() && !old(self).settings.ngram_on ==> !#[trigger] r.1@[i],
    {
        let mut drafts: Vec<Vec<u32>> = Vec::new();
        let mut found: Vec<bool> = Vec::new();
        let (on, n, k): (bool, usize, usize) = (
            self.settings.ngram_on,
            self.settings.ngram_n,
            self.settings.ngram_k,
        );
        let total: usize = self.active.len();
        for i in 0..total
            invariant
                self.settings == old(self).settings,
                on == self.settings.ngram_on,
                n == self.settings.ngram_n,
                k == self.settings.ngram_k,
                old(self).wf(),
                total == self.active@.len() == old(self).active@.len(),
                drafts@.len() == i,
                found@.len() == i,
                forall|j: int|
                    0 <= j < i ==> looked_up(
                        #[trigger] old(self).active@[j],
                        self.active@[j],
                        self.settings,
                        drafts@[j]@,
                        found@[j],
                    ),
                forall|j: int|
                    i <= j < total ==> #[trigger] self.active@[j] == old(self).active@[j],
        {
            let mut d: Option<Vec<u32>> = None;
            if on {
                d = self.active[i].lookup_draft(n, k);
            }
            match d {
                Some(v) => {
                    drafts.push(v);
                    found.push(true);
                },
                None => {
                    drafts.push(Vec::new());
                    found.push(false);
                },
            }
            assert(looked_up(
                old(self).active@[i as int],
                self.active@[i as int],
                self.settings,
                drafts@[i as int]@,
                found@[i as int],
            ));
        }
        proof {
            assert forall|i: int| 0 <= i < self.active@.len() implies (
            #[trigger] self.active@[i]).wf() by {
                assert(old(self).active@[i].wf());
                assert(looked_up(
                    old(self).active@[i],
                    self.active@[i],
                    self.settings,
                    drafts@[i]@,
                    found@[i],
                ));
            }
            if !old(self).settings.ngram_on {
                assert forall|i: int| 0 <= i < total implies self.active@[i] == old(self).active@[i]
                    && (#[trigger] drafts@[i])@.len() == 0 && !found@[i] by {
                    no_draft_without_lookup(
                        old(self).active@[i],
                        self.active@[i],
                        self.settings,
                        drafts@[i]@,
                        found@[i],
                    );
                }
                assert forall|i: int| 0 <= i < total implies !#[trigger] found@[i] by {
                    assert(drafts@[i]@.len() == 0);
                }
                assert forall|i: int| 0 <= i < total implies #[trigger] self.active@[i] == old(
                    self,
                ).active@[i] by {
                    assert(drafts@[i]@.len() == 0);
                }
                assert(self.active@ =~= old(self).active@);
            }
        }
        (drafts, found)
    }

    /// Rolls every draft state back and returns the tokens that each has to be fed.
    pub fn resync(&mut self) -> (r: Vec<Vec<u32>>)
        requires
            old(self).wf(),
            forall|i: int|
                0 <= i < old(self).active@.len() ==> can_resync(#[trigger] old(self).active@[i]),
        ensures
            final(self).wf(),
            final(self).settings == old(self).settings,
            final(self).active@.len() == old(self).active@.len() == r@.len(),
            forall|i: int|
                0 <= i < old(self).active@.len() ==> resynced(
                    #[trigger] old(self).active@[i],
                    final(self).active@[i],
                    r@[i]@,
                ),
    {
        let mut rows: Vec<Vec<u32>> = Vec::new();
        let total: usize = self.active.len();
        for i in 0..total
            invariant
                self.settings == old(self).settings,
                old(self).wf(),
                total == self.active@.len() == old(self).active@.len(),
                rows@.len() == i,
                forall|i: int|
                    0 <= i < old(self).active@.len() ==> can_resync(
                        #[trigger] old(self).active@[i],
                    ),
                forall|j: int|
                    0 <= j < i ==> resynced(
                        #[trigger] old(self).active@[j],
                        self.active@[j],
                        rows@[j]@,
                    ),
                forall|j: int|
                    i <= j < total ==> #[trigger] self.active@[j] == old(self).active@[j],
        {
            assert(can_resync(old(self).active@[i as int]));
            assert(old(self).active@[i as int].wf());
            let row: Vec<u32> = self.active[i].resync();
            rows.push(row);
            assert(resynced(
                old(self).active@[i as int],
                self.active@[i as int],
                rows@[i as int]@,
            ));
        }
        proof {
            assert forall|i: int| 0 <= i < self.active@.len() implies (
            #[trigger] self.active@[i]).wf() by {
                assert(old(self).active@[i].wf());
                assert(resynced(old(self).active@[i], self.active@[i], rows@[i]@));
            }
        }
        rows
    }

    /// The rows of the next pass: for every sequence its last token and its draft.
    pub fn target_rows(&self, drafts: &Vec<Vec<u32>>) -> (r: Vec<Vec<u32>>)
        requires
            self.wf(),
            drafts@.len() == self.active@.len(),
        ensures
            r@.len() == self.active@.len(),
            forall|i: int|
                0 <= i < r@.len() ==> (#[trigger] r@[i])@ == seq![
                    self.active@[i].committed@.last(),
                ] + drafts@[i]@,
            forall|i: int|
                0 <= i < r@.len() ==> (#[trigger] r@[i])@ == scheduler::fed(
                    self.active@[i].committed@,
                    drafts@[i]@,
                ),
    {
        let mut rows: Vec<Vec<u32>> = Vec::new();
        for i in 0..self.active.len()
            invariant
                self.wf(),
                drafts@.len() == self.active@.len(),
                rows@.len() == i,
                forall|j: int|
                    0 <= j < i ==> (#[trigger] rows@[j])@ == seq![
                        self.active@[j].committed@.last(),
                    ] + drafts@[j]@,
        {
            assert(self.active@[i as int].wf());
            rows.push(self.active[i].target_row(drafts[i].as_slice()));
        }
        rows
    }

    /// Takes out the sequences that ended, in order.
    pub fn retire(&mut self, ends: &Vec<Option<Finish>>) -> (r: Vec<
        (Sequence<F, B, X>, Finish),
    >)
        requires
            ends@.len() == old(self).active@.len(),
        ensures
            final(self).settings == old(self).settings,
            final(self).active@ == staying(old(self).active@, ends@),
            r@ == leaving(old(self).active@, ends@),
            old(self).active@.len() <= MAX_BATCH && (forall|i: int|
                0 <= i < ends@.len() && ends@[i] is None ==> (
                #[trigger] old(self).active@[i]).wf()) ==> final(self).wf(),
    {
        let mut out: Vec<(Sequence<F, B, X>, Finish)> = Vec::new();
        let ghost all = self.active@;
        let mut i: usize = 0;
        let mut done: usize = 0;
        assert(all.skip(0) =~= all);
        while done < ends.len()
            invariant
                done <= ends@.len() == all.len(),
                self.settings == old(self).settings,
                i <= done,
                i == staying(all.take(done as int), ends@.take(done as int)).len(),
                self.active@ == staying(all.take(done as int), ends@.take(done as int)) + all.skip(
                    done as int,
                ),
                out@ == leaving(all.take(done as int), ends@.take(done as int)),
            decreases ends@.len() - done,
        {
            let ghost before = self.active@;
            assert(all.take(done + 1).drop_last() =~= all.take(done as int));
            assert(ends@.take(done + 1).drop_last() =~= ends@.take(done as int));
            assert(before[i as int] == all[done as int]);
            match ends[done] {
                Some(f) => {
                    let s = self.active.remove(i);
                    out.push((s, f));
                    assert(self.active@ =~= staying(all.take(done + 1), ends@.take(done + 1))
                        + all.skip(done + 1));
                },
                None => {
                    i += 1;
                    assert(self.active@ =~= staying(all.take(done + 1), ends@.take(done + 1))
                        + all.skip(done + 1));
                },
            }
            done += 1;
        }
        proof {
            assert(all.take(done as int) =~= all);
            assert(ends@.take(done as int) =~= ends@);
            assert(self.active@ =~= staying(all, ends@));
            lemma_staying(all, ends@);
        }
        out
    }
}

/// Who stays was there and did not end.
proof fn lemma_staying<F, B, X>(s: Seq<Sequence<F, B, X>>, ends: Seq<Option<Finish>>)
    requires
        s.len() == ends.len(),
    ensures
        staying(s, ends).len() <= s.len(),
        forall|i: int|
            0 <= i < staying(s, ends).len() ==> exists|j: int|
                0 <= j < s.len() && ends[j] is None && #[trigger] s[j] == #[trigger] staying(
                    s,
                    ends,
                )[i],
    decreases s.len(),
{
    if s.len() > 0 {
        let (p, q) = (s.drop_last(), ends.drop_last());
        lemma_staying(p, q);
        let (stay, front) = (staying(s, ends), staying(p, q));
        assert forall|i: int| 0 <= i < stay.len() implies exists|j: int|
            0 <= j < s.len() && ends[j] is None && #[trigger] s[j] == #[trigger] stay[i] by {
            if i < front.len() {
                assert(front[i] == stay[i]);
                let j = choose|j: int|
                    0 <= j < p.len() && q[j] is None && #[trigger] p[j] == #[trigger] front[i];
                assert(s[j] == stay[i] && ends[j] is None);
            } else {
                assert(s[s.len() - 1] == stay[i]);
            }
        }
    }
}

/// Every sequence stays or leaves: none is lost and none is doubled.
pub proof fn retiring_loses_none<F, B, X>(
    s: Seq<Sequence<F, B, X>>,
    ends: Seq<Option<Finish>>,
)
    requires
        s.len() == ends.len(),
    ensures
        staying(s, ends).len() + leaving(s, ends).len() == s.len(),
        forall|i: int|
            0 <= i < s.len() ==> match ends[i] {
                Some(f) => leaving(s, ends).contains((#[trigger] s[i], f)),
                None => staying(s, ends).contains(s[i]),
            },
    decreases s.len(),
{
    if s.len() > 0 {
        let (p, q) = (s.drop_last(), ends.drop_last());
        retiring_loses_none(p, q);
        let n = s.len() - 1;
        assert forall|i: int| 0 <= i < s.len() implies match ends[i] {
            Some(f) => leaving(s, ends).contains((#[trigger] s[i], f)),
            None => staying(s, ends).contains(s[i]),
        } by {
            let (stay, leave) = (staying(s, ends), leaving(s, ends));
            if i < n {
                assert(p[i] == s[i] && q[i] == ends[i]);
                match ends[i] {
                    Some(f) => {
                        let front = leaving(p, q);
                        let k = choose|k: int| 0 <= k < front.len() && front[k] == (p[i], f);
                        assert(leave[k] == (s[i], f));
                    },
                    None => {
                        let front = staying(p, q);
                        let k = choose|k: int| 0 <= k < front.len() && front[k] == p[i];
                        assert(stay[k] == s[i]);
                    },
                }
            } else {
                match ends[i] {
                    Some(f) => {
                        assert(leave[leave.len() - 1] == (s[i], f));
                    },
                    None => {
                        assert(stay[stay.len() - 1] == s[i]);
                    },
                }
            }
        }
    }
}

/// Lookup that is switched off finds nothing and leaves the sequence as it was, whatever its tokens.
pub proof fn no_draft_without_lookup<F, B, X>(
    before: Sequence<F, B, X>,
    after: Sequence<F, B, X>,
    settings: Settings,
    d: Seq<u32>,
    found: bool,
)
    requires
        looked_up(before, after, settings, d, found),
        !settings.ngram_on,
    ensures
        !found,
        d.len() == 0,
        after == before,
{
}

/// A network that never drafts is fed one token of each sequence in a pass, its last one: a state
/// that cannot be rolled back takes in nothing that is not part of its sequence.
pub proof fn undrafted_passes_hold_last_tokens<F, B, X>(
    before: Seq<Sequence<F, B, X>>,
    after: Seq<Sequence<F, B, X>>,
    settings: Settings,
    drafts: Seq<Seq<u32>>,
    found: Seq<bool>,
    rows: Seq<Seq<u32>>,
)
    requires
        scheduler::never_drafts(settings),
        before.len() == after.len() == drafts.len() == found.len() == rows.len(),
        forall|i: int|
            0 <= i < before.len() ==> looked_up(
                #[trigger] before[i],
                after[i],
                settings,
                drafts[i],
                found[i],
            ),
        forall|i: int|
            0 <= i < rows.len() ==> #[trigger] rows[i] == seq![after[i].committed@.last()]
                + drafts[i],
    ensures
        forall|i: int|
            0 <= i < rows.len() ==> #[trigger] rows[i] == seq![before[i].committed@.last()],
{
    assert forall|i: int| 0 <= i < rows.len() implies #[trigger] rows[i] == seq![
        before[i].committed@.last(),
    ] by {
        no_draft_without_lookup(before[i], after[i], settings, drafts[i], found[i]);
        assert(rows[i] =~= seq![before[i].committed@.last()]);
    }
}

/// A sequence that sits out lookup finds nothing and has one step less to sit out; one that does
/// not, where lookup is on, finds what followed the last tokens before, if anything did. Whatever is
/// found, the sequence keeps its tokens and its state.
pub proof fn lookups_are_sat_out<F, B, X>(
    before: Sequence<F, B, X>,
    after: Sequence<F, B, X>,
    settings: Settings,
    d: Seq<u32>,
    found: bool,
)
    requires
        looked_up(before, after, settings, d, found),
    ensures
        settings.ngram_on && before.ngram_backoff > 0 ==> !found && d.len() == 0
            && after.ngram_backoff + 1 == before.ngram_backoff,
        settings.ngram_on && before.ngram_backoff == 0 ==> after.ngram_backoff == 0,
        settings.ngram_on && before.ngram_backoff == 0 && draft::repeats(
            before.committed@,
            settings.ngram_n as int,
            settings.ngram_k as int,
        ) ==> found,
        found ==> d.len() <= settings.ngram_k,
        found && before.ngram_tries < usize::MAX ==> after.ngram_tries == before.ngram_tries + 1,
        !found ==> after.ngram_tries == before.ngram_tries,
        after.committed@ == before.committed@,
        after.cache@ == before.cache@,
        after.generated == before.generated,
        after.req == before.req,
{
    let (n, k) = (settings.ngram_n as int, settings.ngram_k as int);
    if settings.ngram_on && before.ngram_backoff == 0 {
        if found {
            draft::drafts_follow_their_tokens(before.committed@, n, k, d);
        } else if draft::repeats(before.committed@, n, k) {
            draft::repeats_are_drafted(before.committed@, n, k, None);
        }
    }
}

/// The tokens that a draft state is fed complete it: what it keeps and what it is fed are the tokens
/// of the sequence, and it always lacks the last one.
pub proof fn resyncing_completes<F, B, X>(
    before: Sequence<F, B, X>,
    after: Sequence<F, B, X>,
    row: Seq<u32>,
)
    requires
        resynced(before, after, row),
        before.committed@.len() > 0,
    ensures
        after.draft_cache@.len < before.committed@.len(),
        before.committed@.take(after.draft_cache@.len as int) + row == before.committed@,
        after.draft_cache@.len <= before.draft_cache@.len,
        before.draft_cache@.len < before.committed@.len() ==> after.draft_cache@
            == before.draft_cache@,
{
    assert(before.committed@.take(after.draft_cache@.len as int) + row =~= before.committed@);
}

} // verus!
