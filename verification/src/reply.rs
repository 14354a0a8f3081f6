//! The text of a reply as its tokens arrive: characters that are complete, the split between
//! reasoning and answer, and the texts that end an answer.

use vstd::prelude::*;
use vstd::utf8::*;

use crate::decoding;
use crate::roundtrip;
use crate::text;

verus! {

/// What closes the reasoning of a model that thinks first.
pub open spec fn closing_tag() -> Seq<char> {
    "</think>"@
}

/// A reply so far.
#[verifier::ext_equal]
pub ghost struct Text {
    /// Whether the reasoning still goes on.
    pub thinking: bool,
    pub reasoning: Seq<char>,
    /// Tokens that added to the reasoning.
    pub reasoning_tokens: nat,
    /// Bytes that are no character yet.
    pub pending: Seq<u8>,
    /// The answer.
    pub full: Seq<char>,
}

/// What is sent for one token.
#[verifier::ext_equal]
pub ghost struct Parts {
    pub reasoning: Option<Seq<char>>,
    pub content: Option<Seq<char>>,
    /// A client that cannot be sent the last of the two is gone.
    pub checked: bool,
    /// The reply ends here.
    pub stopped: bool,
}

/// The texts.
pub open spec fn texts(s: Seq<String>) -> Seq<Seq<char>> {
    s.map_values(|x: String| x@)
}

/// The first place in `probe` at which one of the first `n` of `stops` stands.
pub open spec fn first_stop(probe: Seq<char>, stops: Seq<Seq<char>>, n: int) -> Option<int>
    decreases n,
{
    if n <= 0 {
        None
    } else {
        match (first_stop(probe, stops, n - 1), text::found(probe, stops[n - 1])) {
            (Some(a), Some(b)) => Some(
                if b < a {
                    b
                } else {
                    a
                },
            ),
            (Some(a), None) => Some(a),
            (None, b) => b,
        }
    }
}

/// What of `t` is kept behind the answer `full`, and whether a stop text ends the answer.
pub open spec fn cut(full: Seq<char>, t: Seq<char>, stops: Seq<Seq<char>>) -> (Seq<char>, bool) {
    match first_stop(full + t, stops, stops.len() as int) {
        None => (t, false),
        Some(i) => (
            t.take(
                if i > full.len() {
                    i - full.len()
                } else {
                    0
                },
            ),
            true,
        ),
    }
}

/// Nothing is sent.
pub open spec fn nothing() -> Parts {
    Parts { reasoning: None, content: None, checked: false, stopped: false }
}

/// The answer grows by `t`, which ends it where `hit` holds.
pub open spec fn answered(s: Text, t: Seq<char>, hit: bool, reasoning: Option<Seq<char>>) -> (
    Text,
    Parts,
) {
    (
        Text { full: s.full + t, ..s },
        Parts {
            reasoning,
            content: if hit && t.len() == 0 {
                None
            } else {
                Some(t)
            },
            checked: !hit,
            stopped: hit,
        },
    )
}

/// The reply when the text `t` has come, and what is sent for it.
pub open spec fn told(s: Text, t: Seq<char>, hit: bool) -> (Text, Parts) {
    if s.thinking {
        let r = s.reasoning + t;
        let n = s.reasoning_tokens + 1;
        match text::found(r, closing_tag()) {
            None => (
                Text { reasoning: r, reasoning_tokens: n, ..s },
                Parts {
                    reasoning: if hit && t.len() == 0 {
                        None
                    } else {
                        Some(t)
                    },
                    content: None,
                    checked: !hit,
                    stopped: hit,
                },
            ),
            Some(i) => {
                let after = text::trimmed_start(r.skip(i + closing_tag().len()));
                let told = Text { thinking: false, reasoning: r.take(i), reasoning_tokens: n, ..s };
                let last = if t.len() == 0 {
                    None
                } else {
                    Some(text::trimmed_end(t))
                };
                if after.len() == 0 {
                    (told, Parts { reasoning: last, stopped: hit, ..nothing() })
                } else {
                    answered(told, after, hit, last)
                }
            },
        }
    } else {
        answered(s, t, hit, None)
    }
}

/// The reply when the bytes of one more token have come, and what is sent for it.
pub open spec fn advanced(s: Text, bytes: Seq<u8>, stops: Seq<Seq<char>>) -> (Text, Parts) {
    let b = s.pending + bytes;
    let n = decoding::valid_up_to(b);
    if n == 0 {
        (Text { pending: b, ..s }, nothing())
    } else {
        let (t, hit) = cut(s.full, decode_utf8(b.take(n)), stops);
        told(Text { pending: b.skip(n), ..s }, t, hit)
    }
}

/// A reply so far.
pub struct Reply {
    pub thinking: bool,
    pub reasoning: Vec<char>,
    pub reasoning_tokens: usize,
    pub pending: Vec<u8>,
    pub full: Vec<char>,
    /// The tokens of the reply.
    pub out_ids: Vec<u32>,
}

/// What is sent for one token.
pub struct Sent {
    pub reasoning: Option<String>,
    pub content: Option<String>,
    /// A client that cannot be sent the last of the two is gone.
    pub checked: bool,
    /// The reply ends here.
    pub stopped: bool,
}

impl Sent {
    /// What is sent.
    pub open spec fn view(&self) -> Parts {
        Parts {
            reasoning: match self.reasoning {
                Some(s) => Some(s@),
                None => None,
            },
            content: match self.content {
                Some(s) => Some(s@),
                None => None,
            },
            checked: self.checked,
            stopped: self.stopped,
        }
    }
}

/// What of `t` is kept behind the answer `full`, and whether a stop text ends the answer.
fn cut_off(full: &Vec<char>, t: &Vec<char>, stops: &Vec<String>) -> (r: (Vec<char>, bool))
    ensures
        (r.0@, r.1) == cut(full@, t@, texts(stops@)),
{
    let mut probe: Vec<char> = vstd::slice::slice_to_vec(full.as_slice());
    let mut tail: Vec<char> = vstd::slice::slice_to_vec(t.as_slice());
    probe.append(&mut tail);
    let ghost all = texts(stops@);
    let mut first: Option<usize> = None;
    for j in 0..stops.len()
        invariant
            all == texts(stops@),
            probe@ == full@ + t@,
            match first {
                Some(i) => i <= probe@.len() && first_stop(probe@, all, j as int) == Some(i as int),
                None => first_stop(probe@, all, j as int) is None,
            },
    {
        let st: Vec<char> = text::chars_of(stops[j].as_str());
        assert(all[j as int] == stops@[j as int]@);
        if let Some(i) = text::find(probe.as_slice(), st.as_slice()) {
            first = match first {
                Some(a) => Some(
                    if i < a {
                        i
                    } else {
                        a
                    },
                ),
                None => Some(i),
            };
        }
    }
    match first {
        Some(i) => {
            let keep: usize = if i > full.len() {
                i - full.len()
            } else {
                0
            };
            let kept = vstd::slice::slice_subrange(t.as_slice(), 0, keep);
            assert(kept@ =~= t@.take(keep as int));
            (vstd::slice::slice_to_vec(kept), true)
        },
        None => (vstd::slice::slice_to_vec(t.as_slice()), false),
    }
}

impl Reply {
    /// The text so far.
    pub open spec fn view(&self) -> Text {
        Text {
            thinking: self.thinking,
            reasoning: self.reasoning@,
            reasoning_tokens: self.reasoning_tokens as nat,
            pending: self.pending@,
            full: self.full@,
        }
    }

    /// No more tokens than have come added to the reasoning.
    pub open spec fn wf(&self) -> bool {
        self.reasoning_tokens <= self.out_ids@.len()
    }

    /// A reply of which nothing has come; `thinking` says whether it begins with reasoning.
    pub fn new(thinking: bool) -> (r: Reply)
        ensures
            r.wf(),
            r@ == (Text {
                thinking,
                reasoning: seq![],
                reasoning_tokens: 0,
                pending: seq![],
                full: seq![],
            }),
            r.out_ids@ == Seq::<u32>::empty(),
    {
        Reply {
            thinking,
            reasoning: Vec::new(),
            reasoning_tokens: 0,
            pending: Vec::new(),
            full: Vec::new(),
            out_ids: Vec::new(),
        }
    }

    /// Adds `t` to the answer.
    fn answer(&mut self, t: Vec<char>, hit: bool, reasoning: Option<String>) -> (r: Sent)
        requires
            old(self).wf(),
        ensures
            final(self).wf(),
            final(self).out_ids == old(self).out_ids,
            (final(self)@, r@) == answered(
                old(self)@,
                t@,
                hit,
                match reasoning {
                    Some(s) => Some(s@),
                    None => None,
                },
            ),
    {
        let sent: Sent = Sent {
            reasoning,
            content: if hit && t.len() == 0 {
                None
            } else {
                Some(text::string_of(t.as_slice()))
            },
            checked: !hit,
            stopped: hit,
        };
        let mut t: Vec<char> = t;
        self.full.append(&mut t);
        sent
    }

    /// Takes the token `id`, whose bytes are `bytes`, into the reply. `stops` are the texts that
    /// end an answer.
    pub fn token(&mut self, id: u32, bytes: &[u8], stops: &Vec<String>) -> (r: Sent)
        requires
            old(self).wf(),
        ensures
            final(self).wf(),
            final(self).out_ids@ == old(self).out_ids@.push(id),
            (final(self)@, r@) == advanced(old(self)@, bytes@, texts(stops@)),
    {
        let ghost was = self@;
        self.out_ids.push(id);
        assert(self.out_ids.len() == self.out_ids@.len());
        let mut more: Vec<u8> = vstd::slice::slice_to_vec(bytes);
        self.pending.append(&mut more);
        let ghost b = self.pending@;
        let (come, n) = decoding::decode_prefix(self.pending.as_slice());
        if n == 0 {
            let none: Sent = Sent {
                reasoning: None,
                content: None,
                checked: false,
                stopped: false,
            };
            assert(none@ =~= nothing());
            return none;
        }
        let rest = vstd::slice::slice_subrange(self.pending.as_slice(), n, self.pending.len());
        assert(rest@ =~= b.skip(n as int));
        self.pending = vstd::slice::slice_to_vec(rest);
        let (t, hit) = cut_off(&self.full, &come, stops);
        if !self.thinking {
            return self.answer(t, hit, None);
        }
        let mut more: Vec<char> = vstd::slice::slice_to_vec(t.as_slice());
        self.reasoning.append(&mut more);
        self.reasoning_tokens += 1;
        let tag: Vec<char> = text::chars_of("</think>");
        match text::find(self.reasoning.as_slice(), tag.as_slice()) {
            None => Sent {
                reasoning: if hit && t.len() == 0 {
                    None
                } else {
                    Some(text::string_of(t.as_slice()))
                },
                content: None,
                checked: !hit,
                stopped: hit,
            },
            Some(i) => {
                let ghost r = self.reasoning@;
                proof {
                    text::lemma_found_stands(r, tag@);
                }
                assert(self.reasoning.len() == r.len());
                let behind = vstd::slice::slice_subrange(
                    self.reasoning.as_slice(),
                    i + tag.len(),
                    self.reasoning.len(),
                );
                assert(behind@ =~= r.skip(i + tag@.len()));
                let after: Vec<char> = text::trim_start(behind);
                self.reasoning.truncate(i);
                assert(self.reasoning@ =~= r.take(i as int));
                self.thinking = false;
                let last: Option<String> = if t.len() == 0 {
                    None
                } else {
                    Some(text::string_of(text::trim_end(t.as_slice()).as_slice()))
                };
                if after.len() == 0 {
                    Sent { reasoning: last, content: None, checked: false, stopped: hit }
                } else {
                    self.answer(after, hit, last)
                }
            },
        }
    }
}

// ---------------------------------------------------------------------------------------
// Laws
// ---------------------------------------------------------------------------------------

/// The answer is what was sent as content, piece by piece.
pub proof fn content_is_the_answer(s: Text, bytes: Seq<u8>, stops: Seq<Seq<char>>)
    ensures
        ({
            let (after, parts) = advanced(s, bytes, stops);
            after.full == s.full + (match parts.content {
                Some(c) => c,
                None => seq![],
            })
        }),
{
    let (after, parts) = advanced(s, bytes, stops);
    if parts.content is None {
        assert(after.full =~= s.full);
    }
}

/// Where nothing is cut and nothing is reasoning, no byte of the reply is lost: the answer and the
/// bytes that are no character yet are the bytes that came.
pub proof fn no_byte_is_lost(s: Text, bytes: Seq<u8>)
    requires
        !s.thinking,
    ensures
        ({
            let after = advanced(s, bytes, seq![]).0;
            &&& !after.thinking
            &&& encode_utf8(after.full) + after.pending == encode_utf8(s.full) + s.pending + bytes
        }),
{
    let b = s.pending + bytes;
    let n = decoding::valid_up_to(b);
    let after = advanced(s, bytes, seq![]).0;
    decoding::lemma_valid_up_to(b);
    if n == 0 {
        assert(encode_utf8(s.full) + b =~= encode_utf8(s.full) + s.pending + bytes);
    } else {
        let t = decode_utf8(b.take(n));
        decode_utf8_encode_utf8(b.take(n));
        roundtrip::encode_utf8_append(s.full, t);
        assert(b.take(n) + b.skip(n) =~= b);
        assert(encode_utf8(after.full) + after.pending =~= encode_utf8(s.full) + s.pending + bytes);
    }
}

/// The bytes that wait never begin with a whole character.
pub proof fn waiting_is_incomplete(s: Text, bytes: Seq<u8>, stops: Seq<Seq<char>>)
    ensures
        decoding::valid_up_to(advanced(s, bytes, stops).0.pending) == 0,
{
    decoding::lemma_valid_up_to(s.pending + bytes);
}

/// None of the texts stands in `t`.
pub open spec fn free_of(t: Seq<char>, stops: Seq<Seq<char>>) -> bool {
    forall|j: int| 0 <= j < stops.len() ==> text::found(t, #[trigger] stops[j]) is None
}

/// A reply that thinks has no answer yet.
pub open spec fn thinks_first(s: Text) -> bool {
    s.thinking ==> s.full.len() == 0 && text::found(s.reasoning, closing_tag()) is None
}

/// What stands in a part of a text stands in the text.
proof fn lemma_found_in_part(whole: Seq<char>, from: int, to: int, needle: Seq<char>)
    requires
        0 <= from <= to <= whole.len(),
        text::found(whole, needle) is None,
    ensures
        text::found(whole.subrange(from, to), needle) is None,
{
    let part = whole.subrange(from, to);
    assert forall|i: int| !#[trigger] text::occurs_at(part, needle, i) by {
        if text::occurs_at(part, needle, i) {
            assert(whole.subrange(from + i, from + i + needle.len()) =~= part.subrange(
                i,
                i + needle.len(),
            ));
            assert(text::occurs_at(whole, needle, from + i));
            lemma_occurs_found(whole, needle, from + i);
        }
    }
    text::lemma_not_found(part, needle);
}

/// What stands somewhere is found.
proof fn lemma_occurs_found(whole: Seq<char>, needle: Seq<char>, i: int)
    requires
        text::occurs_at(whole, needle, i),
    ensures
        text::found(whole, needle) is Some,
    decreases i,
{
    if exists|j: int| 0 <= j < i && text::occurs_at(whole, needle, j) {
        let j = choose|j: int| 0 <= j < i && text::occurs_at(whole, needle, j);
        lemma_occurs_found(whole, needle, j);
    } else {
        assert(text::first_at(whole, needle, i));
        text::lemma_found(whole, needle, i);
    }
}

/// Where an answer is cut: a stop text stands there, and none stands before.
pub proof fn cut_is_first(probe: Seq<char>, stops: Seq<Seq<char>>, n: int)
    requires
        0 <= n <= stops.len(),
    ensures
        match first_stop(probe, stops, n) {
            Some(i) => {
                &&& 0 <= i <= probe.len()
                &&& exists|k: int| 0 <= k < n && text::occurs_at(probe, #[trigger] stops[k], i)
                &&& forall|k: int|
                    0 <= k < n ==> (text::found(probe, #[trigger] stops[k]) matches Some(x) ==> i
                        <= x)
                &&& forall|k: int, x: int|
                    0 <= k < n && 0 <= x < i ==> !#[trigger] text::occurs_at(probe, stops[k], x)
            },
            None => forall|k: int|
                0 <= k < n ==> text::found(probe, #[trigger] stops[k]) is None,
        },
    decreases n,
{
    if n > 0 {
        cut_is_first(probe, stops, n - 1);
        text::lemma_found_stands(probe, stops[n - 1]);
        if let Some(i) = first_stop(probe, stops, n) {
            if text::found(probe, stops[n - 1]) == Some(i) {
                assert(text::occurs_at(probe, stops[n - 1], i));
            } else {
                let k = choose|k: int|
                    0 <= k < n - 1 && text::occurs_at(probe, #[trigger] stops[k], i);
                assert(text::occurs_at(probe, stops[k], i));
            }
            assert forall|k: int, x: int| 0 <= k < n && 0 <= x < i implies !#[trigger] text::occurs_at(
                probe,
                stops[k],
                x,
            ) by {
                if text::occurs_at(probe, stops[k], x) {
                    lemma_occurs_found(probe, stops[k], x);
                    text::lemma_found_stands(probe, stops[k]);
                    let y = text::found(probe, stops[k])->Some_0;
                    assert(!text::occurs_at(probe, stops[k], x));
                }
            }
        }
    }
}

/// What ends before the end of the first place of a text does not hold it.
proof fn lemma_before_first(probe: Seq<char>, needle: Seq<char>, to: int)
    requires
        text::found(probe, needle) matches Some(i) && 0 <= to < i + needle.len(),
        to <= probe.len(),
    ensures
        text::found(probe.take(to), needle) is None,
{
    text::lemma_found_stands(probe, needle);
    let i = text::found(probe, needle)->Some_0;
    let part = probe.take(to);
    assert forall|k: int| !#[trigger] text::occurs_at(part, needle, k) by {
        if text::occurs_at(part, needle, k) {
            assert(probe.subrange(k, k + needle.len()) =~= part.subrange(k, k + needle.len()));
            assert(text::occurs_at(probe, needle, k));
            if k < i {
                assert(!text::occurs_at(probe, needle, k));
            }
        }
    }
    text::lemma_not_found(part, needle);
}

/// What is left of a text without the white space at its start is its end.
proof fn lemma_trimmed_is_end(t: Seq<char>) -> (k: int)
    ensures
        0 <= k <= t.len(),
        text::trimmed_start(t) == t.skip(k),
    decreases t.len(),
{
    if t.len() > 0 && text::white(t[0]) {
        let k = lemma_trimmed_is_end(t.drop_first());
        assert(t.skip(k + 1) =~= t.drop_first().skip(k));
        k + 1
    } else {
        assert(t.skip(0) =~= t);
        0
    }
}

/// A piece of what is kept holds no stop text.
proof fn lemma_kept(full: Seq<char>, t0: Seq<char>, stops: Seq<Seq<char>>, from: int)
    requires
        free_of(full, stops),
        0 <= from <= full.len() + cut(full, t0, stops).0.len(),
    ensures
        ({
            let (t, hit) = cut(full, t0, stops);
            free_of((full + t).skip(from), stops)
        }),
{
    let probe = full + t0;
    let (t, hit) = cut(full, t0, stops);
    let kept = full + t;
    let part = kept.skip(from);
    cut_is_first(probe, stops, stops.len() as int);
    assert(part =~= kept.subrange(from, kept.len() as int));
    assert forall|k: int| 0 <= k < stops.len() implies text::found(
        part,
        #[trigger] stops[k],
    ) is None by {
        if hit {
            let i = first_stop(probe, stops, stops.len() as int)->Some_0;
            let to = kept.len() as int;
            assert(kept =~= probe.take(to));
            if stops[k].len() == 0 {
                assert(full.subrange(0, 0) =~= stops[k]);
                assert(text::occurs_at(full, stops[k], 0));
                lemma_occurs_found(full, stops[k], 0);
            }
            if i <= full.len() {
                assert(kept =~= full);
            } else if text::found(probe, stops[k]) is Some {
                lemma_before_first(probe, stops[k], to);
            } else {
                assert(probe.take(to) =~= probe.subrange(0, to));
                lemma_found_in_part(probe, 0, to, stops[k]);
            }
        }
        lemma_found_in_part(kept, from, kept.len() as int, stops[k]);
    }
}

/// A stop text ends the reply wherever it stands, in the answer or in the reasoning, and nothing else
/// does.
pub proof fn stops_end_the_reply(s: Text, bytes: Seq<u8>, stops: Seq<Seq<char>>)
    ensures
        ({
            let b = s.pending + bytes;
            let come = decode_utf8(b.take(decoding::valid_up_to(b)));
            advanced(s, bytes, stops).1.stopped <==> decoding::valid_up_to(b) > 0 && cut(
                s.full,
                come,
                stops,
            ).1
        }),
{
    decoding::lemma_valid_up_to(s.pending + bytes);
}

/// No stop text ever stands in an answer, whether it goes on or a stop text has ended it.
pub proof fn stops_stay_out(s: Text, bytes: Seq<u8>, stops: Seq<Seq<char>>)
    requires
        thinks_first(s),
        free_of(s.full, stops),
    ensures
        ({
            let (after, parts) = advanced(s, bytes, stops);
            &&& thinks_first(after)
            &&& free_of(after.full, stops)
        }),
{
    let b = s.pending + bytes;
    let n = decoding::valid_up_to(b);
    let (after, parts) = advanced(s, bytes, stops);
    if n != 0 {
        let t0 = decode_utf8(b.take(n));
        let (t, hit) = cut(s.full, t0, stops);
        let kept = s.full + t;
        if !s.thinking {
            lemma_kept(s.full, t0, stops, 0);
            assert(kept.skip(0) =~= after.full);
        } else {
            let r = s.reasoning + t;
            if let Some(i) = text::found(r, closing_tag()) {
                let end = i + closing_tag().len();
                text::lemma_found_stands(r, closing_tag());
                if end <= s.reasoning.len() {
                    assert(s.reasoning.subrange(i, end) =~= r.subrange(i, end));
                    assert(text::occurs_at(s.reasoning, closing_tag(), i));
                    lemma_occurs_found(s.reasoning, closing_tag(), i);
                }
                let k = lemma_trimmed_is_end(r.skip(end));
                let from = end - s.reasoning.len() + k;
                let tail = text::trimmed_start(r.skip(end));
                assert(kept =~= t);
                assert(tail =~= kept.skip(from));
                lemma_kept(s.full, t0, stops, from);
                assert(after.full =~= if tail.len() == 0 {
                    s.full
                } else {
                    tail
                });
            }
        }
    }
}

/// Reasoning goes on until its closing tag has come whole: until then everything is reasoning and
/// nothing is answer. Then the reasoning is what stands before the tag, and the answer begins with
/// what stands behind it, without the white space that separates them.
pub proof fn reasoning_ends_with_its_tag(s: Text, t: Seq<char>, before: Seq<char>, behind: Seq<char>)
    requires
        s.thinking,
    ensures
        text::absent(s.reasoning + t, "</think>"@) ==> {
            let (after, parts) = told(s, t, false);
            &&& after.thinking
            &&& after.reasoning == s.reasoning + t
            &&& after.full == s.full
            &&& parts.content is None
            &&& parts.reasoning == Some(t)
        },
        s.reasoning + t == before + "</think>"@ + behind && text::first_at(
            s.reasoning + t,
            "</think>"@,
            before.len() as int,
        ) ==> {
            let (after, parts) = told(s, t, false);
            &&& !after.thinking
            &&& after.reasoning == before
            &&& after.full == s.full + text::trimmed_start(behind)
            &&& t.len() > 0 ==> parts.reasoning == Some(text::trimmed_end(t))
            &&& text::trimmed_start(behind).len() > 0 ==> parts.content == Some(
                text::trimmed_start(behind),
            )
            &&& text::trimmed_start(behind).len() == 0 ==> parts.content is None
            &&& !parts.stopped
        },
        told(s, t, false).0.reasoning_tokens == s.reasoning_tokens + 1,
{
    let r = s.reasoning + t;
    let tag = "</think>"@;
    if text::absent(r, tag) {
        text::lemma_not_found(r, tag);
    }
    if r == before + tag + behind && text::first_at(r, tag, before.len() as int) {
        text::lemma_found(r, tag, before.len() as int);
        assert(r.take(before.len() as int) =~= before);
        assert(r.skip(before.len() as int + tag.len()) =~= behind);
        assert(s.full + Seq::<char>::empty() =~= s.full);
        let after = text::trimmed_start(behind);
        if after.len() == 0 {
            assert(after =~= Seq::<char>::empty());
        }
    }
}

/// A reply that does not reason passes on what comes as it comes: the characters that are whole are
/// the content that is sent, every one of them, and none of them is reasoning.
pub proof fn answers_are_passed_on(s: Text, bytes: Seq<u8>)
    requires
        !s.thinking,
    ensures
        ({
            let b = s.pending + bytes;
            let n = decoding::valid_up_to(b);
            let (after, parts) = advanced(s, bytes, seq![]);
            &&& n > 0 ==> parts.content == Some(decode_utf8(b.take(n)))
            &&& n == 0 ==> parts.content is None
            &&& parts.reasoning is None
            &&& after.reasoning == s.reasoning
            &&& after.pending == b.skip(n)
            &&& !parts.stopped
        }),
{
    let b = s.pending + bytes;
    decoding::lemma_valid_up_to(b);
    assert(b.skip(0) =~= b);
}

/// A client that is gone is noticed: whatever is sent while the reply goes on is checked, be it answer
/// or reasoning, and only what ends a reply or its reasoning is not.
pub proof fn lost_clients_are_noticed(s: Text, bytes: Seq<u8>, stops: Seq<Seq<char>>)
    ensures
        ({
            let (after, parts) = advanced(s, bytes, stops);
            &&& parts.content is Some && !parts.stopped ==> parts.checked
            &&& after.thinking && parts.reasoning is Some && !parts.stopped ==> parts.checked
            &&& parts.stopped ==> !parts.checked
            &&& parts.checked ==> parts.content is Some || parts.reasoning is Some
        }),
{
}

} // verus!
