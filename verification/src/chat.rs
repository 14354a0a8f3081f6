//! Chat requests: what a request asks for, the prompt it becomes, and the documents that answer it.

use vstd::prelude::*;

use crate::config;
use crate::json;
use crate::json::Json;
use crate::reply;
use crate::scheduler::Request;
use crate::text;

verus! {

/// Tokens of a reply where the request does not say.
pub const DEFAULT_TOKENS: u64 = 256;

/// The role and the content of a message.
pub open spec fn message_of(t: json::Tree) -> (Seq<char>, Seq<char>) {
    (
        match json::str_of(json::member(t, "role"@)) {
            Some(s) => s,
            None => "user"@,
        },
        match json::str_of(json::member(t, "content"@)) {
            Some(s) => s,
            None => ""@,
        },
    )
}

/// The messages of a request.
pub open spec fn messages_of(req: json::Tree) -> Seq<(Seq<char>, Seq<char>)> {
    match json::items_of(json::member(req, "messages"@)) {
        Some(a) => a.map_values(|t: json::Tree| message_of(t)),
        None => seq![],
    }
}

/// The texts among the documents `a`.
pub open spec fn texts_among(a: Seq<json::Tree>) -> Seq<Seq<char>>
    decreases a.len(),
{
    if a.len() == 0 {
        seq![]
    } else {
        match a.last() {
            json::Tree::Str(s) => texts_among(a.drop_last()).push(s),
            _ => texts_among(a.drop_last()),
        }
    }
}

/// The texts that end the answer to a request.
pub open spec fn stops_of(req: json::Tree) -> Seq<Seq<char>> {
    match json::member(req, "stop"@) {
        Some(json::Tree::Str(s)) => seq![s],
        Some(json::Tree::Array(a)) => texts_among(a),
        _ => seq![],
    }
}

/// The number under `name`, if there is one.
pub open spec fn number_at(req: json::Tree, name: Seq<char>) -> Option<json::Tree> {
    if config::is_number(json::member(req, name)) {
        json::member(req, name)
    } else {
        None
    }
}

/// What a chat request asks for.
pub struct ChatRequest<'a> {
    /// Role and content of each message.
    pub messages: Vec<(String, String)>,
    pub max_tokens: u64,
    pub streaming: bool,
    /// Texts that end the answer.
    pub stops: Vec<String>,
    pub temperature: Option<&'a Json>,
    pub top_p: Option<&'a Json>,
}

/// The messages.
pub open spec fn message_texts(m: Seq<(String, String)>) -> Seq<(Seq<char>, Seq<char>)> {
    m.map_values(|x: (String, String)| (x.0@, x.1@))
}

/// The messages of a request.
fn read_messages(req: &Json) -> (r: Vec<(String, String)>)
    ensures
        message_texts(r@) == messages_of(req.tree()),
{
    let mut out: Vec<(String, String)> = Vec::new();
    if let Some(a) = req.items("messages") {
        proof {
            json::trees_items(a@);
        }
        for i in 0..a.len()
            invariant
                json::trees(a@).len() == a@.len(),
                forall|k: int| 0 <= k < a@.len() ==> #[trigger] json::trees(a@)[k] == a@[k].tree(),
                message_texts(out@) == json::trees(a@).take(i as int).map_values(
                    |t: json::Tree| message_of(t),
                ),
        {
            let role: String = match a[i].text("role") {
                Some(s) => s.clone(),
                None => "user".to_string(),
            };
            let content: String = match a[i].text("content") {
                Some(s) => s.clone(),
                None => "".to_string(),
            };
            let ghost before = message_texts(out@);
            out.push((role, content));
            proof {
                let t = json::trees(a@);
                assert(t[i as int] == a@[i as int].tree());
                assert(message_texts(out@) =~= before.push((role@, content@)));
                assert(t.take(i + 1).map_values(|t: json::Tree| message_of(t)) =~= t.take(
                    i as int,
                ).map_values(|t: json::Tree| message_of(t)).push(message_of(t[i as int])));
            }
        }
        assert(json::trees(a@).take(a@.len() as int) =~= json::trees(a@));
    } else {
        assert(message_texts(out@) =~= seq![]);
    }
    out
}

/// The texts that end the answer to a request.
fn read_stops(req: &Json) -> (r: Vec<String>)
    ensures
        reply::texts(r@) == stops_of(req.tree()),
{
    let mut out: Vec<String> = Vec::new();
    assert(reply::texts(out@) =~= seq![]);
    match req.get("stop") {
        Some(Json::Str(s)) => {
            out.push(s.clone());
            assert(reply::texts(out@) =~= seq![s@]);
        },
        Some(Json::Array(a)) => {
            proof {
                json::trees_items(a@);
            }
            for i in 0..a.len()
                invariant
                    json::trees(a@).len() == a@.len(),
                    forall|k: int|
                        0 <= k < a@.len() ==> #[trigger] json::trees(a@)[k] == a@[k].tree(),
                    reply::texts(out@) == texts_among(json::trees(a@).take(i as int)),
            {
                let ghost t = json::trees(a@);
                assert(t[i as int] == a@[i as int].tree());
                assert(t.take(i + 1).drop_last() =~= t.take(i as int));
                let ghost before = reply::texts(out@);
                if let Json::Str(s) = &a[i] {
                    out.push(s.clone());
                    assert(reply::texts(out@) =~= before.push(s@));
                }
            }
            assert(json::trees(a@).take(a@.len() as int) =~= json::trees(a@));
        },
        _ => {},
    }
    out
}

/// The number under `name`, if there is one.
fn read_number<'a>(req: &'a Json, name: &str) -> (r: Option<&'a Json>)
    ensures
        config::opt_tree(r) == number_at(req.tree(), name@),
{
    let found = req.get(name);
    if config::number(found) {
        found
    } else {
        None
    }
}

/// `r` is what the document `req` asks for.
pub open spec fn asks(r: ChatRequest, req: json::Tree) -> bool {
    &&& message_texts(r.messages@) == messages_of(req)
    &&& r.max_tokens == (match json::uint_of(json::member(req, "max_tokens"@)) {
        Some(n) => n,
        None => DEFAULT_TOKENS,
    })
    &&& r.streaming == (json::bool_of(json::member(req, "stream"@)) == Some(true))
    &&& reply::texts(r.stops@) == stops_of(req)
    &&& config::opt_tree(r.temperature) == number_at(req, "temperature"@)
    &&& config::opt_tree(r.top_p) == number_at(req, "top_p"@)
}

impl<'a> ChatRequest<'a> {
    /// What the document `req` asks for.
    pub fn read(req: &'a Json) -> (r: ChatRequest<'a>)
        ensures
            message_texts(r.messages@) == messages_of(req.tree()),
            r.max_tokens == (match json::uint_of(json::member(req.tree(), "max_tokens"@)) {
                Some(n) => n,
                None => DEFAULT_TOKENS,
            }),
            r.streaming == (json::bool_of(json::member(req.tree(), "stream"@)) == Some(true)),
            reply::texts(r.stops@) == stops_of(req.tree()),
            config::opt_tree(r.temperature) == number_at(req.tree(), "temperature"@),
            config::opt_tree(r.top_p) == number_at(req.tree(), "top_p"@),
            asks(r, req.tree()),
    {
        ChatRequest {
            messages: read_messages(req),
            max_tokens: match req.uint("max_tokens") {
                Some(n) => n,
                None => DEFAULT_TOKENS,
            },
            streaming: match req.truth("stream") {
                Some(b) => b,
                None => false,
            },
            stops: read_stops(req),
            temperature: read_number(req, "temperature"),
            top_p: read_number(req, "top_p"),
        }
    }
}

// ---------------------------------------------------------------------------------------
// Prompts
// ---------------------------------------------------------------------------------------

/// A message as the model reads it.
pub open spec fn turn(m: (Seq<char>, Seq<char>)) -> Seq<char> {
    "<|im_start|>"@ + m.0 + "\n"@ + m.1 + "<|im_end|>\n"@
}

/// Messages as the model reads them.
pub open spec fn turns(ms: Seq<(Seq<char>, Seq<char>)>) -> Seq<char>
    decreases ms.len(),
{
    if ms.len() == 0 {
        seq![]
    } else {
        turns(ms.drop_last()) + turn(ms.last())
    }
}

/// How the turn of the model begins. A model that always thinks finds its reasoning opened; one
/// that is not to think finds it closed.
pub open spec fn opening(always_thinks: bool, think: bool) -> Seq<char> {
    if always_thinks {
        "<think>\n"@
    } else if think {
        ""@
    } else {
        "<think>\n\n</think>\n\n"@
    }
}

/// The prompt for messages.
pub open spec fn prompt(
    ms: Seq<(Seq<char>, Seq<char>)>,
    always_thinks: bool,
    think: bool,
) -> Seq<char> {
    turns(ms) + "<|im_start|>assistant\n"@ + opening(always_thinks, think)
}

/// The prompt for messages, each a role and a content. `always_thinks` says that the model begins
/// every reply with reasoning, `think` that it may.
pub fn build_prompt(messages: &Vec<(String, String)>, always_thinks: bool, think: bool) -> (r:
    String)
    ensures
        r@ == prompt(message_texts(messages@), always_thinks, think),
{
    let mut p: String = String::new();
    let ghost all = message_texts(messages@);
    for i in 0..messages.len()
        invariant
            all == message_texts(messages@),
            p@ == turns(all.take(i as int)),
    {
        let ghost before = p@;
        p.append("<|im_start|>");
        p.append(messages[i].0.as_str());
        p.append("\n");
        p.append(messages[i].1.as_str());
        p.append("<|im_end|>\n");
        proof {
            assert(all.take(i + 1).drop_last() =~= all.take(i as int));
            assert(p@ =~= before + turn(all[i as int]));
        }
    }
    assert(all.take(messages@.len() as int) =~= all);
    p.append("<|im_start|>assistant\n");
    if always_thinks {
        p.append("<think>\n");
    } else if !think {
        p.append("<think>\n\n</think>\n\n");
    } else {
        proof {
            reveal_strlit("");
            assert(p@ + ""@ =~= p@);
        }
    }
    p
}

/// A conversation that goes on keeps the start of its prompt.
pub proof fn conversations_extend(
    ms: Seq<(Seq<char>, Seq<char>)>,
    more: Seq<(Seq<char>, Seq<char>)>,
    always_thinks: bool,
    think: bool,
)
    ensures
        text::begins_with(prompt(ms + more, always_thinks, think), turns(ms)),
    decreases more.len(),
{
    if more.len() == 0 {
        assert(ms + more =~= ms);
        let p = prompt(ms, always_thinks, think);
        assert(p.take(turns(ms).len() as int) =~= turns(ms));
    } else {
        let front = more.drop_last();
        conversations_extend(ms, front, always_thinks, think);
        assert((ms + more).drop_last() =~= ms + front);
        lemma_turns_extend(ms, more);
        let p = prompt(ms + more, always_thinks, think);
        let n = turns(ms).len() as int;
        assert(p.take(n) =~= turns(ms + more).take(n));
    }
}

/// The turns of a longer conversation begin with those of a shorter one.
proof fn lemma_turns_extend(ms: Seq<(Seq<char>, Seq<char>)>, more: Seq<(Seq<char>, Seq<char>)>)
    ensures
        turns(ms).len() <= turns(ms + more).len(),
        turns(ms + more).take(turns(ms).len() as int) == turns(ms),
    decreases more.len(),
{
    if more.len() == 0 {
        assert(ms + more =~= ms);
        assert(turns(ms).take(turns(ms).len() as int) =~= turns(ms));
    } else {
        let front = more.drop_last();
        lemma_turns_extend(ms, front);
        assert((ms + more).drop_last() =~= ms + front);
        let n = turns(ms).len() as int;
        assert(turns(ms + more).take(n) =~= turns(ms + front).take(n));
    }
}

/// Most tokens that a reply can have: those that were asked for, as far as the context has room
/// behind the prompt; `None` where the prompt leaves no room.
pub open spec fn room(prompt: nat, max_context: usize, asked: u64) -> Option<int> {
    if prompt + 1 >= max_context {
        None
    } else if asked < max_context - prompt - 1 {
        Some(asked as int)
    } else {
        Some(max_context - prompt - 1)
    }
}

/// Most tokens that a reply to a prompt of `prompt` tokens can have, where `asked` were asked for;
/// `None` where the context has no room for any.
pub fn reply_limit(prompt: usize, max_context: usize, asked: u64) -> (r: Option<usize>)
    ensures
        match r {
            Some(n) => room(prompt as nat, max_context, asked) == Some(n as int),
            None => room(prompt as nat, max_context, asked) is None,
        },
{
    if prompt >= max_context || max_context - prompt <= 1 {
        return None;
    }
    let left: usize = max_context - prompt - 1;
    if asked < left as u64 {
        Some(asked as usize)
    } else {
        Some(left)
    }
}

/// A prompt and its reply always fit the context.
pub proof fn replies_fit(prompt: nat, max_context: usize, asked: u64)
    ensures
        room(prompt, max_context, asked) matches Some(n) ==> 0 <= n <= asked && prompt + n
            < max_context,
{
}

/// What a counter says of the seed.
pub open spec fn seed_of(counter: u64) -> int {
    (counter * 0x9E3779B97F4A7C15) % 0x1_0000_0000_0000_0000
}

/// The seed of the request that came when `counter` had been counted.
pub fn seed(counter: u64) -> (r: u64)
    ensures
        r == seed_of(counter),
{
    counter.wrapping_mul(0x9E3779B97F4A7C15)
}

/// `q` asks for a reply to `prompt_ids`.
pub open spec fn requested(
    q: Request,
    prompt_ids: Seq<u32>,
    max_context: usize,
    asked: u64,
    temperature: u32,
    top_p: u32,
    counter: u64,
    im_end: u32,
    eos: u32,
) -> bool {
    &&& q.prompt_ids@ == prompt_ids
    &&& room(prompt_ids.len(), max_context, asked) == Some(q.max_tokens as int)
    &&& q.temperature == temperature
    &&& q.top_p == top_p
    &&& q.seed == seed_of(counter)
    &&& q.stop_ids@ == seq![im_end, eos]
}

/// What the scheduler is asked for: a reply to `prompt_ids` of as many tokens as there is room
/// for, up to the `asked` ones, that ends with its turn (`im_end`) or the text (`eos`). `None` where
/// the context has no room for a reply.
pub fn request(
    prompt_ids: Vec<u32>,
    max_context: usize,
    asked: u64,
    temperature: u32,
    top_p: u32,
    counter: u64,
    im_end: u32,
    eos: u32,
) -> (r: Option<Request>)
    ensures
        match r {
            Some(q) => {
                &&& q.prompt_ids == prompt_ids
                &&& room(prompt_ids@.len(), max_context, asked) == Some(q.max_tokens as int)
                &&& q.temperature == temperature
                &&& q.top_p == top_p
                &&& q.seed == seed_of(counter)
                &&& q.stop_ids@ == seq![im_end, eos]
                &&& requested(
                    q,
                    prompt_ids@,
                    max_context,
                    asked,
                    temperature,
                    top_p,
                    counter,
                    im_end,
                    eos,
                )
            },
            None => room(prompt_ids@.len(), max_context, asked) is None,
        },
{
    let max_tokens: usize = match reply_limit(prompt_ids.len(), max_context, asked) {
        Some(n) => n,
        None => {
            return None;
        },
    };
    let mut stop_ids: Vec<u32> = Vec::new();
    stop_ids.push(im_end);
    stop_ids.push(eos);
    assert(stop_ids@ =~= seq![im_end, eos]);
    Some(Request { prompt_ids, max_tokens, temperature, top_p, seed: seed(counter), stop_ids })
}

/// The name of the request that was counted as `n`.
pub fn request_id(n: u64) -> (r: String)
    ensures
        r@ == "chatcmpl-"@ + text::decimal(n as nat),
{
    let mut s: String = "chatcmpl-".to_string();
    text::push_decimal(&mut s, n);
    s
}

/// The turns of two conversations, one behind the other, are those of both.
proof fn lemma_turns_join(a: Seq<(Seq<char>, Seq<char>)>, b: Seq<(Seq<char>, Seq<char>)>)
    ensures
        turns(a + b) == turns(a) + turns(b),
    decreases b.len(),
{
    if b.len() == 0 {
        assert(a + b =~= a);
        assert(turns(a) + turns(b) =~= turns(a));
    } else {
        lemma_turns_join(a, b.drop_last());
        assert((a + b).drop_last() =~= a + b.drop_last());
        assert(turns(a + b) =~= turns(a) + turns(b));
    }
}

/// A prompt is the turns before message `i`, its own turn, and what stands behind it.
proof fn lemma_prompt_splits(
    ms: Seq<(Seq<char>, Seq<char>)>,
    always_thinks: bool,
    think: bool,
    i: int,
)
    requires
        0 <= i < ms.len(),
    ensures
        prompt(ms, always_thinks, think) == turns(ms.take(i)) + (turn(ms[i]) + (turns(
            ms.skip(i + 1),
        ) + "<|im_start|>assistant\n"@ + opening(always_thinks, think))),
{
    assert(ms =~= ms.take(i) + (seq![ms[i]] + ms.skip(i + 1)));
    lemma_turns_join(ms.take(i), seq![ms[i]] + ms.skip(i + 1));
    lemma_turns_join(seq![ms[i]], ms.skip(i + 1));
    assert(seq![ms[i]].drop_last() =~= Seq::<(Seq<char>, Seq<char>)>::empty());
    assert(turns(seq![ms[i]].drop_last()) =~= Seq::<char>::empty());
    assert(turns(seq![ms[i]]) =~= turn(ms[i]));
    assert(prompt(ms, always_thinks, think) =~= turns(ms.take(i)) + (turn(ms[i]) + (turns(
        ms.skip(i + 1),
    ) + "<|im_start|>assistant\n"@ + opening(always_thinks, think))));
}

/// Where message `i` stands in the prompt, and what a reader finds there: the start marker, the
/// message's own role up to the next line break, its own content, and the end marker.
#[verifier::spinoff_prover]
#[verifier::rlimit(40)]
pub proof fn turns_tell_role_and_content(
    ms: Seq<(Seq<char>, Seq<char>)>,
    always_thinks: bool,
    think: bool,
    i: int,
)
    requires
        0 <= i < ms.len(),
    ensures
        ({
            let (role, content) = ms[i];
            let from = prompt(ms, always_thinks, think).skip(turns(ms.take(i)).len() as int);
            let (start, end) = ("<|im_start|>"@, "<|im_end|>\n"@);
            let behind = from.skip(start.len() as int);
            let said = behind.skip(role.len() as int + 1);
            &&& text::begins_with(from, start)
            &&& !role.contains('\n') ==> text::found(behind, seq!['\n']) == Some(role.len() as int)
            &&& behind.take(role.len() as int) == role
            &&& behind[role.len() as int] == '\n'
            &&& said.take(content.len() as int) == content
            &&& text::begins_with(said.skip(content.len() as int), end)
            &&& i + 1 < ms.len() ==> text::begins_with(
                said.skip(content.len() as int).skip(end.len() as int),
                start,
            )
        }),
{
    let (role, content) = ms[i];
    let p = prompt(ms, always_thinks, think);
    let (start, end) = ("<|im_start|>"@, "<|im_end|>\n"@);
    let rest = turns(ms.skip(i + 1)) + "<|im_start|>assistant\n"@ + opening(always_thinks, think);
    lemma_prompt_splits(ms, always_thinks, think, i);
    let from = p.skip(turns(ms.take(i)).len() as int);
    assert(from =~= turn(ms[i]) + rest);
    lemma_turn_shape(ms[i], rest);
    lemma_reads(start, role, content, end, rest);
    if i + 1 < ms.len() {
        let later = ms.skip(i + 1);
        lemma_prompt_splits(later, always_thinks, think, 0);
        assert(later.take(0) =~= Seq::<(Seq<char>, Seq<char>)>::empty());
        assert(rest == prompt(later, always_thinks, think));
        assert(rest.take(start.len() as int) =~= start);
    }
}

/// The parts of a turn, and what stands behind it.
proof fn lemma_turn_shape(m: (Seq<char>, Seq<char>), rest: Seq<char>)
    ensures
        turn(m) + rest == "<|im_start|>"@ + (m.0 + (seq!['\n'] + (m.1 + ("<|im_end|>\n"@ + rest)))),
{
    reveal_strlit("\n");
    assert("\n"@ =~= seq!['\n']);
    assert(turn(m) + rest =~= "<|im_start|>"@ + (m.0 + (seq!['\n'] + (m.1 + ("<|im_end|>\n"@
        + rest)))));
}

/// What a reader finds who reads a role up to a line break, a content, and what ends it.
proof fn lemma_reads(
    start: Seq<char>,
    role: Seq<char>,
    content: Seq<char>,
    end: Seq<char>,
    rest: Seq<char>,
)
    ensures
        ({
            let from = start + (role + (seq!['\n'] + (content + (end + rest))));
            let behind = from.skip(start.len() as int);
            let said = behind.skip(role.len() as int + 1);
            let tail = said.skip(content.len() as int);
            &&& text::begins_with(from, start)
            &&& !role.contains('\n') ==> text::found(behind, seq!['\n']) == Some(role.len() as int)
            &&& behind.take(role.len() as int) == role
            &&& behind[role.len() as int] == '\n'
            &&& said.take(content.len() as int) == content
            &&& text::begins_with(tail, end)
            &&& tail.skip(end.len() as int) == rest
        }),
{
    let tail = end + rest;
    let said = content + tail;
    let behind = role + (seq!['\n'] + said);
    let from = start + behind;
    assert(from.take(start.len() as int) =~= start);
    assert(from.skip(start.len() as int) =~= behind);
    assert(behind.take(role.len() as int) =~= role);
    if !role.contains('\n') {
        let n = role.len() as int;
        assert(text::first_at(behind, seq!['\n'], n)) by {
            assert(behind.subrange(n, n + 1) =~= seq!['\n']);
            assert forall|j: int| 0 <= j < n implies !#[trigger] text::occurs_at(
                behind,
                seq!['\n'],
                j,
            ) by {
                if text::occurs_at(behind, seq!['\n'], j) {
                    assert(behind.subrange(j, j + 1)[0] == '\n');
                    assert(role[j] == '\n');
                }
            }
        }
        text::lemma_found(behind, seq!['\n'], n);
    }
    assert(behind.skip(role.len() as int + 1) =~= said);
    assert(said.take(content.len() as int) =~= content);
    assert(said.skip(content.len() as int) =~= tail);
    assert(tail.take(end.len() as int) =~= end);
    assert(tail.skip(end.len() as int) =~= rest);
}

/// Conversations that differ in one message, be it only in who speaks or only in what is said, have
/// different prompts.
#[verifier::spinoff_prover]
#[verifier::rlimit(40)]
pub proof fn messages_make_a_difference(
    ms: Seq<(Seq<char>, Seq<char>)>,
    i: int,
    other: (Seq<char>, Seq<char>),
    always_thinks: bool,
    think: bool,
)
    requires
        0 <= i < ms.len(),
        ms[i] != other,
        ms[i].0 == other.0 || ms[i].1 == other.1,
    ensures
        prompt(ms, always_thinks, think) != prompt(ms.update(i, other), always_thinks, think),
{
    let ns = ms.update(i, other);
    let (p, q) = (prompt(ms, always_thinks, think), prompt(ns, always_thinks, think));
    lemma_prompt_splits(ms, always_thinks, think, i);
    lemma_prompt_splits(ns, always_thinks, think, i);
    assert(ns.take(i) =~= ms.take(i));
    assert(ns.skip(i + 1) =~= ms.skip(i + 1));
    let k = turns(ms.take(i)).len() as int;
    let rest = turns(ms.skip(i + 1)) + "<|im_start|>assistant\n"@ + opening(always_thinks, think);
    let (a, b) = (turn(ms[i]), turn(other));
    if p == q {
        assert(p.skip(k) =~= a + rest);
        assert(q.skip(k) =~= b + rest);
        assert((a + rest).len() == (b + rest).len());
        assert(a.len() == b.len());
        assert((a + rest).take(a.len() as int) =~= a);
        assert((b + rest).take(a.len() as int) =~= b);
        let n = "<|im_start|>"@.len() as int;
        assert(ms[i].0.len() == other.0.len());
        assert(ms[i].1.len() == other.1.len());
        let (r, c) = (ms[i].0.len() as int, ms[i].1.len() as int);
        let brk = "\n"@.len() as int;
        assert(a.subrange(n, n + r) =~= ms[i].0);
        assert(b.subrange(n, n + r) =~= other.0);
        assert(a.subrange(n + r + brk, n + r + brk + c) =~= ms[i].1);
        assert(b.subrange(n + r + brk, n + r + brk + c) =~= other.1);
    }
}

/// A prompt ends with the turn of the assistant, opened for it: behind that a model that always
/// thinks finds its reasoning begun and not closed, one that is not to think finds it begun and
/// closed, and one that may think finds nothing.
pub proof fn replies_are_opened(
    ms: Seq<(Seq<char>, Seq<char>)>,
    always_thinks: bool,
    think: bool,
)
    ensures
        ({
            let behind = prompt(ms, always_thinks, think).skip(turns(ms).len() as int);
            let start = "<|im_start|>assistant\n"@;
            let opened = behind.skip(start.len() as int);
            &&& text::begins_with(behind, start)
            &&& always_thinks ==> opened == "<think>\n"@
            &&& !always_thinks && think ==> opened.len() == 0
            &&& !always_thinks && !think ==> opened == "<think>\n\n</think>\n\n"@
        }),
{
    let start = "<|im_start|>assistant\n"@;
    let p = prompt(ms, always_thinks, think);
    let behind = p.skip(turns(ms).len() as int);
    reveal_strlit("");
    assert(behind =~= start + opening(always_thinks, think));
    assert(behind.take(start.len() as int) =~= start);
    assert(behind.skip(start.len() as int) =~= opening(always_thinks, think));
}

/// Each message of a request becomes one message, in order: it has the role and the content that the
/// request gives it. One without a role is the user's; one without a content says nothing.
pub proof fn messages_are_read_in_order(req: json::Tree, a: Seq<json::Tree>, i: int)
    requires
        json::member(req, "messages"@) == Some(json::Tree::Array(a)),
        0 <= i < a.len(),
    ensures
        messages_of(req).len() == a.len(),
        forall|s: Seq<char>| #[trigger]
            json::member(a[i], "role"@) == Some(json::Tree::Str(s)) ==> messages_of(req)[i].0 == s,
        forall|s: Seq<char>| #[trigger]
            json::member(a[i], "content"@) == Some(json::Tree::Str(s)) ==> messages_of(req)[i].1
                == s,
        json::member(a[i], "role"@) is None ==> messages_of(req)[i].0 == "user"@,
        json::member(a[i], "content"@) is None ==> messages_of(req)[i].1.len() == 0,
{
    reveal_strlit("");
}

/// One stop text stands for the list of that text alone; a list gives its texts in order.
pub proof fn stops_are_read_in_order(one: json::Tree, list: json::Tree, texts: Seq<Seq<char>>)
    requires
        texts.len() == 1 ==> json::member(one, "stop"@) == Some(json::Tree::Str(texts[0])),
        json::member(list, "stop"@) == Some(
            json::Tree::Array(texts.map_values(|s: Seq<char>| json::Tree::Str(s))),
        ),
    ensures
        stops_of(list) == texts,
        texts.len() == 1 ==> stops_of(one) == stops_of(list),
{
    lemma_all_texts(texts);
    assert(texts.len() == 1 ==> seq![texts[0]] =~= texts);
}

/// A list of texts alone gives all of them.
proof fn lemma_all_texts(texts: Seq<Seq<char>>)
    ensures
        texts_among(texts.map_values(|s: Seq<char>| json::Tree::Str(s))) == texts,
    decreases texts.len(),
{
    let a = texts.map_values(|s: Seq<char>| json::Tree::Str(s));
    if texts.len() > 0 {
        lemma_all_texts(texts.drop_last());
        assert(a.drop_last() =~= texts.drop_last().map_values(
            |s: Seq<char>| json::Tree::Str(s),
        ));
        assert(texts_among(a) =~= texts);
    } else {
        assert(texts_among(a) =~= texts);
    }
}

/// A reply is cut short only where the context is full: it gets the tokens asked for, or all that
/// fit behind the prompt; and it is refused only where not one fits.
pub proof fn replies_get_what_fits(prompt: nat, max_context: usize, asked: u64)
    ensures
        match room(prompt, max_context, asked) {
            Some(n) => n == asked || (n < asked && prompt + n + 1 == max_context),
            None => prompt + 1 >= max_context,
        },
        prompt + 1 < max_context ==> room(prompt, max_context, asked) is Some,
{
}

/// What a document says of a request is followed under its names; without a limit a reply has at most
/// 256 tokens, and it is sent whole unless a stream is asked for.
pub proof fn requests_are_followed(
    r: ChatRequest,
    req: json::Tree,
    n: u64,
    flag: bool,
    number: json::Tree,
)
    requires
        asks(r, req),
        number is UInt || number is Num,
    ensures
        json::member(req, "max_tokens"@) == Some(json::Tree::UInt(n)) ==> r.max_tokens == n,
        json::member(req, "max_tokens"@) is None ==> r.max_tokens == 256,
        json::member(req, "stream"@) == Some(json::Tree::Bool(flag)) ==> r.streaming == flag,
        json::member(req, "stream"@) is None ==> !r.streaming,
        json::member(req, "temperature"@) == Some(number) ==> config::opt_tree(r.temperature)
            == Some(number),
        json::member(req, "temperature"@) is None ==> r.temperature is None,
        json::member(req, "top_p"@) == Some(number) ==> config::opt_tree(r.top_p) == Some(number),
        json::member(req, "top_p"@) is None ==> r.top_p is None,
{
}

/// A request fits the context with its reply, ends with the end of a turn or of the text and with
/// nothing else, and is sampled as asked; requests that are counted differently start from
/// different random numbers.
pub proof fn requests_fit_and_end(
    q: Request,
    p: Request,
    prompt_ids: Seq<u32>,
    max_context: usize,
    asked: u64,
    temperature: u32,
    top_p: u32,
    counter: u64,
    other: u64,
    im_end: u32,
    eos: u32,
    t: u32,
)
    requires
        requested(q, prompt_ids, max_context, asked, temperature, top_p, counter, im_end, eos),
        requested(p, prompt_ids, max_context, asked, temperature, top_p, other, im_end, eos),
    ensures
        q.prompt_ids@ == prompt_ids,
        prompt_ids.len() + q.max_tokens < max_context,
        q.max_tokens <= asked,
        q.max_tokens < asked ==> prompt_ids.len() + q.max_tokens + 1 == max_context,
        q.stop_ids@.contains(t) <==> t == im_end || t == eos,
        q.temperature == temperature && q.top_p == top_p,
        counter != other ==> q.seed != p.seed,
{
    replies_fit(prompt_ids.len(), max_context, asked);
    replies_get_what_fits(prompt_ids.len(), max_context, asked);
    assert(q.stop_ids@[0] == im_end && q.stop_ids@[1] == eos);
    if q.seed == p.seed {
        seeds_differ(counter, other);
    }
}

/// Different counts give different seeds.
pub proof fn seeds_differ(a: u64, b: u64)
    requires
        seed_of(a) == seed_of(b),
    ensures
        a == b,
{
    lemma_seed_back(a);
    lemma_seed_back(b);
}

/// The count is found again from its seed.
proof fn lemma_seed_back(a: u64)
    ensures
        (seed_of(a) * 0xF1DE83E19937733D) % 0x1_0000_0000_0000_0000 == a,
{
    let m: int = 0x1_0000_0000_0000_0000;
    let k: int = 0x9E3779B97F4A7C15;
    let v: int = 0xF1DE83E19937733D;
    let x: int = a as int;
    vstd::arithmetic::div_mod::lemma_mul_mod_noop_left(x * k, v, m);
    assert((x * k) * v == x * (k * v)) by (nonlinear_arith);
    let q: int = 0x957bbf35006ed677;
    assert(k * v == 1 + m * q);
    assert(x * (k * v) == m * (x * q) + x) by (nonlinear_arith)
        requires
            k * v == 1 + m * q,
    ;
    vstd::arithmetic::div_mod::lemma_mod_multiples_vanish(x * q, x, m);
    vstd::arithmetic::div_mod::lemma_small_mod(x as nat, m as nat);
}

} // verus!
