//! The documents that the server sends: events of a stream, whole replies, errors and its state.

use vstd::prelude::*;

use crate::http;
use crate::http::Route;
use crate::json;
use crate::json::Json;
use crate::pretokenize;
use crate::text;

verus! {

/// An object without members.
pub open spec fn object() -> Map<Seq<char>, json::Tree> {
    Map::empty()
}

/// A text as a document.
pub open spec fn string(s: Seq<char>) -> json::Tree {
    json::Tree::Str(s)
}

/// Adds a text.
fn put_text(o: &mut Vec<(String, Json)>, name: &str, value: &str)
    ensures
        json::members(final(o)@) == json::members(old(o)@).insert(name@, string(value@)),
        final(o)@.len() == old(o)@.len() + 1,
{
    json::push_member(o, name, Json::Str(value.to_string()));
}

/// Adds a whole number.
fn put_uint(o: &mut Vec<(String, Json)>, name: &str, value: u64)
    ensures
        json::members(final(o)@) == json::members(old(o)@).insert(name@, json::Tree::UInt(value)),
        final(o)@.len() == old(o)@.len() + 1,
{
    json::push_member(o, name, Json::UInt(value));
}

/// The array with one item.
fn single(item: Json) -> (r: Json)
    ensures
        r.tree() == json::Tree::Array(seq![item.tree()]),
{
    let mut a: Vec<Json> = Vec::new();
    a.push(item);
    proof {
        json::trees_items(a@);
        assert(json::trees(a@) =~= seq![item.tree()]);
    }
    Json::Array(a)
}

/// The object with members.
fn whole(o: Vec<(String, Json)>) -> (r: Json)
    ensures
        r.tree() == json::Tree::Object(json::members(o@)),
{
    Json::Object(o)
}

// ---------------------------------------------------------------------------------------
// Replies
// ---------------------------------------------------------------------------------------

/// The reason for an end, where there is one.
pub open spec fn reason(finish: Option<Seq<char>>) -> json::Tree {
    match finish {
        Some(f) => string(f),
        None => json::Tree::Null,
    }
}

/// The text of an optional text.
pub open spec fn text_of(s: Option<&str>) -> Option<Seq<char>> {
    match s {
        Some(s) => Some(s@),
        None => None,
    }
}

/// The document of an optional document.
pub open spec fn tree_of(j: Option<Json>) -> Option<json::Tree> {
    match j {
        Some(j) => Some(j.tree()),
        None => None,
    }
}

/// One event of a streamed reply.
pub open spec fn delta_event(
    id: Seq<char>,
    model: Seq<char>,
    delta: json::Tree,
    finish: Option<Seq<char>>,
    usage: Option<json::Tree>,
) -> json::Tree {
    let choice = json::Tree::Object(
        object().insert("index"@, json::Tree::UInt(0)).insert("delta"@, delta).insert(
            "finish_reason"@,
            reason(finish),
        ),
    );
    let m = object().insert("id"@, string(id)).insert(
        "object"@,
        string("chat.completion.chunk"@),
    ).insert("model"@, string(model)).insert("choices"@, json::Tree::Array(seq![choice]));
    json::Tree::Object(
        match usage {
            Some(u) => m.insert("usage"@, u),
            None => m,
        },
    )
}

/// One event of a streamed reply.
pub fn chunk_delta(
    id: &str,
    model: &str,
    delta: Json,
    finish: Option<&str>,
    usage: Option<Json>,
) -> (r: Json)
    ensures
        r.tree() == delta_event(id@, model@, delta.tree(), text_of(finish), tree_of(usage)),
{
    let mut choice: Vec<(String, Json)> = Vec::new();
    put_uint(&mut choice, "index", 0);
    json::push_member(&mut choice, "delta", delta);
    let why: Json = match finish {
        Some(f) => Json::Str(f.to_string()),
        None => Json::Null,
    };
    json::push_member(&mut choice, "finish_reason", why);
    let mut m: Vec<(String, Json)> = Vec::new();
    put_text(&mut m, "id", id);
    put_text(&mut m, "object", "chat.completion.chunk");
    put_text(&mut m, "model", model);
    json::push_member(&mut m, "choices", single(whole(choice)));
    if let Some(u) = usage {
        json::push_member(&mut m, "usage", u);
    }
    whole(m)
}

/// What an event adds to the answer.
pub open spec fn content_delta(content: Seq<char>) -> json::Tree {
    json::Tree::Object(
        if content.len() == 0 {
            object()
        } else {
            object().insert("content"@, string(content))
        },
    )
}

/// The event that adds `content` to the answer; with a reason, the event that ends the reply.
pub fn content_event(
    id: &str,
    model: &str,
    content: &str,
    finish: Option<&str>,
    usage: Option<Json>,
) -> (r: Json)
    ensures
        r.tree() == delta_event(
            id@,
            model@,
            content_delta(content@),
            text_of(finish),
            tree_of(usage),
        ),
{
    let mut delta: Vec<(String, Json)> = Vec::new();
    if !content.is_empty() {
        put_text(&mut delta, "content", content);
    }
    chunk_delta(id, model, whole(delta), finish, usage)
}

/// The event that adds `reasoning` to the reasoning.
pub fn reasoning_event(id: &str, model: &str, reasoning: &str) -> (r: Json)
    ensures
        r.tree() == delta_event(
            id@,
            model@,
            json::Tree::Object(object().insert("reasoning"@, string(reasoning@))),
            None,
            None,
        ),
{
    let mut delta: Vec<(String, Json)> = Vec::new();
    put_text(&mut delta, "reasoning", reasoning);
    chunk_delta(id, model, whole(delta), None, None)
}

/// The events that carry the answer and the reasoning can be read back by the client.
pub proof fn events_are_readable(
    id: Seq<char>,
    model: Seq<char>,
    t: Seq<char>,
    finish: Option<Seq<char>>,
)
    ensures
        json::simple(
            delta_event(id, model, content_delta(t), finish, None),
            json::DEPTH as nat,
        ),
        json::simple(
            delta_event(
                id,
                model,
                json::Tree::Object(object().insert("reasoning"@, string(t))),
                finish,
                None,
            ),
            json::DEPTH as nat,
        ),
{
    reveal_with_fuel(json::simple, 6);
}

/// What a reply took.
pub open spec fn usage_doc(
    prompt: int,
    completion: int,
    reasoning: int,
    cached: int,
    prefill_rate: json::Tree,
    decode_rate: json::Tree,
) -> json::Tree {
    json::Tree::Object(
        object().insert("prompt_tokens"@, json::Tree::UInt(prompt as u64)).insert(
            "completion_tokens"@,
            json::Tree::UInt(completion as u64),
        ).insert("total_tokens"@, json::Tree::UInt((prompt + completion) as u64)).insert(
            "completion_tokens_details"@,
            json::Tree::Object(
                object().insert("reasoning_tokens"@, json::Tree::UInt(reasoning as u64)),
            ),
        ).insert("cached_tokens"@, json::Tree::UInt(cached as u64)).insert(
            "prefill_tok_per_sec"@,
            prefill_rate,
        ).insert("decode_tok_per_sec"@, decode_rate),
    )
}

/// What a reply took: tokens of the prompt and of the reply, those of the reply that were
/// reasoning, those of the prompt that were remembered, and the rates of both in tokens per second.
pub fn usage(
    prompt: usize,
    completion: usize,
    reasoning: usize,
    cached: usize,
    prefill_rate: Json,
    decode_rate: Json,
) -> (r: Json)
    requires
        prompt + completion <= u64::MAX,
    ensures
        r.tree() == usage_doc(
            prompt as int,
            completion as int,
            reasoning as int,
            cached as int,
            prefill_rate.tree(),
            decode_rate.tree(),
        ),
{
    let mut details: Vec<(String, Json)> = Vec::new();
    put_uint(&mut details, "reasoning_tokens", reasoning as u64);
    let mut m: Vec<(String, Json)> = Vec::new();
    put_uint(&mut m, "prompt_tokens", prompt as u64);
    put_uint(&mut m, "completion_tokens", completion as u64);
    put_uint(&mut m, "total_tokens", prompt as u64 + completion as u64);
    json::push_member(&mut m, "completion_tokens_details", whole(details));
    put_uint(&mut m, "cached_tokens", cached as u64);
    json::push_member(&mut m, "prefill_tok_per_sec", prefill_rate);
    json::push_member(&mut m, "decode_tok_per_sec", decode_rate);
    whole(m)
}

/// A whole reply. Reasoning of white space alone is left out.
pub open spec fn completion_doc(
    id: Seq<char>,
    model: Seq<char>,
    content: Seq<char>,
    reasoning: Seq<char>,
    finish: Seq<char>,
    usage: json::Tree,
) -> json::Tree {
    let said = object().insert("role"@, string("assistant"@)).insert("content"@, string(content));
    let message = if text::trimmed(reasoning).len() > 0 {
        said.insert("reasoning"@, string(text::trimmed(reasoning)))
    } else {
        said
    };
    let choice = json::Tree::Object(
        object().insert("index"@, json::Tree::UInt(0)).insert(
            "message"@,
            json::Tree::Object(message),
        ).insert("finish_reason"@, string(finish)),
    );
    json::Tree::Object(
        object().insert("id"@, string(id)).insert("object"@, string("chat.completion"@)).insert(
            "model"@,
            string(model),
        ).insert("choices"@, json::Tree::Array(seq![choice])).insert("usage"@, usage),
    )
}

/// A whole reply.
pub fn completion(
    id: &str,
    model: &str,
    content: &[char],
    reasoning: &[char],
    finish: &str,
    usage: Json,
) -> (r: Json)
    ensures
        r.tree() == completion_doc(id@, model@, content@, reasoning@, finish@, usage.tree()),
{
    let mut message: Vec<(String, Json)> = Vec::new();
    put_text(&mut message, "role", "assistant");
    json::push_member(&mut message, "content", Json::Str(text::string_of(content)));
    let thought: Vec<char> = text::trim(reasoning);
    if thought.len() > 0 {
        json::push_member(&mut message, "reasoning", Json::Str(text::string_of(thought.as_slice())));
    }
    let mut choice: Vec<(String, Json)> = Vec::new();
    put_uint(&mut choice, "index", 0);
    json::push_member(&mut choice, "message", whole(message));
    put_text(&mut choice, "finish_reason", finish);
    let mut m: Vec<(String, Json)> = Vec::new();
    put_text(&mut m, "id", id);
    put_text(&mut m, "object", "chat.completion");
    put_text(&mut m, "model", model);
    json::push_member(&mut m, "choices", single(whole(choice)));
    json::push_member(&mut m, "usage", usage);
    whole(m)
}

// ---------------------------------------------------------------------------------------
// Errors and the state of the server
// ---------------------------------------------------------------------------------------

/// An error.
pub open spec fn error_doc(message: Seq<char>) -> json::Tree {
    json::Tree::Object(
        object().insert(
            "error"@,
            json::Tree::Object(object().insert("message"@, string(message))),
        ),
    )
}

/// An error.
pub fn error(message: &str) -> (r: Json)
    ensures
        r.tree() == error_doc(message@),
{
    let mut inner: Vec<(String, Json)> = Vec::new();
    put_text(&mut inner, "message", message);
    let mut m: Vec<(String, Json)> = Vec::new();
    json::push_member(&mut m, "error", whole(inner));
    whole(m)
}

/// The body of a chat request that is no document.
pub fn bad_json(reason: &str) -> (r: Json)
    ensures
        r.tree() == error_doc("bad json: "@ + reason@),
{
    let mut s: String = "bad json: ".to_string();
    s.append(reason);
    error(s.as_str())
}

/// A prompt of `prompt` tokens leaves a context of `max_context` tokens no room.
pub fn context_error(prompt: usize, max_context: usize) -> (r: Json)
    ensures
        r.tree() == error_doc(
            "prompt of "@ + text::decimal(prompt as nat) + " tokens exceeds context "@
                + text::decimal(max_context as nat),
        ),
{
    let mut s: String = "prompt of ".to_string();
    text::push_decimal(&mut s, prompt as u64);
    s.append(" tokens exceeds context ");
    text::push_decimal(&mut s, max_context as u64);
    error(s.as_str())
}

/// The state of a server that answers: its model, where it computes, and what it was built from.
pub open spec fn health_doc(model: Seq<char>, device: Seq<char>, build: Seq<char>) -> json::Tree {
    json::Tree::Object(
        object().insert("status"@, string("ok"@)).insert("model"@, string(model)).insert(
            "device"@,
            string(device),
        ).insert("build"@, string(build)),
    )
}

/// The models of the server.
pub open spec fn models_doc(model: Seq<char>) -> json::Tree {
    json::Tree::Object(
        object().insert("object"@, string("list"@)).insert(
            "data"@,
            json::Tree::Array(
                seq![
                    json::Tree::Object(
                        object().insert("id"@, string(model)).insert("object"@, string("model"@)),
                    ),
                ],
            ),
        ),
    )
}

/// The state of a server that answers.
pub fn health(model: &str, device: &str, build: &str) -> (r: Json)
    ensures
        r.tree() == health_doc(model@, device@, build@),
{
    let mut m: Vec<(String, Json)> = Vec::new();
    put_text(&mut m, "status", "ok");
    put_text(&mut m, "model", model);
    put_text(&mut m, "device", device);
    put_text(&mut m, "build", build);
    whole(m)
}

/// The models of the server.
pub fn models(model: &str) -> (r: Json)
    ensures
        r.tree() == models_doc(model@),
{
    let mut one: Vec<(String, Json)> = Vec::new();
    put_text(&mut one, "id", model);
    put_text(&mut one, "object", "model");
    let mut m: Vec<(String, Json)> = Vec::new();
    put_text(&mut m, "object", "list");
    json::push_member(&mut m, "data", single(whole(one)));
    whole(m)
}

/// The state of a server whose model loads, `progress` in thousandths, or could not be loaded.
pub open spec fn loading_doc(
    model: Seq<char>,
    build: Seq<char>,
    progress: u32,
    failure: Option<Seq<char>>,
) -> json::Tree {
    let m = object().insert(
        "status"@,
        string(
            if failure is Some {
                "error"@
            } else {
                "loading"@
            },
        ),
    ).insert("model"@, string(model)).insert("build"@, string(build)).insert(
        "progress"@,
        json::Tree::UInt(progress as u64),
    );
    json::Tree::Object(
        match failure {
            Some(f) => m.insert("error"@, string(f)),
            None => m,
        },
    )
}

/// The state of a server whose model loads, or could not be loaded.
pub fn loading(model: &str, build: &str, progress: u32, failure: Option<&str>) -> (r: Json)
    ensures
        r.tree() == loading_doc(model@, build@, progress, text_of(failure)),
{
    let mut m: Vec<(String, Json)> = Vec::new();
    match failure {
        Some(_) => put_text(&mut m, "status", "error"),
        None => put_text(&mut m, "status", "loading"),
    }
    put_text(&mut m, "model", model);
    put_text(&mut m, "build", build);
    put_uint(&mut m, "progress", progress as u64);
    if let Some(f) = failure {
        put_text(&mut m, "error", f);
    }
    whole(m)
}

/// What a server that answers says to a request that is no chat, or whose body is no document.
pub open spec fn plain_answer(
    route: Route,
    body: Seq<u8>,
    model: Seq<char>,
    device: Seq<char>,
    build: Seq<char>,
) -> Option<Seq<char>> {
    match route {
        Route::Health => Some(
            http::response(200, seq![], json::json_print(health_doc(model, device, build))),
        ),
        Route::Models => Some(http::response(200, seq![], json::json_print(models_doc(model)))),
        Route::Unknown => Some(
            http::response(404, seq![], json::json_print(error_doc("not found"@))),
        ),
        Route::Chat => match json::json_read(body) {
            Ok(_) => None,
            Err(e) => Some(
                http::response(400, seq![], json::json_print(error_doc("bad json: "@ + e))),
            ),
        },
    }
}

/// What a server that answers says to a request: the response to it, or the document that a chat
/// request holds.
pub fn answer(route: Route, body: &[u8], model: &str, device: &str, build: &str) -> (r: Result<
    Json,
    String,
>)
    ensures
        match r {
            Ok(j) => {
                &&& plain_answer(route, body@, model@, device@, build@) is None
                &&& route is Chat
                &&& json::reads_as(body@, j.tree())
            },
            Err(s) => plain_answer(route, body@, model@, device@, build@) == Some(s@),
        },
{
    match route {
        Route::Health => Err(http::respond_json(200, &health(model, device, build))),
        Route::Models => Err(http::respond_json(200, &models(model))),
        Route::Unknown => Err(http::respond_json(404, &error("not found"))),
        Route::Chat => match json::read(body) {
            Ok(j) => Ok(j),
            Err(e) => Err(http::respond_json(400, &bad_json(e.as_str()))),
        },
    }
}

/// What a server whose model loads says to a request: its state to who asks for it, and to all
/// others that they ask again.
pub fn answer_loading(
    route: Route,
    model: &str,
    build: &str,
    progress: u32,
    failure: Option<&str>,
) -> (r: String)
    ensures
        ({
            let body = json::json_print(loading_doc(model@, build@, progress, text_of(failure)));
            r@ == (if route is Health {
                http::response(200, seq![], body)
            } else {
                http::response(503, http::retry_header(), body)
            })
        }),
{
    let doc: Json = loading(model, build, progress, failure);
    match route {
        Route::Health => http::respond_json(200, &doc),
        _ => http::respond_later(&doc),
    }
}

// ---------------------------------------------------------------------------------------
// What a client reads
// ---------------------------------------------------------------------------------------

/// The only choice of a document.
pub open spec fn the_choice(t: json::Tree) -> Option<json::Tree> {
    match json::items_of(json::member(t, "choices"@)) {
        Some(a) => if a.len() == 1 {
            Some(a[0])
        } else {
            None
        },
        None => None,
    }
}

/// What stands under `name` in `part` of the only choice of a document.
pub open spec fn in_choice(t: json::Tree, part: Seq<char>, name: Seq<char>) -> Option<json::Tree> {
    match the_choice(t) {
        Some(c) => match json::member(c, part) {
            Some(p) => json::member(p, name),
            None => None,
        },
        None => None,
    }
}

/// The text that an event adds to the answer, as a client reads it: the content of its delta, and
/// nothing where there is none.
pub open spec fn added_text(t: json::Tree) -> Seq<char> {
    match json::str_of(in_choice(t, "delta"@, "content"@)) {
        Some(s) => s,
        None => seq![],
    }
}

/// No two of the names in a reply are alike.
proof fn lemma_names_differ()
    ensures
        "id"@.len() == 2,
        "role"@.len() == 4,
        "model"@.len() == 5,
        "usage"@.len() == 5,
        "index"@.len() == 5,
        "delta"@.len() == 5,
        "model"@ != "usage"@,
        "index"@ != "delta"@,
        "object"@.len() == 6,
        "choices"@.len() == 7,
        "message"@.len() == 7,
        "content"@.len() == 7,
        "reasoning"@.len() == 9,
        "finish_reason"@.len() == 13,
{
    reveal_strlit("id");
    reveal_strlit("role");
    reveal_strlit("model");
    reveal_strlit("usage");
    reveal_strlit("index");
    reveal_strlit("delta");
    reveal_strlit("object");
    reveal_strlit("choices");
    reveal_strlit("message");
    reveal_strlit("content");
    reveal_strlit("reasoning");
    reveal_strlit("finish_reason");
    assert("model"@[0] != "usage"@[0]);
    assert("index"@[0] != "delta"@[0]);
}

/// An event says whose it is, and holds one choice with what it adds and the reason for the end, if
/// it is the last; what the reply took stands beside it.
proof fn lemma_event(
    id: Seq<char>,
    model: Seq<char>,
    delta: json::Tree,
    finish: Option<Seq<char>>,
    used: Option<json::Tree>,
)
    ensures
        ({
            let e = delta_event(id, model, delta, finish, used);
            &&& json::member(e, "id"@) == Some(json::Tree::Str(id))
            &&& json::member(e, "model"@) == Some(json::Tree::Str(model))
            &&& json::member(e, "object"@) == Some(json::Tree::Str("chat.completion.chunk"@))
            &&& json::member(e, "usage"@) == used
            &&& the_choice(e) matches Some(c) && json::member(c, "index"@) == Some(
                json::Tree::UInt(0),
            ) && json::member(c, "delta"@) == Some(delta) && json::member(c, "finish_reason"@)
                == Some(
                match finish {
                    Some(f) => json::Tree::Str(f),
                    None => json::Tree::Null,
                },
            )
        }),
{
    lemma_names_differ();
}

/// The event for a piece of the answer holds that piece, every character of it, white space
/// included, and nothing of the reasoning; it says whose it is, why the reply ends if it does, and
/// what it took if that is known.
pub proof fn events_hold_their_piece(
    id: Seq<char>,
    model: Seq<char>,
    t: Seq<char>,
    finish: Option<Seq<char>>,
    used: Option<json::Tree>,
)
    ensures
        ({
            let e = delta_event(id, model, content_delta(t), finish, used);
            &&& added_text(e) == t
            &&& t.len() > 0 ==> in_choice(e, "delta"@, "content"@) == Some(json::Tree::Str(t))
            &&& in_choice(e, "delta"@, "reasoning"@) is None
            &&& json::member(e, "id"@) == Some(json::Tree::Str(id))
            &&& json::member(e, "model"@) == Some(json::Tree::Str(model))
            &&& json::member(e, "object"@) == Some(json::Tree::Str("chat.completion.chunk"@))
            &&& json::member(e, "usage"@) == used
            &&& the_choice(e) matches Some(c) && json::member(c, "finish_reason"@) == Some(
                match finish {
                    Some(f) => json::Tree::Str(f),
                    None => json::Tree::Null,
                },
            )
        }),
{
    lemma_names_differ();
    lemma_event(id, model, content_delta(t), finish, used);
    let e = delta_event(id, model, content_delta(t), finish, used);
    if t.len() == 0 {
        assert(added_text(e) =~= t);
    }
}

/// The pieces of a streamed answer, read from its events one behind the other, are the answer.
pub proof fn streams_are_the_answer(id: Seq<char>, model: Seq<char>, pieces: Seq<Seq<char>>)
    ensures
        pretokenize::joined(
            pieces.map_values(
                |t: Seq<char>|
                    added_text(delta_event(id, model, content_delta(t), None, None)),
            ),
        ) == pretokenize::joined(pieces),
{
    let read = pieces.map_values(
        |t: Seq<char>| added_text(delta_event(id, model, content_delta(t), None, None)),
    );
    assert forall|i: int| 0 <= i < pieces.len() implies read[i] == pieces[i] by {
        events_hold_their_piece(id, model, pieces[i], None, None);
    }
    assert(read =~= pieces);
}

/// The event for a piece of the reasoning holds that piece, every character of it, and adds nothing
/// to the answer.
pub proof fn reasoning_is_told_apart(id: Seq<char>, model: Seq<char>, t: Seq<char>)
    ensures
        ({
            let e = delta_event(
                id,
                model,
                json::Tree::Object(object().insert("reasoning"@, string(t))),
                None,
                None,
            );
            &&& in_choice(e, "delta"@, "reasoning"@) == Some(json::Tree::Str(t))
            &&& added_text(e).len() == 0
            &&& json::member(e, "id"@) == Some(json::Tree::Str(id))
            &&& json::member(e, "model"@) == Some(json::Tree::Str(model))
        }),
{
    lemma_names_differ();
    lemma_event(
        id,
        model,
        json::Tree::Object(object().insert("reasoning"@, string(t))),
        None,
        None,
    );
}

/// A whole reply holds the answer, every character of it, as the assistant's; the reasoning beside
/// it, without the white space round it, where there is any; why it ended and what it took.
pub proof fn replies_hold_the_answer(
    id: Seq<char>,
    model: Seq<char>,
    content: Seq<char>,
    reasoning: Seq<char>,
    finish: Seq<char>,
    used: json::Tree,
)
    ensures
        ({
            let d = completion_doc(id, model, content, reasoning, finish, used);
            let thought = in_choice(d, "message"@, "reasoning"@);
            &&& json::member(d, "id"@) == Some(json::Tree::Str(id))
            &&& json::member(d, "model"@) == Some(json::Tree::Str(model))
            &&& json::member(d, "object"@) == Some(json::Tree::Str("chat.completion"@))
            &&& json::member(d, "usage"@) == Some(used)
            &&& in_choice(d, "message"@, "content"@) == Some(json::Tree::Str(content))
            &&& in_choice(d, "message"@, "role"@) == Some(json::Tree::Str("assistant"@))
            &&& the_choice(d) matches Some(c) && json::member(c, "finish_reason"@) == Some(
                json::Tree::Str(finish),
            ) && json::member(c, "index"@) == Some(json::Tree::UInt(0))
            &&& match thought {
                Some(json::Tree::Str(s)) => s == text::trimmed(reasoning) && s.len() > 0,
                Some(_) => false,
                None => text::trimmed(reasoning).len() == 0,
            }
        }),
{
    lemma_names_differ();
}

/// Each count that a reply took stands under its own name, and the tokens of the prompt and of the
/// reply add up to all of them.
pub proof fn counts_stand_under_their_names(
    prompt: int,
    completion: int,
    reasoning: int,
    cached: int,
    prefill_rate: json::Tree,
    decode_rate: json::Tree,
)
    requires
        0 <= prompt,
        0 <= completion,
        prompt + completion <= u64::MAX,
        0 <= reasoning <= u64::MAX,
        0 <= cached <= u64::MAX,
    ensures
        ({
            let d = usage_doc(prompt, completion, reasoning, cached, prefill_rate, decode_rate);
            let count = |name: Seq<char>| json::uint_of(json::member(d, name));
            &&& count("prompt_tokens"@) matches Some(a) && a == prompt
            &&& count("completion_tokens"@) matches Some(b) && b == completion
            &&& count("total_tokens"@) matches Some(c) && c == prompt + completion
            &&& count("cached_tokens"@) matches Some(k) && k == cached
            &&& json::member(d, "completion_tokens_details"@) matches Some(x) && json::uint_of(
                json::member(x, "reasoning_tokens"@),
            ) matches Some(r) && r == reasoning
            &&& json::member(d, "prefill_tok_per_sec"@) == Some(prefill_rate)
            &&& json::member(d, "decode_tok_per_sec"@) == Some(decode_rate)
        }),
{
    reveal_strlit("prompt_tokens");
    reveal_strlit("completion_tokens");
    reveal_strlit("total_tokens");
    reveal_strlit("completion_tokens_details");
    reveal_strlit("cached_tokens");
    reveal_strlit("prefill_tok_per_sec");
    reveal_strlit("decode_tok_per_sec");
    assert("prompt_tokens"@[0] != "cached_tokens"@[0]);
    assert("prompt_tokens"@.len() == 13 && "completion_tokens"@.len() == 17
        && "total_tokens"@.len() == 12 && "completion_tokens_details"@.len() == 25
        && "cached_tokens"@.len() == 13 && "prefill_tok_per_sec"@.len() == 19
        && "decode_tok_per_sec"@.len() == 18);
}

/// What a client finds in an error, in the list of models and in the state of the server.
pub proof fn state_is_told(
    message: Seq<char>,
    model: Seq<char>,
    device: Seq<char>,
    build: Seq<char>,
    progress: u32,
    failure: Option<Seq<char>>,
)
    ensures
        json::member(error_doc(message), "error"@) matches Some(e) && json::member(e, "message"@)
            == Some(json::Tree::Str(message)),
        json::items_of(json::member(models_doc(model), "data"@)) matches Some(a) && a.len() == 1
            && json::member(a[0], "id"@) == Some(json::Tree::Str(model)) && json::member(
            a[0],
            "object"@,
        ) == Some(json::Tree::Str("model"@)),
        json::member(models_doc(model), "object"@) == Some(json::Tree::Str("list"@)),
        ({
            let h = health_doc(model, device, build);
            &&& json::member(h, "status"@) == Some(json::Tree::Str("ok"@))
            &&& json::member(h, "model"@) == Some(json::Tree::Str(model))
            &&& json::member(h, "device"@) == Some(json::Tree::Str(device))
            &&& json::member(h, "build"@) == Some(json::Tree::Str(build))
        }),
        ({
            let l = loading_doc(model, build, progress, failure);
            &&& json::member(l, "model"@) == Some(json::Tree::Str(model))
            &&& json::member(l, "build"@) == Some(json::Tree::Str(build))
            &&& json::member(l, "progress"@) == Some(json::Tree::UInt(progress as u64))
            &&& json::member(l, "status"@) == Some(
                json::Tree::Str(
                    if failure is Some {
                        "error"@
                    } else {
                        "loading"@
                    },
                ),
            )
            &&& json::str_of(json::member(l, "error"@)) == failure
        }),
{
    reveal_strlit("error");
    reveal_strlit("message");
    reveal_strlit("object");
    reveal_strlit("data");
    reveal_strlit("id");
    reveal_strlit("status");
    reveal_strlit("model");
    reveal_strlit("device");
    reveal_strlit("build");
    reveal_strlit("progress");
    assert("model"@[0] != "build"@[0] && "model"@[0] != "error"@[0] && "build"@[0] != "error"@[0]);
    assert("status"@[0] != "device"@[0]);
    assert("data"@.len() == 4 && "object"@.len() == 6 && "id"@.len() == 2);
}

/// What a server answers, by what it was asked: its state, its models, that there is nothing, or
/// that a chat request was no document; a chat request that is a document is answered by the model.
pub proof fn requests_are_told_apart(
    route: Route,
    body: Seq<u8>,
    model: Seq<char>,
    device: Seq<char>,
    build: Seq<char>,
)
    ensures
        match plain_answer(route, body, model, device, build) {
            None => route is Chat && json::json_read(body) is Ok,
            Some(s) => {
                &&& route is Health ==> text::begins_with(s, "HTTP/1.1 200 OK"@)
                &&& route is Models ==> text::begins_with(s, "HTTP/1.1 200 OK"@)
                &&& route is Unknown ==> text::begins_with(s, "HTTP/1.1 404 Not Found"@)
                &&& route is Chat ==> text::begins_with(s, "HTTP/1.1 400 Bad Request"@)
                    && json::json_read(body) is Err
            },
        },
{
    http::lemma_status_lines();
    if let Some(s) = plain_answer(route, body, model, device, build) {
        match route {
            Route::Health => {
                http::responses_begin_with_status(
                    200,
                    seq![],
                    json::json_print(health_doc(model, device, build)),
                );
            },
            Route::Models => {
                http::responses_begin_with_status(
                    200,
                    seq![],
                    json::json_print(models_doc(model)),
                );
            },
            Route::Unknown => {
                http::responses_begin_with_status(
                    404,
                    seq![],
                    json::json_print(error_doc("not found"@)),
                );
            },
            Route::Chat => {
                let e = json::json_read(body)->Err_0;
                http::responses_begin_with_status(
                    400,
                    seq![],
                    json::json_print(error_doc("bad json: "@ + e)),
                );
            },
        }
    }
}

} // verus!
