//! The part of HTTP/1.1 that the server speaks: request lines, headers, responses and chunks.

use vstd::prelude::*;
use vstd::utf8::*;

use crate::json;
use crate::json::Json;
use crate::names;
use crate::roundtrip;
use crate::text;

verus! {

/// What a request asks for.
#[derive(Debug, Clone, Copy, PartialEq, Eq, Structural)]
pub enum Route {
    Health,
    Models,
    Chat,
    Unknown,
}

/// What the request line asks for.
pub open spec fn routed(line: Seq<char>) -> Route {
    if text::begins_with(line, "GET /health"@) {
        Route::Health
    } else if text::begins_with(line, "GET /v1/models"@) {
        Route::Models
    } else if text::begins_with(line, "POST /v1/chat/completions"@) {
        Route::Chat
    } else {
        Route::Unknown
    }
}

/// Whether `line` starts with `prefix`.
fn begins(line: &Vec<char>, prefix: &str) -> (r: bool)
    ensures
        r == text::begins_with(line@, prefix@),
{
    let p: Vec<char> = text::chars_of(prefix);
    text::starts_with(line.as_slice(), p.as_slice())
}

/// What the request line asks for.
pub fn route(line: &str) -> (r: Route)
    ensures
        r == routed(line@),
{
    let cs: Vec<char> = text::chars_of(line);
    if begins(&cs, "GET /health") {
        Route::Health
    } else if begins(&cs, "GET /v1/models") {
        Route::Models
    } else if begins(&cs, "POST /v1/chat/completions") {
        Route::Chat
    } else {
        Route::Unknown
    }
}

/// The length of the body that a header line gives, if it is the header for that; `0` where it
/// gives no number.
pub open spec fn length_given(line: Seq<char>) -> Option<usize> {
    let low = text::lowered(line);
    let name = "content-length:"@;
    if text::begins_with(low, name) {
        match text::parsed_size(text::trimmed(low.skip(name.len() as int))) {
            Some(n) => Some(n),
            None => Some(0),
        }
    } else {
        None
    }
}

/// The line ends the headers.
pub open spec fn ends_head(line: Seq<char>) -> bool {
    text::trimmed(line).len() == 0
}

/// The length of the body behind the header lines `lines`: the last one given before the headers
/// end.
pub open spec fn body_length(lines: Seq<Seq<char>>) -> usize
    decreases lines.len(),
{
    if lines.len() == 0 {
        0
    } else {
        match length_given(lines.last()) {
            Some(n) => n,
            None => body_length(lines.drop_last()),
        }
    }
}

/// The headers of a request as they are read.
pub struct Head {
    pub content_length: usize,
    /// The header lines that were read.
    pub lines: Ghost<Seq<Seq<char>>>,
}

impl Head {
    /// The length is that of the lines.
    pub open spec fn wf(&self) -> bool {
        self.content_length == body_length(self.lines@)
    }

    /// No header has been read.
    pub fn new() -> (r: Head)
        ensures
            r.wf(),
            r.lines@ == Seq::<Seq<char>>::empty(),
            r.content_length == 0,
    {
        Head { content_length: 0, lines: Ghost(Seq::empty()) }
    }

    /// Reads one line. Returns whether the headers go on behind it.
    pub fn read(&mut self, line: &str) -> (r: bool)
        requires
            old(self).wf(),
        ensures
            final(self).wf(),
            r == !ends_head(line@),
            final(self).lines@ == (if r {
                old(self).lines@.push(line@)
            } else {
                old(self).lines@
            }),
    {
        let cs: Vec<char> = text::chars_of(line);
        if text::trim(cs.as_slice()).len() == 0 {
            return false;
        }
        proof {
            assert(self.lines@.push(line@).drop_last() =~= self.lines@);
        }
        let low: Vec<char> = text::to_lowered(cs.as_slice());
        let name: Vec<char> = text::chars_of("content-length:");
        if text::starts_with(low.as_slice(), name.as_slice()) {
            let rest = vstd::slice::slice_subrange(low.as_slice(), name.len(), low.len());
            assert(rest@ =~= low@.skip(name@.len() as int));
            let number: String = text::string_of(text::trim(rest).as_slice());
            self.content_length = match text::parse_size(number.as_str()) {
                Some(n) => n,
                None => 0,
            };
        }
        self.lines = Ghost(self.lines@.push(line@));
        true
    }
}

// ---------------------------------------------------------------------------------------
// Responses
// ---------------------------------------------------------------------------------------

/// The name of a status.
pub open spec fn status_name(code: u16) -> Seq<char> {
    if code == 200 {
        "OK"@
    } else if code == 400 {
        "Bad Request"@
    } else if code == 404 {
        "Not Found"@
    } else {
        "Error"@
    }
}

/// A client that reads the text of the document gets the document, where its numbers are whole and
/// it is not nested too deep.
pub open spec fn reads_back(t: json::Tree) -> bool {
    json::simple(t, json::DEPTH as nat) ==> json::reads_as(encode_utf8(json::json_print(t)), t)
}

/// A response with a text as its body. `extra` are further header lines.
pub open spec fn response(code: u16, extra: Seq<char>, body: Seq<char>) -> Seq<char> {
    "HTTP/1.1 "@ + text::decimal(code as nat) + " "@ + status_name(code)
        + "\r\nContent-Type: application/json\r\nConnection: close\r\n"@ + extra
        + "Content-Length: "@ + text::decimal(encode_utf8(body).len()) + "\r\n\r\n"@ + body
}

/// Writes a response.
fn write_response(code: u16, extra: &str, body: &Json) -> (r: String)
    ensures
        r@ == response(code, extra@, json::json_print(body.tree())),
        reads_back(body.tree()),
{
    let printed: String = body.print();
    let name = match code {
        200 => "OK",
        400 => "Bad Request",
        404 => "Not Found",
        _ => "Error",
    };
    let mut out: String = "HTTP/1.1 ".to_string();
    text::push_decimal(&mut out, code as u64);
    out.append(" ");
    out.append(name);
    out.append("\r\nContent-Type: application/json\r\nConnection: close\r\n");
    out.append(extra);
    out.append("Content-Length: ");
    text::push_decimal(&mut out, printed.as_str().as_bytes().len() as u64);
    out.append("\r\n\r\n");
    out.append(printed.as_str());
    out
}

/// The response with status `code` whose body is the document `v`.
pub fn respond_json(code: u16, v: &Json) -> (r: String)
    ensures
        r@ == response(code, Seq::<char>::empty(), json::json_print(v.tree())),
        reads_back(v.tree()),
{
    proof {
        reveal_strlit("");
        assert(""@ =~= Seq::<char>::empty());
    }
    write_response(code, "", v)
}

/// Seconds after which a client asks again while the model loads.
pub open spec fn retry_header() -> Seq<char> {
    "Retry-After: 5\r\n"@
}

/// The response of a server that cannot answer yet.
pub fn respond_later(v: &Json) -> (r: String)
    ensures
        r@ == response(503, retry_header(), json::json_print(v.tree())),
{
    write_response(503, "Retry-After: 5\r\n", v)
}

// ---------------------------------------------------------------------------------------
// Chunks
// ---------------------------------------------------------------------------------------

/// A chunk that holds `payload`.
pub open spec fn chunk(payload: Seq<char>) -> Seq<char> {
    text::hexadecimal(encode_utf8(payload).len()) + "\r\n"@ + payload + "\r\n"@
}

/// An event whose data is the document `t`.
pub open spec fn event(t: json::Tree) -> Seq<char> {
    "data: "@ + json::json_print(t) + "\n\n"@
}

/// Writes a chunk.
fn write_chunk(payload: &str) -> (r: String)
    ensures
        r@ == chunk(payload@),
{
    let mut out: String = String::new();
    text::push_hexadecimal(&mut out, payload.as_bytes().len() as u64);
    out.append("\r\n");
    out.append(payload);
    out.append("\r\n");
    proof {
        assert(out@ =~= chunk(payload@));
    }
    out
}

/// The chunk with an event whose data is the document `v`.
pub fn write_sse(v: &Json) -> (r: String)
    ensures
        r@ == chunk(event(v.tree())),
        reads_back(v.tree()),
{
    let mut payload: String = "data: ".to_string();
    payload.append(v.print().as_str());
    payload.append("\n\n");
    write_chunk(payload.as_str())
}

/// The head of a response that is a stream of events.
pub fn stream_head() -> (r: &'static str)
    ensures
        r@
            == "HTTP/1.1 200 OK\r\nContent-Type: text/event-stream\r\nCache-Control: no-cache\r\nConnection: close\r\nTransfer-Encoding: chunked\r\n\r\n"@,
{
    "HTTP/1.1 200 OK\r\nContent-Type: text/event-stream\r\nCache-Control: no-cache\r\nConnection: close\r\nTransfer-Encoding: chunked\r\n\r\n"
}

/// The end of a stream of events.
pub open spec fn ending() -> Seq<char> {
    chunk("data: [DONE]\n\n"@) + "0\r\n\r\n"@
}

/// The end of a stream of events: the event that says so, and the chunk that holds nothing.
pub fn stream_end() -> (r: String)
    ensures
        r@ == chunk("data: [DONE]\n\n"@) + "0\r\n\r\n"@,
        r@ == ending(),
{
    let mut out: String = write_chunk("data: [DONE]\n\n");
    out.append("0\r\n\r\n");
    out
}

/// The end of a line.
pub open spec fn crlf() -> Seq<u8> {
    seq![13u8, 10u8]
}

/// The value of a hexadecimal digit.
pub open spec fn hex_digit(b: u8) -> int {
    if b < 97 {
        b - 48
    } else {
        b - 87
    }
}

/// The number that hexadecimal digits write.
pub open spec fn hex_number(s: Seq<u8>) -> int
    decreases s.len(),
{
    if s.len() == 0 {
        0
    } else {
        hex_number(s.drop_last()) * 16 + hex_digit(s.last())
    }
}

/// The first chunk of a stream, and what stands behind it, as a client reads them.
pub open spec fn first_chunk(s: Seq<u8>) -> Option<(Seq<u8>, Seq<u8>)> {
    match text::found(s, crlf()) {
        None => None,
        Some(i) => {
            let from = i + 2;
            let to = from + hex_number(s.take(i));
            if from <= to && to + 2 <= s.len() && s.subrange(to, to + 2) == crlf() {
                Some((s.subrange(from, to), s.skip(to + 2)))
            } else {
                None
            }
        },
    }
}

/// Hexadecimal digits are ASCII, no line end is among them, and they write their number.
proof fn lemma_hexadecimal(n: nat)
    ensures
        is_ascii_chars(text::hexadecimal(n)),
        forall|i: int|
            0 <= i < text::hexadecimal(n).len() ==> #[trigger] text::hexadecimal(n)[i] >= '0',
        hex_number(encode_utf8(text::hexadecimal(n))) == n,
    decreases n,
{
    let s = text::hexadecimal(n);
    if n < 16 {
        assert(s =~= seq![text::digit(n)]);
        is_ascii_chars_encode_utf8(s);
        let b = encode_utf8(s);
        assert(b[0] == s[0] as u8);
        assert(hex_number(b.drop_last()) == 0);
        assert(hex_digit(b[0]) == n);
    } else {
        let front = text::hexadecimal(n / 16);
        let last = text::digit(n % 16);
        lemma_hexadecimal(n / 16);
        assert(s =~= front.push(last));
        assert(is_ascii_chars(s));
        is_ascii_chars_encode_utf8(s);
        is_ascii_chars_encode_utf8(front);
        let b = encode_utf8(s);
        assert(b.drop_last() =~= encode_utf8(front)) by {
            assert forall|i: int| 0 <= i < front.len() implies b[i] == encode_utf8(front)[i] by {
                assert(s[i] == front[i]);
            }
        }
        assert(b.last() == s.last() as u8);
        assert(hex_digit(b.last()) == n % 16);
    }
}

/// The end of a line as bytes.
proof fn lemma_crlf()
    ensures
        encode_utf8("\r\n"@) == crlf(),
{
    reveal_strlit("\r\n");
    let s = "\r\n"@;
    assert(is_ascii_chars(s));
    is_ascii_chars_encode_utf8(s);
    assert(s[0] == '\r' && s[1] == '\n');
    assert(encode_utf8(s) =~= crlf());
}

/// A client reads the payload of a chunk back, and what follows the chunk is left.
#[verifier::spinoff_prover]
#[verifier::rlimit(40)]
pub proof fn chunks_come_back(payload: Seq<char>, rest: Seq<u8>)
    ensures
        first_chunk(encode_utf8(chunk(payload)) + rest) == Some((encode_utf8(payload), rest)),
{
    let p = encode_utf8(payload);
    let digits = text::hexadecimal(p.len());
    let h = encode_utf8(digits);
    lemma_hexadecimal(p.len());
    lemma_crlf();
    is_ascii_chars_encode_utf8(digits);
    roundtrip::encode_utf8_append(digits, "\r\n"@);
    roundtrip::encode_utf8_append(digits + "\r\n"@, payload);
    roundtrip::encode_utf8_append(digits + "\r\n"@ + payload, "\r\n"@);
    let s = encode_utf8(chunk(payload)) + rest;
    assert(s =~= h + crlf() + p + crlf() + rest);
    let i = h.len() as int;
    assert(text::first_at(s, crlf(), i)) by {
        assert(s.subrange(i, i + 2) =~= crlf());
        assert forall|j: int| 0 <= j < i implies !#[trigger] text::occurs_at(s, crlf(), j) by {
            assert(s[j] == h[j]);
            assert(h[j] == digits[j] as u8);
            assert(digits[j] >= '0');
            if text::occurs_at(s, crlf(), j) {
                assert(s.subrange(j, j + 2)[0] == 13u8);
            }
        }
    }
    text::lemma_found(s, crlf(), i);
    assert(s.take(i) =~= h);
    let to = i + 2 + p.len();
    assert(s.subrange(to, to + 2) =~= crlf());
    assert(s.subrange(i + 2, to) =~= p);
    assert(s.skip(to + 2) =~= rest);
}

/// The status lines of the server.
pub proof fn lemma_status_lines()
    ensures
        "HTTP/1.1 200 OK"@ == "HTTP/1.1 "@ + text::decimal(200) + " "@ + status_name(200),
        "HTTP/1.1 400 Bad Request"@ == "HTTP/1.1 "@ + text::decimal(400) + " "@ + status_name(400),
        "HTTP/1.1 404 Not Found"@ == "HTTP/1.1 "@ + text::decimal(404) + " "@ + status_name(404),
        "HTTP/1.1 503 Error"@ == "HTTP/1.1 "@ + text::decimal(503) + " "@ + status_name(503),
{
    reveal_strlit("HTTP/1.1 ");
    reveal_strlit(" ");
    reveal_strlit("OK");
    reveal_strlit("Bad Request");
    reveal_strlit("Not Found");
    reveal_strlit("Error");
    reveal_strlit("HTTP/1.1 200 OK");
    reveal_strlit("HTTP/1.1 400 Bad Request");
    reveal_strlit("HTTP/1.1 404 Not Found");
    reveal_strlit("HTTP/1.1 503 Error");
    reveal_with_fuel(text::numeral, 4);
    assert("HTTP/1.1 200 OK"@ =~= "HTTP/1.1 "@ + text::decimal(200) + " "@ + status_name(200));
    assert("HTTP/1.1 400 Bad Request"@ =~= "HTTP/1.1 "@ + text::decimal(400) + " "@ + status_name(
        400,
    ));
    assert("HTTP/1.1 404 Not Found"@ =~= "HTTP/1.1 "@ + text::decimal(404) + " "@ + status_name(
        404,
    ));
    assert("HTTP/1.1 503 Error"@ =~= "HTTP/1.1 "@ + text::decimal(503) + " "@ + status_name(503));
}

/// A response begins with its status line.
pub proof fn responses_begin_with_status(code: u16, extra: Seq<char>, body: Seq<char>)
    ensures
        text::begins_with(
            response(code, extra, body),
            "HTTP/1.1 "@ + text::decimal(code as nat) + " "@ + status_name(code),
        ),
{
    let line = "HTTP/1.1 "@ + text::decimal(code as nat) + " "@ + status_name(code);
    assert(response(code, extra, body).take(line.len() as int) =~= line);
}

/// A client that reads a response finds its body behind the empty line, and in the head how many bytes
/// the body has.
pub proof fn responses_tell_their_length(code: u16, extra: Seq<char>, body: Seq<char>)
    ensures
        ({
            let r = response(code, extra, body);
            let told = "Content-Length: "@ + text::decimal(encode_utf8(body).len())
                + "\r\n\r\n"@ + body;
            told.len() <= r.len() && r.skip(r.len() - told.len()) == told
        }),
{
    let r = response(code, extra, body);
    let told = "Content-Length: "@ + text::decimal(encode_utf8(body).len()) + "\r\n\r\n"@ + body;
    assert(r.skip(r.len() - told.len()) =~= told);
}

/// A header that gives the length of the body is read whatever the case of its letters and the white
/// space round the number.
pub proof fn lengths_are_read(name: Seq<char>, a: Seq<char>, n: u64, b: Seq<char>)
    requires
        text::lowered(name) == "content-length:"@,
        n <= usize::MAX,
        forall|i: int| 0 <= i < a.len() ==> text::white(#[trigger] a[i]),
        forall|i: int| 0 <= i < b.len() ==> text::white(#[trigger] b[i]),
    ensures
        length_given(name + a + text::decimal(n as nat) + b) == Some(n as usize),
{
    let d = text::decimal(n as nat);
    let line = name + a + d + b;
    let low = text::lowered(line);
    let start = "content-length:"@;
    names::decimal_reads_back(n as nat);
    names::written_numbers_are_read(n);
    assert(text::is_digit(d[0]) && text::is_digit(d.last()));
    assert(low.take(start.len() as int) =~= start);
    assert(low.skip(start.len() as int) =~= a + d + b) by {
        assert forall|i: int| 0 <= i < (a + d + b).len() implies low[start.len() + i] == (a + d
            + b)[i] by {
            let c = (a + d + b)[i];
            assert(line[start.len() + i] == c);
            if i < a.len() {
                assert(text::white(a[i]));
            } else if i < a.len() + d.len() {
                assert(text::is_digit(d[i - a.len()]));
            } else {
                assert(text::white(b[i - a.len() - d.len()]));
            }
        }
    }
    text::padding_is_trimmed(a, d, b);
}

/// A header of another name gives no length.
pub proof fn other_headers_give_no_length(line: Seq<char>)
    requires
        !text::begins_with(text::lowered(line), "content-length:"@),
    ensures
        length_given(line) is None,
{
}

/// A body is as long as the last header says that gives its length; without one there is none.
pub proof fn last_length_counts(lines: Seq<Seq<char>>, line: Seq<char>)
    ensures
        body_length(seq![]) == 0,
        length_given(line) matches Some(n) ==> body_length(lines.push(line)) == n,
        length_given(line) is None ==> body_length(lines.push(line)) == body_length(lines),
{
    assert(lines.push(line).drop_last() =~= lines);
}

/// A request line asks for what its method and path say, whatever follows them.
pub proof fn routes_go_by_method_and_path(rest: Seq<char>)
    ensures
        routed("GET /health"@ + rest) is Health,
        routed("GET /v1/models"@ + rest) is Models,
        routed("POST /v1/chat/completions"@ + rest) is Chat,
        rest.len() > 0 && rest[0] != 'G' && rest[0] != 'P' ==> routed(rest) is Unknown,
{
    reveal_strlit("GET /health");
    reveal_strlit("GET /v1/models");
    reveal_strlit("POST /v1/chat/completions");
    let (h, m, c) = ("GET /health"@, "GET /v1/models"@, "POST /v1/chat/completions"@);
    assert((h + rest).take(h.len() as int) =~= h);
    assert((m + rest).take(m.len() as int) =~= m);
    assert((c + rest).take(c.len() as int) =~= c);
    assert((m + rest).take(h.len() as int)[5] == 'v');
    assert((c + rest).take(h.len() as int)[0] == 'P');
    assert((c + rest).take(m.len() as int)[0] == 'P');
    if rest.len() > 0 && rest[0] != 'G' && rest[0] != 'P' {
        if rest.len() >= h.len() {
            assert(rest.take(h.len() as int)[0] == rest[0]);
        }
        if rest.len() >= m.len() {
            assert(rest.take(m.len() as int)[0] == rest[0]);
        }
        if rest.len() >= c.len() {
            assert(rest.take(c.len() as int)[0] == rest[0]);
        }
    }
}

/// An event is one line of data, and the text of its document stands in it as it is.
pub proof fn events_hold_their_document(t: json::Tree)
    ensures
        ({
            let (e, d) = (event(t), json::json_print(t));
            &&& text::begins_with(e, "data: "@)
            &&& e.subrange("data: "@.len() as int, e.len() - 2) == d
            &&& e[e.len() - 1] == '\n'
            &&& e[e.len() - 2] == '\n'
        }),
{
    reveal_strlit("data: ");
    reveal_strlit("\n\n");
    let (e, d) = (event(t), json::json_print(t));
    assert(e.take("data: "@.len() as int) =~= "data: "@);
    assert(e.subrange("data: "@.len() as int, e.len() - 2) =~= d);
}

/// A client that reads the chunks of a stream finds, one by one, the events that were sent, then the
/// event that says so, then the empty chunk that ends the stream, and nothing behind it.
pub proof fn streams_are_read_to_their_end(t: json::Tree, rest: Seq<u8>)
    ensures
        first_chunk(encode_utf8(chunk(event(t))) + rest) == Some((encode_utf8(event(t)), rest)),
        first_chunk(encode_utf8(ending())) == Some(
            (encode_utf8("data: [DONE]\n\n"@), encode_utf8("0\r\n\r\n"@)),
        ),
        first_chunk(encode_utf8("0\r\n\r\n"@)) == Some((Seq::<u8>::empty(), Seq::<u8>::empty())),
{
    chunks_come_back(event(t), rest);
    let done = "data: [DONE]\n\n"@;
    let last = "0\r\n\r\n"@;
    roundtrip::encode_utf8_append(chunk(done), last);
    chunks_come_back(done, encode_utf8(last));
    reveal_strlit("0\r\n\r\n");
    reveal_strlit("\r\n");
    let nothing = Seq::<char>::empty();
    chunks_come_back(nothing, seq![]);
    is_ascii_chars_encode_utf8(nothing);
    assert(encode_utf8(nothing) =~= Seq::<u8>::empty());
    assert(text::hexadecimal(0) =~= seq!['0']);
    assert(chunk(nothing) =~= last);
    assert(encode_utf8(last) + Seq::<u8>::empty() =~= encode_utf8(last));
}

/// The head of a request ends with a line of white space alone, and with no other.
pub proof fn blank_lines_end_heads(line: Seq<char>)
    ensures
        ends_head(line) <==> forall|i: int| 0 <= i < line.len() ==> text::white(#[trigger] line[i]),
{
    let (from, to) = text::trimming_takes_white_space(line);
    if forall|i: int| 0 <= i < line.len() ==> text::white(#[trigger] line[i]) {
        if from < to {
            assert(text::white(line[from]));
        }
    }
}

/// The head of a response says that its body is a JSON document and that the connection ends with it;
/// the head of a server that cannot answer yet also says to ask again after five seconds.
pub proof fn heads_say_what_follows(code: u16, extra: Seq<char>, body: Seq<char>)
    ensures
        text::begins_with(
            response(code, extra, body),
            "HTTP/1.1 "@ + text::decimal(code as nat) + " "@ + status_name(code)
                + "\r\nContent-Type: application/json\r\nConnection: close\r\n"@ + extra,
        ),
        text::begins_with(
            response(503, retry_header(), body),
            "HTTP/1.1 503 Error"@
                + "\r\nContent-Type: application/json\r\nConnection: close\r\n"@
                + "Retry-After: 5\r\n"@,
        ),
{
    let mid = "\r\nContent-Type: application/json\r\nConnection: close\r\n"@;
    let head = "HTTP/1.1 "@ + text::decimal(code as nat) + " "@ + status_name(code) + mid + extra;
    assert(response(code, extra, body).take(head.len() as int) =~= head);
    lemma_status_lines();
    let again = "HTTP/1.1 503 Error"@ + mid + "Retry-After: 5\r\n"@;
    assert(response(503, retry_header(), body).take(again.len() as int) =~= again);
}

} // verus!
