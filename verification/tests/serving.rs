use llmfast::chat::{build_prompt, reply_limit, request, request_id, seed, ChatRequest};
use llmfast::documents::{
    answer, answer_loading, completion, content_event, context_error, reasoning_event, usage,
};
use llmfast::http::{respond_json, route, stream_end, stream_head, write_sse, Head, Route};
use llmfast::json::{read, Json};
use llmfast::reply::{Reply, Sent};

fn doc(s: &str) -> Json {
    read(s.as_bytes()).unwrap()
}

#[test]
fn request_lines() {
    assert_eq!(route("GET /health HTTP/1.1\r\n"), Route::Health);
    assert_eq!(route("GET /healthz"), Route::Health);
    assert_eq!(route("GET /v1/models HTTP/1.1"), Route::Models);
    assert_eq!(route("POST /v1/chat/completions HTTP/1.1"), Route::Chat);
    assert_eq!(route("POST /health"), Route::Unknown);
    assert_eq!(route(""), Route::Unknown);
}

#[test]
fn lengths_of_bodies() {
    let mut h = Head::new();
    assert!(h.read("Host: x\r\n"));
    assert_eq!(h.content_length, 0);
    assert!(h.read("CONTENT-Length:  12 \r\n"));
    assert_eq!(h.content_length, 12);
    assert!(h.read("content-length: 30\r\n"));
    assert_eq!(h.content_length, 30);
    assert!(h.read("content-length: many\r\n"));
    assert_eq!(h.content_length, 0);
    assert!(!h.read("\r\n"));
    assert!(!h.read(""));
}

#[test]
fn responses_say_their_length() {
    let r = respond_json(200, &doc(r#"{"a": "é"}"#));
    assert_eq!(
        r,
        "HTTP/1.1 200 OK\r\nContent-Type: application/json\r\nConnection: close\r\nContent-Length: 10\r\n\r\n{\"a\":\"é\"}"
    );
    assert!(respond_json(400, &Json::Null).starts_with("HTTP/1.1 400 Bad Request\r\n"));
    assert!(respond_json(404, &Json::Null).starts_with("HTTP/1.1 404 Not Found\r\n"));
    assert!(respond_json(500, &Json::Null).starts_with("HTTP/1.1 500 Error\r\n"));
}

/// Reads the chunks of a stream as a client does.
fn chunks(s: &str) -> Vec<String> {
    let mut out = Vec::new();
    let mut rest = s.as_bytes();
    loop {
        let i = rest.windows(2).position(|w| w == b"\r\n").unwrap();
        let n = usize::from_str_radix(std::str::from_utf8(&rest[..i]).unwrap(), 16).unwrap();
        if n == 0 {
            return out;
        }
        let data = &rest[i + 2..i + 2 + n];
        out.push(String::from_utf8(data.to_vec()).unwrap());
        assert_eq!(&rest[i + 2 + n..i + 4 + n], b"\r\n");
        rest = &rest[i + 4 + n..];
    }
}

#[test]
fn streams_are_read_back() {
    let a = write_sse(&content_event("id", "m", "Größe", None, None));
    let b = write_sse(&reasoning_event("id", "m", "hm"));
    let c = write_sse(&content_event("id", "m", "", Some("stop"), Some(Json::UInt(1))));
    let all = format!("{a}{b}{c}{}", stream_end());
    let got = chunks(&all);
    assert_eq!(
        got,
        vec![
            "data: {\"choices\":[{\"delta\":{\"content\":\"Größe\"},\"finish_reason\":null,\"index\":0}],\"id\":\"id\",\"model\":\"m\",\"object\":\"chat.completion.chunk\"}\n\n",
            "data: {\"choices\":[{\"delta\":{\"reasoning\":\"hm\"},\"finish_reason\":null,\"index\":0}],\"id\":\"id\",\"model\":\"m\",\"object\":\"chat.completion.chunk\"}\n\n",
            "data: {\"choices\":[{\"delta\":{},\"finish_reason\":\"stop\",\"index\":0}],\"id\":\"id\",\"model\":\"m\",\"object\":\"chat.completion.chunk\",\"usage\":1}\n\n",
            "data: [DONE]\n\n",
        ]
    );
    assert_eq!(stream_end(), "e\r\ndata: [DONE]\n\n\r\n0\r\n\r\n");
    assert!(stream_head().ends_with("Transfer-Encoding: chunked\r\n\r\n"));
}

#[test]
fn requests_with_and_without_settings() {
    let j = doc("{}");
    let r = ChatRequest::read(&j);
    assert_eq!((r.messages.len(), r.max_tokens, r.streaming, r.stops.len()), (0, 256, false, 0));
    assert!(r.temperature.is_none() && r.top_p.is_none());
    let j = doc(
        r#"{"messages": [{"role": "system", "content": "s"}, {"content": 3}, 7], "max_tokens": 5,
            "stream": true, "stop": ["a", 1, "b"], "temperature": 0.5, "top_p": "x"}"#,
    );
    let r = ChatRequest::read(&j);
    let m: Vec<(&str, &str)> = r.messages.iter().map(|m| (m.0.as_str(), m.1.as_str())).collect();
    assert_eq!(m, vec![("system", "s"), ("user", ""), ("user", "")]);
    assert_eq!((r.max_tokens, r.streaming), (5, true));
    assert_eq!(r.stops, vec!["a", "b"]);
    assert!(matches!(r.temperature, Some(Json::Num(_))));
    assert!(r.top_p.is_none());
    let j = doc(r#"{"stop": "x", "temperature": 1}"#);
    let r = ChatRequest::read(&j);
    assert_eq!(r.stops, vec!["x"]);
    assert!(matches!(r.temperature, Some(Json::UInt(1))));
}

#[test]
fn prompts() {
    let m = vec![("user".to_string(), "hi".to_string())];
    let start = "<|im_start|>user\nhi<|im_end|>\n<|im_start|>assistant\n";
    assert_eq!(build_prompt(&m, false, true), start);
    assert_eq!(build_prompt(&m, false, false), format!("{start}<think>\n\n</think>\n\n"));
    assert_eq!(build_prompt(&m, true, false), format!("{start}<think>\n"));
    assert_eq!(build_prompt(&vec![], true, true), "<|im_start|>assistant\n<think>\n");
}

#[test]
fn replies_fit_the_context() {
    assert_eq!(reply_limit(10, 100, 50), Some(50));
    assert_eq!(reply_limit(10, 100, 500), Some(89));
    assert_eq!(reply_limit(98, 100, 500), Some(1));
    assert_eq!(reply_limit(99, 100, 500), None);
    assert_eq!(reply_limit(500, 100, 1), None);
    assert_eq!(
        context_error(99, 100).print(),
        r#"{"error":{"message":"prompt of 99 tokens exceeds context 100"}}"#
    );
    assert_eq!(request_id(12), "chatcmpl-12");
    assert_eq!(seed(2), 2u64.wrapping_mul(0x9E3779B97F4A7C15));
}

#[test]
fn requests_end_with_their_turn() {
    let q = request(vec![4, 5], 100, 500, 7, 9, 3, 11, 12).unwrap();
    assert_eq!(q.prompt_ids, vec![4, 5]);
    assert_eq!(q.max_tokens, 97);
    assert_eq!((q.temperature, q.top_p), (7, 9));
    assert_eq!(q.seed, 0xDAA6_6D2C_7DDF_743F);
    assert_eq!(q.stop_ids, vec![11, 12]);
    assert!(request(vec![4, 5], 3, 500, 7, 9, 3, 11, 12).is_none());
}

fn tell(r: &mut Reply, s: &[u8], stops: &[&str]) -> Sent {
    let stops: Vec<String> = stops.iter().map(|s| s.to_string()).collect();
    r.token(1, s, &stops)
}

fn text(v: &[char]) -> String {
    v.iter().collect()
}

#[test]
fn characters_wait_for_their_bytes() {
    let mut r = Reply::new(false);
    let b = "漢!".as_bytes();
    let s = tell(&mut r, &b[..2], &[]);
    assert!(s.content.is_none() && !s.checked && !s.stopped);
    assert_eq!(r.pending, b[..2].to_vec());
    let s = tell(&mut r, &b[2..], &[]);
    assert_eq!(s.content.unwrap(), "漢!");
    assert!(s.checked);
    assert_eq!(text(&r.full), "漢!");
    assert_eq!(r.out_ids.len(), 2);
}

#[test]
fn stop_texts_end_answers() {
    let mut r = Reply::new(false);
    assert_eq!(tell(&mut r, b"one ST", &["STOP"]).content.unwrap(), "one ST");
    let s = tell(&mut r, b"OP two", &["STOP"]);
    // the text began in what was sent: nothing more is
    assert!(s.stopped && s.content.is_none());
    assert_eq!(text(&r.full), "one ST");
    let mut r = Reply::new(false);
    let s = tell(&mut r, b"ab\ncd", &["zz", "\n"]);
    assert!(s.stopped);
    assert_eq!(s.content.unwrap(), "ab");
    // the first in the text counts, wherever it stands in the list
    let mut r = Reply::new(false);
    let s = tell(&mut r, b"aXbY", &["Y", "X"]);
    assert!(s.stopped);
    assert_eq!(s.content.unwrap(), "a");
    assert_eq!(text(&r.full), "a");
    let mut r = Reply::new(false);
    assert!(tell(&mut r, b"x", &[""]).stopped);
}

#[test]
fn reasoning_is_kept_apart() {
    let mut r = Reply::new(true);
    let s = tell(&mut r, b"I think ", &[]);
    assert_eq!(s.reasoning.unwrap(), "I think ");
    assert!(s.content.is_none() && s.checked);
    assert_eq!(tell(&mut r, b"so </th", &[]).reasoning.unwrap(), "so </th");
    let s = tell(&mut r, b"ink>\n\nYes", &[]);
    assert_eq!(s.reasoning.unwrap(), "ink>\n\nYes");
    assert_eq!(s.content.unwrap(), "Yes");
    assert!(!r.thinking);
    assert_eq!(text(&r.reasoning), "I think so ");
    assert_eq!(text(&r.full), "Yes");
    assert_eq!(r.reasoning_tokens, 3);
    assert_eq!(tell(&mut r, b".", &[]).content.unwrap(), ".");
    // a closing tag with nothing behind it sends no content
    let mut r = Reply::new(true);
    let s = tell(&mut r, b"a</think> \n", &["q"]);
    assert_eq!(s.reasoning.unwrap(), "a</think>");
    assert!(s.content.is_none() && !s.checked && !s.stopped);
    assert!(!r.thinking);
    // a stop text within the reasoning ends the reply
    let mut r = Reply::new(true);
    let s = tell(&mut r, b"ba</think> \n", &["a"]);
    assert_eq!(s.reasoning.unwrap(), "b");
    assert!(s.content.is_none() && !s.checked && s.stopped);
    assert!(r.thinking);
    let s = tell(&mut r, b"a", &["a"]);
    assert!(s.reasoning.is_none() && s.content.is_none() && s.stopped);
    // also behind a closing tag, where nothing follows
    let mut r = Reply::new(true);
    let s = tell(&mut r, b"b</think>\nq", &["q"]);
    assert_eq!(s.reasoning.unwrap(), "b</think>");
    assert!(s.content.is_none() && !s.checked && s.stopped);
    assert!(!r.thinking);
}

#[test]
fn whole_replies() {
    let u = usage(10, 4, 1, 3, Json::UInt(5), Json::Null);
    assert_eq!(
        u.print(),
        r#"{"cached_tokens":3,"completion_tokens":4,"completion_tokens_details":{"reasoning_tokens":1},"decode_tok_per_sec":null,"prefill_tok_per_sec":5,"prompt_tokens":10,"total_tokens":14}"#
    );
    let full: Vec<char> = "Hi".chars().collect();
    let thought: Vec<char> = " hm\n".chars().collect();
    assert_eq!(
        completion("i", "m", &full, &thought, "stop", Json::Null).print(),
        r#"{"choices":[{"finish_reason":"stop","index":0,"message":{"content":"Hi","reasoning":"hm","role":"assistant"}}],"id":"i","model":"m","object":"chat.completion","usage":null}"#
    );
    assert_eq!(
        completion("i", "m", &full, &[' ', '\n'], "length", Json::Null).print(),
        r#"{"choices":[{"finish_reason":"length","index":0,"message":{"content":"Hi","role":"assistant"}}],"id":"i","model":"m","object":"chat.completion","usage":null}"#
    );
}

#[test]
fn plain_answers() {
    let body = |r: Result<Json, String>| match r {
        Ok(_) => panic!("a chat request"),
        Err(s) => s.split("\r\n\r\n").nth(1).unwrap().to_string(),
    };
    assert_eq!(
        body(answer(Route::Health, b"", "m", "cpu", "abc")),
        r#"{"build":"abc","device":"cpu","model":"m","status":"ok"}"#
    );
    assert_eq!(
        body(answer(Route::Models, b"", "m", "cpu", "abc")),
        r#"{"data":[{"id":"m","object":"model"}],"object":"list"}"#
    );
    assert_eq!(
        body(answer(Route::Unknown, b"", "m", "cpu", "abc")),
        r#"{"error":{"message":"not found"}}"#
    );
    assert_eq!(
        body(answer(Route::Chat, b"[", "m", "cpu", "abc")),
        r#"{"error":{"message":"bad json: EOF while parsing a list at line 1 column 1"}}"#
    );
    assert_eq!(answer(Route::Chat, br#"{"n":4}"#, "m", "cpu", "abc").unwrap().uint("n"), Some(4));
}

#[test]
fn a_loading_server() {
    let h = answer_loading(Route::Health, "m", "abc", 930, None);
    assert!(h.starts_with("HTTP/1.1 200 OK\r\n"));
    assert!(h.ends_with(r#"{"build":"abc","model":"m","progress":930,"status":"loading"}"#));
    let c = answer_loading(Route::Chat, "m", "abc", 930, Some("no room"));
    assert!(c.starts_with("HTTP/1.1 503 Error\r\n"));
    assert!(c.contains("\r\nRetry-After: 5\r\n"));
    assert!(c.ends_with(r#"{"build":"abc","error":"no room","model":"m","progress":930,"status":"error"}"#));
}
