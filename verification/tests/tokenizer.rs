use llmfast::bytemap::bytes_to_unicode;
use llmfast::tokenizer::Tokenizer;
use llmfast::vocabulary::TokenizerError;

/// A tokenizer file with a token for every byte, a few merges and the special tokens.
fn file(merges: &str) -> String {
    let m = bytes_to_unicode();
    let mut vocab = Vec::new();
    for b in 0..=255u8 {
        let c = m.to_char(b);
        let name = match c {
            '"' => "\\\"".to_string(),
            '\\' => "\\\\".to_string(),
            c => c.to_string(),
        };
        vocab.push(format!("\"{name}\": {b}"));
    }
    for (i, t) in ["he", "ll", "hell", "hello", "Ġw"].iter().enumerate() {
        vocab.push(format!("\"{t}\": {}", 256 + i));
    }
    format!(
        r#"{{"model": {{"vocab": {{{}}}, "merges": {merges}}},
            "added_tokens": [{{"id": 300, "content": "<|endoftext|>"}},
                             {{"id": 301, "content": "<|im_start|>"}},
                             {{"id": 302, "content": "<|im_end|>"}}]}}"#,
        vocab.join(", ")
    )
}

fn tokenizer() -> Tokenizer {
    Tokenizer::load(file(r#"["h e", "l l", "he ll", ["hell", "o"], "Ġ w"]"#).as_bytes()).unwrap()
}

#[test]
fn encodes_by_lowest_rank() {
    let t = tokenizer();
    assert!(t.is_sound());
    assert_eq!((t.eos, t.im_start, t.im_end), (300, 301, 302));
    assert_eq!(t.encode("hello"), vec![259]);
    assert_eq!(t.encode("hell"), vec![258]);
    assert_eq!(t.encode("llll"), vec![257, 257]);
    assert_eq!(t.encode("hello wo"), vec![259, 260, b'o' as u32]);
    assert_eq!(t.encode(""), Vec::<u32>::new());
}

#[test]
fn special_tokens_stand_whole() {
    let t = tokenizer();
    assert_eq!(
        t.encode("<|im_start|>he<|im_end|>\n"),
        vec![301, 256, 302, b'\n' as u32]
    );
    assert_eq!(t.token_bytes(301), b"<|im_start|>".to_vec());
    assert_eq!(t.token_bytes(260), b" w".to_vec());
    assert_eq!(t.size(), 303);
    // a number without a token has no bytes
    assert_eq!(t.token_bytes(299), Vec::<u8>::new());
}

#[test]
fn plain_text_is_appended() {
    let t = tokenizer();
    let text: Vec<char> = "hello wo".chars().collect();
    let mut out = vec![7];
    t.encode_plain(&text, &mut out);
    assert_eq!(out, vec![7, 259, 260, b'o' as u32]);
    t.encode_plain(&[], &mut out);
    assert_eq!(out.len(), 4);
    t.encode_plain(&text, &mut out);
    assert_eq!(out[4..], out[1..4]);
}

#[test]
fn decoding_gives_the_text_back() {
    let t = tokenizer();
    for s in ["hello world", "naïve 漢字 😀", "<|im_start|>user\nhi<|im_end|>\n", "a\tb  c"] {
        let ids = t.encode(s);
        assert_eq!(t.decode(&ids), s);
        assert_eq!(t.all_bytes(&ids), s.as_bytes().to_vec());
    }
    let (a, b) = (t.encode("漢 he"), t.encode("llo 😀"));
    let both: Vec<u32> = a.iter().chain(&b).copied().collect();
    assert_eq!(t.decode(&both), t.decode(&a) + &t.decode(&b));
    assert_eq!(t.decode(&[]), "");
    // a character cut in half is replaced
    assert_eq!(t.decode(&[0xE6, 0xBC]), "\u{FFFD}");
    // what is no text does not spoil the text before it
    let broken: Vec<u32> = a.iter().copied().chain([0xE6, 0xBC]).collect();
    assert_eq!(t.decode(&broken), t.decode(&a) + "\u{FFFD}");
}

#[test]
fn faulty_files_are_refused() {
    let fault = |s: &str| match Tokenizer::load(s.as_bytes()) {
        Ok(_) => panic!("loaded"),
        Err(e) => e,
    };
    assert!(matches!(fault("{"), TokenizerError::Json(_)));
    assert!(matches!(fault("{}"), TokenizerError::Vocab));
    assert!(matches!(fault(r#"{"model": {"vocab": {"a": "x"}}}"#), TokenizerError::Vocab));
    assert!(matches!(
        fault(r#"{"model": {"vocab": {"a": 0}}, "added_tokens": [{"id": 1}]}"#),
        TokenizerError::AddedTokens
    ));
    assert!(matches!(
        fault(r#"{"model": {"vocab": {"a": 0}}, "added_tokens": []}"#),
        TokenizerError::Merges
    ));
    assert!(matches!(fault(&file(r#"["nopair"]"#)), TokenizerError::Merges));
    match fault(r#"{"model": {"vocab": {"a": 0}, "merges": []}, "added_tokens": []}"#) {
        TokenizerError::Missing(n) => assert_eq!(n, "<|im_start|>"),
        _ => panic!("another fault"),
    }
}
