use llmfast::bytemap::bytes_to_unicode;
use llmfast::decoding::{decode_prefix, lossy, show};
use llmfast::json::{push_member, read, Json};
use llmfast::marks::is_mark;
use llmfast::pretokenize::pretokenize;
use llmfast::text::{
    chars_of, find, parse, parse_size, push_decimal, push_hexadecimal, same, starts_with, string_of,
    to_lowered, trim, trim_end, trim_start,
};

fn cs(s: &str) -> Vec<char> {
    s.chars().collect()
}

#[test]
fn finding_and_trimming() {
    assert!(same("ab", "ab"));
    assert!(!same("ab", "abc"));
    assert_eq!(find(&cs("aXbXb"), &cs("Xb")), Some(1));
    assert_eq!(find(&cs("abc"), &cs("")), Some(0));
    assert_eq!(find(&cs("abc"), &cs("d")), None);
    assert!(starts_with(&cs("abc"), &cs("ab")));
    assert!(!starts_with(&cs("a"), &cs("ab")));
    assert_eq!(string_of(&trim(&cs(" \t\u{3000}a b\r\n"))), "a b");
    assert_eq!(string_of(&trim_start(&cs("  a "))), "a ");
    assert_eq!(string_of(&trim_end(&cs("  a "))), "  a");
    assert_eq!(string_of(&to_lowered(&cs("Content-ÄLength"))), "content-Älength");
    assert_eq!(chars_of("añ"), vec!['a', 'ñ']);
}

#[test]
fn numbers_as_text() {
    let mut s = String::new();
    push_decimal(&mut s, 0);
    s.push(' ');
    push_decimal(&mut s, u64::MAX);
    s.push(' ');
    push_hexadecimal(&mut s, 0xBEEF);
    assert_eq!(s, "0 18446744073709551615 beef");
    assert_eq!(parse(&cs("+42")), Some(42));
    assert_eq!(parse(&cs("18446744073709551615")), Some(u64::MAX));
    assert_eq!(parse(&cs("18446744073709551616")), None);
    assert_eq!(parse(&cs("-1")), None);
    assert_eq!(parse(&cs("")), None);
    assert_eq!(parse(&cs("+")), None);
    assert_eq!(parse_size(" 1"), None);
    assert_eq!(parse_size("4096"), Some(4096));
}

#[test]
fn documents_are_read_and_printed() {
    let j = read(r#"{"b": [1, -2, "x", null, true], "a": {"k": 1.5}, "b2": "é"}"#.as_bytes()).unwrap();
    assert_eq!(j.items("b").unwrap().len(), 5);
    assert!(matches!(j.items("b").unwrap()[0], Json::UInt(1)));
    assert!(matches!(j.items("b").unwrap()[1], Json::Num(_)));
    assert!(matches!(j.items("b").unwrap()[3], Json::Null));
    assert_eq!(j.text("b2").unwrap(), "é");
    assert_eq!(j.uint("b"), None);
    assert!(j.get("missing").is_none());
    assert_eq!(j.fields("a").unwrap().len(), 1);
    // names come out in order
    assert_eq!(j.print(), r#"{"a":{"k":1.5},"b":[1,-2,"x",null,true],"b2":"é"}"#);
    let e = match read(b"{") {
        Ok(_) => panic!("no document"),
        Err(e) => e,
    };
    assert_eq!(e, "EOF while parsing an object at line 1 column 1");
}

#[test]
fn an_integer_counts_however_it_is_held() {
    assert_eq!(Json::UInt(5).as_uint(), Some(5));
    assert_eq!(Json::Num(serde_json::Number::from(5u64)).as_uint(), Some(5));
    assert_eq!(Json::Num(serde_json::Number::from(-5i64)).as_uint(), None);
    assert_eq!(Json::Bool(true).as_uint(), None);
    let five = Json::Num(serde_json::Number::from(5u64));
    assert_eq!(five.print(), Json::UInt(5).print());
}

#[test]
fn broken_bytes_are_replaced() {
    assert_eq!(lossy(b"a\xE6\xBC\xA2b"), "a漢b");
    assert_eq!(lossy(b"a\xFF\xFEb"), "a\u{FFFD}\u{FFFD}b");
    // the start of a character is replaced as one
    assert_eq!(lossy(b"\xF0\x9F\x98!"), "\u{FFFD}!");
    // bytes that can begin no character are replaced one by one
    assert_eq!(lossy(b"\xED\xA0\x80"), "\u{FFFD}\u{FFFD}\u{FFFD}");
    // up to four bytes from the edges of the encoding
    let edges: [u8; 22] = [
        0x00, 0x41, 0x7F, 0x80, 0x8F, 0x90, 0x9F, 0xA0, 0xBF, 0xC0, 0xC1, 0xC2, 0xDF, 0xE0, 0xE1,
        0xEC, 0xED, 0xEF, 0xF0, 0xF1, 0xF4, 0xF5,
    ];
    for a in edges {
        for b in edges {
            for c in edges {
                for d in edges {
                    let s = [a, b, c, d];
                    for n in 0..5 {
                        assert_eq!(lossy(&s[..n]), String::from_utf8_lossy(&s[..n]));
                    }
                }
            }
        }
    }
    // a text keeps its form whatever follows it
    assert_eq!(lossy(b"ab\xE6"), lossy(b"ab") + &lossy(b"\xE6"));
}

#[test]
fn a_later_member_counts() {
    let j = read(br#"{"a": 1, "a": 2}"#).unwrap();
    assert_eq!(j.uint("a"), Some(2));
    let mut o = Vec::new();
    push_member(&mut o, "k", Json::UInt(1));
    push_member(&mut o, "k", Json::Bool(true));
    let j = Json::Object(o);
    assert_eq!(j.truth("k"), Some(true));
    assert_eq!(j.print(), r#"{"k":true}"#);
}

#[test]
fn printed_documents_read_back() {
    let j = read(br#"{"id": 7, "t": ["a\"\n", {"n": 18446744073709551615}]}"#).unwrap();
    let again = read(j.print().as_bytes()).unwrap();
    assert_eq!(again.uint("id"), Some(7));
    assert_eq!(again.print(), j.print());
}

fn split(s: &str) -> Vec<String> {
    pretokenize(&cs(s)).into_iter().map(|c| c.into_iter().collect()).collect()
}

#[test]
fn chunks_of_text() {
    assert_eq!(split("Hello world"), vec!["Hello", " world"]);
    assert_eq!(split("I'm 42!"), vec!["I", "'m", " ", "4", "2", "!"]);
    assert_eq!(split("a\n\n b"), vec!["a", "\n\n", " b"]);
    assert_eq!(split(""), Vec::<String>::new());
    // a character that is alphabetic and numeric is a number, and numbers stand alone
    assert_eq!(split("\u{2167}\u{2167}"), vec!["\u{2167}", "\u{2167}"]);
    assert_eq!(split("a\u{2167}b"), vec!["a", "\u{2167}", "b"]);
    // nor are vowel signs and circled letters letters
    assert_eq!(split("\u{915}\u{93f}\u{24b6}"), vec!["\u{915}", "\u{93f}\u{24b6}"]);
    assert_eq!(split("\u{915}\u{93f}\u{916}"), vec!["\u{915}", "\u{93f}\u{916}"]);
    assert!(is_mark('\u{345}') && is_mark('\u{1f189}') && !is_mark('a') && !is_mark('\u{300}'));
    for s in ["I'll  go\n\n x=1;\r\n", "'Re \u{2167}..\n"] {
        for c in split(s) {
            assert_eq!(split(&c), vec![c.clone()]);
        }
    }
    for s in ["  x  ", "don't", "x=1;\r\n\ty", "naïve 漢字 ١٢"] {
        assert_eq!(split(s).concat(), s);
    }
}

#[test]
fn bytes_have_characters() {
    let m = bytes_to_unicode();
    assert_eq!(m.to_char(b'a'), 'a');
    assert_eq!(m.to_char(b' '), 'Ġ');
    assert_eq!(m.to_char(b'\n'), 'Ċ');
    assert_eq!(m.to_char(0), '\u{100}');
    let mut seen = Vec::new();
    for b in 0..=255u8 {
        let c = m.to_char(b);
        assert!(!seen.contains(&c));
        assert_eq!(m.to_byte(c), Some(b));
        seen.push(c);
    }
    assert_eq!(m.to_byte('漢'), None);
}

#[test]
fn prefixes_that_are_text() {
    let (c, n) = decode_prefix("aé漢😀".as_bytes());
    assert_eq!((c, n), (cs("aé漢😀"), 10));
    // every cut of the text agrees with the standard library
    let b = "aé漢😀z".as_bytes();
    for end in 0..=b.len() {
        let (c, n) = decode_prefix(&b[..end]);
        let want = match std::str::from_utf8(&b[..end]) {
            Ok(s) => s.len(),
            Err(e) => e.valid_up_to(),
        };
        assert_eq!(n, want);
        assert_eq!(c.into_iter().collect::<String>().as_bytes(), &b[..n]);
    }
    // overlong, surrogate, too large
    assert_eq!(decode_prefix(&[0xC0, 0x80]).1, 0);
    assert_eq!(decode_prefix(&[0xED, 0xA0, 0x80]).1, 0);
    assert_eq!(decode_prefix(&[0xF4, 0x90, 0x80, 0x80]).1, 0);
}

fn shown_like_std(bytes: &[u8]) -> (String, Vec<u8>) {
    let mut pending = bytes.to_vec();
    let mut out = String::new();
    loop {
        match std::str::from_utf8(&pending) {
            Ok(s) => {
                out.push_str(s);
                return (out, Vec::new());
            }
            Err(e) => {
                let ok = e.valid_up_to();
                out.push_str(std::str::from_utf8(&pending[..ok]).unwrap());
                pending.drain(..ok);
                match e.error_len() {
                    Some(bad) => {
                        out.push('?');
                        pending.drain(..bad);
                    }
                    None => return (out, pending),
                }
            }
        }
    }
}

#[test]
fn broken_bytes_are_shown() {
    for first in [0x00u8, 0x41, 0x80, 0xBF, 0xC0, 0xC2, 0xDF, 0xE0, 0xE2, 0xED, 0xEF, 0xF0, 0xF1, 0xF4, 0xF5, 0xFF] {
        for second in [0x41u8, 0x7F, 0x80, 0x8F, 0x90, 0x9F, 0xA0, 0xBF, 0xC2] {
            for third in [0x41u8, 0x80, 0xBF, 0xE2] {
                let b = [first, second, third, 0x80, b'z', 0xE2, 0x82];
                for end in 0..=b.len() {
                    let mut pending = b[..end].to_vec();
                    let got: String = show(&mut pending).into_iter().collect();
                    assert_eq!((got, pending), shown_like_std(&b[..end]), "{:x?}", &b[..end]);
                }
            }
        }
    }
}

#[test]
fn bytes_in_parts_are_shown_alike() {
    let b = [b'a', 0xE2, 0x82, 0xAC, 0xFF, 0xF0, 0x9F, 0x98, b'!', 0xE2, 0x82];
    let mut all = b.to_vec();
    let whole = show(&mut all);
    for cut in 0..=b.len() {
        let mut pending = b[..cut].to_vec();
        let mut parts = show(&mut pending);
        pending.extend_from_slice(&b[cut..]);
        parts.extend(show(&mut pending));
        assert_eq!(parts, whole);
        assert_eq!(pending, all);
    }
}
