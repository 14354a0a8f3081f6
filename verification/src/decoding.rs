//! Text out of a stream of bytes: the longest part that is UTF-8 now, and what is to be said of
//! bytes that never will be.

use vstd::prelude::*;
use vstd::utf8::*;

verus! {

/// How many bytes at the start of `b` are UTF-8.
pub open spec fn valid_up_to(b: Seq<u8>) -> int
    decreases b.len(),
{
    if b.len() > 0 && valid_first_scalar(b) {
        length_of_first_scalar(b) + valid_up_to(pop_first_scalar(b))
    } else {
        0
    }
}

/// The bytes `s` are the start of a character, and not all of it.
pub open spec fn begins_character(s: Seq<u8>) -> bool {
    exists|t: Seq<u8>| #[trigger] completes(s, t)
}

/// With `t` behind it, `s` is the start of a character.
pub open spec fn completes(s: Seq<u8>, t: Seq<u8>) -> bool {
    valid_first_scalar(s + t) && length_of_first_scalar(s + t) > s.len()
}

/// How many bytes stand at the start of `b` in place of a character: as many as begin one, and at
/// least one.
pub open spec fn broken_len(b: Seq<u8>) -> int {
    if b.len() >= 3 && begins_character(b.take(3)) {
        3
    } else if b.len() >= 2 && begins_character(b.take(2)) {
        2
    } else {
        1
    }
}

/// The second byte can follow the first in a character of three or four bytes.
spec fn follows(b0: u8, b1: u8) -> bool {
    if b0 == 0xe0 {
        0xa0 <= b1 <= 0xbf
    } else if b0 == 0xed {
        0x80 <= b1 <= 0x9f
    } else if b0 == 0xf0 {
        0x90 <= b1 <= 0xbf
    } else if b0 == 0xf4 {
        0x80 <= b1 <= 0x8f
    } else {
        0x80 <= b1 <= 0xbf
    }
}

/// The ranges of the bytes of the first character.
spec fn in_ranges(b: Seq<u8>) -> bool {
    ||| b.len() >= 1 && b[0] <= 0x7f
    ||| b.len() >= 2 && 0xc2 <= b[0] <= 0xdf && is_continuation_byte(b[1])
    ||| b.len() >= 3 && 0xe0 <= b[0] <= 0xef && follows(b[0], b[1]) && is_continuation_byte(b[2])
    ||| b.len() >= 4 && 0xf0 <= b[0] <= 0xf4 && follows(b[0], b[1]) && is_continuation_byte(b[2])
        && is_continuation_byte(b[3])
}

/// Which characters of two bytes are not overlong.
proof fn lemma_two(b0: u8, b1: u8)
    requires
        0xc0 <= b0 <= 0xdf,
        0x80 <= b1 <= 0xbf,
    ensures
        (0x80 <= codepoint_width_2(b0, b1)) == (0xc2 <= b0),
        codepoint_width_2(b0, b1) < 0x800,
{
    assert((0x80 <= ((((b0 & 0x1f) as u32) << 6) | ((b1 & 0x3f) as u32))) == (0xc2 <= b0) && ((((b0
        & 0x1f) as u32) << 6) | ((b1 & 0x3f) as u32)) < 0x800) by (bit_vector)
        requires
            0xc0 <= b0 <= 0xdf,
            0x80 <= b1 <= 0xbf,
    ;
}

/// Which characters of three bytes are scalars.
proof fn lemma_three(b0: u8, b1: u8, b2: u8)
    requires
        0xe0 <= b0 <= 0xef,
        0x80 <= b1 <= 0xbf,
        0x80 <= b2 <= 0xbf,
    ensures
        ({
            let c = codepoint_width_3(b0, b1, b2);
            (0x800 <= c && !(0xd800 <= c <= 0xdfff)) == follows(b0, b1)
        }),
        codepoint_width_3(b0, b1, b2) < 0x10000,
{
    let c: u32 = ((((b0 & 0x0f) as u32) << 12) | (((b1 & 0x3f) as u32) << 6)) | ((b2 & 0x3f) as u32);
    assert((0x800 <= c && !(0xd800 <= c && c <= 0xdfff)) == (if b0 == 0xe0 {
        0xa0 <= b1
    } else if b0 == 0xed {
        b1 <= 0x9f
    } else {
        true
    }) && c < 0x10000) by (bit_vector)
        requires
            0xe0 <= b0 <= 0xef,
            0x80 <= b1 <= 0xbf,
            0x80 <= b2 <= 0xbf,
            c == ((((b0 & 0x0f) as u32) << 12) | (((b1 & 0x3f) as u32) << 6)) | ((b2
                & 0x3f) as u32),
    ;
}

/// Which characters of four bytes are scalars.
proof fn lemma_four(b0: u8, b1: u8, b2: u8, b3: u8)
    requires
        0xf0 <= b0 <= 0xf7,
        0x80 <= b1 <= 0xbf,
        0x80 <= b2 <= 0xbf,
        0x80 <= b3 <= 0xbf,
    ensures
        (0x10000 <= codepoint_width_4(b0, b1, b2, b3) <= 0x10ffff) == (b0 <= 0xf4 && follows(b0, b1)),
{
    let c: u32 = (((((b0 & 0x07) as u32) << 18) | (((b1 & 0x3f) as u32) << 12)) | (((b2
        & 0x3f) as u32) << 6)) | ((b3 & 0x3f) as u32);
    assert((0x10000 <= c && c <= 0x10ffff) == (if b0 == 0xf0 {
        0x90 <= b1
    } else if b0 == 0xf4 {
        b1 <= 0x8f
    } else {
        b0 < 0xf4
    })) by (bit_vector)
        requires
            0xf0 <= b0 <= 0xf7,
            0x80 <= b1 <= 0xbf,
            0x80 <= b2 <= 0xbf,
            0x80 <= b3 <= 0xbf,
            c == (((((b0 & 0x07) as u32) << 18) | (((b1 & 0x3f) as u32) << 12)) | (((b2
                & 0x3f) as u32) << 6)) | ((b3 & 0x3f) as u32),
    ;
}

/// The ranges of bytes tell the characters.
proof fn lemma_ranges(b: Seq<u8>)
    requires
        b.len() > 0,
    ensures
        valid_first_scalar(b) == in_ranges(b),
{
    if b[0] <= 0x7f {
        let x = b[0];
        assert((x & 0x7f) as u32 <= 0x7f) by (bit_vector)
            requires
                x <= 0x7f,
        ;
    } else if b.len() >= 2 && is_continuation_byte(b[1]) {
        if 0xc0 <= b[0] <= 0xdf {
            lemma_two(b[0], b[1]);
        } else if b.len() >= 3 && is_continuation_byte(b[2]) {
            if 0xe0 <= b[0] <= 0xef {
                lemma_three(b[0], b[1], b[2]);
            } else if b.len() >= 4 && is_continuation_byte(b[3]) && 0xf0 <= b[0] <= 0xf7 {
                lemma_four(b[0], b[1], b[2], b[3]);
            }
        }
    }
}

/// What a character begins with.
proof fn lemma_begins(s: Seq<u8>)
    requires
        1 <= s.len() <= 3,
    ensures
        begins_character(s) == ({
            ||| s.len() == 1 && 0xc2 <= s[0] <= 0xf4
            ||| s.len() == 2 && 0xe0 <= s[0] <= 0xf4 && follows(s[0], s[1])
            ||| s.len() == 3 && 0xf0 <= s[0] <= 0xf4 && follows(s[0], s[1]) && is_continuation_byte(
                s[2],
            )
        }),
{
    if begins_character(s) {
        let t = choose|t: Seq<u8>| completes(s, t);
        lemma_ranges(s + t);
        assert((s + t)[0] == s[0]);
    }
    let second: u8 = if s[0] == 0xe0 {
        0xa0
    } else if s[0] == 0xf0 {
        0x90
    } else {
        0x80
    };
    let t: Seq<u8> = if s.len() == 1 {
        seq![second, 0x80, 0x80]
    } else {
        seq![0x80, 0x80]
    };
    let whole = s + t;
    lemma_ranges(whole);
    assert(whole[0] == s[0]);
    if s.len() == 1 && 0xc2 <= s[0] <= 0xf4 {
        assert(whole[1] == second && whole[2] == 0x80 && whole[3] == 0x80);
        assert(completes(s, t));
    }
    if s.len() == 2 && 0xe0 <= s[0] <= 0xf4 && follows(s[0], s[1]) {
        assert(whole[1] == s[1] && whole[2] == 0x80 && whole[3] == 0x80);
        assert(completes(s, t));
    }
    if s.len() == 3 && 0xf0 <= s[0] <= 0xf4 && follows(s[0], s[1]) && is_continuation_byte(s[2]) {
        assert(whole[1] == s[1] && whole[2] == s[2] && whole[3] == 0x80);
        assert(completes(s, t));
    }
}

/// Whether a byte continues a character.
fn continues(b: u8) -> (r: bool)
    ensures
        r == is_continuation_byte(b),
{
    0x80 <= b && b <= 0xbf
}

/// Whether the second byte can follow the first.
fn can_follow(b0: u8, b1: u8) -> (r: bool)
    ensures
        r == follows(b0, b1),
{
    if b0 == 0xe0 {
        0xa0 <= b1 && b1 <= 0xbf
    } else if b0 == 0xed {
        0x80 <= b1 && b1 <= 0x9f
    } else if b0 == 0xf0 {
        0x90 <= b1 && b1 <= 0xbf
    } else if b0 == 0xf4 {
        0x80 <= b1 && b1 <= 0x8f
    } else {
        0x80 <= b1 && b1 <= 0xbf
    }
}

/// The character at `at`, and how many bytes it takes.
fn character(b: &[u8], at: usize) -> (r: Option<(char, usize)>)
    requires
        at < b@.len(),
    ensures
        match r {
            Some((c, w)) => {
                &&& valid_first_scalar(b@.skip(at as int))
                &&& c == decode_first_scalar(b@.skip(at as int)) as char
                &&& w == length_of_first_scalar(b@.skip(at as int))
                &&& w > 0
                &&& at + w <= b@.len()
            },
            None => !valid_first_scalar(b@.skip(at as int)),
        },
{
    let ghost s = b@.skip(at as int);
    let n: usize = b.len() - at;
    let b0: u8 = b[at];
    proof {
        lemma_ranges(s);
        assert(forall|i: int| 0 <= i < s.len() ==> s[i] == b@[at + i]);
    }
    let (v, w): (u32, usize) = if b0 <= 0x7f {
        ((b0 & 0x7f) as u32, 1)
    } else if n >= 2 && 0xc2 <= b0 && b0 <= 0xdf && continues(b[at + 1]) {
        ((((b0 & 0x1f) as u32) << 6) | (b[at + 1] & 0x3f) as u32, 2)
    } else if n >= 3 && 0xe0 <= b0 && b0 <= 0xef && can_follow(b0, b[at + 1]) && continues(
        b[at + 2],
    ) {
        (
            (((b0 & 0x0f) as u32) << 12) | (((b[at + 1] & 0x3f) as u32) << 6) | (b[at + 2]
                & 0x3f) as u32,
            3,
        )
    } else if n >= 4 && 0xf0 <= b0 && b0 <= 0xf4 && can_follow(b0, b[at + 1]) && continues(
        b[at + 2],
    ) && continues(b[at + 3]) {
        (
            (((b0 & 0x07) as u32) << 18) | (((b[at + 1] & 0x3f) as u32) << 12) | (((b[at + 2]
                & 0x3f) as u32) << 6) | (b[at + 3] & 0x3f) as u32,
            4,
        )
    } else {
        return None;
    };
    assert(v == decode_first_scalar(s));
    proof {
        if w == 1 {
            assert((b0 & 0x7f) as u32 <= 0x7f) by (bit_vector);
        } else if w == 2 {
            lemma_two(s[0], s[1]);
        } else if w == 3 {
            lemma_three(s[0], s[1], s[2]);
        }
    }
    match char::from_u32(v) {
        Some(c) => Some((c, w)),
        None => None,
    }
}

/// The text at the start of `b`, and how many bytes it takes: as many as are UTF-8.
pub fn decode_prefix(b: &[u8]) -> (r: (Vec<char>, usize))
    ensures
        r.1 == valid_up_to(b@),
        r.1 <= b@.len(),
        valid_utf8(b@.take(r.1 as int)),
        r.0@ == decode_utf8(b@.take(r.1 as int)),
        r.1 > 0 ==> r.0@.len() > 0,
{
    let mut out: Vec<char> = Vec::new();
    let mut n: usize = 0;
    assert(b@.skip(0) =~= b@);
    loop
        invariant
            n <= b@.len(),
            valid_up_to(b@) == n + valid_up_to(b@.skip(n as int)),
            valid_utf8(b@.take(n as int)),
            out@ == decode_utf8(b@.take(n as int)),
            n > 0 ==> out@.len() > 0,
        ensures
            valid_up_to(b@.skip(n as int)) == 0,
        decreases b@.len() - n,
    {
        if n == b.len() {
            break;
        }
        match character(b, n) {
            None => {
                break;
            },
            Some((c, w)) => {
                proof {
                    let s = b@.skip(n as int);
                    assert(pop_first_scalar(s) =~= b@.skip(n + w));
                    lemma_grow(b@, n as int);
                }
                out.push(c);
                n += w;
            },
        }
    }
    (out, n)
}

/// One character more is read behind a text.
proof fn lemma_grow(b: Seq<u8>, n: int)
    requires
        0 <= n < b.len(),
        valid_utf8(b.take(n)),
        valid_first_scalar(b.skip(n)),
    ensures
        ({
            let w = length_of_first_scalar(b.skip(n));
            &&& n + w <= b.len()
            &&& valid_utf8(b.take(n + w))
            &&& decode_utf8(b.take(n + w)) == decode_utf8(b.take(n)).push(
                decode_first_scalar(b.skip(n)) as char,
            )
        }),
{
    let s = b.skip(n);
    let w = length_of_first_scalar(s);
    let one = s.take(w);
    lemma_ranges(s);
    lemma_ranges(one);
    assert(valid_first_scalar(one));
    assert(pop_first_scalar(one) =~= seq![]);
    assert(valid_utf8(one)) by {
        reveal_with_fuel(valid_utf8, 2);
    }
    assert(decode_utf8(one) =~= seq![decode_first_scalar(s) as char]) by {
        reveal_with_fuel(decode_utf8, 2);
        assert(decode_first_scalar(one) == decode_first_scalar(s));
    }
    let whole = b.take(n + w);
    assert(whole =~= b.take(n) + one);
    lemma_join(b.take(n), one);
    assert(decode_utf8(whole) =~= decode_utf8(b.take(n)).push(decode_first_scalar(s) as char));
}

/// Two texts, one behind the other, are read as one.
pub proof fn lemma_join(a: Seq<u8>, b: Seq<u8>)
    requires
        valid_utf8(a),
        valid_utf8(b),
    ensures
        valid_utf8(a + b),
        decode_utf8(a + b) == decode_utf8(a) + decode_utf8(b),
    decreases a.len(),
{
    if a.len() == 0 {
        assert(a + b =~= b);
        assert(decode_utf8(a) + decode_utf8(b) =~= decode_utf8(b));
    } else {
        let w = length_of_first_scalar(a);
        assert(forall|i: int| 0 <= i < w ==> (a + b)[i] == a[i]);
        assert(pop_first_scalar(a + b) =~= pop_first_scalar(a) + b);
        lemma_join(pop_first_scalar(a), b);
        let c = decode_first_scalar(a) as char;
        assert(decode_first_scalar(a + b) == decode_first_scalar(a));
        assert(seq![c] + (decode_utf8(pop_first_scalar(a)) + decode_utf8(b)) =~= (seq![c]
            + decode_utf8(pop_first_scalar(a))) + decode_utf8(b));
    }
}

/// No longer part of `b` is UTF-8.
pub proof fn prefix_is_longest(b: Seq<u8>, m: int)
    requires
        valid_up_to(b) < m <= b.len(),
    ensures
        !valid_utf8(b.take(m)),
    decreases b.len(),
{
    let t = b.take(m);
    lemma_valid_up_to(b);
    lemma_ranges(b);
    lemma_ranges(t);
    if valid_first_scalar(t) {
        assert(forall|i: int| 0 <= i < m ==> t[i] == b[i]);
        assert(in_ranges(b));
        let w = length_of_first_scalar(b);
        assert(w == length_of_first_scalar(t));
        assert(pop_first_scalar(t) =~= pop_first_scalar(b).take(m - w));
        prefix_is_longest(pop_first_scalar(b), m - w);
    }
}

/// Whether the bytes that are left may still become a character.
fn may_begin(b: &[u8], at: usize) -> (r: bool)
    requires
        at < b@.len(),
        !valid_first_scalar(b@.skip(at as int)),
    ensures
        r == (b@.len() - at <= 3 && begins_character(b@.skip(at as int))),
{
    let ghost s = b@.skip(at as int);
    let n: usize = b.len() - at;
    proof {
        assert(forall|i: int| 0 <= i < s.len() ==> s[i] == b@[at + i]);
        if n <= 3 {
            lemma_begins(s);
        }
    }
    if n == 1 {
        0xc2 <= b[at] && b[at] <= 0xf4
    } else if n == 2 {
        0xe0 <= b[at] && b[at] <= 0xf4 && can_follow(b[at], b[at + 1])
    } else if n == 3 {
        0xf0 <= b[at] && b[at] <= 0xf4 && can_follow(b[at], b[at + 1]) && continues(b[at + 2])
    } else {
        false
    }
}

/// How many bytes stand in place of a character.
fn broken(b: &[u8], at: usize) -> (r: usize)
    requires
        at < b@.len(),
    ensures
        r == broken_len(b@.skip(at as int)),
        1 <= r <= b@.len() - at,
{
    let ghost s = b@.skip(at as int);
    let n: usize = b.len() - at;
    proof {
        assert(forall|i: int| 0 <= i < s.len() ==> s[i] == b@[at + i]);
        if n >= 2 {
            lemma_begins(s.take(2));
        }
        if n >= 3 {
            lemma_begins(s.take(3));
        }
    }
    if n >= 3 && 0xf0 <= b[at] && b[at] <= 0xf4 && can_follow(b[at], b[at + 1]) && continues(
        b[at + 2],
    ) {
        3
    } else if n >= 2 && 0xe0 <= b[at] && b[at] <= 0xf4 && can_follow(b[at], b[at + 1]) {
        2
    } else {
        1
    }
}

/// What is shown of the bytes `b`: their characters, a question mark in place of what can be none.
/// The start of a character at the end is not shown.
pub open spec fn shown(b: Seq<u8>) -> Seq<char>
    decreases b.len(),
{
    if b.len() == 0 {
        seq![]
    } else if valid_first_scalar(b) {
        seq![decode_first_scalar(b) as char] + shown(pop_first_scalar(b))
    } else if b.len() <= 3 && begins_character(b) {
        seq![]
    } else {
        seq!['?'] + shown(b.skip(broken_len(b)))
    }
}

/// What is left of the bytes `b` when they have been shown: the start of a character.
pub open spec fn kept(b: Seq<u8>) -> Seq<u8>
    decreases b.len(),
{
    if b.len() == 0 {
        seq![]
    } else if valid_first_scalar(b) {
        kept(pop_first_scalar(b))
    } else if b.len() <= 3 && begins_character(b) {
        b
    } else {
        kept(b.skip(broken_len(b)))
    }
}

/// Shows what can be shown of the bytes; what is left in `pending` waits for more.
pub fn show(pending: &mut Vec<u8>) -> (r: Vec<char>)
    ensures
        r@ == shown(old(pending)@),
        final(pending)@ == kept(old(pending)@),
        final(pending)@.len() <= 3,
{
    let mut out: Vec<char> = Vec::new();
    let mut n: usize = 0;
    let ghost b = pending@;
    assert(b.skip(0) =~= b);
    assert(out@ + shown(b) =~= shown(b));
    loop
        invariant
            pending@ == b,
            n <= b.len(),
            out@ + shown(b.skip(n as int)) == shown(b),
            kept(b.skip(n as int)) == kept(b),
        ensures
            out@ == shown(b),
            b.skip(n as int) == kept(b),
            b.len() - n <= 3,
        decreases b.len() - n,
    {
        let ghost s = b.skip(n as int);
        if n == pending.len() {
            assert(out@ =~= shown(b));
            assert(s =~= kept(b));
            break;
        }
        match character(pending.as_slice(), n) {
            Some((c, w)) => {
                proof {
                    assert(pop_first_scalar(s) =~= b.skip(n + w));
                    assert(out@.push(c) + shown(b.skip(n + w)) =~= out@ + shown(s));
                }
                out.push(c);
                n += w;
            },
            None => {
                if may_begin(pending.as_slice(), n) {
                    assert(out@ =~= shown(b));
                    break;
                }
                let w: usize = broken(pending.as_slice(), n);
                proof {
                    assert(s.skip(broken_len(s)) =~= b.skip(n + w));
                    assert(out@.push('?') + shown(b.skip(n + w)) =~= out@ + shown(s));
                }
                out.push('?');
                n += w;
            },
        }
    }
    let rest = vstd::slice::slice_to_vec(
        vstd::slice::slice_subrange(pending.as_slice(), n, pending.len()),
    );
    assert(rest@ =~= b.skip(n as int));
    *pending = rest;
    out
}

/// The text of the bytes `b`: their characters, and one U+FFFD in place of every piece that is none.
pub open spec fn lossy_text(b: Seq<u8>) -> Seq<char>
    decreases b.len(),
{
    if b.len() == 0 {
        seq![]
    } else if valid_first_scalar(b) {
        seq![decode_first_scalar(b) as char] + lossy_text(pop_first_scalar(b))
    } else {
        seq!['\u{fffd}'] + lossy_text(b.skip(broken_len(b)))
    }
}

/// The text of the bytes, with U+FFFD in place of what is no character.
pub fn lossy(b: &[u8]) -> (r: String)
    ensures
        r@ == lossy_text(b@),
        valid_utf8(b@) ==> r@ == decode_utf8(b@),
{
    let mut out: String = String::new();
    let mut n: usize = 0;
    assert(b@.skip(0) =~= b@);
    assert(out@ + lossy_text(b@) =~= lossy_text(b@));
    while n < b.len()
        invariant
            n <= b@.len(),
            out@ + lossy_text(b@.skip(n as int)) == lossy_text(b@),
        decreases b@.len() - n,
    {
        let ghost s = b@.skip(n as int);
        match character(b, n) {
            Some((c, w)) => {
                proof {
                    assert(pop_first_scalar(s) =~= b@.skip(n + w));
                    assert(out@.push(c) + lossy_text(b@.skip(n + w)) =~= out@ + lossy_text(s));
                }
                out.push(c);
                n += w;
            },
            None => {
                let w: usize = broken(b, n);
                proof {
                    assert(s.skip(broken_len(s)) =~= b@.skip(n + w));
                    assert(out@.push('\u{fffd}') + lossy_text(b@.skip(n + w)) =~= out@
                        + lossy_text(s));
                }
                out.push('\u{fffd}');
                n += w;
            },
        }
    }
    proof {
        assert(out@ + lossy_text(b@.skip(n as int)) =~= out@);
        if valid_utf8(b@) {
            text_goes_before(b@, seq![]);
            assert(b@ + seq![] =~= b@);
            assert(decode_utf8(b@) + lossy_text(seq![]) =~= decode_utf8(b@));
        }
    }
    out
}

/// Bytes that are UTF-8 are decoded whatever stands behind them, and what stands behind them reads
/// as it does alone.
pub proof fn text_goes_before(a: Seq<u8>, b: Seq<u8>)
    requires
        valid_utf8(a),
    ensures
        lossy_text(a + b) == decode_utf8(a) + lossy_text(b),
    decreases a.len(),
{
    if a.len() == 0 {
        assert(a + b =~= b);
        assert(decode_utf8(a) + lossy_text(b) =~= lossy_text(b));
    } else {
        let w = length_of_first_scalar(a);
        assert(forall|i: int| 0 <= i < w ==> (a + b)[i] == a[i]);
        assert(pop_first_scalar(a + b) =~= pop_first_scalar(a) + b);
        text_goes_before(pop_first_scalar(a), b);
        let c = decode_first_scalar(a) as char;
        assert(decode_first_scalar(a + b) == decode_first_scalar(a));
        assert(seq![c] + (decode_utf8(pop_first_scalar(a)) + lossy_text(b)) =~= (seq![c]
            + decode_utf8(pop_first_scalar(a))) + lossy_text(b));
    }
}

/// Of bytes that are UTF-8 all is shown.
pub proof fn text_is_shown(b: Seq<u8>)
    requires
        valid_utf8(b),
    ensures
        shown(b) == decode_utf8(b),
        kept(b) == Seq::<u8>::empty(),
    decreases b.len(),
{
    if b.len() > 0 {
        text_is_shown(pop_first_scalar(b));
    }
}

/// What begins with the start of a character begins with any shorter start of it.
proof fn lemma_begins_shorter(s: Seq<u8>, t: Seq<u8>)
    requires
        begins_character(s + t),
    ensures
        begins_character(s),
{
    let u = choose|u: Seq<u8>| completes(s + t, u);
    assert((s + t) + u =~= s + (t + u));
    assert(completes(s, t + u));
}

/// What is UTF-8 at the start of `b` can be read, and no character follows it.
pub proof fn lemma_valid_up_to(b: Seq<u8>)
    ensures
        0 <= valid_up_to(b) <= b.len(),
        valid_utf8(b.take(valid_up_to(b))),
        valid_up_to(b.skip(valid_up_to(b))) == 0,
    decreases b.len(),
{
    let n = valid_up_to(b);
    if b.len() > 0 && valid_first_scalar(b) {
        let w = length_of_first_scalar(b);
        let rest = pop_first_scalar(b);
        lemma_valid_up_to(rest);
        let t = b.take(n);
        lemma_ranges(b);
        lemma_ranges(t);
        assert(forall|i: int| 0 <= i < n ==> t[i] == b[i]);
        assert(pop_first_scalar(t) =~= rest.take(n - w));
        assert(b.skip(n) =~= rest.skip(n - w));
    } else {
        assert(b.take(0).len() == 0);
        assert(b.skip(0) =~= b);
    }
}

/// Bytes that arrive in parts are shown as if they had come at once.
pub proof fn parts_are_shown_alike(a: Seq<u8>, b: Seq<u8>)
    ensures
        shown(a + b) == shown(a) + shown(kept(a) + b),
        kept(a + b) == kept(kept(a) + b),
    decreases a.len(),
{
    let ab = a + b;
    if a.len() == 0 {
        assert(ab =~= b);
        assert(kept(a) + b =~= b);
        assert(shown(a) + shown(b) =~= shown(b));
    } else if valid_first_scalar(a) {
        lemma_ranges(a);
        lemma_ranges(ab);
        assert(forall|i: int| 0 <= i < a.len() ==> ab[i] == a[i]);
        let rest = pop_first_scalar(a);
        assert(pop_first_scalar(ab) =~= rest + b);
        parts_are_shown_alike(rest, b);
        let c = seq![decode_first_scalar(a) as char];
        assert(c + (shown(rest) + shown(kept(rest) + b)) =~= (c + shown(rest)) + shown(
            kept(rest) + b,
        ));
    } else if a.len() <= 3 && begins_character(a) {
        assert(shown(a) + shown(ab) =~= shown(ab));
    } else {
        lemma_ranges(a);
        lemma_ranges(ab);
        assert(forall|i: int| 0 <= i < a.len() ==> ab[i] == a[i]);
        if valid_first_scalar(ab) {
            assert(length_of_first_scalar(ab) > a.len());
            assert(completes(a, b));
        }
        if ab.len() <= 3 && begins_character(ab) {
            lemma_begins_shorter(a, b);
        }
        let w = broken_len(a);
        assert(broken_len(ab) == w) by {
            assert forall|k: int| 2 <= k <= 3 && k <= ab.len() implies (begins_character(
                #[trigger] ab.take(k),
            ) == (k <= a.len() && begins_character(a.take(k)))) by {
                if k <= a.len() {
                    assert(ab.take(k) =~= a.take(k));
                } else if begins_character(ab.take(k)) {
                    assert(ab.take(k) =~= a + b.take(k - a.len()));
                    lemma_begins_shorter(a, b.take(k - a.len()));
                }
            }
        }
        let rest = a.skip(w);
        assert(ab.skip(w) =~= rest + b);
        parts_are_shown_alike(rest, b);
        let q = seq!['?'];
        assert(q + (shown(rest) + shown(kept(rest) + b)) =~= (q + shown(rest)) + shown(
            kept(rest) + b,
        ));
    }
}

} // verus!
