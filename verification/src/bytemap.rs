//! The reversible map between bytes and printable characters that byte-level vocabularies are
//! written in. Printable bytes stand for themselves; the others take the characters from 256 on.

use vstd::prelude::*;

verus! {

/// `char::from_u32`: the character with that code, if the code is that of a character.
pub assume_specification[ char::from_u32 ](i: u32) -> (r: Option<char>)
    ensures
        r == (if i <= 0xd7ff || 0xe000 <= i <= 0x10ffff {
            Some(i as char)
        } else {
            None::<char>
        }),
;

/// Bytes that stand for themselves.
pub open spec fn printable(b: int) -> bool {
    33 <= b <= 126 || 161 <= b <= 172 || 174 <= b <= 255
}

/// Bytes below `b` that do not stand for themselves.
pub open spec fn hidden_below(b: int) -> nat
    decreases b,
{
    if b <= 0 {
        0
    } else {
        hidden_below(b - 1) + (if printable(b - 1) {
            0nat
        } else {
            1nat
        })
    }
}

/// The code of the character that stands for `b`.
pub open spec fn code(b: int) -> int {
    if printable(b) {
        b
    } else {
        256int + hidden_below(b)
    }
}

/// The character that stands for `b`.
pub open spec fn char_for(b: u8) -> char {
    (code(b as int) as u32) as char
}

/// The byte that `c` stands for.
pub open spec fn byte_for(c: char) -> Option<u8> {
    if exists|b: u8| char_for(b) == c {
        Some(choose|b: u8| char_for(b) == c)
    } else {
        None
    }
}

/// Codes to look up.
pub const CODES: usize = 512;

/// At most all bytes below are hidden.
proof fn lemma_hidden(b: int)
    requires
        0 <= b,
    ensures
        hidden_below(b) <= b,
    decreases b,
{
    if b > 0 {
        lemma_hidden(b - 1);
    }
}

/// Hidden bytes are counted upwards.
proof fn lemma_hidden_grows(a: int, b: int)
    requires
        0 <= a < b,
        !printable(a),
    ensures
        hidden_below(a) < hidden_below(b),
    decreases b,
{
    if a < b - 1 {
        lemma_hidden_grows(a, b - 1);
    }
}

/// Codes are below [`CODES`].
proof fn lemma_code(b: u8)
    ensures
        0 <= code(b as int) < CODES,
        char_for(b) as u32 == code(b as int),
{
    lemma_hidden(b as int);
}

/// Different bytes have different characters.
pub proof fn bytes_have_own_chars(a: u8, b: u8)
    requires
        char_for(a) == char_for(b),
    ensures
        a == b,
{
    lemma_code(a);
    lemma_code(b);
    if a < b && !printable(a as int) && !printable(b as int) {
        lemma_hidden_grows(a as int, b as int);
    }
    if b < a && !printable(a as int) && !printable(b as int) {
        lemma_hidden_grows(b as int, a as int);
    }
}

/// A byte is found again from its character.
pub proof fn bytes_come_back(b: u8)
    ensures
        byte_for(char_for(b)) == Some(b),
{
    let c = char_for(b);
    let x = choose|x: u8| char_for(x) == c;
    assert(char_for(b) == c);
    bytes_have_own_chars(x, b);
}

/// The map from bytes to characters, and the map back by the character's code.
pub struct ByteMap {
    pub chars: Vec<char>,
    pub bytes: Vec<Option<u8>>,
}

impl ByteMap {
    /// The tables hold the map.
    pub open spec fn wf(self) -> bool {
        &&& self.chars@.len() == 256
        &&& forall|b: u8| #[trigger] self.chars@[b as int] == char_for(b)
        &&& self.bytes@.len() == CODES
        &&& forall|c: char|
            (c as u32) < CODES ==> #[trigger] self.bytes@[c as u32 as int] == byte_for(c)
    }

    /// The character that stands for `b`.
    pub fn to_char(&self, b: u8) -> (r: char)
        requires
            self.wf(),
        ensures
            r == char_for(b),
    {
        self.chars[b as usize]
    }

    /// The byte that `c` stands for.
    pub fn to_byte(&self, c: char) -> (r: Option<u8>)
        requires
            self.wf(),
        ensures
            r == byte_for(c),
    {
        if (c as u32 as usize) < CODES {
            self.bytes[c as u32 as usize]
        } else {
            proof {
                assert forall|b: u8| char_for(b) != c by {
                    lemma_code(b);
                }
            }
            None
        }
    }
}

/// The tables of the map.
pub fn bytes_to_unicode() -> (r: ByteMap)
    ensures
        r.wf(),
{
    let mut chars: Vec<char> = Vec::new();
    let mut bytes: Vec<Option<u8>> = Vec::new();
    let mut i: usize = 0;
    while i < CODES
        invariant
            i <= CODES,
            bytes@.len() == i,
            forall|k: int| 0 <= k < i ==> #[trigger] bytes@[k] is None,
        decreases CODES - i,
    {
        bytes.push(None);
        i += 1;
    }
    let mut n: u32 = 0;
    let mut b: u32 = 0;
    while b < 256
        invariant
            b <= 256,
            n == hidden_below(b as int),
            n <= b,
            chars@.len() == b,
            bytes@.len() == CODES,
            forall|x: u8| x < b ==> #[trigger] chars@[x as int] == char_for(x),
            forall|x: u8| x < b ==> bytes@[#[trigger] code(x as int)] == Some(x),
            forall|k: int|
                0 <= k < CODES ==> (#[trigger] bytes@[k] matches Some(x) ==> x < b && code(
                    x as int,
                ) == k),
        decreases 256 - b,
    {
        let shown: bool = (33 <= b && b <= 126) || (161 <= b && b <= 172) || (174 <= b && b <= 255);
        let code_b: u32 = if shown {
            b
        } else {
            256 + n
        };
        let byte: u8 = b as u8;
        proof {
            lemma_code(byte);
            assert(code_b == code(b as int));
        }
        let c: char = match char::from_u32(code_b) {
            Some(c) => c,
            None => {
                assert(false);
                '?'
            },
        };
        chars.push(c);
        let ghost before = bytes@;
        bytes.set(code_b as usize, Some(byte));
        proof {
            assert forall|x: u8| x < b + 1 implies bytes@[#[trigger] code(x as int)] == Some(x) by {
                lemma_code(x);
                if x < b {
                    assert(before[code(x as int)] == Some(x));
                    if code(x as int) == code_b {
                        bytes_have_own_chars(x, byte);
                    }
                }
            }
        }
        if !shown {
            n += 1;
        }
        b += 1;
    }
    let r = ByteMap { chars, bytes };
    proof {
        assert forall|c: char| (c as u32) < CODES implies #[trigger] r.bytes@[c as u32 as int]
            == byte_for(c) by {
            match r.bytes@[c as u32 as int] {
                Some(x) => {
                    lemma_code(x);
                    assert(char_for(x) == c);
                    bytes_come_back(x);
                },
                None => {
                    assert forall|x: u8| char_for(x) != c by {
                        lemma_code(x);
                        assert(r.bytes@[code(x as int)] == Some(x));
                    }
                },
            }
        }
    }
    r
}

/// The characters that stand for `bytes`.
pub open spec fn mapped(bytes: Seq<u8>) -> Seq<char> {
    bytes.map_values(|b: u8| char_for(b))
}

/// The bytes that `chars` stand for, with a question mark for every character that stands for none.
pub open spec fn unmapped(chars: Seq<char>) -> Seq<u8> {
    chars.map_values(
        |c: char|
            match byte_for(c) {
                Some(b) => b,
                None => 63u8,
            },
    )
}

/// The map is reversible.
pub proof fn mapping_is_reversible(bytes: Seq<u8>)
    ensures
        unmapped(mapped(bytes)) == bytes,
{
    assert forall|i: int| 0 <= i < bytes.len() implies #[trigger] unmapped(mapped(bytes))[i]
        == bytes[i] by {
        bytes_come_back(bytes[i]);
    }
    assert(unmapped(mapped(bytes)) =~= bytes);
}

/// Bytes that can be printed stand for themselves, and no other byte has their characters: the others
/// take the characters from 256 on, in the order of the bytes, without a gap.
pub proof fn hidden_bytes_follow_in_order(a: u8, b: u8)
    ensures
        33 <= a <= 126 || 161 <= a <= 172 || a >= 174 ==> char_for(a) as u32 == a,
        a <= 32 || 127 <= a <= 160 || a == 173 ==> char_for(a) as u32 >= 256,
        a < b && char_for(a) as u32 >= 256 && char_for(b) as u32 >= 256 ==> (char_for(a) as u32) < (
        char_for(b) as u32),
        a < b && char_for(a) as u32 >= 256 && char_for(b) as u32 >= 256 && (forall|x: u8|
            a < x < b ==> #[trigger] char_for(x) as u32 == x) ==> char_for(b) as u32 == char_for(
            a,
        ) as u32 + 1,
        char_for(0) as u32 == 256,
{
    lemma_code(a);
    lemma_code(b);
    lemma_code(0);
    if a < b && !printable(a as int) {
        lemma_hidden_grows(a as int, b as int);
        if forall|x: u8| a < x < b ==> #[trigger] char_for(x) as u32 == x {
            assert forall|x: int| a < x < b implies #[trigger] printable(x) by {
                assert(char_for(x as u8) as u32 == x as u8);
                lemma_code(x as u8);
            }
            lemma_hidden_steps(a as int, b as int);
        }
    }
}

/// A hidden byte counts once up to the next one.
proof fn lemma_hidden_steps(a: int, b: int)
    requires
        0 <= a < b,
        !printable(a),
        forall|x: int| a < x < b ==> #[trigger] printable(x),
    ensures
        hidden_below(b) == hidden_below(a) + 1,
    decreases b - a,
{
    if a < b - 1 {
        assert(printable(b - 1));
        lemma_hidden_steps(a, b - 1);
    }
}

} // verus!
