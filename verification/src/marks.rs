//! The alphabetic characters of Unicode that are neither letters nor numbers: vowel signs and other
//! marks that count as part of a word, and letters in circles and squares. As of Unicode 14.

use vstd::prelude::*;

verus! {

/// The first and the last code of each run of such characters, in order.
pub const MARKS: [(u32, u32); 233] = [
    (0x345, 0x345), (0x5b0, 0x5bd), (0x5bf, 0x5bf), (0x5c1, 0x5c2), (0x5c4, 0x5c5), (0x5c7, 0x5c7),
    (0x610, 0x61a), (0x64b, 0x657), (0x659, 0x65f), (0x670, 0x670), (0x6d6, 0x6dc), (0x6e1, 0x6e4),
    (0x6e7, 0x6e8), (0x6ed, 0x6ed), (0x711, 0x711), (0x730, 0x73f), (0x7a6, 0x7b0), (0x816, 0x817),
    (0x81b, 0x823), (0x825, 0x827), (0x829, 0x82c), (0x8d4, 0x8df), (0x8e3, 0x8e9), (0x8f0, 0x903),
    (0x93a, 0x93b), (0x93e, 0x94c), (0x94e, 0x94f), (0x955, 0x957), (0x962, 0x963), (0x981, 0x983),
    (0x9be, 0x9c4), (0x9c7, 0x9c8), (0x9cb, 0x9cc), (0x9d7, 0x9d7), (0x9e2, 0x9e3), (0xa01, 0xa03),
    (0xa3e, 0xa42), (0xa47, 0xa48), (0xa4b, 0xa4c), (0xa51, 0xa51), (0xa70, 0xa71), (0xa75, 0xa75),
    (0xa81, 0xa83), (0xabe, 0xac5), (0xac7, 0xac9), (0xacb, 0xacc), (0xae2, 0xae3), (0xafa, 0xafc),
    (0xb01, 0xb03), (0xb3e, 0xb44), (0xb47, 0xb48), (0xb4b, 0xb4c), (0xb56, 0xb57), (0xb62, 0xb63),
    (0xb82, 0xb82), (0xbbe, 0xbc2), (0xbc6, 0xbc8), (0xbca, 0xbcc), (0xbd7, 0xbd7), (0xc00, 0xc03),
    (0xc3e, 0xc44), (0xc46, 0xc48), (0xc4a, 0xc4c), (0xc55, 0xc56), (0xc62, 0xc63), (0xc81, 0xc83),
    (0xcbe, 0xcc4), (0xcc6, 0xcc8), (0xcca, 0xccc), (0xcd5, 0xcd6), (0xce2, 0xce3), (0xd00, 0xd03),
    (0xd3e, 0xd44), (0xd46, 0xd48), (0xd4a, 0xd4c), (0xd57, 0xd57), (0xd62, 0xd63), (0xd81, 0xd83),
    (0xdcf, 0xdd4), (0xdd6, 0xdd6), (0xdd8, 0xddf), (0xdf2, 0xdf3), (0xe31, 0xe31), (0xe34, 0xe3a),
    (0xe4d, 0xe4d), (0xeb1, 0xeb1), (0xeb4, 0xeb9), (0xebb, 0xebc), (0xecd, 0xecd), (0xf71, 0xf81),
    (0xf8d, 0xf97), (0xf99, 0xfbc), (0x102b, 0x1036), (0x1038, 0x1038), (0x103b, 0x103e),
    (0x1056, 0x1059), (0x105e, 0x1060), (0x1062, 0x1064), (0x1067, 0x106d), (0x1071, 0x1074),
    (0x1082, 0x108d), (0x108f, 0x108f), (0x109a, 0x109d), (0x1712, 0x1713), (0x1732, 0x1733),
    (0x1752, 0x1753), (0x1772, 0x1773), (0x17b6, 0x17c8), (0x1885, 0x1886), (0x18a9, 0x18a9),
    (0x1920, 0x192b), (0x1930, 0x1938), (0x1a17, 0x1a1b), (0x1a55, 0x1a5e), (0x1a61, 0x1a74),
    (0x1abf, 0x1ac0), (0x1acc, 0x1ace), (0x1b00, 0x1b04), (0x1b35, 0x1b43), (0x1b80, 0x1b82),
    (0x1ba1, 0x1ba9), (0x1bac, 0x1bad), (0x1be7, 0x1bf1), (0x1c24, 0x1c36), (0x1de7, 0x1df4),
    (0x24b6, 0x24e9), (0x2de0, 0x2dff), (0xa674, 0xa67b), (0xa69e, 0xa69f), (0xa802, 0xa802),
    (0xa80b, 0xa80b), (0xa823, 0xa827), (0xa880, 0xa881), (0xa8b4, 0xa8c3), (0xa8c5, 0xa8c5),
    (0xa8ff, 0xa8ff), (0xa926, 0xa92a), (0xa947, 0xa952), (0xa980, 0xa983), (0xa9b4, 0xa9bf),
    (0xa9e5, 0xa9e5), (0xaa29, 0xaa36), (0xaa43, 0xaa43), (0xaa4c, 0xaa4d), (0xaa7b, 0xaa7d),
    (0xaab0, 0xaab0), (0xaab2, 0xaab4), (0xaab7, 0xaab8), (0xaabe, 0xaabe), (0xaaeb, 0xaaef),
    (0xaaf5, 0xaaf5), (0xabe3, 0xabea), (0xfb1e, 0xfb1e), (0x10376, 0x1037a), (0x10a01, 0x10a03),
    (0x10a05, 0x10a06), (0x10a0c, 0x10a0f), (0x10d24, 0x10d27), (0x10eab, 0x10eac),
    (0x11000, 0x11002), (0x11038, 0x11045), (0x11073, 0x11074), (0x11082, 0x11082),
    (0x110b0, 0x110b8), (0x110c2, 0x110c2), (0x11100, 0x11102), (0x11127, 0x11132),
    (0x11145, 0x11146), (0x11180, 0x11182), (0x111b3, 0x111bf), (0x111ce, 0x111cf),
    (0x1122c, 0x11234), (0x11237, 0x11237), (0x1123e, 0x1123e), (0x112df, 0x112e8),
    (0x11300, 0x11303), (0x1133e, 0x11344), (0x11347, 0x11348), (0x1134b, 0x1134c),
    (0x11357, 0x11357), (0x11362, 0x11363), (0x11435, 0x11441), (0x11443, 0x11445),
    (0x114b0, 0x114c1), (0x115af, 0x115b5), (0x115b8, 0x115be), (0x115dc, 0x115dd),
    (0x11630, 0x1163e), (0x11640, 0x11640), (0x116ab, 0x116b5), (0x1171d, 0x1172a),
    (0x1182c, 0x11838), (0x11930, 0x11935), (0x11937, 0x11938), (0x1193b, 0x1193c),
    (0x11940, 0x11940), (0x11942, 0x11942), (0x119d1, 0x119d7), (0x119da, 0x119df),
    (0x119e4, 0x119e4), (0x11a01, 0x11a0a), (0x11a35, 0x11a39), (0x11a3b, 0x11a3e),
    (0x11a51, 0x11a5b), (0x11a8a, 0x11a97), (0x11c2f, 0x11c36), (0x11c38, 0x11c3e),
    (0x11c92, 0x11ca7), (0x11ca9, 0x11cb6), (0x11d31, 0x11d36), (0x11d3a, 0x11d3a),
    (0x11d3c, 0x11d3d), (0x11d3f, 0x11d41), (0x11d43, 0x11d43), (0x11d47, 0x11d47),
    (0x11d8a, 0x11d8e), (0x11d90, 0x11d91), (0x11d93, 0x11d96), (0x11ef3, 0x11ef6),
    (0x16f4f, 0x16f4f), (0x16f51, 0x16f87), (0x16f8f, 0x16f92), (0x16ff0, 0x16ff1),
    (0x1bc9e, 0x1bc9e), (0x1e000, 0x1e006), (0x1e008, 0x1e018), (0x1e01b, 0x1e021),
    (0x1e023, 0x1e024), (0x1e026, 0x1e02a), (0x1e947, 0x1e947), (0x1f130, 0x1f149),
    (0x1f150, 0x1f169), (0x1f170, 0x1f189),
];

/// `c` is of one of the runs.
pub open spec fn mark(c: char) -> bool {
    exists|i: int| 0 <= i < MARKS@.len() && (#[trigger] MARKS@[i]).0 <= c as u32 <= MARKS@[i].1
}

/// Whether `c` is an alphabetic character that is neither a letter nor a number.
pub fn is_mark(c: char) -> (r: bool)
    ensures
        r == mark(c),
{
    let code: u32 = c as u32;
    let mut i: usize = 0;
    while i < MARKS.len()
        invariant
            i <= MARKS@.len(),
            code == c as u32,
            forall|j: int|
                0 <= j < i ==> !((#[trigger] MARKS@[j]).0 <= code <= MARKS@[j].1),
        decreases MARKS@.len() - i,
    {
        let (first, last): (u32, u32) = MARKS[i];
        if first <= code && code <= last {
            return true;
        }
        i += 1;
    }
    false
}

} // verus!
