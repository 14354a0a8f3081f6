//! Splits text into the chunks that byte-pair encoding works on: contractions, words, digits,
//! punctuation and white space, as the pattern
//!
//! ```text
//! (?i:'s|'t|'re|'ve|'m|'ll|'d) | [^\r\n\p{L}\p{N}]?\p{L}+ | \p{N}
//!   |  ?[^\s\p{L}\p{N}]+[\r\n]* | \s*[\r\n]+ | \s+(?!\S) | \s+
//! ```
//!
//! does.

use vstd::prelude::*;
use vstd::slice::*;

use crate::marks;
use crate::text;

verus! {

/// A line break.
pub open spec fn line_break(c: char) -> bool {
    c == '\r' || c == '\n'
}

/// A letter: an alphabetic character that is neither a number nor a mark.
pub open spec fn letter(c: char) -> bool {
    text::alphabetic(c) && !text::numeric(c) && !marks::mark(c)
}

/// Neither white space nor a letter nor a number.
pub open spec fn punctuation(c: char) -> bool {
    !text::white(c) && !letter(c) && !text::numeric(c)
}

/// Where the run of characters with property `p` that starts at `i` ends.
pub open spec fn run_end(s: Seq<char>, i: int, p: spec_fn(char) -> bool) -> int
    decreases s.len() - i,
{
    if 0 <= i < s.len() && p(s[i]) {
        run_end(s, i + 1, p)
    } else {
        i
    }
}

/// The last line break between `i` and `j`, or `i - 1`.
pub open spec fn last_break(s: Seq<char>, i: int, j: int) -> int
    decreases j - i,
{
    if j <= i {
        i - 1
    } else if line_break(s[j - 1]) {
        j - 1
    } else {
        last_break(s, i, j - 1)
    }
}

/// How many letters of a contraction follow the apostrophe at `i`.
pub open spec fn contraction(s: Seq<char>, i: int) -> int {
    if i + 1 >= s.len() {
        0
    } else {
        let a = text::lower(s[i + 1]);
        let two = i + 2 < s.len() && {
            let b = text::lower(s[i + 2]);
            (a == 'r' && b == 'e') || (a == 'v' && b == 'e') || (a == 'l' && b == 'l')
        };
        if two {
            2
        } else if a == 's' || a == 't' || a == 'm' || a == 'd' {
            1
        } else {
            0
        }
    }
}

/// Where a word with an optional character before it that starts at `i` ends, or `i`.
pub open spec fn word_end(s: Seq<char>, i: int) -> int {
    let c = s[i];
    let k = if !letter(c) && !text::numeric(c) && !line_break(c) {
        i + 1
    } else {
        i
    };
    if k < s.len() && letter(s[k]) {
        run_end(s, k, |c: char| letter(c))
    } else {
        i
    }
}

/// Where punctuation with an optional space before it and line breaks behind it that starts at `i`
/// ends, or `i`.
pub open spec fn punctuation_end(s: Seq<char>, i: int) -> int {
    let k = if s[i] == ' ' {
        i + 1
    } else {
        i
    };
    if k < s.len() && punctuation(s[k]) {
        run_end(
            s,
            run_end(s, k, |c: char| punctuation(c)),
            |c: char| line_break(c),
        )
    } else {
        i
    }
}

/// Where white space that starts at `i` ends: behind its last line break; else before its last
/// character, which is left to the word that follows; else where it ends.
pub open spec fn space_end(s: Seq<char>, i: int) -> int {
    let j = run_end(s, i, |c: char| text::white(c));
    let k = last_break(s, i, j);
    if k >= i {
        k + 1
    } else if j < s.len() && j - i > 1 {
        j - 1
    } else {
        j
    }
}

/// Where the chunk that starts at `i` ends.
pub open spec fn chunk_end(s: Seq<char>, i: int) -> int {
    if s[i] == '\'' && contraction(s, i) > 0 {
        i + 1 + contraction(s, i)
    } else if word_end(s, i) > i {
        word_end(s, i)
    } else if text::numeric(s[i]) {
        i + 1
    } else if punctuation_end(s, i) > i {
        punctuation_end(s, i)
    } else if text::white(s[i]) {
        space_end(s, i)
    } else {
        i + 1
    }
}

/// A run does not end before it starts, nor behind the text.
proof fn lemma_run_end(s: Seq<char>, i: int, p: spec_fn(char) -> bool)
    ensures
        run_end(s, i, p) >= i,
        i <= s.len() ==> run_end(s, i, p) <= s.len(),
        0 <= i < s.len() && p(s[i]) ==> run_end(s, i, p) > i,
    decreases s.len() - i,
{
    if 0 <= i < s.len() && p(s[i]) {
        lemma_run_end(s, i + 1, p);
    }
}

/// The last line break lies within.
proof fn lemma_last_break(s: Seq<char>, i: int, j: int)
    requires
        i <= j,
    ensures
        i - 1 <= last_break(s, i, j) < j || last_break(s, i, j) == i - 1,
    decreases j - i,
{
    if i < j {
        lemma_last_break(s, i, j - 1);
    }
}

/// Every chunk holds a character and ends within the text.
pub proof fn lemma_chunk_end(s: Seq<char>, i: int)
    requires
        0 <= i < s.len(),
    ensures
        i < chunk_end(s, i) <= s.len(),
{
    let c = s[i];
    let k = if !letter(c) && !text::numeric(c) && !line_break(c) {
        i + 1
    } else {
        i
    };
    lemma_run_end(s, k, |c: char| letter(c));
    let k = if c == ' ' {
        i + 1
    } else {
        i
    };
    lemma_run_end(s, k, |c: char| punctuation(c));
    lemma_run_end(
        s,
        run_end(s, k, |c: char| punctuation(c)),
        |c: char| line_break(c),
    );
    lemma_run_end(s, i, |c: char| text::white(c));
    lemma_last_break(s, i, run_end(s, i, |c: char| text::white(c)));
}

/// The chunks of the text from `i` on.
pub open spec fn chunks(s: Seq<char>, i: int) -> Seq<Seq<char>>
    decreases s.len() - i,
{
    if 0 <= i < s.len() {
        proof {
            lemma_chunk_end(s, i);
        }
        seq![s.subrange(i, chunk_end(s, i))] + chunks(s, chunk_end(s, i))
    } else {
        seq![]
    }
}

/// Which characters a run is made of.
#[derive(Clone, Copy)]
enum Class {
    Letter,
    Punctuation,
    Break,
    Space,
}

impl Class {
    /// The characters of the class.
    spec fn test(self) -> spec_fn(char) -> bool {
        match self {
            Class::Letter => |c: char| letter(c),
            Class::Punctuation => |c: char| punctuation(c),
            Class::Break => |c: char| line_break(c),
            Class::Space => |c: char| text::white(c),
        }
    }

    /// Whether `c` is of the class.
    fn holds(self, c: char) -> (r: bool)
        ensures
            r == (self.test())(c),
    {
        match self {
            Class::Letter => is_letter(c),
            Class::Punctuation => is_punctuation(c),
            Class::Break => is_break(c),
            Class::Space => c.is_whitespace(),
        }
    }
}

/// Whether `c` is a letter.
fn is_letter(c: char) -> (r: bool)
    ensures
        r == letter(c),
{
    c.is_alphabetic() && !c.is_numeric() && !marks::is_mark(c)
}

/// Whether `c` is a line break.
fn is_break(c: char) -> (r: bool)
    ensures
        r == line_break(c),
{
    c == '\r' || c == '\n'
}

/// Whether `c` is neither white space nor a letter nor a number.
fn is_punctuation(c: char) -> (r: bool)
    ensures
        r == punctuation(c),
{
    !c.is_whitespace() && !is_letter(c) && !c.is_numeric()
}

/// Where the run of characters of a class that starts at `i` ends.
fn find_run_end(s: &[char], i: usize, class: Class) -> (r: usize)
    requires
        i <= s@.len(),
    ensures
        r == run_end(s@, i as int, class.test()),
        i <= r <= s@.len(),
{
    let mut k: usize = i;
    while k < s.len() && class.holds(s[k])
        invariant
            i <= k <= s@.len(),
            run_end(s@, i as int, class.test()) == run_end(s@, k as int, class.test()),
        decreases s@.len() - k,
    {
        k += 1;
    }
    k
}

/// Letters of a contraction behind the apostrophe at `i`.
fn find_contraction(s: &[char], i: usize) -> (r: usize)
    requires
        i < s@.len(),
    ensures
        r == contraction(s@, i as int),
{
    if s.len() - i <= 1 {
        return 0;
    }
    let a: char = text::to_lower(s[i + 1]);
    if s.len() - i > 2 {
        let b: char = text::to_lower(s[i + 2]);
        if (a == 'r' && b == 'e') || (a == 'v' && b == 'e') || (a == 'l' && b == 'l') {
            return 2;
        }
    }
    if a == 's' || a == 't' || a == 'm' || a == 'd' {
        1
    } else {
        0
    }
}

/// Where a word that starts at `i` ends, or `i`.
fn find_word_end(s: &[char], i: usize) -> (r: usize)
    requires
        i < s@.len(),
    ensures
        r == word_end(s@, i as int),
        i <= r <= s@.len(),
{
    let c: char = s[i];
    let k: usize = if !is_letter(c) && !c.is_numeric() && !is_break(c) {
        i + 1
    } else {
        i
    };
    if k < s.len() && is_letter(s[k]) {
        find_run_end(s, k, Class::Letter)
    } else {
        i
    }
}

/// Where punctuation that starts at `i` ends, or `i`.
fn find_punctuation_end(s: &[char], i: usize) -> (r: usize)
    requires
        i < s@.len(),
    ensures
        r == punctuation_end(s@, i as int),
        i <= r <= s@.len(),
{
    let k: usize = if s[i] == ' ' {
        i + 1
    } else {
        i
    };
    if k < s.len() && is_punctuation(s[k]) {
        let m: usize = find_run_end(s, k, Class::Punctuation);
        find_run_end(s, m, Class::Break)
    } else {
        i
    }
}

/// Where white space that starts at `i` ends.
fn find_space_end(s: &[char], i: usize) -> (r: usize)
    requires
        i < s@.len(),
        text::white(s@[i as int]),
    ensures
        r == space_end(s@, i as int),
        r <= s@.len(),
{
    let j: usize = find_run_end(s, i, Class::Space);
    let mut k: usize = j;
    while k > i && !is_break(s[k - 1])
        invariant
            i <= k <= j <= s@.len(),
            last_break(s@, i as int, j as int) == last_break(s@, i as int, k as int),
        decreases k,
    {
        k -= 1;
    }
    if k > i {
        k
    } else if j < s.len() && j - i > 1 {
        j - 1
    } else {
        j
    }
}

/// Where the chunk that starts at `i` ends.
fn find_chunk_end(s: &[char], i: usize) -> (r: usize)
    requires
        i < s@.len(),
    ensures
        r == chunk_end(s@, i as int),
        i < r <= s@.len(),
{
    proof {
        lemma_chunk_end(s@, i as int);
    }
    let c: char = s[i];
    if c == '\'' {
        let len: usize = find_contraction(s, i);
        if len > 0 {
            return i + 1 + len;
        }
    }
    let word: usize = find_word_end(s, i);
    if word > i {
        return word;
    }
    if c.is_numeric() {
        return i + 1;
    }
    let punct: usize = find_punctuation_end(s, i);
    if punct > i {
        return punct;
    }
    if c.is_whitespace() {
        return find_space_end(s, i);
    }
    i + 1
}

/// The contents of the chunks.
pub open spec fn pieces(s: Seq<Vec<char>>) -> Seq<Seq<char>> {
    s.map_values(|v: Vec<char>| v@)
}

/// Splits `s` into chunks.
pub fn pretokenize(s: &[char]) -> (r: Vec<Vec<char>>)
    ensures
        pieces(r@) == chunks(s@, 0),
{
    let mut out: Vec<Vec<char>> = Vec::new();
    let mut i: usize = 0;
    assert(pieces(out@) + chunks(s@, 0) =~= chunks(s@, 0));
    while i < s.len()
        invariant
            i <= s@.len(),
            pieces(out@) + chunks(s@, i as int) == chunks(s@, 0),
        decreases s@.len() - i,
    {
        let end: usize = find_chunk_end(s, i);
        let piece: Vec<char> = slice_to_vec(slice_subrange(s, i, end));
        let ghost before = pieces(out@);
        out.push(piece);
        proof {
            assert(pieces(out@) =~= before.push(piece@));
            assert(pieces(out@) + chunks(s@, end as int) =~= before + (seq![piece@] + chunks(
                s@,
                end as int,
            )));
        }
        i = end;
    }
    assert(pieces(out@) + chunks(s@, i as int) =~= pieces(out@));
    out
}

/// All of `parts`, one behind the other.
pub open spec fn joined<T>(parts: Seq<Seq<T>>) -> Seq<T>
    decreases parts.len(),
{
    if parts.len() == 0 {
        seq![]
    } else {
        parts[0] + joined(parts.drop_first())
    }
}

/// Nothing is lost and nothing is added: the chunks, one behind the other, are the text.
pub proof fn chunks_are_the_text(s: Seq<char>, i: int)
    requires
        0 <= i <= s.len(),
    ensures
        joined(chunks(s, i)) == s.skip(i),
    decreases s.len() - i,
{
    if i < s.len() {
        lemma_chunk_end(s, i);
        let e = chunk_end(s, i);
        chunks_are_the_text(s, e);
        let all = chunks(s, i);
        assert(all.drop_first() =~= chunks(s, e));
        assert(s.subrange(i, e) + s.skip(e) =~= s.skip(i));
    } else {
        assert(s.skip(i) =~= seq![]);
    }
}

/// No chunk is empty.
pub proof fn chunks_hold_text(s: Seq<char>, i: int)
    requires
        0 <= i <= s.len(),
    ensures
        forall|k: int| 0 <= k < chunks(s, i).len() ==> (#[trigger] chunks(s, i)[k]).len() > 0,
    decreases s.len() - i,
{
    if i < s.len() {
        lemma_chunk_end(s, i);
        let e = chunk_end(s, i);
        chunks_hold_text(s, e);
        assert forall|k: int| 0 <= k < chunks(s, i).len() implies (
        #[trigger] chunks(s, i)[k]).len() > 0 by {
            if k > 0 {
                assert(chunks(s, i)[k] == chunks(s, e)[k - 1]);
            }
        }
    }
}

/// A run within a part of a text ends where it ends in the text, or with the part.
proof fn lemma_run_in_part(s: Seq<char>, i: int, e: int, k: int, p: spec_fn(char) -> bool)
    requires
        0 <= i <= e <= s.len(),
        0 <= k <= e - i,
    ensures
        ({
            let (part, whole) = (run_end(s.subrange(i, e), k, p), run_end(s, i + k, p));
            i + part == if whole < e {
                whole
            } else {
                e
            }
        }),
    decreases e - i - k,
{
    let c = s.subrange(i, e);
    lemma_run_end(s, i + k, p);
    if k < e - i {
        assert(c[k] == s[i + k]);
        if p(s[i + k]) {
            lemma_run_in_part(s, i, e, k + 1, p);
        }
    }
}

/// Behind the last line break there is none.
proof fn lemma_behind_break(s: Seq<char>, i: int, j: int)
    requires
        0 <= i <= j <= s.len(),
    ensures
        forall|k: int|
            last_break(s, i, j) < k < j && i <= k ==> !line_break(#[trigger] s[k]),
        last_break(s, i, j) >= i ==> line_break(s[last_break(s, i, j)]),
    decreases j - i,
{
    if i < j && !line_break(s[j - 1]) {
        lemma_behind_break(s, i, j - 1);
    }
}

/// White space that is a chunk is one chunk by itself.
proof fn lemma_space_again(s: Seq<char>, i: int)
    requires
        0 <= i < s.len(),
        text::white(s[i]),
    ensures
        space_end(s.subrange(i, space_end(s, i)), 0) == space_end(s, i) - i,
{
    let white = |c: char| text::white(c);
    let j = run_end(s, i, white);
    let e = space_end(s, i);
    lemma_run_end(s, i, white);
    lemma_last_break(s, i, j);
    lemma_behind_break(s, i, j);
    let c = s.subrange(i, e);
    lemma_run_in_part(s, i, e, 0, white);
    let n = e - i;
    assert(run_end(c, 0, white) == n);
    lemma_behind_break(c, 0, n);
    let k = last_break(c, 0, n);
    lemma_last_break(c, 0, n);
    if last_break(s, i, j) >= i {
        assert(line_break(c[n - 1]));
    } else if k >= 0 {
        assert(c[k] == s[i + k]);
    }
}

/// A chunk by itself is one chunk.
proof fn lemma_again(s: Seq<char>, i: int)
    requires
        0 <= i < s.len(),
    ensures
        chunk_end(s.subrange(i, chunk_end(s, i)), 0) == chunk_end(s, i) - i,
{
    lemma_chunk_end(s, i);
    let e = chunk_end(s, i);
    let c = s.subrange(i, e);
    let n = e - i;
    assert(forall|k: int| 0 <= k < n ==> c[k] == s[i + k]);
    lemma_chunk_end(c, 0);
    let word = if !letter(s[i]) && !text::numeric(s[i]) && !line_break(s[i]) {
        1int
    } else {
        0
    };
    let space = if s[i] == ' ' {
        1int
    } else {
        0
    };
    let letters = |c: char| letter(c);
    let puncts = |c: char| punctuation(c);
    let breaks = |c: char| line_break(c);
    if s[i] == '\'' && contraction(s, i) > 0 {
        assert(contraction(c, 0) == contraction(s, i));
    } else {
        assert(s[i] == '\'' ==> contraction(c, 0) == 0);
        if word_end(s, i) > i {
            lemma_run_end(s, i + word, letters);
            lemma_run_in_part(s, i, e, word, letters);
            assert(word_end(c, 0) == n);
        } else {
            if word < n && letter(c[word]) {
                lemma_run_end(s, i + word, letters);
                assert(word_end(s, i) > i);
            }
            assert(word_end(c, 0) == 0);
            if !text::numeric(s[i]) {
                if punctuation_end(s, i) > i {
                    let m = run_end(s, i + space, puncts);
                    lemma_run_end(s, i + space, puncts);
                    lemma_run_end(s, m, breaks);
                    lemma_run_in_part(s, i, e, space, puncts);
                    lemma_run_in_part(s, i, e, m - i, breaks);
                    assert(punctuation_end(c, 0) == n);
                } else {
                    if space < n && punctuation(c[space]) {
                        lemma_run_end(s, i + space, puncts);
                        lemma_run_end(s, run_end(s, i + space, puncts), breaks);
                        assert(punctuation_end(s, i) > i);
                    }
                    assert(punctuation_end(c, 0) == 0);
                    if text::white(s[i]) {
                        lemma_space_again(s, i);
                    }
                }
            }
        }
    }
}

/// Splitting a chunk again gives that chunk.
pub proof fn chunks_stay_whole(s: Seq<char>, i: int)
    requires
        0 <= i <= s.len(),
    ensures
        forall|k: int|
            0 <= k < chunks(s, i).len() ==> chunks(#[trigger] chunks(s, i)[k], 0) == seq![
                chunks(s, i)[k],
            ],
    decreases s.len() - i,
{
    if i < s.len() {
        lemma_chunk_end(s, i);
        let e = chunk_end(s, i);
        chunks_stay_whole(s, e);
        assert forall|k: int| 0 <= k < chunks(s, i).len() implies chunks(
            #[trigger] chunks(s, i)[k],
            0,
        ) == seq![chunks(s, i)[k]] by {
            if k > 0 {
                assert(chunks(s, i)[k] == chunks(s, e)[k - 1]);
            } else {
                let c = s.subrange(i, e);
                lemma_again(s, i);
                assert(c.subrange(0, e - i) =~= c);
                assert(chunks(c, e - i) =~= seq![]);
                assert(chunks(c, 0) =~= seq![c]);
            }
        }
    }
}

/// A run holds the property throughout, and ends where it does not hold or with the text.
proof fn lemma_run_is_longest(s: Seq<char>, i: int, p: spec_fn(char) -> bool)
    requires
        0 <= i <= s.len(),
    ensures
        i <= run_end(s, i, p) <= s.len(),
        forall|k: int| i <= k < run_end(s, i, p) ==> p(#[trigger] s[k]),
        run_end(s, i, p) < s.len() ==> !p(s[run_end(s, i, p)]),
    decreases s.len() - i,
{
    if i < s.len() && p(s[i]) {
        lemma_run_is_longest(s, i + 1, p);
    }
}

/// A word is one chunk, as long as it goes: all its letters and no other character, but for one
/// before it that is neither a letter nor a number nor a line break, such as a space.
pub proof fn words_are_whole(s: Seq<char>, i: int)
    requires
        0 <= i < s.len(),
        s[i] != '\'',
        letter(s[i]) || (!text::numeric(s[i]) && !line_break(s[i]) && i + 1 < s.len() && letter(
            s[i + 1],
        )),
    ensures
        ({
            let from = if letter(s[i]) {
                i
            } else {
                i + 1
            };
            let e = chunk_end(s, i);
            &&& from < e <= s.len()
            &&& forall|k: int| from <= k < e ==> letter(#[trigger] s[k])
            &&& e < s.len() ==> !letter(s[e])
        }),
{
    let from = if letter(s[i]) {
        i
    } else {
        i + 1
    };
    let p = |c: char| letter(c);
    lemma_run_is_longest(s, from, p);
    lemma_run_end(s, from, p);
    assert(word_end(s, i) == run_end(s, from, p));
}

/// A number is a chunk by itself, character by character.
pub proof fn numbers_go_one_by_one(s: Seq<char>, i: int)
    requires
        0 <= i < s.len(),
        s[i] != '\'',
        text::numeric(s[i]),
    ensures
        chunk_end(s, i) == i + 1,
{
}

/// `c` is the letter `small`, or its capital.
pub open spec fn either_case(c: char, small: char, capital: char) -> bool {
    c == small || c == capital
}

/// The endings of English words behind an apostrophe are chunks of their own, in small letters and in
/// capitals.
pub proof fn endings_are_chunks(s: Seq<char>, i: int)
    requires
        0 <= i < s.len() - 1,
        s[i] == '\'',
    ensures
        ({
            let a = s[i + 1];
            let two = i + 2 < s.len() && {
                let b = s[i + 2];
                ||| either_case(a, 'r', 'R') && either_case(b, 'e', 'E')
                ||| either_case(a, 'v', 'V') && either_case(b, 'e', 'E')
                ||| either_case(a, 'l', 'L') && either_case(b, 'l', 'L')
            };
            let one = either_case(a, 's', 'S') || either_case(a, 't', 'T') || either_case(
                a,
                'm',
                'M',
            ) || either_case(a, 'd', 'D');
            &&& two ==> chunk_end(s, i) == i + 3
            &&& one ==> chunk_end(s, i) == i + 2
        }),
{
}

/// Punctuation is one chunk, as long as it goes, with one space before it where there is one and all
/// line breaks that follow it.
pub proof fn punctuation_is_whole(s: Seq<char>, i: int, from: int) -> (m: int)
    requires
        0 <= i <= from < s.len(),
        from == i || (from == i + 1 && s[i] == ' '),
        punctuation(s[from]),
        s[from] != ' ',
        s[i] != '\'',
        !text::numeric(s[i]),
        from + 1 < s.len() ==> !letter(s[from + 1]),
        !letter(s[i]),
    ensures
        from < m <= chunk_end(s, i) <= s.len(),
        forall|k: int| from <= k < m ==> punctuation(#[trigger] s[k]),
        m < s.len() ==> !punctuation(s[m]),
        forall|k: int| m <= k < chunk_end(s, i) ==> line_break(#[trigger] s[k]),
        chunk_end(s, i) < s.len() ==> !line_break(s[chunk_end(s, i)]),
{
    let p = |c: char| punctuation(c);
    let b = |c: char| line_break(c);
    let m = run_end(s, from, p);
    let e = run_end(s, m, b);
    lemma_run_is_longest(s, from, p);
    lemma_run_end(s, from, p);
    lemma_run_is_longest(s, m, b);
    assert(from < m);
    assert(word_end(s, i) == i);
    assert(punctuation_end(s, i) == e);
    assert(chunk_end(s, i) == e);
    m
}

/// White space without a line break that a character follows is cut before its last character, which
/// stays with what follows; a single space is its own chunk only where nothing can take it.
pub proof fn spaces_leave_one_behind(s: Seq<char>, i: int, j: int)
    requires
        0 <= i < j - 1,
        j < s.len(),
        forall|k: int|
            i <= k < j ==> text::white(#[trigger] s[k]) && !line_break(s[k]) && !letter(s[k])
                && !text::numeric(s[k]),
        !text::white(s[j]),
    ensures
        chunk_end(s, i) == j - 1,
{
    let p = |c: char| text::white(c);
    lemma_run_reaches(s, i, j, p);
    lemma_last_break(s, i, j);
    lemma_behind_break(s, i, j);
    let k = last_break(s, i, j);
    if k >= i {
        assert(!line_break(s[k]));
    }
    assert(text::white(s[i]) && text::white(s[i + 1]));
    assert(!letter(s[i + 1]));
    assert(word_end(s, i) == i);
    assert(punctuation_end(s, i) == i);
}

/// White space ends behind its last line break.
pub proof fn spaces_end_behind_breaks(s: Seq<char>, i: int, j: int, k: int)
    requires
        0 <= i <= k < j <= s.len(),
        forall|x: int|
            i <= x < j ==> text::white(#[trigger] s[x]) && !letter(s[x]) && !text::numeric(s[x]),
        j < s.len() ==> !text::white(s[j]),
        line_break(s[k]),
        forall|x: int| k < x < j ==> !line_break(#[trigger] s[x]),
    ensures
        chunk_end(s, i) == k + 1,
{
    let p = |c: char| text::white(c);
    lemma_run_reaches(s, i, j, p);
    lemma_last_break(s, i, j);
    lemma_behind_break(s, i, j);
    lemma_breaks_reach(s, i, j, k);
    assert(text::white(s[i]));
    if i + 1 < j {
        assert(!letter(s[i + 1]));
        assert(text::white(s[i + 1]));
    }
    assert(word_end(s, i) == i);
    assert(punctuation_end(s, i) == i);
}

/// A run reaches as far as the property holds.
proof fn lemma_run_reaches(s: Seq<char>, i: int, j: int, p: spec_fn(char) -> bool)
    requires
        0 <= i <= j <= s.len(),
        forall|k: int| i <= k < j ==> p(#[trigger] s[k]),
        j < s.len() ==> !p(s[j]),
    ensures
        run_end(s, i, p) == j,
    decreases j - i,
{
    if i < j {
        lemma_run_reaches(s, i + 1, j, p);
    }
}

/// The last line break is found.
proof fn lemma_breaks_reach(s: Seq<char>, i: int, j: int, k: int)
    requires
        i <= k < j,
        line_break(s[k]),
        forall|x: int| k < x < j ==> !line_break(#[trigger] s[x]),
    ensures
        last_break(s, i, j) == k,
    decreases j - i,
{
    if k < j - 1 {
        assert(!line_break(s[j - 1]));
        lemma_breaks_reach(s, i, j - 1, k);
    }
}

/// White space that ends the text and holds no line break is one chunk.
pub proof fn trailing_spaces_are_whole(s: Seq<char>, i: int)
    requires
        0 <= i < s.len(),
        forall|k: int|
            i <= k < s.len() ==> text::white(#[trigger] s[k]) && !line_break(s[k]) && !letter(s[k])
                && !text::numeric(s[k]),
    ensures
        chunk_end(s, i) == s.len(),
{
    let p = |c: char| text::white(c);
    let j = s.len() as int;
    lemma_run_reaches(s, i, j, p);
    lemma_last_break(s, i, j);
    lemma_behind_break(s, i, j);
    let k = last_break(s, i, j);
    if k >= i {
        assert(!line_break(s[k]));
    }
    assert(text::white(s[i]));
    if i + 1 < s.len() {
        assert(text::white(s[i + 1]) && !letter(s[i + 1]));
    }
    assert(word_end(s, i) == i);
    assert(punctuation_end(s, i) == i);
}

} // verus!
