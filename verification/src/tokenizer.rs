//! Byte-level byte-pair encoding: text to token numbers and back.
//!
//! Special tokens are found verbatim first. The text between them is split into chunks; the bytes of
//! a chunk are written as printable characters, and neighbouring pieces are joined by rank until no
//! pair has a rank.

use vstd::hash_map::*;
use vstd::prelude::*;
use vstd::slice::*;
use vstd::string::*;
use vstd::utf8::*;

use crate::bytemap;
use crate::bytemap::ByteMap;
use crate::decoding;
use crate::json;
use crate::json::Json;
use crate::pretokenize;
use crate::text;
use crate::vocabulary;
use crate::vocabulary::TokenizerError;

verus! {

/// The ranks of pairs of pieces.
pub struct Merges {
    first: StringHashMap<usize>,
    rows: Vec<StringHashMap<usize>>,
}

/// A pair of pieces.
pub type Pair = (Seq<char>, Seq<char>);

impl Merges {
    /// The rank of each pair that has one.
    pub closed spec fn view(&self) -> Map<Pair, usize> {
        Map::new(
            |p: Pair|
                self.first@.contains_key(p.0) && self.rows@[self.first@[p.0] as int]@.contains_key(
                    p.1,
                ),
            |p: Pair| self.rows@[self.first@[p.0] as int]@[p.1],
        )
    }

    /// Every first piece has a row of its own.
    pub closed spec fn wf(&self) -> bool {
        &&& forall|a: Seq<char>| #[trigger]
            self.first@.contains_key(a) ==> self.first@[a] < self.rows@.len()
        &&& forall|a: Seq<char>, b: Seq<char>|
            #![trigger self.first@[a], self.first@[b]]
            self.first@.contains_key(a) && self.first@.contains_key(b) && a != b ==> self.first@[a]
                != self.first@[b]
    }

    /// No pair has a rank.
    pub fn new() -> (r: Merges)
        ensures
            r.wf(),
            r@ == Map::<Pair, usize>::empty(),
    {
        let r = Merges { first: StringHashMap::new(), rows: Vec::new() };
        assert(r@ =~= Map::<Pair, usize>::empty());
        r
    }

    /// Gives the pair a rank.
    pub fn insert(&mut self, a: String, b: String, rank: usize)
        requires
            old(self).wf(),
        ensures
            final(self).wf(),
            final(self)@ == old(self)@.insert((a@, b@), rank),
    {
        let ghost (pa, pb) = (a@, b@);
        let row: usize = match self.first.get(a.as_str()) {
            Some(r) => *r,
            None => {
                let n: usize = self.rows.len();
                self.rows.push(StringHashMap::new());
                self.first.insert(a, n);
                assert(self.wf());
                assert(self@ =~= old(self)@);
                n
            },
        };
        let ghost mid = *self;
        self.rows[row].insert(b, rank);
        proof {
            assert forall|p: Pair| #[trigger] self@.contains_key(p) == old(self)@.insert(
                (pa, pb),
                rank,
            ).contains_key(p) by {
                assert(mid@.contains_key(p) == old(self)@.contains_key(p));
                if p.0 != pa && self.first@.contains_key(p.0) {
                    assert(self.first@[p.0] != self.first@[pa]);
                }
            }
            assert forall|p: Pair| #[trigger] self@.contains_key(p) implies self@[p] == old(
                self,
            )@.insert((pa, pb), rank)[p] by {
                if p.0 != pa {
                    assert(self.first@[p.0] != self.first@[pa]);
                    assert(mid@.contains_key(p));
                    assert(mid@[p] == self@[p]);
                } else if p.1 != pb {
                    assert(mid@.contains_key(p));
                    assert(mid@[p] == self@[p]);
                }
            }
            assert(self@ =~= old(self)@.insert((pa, pb), rank));
        }
    }

    /// The rank of the pair.
    pub fn get(&self, a: &str, b: &str) -> (r: Option<usize>)
        requires
            self.wf(),
        ensures
            match r {
                Some(n) => self@.contains_key((a@, b@)) && self@[(a@, b@)] == n,
                None => !self@.contains_key((a@, b@)),
            },
    {
        match self.first.get(a) {
            Some(row) => match self.rows[*row].get(b) {
                Some(n) => Some(*n),
                None => None,
            },
            None => None,
        }
    }
}

// ---------------------------------------------------------------------------------------
// Joining pieces by rank
// ---------------------------------------------------------------------------------------

/// The rank of the pair at `i`.
pub open spec fn rank_at(m: Map<Pair, usize>, parts: Seq<Seq<char>>, i: int) -> Option<usize> {
    let p = (parts[i], parts[i + 1]);
    if m.contains_key(p) {
        Some(m[p])
    } else {
        None
    }
}

/// The place of the lowest rank among the first `n` pairs; the first such place.
pub open spec fn best_pair(m: Map<Pair, usize>, parts: Seq<Seq<char>>, n: int) -> Option<int>
    decreases n,
{
    if n <= 0 {
        None
    } else {
        let b = best_pair(m, parts, n - 1);
        match rank_at(m, parts, n - 1) {
            Some(r) => match b {
                Some(k) => if r < rank_at(m, parts, k)->0 {
                    Some(n - 1)
                } else {
                    b
                },
                None => Some(n - 1),
            },
            None => b,
        }
    }
}

/// The pieces with those at `i` and behind it joined.
pub open spec fn fused(parts: Seq<Seq<char>>, i: int) -> Seq<Seq<char>> {
    parts.take(i).push(parts[i] + parts[i + 1]) + parts.skip(i + 2)
}

/// The pieces when no pair has a rank any more.
pub open spec fn merged(m: Map<Pair, usize>, parts: Seq<Seq<char>>) -> Seq<Seq<char>>
    decreases parts.len(),
{
    match best_pair(m, parts, parts.len() - 1) {
        Some(i) => if 0 <= i < parts.len() - 1 {
            merged(m, fused(parts, i))
        } else {
            parts
        },
        None => parts,
    }
}

/// The characters, each a piece.
pub open spec fn singles(s: Seq<char>) -> Seq<Seq<char>> {
    s.map_values(|c: char| seq![c])
}

/// The contents of the pieces.
pub open spec fn contents(s: Seq<String>) -> Seq<Seq<char>> {
    s.map_values(|p: String| p@)
}

/// The best pair is a pair with a rank.
pub proof fn lemma_best_pair(m: Map<Pair, usize>, parts: Seq<Seq<char>>, n: int)
    ensures
        best_pair(m, parts, n) matches Some(i) ==> 0 <= i < n && rank_at(m, parts, i) is Some,
    decreases n,
{
    if n > 0 {
        lemma_best_pair(m, parts, n - 1);
    }
}

/// The best pair has the lowest rank of all pairs.
pub proof fn best_pair_is_lowest(m: Map<Pair, usize>, parts: Seq<Seq<char>>, n: int, j: int)
    requires
        0 <= j < n,
        rank_at(m, parts, j) is Some,
    ensures
        best_pair(m, parts, n) matches Some(i) && rank_at(m, parts, i)->0 <= rank_at(
            m,
            parts,
            j,
        )->0,
    decreases n,
{
    lemma_best_pair(m, parts, n - 1);
    if j < n - 1 {
        best_pair_is_lowest(m, parts, n - 1, j);
    }
}

impl Merges {
    /// The place of the lowest rank.
    fn find_best(&self, parts: &Vec<String>) -> (r: Option<usize>)
        requires
            self.wf(),
        ensures
            match r {
                Some(i) => best_pair(self@, contents(parts@), parts@.len() - 1) == Some(i as int)
                    && i + 1 < parts.len(),
                None => best_pair(self@, contents(parts@), parts@.len() - 1) is None,
            },
    {
        let ghost all = contents(parts@);
        let mut best: Option<(usize, usize)> = None;
        let mut i: usize = 1;
        while i < parts.len()
            invariant
                self.wf(),
                all == contents(parts@),
                1 <= i,
                i <= parts@.len() || i == 1,
                match best {
                    Some((r, k)) => {
                        &&& best_pair(self@, all, i - 1) == Some(k as int)
                        &&& k < i - 1
                        &&& rank_at(self@, all, k as int) == Some(r)
                    },
                    None => best_pair(self@, all, i - 1) is None,
                },
            decreases parts@.len() - i,
        {
            assert(all[i - 1] == parts@[i - 1]@ && all[i as int] == parts@[i as int]@);
            if let Some(r) = self.get(parts[i - 1].as_str(), parts[i].as_str()) {
                assert(rank_at(self@, all, i - 1) == Some(r));
                let better: bool = match best {
                    Some((lowest, _)) => r < lowest,
                    None => true,
                };
                if better {
                    best = Some((r, i - 1));
                }
            }
            i += 1;
        }
        proof {
            assert(parts@.len() <= 1 ==> best_pair(self@, all, parts@.len() - 1) is None);
        }
        match best {
            Some((_, k)) => Some(k),
            None => None,
        }
    }

    /// Joins pieces by rank until no pair has a rank.
    fn merge(&self, parts: Vec<String>) -> (r: Vec<String>)
        requires
            self.wf(),
        ensures
            contents(r@) == merged(self@, contents(parts@)),
    {
        let ghost start = contents(parts@);
        let mut parts = parts;
        loop
            invariant
                self.wf(),
                merged(self@, start) == merged(self@, contents(parts@)),
            ensures
                contents(parts@) == merged(self@, start),
            decreases parts@.len(),
        {
            let i: usize = match self.find_best(&parts) {
                Some(i) => i,
                None => {
                    break;
                },
            };
            let ghost before = contents(parts@);
            let mut joined: String = parts[i].clone();
            joined.append(parts[i + 1].as_str());
            assert(joined@ == before[i as int] + before[i + 1]);
            parts.set(i, joined);
            let _ = parts.remove(i + 1);
            assert(contents(parts@) =~= fused(before, i as int));
        }
        parts
    }
}

// ---------------------------------------------------------------------------------------
// The tokenizer
// ---------------------------------------------------------------------------------------

/// A vocabulary with its merges and special tokens.
pub struct Tokenizer {
    vocab: StringHashMap<u32>,
    id_to_token: Vec<String>,
    merges: Merges,
    map: ByteMap,
    specials: Vec<(String, u32)>,
    pub im_start: u32,
    pub im_end: u32,
    pub eos: u32,
}

/// What a [`Tokenizer`] holds.
#[verifier::ext_equal]
pub ghost struct Vocabulary {
    /// The number of each token.
    pub vocab: Map<Seq<char>, u32>,
    /// The token of each number; empty where there is none.
    pub tokens: Seq<Seq<char>>,
    pub merges: Map<Pair, usize>,
    pub specials: Seq<(Seq<char>, u32)>,
    pub im_start: u32,
    pub im_end: u32,
    pub eos: u32,
}

/// The number of a piece, or that of the end of text.
pub open spec fn id_of(v: Vocabulary, piece: Seq<char>) -> u32 {
    if v.vocab.contains_key(piece) {
        v.vocab[piece]
    } else {
        v.eos
    }
}

/// The printable form of a chunk's bytes.
pub open spec fn printed(chunk: Seq<char>) -> Seq<char> {
    bytemap::mapped(encode_utf8(chunk))
}

/// The pieces of a chunk: all of it where that is a token, else what joining leaves.
pub open spec fn chunk_pieces(v: Vocabulary, chunk: Seq<char>) -> Seq<Seq<char>> {
    if v.vocab.contains_key(printed(chunk)) {
        seq![printed(chunk)]
    } else {
        merged(v.merges, singles(printed(chunk)))
    }
}

/// The numbers of the pieces.
pub open spec fn ids_of(v: Vocabulary, parts: Seq<Seq<char>>) -> Seq<u32> {
    parts.map_values(|p: Seq<char>| id_of(v, p))
}

/// The pieces of chunks, in order.
pub open spec fn all_pieces(v: Vocabulary, chunks: Seq<Seq<char>>) -> Seq<Seq<char>>
    decreases chunks.len(),
{
    if chunks.len() == 0 {
        seq![]
    } else {
        all_pieces(v, chunks.drop_last()) + chunk_pieces(v, chunks.last())
    }
}

/// The numbers of text without special tokens.
pub open spec fn plain_ids(v: Vocabulary, s: Seq<char>) -> Seq<u32> {
    ids_of(v, all_pieces(v, pretokenize::chunks(s, 0)))
}

/// The special token, of the first `n`, that stands first in `s`, and where; of several that stand
/// in one place the one listed first.
pub open spec fn next_special(
    specials: Seq<(Seq<char>, u32)>,
    s: Seq<char>,
    n: int,
) -> Option<(int, int)>
    decreases n,
{
    if n <= 0 {
        None
    } else {
        let b = next_special(specials, s, n - 1);
        match text::found(s, specials[n - 1].0) {
            Some(i) => match b {
                Some((j, _)) => if i < j {
                    Some((i, n - 1))
                } else {
                    b
                },
                None => Some((i, n - 1)),
            },
            None => b,
        }
    }
}

/// The numbers of `s`.
pub open spec fn encoded(v: Vocabulary, s: Seq<char>) -> Seq<u32>
    decreases s.len(),
{
    if s.len() == 0 {
        seq![]
    } else {
        match next_special(v.specials, s, v.specials.len() as int) {
            Some((i, k)) => {
                let next = i + v.specials[k].0.len();
                let front = plain_ids(v, s.take(i)).push(v.specials[k].1);
                if 0 <= i && i < next <= s.len() {
                    front + encoded(v, s.skip(next))
                } else {
                    front
                }
            },
            None => plain_ids(v, s),
        }
    }
}

/// The text is one of the special tokens.
pub open spec fn is_special(specials: Seq<(Seq<char>, u32)>, s: Seq<char>) -> bool {
    exists|i: int| 0 <= i < specials.len() && (#[trigger] specials[i]).0 == s
}

/// The bytes of token `id`.
pub open spec fn bytes_of_id(v: Vocabulary, id: int) -> Seq<u8> {
    let t = v.tokens[id];
    if is_special(v.specials, t) {
        encode_utf8(t)
    } else {
        bytemap::unmapped(t)
    }
}

/// The bytes of tokens.
pub open spec fn bytes_of_ids(v: Vocabulary, ids: Seq<u32>) -> Seq<u8>
    decreases ids.len(),
{
    if ids.len() == 0 {
        seq![]
    } else {
        bytes_of_ids(v, ids.drop_last()) + bytes_of_id(v, ids.last() as int)
    }
}

/// No special token is empty.
pub open spec fn sound(v: Vocabulary) -> bool {
    forall|i: int| 0 <= i < v.specials.len() ==> (#[trigger] v.specials[i]).0.len() > 0
}

/// The special token that stands first is one of them and stands there.
pub proof fn lemma_next_special(specials: Seq<(Seq<char>, u32)>, s: Seq<char>, n: int)
    requires
        n <= specials.len(),
    ensures
        next_special(specials, s, n) matches Some((i, k)) ==> {
            &&& 0 <= k < n
            &&& text::first_at(s, specials[k].0, i)
        },
    decreases n,
{
    if n > 0 {
        lemma_next_special(specials, s, n - 1);
        text::lemma_found_stands(s, specials[n - 1].0);
    }
}

impl Tokenizer {
    /// What the tokenizer holds.
    pub closed spec fn view(&self) -> Vocabulary {
        Vocabulary {
            vocab: self.vocab@,
            tokens: contents(self.id_to_token@),
            merges: self.merges@,
            specials: self.specials@.map_values(|p: (String, u32)| (p.0@, p.1)),
            im_start: self.im_start,
            im_end: self.im_end,
            eos: self.eos,
        }
    }

    /// The tables are in order.
    pub closed spec fn wf(&self) -> bool {
        self.merges.wf() && self.map.wf()
    }

    /// Whether no special token is empty.
    pub fn is_sound(&self) -> (r: bool)
        ensures
            r == sound(self@),
    {
        for i in 0..self.specials.len()
            invariant
                forall|j: int| 0 <= j < i ==> (#[trigger] self@.specials[j]).0.len() > 0,
        {
            let cs: Vec<char> = text::chars_of(self.specials[i].0.as_str());
            assert(self@.specials[i as int].0 == cs@);
            if cs.len() == 0 {
                return false;
            }
        }
        true
    }

    /// The numbers of a chunk.
    fn encode_chunk(&self, chunk: &[char], out: &mut Vec<u32>)
        requires
            self.wf(),
        ensures
            final(out)@ == old(out)@ + ids_of(self@, chunk_pieces(self@, chunk@)),
    {
        let s: String = text::string_of(chunk);
        let bytes = s.as_str().as_bytes();
        let mut printed_s: String = String::new();
        for i in 0..bytes.len()
            invariant
                self.wf(),
                printed_s@ == bytemap::mapped(bytes@.take(i as int)),
        {
            printed_s.push(self.map.to_char(bytes[i]));
            assert(bytemap::mapped(bytes@.take(i + 1)) =~= bytemap::mapped(
                bytes@.take(i as int),
            ).push(bytemap::char_for(bytes@[i as int])));
        }
        assert(bytes@.take(bytes@.len() as int) =~= bytes@);
        assert(printed_s@ == printed(chunk@));
        if let Some(id) = self.vocab.get(printed_s.as_str()) {
            out.push(*id);
            assert(out@ =~= old(out)@ + ids_of(self@, chunk_pieces(self@, chunk@)));
            return;
        }
        let cs: Vec<char> = text::chars_of(printed_s.as_str());
        let mut parts: Vec<String> = Vec::new();
        for i in 0..cs.len()
            invariant
                contents(parts@) == singles(cs@.take(i as int)),
        {
            let ghost before = contents(parts@);
            let mut one: String = String::new();
            one.push(cs[i]);
            assert(one@ =~= seq![cs@[i as int]]);
            parts.push(one);
            assert(contents(parts@) =~= before.push(seq![cs@[i as int]]));
            assert(singles(cs@.take(i + 1)) =~= singles(cs@.take(i as int)).push(
                seq![cs@[i as int]],
            ));
        }
        assert(cs@.take(cs@.len() as int) =~= cs@);
        let parts: Vec<String> = self.merges.merge(parts);
        let ghost all = contents(parts@);
        for i in 0..parts.len()
            invariant
                all == contents(parts@),
                out@ == old(out)@ + ids_of(self@, all.take(i as int)),
        {
            let id: u32 = match self.vocab.get(parts[i].as_str()) {
                Some(id) => *id,
                None => self.eos,
            };
            assert(all[i as int] == parts@[i as int]@);
            assert(id == id_of(self@, all[i as int]));
            let ghost before = out@;
            out.push(id);
            assert(out@ =~= old(out)@ + ids_of(self@, all.take(i + 1)));
        }
        assert(all.take(all.len() as int) =~= all);
    }

    /// Appends the numbers of text without special tokens. They depend on the text alone.
    pub fn encode_plain(&self, s: &[char], out: &mut Vec<u32>)
        requires
            self.wf(),
        ensures
            final(out)@ == old(out)@ + plain_ids(self@, s@),
    {
        let chunks: Vec<Vec<char>> = pretokenize::pretokenize(s);
        let ghost all = pretokenize::pieces(chunks@);
        assert(out@ =~= old(out)@ + ids_of(self@, all_pieces(self@, all.take(0))));
        for i in 0..chunks.len()
            invariant
                self.wf(),
                all == pretokenize::pieces(chunks@),
                out@ == old(out)@ + ids_of(self@, all_pieces(self@, all.take(i as int))),
        {
            self.encode_chunk(chunks[i].as_slice(), out);
            proof {
                let front = all_pieces(self@, all.take(i as int));
                let next = chunk_pieces(self@, all[i as int]);
                assert(all.take(i + 1).drop_last() =~= all.take(i as int));
                assert(ids_of(self@, front + next) =~= ids_of(self@, front) + ids_of(
                    self@,
                    next,
                ));
                assert(out@ =~= old(out)@ + ids_of(self@, all_pieces(self@, all.take(i + 1))));
            }
        }
        assert(all.take(all.len() as int) =~= all);
    }

    /// The special token that stands first in `s`: where, and which.
    fn find_special(&self, names: &Vec<Vec<char>>, s: &[char]) -> (r: Option<(usize, usize)>)
        requires
            names@.len() == self@.specials.len(),
            forall|i: int|
                0 <= i < names@.len() ==> (#[trigger] names@[i])@ == self@.specials[i].0,
        ensures
            match r {
                Some((i, k)) => next_special(self@.specials, s@, self@.specials.len() as int)
                    == Some((i as int, k as int)),
                None => next_special(self@.specials, s@, self@.specials.len() as int) is None,
            },
    {
        let ghost sp = self@.specials;
        let mut best: Option<(usize, usize)> = None;
        for n in 0..names.len()
            invariant
                sp == self@.specials,
                names@.len() == sp.len(),
                forall|i: int| 0 <= i < names@.len() ==> (#[trigger] names@[i])@ == sp[i].0,
                match best {
                    Some((i, k)) => next_special(sp, s@, n as int) == Some((i as int, k as int)),
                    None => next_special(sp, s@, n as int) is None,
                },
        {
            if let Some(i) = text::find(s, names[n].as_slice()) {
                let earlier: bool = match best {
                    Some((b, _)) => i < b,
                    None => true,
                };
                if earlier {
                    best = Some((i, n));
                }
            }
        }
        best
    }

    /// The token numbers of `text`.
    pub fn encode(&self, s: &str) -> (r: Vec<u32>)
        requires
            self.wf(),
            sound(self@),
        ensures
            r@ == encoded(self@, s@),
    {
        let cs: Vec<char> = text::chars_of(s);
        let mut names: Vec<Vec<char>> = Vec::new();
        for i in 0..self.specials.len()
            invariant
                names@.len() == i,
                forall|j: int| 0 <= j < i ==> (#[trigger] names@[j])@ == self@.specials[j].0,
        {
            names.push(text::chars_of(self.specials[i].0.as_str()));
        }
        let mut ids: Vec<u32> = Vec::new();
        let mut from: usize = 0;
        proof {
            assert(cs@.skip(0) =~= cs@);
            assert(ids@ + encoded(self@, cs@) =~= encoded(self@, cs@));
        }
        while from < cs.len()
            invariant
                self.wf(),
                sound(self@),
                cs@ == s@,
                from <= cs@.len(),
                names@.len() == self@.specials.len(),
                self@.specials.len() == self.specials@.len(),
                forall|i: int|
                    0 <= i < names@.len() ==> (#[trigger] names@[i])@ == self@.specials[i].0,
                ids@ + encoded(self@, cs@.skip(from as int)) == encoded(self@, cs@),
            decreases cs@.len() - from,
        {
            let rest = slice_subrange(cs.as_slice(), from, cs.len());
            assert(rest@ =~= cs@.skip(from as int));
            let ghost before = ids@;
            match self.find_special(&names, rest) {
                Some((i, k)) => {
                    proof {
                        lemma_next_special(self@.specials, rest@, self@.specials.len() as int);
                        assert(names@[k as int]@ == self@.specials[k as int].0);
                        assert(self@.specials[k as int].0.len() > 0);
                        assert(self@.specials[k as int].1 == self.specials@[k as int].1);
                    }
                    let front = slice_subrange(rest, 0, i);
                    assert(front@ =~= rest@.take(i as int));
                    self.encode_plain(front, &mut ids);
                    ids.push(self.specials[k].1);
                    let len: usize = names[k].len();
                    proof {
                        let next = (i + len) as int;
                        assert(rest@.skip(next) =~= cs@.skip(from + next));
                        let head = plain_ids(self@, rest@.take(i as int)).push(
                            self@.specials[k as int].1,
                        );
                        assert(ids@ =~= before + head);
                        assert(ids@ + encoded(self@, rest@.skip(next)) =~= before + (head
                            + encoded(self@, rest@.skip(next))));
                    }
                    from = from + i + len;
                },
                None => {
                    self.encode_plain(rest, &mut ids);
                    assert(ids@ == encoded(self@, cs@));
                    return ids;
                },
            }
        }
        assert(ids@ + encoded(self@, cs@.skip(from as int)) =~= ids@);
        ids
    }

    /// How many token numbers there are.
    pub fn size(&self) -> (r: usize)
        ensures
            r == self@.tokens.len(),
    {
        self.id_to_token.len()
    }

    /// The bytes of token `id`. One character may need the bytes of several tokens.
    pub fn token_bytes(&self, id: u32) -> (r: Vec<u8>)
        requires
            self.wf(),
            id < self@.tokens.len(),
        ensures
            r@ == bytes_of_id(self@, id as int),
    {
        let tok: &String = &self.id_to_token[id as usize];
        assert(self@.tokens[id as int] == tok@);
        for i in 0..self.specials.len()
            invariant
                id < self@.tokens.len(),
                tok@ == self@.tokens[id as int],
                forall|j: int| 0 <= j < i ==> (#[trigger] self@.specials[j]).0 != tok@,
        {
            assert(self@.specials[i as int].0 == self.specials@[i as int].0@);
            if text::same(self.specials[i].0.as_str(), tok.as_str()) {
                return slice_to_vec(tok.as_str().as_bytes());
            }
        }
        let cs: Vec<char> = text::chars_of(tok.as_str());
        let mut out: Vec<u8> = Vec::new();
        for i in 0..cs.len()
            invariant
                self.wf(),
                out@ == bytemap::unmapped(cs@.take(i as int)),
        {
            let b: u8 = match self.map.to_byte(cs[i]) {
                Some(b) => b,
                None => 63,
            };
            out.push(b);
            assert(bytemap::unmapped(cs@.take(i + 1)) =~= bytemap::unmapped(
                cs@.take(i as int),
            ).push(b));
        }
        assert(cs@.take(cs@.len() as int) =~= cs@);
        out
    }

    /// The bytes of tokens, one behind the other.
    pub fn all_bytes(&self, ids: &[u32]) -> (r: Vec<u8>)
        requires
            self.wf(),
            forall|i: int| 0 <= i < ids@.len() ==> #[trigger] ids@[i] < self@.tokens.len(),
        ensures
            r@ == bytes_of_ids(self@, ids@),
    {
        let mut out: Vec<u8> = Vec::new();
        for i in 0..ids.len()
            invariant
                self.wf(),
                forall|i: int| 0 <= i < ids@.len() ==> #[trigger] ids@[i] < self@.tokens.len(),
                out@ == bytes_of_ids(self@, ids@.take(i as int)),
        {
            assert(ids@[i as int] < self@.tokens.len());
            let mut b: Vec<u8> = self.token_bytes(ids[i]);
            out.append(&mut b);
            assert(ids@.take(i + 1).drop_last() =~= ids@.take(i as int));
        }
        assert(ids@.take(ids@.len() as int) =~= ids@);
        out
    }

    /// The text of tokens; bytes that are no character are replaced by U+FFFD.
    pub fn decode(&self, ids: &[u32]) -> (r: String)
        requires
            self.wf(),
            forall|i: int| 0 <= i < ids@.len() ==> #[trigger] ids@[i] < self@.tokens.len(),
        ensures
            r@ == decoding::lossy_text(bytes_of_ids(self@, ids@)),
            valid_utf8(bytes_of_ids(self@, ids@)) ==> r@ == decode_utf8(bytes_of_ids(self@, ids@)),
    {
        decoding::lossy(self.all_bytes(ids).as_slice())
    }
}

/// The numbers of all tokens that `j` lists.
pub open spec fn vocab_of(j: json::Tree) -> Map<Seq<char>, u32> {
    vocabulary::with_specials(
        vocabulary::numbers(vocabulary::vocab_part(j)->0),
        vocabulary::specials_of(json::items_of(json::member(j, "added_tokens"@))->0),
    )
}

/// The tokens of `j` have numbers.
pub open spec fn has_vocab(j: json::Tree) -> bool {
    vocabulary::vocab_part(j) matches Some(m) && vocabulary::all_numbers(m)
}

/// The special tokens of `j` have texts and numbers.
pub open spec fn has_specials(j: json::Tree) -> bool {
    json::items_of(json::member(j, "added_tokens"@)) matches Some(a) && vocabulary::all_specials(a)
}

/// The merges of `j` are pairs.
pub open spec fn has_merges(j: json::Tree) -> bool {
    vocabulary::merges_part(j) matches Some(a) && vocabulary::all_merges(a)
}

/// A token number of `j` is larger than a list can be long.
pub open spec fn too_large(j: json::Tree) -> bool {
    vocabulary::taken(vocab_of(j), usize::MAX as int)
}

/// The first token that the engine needs and `j` lacks.
pub open spec fn missing_token(j: json::Tree) -> Option<Seq<char>> {
    let v = vocab_of(j);
    if !v.contains_key("<|im_start|>"@) {
        Some("<|im_start|>"@)
    } else if !v.contains_key("<|im_end|>"@) {
        Some("<|im_end|>"@)
    } else if !v.contains_key("<|endoftext|>"@) {
        Some("<|endoftext|>"@)
    } else {
        None
    }
}

/// `v` is what the document `j` describes. Where several tokens share a number, which of them stands
/// in the list is left open.
pub open spec fn describes(v: Vocabulary, j: json::Tree) -> bool {
    let merges = vocabulary::merges_part(j)->0;
    &&& v.vocab == vocab_of(j)
    &&& vocabulary::lists(v.vocab, v.tokens)
    &&& v.merges == vocabulary::ranks(merges, merges.len() as int)
    &&& v.specials == vocabulary::specials_of(
        json::items_of(json::member(j, "added_tokens"@))->0,
    )
    &&& v.im_start == v.vocab["<|im_start|>"@]
    &&& v.im_end == v.vocab["<|im_end|>"@]
    &&& v.eos == v.vocab["<|endoftext|>"@]
}

/// What comes of loading the document `t`: the tokenizer that it describes, or the first thing that
/// is wrong with it.
pub open spec fn loaded(r: Result<Tokenizer, TokenizerError>, t: json::Tree) -> bool {
    match r {
        Ok(k) => {
            &&& has_vocab(t)
            &&& has_specials(t)
            &&& !too_large(t)
            &&& has_merges(t)
            &&& missing_token(t) is None
            &&& k.wf()
            &&& describes(k@, t)
        },
        Err(TokenizerError::Json(_)) => false,
        Err(TokenizerError::Vocab) => !has_vocab(t),
        Err(TokenizerError::AddedTokens) => has_vocab(t) && !has_specials(t),
        Err(TokenizerError::TooLarge) => has_vocab(t) && has_specials(t) && too_large(t),
        Err(TokenizerError::Merges) => {
            &&& has_vocab(t)
            &&& has_specials(t)
            &&& !too_large(t)
            &&& !has_merges(t)
        },
        Err(TokenizerError::Missing(n)) => {
            &&& has_vocab(t)
            &&& has_specials(t)
            &&& !too_large(t)
            &&& has_merges(t)
            &&& missing_token(t) == Some(n@)
        },
    }
}

/// The number of a token that the engine needs.
fn find_token(vocab: &StringHashMap<u32>, name: &str) -> (r: Result<u32, TokenizerError>)
    ensures
        match r {
            Ok(id) => vocab@.contains_key(name@) && vocab@[name@] == id,
            Err(e) => !vocab@.contains_key(name@) && (e matches TokenizerError::Missing(n) && n@
                == name@),
        },
{
    match vocab.get(name) {
        Some(id) => Ok(*id),
        None => Err(TokenizerError::Missing(name.to_string())),
    }
}

impl Tokenizer {
    /// The tokenizer that `bytes`, the contents of `tokenizer.json`, describe.
    pub fn load(bytes: &[u8]) -> (r: Result<Tokenizer, TokenizerError>)
        ensures
            match json::json_read(bytes@) {
                Ok(t) => !(r matches Err(TokenizerError::Json(_))) && loaded(r, t),
                Err(e) => r matches Err(TokenizerError::Json(m)) && m@ == e,
            },
    {
        match json::read(bytes) {
            Ok(j) => Tokenizer::from_json(&j),
            Err(e) => Err(TokenizerError::Json(e)),
        }
    }

    /// The tokenizer that `j`, the document in `tokenizer.json`, describes.
    pub fn from_json(j: &Json) -> (r: Result<Tokenizer, TokenizerError>)
        ensures
            loaded(r, j.tree()),
    {
        let (mut vocab, mut names) = match vocabulary::read_vocab(j) {
            Some(p) => p,
            None => {
                return Err(TokenizerError::Vocab);
            },
        };
        let specials: Vec<(String, u32)> = match vocabulary::read_specials(j) {
            Some(s) => s,
            None => {
                return Err(TokenizerError::AddedTokens);
            },
        };
        vocabulary::add_specials(&mut vocab, &mut names, &specials);
        assert(vocab@ == vocab_of(j.tree()));
        let id_to_token: Vec<String> = match vocabulary::token_table(&vocab, &names) {
            Some(t) => t,
            None => {
                return Err(TokenizerError::TooLarge);
            },
        };
        proof {
            let n = contents(id_to_token@).len();
            assert(n == id_to_token@.len());
            assert(id_to_token@.len() == id_to_token.len());
            if too_large(j.tree()) {
                let k = choose|k: Seq<char>| #[trigger]
                    vocab@.contains_key(k) && vocab@[k] == usize::MAX as int;
                assert(vocab@[k] < n);
            }
        }
        let merges: Merges = match vocabulary::read_merges(j) {
            Some(m) => m,
            None => {
                return Err(TokenizerError::Merges);
            },
        };
        let map: ByteMap = bytemap::bytes_to_unicode();
        let im_start: u32 = match find_token(&vocab, "<|im_start|>") {
            Ok(id) => id,
            Err(e) => {
                return Err(e);
            },
        };
        let im_end: u32 = match find_token(&vocab, "<|im_end|>") {
            Ok(id) => id,
            Err(e) => {
                return Err(e);
            },
        };
        let eos: u32 = match find_token(&vocab, "<|endoftext|>") {
            Ok(id) => id,
            Err(e) => {
                return Err(e);
            },
        };
        let r = Tokenizer { vocab, id_to_token, merges, map, specials, im_start, im_end, eos };
        assert(r@.specials =~= vocabulary::special_view(specials@));
        Ok(r)
    }
}

// ---------------------------------------------------------------------------------------
// Laws of joining
// ---------------------------------------------------------------------------------------

/// Pieces are joined wherever a pair has a rank; of pairs with one rank the first is the best.
pub proof fn best_pair_is_first(m: Map<Pair, usize>, parts: Seq<Seq<char>>, n: int, j: int)
    requires
        0 <= j < n,
        rank_at(m, parts, j) is Some,
    ensures
        best_pair(m, parts, n) matches Some(i) && (rank_at(m, parts, i) == rank_at(m, parts, j)
            ==> i <= j),
    decreases n,
{
    lemma_best_pair(m, parts, n - 1);
    if j < n - 1 {
        best_pair_is_first(m, parts, n - 1, j);
        best_pair_is_lowest(m, parts, n - 1, j);
    } else if best_pair(m, parts, n - 1) is Some {
        best_pair_is_lowest(m, parts, n, j);
    }
}

/// The pair that is joined next is the one of lowest rank, the first where there are several: the
/// two pieces become one in their place, and joining goes on from there.
pub proof fn lowest_rank_is_joined_first(m: Map<Pair, usize>, parts: Seq<Seq<char>>, i: int)
    requires
        0 <= i < parts.len() - 1,
        m.contains_key((parts[i], parts[i + 1])),
        forall|j: int|
            0 <= j < parts.len() - 1 && #[trigger] rank_at(m, parts, j) is Some ==> {
                let (r, s) = (m[(parts[i], parts[i + 1])], m[(parts[j], parts[j + 1])]);
                r < s || (r == s && i <= j)
            },
    ensures
        merged(m, parts) == merged(
            m,
            parts.take(i) + seq![parts[i] + parts[i + 1]] + parts.skip(i + 2),
        ),
{
    let n = parts.len() - 1;
    assert(rank_at(m, parts, i) is Some);
    best_pair_is_lowest(m, parts, n, i);
    best_pair_is_first(m, parts, n, i);
    lemma_best_pair(m, parts, n);
    let b = best_pair(m, parts, n)->0;
    assert(rank_at(m, parts, b) is Some);
    assert(b == i);
    assert(fused(parts, i) =~= parts.take(i) + seq![parts[i] + parts[i + 1]] + parts.skip(i + 2));
}

/// Joining goes on until no two neighbours have a rank, and only then ends.
pub proof fn joining_leaves_no_pair(m: Map<Pair, usize>, parts: Seq<Seq<char>>, j: int)
    requires
        0 <= j < merged(m, parts).len() - 1,
    ensures
        !m.contains_key((merged(m, parts)[j], merged(m, parts)[j + 1])),
    decreases parts.len(),
{
    let n = parts.len() - 1;
    lemma_best_pair(m, parts, n);
    match best_pair(m, parts, n) {
        Some(i) => {
            joining_leaves_no_pair(m, fused(parts, i), j);
        },
        None => {
            if rank_at(m, parts, j) is Some {
                best_pair_is_lowest(m, parts, n, j);
            }
        },
    }
}

/// Pieces of which no two neighbours have a rank stay as they are.
pub proof fn unranked_pieces_stay(m: Map<Pair, usize>, parts: Seq<Seq<char>>)
    requires
        forall|j: int|
            0 <= j < parts.len() - 1 ==> !m.contains_key((#[trigger] parts[j], parts[j + 1])),
    ensures
        merged(m, parts) == parts,
{
    lemma_best_pair(m, parts, parts.len() - 1);
    if let Some(i) = best_pair(m, parts, parts.len() - 1) {
        assert(!m.contains_key((parts[i], parts[i + 1])));
    }
}

/// With the merges of a document, the pair that is joined next is the one that its list names first:
/// where merge `a` of the list joins the pieces at `i` and merge `b` could join those at `j`, `a` is
/// listed before `b`.
pub proof fn merges_apply_as_listed(
    items: Seq<json::Tree>,
    parts: Seq<Seq<char>>,
    i: int,
    j: int,
    a: int,
    b: int,
)
    requires
        vocabulary::all_merges(items),
        items.len() <= usize::MAX,
        forall|x: int, y: int|
            0 <= x < y < items.len() ==> vocabulary::merge_of(#[trigger] items[x])
                != vocabulary::merge_of(#[trigger] items[y]),
        best_pair(
            vocabulary::ranks(items, items.len() as int),
            parts,
            parts.len() - 1,
        ) == Some(i),
        0 <= j < parts.len() - 1,
        0 <= a < items.len(),
        0 <= b < items.len(),
        vocabulary::merge_of(items[a]) == Some((parts[i], parts[i + 1])),
        vocabulary::merge_of(items[b]) == Some((parts[j], parts[j + 1])),
    ensures
        a <= b,
        a == b ==> i <= j,
{
    let m = vocabulary::ranks(items, items.len() as int);
    vocabulary::earlier_merges_rank_lower(items, a, b);
    vocabulary::earlier_merges_rank_lower(items, b, a);
    assert(rank_at(m, parts, j) is Some);
    best_pair_is_lowest(m, parts, parts.len() - 1, j);
    best_pair_is_first(m, parts, parts.len() - 1, j);
}

/// A chunk that is a token as it stands is that one token.
pub proof fn whole_chunks_are_one_token(v: Vocabulary, chunk: Seq<char>)
    requires
        v.vocab.contains_key(printed(chunk)),
    ensures
        ids_of(v, chunk_pieces(v, chunk)) == seq![v.vocab[printed(chunk)]],
{
    assert(ids_of(v, chunk_pieces(v, chunk)) =~= seq![v.vocab[printed(chunk)]]);
}

/// Any other chunk is what joining makes of its single characters: one number for each piece, that of
/// the piece where it is a token, and the end of text where it is none.
pub proof fn other_chunks_are_joined(v: Vocabulary, chunk: Seq<char>, i: int)
    requires
        !v.vocab.contains_key(printed(chunk)),
        0 <= i < ids_of(v, chunk_pieces(v, chunk)).len(),
    ensures
        ({
            let parts = merged(
                v.merges,
                Seq::new(printed(chunk).len(), |k: int| seq![printed(chunk)[k]]),
            );
            let ids = ids_of(v, chunk_pieces(v, chunk));
            &&& ids.len() == parts.len()
            &&& v.vocab.contains_key(parts[i]) ==> ids[i] == v.vocab[parts[i]]
            &&& !v.vocab.contains_key(parts[i]) ==> ids[i] == v.eos
        }),
{
    assert(singles(printed(chunk)) =~= Seq::new(
        printed(chunk).len(),
        |k: int| seq![printed(chunk)[k]],
    ));
}

// ---------------------------------------------------------------------------------------
// Laws of special tokens
// ---------------------------------------------------------------------------------------

/// The special token that stands first, and of those in one place the one listed first, is the next.
proof fn lemma_first_special(
    specials: Seq<(Seq<char>, u32)>,
    s: Seq<char>,
    n: int,
    i: int,
    k: int,
)
    requires
        0 <= k < n <= specials.len(),
        text::first_at(s, specials[k].0, i),
        forall|x: int, at: int|
            0 <= x < specials.len() && #[trigger] text::occurs_at(s, specials[x].0, at) ==> i < at
                || (i == at && k <= x),
    ensures
        next_special(specials, s, n) == Some((i, k)),
    decreases n,
{
    text::lemma_found_stands(s, specials[n - 1].0);
    lemma_next_special(specials, s, n - 1);
    if k < n - 1 {
        lemma_first_special(specials, s, n - 1, i, k);
        if let Some(at) = text::found(s, specials[n - 1].0) {
            assert(text::occurs_at(s, specials[n - 1].0, at));
        }
    } else {
        text::lemma_found(s, specials[k].0, i);
        if let Some((at, x)) = next_special(specials, s, n - 1) {
            assert(text::occurs_at(s, specials[x].0, at));
        }
    }
}

/// A special token is found verbatim, and is one number whatever the merges say: text up to it is
/// encoded as plain text, then comes its own number, then the rest as if it stood alone.
pub proof fn specials_are_found_verbatim(v: Vocabulary, a: Seq<char>, k: int, b: Seq<char>)
    requires
        sound(v),
        0 <= k < v.specials.len(),
        forall|x: int, at: int|
            0 <= x < v.specials.len() && #[trigger] text::occurs_at(
                a + v.specials[k].0 + b,
                v.specials[x].0,
                at,
            ) ==> a.len() < at || (a.len() == at && k <= x),
    ensures
        encoded(v, a + v.specials[k].0 + b) == plain_ids(v, a) + seq![v.specials[k].1] + encoded(
            v,
            b,
        ),
{
    let name = v.specials[k].0;
    let s = a + name + b;
    let i = a.len() as int;
    assert(name.len() > 0);
    assert(text::first_at(s, name, i)) by {
        assert(s.subrange(i, i + name.len()) =~= name);
        assert forall|j: int| 0 <= j < i implies !#[trigger] text::occurs_at(s, name, j) by {
            if text::occurs_at(s, name, j) {
                assert(text::occurs_at(s, v.specials[k].0, j));
            }
        }
    }
    lemma_first_special(v.specials, s, v.specials.len() as int, i, k);
    assert(s.take(i) =~= a);
    assert(s.skip(i + name.len()) =~= b);
    assert(plain_ids(v, a).push(v.specials[k].1) + encoded(v, b) =~= plain_ids(v, a) + seq![
        v.specials[k].1,
    ] + encoded(v, b));
}

/// Text in which no special token stands is plain text.
pub proof fn text_without_specials_is_plain(v: Vocabulary, s: Seq<char>)
    requires
        s.len() > 0,
        forall|x: int|
            0 <= x < v.specials.len() ==> text::absent(s, (#[trigger] v.specials[x]).0),
    ensures
        encoded(v, s) == plain_ids(v, s),
{
    lemma_next_special(v.specials, s, v.specials.len() as int);
    if let Some((i, k)) = next_special(v.specials, s, v.specials.len() as int) {
        assert(text::absent(s, v.specials[k].0));
        assert(text::occurs_at(s, v.specials[k].0, i));
    }
}

/// The tokens by which a turn begins and ends and the one that ends a text have the numbers that the
/// document gives those names, and the numbers of all tokens are those of the document.
pub proof fn engine_tokens_are_the_documents(v: Vocabulary, j: json::Tree)
    requires
        describes(v, j),
        missing_token(j) is None,
    ensures
        v.vocab.contains_key("<|im_start|>"@) && v.im_start == v.vocab["<|im_start|>"@],
        v.vocab.contains_key("<|im_end|>"@) && v.im_end == v.vocab["<|im_end|>"@],
        v.vocab.contains_key("<|endoftext|>"@) && v.eos == v.vocab["<|endoftext|>"@],
        forall|k: Seq<char>| #[trigger]
            v.vocab.contains_key(k) ==> v.vocab[k] < v.tokens.len() && v.vocab.contains_key(
                v.tokens[v.vocab[k] as int],
            ) && v.vocab[v.tokens[v.vocab[k] as int]] == v.vocab[k],
{
    assert forall|k: Seq<char>| #[trigger] v.vocab.contains_key(k) implies v.vocab[k]
        < v.tokens.len() && v.vocab.contains_key(v.tokens[v.vocab[k] as int])
        && v.vocab[v.tokens[v.vocab[k] as int]] == v.vocab[k] by {
        let id = v.vocab[k] as int;
        assert(vocabulary::taken(v.vocab, id));
    }
}

/// A special token stands for its own text; every other token stands for the bytes that its characters
/// stand for.
pub proof fn special_tokens_are_their_text(v: Vocabulary, id: int, k: int)
    requires
        0 <= id < v.tokens.len(),
    ensures
        0 <= k < v.specials.len() && v.specials[k].0 == v.tokens[id] ==> bytes_of_id(v, id)
            == encode_utf8(v.tokens[id]),
        (forall|i: int| 0 <= i < v.specials.len() ==> (#[trigger] v.specials[i]).0 != v.tokens[id])
            ==> bytes_of_id(v, id) == bytemap::unmapped(v.tokens[id]),
{
    if 0 <= k < v.specials.len() && v.specials[k].0 == v.tokens[id] {
        assert(is_special(v.specials, v.tokens[id]));
    }
}

/// The bytes of tokens stand one behind the other, in the order of the tokens.
pub proof fn bytes_stand_in_order(v: Vocabulary, a: Seq<u32>, b: Seq<u32>)
    ensures
        bytes_of_ids(v, a + b) == bytes_of_ids(v, a) + bytes_of_ids(v, b),
        a.len() == 1 ==> bytes_of_ids(v, a) == bytes_of_id(v, a[0] as int),
    decreases b.len(),
{
    if a.len() == 1 {
        assert(bytes_of_ids(v, a.drop_last()) =~= seq![]);
        assert(bytes_of_ids(v, a) =~= bytes_of_id(v, a[0] as int));
    }
    if b.len() == 0 {
        assert(a + b =~= a);
        assert(bytes_of_ids(v, a) + bytes_of_ids(v, b) =~= bytes_of_ids(v, a));
    } else {
        bytes_stand_in_order(v, a, b.drop_last());
        assert((a + b).drop_last() =~= a + b.drop_last());
        assert(bytes_of_ids(v, a + b) =~= bytes_of_ids(v, a) + bytes_of_ids(v, b));
    }
}

/// A document that has all that a tokenizer needs gives one, and what a document is said to lack it
/// lacks.
pub proof fn complete_documents_load(r: Result<Tokenizer, TokenizerError>, t: json::Tree)
    requires
        loaded(r, t),
    ensures
        has_vocab(t) && has_specials(t) && has_merges(t) && !too_large(t) && vocab_of(
            t,
        ).contains_key("<|im_start|>"@) && vocab_of(t).contains_key("<|im_end|>"@) && vocab_of(
            t,
        ).contains_key("<|endoftext|>"@) ==> r is Ok,
        r matches Err(TokenizerError::Missing(n)) ==> !vocab_of(t).contains_key(n@),
        r matches Err(TokenizerError::Vocab) ==> !has_vocab(t),
        r matches Err(TokenizerError::AddedTokens) ==> !has_specials(t),
        r matches Err(TokenizerError::Merges) ==> !has_merges(t),
        r is Ok ==> vocab_of(t).contains_key("<|im_start|>"@) && vocab_of(t).contains_key(
            "<|im_end|>"@,
        ) && vocab_of(t).contains_key("<|endoftext|>"@),
{
}

} // verus!
