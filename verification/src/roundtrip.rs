//! Encoding loses nothing: the bytes of a text's tokens are the bytes of the text.

use vstd::prelude::*;
use vstd::utf8::*;

use crate::bytemap;
use crate::decoding;
use crate::pretokenize;
use crate::text;
use crate::tokenizer;
use crate::vocabulary;

verus! {

/// No two tokens share a number.
pub open spec fn distinct(v: tokenizer::Vocabulary) -> bool {
    forall|a: Seq<char>, b: Seq<char>|
        #![trigger v.vocab[a], v.vocab[b]]
        v.vocab.contains_key(a) && v.vocab.contains_key(b) && v.vocab[a] == v.vocab[b] ==> a == b
}

/// The special tokens are tokens.
pub open spec fn specials_listed(v: tokenizer::Vocabulary) -> bool {
    forall|i: int|
        0 <= i < v.specials.len() ==> v.vocab.contains_key((#[trigger] v.specials[i]).0)
            && v.vocab[v.specials[i].0] == v.specials[i].1
}

/// The bytes of a special token read the same in both writings. Those of a text of printable ASCII
/// characters do.
pub open spec fn specials_plain(v: tokenizer::Vocabulary) -> bool {
    forall|i: int|
        0 <= i < v.specials.len() ==> encode_utf8((#[trigger] v.specials[i]).0)
            == bytemap::unmapped(v.specials[i].0)
}

/// Every byte is a token, and so is what a merge gives.
pub open spec fn complete(v: tokenizer::Vocabulary) -> bool {
    &&& forall|b: u8| #[trigger] v.vocab.contains_key(seq![bytemap::char_for(b)])
    &&& forall|p: tokenizer::Pair| #[trigger]
        v.merges.contains_key(p) ==> v.vocab.contains_key(p.0 + p.1)
}

/// A vocabulary in which every text can be written.
pub open spec fn faithful(v: tokenizer::Vocabulary) -> bool {
    &&& tokenizer::sound(v)
    &&& vocabulary::lists(v.vocab, v.tokens)
    &&& distinct(v)
    &&& specials_listed(v)
    &&& specials_plain(v)
    &&& complete(v)
}

/// Every piece is a token.
pub open spec fn all_tokens(v: tokenizer::Vocabulary, parts: Seq<Seq<char>>) -> bool {
    forall|i: int| 0 <= i < parts.len() ==> v.vocab.contains_key(#[trigger] parts[i])
}

/// UTF-8 goes character by character.
pub proof fn encode_utf8_append(a: Seq<char>, b: Seq<char>)
    ensures
        encode_utf8(a + b) == encode_utf8(a) + encode_utf8(b),
    decreases a.len(),
{
    if a.len() == 0 {
        assert(a + b =~= b);
        assert(encode_utf8(a) + encode_utf8(b) =~= encode_utf8(b));
    } else {
        assert((a + b).drop_first() =~= a.drop_first() + b);
        encode_utf8_append(a.drop_first(), b);
        let x = encode_scalar(a[0] as u32);
        assert(x + (encode_utf8(a.drop_first()) + encode_utf8(b)) =~= (x + encode_utf8(
            a.drop_first(),
        )) + encode_utf8(b));
    }
}

/// Joining goes part by part.
pub proof fn joined_append<T>(a: Seq<Seq<T>>, b: Seq<Seq<T>>)
    ensures
        pretokenize::joined(a + b) == pretokenize::joined(a) + pretokenize::joined(b),
    decreases a.len(),
{
    if a.len() == 0 {
        assert(a + b =~= b);
        assert(pretokenize::joined(a) + pretokenize::joined(b) =~= pretokenize::joined(b));
    } else {
        assert((a + b).drop_first() =~= a.drop_first() + b);
        joined_append(a.drop_first(), b);
        assert(a[0] + (pretokenize::joined(a.drop_first()) + pretokenize::joined(b)) =~= (a[0]
            + pretokenize::joined(a.drop_first())) + pretokenize::joined(b));
    }
}

/// One part is all there is.
proof fn lemma_joined_one<T>(x: Seq<T>)
    ensures
        pretokenize::joined(seq![x]) == x,
{
    assert(seq![x].drop_first() =~= Seq::<Seq<T>>::empty());
    assert(x + pretokenize::joined(Seq::<Seq<T>>::empty()) =~= x);
}

/// Joining two neighbours does not change the whole.
proof fn lemma_fused(parts: Seq<Seq<char>>, i: int)
    requires
        0 <= i < parts.len() - 1,
    ensures
        pretokenize::joined(tokenizer::fused(parts, i)) == pretokenize::joined(parts),
{
    let (front, back) = (parts.take(i), parts.skip(i + 2));
    let (x, y) = (parts[i], parts[i + 1]);
    joined_append(front, seq![x + y]);
    assert(front.push(x + y) =~= front + seq![x + y]);
    joined_append(front + seq![x + y], back);
    lemma_joined_one(x + y);
    lemma_joined_one(x);
    lemma_joined_one(y);
    joined_append(seq![x], seq![y]);
    joined_append(front, seq![x] + seq![y]);
    joined_append(front + (seq![x] + seq![y]), back);
    assert(parts =~= front + (seq![x] + seq![y]) + back);
}

/// Joining by rank does not change the whole, and leaves tokens where it began with tokens.
pub proof fn merging_keeps_text(
    v: tokenizer::Vocabulary,
    parts: Seq<Seq<char>>,
)
    requires
        complete(v),
        all_tokens(v, parts),
    ensures
        pretokenize::joined(tokenizer::merged(v.merges, parts)) == pretokenize::joined(parts),
        all_tokens(v, tokenizer::merged(v.merges, parts)),
    decreases parts.len(),
{
    tokenizer::lemma_best_pair(v.merges, parts, parts.len() - 1);
    if let Some(i) = tokenizer::best_pair(v.merges, parts, parts.len() - 1) {
        let next = tokenizer::fused(parts, i);
        lemma_fused(parts, i);
        assert forall|k: int| 0 <= k < next.len() implies v.vocab.contains_key(
            #[trigger] next[k],
        ) by {
            if k < i {
                assert(next[k] == parts[k]);
            } else if k == i {
                let p = (parts[i], parts[i + 1]);
                assert(v.merges.contains_key(p));
            } else {
                assert(next[k] == parts[k + 1]);
            }
        }
        merging_keeps_text(v, next);
    }
}

/// The characters of a text are the text.
proof fn lemma_singles(s: Seq<char>)
    ensures
        pretokenize::joined(tokenizer::singles(s)) == s,
    decreases s.len(),
{
    let parts = tokenizer::singles(s);
    if s.len() > 0 {
        lemma_singles(s.drop_first());
        assert(parts.drop_first() =~= tokenizer::singles(s.drop_first()));
        assert(seq![s[0]] + s.drop_first() =~= s);
    } else {
        assert(parts.len() == 0);
        assert(s =~= Seq::<char>::empty());
    }
}

/// The number of a token gives back the bytes that the token stands for.
proof fn lemma_token_bytes(v: tokenizer::Vocabulary, t: Seq<char>)
    requires
        faithful(v),
        v.vocab.contains_key(t),
    ensures
        v.vocab[t] < v.tokens.len(),
        tokenizer::bytes_of_id(v, v.vocab[t] as int) == bytemap::unmapped(t),
        tokenizer::is_special(v.specials, t) ==> bytemap::unmapped(t) == encode_utf8(t),
{
    let id = v.vocab[t] as int;
    assert(vocabulary::taken(v.vocab, id));
    let u = v.tokens[id];
    assert(v.vocab.contains_key(u) && v.vocab[u] == v.vocab[t]);
    assert(u == t);
    if tokenizer::is_special(v.specials, t) {
        let i = choose|i: int| 0 <= i < v.specials.len() && (#[trigger] v.specials[i]).0 == t;
        assert(encode_utf8(v.specials[i].0) == bytemap::unmapped(v.specials[i].0));
    }
}

/// The bytes of tokens go token by token.
proof fn lemma_bytes_append(v: tokenizer::Vocabulary, a: Seq<u32>, b: Seq<u32>)
    ensures
        tokenizer::bytes_of_ids(v, a + b) == tokenizer::bytes_of_ids(v, a)
            + tokenizer::bytes_of_ids(v, b),
    decreases b.len(),
{
    if b.len() == 0 {
        assert(a + b =~= a);
        assert(tokenizer::bytes_of_ids(v, a) + tokenizer::bytes_of_ids(v, b)
            =~= tokenizer::bytes_of_ids(v, a));
    } else {
        assert((a + b).drop_last() =~= a + b.drop_last());
        lemma_bytes_append(v, a, b.drop_last());
        let x = tokenizer::bytes_of_id(v, b.last() as int);
        assert(tokenizer::bytes_of_ids(v, a) + tokenizer::bytes_of_ids(v, b.drop_last()) + x
            =~= tokenizer::bytes_of_ids(v, a) + (tokenizer::bytes_of_ids(v, b.drop_last()) + x));
    }
}

/// Every number is that of a token.
pub open spec fn in_range(v: tokenizer::Vocabulary, ids: Seq<u32>) -> bool {
    forall|i: int| 0 <= i < ids.len() ==> #[trigger] ids[i] < v.tokens.len()
}

/// The bytes of pieces that are tokens are those that the pieces stand for.
proof fn lemma_pieces_bytes(v: tokenizer::Vocabulary, parts: Seq<Seq<char>>)
    requires
        faithful(v),
        all_tokens(v, parts),
    ensures
        tokenizer::bytes_of_ids(v, tokenizer::ids_of(v, parts)) == bytemap::unmapped(
            pretokenize::joined(parts),
        ),
        in_range(v, tokenizer::ids_of(v, parts)),
    decreases parts.len(),
{
    let ids = tokenizer::ids_of(v, parts);
    if parts.len() == 0 {
        assert(bytemap::unmapped(pretokenize::joined(parts)) =~= seq![]);
    } else {
        let (front, last) = (parts.drop_last(), parts.last());
        assert forall|i: int| 0 <= i < front.len() implies v.vocab.contains_key(
            #[trigger] front[i],
        ) by {
            assert(front[i] == parts[i]);
        }
        lemma_pieces_bytes(v, front);
        assert(v.vocab.contains_key(parts[parts.len() - 1]));
        lemma_token_bytes(v, last);
        assert(ids.drop_last() =~= tokenizer::ids_of(v, front));
        assert(ids.last() == v.vocab[last]);
        assert(parts =~= front + seq![last]);
        joined_append(front, seq![last]);
        lemma_joined_one(last);
        assert(bytemap::unmapped(pretokenize::joined(front) + last) =~= bytemap::unmapped(
            pretokenize::joined(front),
        ) + bytemap::unmapped(last));
        assert forall|i: int| 0 <= i < ids.len() implies #[trigger] ids[i] < v.tokens.len() by {
            if i < ids.len() - 1 {
                assert(tokenizer::ids_of(v, front)[i] == ids[i]);
            }
        }
    }
}

/// A chunk's pieces are tokens that stand for its bytes.
proof fn lemma_chunk(v: tokenizer::Vocabulary, chunk: Seq<char>)
    requires
        faithful(v),
    ensures
        all_tokens(v, tokenizer::chunk_pieces(v, chunk)),
        bytemap::unmapped(pretokenize::joined(tokenizer::chunk_pieces(v, chunk))) == encode_utf8(
            chunk,
        ),
{
    let p = tokenizer::printed(chunk);
    bytemap::mapping_is_reversible(encode_utf8(chunk));
    if v.vocab.contains_key(p) {
        lemma_joined_one(p);
    } else {
        let parts = tokenizer::singles(p);
        assert forall|i: int| 0 <= i < parts.len() implies v.vocab.contains_key(
            #[trigger] parts[i],
        ) by {
            let b = encode_utf8(chunk)[i];
            assert(parts[i] == seq![bytemap::char_for(b)]);
        }
        lemma_singles(p);
        merging_keeps_text(v, parts);
    }
}

/// The pieces of chunks are tokens that stand for the bytes of all of them.
proof fn lemma_chunks(v: tokenizer::Vocabulary, chunks: Seq<Seq<char>>)
    requires
        faithful(v),
    ensures
        all_tokens(v, tokenizer::all_pieces(v, chunks)),
        bytemap::unmapped(pretokenize::joined(tokenizer::all_pieces(v, chunks))) == encode_utf8(
            pretokenize::joined(chunks),
        ),
    decreases chunks.len(),
{
    let all = tokenizer::all_pieces(v, chunks);
    if chunks.len() == 0 {
        assert(bytemap::unmapped(pretokenize::joined(all)) =~= seq![]);
    } else {
        let (front, last) = (chunks.drop_last(), chunks.last());
        lemma_chunks(v, front);
        lemma_chunk(v, last);
        let (a, b) = (tokenizer::all_pieces(v, front), tokenizer::chunk_pieces(v, last));
        joined_append(a, b);
        assert forall|i: int| 0 <= i < all.len() implies v.vocab.contains_key(
            #[trigger] all[i],
        ) by {
            if i < a.len() {
                assert(all[i] == a[i]);
            } else {
                assert(all[i] == b[i - a.len()]);
            }
        }
        assert(bytemap::unmapped(pretokenize::joined(a) + pretokenize::joined(b))
            =~= bytemap::unmapped(pretokenize::joined(a)) + bytemap::unmapped(
            pretokenize::joined(b),
        ));
        assert(chunks =~= front + seq![last]);
        joined_append(front, seq![last]);
        lemma_joined_one(last);
        encode_utf8_append(pretokenize::joined(front), last);
    }
}

/// The tokens of text without special tokens give back its bytes.
proof fn lemma_plain(v: tokenizer::Vocabulary, s: Seq<char>)
    requires
        faithful(v),
    ensures
        tokenizer::bytes_of_ids(v, tokenizer::plain_ids(v, s)) == encode_utf8(s),
        in_range(v, tokenizer::plain_ids(v, s)),
{
    let chunks = pretokenize::chunks(s, 0);
    pretokenize::chunks_are_the_text(s, 0);
    assert(s.skip(0) =~= s);
    lemma_chunks(v, chunks);
    lemma_pieces_bytes(v, tokenizer::all_pieces(v, chunks));
}

/// Encoding loses nothing: every token number is one that can be decoded, and the bytes of the
/// tokens of a text are the bytes of the text.
pub proof fn tokens_hold_the_text(v: tokenizer::Vocabulary, s: Seq<char>)
    requires
        faithful(v),
    ensures
        tokenizer::bytes_of_ids(v, tokenizer::encoded(v, s)) == encode_utf8(s),
        in_range(v, tokenizer::encoded(v, s)),
    decreases s.len(),
{
    let ids = tokenizer::encoded(v, s);
    if s.len() > 0 {
        tokenizer::lemma_next_special(v.specials, s, v.specials.len() as int);
        match tokenizer::next_special(v.specials, s, v.specials.len() as int) {
            Some((i, k)) => {
                let name = v.specials[k].0;
                let next = i + name.len();
                assert(text::occurs_at(s, name, i));
                let (a, c) = (s.take(i), s.skip(next));
                lemma_plain(v, a);
                tokens_hold_the_text(v, c);
                let id = v.specials[k].1;
                assert(v.vocab.contains_key(v.specials[k].0));
                lemma_token_bytes(v, name);
                assert(tokenizer::is_special(v.specials, name));
                let plain = tokenizer::plain_ids(v, a);
                let rest = tokenizer::encoded(v, c);
                let front = plain.push(id);
                assert(front.drop_last() =~= plain);
                lemma_bytes_append(v, front, rest);
                assert(s =~= a + name + c);
                encode_utf8_append(a, name);
                encode_utf8_append(a + name, c);
                assert forall|j: int| 0 <= j < ids.len() implies #[trigger] ids[j]
                    < v.tokens.len() by {
                    if j < plain.len() {
                        assert(ids[j] == plain[j]);
                    } else if j == plain.len() {
                        assert(ids[j] == id);
                    } else {
                        assert(ids[j] == rest[j - plain.len() - 1]);
                    }
                }
            },
            None => {
                lemma_plain(v, s);
            },
        }
    } else {
        assert(encode_utf8(s) =~= seq![]);
    }
}

/// Decoding undoes encoding: the bytes of a text's tokens are UTF-8, and they decode to the text.
pub proof fn decoding_undoes_encoding(v: tokenizer::Vocabulary, s: Seq<char>)
    requires
        faithful(v),
    ensures
        valid_utf8(tokenizer::bytes_of_ids(v, tokenizer::encoded(v, s))),
        decode_utf8(tokenizer::bytes_of_ids(v, tokenizer::encoded(v, s))) == s,
{
    tokens_hold_the_text(v, s);
    encode_utf8_valid_utf8(s);
    encode_utf8_decode_utf8(s);
}

/// Tokens whose bytes are UTF-8, with any others behind them, decode to the two texts, one behind the
/// other; no tokens decode to no text.
pub proof fn decoding_goes_part_by_part(v: tokenizer::Vocabulary, a: Seq<u32>, b: Seq<u32>)
    requires
        valid_utf8(tokenizer::bytes_of_ids(v, a)),
    ensures
        decoding::lossy_text(tokenizer::bytes_of_ids(v, a + b)) == decoding::lossy_text(
            tokenizer::bytes_of_ids(v, a),
        ) + decoding::lossy_text(tokenizer::bytes_of_ids(v, b)),
        decoding::lossy_text(tokenizer::bytes_of_ids(v, seq![])) == Seq::<char>::empty(),
{
    let (x, y) = (tokenizer::bytes_of_ids(v, a), tokenizer::bytes_of_ids(v, b));
    lemma_bytes_append(v, a, b);
    decoding::text_goes_before(x, y);
    decoding::text_goes_before(x, seq![]);
    assert(x + seq![] =~= x);
    assert(decode_utf8(x) + decoding::lossy_text(seq![]) =~= decode_utf8(x));
}

/// Text that is empty has no tokens.
pub proof fn nothing_has_no_tokens(v: tokenizer::Vocabulary)
    ensures
        tokenizer::plain_ids(v, seq![]) == Seq::<u32>::empty(),
        tokenizer::encoded(v, seq![]) == Seq::<u32>::empty(),
{
    let none: Seq<char> = seq![];
    assert(pretokenize::chunks(none, 0) =~= seq![]);
    assert(tokenizer::all_pieces(v, pretokenize::chunks(none, 0)) =~= seq![]);
}

/// Printable ASCII characters stand for their own bytes.
pub proof fn ascii_reads_the_same(s: Seq<char>)
    requires
        forall|i: int| 0 <= i < s.len() ==> '!' <= #[trigger] s[i] <= '~',
    ensures
        encode_utf8(s) == bytemap::unmapped(s),
    decreases s.len(),
{
    if s.len() > 0 {
        let t = s.drop_first();
        assert forall|i: int| 0 <= i < t.len() implies '!' <= #[trigger] t[i] <= '~' by {
            assert(t[i] == s[i + 1]);
        }
        ascii_reads_the_same(t);
        let c = s[0];
        let b = c as u8;
        assert(bytemap::char_for(b) == c);
        bytemap::bytes_come_back(b);
        let u = c as u32;
        assert(u & 0x7f == u) by (bit_vector)
            requires
                u <= 0x7e,
        ;
        assert(encode_scalar(u) =~= seq![b]);
        assert(bytemap::unmapped(s) =~= seq![b] + bytemap::unmapped(t));
    } else {
        assert(bytemap::unmapped(s) =~= encode_utf8(s));
    }
}

} // verus!
