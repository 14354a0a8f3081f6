//! What a `tokenizer.json` says: the tokens and their numbers, the special tokens, and the ranks of
//! the merges.

use vstd::hash_map::*;
use vstd::prelude::*;
use vstd::slice::*;
use vstd::string::*;

use crate::json;
use crate::json::Json;
use crate::text;
use crate::tokenizer;
use crate::tokenizer::Merges;

verus! {

/// The object that gives each token its number.
pub open spec fn vocab_part(j: json::Tree) -> Option<Map<Seq<char>, json::Tree>> {
    match json::member(j, "model"@) {
        Some(m) => json::members_of(json::member(m, "vocab"@)),
        None => None,
    }
}

/// Every member is a whole number.
pub open spec fn all_numbers(m: Map<Seq<char>, json::Tree>) -> bool {
    forall|k: Seq<char>| #[trigger] m.contains_key(k) ==> m[k] is UInt
}

/// The members as token numbers.
pub open spec fn numbers(m: Map<Seq<char>, json::Tree>) -> Map<Seq<char>, u32> {
    Map::new(|k: Seq<char>| m.contains_key(k), |k: Seq<char>| m[k]->UInt_0 as u32)
}

/// A special token: its text and its number.
pub open spec fn special_of(t: json::Tree) -> Option<(Seq<char>, u32)> {
    match (json::str_of(json::member(t, "content"@)), json::uint_of(json::member(t, "id"@))) {
        (Some(s), Some(u)) => Some((s, u as u32)),
        _ => None,
    }
}

/// Every item is a special token.
pub open spec fn all_specials(items: Seq<json::Tree>) -> bool {
    forall|i: int| 0 <= i < items.len() ==> special_of(#[trigger] items[i]) is Some
}

/// The special tokens.
pub open spec fn specials_of(items: Seq<json::Tree>) -> Seq<(Seq<char>, u32)> {
    items.map_values(|t: json::Tree| special_of(t)->0)
}

/// The numbers with those of the special tokens added.
pub open spec fn with_specials(
    v: Map<Seq<char>, u32>,
    specials: Seq<(Seq<char>, u32)>,
) -> Map<Seq<char>, u32>
    decreases specials.len(),
{
    if specials.len() == 0 {
        v
    } else {
        with_specials(v, specials.drop_last()).insert(specials.last().0, specials.last().1)
    }
}

/// The two pieces of a merge: a text with a space between them, or an array of both.
pub open spec fn merge_of(t: json::Tree) -> Option<tokenizer::Pair> {
    match t {
        json::Tree::Str(s) => match text::found(s, seq![' ']) {
            Some(i) => Some((s.take(i), s.skip(i + 1))),
            None => None,
        },
        json::Tree::Array(a) => if a.len() >= 2 {
            match (a[0], a[1]) {
                (json::Tree::Str(x), json::Tree::Str(y)) => Some((x, y)),
                _ => None,
            }
        } else {
            None
        },
        _ => None,
    }
}

/// The list of merges.
pub open spec fn merges_part(j: json::Tree) -> Option<Seq<json::Tree>> {
    match json::member(j, "model"@) {
        Some(m) => json::items_of(json::member(m, "merges"@)),
        None => None,
    }
}

/// Every item is a merge.
pub open spec fn all_merges(items: Seq<json::Tree>) -> bool {
    forall|i: int| 0 <= i < items.len() ==> merge_of(#[trigger] items[i]) is Some
}

/// The rank of each of the first `n` merges: its place in the list, the last one where it occurs
/// more than once.
pub open spec fn ranks(items: Seq<json::Tree>, n: int) -> Map<tokenizer::Pair, usize>
    decreases n,
{
    if n <= 0 {
        Map::empty()
    } else {
        ranks(items, n - 1).insert(merge_of(items[n - 1])->0, (n - 1) as usize)
    }
}

/// Some token has the number `id`.
pub open spec fn taken(vocab: Map<Seq<char>, u32>, id: int) -> bool {
    exists|k: Seq<char>| #[trigger] vocab.contains_key(k) && vocab[k] == id
}

/// `tokens` lists the tokens by number: at every number that some token has stands one that has it,
/// elsewhere nothing; the list ends with the highest number.
pub open spec fn lists(vocab: Map<Seq<char>, u32>, tokens: Seq<Seq<char>>) -> bool {
    &&& forall|k: Seq<char>| #[trigger] vocab.contains_key(k) ==> vocab[k] < tokens.len()
    &&& tokens.len() > 0 ==> taken(vocab, tokens.len() - 1)
    &&& forall|id: int|
        0 <= id < tokens.len() ==> if taken(vocab, id) {
            vocab.contains_key(#[trigger] tokens[id]) && vocab[tokens[id]] == id
        } else {
            tokens[id].len() == 0
        }
}

/// Why a vocabulary cannot be used.
#[derive(Debug)]
pub enum TokenizerError {
    /// The file is no JSON document; the reader's message.
    Json(String),
    /// The tokens are missing or one of them has no number.
    Vocab,
    /// The special tokens are missing or one of them lacks its text or number.
    AddedTokens,
    /// The merges are missing or one of them is not a pair.
    Merges,
    /// A token number is larger than a list can be long.
    TooLarge,
    /// A token that the engine needs is missing.
    Missing(String),
}

/// Every token is among the names.
pub open spec fn named(vocab: Map<Seq<char>, u32>, names: Seq<Seq<char>>) -> bool {
    forall|k: Seq<char>| #[trigger]
        vocab.contains_key(k) ==> exists|i: int| 0 <= i < names.len() && #[trigger] names[i] == k
}

/// Every name that members hold stands among the first names.
proof fn lemma_members_named(o: Seq<(String, Json)>, k: Seq<char>)
    requires
        json::members(o).contains_key(k),
    ensures
        exists|i: int| 0 <= i < o.len() && (#[trigger] o[i]).0@ == k,
    decreases o.len(),
{
    if o.len() > 0 {
        let p = o.drop_last();
        if k == o.last().0@ {
            assert(o[o.len() - 1].0@ == k);
        } else {
            lemma_members_named(p, k);
            let i = choose|i: int| 0 <= i < p.len() && (#[trigger] p[i]).0@ == k;
            assert(o[i].0@ == k);
        }
    }
}

/// `vocab` holds the numbers of the members `seen` so far; what is no number among them is replaced
/// by one in `whole`.
spec fn partly_read(
    vocab: Map<Seq<char>, u32>,
    seen: Map<Seq<char>, json::Tree>,
    whole: Map<Seq<char>, json::Tree>,
) -> bool {
    &&& forall|n: Seq<char>| #[trigger] vocab.contains_key(n) ==> seen.contains_key(n)
    &&& forall|n: Seq<char>| #[trigger]
        seen.contains_key(n) ==> match seen[n] {
            json::Tree::UInt(u) => vocab.contains_key(n) && vocab[n] == u as u32,
            _ => whole.contains_key(n) && whole[n] is UInt,
        }
}

/// Reads the tokens and their numbers, and the tokens' names.
pub fn read_vocab(j: &Json) -> (r: Option<(StringHashMap<u32>, Vec<String>)>)
    ensures
        match r {
            Some((vocab, names)) => {
                &&& vocab_part(j.tree()) matches Some(m)
                &&& all_numbers(m)
                &&& vocab@ == numbers(m)
                &&& named(vocab@, tokenizer::contents(names@))
            },
            None => !(vocab_part(j.tree()) matches Some(m) && all_numbers(m)),
        },
{
    let model = match j.get("model") {
        Some(m) => m,
        None => {
            return None;
        },
    };
    let part = match model.get("vocab") {
        Some(v) => v,
        None => {
            return None;
        },
    };
    let o = match part {
        Json::Object(o) => o,
        _ => {
            return None;
        },
    };
    let ghost whole = json::members(o@);
    let mut vocab: StringHashMap<u32> = StringHashMap::new();
    let mut names: Vec<String> = Vec::new();
    for i in 0..o.len()
        invariant
            part.tree() == json::Tree::Object(whole),
            whole == json::members(o@),
            vocab_part(j.tree()) == Some(whole),
            names@.len() == i,
            forall|k: int| 0 <= k < i ==> (#[trigger] names@[k])@ == o@[k].0@,
            partly_read(vocab@, json::members(o@.take(i as int)), whole),
    {
        let ghost before = json::members(o@.take(i as int));
        assert(o@.take(i + 1) =~= o@.take(i as int).push(o@[i as int]));
        proof {
            json::members_push(o@.take(i as int), o@[i as int]);
        }
        let ghost name = o@[i as int].0@;
        let ghost seen = before.insert(name, o@[i as int].1.tree());
        assert(seen == json::members(o@.take(i + 1)));
        names.push(o[i].0.clone());
        match o[i].1.as_uint() {
            Some(u) => {
                vocab.insert(o[i].0.clone(), u as u32);
            },
            None => {
                match part.uint(o[i].0.as_str()) {
                    Some(_) => {},
                    None => {
                        proof {
                            json::lemma_member_stays(o@, i as int);
                            assert(whole.contains_key(name));
                            assert(!(whole[name] is UInt));
                        }
                        return None;
                    },
                }
            },
        }
        assert(partly_read(vocab@, seen, whole));
    }
    proof {
        assert(o@.take(o@.len() as int) =~= o@);
        assert(partly_read(vocab@, whole, whole));
        assert(all_numbers(whole));
        assert(vocab@ =~= numbers(whole));
        let listed = tokenizer::contents(names@);
        assert forall|k: Seq<char>| #[trigger] vocab@.contains_key(k) implies exists|i: int|
            0 <= i < listed.len() && #[trigger] listed[i] == k by {
            lemma_members_named(o@, k);
            let i = choose|i: int| 0 <= i < o@.len() && (#[trigger] o@[i]).0@ == k;
            assert(names@[i]@ == o@[i].0@);
            assert(listed[i] == k);
        }
    }
    Some((vocab, names))
}

/// Special tokens by text and number.
pub open spec fn special_view(s: Seq<(String, u32)>) -> Seq<(Seq<char>, u32)> {
    s.map_values(|p: (String, u32)| (p.0@, p.1))
}

/// Reads the special tokens.
pub fn read_specials(j: &Json) -> (r: Option<Vec<(String, u32)>>)
    ensures
        match r {
            Some(s) => {
                &&& json::items_of(json::member(j.tree(), "added_tokens"@)) matches Some(a)
                &&& all_specials(a)
                &&& special_view(s@) == specials_of(a)
            },
            None => !(json::items_of(json::member(j.tree(), "added_tokens"@)) matches Some(a)
                && all_specials(a)),
        },
{
    let a = match j.items("added_tokens") {
        Some(a) => a,
        None => {
            return None;
        },
    };
    let ghost all = json::trees(a@);
    proof {
        json::trees_items(a@);
    }
    let mut out: Vec<(String, u32)> = Vec::new();
    for i in 0..a.len()
        invariant
            json::items_of(json::member(j.tree(), "added_tokens"@)) == Some(all),
            all.len() == a@.len(),
            forall|k: int| 0 <= k < a@.len() ==> #[trigger] all[k] == a@[k].tree(),
            forall|k: int| 0 <= k < i ==> special_of(#[trigger] all[k]) is Some,
            special_view(out@) == specials_of(all.take(i as int)),
    {
        assert(all[i as int] == a@[i as int].tree());
        match (a[i].text("content"), a[i].uint("id")) {
            (Some(s), Some(u)) => {
                let ghost before = special_view(out@);
                let e: (String, u32) = (s.clone(), u as u32);
                out.push(e);
                assert(special_view(out@) =~= before.push((e.0@, e.1)));
                assert(specials_of(all.take(i + 1)) =~= specials_of(all.take(i as int)).push(
                    special_of(all[i as int])->0,
                ));
            },
            _ => {
                assert(special_of(all[i as int]) is None);
                return None;
            },
        }
    }
    assert(all.take(all.len() as int) =~= all);
    Some(out)
}

/// Adds the special tokens to the numbers and their names to the names.
pub fn add_specials(
    vocab: &mut StringHashMap<u32>,
    names: &mut Vec<String>,
    specials: &Vec<(String, u32)>,
)
    requires
        named(old(vocab)@, tokenizer::contents(old(names)@)),
    ensures
        final(vocab)@ == with_specials(old(vocab)@, special_view(specials@)),
        named(final(vocab)@, tokenizer::contents(final(names)@)),
{
    let ghost all = special_view(specials@);
    for i in 0..specials.len()
        invariant
            all == special_view(specials@),
            vocab@ == with_specials(old(vocab)@, all.take(i as int)),
            named(vocab@, tokenizer::contents(names@)),
    {
        let ghost (before, listed) = (vocab@, tokenizer::contents(names@));
        names.push(specials[i].0.clone());
        vocab.insert(specials[i].0.clone(), specials[i].1);
        proof {
            assert(all.take(i + 1).drop_last() =~= all.take(i as int));
            assert(all[i as int] == (specials@[i as int].0@, specials@[i as int].1));
            let more = tokenizer::contents(names@);
            assert(more =~= listed.push(specials@[i as int].0@));
            assert forall|k: Seq<char>| #[trigger] vocab@.contains_key(k) implies exists|i: int|
                0 <= i < more.len() && #[trigger] more[i] == k by {
                if k == specials@[i as int].0@ {
                    assert(more[listed.len() as int] == k);
                } else {
                    assert(before.contains_key(k));
                    let x = choose|x: int| 0 <= x < listed.len() && #[trigger] listed[x] == k;
                    assert(more[x] == k);
                }
            }
        }
    }
    assert(all.take(all.len() as int) =~= all);
}

/// One past the highest number; `None` where that is no machine word.
fn table_len(vocab: &StringHashMap<u32>, names: &Vec<String>) -> (r: Option<usize>)
    requires
        named(vocab@, tokenizer::contents(names@)),
    ensures
        match r {
            Some(n) => {
                &&& forall|k: Seq<char>| #[trigger] vocab@.contains_key(k) ==> vocab@[k] < n
                &&& n > 0 ==> taken(vocab@, n - 1)
            },
            None => taken(vocab@, usize::MAX as int),
        },
{
    let ghost all = tokenizer::contents(names@);
    let mut len: usize = 0;
    for i in 0..names.len()
        invariant
            all == tokenizer::contents(names@),
            forall|x: int|
                0 <= x < i ==> (vocab@.contains_key(#[trigger] all[x]) ==> vocab@[all[x]] < len),
            len > 0 ==> taken(vocab@, len - 1),
    {
        assert(all[i as int] == names@[i as int]@);
        if let Some(id) = vocab.get(names[i].as_str()) {
            let id: usize = *id as usize;
            if id == usize::MAX {
                return None;
            }
            if id + 1 > len {
                len = id + 1;
            }
        }
    }
    assert forall|k: Seq<char>| #[trigger] vocab@.contains_key(k) implies vocab@[k] < len by {
        let x = choose|x: int| 0 <= x < all.len() && #[trigger] all[x] == k;
    }
    Some(len)
}

/// The tokens by number; `None` where a number is larger than a list can be long.
pub fn token_table(vocab: &StringHashMap<u32>, names: &Vec<String>) -> (r: Option<Vec<String>>)
    requires
        named(vocab@, tokenizer::contents(names@)),
    ensures
        match r {
            Some(t) => lists(vocab@, tokenizer::contents(t@)),
            None => taken(vocab@, usize::MAX as int),
        },
{
    let len: usize = match table_len(vocab, names) {
        Some(n) => n,
        None => {
            return None;
        },
    };
    let ghost all = tokenizer::contents(names@);
    let mut table: Vec<String> = Vec::new();
    for i in 0..len
        invariant
            table@.len() == i,
            forall|x: int| 0 <= x < i ==> (#[trigger] table@[x])@.len() == 0,
    {
        table.push(String::new());
    }
    for i in 0..names.len()
        invariant
            all == tokenizer::contents(names@),
            table@.len() == len,
            forall|k: Seq<char>| #[trigger] vocab@.contains_key(k) ==> vocab@[k] < len,
            forall|id: int|
                0 <= id < len ==> {
                    ||| vocab@.contains_key((#[trigger] table@[id])@) && vocab@[table@[id]@] == id
                    ||| table@[id]@.len() == 0 && forall|x: int|
                        0 <= x < i ==> !(vocab@.contains_key(#[trigger] all[x]) && vocab@[all[x]]
                            == id)
                },
    {
        assert(all[i as int] == names@[i as int]@);
        if let Some(id) = vocab.get(names[i].as_str()) {
            let ghost before = table@;
            table.set(*id as usize, names[i].clone());
            assert forall|id2: int| 0 <= id2 < len implies {
                ||| vocab@.contains_key((#[trigger] table@[id2])@) && vocab@[table@[id2]@] == id2
                ||| table@[id2]@.len() == 0 && forall|x: int|
                    0 <= x < i + 1 ==> !(vocab@.contains_key(#[trigger] all[x]) && vocab@[all[x]]
                        == id2)
            } by {
                if id2 != *id {
                    assert(table@[id2] == before[id2]);
                }
            }
        }
    }
    proof {
        let tokens = tokenizer::contents(table@);
        assert forall|id: int| 0 <= id < tokens.len() implies if taken(vocab@, id) {
            vocab@.contains_key(#[trigger] tokens[id]) && vocab@[tokens[id]] == id
        } else {
            tokens[id].len() == 0
        } by {
            assert(tokens[id] == table@[id]@);
            if taken(vocab@, id) {
                let k = choose|k: Seq<char>| #[trigger] vocab@.contains_key(k) && vocab@[k] == id;
                let x = choose|x: int| 0 <= x < all.len() && #[trigger] all[x] == k;
                assert(vocab@.contains_key(all[x]) && vocab@[all[x]] == id);
            }
        }
    }
    Some(table)
}

/// The two pieces of one merge.
fn read_merge(t: &Json) -> (r: Option<(String, String)>)
    ensures
        match r {
            Some((a, b)) => merge_of(t.tree()) == Some((a@, b@)),
            None => merge_of(t.tree()) is None,
        },
{
    match t {
        Json::Str(s) => {
            let cs: Vec<char> = text::chars_of(s.as_str());
            let space: [char; 1] = [' '];
            assert(space@ =~= seq![' ']);
            match text::find(cs.as_slice(), &space) {
                Some(i) => {
                    let n: usize = cs.len();
                    let a = slice_subrange(cs.as_slice(), 0, i);
                    assert(i < n);
                    let b = slice_subrange(cs.as_slice(), i + 1, n);
                    assert(a@ =~= s@.take(i as int));
                    assert(b@ =~= s@.skip(i + 1));
                    Some((text::string_of(a), text::string_of(b)))
                },
                None => None,
            }
        },
        Json::Array(p) => {
            proof {
                json::trees_items(p@);
            }
            if p.len() < 2 {
                return None;
            }
            assert(json::trees(p@)[0] == p@[0].tree() && json::trees(p@)[1] == p@[1].tree());
            match (&p[0], &p[1]) {
                (Json::Str(a), Json::Str(b)) => Some((a.clone(), b.clone())),
                _ => None,
            }
        },
        _ => None,
    }
}

/// Reads the ranks of the merges.
pub fn read_merges(j: &Json) -> (r: Option<Merges>)
    ensures
        match r {
            Some(m) => {
                &&& m.wf()
                &&& merges_part(j.tree()) matches Some(a)
                &&& all_merges(a)
                &&& m@ == ranks(a, a.len() as int)
            },
            None => !(merges_part(j.tree()) matches Some(a) && all_merges(a)),
        },
{
    let model = match j.get("model") {
        Some(m) => m,
        None => {
            return None;
        },
    };
    let a = match model.items("merges") {
        Some(a) => a,
        None => {
            return None;
        },
    };
    let ghost all = json::trees(a@);
    proof {
        json::trees_items(a@);
    }
    let mut out: Merges = Merges::new();
    for i in 0..a.len()
        invariant
            out.wf(),
            merges_part(j.tree()) == Some(all),
            all.len() == a@.len(),
            forall|k: int| 0 <= k < a@.len() ==> #[trigger] all[k] == a@[k].tree(),
            forall|k: int| 0 <= k < i ==> merge_of(#[trigger] all[k]) is Some,
            out@ == ranks(all, i as int),
    {
        assert(all[i as int] == a@[i as int].tree());
        match read_merge(&a[i]) {
            Some((x, y)) => {
                out.insert(x, y, i);
            },
            None => {
                assert(merge_of(all[i as int]) is None);
                return None;
            },
        }
    }
    Some(out)
}

/// The rank of a merge is a place where it stands in the list, and the last such place; nothing else
/// has a rank.
pub proof fn ranks_are_places(items: Seq<json::Tree>, p: tokenizer::Pair)
    requires
        all_merges(items),
        items.len() <= usize::MAX,
    ensures
        ({
            let m = ranks(items, items.len() as int);
            &&& m.contains_key(p) <==> exists|i: int|
                0 <= i < items.len() && merge_of(#[trigger] items[i]) == Some(p)
            &&& m.contains_key(p) ==> m[p] < items.len() && merge_of(items[m[p] as int]) == Some(p)
            &&& m.contains_key(p) ==> forall|i: int|
                m[p] < i < items.len() ==> merge_of(#[trigger] items[i]) != Some(p)
        }),
{
    lemma_ranks(items, items.len() as int, p);
}

/// The same of the first `n` merges.
proof fn lemma_ranks(items: Seq<json::Tree>, n: int, p: tokenizer::Pair)
    requires
        all_merges(items),
        0 <= n <= items.len() <= usize::MAX,
    ensures
        ({
            let m = ranks(items, n);
            &&& m.contains_key(p) <==> exists|i: int|
                0 <= i < n && merge_of(#[trigger] items[i]) == Some(p)
            &&& m.contains_key(p) ==> m[p] < n && merge_of(items[m[p] as int]) == Some(p)
            &&& m.contains_key(p) ==> forall|i: int|
                m[p] < i < n ==> merge_of(#[trigger] items[i]) != Some(p)
        }),
    decreases n,
{
    if n > 0 {
        lemma_ranks(items, n - 1, p);
        assert(merge_of(items[n - 1]) is Some);
        if ranks(items, n - 1).contains_key(p) {
            let i = choose|i: int| 0 <= i < n - 1 && merge_of(#[trigger] items[i]) == Some(p);
            assert(merge_of(items[i]) == Some(p));
        }
    }
}

/// A merge that is listed before another has the lower rank, and so is applied first.
pub proof fn earlier_merges_rank_lower(items: Seq<json::Tree>, i: int, j: int)
    requires
        all_merges(items),
        items.len() <= usize::MAX,
        forall|a: int, b: int|
            0 <= a < b < items.len() ==> merge_of(#[trigger] items[a]) != merge_of(
                #[trigger] items[b],
            ),
        0 <= i < items.len(),
        0 <= j < items.len(),
    ensures
        ({
            let m = ranks(items, items.len() as int);
            let (p, q) = (merge_of(items[i])->0, merge_of(items[j])->0);
            &&& m.contains_key(p)
            &&& m.contains_key(q)
            &&& m[p] < m[q] <==> i < j
        }),
{
    let m = ranks(items, items.len() as int);
    let (p, q) = (merge_of(items[i])->0, merge_of(items[j])->0);
    assert(merge_of(items[i]) is Some && merge_of(items[j]) is Some);
    ranks_are_places(items, p);
    ranks_are_places(items, q);
    assert(m[p] == i) by {
        if m[p] != i {
            assert(merge_of(items[m[p] as int]) == merge_of(items[i]));
        }
    }
    assert(m[q] == j) by {
        if m[q] != j {
            assert(merge_of(items[m[q] as int]) == merge_of(items[j]));
        }
    }
}

/// A merge can be written as a text with one space between its pieces or as an array of them: both
/// say the same, and the first piece comes first.
pub proof fn merges_are_written_two_ways(a: Seq<char>, b: Seq<char>)
    requires
        !a.contains(' '),
    ensures
        merge_of(json::Tree::Str(a + seq![' '] + b)) == Some((a, b)),
        merge_of(json::Tree::Array(seq![json::Tree::Str(a), json::Tree::Str(b)])) == Some((a, b)),
{
    let s = a + seq![' '] + b;
    let n = a.len() as int;
    assert(text::first_at(s, seq![' '], n)) by {
        assert(s.subrange(n, n + 1) =~= seq![' ']);
        assert forall|j: int| 0 <= j < n implies !#[trigger] text::occurs_at(s, seq![' '], j) by {
            if text::occurs_at(s, seq![' '], j) {
                assert(s.subrange(j, j + 1)[0] == ' ');
                assert(a[j] == ' ');
            }
        }
    }
    text::lemma_found(s, seq![' '], n);
    assert(s.take(n) =~= a);
    assert(s.skip(n + 1) =~= b);
}

/// The number of a token is the one that the document gives it; where a special token has the same
/// text, the number of the special token counts, and of several the last.
pub proof fn tokens_have_their_numbers(
    m: Map<Seq<char>, json::Tree>,
    specials: Seq<(Seq<char>, u32)>,
    k: Seq<char>,
)
    requires
        all_numbers(m),
    ensures
        ({
            let v = with_specials(numbers(m), specials);
            if exists|i: int| 0 <= i < specials.len() && (#[trigger] specials[i]).0 == k {
                v.contains_key(k) && exists|i: int|
                    0 <= i < specials.len() && #[trigger] specials[i] == (k, v[k]) && forall|j: int|
                        i < j < specials.len() ==> (#[trigger] specials[j]).0 != k
            } else {
                &&& v.contains_key(k) == m.contains_key(k)
                &&& m.contains_key(k) && m[k]->UInt_0 <= u32::MAX ==> m[k] == json::Tree::UInt(
                    v[k] as u64,
                )
            }
        }),
    decreases specials.len(),
{
    if specials.len() > 0 {
        let front = specials.drop_last();
        let n = specials.len() - 1;
        tokens_have_their_numbers(m, front, k);
        if specials[n].0 == k {
            assert(specials[n] == (k, with_specials(numbers(m), specials)[k]));
        } else if exists|i: int| 0 <= i < specials.len() && (#[trigger] specials[i]).0 == k {
            let i = choose|i: int| 0 <= i < specials.len() && (#[trigger] specials[i]).0 == k;
            assert(front[i].0 == k);
            let v = with_specials(numbers(m), front);
            let x = choose|x: int|
                0 <= x < front.len() && #[trigger] front[x] == (k, v[k]) && forall|j: int|
                    x < j < front.len() ==> (#[trigger] front[j]).0 != k;
            assert(specials[x] == (k, v[k]));
            assert forall|j: int| x < j < specials.len() implies (#[trigger] specials[j]).0 != k by {
                if j < n {
                    assert(front[j].0 != k);
                }
            }
        } else {
            assert forall|i: int| 0 <= i < front.len() implies (#[trigger] front[i]).0 != k by {
                assert(specials[i].0 != k);
            }
        }
    } else {
        assert(m.contains_key(k) ==> m[k] is UInt);
    }
}

/// The tokens and the merges of a document stand under its model, and each special token gives its text
/// and its number, in order.
pub proof fn documents_are_read_by_name(
    j: json::Tree,
    model: json::Tree,
    m: Map<Seq<char>, json::Tree>,
    items: Seq<json::Tree>,
    i: int,
    s: Seq<char>,
    id: u32,
)
    requires
        json::member(j, "model"@) == Some(model),
    ensures
        json::member(model, "vocab"@) == Some(json::Tree::Object(m)) ==> vocab_part(j) == Some(m),
        json::member(model, "merges"@) == Some(json::Tree::Array(items)) ==> merges_part(j)
            == Some(items),
        0 <= i < items.len() && json::member(items[i], "content"@) == Some(json::Tree::Str(s))
            && json::member(items[i], "id"@) == Some(json::Tree::UInt(id as u64))
            ==> special_of(items[i]) == Some((s, id)) && specials_of(items)[i] == (s, id),
        specials_of(items).len() == items.len(),
{
}

} // verus!
