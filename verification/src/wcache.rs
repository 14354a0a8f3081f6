//! The quantized weights on disk, so that a checkpoint is quantized once: eight little-endian bytes
//! give the length of a JSON header, the header gives a key and each tensor's form and place, and
//! the tensors' bytes follow. A file whose key is not that of the checkpoint is not used.

use vstd::hash_map::*;
use vstd::prelude::*;
use vstd::slice::*;
use vstd::string::*;
use vstd::utf8::*;

use crate::bytes;
use crate::bytes::Element;
use crate::files;
use crate::files::DirEntry;
use crate::json;
use crate::json::Json;
use crate::names;
use crate::text;
use crate::weight;
use crate::weight::Weight;

verus! {

/// The name of the file.
pub open spec fn path_name(dir: Seq<char>, quant: Seq<char>) -> Seq<char> {
    dir + "/.llmfast-cache-"@ + quant + ".bin"@
}

/// The name of the file.
pub fn path(dir: &str, quant: &str) -> (r: String)
    ensures
        r@ == path_name(dir@, quant@),
{
    let mut s: String = dir.to_string();
    s.append("/.llmfast-cache-");
    s.append(quant);
    s.append(".bin");
    s
}

/// The name that the file had before; a file of that name is used where there is no other.
pub fn legacy_path(dir: &str, quant: &str) -> (r: String)
    ensures
        r@ == dir@ + "/.forge-cache-"@ + quant@ + ".bin"@,
{
    let mut s: String = dir.to_string();
    s.append("/.forge-cache-");
    s.append(quant);
    s.append(".bin");
    s
}

/// Whether the file is written after a network was loaded: where it is in use (`on`) and did not
/// itself give the weights (`hit`), so that every later start finds it. A file under the name it
/// had before is no hit.
pub fn writes_cache(on: bool, hit: bool) -> (r: bool)
    ensures
        r == (on && !hit),
{
    on && !hit
}

/// What the key says of one file.
pub open spec fn key_part(e: files::Listed) -> Seq<char> {
    match e.1 {
        Some((len, time)) => if files::ends_with(e.0, ".safetensors"@) || e.0 == "config.json"@ {
            e.0 + seq![':'] + text::decimal(len as nat) + seq![':'] + text::decimal(time as nat)
                + seq![';']
        } else {
            seq![]
        },
        None => seq![],
    }
}

/// What the key says of files.
pub open spec fn key_parts(s: Seq<files::Listed>) -> Seq<char>
    decreases s.len(),
{
    if s.len() == 0 {
        seq![]
    } else {
        key_parts(s.drop_last()) + key_part(s.last())
    }
}

/// The key of a checkpoint.
pub open spec fn key_of(quant: Seq<char>, dir: Seq<files::Listed>) -> Seq<char> {
    "v1|"@ + quant + seq!['|'] + key_parts(files::sorted(dir))
}

/// The key of a checkpoint: the form of the weights, and the name, length and time of change of each
/// file.
pub fn key(quant: &str, dir: Vec<DirEntry>) -> (r: String)
    ensures
        r@ == key_of(quant@, files::listing(dir@)),
{
    let mut s: String = "v1|".to_string();
    s.append(quant);
    s.push('|');
    let sorted: Vec<DirEntry> = files::sort(dir);
    let ghost start = s@;
    let ghost all = files::listing(sorted@);
    assert(start =~= "v1|"@ + quant@ + seq!['|']);
    assert(start + key_parts(all.take(0)) =~= start);
    for i in 0..sorted.len()
        invariant
            all == files::listing(sorted@),
            s@ == start + key_parts(all.take(i as int)),
    {
        let ghost front = s@;
        let e = &sorted[i];
        assert(all.take(i + 1).drop_last() =~= all.take(i as int));
        assert(all[i as int] == e@);
        if files::has_suffix(e.name.as_str(), ".safetensors") || text::same(
            e.name.as_str(),
            "config.json",
        ) {
            if let Some((len, time)) = e.stat {
                s.append(e.name.as_str());
                s.push(':');
                text::push_decimal(&mut s, len);
                s.push(':');
                text::push_decimal(&mut s, time);
                s.push(';');
                assert(s@ =~= front + key_part(all[i as int]));
            }
        }
        assert(s@ =~= start + key_parts(all.take(i + 1)));
    }
    assert(all.take(all.len() as int) =~= all);
    s
}

/// A tensor's name and weights.
pub type Named = (Seq<char>, weight::Stored);

/// Names and weights.
pub open spec fn named(s: Seq<(String, &Weight)>) -> Seq<Named> {
    s.map_values(|p: (String, &Weight)| (p.0@, p.1@))
}

/// Bytes of the first `n` tensors.
pub open spec fn size_before(list: Seq<Named>, n: int) -> int
    decreases n,
{
    if n <= 0 {
        0
    } else {
        size_before(list, n - 1) + list[n - 1].1.payload().len()
    }
}

/// The bytes of the first `n` tensors.
pub open spec fn payloads(list: Seq<Named>, n: int) -> Seq<u8>
    decreases n,
{
    if n <= 0 {
        seq![]
    } else {
        payloads(list, n - 1) + list[n - 1].1.payload()
    }
}

/// What the header says of a tensor whose bytes start at `off`.
#[verifier::opaque]
pub open spec fn entry(w: weight::Stored, off: int) -> json::Tree {
    json::Tree::Object(
        Map::empty().insert("kind"@, json::Tree::Str(weight::format_name(w.format()))).insert(
            "n"@,
            json::Tree::UInt(w.rows() as u64),
        ).insert("k"@, json::Tree::UInt(w.cols() as u64)).insert(
            "off"@,
            json::Tree::UInt(off as u64),
        ).insert("len"@, json::Tree::UInt(w.payload().len() as u64)),
    )
}

/// What the header says of the first `n` tensors.
pub open spec fn entries(list: Seq<Named>, n: int) -> Map<Seq<char>, json::Tree>
    decreases n,
{
    if n <= 0 {
        Map::empty()
    } else {
        entries(list, n - 1).insert(
            list[n - 1].0,
            entry(list[n - 1].1, size_before(list, n - 1)),
        )
    }
}

/// The header.
pub open spec fn header(key: Seq<char>, list: Seq<Named>) -> json::Tree {
    json::Tree::Object(
        Map::empty().insert("key"@, json::Tree::Str(key)).insert(
            "tensors"@,
            json::Tree::Object(entries(list, list.len() as int)),
        ),
    )
}

/// The header's bytes.
pub open spec fn header_text(key: Seq<char>, list: Seq<Named>) -> Seq<u8> {
    encode_utf8(json::json_print(header(key, list)))
}

/// The file's bytes.
pub open spec fn file_bytes(key: Seq<char>, list: Seq<Named>) -> Seq<u8> {
    bytes::le_bytes(header_text(key, list).len(), 8) + header_text(key, list) + payloads(
        list,
        list.len() as int,
    )
}

/// Where the tensors' bytes start.
pub open spec fn data_start(b: Seq<u8>) -> int {
    8int + bytes::le(b.take(8))
}

/// What a header says of a tensor: its form, its size, and where its bytes start and how many there
/// are.
pub open spec fn place_of(t: json::Tree) -> Option<(Seq<char>, usize, usize, u64, u64)> {
    match (
        json::str_of(json::member(t, "kind"@)),
        json::uint_of(json::member(t, "n"@)),
        json::uint_of(json::member(t, "k"@)),
        json::uint_of(json::member(t, "off"@)),
        json::uint_of(json::member(t, "len"@)),
    ) {
        (Some(kind), Some(n), Some(k), Some(off), Some(len)) => Some(
            (kind, n as usize, k as usize, off, len),
        ),
        _ => None,
    }
}

/// The weights that a header's entry places in the file.
pub open spec fn stored_at(b: Seq<u8>, t: json::Tree) -> Option<weight::Stored> {
    match place_of(t) {
        Some((kind, n, k, off, len)) => {
            let start = data_start(b) + off;
            if start + len <= b.len() {
                weight::restored(weight::format_of(kind), n, k, b.subrange(start, start + len))
            } else {
                None
            }
        },
        None => None,
    }
}

/// The tensors that a file's header lists, if the file has a header with that key.
pub open spec fn listed(b: Seq<u8>, key: Seq<char>) -> Option<Map<Seq<char>, json::Tree>> {
    if b.len() >= 8 && data_start(b) <= b.len() {
        match json::json_read(b.subrange(8, data_start(b))) {
            Ok(t) => if json::str_of(json::member(t, "key"@)) == Some(key) {
                json::members_of(json::member(t, "tensors"@))
            } else {
                None
            },
            Err(_) => None,
        }
    } else {
        None
    }
}

/// Every tensor can be read.
pub open spec fn all_stored(b: Seq<u8>, m: Map<Seq<char>, json::Tree>) -> bool {
    forall|k: Seq<char>| #[trigger] m.contains_key(k) ==> stored_at(b, m[k]) is Some
}

/// The weights that a file holds under that key.
pub open spec fn cached(b: Seq<u8>, key: Seq<char>) -> Option<Map<Seq<char>, weight::Stored>> {
    match listed(b, key) {
        Some(m) => if all_stored(b, m) {
            Some(Map::new(|k: Seq<char>| m.contains_key(k), |k: Seq<char>| stored_at(b, m[k])->0))
        } else {
            None
        },
        None => None,
    }
}

/// The weights by name.
pub open spec fn by_name(list: Seq<Named>, n: int) -> Map<Seq<char>, weight::Stored>
    decreases n,
{
    if n <= 0 {
        Map::empty()
    } else {
        by_name(list, n - 1).insert(list[n - 1].0, list[n - 1].1)
    }
}

/// No name occurs twice, and there is a code for every weight.
pub open spec fn proper(list: Seq<Named>) -> bool {
    &&& forall|i: int, j: int|
        0 <= i < j < list.len() ==> (#[trigger] list[i]).0 != (#[trigger] list[j]).0
    &&& forall|i: int|
        0 <= i < list.len() ==> (#[trigger] list[i]).1.wf() && list[i].1.rows() * list[i].1.cols()
            <= usize::MAX
}

/// The weights of a file, to be taken out one by one.
pub struct WeightCache {
    index: StringHashMap<usize>,
    slots: Vec<Option<Weight>>,
}

impl WeightCache {
    /// Every name has a slot of its own.
    pub closed spec fn wf(&self) -> bool {
        &&& forall|k: Seq<char>| #[trigger]
            self.index@.contains_key(k) ==> self.index@[k] < self.slots@.len()
        &&& forall|a: Seq<char>, b: Seq<char>|
            #![trigger self.index@[a], self.index@[b]]
            self.index@.contains_key(a) && self.index@.contains_key(b) && a != b ==> self.index@[a]
                != self.index@[b]
    }

    /// The weights that are left.
    pub closed spec fn view(&self) -> Map<Seq<char>, weight::Stored> {
        Map::new(
            |k: Seq<char>|
                self.index@.contains_key(k) && self.slots@[self.index@[k] as int] is Some,
            |k: Seq<char>| self.slots@[self.index@[k] as int]->0@,
        )
    }

    /// No weights.
    pub fn new() -> (r: WeightCache)
        ensures
            r.wf(),
            r@ == Map::<Seq<char>, weight::Stored>::empty(),
    {
        let r = WeightCache { index: StringHashMap::new(), slots: Vec::new() };
        assert(r@ =~= Map::<Seq<char>, weight::Stored>::empty());
        r
    }

    /// Adds weights.
    pub fn insert(&mut self, name: String, w: Weight)
        requires
            old(self).wf(),
        ensures
            final(self).wf(),
            final(self)@ == old(self)@.insert(name@, w@),
    {
        let ghost key = name@;
        let ghost stored = w@;
        let at: Option<usize> = match self.index.get(name.as_str()) {
            Some(i) => Some(*i),
            None => None,
        };
        match at {
            Some(i) => {
                self.slots.set(i, Some(w));
            },
            None => {
                let n: usize = self.slots.len();
                self.slots.push(Some(w));
                self.index.insert(name, n);
            },
        }
        proof {
            let now = self@;
            let want = old(self)@.insert(key, stored);
            assert forall|k: Seq<char>| #[trigger] now.contains_key(k) == want.contains_key(k) by {
                if k != key && self.index@.contains_key(k) {
                    assert(self.index@[k] != self.index@[key]);
                    assert(old(self).index@[k] == self.index@[k]);
                }
            }
            assert forall|k: Seq<char>| #[trigger] now.contains_key(k) implies now[k]
                == want[k] by {
                if k != key {
                    assert(self.index@[k] != self.index@[key]);
                    assert(old(self).index@[k] == self.index@[k]);
                }
            }
            assert(now =~= want);
        }
    }

    /// Takes out the weights of that name.
    pub fn take(&mut self, name: &str) -> (r: Option<Weight>)
        requires
            old(self).wf(),
        ensures
            final(self).wf(),
            match r {
                Some(w) => old(self)@.contains_key(name@) && old(self)@[name@] == w@,
                None => !old(self)@.contains_key(name@),
            },
            final(self)@ == old(self)@.remove(name@),
    {
        let at: usize = match self.index.get(name) {
            Some(i) => *i,
            None => {
                assert(self@.remove(name@) =~= self@);
                return None;
            },
        };
        let w: Option<Weight> = self.slots[at].take();
        proof {
            let now = self@;
            let want = old(self)@.remove(name@);
            assert forall|k: Seq<char>| #[trigger] now.contains_key(k) == want.contains_key(k) by {
                if k != name@ && self.index@.contains_key(k) {
                    assert(self.index@[k] != self.index@[name@]);
                }
            }
            assert forall|k: Seq<char>| #[trigger] now.contains_key(k) implies now[k]
                == want[k] by {
                assert(k != name@);
                assert(self.index@[k] != self.index@[name@]);
            }
            assert(now =~= want);
        }
        w
    }
}

/// `got` are the weights of the members `seen` so far; what cannot be read among them is replaced by
/// something that can in `whole`.
spec fn partly_read(
    got: Map<Seq<char>, weight::Stored>,
    b: Seq<u8>,
    seen: Map<Seq<char>, json::Tree>,
    whole: Map<Seq<char>, json::Tree>,
) -> bool {
    &&& forall|k: Seq<char>| #[trigger] got.contains_key(k) ==> seen.contains_key(k)
    &&& forall|k: Seq<char>| #[trigger]
        seen.contains_key(k) ==> match stored_at(b, seen[k]) {
            Some(w) => got.contains_key(k) && got[k] == w,
            None => whole.contains_key(k) && stored_at(b, whole[k]) is Some,
        }
}

/// Reads the weights that a header's entry places in the file. `start` is where the tensors' bytes
/// start.
fn read_entry(b: &[u8], start: usize, t: &Json) -> (r: Option<Weight>)
    requires
        start == data_start(b@),
        start <= b@.len(),
    ensures
        match r {
            Some(w) => stored_at(b@, t.tree()) == Some(w@),
            None => stored_at(b@, t.tree()) is None,
        },
{
    let kind = match t.text("kind") {
        Some(k) => k,
        None => {
            return None;
        },
    };
    match (t.uint("n"), t.uint("k"), t.uint("off"), t.uint("len")) {
        (Some(n), Some(k), Some(off), Some(len)) => {
            let room: u64 = (b.len() - start) as u64;
            if off > room || len > room - off {
                return None;
            }
            let from: usize = start + off as usize;
            let part = slice_subrange(b, from, from + len as usize);
            Weight::from_cache(kind.as_str(), n as usize, k as usize, part)
        },
        _ => None,
    }
}

/// The weights that the file `b` holds under that key; `None` where it holds none, or something in it
/// cannot be read.
pub fn read(b: &[u8], key: &str) -> (r: Option<WeightCache>)
    ensures
        match r {
            Some(c) => c.wf() && cached(b@, key@) == Some(c@),
            None => cached(b@, key@) is None,
        },
{
    if b.len() < 8 {
        return None;
    }
    let len: u64 = <u64 as Element>::read(b, 0);
    proof {
        assert(b@.subrange(0, 8) =~= b@.take(8));
        bytes::lemma_le_range(b@.take(8));
        reveal_with_fuel(bytes::range, 9);
    }
    if len > (b.len() - 8) as u64 {
        return None;
    }
    let start: usize = 8 + len as usize;
    let part = slice_subrange(b, 8, start);
    let head: Json = match json::read(part) {
        Ok(h) => h,
        Err(_) => {
            return None;
        },
    };
    match head.text("key") {
        Some(k) => {
            if !text::same(k.as_str(), key) {
                return None;
            }
        },
        None => {
            return None;
        },
    }
    let tensors = match head.get("tensors") {
        Some(t) => t,
        None => {
            return None;
        },
    };
    let o = match tensors {
        Json::Object(o) => o,
        _ => {
            return None;
        },
    };
    let ghost whole = json::members(o@);
    assert(listed(b@, key@) == Some(whole));
    let mut out: WeightCache = WeightCache::new();
    for i in 0..o.len()
        invariant
            start == data_start(b@),
            start <= b@.len(),
            listed(b@, key@) == Some(whole),
            tensors.tree() == json::Tree::Object(whole),
            whole == json::members(o@),
            out.wf(),
            partly_read(out@, b@, json::members(o@.take(i as int)), whole),
    {
        let ghost seen = json::members(o@.take(i as int)).insert(
            o@[i as int].0@,
            o@[i as int].1.tree(),
        );
        proof {
            assert(o@.take(i + 1) =~= o@.take(i as int).push(o@[i as int]));
            json::members_push(o@.take(i as int), o@[i as int]);
        }
        match read_entry(b, start, &o[i].1) {
            Some(w) => {
                out.insert(o[i].0.clone(), w);
            },
            None => {
                let replaced: bool = match tensors.get(o[i].0.as_str()) {
                    Some(t) => read_entry(b, start, t).is_some(),
                    None => false,
                };
                if !replaced {
                    proof {
                        json::lemma_member_stays(o@, i as int);
                        assert(whole.contains_key(o@[i as int].0@));
                    }
                    return None;
                }
            },
        }
        assert(partly_read(out@, b@, seen, whole));
    }
    proof {
        assert(o@.take(o@.len() as int) =~= o@);
        assert(partly_read(out@, b@, whole, whole));
        assert(all_stored(b@, whole));
        assert(out@ =~= cached(b@, key@)->0);
    }
    Some(out)
}

/// The header's entry of a tensor.
fn make_entry(kind: &str, n: usize, k: usize, off: u64, len: usize) -> (r: Json)
    ensures
        r.tree() == json::Tree::Object(
            Map::empty().insert("kind"@, json::Tree::Str(kind@)).insert(
                "n"@,
                json::Tree::UInt(n as u64),
            ).insert("k"@, json::Tree::UInt(k as u64)).insert(
                "off"@,
                json::Tree::UInt(off),
            ).insert("len"@, json::Tree::UInt(len as u64)),
        ),
{
    let mut o: Vec<(String, Json)> = Vec::new();
    json::push_member(&mut o, "kind", Json::Str(kind.to_string()));
    json::push_member(&mut o, "n", Json::UInt(n as u64));
    json::push_member(&mut o, "k", Json::UInt(k as u64));
    json::push_member(&mut o, "off", Json::UInt(off));
    json::push_member(&mut o, "len", Json::UInt(len as u64));
    Json::Object(o)
}

/// The bytes of payloads, one behind the other.
pub open spec fn concat(s: Seq<Vec<u8>>) -> Seq<u8>
    decreases s.len(),
{
    if s.len() == 0 {
        seq![]
    } else {
        concat(s.drop_last()) + s.last()@
    }
}

/// The file that keeps weights under a key: its first bytes, and the bytes of each tensor, which
/// follow in order. Where no name occurs twice, the file holds exactly these weights.
pub fn encode(key: &str, weights: &Vec<(String, &Weight)>) -> (r: (Vec<u8>, Vec<Vec<u8>>))
    requires
        size_before(named(weights@), weights@.len() as int) <= u64::MAX,
    ensures
        r.0@ + concat(r.1@) == file_bytes(key@, named(weights@)),
        proper(named(weights@)) ==> cached(file_bytes(key@, named(weights@)), key@) == Some(
            by_name(named(weights@), weights@.len() as int),
        ),
{
    let ghost list = named(weights@);
    let mut tensors: Vec<(String, Json)> = Vec::new();
    let mut parts: Vec<Vec<u8>> = Vec::new();
    let mut off: u64 = 0;
    for i in 0..weights.len()
        invariant
            list == named(weights@),
            size_before(list, weights@.len() as int) <= u64::MAX,
            off == size_before(list, i as int),
            json::members(tensors@) == entries(list, i as int),
            concat(parts@) == payloads(list, i as int),
    {
        let (kind, n, k, b) = weights[i].1.to_cache();
        assert(list[i as int] == (weights@[i as int].0@, weights@[i as int].1@));
        proof {
            lemma_sizes_grow(list, i + 1, weights@.len() as int);
        }
        let e: Json = make_entry(kind, n, k, off, b.len());
        assert(e.tree() == entry(list[i as int].1, off as int)) by {
            reveal(entry);
        }
        json::push_member(&mut tensors, weights[i].0.as_str(), e);
        off = off + b.len() as u64;
        assert(parts@.push(b).drop_last() =~= parts@);
        parts.push(b);
    }
    let mut o: Vec<(String, Json)> = Vec::new();
    json::push_member(&mut o, "key", Json::Str(key.to_string()));
    json::push_member(&mut o, "tensors", Json::Object(tensors));
    let h: Json = Json::Object(o);
    assert(h.tree() == header(key@, list));
    let s: String = h.print();
    let t = s.as_str().as_bytes();
    let mut head: Vec<u8> = Vec::new();
    (t.len() as u64).write(&mut head);
    let mut rest: Vec<u8> = slice_to_vec(t);
    head.append(&mut rest);
    proof {
        assert(t@ == header_text(key@, list));
        assert(head@ =~= bytes::le_bytes(t@.len(), 8) + t@);
        if proper(list) {
            lemma_header_simple(key@, list);
            file_holds_weights(key@, list);
        }
    }
    (head, parts)
}

/// Sizes add up.
proof fn lemma_sizes_grow(list: Seq<Named>, i: int, j: int)
    requires
        0 <= i <= j,
    ensures
        size_before(list, i) <= size_before(list, j),
    decreases j - i,
{
    if i < j {
        lemma_sizes_grow(list, i, j - 1);
    }
}

/// A header holds texts and integers, three levels deep.
proof fn lemma_header_simple(key: Seq<char>, list: Seq<Named>)
    ensures
        json::simple(header(key, list), json::DEPTH as nat),
{
    let m = entries(list, list.len() as int);
    lemma_entries_simple(list, list.len() as int);
    assert(json::simple(json::Tree::Object(m), (json::DEPTH - 1) as nat));
    reveal_with_fuel(json::simple, 2);
}

/// Entries hold texts and integers.
proof fn lemma_entries_simple(list: Seq<Named>, n: int)
    ensures
        forall|k: Seq<char>| #[trigger]
            entries(list, n).contains_key(k) ==> json::simple(
                entries(list, n)[k],
                (json::DEPTH - 2) as nat,
            ),
    decreases n,
{
    if n > 0 {
        lemma_entries_simple(list, n - 1);
        assert(json::simple(
            entry(list[n - 1].1, size_before(list, n - 1)),
            (json::DEPTH - 2) as nat,
        )) by {
            reveal(entry);
            reveal_with_fuel(json::simple, 2);
        }
        assert forall|k: Seq<char>| #[trigger] entries(list, n).contains_key(
            k,
        ) implies json::simple(entries(list, n)[k], (json::DEPTH - 2) as nat) by {
            if k != list[n - 1].0 {
                assert(entries(list, n - 1).contains_key(k));
            }
        }
    }
}

/// The bytes of tensor `i`.
proof fn lemma_payload_at(list: Seq<Named>, n: int, i: int)
    requires
        0 <= i < n <= list.len(),
    ensures
        0 <= size_before(list, i),
        payloads(list, n).len() == size_before(list, n),
        size_before(list, i + 1) <= size_before(list, n),
        payloads(list, n).subrange(size_before(list, i), size_before(list, i + 1))
            == list[i].1.payload(),
    decreases n,
{
    lemma_sizes_grow(list, 0, i);
    lemma_sizes_grow(list, i + 1, n);
    if n > 1 {
        lemma_payload_at(list, n - 1, if i < n - 1 {
            i
        } else {
            0
        });
    } else {
        assert(payloads(list, 0).len() == 0);
    }
    if i < n - 1 {
        assert(payloads(list, n).subrange(size_before(list, i), size_before(list, i + 1))
            =~= payloads(list, n - 1).subrange(size_before(list, i), size_before(list, i + 1)));
    } else {
        assert(payloads(list, n).subrange(size_before(list, i), size_before(list, i + 1))
            =~= list[i].1.payload());
    }
}

/// The entry of each tensor is found under its name.
proof fn lemma_entry_at(list: Seq<Named>, n: int)
    requires
        proper(list),
        0 <= n <= list.len(),
    ensures
        forall|i: int|
            0 <= i < n ==> entries(list, n).contains_key((#[trigger] list[i]).0) && entries(
                list,
                n,
            )[list[i].0] == entry(list[i].1, size_before(list, i)) && by_name(
                list,
                n,
            ).contains_key(list[i].0) && by_name(list, n)[list[i].0] == list[i].1,
        forall|k: Seq<char>| #[trigger]
            entries(list, n).contains_key(k) ==> exists|i: int|
                0 <= i < n && (#[trigger] list[i]).0 == k,
        forall|k: Seq<char>| #[trigger]
            by_name(list, n).contains_key(k) ==> exists|i: int|
                0 <= i < n && (#[trigger] list[i]).0 == k,
    decreases n,
{
    if n > 0 {
        lemma_entry_at(list, n - 1);
        let e = entries(list, n);
        assert forall|i: int| 0 <= i < n implies e.contains_key((#[trigger] list[i]).0)
            && e[list[i].0] == entry(list[i].1, size_before(list, i)) && by_name(
            list,
            n,
        ).contains_key(list[i].0) && by_name(list, n)[list[i].0] == list[i].1 by {
            if i < n - 1 {
                assert(list[i].0 != list[n - 1].0);
            }
        }
        assert forall|k: Seq<char>| #[trigger] e.contains_key(k) implies exists|i: int|
            0 <= i < n && (#[trigger] list[i]).0 == k by {
            if k == list[n - 1].0 {
            } else {
                assert(entries(list, n - 1).contains_key(k));
            }
        }
        assert forall|k: Seq<char>| #[trigger] by_name(list, n).contains_key(k) implies exists|
            i: int,
        |
            0 <= i < n && (#[trigger] list[i]).0 == k by {
            if k == list[n - 1].0 {
            } else {
                assert(by_name(list, n - 1).contains_key(k));
            }
        }
    }
}

/// What an entry says is read back.
proof fn lemma_place(w: weight::Stored, off: int)
    requires
        0 <= off <= u64::MAX,
        w.payload().len() <= u64::MAX,
    ensures
        place_of(entry(w, off)) == Some(
            (
                weight::format_name(w.format()),
                w.rows(),
                w.cols(),
                off as u64,
                w.payload().len() as u64,
            ),
        ),
{
    reveal(entry);
    reveal_strlit("kind");
    reveal_strlit("n");
    reveal_strlit("k");
    reveal_strlit("off");
    reveal_strlit("len");
    assert("kind"@.len() == 4 && "n"@.len() == 1 && "k"@.len() == 1 && "off"@.len() == 3
        && "len"@.len() == 3);
    assert("n"@[0] != "k"@[0]);
    assert("off"@[0] != "len"@[0]);
}

/// The file that keeps weights under a key holds exactly those weights, as long as its header is
/// read back.
pub proof fn file_holds_weights(key: Seq<char>, list: Seq<Named>)
    requires
        proper(list),
        size_before(list, list.len() as int) <= u64::MAX,
        header_text(key, list).len() <= u64::MAX,
        json::reads_as(header_text(key, list), header(key, list)),
    ensures
        cached(file_bytes(key, list), key) == Some(by_name(list, list.len() as int)),
{
    let b = file_bytes(key, list);
    let text = header_text(key, list);
    let n = list.len() as int;
    let m = entries(list, n);
    reveal_with_fuel(bytes::range, 9);
    bytes::bytes_write_number(text.len(), 8);
    let first = bytes::le_bytes(text.len(), 8);
    assert(b.take(8) =~= first);
    assert(data_start(b) == 8 + text.len());
    assert(b.subrange(8, data_start(b)) =~= text);
    reveal_strlit("key");
    reveal_strlit("tensors");
    assert("key"@.len() == 3 && "tensors"@.len() == 7);
    assert(listed(b, key) == Some(m));
    lemma_entry_at(list, n);
    assert forall|k: Seq<char>| #[trigger] m.contains_key(k) implies stored_at(b, m[k]) == Some(
        by_name(list, n)[k],
    ) by {
        let i = choose|i: int| 0 <= i < n && (#[trigger] list[i]).0 == k;
        let w = list[i].1;
        let off = size_before(list, i);
        lemma_payload_at(list, n, i);
        lemma_place(w, off);
        let start = data_start(b) + off;
        assert(b.subrange(start, start + w.payload().len()) =~= payloads(list, n).subrange(
            off,
            size_before(list, i + 1),
        ));
        weight::cached_weights_come_back(w);
    }
    assert(all_stored(b, m));
    assert(cached(b, key)->0 =~= by_name(list, n));
}

/// A file that does not hold a checkpoint counts for nothing in the key, however it changes: only
/// tensor files and the configuration do.
pub proof fn other_files_do_not_count(e: files::Listed)
    requires
        !files::ends_with(e.0, ".safetensors"@),
        e.0 != "config.json"@,
    ensures
        key_part(e).len() == 0,
{
}

/// What the key says of a checkpoint's file tells its length and its time of change.
proof fn lemma_parts_differ(name: Seq<char>, a: (u64, u64), b: (u64, u64))
    requires
        files::ends_with(name, ".safetensors"@) || name == "config.json"@,
        a != b,
    ensures
        key_part((name, Some(a))) != key_part((name, Some(b))),
{
    let (x, y) = (key_part((name, Some(a))), key_part((name, Some(b))));
    let n = name.len() as int + 1;
    let (la, ta) = (text::decimal(a.0 as nat), text::decimal(a.1 as nat));
    let (lb, tb) = (text::decimal(b.0 as nat), text::decimal(b.1 as nat));
    if x == y {
        assert(x.skip(n) =~= la + (seq![':'] + (ta + seq![';'])));
        assert(y.skip(n) =~= lb + (seq![':'] + (tb + seq![';'])));
        lemma_told_apart(a.0 as nat, ':', ta + seq![';'], b.0 as nat, tb + seq![';']);
        assert(ta + seq![';'] =~= ta + (seq![';'] + Seq::<char>::empty()));
        assert(tb + seq![';'] =~= tb + (seq![';'] + Seq::<char>::empty()));
        lemma_told_apart(a.1 as nat, ';', seq![], b.1 as nat, seq![]);
    }
}

/// A number with a mark behind it can be told from what follows.
proof fn lemma_told_apart(a: nat, mark: char, x: Seq<char>, b: nat, y: Seq<char>)
    requires
        !text::is_digit(mark),
        text::decimal(a) + (seq![mark] + x) == text::decimal(b) + (seq![mark] + y),
    ensures
        a == b,
        x == y,
{
    names::decimal_reads_back(a);
    names::decimal_reads_back(b);
    let (da, db) = (text::decimal(a), text::decimal(b));
    let (s, t) = (da + (seq![mark] + x), db + (seq![mark] + y));
    assert(s[da.len() as int] == mark);
    assert(t[db.len() as int] == mark);
    if da.len() < db.len() {
        assert(t[da.len() as int] == db[da.len() as int]);
    }
    if db.len() < da.len() {
        assert(s[db.len() as int] == da[db.len() as int]);
    }
    assert(da =~= db) by {
        assert forall|i: int| 0 <= i < da.len() implies da[i] == db[i] by {
            assert(s[i] == da[i] && t[i] == db[i]);
        }
    }
    assert(s.skip(da.len() as int + 1) =~= x);
    assert(t.skip(db.len() as int + 1) =~= y);
}

/// The key of files, one behind the other.
proof fn lemma_key_splits(s: Seq<files::Listed>, i: int)
    requires
        0 <= i < s.len(),
    ensures
        key_parts(s) == key_parts(s.take(i)) + (key_part(s[i]) + key_parts(s.skip(i + 1))),
    decreases s.len(),
{
    let n = s.len() - 1;
    let p = s.drop_last();
    if i < n {
        lemma_key_splits(p, i);
        assert(p.take(i) =~= s.take(i));
        assert(p.skip(i + 1) =~= s.skip(i + 1).drop_last());
        assert(s.skip(i + 1).last() == s.last());
        assert(key_parts(s) =~= key_parts(s.take(i)) + (key_part(s[i]) + key_parts(
            s.skip(i + 1),
        )));
    } else {
        assert(s.skip(i + 1) =~= Seq::<files::Listed>::empty());
        assert(s.take(i) =~= p);
        assert(key_parts(s) =~= key_parts(s.take(i)) + (key_part(s[i]) + key_parts(
            s.skip(i + 1),
        )));
    }
}

/// A checkpoint of which one file has changed, in length or in time, has another key, so that what was
/// kept of it is not used: `s` are its files by name, and `i` the one that changed.
pub proof fn changes_change_the_key(s: Seq<files::Listed>, i: int, was: (u64, u64), is: (u64, u64))
    requires
        0 <= i < s.len(),
        files::ends_with(s[i].0, ".safetensors"@) || s[i].0 == "config.json"@,
        s[i].1 == Some(was),
        is != was,
    ensures
        key_parts(s.update(i, (s[i].0, Some(is)))) != key_parts(s),
{
    let t = s.update(i, (s[i].0, Some(is)));
    lemma_key_splits(s, i);
    lemma_key_splits(t, i);
    lemma_parts_differ(s[i].0, was, is);
    assert(t.take(i) =~= s.take(i));
    assert(t.skip(i + 1) =~= s.skip(i + 1));
    let (a, b) = (key_parts(s.take(i)), key_parts(s.skip(i + 1)));
    let (x, y) = (key_part(s[i]), key_part(t[i]));
    if key_parts(s) == key_parts(t) {
        assert((a + (x + b)).len() == (a + (y + b)).len());
        assert((a + (x + b)).subrange(a.len() as int, (a.len() + x.len()) as int) =~= x);
        assert((a + (y + b)).subrange(a.len() as int, (a.len() + x.len()) as int) =~= y);
    }
}

/// Weights that are kept in one form are not used where another is asked for.
pub proof fn forms_have_their_own_keys(
    a: Seq<char>,
    b: Seq<char>,
    s: Seq<files::Listed>,
    t: Seq<files::Listed>,
)
    requires
        a != b,
        !a.contains('|'),
        !b.contains('|'),
    ensures
        key_of(a, s) != key_of(b, t),
        path_name(seq![], a) != path_name(seq![], b),
{
    let (x, y) = (key_of(a, s), key_of(b, t));
    let n = "v1|"@.len() as int;
    if x == y {
        let (p, q) = (a.len() as int, b.len() as int);
        assert(x[n + p] == '|' && y[n + q] == '|');
        if p < q {
            assert(y[n + p] == b[p]);
        }
        if q < p {
            assert(x[n + q] == a[q]);
        }
        assert(x.subrange(n, n + p) =~= a);
        assert(y.subrange(n, n + q) =~= b);
    }
    let (x, y) = (path_name(seq![], a), path_name(seq![], b));
    let n = "/.llmfast-cache-"@.len() as int;
    assert(x.len() == n + a.len() + ".bin"@.len());
    assert(y.len() == n + b.len() + ".bin"@.len());
    if x == y {
        assert(a.len() == b.len());
        assert(x.subrange(n, n + a.len()) =~= a);
        assert(y.subrange(n, n + b.len()) =~= b);
    }
}

/// A file that was written for another key is not used.
pub proof fn other_keys_are_refused(key: Seq<char>, other: Seq<char>, b: Seq<u8>)
    requires
        key != other,
        cached(b, key) is Some,
    ensures
        cached(b, other) is None,
{
}

/// The file begins with the length of its header in eight bytes, low byte first; then come the header
/// and, one behind the other, the tensors.
pub proof fn files_are_laid_out(key: Seq<char>, list: Seq<Named>, i: int)
    requires
        0 <= i < list.len(),
        header_text(key, list).len() <= u64::MAX,
    ensures
        ({
            let b = file_bytes(key, list);
            let head = encode_utf8(json::json_print(header(key, list)));
            let at = 8 + head.len() + size_before(list, i);
            &&& bytes::le(b.take(8)) == head.len()
            &&& b.subrange(8, 8 + head.len() as int) == head
            &&& b.subrange(at, at + list[i].1.payload().len()) == list[i].1.payload()
            &&& size_before(list, 0) == 0
            &&& size_before(list, i + 1) == size_before(list, i) + list[i].1.payload().len()
        }),
{
    let b = file_bytes(key, list);
    let head = header_text(key, list);
    reveal_with_fuel(bytes::range, 9);
    bytes::bytes_write_number(head.len(), 8);
    let first = bytes::le_bytes(head.len(), 8);
    assert(b.take(8) =~= first);
    assert(b.subrange(8, 8 + head.len() as int) =~= head);
    let n = list.len() as int;
    lemma_payload_at(list, n, i);
    let at = 8 + head.len() + size_before(list, i);
    assert(b.subrange(at, at + list[i].1.payload().len()) =~= payloads(list, n).subrange(
        size_before(list, i),
        size_before(list, i + 1),
    ));
}

/// The key does not depend on the order in which the directory lists its files.
pub proof fn listing_order_does_not_count(
    quant: Seq<char>,
    s: Seq<files::Listed>,
    t: Seq<files::Listed>,
)
    requires
        s.to_multiset() == t.to_multiset(),
        files::named_once(s),
    ensures
        key_of(quant, s) == key_of(quant, t),
{
    files::listings_sort_alike(s, t);
}

/// The header names the parts of a tensor's place: its form, its rows and columns, where its bytes start
/// behind the header and how many there are.
pub proof fn headers_name_their_parts(w: weight::Stored, off: int, key: Seq<char>, list: Seq<Named>)
    requires
        0 <= off <= u64::MAX,
        w.payload().len() <= u64::MAX,
    ensures
        ({
            let e = entry(w, off);
            &&& json::member(e, "kind"@) == Some(json::Tree::Str(weight::format_name(w.format())))
            &&& json::member(e, "n"@) == Some(json::Tree::UInt(w.rows() as u64))
            &&& json::member(e, "k"@) == Some(json::Tree::UInt(w.cols() as u64))
            &&& json::member(e, "off"@) == Some(json::Tree::UInt(off as u64))
            &&& json::member(e, "len"@) == Some(json::Tree::UInt(w.payload().len() as u64))
        }),
        json::member(header(key, list), "key"@) == Some(json::Tree::Str(key)),
        json::member(header(key, list), "tensors"@) == Some(
            json::Tree::Object(entries(list, list.len() as int)),
        ),
{
    reveal(entry);
    reveal_strlit("kind");
    reveal_strlit("n");
    reveal_strlit("k");
    reveal_strlit("off");
    reveal_strlit("len");
    reveal_strlit("key");
    reveal_strlit("tensors");
    assert("kind"@.len() == 4 && "n"@.len() == 1 && "k"@.len() == 1 && "off"@.len() == 3
        && "len"@.len() == 3 && "key"@.len() == 3 && "tensors"@.len() == 7);
    assert("n"@[0] != "k"@[0]);
    assert("off"@[0] != "len"@[0]);
}

} // verus!
