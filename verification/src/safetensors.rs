//! Checkpoint files: eight little-endian bytes give the length of a JSON header, the header gives
//! each tensor's type, shape and place, and the tensors' bytes follow.

use vstd::hash_map::*;
use vstd::prelude::*;
use vstd::slice::*;
use vstd::string::*;

use crate::bytes;
use crate::json;
use crate::json::Json;
use crate::kernels;
use crate::text;

verus! {

/// Where a tensor lies.
#[derive(Debug)]
pub struct TensorInfo {
    pub dtype: String,
    pub shape: Vec<usize>,
    /// First byte, counted from the start of the shard's data.
    pub start: usize,
    /// One past the last byte.
    pub end: usize,
    pub shard: usize,
}

/// What a [`TensorInfo`] says.
#[verifier::ext_equal]
pub ghost struct Info {
    pub dtype: Seq<char>,
    pub shape: Seq<usize>,
    pub start: usize,
    pub end: usize,
    pub shard: usize,
}

impl TensorInfo {
    /// What it says.
    pub open spec fn view(&self) -> Info {
        Info {
            dtype: self.dtype@,
            shape: self.shape@,
            start: self.start,
            end: self.end,
            shard: self.shard,
        }
    }

    /// A copy.
    pub fn duplicate(&self) -> (r: TensorInfo)
        ensures
            r@ == self@,
    {
        TensorInfo {
            dtype: self.dtype.clone(),
            shape: slice_to_vec(self.shape.as_slice()),
            start: self.start,
            end: self.end,
            shard: self.shard,
        }
    }
}

/// The tensors of a checkpoint, over the bytes of its files.
pub struct SafeTensors<'a> {
    shards: Vec<(&'a [u8], usize)>,
    tensors: StringHashMap<TensorInfo>,
    listed: Vec<String>,
}

/// What a [`SafeTensors`] holds: each file's bytes with the place where its data starts, and each
/// tensor's place.
#[verifier::ext_equal]
pub ghost struct Checkpoint {
    pub shards: Seq<(Seq<u8>, int)>,
    pub tensors: Map<Seq<char>, Info>,
}

/// Why a file cannot be used.
#[derive(Debug)]
pub enum ShardError {
    /// The file ends before its header does.
    Short,
    /// The header is no JSON document; the reader's message.
    Json(String),
    /// The header is no object, or a tensor lacks its type, shape or place.
    Header,
}

/// Why a tensor cannot be read.
#[derive(Debug)]
pub enum TensorError {
    /// There is no such tensor.
    Missing,
    /// The tensor is of another type.
    Type,
    /// The tensor lies outside its file.
    Bounds,
}

/// Whole numbers cut to machine words.
pub open spec fn sizes_of(items: Seq<json::Tree>) -> Option<Seq<usize>> {
    if forall|i: int| 0 <= i < items.len() ==> (#[trigger] items[i]) is UInt {
        Some(items.map_values(|t: json::Tree| t->UInt_0 as usize))
    } else {
        None
    }
}

/// What a header says of a tensor.
pub open spec fn entry(t: json::Tree, shard: usize) -> Option<Info> {
    match (
        json::items_of(json::member(t, "data_offsets"@)),
        json::str_of(json::member(t, "dtype"@)),
        json::items_of(json::member(t, "shape"@)),
    ) {
        (Some(off), Some(dtype), Some(dims)) => match sizes_of(dims) {
            Some(shape) => if off.len() >= 2 && off[0] is UInt && off[1] is UInt {
                Some(
                    Info {
                        dtype,
                        shape,
                        start: off[0]->UInt_0 as usize,
                        end: off[1]->UInt_0 as usize,
                        shard,
                    },
                )
            } else {
                None
            },
            None => None,
        },
        _ => None,
    }
}

/// The member that is no tensor.
pub open spec fn is_tensor(name: Seq<char>) -> bool {
    name != "__metadata__"@
}

/// Every tensor of a header has its type, shape and place.
pub open spec fn all_entries(m: Map<Seq<char>, json::Tree>) -> bool {
    forall|k: Seq<char>| #[trigger]
        m.contains_key(k) && is_tensor(k) ==> entry(m[k], 0) is Some
}

/// The tensors with those of a header added.
pub open spec fn with_entries(
    tensors: Map<Seq<char>, Info>,
    m: Map<Seq<char>, json::Tree>,
    shard: usize,
) -> Map<Seq<char>, Info> {
    Map::new(
        |k: Seq<char>| tensors.contains_key(k) || (m.contains_key(k) && is_tensor(k)),
        |k: Seq<char>|
            if m.contains_key(k) && is_tensor(k) {
                entry(m[k], shard)->0
            } else {
                tensors[k]
            },
    )
}

/// Length of the header.
pub open spec fn header_len(b: Seq<u8>) -> int {
    bytes::le(b.take(8)) as int
}

/// The file holds its header.
pub open spec fn holds_header(b: Seq<u8>) -> bool {
    b.len() >= 8 && 8 + header_len(b) <= b.len()
}

/// The header's bytes.
pub open spec fn header_bytes(b: Seq<u8>) -> Seq<u8> {
    b.subrange(8, 8 + header_len(b))
}

/// The checkpoint with a file added.
pub open spec fn with_shard(
    c: Checkpoint,
    b: Seq<u8>,
    m: Map<Seq<char>, json::Tree>,
) -> Checkpoint {
    Checkpoint {
        shards: c.shards.push((b, 8 + header_len(b))),
        tensors: with_entries(c.tensors, m, c.shards.len() as usize),
    }
}

/// Reads whole numbers.
fn read_sizes(a: &Vec<Json>) -> (r: Option<Vec<usize>>)
    ensures
        match r {
            Some(v) => sizes_of(json::trees(a@)) == Some(v@),
            None => sizes_of(json::trees(a@)) is None,
        },
{
    let ghost all = json::trees(a@);
    proof {
        json::trees_items(a@);
    }
    let mut out: Vec<usize> = Vec::new();
    for i in 0..a.len()
        invariant
            all == json::trees(a@),
            all.len() == a@.len(),
            forall|k: int| 0 <= k < a@.len() ==> #[trigger] all[k] == a@[k].tree(),
            out@.len() == i,
            forall|k: int| 0 <= k < i ==> (#[trigger] all[k]) is UInt,
            forall|k: int| 0 <= k < i ==> #[trigger] out@[k] == all[k]->UInt_0 as usize,
    {
        assert(all[i as int] == a@[i as int].tree());
        match a[i].as_uint() {
            Some(u) => {
                out.push(u as usize);
            },
            None => {
                assert(!(all[i as int] is UInt));
                return None;
            },
        }
    }
    assert(out@ =~= all.map_values(|t: json::Tree| t->UInt_0 as usize));
    Some(out)
}

/// Reads what a header says of a tensor.
fn read_entry(t: &Json, shard: usize) -> (r: Option<TensorInfo>)
    ensures
        match r {
            Some(i) => entry(t.tree(), shard) == Some(i@),
            None => entry(t.tree(), shard) is None,
        },
{
    match (t.items("data_offsets"), t.text("dtype"), t.items("shape")) {
        (Some(off), Some(dtype), Some(dims)) => {
            proof {
                json::trees_items(off@);
            }
            match read_sizes(dims) {
                Some(shape) => {
                    if off.len() < 2 {
                        return None;
                    }
                    assert(json::trees(off@)[0] == off@[0].tree());
                    assert(json::trees(off@)[1] == off@[1].tree());
                    match (off[0].as_uint(), off[1].as_uint()) {
                        (Some(a), Some(b)) => {
                            let i = TensorInfo {
                                dtype: dtype.clone(),
                                shape,
                                start: a as usize,
                                end: b as usize,
                                shard,
                            };
                            Some(i)
                        },
                        _ => None,
                    }
                },
                None => None,
            }
        },
        _ => None,
    }
}

/// Whether a tensor is described does not depend on its file's number.
proof fn lemma_entry_shard(t: json::Tree, a: usize, b: usize)
    ensures
        entry(t, a) is Some == entry(t, b) is Some,
{
}

/// `got` are the tensors of the members `seen` so far; what is no tensor among them is replaced by
/// one in `whole`.
spec fn partly_read(
    got: Map<Seq<char>, Info>,
    base: Map<Seq<char>, Info>,
    seen: Map<Seq<char>, json::Tree>,
    whole: Map<Seq<char>, json::Tree>,
    shard: usize,
) -> bool {
    &&& forall|k: Seq<char>| #[trigger]
        got.contains_key(k) ==> base.contains_key(k) || (seen.contains_key(k) && is_tensor(k))
    &&& forall|k: Seq<char>| #[trigger] base.contains_key(k) ==> got.contains_key(k)
    &&& forall|k: Seq<char>|
        #![trigger seen.contains_key(k)]
        seen.contains_key(k) && is_tensor(k) ==> match entry(seen[k], shard) {
            Some(i) => got.contains_key(k) && got[k] == i,
            None => whole.contains_key(k) && entry(whole[k], shard) is Some,
        }
    &&& forall|k: Seq<char>| #[trigger]
        base.contains_key(k) && !(seen.contains_key(k) && is_tensor(k)) ==> got[k] == base[k]
}

/// A description as spec value.
pub open spec fn infos(m: Map<Seq<char>, TensorInfo>) -> Map<Seq<char>, Info> {
    m.map_values(|i: TensorInfo| i@)
}

/// The tensors with those of a list added.
spec fn inserted(
    base: Map<Seq<char>, Info>,
    list: Seq<(String, TensorInfo)>,
) -> Map<Seq<char>, Info>
    decreases list.len(),
{
    if list.len() == 0 {
        base
    } else {
        inserted(base, list.drop_last()).insert(list.last().0@, list.last().1@)
    }
}

/// Reads the tensors that a header lists; `None` where one lacks its type, shape or place.
fn read_entries(
    header: &Json,
    o: &Vec<(String, Json)>,
    shard: usize,
    Ghost(base): Ghost<Map<Seq<char>, Info>>,
) -> (r: Option<Vec<(String, TensorInfo)>>)
    requires
        header.tree() == json::Tree::Object(json::members(o@)),
    ensures
        match r {
            Some(list) => {
                &&& all_entries(json::members(o@))
                &&& inserted(base, list@) == with_entries(base, json::members(o@), shard)
            },
            None => !all_entries(json::members(o@)),
        },
{
    let ghost whole = json::members(o@);
    let mut list: Vec<(String, TensorInfo)> = Vec::new();
    for i in 0..o.len()
        invariant
            header.tree() == json::Tree::Object(whole),
            whole == json::members(o@),
            partly_read(
                inserted(base, list@),
                base,
                json::members(o@.take(i as int)),
                whole,
                shard,
            ),
    {
        let ghost before = json::members(o@.take(i as int));
        let ghost got = inserted(base, list@);
        let ghost name = o@[i as int].0@;
        let ghost seen = before.insert(name, o@[i as int].1.tree());
        proof {
            assert(o@.take(i + 1) =~= o@.take(i as int).push(o@[i as int]));
            json::members_push(o@.take(i as int), o@[i as int]);
        }
        if !text::same(o[i].0.as_str(), "__metadata__") {
            match read_entry(&o[i].1, shard) {
                Some(info) => {
                    let e: (String, TensorInfo) = (o[i].0.clone(), info);
                    proof {
                        assert(list@.push(e).drop_last() =~= list@);
                    }
                    list.push(e);
                    assert(inserted(base, list@) == got.insert(name, e.1@));
                },
                None => {
                    let replaced: bool = match header.get(o[i].0.as_str()) {
                        Some(t) => read_entry(t, shard).is_some(),
                        None => false,
                    };
                    if !replaced {
                        proof {
                            json::lemma_member_stays(o@, i as int);
                            assert(whole.contains_key(name) && is_tensor(name));
                            lemma_entry_shard(whole[name], shard, 0);
                        }
                        return None;
                    }
                },
            }
        }
        assert(partly_read(inserted(base, list@), base, seen, whole, shard));
    }
    proof {
        assert(o@.take(o@.len() as int) =~= o@);
        let got = inserted(base, list@);
        assert(partly_read(got, base, whole, whole, shard));
        assert forall|k: Seq<char>| #[trigger] whole.contains_key(k) && is_tensor(k) implies entry(
            whole[k],
            0,
        ) is Some by {
            lemma_entry_shard(whole[k], shard, 0);
        }
        assert(got =~= with_entries(base, whole, shard));
    }
    Some(list)
}

impl<'a> SafeTensors<'a> {
    /// What the checkpoint holds.
    pub closed spec fn view(&self) -> Checkpoint {
        Checkpoint {
            shards: self.shards@.map_values(|s: (&'a [u8], usize)| (s.0@, s.1 as int)),
            tensors: infos(self.tensors@),
        }
    }

    /// The listed names are those of the tensors.
    pub closed spec fn wf(&self) -> bool {
        &&& forall|i: int|
            0 <= i < self.listed@.len() ==> self.tensors@.contains_key(
                (#[trigger] self.listed@[i])@,
            )
        &&& forall|k: Seq<char>| #[trigger]
            self.tensors@.contains_key(k) ==> exists|i: int|
                0 <= i < self.listed@.len() && (#[trigger] self.listed@[i])@ == k
    }

    /// A checkpoint without files.
    pub fn new() -> (r: SafeTensors<'a>)
        ensures
            r.wf(),
            r@ == (Checkpoint { shards: seq![], tensors: Map::empty() }),
    {
        let r = SafeTensors {
            shards: Vec::new(),
            tensors: StringHashMap::new(),
            listed: Vec::new(),
        };
        assert(r@.shards =~= seq![]);
        assert(r@.tensors =~= Map::empty());
        r
    }
}

impl<'a> SafeTensors<'a> {
    /// Adds a file, given its bytes.
    pub fn add_shard(&mut self, b: &'a [u8]) -> (r: Result<(), ShardError>)
        requires
            old(self).wf(),
        ensures
            final(self).wf(),
            r is Err ==> final(self)@ == old(self)@,
            if !holds_header(b@) {
                r matches Err(ShardError::Short)
            } else {
                match json::json_read(header_bytes(b@)) {
                    Err(e) => r matches Err(ShardError::Json(m)) && m@ == e,
                    Ok(json::Tree::Object(m)) => if all_entries(m) {
                        r is Ok && final(self)@ == with_shard(old(self)@, b@, m)
                    } else {
                        r matches Err(ShardError::Header)
                    },
                    Ok(_) => r matches Err(ShardError::Header),
                }
            },
    {
        if b.len() < 8 {
            return Err(ShardError::Short);
        }
        let len: u64 = <u64 as bytes::Element>::read(b, 0);
        proof {
            assert(b@.subrange(0, 8) =~= b@.take(8));
            bytes::lemma_le_range(b@.take(8));
            reveal_with_fuel(bytes::range, 9);
        }
        if len > (b.len() - 8) as u64 {
            return Err(ShardError::Short);
        }
        let start: usize = 8 + len as usize;
        let part = slice_subrange(b, 8, start);
        assert(part@ =~= header_bytes(b@));
        let header: Json = match json::read(part) {
            Ok(h) => h,
            Err(e) => {
                return Err(ShardError::Json(e));
            },
        };
        let o = match &header {
            Json::Object(o) => o,
            _ => {
                return Err(ShardError::Header);
            },
        };
        let shard: usize = self.shards.len();
        let ghost base = self@.tensors;
        let list: Vec<(String, TensorInfo)> = match read_entries(&header, o, shard, Ghost(base)) {
            Some(l) => l,
            None => {
                return Err(ShardError::Header);
            },
        };
        self.insert_all(&list);
        let ghost before = *self;
        self.shards.push((b, start));
        proof {
            assert(self@.shards =~= before@.shards.push((b@, start as int)));
            assert(before@.shards.len() == shard);
            assert forall|k: Seq<char>| #[trigger]
                self.tensors@.contains_key(k) implies exists|i: int|
                0 <= i < self.listed@.len() && (#[trigger] self.listed@[i])@ == k by {
                let i = choose|i: int|
                    0 <= i < before.listed@.len() && (#[trigger] before.listed@[i])@ == k;
                assert(self.listed@[i]@ == k);
            }
        }
        Ok(())
    }

    /// Adds tensors.
    fn insert_all(&mut self, list: &Vec<(String, TensorInfo)>)
        requires
            old(self).wf(),
        ensures
            final(self).wf(),
            final(self)@.shards == old(self)@.shards,
            final(self).shards == old(self).shards,
            final(self)@.tensors == inserted(old(self)@.tensors, list@),
    {
        let ghost base = self@.tensors;
        let ghost all = list@;
        assert(all.take(0) =~= seq![]);
        for done in 0..list.len()
            invariant
                self.wf(),
                self.shards == old(self).shards,
                all == list@,
                self@.tensors == inserted(base, all.take(done as int)),
        {
            let name: String = list[done].0.clone();
            let info: TensorInfo = list[done].1.duplicate();
            proof {
                assert(all.take(done + 1).drop_last() =~= all.take(done as int));
            }
            let ghost (key, had, names) = (name@, self.tensors@, self.listed@);
            if !self.tensors.contains_key(name.as_str()) {
                self.listed.push(name.clone());
            }
            self.tensors.insert(name, info);
            proof {
                assert(self@.tensors =~= infos(had).insert(key, info@));
                assert forall|k: Seq<char>| #[trigger]
                    self.tensors@.contains_key(k) implies exists|i: int|
                    0 <= i < self.listed@.len() && (#[trigger] self.listed@[i])@ == k by {
                    if had.contains_key(k) {
                        let i = choose|i: int| 0 <= i < names.len() && (#[trigger] names[i])@ == k;
                        assert(self.listed@[i] == names[i]);
                    } else {
                        assert(self.listed@[names.len() as int]@ == key);
                    }
                }
                assert forall|i: int| 0 <= i < self.listed@.len() implies self.tensors@.contains_key(
                    (#[trigger] self.listed@[i])@,
                ) by {
                    if i < names.len() {
                        assert(self.listed@[i] == names[i]);
                    }
                }
            }
        }
        assert(all.take(all.len() as int) =~= all);
    }

    /// Whether there is a tensor of that name.
    pub fn has(&self, name: &str) -> (r: bool)
        ensures
            r == self@.tensors.contains_key(name@),
    {
        self.tensors.contains_key(name)
    }

    /// Where the tensor lies, if there is one of that name.
    pub fn info(&self, name: &str) -> (r: Option<&TensorInfo>)
        ensures
            match r {
                Some(i) => self@.tensors.contains_key(name@) && self@.tensors[name@] == i@,
                None => !self@.tensors.contains_key(name@),
            },
    {
        self.tensors.get(name)
    }

    /// The names of the tensors.
    pub fn names(&self) -> (r: &Vec<String>)
        requires
            self.wf(),
        ensures
            forall|k: Seq<char>| #[trigger]
                self@.tensors.contains_key(k) <==> exists|i: int|
                    0 <= i < r@.len() && (#[trigger] r@[i])@ == k,
    {
        &self.listed
    }
}

/// A tensor's bytes lie inside its file.
pub open spec fn in_file(c: Checkpoint, i: Info) -> bool {
    &&& i.shard < c.shards.len()
    &&& 0 <= c.shards[i.shard as int].1
    &&& i.start <= i.end
    &&& c.shards[i.shard as int].1 + i.end <= c.shards[i.shard as int].0.len()
}

/// A tensor's bytes.
pub open spec fn data(c: Checkpoint, i: Info) -> Seq<u8> {
    let (b, start) = c.shards[i.shard as int];
    b.subrange(start + i.start, start + i.end)
}

/// Half-precision numbers widened to single precision.
pub open spec fn widened(s: Seq<u16>) -> Seq<u32> {
    s.map_values(|x: u16| (x * 65536) as u32)
}

impl<'a> SafeTensors<'a> {
    /// A tensor's bytes.
    fn bytes_of(&self, i: &TensorInfo) -> (r: Option<&'a [u8]>)
        ensures
            match r {
                Some(b) => in_file(self@, i@) && b@ == data(self@, i@),
                None => !in_file(self@, i@),
            },
    {
        if i.shard >= self.shards.len() {
            return None;
        }
        let (b, start) = self.shards[i.shard];
        assert(self@.shards[i.shard as int] == (b@, start as int));
        if i.start > i.end || start > b.len() || i.end > b.len() - start {
            return None;
        }
        Some(slice_subrange(b, start + i.start, start + i.end))
    }

    /// The numbers of a tensor of half-precision numbers, as bit patterns.
    pub fn bf16(&self, name: &str) -> (r: Result<Vec<u16>, TensorError>)
        ensures
            if !self@.tensors.contains_key(name@) {
                r matches Err(TensorError::Missing)
            } else {
                let i = self@.tensors[name@];
                if i.dtype != "BF16"@ {
                    r matches Err(TensorError::Type)
                } else if !in_file(self@, i) {
                    r matches Err(TensorError::Bounds)
                } else {
                    r matches Ok(v) && v@ == bytes::values::<u16>(data(self@, i))
                }
            },
    {
        let i = match self.info(name) {
            Some(i) => i,
            None => {
                return Err(TensorError::Missing);
            },
        };
        if !text::same(i.dtype.as_str(), "BF16") {
            return Err(TensorError::Type);
        }
        match self.bytes_of(i) {
            Some(b) => Ok(bytes::read_values::<u16>(b)),
            None => Err(TensorError::Bounds),
        }
    }

    /// The numbers of a tensor of single-precision or half-precision numbers, as single-precision
    /// bit patterns.
    pub fn single(&self, name: &str) -> (r: Result<Vec<u32>, TensorError>)
        ensures
            if !self@.tensors.contains_key(name@) {
                r matches Err(TensorError::Missing)
            } else {
                let i = self@.tensors[name@];
                if i.dtype != "F32"@ && i.dtype != "BF16"@ {
                    r matches Err(TensorError::Type)
                } else if !in_file(self@, i) {
                    r matches Err(TensorError::Bounds)
                } else if i.dtype == "F32"@ {
                    r matches Ok(v) && v@ == bytes::values::<u32>(data(self@, i))
                } else {
                    r matches Ok(v) && v@ == widened(bytes::values::<u16>(data(self@, i)))
                }
            },
    {
        let i = match self.info(name) {
            Some(i) => i,
            None => {
                return Err(TensorError::Missing);
            },
        };
        if text::same(i.dtype.as_str(), "F32") {
            return match self.bytes_of(i) {
                Some(b) => Ok(bytes::read_values::<u32>(b)),
                None => Err(TensorError::Bounds),
            };
        }
        let half: Vec<u16> = match self.bf16(name) {
            Ok(h) => h,
            Err(e) => {
                return Err(e);
            },
        };
        let mut out: Vec<u32> = Vec::new();
        for j in 0..half.len()
            invariant
                out@ == widened(half@.take(j as int)),
        {
            out.push(kernels::bf16_to_f32(half[j]));
            assert(widened(half@.take(j + 1)) =~= widened(half@.take(j as int)).push(
                (half@[j as int] * 65536) as u32,
            ));
        }
        assert(half@.take(half@.len() as int) =~= half@);
        Ok(out)
    }
}

/// What a header says of a tensor is read from under its names: the type, the shape, and the first
/// byte and the one behind the last, in that order.
pub proof fn headers_are_read_by_name(
    t: json::Tree,
    dtype: Seq<char>,
    dims: Seq<json::Tree>,
    shape: Seq<usize>,
    from: u64,
    to: u64,
    shard: usize,
)
    requires
        json::member(t, "dtype"@) == Some(json::Tree::Str(dtype)),
        json::member(t, "shape"@) == Some(json::Tree::Array(dims)),
        json::member(t, "data_offsets"@) == Some(
            json::Tree::Array(seq![json::Tree::UInt(from), json::Tree::UInt(to)]),
        ),
        dims.len() == shape.len(),
        forall|i: int|
            0 <= i < dims.len() ==> #[trigger] dims[i] == json::Tree::UInt(shape[i] as u64),
        from <= usize::MAX,
        to <= usize::MAX,
    ensures
        entry(t, shard) matches Some(i) && i.dtype == dtype && i.shape == shape && i.start == from
            && i.end == to && i.shard == shard,
{
    let i = entry(t, shard)->0;
    assert forall|k: int| 0 <= k < dims.len() implies (#[trigger] dims[k]) is UInt by {
        assert(dims[k] == json::Tree::UInt(shape[k] as u64));
    }
    assert(dims.map_values(|t: json::Tree| t->UInt_0 as usize) =~= shape);
}

/// A file that is added adds the tensors of its header, each with its bytes behind the header of that
/// very file, and leaves the tensors of the files before as they were, where it names none of them.
pub proof fn files_add_their_tensors(
    c: Checkpoint,
    b: Seq<u8>,
    m: Map<Seq<char>, json::Tree>,
    k: Seq<char>,
)
    requires
        all_entries(m),
        c.shards.len() <= usize::MAX,
    ensures
        ({
            let d = with_shard(c, b, m);
            let head = 8 + bytes::le(b.take(8));
            &&& d.shards.len() == c.shards.len() + 1
            &&& m.contains_key(k) && k != "__metadata__"@ ==> {
                &&& d.tensors.contains_key(k)
                &&& d.tensors[k].shard == c.shards.len()
                &&& in_file(d, d.tensors[k]) ==> data(d, d.tensors[k]) == b.subrange(
                    head + d.tensors[k].start,
                    head + d.tensors[k].end,
                )
            }
            &&& !m.contains_key(k) || k == "__metadata__"@ ==> {
                &&& d.tensors.contains_key(k) == c.tensors.contains_key(k)
                &&& c.tensors.contains_key(k) ==> d.tensors[k] == c.tensors[k]
                &&& c.tensors.contains_key(k) && in_file(c, c.tensors[k]) ==> data(
                    d,
                    d.tensors[k],
                ) == data(c, c.tensors[k])
            }
        }),
{
    if m.contains_key(k) && is_tensor(k) {
        lemma_entry_shard(m[k], 0, c.shards.len() as usize);
    }
}

/// A half-precision number is the upper half of the single-precision number that it stands for.
pub proof fn halves_are_upper_halves(s: Seq<u16>, i: int)
    requires
        0 <= i < s.len(),
    ensures
        widened(s).len() == s.len(),
        widened(s)[i] / 65536 == s[i],
        widened(s)[i] % 65536 == 0,
{
}

/// A file that is the length of its header in eight bytes, low byte first, the header, and the tensors
/// is read as just that; a file that ends before its header does is none.
pub proof fn headers_are_found(text: Seq<u8>, rest: Seq<u8>, b: Seq<u8>)
    requires
        text.len() <= u64::MAX,
    ensures
        ({
            let f = bytes::le_bytes(text.len(), 8) + text + rest;
            holds_header(f) && header_bytes(f) == text && header_len(f) == text.len()
        }),
        b.len() < 8 ==> !holds_header(b),
        b.len() >= 8 && b.len() < 8 + bytes::le(b.take(8)) ==> !holds_header(b),
{
    let f = bytes::le_bytes(text.len(), 8) + text + rest;
    reveal_with_fuel(bytes::range, 9);
    bytes::bytes_write_number(text.len(), 8);
    assert(f.take(8) =~= bytes::le_bytes(text.len(), 8));
    assert(f.subrange(8, 8 + text.len() as int) =~= text);
}

} // verus!
