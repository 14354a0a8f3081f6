//! Per-sequence state: key and value rows for softmax attention, recurrent state for linear
//! attention. `F` is the element type of the rows.

use vstd::prelude::*;
use vstd::slice::*;

use crate::config::{Config, LinCfg};

verus! {

/// Longest sequence that the device cache holds.
pub const GPU_MAX_CONTEXT: usize = 2048;

/// One layer's state.
#[allow(inconsistent_fields)]
pub enum LayerCache<F> {
    /// Rows of `stride` elements, one per position.
    Kv { k: Vec<F>, v: Vec<F> },
    /// Rows of 8-bit codes, with one scale per position and head.
    Kv8 { k: Vec<i8>, v: Vec<i8>, ks: Vec<F>, vs: Vec<F> },
    /// Recurrent state and convolution window; empty until first use.
    Lin { state: Vec<F>, conv: Vec<F> },
}

/// What a [`LayerCache`] holds.
#[allow(inconsistent_fields)]
#[verifier::ext_equal]
pub ghost enum LayerRows<F> {
    Kv { k: Seq<F>, v: Seq<F> },
    Kv8 { k: Seq<i8>, v: Seq<i8>, ks: Seq<F>, vs: Seq<F> },
    Lin { state: Seq<F>, conv: Seq<F> },
}

/// `s` cut to at most `n` elements.
pub open spec fn cut<T>(s: Seq<T>, n: int) -> Seq<T> {
    if n < s.len() {
        s.take(n)
    } else {
        s
    }
}

/// `s` filled up with `x` to at least `n` elements.
pub open spec fn padded<T>(s: Seq<T>, n: int, x: T) -> Seq<T> {
    if s.len() < n {
        s + Seq::new((n - s.len()) as nat, |i: int| x)
    } else {
        s
    }
}

/// `s` with the elements from `at` on replaced by `row`.
pub open spec fn overwritten<T>(s: Seq<T>, at: int, row: Seq<T>) -> Seq<T> {
    s.take(at) + row + s.skip(at + row.len())
}

/// A layer with the rows of its first `n` positions.
pub open spec fn rows_cut<F>(l: LayerRows<F>, n: int, stride: int, heads: int) -> LayerRows<F> {
    match l {
        LayerRows::Kv { k, v } => LayerRows::Kv { k: cut(k, n * stride), v: cut(v, n * stride) },
        LayerRows::Kv8 { k, v, ks, vs } => LayerRows::Kv8 {
            k: cut(k, n * stride),
            v: cut(v, n * stride),
            ks: cut(ks, n * heads),
            vs: cut(vs, n * heads),
        },
        LayerRows::Lin { state, conv } => l,
    }
}

/// A layer with room for `n` positions. New places hold `zero`.
pub open spec fn rows_grown<F>(
    l: LayerRows<F>,
    n: int,
    stride: int,
    heads: int,
    lin: Option<LinCfg>,
    zero: F,
) -> LayerRows<F> {
    match l {
        LayerRows::Kv { k, v } => if k.len() < n * stride {
            LayerRows::Kv { k: padded(k, n * stride, zero), v: resized(v, n * stride, zero) }
        } else {
            l
        },
        LayerRows::Kv8 { k, v, ks, vs } => if k.len() < n * stride {
            LayerRows::Kv8 {
                k: padded(k, n * stride, 0i8),
                v: resized(v, n * stride, 0i8),
                ks: resized(ks, n * heads, zero),
                vs: resized(vs, n * heads, zero),
            }
        } else {
            l
        },
        LayerRows::Lin { state, conv } => match lin {
            Some(c) => if state.len() == 0 {
                LayerRows::Lin {
                    state: resized(state, c.nv * c.dk * c.dv, zero),
                    conv: resized(conv, conv_len(c), zero),
                }
            } else {
                l
            },
            None => l,
        },
    }
}

/// Elements of the convolution window.
pub open spec fn conv_len(c: LinCfg) -> int {
    (2 * (c.nk * c.dk) + c.nv * c.dv) * (c.conv_k - 1)
}

/// `s` cut or filled up to exactly `n` elements.
pub open spec fn resized<T>(s: Seq<T>, n: int, x: T) -> Seq<T> {
    padded(cut(s, n), n, x)
}

/// Cuts or fills up `v` to exactly `n` elements.
fn resize<T: Copy>(v: &mut Vec<T>, n: usize, x: T)
    ensures
        final(v)@ == resized(old(v)@, n as int, x),
{
    if n < v.len() {
        v.truncate(n);
    }
    let ghost start = v@;
    assert(start =~= cut(old(v)@, n as int));
    while v.len() < n
        invariant
            v@.len() <= n || v@ == start,
            start.len() <= v@.len(),
            v@ == start + Seq::new((v@.len() - start.len()) as nat, |i: int| x),
        decreases n - v.len(),
    {
        v.push(x);
        assert(v@ =~= start + Seq::new((v@.len() - start.len()) as nat, |i: int| x));
    }
    assert(v@ =~= padded(start, n as int, x));
}

/// Writes `row` into `v` from `at` on.
fn overwrite<T: Copy>(v: &mut Vec<T>, at: usize, row: &[T])
    requires
        at + row@.len() <= old(v)@.len(),
    ensures
        final(v)@ == overwritten(old(v)@, at as int, row@),
{
    let ghost before = v@;
    for i in 0..row.len()
        invariant
            at + row@.len() <= before.len(),
            v@.len() == before.len(),
            forall|p: int|
                0 <= p < before.len() ==> #[trigger] v@[p] == (if at <= p < at + i {
                    row@[p - at]
                } else {
                    before[p]
                }),
    {
        assert(v.len() == before.len());
        v[at + i] = row[i];
    }
    assert(v@ =~= overwritten(before, at as int, row@));
}

impl<F> LayerCache<F> {
    /// What the layer holds.
    pub open spec fn view(&self) -> LayerRows<F> {
        match *self {
            LayerCache::Kv { k, v } => LayerRows::Kv { k: k@, v: v@ },
            LayerCache::Kv8 { k, v, ks, vs } => LayerRows::Kv8 { k: k@, v: v@, ks: ks@, vs: vs@ },
            LayerCache::Lin { state, conv } => LayerRows::Lin { state: state@, conv: conv@ },
        }
    }

    /// Drops the rows from position `n` on.
    fn truncate(&mut self, n: usize, stride: usize, heads: usize)
        ensures
            final(self)@ == rows_cut(old(self)@, n as int, stride as int, heads as int),
    {
        match self {
            LayerCache::Kv { k, v } => {
                shorten(k, n, stride);
                shorten(v, n, stride);
            },
            LayerCache::Kv8 { k, v, ks, vs } => {
                shorten(k, n, stride);
                shorten(v, n, stride);
                shorten(ks, n, heads);
                shorten(vs, n, heads);
            },
            LayerCache::Lin { state, conv } => {},
        }
    }
}

/// Cuts `v` to at most `n` rows of `width` elements.
fn shorten<T>(v: &mut Vec<T>, n: usize, width: usize)
    ensures
        final(v)@ == cut(old(v)@, n * width),
{
    assert(v.len() == v@.len());
    if let Some(m) = n.checked_mul(width) {
        if m < v.len() {
            v.truncate(m);
            assert(v@ =~= cut(old(v)@, n * width));
        }
    }
}

/// The sizes of the recurrent state fit in a machine word.
pub open spec fn lin_fits(lin: Option<LinCfg>) -> bool {
    lin matches Some(c) ==> {
        &&& c.fits()
        &&& c.conv_k >= 1
        &&& c.nv * c.dk <= usize::MAX
        &&& c.nv * c.dk * c.dv <= usize::MAX
        &&& conv_len(c) <= usize::MAX
    }
}

impl<F: Copy> LayerCache<F> {
    /// Makes room for `n` positions.
    fn reserve(&mut self, n: usize, stride: usize, heads: usize, lin: Option<LinCfg>, zero: F)
        requires
            n * stride <= usize::MAX,
            n * heads <= usize::MAX,
            lin_fits(lin),
        ensures
            final(self)@ == rows_grown(
                old(self)@,
                n as int,
                stride as int,
                heads as int,
                lin,
                zero,
            ),
    {
        let need: usize = n * stride;
        match self {
            LayerCache::Kv { k, v } => {
                if k.len() < need {
                    resize(k, need, zero);
                    resize(v, need, zero);
                }
            },
            LayerCache::Kv8 { k, v, ks, vs } => {
                if k.len() < need {
                    resize(k, need, 0i8);
                    resize(v, need, 0i8);
                    resize(ks, n * heads, zero);
                    resize(vs, n * heads, zero);
                }
            },
            LayerCache::Lin { state, conv } => {
                if let Some(c) = lin {
                    if state.len() == 0 {
                        resize(state, c.nv * c.dk * c.dv, zero);
                        resize(conv, c.conv_dim() * (c.conv_k - 1), zero);
                    }
                }
            },
        }
    }
}

/// The state of one sequence.
pub struct KvCache<F> {
    pub layers: Vec<LayerCache<F>>,
    /// Elements of one position's row.
    pub stride: usize,
    pub kv_heads: usize,
    /// Positions held.
    pub len: usize,
    /// Some layers are recurrent.
    pub hybrid: bool,
}

/// What a [`KvCache`] holds.
#[verifier::ext_equal]
pub ghost struct CacheRows<F> {
    pub layers: Seq<LayerRows<F>>,
    pub stride: nat,
    pub kv_heads: nat,
    pub len: nat,
    pub hybrid: bool,
}

/// A layer holds exactly the rows of `n` positions.
pub open spec fn holds_rows<F>(l: LayerRows<F>, n: int, stride: int, heads: int) -> bool {
    match l {
        LayerRows::Kv { k, v } => k.len() == n * stride && v.len() == n * stride,
        LayerRows::Kv8 { k, v, ks, vs } => {
            &&& k.len() == n * stride
            &&& v.len() == n * stride
            &&& ks.len() == n * heads
            &&& vs.len() == n * heads
        },
        LayerRows::Lin { state, conv } => true,
    }
}

impl<F> CacheRows<F> {
    /// Every layer holds exactly the rows of the positions that the cache counts.
    pub open spec fn wf(self) -> bool {
        &&& self.stride == 0 ==> self.kv_heads == 0
        &&& forall|i: int|
            0 <= i < self.layers.len() ==> holds_rows(
                #[trigger] self.layers[i],
                self.len as int,
                self.stride as int,
                self.kv_heads as int,
            )
    }

    /// The cache can take `n` bytes: those of places for all of its elements. How many places more
    /// there are depends on the allocator.
    pub open spec fn occupies(self, n: usize) -> bool {
        exists|rooms: Seq<Room>| #[trigger]
            cover(rooms, self.layers) && n == capped(rooms_bytes(rooms))
    }

    /// The cache can be cut to `n` positions.
    pub open spec fn can_cut(self, n: int) -> bool {
        !self.hybrid || n == self.len
    }

    /// The cache without what lies after its first `n` positions.
    pub open spec fn cut_to(self, n: nat) -> CacheRows<F> {
        CacheRows {
            layers: self.layers.map_values(
                |l: LayerRows<F>| rows_cut(l, n as int, self.stride as int, self.kv_heads as int),
            ),
            len: if n < self.len {
                n
            } else {
                self.len
            },
            ..self
        }
    }

    /// The cache with room for `n` positions.
    pub open spec fn grown_to(self, n: nat, lin: Option<LinCfg>, zero: F) -> CacheRows<F> {
        CacheRows {
            layers: self.layers.map_values(
                |l: LayerRows<F>|
                    rows_grown(
                        l,
                        n as int,
                        self.stride as int,
                        self.kv_heads as int,
                        lin,
                        zero,
                    ),
            ),
            ..self
        }
    }
}

/// The empty state of layer `l`.
pub open spec fn empty_layer<F>(c: Config, int8: bool, l: int) -> LayerRows<F> {
    if !c.full(l) {
        LayerRows::Lin { state: seq![], conv: seq![] }
    } else if int8 {
        LayerRows::Kv8 { k: seq![], v: seq![], ks: seq![], vs: seq![] }
    } else {
        LayerRows::Kv { k: seq![], v: seq![] }
    }
}

/// Places of a layer's vectors, which grow in step: keys stand for keys and values.
pub enum Room {
    Kv { k: usize },
    Kv8 { k: usize, ks: usize },
    Lin { state: usize, conv: usize },
}

/// Bytes of a layer with that many places.
pub open spec fn room_bytes(r: Room) -> int {
    match r {
        Room::Kv { k } => k * 8,
        Room::Kv8 { k, ks } => k * 2 + ks * 8,
        Room::Lin { state, conv } => (state + conv) * 4,
    }
}

/// Bytes of all layers.
pub open spec fn rooms_bytes(s: Seq<Room>) -> int
    decreases s.len(),
{
    if s.len() == 0 {
        0
    } else {
        rooms_bytes(s.drop_last()) + room_bytes(s.last())
    }
}

/// `n`, or the largest machine word where `n` is larger.
pub open spec fn capped(n: int) -> int {
    if n < usize::MAX {
        n
    } else {
        usize::MAX as int
    }
}

/// Bytes of layers with that many places, up to the largest machine word.
pub fn bytes_of(rooms: &[Room]) -> (r: usize)
    ensures
        r == capped(rooms_bytes(rooms@)),
{
    let mut total: usize = 0;
    for i in 0..rooms.len()
        invariant
            total == capped(rooms_bytes(rooms@.take(i as int))),
            rooms_bytes(rooms@.take(i as int)) >= 0,
    {
        let one: u128 = match &rooms[i] {
            Room::Kv { k } => *k as u128 * 8,
            Room::Kv8 { k, ks } => *k as u128 * 2 + *ks as u128 * 8,
            Room::Lin { state, conv } => (*state as u128 + *conv as u128) * 4,
        };
        assert(one == room_bytes(rooms@[i as int]));
        assert(rooms@.take(i + 1).drop_last() =~= rooms@.take(i as int));
        let sum: u128 = total as u128 + one;
        total = if sum < usize::MAX as u128 {
            sum as usize
        } else {
            usize::MAX
        };
    }
    assert(rooms@.take(rooms@.len() as int) =~= rooms@);
    total
}

/// `Vec::capacity`: at least as many places as there are elements. How many more depends on the
/// allocator.
#[verifier::external_body]
fn capacity<T>(v: &Vec<T>) -> (r: usize)
    ensures
        r >= v@.len(),
{
    v.capacity()
}

/// The places of a layer cover its elements.
pub open spec fn covers<F>(r: Room, l: LayerRows<F>) -> bool {
    match l {
        LayerRows::Kv { k, v } => r matches Room::Kv { k: n } && n >= k.len(),
        LayerRows::Kv8 { k, v, ks, vs } => r matches Room::Kv8 { k: n, ks: m } && n >= k.len() && m
            >= ks.len(),
        LayerRows::Lin { state, conv } => r matches Room::Lin { state: n, conv: m } && n
            >= state.len() && m >= conv.len(),
    }
}

/// The places of every layer cover its elements.
pub open spec fn cover<F>(rooms: Seq<Room>, layers: Seq<LayerRows<F>>) -> bool {
    &&& rooms.len() == layers.len()
    &&& forall|i: int| 0 <= i < rooms.len() ==> covers(#[trigger] rooms[i], layers[i])
}

/// Bytes of a layer's elements.
pub open spec fn used_bytes<F>(l: LayerRows<F>) -> int {
    match l {
        LayerRows::Kv { k, v } => k.len() as int * 8,
        LayerRows::Kv8 { k, v, ks, vs } => k.len() as int * 2 + ks.len() as int * 8,
        LayerRows::Lin { state, conv } => (state.len() as int + conv.len() as int) * 4,
    }
}

/// Bytes of the elements of all layers.
pub open spec fn all_used<F>(s: Seq<LayerRows<F>>) -> int
    decreases s.len(),
{
    if s.len() == 0 {
        0
    } else {
        all_used(s.drop_last()) + used_bytes(s.last())
    }
}

/// Places that cover the elements take at least their bytes.
pub proof fn lemma_covering<F>(rooms: Seq<Room>, layers: Seq<LayerRows<F>>)
    requires
        cover(rooms, layers),
    ensures
        rooms_bytes(rooms) >= all_used(layers),
    decreases rooms.len(),
{
    if rooms.len() > 0 {
        let p = rooms.drop_last();
        assert forall|i: int| 0 <= i < p.len() implies covers(
            #[trigger] p[i],
            layers.drop_last()[i],
        ) by {
            assert(p[i] == rooms[i]);
        }
        lemma_covering(p, layers.drop_last());
        assert(covers(rooms[rooms.len() - 1], layers[layers.len() - 1]));
    }
}

impl<F> KvCache<F> {
    /// What the cache holds.
    pub open spec fn view(&self) -> CacheRows<F> {
        CacheRows {
            layers: self.layers@.map_values(|l: LayerCache<F>| l@),
            stride: self.stride as nat,
            kv_heads: self.kv_heads as nat,
            len: self.len as nat,
            hybrid: self.hybrid,
        }
    }

    /// An empty cache for the network. `int8` selects 8-bit rows.
    pub fn new(cfg: &Config, int8: bool) -> (r: KvCache<F>)
        requires
            cfg.kv_heads * cfg.head_dim <= usize::MAX,
        ensures
            r@ == (CacheRows::<F> {
                layers: Seq::new(cfg.layers as nat, |l: int| empty_layer::<F>(*cfg, int8, l)),
                stride: (cfg.kv_heads * cfg.head_dim) as nat,
                kv_heads: cfg.kv_heads as nat,
                len: 0,
                hybrid: cfg.lin is Some,
            }),
            r@ == fresh_cache::<F>(*cfg, int8),
            cfg.head_dim > 0 ==> r@.wf(),
    {
        let mut layers: Vec<LayerCache<F>> = Vec::new();
        for l in 0..cfg.layers
            invariant
                layers@.len() == l,
                forall|i: int|
                    0 <= i < l ==> (#[trigger] layers@[i])@ == empty_layer::<F>(*cfg, int8, i),
        {
            let layer: LayerCache<F> = if cfg.is_full(l) {
                if int8 {
                    LayerCache::Kv8 { k: Vec::new(), v: Vec::new(), ks: Vec::new(), vs: Vec::new() }
                } else {
                    LayerCache::Kv { k: Vec::new(), v: Vec::new() }
                }
            } else {
                LayerCache::Lin { state: Vec::new(), conv: Vec::new() }
            };
            assert(layer@ =~= empty_layer::<F>(*cfg, int8, l as int));
            layers.push(layer);
        }
        let r = KvCache {
            layers,
            stride: cfg.kv_heads * cfg.head_dim,
            kv_heads: cfg.kv_heads,
            len: 0,
            hybrid: cfg.lin.is_some(),
        };
        proof {
            assert(r@.layers =~= Seq::new(
                cfg.layers as nat,
                |l: int| empty_layer::<F>(*cfg, int8, l),
            ));
            if cfg.head_dim > 0 {
                assert(cfg.kv_heads * cfg.head_dim == 0 ==> cfg.kv_heads == 0) by (nonlinear_arith)
                    requires
                        cfg.head_dim > 0,
                ;
            }
        }
        r
    }

    /// How many places each layer has. At least as many as elements; how many more depends on the
    /// allocator.
    pub fn rooms(&self) -> (r: Vec<Room>)
        ensures
            cover(r@, self@.layers),
    {
        let mut out: Vec<Room> = Vec::new();
        for i in 0..self.layers.len()
            invariant
                out@.len() == i,
                forall|j: int| 0 <= j < i ==> covers(#[trigger] out@[j], self@.layers[j]),
        {
            let room = match &self.layers[i] {
                LayerCache::Kv { k, v } => Room::Kv { k: capacity(k) },
                LayerCache::Kv8 { k, v, ks, vs } => Room::Kv8 { k: capacity(k), ks: capacity(ks) },
                LayerCache::Lin { state, conv } => Room::Lin {
                    state: capacity(state),
                    conv: capacity(conv),
                },
            };
            assert(covers(room, self@.layers[i as int]));
            out.push(room);
        }
        out
    }

    /// Bytes of memory that the cache takes. At least those of its elements; how many more depends
    /// on the allocator.
    pub fn bytes(&self) -> (r: usize)
        ensures
            self@.occupies(r),
            r >= capped(all_used(self@.layers)),
    {
        let rooms: Vec<Room> = self.rooms();
        proof {
            lemma_covering(rooms@, self@.layers);
        }
        bytes_of(rooms.as_slice())
    }

    /// Whether the cache can be cut to `n` positions: recurrent state cannot be rolled back.
    pub fn can_truncate(&self, n: usize) -> (r: bool)
        ensures
            r == self@.can_cut(n as int),
    {
        !self.hybrid || n == self.len
    }

    /// Drops everything after the first `n` positions.
    pub fn truncate(&mut self, n: usize)
        requires
            old(self)@.can_cut(n as int),
        ensures
            final(self)@ == old(self)@.cut_to(n as nat),
            old(self)@.wf() ==> final(self)@.wf(),
    {
        let ghost before = self@;
        let mut i: usize = 0;
        let total: usize = self.layers.len();
        while i < total
            invariant
                i <= total,
                total == self.layers@.len() == before.layers.len(),
                self.stride == before.stride,
                self.kv_heads == before.kv_heads,
                self.len == before.len,
                self.hybrid == before.hybrid,
                forall|j: int|
                    0 <= j < i ==> (#[trigger] self.layers@[j])@ == rows_cut(
                        before.layers[j],
                        n as int,
                        self.stride as int,
                        self.kv_heads as int,
                    ),
                forall|j: int| i <= j < total ==> (#[trigger] self.layers@[j])@ == before.layers[j],
            decreases total - i,
        {
            let (stride, heads): (usize, usize) = (self.stride, self.kv_heads);
            self.layers[i].truncate(n, stride, heads);
            i += 1;
        }
        if n < self.len {
            self.len = n;
        }
        proof {
            assert(self@.layers =~= before.cut_to(n as nat).layers);
            if before.wf() {
                lemma_cut_wf(before, n as nat);
            }
        }
    }
}

impl<F> KvCache<F> {
    /// Counts `n` more positions, whose rows have been stored.
    pub fn advance(&mut self, n: usize)
        requires
            old(self).len + n <= usize::MAX,
        ensures
            final(self)@ == (CacheRows { len: old(self)@.len + n as nat, ..old(self)@ }),
    {
        self.len += n;
    }
}

/// Cutting keeps a cache well formed.
pub proof fn lemma_cut_wf<F>(c: CacheRows<F>, n: nat)
    requires
        c.wf(),
    ensures
        c.cut_to(n).wf(),
{
    let d = c.cut_to(n);
    assert(n <= c.len ==> n * c.stride <= c.len * c.stride) by (nonlinear_arith);
    assert(n <= c.len ==> n * c.kv_heads <= c.len * c.kv_heads) by (nonlinear_arith);
    assert(n >= c.len ==> n * c.stride >= c.len * c.stride) by (nonlinear_arith);
    assert(n >= c.len ==> n * c.kv_heads >= c.len * c.kv_heads) by (nonlinear_arith);
    assert forall|i: int| 0 <= i < d.layers.len() implies holds_rows(
        #[trigger] d.layers[i],
        d.len as int,
        c.stride as int,
        c.kv_heads as int,
    ) by {
        assert(holds_rows(c.layers[i], c.len as int, c.stride as int, c.kv_heads as int));
    }
}

impl<F: Copy> KvCache<F> {
    /// Makes room for `n` positions.
    pub fn reserve(&mut self, n: usize, lin: Option<LinCfg>, zero: F)
        requires
            n * old(self).stride <= usize::MAX,
            n * old(self).kv_heads <= usize::MAX,
            lin_fits(lin),
        ensures
            final(self)@ == old(self)@.grown_to(n as nat, lin, zero),
    {
        let ghost before = self@;
        let mut i: usize = 0;
        let total: usize = self.layers.len();
        while i < total
            invariant
                i <= total,
                total == self.layers@.len() == before.layers.len(),
                self.stride == before.stride,
                self.kv_heads == before.kv_heads,
                self.len == before.len,
                self.hybrid == before.hybrid,
                n * self.stride <= usize::MAX,
                n * self.kv_heads <= usize::MAX,
                lin_fits(lin),
                forall|j: int|
                    0 <= j < i ==> (#[trigger] self.layers@[j])@ == rows_grown(
                        before.layers[j],
                        n as int,
                        self.stride as int,
                        self.kv_heads as int,
                        lin,
                        zero,
                    ),
                forall|j: int| i <= j < total ==> (#[trigger] self.layers@[j])@ == before.layers[j],
            decreases total - i,
        {
            let (stride, heads): (usize, usize) = (self.stride, self.kv_heads);
            self.layers[i].reserve(n, stride, heads, lin, zero);
            i += 1;
        }
        assert(self@.layers =~= before.grown_to(n as nat, lin, zero).layers);
    }
}

/// `l` with position `p` holding the rows `k` and `v`.
pub open spec fn with_row<F>(
    l: LayerRows<F>,
    p: int,
    stride: int,
    k: Seq<F>,
    v: Seq<F>,
) -> LayerRows<F> {
    match l {
        LayerRows::Kv { k: ck, v: cv } => LayerRows::Kv {
            k: overwritten(ck, p * stride, k),
            v: overwritten(cv, p * stride, v),
        },
        _ => l,
    }
}

/// `l` with position `p` holding the codes `k` and `v` and their scales.
pub open spec fn with_codes<F>(
    l: LayerRows<F>,
    p: int,
    stride: int,
    heads: int,
    k: Seq<i8>,
    v: Seq<i8>,
    ks: Seq<F>,
    vs: Seq<F>,
) -> LayerRows<F> {
    match l {
        LayerRows::Kv8 { k: ck, v: cv, ks: cks, vs: cvs } => LayerRows::Kv8 {
            k: overwritten(ck, p * stride, k),
            v: overwritten(cv, p * stride, v),
            ks: overwritten(cks, p * heads, ks),
            vs: overwritten(cvs, p * heads, vs),
        },
        _ => l,
    }
}

impl<F: Copy> LayerCache<F> {
    /// Stores the rows of position `p`, which the layer has room for. A layer of another kind
    /// stays as it is.
    pub fn store(&mut self, p: usize, stride: usize, k: &[F], v: &[F])
        requires
            k@.len() == stride,
            v@.len() == stride,
            old(self)@ matches LayerRows::Kv { k: ck, v: cv } ==> p * stride + stride <= ck.len()
                && p * stride + stride <= cv.len(),
        ensures
            final(self)@ == with_row(old(self)@, p as int, stride as int, k@, v@),
    {
        match self {
            LayerCache::Kv { k: ck, v: cv } => {
                assert(0 <= p * stride) by (nonlinear_arith)
                    requires
                        0 <= p,
                        0 <= stride,
                ;
                assert(ck.len() == ck@.len());
                let at: usize = p * stride;
                overwrite(ck, at, k);
                overwrite(cv, at, v);
            },
            _ => {},
        }
    }

    /// Stores the codes and scales of position `p`, which the layer has room for. A layer of
    /// another kind stays as it is.
    pub fn store_codes(
        &mut self,
        p: usize,
        stride: usize,
        heads: usize,
        k: &[i8],
        v: &[i8],
        ks: &[F],
        vs: &[F],
    )
        requires
            k@.len() == stride,
            v@.len() == stride,
            ks@.len() == heads,
            vs@.len() == heads,
            old(self)@ matches LayerRows::Kv8 { k: ck, v: cv, ks: cks, vs: cvs } ==> {
                &&& p * stride + stride <= ck.len()
                &&& p * stride + stride <= cv.len()
                &&& p * heads + heads <= cks.len()
                &&& p * heads + heads <= cvs.len()
            },
        ensures
            final(self)@ == with_codes(
                old(self)@,
                p as int,
                stride as int,
                heads as int,
                k@,
                v@,
                ks@,
                vs@,
            ),
    {
        match self {
            LayerCache::Kv8 { k: ck, v: cv, ks: cks, vs: cvs } => {
                assert(0 <= p * stride && 0 <= p * heads) by (nonlinear_arith)
                    requires
                        0 <= p,
                        0 <= stride,
                        0 <= heads,
                ;
                assert(ck.len() == ck@.len());
                assert(cks.len() == cks@.len());
                let at: usize = p * stride;
                let scale_at: usize = p * heads;
                overwrite(ck, at, k);
                overwrite(cv, at, v);
                overwrite(cks, scale_at, ks);
                overwrite(cvs, scale_at, vs);
            },
            _ => {},
        }
    }

    /// A copy of the layer.
    pub fn duplicate(&self) -> (r: LayerCache<F>)
        ensures
            r@ == self@,
    {
        match self {
            LayerCache::Kv { k, v } => LayerCache::Kv {
                k: slice_to_vec(k.as_slice()),
                v: slice_to_vec(v.as_slice()),
            },
            LayerCache::Kv8 { k, v, ks, vs } => LayerCache::Kv8 {
                k: slice_to_vec(k.as_slice()),
                v: slice_to_vec(v.as_slice()),
                ks: slice_to_vec(ks.as_slice()),
                vs: slice_to_vec(vs.as_slice()),
            },
            LayerCache::Lin { state, conv } => LayerCache::Lin {
                state: slice_to_vec(state.as_slice()),
                conv: slice_to_vec(conv.as_slice()),
            },
        }
    }
}

impl<F: Copy> KvCache<F> {
    /// A copy of the cache.
    pub fn duplicate(&self) -> (r: KvCache<F>)
        ensures
            r@ == self@,
    {
        let mut layers: Vec<LayerCache<F>> = Vec::new();
        for i in 0..self.layers.len()
            invariant
                layers@.len() == i,
                forall|j: int| 0 <= j < i ==> (#[trigger] layers@[j])@ == self.layers@[j]@,
        {
            layers.push(self.layers[i].duplicate());
        }
        let r = KvCache {
            layers,
            stride: self.stride,
            kv_heads: self.kv_heads,
            len: self.len,
            hybrid: self.hybrid,
        };
        assert(r@.layers =~= self@.layers);
        r
    }
}

impl<F> KvCache<F> {
    /// The one-layer cache of a prediction head: softmax rows that are never coded.
    pub fn for_head(cfg: &Config) -> (r: KvCache<F>)
        requires
            cfg.kv_heads * cfg.head_dim <= usize::MAX,
        ensures
            r@ == (CacheRows::<F> {
                layers: seq![LayerRows::Kv { k: seq![], v: seq![] }],
                stride: (cfg.kv_heads * cfg.head_dim) as nat,
                kv_heads: cfg.kv_heads as nat,
                len: 0,
                hybrid: false,
            }),
    {
        let mut layers: Vec<LayerCache<F>> = Vec::new();
        layers.push(LayerCache::Kv { k: Vec::new(), v: Vec::new() });
        let r = KvCache {
            layers,
            stride: cfg.kv_heads * cfg.head_dim,
            kv_heads: cfg.kv_heads,
            len: 0,
            hybrid: false,
        };
        assert(r@.layers[0] =~= LayerRows::Kv { k: seq![], v: seq![] });
        assert(r@.layers =~= seq![LayerRows::Kv { k: seq![], v: seq![] }]);
        r
    }
}

// ---------------------------------------------------------------------------------------
// Laws
// ---------------------------------------------------------------------------------------

/// Cutting a cache to the positions that it holds, or to more, changes nothing.
pub proof fn cutting_drops_nothing_held<F>(c: CacheRows<F>, n: nat)
    requires
        c.wf(),
        c.len <= n,
    ensures
        c.cut_to(n) == c,
{
    let d = c.cut_to(n);
    assert(c.len * c.stride <= n * c.stride) by (nonlinear_arith)
        requires
            c.len <= n,
    ;
    assert(c.len * c.kv_heads <= n * c.kv_heads) by (nonlinear_arith)
        requires
            c.len <= n,
    ;
    assert forall|i: int| 0 <= i < c.layers.len() implies #[trigger] d.layers[i] == c.layers[i] by {
        assert(holds_rows(c.layers[i], c.len as int, c.stride as int, c.kv_heads as int));
    }
    assert(d.layers =~= c.layers);
}

/// A cache that grows to `n` positions and then counts them is well formed again: a step makes
/// room for its tokens first and counts them at its end.
pub proof fn growth_keeps_wf<F>(c: CacheRows<F>, n: nat, lin: Option<LinCfg>, zero: F)
    requires
        c.wf(),
        c.len <= n,
    ensures
        (CacheRows { len: n, ..c.grown_to(n, lin, zero) }).wf(),
{
    let d = CacheRows { len: n, ..c.grown_to(n, lin, zero) };
    assert(c.len * c.stride <= n * c.stride) by (nonlinear_arith)
        requires
            c.len <= n,
    ;
    assert(c.len * c.kv_heads <= n * c.kv_heads) by (nonlinear_arith)
        requires
            c.len <= n,
    ;
    assert(c.len < n && 0 < c.stride ==> c.len * c.stride < n * c.stride) by (nonlinear_arith);
    assert(c.stride == 0 ==> n * c.stride == 0 && c.len * c.stride == 0) by (nonlinear_arith);
    assert(c.kv_heads == 0 ==> n * c.kv_heads == 0 && c.len * c.kv_heads == 0)
        by (nonlinear_arith);
    assert forall|i: int| 0 <= i < d.layers.len() implies holds_rows(
        #[trigger] d.layers[i],
        n as int,
        c.stride as int,
        c.kv_heads as int,
    ) by {
        assert(holds_rows(c.layers[i], c.len as int, c.stride as int, c.kv_heads as int));
    }
}

/// Growing keeps every row that was there.
pub proof fn growth_keeps_rows<F>(c: CacheRows<F>, n: nat, lin: Option<LinCfg>, zero: F)
    requires
        c.wf(),
        c.len <= n,
    ensures
        forall|i: int|
            #![trigger c.layers[i]]
            0 <= i < c.layers.len() && !(c.layers[i] is Lin) ==> rows_cut(
                c.grown_to(n, lin, zero).layers[i],
                c.len as int,
                c.stride as int,
                c.kv_heads as int,
            ) == c.layers[i],
{
    assert(c.len * c.stride <= n * c.stride) by (nonlinear_arith)
        requires
            c.len <= n,
    ;
    assert(c.len * c.kv_heads <= n * c.kv_heads) by (nonlinear_arith)
        requires
            c.len <= n,
    ;
    let d = c.grown_to(n, lin, zero);
    assert forall|i: int|
        #![trigger c.layers[i]]
        0 <= i < c.layers.len() && !(c.layers[i] is Lin) implies rows_cut(
        d.layers[i],
        c.len as int,
        c.stride as int,
        c.kv_heads as int,
    ) == c.layers[i] by {
        assert(holds_rows(c.layers[i], c.len as int, c.stride as int, c.kv_heads as int));
        assert(rows_cut(d.layers[i], c.len as int, c.stride as int, c.kv_heads as int)
            =~= c.layers[i]);
    }
}

/// Rolling back in two steps is rolling back in one.
pub proof fn cut_twice<F>(c: CacheRows<F>, a: nat, b: nat)
    requires
        b <= a,
    ensures
        c.cut_to(a).cut_to(b) == c.cut_to(b),
{
    assert(b * c.stride <= a * c.stride) by (nonlinear_arith)
        requires
            b <= a,
    ;
    assert(b * c.kv_heads <= a * c.kv_heads) by (nonlinear_arith)
        requires
            b <= a,
    ;
    assert(0 <= b * c.stride && 0 <= b * c.kv_heads) by (nonlinear_arith);
    let d = c.cut_to(a).cut_to(b);
    assert forall|i: int| 0 <= i < c.layers.len() implies #[trigger] d.layers[i]
        == c.cut_to(b).layers[i] by {
        assert(d.layers[i] =~= c.cut_to(b).layers[i]);
    }
    assert(d.layers =~= c.cut_to(b).layers);
}

// ---------------------------------------------------------------------------------------
// Caches on either device
// ---------------------------------------------------------------------------------------

/// The state of one sequence on a graphics device. `B` stands for the device buffers, which have
/// room for all positions from the start.
pub struct GpuKv<B> {
    pub buffers: B,
    pub len: usize,
    pub bytes: usize,
}

/// Positions that a device cache has room for.
pub open spec fn gpu_positions(max_context: int) -> int {
    if max_context < GPU_MAX_CONTEXT {
        max_context
    } else {
        GPU_MAX_CONTEXT as int
    }
}

/// Bytes of one layer's keys, and of its values.
pub open spec fn gpu_layer_bytes(c: Config) -> int {
    gpu_positions(c.max_context as int) * (c.kv_heads * c.head_dim) * 4
}

/// Bytes of one layer's keys in a device cache.
pub fn gpu_layer_size(c: &Config) -> (r: usize)
    requires
        c.kv_heads * c.head_dim <= usize::MAX,
        gpu_positions(c.max_context as int) * (c.kv_heads * c.head_dim) <= usize::MAX,
        gpu_layer_bytes(*c) <= usize::MAX,
    ensures
        r == gpu_layer_bytes(*c),
{
    let positions: usize = if c.max_context < GPU_MAX_CONTEXT {
        c.max_context
    } else {
        GPU_MAX_CONTEXT
    };
    positions * (c.kv_heads * c.head_dim) * 4
}

impl<B> GpuKv<B> {
    /// An empty cache over fresh buffers.
    pub fn new(c: &Config, buffers: B) -> (r: GpuKv<B>)
        requires
            c.kv_heads * c.head_dim <= usize::MAX,
            gpu_positions(c.max_context as int) * (c.kv_heads * c.head_dim) <= usize::MAX,
            gpu_layer_bytes(*c) * 2 <= usize::MAX,
            gpu_layer_bytes(*c) * 2 * c.layers <= usize::MAX,
        ensures
            r.buffers == buffers,
            r.len == 0,
            r.bytes == gpu_layer_bytes(*c) * 2 * c.layers,
    {
        assert(0 <= gpu_layer_bytes(*c)) by {
            assert(0 <= c.kv_heads * c.head_dim) by (nonlinear_arith);
            assert(0 <= gpu_positions(c.max_context as int) * (c.kv_heads * c.head_dim))
                by (nonlinear_arith)
                requires
                    0 <= gpu_positions(c.max_context as int),
                    0 <= c.kv_heads * c.head_dim,
            ;
        }
        GpuKv { buffers, len: 0, bytes: gpu_layer_size(c) * 2 * c.layers }
    }

    /// Forgets everything after the first `n` positions.
    pub fn truncate(&mut self, n: usize)
        ensures
            *final(self) == (GpuKv {
                len: if n < old(self).len {
                    n
                } else {
                    old(self).len
                },
                ..*old(self)
            }),
    {
        if n < self.len {
            self.len = n;
        }
    }

    /// Counts `n` more positions, whose rows are on the device.
    pub fn advance(&mut self, n: usize)
        requires
            old(self).len + n <= usize::MAX,
        ensures
            *final(self) == (GpuKv { len: (old(self).len + n) as usize, ..*old(self) }),
    {
        self.len += n;
    }

    /// Bytes of the device buffers.
    pub fn bytes(&self) -> (r: usize)
        ensures
            r == self.bytes,
    {
        self.bytes
    }
}

/// The state of one sequence, wherever it lives.
pub enum Kv<F, B> {
    Cpu(KvCache<F>),
    Gpu(GpuKv<B>),
}

/// What a [`Kv`] holds.
#[verifier::ext_equal]
pub ghost enum KvRows<F, B> {
    Cpu(CacheRows<F>),
    Gpu(GpuKv<B>),
}

impl<F, B> KvRows<F, B> {
    /// Positions held.
    pub open spec fn len(self) -> nat {
        match self {
            KvRows::Cpu(c) => c.len,
            KvRows::Gpu(g) => g.len as nat,
        }
    }

    /// The state can be cut to `n` positions.
    pub open spec fn can_cut(self, n: int) -> bool {
        match self {
            KvRows::Cpu(c) => c.can_cut(n),
            KvRows::Gpu(g) => true,
        }
    }

    /// The state without what lies after its first `n` positions.
    pub open spec fn cut_to(self, n: nat) -> KvRows<F, B> {
        match self {
            KvRows::Cpu(c) => KvRows::Cpu(c.cut_to(n)),
            KvRows::Gpu(g) => KvRows::Gpu(
                GpuKv {
                    len: if n < g.len {
                        n as usize
                    } else {
                        g.len
                    },
                    ..g
                },
            ),
        }
    }

    /// The state can take `n` bytes on its device: those of its buffers, or of places for all of its
    /// elements. How many places more there are depends on the allocator.
    pub open spec fn occupies(self, n: usize) -> bool {
        match self {
            KvRows::Cpu(c) => c.occupies(n),
            KvRows::Gpu(g) => n == g.bytes,
        }
    }
}

impl<F, B> Kv<F, B> {
    /// What the cache holds.
    pub open spec fn view(&self) -> KvRows<F, B> {
        match *self {
            Kv::Cpu(c) => KvRows::Cpu(c@),
            Kv::Gpu(g) => KvRows::Gpu(g),
        }
    }

    /// Positions held.
    pub fn len(&self) -> (r: usize)
        ensures
            r == self@.len(),
    {
        match self {
            Kv::Cpu(c) => c.len,
            Kv::Gpu(g) => g.len,
        }
    }

    /// Whether the cache can be cut to `n` positions.
    pub fn can_truncate(&self, n: usize) -> (r: bool)
        ensures
            r == self@.can_cut(n as int),
    {
        match self {
            Kv::Cpu(c) => c.can_truncate(n),
            Kv::Gpu(_) => true,
        }
    }

    /// Drops everything after the first `n` positions.
    pub fn truncate(&mut self, n: usize)
        requires
            old(self)@.can_cut(n as int),
        ensures
            final(self)@ == old(self)@.cut_to(n as nat),
    {
        match self {
            Kv::Cpu(c) => c.truncate(n),
            Kv::Gpu(g) => g.truncate(n),
        }
    }

    /// Bytes that the cache takes on its device. For a cache in main memory at least those of its
    /// elements; how many more depends on the allocator.
    pub fn bytes(&self) -> (r: usize)
        ensures
            self@.occupies(r),
            match self@ {
                KvRows::Cpu(c) => r >= capped(all_used(c.layers)),
                KvRows::Gpu(g) => r == g.bytes,
            },
    {
        match self {
            Kv::Cpu(c) => c.bytes(),
            Kv::Gpu(g) => g.bytes(),
        }
    }
}

/// Where rows of `stride` stand one behind the other, a row that is written at a position is what
/// stands there then, and every other row stands as it stood.
pub proof fn written_rows_stand<T>(s: Seq<T>, p: int, q: int, stride: int, row: Seq<T>)
    requires
        0 <= p,
        0 <= q,
        0 <= stride,
        row.len() == stride,
        p * stride + stride <= s.len(),
        q * stride + stride <= s.len(),
    ensures
        ({
            let t = overwritten(s, p * stride, row);
            &&& t.len() == s.len()
            &&& t.subrange(p * stride, p * stride + stride) == row
            &&& q != p ==> t.subrange(q * stride, q * stride + stride) == s.subrange(
                q * stride,
                q * stride + stride,
            )
        }),
{
    let t = overwritten(s, p * stride, row);
    assert(0 <= p * stride && 0 <= q * stride) by (nonlinear_arith)
        requires
            0 <= p,
            0 <= q,
            0 <= stride,
    ;
    assert(q < p ==> q * stride + stride <= p * stride) by (nonlinear_arith)
        requires
            0 <= stride,
    ;
    assert(p < q ==> p * stride + stride <= q * stride) by (nonlinear_arith)
        requires
            0 <= stride,
    ;
    assert(t.subrange(p * stride, p * stride + stride) =~= row);
    if q != p {
        assert(t.subrange(q * stride, q * stride + stride) =~= s.subrange(
            q * stride,
            q * stride + stride,
        ));
    }
}

/// Storing a position puts its key among the keys and its value among the values.
pub proof fn stored_positions_stand<F>(
    ck: Seq<F>,
    cv: Seq<F>,
    p: int,
    stride: int,
    k: Seq<F>,
    v: Seq<F>,
)
    requires
        0 <= p,
        k.len() == stride,
        v.len() == stride,
        p * stride + stride <= ck.len(),
        p * stride + stride <= cv.len(),
    ensures
        with_row(LayerRows::Kv { k: ck, v: cv }, p, stride, k, v) matches LayerRows::Kv {
            k: nk,
            v: nv,
        } && {
            &&& nk.subrange(p * stride, p * stride + stride) == k
            &&& nv.subrange(p * stride, p * stride + stride) == v
            &&& nk.len() == ck.len()
            &&& nv.len() == cv.len()
        },
{
    written_rows_stand(ck, p, p, stride, k);
    written_rows_stand(cv, p, p, stride, v);
}

/// Storing the codes of a position puts them among the codes and their scales among the scales, keys
/// with keys and values with values.
pub proof fn stored_codes_stand<F>(
    l: LayerRows<F>,
    p: int,
    stride: int,
    heads: int,
    k: Seq<i8>,
    v: Seq<i8>,
    ks: Seq<F>,
    vs: Seq<F>,
)
    requires
        0 <= p,
        k.len() == stride,
        v.len() == stride,
        ks.len() == heads,
        vs.len() == heads,
        l matches LayerRows::Kv8 { k: ck, v: cv, ks: cks, vs: cvs } && {
            &&& p * stride + stride <= ck.len()
            &&& p * stride + stride <= cv.len()
            &&& p * heads + heads <= cks.len()
            &&& p * heads + heads <= cvs.len()
        },
    ensures
        with_codes(l, p, stride, heads, k, v, ks, vs) matches LayerRows::Kv8 {
            k: nk,
            v: nv,
            ks: nks,
            vs: nvs,
        } && {
            &&& nk.subrange(p * stride, p * stride + stride) == k
            &&& nv.subrange(p * stride, p * stride + stride) == v
            &&& nks.subrange(p * heads, p * heads + heads) == ks
            &&& nvs.subrange(p * heads, p * heads + heads) == vs
        },
{
    match l {
        LayerRows::Kv8 { k: ck, v: cv, ks: cks, vs: cvs } => {
            written_rows_stand(ck, p, p, stride, k);
            written_rows_stand(cv, p, p, stride, v);
            written_rows_stand(cks, p, p, heads, ks);
            written_rows_stand(cvs, p, p, heads, vs);
        },
        _ => {},
    }
}

/// A cache without recurrent layers can be cut anywhere, and then counts the positions that are left;
/// one with recurrent layers can be cut nowhere but where it ends.
pub proof fn recurrent_state_stays<F>(c: CacheRows<F>, n: nat)
    ensures
        !c.hybrid ==> c.can_cut(n as int),
        c.hybrid && c.can_cut(n as int) ==> n == c.len,
        c.cut_to(n).len <= n,
        c.cut_to(n).len <= c.len,
        n <= c.len ==> c.cut_to(n).len == n,
{
}

/// The rows of the positions that are left stay as they were when a cache is cut.
pub proof fn cutting_keeps_rows<T>(s: Seq<T>, n: int, p: int, stride: int)
    requires
        0 <= p < n,
        0 <= stride,
        n * stride <= s.len(),
    ensures
        cut(s, n * stride).len() == n * stride,
        cut(s, n * stride).subrange(p * stride, p * stride + stride) == s.subrange(
            p * stride,
            p * stride + stride,
        ),
{
    assert(0 <= p * stride && p * stride + stride <= n * stride) by (nonlinear_arith)
        requires
            0 <= p < n,
            0 <= stride,
    ;
    assert(cut(s, n * stride).subrange(p * stride, p * stride + stride) =~= s.subrange(
        p * stride,
        p * stride + stride,
    ));
}

/// A fresh layer holds nothing. A layer that attends with softmax has rows, of codes where those are
/// asked for, and every other layer has recurrent state.
pub proof fn fresh_layers_are_of_their_kind<F>(c: Config, int8: bool, l: int)
    ensures
        c.full(l) && int8 <==> empty_layer::<F>(c, int8, l) is Kv8,
        c.full(l) && !int8 <==> empty_layer::<F>(c, int8, l) is Kv,
        !c.full(l) <==> empty_layer::<F>(c, int8, l) is Lin,
        holds_rows(empty_layer::<F>(c, int8, l), 0, 1, 1),
{
}

/// A fresh cache.
pub open spec fn fresh_cache<F>(c: Config, int8: bool) -> CacheRows<F> {
    CacheRows {
        layers: Seq::new(c.layers as nat, |l: int| empty_layer::<F>(c, int8, l)),
        stride: (c.kv_heads * c.head_dim) as nat,
        kv_heads: c.kv_heads as nat,
        len: 0,
        hybrid: c.lin is Some,
    }
}

/// The cache of a recurrent network can never be cut, however far it has come; that of any other
/// network always can.
pub proof fn recurrent_caches_are_not_cut<F>(c: Config, int8: bool, len: nat, n: int)
    requires
        n != len,
    ensures
        c.lin is Some ==> !(CacheRows { len, ..fresh_cache::<F>(c, int8) }).can_cut(n),
        c.lin is None ==> (CacheRows { len, ..fresh_cache::<F>(c, int8) }).can_cut(n),
        fresh_cache::<F>(c, int8).len == 0,
        fresh_cache::<F>(c, int8).layers.len() == c.layers,
{
}

/// Recurrent state is made once, with a number for every pair of a key's and a value's dimension in
/// every value head, and a window that is one shorter than the convolution for every channel; what
/// is there is kept.
pub proof fn recurrent_state_has_its_size<F>(
    state: Seq<F>,
    conv: Seq<F>,
    n: int,
    stride: int,
    heads: int,
    c: LinCfg,
    zero: F,
)
    requires
        c.conv_k >= 1,
    ensures
        rows_grown(
            LayerRows::Lin { state: seq![], conv: seq![] },
            n,
            stride,
            heads,
            Some(c),
            zero,
        ) matches LayerRows::Lin { state: s, conv: w } && {
            &&& s.len() == c.nv * c.dk * c.dv
            &&& w.len() == (2 * (c.nk * c.dk) + c.nv * c.dv) * (c.conv_k - 1)
            &&& forall|i: int| 0 <= i < s.len() ==> #[trigger] s[i] == zero
            &&& forall|i: int| 0 <= i < w.len() ==> #[trigger] w[i] == zero
        },
        state.len() > 0 ==> rows_grown(
            LayerRows::Lin { state, conv },
            n,
            stride,
            heads,
            Some(c),
            zero,
        ) == (LayerRows::Lin { state, conv }),
{
    assert(0 <= c.nv * c.dk * c.dv) by (nonlinear_arith);
    assert(0 <= (2 * (c.nk * c.dk) + c.nv * c.dv) * (c.conv_k - 1)) by (nonlinear_arith)
        requires
            c.conv_k >= 1,
    ;
}

/// Wherever a state lives, cutting it leaves the positions asked for, or all where it holds fewer; on
/// the device every state can be cut, and its buffers stay.
pub proof fn states_are_cut_alike<F, B>(s: KvRows<F, B>, n: nat)
    requires
        n <= usize::MAX,
    ensures
        s.cut_to(n).len() == (if n < s.len() {
            n
        } else {
            s.len()
        }),
        s is Gpu ==> s.can_cut(n as int),
        s matches KvRows::Cpu(c) ==> (s.can_cut(n as int) <==> !c.hybrid || n == c.len),
        s matches KvRows::Gpu(g) ==> (s.cut_to(n) matches KvRows::Gpu(h) && h.buffers == g.buffers
            && h.bytes == g.bytes),
{
}

/// The bytes of a layer: four for every number of a key and of a value, or one for every code and four
/// for every scale of both, or four for every number of recurrent state.
pub proof fn layers_take_their_bytes(k: usize, ks: usize, state: usize, conv: usize)
    ensures
        room_bytes(Room::Kv { k }) == 4 * k + 4 * k,
        room_bytes(Room::Kv8 { k, ks }) == (k + 4 * ks) + (k + 4 * ks),
        room_bytes(Room::Lin { state, conv }) == 4 * state + 4 * conv,
{
}

/// The bytes of a device's keys: four for every number of a position, for all positions of the context
/// but at most 2048.
pub proof fn device_keys_take_their_bytes(c: Config)
    ensures
        c.max_context <= 2048 ==> gpu_layer_bytes(c) == 4 * (c.max_context * (c.kv_heads
            * c.head_dim)),
        c.max_context > 2048 ==> gpu_layer_bytes(c) == 4 * (2048 * (c.kv_heads * c.head_dim)),
{
    let w = c.kv_heads * c.head_dim;
    assert(c.max_context * w * 4 == 4 * (c.max_context * w)) by (nonlinear_arith);
}

} // verus!
