//! The network: its parts, what each is loaded from, and the sums that are reported of it. `F` is
//! the element type of its vectors.

use vstd::prelude::*;
use vstd::string::*;

use crate::config::Config;
use crate::kv;
use crate::weight;
use crate::weight::Weight;

verus! {

/// `n`, or 1000 where `n` is larger.
pub open spec fn at_most_1000(n: u32) -> u32 {
    if n < 1000 {
        n
    } else {
        1000
    }
}

/// How much of a load is done, in thousandths.
pub fn set_progress(done: usize, total: usize) -> (r: u32)
    requires
        done * 1000 <= usize::MAX,
    ensures
        total == 0 ==> r == 0,
        total > 0 && done <= total ==> r == (done * 1000) / (total as int),
        total > 0 ==> r == at_most_1000(((done * 1000) / (total as int)) as u32),
{
    if total == 0 {
        return 0;
    }
    let permille: u32 = (done * 1000 / total) as u32;
    proof {
        if done <= total {
            assert((done * 1000) / (total as int) <= 1000) by (nonlinear_arith)
                requires
                    done <= total,
                    total > 0,
            ;
        }
    }
    if permille < 1000 {
        permille
    } else {
        1000
    }
}

// ---------------------------------------------------------------------------------------
// Parts
// ---------------------------------------------------------------------------------------

/// A gated feed-forward network.
pub struct Expert {
    pub w_gate: Weight,
    pub w_up: Weight,
    pub w_down: Weight,
}

/// The feed-forward part of a layer.
pub enum Mlp<F> {
    Dense(Expert),
    Moe { router: Vec<F>, experts: Vec<Expert> },
}

/// The attention part of a layer.
pub enum Attn<F> {
    /// Softmax attention; with `gate`, the query projection also gives a gate for each head.
    Full {
        wq: Weight,
        wk: Weight,
        wv: Weight,
        wo: Weight,
        q_norm: Vec<F>,
        k_norm: Vec<F>,
        gate: bool,
    },
    /// Linear attention with a gated delta rule.
    Lin {
        w_qkv: Weight,
        w_z: Weight,
        w_b: Weight,
        w_a: Weight,
        conv_w: Vec<F>,
        dt_bias: Vec<F>,
        a_log: Vec<F>,
        norm_w: Vec<F>,
        w_out: Weight,
    },
}

/// A layer.
pub struct Layer<F> {
    pub ln1: Vec<F>,
    pub attn: Attn<F>,
    pub ln2: Vec<F>,
    pub mlp: Mlp<F>,
}

/// A head that predicts the token after next.
pub struct Mtp<F> {
    pub fc: Weight,
    pub norm_embed: Vec<F>,
    pub norm_hidden: Vec<F>,
    pub layer: Layer<F>,
    pub norm: Vec<F>,
}

/// The network.
pub struct Model<F> {
    pub config: Config,
    pub mtp: Option<Mtp<F>>,
    pub inv_freq: Vec<F>,
    pub embed: Vec<u16>,
    pub layers: Vec<Layer<F>>,
    pub norm: Vec<F>,
    pub lm_head: Weight,
    /// Number of weights, and bytes of weights that a token touches.
    pub stats: (usize, usize),
}

/// The matrix is kept as codes.
pub open spec fn coded(w: Weight) -> bool {
    !(w is Bf16)
}

/// Every matrix of the network is kept as codes.
pub open spec fn all_coded(e: Expert) -> bool {
    coded(e.w_gate) && coded(e.w_up) && coded(e.w_down)
}

/// Whether a matrix is kept as codes.
fn is_coded(w: &Weight) -> (r: bool)
    ensures
        r == coded(*w),
{
    match w {
        Weight::Bf16 { .. } => false,
        _ => true,
    }
}

/// Whether the chosen experts of a mixture are computed side by side: there is one token, and every
/// expert is kept as codes.
pub fn side_by_side(tokens: usize, experts: &Vec<Expert>) -> (r: bool)
    ensures
        r == (tokens == 1 && forall|i: int|
            0 <= i < experts@.len() ==> all_coded(#[trigger] experts@[i])),
{
    if tokens != 1 {
        return false;
    }
    for i in 0..experts.len()
        invariant
            tokens == 1,
            forall|j: int| 0 <= j < i ==> all_coded(#[trigger] experts@[j]),
    {
        let e = &experts[i];
        if !(is_coded(&e.w_gate) && is_coded(&e.w_up) && is_coded(&e.w_down)) {
            assert(!all_coded(experts@[i as int]));
            return false;
        }
    }
    true
}

impl Expert {
    /// Bytes of its weights.
    pub open spec fn size(self) -> int {
        self.w_gate@.size() + self.w_up@.size() + self.w_down@.size()
    }

    /// Number of its weights.
    pub open spec fn count(self) -> int {
        weights_in(self.w_gate@) + weights_in(self.w_up@) + weights_in(self.w_down@)
    }
}

/// Number of weights.
pub open spec fn weights_in(w: weight::Stored) -> int {
    w.rows() * w.cols()
}

/// Bytes of weights.
pub open spec fn total_size(s: Seq<weight::Stored>) -> int
    decreases s.len(),
{
    if s.len() == 0 {
        0
    } else {
        total_size(s.drop_last()) + s.last().size()
    }
}

/// Number of weights.
pub open spec fn total_count(s: Seq<weight::Stored>) -> int
    decreases s.len(),
{
    if s.len() == 0 {
        0
    } else {
        total_count(s.drop_last()) + weights_in(s.last())
    }
}

/// Bytes of experts' weights.
pub open spec fn experts_size(s: Seq<Expert>) -> int
    decreases s.len(),
{
    if s.len() == 0 {
        0
    } else {
        experts_size(s.drop_last()) + s.last().size()
    }
}

/// Number of experts' weights.
pub open spec fn experts_count(s: Seq<Expert>) -> int
    decreases s.len(),
{
    if s.len() == 0 {
        0
    } else {
        experts_count(s.drop_last()) + s.last().count()
    }
}

impl<F> Attn<F> {
    /// The projections, in order.
    pub open spec fn matrices(self) -> Seq<weight::Stored> {
        match self {
            Attn::Full { wq, wk, wv, wo, q_norm, k_norm, gate } => seq![wq@, wk@, wv@, wo@],
            Attn::Lin { w_qkv, w_z, w_b, w_a, conv_w, dt_bias, a_log, norm_w, w_out } => seq![
                w_qkv@,
                w_z@,
                w_b@,
                w_a@,
                w_out@,
            ],
        }
    }

    /// The projections, in order.
    pub fn weights(&self) -> (r: Vec<&Weight>)
        ensures
            r@.map_values(|w: &Weight| w@) == self.matrices(),
    {
        let mut out: Vec<&Weight> = Vec::new();
        match self {
            Attn::Full { wq, wk, wv, wo, .. } => {
                out.push(wq);
                out.push(wk);
                out.push(wv);
                out.push(wo);
            },
            Attn::Lin { w_qkv, w_z, w_b, w_a, w_out, .. } => {
                out.push(w_qkv);
                out.push(w_z);
                out.push(w_b);
                out.push(w_a);
                out.push(w_out);
            },
        }
        assert(out@.map_values(|w: &Weight| w@) =~= self.matrices());
        out
    }
}

/// `a + b`, up to the largest machine word.
fn plus(a: usize, b: usize) -> (r: usize)
    ensures
        r == kv::capped(a + b),
{
    match a.checked_add(b) {
        Some(s) => s,
        None => usize::MAX,
    }
}

/// Bytes and number of weights, each up to the largest machine word.
fn sum_weights(ws: &Vec<&Weight>) -> (r: (usize, usize))
    ensures
        r.0 == kv::capped(total_size(ws@.map_values(|w: &Weight| w@))),
        r.1 == kv::capped(total_count(ws@.map_values(|w: &Weight| w@))),
        total_size(ws@.map_values(|w: &Weight| w@)) >= 0,
        total_count(ws@.map_values(|w: &Weight| w@)) >= 0,
{
    let ghost all = ws@.map_values(|w: &Weight| w@);
    let (mut size, mut count): (usize, usize) = (0, 0);
    for i in 0..ws.len()
        invariant
            all == ws@.map_values(|w: &Weight| w@),
            size == kv::capped(total_size(all.take(i as int))),
            count == kv::capped(total_count(all.take(i as int))),
            total_size(all.take(i as int)) >= 0,
            total_count(all.take(i as int)) >= 0,
    {
        assert(all.take(i + 1).drop_last() =~= all.take(i as int));
        assert(all[i as int] == ws@[i as int]@);
        proof {
            let w = all[i as int];
            assert(w.rows() * w.cols() >= 0) by (nonlinear_arith);
        }
        size = plus(size, ws[i].bytes());
        count = plus(count, ws[i].params());
    }
    assert(all.take(all.len() as int) =~= all);
    (size, count)
}

impl Expert {
    /// Bytes and number of the weights, each up to the largest machine word.
    fn sums(&self) -> (r: (usize, usize))
        ensures
            r.0 == kv::capped(self.size()),
            r.1 == kv::capped(self.count()),
            self.size() >= 0,
            self.count() >= 0,
    {
        proof {
            let (a, b, c) = (self.w_gate@, self.w_up@, self.w_down@);
            assert(a.rows() * a.cols() >= 0 && b.rows() * b.cols() >= 0 && c.rows() * c.cols() >= 0)
                by (nonlinear_arith);
        }
        (
            plus(plus(self.w_gate.bytes(), self.w_up.bytes()), self.w_down.bytes()),
            plus(plus(self.w_gate.params(), self.w_up.params()), self.w_down.params()),
        )
    }
}

/// Bytes of layers' weights that have to live on a device: all of them, and of a mixture those of
/// every expert.
pub open spec fn device_size<F>(s: Seq<Layer<F>>) -> int
    decreases s.len(),
{
    if s.len() == 0 {
        0
    } else {
        device_size(s.drop_last()) + layer_size(s.last())
    }
}

/// Number of a layer's weights.
pub open spec fn layer_count<F>(l: Layer<F>) -> int {
    total_count(l.attn.matrices()) + (match l.mlp {
        Mlp::Dense(e) => e.count(),
        Mlp::Moe { router, experts } => experts_count(experts@),
    })
}

/// Bytes of a layer's weights.
pub open spec fn layer_size<F>(l: Layer<F>) -> int {
    total_size(l.attn.matrices()) + (match l.mlp {
        Mlp::Dense(e) => e.size(),
        Mlp::Moe { router, experts } => experts_size(experts@),
    })
}

/// Bytes of a layer's weights that a token touches: of the experts, as many as a token takes.
pub open spec fn layer_active<F>(l: Layer<F>, per_token: int) -> int {
    total_size(l.attn.matrices()) + (match l.mlp {
        Mlp::Dense(e) => e.size(),
        Mlp::Moe { router, experts } => experts@[0].size() * per_token,
    })
}

/// Number of layers' weights, their bytes, and the bytes that a token touches.
pub open spec fn layer_sums<F>(s: Seq<Layer<F>>, per_token: int) -> (int, int, int)
    decreases s.len(),
{
    if s.len() == 0 {
        (0, 0, 0)
    } else {
        let (a, b, c) = layer_sums(s.drop_last(), per_token);
        (
            a + layer_count(s.last()),
            b + layer_size(s.last()),
            c + layer_active(s.last(), per_token),
        )
    }
}

/// A mixture of experts has experts.
pub open spec fn has_experts<F>(l: Layer<F>) -> bool {
    l.mlp matches Mlp::Moe { router, experts } ==> experts@.len() > 0
}

/// The capped product of a capped number is the capped product.
proof fn lemma_capped_product(b: int, t: int)
    requires
        b >= 0,
        t >= 0,
    ensures
        kv::capped(kv::capped(b) * t) == kv::capped(b * t),
        b * t >= 0,
{
    assert(b * t >= 0) by (nonlinear_arith)
        requires
            b >= 0,
            t >= 0,
    ;
    if b >= usize::MAX && t >= 1 {
        assert(b * t >= usize::MAX && usize::MAX * t >= usize::MAX) by (nonlinear_arith)
            requires
                b >= usize::MAX,
                t >= 1,
        ;
    } else if t == 0 {
        assert(b * t == 0 && usize::MAX * t == 0) by (nonlinear_arith)
            requires
                t == 0,
        ;
    }
}

impl<F> Model<F> {
    /// Bytes of weights that have to live on a device, up to the largest machine word.
    pub fn weight_bytes(&self) -> (r: usize)
        ensures
            r == kv::capped(self.lm_head@.size() + device_size(self.layers@)),
    {
        let mut b: usize = self.lm_head.bytes();
        assert(self.layers@.take(0) =~= seq![]);
        for i in 0..self.layers.len()
            invariant
                b == kv::capped(self.lm_head@.size() + device_size(self.layers@.take(i as int))),
                device_size(self.layers@.take(i as int)) >= 0,
        {
            assert(self.layers@.take(i + 1).drop_last() =~= self.layers@.take(i as int));
            let l = &self.layers[i];
            let (size, _) = sum_weights(&l.attn.weights());
            b = plus(b, size);
            match &l.mlp {
                Mlp::Dense(e) => {
                    b = plus(b, e.sums().0);
                },
                Mlp::Moe { router, experts } => {
                    b = plus(b, sum_experts(experts).0);
                },
            }
        }
        assert(self.layers@.take(self.layers@.len() as int) =~= self.layers@);
        b
    }

    /// Number of weights, their bytes, and the bytes that a token touches, each up to the largest
    /// machine word.
    pub fn sums(&self) -> (r: (usize, usize, usize))
        requires
            forall|i: int| 0 <= i < self.layers@.len() ==> has_experts(#[trigger] self.layers@[i]),
        ensures
            ({
                let (a, b, c) = layer_sums(self.layers@, self.config.experts_per_tok as int);
                &&& r.0 == kv::capped(weights_in(self.lm_head@) + a)
                &&& r.1 == kv::capped(self.lm_head@.size() + b)
                &&& r.2 == kv::capped(self.lm_head@.size() + c)
            }),
    {
        let per: usize = self.config.experts_per_tok;
        let mut params: usize = self.lm_head.params();
        let mut bytes: usize = self.lm_head.bytes();
        let mut active: usize = self.lm_head.bytes();
        proof {
            assert(self.layers@.take(0) =~= seq![]);
            let w = self.lm_head@;
            assert(w.rows() * w.cols() >= 0) by (nonlinear_arith);
        }
        for i in 0..self.layers.len()
            invariant
                per == self.config.experts_per_tok,
                forall|i: int|
                    0 <= i < self.layers@.len() ==> has_experts(#[trigger] self.layers@[i]),
                weights_in(self.lm_head@) >= 0,
                ({
                    let (a, b, c) = layer_sums(self.layers@.take(i as int), per as int);
                    &&& params == kv::capped(weights_in(self.lm_head@) + a)
                    &&& bytes == kv::capped(self.lm_head@.size() + b)
                    &&& active == kv::capped(self.lm_head@.size() + c)
                    &&& a >= 0
                    &&& b >= 0
                    &&& c >= 0
                }),
        {
            assert(self.layers@.take(i + 1).drop_last() =~= self.layers@.take(i as int));
            assert(has_experts(self.layers@[i as int]));
            let l = &self.layers[i];
            let (size, count) = sum_weights(&l.attn.weights());
            params = plus(params, count);
            bytes = plus(bytes, size);
            active = plus(active, size);
            match &l.mlp {
                Mlp::Dense(e) => {
                    let (size, count) = e.sums();
                    params = plus(params, count);
                    bytes = plus(bytes, size);
                    active = plus(active, size);
                },
                Mlp::Moe { router, experts } => {
                    let (size, count) = sum_experts(experts);
                    params = plus(params, count);
                    bytes = plus(bytes, size);
                    let (one, _) = experts[0].sums();
                    let taken: usize = match one.checked_mul(per) {
                        Some(t) => t,
                        None => usize::MAX,
                    };
                    proof {
                        lemma_capped_product(experts@[0].size(), per as int);
                    }
                    active = plus(active, taken);
                },
            }
        }
        assert(self.layers@.take(self.layers@.len() as int) =~= self.layers@);
        (params, bytes, active)
    }
}

/// Bytes and number of experts' weights, each up to the largest machine word.
fn sum_experts(s: &Vec<Expert>) -> (r: (usize, usize))
    ensures
        r.0 == kv::capped(experts_size(s@)),
        r.1 == kv::capped(experts_count(s@)),
        experts_size(s@) >= 0,
        experts_count(s@) >= 0,
{
    let (mut size, mut count): (usize, usize) = (0, 0);
    for i in 0..s.len()
        invariant
            size == kv::capped(experts_size(s@.take(i as int))),
            count == kv::capped(experts_count(s@.take(i as int))),
            experts_size(s@.take(i as int)) >= 0,
            experts_count(s@.take(i as int)) >= 0,
    {
        assert(s@.take(i + 1).drop_last() =~= s@.take(i as int));
        let (a, b) = s[i].sums();
        size = plus(size, a);
        count = plus(count, b);
    }
    assert(s@.take(s@.len() as int) =~= s@);
    (size, count)
}

/// The bytes that have to live on a device are all bytes of the layers' weights.
pub proof fn devices_hold_everything<F>(s: Seq<Layer<F>>, per_token: int)
    ensures
        device_size(s) == layer_sums(s, per_token).1,
    decreases s.len(),
{
    if s.len() > 0 {
        devices_hold_everything(s.drop_last(), per_token);
    }
}

/// A token touches every weight of a network without mixtures.
pub proof fn dense_networks_are_touched_whole<F>(s: Seq<Layer<F>>, per_token: int)
    requires
        forall|i: int| 0 <= i < s.len() ==> (#[trigger] s[i]).mlp is Dense,
    ensures
        layer_sums(s, per_token).2 == layer_sums(s, per_token).1,
    decreases s.len(),
{
    if s.len() > 0 {
        let p = s.drop_last();
        assert forall|i: int| 0 <= i < p.len() implies (#[trigger] p[i]).mlp is Dense by {
            assert(p[i] == s[i]);
        }
        assert(s[s.len() - 1].mlp is Dense);
        dense_networks_are_touched_whole(p, per_token);
    }
}

/// Experts of one size take that size times their number; a token touches its own share of them.
pub proof fn experts_add_up(s: Seq<Expert>, size: int)
    requires
        forall|i: int| 0 <= i < s.len() ==> (#[trigger] s[i]).size() == size,
    ensures
        experts_size(s) == s.len() * size,
    decreases s.len(),
{
    if s.len() > 0 {
        let p = s.drop_last();
        assert forall|i: int| 0 <= i < p.len() implies (#[trigger] p[i]).size() == size by {
            assert(p[i] == s[i]);
        }
        experts_add_up(p, size);
        assert(s[s.len() - 1].size() == size);
        assert(s.len() * size == (s.len() - 1) * size + size) by (nonlinear_arith);
    } else {
        assert(s.len() * size == 0) by (nonlinear_arith)
            requires
                s.len() == 0,
        ;
    }
}

/// A layer's weights are those of its projections and of its feed-forward part, each counted once.
pub proof fn layers_count_every_matrix<F>(l: Layer<F>)
    ensures
        ({
            let rest = match l.mlp {
                Mlp::Dense(e) => (
                    e.w_gate@.size() + e.w_up@.size() + e.w_down@.size(),
                    e.w_gate@.rows() * e.w_gate@.cols() + e.w_up@.rows() * e.w_up@.cols()
                        + e.w_down@.rows() * e.w_down@.cols(),
                ),
                Mlp::Moe { router, experts } => (experts_size(experts@), experts_count(experts@)),
            };
            match l.attn {
                Attn::Full { wq, wk, wv, wo, q_norm, k_norm, gate } => {
                    &&& layer_size(l) == wq@.size() + wk@.size() + wv@.size() + wo@.size() + rest.0
                    &&& layer_count(l) == wq@.rows() * wq@.cols() + wk@.rows() * wk@.cols()
                        + wv@.rows() * wv@.cols() + wo@.rows() * wo@.cols() + rest.1
                },
                Attn::Lin { w_qkv, w_z, w_b, w_a, conv_w, dt_bias, a_log, norm_w, w_out } => {
                    &&& layer_size(l) == w_qkv@.size() + w_z@.size() + w_b@.size() + w_a@.size()
                        + w_out@.size() + rest.0
                    &&& layer_count(l) == w_qkv@.rows() * w_qkv@.cols() + w_z@.rows() * w_z@.cols()
                        + w_b@.rows() * w_b@.cols() + w_a@.rows() * w_a@.cols() + w_out@.rows()
                        * w_out@.cols() + rest.1
                },
            }
        }),
{
    reveal_with_fuel(total_size, 6);
    reveal_with_fuel(total_count, 6);
    match l.attn {
        Attn::Full { wq, wk, wv, wo, .. } => {
            let s = seq![wq@, wk@, wv@, wo@];
            assert(s.drop_last() =~= seq![wq@, wk@, wv@]);
            assert(s.drop_last().drop_last() =~= seq![wq@, wk@]);
            assert(s.drop_last().drop_last().drop_last() =~= seq![wq@]);
            assert(s.drop_last().drop_last().drop_last().drop_last() =~= seq![]);
        },
        Attn::Lin { w_qkv, w_z, w_b, w_a, w_out, .. } => {
            let s = seq![w_qkv@, w_z@, w_b@, w_a@, w_out@];
            assert(s.drop_last() =~= seq![w_qkv@, w_z@, w_b@, w_a@]);
            assert(s.drop_last().drop_last() =~= seq![w_qkv@, w_z@, w_b@]);
            assert(s.drop_last().drop_last().drop_last() =~= seq![w_qkv@, w_z@]);
            assert(s.drop_last().drop_last().drop_last().drop_last() =~= seq![w_qkv@]);
        },
    }
}

/// The weights of experts of one shape are that many times the weights of one.
pub proof fn experts_count_up(s: Seq<Expert>, count: int)
    requires
        forall|i: int| 0 <= i < s.len() ==> (#[trigger] s[i]).count() == count,
    ensures
        experts_count(s) == s.len() * count,
    decreases s.len(),
{
    if s.len() > 0 {
        let p = s.drop_last();
        assert forall|i: int| 0 <= i < p.len() implies (#[trigger] p[i]).count() == count by {
            assert(p[i] == s[i]);
        }
        experts_count_up(p, count);
        assert(s[s.len() - 1].count() == count);
        assert(s.len() * count == (s.len() - 1) * count + count) by (nonlinear_arith);
    } else {
        assert(s.len() * count == 0) by (nonlinear_arith)
            requires
                s.len() == 0,
        ;
    }
}

/// A token that takes every expert of a mixture of equal experts touches the whole layer; one that
/// takes one expert less touches that expert's bytes less.
pub proof fn tokens_touch_their_share<F>(l: Layer<F>, size: int)
    requires
        l.mlp matches Mlp::Moe { router, experts } && experts@.len() > 0 && forall|i: int|
            0 <= i < experts@.len() ==> (#[trigger] experts@[i]).size() == size,
    ensures
        l.mlp matches Mlp::Moe { router, experts } && {
            &&& layer_active(l, experts@.len() as int) == layer_size(l)
            &&& layer_active(l, experts@.len() - 1) == layer_size(l) - size
        },
{
    match l.mlp {
        Mlp::Moe { router, experts } => {
            experts_add_up(experts@, size);
            assert(experts@[0].size() == size);
            let n = experts@.len() as int;
            assert(size * n == n * size) by (nonlinear_arith);
            assert(size * (n - 1) == n * size - size) by (nonlinear_arith);
        },
        _ => {},
    }
}

} // verus!
