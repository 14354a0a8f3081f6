//! What each part of a network is loaded from: the names of the tensors in the checkpoint and the
//! form in which each matrix is kept.

use vstd::prelude::*;
use vstd::string::*;

use crate::config::Config;
use crate::kv;
use crate::kv::KvCache;
use crate::model::{Attn, Expert, Layer, Mlp, Model};
use crate::safetensors::SafeTensors;
use crate::text;
use crate::wcache;
use crate::weight;
use crate::weight::{Format, Weight};

verus! {

/// A matrix to load.
pub struct Matrix {
    pub name: String,
    pub format: Format,
}

/// A feed-forward network to load.
pub struct ExpertPlan {
    pub w_gate: Matrix,
    pub w_up: Matrix,
    pub w_down: Matrix,
}

/// The feed-forward part of a layer to load.
pub enum MlpPlan {
    Dense(ExpertPlan),
    Moe { router: String, experts: Vec<ExpertPlan> },
}

/// The attention part of a layer to load. `q_norm` and `k_norm` are normalisation weights.
pub enum AttnPlan {
    Full { wq: Matrix, wk: Matrix, wv: Matrix, wo: Matrix, q_norm: String, k_norm: String },
    Lin {
        w_qkv: Matrix,
        w_z: Matrix,
        w_b: Matrix,
        w_a: Matrix,
        conv_w: String,
        dt_bias: String,
        a_log: String,
        norm_w: String,
        w_out: Matrix,
    },
}

/// A layer to load. `ln1` and `ln2` are normalisation weights.
pub struct LayerPlan {
    pub ln1: String,
    pub attn: AttnPlan,
    pub ln2: String,
    pub mlp: MlpPlan,
}

/// A prediction head to load. Its vectors are normalisation weights.
pub struct MtpPlan {
    pub fc: Matrix,
    pub norm_embed: String,
    pub norm_hidden: String,
    pub norm: String,
    pub layer: LayerPlan,
}

/// A network to load. `norm` is normalisation weights.
pub struct ModelPlan {
    pub layers: Vec<LayerPlan>,
    pub mtp: Option<MtpPlan>,
    pub embed: String,
    pub norm: String,
    pub lm_head: Matrix,
}

/// `m` is the matrix of that name, kept in that form.
pub open spec fn is_matrix(m: Matrix, name: Seq<char>, f: Format) -> bool {
    m.name@ == name && m.format == f
}

/// What the names of layer `l` start with.
pub open spec fn layer_prefix(prefix: Seq<char>, l: nat) -> Seq<char> {
    prefix + "layers."@ + text::decimal(l) + "."@
}

/// What the names of expert `e` of a layer start with.
pub open spec fn expert_prefix(p: Seq<char>, e: nat) -> Seq<char> {
    p + "mlp.experts."@ + text::decimal(e) + "."@
}

/// The names of the projections of softmax attention.
pub open spec fn full_names(p: Seq<char>) -> Seq<Seq<char>> {
    seq![
        p + "self_attn.q_proj.weight"@,
        p + "self_attn.k_proj.weight"@,
        p + "self_attn.v_proj.weight"@,
        p + "self_attn.o_proj.weight"@,
    ]
}

/// The names of the projections of linear attention.
pub open spec fn lin_names(p: Seq<char>) -> Seq<Seq<char>> {
    seq![
        p + "linear_attn.in_proj_qkv.weight"@,
        p + "linear_attn.in_proj_z.weight"@,
        p + "linear_attn.in_proj_b.weight"@,
        p + "linear_attn.in_proj_a.weight"@,
        p + "linear_attn.out_proj.weight"@,
    ]
}

/// The names of a feed-forward network's matrices; `p` ends before `gate_proj`.
pub open spec fn expert_names(p: Seq<char>) -> Seq<Seq<char>> {
    seq![p + "gate_proj.weight"@, p + "up_proj.weight"@, p + "down_proj.weight"@]
}

/// `e` is the feed-forward network under `p`.
pub open spec fn expert_planned(e: ExpertPlan, p: Seq<char>, q: Format) -> bool {
    let names = expert_names(p);
    &&& is_matrix(e.w_gate, names[0], q)
    &&& is_matrix(e.w_up, names[1], q)
    &&& is_matrix(e.w_down, names[2], q)
}

/// `m` is the feed-forward part of the layer under `p`: a mixture of `moe` experts, or dense.
pub open spec fn mlp_planned(m: MlpPlan, p: Seq<char>, moe: Option<usize>, q: Format) -> bool {
    match moe {
        Some(n) => m matches MlpPlan::Moe { router, experts } && {
            &&& router@ == p + "mlp.gate.weight"@
            &&& experts@.len() == n
            &&& forall|e: int|
                0 <= e < n ==> expert_planned(
                    #[trigger] experts@[e],
                    expert_prefix(p, e as nat),
                    q,
                )
        },
        None => m matches MlpPlan::Dense(e) && expert_planned(e, p + "mlp."@, q),
    }
}

/// `a` is the attention part of the layer under `p`. Of linear attention, the two smallest
/// projections are kept in full precision.
pub open spec fn attn_planned(
    a: AttnPlan,
    p: Seq<char>,
    full: bool,
    q: Format,
    lq: Format,
) -> bool {
    if full {
        let names = full_names(p);
        a matches AttnPlan::Full { wq, wk, wv, wo, q_norm, k_norm } && {
            &&& is_matrix(wq, names[0], q)
            &&& is_matrix(wk, names[1], q)
            &&& is_matrix(wv, names[2], q)
            &&& is_matrix(wo, names[3], q)
            &&& q_norm@ == p + "self_attn.q_norm.weight"@
            &&& k_norm@ == p + "self_attn.k_norm.weight"@
        }
    } else {
        let names = lin_names(p);
        a matches AttnPlan::Lin { w_qkv, w_z, w_b, w_a, conv_w, dt_bias, a_log, norm_w, w_out } && {
            &&& is_matrix(w_qkv, names[0], lq)
            &&& is_matrix(w_z, names[1], lq)
            &&& is_matrix(w_b, names[2], Format::Bf16)
            &&& is_matrix(w_a, names[3], Format::Bf16)
            &&& is_matrix(w_out, names[4], lq)
            &&& conv_w@ == p + "linear_attn.conv1d.weight"@
            &&& dt_bias@ == p + "linear_attn.dt_bias"@
            &&& a_log@ == p + "linear_attn.A_log"@
            &&& norm_w@ == p + "linear_attn.norm.weight"@
        }
    }
}

/// `l` is the layer under `p`.
pub open spec fn layer_planned(
    l: LayerPlan,
    p: Seq<char>,
    full: bool,
    moe: Option<usize>,
    q: Format,
    lq: Format,
) -> bool {
    &&& l.ln1@ == p + "input_layernorm.weight"@
    &&& attn_planned(l.attn, p, full, q, lq)
    &&& l.ln2@ == p + "post_attention_layernorm.weight"@
    &&& mlp_planned(l.mlp, p, moe, q)
}

/// The form of linear attention's large projections: what was asked for; else eight bits where the
/// rest has four, and the form of the rest otherwise.
pub open spec fn lin_format(quant: Seq<char>, lin_quant: Option<Seq<char>>) -> Format {
    match lin_quant {
        Some(l) => weight::format_of(l),
        None => if quant == "q4"@ {
            Format::Q8
        } else {
            weight::format_of(quant)
        },
    }
}

/// The form of the last projection: eight bits where the rest has four and the network is recurrent.
pub open spec fn head_format(quant: Seq<char>, recurrent: bool) -> Format {
    if quant == "q4"@ && recurrent {
        Format::Q8
    } else {
        weight::format_of(quant)
    }
}

/// The tensor of the last projection: the embedding where there is no other.
pub open spec fn head_name(prefix: Seq<char>, own: bool) -> Seq<char> {
    if own {
        "lm_head.weight"@
    } else {
        prefix + "embed_tokens.weight"@
    }
}

/// The layer under `p` is a mixture of experts where it has a router.
pub open spec fn experts_of(
    tensors: Set<Seq<char>>,
    p: Seq<char>,
    experts: usize,
) -> Option<usize> {
    if tensors.contains(p + "mlp.gate.weight"@) {
        Some(experts)
    } else {
        None
    }
}

/// `m` is what the network `c` is loaded from, where the checkpoint holds `tensors`.
pub open spec fn model_planned(
    m: ModelPlan,
    c: Config,
    quant: Seq<char>,
    lin_quant: Option<Seq<char>>,
    tensors: Set<Seq<char>>,
) -> bool {
    let q = weight::format_of(quant);
    &&& m.layers@.len() == c.layers
    &&& forall|l: int|
        0 <= l < c.layers ==> {
            let p = layer_prefix(c.prefix@, l as nat);
            layer_planned(
                #[trigger] m.layers@[l],
                p,
                c.full(l),
                experts_of(tensors, p, c.num_experts),
                q,
                lin_format(quant, lin_quant),
            )
        }
    &&& match m.mtp {
        Some(h) => {
            &&& tensors.contains("mtp.fc.weight"@)
            &&& is_matrix(h.fc, "mtp.fc.weight"@, q)
            &&& h.norm_embed@ == "mtp.pre_fc_norm_embedding.weight"@
            &&& h.norm_hidden@ == "mtp.pre_fc_norm_hidden.weight"@
            &&& h.norm@ == "mtp.norm.weight"@
            &&& layer_planned(h.layer, "mtp.layers.0."@, true, None, q, q)
        },
        None => !tensors.contains("mtp.fc.weight"@),
    }
    &&& m.embed@ == c.prefix@ + "embed_tokens.weight"@
    &&& m.norm@ == c.prefix@ + "norm.weight"@
    &&& is_matrix(
        m.lm_head,
        head_name(c.prefix@, tensors.contains("lm_head.weight"@)),
        head_format(quant, c.lin is Some),
    )
}

/// `a` followed by `b`.
fn cat(a: &str, b: &str) -> (r: String)
    ensures
        r@ == a@ + b@,
{
    let mut s: String = a.to_string();
    s.append(b);
    s
}

/// A matrix under `p`.
fn matrix(p: &str, name: &str, format: Format) -> (r: Matrix)
    ensures
        is_matrix(r, p@ + name@, format),
{
    Matrix { name: cat(p, name), format }
}

/// What the names of layer `l` start with.
pub fn prefix_of_layer(prefix: &str, l: usize) -> (r: String)
    ensures
        r@ == layer_prefix(prefix@, l as nat),
{
    let mut s: String = cat(prefix, "layers.");
    text::push_decimal(&mut s, l as u64);
    s.append(".");
    s
}

/// What the names of expert `e` start with.
fn prefix_of_expert(p: &str, e: usize) -> (r: String)
    ensures
        r@ == expert_prefix(p@, e as nat),
{
    let mut s: String = cat(p, "mlp.experts.");
    text::push_decimal(&mut s, e as u64);
    s.append(".");
    s
}

/// A feed-forward network under `p`.
fn plan_expert(p: &str, q: Format) -> (r: ExpertPlan)
    ensures
        expert_planned(r, p@, q),
{
    ExpertPlan {
        w_gate: matrix(p, "gate_proj.weight", q),
        w_up: matrix(p, "up_proj.weight", q),
        w_down: matrix(p, "down_proj.weight", q),
    }
}

/// The feed-forward part of the layer under `p`.
fn plan_mlp(p: &str, moe: Option<usize>, q: Format) -> (r: MlpPlan)
    ensures
        mlp_planned(r, p@, moe, q),
{
    match moe {
        Some(n) => {
            let mut experts: Vec<ExpertPlan> = Vec::new();
            for e in 0..n
                invariant
                    experts@.len() == e,
                    forall|i: int|
                        0 <= i < e ==> expert_planned(
                            #[trigger] experts@[i],
                            expert_prefix(p@, i as nat),
                            q,
                        ),
            {
                let ep: String = prefix_of_expert(p, e);
                experts.push(plan_expert(ep.as_str(), q));
            }
            MlpPlan::Moe { router: cat(p, "mlp.gate.weight"), experts }
        },
        None => MlpPlan::Dense(plan_expert(cat(p, "mlp.").as_str(), q)),
    }
}

/// The attention part of the layer under `p`.
fn plan_attn(p: &str, full: bool, q: Format, lq: Format) -> (r: AttnPlan)
    ensures
        attn_planned(r, p@, full, q, lq),
{
    if full {
        AttnPlan::Full {
            wq: matrix(p, "self_attn.q_proj.weight", q),
            wk: matrix(p, "self_attn.k_proj.weight", q),
            wv: matrix(p, "self_attn.v_proj.weight", q),
            wo: matrix(p, "self_attn.o_proj.weight", q),
            q_norm: cat(p, "self_attn.q_norm.weight"),
            k_norm: cat(p, "self_attn.k_norm.weight"),
        }
    } else {
        AttnPlan::Lin {
            w_qkv: matrix(p, "linear_attn.in_proj_qkv.weight", lq),
            w_z: matrix(p, "linear_attn.in_proj_z.weight", lq),
            w_b: matrix(p, "linear_attn.in_proj_b.weight", Format::Bf16),
            w_a: matrix(p, "linear_attn.in_proj_a.weight", Format::Bf16),
            conv_w: cat(p, "linear_attn.conv1d.weight"),
            dt_bias: cat(p, "linear_attn.dt_bias"),
            a_log: cat(p, "linear_attn.A_log"),
            norm_w: cat(p, "linear_attn.norm.weight"),
            w_out: matrix(p, "linear_attn.out_proj.weight", lq),
        }
    }
}

/// The layer under `p`.
fn plan_layer(p: &str, full: bool, moe: Option<usize>, q: Format, lq: Format) -> (r: LayerPlan)
    ensures
        layer_planned(r, p@, full, moe, q, lq),
{
    LayerPlan {
        ln1: cat(p, "input_layernorm.weight"),
        attn: plan_attn(p, full, q, lq),
        ln2: cat(p, "post_attention_layernorm.weight"),
        mlp: plan_mlp(p, moe, q),
    }
}

/// An optional text.
pub open spec fn opt_text(s: Option<&str>) -> Option<Seq<char>> {
    match s {
        Some(t) => Some(t@),
        None => None,
    }
}

/// What the network `c` is loaded from. `quant` is the form of its matrices, `lin_quant` the form
/// that was asked for linear attention's.
pub fn plan_model(c: &Config, quant: &str, lin_quant: Option<&str>, st: &SafeTensors) -> (r:
    ModelPlan)
    ensures
        model_planned(r, *c, quant@, opt_text(lin_quant), st@.tensors.dom()),
        forall|i: int|
            0 <= i < c.layers ==> (#[trigger] r.layers@[i]).ln1@ == c.prefix@ + "layers."@
                + text::decimal(i as nat) + "."@ + "input_layernorm.weight"@,
        forall|i: int|
            0 <= i < c.layers ==> (#[trigger] r.layers@[i]).ln2@ == c.prefix@ + "layers."@
                + text::decimal(i as nat) + "."@ + "post_attention_layernorm.weight"@,
{
    let q: Format = Format::parse(quant);
    let four: bool = text::same(quant, "q4");
    let lq: Format = match lin_quant {
        Some(l) => Format::parse(l),
        None => if four {
            Format::Q8
        } else {
            q
        },
    };
    let mut layers: Vec<LayerPlan> = Vec::new();
    for l in 0..c.layers
        invariant
            q == weight::format_of(quant@),
            lq == lin_format(quant@, opt_text(lin_quant)),
            layers@.len() == l,
            forall|i: int|
                0 <= i < l ==> {
                    let p = layer_prefix(c.prefix@, i as nat);
                    layer_planned(
                        #[trigger] layers@[i],
                        p,
                        c.full(i),
                        experts_of(st@.tensors.dom(), p, c.num_experts),
                        q,
                        lq,
                    )
                },
    {
        let p: String = prefix_of_layer(c.prefix.as_str(), l);
        let moe: Option<usize> = if st.has(cat(p.as_str(), "mlp.gate.weight").as_str()) {
            Some(c.num_experts)
        } else {
            None
        };
        layers.push(plan_layer(p.as_str(), c.is_full(l), moe, q, lq));
    }
    let mtp: Option<MtpPlan> = if st.has("mtp.fc.weight") {
        Some(
            MtpPlan {
                fc: Matrix { name: "mtp.fc.weight".to_string(), format: q },
                norm_embed: "mtp.pre_fc_norm_embedding.weight".to_string(),
                norm_hidden: "mtp.pre_fc_norm_hidden.weight".to_string(),
                norm: "mtp.norm.weight".to_string(),
                layer: plan_layer("mtp.layers.0.", true, None, q, q),
            },
        )
    } else {
        None
    };
    ModelPlan {
        layers,
        mtp,
        embed: cat(c.prefix.as_str(), "embed_tokens.weight"),
        norm: cat(c.prefix.as_str(), "norm.weight"),
        lm_head: Matrix {
            name: name_of_head(c.prefix.as_str(), st.has("lm_head.weight")),
            format: if four && c.lin.is_some() {
                Format::Q8
            } else {
                q
            },
        },
    }
}

/// The tensor of the last projection.
fn name_of_head(prefix: &str, own: bool) -> (r: String)
    ensures
        r@ == head_name(prefix@, own),
{
    if own {
        "lm_head.weight".to_string()
    } else {
        cat(prefix, "embed_tokens.weight")
    }
}

// ---------------------------------------------------------------------------------------
// What is kept on disk
// ---------------------------------------------------------------------------------------

/// Names with weights.
pub open spec fn zipped(names: Seq<Seq<char>>, ws: Seq<weight::Stored>) -> Seq<wcache::Named> {
    Seq::new(names.len(), |i: int| (names[i], ws[i]))
}

/// A feed-forward network's matrices, named.
pub open spec fn expert_list(e: Expert, p: Seq<char>) -> Seq<wcache::Named> {
    zipped(expert_names(p), seq![e.w_gate@, e.w_up@, e.w_down@])
}

/// The matrices of the first `n` experts, named.
pub open spec fn experts_list(s: Seq<Expert>, p: Seq<char>, n: int) -> Seq<wcache::Named>
    decreases n,
{
    if n <= 0 {
        seq![]
    } else {
        experts_list(s, p, n - 1) + expert_list(s[n - 1], expert_prefix(p, (n - 1) as nat))
    }
}

/// A layer's matrices, under the names that they are loaded by.
pub open spec fn layer_list<F>(l: Layer<F>, p: Seq<char>) -> Seq<wcache::Named> {
    let attn = match l.attn {
        Attn::Full { wq, wk, wv, wo, q_norm, k_norm, gate } => zipped(
            full_names(p),
            l.attn.matrices(),
        ),
        Attn::Lin { w_qkv, w_z, w_b, w_a, conv_w, dt_bias, a_log, norm_w, w_out } => zipped(
            lin_names(p),
            l.attn.matrices(),
        ),
    };
    let mlp = match l.mlp {
        Mlp::Dense(e) => expert_list(e, p + "mlp."@),
        Mlp::Moe { router, experts } => experts_list(experts@, p, experts@.len() as int),
    };
    attn + mlp
}

/// The matrices of the first `n` layers, named.
pub open spec fn layers_list<F>(
    s: Seq<Layer<F>>,
    prefix: Seq<char>,
    n: int,
) -> Seq<wcache::Named>
    decreases n,
{
    if n <= 0 {
        seq![]
    } else {
        layers_list(s, prefix, n - 1) + layer_list(s[n - 1], layer_prefix(prefix, (n - 1) as nat))
    }
}

/// Appends a matrix under `p`.
fn list_one<'a>(out: &mut Vec<(String, &'a Weight)>, p: &str, name: &str, w: &'a Weight)
    ensures
        wcache::named(final(out)@) == wcache::named(old(out)@).push((p@ + name@, w@)),
{
    let ghost before = wcache::named(out@);
    out.push((cat(p, name), w));
    assert(wcache::named(out@) =~= before.push((p@ + name@, w@)));
}

/// Appends a feed-forward network's matrices.
fn list_expert<'a>(out: &mut Vec<(String, &'a Weight)>, e: &'a Expert, p: &str)
    ensures
        wcache::named(final(out)@) == wcache::named(old(out)@) + expert_list(*e, p@),
{
    list_one(out, p, "gate_proj.weight", &e.w_gate);
    list_one(out, p, "up_proj.weight", &e.w_up);
    list_one(out, p, "down_proj.weight", &e.w_down);
    assert(wcache::named(out@) =~= wcache::named(old(out)@) + expert_list(*e, p@));
}

/// Appends a layer's matrices.
fn list_layer<'a, F>(out: &mut Vec<(String, &'a Weight)>, l: &'a Layer<F>, p: &str)
    ensures
        wcache::named(final(out)@) == wcache::named(old(out)@) + layer_list(*l, p@),
{
    let ghost start = wcache::named(out@);
    match &l.attn {
        Attn::Full { wq, wk, wv, wo, .. } => {
            list_one(out, p, "self_attn.q_proj.weight", wq);
            list_one(out, p, "self_attn.k_proj.weight", wk);
            list_one(out, p, "self_attn.v_proj.weight", wv);
            list_one(out, p, "self_attn.o_proj.weight", wo);
            assert(wcache::named(out@) =~= start + zipped(full_names(p@), l.attn.matrices()));
        },
        Attn::Lin { w_qkv, w_z, w_b, w_a, w_out, .. } => {
            list_one(out, p, "linear_attn.in_proj_qkv.weight", w_qkv);
            list_one(out, p, "linear_attn.in_proj_z.weight", w_z);
            list_one(out, p, "linear_attn.in_proj_b.weight", w_b);
            list_one(out, p, "linear_attn.in_proj_a.weight", w_a);
            list_one(out, p, "linear_attn.out_proj.weight", w_out);
            assert(wcache::named(out@) =~= start + zipped(lin_names(p@), l.attn.matrices()));
        },
    }
    let ghost mid = wcache::named(out@);
    match &l.mlp {
        Mlp::Dense(e) => {
            let mp: String = cat(p, "mlp.");
            list_expert(out, e, mp.as_str());
        },
        Mlp::Moe { router, experts } => {
            assert(mid + experts_list(experts@, p@, 0) =~= mid);
            for e in 0..experts.len()
                invariant
                    wcache::named(out@) == mid + experts_list(experts@, p@, e as int),
            {
                let ep: String = prefix_of_expert(p, e);
                list_expert(out, &experts[e], ep.as_str());
                assert(wcache::named(out@) =~= mid + experts_list(experts@, p@, e + 1));
            }
        },
    }
    assert(wcache::named(out@) =~= start + layer_list(*l, p@));
}

impl<F> Model<F> {
    /// The matrices that are kept on disk, with the names that they are kept under: those of the
    /// layers, and the last projection. `own_head` says whether the checkpoint has a tensor of its
    /// own for that.
    pub fn cache_list(&self, own_head: bool) -> (r: Vec<(String, &Weight)>)
        ensures
            wcache::named(r@) == layers_list(
                self.layers@,
                self.config.prefix@,
                self.layers@.len() as int,
            ).push((head_name(self.config.prefix@, own_head), self.lm_head@)),
    {
        let mut out: Vec<(String, &Weight)> = Vec::new();
        assert(wcache::named(out@) =~= seq![]);
        for l in 0..self.layers.len()
            invariant
                wcache::named(out@) == layers_list(
                    self.layers@,
                    self.config.prefix@,
                    l as int,
                ),
        {
            let p: String = prefix_of_layer(self.config.prefix.as_str(), l);
            list_layer(&mut out, &self.layers[l], p.as_str());
        }
        let ghost before = wcache::named(out@);
        let head: String = name_of_head(self.config.prefix.as_str(), own_head);
        out.push((head, &self.lm_head));
        assert(wcache::named(out@) =~= before.push((head@, self.lm_head@)));
        out
    }

    /// Whether the network's state can be rolled back: it is not recurrent.
    pub fn supports_rollback(&self) -> (r: bool)
        ensures
            r == (self.config.lin is None),
    {
        self.config.lin.is_none()
    }

    /// Whether every feed-forward part is dense.
    pub fn layers_mlp_dense(&self) -> (r: bool)
        ensures
            r == forall|i: int|
                0 <= i < self.layers@.len() ==> (#[trigger] self.layers@[i]).mlp is Dense,
    {
        for i in 0..self.layers.len()
            invariant
                forall|j: int| 0 <= j < i ==> (#[trigger] self.layers@[j]).mlp is Dense,
        {
            match &self.layers[i].mlp {
                Mlp::Dense(_) => {},
                Mlp::Moe { .. } => {
                    assert(!(self.layers@[i as int].mlp is Dense));
                    return false;
                },
            }
        }
        true
    }

    /// Whether a graphics device can run the network: softmax attention without gates whose heads
    /// are rotated whole, and, for a mixture of experts, sizes that fit the device's tiles.
    pub fn gpu_supported(&self) -> (r: bool)
        requires
            2 * self.config.moe_intermediate <= usize::MAX,
        ensures
            r == gpu_runs(*self),
    {
        let c = &self.config;
        let fits: bool = c.num_experts <= 256 && (2 * c.moe_intermediate) % 32 == 0 && c.hidden
            % 32 == 0 && c.moe_intermediate % 32 == 0;
        let dense: bool = self.layers_mlp_dense();
        (dense || fits) && c.lin.is_none() && !c.attn_gate && c.rotary_dim == c.head_dim
    }

    /// Whether the network has a prediction head.
    pub fn has_mtp(&self) -> (r: bool)
        ensures
            r == (self.mtp is Some),
    {
        self.mtp.is_some()
    }

    /// The cache of the prediction head.
    pub fn mtp_cache(&self) -> (r: KvCache<F>)
        requires
            self.config.kv_heads * self.config.head_dim <= usize::MAX,
        ensures
            r@ == (kv::CacheRows::<F> {
                layers: seq![kv::LayerRows::Kv { k: seq![], v: seq![] }],
                stride: (self.config.kv_heads * self.config.head_dim) as nat,
                kv_heads: self.config.kv_heads as nat,
                len: 0,
                hybrid: false,
            }),
    {
        KvCache::for_head(&self.config)
    }
}

/// Every mixture of experts has sizes that fit the device's tiles.
pub open spec fn experts_fit(c: Config) -> bool {
    &&& c.num_experts <= 256
    &&& (2 * c.moe_intermediate) % 32 == 0
    &&& c.hidden % 32 == 0
    &&& c.moe_intermediate % 32 == 0
}

/// A graphics device can run the network.
pub open spec fn gpu_runs<F>(m: Model<F>) -> bool {
    &&& forall|i: int|
        0 <= i < m.layers@.len() ==> ((#[trigger] m.layers@[i]).mlp is Moe ==> experts_fit(
            m.config,
        ))
    &&& m.config.lin is None
    &&& !m.config.attn_gate
    &&& m.config.rotary_dim == m.config.head_dim
}

/// What a layer is loaded from: the weights that normalise before attention are those of the input,
/// the ones that normalise before the feed-forward part are those behind attention, and each
/// projection is the tensor of its own name, all under the prefix, the word `layers` and the
/// layer's number.
pub proof fn layers_are_loaded_by_name(
    m: ModelPlan,
    c: Config,
    quant: Seq<char>,
    lin_quant: Option<Seq<char>>,
    tensors: Set<Seq<char>>,
    i: int,
)
    requires
        model_planned(m, c, quant, lin_quant, tensors),
        0 <= i < c.layers,
    ensures
        ({
            let under = c.prefix@ + "layers."@ + text::decimal(i as nat) + "."@;
            let it = m.layers@[i];
            &&& it.ln1@ == under + "input_layernorm.weight"@
            &&& it.ln2@ == under + "post_attention_layernorm.weight"@
            &&& match it.attn {
                AttnPlan::Full { wq, wk, wv, wo, q_norm, k_norm } => {
                    &&& c.full(i)
                    &&& wq.name@ == under + "self_attn.q_proj.weight"@
                    &&& wk.name@ == under + "self_attn.k_proj.weight"@
                    &&& wv.name@ == under + "self_attn.v_proj.weight"@
                    &&& wo.name@ == under + "self_attn.o_proj.weight"@
                    &&& q_norm@ == under + "self_attn.q_norm.weight"@
                    &&& k_norm@ == under + "self_attn.k_norm.weight"@
                },
                AttnPlan::Lin { w_qkv, w_z, w_b, w_a, conv_w, dt_bias, a_log, norm_w, w_out } => {
                    &&& !c.full(i)
                    &&& w_qkv.name@ == under + "linear_attn.in_proj_qkv.weight"@
                    &&& w_z.name@ == under + "linear_attn.in_proj_z.weight"@
                    &&& w_b.name@ == under + "linear_attn.in_proj_b.weight"@
                    &&& w_a.name@ == under + "linear_attn.in_proj_a.weight"@
                    &&& conv_w@ == under + "linear_attn.conv1d.weight"@
                    &&& dt_bias@ == under + "linear_attn.dt_bias"@
                    &&& a_log@ == under + "linear_attn.A_log"@
                    &&& norm_w@ == under + "linear_attn.norm.weight"@
                    &&& w_out.name@ == under + "linear_attn.out_proj.weight"@
                },
            }
            &&& match it.mlp {
                MlpPlan::Dense(e) => {
                    &&& !tensors.contains(under + "mlp.gate.weight"@)
                    &&& e.w_gate.name@ == under + "mlp."@ + "gate_proj.weight"@
                    &&& e.w_up.name@ == under + "mlp."@ + "up_proj.weight"@
                    &&& e.w_down.name@ == under + "mlp."@ + "down_proj.weight"@
                },
                MlpPlan::Moe { router, experts } => {
                    &&& tensors.contains(under + "mlp.gate.weight"@)
                    &&& router@ == under + "mlp.gate.weight"@
                    &&& experts@.len() == c.num_experts
                    &&& forall|x: int|
                        0 <= x < experts@.len() ==> {
                            let of = under + "mlp.experts."@ + text::decimal(x as nat) + "."@;
                            &&& (#[trigger] experts@[x]).w_gate.name@ == of + "gate_proj.weight"@
                            &&& experts@[x].w_up.name@ == of + "up_proj.weight"@
                            &&& experts@[x].w_down.name@ == of + "down_proj.weight"@
                        }
                },
            }
        }),
{
    assert(layer_planned(
        m.layers@[i],
        layer_prefix(c.prefix@, i as nat),
        c.full(i),
        experts_of(tensors, layer_prefix(c.prefix@, i as nat), c.num_experts),
        weight::format_of(quant),
        lin_format(quant, lin_quant),
    ));
    match m.layers@[i].mlp {
        MlpPlan::Moe { router, experts } => {
            assert forall|x: int| 0 <= x < experts@.len() implies {
                let of = layer_prefix(c.prefix@, i as nat) + "mlp.experts."@ + text::decimal(
                    x as nat,
                ) + "."@;
                &&& (#[trigger] experts@[x]).w_gate.name@ == of + "gate_proj.weight"@
                &&& experts@[x].w_up.name@ == of + "up_proj.weight"@
                &&& experts@[x].w_down.name@ == of + "down_proj.weight"@
            } by {
                assert(expert_planned(
                    experts@[x],
                    expert_prefix(layer_prefix(c.prefix@, i as nat), x as nat),
                    weight::format_of(quant),
                ));
            }
        },
        _ => {},
    }
}

/// What the rest of a network is loaded from. A network whose checkpoint has no last projection of
/// its own uses the embedding in its place; the head that predicts the token after next is there
/// exactly where its first matrix is.
pub proof fn ends_are_loaded_by_name(
    m: ModelPlan,
    c: Config,
    quant: Seq<char>,
    lin_quant: Option<Seq<char>>,
    tensors: Set<Seq<char>>,
)
    requires
        model_planned(m, c, quant, lin_quant, tensors),
    ensures
        m.layers@.len() == c.layers,
        m.embed@ == c.prefix@ + "embed_tokens.weight"@,
        m.norm@ == c.prefix@ + "norm.weight"@,
        tensors.contains("lm_head.weight"@) ==> m.lm_head.name@ == "lm_head.weight"@,
        !tensors.contains("lm_head.weight"@) ==> m.lm_head.name@ == m.embed@,
        m.mtp is Some <==> tensors.contains("mtp.fc.weight"@),
        m.mtp matches Some(h) ==> {
            &&& h.fc.name@ == "mtp.fc.weight"@
            &&& h.norm_embed@ == "mtp.pre_fc_norm_embedding.weight"@
            &&& h.norm_hidden@ == "mtp.pre_fc_norm_hidden.weight"@
            &&& h.norm@ == "mtp.norm.weight"@
            &&& h.layer.ln1@ == "mtp.layers.0."@ + "input_layernorm.weight"@
            &&& h.layer.ln2@ == "mtp.layers.0."@ + "post_attention_layernorm.weight"@
            &&& h.layer.attn is Full
            &&& h.layer.mlp is Dense
        },
{
}

/// The form in which matrices are kept: that of softmax attention and of the feed-forward parts is
/// the one asked for; the two small projections of linear attention are always in full precision;
/// its large ones, and the last projection of a recurrent network, have at least eight bits unless
/// fewer were asked for by name.
pub proof fn recurrent_parts_keep_more_bits(
    m: ModelPlan,
    c: Config,
    quant: Seq<char>,
    lin_quant: Option<Seq<char>>,
    tensors: Set<Seq<char>>,
    i: int,
)
    requires
        model_planned(m, c, quant, lin_quant, tensors),
        0 <= i < c.layers,
    ensures
        match m.layers@[i].attn {
            AttnPlan::Full { wq, wk, wv, wo, q_norm, k_norm } => {
                &&& wq.format == weight::format_of(quant)
                &&& wk.format == weight::format_of(quant)
                &&& wv.format == weight::format_of(quant)
                &&& wo.format == weight::format_of(quant)
            },
            AttnPlan::Lin { w_qkv, w_z, w_b, w_a, conv_w, dt_bias, a_log, norm_w, w_out } => {
                &&& w_b.format == Format::Bf16
                &&& w_a.format == Format::Bf16
                &&& w_qkv.format == w_z.format && w_z.format == w_out.format
                &&& lin_quant is None ==> w_qkv.format != Format::Q4
                &&& lin_quant is None && weight::format_of(quant) != Format::Q4 ==> w_qkv.format
                    == weight::format_of(quant)
                &&& lin_quant matches Some(asked) ==> w_qkv.format == weight::format_of(asked)
            },
        },
        m.layers@[i].mlp matches MlpPlan::Dense(e) ==> e.w_gate.format == weight::format_of(quant)
            && e.w_up.format == weight::format_of(quant) && e.w_down.format == weight::format_of(
            quant,
        ),
        c.lin is Some ==> m.lm_head.format != Format::Q4,
        c.lin is None || weight::format_of(quant) != Format::Q4 ==> m.lm_head.format
            == weight::format_of(quant),
{
    assert(layer_planned(
        m.layers@[i],
        layer_prefix(c.prefix@, i as nat),
        c.full(i),
        experts_of(tensors, layer_prefix(c.prefix@, i as nat), c.num_experts),
        weight::format_of(quant),
        lin_format(quant, lin_quant),
    ));
    reveal_strlit("q8");
    reveal_strlit("q4");
    assert("q8"@[1] != "q4"@[1]);
}

/// Each matrix of a layer is kept under the name that it is loaded by.
pub proof fn layers_are_kept_by_name<F>(l: Layer<F>, p: Seq<char>)
    ensures
        match l.attn {
            Attn::Full { wq, wk, wv, wo, q_norm, k_norm, gate } => {
                &&& layer_list(l, p).contains((p + "self_attn.q_proj.weight"@, wq@))
                &&& layer_list(l, p).contains((p + "self_attn.k_proj.weight"@, wk@))
                &&& layer_list(l, p).contains((p + "self_attn.v_proj.weight"@, wv@))
                &&& layer_list(l, p).contains((p + "self_attn.o_proj.weight"@, wo@))
            },
            Attn::Lin { w_qkv, w_z, w_b, w_a, conv_w, dt_bias, a_log, norm_w, w_out } => {
                &&& layer_list(l, p).contains((p + "linear_attn.in_proj_qkv.weight"@, w_qkv@))
                &&& layer_list(l, p).contains((p + "linear_attn.in_proj_z.weight"@, w_z@))
                &&& layer_list(l, p).contains((p + "linear_attn.in_proj_b.weight"@, w_b@))
                &&& layer_list(l, p).contains((p + "linear_attn.in_proj_a.weight"@, w_a@))
                &&& layer_list(l, p).contains((p + "linear_attn.out_proj.weight"@, w_out@))
            },
        },
        l.mlp matches Mlp::Dense(e) ==> {
            &&& layer_list(l, p).contains((p + "mlp."@ + "gate_proj.weight"@, e.w_gate@))
            &&& layer_list(l, p).contains((p + "mlp."@ + "up_proj.weight"@, e.w_up@))
            &&& layer_list(l, p).contains((p + "mlp."@ + "down_proj.weight"@, e.w_down@))
        },
{
    let all = layer_list(l, p);
    let n: int = match l.attn {
        Attn::Full { .. } => {
            assert(all[0] == all[0] && all[1] == all[1] && all[2] == all[2] && all[3] == all[3]);
            4
        },
        Attn::Lin { .. } => {
            assert(all[0] == all[0] && all[1] == all[1] && all[2] == all[2] && all[3] == all[3]
                && all[4] == all[4]);
            5
        },
    };
    match l.mlp {
        Mlp::Dense(e) => {
            assert(all[n] == (p + "mlp."@ + "gate_proj.weight"@, e.w_gate@));
            assert(all[n + 1] == (p + "mlp."@ + "up_proj.weight"@, e.w_up@));
            assert(all[n + 2] == (p + "mlp."@ + "down_proj.weight"@, e.w_down@));
        },
        _ => {},
    }
}

/// The same of a mixture: each expert's matrices are kept under the expert's own number.
pub proof fn experts_are_kept_by_name(s: Seq<Expert>, p: Seq<char>, n: int, e: int)
    requires
        0 <= e < n <= s.len(),
    ensures
        ({
            let of = p + "mlp.experts."@ + text::decimal(e as nat) + "."@;
            let all = experts_list(s, p, n);
            &&& all.contains((of + "gate_proj.weight"@, s[e].w_gate@))
            &&& all.contains((of + "up_proj.weight"@, s[e].w_up@))
            &&& all.contains((of + "down_proj.weight"@, s[e].w_down@))
        }),
    decreases n,
{
    let of = p + "mlp.experts."@ + text::decimal(e as nat) + "."@;
    let all = experts_list(s, p, n);
    let front = experts_list(s, p, n - 1);
    let k = front.len() as int;
    if e == n - 1 {
        assert(all[k] == (of + "gate_proj.weight"@, s[e].w_gate@));
        assert(all[k + 1] == (of + "up_proj.weight"@, s[e].w_up@));
        assert(all[k + 2] == (of + "down_proj.weight"@, s[e].w_down@));
    } else {
        experts_are_kept_by_name(s, p, n - 1, e);
        let a = choose|a: int|
            0 <= a < k && front[a] == (of + "gate_proj.weight"@, s[e].w_gate@);
        let b = choose|b: int| 0 <= b < k && front[b] == (of + "up_proj.weight"@, s[e].w_up@);
        let c = choose|c: int| 0 <= c < k && front[c] == (of + "down_proj.weight"@, s[e].w_down@);
        assert(all[a] == front[a] && all[b] == front[b] && all[c] == front[c]);
    }
}

/// Layer `i` of a network is kept under its own number.
pub proof fn layers_are_kept_apart<F>(s: Seq<Layer<F>>, prefix: Seq<char>, n: int, i: int, e: int)
    requires
        0 <= i < n <= s.len(),
        0 <= e < layer_list(
            s[i],
            prefix + "layers."@ + text::decimal(i as nat) + "."@,
        ).len(),
    ensures
        layers_list(s, prefix, n).contains(
            layer_list(s[i], prefix + "layers."@ + text::decimal(i as nat) + "."@)[e],
        ),
    decreases n,
{
    let of = layer_list(s[i], prefix + "layers."@ + text::decimal(i as nat) + "."@);
    let all = layers_list(s, prefix, n);
    let front = layers_list(s, prefix, n - 1);
    if i == n - 1 {
        assert(all[front.len() + e] == of[e]);
    } else {
        layers_are_kept_apart(s, prefix, n - 1, i, e);
        let a = choose|a: int| 0 <= a < front.len() && front[a] == of[e];
        assert(all[a] == front[a]);
    }
}

} // verus!
