//! What a checkpoint's `config.json` says about the network.

use vstd::prelude::*;
use vstd::string::*;

use crate::json;
use crate::json::Json;
use crate::text;

verus! {

/// Dimensions of the gated delta-rule linear attention.
#[derive(Debug, Clone, Copy)]
pub struct LinCfg {
    /// Key heads.
    pub nk: usize,
    /// Value heads.
    pub nv: usize,
    /// Dimension of a key head.
    pub dk: usize,
    /// Dimension of a value head.
    pub dv: usize,
    /// Width of the causal convolution.
    pub conv_k: usize,
}

impl LinCfg {
    /// The convolution's channels fit in a machine word.
    pub open spec fn fits(self) -> bool {
        2 * (self.nk * self.dk) + self.nv * self.dv <= usize::MAX
    }

    /// Width of the keys of all heads.
    pub fn key_dim(&self) -> (r: usize)
        requires
            self.nk * self.dk <= usize::MAX,
        ensures
            r == self.nk * self.dk,
    {
        self.nk * self.dk
    }

    /// Width of the values of all heads.
    pub fn value_dim(&self) -> (r: usize)
        requires
            self.nv * self.dv <= usize::MAX,
        ensures
            r == self.nv * self.dv,
    {
        self.nv * self.dv
    }

    /// Channels of the convolution: queries, keys and values.
    pub fn conv_dim(&self) -> (r: usize)
        requires
            self.fits(),
        ensures
            r == 2 * (self.nk * self.dk) + self.nv * self.dv,
    {
        assert(self.nk * self.dk >= 0 && self.nv * self.dv >= 0) by (nonlinear_arith);
        2 * self.key_dim() + self.value_dim()
    }
}

/// The shape of the network. `rope_theta`, `eps` and `norm_offset` are the bit patterns of
/// single-precision numbers.
#[derive(Debug)]
pub struct Config {
    pub hidden: usize,
    pub intermediate: usize,
    pub layers: usize,
    pub heads: usize,
    pub kv_heads: usize,
    pub head_dim: usize,
    pub vocab: usize,
    pub rope_theta: u32,
    pub eps: u32,
    pub max_context: usize,
    /// Zero for a dense network.
    pub num_experts: usize,
    pub experts_per_tok: usize,
    pub moe_intermediate: usize,
    pub norm_topk_prob: bool,
    /// Dimensions of each head that are rotated.
    pub rotary_dim: usize,
    /// The query projection also produces a gate for each head's output.
    pub attn_gate: bool,
    /// Which layers attend with softmax; beyond its end every layer does.
    pub layer_types: Vec<bool>,
    pub lin: Option<LinCfg>,
    /// What the names of the tensors start with.
    pub prefix: String,
    /// Added to the stored normalisation weights.
    pub norm_offset: u32,
}

impl Config {
    /// Layer `layer` attends with softmax.
    pub open spec fn full(self, layer: int) -> bool {
        0 <= layer < self.layer_types@.len() ==> self.layer_types@[layer]
    }

    /// Whether layer `layer` attends with softmax.
    pub fn is_full(&self, layer: usize) -> (r: bool)
        ensures
            r == self.full(layer as int),
    {
        if layer < self.layer_types.len() {
            self.layer_types[layer]
        } else {
            true
        }
    }
}

/// Why a configuration cannot be used.
#[derive(Debug)]
pub enum ConfigError {
    /// A required whole number is missing.
    Missing(String),
    /// There is no attention head.
    NoHeads,
}

/// A [`ConfigError`] by what it says.
pub ghost enum Fault {
    Missing(Seq<char>),
    NoHeads,
}

impl ConfigError {
    /// What the error says.
    pub open spec fn view(&self) -> Fault {
        match *self {
            ConfigError::Missing(k) => Fault::Missing(k@),
            ConfigError::NoHeads => Fault::NoHeads,
        }
    }
}

/// The numbers of a configuration that are not whole: those that the document gives.
pub struct Reals<'a> {
    pub head_dim: usize,
    pub rope_theta: Option<&'a Json>,
    pub partial_rotary_factor: Option<&'a Json>,
    pub eps: Option<&'a Json>,
}

/// The part of `config.json` that describes the language model.
pub open spec fn language_part(root: json::Tree) -> json::Tree {
    match json::members_of(json::member(root, "text_config"@)) {
        Some(m) => json::Tree::Object(m),
        None => root,
    }
}

/// What tensor names start with.
pub open spec fn name_prefix(root: json::Tree) -> Seq<char> {
    if json::members_of(json::member(root, "text_config"@)) is Some {
        "model.language_model."@
    } else {
        "model."@
    }
}

/// The whole number under `key`, cut to the machine word.
pub open spec fn size_at(j: json::Tree, key: Seq<char>) -> Option<usize> {
    match json::uint_of(json::member(j, key)) {
        Some(u) => Some(u as usize),
        None => None,
    }
}

/// The size under `key`, or 0.
pub open spec fn size_or_zero(j: json::Tree, key: Seq<char>) -> usize {
    match size_at(j, key) {
        Some(u) => u,
        None => 0,
    }
}

/// The truth value under `key`, or `otherwise`.
pub open spec fn truth_or(j: json::Tree, key: Seq<char>, otherwise: bool) -> bool {
    match json::bool_of(json::member(j, key)) {
        Some(b) => b,
        None => otherwise,
    }
}

/// A JSON number.
pub open spec fn is_number(t: Option<json::Tree>) -> bool {
    t matches Some(t) && (t is UInt || t is Num)
}

/// The number under `key` inside `rope_parameters`, or else beside it.
pub open spec fn rope_number(j: json::Tree, key: Seq<char>) -> Option<json::Tree> {
    let inner = match json::member(j, "rope_parameters"@) {
        Some(r) => json::member(r, key),
        None => None,
    };
    if is_number(inner) {
        inner
    } else if is_number(json::member(j, key)) {
        json::member(j, key)
    } else {
        None
    }
}

/// The first key of `keys` under which `j` has no whole number.
pub open spec fn first_missing(j: json::Tree, keys: Seq<Seq<char>>) -> Option<Seq<char>>
    decreases keys.len(),
{
    if keys.len() == 0 {
        None
    } else if size_at(j, keys[0]) is None {
        Some(keys[0])
    } else {
        first_missing(j, keys.drop_first())
    }
}

/// The dimensions of linear attention that `j` must have once it has the number of value heads.
pub open spec fn linear_keys() -> Seq<Seq<char>> {
    seq![
        "linear_num_key_heads"@,
        "linear_num_value_heads"@,
        "linear_key_head_dim"@,
        "linear_value_head_dim"@,
        "linear_conv_kernel_dim"@,
    ]
}

/// The network has layers of linear attention.
pub open spec fn has_linear(j: json::Tree) -> bool {
    json::uint_of(json::member(j, "linear_num_value_heads"@)) is Some
}

/// What is wrong with the head counts.
pub open spec fn heads_fault(j: json::Tree) -> Option<Fault> {
    match first_missing(j, seq!["num_attention_heads"@, "hidden_size"@]) {
        Some(k) => Some(Fault::Missing(k)),
        None => if size_or_zero(j, "num_attention_heads"@) == 0 {
            Some(Fault::NoHeads)
        } else {
            None
        },
    }
}

/// The first thing that is wrong with a configuration.
pub open spec fn fault(j: json::Tree) -> Option<Fault> {
    match heads_fault(j) {
        Some(f) => Some(f),
        None => {
            let linear = if has_linear(j) {
                linear_keys()
            } else {
                seq![]
            };
            let rest = seq![
                "intermediate_size"@,
                "num_hidden_layers"@,
                "num_key_value_heads"@,
                "vocab_size"@,
            ];
            match first_missing(j, linear + rest) {
                Some(k) => Some(Fault::Missing(k)),
                None => None,
            }
        },
    }
}

/// Dimension of one attention head.
pub open spec fn head_dim(j: json::Tree) -> usize {
    match size_at(j, "head_dim"@) {
        Some(d) => d,
        None => size_or_zero(j, "hidden_size"@) / size_or_zero(j, "num_attention_heads"@),
    }
}

/// Which layers attend with softmax.
pub open spec fn layer_kinds(j: json::Tree) -> Seq<bool> {
    match json::items_of(json::member(j, "layer_types"@)) {
        Some(a) => a.map_values(|t: json::Tree| t == json::Tree::Str("full_attention"@)),
        None => seq![],
    }
}

/// The smaller of the layers in the file and those asked for.
pub open spec fn layer_count(j: json::Tree, asked: Option<usize>) -> usize {
    let n = size_or_zero(j, "num_hidden_layers"@);
    match asked {
        Some(a) => if a < n {
            a
        } else {
            n
        },
        None => n,
    }
}

/// The largest even number that is not above `scaled`, and at least 2.
pub open spec fn rotary(scaled: usize) -> usize {
    let r: usize = if scaled < 2 {
        2
    } else {
        scaled
    };
    (r - r % 2) as usize
}

/// The text under `key`.
pub open spec fn text_at(j: json::Tree, key: Seq<char>) -> Seq<char> {
    match json::str_of(json::member(j, key)) {
        Some(s) => s,
        None => seq![],
    }
}

/// The bit pattern of the single-precision number one.
pub const ONE_BITS: u32 = 0x3f80_0000;

/// `c` is the configuration that `root` describes.
pub open spec fn describes(
    c: Config,
    root: json::Tree,
    num_layers: Option<usize>,
    max_context: Option<usize>,
    rope_theta: u32,
    eps: u32,
    scaled: usize,
) -> bool {
    let j = language_part(root);
    &&& c.hidden == size_or_zero(j, "hidden_size"@)
    &&& c.intermediate == size_or_zero(j, "intermediate_size"@)
    &&& c.layers == layer_count(j, num_layers)
    &&& c.heads == size_or_zero(j, "num_attention_heads"@)
    &&& c.kv_heads == size_or_zero(j, "num_key_value_heads"@)
    &&& c.head_dim == head_dim(j)
    &&& c.vocab == size_or_zero(j, "vocab_size"@)
    &&& c.rope_theta == rope_theta
    &&& c.eps == eps
    &&& c.max_context == (match max_context {
        Some(n) => n,
        None => 4096,
    })
    &&& c.num_experts == size_or_zero(j, "num_experts"@)
    &&& c.experts_per_tok == size_or_zero(j, "num_experts_per_tok"@)
    &&& c.moe_intermediate == size_or_zero(j, "moe_intermediate_size"@)
    &&& c.norm_topk_prob == truth_or(j, "norm_topk_prob"@, true)
    &&& c.rotary_dim == rotary(scaled)
    &&& c.attn_gate == truth_or(j, "attn_output_gate"@, false)
    &&& c.layer_types@ == layer_kinds(j)
    &&& c.lin == (if has_linear(j) {
        Some(
            LinCfg {
                nk: size_or_zero(j, "linear_num_key_heads"@),
                nv: size_or_zero(j, "linear_num_value_heads"@),
                dk: size_or_zero(j, "linear_key_head_dim"@),
                dv: size_or_zero(j, "linear_value_head_dim"@),
                conv_k: size_or_zero(j, "linear_conv_kernel_dim"@),
            },
        )
    } else {
        None
    })
    &&& c.prefix@ == name_prefix(root)
    &&& c.norm_offset == (if text::begins_with(text_at(j, "model_type"@), "qwen3_5"@) {
        ONE_BITS
    } else {
        0
    })
}

/// The size under `key`, or 0.
fn size_or(j: &Json, key: &str) -> (r: usize)
    ensures
        r == size_or_zero(j.tree(), key@),
{
    match j.uint(key) {
        Some(u) => u as usize,
        None => 0,
    }
}

/// The part of `config.json` that describes the language model.
fn part(root: &Json) -> (r: &Json)
    ensures
        r.tree() == language_part(root.tree()),
{
    match root.get("text_config") {
        Some(t) => {
            if let Json::Object(o) = t {
                return t;
            }
            root
        },
        None => root,
    }
}

/// The first of `keys` that is missing.
fn check_keys(j: &Json, keys: &[&str]) -> (r: Option<String>)
    ensures
        match r {
            Some(k) => first_missing(j.tree(), keys@.map_values(|k: &str| k@)) == Some(k@),
            None => first_missing(j.tree(), keys@.map_values(|k: &str| k@)) is None,
        },
{
    let ghost all = keys@.map_values(|k: &str| k@);
    let mut i: usize = 0;
    assert(all.skip(0) =~= all);
    while i < keys.len()
        invariant
            i <= keys.len(),
            all == keys@.map_values(|k: &str| k@),
            first_missing(j.tree(), all) == first_missing(j.tree(), all.skip(i as int)),
        decreases keys.len() - i,
    {
        assert(all.skip(i as int)[0] == keys@[i as int]@);
        assert(all.skip(i as int).drop_first() =~= all.skip(i + 1));
        if j.uint(keys[i]).is_none() {
            return Some(keys[i].to_string());
        }
        i += 1;
    }
    None
}

/// What is wrong with the head counts, if anything.
fn check_heads(j: &Json) -> (r: Option<ConfigError>)
    ensures
        match r {
            Some(e) => heads_fault(j.tree()) == Some(e@),
            None => heads_fault(j.tree()) is None,
        },
{
    let keys: [&str; 2] = ["num_attention_heads", "hidden_size"];
    proof {
        assert(keys@.map_values(|k: &str| k@) =~= seq!["num_attention_heads"@, "hidden_size"@]);
    }
    match check_keys(j, &keys) {
        Some(k) => Some(ConfigError::Missing(k)),
        None => if size_or(j, "num_attention_heads") == 0 {
            Some(ConfigError::NoHeads)
        } else {
            None
        },
    }
}

/// What is wrong with a configuration, if anything.
fn check(j: &Json) -> (r: Option<ConfigError>)
    ensures
        match r {
            Some(e) => fault(j.tree()) == Some(e@),
            None => fault(j.tree()) is None,
        },
{
    if let Some(e) = check_heads(j) {
        return Some(e);
    }
    let mut keys: Vec<&str> = Vec::new();
    if j.uint("linear_num_value_heads").is_some() {
        keys.push("linear_num_key_heads");
        keys.push("linear_num_value_heads");
        keys.push("linear_key_head_dim");
        keys.push("linear_value_head_dim");
        keys.push("linear_conv_kernel_dim");
        assert(keys@.map_values(|k: &str| k@) =~= linear_keys());
    }
    let ghost linear = keys@.map_values(|k: &str| k@);
    keys.push("intermediate_size");
    keys.push("num_hidden_layers");
    keys.push("num_key_value_heads");
    keys.push("vocab_size");
    assert(keys@.map_values(|k: &str| k@) =~= linear + seq![
        "intermediate_size"@,
        "num_hidden_layers"@,
        "num_key_value_heads"@,
        "vocab_size"@,
    ]);
    assert(!has_linear(j.tree()) ==> linear =~= seq![]);
    match check_keys(j, keys.as_slice()) {
        Some(k) => Some(ConfigError::Missing(k)),
        None => None,
    }
}

/// The dimension of one head.
fn read_head_dim(j: &Json) -> (r: usize)
    requires
        heads_fault(j.tree()) is None,
    ensures
        r == head_dim(j.tree()),
{
    match j.uint("head_dim") {
        Some(d) => d as usize,
        None => size_or(j, "hidden_size") / size_or(j, "num_attention_heads"),
    }
}

/// Whether a document is a number.
pub fn number(t: Option<&Json>) -> (r: bool)
    ensures
        r == is_number(match t {
            Some(t) => Some(t.tree()),
            None => None,
        }),
{
    match t {
        Some(Json::UInt(_)) => true,
        Some(Json::Num(_)) => true,
        _ => false,
    }
}

/// The number under `key` inside `rope_parameters`, or else beside it.
fn read_rope<'a>(j: &'a Json, key: &str) -> (r: Option<&'a Json>)
    ensures
        match r {
            Some(t) => rope_number(j.tree(), key@) == Some(t.tree()),
            None => rope_number(j.tree(), key@) is None,
        },
{
    let inner = match j.get("rope_parameters") {
        Some(r) => r.get(key),
        None => None,
    };
    if number(inner) {
        return inner;
    }
    let beside = j.get(key);
    if number(beside) {
        beside
    } else {
        None
    }
}

/// Which layers attend with softmax.
fn read_kinds(j: &Json) -> (r: Vec<bool>)
    ensures
        r@ == layer_kinds(j.tree()),
{
    let mut out: Vec<bool> = Vec::new();
    if let Some(a) = j.items("layer_types") {
        proof {
            json::trees_items(a@);
        }
        for i in 0..a.len()
            invariant
                out@.len() == i,
                json::trees(a@).len() == a@.len(),
                forall|i: int|
                    0 <= i < a@.len() ==> #[trigger] json::trees(a@)[i] == a@[i].tree(),
                forall|k: int|
                    0 <= k < i ==> #[trigger] out@[k] == (json::trees(a@)[k] == json::Tree::Str(
                        "full_attention"@,
                    )),
        {
            assert(json::trees(a@)[i as int] == a@[i as int].tree());
            let full = match &a[i] {
                Json::Str(s) => text::same(s.as_str(), "full_attention"),
                _ => false,
            };
            out.push(full);
        }
    }
    assert(out@ =~= layer_kinds(j.tree()));
    out
}

impl Config {
    /// The numbers of the configuration in `root` that are not whole: the base of the rotation
    /// (10000 where it is not given), the rotated part of each head (1) and the normalisation's
    /// epsilon (a millionth).
    pub fn reals(root: &Json) -> (r: Result<Reals, ConfigError>)
        ensures
            match r {
                Ok(x) => {
                    let j = language_part(root.tree());
                    &&& heads_fault(j) is None
                    &&& x.head_dim == head_dim(j)
                    &&& rope_number(j, "rope_theta"@) == opt_tree(x.rope_theta)
                    &&& rope_number(j, "partial_rotary_factor"@) == opt_tree(
                        x.partial_rotary_factor,
                    )
                    &&& opt_tree(x.eps) == (if is_number(json::member(j, "rms_norm_eps"@)) {
                        json::member(j, "rms_norm_eps"@)
                    } else {
                        None
                    })
                },
                Err(e) => heads_fault(language_part(root.tree())) == Some(e@),
            },
    {
        let j = part(root);
        if let Some(e) = check_heads(j) {
            return Err(e);
        }
        let eps = j.get("rms_norm_eps");
        Ok(
            Reals {
                head_dim: read_head_dim(j),
                rope_theta: read_rope(j, "rope_theta"),
                partial_rotary_factor: read_rope(j, "partial_rotary_factor"),
                eps: if number(eps) {
                    eps
                } else {
                    None
                },
            },
        )
    }

    /// The configuration that `root`, the document in `config.json`, describes. `num_layers` and
    /// `max_context` are limits that were asked for. `rope_theta` and `eps` are single-precision
    /// bit patterns; `scaled` is the whole part of the head dimension times the rotated part.
    pub fn load(
        root: &Json,
        num_layers: Option<usize>,
        max_context: Option<usize>,
        rope_theta: u32,
        eps: u32,
        scaled: usize,
    ) -> (r: Result<Config, ConfigError>)
        ensures
            match r {
                Ok(c) => {
                    &&& fault(language_part(root.tree())) is None
                    &&& describes(c, root.tree(), num_layers, max_context, rope_theta, eps, scaled)
                },
                Err(e) => fault(language_part(root.tree())) == Some(e@),
            },
    {
        let j = part(root);
        if let Some(e) = check(j) {
            return Err(e);
        }
        let lin = if j.uint("linear_num_value_heads").is_some() {
            Some(
                LinCfg {
                    nk: size_or(j, "linear_num_key_heads"),
                    nv: size_or(j, "linear_num_value_heads"),
                    dk: size_or(j, "linear_key_head_dim"),
                    dv: size_or(j, "linear_value_head_dim"),
                    conv_k: size_or(j, "linear_conv_kernel_dim"),
                },
            )
        } else {
            None
        };
        let zero_centred = match j.text("model_type") {
            Some(s) => {
                let cs: Vec<char> = text::chars_of(s.as_str());
                let start: Vec<char> = text::chars_of("qwen3_5");
                text::starts_with(cs.as_slice(), start.as_slice())
            },
            None => {
                proof {
                    reveal_strlit("qwen3_5");
                }
                false
            },
        };
        let nested = match root.get("text_config") {
            Some(Json::Object(_)) => true,
            _ => false,
        };
        let in_file: usize = size_or(j, "num_hidden_layers");
        let layers: usize = match num_layers {
            Some(a) => if a < in_file {
                a
            } else {
                in_file
            },
            None => in_file,
        };
        let at_least: usize = if scaled < 2 {
            2
        } else {
            scaled
        };
        let c = Config {
            hidden: size_or(j, "hidden_size"),
            intermediate: size_or(j, "intermediate_size"),
            layers,
            heads: size_or(j, "num_attention_heads"),
            kv_heads: size_or(j, "num_key_value_heads"),
            head_dim: read_head_dim(j),
            vocab: size_or(j, "vocab_size"),
            rope_theta,
            eps,
            max_context: match max_context {
                Some(n) => n,
                None => 4096,
            },
            num_experts: size_or(j, "num_experts"),
            experts_per_tok: size_or(j, "num_experts_per_tok"),
            moe_intermediate: size_or(j, "moe_intermediate_size"),
            norm_topk_prob: match j.truth("norm_topk_prob") {
                Some(b) => b,
                None => true,
            },
            rotary_dim: at_least - at_least % 2,
            attn_gate: match j.truth("attn_output_gate") {
                Some(b) => b,
                None => false,
            },
            layer_types: read_kinds(j),
            lin,
            prefix: if nested {
                "model.language_model.".to_string()
            } else {
                "model.".to_string()
            },
            norm_offset: if zero_centred {
                ONE_BITS
            } else {
                0
            },
        };
        Ok(c)
    }
}

/// What an optional document means.
pub open spec fn opt_tree(t: Option<&Json>) -> Option<json::Tree> {
    match t {
        Some(t) => Some(t.tree()),
        None => None,
    }
}

// ---------------------------------------------------------------------------------------
// Laws
// ---------------------------------------------------------------------------------------

/// The whole number that `j` has under `key`.
pub open spec fn says(j: json::Tree, key: Seq<char>, n: usize) -> bool {
    json::member(j, key) == Some(json::Tree::UInt(n as u64))
}

/// Each size of a network is the one that the document gives under its name.
pub proof fn sizes_stand_under_their_names(
    c: Config,
    root: json::Tree,
    num_layers: Option<usize>,
    max_context: Option<usize>,
    rope_theta: u32,
    eps: u32,
    scaled: usize,
    n: usize,
)
    requires
        describes(c, root, num_layers, max_context, rope_theta, eps, scaled),
    ensures
        ({
            let j = language_part(root);
            &&& says(j, "hidden_size"@, n) ==> c.hidden == n
            &&& says(j, "intermediate_size"@, n) ==> c.intermediate == n
            &&& says(j, "num_attention_heads"@, n) ==> c.heads == n
            &&& says(j, "num_key_value_heads"@, n) ==> c.kv_heads == n
            &&& says(j, "head_dim"@, n) ==> c.head_dim == n
            &&& says(j, "vocab_size"@, n) ==> c.vocab == n
            &&& says(j, "num_experts"@, n) ==> c.num_experts == n
            &&& says(j, "num_experts_per_tok"@, n) ==> c.experts_per_tok == n
            &&& says(j, "moe_intermediate_size"@, n) ==> c.moe_intermediate == n
            &&& says(j, "num_hidden_layers"@, n) ==> c.layers <= n && (c.layers == n || num_layers
                == Some(c.layers))
            &&& c.lin matches Some(l) ==> {
                &&& says(j, "linear_num_key_heads"@, n) ==> l.nk == n
                &&& says(j, "linear_num_value_heads"@, n) ==> l.nv == n
                &&& says(j, "linear_key_head_dim"@, n) ==> l.dk == n
                &&& says(j, "linear_value_head_dim"@, n) ==> l.dv == n
                &&& says(j, "linear_conv_kernel_dim"@, n) ==> l.conv_k == n
            }
            &&& says(j, "linear_num_value_heads"@, n) ==> c.lin is Some
            &&& json::member(j, "linear_num_value_heads"@) is None ==> c.lin is None
            &&& json::member(j, "num_experts"@) is None ==> c.num_experts == 0
        }),
        max_context == Some(n) ==> c.max_context == n,
        c.rope_theta == rope_theta,
        c.eps == eps,
{
}

/// A document without a dimension for one head shares the network's width among its heads.
pub proof fn heads_share_the_width(j: json::Tree, hidden: usize, heads: usize)
    requires
        says(j, "hidden_size"@, hidden),
        says(j, "num_attention_heads"@, heads),
        json::member(j, "head_dim"@) is None,
        heads > 0,
    ensures
        head_dim(j) * heads <= hidden < (head_dim(j) + 1) * heads,
{
    assert(head_dim(j) == hidden / heads);
    assert((hidden / heads) * heads <= hidden < (hidden / heads + 1) * heads) by (nonlinear_arith)
        requires
            heads > 0,
    ;
}

/// What is said of gates, of the experts' shares and of the layers' kinds is followed; where nothing
/// is said there are no gates, the shares add up to one, and every layer attends with softmax.
pub proof fn flags_are_followed(
    c: Config,
    root: json::Tree,
    num_layers: Option<usize>,
    max_context: Option<usize>,
    rope_theta: u32,
    eps: u32,
    scaled: usize,
    flag: bool,
    layer: int,
)
    requires
        describes(c, root, num_layers, max_context, rope_theta, eps, scaled),
        0 <= layer,
    ensures
        ({
            let j = language_part(root);
            &&& json::member(j, "attn_output_gate"@) == Some(json::Tree::Bool(flag))
                ==> c.attn_gate == flag
            &&& json::member(j, "attn_output_gate"@) is None ==> !c.attn_gate
            &&& json::member(j, "norm_topk_prob"@) == Some(json::Tree::Bool(flag))
                ==> c.norm_topk_prob == flag
            &&& json::member(j, "norm_topk_prob"@) is None ==> c.norm_topk_prob
            &&& json::member(j, "layer_types"@) is None ==> c.full(layer)
            &&& json::member(j, "layer_types"@) matches Some(json::Tree::Array(kinds)) ==> (c.full(
                layer,
            ) <==> (layer < kinds.len() ==> kinds[layer] == json::Tree::Str("full_attention"@)))
        }),
{
}

/// The rotated part of a head is even, at least two, and otherwise no larger than the share asked
/// for and at most one smaller.
pub proof fn rotation_is_even(scaled: usize)
    ensures
        rotary(scaled) % 2 == 0,
        rotary(scaled) >= 2,
        scaled >= 2 ==> scaled - 1 <= rotary(scaled) <= scaled,
{
}

/// The language part of a document that also describes other parts stands under `text_config`, and
/// the names of its tensors say so.
pub proof fn language_parts_are_found(root: json::Tree, m: Map<Seq<char>, json::Tree>)
    ensures
        json::member(root, "text_config"@) == Some(json::Tree::Object(m)) ==> language_part(root)
            == json::Tree::Object(m) && name_prefix(root) == "model.language_model."@,
        json::member(root, "text_config"@) is None ==> language_part(root) == root && name_prefix(
            root,
        ) == "model."@,
{
}

/// `j` has a whole number under each of `keys`.
pub open spec fn has_all(j: json::Tree, keys: Seq<Seq<char>>) -> bool {
    forall|i: int| 0 <= i < keys.len() ==> size_at(j, #[trigger] keys[i]) is Some
}

/// The first key that is missing is missing, and is one of them.
proof fn lemma_first_missing(j: json::Tree, keys: Seq<Seq<char>>)
    ensures
        match first_missing(j, keys) {
            Some(k) => keys.contains(k) && size_at(j, k) is None,
            None => has_all(j, keys),
        },
    decreases keys.len(),
{
    if keys.len() > 0 {
        let rest = keys.drop_first();
        lemma_first_missing(j, rest);
        if size_at(j, keys[0]) is None {
            assert(keys.contains(keys[0]));
        } else {
            match first_missing(j, rest) {
                Some(k) => {
                    let i = choose|i: int| 0 <= i < rest.len() && rest[i] == k;
                    assert(keys[i + 1] == k);
                },
                None => {
                    assert forall|i: int| 0 <= i < keys.len() implies size_at(
                        j,
                        #[trigger] keys[i],
                    ) is Some by {
                        if i > 0 {
                            assert(rest[i - 1] == keys[i]);
                        }
                    }
                },
            }
        }
    }
}

/// A configuration is refused exactly where a size that the network needs is missing, or there is no
/// head; and what is said to be missing is missing.
pub proof fn faults_are_real(j: json::Tree)
    ensures
        match fault(j) {
            Some(Fault::Missing(k)) => json::uint_of(json::member(j, k)) is None,
            Some(Fault::NoHeads) => json::uint_of(json::member(j, "num_attention_heads"@)) matches Some(
                h,
            ) && h as usize == 0,
            None => {
                &&& size_at(j, "hidden_size"@) is Some
                &&& size_at(j, "intermediate_size"@) is Some
                &&& size_at(j, "num_hidden_layers"@) is Some
                &&& size_at(j, "num_attention_heads"@) matches Some(h) && h > 0
                &&& size_at(j, "num_key_value_heads"@) is Some
                &&& size_at(j, "vocab_size"@) is Some
                &&& size_at(j, "linear_num_value_heads"@) is Some ==> {
                    &&& size_at(j, "linear_num_key_heads"@) is Some
                    &&& size_at(j, "linear_key_head_dim"@) is Some
                    &&& size_at(j, "linear_value_head_dim"@) is Some
                    &&& size_at(j, "linear_conv_kernel_dim"@) is Some
                }
            },
        },
{
    let heads = seq!["num_attention_heads"@, "hidden_size"@];
    lemma_first_missing(j, heads);
    if heads_fault(j) is None {
        let linear = if has_linear(j) {
            linear_keys()
        } else {
            seq![]
        };
        let rest = seq![
            "intermediate_size"@,
            "num_hidden_layers"@,
            "num_key_value_heads"@,
            "vocab_size"@,
        ];
        let all = linear + rest;
        lemma_first_missing(j, all);
        if first_missing(j, all) is None {
            let n = linear.len() as int;
            assert(heads[0] == "num_attention_heads"@ && heads[1] == "hidden_size"@);
            assert(size_at(j, heads[0]) is Some && size_at(j, heads[1]) is Some);
            assert(size_at(j, all[n]) is Some && size_at(j, all[n + 1]) is Some && size_at(
                j,
                all[n + 2],
            ) is Some && size_at(j, all[n + 3]) is Some);
            if has_linear(j) {
                assert(size_at(j, all[0]) is Some && size_at(j, all[2]) is Some && size_at(
                    j,
                    all[3],
                ) is Some && size_at(j, all[4]) is Some);
            }
        }
    }
}

/// A configuration that has all it needs is not refused.
pub proof fn complete_configurations_load(j: json::Tree, heads: usize)
    requires
        size_at(j, "hidden_size"@) is Some,
        size_at(j, "intermediate_size"@) is Some,
        size_at(j, "num_hidden_layers"@) is Some,
        size_at(j, "num_attention_heads"@) == Some(heads),
        heads > 0,
        size_at(j, "num_key_value_heads"@) is Some,
        size_at(j, "vocab_size"@) is Some,
        size_at(j, "linear_num_value_heads"@) is None || has_all(j, linear_keys()),
    ensures
        fault(j) is None,
{
    let first = seq!["num_attention_heads"@, "hidden_size"@];
    lemma_first_missing(j, first);
    if let Some(k) = first_missing(j, first) {
        assert(first.contains(k));
    }
    let linear = if has_linear(j) {
        linear_keys()
    } else {
        seq![]
    };
    let rest = seq![
        "intermediate_size"@,
        "num_hidden_layers"@,
        "num_key_value_heads"@,
        "vocab_size"@,
    ];
    lemma_first_missing(j, linear + rest);
    if let Some(k) = first_missing(j, linear + rest) {
        let i = choose|i: int| 0 <= i < (linear + rest).len() && (linear + rest)[i] == k;
        if i < linear.len() {
            assert(linear_keys()[i] == k);
        } else {
            assert(rest[i - linear.len()] == k);
        }
    }
}

/// The networks whose stored normalisation weights lie round zero are told by their type: one is
/// added to their weights, and nothing to those of any other network. Without a limit that was asked
/// for, a sequence has at most 4096 tokens.
pub proof fn offsets_follow_the_type(
    c: Config,
    root: json::Tree,
    num_layers: Option<usize>,
    max_context: Option<usize>,
    rope_theta: u32,
    eps: u32,
    scaled: usize,
    t: Seq<char>,
)
    requires
        describes(c, root, num_layers, max_context, rope_theta, eps, scaled),
    ensures
        ({
            let kind = json::member(language_part(root), "model_type"@);
            &&& kind == Some(json::Tree::Str("qwen3_5"@ + t)) ==> c.norm_offset == 0x3f80_0000u32
            &&& kind == Some(json::Tree::Str(t)) && !text::begins_with(t, "qwen3_5"@)
                ==> c.norm_offset == 0
            &&& kind is None ==> c.norm_offset == 0
        }),
        max_context is None ==> c.max_context == 4096,
        c.layers <= size_or_zero(language_part(root), "num_hidden_layers"@),
        num_layers matches Some(n) ==> c.layers <= n,
{
    reveal_strlit("qwen3_5");
    let s = "qwen3_5"@;
    assert((s + t).take(s.len() as int) =~= s);
}

/// A number of the rotation stands among its parameters or, where they do not give it, beside them.
pub proof fn rotation_is_found(j: json::Tree, inner: json::Tree, key: Seq<char>, n: json::Tree)
    requires
        n is UInt || n is Num,
        json::member(j, "rope_parameters"@) == Some(inner),
    ensures
        json::member(inner, key) == Some(n) ==> rope_number(j, key) == Some(n),
        json::member(inner, key) is None && json::member(j, key) == Some(n) ==> rope_number(j, key)
            == Some(n),
        json::member(inner, key) is None && json::member(j, key) is None ==> rope_number(
            j,
            key,
        ) is None,
{
}

} // verus!
