//! One face for both devices: the scheduler does not care where a model computes.

use vstd::prelude::*;

use crate::config::Config;
use crate::kv::Kv;
use crate::model::Model;
use crate::plan;

verus! {

/// A model on its device. `G` is what the GPU holds of it.
pub enum Net<F, G> {
    Cpu(Model<F>),
    Gpu(Config, G),
}

/// The shape of the network.
pub open spec fn shape<F, G>(n: Net<F, G>) -> Config {
    match n {
        Net::Cpu(m) => m.config,
        Net::Gpu(c, _) => c,
    }
}

/// Caches of the model can be cut back: it has no recurrent layers, or is on the GPU, which
/// computes none.
pub open spec fn rolls_back<F, G>(n: Net<F, G>) -> bool {
    match n {
        Net::Cpu(m) => m.config.lin is None,
        Net::Gpu(_, _) => true,
    }
}

/// The name of the device.
pub open spec fn device_name<F, G>(n: Net<F, G>) -> Seq<char> {
    match n {
        Net::Cpu(_) => "cpu"@,
        Net::Gpu(_, _) => "gpu"@,
    }
}

/// A cache and a model are on one device.
pub open spec fn matching<F, G, B>(n: Net<F, G>, kv: Kv<F, B>) -> bool {
    (n is Cpu) == (kv is Cpu)
}

impl<F, G> Net<F, G> {
    /// The shape of the network.
    pub fn config(&self) -> (r: &Config)
        ensures
            *r == shape(*self),
    {
        match self {
            Net::Cpu(m) => &m.config,
            Net::Gpu(c, _) => c,
        }
    }

    /// Whether caches of the model can be cut back. A recurrent model drafts nothing, and reuses
    /// prompts only whole.
    pub fn supports_rollback(&self) -> (r: bool)
        ensures
            r == rolls_back(*self),
    {
        match self {
            Net::Cpu(m) => m.supports_rollback(),
            Net::Gpu(_, _) => true,
        }
    }

    /// The name of the device.
    pub fn device(&self) -> (r: &'static str)
        ensures
            r@ == device_name(*self),
    {
        match self {
            Net::Cpu(_) => "cpu",
            Net::Gpu(_, _) => "gpu",
        }
    }

    /// Whether the cache is on the model's device.
    pub fn matches_cache<B>(&self, kv: &Kv<F, B>) -> (r: bool)
        ensures
            r == matching(*self, *kv),
    {
        match (self, kv) {
            (Net::Cpu(_), Kv::Cpu(_)) => true,
            (Net::Gpu(_, _), Kv::Gpu(_)) => true,
            _ => false,
        }
    }
}

/// A recurrent network that computes where its state is kept is never said to roll back, and every
/// other network is; a network that the GPU can compute is never recurrent.
pub proof fn recurrent_networks_keep_their_state<F, G>(m: Model<F>, n: Net<F, G>)
    ensures
        n matches Net::Cpu(k) ==> (rolls_back(n) <==> k.config.lin is None),
        n is Gpu ==> rolls_back(n),
        plan::gpu_runs(m) ==> m.config.lin is None,
        plan::gpu_runs(m) ==> !m.config.attn_gate && m.config.rotary_dim == m.config.head_dim,
        plan::gpu_runs(m) ==> forall|i: int|
            0 <= i < m.layers@.len() && (#[trigger] m.layers@[i]).mlp is Moe
                ==> m.config.num_experts <= 256 && m.config.hidden % 32 == 0
                && m.config.moe_intermediate % 32 == 0,
{
}

} // verus!
