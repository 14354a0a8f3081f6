use llmfast::config::{Config, ConfigError, ONE_BITS};
use llmfast::files::{checkpoint_files, has_suffix, sort, DirEntry};
use llmfast::json::read;
use llmfast::kernels::{Q4Mat, QMat};
use llmfast::model::{set_progress, side_by_side, Attn, Expert, Layer, Mlp, Model};
use llmfast::plan::{plan_model, prefix_of_layer, AttnPlan, MlpPlan};
use llmfast::safetensors::{SafeTensors, ShardError, TensorError};
use llmfast::wcache;
use llmfast::weight::{Format, Weight};

/// A file with tensors of the given types, shapes and bytes.
fn shard(tensors: &[(&str, &str, &[usize], Vec<u8>)]) -> Vec<u8> {
    let mut parts = Vec::new();
    let mut data = Vec::new();
    for (name, dtype, shape, bytes) in tensors {
        let from = data.len();
        data.extend_from_slice(bytes);
        parts.push(format!(
            "\"{name}\": {{\"dtype\": \"{dtype}\", \"shape\": {shape:?}, \"data_offsets\": [{from}, {}]}}",
            data.len()
        ));
    }
    let header = format!("{{\"__metadata__\": {{\"format\": \"pt\"}}, {}}}", parts.join(", "));
    let mut out = (header.len() as u64).to_le_bytes().to_vec();
    out.extend_from_slice(header.as_bytes());
    out.extend_from_slice(&data);
    out
}

fn bf16(v: &[u16]) -> Vec<u8> {
    v.iter().flat_map(|x| x.to_le_bytes()).collect()
}

#[test]
fn tensors_of_several_files() {
    let a = shard(&[("w", "BF16", &[2, 2], bf16(&[0x3F80, 0xC000, 1, 2]))]);
    let b = shard(&[
        ("n", "F32", &[2], [1.5f32, -2.0].iter().flat_map(|x| x.to_le_bytes()).collect()),
        ("h", "F16", &[1], vec![0, 0]),
    ]);
    let mut st = SafeTensors::new();
    st.add_shard(&a).unwrap();
    st.add_shard(&b).unwrap();
    assert!(st.has("w") && st.has("n") && !st.has("__metadata__") && !st.has("x"));
    assert_eq!(st.names().len(), 3);
    assert_eq!(st.info("w").unwrap().shape, vec![2, 2]);
    assert_eq!(st.info("n").unwrap().shard, 1);
    assert_eq!(st.bf16("w").unwrap(), vec![0x3F80, 0xC000, 1, 2]);
    assert_eq!(st.single("w").unwrap()[..2], [0x3F80_0000, 0xC000_0000]);
    assert_eq!(f32::from_bits(st.single("n").unwrap()[1]), -2.0);
    assert!(matches!(st.bf16("x"), Err(TensorError::Missing)));
    assert!(matches!(st.bf16("n"), Err(TensorError::Type)));
    assert!(matches!(st.single("h"), Err(TensorError::Type)));
}

#[test]
fn faulty_files() {
    let mut st = SafeTensors::new();
    assert!(matches!(st.add_shard(&[1, 2, 3]), Err(ShardError::Short)));
    let long = [9u8, 0, 0, 0, 0, 0, 0, 0, b'{'];
    assert!(matches!(st.add_shard(&long), Err(ShardError::Short)));
    let bad = [1u8, 0, 0, 0, 0, 0, 0, 0, b'{'];
    assert!(matches!(st.add_shard(&bad), Err(ShardError::Json(_))));
    let list = [2u8, 0, 0, 0, 0, 0, 0, 0, b'[', b']'];
    assert!(matches!(st.add_shard(&list), Err(ShardError::Header)));
    let cut = shard(&[("w", "BF16", &[1, 2], bf16(&[1, 2]))]);
    let cut = &cut[..cut.len() - 2];
    let mut st = SafeTensors::new();
    st.add_shard(cut).unwrap();
    assert!(matches!(st.bf16("w"), Err(TensorError::Bounds)));
}

fn entry(name: &str, stat: Option<(u64, u64)>) -> DirEntry {
    DirEntry { name: name.to_string(), stat }
}

#[test]
fn files_of_a_checkpoint() {
    assert!(has_suffix("a.safetensors", ".safetensors"));
    let names = |v: Vec<DirEntry>| v.into_iter().map(|e| e.name).collect::<Vec<_>>();
    let dir = || vec![entry("b.safetensors", None), entry("x.json", None), entry("a.safetensors", None)];
    assert_eq!(names(sort(dir())), vec!["a.safetensors", "b.safetensors", "x.json"]);
    assert_eq!(names(checkpoint_files(None, dir())), vec!["a.safetensors", "b.safetensors"]);
    let one = Some(entry("model.safetensors", Some((1, 2))));
    assert_eq!(names(checkpoint_files(one, dir())), vec!["model.safetensors"]);
}

#[test]
fn keys_of_a_checkpoint() {
    let dir = vec![
        entry("b.safetensors", Some((10, 5))),
        entry("config.json", Some((3, 4))),
        entry("other", Some((1, 1))),
        entry("a.safetensors", None),
    ];
    assert_eq!(wcache::key("q8", dir), "v1|q8|b.safetensors:10:5;config.json:3:4;");
    assert_eq!(wcache::path("d", "q4"), "d/.llmfast-cache-q4.bin");
    assert!(wcache::writes_cache(true, false));
    assert!(!wcache::writes_cache(true, true) && !wcache::writes_cache(false, false));
    assert_eq!(wcache::legacy_path("d", "q4"), "d/.forge-cache-q4.bin");
}

fn q8(n: usize, start: i8) -> Weight {
    Weight::Q8(QMat {
        n,
        k: 32,
        q: (0..n * 32).map(|i| start.wrapping_add(i as i8)).collect(),
        scales: (0..n).map(|i| (0.5f32 + i as f32).to_bits()).collect(),
    })
}

fn q4(n: usize) -> Weight {
    Weight::Q4(Q4Mat { n, k: 32, q: (0..n * 16).map(|i| i as u8).collect(), scales: vec![7; n] })
}

#[test]
fn weights_on_disk() {
    let (a, b) = (q8(2, -5), q4(3));
    let c = Weight::Bf16 { w: vec![1, 2, 3, 4], n: 2, k: 2 };
    let list = vec![("a".to_string(), &a), ("b".to_string(), &b), ("c".to_string(), &c)];
    let (mut file, parts) = wcache::encode("v1|q8|", &list);
    for p in &parts {
        file.extend_from_slice(p);
    }
    assert!(wcache::read(&file, "v1|q4|").is_none());
    assert!(wcache::read(&file[..20], "v1|q8|").is_none());
    let mut got = wcache::read(&file, "v1|q8|").unwrap();
    match (got.take("a"), &a) {
        (Some(Weight::Q8(x)), Weight::Q8(y)) => {
            assert_eq!((x.n, x.k, &x.q, &x.scales), (y.n, y.k, &y.q, &y.scales));
        }
        _ => panic!("another form"),
    }
    match (got.take("b"), &b) {
        (Some(Weight::Q4(x)), Weight::Q4(y)) => {
            assert_eq!((x.n, x.k, &x.q, &x.scales), (y.n, y.k, &y.q, &y.scales));
        }
        _ => panic!("another form"),
    }
    assert!(matches!(got.take("c"), Some(Weight::Bf16 { w, n: 2, k: 2 }) if w == vec![1, 2, 3, 4]));
    assert!(got.take("a").is_none());
    assert_eq!((a.bytes(), a.params()), (64 + 8, 64));
    assert_eq!((b.bytes(), b.params()), (48 + 12, 96));
    assert_eq!((c.bytes(), c.params()), (8, 4));
}

#[test]
fn forms_have_names() {
    for (n, f) in [("q8", Format::Q8), ("q4", Format::Q4), ("bf16", Format::Bf16)] {
        assert_eq!(Format::parse(n), f);
        assert_eq!(f.name(), n);
    }
    assert_eq!(Format::parse("other"), Format::Bf16);
    assert!(matches!(Weight::from_cache("other", 1, 1, &[5, 0]), Some(Weight::Bf16 { w, .. }) if w == vec![5]));
    assert!(Weight::from_cache("q8", 1, 32, &[0; 35]).is_none());
    assert!(Weight::from_cache("q8", 1, 32, &[0; 36]).is_some());
}

#[test]
fn configurations() {
    let j = read(
        br#"{"model_type": "qwen3_5_text", "text_config": {"model_type": "qwen3_5_text", "hidden_size": 64,
            "intermediate_size": 128, "num_hidden_layers": 4, "num_attention_heads": 4,
            "num_key_value_heads": 2, "vocab_size": 99, "attn_output_gate": true,
            "layer_types": ["linear_attention", "full_attention"],
            "linear_num_key_heads": 2, "linear_num_value_heads": 4, "linear_key_head_dim": 8,
            "linear_value_head_dim": 16, "linear_conv_kernel_dim": 4}}"#,
    )
    .unwrap();
    let r = Config::reals(&j).unwrap();
    assert_eq!(r.head_dim, 16);
    assert!(r.rope_theta.is_none());
    let c = Config::load(&j, Some(3), Some(512), 5, 6, 7).unwrap();
    assert_eq!((c.layers, c.max_context, c.head_dim, c.rotary_dim), (3, 512, 16, 6));
    assert_eq!((c.rope_theta, c.eps, c.norm_offset), (5, 6, ONE_BITS));
    assert_eq!(c.prefix, "model.language_model.");
    assert!(c.attn_gate);
    assert!(!c.is_full(0) && c.is_full(1) && c.is_full(9));
    assert_eq!(c.lin.unwrap().conv_dim(), 2 * 16 + 64);
    assert_eq!(f32::from_bits(ONE_BITS), 1.0);
}

#[test]
fn faulty_configurations() {
    let fault = |s: &str| match Config::load(&read(s.as_bytes()).unwrap(), None, None, 0, 0, 0) {
        Ok(_) => panic!("loaded"),
        Err(e) => e,
    };
    match fault(r#"{"hidden_size": 4, "num_attention_heads": 1, "head_dim": 1}"#) {
        ConfigError::Missing(_) => {}
        ConfigError::NoHeads => panic!("another fault"),
    }
    assert!(matches!(fault(r#"{"hidden_size": 4, "num_attention_heads": 0}"#), ConfigError::NoHeads));
}

#[test]
fn what_a_network_is_loaded_from() {
    let config = |extra: &str| {
        let s = format!(
            r#"{{"hidden_size": 32, "intermediate_size": 32, "num_hidden_layers": 2,
                "num_attention_heads": 2, "num_key_value_heads": 1, "vocab_size": 8{extra}}}"#
        );
        Config::load(&read(s.as_bytes()).unwrap(), None, None, 0, 0, 16).unwrap()
    };
    let st = SafeTensors::new();
    let p = plan_model(&config(""), "q8", None, &st);
    assert_eq!(p.layers.len(), 2);
    assert_eq!(p.embed, "model.embed_tokens.weight");
    assert_eq!(p.norm, "model.norm.weight");
    assert_eq!(p.lm_head.name, "model.embed_tokens.weight");
    match &p.layers[1].attn {
        AttnPlan::Full { wq, q_norm, .. } => {
            assert_eq!(wq.name, "model.layers.1.self_attn.q_proj.weight");
            assert_eq!(wq.format, Format::Q8);
            assert_eq!(q_norm, "model.layers.1.self_attn.q_norm.weight");
        }
        _ => panic!("another attention"),
    }
    let file = shard(&[
        ("model.layers.0.mlp.gate.weight", "BF16", &[3, 32], vec![]),
        ("lm_head.weight", "BF16", &[8, 32], vec![]),
    ]);
    let mut st = SafeTensors::new();
    st.add_shard(&file).unwrap();
    let p = plan_model(&config(r#", "num_experts": 3, "num_experts_per_tok": 2"#), "q4", None, &st);
    assert_eq!(p.lm_head.name, "lm_head.weight");
    match (&p.layers[0].mlp, &p.layers[1].mlp) {
        (MlpPlan::Moe { experts, .. }, MlpPlan::Dense(_)) => {
            assert_eq!(experts.len(), 3);
            assert_eq!(experts[2].w_up.name, "model.layers.0.mlp.experts.2.up_proj.weight");
        }
        _ => panic!("another network"),
    }
    assert_eq!(prefix_of_layer("model.", 10), "model.layers.10.");
}

fn expert() -> Expert {
    Expert { w_gate: q8(32, 1), w_up: q8(32, 2), w_down: q8(32, 3) }
}

fn network(experts: usize) -> Model<u32> {
    let s = format!(
        r#"{{"hidden_size": 32, "intermediate_size": 32, "num_hidden_layers": 1,
            "num_attention_heads": 1, "num_key_value_heads": 1, "head_dim": 32, "vocab_size": 2,
            "num_experts": {experts}, "num_experts_per_tok": 1, "moe_intermediate_size": 32}}"#
    );
    let config = Config::load(&read(s.as_bytes()).unwrap(), None, None, 0, 0, 32).unwrap();
    let mlp = if experts == 0 {
        Mlp::Dense(expert())
    } else {
        Mlp::Moe { router: vec![0; 32 * experts], experts: (0..experts).map(|_| expert()).collect() }
    };
    Model {
        config,
        mtp: None,
        inv_freq: vec![],
        embed: vec![0; 64],
        layers: vec![Layer {
            ln1: vec![],
            attn: Attn::Full {
                wq: q8(32, 4),
                wk: q8(32, 5),
                wv: q8(32, 6),
                wo: q8(32, 7),
                q_norm: vec![],
                k_norm: vec![],
                gate: false,
            },
            ln2: vec![],
            mlp,
        }],
        norm: vec![],
        lm_head: q8(2, 8),
        stats: (0, 0),
    }
}

#[test]
fn names_that_weights_are_kept_under() {
    let m = network(2);
    let list = m.cache_list(false);
    let names: Vec<&str> = list.iter().map(|e| e.0.as_str()).collect();
    assert_eq!(names.len(), 4 + 6 + 1);
    assert_eq!(names[0], "model.layers.0.self_attn.q_proj.weight");
    assert_eq!(names[9], "model.layers.0.mlp.experts.1.down_proj.weight");
    assert_eq!(names[10], "model.embed_tokens.weight");
    assert_eq!(m.cache_list(true)[10].0, "lm_head.weight");
    for (i, a) in names.iter().enumerate() {
        assert!(!names[i + 1..].contains(a));
    }
    let (mut file, parts) = wcache::encode("k", &list);
    for p in &parts {
        file.extend_from_slice(p);
    }
    let mut got = wcache::read(&file, "k").unwrap();
    for (n, w) in &list {
        let back = got.take(n).unwrap();
        assert_eq!(back.to_cache(), w.to_cache());
    }
}

#[test]
fn what_networks_can_do() {
    let dense = network(0);
    assert!(dense.supports_rollback() && dense.layers_mlp_dense() && dense.gpu_supported());
    assert!(!dense.has_mtp());
    assert_eq!(dense.mtp_cache().layers.len(), 1);
    let moe = network(2);
    assert!(!moe.layers_mlp_dense() && moe.gpu_supported());
    let mut gated = network(0);
    gated.config.attn_gate = true;
    assert!(!gated.gpu_supported());
    match &moe.layers[0].mlp {
        Mlp::Moe { experts, .. } => {
            assert!(side_by_side(1, experts));
            assert!(!side_by_side(2, experts));
        }
        Mlp::Dense(_) => panic!("another network"),
    }
    let plain = Expert { w_gate: Weight::Bf16 { w: vec![], n: 0, k: 0 }, w_up: q8(1, 0), w_down: q8(1, 0) };
    assert!(!side_by_side(1, &vec![plain]));
    // what has to live on a device: of a mixture, all experts
    assert_eq!(dense.weight_bytes(), 7 * 32 * 36 + 2 * 36);
    assert_eq!(moe.weight_bytes(), (4 + 2 * 3) * 32 * 36 + 2 * 36);
}

#[test]
fn progress_in_thousandths() {
    assert_eq!(set_progress(0, 0), 0);
    assert_eq!(set_progress(1, 3), 333);
    assert_eq!(set_progress(3, 3), 1000);
    assert_eq!(set_progress(9, 3), 1000);
}
