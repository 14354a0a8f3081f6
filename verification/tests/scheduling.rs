use llmfast::batch::Batch;
use llmfast::config::Config;
use llmfast::draft::ngram_draft;
use llmfast::json::read;
use llmfast::kv::{Kv, KvCache, LayerCache};
use llmfast::prefix::PrefixCache;
use llmfast::scheduler::{
    any_draft, default_prefix_mb, draft_round, extend_drafts, flatten, needs_model_draft, row_starts, takes_more,
    Finish, Request, Round, Sequence, Settings,
};
use llmfast::step::{
    element_groups, gpu_plan, group_by_expert, plan, row_groups, run_params, GpuLimit,
};

fn config() -> Config {
    let j = read(
        br#"{"hidden_size": 8, "intermediate_size": 16, "num_hidden_layers": 2,
             "num_attention_heads": 4, "num_key_value_heads": 2, "head_dim": 2, "vocab_size": 32}"#,
    )
    .unwrap();
    Config::load(&j, None, None, 0, 0, 2).unwrap()
}

/// A cache that holds `n` positions.
fn cache(n: usize) -> KvCache<u32> {
    let mut c: KvCache<u32> = KvCache::new(&config(), false);
    c.reserve(n, None, 0);
    c.len = n;
    c
}

type Line = Sequence<u32, (), u8>;

fn sequence(prompt: &[u32], max_tokens: usize) -> Line {
    let req = Request {
        prompt_ids: prompt.to_vec(),
        max_tokens,
        temperature: 0,
        top_p: 0,
        seed: 1,
        stop_ids: vec![2],
    };
    Sequence::begin(req, Kv::Cpu(cache(prompt.len())), cache(0), 7)
}

fn settings() -> Settings {
    Settings::new(true, false, None, None, None, None)
}

#[test]
fn drafts_quote_the_most_recent_match() {
    assert_eq!(ngram_draft(&[1, 2, 3, 9, 1, 2, 3], 3, 6), Some(vec![9]));
    assert_eq!(ngram_draft(&[5, 1, 2, 8, 8, 8, 1, 2, 7, 7, 1, 2], 2, 2), Some(vec![7, 7]));
    assert_eq!(ngram_draft(&[1, 2, 3, 4], 3, 6), None);
    assert_eq!(ngram_draft(&[1], 3, 6), None);
    assert_eq!(ngram_draft(&[1, 2, 9, 1, 2], 3, 0), None);
}

#[test]
fn settings_of_a_recurrent_network() {
    let s = Settings::new(false, true, Some(8), Some(5), Some(9), Some("1"));
    assert_eq!((s.spec_k, s.ngram_n, s.ngram_k, s.ngram_on), (0, 5, 9, false));
    let s = Settings::new(true, true, None, None, None, Some("0"));
    assert_eq!((s.spec_k, s.ngram_n, s.ngram_k, s.ngram_on), (4, 3, 6, false));
    assert!(settings().ngram_on);
    assert_eq!((default_prefix_mb(true), default_prefix_mb(false)), (512, 1024));
    assert!(takes_more(15, 0));
    assert!(!takes_more(10, 6));
}

#[test]
fn why_sequences_end() {
    let mut s = sequence(&[5, 6], 3);
    assert_eq!(s.emit(2, true), Some(Finish::Stop));
    assert_eq!(s.generated, 0);
    assert_eq!(s.emit(9, false), Some(Finish::Disconnected));
    assert_eq!(s.emit(9, true), None);
    assert_eq!(s.emit(9, true), None);
    assert_eq!(s.emit(9, true), Some(Finish::Length));
    assert_eq!(s.generated, 3);
    assert_eq!(
        [Finish::Stop.name(), Finish::Disconnected.name(), Finish::Length.name()],
        ["stop", "disconnected", "length"]
    );
}

#[test]
fn a_round_keeps_what_was_drafted_right() {
    let mut b: Batch<u32, (), u8> = Batch::new(settings());
    assert!(b.join(sequence(&[5, 6, 7], 10), 8, true).is_none());
    let s = &mut b.active[0];
    let draft = [9, 10, 11];
    assert_eq!(s.target_row(&draft), vec![8, 9, 10, 11]);
    // the pass has filled the cache with the row
    if let Kv::Cpu(c) = &mut s.cache {
        c.reserve(7, None, 0);
        c.len = 7;
    }
    let mut round = Round::new();
    for t in [9, 10, 4] {
        assert!(round.open);
        s.judge(&mut round, &draft, t, true);
    }
    assert!(!round.open);
    assert_eq!(round.accepted, 2);
    assert_eq!(round.finished, None);
    s.settle(1, 3, true, round.accepted);
    assert_eq!(s.committed, vec![5, 6, 7, 8, 9, 10, 4]);
    assert_eq!(s.cache.len(), 6);
    assert_eq!((s.drafted, s.accepted, s.ngram_hits, s.ngram_backoff), (3, 2, 1, 0));
}

#[test]
fn useless_lookups_sit_out() {
    let mut b: Batch<u32, (), u8> = Batch::new(settings());
    b.join(sequence(&[1, 2, 3, 1, 2], 10), 3, true);
    let (drafts, found) = b.look_up();
    assert_eq!(drafts, vec![vec![1]]);
    assert_eq!(found, vec![true]);
    let s = &mut b.active[0];
    if let Kv::Cpu(c) = &mut s.cache {
        c.reserve(8, None, 0);
        c.len = 8;
    }
    let mut round = Round::new();
    s.judge(&mut round, &drafts[0], 30, true);
    s.settle(1, 1, true, round.accepted);
    assert_eq!(s.ngram_backoff, 3);
    for left in [2, 1, 0] {
        assert_eq!(b.look_up().1, vec![false]);
        assert_eq!(b.active[0].ngram_backoff, left);
    }
}

#[test]
fn batches_take_in_and_retire() {
    let mut b: Batch<u32, (), u8> = Batch::new(settings());
    let (s, f) = b.join(sequence(&[1], 4), 2, true).unwrap();
    assert_eq!((s.attached, f), (7, Finish::Stop));
    // a first token that is the last one asked for ends the sequence by its length
    assert_eq!(b.join(sequence(&[1], 1), 9, true).unwrap().1, Finish::Length);
    assert_eq!(b.join(sequence(&[1], 4), 9, false).unwrap().1, Finish::Disconnected);
    for t in [3, 4, 5] {
        b.join(sequence(&[1], 4), t, true);
    }
    let gone = b.retire(&vec![None, Some(Finish::Length), None]);
    assert_eq!(gone.len(), 1);
    assert_eq!(gone[0].0.committed, vec![1, 4]);
    let left: Vec<Vec<u32>> = b.active.iter().map(|s| s.committed.clone()).collect();
    assert_eq!(left, vec![vec![1, 3], vec![1, 5]]);
}

#[test]
fn draft_states_are_fed_what_they_lack() {
    let mut b: Batch<u32, (), u8> = Batch::new(settings());
    b.join(sequence(&[1, 2, 3], 9), 4, true);
    b.join(sequence(&[6], 9), 7, true);
    b.active[1].draft_cache = cache(2);
    assert_eq!(b.resync(), vec![vec![1, 2, 3, 4], vec![7]]);
    assert_eq!(b.active[1].draft_cache.len, 1);
}

#[test]
fn rows_of_a_pass() {
    let rows = vec![vec![8, 9], vec![5], vec![1, 2, 3]];
    let items = flatten(&rows);
    assert_eq!(items, vec![(8, 0), (9, 0), (5, 1), (1, 2), (2, 2), (3, 2)]);
    assert_eq!(row_starts(&rows), vec![0, 2, 3]);
    let mut drafts = vec![vec![], vec![4], vec![]];
    assert!(any_draft(&drafts));
    assert!(needs_model_draft(&[true, false]));
    assert!(!needs_model_draft(&[true]));
    extend_drafts(&mut drafts, &[false, true, false], &[1, 2, 3]);
    assert_eq!(drafts, vec![vec![1], vec![4], vec![3]]);
}

#[test]
fn positions_of_a_step() {
    let items = [(7, 1), (8, 1), (9, 0), (5, 1)];
    let p = plan(&items, &[4, 10], 100, false).unwrap();
    assert_eq!(p.pos, vec![10, 11, 4, 12]);
    assert_eq!(p.seen, vec![1, 3]);
    assert_eq!(p.ranges, vec![(1, 0, 2), (0, 2, 1), (1, 3, 1)]);
    // Sequence 1 appears first, and its last item is behind that of sequence 0.
    assert_eq!(p.lasts, vec![3, 2]);
    assert_eq!(plan(&items, &[4, 10], 100, true).unwrap().lasts, vec![0, 1, 2, 3]);
    assert!(plan(&items, &[4, 10], 12, false).is_none());
}

#[test]
fn limits_of_the_gpu() {
    let many: Vec<(u32, usize)> = (0..513).map(|_| (1, 0)).collect();
    assert!(matches!(gpu_plan(&many, &[0], false), Err(GpuLimit::Items)));
    assert!(matches!(gpu_plan(&many[..2], &[2047], false), Err(GpuLimit::Context)));
    assert!(matches!(gpu_plan(&many[..17], &[0], true), Err(GpuLimit::Logits)));
    let p = gpu_plan(&many[..17], &[3], false).unwrap();
    assert_eq!((p.pos[16], p.lasts.clone()), (19, vec![16]));
    let v = run_params(&[(0, 0, 5), (3, 5, 2)]);
    assert_eq!(v.len(), 128);
    assert_eq!((v[0], v[1], v[64], v[65], v[66]), (0, 5, 5, 2, 0));
    assert_eq!((row_groups(65), element_groups(257)), (2, 2));
}

#[test]
fn tokens_meet_their_experts() {
    let g = group_by_expert(&vec![vec![2, 0], vec![2, 1]], 4);
    assert_eq!(g, vec![vec![(0, 1)], vec![(1, 1)], vec![(0, 0), (1, 0)], vec![]]);
}

#[test]
fn remembered_prompts_are_served() {
    let mut p: PrefixCache<u32, ()> = PrefixCache::new(1024, None);
    assert_eq!(p.budget, 1024 << 20);
    assert!(p.lookup(&[1, 2, 3, 4, 5]).is_none());
    p.insert(&[1, 2, 3, 4, 5], Kv::Cpu(cache(5)));
    // the last token is always computed
    assert_eq!(p.lookup(&[1, 2, 3, 4, 5]), Some((4, 0)));
    assert_eq!(p.lookup(&[1, 2, 3, 4, 5, 6, 7]), Some((5, 0)));
    assert_eq!(p.lookup(&[1, 2, 3, 4, 9]), Some((4, 0)));
    // fewer than four common tokens are not worth it
    assert!(p.lookup(&[1, 2, 3, 9, 9]).is_none());
    assert!(p.covers(&[1, 2]));
    p.insert(&[1, 2], Kv::Cpu(cache(2)));
    assert_eq!(p.entries.len(), 1);
    p.insert(&[1, 2, 3, 4, 5, 6], Kv::Cpu(cache(6)));
    assert_eq!(p.entries.len(), 1);
    assert_eq!(p.entries[0].tokens, vec![1, 2, 3, 4, 5, 6]);
    assert_eq!(p.entries[0].kv.len(), 6);
}

#[test]
fn oldest_prompts_are_forgotten() {
    let mut p: PrefixCache<u32, ()> = PrefixCache::new(1, Some(0));
    p.insert(&[1], Kv::Cpu(cache(1)));
    p.insert(&[2], Kv::Cpu(cache(1)));
    // over any budget one prompt stays: the newest
    assert_eq!(p.entries.len(), 1);
    assert_eq!(p.entries[0].tokens, vec![2]);
    let mut p: PrefixCache<u32, ()> = PrefixCache::new(1, None);
    for t in 1..4 {
        p.insert(&[t, 9, 9, 9], Kv::Cpu(cache(4)));
    }
    assert_eq!(p.lookup(&[1, 9, 9, 9, 9]), Some((4, 0)));
    p.evict(vec![1 << 20, 1, 1]);
    let left: Vec<u32> = p.entries.iter().map(|e| e.tokens[0]).collect();
    assert_eq!(left, vec![1]);
}

#[test]
fn caches_grow_and_are_cut() {
    let cfg = config();
    let mut c: KvCache<u32> = KvCache::new(&cfg, false);
    assert_eq!((c.layers.len(), c.stride, c.kv_heads, c.len), (2, 4, 2, 0));
    c.reserve(3, None, 0);
    for l in &mut c.layers {
        for p in 0..3u32 {
            l.store(p as usize, 4, &[p; 4], &[p + 10; 4]);
        }
    }
    c.advance(2);
    c.advance(1);
    let copy = c.duplicate();
    assert!(c.can_truncate(1));
    c.truncate(1);
    assert_eq!(c.len, 1);
    match (&c.layers[1], &copy.layers[1]) {
        (LayerCache::Kv { k, v }, LayerCache::Kv { k: k2, .. }) => {
            assert_eq!(k, &vec![0; 4]);
            assert_eq!(v, &vec![10; 4]);
            assert_eq!(k2, &vec![0, 0, 0, 0, 1, 1, 1, 1, 2, 2, 2, 2]);
        }
        _ => panic!("another form"),
    }
    assert!(copy.bytes() >= 2 * 2 * 12 * 4);
    // nothing lies after more positions than there are
    let mut whole = copy.duplicate();
    whole.truncate(9);
    assert_eq!(whole.len, 3);
    whole.truncate(usize::MAX);
    assert_eq!(whole.len, 3);
    match (&whole.layers[0], &copy.layers[0]) {
        (LayerCache::Kv { k, v }, LayerCache::Kv { k: k2, v: v2 }) => {
            assert_eq!((k, v), (k2, v2));
        }
        _ => panic!("another form"),
    }
}

/// Serves a request whose next token follows from the tokens so far, with these drafts in turn.
fn serve(drafts: &[Vec<u32>]) -> (Vec<u32>, Option<Finish>) {
    let next = |c: &[u32]| 3 + (c.iter().sum::<u32>() * 7) % 5;
    let mut b: Batch<u32, (), u8> = Batch::new(settings());
    assert!(b.join(sequence(&[5, 6], 6), next(&[5, 6]), true).is_none());
    let s = &mut b.active[0];
    let mut rounds = drafts.iter().cycle();
    loop {
        let draft = rounds.next().unwrap();
        let base = s.committed.clone();
        let mut round = Round::new();
        while round.open {
            // what the pass saw for the row
            let mut seen = base.clone();
            seen.extend_from_slice(&draft[..round.row]);
            assert_eq!(seen, s.committed);
            s.judge(&mut round, draft, next(&seen), true);
        }
        if round.finished.is_some() {
            return (s.committed.clone(), round.finished);
        }
    }
}

#[test]
fn speculation_changes_speed_alone() {
    let plain = serve(&[vec![]]);
    assert_eq!(plain.1, Some(Finish::Length));
    assert_eq!(plain.0.len(), 2 + 6);
    let right = plain.0[3..].to_vec();
    assert_eq!(serve(&[right.clone()]), plain);
    assert_eq!(serve(&[vec![right[0], 99], vec![], vec![3, 4, 5, 6, 7]]), plain);
}

#[test]
fn rounds_of_a_draft_model() {
    assert_eq!(draft_round(0, 0), (false, false));
    assert_eq!(draft_round(0, 1), (true, false));
    assert_eq!(draft_round(0, 2), (true, true));
    assert_eq!(draft_round(1, 2), (true, false));
    assert_eq!(draft_round(usize::MAX, 2), (false, false));
}

#[test]
fn remembered_prompts_stay_within_the_budget() {
    // one megabyte, and prompts whose states take more than a third of it each
    let mut p: PrefixCache<u32, ()> = PrefixCache::new(1, None);
    for t in 1..6 {
        p.insert(&[t, 9, 9, 9], Kv::Cpu(cache(6000)));
        assert!(p.entries.len() == 1 || p.entries.iter().map(|e| e.kv.bytes()).sum::<usize>() <= 1 << 20);
        assert_eq!(p.entries.last().unwrap().tokens[0], t);
    }
}

#[test]
fn coded_caches() {
    let mut c: KvCache<u32> = KvCache::new(&config(), true);
    c.reserve(2, None, 0);
    for l in &mut c.layers {
        l.store_codes(1, 4, 2, &[1, 2, 3, 4], &[5, 6, 7, 8], &[70, 71], &[80, 81]);
    }
    match &c.layers[0] {
        LayerCache::Kv8 { k, v, ks, vs } => {
            assert_eq!(k, &vec![0, 0, 0, 0, 1, 2, 3, 4]);
            assert_eq!(v[4..], [5, 6, 7, 8]);
            assert_eq!((ks, vs), (&vec![0, 0, 70, 71], &vec![0, 0, 80, 81]));
        }
        _ => panic!("another form"),
    }
}
