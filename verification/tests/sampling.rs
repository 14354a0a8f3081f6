use llmfast::sampler::{argmax, is_greedy, largest, Choice, Sampler};

fn bits(v: &[f32]) -> Vec<u32> {
    v.iter().map(|x| x.to_bits()).collect()
}

#[test]
fn the_last_of_the_largest() {
    assert_eq!(argmax(&bits(&[1.0, 3.0, -2.0, 3.0, 0.0])), 3);
    assert_eq!(argmax(&bits(&[-3.0, -1.0, -2.0])), 1);
    assert_eq!(argmax(&bits(&[-0.0, 0.0])), 1);
    assert_eq!(argmax(&bits(&[0.0, -0.0])), 0);
}

#[test]
fn largest_come_in_order() {
    let v: Vec<f32> = (0..1000).map(|i| ((i * 7919) % 1009) as f32 - 500.0).collect();
    let got = largest(&bits(&v), 10);
    let mut want: Vec<usize> = (0..1000).collect();
    want.sort_by(|&a, &b| v[b].total_cmp(&v[a]));
    assert_eq!(got, want[..10].to_vec());
    assert_eq!(largest(&bits(&[1.0, 2.0]), 5), vec![1, 0]);
    assert_eq!(largest(&bits(&[1.0]), 0), Vec::<usize>::new());
}

#[test]
fn greedy_temperatures() {
    for t in [0.0f32, -0.0, -1.0, f32::NEG_INFINITY] {
        assert!(is_greedy(t.to_bits()));
    }
    for t in [0.7f32, f32::MIN_POSITIVE, f32::INFINITY, f32::NAN, -f32::NAN] {
        assert!(!is_greedy(t.to_bits()));
    }
}

#[test]
fn random_numbers_follow_the_seed() {
    let mut s = Sampler::new(0.7f32.to_bits(), 0.9f32.to_bits(), 4);
    assert_eq!(s.rng, 5);
    let mut x = 5u64;
    for _ in 0..100 {
        x ^= x << 13;
        x ^= x >> 7;
        x ^= x << 17;
        assert_eq!(s.next() as u64, x >> 40);
        assert_eq!(s.rng, x);
    }
}

#[test]
fn what_sampling_comes_down_to() {
    let v = bits(&[0.5, 2.0, 1.0]);
    let mut s = Sampler::new(0, 0, 9);
    assert!(matches!(s.sample(&v), Choice::Token(1)));
    assert_eq!(s.rng, 9);
    let mut s = Sampler::new(1.0f32.to_bits(), 0, 9);
    match s.sample(&v) {
        Choice::Among(c, draw) => {
            assert_eq!(c, vec![1, 2, 0]);
            assert_eq!(draw as u64, s.rng >> 40);
        }
        Choice::Token(_) => panic!("not greedy"),
    }
    let many: Vec<u32> = (0..1000).map(|i| (i as f32).to_bits()).collect();
    match s.sample(&many) {
        Choice::Among(c, _) => assert_eq!((c.len(), c[0], c[255]), (256, 999, 744)),
        Choice::Token(_) => panic!("not greedy"),
    }
}
