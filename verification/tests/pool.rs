use llmfast::pool::{physical_cores, Barrier, Dispatch, Job, Pool, Step, Worker};

/// Runs a job with its workers taking turns in the order that `turn` gives.
fn run_turns(mut job: Job, workers: usize, turn: fn(usize, usize) -> usize) -> Vec<u32> {
    let mut hits = vec![0; job.chunks];
    let mut ws: Vec<Worker> = (0..workers).map(Worker::new).collect();
    let mut done = vec![false; workers];
    let mut t = 0;
    while done.iter().any(|d| !d) {
        let w = turn(t, workers);
        t += 1;
        if done[w] {
            continue;
        }
        match job.step(&mut ws[w]) {
            Step::Chunk(c) => hits[c] += 1,
            Step::Empty => {}
            Step::Done => done[w] = true,
        }
    }
    hits
}

fn in_turn(t: usize, workers: usize) -> usize {
    t % workers
}

fn one_by_one(t: usize, workers: usize) -> usize {
    t / 5000 % workers
}

#[test]
fn owner_first_covers_every_chunk_once() {
    let pool = Pool::new(6);
    for &chunks in &[1usize, 5, 6, 7, 64, 1000] {
        for owned in [true, false] {
            for turn in [in_turn as fn(usize, usize) -> usize, one_by_one] {
                let hits = match pool.run_impl(chunks, owned) {
                    Dispatch::Nothing => vec![],
                    Dispatch::Inline(n) => vec![1; n],
                    Dispatch::Shared(job) => run_turns(job, 6, turn),
                };
                assert_eq!(hits.len(), chunks);
                for (c, h) in hits.iter().enumerate() {
                    assert_eq!(*h, 1, "chunk {c} of {chunks} hit {h} times");
                }
            }
        }
    }
}

#[test]
fn owners_keep_their_stride() {
    let mut job = Job::new(4, 10, true);
    let mut w = Worker::new(1);
    let mut got = Vec::new();
    for _ in 0..3 {
        if let Step::Chunk(c) = job.step(&mut w) {
            got.push(c);
        }
    }
    assert_eq!(got, vec![1, 5, 9]);
}

#[test]
fn a_worker_alone_walks_all_strides() {
    let mut job = Job::new(3, 7, true);
    let mut w = Worker::new(1);
    let mut got = Vec::new();
    loop {
        match job.step(&mut w) {
            Step::Chunk(c) => got.push(c),
            Step::Empty => {}
            Step::Done => break,
        }
    }
    assert_eq!(got, vec![1, 4, 2, 5, 0, 3, 6]);
}

#[test]
fn small_jobs_stay_on_the_calling_thread() {
    let pool = Pool::new(4);
    assert_eq!(pool.threads(), 4);
    assert!(matches!(pool.run(0), Dispatch::Nothing));
    assert!(matches!(pool.run(1), Dispatch::Inline(1)));
    assert!(matches!(pool.run(2), Dispatch::Shared(_)));
    assert!(matches!(Pool::new(1).run_static(9, true), Dispatch::Inline(9)));
}

#[test]
fn barrier_counts_down() {
    let mut b = Barrier::new();
    let seen = b.generation;
    assert!(!b.is_new(seen));
    b.post(3);
    assert!(b.is_new(seen));
    assert!(!b.finish());
    assert!(b.finish());
}

#[test]
fn cores_are_counted_once() {
    let s: Vec<String> = ["0,4\n", "1,5\n", "0,4\n", "1,5\n"].iter().map(|s| s.to_string()).collect();
    assert_eq!(physical_cores(&s, 4), 2);
    assert_eq!(physical_cores(&s, 1), 1);
    assert_eq!(physical_cores(&Vec::new(), 8), 8);
}
