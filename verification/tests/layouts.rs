use llmfast::config::LinCfg;
use llmfast::kernels::chunk_count;
use llmfast::layout::{
    attention_task, block_task, channel_inputs, embed_rows, gather, keep_inputs, kv_start,
    lin_starts, pick_rows, pieces, split_rows, tiles, Tile,
};

#[test]
fn rows_side_by_side() {
    let x: Vec<u32> = (0..12).collect();
    let p = pick_rows(&x, &[2, 0, 2], 3);
    assert_eq!(p, vec![6, 7, 8, 0, 1, 2, 6, 7, 8]);
    assert_eq!(split_rows(&p, 3), vec![vec![6, 7, 8], vec![0, 1, 2], vec![6, 7, 8]]);
    assert_eq!(embed_rows(&[1, 2, 3, 4], &[(1, 0), (0, 5)], 2), vec![0x30000, 0x40000, 0x10000, 0x20000]);
}

#[test]
fn heads_and_their_gates() {
    // two blocks of [q q | g g]
    let q = [1, 2, 10, 20, 3, 4, 30, 40];
    assert_eq!(gather(&q, 2, 4, 0, 2), vec![1, 2, 3, 4]);
    assert_eq!(gather(&q, 2, 4, 2, 2), vec![10, 20, 30, 40]);
}

#[test]
fn heads_share_keys() {
    let mut served = vec![0; 4];
    for c in 0..32 {
        let (item, head, kv) = attention_task(c, 16, 4);
        assert_eq!((item, head), (c / 16, c % 16));
        served[kv] += 1;
    }
    assert_eq!(served, vec![8; 4]);
    assert_eq!(kv_start(3, 1, 4, 8), 3 * 32 + 8);
}

#[test]
fn pieces_of_a_prompt() {
    assert_eq!(pieces(1030, 512), vec![(0, 512), (512, 1024), (1024, 1030)]);
    assert_eq!(pieces(512, 512), vec![(0, 512)]);
    assert_eq!(pieces(0, 512), vec![]);
}

#[test]
fn experts_write_apart() {
    let (blocks, n) = (6usize, 40usize);
    let mut hits = vec![0; blocks * n];
    for c in 0..blocks * chunk_count(n) {
        let (b, first, end, at) = block_task(c, blocks, n);
        assert_eq!(at, b * n + first);
        for p in at..at + (end - first) {
            hits[p] += 1;
        }
    }
    assert!(hits.iter().all(|&h| h == 1));
}

#[test]
fn tiles_cover_products_once() {
    for (rows, inputs) in [(16usize, 8usize), (16, 7), (7, 3), (3, 2), (4, 1), (0, 5), (5, 0)] {
        let mut hits = vec![0; rows * inputs];
        for t in tiles(rows, inputs) {
            match t {
                Tile::Square { row, input } => {
                    for i in 0..4 {
                        for j in 0..2 {
                            hits[(row + i) * inputs + input + j] += 1;
                        }
                    }
                }
                Tile::Column { row, input } => {
                    for i in 0..4 {
                        hits[(row + i) * inputs + input] += 1;
                    }
                }
                Tile::Line { row } => {
                    for j in 0..inputs {
                        hits[row * inputs + j] += 1;
                    }
                }
            }
        }
        assert!(hits.iter().all(|&h| h == 1), "{rows} x {inputs}");
    }
}

#[test]
fn convolutions_remember_their_inputs() {
    // three channels, two inputs kept of each
    let kept = vec![1, 2, 3, 4, 5, 6];
    let rows = vec![10, 11, 12, 20, 21, 22, 30, 31, 32];
    let line = channel_inputs(&kept, &rows, 2, 3, 1, 3);
    assert_eq!(line, vec![3, 4, 11, 21, 31]);
    let mut once = kept.clone();
    keep_inputs(&mut once, &line, 2, 1);
    assert_eq!(once, vec![1, 2, 21, 31, 5, 6]);
    // one row at a time keeps the same
    let mut steps = kept.clone();
    for t in 0..3 {
        let line = channel_inputs(&steps, &rows[t * 3..t * 3 + 3], 2, 3, 1, 1);
        keep_inputs(&mut steps, &line, 2, 1);
    }
    assert_eq!(steps, once);
}

#[test]
fn parts_of_a_recurrent_row() {
    let lin = LinCfg { nk: 2, nv: 6, dk: 4, dv: 3, conv_k: 4 };
    assert_eq!((lin.key_dim(), lin.value_dim(), lin.conv_dim()), (8, 18, 34));
    assert_eq!(lin_starts(&lin, 0), (0, 8, 16));
    assert_eq!(lin_starts(&lin, 2), (0, 8, 22));
    assert_eq!(lin_starts(&lin, 5), (4, 12, 31));
}
