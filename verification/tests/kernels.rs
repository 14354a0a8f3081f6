use llmfast::codes::{pack_row, peak, unpack_row};
use llmfast::gpu::{concat_q8, interleave, pack_words};
use llmfast::kernels::{
    alloc_rows, bf16_to_f32, block_dot, chunk_count, chunk_rows, copy_rows, high_code, low_code,
    pack_codes, per_owner_rows, row_split, Q4Mat, QMat,
};

// Placement must never change contents: sizes that cross the row-chunk boundary and sizes that
// cannot be split by rows at all.
#[test]
fn copy_rows_matches_memcpy() {
    for (rows, row_bytes) in [(1usize, 7usize), (16, 4), (17, 64), (129, 96), (64, 4096)] {
        let src: Vec<u8> = (0..rows * row_bytes).map(|i| (i * 31 % 251) as u8).collect();
        let got: Vec<u8> = copy_rows(&src, rows);
        assert_eq!(got, src, "rows={rows} row_bytes={row_bytes}");
        // A row count the buffer does not divide by falls back to a plain copy.
        let odd: Vec<u8> = copy_rows(&src, rows * 2 + 1);
        assert_eq!(odd, src, "fallback rows={rows}");
    }
}

#[test]
fn copy_rows_preserves_element_type() {
    let src: Vec<f32> = (0..1024).map(|i| i as f32 * 0.5 - 3.0).collect();
    let mut bytes: Vec<u8> = Vec::new();
    for x in &src {
        bytes.extend_from_slice(&x.to_le_bytes());
    }
    let got: Vec<u32> = copy_rows(&bytes, 64);
    let got: Vec<f32> = got.into_iter().map(f32::from_bits).collect();
    assert_eq!(got, src);
}

#[test]
fn alloc_rows_is_zeroed() {
    for (elems, rows) in [(0usize, 0usize), (16, 16), (4096, 128), (1000, 8)] {
        let v: Vec<i8> = alloc_rows(elems, rows);
        assert_eq!(v.len(), elems);
        assert!(v.iter().all(|&x| x == 0), "elems={elems} rows={rows}");
    }
}

fn widen(b: u16) -> f32 {
    f32::from_bits(bf16_to_f32(b))
}

fn quantize(w: &[u16], n: usize, k: usize) -> QMat {
    let (mut q, mut scales) = (Vec::new(), Vec::new());
    for block in w.chunks(32) {
        let scale = widen(peak(block) & 0x7fff) / 127.0;
        let inv = if scale > 0.0 { 1.0 / scale } else { 0.0 };
        scales.push(scale.to_bits());
        q.extend(block.iter().map(|&b| (widen(b) * inv).round().clamp(-127.0, 127.0) as i8));
    }
    QMat { n, k, q, scales }
}

fn matvec(w: &QMat, x: &[f32]) -> Vec<f32> {
    (0..w.n)
        .map(|i| {
            let (codes, scales) = w.row(i);
            let mut s = 0f32;
            for (b, &sc) in scales.iter().enumerate() {
                let acc: f32 = (0..32).map(|j| codes[b * 32 + j] as f32 * x[b * 32 + j]).sum();
                s += acc * f32::from_bits(sc);
            }
            s
        })
        .collect()
}

// The same weights must produce the same numbers whichever node their pages live on.
#[test]
fn numa_placement_does_not_change_results() {
    let (n, k) = (64usize, 128usize);
    let w: Vec<u16> =
        (0..n * k).map(|i| ((i * 2654435761usize >> 13) % 4001) as u16 + 15000).collect();
    let x: Vec<f32> = (0..k).map(|i| (i % 11) as f32 * 0.1 - 0.5).collect();
    let q = quantize(&w, n, k);
    let a = matvec(&q, &x);
    let mut bytes: Vec<u8> = q.q.iter().map(|&b| b as u8).collect();
    for s in &q.scales {
        bytes.extend_from_slice(&s.to_le_bytes());
    }
    let (qb, sb) = bytes.split_at(n * k);
    let q2 = QMat { n, k, q: copy_rows(qb, n), scales: copy_rows(sb, n) };
    let b = matvec(&q2, &x);
    assert_eq!(a, b, "weight placement changed the result");
}

#[test]
fn bf16_roundtrip() {
    assert_eq!(f32::from_bits(bf16_to_f32(0x3F80)), 1.0);
    assert_eq!(f32::from_bits(bf16_to_f32(0xC000)), -2.0);
    assert_eq!(bf16_to_f32(0x3F80), 0x3F80_0000);
}

#[test]
fn chunks_of_rows() {
    assert_eq!(chunk_count(0), 0);
    assert_eq!(chunk_count(16), 1);
    assert_eq!(chunk_count(17), 2);
    assert_eq!(chunk_rows(0, 17), (0, 16));
    assert_eq!(chunk_rows(1, 17), (16, 17));
    let mut seen = vec![0; 100];
    for c in 0..chunk_count(100) {
        let (a, b) = chunk_rows(c, 100);
        for r in a..b {
            seen[r] += 1;
        }
    }
    assert!(seen.iter().all(|&n| n == 1));
}

#[test]
fn rows_split_evenly_or_not_at_all() {
    assert_eq!(row_split(true, 96, 4), Some(24));
    assert_eq!(row_split(true, 97, 4), None);
    assert_eq!(row_split(true, 0, 4), None);
    assert_eq!(row_split(true, 96, 0), None);
    assert_eq!(row_split(false, 96, 4), None);
    assert_eq!(per_owner_rows(true, 99, 33), Some(vec![(0, 48), (48, 48), (96, 3)]));
    assert_eq!(per_owner_rows(true, 98, 33), None);
    assert_eq!(per_owner_rows(false, 99, 33), None);
}

#[test]
fn nibbles() {
    let b = pack_codes(3, 12);
    assert_eq!(b, 0xC3);
    assert_eq!(low_code(b), -5);
    assert_eq!(high_code(b), 4);
}

#[test]
fn packed_row_layout() {
    let codes: Vec<u8> = (0..64).map(|i| (i * 7 % 16) as u8).collect();
    let q = pack_row(&codes);
    assert_eq!(q.len(), 32);
    // byte j of a block holds codes j and j + 16
    assert_eq!(q[3], codes[3] | (codes[19] << 4));
    assert_eq!(q[16 + 5], codes[32 + 5] | (codes[32 + 21] << 4));
    let back: Vec<u8> = unpack_row(&q).into_iter().map(|v| (v + 8) as u8).collect();
    assert_eq!(back, codes);
}

#[test]
fn peaks() {
    // 1.0, -2.0, 2.0, NaN: the first of the largest, and what is no number does not count
    assert_eq!(peak(&[0x3F80, 0xC000, 0x4000, 0x7FC0]), 0xC000);
    assert_eq!(peak(&[0, 0x8000]), 0);
    assert_eq!(peak(&[]), 0);
}

#[test]
fn exact_block_products() {
    let a: Vec<i8> = (0..64).map(|i| (i % 7) as i8 - 3).collect();
    let b: Vec<i8> = (0..64).map(|i| (i % 5) as i8 - 2).collect();
    for block in 0..2 {
        let want: i32 = (0..32).map(|i| a[block * 32 + i] as i32 * b[block * 32 + i] as i32).sum();
        assert_eq!(block_dot(&a, &b, block), want);
    }
    let min = vec![-128i8; 32];
    assert_eq!(block_dot(&min, &min, 0), 32 * 16384);
}

#[test]
fn rows_of_matrices() {
    let m = QMat { n: 2, k: 32, q: (0..64).map(|i| i as i8).collect(), scales: vec![5, 6] };
    assert_eq!(m.row(1).0[0], 32);
    assert_eq!(m.row(1).1, &[6]);
    assert_eq!(m.bytes(), 72);
    let m = Q4Mat { n: 2, k: 32, q: (0..32).collect(), scales: vec![5, 6] };
    assert_eq!(m.row(1).0[0], 16);
    assert_eq!(m.row(0).1, &[5]);
    assert_eq!(m.bytes(), 40);
}

#[test]
fn joined_matrices() {
    let a = QMat { n: 1, k: 32, q: vec![1; 32], scales: vec![7] };
    let b = QMat { n: 2, k: 32, q: vec![2; 64], scales: vec![8, 9] };
    let c = concat_q8(&[&a, &b]);
    assert_eq!((c.n, c.k), (3, 32));
    assert_eq!(c.q[31], 1);
    assert_eq!(c.q[32], 2);
    assert_eq!(c.scales, vec![7, 8, 9]);
}

#[test]
fn tiles_of_sixty_four_rows() {
    // row r of tile t stands at lane r of every word's 64 lanes
    let (n, per) = (65usize, 3usize);
    let src: Vec<u32> = (0..n * per).map(|i| i as u32 + 1).collect();
    let out = interleave(&src, n, per);
    assert_eq!(out.len(), 2 * per * 64);
    for r in 0..n {
        for w in 0..per {
            assert_eq!(out[(r / 64 * per + w) * 64 + r % 64], src[r * per + w]);
        }
    }
    assert_eq!(out[per * 64 + 1], 0);
    assert_eq!(pack_words(&[1, -1, 2, -128]), vec![0x8002_FF01]);
}
