use rpeg::codeword::{pack_words, unpack_words};

#[test]
fn pack_then_unpack_sample_block() {
    let block = (300u64, 5i64, -3i64, 0i64, 10u64, 2u64);
    let words = pack_words(vec![block], 1, 1);
    assert_eq!(words.len(), 1);
    let back = unpack_words(&words, 1, 1);
    assert_eq!(back, vec![block]);
}

#[test]
fn pack_layout_is_big_endian() {
    let block = (300u64, 5i64, -3i64, 0i64, 10u64, 2u64);
    let word: u32 = (300 << 23) | (5 << 18) | (29 << 13) | (0 << 8) | (10 << 4) | 2;
    let words = pack_words(vec![block], 1, 1);
    assert_eq!(words[0], word.to_be_bytes());
}

#[test]
fn pack_extreme_blocks() {
    let blocks = vec![
        (511u64, 15i64, 15i64, 15i64, 15u64, 15u64),
        (0u64, -16i64, -16i64, -16i64, 0u64, 0u64),
        (0u64, -1i64, -1i64, -1i64, 15u64, 15u64),
        (0u64, 0i64, 0i64, 0i64, 0u64, 0u64),
    ];
    let words = pack_words(blocks.clone(), 2, 2);
    assert_eq!(words[0], [0xff, 0xbd, 0xef, 0xff]);
    assert_eq!(words[1], [0x00, 0x42, 0x10, 0x00]);
    assert_eq!(words[2], [0x00, 0x7f, 0xff, 0xff]);
    assert_eq!(words[3], [0, 0, 0, 0]);
    assert_eq!(unpack_words(&words, 2, 2), blocks);
}

#[test]
fn unpack_then_pack_any_bytes() {
    let words: Vec<[u8; 4]> = vec![[0xde, 0xad, 0xbe, 0xef], [0x12, 0x34, 0x56, 0x78], [0xff; 4]];
    let blocks = unpack_words(&words, 3, 1);
    assert_eq!(blocks[0], (0x1bd, 11, 13, -2, 14, 15));
    assert_eq!(pack_words(blocks, 3, 1), words);
}

#[test]
fn pack_uses_only_grid_blocks() {
    let blocks = vec![(1u64, 0i64, 0i64, 0i64, 0u64, 0u64), (2u64, 0i64, 0i64, 0i64, 0u64, 0u64)];
    let words = pack_words(blocks, 1, 1);
    assert_eq!(words, vec![[0x00, 0x80, 0x00, 0x00]]);
    assert!(pack_words(vec![], 0, 5).is_empty());
}

#[test]
fn uniform_bright_block_round_trip() {
    // A 2x2 block of maximum brightness through transform, quantization,
    // codeword, and back.
    let y = [1.0f64; 4];
    let (pb, pr) = (0.0f64, 0.0f64);
    let a = (y[0] + y[1] + y[2] + y[3]) / 4.0;
    let b = (y[3] + y[2] - y[1] - y[0]) / 4.0;
    let c = (y[3] - y[2] + y[1] - y[0]) / 4.0;
    let d = (y[3] - y[2] - y[1] + y[0]) / 4.0;
    let q = (
        (a * 511.0).round() as u64,
        (b.clamp(-0.3, 0.3) * 15.0).round() as i64,
        (c.clamp(-0.3, 0.3) * 15.0).round() as i64,
        (d.clamp(-0.3, 0.3) * 15.0).round() as i64,
        csc411_arith::index_of_chroma(pb as f32) as u64,
        csc411_arith::index_of_chroma(pr as f32) as u64,
    );
    assert_eq!(q, (511, 0, 0, 0, 7, 7));
    let back = unpack_words(&pack_words(vec![q], 1, 1), 1, 1)[0];
    assert_eq!(back, q);
    let a2 = back.0 as f64 / 511.0;
    let (b2, c2, d2) = (back.1 as f64 / 15.0, back.2 as f64 / 15.0, back.3 as f64 / 15.0);
    let pb2 = csc411_arith::chroma_of_index(back.4 as usize) as f64;
    let pr2 = csc411_arith::chroma_of_index(back.5 as usize) as f64;
    let ys = [a2 - b2 - c2 + d2, a2 - b2 + c2 - d2, a2 + b2 - c2 - d2, a2 + b2 + c2 + d2];
    for v in ys {
        assert!((v - 1.0).abs() <= 1.0 / 511.0);
    }
    assert!((pb2 - pb).abs() <= 0.022 + 1e-6);
    assert!((pr2 - pr).abs() <= 0.022 + 1e-6);
}
