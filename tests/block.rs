use rpeg::block::{gather_blocks, scatter_blocks};
use rpeg::codeword::container_grid;

#[test]
fn gather_four_by_two() {
    let pixels: Vec<u32> = (0..8).collect();
    let blocks = gather_blocks(&pixels, 4, 2);
    assert_eq!(blocks, vec![[0, 1, 4, 5], [2, 3, 6, 7]]);
}

#[test]
fn gather_two_by_four() {
    let pixels: Vec<u32> = (0..8).collect();
    let blocks = gather_blocks(&pixels, 2, 4);
    assert_eq!(blocks, vec![[0, 1, 2, 3], [4, 5, 6, 7]]);
}

#[test]
fn scatter_places_cells() {
    let blocks = vec![[0u32, 1, 4, 5], [2, 3, 6, 7]];
    assert_eq!(scatter_blocks(&blocks, 2, 1), (0..8).collect::<Vec<u32>>());
}

#[test]
fn gather_then_scatter_restores_samples() {
    let pixels: Vec<(f64, f64, f64)> =
        (0..24).map(|i| (i as f64 / 24.0, -(i as f64) / 48.0, i as f64 / 96.0)).collect();
    let blocks = gather_blocks(&pixels, 6, 4);
    assert_eq!(blocks.len(), 6);
    assert_eq!(scatter_blocks(&blocks, 3, 2), pixels);
}

#[test]
fn empty_raster_has_no_blocks() {
    let pixels: Vec<u8> = vec![];
    assert!(gather_blocks(&pixels, 0, 6).is_empty());
    let blocks: Vec<[u8; 4]> = vec![];
    assert!(scatter_blocks(&blocks, 0, 3).is_empty());
}

#[test]
fn transform_then_inverse_restores_luma() {
    let pixels: Vec<(f64, f64, f64)> =
        vec![(0.1, 0.0, 0.0), (0.7, 0.1, 0.2), (0.35, -0.1, 0.0), (0.9, 0.0, -0.2)];
    let [tl, tr, bl, br] = gather_blocks(&pixels, 2, 2)[0];
    let (y1, y2, y3, y4) = (tl.0, tr.0, bl.0, br.0);
    let a = (y1 + y2 + y3 + y4) / 4.0;
    let b = (y4 + y3 - y2 - y1) / 4.0;
    let c = (y4 - y3 + y2 - y1) / 4.0;
    let d = (y4 - y3 - y2 + y1) / 4.0;
    let back = scatter_blocks(
        &vec![[a - b - c + d, a - b + c - d, a + b - c - d, a + b + c + d]],
        1,
        1,
    );
    for (got, want) in back.iter().zip([y1, y2, y3, y4]) {
        assert!((got - want).abs() < 1e-12);
    }
}

#[test]
fn container_grid_accepts_matching_count() {
    assert_eq!(container_grid(4, 6, 6), Some((2, 3)));
    assert_eq!(container_grid(5, 3, 2), Some((2, 1)));
    assert_eq!(container_grid(0, 0, 0), Some((0, 0)));
}

#[test]
fn container_grid_rejects_malformed() {
    assert_eq!(container_grid(4, 6, 5), None);
    assert_eq!(container_grid(4, 6, 7), None);
    assert_eq!(container_grid(1usize << 33, 2, 1usize << 32), None);
}
