use rand::rngs::StdRng;
use rand::{Rng, SeedableRng};
use raytracer::bands::{assemble_bands, band_range};

#[test]
fn bands_split_evenly() {
    let ranges: Vec<(u32, u32)> = (0..8).map(|k| band_range(512, 8, k)).collect();
    assert_eq!(ranges[0], (0, 64));
    assert_eq!(ranges[3], (192, 256));
    assert_eq!(ranges[7], (448, 512));
}

#[test]
fn last_band_takes_remainder() {
    assert_eq!(band_range(10, 3, 0), (0, 3));
    assert_eq!(band_range(10, 3, 1), (3, 6));
    assert_eq!(band_range(10, 3, 2), (6, 10));
}

#[test]
fn more_workers_than_rows() {
    assert_eq!(band_range(3, 5, 0), (0, 0));
    assert_eq!(band_range(3, 5, 3), (0, 0));
    assert_eq!(band_range(3, 5, 4), (0, 3));
}

#[test]
fn single_worker_takes_all() {
    assert_eq!(band_range(7, 1, 0), (0, 7));
}

#[test]
fn assemble_out_of_order() {
    let parts = vec![(vec![3, 4], 1u32), (vec![5], 2u32), (vec![1, 2], 0u32)];
    assert_eq!(assemble_bands(parts), Some(vec![5, 3, 4, 1, 2]));
}

#[test]
fn assemble_with_empty_bands() {
    let parts: Vec<(Vec<u8>, u32)> = vec![(vec![], 0), (vec![9], 1)];
    assert_eq!(assemble_bands(parts), Some(vec![9]));
}

#[test]
fn assemble_nothing() {
    let parts: Vec<(Vec<u8>, u32)> = vec![];
    assert_eq!(assemble_bands(parts), Some(vec![]));
}

#[test]
fn assemble_rejects_repeated_band() {
    let parts = vec![(vec![1], 0u32), (vec![2], 0u32)];
    assert_eq!(assemble_bands(parts), None);
}

#[test]
fn assemble_rejects_band_out_of_range() {
    let parts = vec![(vec![1], 0u32), (vec![2], 2u32)];
    assert_eq!(assemble_bands(parts), None);
}

// Renders scanline `j` from its own seed, as a worker does.
fn render_row(j: u32, width: usize) -> Vec<u32> {
    let mut rng = StdRng::seed_from_u64(1000 + j as u64);
    (0..width).map(|_| rng.gen_range(0..256)).collect()
}

#[test]
fn banded_render_matches_single_pass() {
    let (width, height, workers) = (4usize, 11u32, 3u32);
    let mut single: Vec<u32> = Vec::new();
    for j in (0..height).rev() {
        single.extend(render_row(j, width));
    }
    let mut parts: Vec<(Vec<u32>, u32)> = Vec::new();
    for k in [2u32, 0, 1] {
        let (start, end) = band_range(height, workers, k);
        let mut buf = Vec::new();
        for j in (start..end).rev() {
            buf.extend(render_row(j, width));
        }
        parts.push((buf, k));
    }
    assert_eq!(assemble_bands(parts), Some(single));
}
