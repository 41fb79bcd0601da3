use rikky_modoki::fill::fill_region;
use rikky_modoki::glass::{image, owned, release, Image};
use rikky_modoki::image::{byte_len, export_pixels, paste, pixel, ImageError, ImageStore};
use std::sync::Arc;

/// The value a fill mode compares, as the plugin computes it from a pixel.
fn fill_component(pixel: &[u8], component: usize) -> f64 {
    let [r, g, b] = [pixel[0], pixel[1], pixel[2]].map(f64::from);
    let max = r.max(g).max(b);
    let min = r.min(g).min(b);
    let delta = max - min;
    match component {
        0 => f64::from(pixel[3]),
        1 if delta == 0.0 => 0.0,
        1 => {
            let sector = if max == r {
                (g - b) / delta
            } else if max == g {
                (b - r) / delta + 2.0
            } else {
                (r - g) / delta + 4.0
            };
            (sector * 60.0).rem_euclid(360.0)
        }
        2 if max == 0.0 => 0.0,
        2 => delta / max * 100.0,
        3 => max / 255.0 * 100.0,
        _ => 0.299 * r + 0.587 * g + 0.114 * b,
    }
}

/// Which pixels a fill mode takes, compared with the seed pixel.
fn matches(source: &[u8], width: usize, height: usize, start: [usize; 2], mode: usize, threshold: f64) -> Vec<bool> {
    let component = mode / 5;
    let origin = (start[1] * width + start[0]).min(width * height - 1);
    let base = fill_component(&source[origin * 4..origin * 4 + 4], component);
    (0..width * height)
        .map(|index| {
            let value = fill_component(&source[index * 4..index * 4 + 4], component);
            match mode % 5 {
                0 => value >= threshold,
                1 => value <= threshold,
                2 => value >= base,
                3 => value <= base,
                _ => value >= base - threshold && value <= base + threshold,
            }
        })
        .collect()
}

fn fill_area(source: &[u8], width: usize, height: usize, start: [usize; 2], mode: usize, threshold: f64) -> Option<(Vec<u8>, Vec<usize>)> {
    if width == 0 || height == 0 {
        return None;
    }
    let m = matches(source, width, height, start, mode, threshold);
    fill_region(&m, width, height, start[0], start[1])
}

#[test]
fn fill_modes_include_boundaries_and_keep_the_seed_reference() {
    let rows = [
        [[0, 0, 0, 0], [0, 0, 0, 128], [0, 0, 0, 255]],
        [[255, 0, 0, 255], [0, 255, 0, 255], [0, 0, 255, 255]],
        [[255, 255, 255, 255], [255, 128, 128, 255], [255, 0, 0, 255]],
        [[0, 0, 0, 255], [128, 128, 128, 255], [255, 255, 255, 255]],
        [[0, 0, 0, 255], [128, 128, 128, 255], [255, 255, 255, 255]],
    ];
    for (component, row) in rows.iter().enumerate() {
        let source: Vec<u8> = row.concat();
        let base = fill_component(&row[1], component);
        for comparison in 0..5 {
            let mode = component * 5 + comparison;
            let threshold = if comparison == 4 { 0.0 } else { base };
            let (pixels, bounds) = fill_area(&source, 3, 1, [1, 0], mode, threshold).unwrap();
            let expected = match comparison {
                0 | 2 => [false, true, true],
                1 | 3 => [true, true, false],
                _ => [false, true, false],
            };
            for (pixel, selected) in pixels.chunks_exact(4).zip(expected) {
                assert_eq!(pixel, if selected { &[255; 4] } else { &[0; 4] }, "mode {mode}");
            }
            assert_eq!(
                bounds,
                match comparison {
                    0 | 2 => vec![1, 0, 2, 1],
                    1 | 3 => vec![0, 0, 2, 1],
                    _ => vec![1, 0, 1, 1],
                }
            );
        }
        assert!(fill_area(&source, 3, 1, [0, 0], component * 5, base).is_none());
        assert!(fill_area(&source, 3, 1, [2, 0], component * 5 + 1, base).is_none());
    }
    let source = [[0, 0, 0, 100], [0, 0, 0, 110], [0, 0, 0, 120]].concat();
    let (_, bounds) = fill_area(&source, 3, 1, [0, 0], 4, 10.0).unwrap();
    assert_eq!(bounds, vec![0, 0, 2, 1]);
    assert_eq!(fill_component(&[255, 0, 255, 0], 1), 300.0);
    assert_eq!(fill_component(&[0, 0, 0, 0], 2), 0.0);
    assert_eq!(fill_component(&[255, 0, 0, 0], 4), 0.299 * 255.0);
}

#[test]
fn fill_connectivity_bounds_and_failures() {
    let source: Vec<u8> = [255, 255, 255, 0, 0, 255, 0, 255, 0, 0, 255, 255, 255, 0, 0, 0, 0, 0, 255, 0]
        .into_iter()
        .flat_map(|alpha| [23, 45, 67, alpha])
        .collect();
    let original = source.clone();
    let (mask, bounds) = fill_area(&source, 5, 4, [2, 2], 0, 255.0).unwrap();
    assert_eq!(bounds, vec![0, 0, 3, 3]);
    assert_eq!(mask.chunks_exact(4).filter(|p| p[3] == 255).count(), 8);
    assert_eq!(&mask[24..28], &[0; 4]);
    assert_eq!(&mask[72..76], &[0; 4]);
    assert!(fill_area(&source, 5, 4, [5, 0], 0, 0.0).is_none());
    assert!(fill_area(&source, 5, 4, [0, 4], 0, 0.0).is_none());
    assert!(fill_area(&[], 0, 0, [0, 0], 0, 0.0).is_none());
    assert_eq!(source, original);
    let (_, bounds) = fill_area(&[1, 2, 3, 0], 1, 1, [0, 0], 1, 0.0).unwrap();
    assert_eq!(bounds, vec![0, 0, 1, 1]);
    let (mask, bounds) = fill_area(&vec![255; 512 * 512 * 4], 512, 512, [511, 511], 0, 255.0).unwrap();
    assert_eq!(bounds, vec![0, 0, 512, 512]);
    assert!(mask.iter().all(|&byte| byte == 255));
}

#[test]
fn capture_owns_pixels_and_release_invalidates_the_lease() {
    let mut source = [1u8, 2, 3, 4];
    let mut lease = owned(Image { width: 1, height: 1, pixels: source.to_vec() });
    source.fill(0);
    assert_eq!(image(&lease).ok().unwrap().pixels, [1, 2, 3, 4]);
    let snapshot = image(&lease).ok().unwrap();
    release(&mut lease);
    assert!(image(&lease).is_err());
    assert_eq!(snapshot.pixels, [1, 2, 3, 4]);
}

fn solid(width: usize, height: usize, value: u8) -> Arc<rikky_modoki::glass::Image> {
    Arc::new(Image { width, height, pixels: vec![value; width * height * 4] })
}

#[test]
fn the_store_copies_deletes_and_numbers_images() {
    let mut store = ImageStore::new();
    assert!(store.insert("a".to_string(), solid(1, 1, 9), false));
    assert!(!store.insert("a".to_string(), solid(1, 1, 7), true));
    assert_eq!(store.get("a").unwrap().pixels, vec![9; 4]);
    assert!(store.copy("b".to_string(), "a", false));
    assert!(!store.copy("b".to_string(), "a", true));
    assert!(!store.copy("c".to_string(), "missing", false));
    assert!(store.contains("b"));
    assert!(store.insert("n:1".to_string(), solid(1, 1, 1), false));
    let ids: Vec<String> = store.ids(3);
    assert_eq!(ids, vec!["n:0".to_string(), "n:2".to_string(), "n:3".to_string()]);
    let mut all = store.ids(0);
    all.sort();
    assert_eq!(all, vec!["a".to_string(), "b".to_string(), "n:1".to_string()]);
    assert!(store.delete(Some("a")));
    assert!(!store.delete(Some("a")));
    assert!(store.delete(None));
    assert!(!store.contains("b"));
}

#[test]
fn merging_replaces_whole_pixels_inside_the_back_image() {
    let mut store = ImageStore::new();
    store.insert("back".to_string(), solid(3, 2, 1), false);
    store.insert("front".to_string(), solid(2, 2, 5), false);
    let merged = store.merge("back", "front", 2, -1).unwrap();
    assert_eq!((merged.width, merged.height), (3, 2));
    let expected: Vec<u8> = [1, 1, 5, 1, 1, 1].iter().flat_map(|&v| [v; 4]).collect();
    assert_eq!(merged.pixels, expected);
    assert!(store.merge("back", "missing", 0, 0).is_none());
    let direct = paste(&Image { width: 1, height: 1, pixels: vec![0; 4] }, &Image { width: 1, height: 1, pixels: vec![8; 4] }, 0, 0);
    assert_eq!(direct.pixels, vec![8; 4]);
}

#[test]
fn byte_lengths_and_pixels_are_checked() {
    assert_eq!(byte_len(2, 3).ok(), Some(24));
    assert!(matches!(byte_len(0, 3), Err(ImageError::InvalidDimensions)));
    assert!(matches!(byte_len(i32::MAX as usize + 1, 1), Err(ImageError::InvalidDimensions)));
    let data = [1u8, 2, 3, 4, 5, 6, 7, 8];
    assert_eq!(pixel(&data, 2, 1, 1).ok(), Some(Some((5, 6, 7, 8))));
    assert_eq!(pixel(&data, 2, 1, 2).ok(), Some(None));
    assert!(pixel(&data, 0, 1, 0).is_err());
    let opaque = [1u8, 2, 3, 255, 5, 6, 7, 255];
    assert_eq!(export_pixels(&opaque, 2, 1, false), vec![3, 2, 1, 7, 6, 5, 0, 0]);
    assert_eq!(export_pixels(&data, 2, 1, true), vec![3, 2, 1, 4, 7, 6, 5, 8]);
    assert_eq!(export_pixels(&[255, 255, 255, 128], 1, 1, false), vec![128, 128, 128, 0]);
}
