use kaleidomo_core::preprocess::{
    adjacent_bands, band_index, bordered_cell_bands, component_band, component_recolor_bands,
    hash_cell, label_connected_components, recolor_mode_for_setting, seed_material,
    PreprocessError, RecolorMode, HUE_BAND_COUNT,
};
use rand_chacha::ChaCha8Rng;
use rand_core::{Rng, SeedableRng};
use sha2::{Digest, Sha256};

#[test]
fn hash_cell_known_values() {
    assert_eq!(hash_cell(0, 0, 0), 0);
    assert_eq!(hash_cell(1, 2, 3), 974037115);
    assert_eq!(hash_cell(-1, 5, 0xdead_beef), 314574730);
    assert_eq!(hash_cell(7, -3, 42), 2419055026);
    assert_eq!(hash_cell(3, 25, 0x1234_5678), 181505794);
}

#[test]
fn hash_cell_separates_seeds_columns_and_rows() {
    let mut by_seed: Vec<u32> = (0u32..2000).map(|seed| hash_cell(3, -7, seed)).collect();
    by_seed.sort_unstable();
    by_seed.dedup();
    assert_eq!(by_seed.len(), 2000);
    let mut by_column: Vec<u32> = (-1000i32..1000).map(|x| hash_cell(x, 11, 99)).collect();
    by_column.sort_unstable();
    by_column.dedup();
    assert_eq!(by_column.len(), 2000);
    let mut by_row: Vec<u32> = (-1000i32..1000).map(|y| hash_cell(-4, y, 99)).collect();
    by_row.sort_unstable();
    by_row.dedup();
    assert_eq!(by_row.len(), 2000);
    let extremes = [i32::MIN, -1, 0, 1, i32::MAX];
    for &a in &extremes {
        for &b in &extremes {
            assert_eq!(hash_cell(a, 5, 0) == hash_cell(b, 5, 0), a == b);
            assert_eq!(hash_cell(5, a, 0) == hash_cell(5, b, 0), a == b);
        }
    }
}

#[test]
fn band_helpers() {
    assert_eq!(HUE_BAND_COUNT, 8);
    assert_eq!(band_index(974037115), 3);
    assert_eq!(band_index(15), 7);
    assert_eq!(component_band(3, 25, 0x1234_5678), 2);
    assert_eq!(component_band(1, 2, 3), 3);
    assert_eq!(bordered_cell_bands(7, 3, 2), ((7 + 15 + 6) % 8, (7 + 15 + 9) % 8));
    assert_eq!(bordered_cell_bands(0, 0, 0), (0, 3));
    assert_eq!(bordered_cell_bands(1, 1, 3), ((1 + 5 + 9) % 8, (1 + 5 + 9) % 8));
    assert_eq!(adjacent_bands(7), (7, 0));
    assert_eq!(adjacent_bands(11), (3, 4));
}

#[test]
fn recolor_mode_setting_and_error_message() {
    assert_eq!(recolor_mode_for_setting(1), RecolorMode::BorderedCells);
    assert_eq!(recolor_mode_for_setting(0), RecolorMode::ColorBands);
    assert_eq!(recolor_mode_for_setting(4), RecolorMode::ColorBands);
    assert_eq!(PreprocessError::InvalidThreshold.message(), "recolor threshold must be finite");
}

fn reference_material(seed: &[u8]) -> ([u32; 8], [u32; 4]) {
    let digest: [u8; 32] = Sha256::digest(seed).into();
    let mut rng = ChaCha8Rng::from_seed(digest);
    let mut hue = [0u32; 8];
    for word in hue.iter_mut() {
        *word = rng.next_u32();
    }
    let words = std::array::from_fn(|i| u32::from_le_bytes(digest[i * 4..i * 4 + 4].try_into().unwrap()));
    (hue, words)
}

#[test]
fn seed_material_of_empty_seed() {
    let material = seed_material(b"");
    assert_eq!(material.seed_words, [0x42c4_b0e3, 0x141c_fc98, 0xc8f4_fb9a, 0x24b9_6f99]);
    let (hue, words) = reference_material(b"");
    assert_eq!(material.hue_words, hue);
    assert_eq!(material.seed_words, words);
}

#[test]
fn seed_material_is_seeded_and_deterministic() {
    let a = seed_material(b"seed-a");
    let again = seed_material(b"seed-a");
    let b = seed_material(b"seed-b");
    assert_eq!(a, again);
    assert_ne!(a, b);
    assert_eq!(a.seed_words, [0xcc61_09e0, 0x455c_e504, 0x934d_1433, 0xd913_a1fd]);
    assert_eq!(a.hue_words, reference_material(b"seed-a").0);
}

fn image(pixels: &[[u8; 3]]) -> Vec<u8> {
    pixels.iter().flat_map(|p| [p[0], p[1], p[2], 255]).collect()
}

#[test]
fn components_follow_colour_and_adjacency() {
    // 3x3:  A A B
    //       C A B
    //       C C A   (the corner A is only diagonal to the others)
    let a = [200, 10, 10];
    let b = [10, 200, 10];
    let c = [10, 10, 200];
    let img = image(&[a, a, b, c, a, b, c, c, a]);
    let r = label_connected_components(&img, 3, 3);
    assert_eq!(r.labels, vec![0, 0, 1, 2, 0, 1, 2, 2, 3]);
    assert_eq!(r.sizes, vec![3, 2, 3, 1]);
}

#[test]
fn components_use_the_colour_tolerance() {
    // Squared distance 936 joins, 937 does not.
    let img = image(&[[100, 100, 100], [130, 106, 100], [100, 100, 100], [130, 106, 101]]);
    // 30^2 + 6^2 = 936: pixel 0 and 1 join; 1 and 2 join too.
    // Pixel 3 vs 2: 30^2 + 6^2 + 1 = 937: a new component.
    let r = label_connected_components(&img, 4, 1);
    assert_eq!(r.labels, vec![0, 0, 0, 1]);
    assert_eq!(r.sizes, vec![3, 1]);
}

#[test]
fn components_join_through_chains_and_ignore_alpha() {
    // A gradient where each step is small joins into one component even
    // though its ends are far apart; alpha plays no part.
    let mut img = Vec::new();
    for i in 0..8u8 {
        img.extend_from_slice(&[i * 20, 0, 0, i * 30]);
    }
    let r = label_connected_components(&img, 8, 1);
    assert_eq!(r.labels, vec![0; 8]);
    assert_eq!(r.sizes, vec![8]);
}

#[test]
fn components_of_a_vertical_strip_and_empty_image() {
    let img = image(&[[0, 0, 0], [0, 0, 0], [255, 255, 255], [0, 0, 0]]);
    let r = label_connected_components(&img, 1, 4);
    assert_eq!(r.labels, vec![0, 0, 1, 2]);
    assert_eq!(r.sizes, vec![2, 1, 1]);
    let empty = label_connected_components(&[], 0, 5);
    assert!(empty.labels.is_empty());
    assert!(empty.sizes.is_empty());
}

#[test]
fn recolor_bands_skip_small_components() {
    let bands = component_recolor_bands(&[3, 2, 25], 3, 0x1234_5678);
    assert_eq!(bands.len(), 3);
    assert_eq!(bands[0], Some(component_band(0, 3, 0x1234_5678)));
    assert_eq!(bands[1], None);
    assert_eq!(bands[2], Some(component_band(2, 25, 0x1234_5678)));
    assert_eq!(component_recolor_bands(&[1, 1], 0, 3), vec![Some(component_band(0, 1, 3)), Some(component_band(1, 1, 3))]);
}

/// A plain depth-first reference labelling, numbering components by first pixel.
fn reference_labels(img: &[u8], width: usize, height: usize) -> (Vec<u32>, Vec<u32>) {
    let n = width * height;
    let close = |a: usize, b: usize| -> bool {
        (0..3).map(|c| {
            let d = img[4 * a + c] as i32 - img[4 * b + c] as i32;
            d * d
        }).sum::<i32>() <= 936
    };
    let mut labels = vec![u32::MAX; n];
    let mut sizes = Vec::new();
    for start in 0..n {
        if labels[start] != u32::MAX {
            continue;
        }
        let id = sizes.len() as u32;
        let mut stack = vec![start];
        labels[start] = id;
        let mut size = 0;
        while let Some(p) = stack.pop() {
            size += 1;
            let (x, y) = (p % width, p / width);
            let mut neighbours = Vec::new();
            if x > 0 { neighbours.push(p - 1); }
            if x + 1 < width { neighbours.push(p + 1); }
            if y > 0 { neighbours.push(p - width); }
            if y + 1 < height { neighbours.push(p + width); }
            for q in neighbours {
                if labels[q] == u32::MAX && close(p, q) {
                    labels[q] = id;
                    stack.push(q);
                }
            }
        }
        sizes.push(size);
    }
    (labels, sizes)
}

#[test]
fn components_match_a_reference_flood_fill() {
    let palette = [[10u8, 10, 10], [30, 25, 10], [200, 50, 50], [215, 60, 45], [40, 200, 90]];
    let (width, height) = (17usize, 13usize);
    let mut state: u32 = 12345;
    let mut img = Vec::new();
    for _ in 0..width * height {
        state = state.wrapping_mul(1664525).wrapping_add(1013904223);
        let colour = palette[(state >> 28) as usize % palette.len()];
        img.extend_from_slice(&[colour[0], colour[1], colour[2], 255]);
    }
    let r = label_connected_components(&img, width as u32, height as u32);
    let (labels, sizes) = reference_labels(&img, width, height);
    assert_eq!(r.labels, labels);
    assert_eq!(r.sizes, sizes);
}
