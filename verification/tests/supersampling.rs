use kaleidomo_core::rlib::{
    downsample_box, output_render_target, supersampled_target, RenderTarget,
};
use kaleidomo_core::{
    default_anisotropy, default_super_sample, default_true, kaleido_type_from_idx,
    kaleido_type_to_u32, safe_super_sample, waveform_from_name, KaleidoType, Waveform,
};

#[test]
fn limits_both_dimensions_without_overflow() {
    assert_eq!(safe_super_sample(4, 2048, 2048), 4);
    assert_eq!(safe_super_sample(4, 2049, 2048), 1);
    assert_eq!(safe_super_sample(2, 2000, 4097), 1);
    assert_eq!(safe_super_sample(2, 4096, 4096), 2);
    assert_eq!(safe_super_sample(4, u32::MAX, 1), 1);
    assert_eq!(safe_super_sample(1, 9000, 1), 1);
}

#[test]
fn requested_factor_is_clamped_to_one_through_four() {
    assert_eq!(safe_super_sample(0, 100, 100), 1);
    assert_eq!(safe_super_sample(9, 100, 100), 4);
    assert_eq!(safe_super_sample(255, 2048, 2048), 4);
    assert_eq!(safe_super_sample(3, 2730, 2730), 3);
    assert_eq!(safe_super_sample(3, 2731, 100), 1);
}

#[test]
fn preset_defaults() {
    assert_eq!(default_super_sample(), 1);
    assert!(default_true());
    assert_eq!(default_anisotropy(), 1);
}

#[test]
fn kaleido_type_numbers_round_trip() {
    let all = [
        KaleidoType::Radial,
        KaleidoType::Square,
        KaleidoType::Diamond,
        KaleidoType::Hexagonal,
        KaleidoType::HexagonalFlatTop,
    ];
    for (i, t) in all.iter().enumerate() {
        assert_eq!(kaleido_type_to_u32(*t), i as u32);
        assert_eq!(kaleido_type_from_idx(i as u32), *t);
    }
    assert_eq!(kaleido_type_from_idx(5), KaleidoType::HexagonalFlatTop);
    assert_eq!(kaleido_type_from_idx(u32::MAX), KaleidoType::HexagonalFlatTop);
}

fn rgba(pixels: &[[u8; 4]]) -> Vec<u8> {
    pixels.iter().flat_map(|p| p.iter().copied()).collect()
}

#[test]
fn downsample_averages_each_block() {
    // 4x2 image, factor 2 -> 2x1.
    let src = rgba(&[
        [0, 10, 20, 255],
        [2, 10, 21, 255],
        [100, 0, 0, 0],
        [101, 0, 0, 0],
        [4, 10, 22, 255],
        [6, 10, 22, 255],
        [102, 0, 0, 0],
        [104, 0, 1, 255],
    ]);
    let out = downsample_box(&src, 4, 2, 2, 2, 1);
    // Opaque block: (0+2+4+6)/4 = 3; (20+21+22+22)/4 = 21.25 -> 21.
    // Second block: only the last pixel is visible, so its colour wins;
    // alpha 255/4 = 63.75 -> 64.
    assert_eq!(out, vec![3, 10, 21, 255, 104, 0, 1, 64]);
}

#[test]
fn downsample_weights_colour_by_alpha() {
    // Colour 255 at alpha 85 against black at alpha 255: 255 * 85 / 340 = 63.75 -> 64.
    let src = rgba(&[[0, 0, 0, 255], [255, 255, 255, 85], [0, 0, 0, 0], [0, 0, 0, 0]]);
    assert_eq!(downsample_box(&src, 2, 2, 2, 1, 1), vec![64, 64, 64, 85]);
    // A transparent sample's colour does not matter.
    let tinted = rgba(&[[0, 0, 0, 255], [255, 255, 255, 85], [200, 9, 77, 0], [3, 250, 1, 0]]);
    assert_eq!(downsample_box(&tinted, 2, 2, 2, 1, 1), vec![64, 64, 64, 85]);
}

#[test]
fn downsample_rounds_halves_up() {
    // Block sums of 2 over 4 samples is 0.5 -> 1; 6 over 4 is 1.5 -> 2.
    let src = rgba(&[[1, 3, 0, 0], [1, 3, 0, 0], [0, 0, 0, 0], [0, 0, 0, 0]]);
    let out = downsample_box(&src, 2, 2, 2, 1, 1);
    assert_eq!(out, vec![1, 2, 0, 0]);
}

#[test]
fn downsample_keeps_flat_colour_and_factor_one_copies() {
    let flat = vec![24u8, 48, 96, 255].repeat(9 * 6);
    let out = downsample_box(&flat, 9, 6, 3, 3, 2);
    assert_eq!(out, vec![24u8, 48, 96, 255].repeat(6));
    let src: Vec<u8> = (0..(5 * 3 * 4)).map(|v| v as u8).collect();
    assert_eq!(downsample_box(&src, 5, 3, 1, 5, 3), src);
}

#[test]
fn downsample_of_empty_image_is_empty() {
    assert!(downsample_box(&[], 0, 0, 4, 0, 0).is_empty());
    // A zero factor covers no samples: every destination byte is zero.
    assert_eq!(downsample_box(&[], 0, 0, 0, 3, 2), vec![0u8; 24]);
}

#[test]
fn render_target_scales_size_and_offset() {
    let t = supersampled_target(640, 360, -3, 7, 4);
    assert_eq!(
        t,
        RenderTarget { width: 2560, height: 1440, offset_x: -12, offset_y: 28, factor: 4 }
    );
    let same = supersampled_target(640, 360, -3, 7, 1);
    assert_eq!(same.width, 640);
    assert_eq!(same.offset_x, -3);
}

#[test]
fn output_render_target_follows_safe_factor() {
    let t = output_render_target(2, 1920, 1080, 5, -5);
    assert_eq!(t, RenderTarget { width: 3840, height: 2160, offset_x: 10, offset_y: -10, factor: 2 });
    let big = output_render_target(4, 3840, 2160, 1, 1);
    assert_eq!(big, RenderTarget { width: 3840, height: 2160, offset_x: 1, offset_y: 1, factor: 1 });
}

#[test]
fn waveform_names_ignore_ascii_case() {
    assert_eq!(waveform_from_name("triangle"), Waveform::Triangle);
    assert_eq!(waveform_from_name("TRIANGLE"), Waveform::Triangle);
    assert_eq!(waveform_from_name("SawTooth"), Waveform::Sawtooth);
    assert_eq!(waveform_from_name("Sin"), Waveform::Sin);
    assert_eq!(waveform_from_name("sin2"), Waveform::Sin2);
    assert_eq!(waveform_from_name("COS"), Waveform::Cos);
    assert_eq!(waveform_from_name("-Cos"), Waveform::NegCos);
    assert_eq!(waveform_from_name("linear"), Waveform::Sawtooth);
    assert_eq!(waveform_from_name("Saw"), Waveform::Sawtooth);
    assert_eq!(waveform_from_name("LINEAR"), Waveform::Sawtooth);
    assert_eq!(waveform_from_name("saws"), Waveform::Hold);
    assert_eq!(waveform_from_name("sine"), Waveform::Hold);
    assert_eq!(waveform_from_name(""), Waveform::Hold);
    assert_eq!(waveform_from_name("sİn"), Waveform::Hold);
}

#[test]
fn output_render_target_is_decided_on_the_output_size() {
    // A large output is not enlarged past 8192 pixels, whatever the source.
    let big = output_render_target(4, 3000, 3000, -2, 3);
    assert_eq!(big, RenderTarget { width: 3000, height: 3000, offset_x: -2, offset_y: 3, factor: 1 });
    let t = output_render_target(4, 1000, 800, -2, 3);
    assert_eq!(t, RenderTarget { width: 4000, height: 3200, offset_x: -8, offset_y: 12, factor: 4 });
    let edge = output_render_target(4, 2048, 2048, 0, 0);
    assert_eq!(edge.factor, 4);
    assert_eq!(edge.width, 8192);
}
