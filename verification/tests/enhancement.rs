use kaleidomo_core::enhancement::{
    anisotropy_from_wire, edge_filter_from_wire, mip_level_dimensions, mip_pyramid_levels, pipeline_anisotropy,
    reconstruction_for_anti_alias, reconstruction_from_wire, text_equals, texel_coordinate,
    EdgeFilter, ReconstructionFilter,
};

#[test]
fn wire_names() {
    assert_eq!(reconstruction_from_wire("nearest"), ReconstructionFilter::Nearest);
    assert_eq!(reconstruction_from_wire("bicubic"), ReconstructionFilter::Bicubic);
    assert_eq!(reconstruction_from_wire("bilinear"), ReconstructionFilter::Bilinear);
    assert_eq!(reconstruction_from_wire("Bicubic"), ReconstructionFilter::Bilinear);
    assert_eq!(edge_filter_from_wire("fxaa"), EdgeFilter::Fxaa);
    assert_eq!(edge_filter_from_wire("smaa"), EdgeFilter::Smaa);
    assert_eq!(edge_filter_from_wire("none"), EdgeFilter::Disabled);
    assert_eq!(edge_filter_from_wire(""), EdgeFilter::Disabled);
    assert!(text_equals("abc", "abc"));
    assert!(!text_equals("abc", "abd"));
    assert!(!text_equals("ab", "abc"));
}

#[test]
fn defaults() {
    assert_eq!(ReconstructionFilter::default(), ReconstructionFilter::Bilinear);
    assert_eq!(EdgeFilter::default(), EdgeFilter::Disabled);
    assert_eq!(reconstruction_for_anti_alias(0), ReconstructionFilter::Nearest);
    assert_eq!(reconstruction_for_anti_alias(1), ReconstructionFilter::Bilinear);
    assert_eq!(reconstruction_for_anti_alias(2), ReconstructionFilter::Bicubic);
    assert_eq!(reconstruction_for_anti_alias(7), ReconstructionFilter::Bilinear);
}

#[test]
fn anisotropy_taps() {
    assert_eq!(anisotropy_from_wire(0), 1);
    assert_eq!(anisotropy_from_wire(8), 8);
    assert_eq!(anisotropy_from_wire(40), 1);
    assert_eq!(anisotropy_from_wire(16), 16);
    assert_eq!(anisotropy_from_wire(3), 1);
    assert_eq!(pipeline_anisotropy(0), 1);
    assert_eq!(pipeline_anisotropy(3), 4);
    assert_eq!(pipeline_anisotropy(5), 8);
    assert_eq!(pipeline_anisotropy(16), 16);
    assert_eq!(pipeline_anisotropy(200), 16);
}

#[test]
fn texels_clamp_to_the_edge() {
    assert_eq!(texel_coordinate(-5, 10), 0);
    assert_eq!(texel_coordinate(3, 10), 3);
    assert_eq!(texel_coordinate(10, 10), 9);
    assert_eq!(texel_coordinate(i32::MAX, 10), 9);
}

#[test]
fn mip_chain_of_nine_by_five_has_four_levels() {
    assert_eq!(mip_level_dimensions(9, 5), vec![(9, 5), (4, 2), (2, 1), (1, 1)]);
    assert_eq!(mip_level_dimensions(1, 1), vec![(1, 1)]);
    assert_eq!(mip_level_dimensions(1024, 1).len(), 11);
}

#[test]
fn mip_levels_are_resized_from_the_level_before() {
    let (w, h) = (9u32, 5u32);
    let bytes: Vec<u8> = (0..(w * h * 4)).map(|v| (v * 37 % 256) as u8).collect();
    let levels = mip_pyramid_levels(bytes.clone(), w, h);
    let dims = mip_level_dimensions(w, h);
    assert_eq!(levels.len(), 4);
    assert_eq!(levels[0], bytes);
    let mut previous = image::RgbaImage::from_raw(w, h, bytes).unwrap();
    for (level, &(lw, lh)) in levels.iter().zip(dims.iter()).skip(1) {
        let expected = image::imageops::resize(&previous, lw, lh, image::imageops::FilterType::Triangle);
        assert_eq!(level, expected.as_raw());
        assert_eq!(level.len(), (lw * lh * 4) as usize);
        previous = expected;
    }
}

#[test]
fn mip_levels_keep_a_constant_colour_and_stop_at_one_texel() {
    let bytes = vec![12u8, 34, 56, 255].repeat(9 * 5);
    let levels = mip_pyramid_levels(bytes, 9, 5);
    assert_eq!(levels.last().unwrap(), &vec![12u8, 34, 56, 255]);
    assert_eq!(mip_pyramid_levels(vec![1, 2, 3, 4], 1, 1), vec![vec![1u8, 2, 3, 4]]);
    assert_eq!(mip_pyramid_levels(Vec::new(), 0, 0), vec![Vec::<u8>::new()]);
}
