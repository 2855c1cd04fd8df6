use kaleidomo_core::backends::copy_rows;
use kaleidomo_core::backends::gpu::{
    align_to, blit_tile, check_output_len, check_output_size, expected_rgba_len, fill_tile_staging,
    non_zero_u64, output_needs_rebuild, plan_output_tiles, plan_source_tiles, readback_layout,
    rgba_len, unpad_rows, CompletedFrame, ReadbackLayout,
    FrameScheduler, GpuError, RendererError, SlotState, SourceTilePlan, TileRegion,
    DEFAULT_TILE_SIZE,
};

fn plan<T>(s: &FrameScheduler<T>) -> (usize, Result<usize, RendererError>) {
    let p = s.plan_submission();
    (p.waits, p.slot)
}

#[test]
fn rgba_lengths() {
    assert_eq!(expected_rgba_len(67, 53), Ok(67 * 53 * 4));
    assert_eq!(expected_rgba_len(0, 9), Ok(0));
    assert_eq!(rgba_len(1920, 1080), Ok(1920 * 1080 * 4));
    assert_eq!(expected_rgba_len(u32::MAX, u32::MAX), Err(GpuError::DimensionsOverflow));
    assert_eq!(rgba_len(u32::MAX, u32::MAX), Err(RendererError::FrameSizeOverflow));
}

#[test]
fn alignment_and_non_zero() {
    assert_eq!(align_to(0, 256), 0);
    assert_eq!(align_to(1, 256), 256);
    assert_eq!(align_to(256, 256), 256);
    assert_eq!(align_to(268, 256), 512);
    assert_eq!(align_to(10, 3), 12);
    assert_eq!(non_zero_u64(16), Ok(16));
    assert_eq!(non_zero_u64(0), Err(GpuError::ZeroValue));
}

#[test]
fn source_tiles_cover_a_large_image() {
    let plan = plan_source_tiles(10000, 5000, 8192, 256).unwrap();
    assert_eq!(
        plan,
        SourceTilePlan {
            width: 10000,
            height: 5000,
            tile_size: DEFAULT_TILE_SIZE,
            tile_grid_width: 3,
            tile_grid_height: 2,
            layer_count: 6,
        }
    );
    assert_eq!(plan.tile_index(2, 1), 5);
    let mut layers: Vec<u32> = (0..2).flat_map(|ty| (0..3).map(move |tx| (tx, ty))).map(|(tx, ty)| plan.tile_index(tx, ty)).collect();
    layers.sort();
    assert_eq!(layers, vec![0, 1, 2, 3, 4, 5]);
    assert_eq!(plan.tile_region(0, 0), TileRegion { x: 0, y: 0, width: 4096, height: 4096 });
    assert_eq!(plan.tile_region(2, 1), TileRegion { x: 8192, y: 4096, width: 1808, height: 904 });
    let small = plan_source_tiles(100, 50, 64, 8).unwrap();
    assert_eq!((small.tile_size, small.tile_grid_width, small.tile_grid_height, small.layer_count), (64, 2, 1, 2));
}

#[test]
fn source_tile_errors() {
    assert_eq!(plan_source_tiles(0, 10, 4096, 16), Err(GpuError::ZeroSizedSource));
    assert_eq!(plan_source_tiles(10, 0, 4096, 16), Err(GpuError::ZeroSizedSource));
    assert_eq!(plan_source_tiles(10, 10, 0, 16), Err(GpuError::InvalidMaxTextureDimension));
    assert_eq!(plan_source_tiles(100, 100, 10, 50), Err(GpuError::TooManyLayers { required: 100, supported: 50 }));
    assert_eq!(plan_source_tiles(u32::MAX, u32::MAX, 1, u32::MAX), Err(GpuError::TileCountOverflow));
}

#[test]
fn staging_copies_the_tile_into_the_top_left() {
    // 3x2 source, tile size 2, tile (1, 0) covers x = 2, width 1.
    let src: Vec<u8> = (0u8..24).collect();
    let plan = plan_source_tiles(3, 2, 2, 4).unwrap();
    let region = plan.tile_region(1, 0);
    assert_eq!(region, TileRegion { x: 2, y: 0, width: 1, height: 2 });
    let mut staging = vec![7u8; 2 * 2 * 4];
    fill_tile_staging(&plan, &src, region, &mut staging);
    assert_eq!(staging, vec![8, 9, 10, 11, 0, 0, 0, 0, 20, 21, 22, 23, 0, 0, 0, 0]);
}

#[test]
fn output_checks() {
    assert_eq!(check_output_len(2, 2, 16), Ok(16));
    assert_eq!(check_output_len(2, 2, 15), Err(GpuError::OutputLengthMismatch { got: 15, expected: 16 }));
    assert_eq!(check_output_size(4, 4), Ok(()));
    assert_eq!(check_output_size(0, 4), Err(GpuError::ZeroSizedOutput));
    assert_eq!(check_output_size(4, 0), Err(GpuError::ZeroSizedOutput));
}

#[test]
fn output_tiles_are_row_major() {
    let tiles = plan_output_tiles(5, 3, 2);
    assert_eq!(
        tiles,
        vec![
            TileRegion { x: 0, y: 0, width: 2, height: 2 },
            TileRegion { x: 2, y: 0, width: 2, height: 2 },
            TileRegion { x: 4, y: 0, width: 1, height: 2 },
            TileRegion { x: 0, y: 2, width: 2, height: 1 },
            TileRegion { x: 2, y: 2, width: 2, height: 1 },
            TileRegion { x: 4, y: 2, width: 1, height: 1 },
        ]
    );
    assert!(plan_output_tiles(0, 7, 4).is_empty());
    assert_eq!(plan_output_tiles(8, 8, 8192), vec![TileRegion { x: 0, y: 0, width: 8, height: 8 }]);
}

#[test]
fn blit_places_a_tile() {
    let mut output = vec![0u8; 3 * 2 * 4];
    let tile = vec![1u8, 2, 3, 4, 5, 6, 7, 8];
    blit_tile(&mut output, 3, 2, &tile, TileRegion { x: 1, y: 1, width: 2, height: 1 });
    assert_eq!(output, vec![0, 0, 0, 0, 0, 0, 0, 0, 0, 0, 0, 0, 0, 0, 0, 0, 1, 2, 3, 4, 5, 6, 7, 8]);
}

#[test]
fn unpadding_drops_row_padding() {
    let mapped = vec![1u8, 1, 1, 1, 9, 9, 9, 9, 2, 2, 2, 2, 9, 9];
    let mut output = vec![0u8; 8];
    unpad_rows(&mapped, 1, 2, 8, &mut output);
    assert_eq!(output, vec![1, 1, 1, 1, 2, 2, 2, 2]);
}

#[test]
fn copy_rows_leaves_the_rest() {
    let mut dst = vec![0u8; 9];
    copy_rows(&mut dst, 1, 4, &[5, 6, 7, 8, 9], 0, 3, 2, 2);
    assert_eq!(dst, vec![0, 5, 6, 0, 0, 8, 9, 0, 0]);
}

#[test]
fn scheduler_construction_errors() {
    assert!(matches!(FrameScheduler::<u32>::new(0, 4, 3, 8192), Err(RendererError::ZeroSize)));
    assert!(matches!(FrameScheduler::<u32>::new(4, 4, 0, 8192), Err(RendererError::ZeroInFlight)));
    assert!(matches!(
        FrameScheduler::<u32>::new(9000, 4, 3, 8192),
        Err(RendererError::ExceedsMaxTextureDimension { width: 9000, height: 4, max_dimension: 8192 })
    ));
}

#[test]
fn scheduler_runs_frames_in_order() {
    let mut s = FrameScheduler::<u32>::new(8, 4, 2, 8192).ok().unwrap();
    assert_eq!(s.check_frame_size(8, 4), Ok(()));
    assert_eq!(
        s.check_frame_size(4, 8),
        Err(RendererError::FrameSizeMismatch { width: 4, height: 8, expected_width: 8, expected_height: 4 })
    );
    assert_eq!(s.find_free_slot(), Some(0));
    assert_eq!(plan(&s), (0, Ok(0)));
    s.submit(0, 0, 100);
    assert_eq!(plan(&s), (0, Ok(1)));
    s.submit(1, 1, 101);
    assert_eq!(s.pending_count(), 2);
    // Full: one frame must be waited for; no slot is free even then.
    assert_eq!(plan(&s), (2, Err(RendererError::NoFreeSlotAfterWaiting)));
    let oldest = s.take_oldest().unwrap();
    assert_eq!((oldest.frame_index, oldest.slot_index, oldest.submission), (0, 0, 100));
    assert_eq!(s.check_readable(0), Err(RendererError::SlotNotReady { slot_index: 0 }));
    s.mark_ready(0);
    assert_eq!(s.check_readable(0), Ok(()));
    assert_eq!(s.release_slot(1), Err(RendererError::SlotNotReleasable { slot_index: 1 }));
    assert_eq!(s.release_slot(5), Err(RendererError::InvalidSlot { slot_index: 5 }));
    assert_eq!(s.check_readable(5), Err(RendererError::InvalidSlot { slot_index: 5 }));
    assert_eq!(s.release_slot(0), Ok(()));
    assert_eq!(s.find_free_slot(), Some(0));
    let next = s.take_oldest().unwrap();
    assert_eq!((next.frame_index, next.slot_index), (1, 1));
    assert!(s.take_oldest().is_none());
    let done = CompletedFrame { frame_index: next.frame_index, slot_index: next.slot_index };
    assert_eq!(done, CompletedFrame { frame_index: 1, slot_index: 1 });
    assert_eq!(plan(&s), (0, Ok(0)));
}

#[test]
fn scheduler_with_every_slot_held_has_nothing_to_wait_for() {
    let mut s = FrameScheduler::<()>::new(2, 2, 1, 16).ok().unwrap();
    s.submit(0, 0, ());
    let p = s.take_oldest().unwrap();
    s.mark_ready(p.slot_index);
    assert_eq!(plan(&s), (0, Err(RendererError::NoFreeSlot)));
    assert_eq!(s.find_free_slot(), None);
    let _ = SlotState::Free;
}

#[test]
fn readback_rows_are_padded_to_the_alignment() {
    assert_eq!(
        readback_layout(67, 5, 256),
        ReadbackLayout { width: 67, height: 5, padded_bytes_per_row: 512, readback_size: 2560 }
    );
    assert_eq!(
        readback_layout(64, 3, 256),
        ReadbackLayout { width: 64, height: 3, padded_bytes_per_row: 256, readback_size: 768 }
    );
    let layout = readback_layout(3, 2, 8);
    assert_eq!((layout.padded_bytes_per_row, layout.readback_size), (16, 32));
    // The padded buffer unpacks into the tight frame.
    let mapped: Vec<u8> = (0..32u8).collect();
    let mut frame = vec![0u8; 24];
    unpad_rows(&mapped, 3, 2, layout.padded_bytes_per_row, &mut frame);
    assert_eq!(frame, [(0..12u8).collect::<Vec<u8>>(), (16..28u8).collect()].concat());
}

#[test]
fn output_textures_are_rebuilt_only_on_size_change() {
    assert!(output_needs_rebuild(None, 1, 1));
    assert!(!output_needs_rebuild(Some((4, 4)), 4, 4));
    assert!(output_needs_rebuild(Some((4, 4)), 4, 5));
    assert!(output_needs_rebuild(Some((4, 4)), 3, 4));
}

#[test]
fn scheduler_reports_slot_states() {
    let mut s = FrameScheduler::<u8>::new(2, 2, 2, 64).ok().unwrap();
    assert_eq!(s.max_in_flight(), 2);
    assert_eq!(s.slot_state(0), Some(SlotState::Free));
    assert_eq!(s.slot_state(2), None);
    s.submit(7, 1, 0);
    assert_eq!(s.slot_state(1), Some(SlotState::Submitted));
    let p = s.take_oldest().unwrap();
    s.mark_ready(p.slot_index);
    assert_eq!(s.slot_state(1), Some(SlotState::Ready));
}

fn crop(img: &[u8], width: u32, region: TileRegion) -> Vec<u8> {
    let mut out = Vec::new();
    for y in region.y..region.y + region.height {
        let start = ((y * width + region.x) * 4) as usize;
        out.extend_from_slice(&img[start..start + region.width as usize * 4]);
    }
    out
}

#[test]
fn blitting_every_tile_rebuilds_the_frame() {
    let (width, height) = (5u32, 3u32);
    let frame: Vec<u8> = (0..(width * height * 4)).map(|v| (v * 7 % 251) as u8).collect();
    let mut output = vec![0xAAu8; frame.len()];
    for region in plan_output_tiles(width, height, 2) {
        let tile = crop(&frame, width, region);
        blit_tile(&mut output, width, height, &tile, region);
    }
    assert_eq!(output, frame);
}

#[test]
fn staged_tiles_hold_their_region_then_zeros() {
    let (width, height) = (5u32, 3u32);
    let src: Vec<u8> = (0..(width * height * 4)).map(|v| v as u8).collect();
    let plan = plan_source_tiles(width, height, 4, 4).unwrap();
    assert_eq!((plan.tile_size, plan.tile_grid_width, plan.tile_grid_height), (4, 2, 1));
    let region = plan.tile_region(1, 0);
    assert_eq!(region, TileRegion { x: 4, y: 0, width: 1, height: 3 });
    let mut staging = vec![1u8; 4 * 4 * 4];
    fill_tile_staging(&plan, &src, region, &mut staging);
    for ly in 0..4u32 {
        for lx in 0..4u32 {
            for c in 0..4u32 {
                let texel = staging[((ly * 4 + lx) * 4 + c) as usize];
                if lx < region.width && ly < region.height {
                    assert_eq!(texel, src[(((region.y + ly) * width + region.x + lx) * 4 + c) as usize]);
                } else {
                    assert_eq!(texel, 0);
                }
            }
        }
    }
}
