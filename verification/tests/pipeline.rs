use vobsubocr::opt::Threshold;
use vobsubocr::preprocessor::binarize_palette;
use vobsubocr::preprocessor::find_contiguous_scanline_groups;
use vobsubocr::preprocessor::generate_visibility_palette;
use vobsubocr::preprocessor::inventory_scanlines;
use vobsubocr::preprocessor::render_region;
use vobsubocr::preprocessor::scanline_groups_to_image_regions;
use vobsubocr::preprocessor::subtitle_to_images;
use vobsubocr::preprocessor::ImageRegion;
use vobsubocr::preprocessor::RowGroup;
use vobsubocr::preprocessor::ScanlineExtent;
use vobsubocr::preprocessor::SubtitleEvent;

fn event(width: usize, height: usize, raw: Vec<u8>, palette: [u8; 4], alpha: [u8; 4]) -> SubtitleEvent {
    assert_eq!(raw.len(), width * height);
    SubtitleEvent {
        start_ms: 0,
        end_ms: 1000,
        force: false,
        width,
        height,
        raw,
        palette: palette.to_vec(),
        alpha: alpha.to_vec(),
    }
}

/// A luminance palette where global entry `i` has luminance `values[i]`.
fn lum_palette(values: &[(usize, u32)]) -> Vec<u32> {
    let mut palette = vec![0u32; 16];
    for &(i, v) in values {
        palette[i] = v;
    }
    palette
}

#[test]
fn visibility_used_and_opaque_slot_is_visible() {
    // Slot 0's alpha sits at the reversed index 3.
    let ev = event(2, 1, vec![0, 0], [0, 0, 0, 0], [0, 0, 0, 5]);
    let vis = generate_visibility_palette(&ev);
    assert_eq!(vis, vec![true, false, false, false]);
}

#[test]
fn visibility_respects_reversed_alpha_order() {
    // Alpha 5 at index 0 belongs to slot 3, not slot 0, so a raw buffer
    // using only slot 0 stays invisible.
    let ev = event(2, 1, vec![0, 0], [0, 0, 0, 0], [5, 0, 0, 0]);
    let vis = generate_visibility_palette(&ev);
    assert_eq!(vis, vec![false, false, false, false]);
}

#[test]
fn visibility_unused_slot_is_invisible() {
    let ev = event(2, 1, vec![1, 1], [0, 0, 0, 0], [5, 5, 5, 5]);
    let vis = generate_visibility_palette(&ev);
    assert_eq!(vis, vec![false, true, false, false]);
}

#[test]
fn binarize_reads_sub_palette_reversed() {
    // Slot 0 maps to sub_palette[3] = global 2 (luminance 80); slot 1 maps
    // to sub_palette[2] = global 5 (luminance 40). With max 80 and
    // threshold 1/2, only slot 0 is strictly above half.
    let palette = lum_palette(&[(2, 80), (5, 40)]);
    let sub_palette = vec![9u8, 9, 5, 2];
    let vis = vec![true, true, false, false];
    let ink = binarize_palette(&palette, &sub_palette, &vis, Threshold { num: 1, den: 2 });
    assert_eq!(ink, vec![true, false, false, false]);
}

#[test]
fn binarize_threshold_is_strict() {
    // Normalized luminance exactly at the threshold is background: with max
    // 100, luminance 50 is not above 1/2, but 51 is.
    let palette = lum_palette(&[(0, 100), (1, 50), (2, 51)]);
    let sub_palette = vec![9u8, 2, 1, 0];
    let vis = vec![true, true, true, false];
    let ink = binarize_palette(&palette, &sub_palette, &vis, Threshold { num: 1, den: 2 });
    assert_eq!(ink, vec![true, false, true, false]);
}

#[test]
fn binarize_threshold_one_yields_no_ink() {
    let palette = lum_palette(&[(0, 100), (1, 70)]);
    let sub_palette = vec![9u8, 9, 1, 0];
    let vis = vec![true, true, false, false];
    let ink = binarize_palette(&palette, &sub_palette, &vis, Threshold { num: 1, den: 1 });
    assert_eq!(ink, vec![false, false, false, false]);
}

#[test]
fn binarize_threshold_zero_marks_every_lit_visible_slot() {
    let palette = lum_palette(&[(0, 100), (1, 1), (2, 0)]);
    let sub_palette = vec![3u8, 2, 1, 0];
    let vis = vec![true, true, true, false];
    let ink = binarize_palette(&palette, &sub_palette, &vis, Threshold { num: 0, den: 1 });
    // Slots 0 and 1 have luminance 100 and 1; slot 2 has luminance 0.
    assert_eq!(ink, vec![true, true, false, false]);
}

#[test]
fn binarize_all_zero_luminance_is_blank() {
    let palette = lum_palette(&[]);
    let sub_palette = vec![3u8, 2, 1, 0];
    let vis = vec![true, true, true, true];
    let ink = binarize_palette(&palette, &sub_palette, &vis, Threshold { num: 0, den: 1 });
    assert_eq!(ink, vec![false, false, false, false]);
}

#[test]
fn scanline_extents_match_a_sequential_pass() {
    // One row with ink at columns 2 and 7 under slot 1.
    let raw = vec![0u8, 0, 1, 0, 0, 0, 0, 1, 0, 0];
    let ev = event(10, 1, raw, [0, 0, 0, 0], [0, 0, 0, 0]);
    let ink = vec![false, true, false, false];
    let scanlines = inventory_scanlines(&ev, &ink);
    assert_eq!(scanlines.len(), 1);
    let extent = scanlines[0].as_ref().unwrap();
    assert_eq!((extent.left, extent.right), (2, 7));
}

#[test]
fn scanline_chunked_merge_agrees_with_single_pass() {
    // The same row split into two column chunks: merging the chunk extents
    // componentwise (min of lefts, max of rights) gives the single-pass
    // answer, in either merge order.
    let raw = vec![0u8, 0, 1, 0, 0, 0, 0, 1, 0, 0];
    let ev = event(10, 1, raw.clone(), [0, 0, 0, 0], [0, 0, 0, 0]);
    let ink = vec![false, true, false, false];
    let whole = inventory_scanlines(&ev, &ink);

    // Chunk [0,5) has extent (2,2); chunk [5,10) has extent (7,7).
    let left_chunk = (2usize, 2usize);
    let right_chunk = (7usize, 7usize);
    let merged = (left_chunk.0.min(right_chunk.0), left_chunk.1.max(right_chunk.1));
    let merged_rev = (right_chunk.0.min(left_chunk.0), right_chunk.1.max(left_chunk.1));
    let extent = whole[0].as_ref().unwrap();
    assert_eq!(merged, (extent.left, extent.right));
    assert_eq!(merged_rev, (extent.left, extent.right));
}

#[test]
fn row_groups_are_maximal() {
    // Ten rows with ink on rows 2, 3, 4, 7, 8: exactly the groups [2,5) and
    // [7,9).
    let mut scanlines: Vec<Option<ScanlineExtent>> = vec![None; 10];
    for y in [2usize, 3, 4, 7, 8] {
        scanlines[y] = Some(ScanlineExtent { left: 0, right: 0 });
    }
    let groups = find_contiguous_scanline_groups(&scanlines);
    assert_eq!(groups, vec![RowGroup { start: 2, end: 5 }, RowGroup { start: 7, end: 9 }]);
}

#[test]
fn row_groups_reach_the_image_edges() {
    let mut scanlines: Vec<Option<ScanlineExtent>> = vec![None; 4];
    scanlines[0] = Some(ScanlineExtent { left: 0, right: 1 });
    scanlines[3] = Some(ScanlineExtent { left: 0, right: 1 });
    let groups = find_contiguous_scanline_groups(&scanlines);
    assert_eq!(groups, vec![RowGroup { start: 0, end: 1 }, RowGroup { start: 3, end: 4 }]);
}

#[test]
fn row_groups_of_blank_image_are_empty() {
    let scanlines: Vec<Option<ScanlineExtent>> = vec![None; 6];
    let groups = find_contiguous_scanline_groups(&scanlines);
    assert!(groups.is_empty());
}

#[test]
fn region_bounds_are_the_min_left_and_max_right() {
    // RowGroup [2,5) with extents (3,10), (1,12), (5,9): columns [1,13).
    let mut scanlines: Vec<Option<ScanlineExtent>> = vec![None; 6];
    scanlines[2] = Some(ScanlineExtent { left: 3, right: 10 });
    scanlines[3] = Some(ScanlineExtent { left: 1, right: 12 });
    scanlines[4] = Some(ScanlineExtent { left: 5, right: 9 });
    let groups = vec![RowGroup { start: 2, end: 5 }];
    let regions = scanline_groups_to_image_regions(&scanlines, &groups);
    assert_eq!(
        regions,
        vec![ImageRegion { x_start: 1, x_end: 13, y_start: 2, y_end: 5 }]
    );
}

#[test]
fn rendered_border_is_white_and_dimensions_add_twice_the_border() {
    // A 4x2 all-ink region rendered with border 3: a 10x8 image whose
    // samples within 3 of any edge are white and whose interior is black.
    let ev = event(4, 2, vec![0u8; 8], [0, 0, 0, 0], [0, 0, 0, 0]);
    let ink = vec![true, false, false, false];
    let region = ImageRegion { x_start: 0, x_end: 4, y_start: 0, y_end: 2 };
    let img = render_region(&ev, &ink, &region, 3);
    assert_eq!((img.width, img.height), (10, 8));
    assert_eq!(img.data.len(), 80);
    for y in 0..8usize {
        for x in 0..10usize {
            let sample = img.data[y * 10 + x];
            let in_border = x < 3 || x >= 7 || y < 3 || y >= 5;
            if in_border {
                assert_eq!(sample, 255, "border sample at ({}, {})", x, y);
            } else {
                assert_eq!(sample, 0, "interior sample at ({}, {})", x, y);
            }
        }
    }
}

#[test]
fn subtitle_to_images_splits_lines_and_crops() {
    // A 4x5 image: ink row 0 (columns 1..3), blank row, ink rows 2..4
    // (column 2), blank row. Two line images result.
    let raw = vec![
        0u8, 1, 1, 0, //
        0, 0, 0, 0, //
        0, 0, 1, 0, //
        0, 0, 1, 0, //
        0, 0, 0, 0,
    ];
    let ev = event(4, 5, raw, [0, 0, 5, 0], [0, 0, 9, 9]);
    // Slot 1 maps to global entry palette[2] = 5.
    let palette = lum_palette(&[(5, 77)]);
    let images = subtitle_to_images(&ev, &palette, Threshold { num: 1, den: 2 }, 1).unwrap();
    assert_eq!(images.len(), 2);
    // First line: region columns [1,3), row [0,1), border 1: 4x3.
    assert_eq!((images[0].width, images[0].height), (4, 3));
    assert_eq!(
        images[0].data,
        vec![
            255, 255, 255, 255, //
            255, 0, 0, 255, //
            255, 255, 255, 255,
        ]
    );
    // Second line: region columns [2,3), rows [2,4), border 1: 3x4.
    assert_eq!((images[1].width, images[1].height), (3, 4));
    assert_eq!(
        images[1].data,
        vec![
            255, 255, 255, //
            255, 0, 255, //
            255, 0, 255, //
            255, 255, 255,
        ]
    );
}

#[test]
fn subtitle_to_images_threshold_one_yields_nothing() {
    let raw = vec![1u8, 1, 1, 1];
    let ev = event(2, 2, raw, [0, 0, 5, 0], [0, 0, 9, 9]);
    let palette = lum_palette(&[(5, 200)]);
    assert!(subtitle_to_images(&ev, &palette, Threshold { num: 1, den: 1 }, 2).is_none());
}

#[test]
fn subtitle_to_images_transparent_event_yields_nothing() {
    // Only slot 1 is used and its alpha (at reversed index 2) is zero.
    let raw = vec![1u8, 1, 1, 1];
    let ev = event(2, 2, raw, [0, 0, 5, 0], [9, 9, 0, 9]);
    let palette = lum_palette(&[(5, 200)]);
    assert!(subtitle_to_images(&ev, &palette, Threshold { num: 1, den: 2 }, 2).is_none());
}

#[test]
fn subtitle_to_images_zero_luminance_event_yields_nothing() {
    // Slot 1 is visible but its global color has zero luminance.
    let raw = vec![1u8, 1, 1, 1];
    let ev = event(2, 2, raw, [0, 0, 5, 0], [0, 0, 9, 9]);
    let palette = lum_palette(&[]);
    assert!(subtitle_to_images(&ev, &palette, Threshold { num: 1, den: 2 }, 2).is_none());
}

#[test]
fn pipeline_is_deterministic_across_runs() {
    let raw = vec![
        0u8, 1, 1, 0, //
        0, 0, 0, 0, //
        0, 0, 1, 0, //
        0, 0, 1, 0, //
        0, 0, 0, 0,
    ];
    let ev = event(4, 5, raw, [0, 0, 5, 0], [0, 0, 9, 9]);
    let palette = lum_palette(&[(5, 77)]);
    let first = subtitle_to_images(&ev, &palette, Threshold { num: 1, den: 2 }, 1).unwrap();
    let second = subtitle_to_images(&ev, &palette, Threshold { num: 1, den: 2 }, 1).unwrap();
    assert_eq!(first.len(), second.len());
    for (a, b) in first.iter().zip(second.iter()) {
        assert_eq!((a.width, a.height), (b.width, b.height));
        assert_eq!(a.data, b.data);
    }
}
