use stele::media::placement::{
    crop_source, png_pixel_size, text_rung_line, CellBox, Frame, Placement, SourceRect,
    FALLBACK_CELL_HEIGHT_PX, FALLBACK_CELL_WIDTH_PX, PLACEMENT_CAP, RASTER_BUDGET_BYTES,
};

/// The first 24 bytes a PNG of `width` x `height` starts with, then `pad`
/// bytes standing in for the rest of the file.
fn png(width: u32, height: u32, pad: usize) -> Vec<u8> {
    let mut bytes = vec![0x89, b'P', b'N', b'G', b'\r', b'\n', 0x1a, b'\n', 0, 0, 0, 13];
    bytes.extend_from_slice(b"IHDR");
    bytes.extend_from_slice(&width.to_be_bytes());
    bytes.extend_from_slice(&height.to_be_bytes());
    bytes.extend(std::iter::repeat(0u8).take(pad));
    bytes
}

fn rect(y: u16) -> CellBox {
    CellBox { x: 2, y, width: 10, height: 4 }
}

#[test]
fn test_a_multi_row_grid_indexes_by_box_row_so_a_scrolled_formula_keeps_its_shape() {
    let grid: Vec<String> = ["num", "---", "den"].iter().map(|s| s.to_string()).collect();
    assert_eq!(
        text_rung_line(&grid, 2, 0),
        Some(&"den".to_string()),
        "a top-truncated grid must show the rows it scrolled to"
    );
}

#[test]
fn test_a_single_line_rung_stays_visible_when_the_box_is_top_truncated() {
    let alt = vec!["a picture of a badger".to_string()];
    assert_eq!(
        text_rung_line(&alt, 2, 0),
        Some(&"a picture of a badger".to_string()),
        "the one line a failed box has must not be indexed away"
    );
    assert_eq!(text_rung_line(&alt, 2, 1), None);
}

#[test]
fn test_a_row_past_the_end_of_a_grid_has_no_line_to_paint() {
    let grid: Vec<String> = ["one", "two"].iter().map(|s| s.to_string()).collect();
    assert_eq!(text_rung_line(&grid, 5, 5), None);
}

#[test]
fn test_crop_source_is_proportional_to_the_measured_raster_height() {
    let crop = crop_source((80, 250), 10, 4, 3).expect("a partial view must crop");
    assert_eq!(crop, SourceRect { x: 0, y: 100, width: 80, height: 75 });
}

#[test]
fn test_crop_source_is_none_when_the_whole_box_is_on_screen() {
    assert_eq!(crop_source((80, 240), 5, 0, 5), None);
    assert_eq!(crop_source((0, 0), 5, 2, 3), None);
}

#[test]
fn test_png_pixel_size_reads_the_ihdr_and_rejects_non_png_bytes() {
    let bytes = png(37, 91, 40);
    assert_eq!(png_pixel_size(&bytes), Some((37, 91)));
    assert_eq!(png_pixel_size(b"not a png at all, truly"), None);
    assert_eq!(png_pixel_size(&[]), None);
}

#[test]
fn test_set_cell_px_refuses_a_zero_axis() {
    let mut frame = Frame::new(RASTER_BUDGET_BYTES);
    let before = frame.cell_px();
    frame.set_cell_px((0, 64));
    frame.set_cell_px((32, 0));
    frame.set_cell_px((0, 0));
    assert_eq!(frame.cell_px(), before);
    frame.set_cell_px((32, 64));
    assert_eq!(frame.cell_px(), (32, 64));
}

#[test]
fn a_fresh_frame_assumes_the_fallback_cell_size() {
    let frame = Frame::new(RASTER_BUDGET_BYTES);
    assert_eq!(frame.cell_px(), (FALLBACK_CELL_WIDTH_PX, FALLBACK_CELL_HEIGHT_PX));
    assert_eq!(frame.target_px(10, 3), (240, 144));
    assert_eq!(frame.target_px(0, 0), (24, 48));
}

#[test]
fn a_png_with_a_zero_axis_or_a_wrong_chunk_has_no_size() {
    assert_eq!(png_pixel_size(&png(0, 91, 0)), None);
    assert_eq!(png_pixel_size(&png(37, 0, 0)), None);
    let mut wrong = png(37, 91, 0);
    wrong[12] = b'J';
    assert_eq!(png_pixel_size(&wrong), None);
    assert_eq!(png_pixel_size(&png(37, 91, 0)[..23]), None);
    assert_eq!(png_pixel_size(&png(0x0102_0304, 0x00a0_0001, 0)), Some((0x0102_0304, 0x00a0_0001)));
}

#[test]
fn a_crop_never_comes_out_taller_than_the_raster_nor_empty() {
    assert_eq!(crop_source((80, 250), 10, 9, 5), Some(SourceRect { x: 0, y: 225, width: 80, height: 25 }));
    assert_eq!(crop_source((80, 3), 10, 1, 1), Some(SourceRect { x: 0, y: 0, width: 80, height: 1 }));
    assert_eq!(crop_source((80, 250), 0, 0, 0), None);
}

#[test]
fn a_transmit_places_the_box_cropped_to_its_visible_rows() {
    let mut frame = Frame::new(RASTER_BUDGET_BYTES);
    let bytes = png(80, 250, 100);
    let t = frame
        .transmit_and_place(7, 1, &bytes, (240, 480), 10, 4, CellBox { x: 2, y: 0, width: 10, height: 3 })
        .expect("a slot is free");
    assert!(t.freed.is_empty());
    assert_eq!(
        t.placement,
        Placement {
            id: 1,
            cells: CellBox { x: 2, y: 0, width: 10, height: 3 },
            source: Some(SourceRect { x: 0, y: 100, width: 80, height: 75 }),
        }
    );
    assert_eq!(frame.resident_bytes(), 124);
    assert_eq!(frame.image_for(7), Some(1));
    assert!(frame.is_placed(7));
}

#[test]
fn the_thirty_third_box_of_a_frame_gets_no_placement() {
    let mut frame = Frame::new(RASTER_BUDGET_BYTES);
    let bytes = png(10, 10, 0);
    for node in 0..PLACEMENT_CAP as u64 {
        let t = frame.transmit_and_place(node, node as u32 + 1, &bytes, (10, 10), 1, 0, rect(node as u16));
        assert!(t.is_some(), "box {node} must be placed");
    }
    assert_eq!(frame.placed_count(), PLACEMENT_CAP);
    assert!(!frame.has_slot(99));
    assert!(frame.transmit_and_place(99, 99, &bytes, (10, 10), 1, 0, rect(40)).is_none());
    assert_eq!(frame.image_for(99), None);
    // A box already placed this frame still paints its later rows.
    assert!(frame.has_slot(3));
    assert_eq!(frame.placed_count(), PLACEMENT_CAP);
}

#[test]
fn a_frame_boundary_unplaces_everything_and_keeps_every_raster() {
    let mut frame = Frame::new(RASTER_BUDGET_BYTES);
    let bytes = png(10, 10, 0);
    frame.transmit_and_place(5, 50, &bytes, (10, 10), 1, 0, rect(0)).unwrap();
    frame.transmit_and_place(6, 60, &bytes, (10, 10), 1, 0, rect(1)).unwrap();
    assert_eq!(frame.begin_frame(), vec![50, 60]);
    assert_eq!(frame.placed_count(), 0);
    assert!(!frame.is_placed(5));
    assert_eq!(frame.resident_count(), 2);
    // Nothing is placed, so the next boundary has nothing to take down.
    assert!(frame.begin_frame().is_empty());
    // Coming back costs a re-place under the same image number, not a transmit.
    let again = frame.replace_if_cached(6, (10, 10), 1, 0, rect(3)).expect("still resident");
    assert_eq!(again.id, 60);
    assert!(frame.is_placed(6));
    // A raster rendered for another size is a miss.
    assert_eq!(frame.replace_if_cached(5, (20, 20), 1, 0, rect(4)), None);
    assert!(!frame.is_placed(5));
}

#[test]
fn the_budget_never_takes_the_raster_of_a_box_on_screen() {
    let mut frame = Frame::new(300);
    let big = png(10, 10, 176);
    frame.transmit_and_place(1, 10, &big, (10, 10), 1, 0, rect(0)).unwrap();
    // Both placed: over budget, and neither may go.
    let t = frame.transmit_and_place(2, 20, &big, (10, 10), 1, 0, rect(1)).unwrap();
    assert!(t.freed.is_empty());
    assert_eq!(frame.resident_bytes(), 400);
    // Next frame nothing is placed: the least recently used raster goes.
    frame.begin_frame();
    let t = frame.transmit_and_place(3, 30, &big, (10, 10), 1, 0, rect(0)).unwrap();
    assert_eq!(t.freed, vec![10, 20]);
    assert_eq!(frame.image_for(1), None);
    assert_eq!(frame.image_for(2), None);
    assert_eq!(frame.image_for(3), Some(30));
    assert_eq!(frame.resident_bytes(), 200);
}

#[test]
fn a_retransmit_keeps_the_nodes_image_number() {
    let mut frame = Frame::new(RASTER_BUDGET_BYTES);
    frame.transmit_and_place(4, 40, &png(10, 10, 0), (10, 10), 1, 0, rect(0)).unwrap();
    frame.begin_frame();
    assert!(frame.holds_image(40));
    let t = frame.transmit_and_place(4, 99, &png(20, 20, 0), (20, 20), 1, 0, rect(0)).unwrap();
    assert_eq!(t.placement.id, 40);
    assert_eq!(frame.resident_count(), 1);
}

#[test]
fn delete_takes_the_box_off_the_screen_and_out_of_the_terminal() {
    let mut frame = Frame::new(RASTER_BUDGET_BYTES);
    frame.transmit_and_place(8, 80, &png(10, 10, 0), (10, 10), 1, 0, rect(0)).unwrap();
    assert_eq!(frame.delete(8), Some(80));
    assert!(!frame.is_placed(8));
    assert_eq!(frame.resident_count(), 0);
    assert_eq!(frame.delete(8), None);
}

#[test]
fn a_reload_frees_every_raster_least_recently_used_first() {
    let mut frame = Frame::new(RASTER_BUDGET_BYTES);
    let bytes = png(10, 10, 0);
    frame.transmit_and_place(1, 11, &bytes, (10, 10), 1, 0, rect(0)).unwrap();
    frame.transmit_and_place(2, 12, &bytes, (10, 10), 1, 0, rect(1)).unwrap();
    frame.begin_frame();
    frame.replace_if_cached(1, (10, 10), 1, 0, rect(0)).unwrap();
    assert_eq!(frame.reload(), vec![12, 11]);
    assert_eq!(frame.resident_count(), 0);
    assert_eq!(frame.placed_count(), 0);
    assert_eq!(frame.resident_bytes(), 0);
}
