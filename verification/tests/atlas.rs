use nacelle::atlas::{Atlas, ATLAS_H, ATLAS_W, MASK_BAND_Y};

#[test]
fn a_new_atlas_is_clear_but_its_white_corner_and_all_of_it_is_due() {
    let mut a = Atlas::new();
    assert_eq!(a.image().len(), ATLAS_W * ATLAS_H);
    assert_eq!(a.pixel(0, 0), 255);
    assert_eq!(a.pixel(1, 1), 255);
    assert_eq!(a.pixel(2, 0), 0);
    assert_eq!(a.pixel(0, 2), 0);
    assert_eq!(a.take_dirty_rows(), Some((0, ATLAS_H as u32)));
    assert_eq!(a.take_dirty_rows(), None);
}

#[test]
fn boxes_are_packed_along_a_shelf_then_on_the_next() {
    let mut a = Atlas::new();
    assert_eq!(a.reserve(10, 5), Some((2, 2)));
    assert_eq!(a.reserve(20, 7), Some((14, 2)));
    // Too wide for what is left of the shelf: the next shelf starts
    // under the tallest box of this one, two pixels apart.
    assert_eq!(a.reserve(2030, 3), Some((2, 11)));
    assert_eq!(a.reserve(4, 4), Some((2034, 11)));
}

#[test]
fn a_full_atlas_waits_for_the_next_frame_and_keeps_its_band() {
    let mut a = Atlas::new();
    a.blit(0, MASK_BAND_Y, 2, 1, &[7, 9]);
    assert_eq!(a.pixel(1, MASK_BAND_Y), 9);
    assert_eq!(a.place(3, 1916, &vec![5u8; 3 * 1916]), Some((2, 2)));
    assert_eq!(a.pixel(4, 1917), 5);
    // Nothing fits any more: no pixel moves until the frame ends.
    assert_eq!(a.place(2044, 1, &vec![1u8; 2044]), None);
    assert_eq!(a.pixel(4, 1917), 5);
    a.take_dirty_rows();
    a.begin_frame();
    assert_eq!(a.pixel(4, 1917), 0, "the shelves are cleared");
    assert_eq!(a.pixel(0, 0), 255, "the white corner is set again");
    assert_eq!(a.pixel(1, MASK_BAND_Y), 9, "the mask band is never cleared");
    assert_eq!(a.take_dirty_rows(), Some((0, MASK_BAND_Y as u32)));
    assert_eq!(a.reserve(1, 1), Some((2, 2)));
    // A frame with nothing pending changes nothing.
    a.begin_frame();
    assert_eq!(a.reserve(1, 1), Some((5, 2)));
}

#[test]
fn a_glyph_is_written_where_it_was_placed_and_only_its_rows_are_due() {
    let mut a = Atlas::new();
    a.take_dirty_rows();
    let bitmap = [1u8, 2, 3, 4, 5, 6];
    let (x, y) = a.place(3, 2, &bitmap).unwrap();
    assert_eq!((x, y), (2, 2));
    assert_eq!(
        [a.pixel(2, 2), a.pixel(3, 2), a.pixel(4, 2), a.pixel(2, 3), a.pixel(3, 3), a.pixel(4, 3)],
        bitmap
    );
    assert_eq!(a.pixel(5, 2), 0);
    assert_eq!(a.take_dirty_rows(), Some((2, 2)));
}
