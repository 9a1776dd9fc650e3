use nacelle::term_view::{term_view_plan, TermShape, VIEW_CURSOR, VIEW_LIVE, VIEW_TRUNCATED};

fn term() -> TermShape {
    TermShape { cols: 80, rows: 24, cur_x: 5, cur_y: 3, cursor_visible: true, view_offset: 0 }
}

#[test]
fn the_tabs_are_a_bitmask_of_the_first_thirty_two() {
    let mut tabs = vec![false; 40];
    tabs[0] = true;
    tabs[2] = true;
    tabs[31] = true;
    tabs[35] = true;
    let p = term_view_plan(10, 10, None, &tabs, 7, true, 0, 0);
    assert_eq!(p.tab_count, 32);
    assert_eq!(p.tabs, 1 | 4 | (1 << 31));
    assert_eq!(p.tab_active, 7);
    assert_eq!(p.flags, 0);
    assert_eq!(p.written, 0);
}

#[test]
fn a_buffer_large_enough_takes_the_whole_screen() {
    let p = term_view_plan(100, 30, Some(term()), &vec![true], 0, false, 44, 80 * 24 * 44);
    assert_eq!((p.view_cols, p.view_rows), (80, 24));
    assert_eq!(p.written, 80 * 24);
    assert_eq!(p.flags, VIEW_LIVE | VIEW_CURSOR);
    assert_eq!((p.cursor_col, p.cursor_row), (5, 3));
}

#[test]
fn a_short_buffer_is_filled_by_whole_rows_and_never_passed() {
    // Room for 10 rows and a half of 40 columns.
    let bytes = 40 * 10 * 48 + 20 * 48;
    let p = term_view_plan(40, 30, Some(term()), &vec![], 0, false, 48, bytes);
    assert_eq!((p.view_cols, p.view_rows), (40, 10));
    assert_eq!(p.flags, VIEW_LIVE | VIEW_CURSOR | VIEW_TRUNCATED);
    assert!(p.written as u64 * 48 <= bytes as u64);
}

#[test]
fn a_stride_shorter_than_a_cell_or_no_buffer_gets_nothing() {
    let p = term_view_plan(40, 30, Some(term()), &vec![], 0, false, 8, 100_000);
    assert_eq!(p.view_rows, 0);
    assert_eq!(p.written, 0);
    let p = term_view_plan(40, 30, Some(term()), &vec![], 0, true, 44, 100_000);
    assert_eq!(p.written, 0);
}

#[test]
fn a_scrolled_view_or_a_cursor_off_the_grid_shows_no_cursor() {
    let mut t = term();
    t.view_offset = 2;
    let p = term_view_plan(40, 30, Some(t), &vec![], 0, false, 44, 1_000_000);
    assert_eq!(p.flags & VIEW_CURSOR, 0);
    assert_eq!(p.view_offset, 2);
    let mut t = term();
    t.cur_y = 20;
    let p = term_view_plan(40, 10, Some(t), &vec![], 0, false, 44, 1_000_000);
    assert_eq!(p.flags & VIEW_CURSOR, 0);
}
