use pachinko::projection::ItemColumnWidth;
use pachinko::sheet::{get_row_bounds, layout_columns, RowHeight, SheetSelection, SheetState};

fn rows(n: usize) -> Vec<RowHeight> {
    (0..n)
        .map(|_| RowHeight {
            height: 1,
            bottom_margin: 0,
        })
        .collect()
}

#[test]
fn selection_accessors_follow_the_shape() {
    let s = SheetSelection::Char(3, 2, 5);
    assert!(s.is_some());
    assert!(!s.is_none());
    assert_eq!(s.row(), Some(3));
    assert_eq!(s.column(), Some(2));
    assert_eq!(s.i(), Some(5));

    let n = SheetSelection::Unselected;
    assert!(n.is_none());
    assert_eq!(n.row(), None);
    assert_eq!(n.column(), None);
    assert_eq!(n.i(), None);
}

#[test]
fn with_row_preserves_column_shape() {
    assert_eq!(
        SheetSelection::Unselected.with_row(4),
        SheetSelection::Row(4)
    );
    assert_eq!(
        SheetSelection::Cell(1, 2).with_row(4),
        SheetSelection::Cell(4, 2)
    );
    assert_eq!(
        SheetSelection::Char(1, 2, 3).with_row(4),
        SheetSelection::Char(4, 2, 3)
    );
}

#[test]
fn map_row_leaves_empty_selection_alone() {
    assert_eq!(
        SheetSelection::Unselected.map_row(|r| r + 1),
        SheetSelection::Unselected
    );
    assert_eq!(
        SheetSelection::Row(1).map_row(|r| r + 1),
        SheetSelection::Row(2)
    );
    assert_eq!(
        SheetSelection::Unselected.map_row_or(7, |r| r + 1),
        SheetSelection::Row(7)
    );
}

#[test]
fn normalization_clamps_and_degrades() {
    let mut s = SheetSelection::Char(10, 9, 5);
    s.normalize(2, 3);
    assert_eq!(s, SheetSelection::Char(3, 2, 5));

    let mut c = SheetSelection::Char(1, 1, 9);
    c.normalize_char_position(Some(4));
    assert_eq!(c, SheetSelection::Char(1, 1, 4));

    let mut d = SheetSelection::Char(1, 1, 9);
    d.normalize_char_position(None);
    assert_eq!(d, SheetSelection::Cell(1, 1));
}

#[test]
fn normalization_twice_equals_once() {
    let samples = vec![
        SheetSelection::Unselected,
        SheetSelection::Row(11),
        SheetSelection::Cell(5, 9),
        SheetSelection::Char(7, 3, 12),
    ];
    for s in samples {
        let mut once = s;
        once.normalize(2, 3);
        let mut twice = once;
        twice.normalize(2, 3);
        assert_eq!(once, twice);

        let mut conce = s;
        conce.normalize_char_position(Some(4));
        let mut ctwice = conce;
        ctwice.normalize_char_position(Some(4));
        assert_eq!(conce, ctwice);
    }
}

#[test]
fn selecting_nothing_resets_the_offset() {
    let mut st = SheetState::default();
    st.set_offset(5);
    assert_eq!(st.get_offset(), 5);
    st.select(SheetSelection::Unselected);
    assert_eq!(st.get_offset(), 0);
}

#[test]
fn scrolling_moves_offset_and_selection() {
    let mut st = SheetState::default();
    st.select(SheetSelection::Row(0));
    st.scroll_down(4);
    assert_eq!(st.get_offset(), 4);
    // The selection is pushed down to stay in view.
    assert_eq!(st.selection(), SheetSelection::Row(4));
    st.scroll_up(2);
    assert_eq!(st.get_offset(), 2);
}

#[test]
fn row_bounds_keep_the_offset_when_selection_is_visible() {
    let r = rows(10);
    assert_eq!(get_row_bounds(&r, Some(3), 2, 4), (2, 6));
}

#[test]
fn row_bounds_slide_forward_to_reach_the_selection() {
    let r = rows(10);
    assert_eq!(get_row_bounds(&r, Some(7), 0, 4), (4, 8));
}

#[test]
fn row_bounds_slide_backward_to_reach_the_selection() {
    let r = rows(10);
    assert_eq!(get_row_bounds(&r, Some(1), 5, 4), (1, 5));
}

#[test]
fn row_bounds_clamp_an_overlarge_offset() {
    let r = rows(3);
    let (start, end) = get_row_bounds(&r, None, 9, 4);
    assert_eq!((start, end), (2, 3));
}

#[test]
fn row_bounds_window_never_exceeds_the_viewport() {
    let r = rows(50);
    let (start, end) = get_row_bounds(&r, Some(30), 0, 4);
    assert!(start <= 30 && 30 < end);
    assert!(end - start <= 4);
}

#[test]
fn column_layout_gives_the_leftover_to_the_expanding_column() {
    let constraints = vec![
        (ItemColumnWidth::Shrink, 8),
        (ItemColumnWidth::Shrink, 4),
        (ItemColumnWidth::Expand, 4),
    ];
    // Two fixed columns of 8 and 4 plus one gap between each pair leave
    // 26 of 40 cells.
    assert_eq!(layout_columns(&constraints, 40), vec![8, 4, 26]);
    // A line too narrow is never exceeded: the later columns are cut.
    let narrow = layout_columns(&constraints, 10);
    assert_eq!(narrow, vec![8, 0, 0]);
    let used: u16 = narrow.iter().sum::<u16>() + (narrow.len() as u16 - 1);
    assert!(used <= 10);
}
