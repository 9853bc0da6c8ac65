use co2::display::{
    column_label, heatmap_fits, heatmap_layout, pad_to_width, truncate_chars, AppState, Area,
    HeatmapShape, KeyPress,
};

#[test]
fn new_state_selects_first_month() {
    let state = AppState::new();
    assert_eq!(state.monthly_table.selected, Some(0));
    assert_eq!(state.monthly_table.offset, 0);
    assert_eq!(state.monthly_len, 0);
    assert_eq!(state.selected_month_idx, None);
}

#[test]
fn scrolling_stays_within_the_months() {
    let mut state = AppState::new();
    state.monthly_len = 12;
    state.scroll_down(1);
    assert_eq!(state.monthly_table.selected, Some(1));
    state.scroll_down(10);
    assert_eq!(state.monthly_table.selected, Some(11));
    state.scroll_down(10);
    assert_eq!(state.monthly_table.selected, Some(11));
    state.scroll_up(1);
    assert_eq!(state.monthly_table.selected, Some(10));
    state.scroll_up(10);
    assert_eq!(state.monthly_table.selected, Some(0));
    state.scroll_up(1);
    assert_eq!(state.monthly_table.selected, Some(0));
}

#[test]
fn scrolling_with_nothing_listed_keeps_first_row() {
    let mut state = AppState::new();
    state.monthly_table.selected = None;
    state.scroll_down(3);
    assert_eq!(state.monthly_table.selected, Some(0));
}

#[test]
fn heatmap_needs_room_and_columns() {
    let shape = HeatmapShape { label_lens: vec![3], value_counts: vec![2], n_cols: 2, total: None };
    assert!(heatmap_layout(&Area { x: 0, y: 0, width: 40, height: 1 }, &shape).is_none());
    assert!(heatmap_layout(&Area { x: 0, y: 0, width: 3, height: 10 }, &shape).is_none());
    let no_cols = HeatmapShape { label_lens: vec![3], value_counts: vec![0], n_cols: 0, total: None };
    assert!(heatmap_layout(&Area { x: 0, y: 0, width: 40, height: 10 }, &no_cols).is_none());
}

#[test]
fn heatmap_columns_share_the_width() {
    // labels up to 12 bytes; 40 - 13 = 27 columns of room for 3 months: 9 each
    let shape = HeatmapShape {
        label_lens: vec![9, 12],
        value_counts: vec![3, 3],
        n_cols: 3,
        total: Some((5, 3)),
    };
    let layout = heatmap_layout(&Area { x: 2, y: 4, width: 40, height: 10 }, &shape).unwrap();
    assert_eq!(layout.label_width, 12);
    assert_eq!(layout.cell_width, 9);
    assert_eq!(layout.cell_xs, vec![15, 24, 33]);
    assert_eq!(layout.row_ys, vec![5, 6]);
    assert_eq!(layout.total_y, Some(8));
}

#[test]
fn heatmap_rows_stop_at_the_bottom() {
    let shape = HeatmapShape {
        label_lens: vec![1, 1, 1, 1],
        value_counts: vec![2, 2, 2, 2],
        n_cols: 2,
        total: Some((5, 2)),
    };
    let layout = heatmap_layout(&Area { x: 0, y: 0, width: 30, height: 3 }, &shape).unwrap();
    // the label column is at least 8 wide; one cell of room is the minimum
    assert_eq!(layout.label_width, 8);
    assert_eq!(layout.cell_width, 10);
    assert_eq!(layout.row_ys, vec![1, 2]);
    assert_eq!(layout.total_y, None);
}

#[test]
fn keys_quit_and_scroll() {
    let mut state = AppState::new();
    state.monthly_len = 30;
    assert!(!state.on_key(KeyPress::PageDown));
    assert_eq!(state.monthly_table.selected, Some(10));
    assert!(!state.on_key(KeyPress::Char('j')));
    assert_eq!(state.monthly_table.selected, Some(11));
    assert!(!state.on_key(KeyPress::Up));
    assert!(!state.on_key(KeyPress::Char('k')));
    assert_eq!(state.monthly_table.selected, Some(9));
    assert!(!state.on_key(KeyPress::PageUp));
    assert_eq!(state.monthly_table.selected, Some(0));
    assert!(!state.on_key(KeyPress::Char('x')));
    assert!(!state.on_key(KeyPress::Other));
    assert_eq!(state.monthly_table.selected, Some(0));
    assert!(state.on_key(KeyPress::Char('q')));
    assert!(state.on_key(KeyPress::Esc));
}

#[test]
fn cell_text_is_cut_and_padded_by_characters() {
    assert_eq!(truncate_chars("AmazonEC2", 6), "Amazon");
    assert_eq!(truncate_chars("é×ü", 2), "é×");
    assert_eq!(truncate_chars("ab", 5), "ab");
    assert_eq!(pad_to_width("1.2", 5), "1.2  ");
    assert_eq!(pad_to_width("é", 3), "é  ");
    assert_eq!(pad_to_width("12345", 3), "12345");
}

#[test]
fn column_labels_keep_the_month() {
    assert_eq!(column_label("2024-06"), "06");
    assert_eq!(column_label("2024"), "2024");
    assert_eq!(column_label("abcd"), "abcd");
    assert_eq!(column_label("abcé1"), "1");
    // the fifth byte falls inside "€"
    assert_eq!(column_label("abcd€"), "abcd€");
}

#[test]
fn heatmap_fit_checks_positions() {
    let shape = HeatmapShape { label_lens: vec![3], value_counts: vec![2], n_cols: 2, total: None };
    assert!(heatmap_fits(&Area { x: 0, y: 0, width: 40, height: 10 }, &shape));
    // nothing is drawn in too small an area, so nothing can go out of range
    assert!(heatmap_fits(&Area { x: 65530, y: 0, width: 3, height: 10 }, &shape));
    // the value columns would run past the last position
    assert!(heatmap_fits(&Area { x: 65500, y: 0, width: 35, height: 10 }, &shape));
    assert!(!heatmap_fits(&Area { x: 65500, y: 0, width: 40, height: 10 }, &shape));
    // a label as long as the positions go
    let long = HeatmapShape { label_lens: vec![65535], value_counts: vec![1], n_cols: 1, total: None };
    assert!(!heatmap_fits(&Area { x: 0, y: 0, width: 40, height: 10 }, &long));
}
