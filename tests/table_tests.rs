use editor_engine::table::{default_border_color, default_span, DocumentTable, TableCell};

fn cell_text(t: &DocumentTable, r: usize, c: usize) -> String {
    t.get_cell(r, c).unwrap().text.clone()
}

#[test]
fn merge_two_by_two_empty_table() {
    let mut t = DocumentTable::new("t".to_string(), 2, 2, 0);
    assert!(t.merge_cells(0, 0, 1, 1));
    let origin = t.get_cell(0, 0).unwrap();
    assert_eq!((origin.row_span, origin.col_span), (2, 2));
    assert!(origin.is_merge_origin());
    let mut covered = 0;
    for (r, c) in [(0, 1), (1, 0), (1, 1)] {
        let cell = t.get_cell(r, c).unwrap();
        assert!(cell.covered);
        assert_eq!((cell.covered_by_row, cell.covered_by_col), (Some(0), Some(0)));
        covered += 1;
    }
    assert_eq!(covered, 3);
    let (vr, vc, _) = t.get_visible_cell(1, 1).unwrap();
    assert_eq!((vr, vc), (0, 0));
    assert!(!t.should_render_cell(1, 1));
    assert!(t.should_render_cell(0, 0));
}

#[test]
fn merge_joins_texts_in_row_major_order() {
    let mut t = DocumentTable::new("t".to_string(), 2, 3, 0);
    t.rows[0].cells[0].text = "a".to_string();
    t.rows[0].cells[2].text = "c".to_string();
    t.rows[1].cells[1].text = "e".to_string();
    assert!(t.merge_cells(0, 0, 1, 2));
    assert_eq!(cell_text(&t, 0, 0), "a\nc\ne");
    assert_eq!(cell_text(&t, 1, 1), "");
}

#[test]
fn merge_rejects_bad_rectangles() {
    let mut t = DocumentTable::new("t".to_string(), 2, 2, 0);
    assert!(!t.merge_cells(0, 0, 2, 1));
    assert!(!t.merge_cells(0, 0, 1, 2));
    assert!(!t.merge_cells(1, 0, 0, 1));
    assert!(!t.merge_cells(0, 1, 1, 0));
    for r in 0..2 {
        for c in 0..2 {
            assert!(!t.get_cell(r, c).unwrap().covered);
        }
    }
}

#[test]
fn merge_over_part_of_another_merge_fails_and_changes_nothing() {
    let mut t = DocumentTable::new("t".to_string(), 3, 3, 0);
    assert!(t.merge_cells(0, 0, 1, 1));
    t.rows[2].cells[2].text = "z".to_string();
    assert!(!t.merge_cells(1, 1, 2, 2));
    assert!(!t.merge_cells(0, 0, 0, 1));
    assert_eq!(cell_text(&t, 2, 2), "z");
    assert_eq!(t.get_cell(0, 0).unwrap().row_span, 2);
    assert!(t.get_cell(1, 1).unwrap().covered);
    assert!(!t.get_cell(2, 2).unwrap().covered);
    assert!(t.merge_cells(0, 0, 2, 2));
}

#[test]
fn merge_then_split_restores_topology() {
    let mut t = DocumentTable::new("t".to_string(), 3, 3, 0);
    t.rows[1].cells[1].background = Some("#eee".to_string());
    t.rows[0].cells[1].text = "x".to_string();
    t.rows[1].cells[2].text = "y".to_string();
    assert!(t.merge_cells(0, 1, 1, 2));
    assert!(t.split_cell(0, 1));
    for r in 0..3 {
        for c in 0..3 {
            let cell = t.get_cell(r, c).unwrap();
            assert!(!cell.covered);
            assert_eq!((cell.row_span, cell.col_span), (1, 1));
            assert_eq!((cell.covered_by_row, cell.covered_by_col), (None, None));
        }
    }
    assert_eq!(cell_text(&t, 0, 1), "x\ny");
    assert_eq!(cell_text(&t, 1, 2), "");
    assert_eq!(t.get_cell(1, 2).unwrap().background, None);
    assert_eq!(t.num_rows(), 3);
    assert_eq!(t.num_cols(), 3);
}

#[test]
fn split_spreads_origin_background() {
    let mut t = DocumentTable::new("t".to_string(), 2, 2, 0);
    assert!(t.merge_cells(0, 0, 1, 1));
    t.rows[0].cells[0].background = Some("#abc".to_string());
    assert!(t.split_cell(0, 0));
    assert_eq!(t.get_cell(1, 1).unwrap().background.as_deref(), Some("#abc"));
}

#[test]
fn split_fails_off_an_origin() {
    let mut t = DocumentTable::new("t".to_string(), 2, 2, 0);
    assert!(!t.split_cell(0, 0));
    assert!(!t.split_cell(5, 0));
    assert!(t.merge_cells(0, 0, 0, 1));
    assert!(!t.split_cell(0, 1));
}

#[test]
fn new_table_has_equal_shares() {
    let t = DocumentTable::new("t".to_string(), 2, 3, 0);
    assert_eq!(t.column_widths, vec![33, 33, 33]);
    assert_eq!(t.rows.len(), 2);
    assert_eq!(t.rows[1].cells.len(), 3);
    assert_eq!(t.border_width, 1);
    assert_eq!(t.border_color, "#000000");
}

#[test]
fn add_and_delete_rows() {
    let mut t = DocumentTable::new("t".to_string(), 1, 2, 0);
    t.rows[0].cells[0].text = "first".to_string();
    t.add_row(0);
    assert_eq!(t.num_rows(), 2);
    assert_eq!(cell_text(&t, 1, 0), "first");
    t.add_row(99);
    assert_eq!(t.num_rows(), 3);
    assert!(t.delete_row(0));
    assert!(t.delete_row(1));
    assert!(!t.delete_row(0));
    assert!(!t.delete_row(7));
    assert_eq!(cell_text(&t, 0, 0), "first");
}

#[test]
fn add_and_delete_columns() {
    let mut t = DocumentTable::new("t".to_string(), 2, 2, 0);
    t.rows[0].cells[1].text = "b".to_string();
    t.add_column(1);
    assert_eq!(t.num_cols(), 3);
    assert_eq!(t.rows[0].cells.len(), 3);
    assert_eq!(cell_text(&t, 0, 2), "b");
    // 50, 33, 50 rescaled to percentages of 133
    assert_eq!(t.column_widths, vec![37, 24, 37]);
    assert!(t.delete_column(0));
    assert_eq!(t.num_cols(), 2);
    assert_eq!(cell_text(&t, 0, 1), "b");
    assert_eq!(t.column_widths, vec![39, 60]);
    assert!(t.delete_column(1));
    assert!(!t.delete_column(0));
    assert_eq!(t.column_widths, vec![100]);
}

#[test]
fn cell_constructors() {
    let c = TableCell::with_text("hi".to_string());
    assert_eq!(c.text, "hi");
    assert!(!c.is_merge_origin());
    let k = TableCell::covered(2, 3);
    assert!(k.covered);
    assert_eq!((k.covered_by_row, k.covered_by_col), (Some(2), Some(3)));
    assert!(!TableCell::new().covered);
    assert_eq!(default_span(), 1);
    assert_eq!(default_border_color(), "#000000");
}
