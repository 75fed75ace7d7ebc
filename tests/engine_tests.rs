use editor_engine::document::{BlockType, Document, ImageWrapStyle, ListType, Paragraph, TextAlign};
use editor_engine::engine::{block_type_from_name, list_type_name, table_id_for, Engine};
use editor_engine::layout::ApproxMeasure;
use editor_engine::style::TextStyle;

#[test]
fn new_engine_has_one_empty_paragraph() {
    let e = Engine::new();
    assert_eq!(e.paragraph_count(), 1);
    assert_eq!(e.get_paragraph(0), Some(String::new()));
    assert_eq!(e.get_paragraph(1), None);
    assert_eq!(e.page_count(), 1);
}

#[test]
fn paragraphs_insert_set_delete() {
    let mut e = Engine::new();
    e.set_paragraph(0, "first".to_string());
    e.insert_paragraph(5, "last".to_string());
    e.insert_paragraph(1, "middle".to_string());
    assert_eq!(e.paragraph_count(), 3);
    assert_eq!(e.get_paragraph(1).as_deref(), Some("middle"));
    e.delete_paragraph(0);
    e.delete_paragraph(9);
    assert_eq!(e.get_paragraph(0).as_deref(), Some("middle"));
    assert_eq!(e.get_paragraph(1).as_deref(), Some("last"));
}

#[test]
fn toggling_bold_twice_clears_it() {
    let mut e = Engine::new();
    e.set_paragraph(0, "Hello World".to_string());
    e.toggle_bold(0, 0, 5);
    assert_eq!(e.document.paragraphs[0].styles.len(), 1);
    assert!(e.document.paragraphs[0].styles[0].bold);
    e.toggle_bold(0, 0, 5);
    assert!(e.document.paragraphs[0].styles.is_empty());
}

#[test]
fn toggling_over_a_partly_bold_range_makes_it_all_bold() {
    let mut e = Engine::new();
    e.set_paragraph(0, "Hello World".to_string());
    e.toggle_bold(0, 0, 3);
    e.toggle_bold(0, 0, 8);
    let runs: Vec<(usize, usize, bool)> = e.document.paragraphs[0].styles.iter().map(|s| (s.start, s.end, s.bold)).collect();
    assert_eq!(runs, vec![(0, 8, true)]);
    e.toggle_italic(0, 2, 4);
    e.toggle_underline(0, 2, 4);
    e.toggle_strikethrough(0, 2, 4);
    let s = e.document.paragraphs[0].style_at(3).unwrap();
    assert!(s.bold && s.italic && s.underline && s.strikethrough);
}

#[test]
fn colors_set_and_clear() {
    let mut e = Engine::new();
    e.set_paragraph(0, "abcdef".to_string());
    e.set_text_color(0, 0, 3, "#123");
    e.set_highlight_color(0, 2, 4, "yellow");
    assert_eq!(e.document.paragraphs[0].style_at(0).unwrap().color.as_deref(), Some("#123"));
    assert_eq!(e.document.paragraphs[0].style_at(3).unwrap().background.as_deref(), Some("yellow"));
    e.set_text_color(0, 0, 6, "");
    e.set_highlight_color(0, 0, 6, "");
    assert!(e.document.paragraphs[0].styles.is_empty());
}

#[test]
fn paragraph_metadata_by_name() {
    let mut e = Engine::new();
    e.set_block_type(0, "h2");
    e.set_alignment(0, "center");
    e.set_list_type(0, "numbered");
    assert_eq!(e.get_paragraph_meta(0), Some((TextAlign::Center, BlockType::Heading2, ListType::Numbered)));
    e.toggle_list(0, "numbered");
    assert_eq!(e.get_list_type(0), ListType::NoList);
    e.toggle_list(0, "bullet");
    assert_eq!(list_type_name(e.get_list_type(0)), "bullet");
    e.insert_paragraph_with_list(1, "next".to_string(), 0);
    assert_eq!(e.get_list_type(1), ListType::Bullet);
    assert_eq!(block_type_from_name("nonsense"), BlockType::Paragraph);
    assert_eq!(e.get_paragraph_meta(7), None);
}

#[test]
fn images_and_page_breaks() {
    let mut e = Engine::new();
    e.add_image("img", "data:", 100, 50, 200, 100);
    e.insert_image_paragraph(0, "img");
    e.insert_page_break(1);
    assert!(e.document.paragraphs[0].is_image());
    assert_eq!(e.document.paragraphs[0].image_id(), Some("img"));
    assert!(e.document.paragraphs[1].is_page_break());
    e.update_image_size("img", 10, 20);
    e.set_image_wrap_style("img", "square");
    e.set_image_horizontal_align("img", "right");
    e.set_image_position("img", 5, 6, 1);
    let i = e.image_index("img").unwrap();
    let image = &e.document.images[i];
    assert_eq!((image.width, image.height, image.natural_width), (10, 20, 200));
    assert_eq!(image.wrap_style, ImageWrapStyle::Square);
    assert_eq!((image.x, image.y, image.page_index), (Some(5), Some(6), Some(1)));
    e.clear_image_position("img");
    assert_eq!(e.document.images[i].x, None);
    e.delete_image("img");
    assert!(e.image_index("img").is_none());
    assert_eq!(e.paragraph_count(), 2);
    assert!(e.document.paragraphs.iter().all(|p| !p.is_image()));
}

#[test]
fn tables_through_the_engine() {
    let mut e = Engine::new();
    let id = e.create_table(2, 3);
    assert_eq!(id, "table_0");
    assert_eq!(table_id_for(12), "table_12");
    e.insert_table_paragraph(0, &id);
    assert!(e.document.paragraphs[0].is_table());
    e.set_cell_text(&id, 1, 2, "x");
    assert_eq!(e.get_cell_text(&id, 1, 2).as_deref(), Some("x"));
    assert_eq!(e.get_cell_text(&id, 5, 2), None);
    e.set_cell_background(&id, 0, 0, "#eee");
    e.set_cell_align(&id, 0, 0, "right");
    e.add_table_row(&id, 0);
    e.add_table_column(&id, 9);
    assert_eq!(e.get_table_dimensions(&id), Some((3, 4)));
    assert!(e.delete_table_row(&id, 0));
    assert!(e.delete_table_column(&id, 3));
    assert!(!e.delete_table_column("missing", 0));
    assert_eq!(e.get_table_dimensions(&id), Some((2, 3)));
    e.set_column_width(&id, 0, 50);
    e.set_table_border(&id, 2, "#f00");
    let t = e.table_index(&id).unwrap();
    assert_eq!(e.document.tables[t].border_width, 2);
    e.delete_table(&id);
    assert_eq!(e.get_table_dimensions(&id), None);
    assert!(e.document.paragraphs.iter().all(|p| !p.is_table()));
}

#[test]
fn layout_through_the_engine() {
    let mut e = Engine::new();
    e.set_paragraph(0, "Hello World".to_string());
    e.insert_paragraph(1, "Second paragraph".to_string());
    assert!(e.recompute_layout(&ApproxMeasure));
    assert!(!e.recompute_layout(&ApproxMeasure));
    assert_eq!(e.display_line_count(), 2);
    let (pos, page, x, y) = e.para_to_display_pos(1, 3).unwrap();
    assert_eq!((pos.line, pos.col, page, x), (1, 3, 0, 96));
    assert_eq!(y, 24 + 12);
    let p = e.display_to_para(1, 3);
    assert_eq!((p.para, p.offset), (1, 3));
    assert_eq!(e.get_page_for_position(1, 3), 0);
    e.insert_page_break(1);
    assert!(e.recompute_layout(&ApproxMeasure));
    assert_eq!(e.page_count(), 2);
}

#[test]
fn config_changes_are_validated() {
    let mut e = Engine::new();
    assert!(e.set_page_config(600, 800, 50, 50, 50, 50, 2, 20));
    assert_eq!(e.layout_config.columns, 2);
    assert!(!e.set_page_config(100, 800, 60, 60, 50, 50, 1, 0));
    assert!(!e.set_page_config(600, 800, 50, 50, 50, 50, 0, 0));
    assert_eq!(e.layout_config.page_width, 600);
    assert!(e.set_font_config(12, 120, 1, 6));
    assert_eq!(e.layout_config.line_height_px(), 14);
}

#[test]
fn loading_checks_the_document() {
    let mut e = Engine::new();
    let mut doc = Document::new();
    doc.paragraphs[0] = Paragraph::new("loaded".to_string());
    assert!(e.load_document(doc));
    assert_eq!(e.get_paragraph(0).as_deref(), Some("loaded"));
    let mut bad = Document::new();
    bad.paragraphs[0].styles.push(TextStyle::new(0, 3));
    assert!(!e.load_document(bad));
    assert_eq!(e.get_paragraph(0).as_deref(), Some("loaded"));
}

#[test]
fn click_position_finds_the_cell() {
    let mut e = Engine::new();
    let id = e.create_table(2, 2);
    // two columns of 312 units, rows of 32, borders of 1
    assert_eq!(e.get_cell_at_position(&id, 5, 5), Some((0, 0)));
    assert_eq!(e.get_cell_at_position(&id, 320, 40), Some((1, 1)));
    assert_eq!(e.get_cell_at_position(&id, 0, 5), None);
    assert_eq!(e.get_cell_at_position(&id, 5, 500), None);
    assert_eq!(e.get_cell_at_position("nope", 5, 5), None);
}

#[test]
fn table_ids_stay_distinct_after_deletes() {
    let mut e = Engine::new();
    let a = e.create_table(1, 1);
    let b = e.create_table(1, 1);
    assert_eq!((a.as_str(), b.as_str()), ("table_0", "table_1"));
    e.delete_table(&a);
    let c = e.create_table(1, 1);
    assert_ne!(c, b);
    assert_eq!(c, "table_1_");
    let ids: Vec<String> = e.document.tables.iter().map(|t| t.id.clone()).collect();
    assert_eq!(ids, vec!["table_1".to_string(), "table_1_".to_string()]);
}

#[test]
fn loading_rejects_repeated_table_ids() {
    let mut e = Engine::new();
    let mut doc = Document::new();
    doc.tables.push(editor_engine::table::DocumentTable::new("t".to_string(), 1, 1, 0));
    doc.tables.push(editor_engine::table::DocumentTable::new("t".to_string(), 1, 1, 0));
    assert!(!e.load_document(doc));
}

#[test]
fn recompute_reports_when_it_lays_out() {
    let mut e = Engine::new();
    assert!(e.recompute_layout(&ApproxMeasure));
    assert_eq!(e.display_line_count(), 1);
    assert!(!e.recompute_layout(&ApproxMeasure));
}
