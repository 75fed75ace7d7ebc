use editor_engine::document::{
    BlockType, Document, DocumentImage, HorizontalAlign, ImagePositionMode, ImageWrapStyle, ListType, Paragraph,
};
use editor_engine::layout::{
    assign_page_positions, compute_layout, display_to_para, get_float_reduction, get_page_for_position,
    layout_paragraph, para_to_display_pos, ActiveFloat, ApproxMeasure, DisplayLine, FloatSide, LayoutConfig,
    MonospaceMeasure,
};
use editor_engine::table::DocumentTable;

fn line(para: usize, start: usize, end: usize, text: &str, y: u64, last: bool) -> DisplayLine {
    DisplayLine {
        para_index: para,
        start_offset: start,
        end_offset: end,
        text: text.to_string(),
        page_index: 0,
        column_index: 0,
        x_position: 96,
        y_position: y,
        is_page_break: false,
        is_image: false,
        image_id: None,
        image_height: None,
        list_number: None,
        is_last_line: last,
        block_type: BlockType::Paragraph,
        list_type: ListType::NoList,
        float_reduction: None,
        is_table: false,
        table_id: None,
        table_layout: None,
    }
}

fn create_test_display_lines() -> Vec<DisplayLine> {
    vec![
        line(0, 0, 6, "Hello ", 0, false),
        line(0, 6, 11, "World", 24, true),
        line(1, 0, 16, "Second paragraph", 48, true),
    ]
}

/// A page whose single column is `width` units wide, with no margins.
fn narrow(width: u32, height: u32) -> LayoutConfig {
    LayoutConfig {
        page_width: width,
        page_height: height,
        margin_top: 0,
        margin_right: 0,
        margin_bottom: 0,
        margin_left: 0,
        ..LayoutConfig::default()
    }
}

#[test]
fn test_layout_config_defaults() {
    let config = LayoutConfig::default();
    assert!(config.content_width() > 0);
    assert!(config.content_height() > 0);
}

#[test]
fn test_column_width_single() {
    let config = LayoutConfig { columns: 1, ..LayoutConfig::default() };
    assert_eq!(config.column_width(), config.content_width());
}

#[test]
fn test_column_width_double() {
    let config = LayoutConfig { columns: 2, column_gap: 48, ..LayoutConfig::default() };
    let expected = (config.content_width() - 48) / 2;
    assert_eq!(config.column_width(), expected);
}

#[test]
fn test_line_height_px() {
    let config = LayoutConfig { font_size: 16, line_height: 150, ..LayoutConfig::default() };
    assert_eq!(config.line_height_px(), 24);
}

#[test]
fn test_content_dimensions() {
    let config = LayoutConfig {
        page_width: 816,
        page_height: 1056,
        margin_top: 96,
        margin_right: 96,
        margin_bottom: 96,
        margin_left: 96,
        ..LayoutConfig::default()
    };
    assert_eq!(config.content_width(), 816 - 96 - 96);
    assert_eq!(config.content_height(), 1056 - 96 - 96);
}

#[test]
fn test_para_to_display_pos_first_line() {
    let lines = create_test_display_lines();
    let pos = para_to_display_pos(&lines, 0, 3);
    assert_eq!(pos.line, 0);
    assert_eq!(pos.col, 3);
}

#[test]
fn test_para_to_display_pos_wrapped_line() {
    let lines = create_test_display_lines();
    let pos = para_to_display_pos(&lines, 0, 8);
    assert_eq!(pos.line, 1);
    assert_eq!(pos.col, 2);
}

#[test]
fn test_para_to_display_pos_second_paragraph() {
    let lines = create_test_display_lines();
    let pos = para_to_display_pos(&lines, 1, 7);
    assert_eq!(pos.line, 2);
    assert_eq!(pos.col, 7);
}

#[test]
fn test_display_to_para_first_line() {
    let lines = create_test_display_lines();
    let pos = display_to_para(&lines, 0, 3);
    assert_eq!(pos.para, 0);
    assert_eq!(pos.offset, 3);
}

#[test]
fn test_display_to_para_wrapped_line() {
    let lines = create_test_display_lines();
    let pos = display_to_para(&lines, 1, 2);
    assert_eq!(pos.para, 0);
    assert_eq!(pos.offset, 8);
}

#[test]
fn test_display_to_para_second_paragraph() {
    let lines = create_test_display_lines();
    let pos = display_to_para(&lines, 2, 7);
    assert_eq!(pos.para, 1);
    assert_eq!(pos.offset, 7);
}

#[test]
fn test_display_to_para_beyond_end() {
    let lines = create_test_display_lines();
    let pos = display_to_para(&lines, 100, 5);
    assert_eq!(pos.para, 1);
    // the line is clamped to the last one, then the column into its text
    assert_eq!(pos.offset, 5);
    let end = display_to_para(&lines, 100, 50);
    assert_eq!(end.offset, 16);
}

#[test]
fn test_get_page_for_position() {
    let lines = create_test_display_lines();
    let page = get_page_for_position(&lines, 0, 3);
    assert_eq!(page, 0);
}

#[test]
fn test_display_position_empty_lines() {
    let lines: Vec<DisplayLine> = vec![];
    let pos = para_to_display_pos(&lines, 0, 0);
    assert_eq!(pos.line, 0);
    assert_eq!(pos.col, 0);
}

#[test]
fn position_round_trip_on_every_offset() {
    let lines = create_test_display_lines();
    for (para, len) in [(0usize, 11usize), (1, 16)] {
        for o in 0..=len {
            let d = para_to_display_pos(&lines, para, o);
            let p = display_to_para(&lines, d.line, d.col);
            assert_eq!((p.para, p.offset), (para, o));
        }
    }
}

#[test]
fn display_to_para_clamps_column() {
    let lines = create_test_display_lines();
    let pos = display_to_para(&lines, 1, 50);
    assert_eq!((pos.para, pos.offset), (0, 11));
    let empty: Vec<DisplayLine> = vec![];
    let p = display_to_para(&empty, 3, 3);
    assert_eq!((p.para, p.offset), (0, 0));
}

#[test]
fn para_to_display_pos_falls_back_to_last_line() {
    let lines = create_test_display_lines();
    let pos = para_to_display_pos(&lines, 7, 2);
    assert_eq!((pos.line, pos.col), (2, 16));
}

#[test]
fn hello_world_wraps_after_the_space() {
    let mut doc = Document::new();
    doc.paragraphs[0] = Paragraph::new("Hello World".to_string());
    let config = narrow(60, 1000);
    let m = MonospaceMeasure { char_width: 10 };
    let lines = compute_layout(&doc, &config, &m);
    assert_eq!(lines.len(), 2);
    assert_eq!((lines[0].start_offset, lines[0].end_offset), (0, 6));
    assert_eq!(lines[0].text, "Hello ");
    assert!(!lines[0].is_last_line);
    assert_eq!((lines[1].start_offset, lines[1].end_offset), (6, 11));
    assert_eq!(lines[1].text, "World");
    assert!(lines[1].is_last_line);
    assert_eq!((lines[0].y_position, lines[1].y_position), (0, 24));
}

#[test]
fn unbreakable_word_is_cut_mid_word() {
    let mut doc = Document::new();
    doc.paragraphs[0] = Paragraph::new("abcdefgh".to_string());
    let config = narrow(30, 1000);
    let m = MonospaceMeasure { char_width: 10 };
    let lines = compute_layout(&doc, &config, &m);
    let ranges: Vec<(usize, usize)> = lines.iter().map(|l| (l.start_offset, l.end_offset)).collect();
    assert_eq!(ranges, vec![(0, 3), (3, 6), (6, 8)]);
}

#[test]
fn letter_spacing_counts_between_characters() {
    let mut doc = Document::new();
    doc.paragraphs[0] = Paragraph::new("ab cd".to_string());
    let mut config = narrow(50, 1000);
    config.letter_spacing = 1;
    let m = MonospaceMeasure { char_width: 10 };
    let lines = compute_layout(&doc, &config, &m);
    // "ab cd" measures 50 + 4 > 50, so it breaks after the space
    assert_eq!(lines.len(), 2);
    assert_eq!(lines[0].end_offset, 3);
}

#[test]
fn move_with_text_float_narrows_exactly_its_lines() {
    let mut doc = Document::new();
    let mut image = DocumentImage::new("img".to_string(), "src".to_string(), 20, 48);
    image.wrap_style = ImageWrapStyle::Square;
    image.horizontal_align = HorizontalAlign::Right;
    doc.images.push(image);
    doc.paragraphs[0] = Paragraph::new("\u{FFFC}img".to_string());
    doc.paragraphs.push(Paragraph::new("aa bb cc dd ee ff gg hh".to_string()));
    let config = narrow(60, 10000);
    let m = MonospaceMeasure { char_width: 10 };
    let lines = compute_layout(&doc, &config, &m);
    assert!(lines[0].is_image);
    assert_eq!(lines[0].image_height, Some(0));
    for (i, l) in lines.iter().enumerate() {
        let expect = i == 1 || i == 2;
        assert_eq!(l.float_reduction.is_some(), expect, "line {}", i);
        if let Some(f) = l.float_reduction {
            assert_eq!(f.side, FloatSide::Right);
            assert_eq!(f.width, 20);
            assert_eq!(f.float_x, 40);
        }
    }
    // beside the float 60 - 30 = 30 units are left: three characters
    assert_eq!((lines[1].start_offset, lines[1].end_offset), (0, 3));
    assert_eq!((lines[3].start_offset, lines[3].end_offset), (6, 12));
}

#[test]
fn float_lookup_by_line_and_by_height() {
    let by_line = ActiveFloat {
        id: "a".to_string(),
        start_line: 1,
        end_line: 3,
        width: 20,
        side: FloatSide::Left,
        page_index: None,
        y_start: None,
        y_end: None,
        x_position: None,
    };
    let floats = vec![by_line];
    for i in 0..6usize {
        let r = get_float_reduction(&floats, i, i as i128 * 24, 24, 100);
        assert_eq!(r.is_some(), i == 1 || i == 2);
    }
    let fixed = ActiveFloat {
        id: "b".to_string(),
        start_line: 0,
        end_line: 0,
        width: 30,
        side: FloatSide::Right,
        page_index: Some(0),
        y_start: Some(100),
        y_end: Some(150),
        x_position: Some(70),
    };
    let floats = vec![fixed];
    assert!(get_float_reduction(&floats, 0, 76, 24, 100).is_none());
    let hit = get_float_reduction(&floats, 0, 77, 24, 100).unwrap();
    assert_eq!((hit.width, hit.float_x), (30, 70));
    assert!(get_float_reduction(&floats, 0, 149, 24, 100).is_some());
    assert!(get_float_reduction(&floats, 0, 150, 24, 100).is_none());
}

#[test]
fn overflowing_line_moves_to_next_column_then_page() {
    let mut lines = vec![
        line(0, 0, 1, "a", 0, false),
        line(0, 1, 2, "b", 0, false),
        line(0, 2, 3, "c", 0, false),
        line(0, 3, 4, "d", 0, true),
    ];
    let config = LayoutConfig {
        page_width: 100,
        page_height: 50,
        margin_top: 0,
        margin_right: 0,
        margin_bottom: 0,
        margin_left: 0,
        columns: 2,
        column_gap: 10,
        paragraph_spacing: 0,
        ..LayoutConfig::default()
    };
    assign_page_positions(&mut lines, &config);
    let placed: Vec<(usize, usize, u64, u64)> =
        lines.iter().map(|l| (l.page_index, l.column_index, l.x_position, l.y_position)).collect();
    assert_eq!(placed, vec![(0, 0, 0, 0), (0, 0, 0, 24), (0, 1, 55, 0), (0, 1, 55, 24)]);
    let mut more: Vec<DisplayLine> = (0..5).map(|_| line(0, 0, 1, "a", 0, false)).collect();
    assign_page_positions(&mut more, &config);
    assert_eq!((more[4].page_index, more[4].column_index, more[4].y_position), (1, 0, 0));
}

#[test]
fn page_break_forces_a_new_page() {
    let mut doc = Document::new();
    doc.paragraphs[0] = Paragraph::new("one".to_string());
    doc.paragraphs.push(Paragraph::new("\u{FFFD}".to_string()));
    doc.paragraphs.push(Paragraph::new("two".to_string()));
    let lines = compute_layout(&doc, &LayoutConfig::default(), &ApproxMeasure);
    assert_eq!(lines.len(), 3);
    assert!(lines[1].is_page_break);
    assert_eq!(lines[1].page_index, 0);
    assert_eq!((lines[2].page_index, lines[2].y_position), (1, 0));
}

#[test]
fn numbered_list_counts_and_resets() {
    let doc = Document::new();
    let config = LayoutConfig::default();
    let mut floats: Vec<ActiveFloat> = Vec::new();
    let mut counter = 0usize;
    let mut numbered = Paragraph::new("item".to_string());
    numbered.meta.list_type = ListType::Numbered;
    let mut bullet = Paragraph::new("dot".to_string());
    bullet.meta.list_type = ListType::Bullet;
    let plain = Paragraph::new("text".to_string());
    let a = layout_paragraph(0, &numbered, &doc, &config, &ApproxMeasure, &mut floats, &mut counter, 0);
    let b = layout_paragraph(1, &numbered, &doc, &config, &ApproxMeasure, &mut floats, &mut counter, 1);
    let c = layout_paragraph(2, &bullet, &doc, &config, &ApproxMeasure, &mut floats, &mut counter, 2);
    let d = layout_paragraph(3, &numbered, &doc, &config, &ApproxMeasure, &mut floats, &mut counter, 3);
    let _ = layout_paragraph(4, &numbered, &doc, &config, &ApproxMeasure, &mut floats, &mut counter, 4);
    let _ = layout_paragraph(5, &plain, &doc, &config, &ApproxMeasure, &mut floats, &mut counter, 5);
    let e = layout_paragraph(6, &numbered, &doc, &config, &ApproxMeasure, &mut floats, &mut counter, 6);
    assert_eq!(a[0].list_number, Some(1));
    assert_eq!(b[0].list_number, Some(2));
    assert_eq!(c[0].list_number, None);
    assert_eq!(d[0].list_number, Some(1));
    assert_eq!(e[0].list_number, Some(1));
}

#[test]
fn missing_image_keeps_its_range_without_height() {
    let mut doc = Document::new();
    doc.paragraphs[0] = Paragraph::new("\u{FFFC}gone".to_string());
    doc.paragraphs.push(Paragraph::new("after".to_string()));
    let lines = compute_layout(&doc, &LayoutConfig::default(), &ApproxMeasure);
    assert_eq!(lines.len(), 2);
    assert!(lines[0].is_image);
    assert_eq!((lines[0].start_offset, lines[0].end_offset), (0, 5));
    assert_eq!(lines[0].image_height, Some(0));
    assert_eq!(lines[1].y_position, 0);
    let pos = para_to_display_pos(&lines, 0, 2);
    assert_eq!(pos.line, 0);
}

#[test]
fn inline_image_reserves_whole_lines() {
    let mut doc = Document::new();
    doc.images.push(DocumentImage::new("i".to_string(), "s".to_string(), 50, 50));
    doc.paragraphs[0] = Paragraph::new("\u{FFFC}i".to_string());
    doc.paragraphs.push(Paragraph::new("x".to_string()));
    let lines = compute_layout(&doc, &LayoutConfig::default(), &ApproxMeasure);
    assert_eq!(lines[0].image_height, Some(3));
    assert_eq!(lines[1].y_position, 3 * 24 + 12);
}

#[test]
fn table_paragraph_lays_out_its_table() {
    let mut doc = Document::new();
    let mut t = DocumentTable::new("tb".to_string(), 2, 2, 0);
    t.rows[0].cells[0].text = "one\ntwo".to_string();
    doc.tables.push(t);
    doc.paragraphs[0] = Paragraph::new("\u{FFFB}tb".to_string());
    let lines = compute_layout(&doc, &LayoutConfig::default(), &ApproxMeasure);
    assert_eq!(lines.len(), 1);
    assert!(lines[0].is_table);
    let tl = lines[0].table_layout.as_ref().unwrap();
    assert_eq!(tl.column_widths, vec![310, 310]);
    assert_eq!(tl.cell_lines[0][0], vec!["one".to_string(), "two".to_string()]);
    assert_eq!(tl.cell_lines[1][1], vec![String::new()]);
    assert_eq!(tl.row_heights, vec![2 * 24 + 8, 24 + 8]);
    assert_eq!(tl.total_height, 56 + 32 + 3);
    assert_eq!(lines[0].image_height, Some(4));
}

#[test]
fn empty_paragraph_is_one_empty_line() {
    let doc = Document::new();
    let lines = compute_layout(&doc, &LayoutConfig::default(), &ApproxMeasure);
    assert_eq!(lines.len(), 1);
    assert_eq!((lines[0].start_offset, lines[0].end_offset), (0, 0));
    assert!(lines[0].is_last_line);
    assert_eq!(lines[0].x_position, 96);
}

#[test]
fn fixed_float_narrows_the_lines_it_overlaps_by_height() {
    let mut doc = Document::new();
    let mut image = DocumentImage::new("fx".to_string(), "src".to_string(), 20, 48);
    image.wrap_style = ImageWrapStyle::Tight;
    image.position_mode = ImagePositionMode::FixedPosition;
    image.x = Some(0);
    image.y = Some(24);
    doc.images.push(image);
    doc.paragraphs[0] = Paragraph::new("\u{FFFC}fx".to_string());
    doc.paragraphs.push(Paragraph::new("aa bb cc dd ee ff gg hh".to_string()));
    let config = narrow(60, 10000);
    let lines = compute_layout(&doc, &config, &MonospaceMeasure { char_width: 10 });
    assert_eq!(lines[0].image_height, Some(0));
    for (i, l) in lines.iter().enumerate() {
        assert_eq!(l.float_reduction.is_some(), i == 1 || i == 2, "line {}", i);
        if let Some(f) = l.float_reduction {
            assert_eq!((f.side, f.float_x), (FloatSide::Left, 0));
        }
    }
}

#[test]
fn behind_and_in_front_images_take_no_height() {
    let mut doc = Document::new();
    let mut image = DocumentImage::new("b".to_string(), "src".to_string(), 20, 100);
    image.wrap_style = ImageWrapStyle::Behind;
    doc.images.push(image);
    doc.paragraphs[0] = Paragraph::new("\u{FFFC}b".to_string());
    doc.paragraphs.push(Paragraph::new("x".to_string()));
    let lines = compute_layout(&doc, &LayoutConfig::default(), &ApproxMeasure);
    assert_eq!(lines[0].image_height, Some(0));
    assert_eq!(lines[1].y_position, 0);
    assert!(lines[1].float_reduction.is_none());
}

#[test]
fn fixed_floats_are_looked_up_before_line_floats() {
    let line_float = ActiveFloat {
        id: "l".to_string(),
        start_line: 0,
        end_line: 5,
        width: 10,
        side: FloatSide::Left,
        page_index: None,
        y_start: None,
        y_end: None,
        x_position: None,
    };
    let fixed = ActiveFloat {
        id: "f".to_string(),
        start_line: 0,
        end_line: 0,
        width: 30,
        side: FloatSide::Right,
        page_index: Some(0),
        y_start: Some(0),
        y_end: Some(100),
        x_position: Some(3),
    };
    let floats = vec![line_float, fixed];
    let hit = get_float_reduction(&floats, 1, 24, 24, 100).unwrap();
    assert_eq!((hit.side, hit.width, hit.float_x), (FloatSide::Right, 30, 70));
    let below = get_float_reduction(&floats, 4, 200, 24, 100).unwrap();
    assert_eq!((below.side, below.width, below.float_x), (FloatSide::Left, 10, 0));
}

#[test]
fn row_spanning_cell_gets_the_height_it_needs() {
    let mut t = DocumentTable::new("span".to_string(), 3, 2, 0);
    t.rows[0].cells[0].text = "a\nb\nc\nd".to_string();
    assert!(t.merge_cells(0, 0, 1, 0));
    let tl = editor_engine::layout::compute_table_layout(&t, &LayoutConfig::default(), &ApproxMeasure);
    // four lines need 4 * 24 + 8 = 104; two rows of 32 and a border give 65,
    // so each row takes half of the 39 missing, rounded up
    assert_eq!(tl.row_heights, vec![52, 52, 32]);
    assert!(tl.row_heights[0] + tl.row_heights[1] + 1 >= 104);
    assert_eq!(tl.total_height, 52 + 52 + 32 + 4);
}
