use editor_engine::document::{BlockType, Document, DocumentImage, Paragraph};
use editor_engine::segments::get_styled_segments;
use editor_engine::style::{StyleChange, TextStyle};

fn bold() -> StyleChange {
    let mut c = StyleChange::new();
    c.bold = Some(true);
    c
}

#[test]
fn test_paragraph_page_break() {
    let para = Paragraph::new("\u{FFFD}".to_string());
    assert!(para.is_page_break());
}

#[test]
fn test_paragraph_not_page_break() {
    let para = Paragraph::new("regular text".to_string());
    assert!(!para.is_page_break());
}

#[test]
fn test_paragraph_image() {
    let para = Paragraph::new("\u{FFFC}image-123".to_string());
    assert!(para.is_image());
    assert_eq!(para.image_id(), Some("image-123"));
}

#[test]
fn test_paragraph_not_image() {
    let para = Paragraph::new("regular text".to_string());
    assert!(!para.is_image());
    assert_eq!(para.image_id(), None);
}

#[test]
fn test_block_type_multipliers() {
    assert_eq!(BlockType::Heading1.font_size_multiplier(), 200);
    assert_eq!(BlockType::Heading2.font_size_multiplier(), 150);
    assert_eq!(BlockType::Heading3.font_size_multiplier(), 117);
    assert_eq!(BlockType::Paragraph.font_size_multiplier(), 100);
}

#[test]
fn test_document_default() {
    let doc = Document::new();
    assert_eq!(doc.version, 1);
    assert_eq!(doc.paragraphs.len(), 1);
    assert!(doc.images.is_empty());
}

#[test]
fn test_text_style_new() {
    let style = TextStyle::new(0, 10);
    assert_eq!(style.start, 0);
    assert_eq!(style.end, 10);
    assert!(!style.bold);
    assert!(!style.italic);
    assert!(!style.has_formatting());
}

#[test]
fn test_text_style_has_formatting() {
    let mut style = TextStyle::new(0, 10);
    assert!(!style.has_formatting());

    style.bold = true;
    assert!(style.has_formatting());
}

#[test]
fn test_text_style_overlaps() {
    let style = TextStyle::new(5, 15);

    assert!(style.overlaps(0, 10));
    assert!(style.overlaps(10, 20));
    assert!(style.overlaps(7, 12));

    assert!(!style.overlaps(0, 5));
    assert!(!style.overlaps(15, 20));
}

#[test]
fn test_text_style_contains() {
    let style = TextStyle::new(5, 15);

    assert!(style.contains(5, 15));
    assert!(style.contains(7, 12));

    assert!(!style.contains(0, 10));
    assert!(!style.contains(10, 20));
}

#[test]
fn test_paragraph_apply_style() {
    let mut para = Paragraph::new("Hello World".to_string());

    para.apply_style(0, 5, &bold());

    assert_eq!(para.styles.len(), 1);
    assert!(para.styles[0].bold);
    assert_eq!(para.styles[0].start, 0);
    assert_eq!(para.styles[0].end, 5);
}

#[test]
fn test_paragraph_style_at() {
    let mut para = Paragraph::new("Hello World".to_string());
    para.apply_style(0, 5, &bold());

    assert!(para.style_at(3).is_some());
    assert!(para.style_at(3).unwrap().bold);
    assert!(para.style_at(7).is_none());
}

#[test]
fn test_image_cropped_dimensions() {
    let mut image = DocumentImage::new(
        "test".to_string(),
        "data:image/png;base64,".to_string(),
        100,
        200,
    );

    assert_eq!(image.cropped_width(), 100);
    assert_eq!(image.cropped_height(), 200);

    image.crop_left = 10;
    image.crop_right = 10;
    image.crop_top = 25;
    image.crop_bottom = 25;

    assert_eq!(image.cropped_width(), 80);
    assert_eq!(image.cropped_height(), 100);
}

#[test]
fn apply_style_twice_is_same_as_once() {
    let mut para = Paragraph::new("Hello World again".to_string());
    para.apply_style(2, 9, &bold());
    let mut italic = StyleChange::new();
    italic.italic = Some(true);
    para.apply_style(5, 14, &italic);
    let once: Vec<(usize, usize, bool, bool)> = para.styles.iter().map(|s| (s.start, s.end, s.bold, s.italic)).collect();
    para.apply_style(5, 14, &italic);
    let twice: Vec<(usize, usize, bool, bool)> = para.styles.iter().map(|s| (s.start, s.end, s.bold, s.italic)).collect();
    assert_eq!(once, twice);
    assert_eq!(once, vec![(2, 5, true, false), (5, 9, true, true), (9, 14, false, true)]);
}

#[test]
fn apply_style_joins_touching_equal_runs() {
    let mut para = Paragraph::new("abcdefghij".to_string());
    para.apply_style(0, 3, &bold());
    para.apply_style(3, 6, &bold());
    assert_eq!(para.styles.len(), 1);
    assert_eq!((para.styles[0].start, para.styles[0].end), (0, 6));
}

#[test]
fn apply_style_drops_unformatted_runs() {
    let mut para = Paragraph::new("abcdefghij".to_string());
    para.apply_style(0, 6, &bold());
    let mut plain = StyleChange::new();
    plain.bold = Some(false);
    para.apply_style(2, 4, &plain);
    let runs: Vec<(usize, usize)> = para.styles.iter().map(|s| (s.start, s.end)).collect();
    assert_eq!(runs, vec![(0, 2), (4, 6)]);
    para.apply_style(0, 10, &plain);
    assert!(para.styles.is_empty());
}

#[test]
fn apply_style_empty_range_changes_nothing() {
    let mut para = Paragraph::new("abc".to_string());
    para.apply_style(2, 2, &bold());
    para.apply_style(3, 1, &bold());
    assert!(para.styles.is_empty());
}

#[test]
fn apply_style_sets_color() {
    let mut para = Paragraph::new("abcdef".to_string());
    let mut red = StyleChange::new();
    red.color = Some(Some("#f00".to_string()));
    para.apply_style(1, 4, &red);
    assert_eq!(para.styles.len(), 1);
    assert_eq!(para.styles[0].color.as_deref(), Some("#f00"));
    let mut clear = StyleChange::new();
    clear.color = Some(None);
    para.apply_style(0, 6, &clear);
    assert!(para.styles.is_empty());
}

#[test]
fn style_at_agrees_with_styles_in_range() {
    let mut para = Paragraph::new("Hello World".to_string());
    para.apply_style(0, 5, &bold());
    for p in 0..12usize {
        let at = para.style_at(p);
        let range = para.styles_in_range(p, p + 1);
        assert_eq!(at.is_some(), !range.is_empty());
        if let Some(s) = at {
            assert_eq!(range.len(), 1);
            assert_eq!((range[0].start, range[0].end), (s.start, s.end));
        }
    }
}

#[test]
fn marker_paragraphs() {
    let table = Paragraph::new("\u{FFFB}table_0".to_string());
    assert!(table.is_table());
    assert_eq!(table.table_id(), Some("table_0"));
    assert!(!table.is_image());
    let text = Paragraph::new("\u{FFFD}x".to_string());
    assert!(!text.is_page_break());
    assert_eq!(text.table_id(), None);
}

#[test]
fn block_type_weights() {
    assert!(BlockType::Heading2.is_bold());
    assert!(!BlockType::Blockquote.is_bold());
    assert!(BlockType::Blockquote.is_italic());
    assert!(!BlockType::Paragraph.is_italic());
}

#[test]
fn styled_segments_split_at_style_boundaries() {
    let mut bold = TextStyle::new(0, 5);
    bold.bold = true;
    let mut red = TextStyle::new(3, 8);
    red.italic = true;
    red.color = Some("red".to_string());
    let styles = vec![bold, red];
    let segs = get_styled_segments("Hello World", 0, 11, &styles, "#000", BlockType::Paragraph);
    let got: Vec<(String, bool, bool, String)> =
        segs.iter().map(|s| (s.text.clone(), s.bold, s.italic, s.color.clone())).collect();
    assert_eq!(
        got,
        vec![
            ("Hel".to_string(), true, false, "#000".to_string()),
            ("lo".to_string(), true, true, "red".to_string()),
            (" Wo".to_string(), false, true, "red".to_string()),
            ("rld".to_string(), false, false, "#000".to_string()),
        ]
    );
    assert!(get_styled_segments("", 0, 0, &styles, "#000", BlockType::Paragraph).is_empty());
    let whole = get_styled_segments("abc", 4, 4, &styles, "#111", BlockType::Paragraph);
    assert_eq!(whole.len(), 1);
    assert_eq!(whole[0].text, "abc");
    assert_eq!(whole[0].color, "#111");
}

#[test]
fn styled_segments_of_a_wrapped_line() {
    let mut bold = TextStyle::new(0, 8);
    bold.bold = true;
    let segs = get_styled_segments("World", 6, 11, &vec![bold], "#000", BlockType::Paragraph);
    let got: Vec<(String, bool)> = segs.iter().map(|s| (s.text.clone(), s.bold)).collect();
    assert_eq!(got, vec![("Wo".to_string(), true), ("rld".to_string(), false)]);
}
