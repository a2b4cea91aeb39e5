use ruslin_data_uniffi::{parse_markdown, MarkdownTagRange};

fn ranges(s: &str) -> Vec<MarkdownTagRange> {
    parse_markdown(s.to_string()).expect("offsets fit the text")
}

#[test]
fn heading_spans_line() {
    assert_eq!(
        ranges("# Title"),
        vec![MarkdownTagRange::Heading { level: 1, start: 0, end: 7 }]
    );
}

#[test]
fn second_level_heading() {
    assert_eq!(
        ranges("## Sub"),
        vec![MarkdownTagRange::Heading { level: 2, start: 0, end: 6 }]
    );
}

#[test]
fn emphasis_covers_markers() {
    assert_eq!(
        ranges("*hi*"),
        vec![
            MarkdownTagRange::Paragraph { start: 0, end: 4 },
            MarkdownTagRange::Emphasis { start: 0, end: 4 },
        ]
    );
}

#[test]
fn offsets_are_code_units_after_astral_char() {
    assert_eq!(
        ranges("😀 *hi*"),
        vec![
            MarkdownTagRange::Paragraph { start: 0, end: 7 },
            MarkdownTagRange::Emphasis { start: 3, end: 7 },
        ]
    );
}

#[test]
fn strong_and_strikethrough() {
    let r = ranges("**a** ~~b~~");
    assert!(r.contains(&MarkdownTagRange::Strong { start: 0, end: 5 }));
    assert!(r.contains(&MarkdownTagRange::Strikethrough { start: 6, end: 11 }));
}

#[test]
fn nested_ordered_list() {
    let r = ranges("1. a\n   1. b\n");
    let lists: Vec<(i32, i32)> = r
        .iter()
        .filter_map(|t| match t {
            MarkdownTagRange::MList { order, nested_level, .. } => Some((*order, *nested_level)),
            _ => None,
        })
        .collect();
    assert_eq!(lists, vec![(1, 1), (1, 2)]);
    let items: Vec<(i32, bool)> = r
        .iter()
        .filter_map(|t| match t {
            MarkdownTagRange::ListItem { nested_level, ordered, .. } => Some((*nested_level, *ordered)),
            _ => None,
        })
        .collect();
    assert_eq!(items, vec![(1, true), (2, true)]);
}

#[test]
fn bullet_list_is_unordered() {
    let r = ranges("- a\n- b\n");
    assert!(matches!(
        r[0],
        MarkdownTagRange::MList { start: 0, order: 0, nested_level: 1, .. }
    ));
    let items = r
        .iter()
        .filter(|t| matches!(t, MarkdownTagRange::ListItem { nested_level: 1, ordered: false, .. }))
        .count();
    assert_eq!(items, 2);
}

#[test]
fn inline_link_url_offset() {
    let r = ranges("[text](http://x)");
    assert!(r.contains(&MarkdownTagRange::Link { start: 0, end: 16, url_offset: 7 }));
}

#[test]
fn inline_link_with_title_counts_title() {
    let r = ranges("[a](u \"t\")");
    assert!(r.contains(&MarkdownTagRange::Link { start: 0, end: 10, url_offset: 6 }));
}

#[test]
fn inline_image_url_offset() {
    let r = ranges("![alt](p.png)");
    assert!(r.contains(&MarkdownTagRange::Image { start: 0, end: 13, url_offset: 7 }));
}

#[test]
fn reference_link_dropped() {
    let r = ranges("[text][ref]\n\n[ref]: http://x\n");
    assert!(!r.iter().any(|t| matches!(t, MarkdownTagRange::Link { .. })));
    assert!(r.iter().any(|t| matches!(t, MarkdownTagRange::Paragraph { .. })));
}

#[test]
fn inline_code_and_rule() {
    assert_eq!(
        ranges("`x`"),
        vec![
            MarkdownTagRange::Paragraph { start: 0, end: 3 },
            MarkdownTagRange::InlineCode { start: 0, end: 3 },
        ]
    );
    assert_eq!(ranges("---"), vec![MarkdownTagRange::Rule { start: 0, end: 3 }]);
}

#[test]
fn task_markers_carry_state() {
    let r = ranges("- [x] a\n- [ ] b\n");
    let marks: Vec<bool> = r
        .iter()
        .filter_map(|t| match t {
            MarkdownTagRange::TaskListMarker { is_checked, .. } => Some(*is_checked),
            _ => None,
        })
        .collect();
    assert_eq!(marks, vec![true, false]);
}

#[test]
fn block_quote_and_fenced_code() {
    let r = ranges("> q\n\n```\nx\n```\n");
    assert!(matches!(r[0], MarkdownTagRange::BlockQuote { start: 0, .. }));
    assert!(r.iter().any(|t| matches!(t, MarkdownTagRange::CodeBlock { start: 5, .. })));
}

#[test]
fn indented_code_block_yields_range() {
    let r = ranges("    code\n");
    assert_eq!(r.len(), 1);
    assert!(matches!(r[0], MarkdownTagRange::CodeBlock { end: 9, .. }));
}

#[test]
fn parsing_twice_gives_same_ranges() {
    let s = "# T\n\n1. *a*\n   - [b](c)\n\n---\n";
    assert_eq!(ranges(s), ranges(s));
}

#[test]
fn empty_text_has_no_ranges() {
    assert_eq!(ranges(""), vec![]);
}

#[test]
fn outer_ordered_item_after_nested_bullet_list() {
    let r = ranges("1. a\n   - b\n2. c\n");
    let items: Vec<(i32, bool)> = r
        .iter()
        .filter_map(|t| match t {
            MarkdownTagRange::ListItem { nested_level, ordered, .. } => Some((*nested_level, *ordered)),
            _ => None,
        })
        .collect();
    assert_eq!(items, vec![(1, true), (2, false), (1, true)]);
}

#[test]
fn autolink_and_table_give_no_link_range() {
    let r = ranges("<http://x.y>\n\n| a |\n|---|\n| b |\n");
    assert!(!r.iter().any(|t| matches!(t, MarkdownTagRange::Link { .. })));
}
