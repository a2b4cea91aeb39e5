use ruslin_data_uniffi::assemble::events_fit_table;
use ruslin_data_uniffi::assemble::{CodeKind, LinkKind};
use ruslin_data_uniffi::{assemble, utf16_offsets, ListState, MarkdownTagRange, MdEvent, MdTag, SourceEvent};

fn ev(event: MdEvent, start: usize, end: usize) -> SourceEvent {
    SourceEvent { event, start, end }
}

fn nested_lists() -> Vec<SourceEvent> {
    vec![
        ev(MdEvent::Start(MdTag::List(Some(3))), 0, 10),
        ev(MdEvent::Start(MdTag::Item), 0, 5),
        ev(MdEvent::Start(MdTag::List(None)), 2, 5),
        ev(MdEvent::Start(MdTag::Item), 2, 5),
        ev(MdEvent::Text, 3, 5),
        ev(MdEvent::End(MdTag::Item), 2, 5),
        ev(MdEvent::End(MdTag::List(None)), 2, 5),
        ev(MdEvent::End(MdTag::Item), 0, 5),
        ev(MdEvent::Start(MdTag::Item), 5, 10),
        ev(MdEvent::End(MdTag::Item), 5, 10),
        ev(MdEvent::End(MdTag::List(Some(3))), 0, 10),
    ]
}

#[test]
fn nested_lists_track_depth_and_order() {
    let table = utf16_offsets("0123456789");
    let r = assemble(&table, &nested_lists());
    assert_eq!(
        r,
        vec![
            MarkdownTagRange::MList { start: 0, end: 10, order: 3, nested_level: 1 },
            MarkdownTagRange::ListItem { start: 0, end: 5, nested_level: 1, ordered: true },
            MarkdownTagRange::MList { start: 2, end: 5, order: 0, nested_level: 2 },
            MarkdownTagRange::ListItem { start: 2, end: 5, nested_level: 2, ordered: false },
            MarkdownTagRange::ListItem { start: 5, end: 10, nested_level: 1, ordered: true },
        ]
    );
}

#[test]
fn balanced_stream_returns_depth_to_zero() {
    let table = utf16_offsets("0123456789");
    let mut state = ListState::new();
    for e in nested_lists() {
        state.apply(&table, &e);
        assert!(state.depth >= 0);
        assert_eq!(state.open.len(), state.depth as usize);
    }
    assert_eq!(state.depth, 0);
    assert!(!state.innermost_ordered());
}

#[test]
fn offsets_translate_through_table() {
    let table = utf16_offsets("😀ab");
    let r = assemble(&table, &vec![ev(MdEvent::Start(MdTag::Emphasis), 4, 6), ev(MdEvent::Rule, 0, 4)]);
    assert_eq!(
        r,
        vec![
            MarkdownTagRange::Emphasis { start: 2, end: 4 },
            MarkdownTagRange::Rule { start: 0, end: 2 },
        ]
    );
}

#[test]
fn non_inline_links_and_end_events_are_dropped() {
    let table = utf16_offsets("[a][b] <http://x>");
    let r = assemble(
        &table,
        &vec![
            ev(MdEvent::Start(MdTag::Link(LinkKind::Reference, 8, 0)), 0, 6),
            ev(MdEvent::End(MdTag::Link(LinkKind::Reference, 8, 0)), 0, 6),
            ev(MdEvent::Start(MdTag::Image(LinkKind::Autolink, 8, 0)), 7, 17),
            ev(MdEvent::Start(MdTag::Link(LinkKind::Email, 8, 0)), 7, 17),
            ev(MdEvent::Start(MdTag::Link(LinkKind::Shortcut, 1, 0)), 0, 3),
            ev(MdEvent::Start(MdTag::Link(LinkKind::Collapsed, 1, 0)), 0, 3),
            ev(MdEvent::Start(MdTag::Table), 0, 17),
            ev(MdEvent::Start(MdTag::TableCell), 0, 17),
            ev(MdEvent::Start(MdTag::FootnoteDefinition), 0, 17),
            ev(MdEvent::Text, 0, 17),
            ev(MdEvent::Html, 0, 17),
            ev(MdEvent::SoftBreak, 0, 17),
            ev(MdEvent::HardBreak, 0, 17),
            ev(MdEvent::FootnoteReference, 0, 17),
        ],
    );
    assert_eq!(r, vec![]);
}

#[test]
fn link_url_offset_counts_back_from_end() {
    let table = utf16_offsets("é[t](uv \"ab\")");
    let r = assemble(
        &table,
        &vec![
            ev(MdEvent::Start(MdTag::Link(LinkKind::Inline, 2, 0)), 2, 9),
            ev(MdEvent::Start(MdTag::Image(LinkKind::Inline, 2, 2)), 2, 14),
        ],
    );
    assert_eq!(
        r,
        vec![
            MarkdownTagRange::Link { start: 1, end: 8, url_offset: 5 },
            MarkdownTagRange::Image { start: 1, end: 13, url_offset: 7 },
        ]
    );
}

#[test]
fn leaf_events_yield_ranges() {
    let table = utf16_offsets("abcdef");
    let r = assemble(
        &table,
        &vec![
            ev(MdEvent::Code, 0, 3),
            ev(MdEvent::TaskListMarker(true), 1, 2),
            ev(MdEvent::Start(MdTag::Heading(3)), 0, 6),
            ev(MdEvent::Start(MdTag::BlockQuote), 0, 6),
            ev(MdEvent::Start(MdTag::CodeBlock(CodeKind::Fenced)), 2, 6),
            ev(MdEvent::Start(MdTag::Strong), 1, 5),
            ev(MdEvent::Start(MdTag::Strikethrough), 1, 4),
            ev(MdEvent::Start(MdTag::Paragraph), 0, 6),
        ],
    );
    assert_eq!(
        r,
        vec![
            MarkdownTagRange::InlineCode { start: 0, end: 3 },
            MarkdownTagRange::TaskListMarker { start: 1, end: 2, is_checked: true },
            MarkdownTagRange::Heading { level: 3, start: 0, end: 6 },
            MarkdownTagRange::BlockQuote { start: 0, end: 6 },
            MarkdownTagRange::CodeBlock { start: 2, end: 6 },
            MarkdownTagRange::Strong { start: 1, end: 5 },
            MarkdownTagRange::Strikethrough { start: 1, end: 4 },
            MarkdownTagRange::Paragraph { start: 0, end: 6 },
        ]
    );
}

#[test]
fn unfit_events_are_detected() {
    assert!(events_fit_table(4, &vec![ev(MdEvent::Text, 0, 3)]));
    assert!(!events_fit_table(4, &vec![ev(MdEvent::Text, 0, 4)]));
    assert!(!events_fit_table(4, &vec![ev(MdEvent::Start(MdTag::Link(LinkKind::Inline, 3, 0)), 0, 3)]));
    assert!(events_fit_table(4, &vec![ev(MdEvent::Start(MdTag::Link(LinkKind::Inline, 2, 0)), 0, 3)]));
    assert!(!events_fit_table(8, &vec![ev(MdEvent::Start(MdTag::Image(LinkKind::Inline, 2, 3)), 0, 6)]));
    assert!(events_fit_table(8, &vec![ev(MdEvent::Start(MdTag::Link(LinkKind::Reference, 9, 9)), 0, 6)]));
}

#[test]
fn outer_item_after_inner_list_keeps_outer_order() {
    let table = utf16_offsets("0123456789");
    let r = assemble(
        &table,
        &vec![
            ev(MdEvent::Start(MdTag::List(None)), 0, 10),
            ev(MdEvent::Start(MdTag::Item), 0, 6),
            ev(MdEvent::Start(MdTag::List(Some(2))), 2, 6),
            ev(MdEvent::Start(MdTag::Item), 2, 6),
            ev(MdEvent::End(MdTag::Item), 2, 6),
            ev(MdEvent::End(MdTag::List(Some(2))), 2, 6),
            ev(MdEvent::End(MdTag::Item), 0, 6),
            ev(MdEvent::Start(MdTag::Item), 6, 10),
            ev(MdEvent::End(MdTag::Item), 6, 10),
            ev(MdEvent::End(MdTag::List(None)), 0, 10),
            ev(MdEvent::Start(MdTag::Item), 0, 1),
        ],
    );
    let items: Vec<(i32, bool)> = r
        .iter()
        .filter_map(|t| match t {
            MarkdownTagRange::ListItem { nested_level, ordered, .. } => Some((*nested_level, *ordered)),
            _ => None,
        })
        .collect();
    assert_eq!(items, vec![(1, false), (2, true), (1, false), (0, false)]);
}

#[test]
fn indented_and_fenced_code_blocks_both_yield_ranges() {
    let table = utf16_offsets("    x\n```\ny\n```");
    let r = assemble(
        &table,
        &vec![
            ev(MdEvent::Start(MdTag::CodeBlock(CodeKind::Indented)), 4, 6),
            ev(MdEvent::End(MdTag::CodeBlock(CodeKind::Indented)), 4, 6),
            ev(MdEvent::Start(MdTag::CodeBlock(CodeKind::Fenced)), 6, 15),
        ],
    );
    assert_eq!(
        r,
        vec![
            MarkdownTagRange::CodeBlock { start: 4, end: 6 },
            MarkdownTagRange::CodeBlock { start: 6, end: 15 },
        ]
    );
}
