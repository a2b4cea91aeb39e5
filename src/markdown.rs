//! The whole pass over a markdown text, with pulldown-cmark as tokenizer.
use crate::assemble::{
    assemble, depth_after, lemma_balanced_list_levels, lists_balanced, event_fits, innermost_ordered, open_after, events_fit, events_fit_table, lemma_ranges_from_events,
    lemma_tag_range_offsets, link_fits, range_at, range_end, range_start, ranges_of, CodeKind,
    LinkKind, MarkdownTagRange, MdEvent, MdTag, SourceEvent,
};
use crate::offsets::{
    byte_len, lemma_ascii_identity, lemma_ascii_lens, lemma_table_span, lemma_table_monotone, lemma_table_shape, lemma_usize_entry,
    offset_table, unit_len, usize_table, utf16_offsets,
};
use vstd::string::StringSliceAdditionalSpecFns;
use vstd::utf8::encode_utf8;
use pulldown_cmark::{CodeBlockKind, Event, LinkType, Tag};
use vstd::prelude::*;

verus! {

/// `pulldown_cmark::Event`, carried opaque into the conversion below.
#[verifier::external_type_specification]
#[verifier::external_body]
pub struct ExEvent<'a>(Event<'a>);

/// `pulldown_cmark::Tag`, carried opaque into the conversion below.
#[verifier::external_type_specification]
#[verifier::external_body]
pub struct ExTag<'a>(Tag<'a>);

/// `pulldown_cmark::CodeBlockKind`, carried opaque into the conversion below.
#[verifier::external_type_specification]
#[verifier::external_body]
pub struct ExCodeBlockKind<'a>(CodeBlockKind<'a>);

/// `pulldown_cmark::LinkType`, carried opaque into the conversion below.
#[verifier::external_type_specification]
#[verifier::external_body]
pub struct ExLinkType(LinkType);

/// The events, with byte ranges, that pulldown-cmark yields for a text with
/// all of its extensions on.
pub uninterp spec fn markdown_events(s: Seq<char>) -> Seq<SourceEvent>;

/// Relies on `pulldown_cmark::Parser::new_ext` with `Options::all()` and on
/// `Parser::into_offset_iter`: the event stream of the text, each event with
/// its byte range, a range of the source text. The stream depends on the
/// text alone. The events walk the document tree in preorder, so start and
/// end events are balanced (as `Event::Start` documents) and list starts and
/// ends nest as brackets.
#[verifier::external_body]
fn tokenize(s: &str) -> (r: Vec<SourceEvent>)
    ensures
        r@ == markdown_events(s@),
        forall|i: int|
            0 <= i < r@.len() ==> #[trigger] r@[i].start <= r@[i].end <= s.spec_bytes().len(),
        lists_balanced(r@),
{
    let parser = pulldown_cmark::Parser::new_ext(s, pulldown_cmark::Options::all());
    parser.into_offset_iter().map(|(e, r)| SourceEvent { event: event_of(e), start: r.start, end: r.end }).collect()
}

/// The conversion half of `tokenize`: relies on the variants of
/// `pulldown_cmark::Event`, one arm each, fields moved over.
#[verifier::external_body]
fn event_of(e: Event) -> MdEvent {
    match e {
        Event::Start(t) => MdEvent::Start(tag_of(t)),
        Event::End(t) => MdEvent::End(tag_of(t)),
        Event::Text(_) => MdEvent::Text,
        Event::Code(_) => MdEvent::Code,
        Event::Html(_) => MdEvent::Html,
        Event::FootnoteReference(_) => MdEvent::FootnoteReference,
        Event::SoftBreak => MdEvent::SoftBreak,
        Event::HardBreak => MdEvent::HardBreak,
        Event::Rule => MdEvent::Rule,
        Event::TaskListMarker(checked) => MdEvent::TaskListMarker(checked),
    }
}

/// The conversion half of `tokenize` for block tags: relies on the variants
/// of `pulldown_cmark::Tag`, one arm each, and on `HeadingLevel`'s values 1
/// to 6. `inline_tag_of` takes the variants not listed here.
#[verifier::external_body]
fn tag_of(t: Tag) -> MdTag {
    match t {
        Tag::Paragraph => MdTag::Paragraph,
        Tag::Heading(level, _, _) => MdTag::Heading(level as i32),
        Tag::BlockQuote => MdTag::BlockQuote,
        Tag::CodeBlock(kind) => MdTag::CodeBlock(code_kind_of(kind)),
        Tag::List(order) => MdTag::List(order),
        Tag::Item => MdTag::Item,
        Tag::FootnoteDefinition(_) => MdTag::FootnoteDefinition,
        Tag::Table(_) => MdTag::Table,
        other => inline_tag_of(other),
    }
}

/// The conversion half of `tokenize` for table rows and cells and inline
/// tags: relies on the variants of `pulldown_cmark::Tag`, one arm each;
/// `tag_of` takes the variants not listed here.
#[verifier::external_body]
fn inline_tag_of(t: Tag) -> MdTag {
    match t {
        Tag::TableHead => MdTag::TableHead,
        Tag::TableRow => MdTag::TableRow,
        Tag::TableCell => MdTag::TableCell,
        Tag::Emphasis => MdTag::Emphasis,
        Tag::Strong => MdTag::Strong,
        Tag::Strikethrough => MdTag::Strikethrough,
        Tag::Link(k, u, t) => MdTag::Link(link_kind_of(k), u.len(), t.len()),
        Tag::Image(k, u, t) => MdTag::Image(link_kind_of(k), u.len(), t.len()),
        other => tag_of(other),
    }
}

/// The conversion half of `tokenize` for code blocks: relies on the variants
/// of `pulldown_cmark::CodeBlockKind`, one arm each.
#[verifier::external_body]
fn code_kind_of(k: CodeBlockKind) -> CodeKind {
    match k {
        CodeBlockKind::Indented => CodeKind::Indented,
        CodeBlockKind::Fenced(_) => CodeKind::Fenced,
    }
}

/// The conversion half of `tokenize` for links: relies on the variants of
/// `pulldown_cmark::LinkType`, one arm each.
#[verifier::external_body]
fn link_kind_of(k: LinkType) -> LinkKind {
    match k {
        LinkType::Inline => LinkKind::Inline,
        LinkType::Reference => LinkKind::Reference,
        LinkType::ReferenceUnknown => LinkKind::ReferenceUnknown,
        LinkType::Collapsed => LinkKind::Collapsed,
        LinkType::CollapsedUnknown => LinkKind::CollapsedUnknown,
        LinkType::Shortcut => LinkKind::Shortcut,
        LinkType::ShortcutUnknown => LinkKind::ShortcutUnknown,
        LinkType::Autolink => LinkKind::Autolink,
        LinkType::Email => LinkKind::Email,
    }
}

/// The tag ranges of a markdown text, or `None` where the tokenizer asks
/// for an offset that the text's offset table does not hold.
pub open spec fn markdown_tag_ranges(s: Seq<char>) -> Option<Seq<MarkdownTagRange>> {
    let table = usize_table(s);
    let evs = markdown_events(s);
    if events_fit(table.len() as int, evs) {
        Some(ranges_of(table, evs))
    } else {
        None
    }
}

/// The tokenizer's events of a text are few enough for the list depth to
/// stay within `i32`, and each inline link or image fits before its end.
pub open spec fn links_fit_text(s: Seq<char>) -> bool {
    let evs = markdown_events(s);
    &&& evs.len() < i32::MAX
    &&& forall|i: int| 0 <= i < evs.len() ==> link_fits(#[trigger] evs[i])
}

/// Extracts the structural tag ranges of a markdown text, located in UTF-16
/// code units, in the order of the tokenizer's events. The result is `None`
/// only where an inline link's destination would start before the text or
/// the events overflow the list depth.
pub fn parse_markdown(s: String) -> (r: Option<Vec<MarkdownTagRange>>)
    ensures
        match r {
            Some(v) => markdown_tag_ranges(s@) == Some(v@),
            None => markdown_tag_ranges(s@) is None,
        },
        r is Some <==> links_fit_text(s@),
        events_forward(s@),
        lists_balanced(markdown_events(s@)),
{
    let text = s.as_str();
    let table = utf16_offsets(text);
    let events = tokenize(text);
    proof {
        lemma_table_shape(s@);
        let evs = events@;
        assert(text.spec_bytes() == encode_utf8(s@));
        assert(events_fit(table@.len() as int, evs) <==> links_fit_text(s@)) by {
            if links_fit_text(s@) {
                assert forall|i: int| 0 <= i < evs.len() implies event_fits(
                    table@.len() as int,
                    #[trigger] evs[i],
                ) by {
                    assert(evs[i].start <= evs[i].end);
                    assert(link_fits(evs[i]));
                }
            }
            if events_fit(table@.len() as int, evs) {
                assert forall|i: int| 0 <= i < evs.len() implies link_fits(#[trigger] evs[i]) by {
                    assert(event_fits(table@.len() as int, evs[i]));
                }
            }
        }
    }
    if events_fit_table(table.len(), &events) {
        Some(assemble(&table, &events))
    } else {
        None
    }
}

/// The tokenizer's ranges run forward, as `tokenize` states of its result.
pub open spec fn events_forward(s: Seq<char>) -> bool {
    forall|i: int|
        0 <= i < markdown_events(s).len() ==> #[trigger] markdown_events(s)[i].start
            <= markdown_events(s)[i].end
}

/// Each range of a text's result starts and ends at the table's entries for
/// the byte offsets of the event that yields it, and lies within the text:
/// `0 <= start <= end <=` its UTF-16 length.
pub proof fn lemma_parse_ranges_in_text(s: Seq<char>)
    requires
        markdown_tag_ranges(s) is Some,
        unit_len(s) <= i32::MAX,
        events_forward(s),
    ensures
        ({
            let rs = markdown_tag_ranges(s)->0;
            let evs = markdown_events(s);
            forall|k: int|
                #![trigger rs[k]]
                0 <= k < rs.len() ==> exists|i: int|
                    #![trigger evs[i]]
                    0 <= i < evs.len() && range_start(rs[k]) == offset_table(s)[evs[i].start as int]
                        && range_end(rs[k]) == offset_table(s)[evs[i].end as int] && 0 <= range_start(
                        rs[k],
                    ) <= range_end(rs[k]) <= unit_len(s)
        }),
{
    let table = usize_table(s);
    let evs = markdown_events(s);
    let rs = ranges_of(table, evs);
    lemma_table_shape(s);
    lemma_ranges_from_events(table, evs);
    assert forall|k: int| #![trigger rs[k]] 0 <= k < rs.len() implies exists|i: int|
        #![trigger evs[i]]
        0 <= i < evs.len() && range_start(rs[k]) == offset_table(s)[evs[i].start as int]
            && range_end(rs[k]) == offset_table(s)[evs[i].end as int] && 0 <= range_start(rs[k])
            <= range_end(rs[k]) <= unit_len(s) by {
        let i = choose|i: int| 0 <= i < evs.len() && #[trigger] range_at(table, evs, i) == Some(rs[k]);
        let e = evs[i];
        let d = depth_after(evs.take(i));
        let o = innermost_ordered(open_after(evs.take(i)));
        assert(event_fits(table.len() as int, e));
        assert(e.start <= e.end);
        lemma_usize_entry(s, e.start as int);
        lemma_usize_entry(s, e.end as int);
        lemma_table_monotone(s, e.start as int, e.end as int);
        lemma_tag_range_offsets(table, e, d, o);
    }
}

/// For ASCII text the ranges of the result are the byte ranges of the events
/// that yield them.
pub proof fn lemma_parse_ranges_ascii(s: Seq<char>)
    requires
        markdown_tag_ranges(s) is Some,
        s.len() <= i32::MAX,
        forall|i: int| 0 <= i < s.len() ==> (#[trigger] s[i] as u32) < 0x80,
        events_forward(s),
    ensures
        ({
            let rs = markdown_tag_ranges(s)->0;
            let evs = markdown_events(s);
            forall|k: int|
                #![trigger rs[k]]
                0 <= k < rs.len() ==> exists|i: int|
                    #![trigger evs[i]]
                    0 <= i < evs.len() && range_start(rs[k]) == evs[i].start && range_end(rs[k])
                        == evs[i].end
        }),
{
    let evs = markdown_events(s);
    let rs = markdown_tag_ranges(s)->0;
    lemma_ascii_lens(s);
    lemma_ascii_identity(s);
    lemma_parse_ranges_in_text(s);
    assert forall|k: int| #![trigger rs[k]] 0 <= k < rs.len() implies exists|i: int|
        #![trigger evs[i]]
        0 <= i < evs.len() && range_start(rs[k]) == evs[i].start && range_end(rs[k])
            == evs[i].end by {
        let i = choose|i: int|
            #![trigger evs[i]]
            0 <= i < evs.len() && range_start(rs[k]) == offset_table(s)[evs[i].start as int]
                && range_end(rs[k]) == offset_table(s)[evs[i].end as int] && 0 <= range_start(
                rs[k],
            ) <= range_end(rs[k]) <= unit_len(s);
        assert(event_fits(usize_table(s).len() as int, evs[i]));
    }
}

/// Each range of a text's result spans the UTF-16 length of the characters
/// between its event's byte offsets, where those are character boundaries:
/// one code unit per character below U+10000 and two (a surrogate pair) for
/// each one above. The bound keeps the `i32` offsets exact.
pub proof fn lemma_parse_ranges_span(s: Seq<char>)
    requires
        markdown_tag_ranges(s) is Some,
        unit_len(s) <= i32::MAX,
        events_forward(s),
    ensures
        ({
            let rs = markdown_tag_ranges(s)->0;
            let evs = markdown_events(s);
            forall|k: int|
                #![trigger rs[k]]
                0 <= k < rs.len() ==> exists|i: int|
                    #![trigger evs[i]]
                    0 <= i < evs.len() && forall|a: int, b: int|
                        #![trigger s.subrange(a, b)]
                        0 <= a <= b <= s.len() && evs[i].start == byte_len(s.take(a))
                            && evs[i].end == byte_len(s.take(b)) ==> range_end(rs[k]) - range_start(
                            rs[k],
                        ) == unit_len(s.subrange(a, b))
        }),
{
    let evs = markdown_events(s);
    let rs = markdown_tag_ranges(s)->0;
    lemma_parse_ranges_in_text(s);
    assert forall|k: int| #![trigger rs[k]] 0 <= k < rs.len() implies exists|i: int|
        #![trigger evs[i]]
        0 <= i < evs.len() && forall|a: int, b: int|
            #![trigger s.subrange(a, b)]
            0 <= a <= b <= s.len() && evs[i].start == byte_len(s.take(a)) && evs[i].end
                == byte_len(s.take(b)) ==> range_end(rs[k]) - range_start(rs[k]) == unit_len(
                s.subrange(a, b),
            ) by {
        let i = choose|i: int|
            #![trigger evs[i]]
            0 <= i < evs.len() && range_start(rs[k]) == offset_table(s)[evs[i].start as int]
                && range_end(rs[k]) == offset_table(s)[evs[i].end as int] && 0 <= range_start(
                rs[k],
            ) <= range_end(rs[k]) <= unit_len(s);
        assert forall|a: int, b: int|
            #![trigger s.subrange(a, b)]
            0 <= a <= b <= s.len() && evs[i].start == byte_len(s.take(a)) && evs[i].end
                == byte_len(s.take(b)) implies range_end(rs[k]) - range_start(rs[k]) == unit_len(
            s.subrange(a, b),
        ) by {
            lemma_table_span(s, a, b);
        }
    }
}

/// For every text, each list range of the result has a nesting level of at
/// least 1: the tokenizer's list starts and ends nest as brackets.
pub proof fn lemma_parse_list_levels(s: Seq<char>)
    requires
        markdown_tag_ranges(s) is Some,
        lists_balanced(markdown_events(s)),
    ensures
        ({
            let rs = markdown_tag_ranges(s)->0;
            forall|k: int|
                #![trigger rs[k]]
                0 <= k < rs.len() ==> match rs[k] {
                    MarkdownTagRange::MList { nested_level, .. } => nested_level >= 1,
                    _ => true,
                }
        }),
{
    lemma_balanced_list_levels(usize_table(s), markdown_events(s));
}

} // verus!
