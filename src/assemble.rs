//! The tag-range reducer: turns a markdown event stream, located in bytes,
//! into tag ranges located in UTF-16 code units.
use vstd::prelude::*;

verus! {

/// How a code block is written.
#[derive(Clone, Copy, Debug, PartialEq, Eq, Structural)]
pub enum CodeKind {
    Indented,
    Fenced,
}

/// The syntactic form of a link or an image.
#[derive(Clone, Copy, Debug, PartialEq, Eq, Structural)]
pub enum LinkKind {
    /// `[text](url "title")`
    Inline,
    /// `[text][label]`
    Reference,
    ReferenceUnknown,
    /// `[text][]`
    Collapsed,
    CollapsedUnknown,
    /// `[text]`
    Shortcut,
    ShortcutUnknown,
    /// `<http://example.com>`
    Autolink,
    /// `<someone@example.com>`
    Email,
}

/// A construct that a start or an end event opens or closes.
#[derive(Clone, Copy, Debug, PartialEq, Eq, Structural)]
pub enum MdTag {
    Paragraph,
    /// A heading of the given level, 1 to 6.
    Heading(i32),
    BlockQuote,
    CodeBlock(CodeKind),
    /// A list with the starting ordinal of an ordered list, `None` for a
    /// bullet list.
    List(Option<u64>),
    Item,
    FootnoteDefinition,
    Table,
    TableHead,
    TableRow,
    TableCell,
    Emphasis,
    Strong,
    Strikethrough,
    /// A link: its form, and the byte lengths of its destination and of its
    /// title.
    Link(LinkKind, usize, usize),
    /// An image, with the same fields as a link.
    Image(LinkKind, usize, usize),
}

/// One event of a markdown tokenizer.
#[derive(Clone, Copy, Debug, PartialEq, Eq, Structural)]
pub enum MdEvent {
    Start(MdTag),
    End(MdTag),
    Text,
    /// An inline code span.
    Code,
    /// Raw embedded markup.
    Html,
    FootnoteReference,
    SoftBreak,
    HardBreak,
    /// A thematic break.
    Rule,
    TaskListMarker(bool),
}

/// An event with the byte range of the source text that it covers.
#[derive(Clone, Copy, Debug, PartialEq, Eq, Structural)]
pub struct SourceEvent {
    pub event: MdEvent,
    pub start: usize,
    pub end: usize,
}

/// A typed span of markdown structure, located in UTF-16 code units.
#[derive(Clone, Copy, Debug, PartialEq, Eq, Structural)]
pub enum MarkdownTagRange {
    Heading { level: i32, start: i32, end: i32 },
    Emphasis { start: i32, end: i32 },
    Strong { start: i32, end: i32 },
    Strikethrough { start: i32, end: i32 },
    InlineCode { start: i32, end: i32 },
    MList { start: i32, end: i32, order: i32, nested_level: i32 },
    ListItem { start: i32, end: i32, nested_level: i32, ordered: bool },
    Paragraph { start: i32, end: i32 },
    Link { start: i32, end: i32, url_offset: i32 },
    Image { start: i32, end: i32, url_offset: i32 },
    Rule { start: i32, end: i32 },
    BlockQuote { start: i32, end: i32 },
    TaskListMarker { start: i32, end: i32, is_checked: bool },
    CodeBlock { start: i32, end: i32 },
}

/// The code-unit offset that the table gives for byte offset `i`, as the
/// UI's 32-bit integer.
pub open spec fn unit_at(table: Seq<usize>, i: int) -> i32 {
    table[i] as i32
}

/// How many bytes before the end of an inline link or image its
/// destination starts: the destination and `)`, and with a title also the
/// title, its quotes and the space before it.
pub open spec fn url_back(url_len: usize, title_len: usize) -> int {
    if title_len == 0 {
        1 + url_len
    } else {
        2 + url_len + title_len
    }
}

/// The change of list nesting depth that an event makes.
pub open spec fn depth_change(e: MdEvent) -> int {
    match e {
        MdEvent::Start(MdTag::List(_)) => 1,
        MdEvent::End(MdTag::List(_)) => -1,
        _ => 0,
    }
}

/// The ordered flags of the open lists, outermost first, after the event:
/// a list start opens a list, a list end closes the innermost one.
pub open spec fn open_next(open: Seq<bool>, e: MdEvent) -> Seq<bool> {
    match e {
        MdEvent::Start(MdTag::List(order)) => open.push(order is Some),
        MdEvent::End(MdTag::List(_)) => if open.len() > 0 {
            open.drop_last()
        } else {
            open
        },
        _ => open,
    }
}

/// Whether the innermost open list is ordered (false when no list is open).
pub open spec fn innermost_ordered(open: Seq<bool>) -> bool {
    open.len() > 0 && open.last()
}

/// The tag range that event `e` yields at list depth `depth`, with
/// `ordered` telling whether the innermost list is ordered.
pub open spec fn tag_range_of(
    table: Seq<usize>,
    e: SourceEvent,
    depth: int,
    ordered: bool,
) -> Option<MarkdownTagRange> {
    let start = unit_at(table, e.start as int);
    let end = unit_at(table, e.end as int);
    match e.event {
        MdEvent::Start(tag) => match tag {
            MdTag::Heading(level) => Some(MarkdownTagRange::Heading { level, start, end }),
            MdTag::Emphasis => Some(MarkdownTagRange::Emphasis { start, end }),
            MdTag::Strong => Some(MarkdownTagRange::Strong { start, end }),
            MdTag::Strikethrough => Some(MarkdownTagRange::Strikethrough { start, end }),
            MdTag::List(order) => Some(
                MarkdownTagRange::MList {
                    start,
                    end,
                    order: match order {
                        Some(o) => o as i32,
                        None => 0,
                    },
                    nested_level: (depth + 1) as i32,
                },
            ),
            MdTag::Item => Some(
                MarkdownTagRange::ListItem { start, end, nested_level: depth as i32, ordered },
            ),
            MdTag::Paragraph => Some(MarkdownTagRange::Paragraph { start, end }),
            MdTag::Link(kind, url_len, title_len) => if kind == LinkKind::Inline {
                Some(
                    MarkdownTagRange::Link {
                        start,
                        end,
                        url_offset: unit_at(table, e.end - url_back(url_len, title_len)),
                    },
                )
            } else {
                None
            },
            MdTag::Image(kind, url_len, title_len) => if kind == LinkKind::Inline {
                Some(
                    MarkdownTagRange::Image {
                        start,
                        end,
                        url_offset: unit_at(table, e.end - url_back(url_len, title_len)),
                    },
                )
            } else {
                None
            },
            MdTag::BlockQuote => Some(MarkdownTagRange::BlockQuote { start, end }),
            MdTag::CodeBlock(_) => Some(MarkdownTagRange::CodeBlock { start, end }),
            MdTag::FootnoteDefinition => None,
            MdTag::Table | MdTag::TableHead | MdTag::TableRow | MdTag::TableCell => None,
        },
        MdEvent::End(_) => None,
        MdEvent::Code => Some(MarkdownTagRange::InlineCode { start, end }),
        MdEvent::Rule => Some(MarkdownTagRange::Rule { start, end }),
        MdEvent::TaskListMarker(is_checked) => Some(
            MarkdownTagRange::TaskListMarker { start, end, is_checked },
        ),
        MdEvent::Text | MdEvent::Html | MdEvent::FootnoteReference => None,
        MdEvent::SoftBreak | MdEvent::HardBreak => None,
    }
}

/// An inline link or image starts its destination no earlier than the text:
/// the bytes counted back from its end are no more than its end offset.
pub open spec fn link_fits(e: SourceEvent) -> bool {
    match e.event {
        MdEvent::Start(MdTag::Link(LinkKind::Inline, url_len, title_len)) => url_back(
            url_len,
            title_len,
        ) <= e.end,
        MdEvent::Start(MdTag::Image(LinkKind::Inline, url_len, title_len)) => url_back(
            url_len,
            title_len,
        ) <= e.end,
        _ => true,
    }
}

/// Every offset that the event asks the table for lies in it.
pub open spec fn event_fits(table_len: int, e: SourceEvent) -> bool {
    &&& e.start < table_len
    &&& e.end < table_len
    &&& link_fits(e)
}

/// Every event fits the table, and the stream is short enough that the list
/// depth stays within `i32`.
pub open spec fn events_fit(table_len: int, evs: Seq<SourceEvent>) -> bool {
    &&& evs.len() < i32::MAX
    &&& forall|i: int| 0 <= i < evs.len() ==> event_fits(table_len, #[trigger] evs[i])
}

/// List nesting depth after a stream of events, starting from 0.
pub open spec fn depth_after(evs: Seq<SourceEvent>) -> int
    decreases evs.len(),
{
    if evs.len() == 0 {
        0
    } else {
        depth_after(evs.drop_last()) + depth_change(evs.last().event)
    }
}

/// The ordered flags of the lists still open after a stream of events,
/// outermost first.
pub open spec fn open_after(evs: Seq<SourceEvent>) -> Seq<bool>
    decreases evs.len(),
{
    if evs.len() == 0 {
        seq![]
    } else {
        open_next(open_after(evs.drop_last()), evs.last().event)
    }
}

/// The tag ranges of an event stream, in event order.
pub open spec fn ranges_of(table: Seq<usize>, evs: Seq<SourceEvent>) -> Seq<MarkdownTagRange>
    decreases evs.len(),
{
    if evs.len() == 0 {
        seq![]
    } else {
        let prev = evs.drop_last();
        let rs = ranges_of(table, prev);
        match tag_range_of(
            table,
            evs.last(),
            depth_after(prev),
            innermost_ordered(open_after(prev)),
        ) {
            Some(t) => rs.push(t),
            None => rs,
        }
    }
}

pub proof fn lemma_depth_bounded(evs: Seq<SourceEvent>)
    ensures
        -evs.len() <= depth_after(evs) <= evs.len(),
    decreases evs.len(),
{
    if evs.len() > 0 {
        lemma_depth_bounded(evs.drop_last());
    }
}

/// The first code unit of a tag range.
pub open spec fn range_start(r: MarkdownTagRange) -> i32 {
    match r {
        MarkdownTagRange::Heading { start, .. } => start,
        MarkdownTagRange::Emphasis { start, .. } => start,
        MarkdownTagRange::Strong { start, .. } => start,
        MarkdownTagRange::Strikethrough { start, .. } => start,
        MarkdownTagRange::InlineCode { start, .. } => start,
        MarkdownTagRange::MList { start, .. } => start,
        MarkdownTagRange::ListItem { start, .. } => start,
        MarkdownTagRange::Paragraph { start, .. } => start,
        MarkdownTagRange::Link { start, .. } => start,
        MarkdownTagRange::Image { start, .. } => start,
        MarkdownTagRange::Rule { start, .. } => start,
        MarkdownTagRange::BlockQuote { start, .. } => start,
        MarkdownTagRange::TaskListMarker { start, .. } => start,
        MarkdownTagRange::CodeBlock { start, .. } => start,
    }
}

/// The code unit just past a tag range.
pub open spec fn range_end(r: MarkdownTagRange) -> i32 {
    match r {
        MarkdownTagRange::Heading { end, .. } => end,
        MarkdownTagRange::Emphasis { end, .. } => end,
        MarkdownTagRange::Strong { end, .. } => end,
        MarkdownTagRange::Strikethrough { end, .. } => end,
        MarkdownTagRange::InlineCode { end, .. } => end,
        MarkdownTagRange::MList { end, .. } => end,
        MarkdownTagRange::ListItem { end, .. } => end,
        MarkdownTagRange::Paragraph { end, .. } => end,
        MarkdownTagRange::Link { end, .. } => end,
        MarkdownTagRange::Image { end, .. } => end,
        MarkdownTagRange::Rule { end, .. } => end,
        MarkdownTagRange::BlockQuote { end, .. } => end,
        MarkdownTagRange::TaskListMarker { end, .. } => end,
        MarkdownTagRange::CodeBlock { end, .. } => end,
    }
}

/// The range that the event at index `i` yields, given the list state that
/// the events before it leave.
pub open spec fn range_at(table: Seq<usize>, evs: Seq<SourceEvent>, i: int) -> Option<
    MarkdownTagRange,
> {
    let prev = evs.take(i);
    tag_range_of(table, evs[i], depth_after(prev), innermost_ordered(open_after(prev)))
}

/// Every range of a stream's output is what one of its events yields, in the
/// list state that the events before it leave.
pub proof fn lemma_ranges_from_events(table: Seq<usize>, evs: Seq<SourceEvent>)
    ensures
        forall|k: int|
            #![trigger ranges_of(table, evs)[k]]
            0 <= k < ranges_of(table, evs).len() ==> exists|i: int|
                0 <= i < evs.len() && #[trigger] range_at(table, evs, i) == Some(
                    ranges_of(table, evs)[k],
                ),
    decreases evs.len(),
{
    if evs.len() > 0 {
        let prev = evs.drop_last();
        lemma_ranges_from_events(table, prev);
        let rs = ranges_of(table, evs);
        assert forall|k: int| #![trigger rs[k]] 0 <= k < rs.len() implies exists|i: int|
            0 <= i < evs.len() && #[trigger] range_at(table, evs, i) == Some(rs[k]) by {
            if k < ranges_of(table, prev).len() {
                assert(rs[k] == ranges_of(table, prev)[k]);
                let i = choose|i: int|
                    0 <= i < prev.len() && #[trigger] range_at(table, prev, i) == Some(
                        ranges_of(table, prev)[k],
                    );
                assert(prev[i] == evs[i]);
                assert(prev.take(i) =~= evs.take(i));
                assert(range_at(table, evs, i) == Some(rs[k]));
            } else {
                assert(evs.take(evs.len() - 1) =~= prev);
                assert(range_at(table, evs, evs.len() - 1) == Some(rs[k]));
            }
        }
    }
}

/// An event's range starts and ends at the table's entries for the event's
/// byte offsets, where those entries fit in an `i32`.
pub proof fn lemma_tag_range_offsets(table: Seq<usize>, e: SourceEvent, d: int, o: bool)
    requires
        event_fits(table.len() as int, e),
        table[e.start as int] <= i32::MAX,
        table[e.end as int] <= i32::MAX,
    ensures
        match tag_range_of(table, e, d, o) {
            Some(r) => range_start(r) == table[e.start as int] && range_end(r)
                == table[e.end as int],
            None => true,
        },
{
}

/// Depth changes add up over a concatenation of streams.
pub proof fn lemma_depth_concat(a: Seq<SourceEvent>, b: Seq<SourceEvent>)
    ensures
        depth_after(a + b) == depth_after(a) + depth_after(b),
    decreases b.len(),
{
    if b.len() == 0 {
        assert(a + b =~= a);
    } else {
        lemma_depth_concat(a, b.drop_last());
        assert((a + b).drop_last() =~= a + b.drop_last());
    }
}

/// A stream in which list starts and list ends pair up as brackets do: it is
/// empty, or opens with an event that is neither, or opens with a list start
/// whose matching list end encloses a well-formed stream and is followed by
/// one.
pub open spec fn lists_balanced(evs: Seq<SourceEvent>) -> bool
    decreases evs.len(),
{
    if evs.len() == 0 {
        true
    } else if depth_change(evs[0].event) == 0 {
        lists_balanced(evs.drop_first())
    } else if depth_change(evs[0].event) == 1 {
        exists|k: int|
            0 < k < evs.len() && depth_change(#[trigger] evs[k].event) == -1 && lists_balanced(
                evs.subrange(1, k),
            ) && lists_balanced(evs.subrange(k + 1, evs.len() as int))
    } else {
        false
    }
}

/// In a well-formed stream the list depth never drops below zero, and after
/// the last list end it is back at zero.
pub proof fn lemma_balanced_depth(evs: Seq<SourceEvent>)
    requires
        lists_balanced(evs),
    ensures
        depth_after(evs) == 0,
        forall|n: int| 0 <= n <= evs.len() ==> depth_after(#[trigger] evs.take(n)) >= 0,
    decreases evs.len(),
{
    if evs.len() == 0 {
        assert(evs.take(0) =~= evs);
    } else {
        let head = evs.take(1);
        assert(head.drop_last() =~= Seq::<SourceEvent>::empty());
        assert(depth_after(Seq::<SourceEvent>::empty()) == 0);
        assert(head.last() == evs[0]);
        assert(depth_after(head) == depth_change(evs[0].event));
        if depth_change(evs[0].event) == 0 {
            let rest = evs.drop_first();
            lemma_balanced_depth(rest);
            assert(head + rest =~= evs);
            lemma_depth_concat(head, rest);
            assert forall|n: int| 0 <= n <= evs.len() implies depth_after(
                #[trigger] evs.take(n),
            ) >= 0 by {
                if n == 0 {
                    assert(evs.take(0) =~= Seq::<SourceEvent>::empty());
                } else {
                    assert(evs.take(n) =~= head + rest.take(n - 1));
                    lemma_depth_concat(head, rest.take(n - 1));
                }
            }
        } else {
            let k = choose|k: int|
                0 < k < evs.len() && depth_change(#[trigger] evs[k].event) == -1
                    && lists_balanced(evs.subrange(1, k)) && lists_balanced(
                    evs.subrange(k + 1, evs.len() as int),
                );
            let inner = evs.subrange(1, k);
            let close = evs.subrange(k, k + 1);
            let rest = evs.subrange(k + 1, evs.len() as int);
            lemma_balanced_depth(inner);
            lemma_balanced_depth(rest);
            assert(close.drop_last() =~= Seq::<SourceEvent>::empty());
            assert(close.last() == evs[k]);
            assert(depth_after(close) == -1);
            let opened = head + inner;
            let closed = opened + close;
            lemma_depth_concat(head, inner);
            lemma_depth_concat(opened, close);
            lemma_depth_concat(closed, rest);
            assert(closed + rest =~= evs);
            assert forall|n: int| 0 <= n <= evs.len() implies depth_after(
                #[trigger] evs.take(n),
            ) >= 0 by {
                if n == 0 {
                    assert(evs.take(0) =~= Seq::<SourceEvent>::empty());
                } else if n <= k {
                    assert(evs.take(n) =~= head + inner.take(n - 1));
                    lemma_depth_concat(head, inner.take(n - 1));
                } else {
                    assert(evs.take(n) =~= closed + rest.take(n - k - 1));
                    lemma_depth_concat(closed, rest.take(n - k - 1));
                }
            }
        }
    }
}

/// In a well-formed stream every list range has a nesting level of at
/// least 1: one more than the number of lists open at its start event.
pub proof fn lemma_balanced_list_levels(table: Seq<usize>, evs: Seq<SourceEvent>)
    requires
        lists_balanced(evs),
        evs.len() < i32::MAX,
    ensures
        forall|k: int|
            #![trigger ranges_of(table, evs)[k]]
            0 <= k < ranges_of(table, evs).len() ==> match ranges_of(table, evs)[k] {
                MarkdownTagRange::MList { nested_level, .. } => nested_level >= 1,
                _ => true,
            },
{
    let rs = ranges_of(table, evs);
    lemma_balanced_depth(evs);
    lemma_ranges_from_events(table, evs);
    assert forall|k: int| #![trigger rs[k]] 0 <= k < rs.len() implies match rs[k] {
        MarkdownTagRange::MList { nested_level, .. } => nested_level >= 1,
        _ => true,
    } by {
        let i = choose|i: int| 0 <= i < evs.len() && #[trigger] range_at(table, evs, i) == Some(rs[k]);
        assert(depth_after(evs.take(i)) >= 0);
        lemma_depth_bounded(evs.take(i));
    }
}

/// The running state of the reducer: the list nesting depth, and for each
/// open list, outermost first, whether it is ordered.
pub struct ListState {
    pub depth: i32,
    pub open: Vec<bool>,
}

impl ListState {
    /// The state before any event: no open list.
    pub fn new() -> (st: ListState)
        ensures
            st.depth == 0,
            st.open@ == Seq::<bool>::empty(),
    {
        ListState { depth: 0, open: Vec::new() }
    }

    /// Whether the innermost open list is ordered (false when none is open).
    pub fn innermost_ordered(&self) -> (b: bool)
        ensures
            b == innermost_ordered(self.open@),
    {
        let n = self.open.len();
        n > 0 && self.open[n - 1]
    }

    /// Consumes one event: returns the tag range it yields, if any, and
    /// moves the list state on.
    pub fn apply(&mut self, table: &Vec<usize>, e: &SourceEvent) -> (r: Option<MarkdownTagRange>)
        requires
            event_fits(table@.len() as int, *e),
            i32::MIN < old(self).depth < i32::MAX,
        ensures
            r == tag_range_of(
                table@,
                *e,
                old(self).depth as int,
                innermost_ordered(old(self).open@),
            ),
            final(self).depth == old(self).depth + depth_change(e.event),
            final(self).open@ == open_next(old(self).open@, e.event),
    {
        let start = table[e.start] as i32;
        let end = table[e.end] as i32;
        match e.event {
            MdEvent::Start(tag) => match tag {
                MdTag::Heading(level) => Some(MarkdownTagRange::Heading { level, start, end }),
                MdTag::Emphasis => Some(MarkdownTagRange::Emphasis { start, end }),
                MdTag::Strong => Some(MarkdownTagRange::Strong { start, end }),
                MdTag::Strikethrough => Some(MarkdownTagRange::Strikethrough { start, end }),
                MdTag::List(order) => {
                    self.depth = self.depth + 1;
                    self.open.push(order.is_some());
                    let order = match order {
                        Some(o) => o as i32,
                        None => 0,
                    };
                    Some(MarkdownTagRange::MList { start, end, order, nested_level: self.depth })
                },
                MdTag::Item => {
                    let ordered = self.innermost_ordered();
                    Some(MarkdownTagRange::ListItem { start, end, nested_level: self.depth, ordered })
                },
                MdTag::Paragraph => Some(MarkdownTagRange::Paragraph { start, end }),
                MdTag::Link(kind, url_len, title_len) => match kind {
                    LinkKind::Inline => {
                        let url_offset = table[url_start(e.end, url_len, title_len)] as i32;
                        Some(MarkdownTagRange::Link { start, end, url_offset })
                    },
                    _ => None,
                },
                MdTag::Image(kind, url_len, title_len) => match kind {
                    LinkKind::Inline => {
                        let url_offset = table[url_start(e.end, url_len, title_len)] as i32;
                        Some(MarkdownTagRange::Image { start, end, url_offset })
                    },
                    _ => None,
                },
                MdTag::BlockQuote => Some(MarkdownTagRange::BlockQuote { start, end }),
                MdTag::CodeBlock(_) => Some(MarkdownTagRange::CodeBlock { start, end }),
                MdTag::FootnoteDefinition => None,
                MdTag::Table | MdTag::TableHead | MdTag::TableRow | MdTag::TableCell => None,
            },
            MdEvent::End(tag) => {
                if let MdTag::List(_) = tag {
                    self.depth = self.depth - 1;
                    if self.open.len() > 0 {
                        self.open.pop();
                    }
                }
                None
            },
            MdEvent::Code => Some(MarkdownTagRange::InlineCode { start, end }),
            MdEvent::Rule => Some(MarkdownTagRange::Rule { start, end }),
            MdEvent::TaskListMarker(is_checked) => Some(
                MarkdownTagRange::TaskListMarker { start, end, is_checked },
            ),
            MdEvent::Text | MdEvent::Html | MdEvent::FootnoteReference => None,
            MdEvent::SoftBreak | MdEvent::HardBreak => None,
        }
    }
}

/// The byte offset at which an inline link's destination starts, counted
/// back from the link's end.
fn url_start(end: usize, url_len: usize, title_len: usize) -> (r: usize)
    requires
        url_back(url_len, title_len) <= end,
    ensures
        r == end - url_back(url_len, title_len),
{
    if title_len == 0 {
        end - 1 - url_len
    } else {
        end - 2 - url_len - title_len
    }
}

/// Tells whether every offset that `events` asks of a table of length
/// `table_len` lies in it, and the stream is short enough for the depth to
/// stay within `i32`.
pub fn events_fit_table(table_len: usize, events: &Vec<SourceEvent>) -> (b: bool)
    ensures
        b == events_fit(table_len as int, events@),
{
    if events.len() >= i32::MAX as usize {
        return false;
    }
    let mut i: usize = 0;
    while i < events.len()
        invariant
            0 <= i <= events@.len(),
            forall|j: int| 0 <= j < i ==> event_fits(table_len as int, #[trigger] events@[j]),
        decreases events@.len() - i,
    {
        let e = &events[i];
        if !event_fits_table(table_len, e) {
            return false;
        }
        i = i + 1;
    }
    true
}

fn event_fits_table(table_len: usize, e: &SourceEvent) -> (b: bool)
    ensures
        b == event_fits(table_len as int, *e),
{
    if e.start >= table_len || e.end >= table_len {
        return false;
    }
    match e.event {
        MdEvent::Start(MdTag::Link(LinkKind::Inline, url_len, title_len))
        | MdEvent::Start(MdTag::Image(LinkKind::Inline, url_len, title_len)) => back_fits(e.end, url_len, title_len),
        _ => true,
    }
}

fn back_fits(end: usize, url_len: usize, title_len: usize) -> (b: bool)
    ensures
        b == (url_back(url_len, title_len) <= end),
{
    if title_len == 0 {
        url_len < end
    } else {
        end >= 2 && url_len <= end - 2 && title_len <= end - 2 - url_len
    }
}

/// Runs the reducer over a whole event stream from a fresh state and
/// collects the tag ranges in event order.
pub fn assemble(table: &Vec<usize>, events: &Vec<SourceEvent>) -> (r: Vec<MarkdownTagRange>)
    requires
        events_fit(table@.len() as int, events@),
    ensures
        r@ == ranges_of(table@, events@),
{
    let mut state = ListState::new();
    let mut ranges: Vec<MarkdownTagRange> = Vec::new();
    let mut i: usize = 0;
    while i < events.len()
        invariant
            events_fit(table@.len() as int, events@),
            0 <= i <= events@.len(),
            state.depth == depth_after(events@.take(i as int)),
            state.open@ == open_after(events@.take(i as int)),
            ranges@ == ranges_of(table@, events@.take(i as int)),
        decreases events@.len() - i,
    {
        let ghost prev = events@.take(i as int);
        let ghost next = events@.take(i + 1);
        assert(next.drop_last() =~= prev);
        proof {
            lemma_depth_bounded(prev);
        }
        let e = &events[i];
        assert(event_fits(table@.len() as int, events@[i as int]));
        if let Some(t) = state.apply(table, e) {
            ranges.push(t);
        }
        i = i + 1;
    }
    assert(events@.take(i as int) =~= events@);
    ranges
}

} // verus!
