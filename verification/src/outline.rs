//! The document outline: headings as CommonMark (pulldown-cmark) sees them.
use vstd::prelude::*;
use crate::text::{append_chars, chars_of, string_of, trim, trim_chars};
use pulldown_cmark::{Event, Options, Parser, Tag, TagEnd};

verus! {

#[derive(Debug, Clone, PartialEq, Eq)]
pub struct OutlineEntry {
    pub level: u8,
    pub title: String,
}

pub struct OutlineEntryView {
    pub level: u8,
    pub title: Seq<char>,
}

impl View for OutlineEntry {
    type V = OutlineEntryView;

    open spec fn view(&self) -> OutlineEntryView {
        OutlineEntryView { level: self.level, title: self.title@ }
    }
}

impl OutlineEntry {
    /// A copy with the same contents.
    pub fn deep_copy(&self) -> (r: OutlineEntry)
        ensures
            r@ == self@,
    {
        OutlineEntry { level: self.level, title: crate::text::copy_string(&self.title) }
    }
}

pub open spec fn outline_views(v: Seq<OutlineEntry>) -> Seq<OutlineEntryView> {
    v.map_values(|e: OutlineEntry| e@)
}

/// The parser events the outline is built from: the start of a heading
/// with its level, a text or inline-code node with its text, the end of a
/// heading, and every other event.
pub enum OutlineEvent {
    HeadingStart(u8),
    Text(String),
    HeadingEnd,
    Other,
}

pub enum OutlineEventView {
    HeadingStart(u8),
    Text(Seq<char>),
    HeadingEnd,
    Other,
}

impl View for OutlineEvent {
    type V = OutlineEventView;

    open spec fn view(&self) -> OutlineEventView {
        match self {
            OutlineEvent::HeadingStart(l) => OutlineEventView::HeadingStart(*l),
            OutlineEvent::Text(t) => OutlineEventView::Text(t@),
            OutlineEvent::HeadingEnd => OutlineEventView::HeadingEnd,
            OutlineEvent::Other => OutlineEventView::Other,
        }
    }
}

pub open spec fn event_views(v: Seq<OutlineEvent>) -> Seq<OutlineEventView> {
    v.map_values(|e: OutlineEvent| e@)
}

/// The event stream pulldown-cmark produces for a source with all its
/// extensions enabled, each event reduced to an `OutlineEventView`.
pub uninterp spec fn cmark_events(source: Seq<char>) -> Seq<OutlineEventView>;

/// Runs `pulldown_cmark::Parser::new_ext(source, Options::all())` and
/// reduces each event: `Start(Tag::Heading)` to its level (the
/// `HeadingLevel` discriminant, 1 to 6), `Text` and `Code` to their text,
/// `End(TagEnd::Heading)` to `HeadingEnd`, anything else to `Other`. The
/// contract names the resulting stream `cmark_events(source)`: the parse
/// depends on the source alone.
#[verifier::external_body]
fn markdown_events(source: &str) -> (r: Vec<OutlineEvent>)
    ensures
        event_views(r@) == cmark_events(source@),
{
    Parser::new_ext(source, Options::all()).map(|event| match event {
        Event::Start(Tag::Heading { level, .. }) => OutlineEvent::HeadingStart(level as u8),
        Event::Text(text) => OutlineEvent::Text(text.to_string()),
        Event::Code(text) => OutlineEvent::Text(text.to_string()),
        Event::End(TagEnd::Heading(_)) => OutlineEvent::HeadingEnd,
        _ => OutlineEvent::Other,
    }).collect()
}

/// The outline built from an event stream: every heading's level and its
/// gathered text, trimmed. `level` is the level of the open heading, and
/// `current` the text gathered for it so far.
pub open spec fn outline_fold(
    events: Seq<OutlineEventView>,
    level: Option<u8>,
    current: Seq<char>,
    out: Seq<OutlineEntryView>,
) -> Seq<OutlineEntryView>
    decreases events.len(),
{
    if events.len() == 0 {
        out
    } else {
        let rest = events.drop_first();
        match events[0] {
            OutlineEventView::HeadingStart(l) => outline_fold(rest, Some(l), seq![], out),
            OutlineEventView::Text(t) => if level is Some {
                outline_fold(rest, level, current + t, out)
            } else {
                outline_fold(rest, level, current, out)
            },
            OutlineEventView::HeadingEnd => match level {
                Some(l) => outline_fold(
                    rest,
                    None,
                    current,
                    out.push(OutlineEntryView { level: l, title: trim(current) }),
                ),
                None => outline_fold(rest, level, current, out),
            },
            OutlineEventView::Other => outline_fold(rest, level, current, out),
        }
    }
}

/// The outline of a list of events.
pub open spec fn outline_of_events(events: Seq<OutlineEventView>) -> Seq<OutlineEntryView> {
    outline_fold(events, None, seq![], seq![])
}

/// `build_outline`: the headings of a source, as pulldown-cmark parses it.
pub open spec fn outline_spec(source: Seq<char>) -> Seq<OutlineEntryView> {
    outline_of_events(cmark_events(source))
}

/// Builds the outline from a parsed event stream (see `outline_of_events`).
pub fn outline_from_events(events: &Vec<OutlineEvent>) -> (r: Vec<OutlineEntry>)
    ensures
        outline_views(r@) == outline_of_events(event_views(events@)),
{
    let mut out: Vec<OutlineEntry> = Vec::new();
    let mut level: Option<u8> = None;
    let mut current: Vec<char> = Vec::new();
    let mut i: usize = 0;
    assert(event_views(events@).skip(0) =~= event_views(events@));
    assert(outline_views(out@) =~= Seq::<OutlineEntryView>::empty());
    while i < events.len()
        invariant
            i <= events@.len(),
            outline_of_events(event_views(events@)) == outline_fold(
                event_views(events@).skip(i as int),
                level,
                current@,
                outline_views(out@),
            ),
        decreases events@.len() - i,
    {
        assert(event_views(events@).skip(i as int).drop_first() =~= event_views(events@).skip(
            i + 1,
        ));
        assert(event_views(events@).skip(i as int)[0] == events@[i as int]@);
        match &events[i] {
            OutlineEvent::HeadingStart(l) => {
                level = Some(*l);
                current = Vec::new();
                assert(current@ =~= Seq::<char>::empty());
            },
            OutlineEvent::Text(t) => {
                if level.is_some() {
                    let tv = chars_of(t.as_str());
                    append_chars(&mut current, &tv);
                }
            },
            OutlineEvent::HeadingEnd => {
                if let Some(l) = level {
                    let title = trim_chars(&current);
                    let ghost before = outline_views(out@);
                    out.push(OutlineEntry { level: l, title: string_of(&title) });
                    assert(outline_views(out@) =~= before.push(
                        OutlineEntryView { level: l, title: trim(current@) },
                    ));
                    level = None;
                }
            },
            OutlineEvent::Other => {},
        }
        i += 1;
    }
    assert(event_views(events@).skip(i as int) =~= Seq::<OutlineEventView>::empty());
    out
}

/// The headings of a Markdown source (see `outline_spec`).
pub fn build_outline(source: &str) -> (r: Vec<OutlineEntry>)
    ensures
        outline_views(r@) == outline_spec(source@),
{
    let events = markdown_events(source);
    outline_from_events(&events)
}

} // verus!
