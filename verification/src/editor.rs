//! The editor surface: every block laid out in one flat text, inline math
//! folded into placeholders in the blocks that are not being edited, and
//! the offset mappings between a block's source and the text shown for it.
use vstd::prelude::*;
use crate::text::{
    append_chars, byte_len, byte_offset, char_len_utf8, chars_of, contains, contains_char,
    find_char_from, first_index_from, lemma_first_index_props, lemma_prefix_bytes_bound,
    lemma_utf8_len_concat, lemma_utf8_len_push, str_byte_len, string_of, subrange, utf8_len,
};
use crate::blocks::{BlockKind, BlockKindView, BlockView};
use crate::document::DocumentModel;
use crate::parser::block_views;
use crate::render_jobs::{cache_key_spec, typst_cache_key};
use crate::typst::RenderKind;

verus! {

// ---------------------------------------------------------------------------
// Types
// ---------------------------------------------------------------------------

/// A formula folded into one placeholder character: its byte range in the
/// block's source and the cache key of its render.
#[derive(Debug, Clone, PartialEq, Eq)]
pub struct InlineDecoration {
    pub start: usize,
    pub end: usize,
    pub cache_key: String,
}

pub struct DecorationView {
    pub start: int,
    pub end: int,
    pub cache_key: Seq<char>,
}

impl View for InlineDecoration {
    type V = DecorationView;

    open spec fn view(&self) -> DecorationView {
        DecorationView { start: self.start as int, end: self.end as int, cache_key: self.cache_key@ }
    }
}

pub open spec fn deco_views(v: Seq<InlineDecoration>) -> Seq<DecorationView> {
    v.map_values(|d: InlineDecoration| d@)
}

/// One block as the editor shows it: the focused block as its source, any
/// other block with its inline math folded.
#[derive(Debug, Clone)]
pub struct EditorBlock {
    pub text: String,
    pub global_start: usize,
    pub is_focused: bool,
    pub kind: BlockKind,
    pub inline_math: Vec<InlineDecoration>,
}

pub struct EditorBlockView {
    pub text: Seq<char>,
    pub global_start: int,
    pub is_focused: bool,
    pub kind: BlockKindView,
    pub inline_math: Seq<DecorationView>,
}

impl View for EditorBlock {
    type V = EditorBlockView;

    open spec fn view(&self) -> EditorBlockView {
        EditorBlockView {
            text: self.text@,
            global_start: self.global_start as int,
            is_focused: self.is_focused,
            kind: self.kind@,
            inline_math: deco_views(self.inline_math@),
        }
    }
}

pub open spec fn editor_views(v: Seq<EditorBlock>) -> Seq<EditorBlockView> {
    v.map_values(|b: EditorBlock| b@)
}

// ---------------------------------------------------------------------------
// Offset mapping
// ---------------------------------------------------------------------------

/// Decorations in order: each covers at least one byte, and each ends
/// before the next one starts.
pub open spec fn decorations_wf(d: Seq<DecorationView>) -> bool {
    &&& forall|i: int| 0 <= i < d.len() ==> 0 <= #[trigger] d[i].start < d[i].end
    &&& forall|i: int, j: int| 0 <= i < j < d.len() ==> d[i].end <= d[j].start
}

/// The shown offset of source offset `x`, counted from source offset
/// `last`, where no decoration before `last` matters: a decoration shrinks
/// to one character, and an offset inside it lands on that character.
pub open spec fn to_shown_from(d: Seq<DecorationView>, last: int, x: int) -> int
    decreases d.len(),
{
    if d.len() == 0 {
        x - last
    } else if x < d[0].start {
        x - last
    } else if x < d[0].end {
        d[0].start - last
    } else {
        (d[0].start - last) + 1 + to_shown_from(d.drop_first(), d[0].end, x)
    }
}

/// The source offset of shown offset `y`, counted from source offset
/// `last`: the placeholder of a decoration maps to the decoration's start.
pub open spec fn to_source_from(d: Seq<DecorationView>, last: int, y: int) -> int
    decreases d.len(),
{
    if d.len() == 0 {
        last + y
    } else if y < d[0].start - last {
        last + y
    } else if y == d[0].start - last {
        d[0].start
    } else {
        to_source_from(d.drop_first(), d[0].end, y - (d[0].start - last) - 1)
    }
}

/// `EditorBlock::source_to_rendered`: the identity for the focused block.
pub open spec fn source_to_rendered_spec(b: EditorBlockView, x: int) -> int {
    if b.is_focused {
        x
    } else {
        to_shown_from(b.inline_math, 0, x)
    }
}

/// `EditorBlock::rendered_to_source`: the identity for the focused block.
pub open spec fn rendered_to_source_spec(b: EditorBlockView, y: int) -> int {
    if b.is_focused {
        y
    } else {
        to_source_from(b.inline_math, 0, y)
    }
}

/// The end of the last decoration, or 0.
pub open spec fn last_end(d: Seq<DecorationView>) -> int {
    if d.len() == 0 {
        0
    } else {
        d.last().end
    }
}

/// Whether source offset `x` lies strictly inside a decoration.
pub open spec fn inside_decoration(d: Seq<DecorationView>, x: int) -> bool {
    exists|i: int| 0 <= i < d.len() && d[i].start < x < #[trigger] d[i].end
}

proof fn lemma_wf_tail(d: Seq<DecorationView>)
    requires
        decorations_wf(d),
        d.len() > 0,
    ensures
        decorations_wf(d.drop_first()),
        forall|j: int| 0 <= j < d.drop_first().len() ==> d[0].end <= #[trigger] d.drop_first()[j].start,
{
    assert forall|j: int| 0 <= j < d.drop_first().len() implies d[0].end <= #[trigger] d.drop_first()[j].start by {
        assert(d.drop_first()[j] == d[j + 1]);
    }
    assert forall|i: int, j: int| 0 <= i < j < d.drop_first().len() implies d.drop_first()[i].end <= d.drop_first()[j].start by {
        assert(d.drop_first()[i] == d[i + 1]);
        assert(d.drop_first()[j] == d[j + 1]);
    }
}

proof fn lemma_to_shown_bound(d: Seq<DecorationView>, last: int, x: int)
    requires
        decorations_wf(d),
        last <= x,
        forall|j: int| 0 <= j < d.len() ==> last <= #[trigger] d[j].start,
    ensures
        0 <= to_shown_from(d, last, x) <= x - last,
    decreases d.len(),
{
    if d.len() > 0 && x >= d[0].end {
        lemma_wf_tail(d);
        lemma_to_shown_bound(d.drop_first(), d[0].end, x);
    }
}

proof fn lemma_to_source_bounds(d: Seq<DecorationView>, last: int, y: int)
    requires
        decorations_wf(d),
        0 <= y,
        forall|j: int| 0 <= j < d.len() ==> last <= #[trigger] d[j].start,
    ensures
        last <= to_source_from(d, last, y),
        to_source_from(d, last, y) <= y + (if d.len() == 0 { last } else { last_end(d) }),
    decreases d.len(),
{
    if d.len() > 0 {
        assert(d[d.len() - 1].end >= d[0].end) by {
            if d.len() > 1 {
                assert(d[0].end <= d[d.len() - 1].start);
            }
        }
        if y > d[0].start - last {
            lemma_wf_tail(d);
            lemma_to_source_bounds(d.drop_first(), d[0].end, y - (d[0].start - last) - 1);
            if d.drop_first().len() > 0 {
                assert(last_end(d.drop_first()) == last_end(d));
            }
        }
    }
}

proof fn lemma_source_round_trip_from(d: Seq<DecorationView>, last: int, x: int)
    requires
        decorations_wf(d),
        last <= x,
        forall|j: int| 0 <= j < d.len() ==> last <= #[trigger] d[j].start,
        !inside_decoration(d, x),
    ensures
        to_source_from(d, last, to_shown_from(d, last, x)) == x,
    decreases d.len(),
{
    if d.len() > 0 && x >= d[0].start {
        if x < d[0].end {
            assert(x == d[0].start) by {
                if x > d[0].start {
                    assert(d[0].start < x < d[0].end);
                }
            }
        } else {
            lemma_wf_tail(d);
            assert(!inside_decoration(d.drop_first(), x)) by {
                if inside_decoration(d.drop_first(), x) {
                    let i = choose|i: int| 0 <= i < d.drop_first().len() && d.drop_first()[i].start < x < #[trigger] d.drop_first()[i].end;
                    assert(d.drop_first()[i] == d[i + 1]);
                    assert(d[i + 1].start < x < d[i + 1].end);
                }
            }
            lemma_source_round_trip_from(d.drop_first(), d[0].end, x);
            lemma_to_shown_bound(d.drop_first(), d[0].end, x);
        }
    }
}

proof fn lemma_shown_round_trip_from(d: Seq<DecorationView>, last: int, y: int)
    requires
        decorations_wf(d),
        0 <= y,
        forall|j: int| 0 <= j < d.len() ==> last <= #[trigger] d[j].start,
    ensures
        to_shown_from(d, last, to_source_from(d, last, y)) == y,
    decreases d.len(),
{
    if d.len() > 0 && y > d[0].start - last {
        let y2 = y - (d[0].start - last) - 1;
        lemma_wf_tail(d);
        lemma_shown_round_trip_from(d.drop_first(), d[0].end, y2);
        lemma_to_source_bounds(d.drop_first(), d[0].end, y2);
    }
}

/// Mapping a source offset outside every formula to the shown text and
/// back gives the offset again.
pub proof fn law_source_round_trip(b: EditorBlockView, x: int)
    requires
        decorations_wf(b.inline_math),
        0 <= x,
        !inside_decoration(b.inline_math, x),
    ensures
        rendered_to_source_spec(b, source_to_rendered_spec(b, x)) == x,
{
    if !b.is_focused {
        lemma_source_round_trip_from(b.inline_math, 0, x);
    }
}

/// Mapping a shown offset to the source and back gives the offset again.
pub proof fn law_shown_round_trip(b: EditorBlockView, y: int)
    requires
        decorations_wf(b.inline_math),
        0 <= y,
    ensures
        source_to_rendered_spec(b, rendered_to_source_spec(b, y)) == y,
{
    if !b.is_focused {
        lemma_shown_round_trip_from(b.inline_math, 0, y);
    }
}

/// An offset inside a formula is shown on the formula's placeholder, which
/// maps back to the formula's start.
pub proof fn law_inside_formula_snaps_to_start(b: EditorBlockView, i: int, x: int)
    requires
        decorations_wf(b.inline_math),
        !b.is_focused,
        0 <= i < b.inline_math.len(),
        b.inline_math[i].start <= x < b.inline_math[i].end,
    ensures
        rendered_to_source_spec(b, source_to_rendered_spec(b, x)) == b.inline_math[i].start,
{
    let d = b.inline_math;
    let s = d[i].start;
    assert(!inside_decoration(d, s)) by {
        if inside_decoration(d, s) {
            let j = choose|j: int| 0 <= j < d.len() && d[j].start < s < #[trigger] d[j].end;
            if j < i {
                assert(d[j].end <= d[i].start);
            } else if j > i {
                assert(d[i].end <= d[j].start);
            }
        }
    }
    lemma_same_shown(d, 0, s, x, i);
    lemma_source_round_trip_from(d, 0, s);
}

proof fn lemma_same_shown(d: Seq<DecorationView>, last: int, s: int, x: int, i: int)
    requires
        decorations_wf(d),
        forall|j: int| 0 <= j < d.len() ==> last <= #[trigger] d[j].start,
        0 <= i < d.len(),
        s == d[i].start,
        s <= x < d[i].end,
    ensures
        to_shown_from(d, last, x) == to_shown_from(d, last, s),
    decreases d.len(),
{
    if i > 0 {
        assert(d[0].end <= d[i].start);
        lemma_wf_tail(d);
        assert(d.drop_first()[i - 1] == d[i]);
        lemma_same_shown(d.drop_first(), d[0].end, s, x, i - 1);
    }
}

impl EditorBlock {
    /// The shown offset of a byte offset of the block's source.
    pub fn source_to_rendered(&self, source_local: usize) -> (r: usize)
        requires
            decorations_wf(deco_views(self.inline_math@)),
        ensures
            r == source_to_rendered_spec(self@, source_local as int),
    {
        if self.is_focused || self.inline_math.len() == 0 {
            return source_local;
        }
        let ghost d = deco_views(self.inline_math@);
        assert(d.len() == self.inline_math@.len());
        let x = source_local;
        let mut rendered: usize = 0;
        let mut last: usize = 0;
        let mut i: usize = 0;
        assert(d.skip(0) =~= d);
        while i < self.inline_math.len()
            invariant
                !self.is_focused,
                x == source_local,
                d == deco_views(self.inline_math@),
                d.len() == self.inline_math@.len(),
                decorations_wf(d),
                i <= d.len(),
                last <= x,
                rendered <= last,
                forall|j: int| i <= j < d.len() ==> last <= #[trigger] d[j].start,
                rendered + to_shown_from(d.skip(i as int), last as int, x as int) == to_shown_from(d, 0, x as int),
            decreases self.inline_math.len() - i,
        {
            let deco = &self.inline_math[i];
            assert(d[i as int] == deco@);
            assert(d.skip(i as int)[0] == d[i as int]);
            assert(d.skip(i as int).drop_first() =~= d.skip(i + 1));
            if x < deco.start {
                return rendered + (x - last);
            }
            rendered = rendered + (deco.start - last);
            if x < deco.end {
                return rendered;
            }
            rendered = rendered + 1;
            last = deco.end;
            i += 1;
            assert forall|j: int| i <= j < d.len() implies last <= #[trigger] d[j].start by {
                assert(d[i - 1].end <= d[j].start);
            }
        }
        assert(d.skip(i as int).len() == 0);
        rendered + (x - last)
    }

    /// The source byte offset of a shown offset.
    pub fn rendered_to_source(&self, rendered_local: usize) -> (r: usize)
        requires
            decorations_wf(deco_views(self.inline_math@)),
            rendered_local + last_end(deco_views(self.inline_math@)) <= usize::MAX,
        ensures
            r == rendered_to_source_spec(self@, rendered_local as int),
    {
        if self.is_focused || self.inline_math.len() == 0 {
            return rendered_local;
        }
        let ghost d = deco_views(self.inline_math@);
        assert(d.len() == self.inline_math@.len());
        let y = rendered_local;
        let mut shown: usize = 0;
        let mut source: usize = 0;
        let mut i: usize = 0;
        assert(d.skip(0) =~= d);
        while i < self.inline_math.len()
            invariant
                !self.is_focused,
                y == rendered_local,
                d == deco_views(self.inline_math@),
                d.len() == self.inline_math@.len(),
                decorations_wf(d),
                y + last_end(d) <= usize::MAX,
                i <= d.len(),
                shown <= source,
                shown <= y,
                i > 0 ==> source == d[i - 1].end,
                i == 0 ==> source == 0,
                forall|j: int| i <= j < d.len() ==> source <= #[trigger] d[j].start,
                to_source_from(d.skip(i as int), source as int, y - shown) == to_source_from(d, 0, y as int),
            decreases self.inline_math.len() - i,
        {
            let deco = &self.inline_math[i];
            assert(d[i as int] == deco@);
            assert(d.skip(i as int)[0] == d[i as int]);
            assert(d.skip(i as int).drop_first() =~= d.skip(i + 1));
            let gap = deco.start - source;
            if y < shown + gap {
                return source + (y - shown);
            }
            shown = shown + gap;
            if y == shown {
                return deco.start;
            }
            shown = shown + 1;
            source = deco.end;
            i += 1;
            assert forall|j: int| i <= j < d.len() implies source <= #[trigger] d[j].start by {
                assert(d[i - 1].end <= d[j].start);
            }
        }
        assert(d.skip(i as int).len() == 0);
        assert(source as int == last_end(d)) by {
            assert(d.last() == d[i - 1]);
        }
        source + (y - shown)
    }
}

// ---------------------------------------------------------------------------
// Folding inline math
// ---------------------------------------------------------------------------

pub open spec fn placeholder() -> char {
    '\u{FFFC}'
}

/// Whether a `$` at `k` may open inline math: it is not escaped.
pub open spec fn opens_math(s: Seq<char>, k: int) -> bool {
    s[k] == '$' && (k == 0 || s[k - 1] != '\\')
}

/// The next `$` after `k`, when the formula between them is non-empty and
/// on one line.
pub open spec fn math_close_at(s: Seq<char>, k: int) -> Option<int> {
    match first_index_from(s, '$', k + 1) {
        Some(e) => if e > k + 1 && !contains_char(s.subrange(k + 1, e), '\n') {
            Some(e)
        } else {
            None
        },
        None => None,
    }
}

/// The shown text and the decorations of `s` from character `k` on, with
/// the text not yet shown starting at `last`.
pub open spec fn fold_math(s: Seq<char>, k: int, last: int) -> (Seq<char>, Seq<DecorationView>)
    decreases s.len() - k,
{
    if k < 0 || k >= s.len() {
        (s.subrange(last, s.len() as int), seq![])
    } else if opens_math(s, k) && math_close_at(s, k) is Some {
        let e = math_close_at(s, k)->0;
        proof {
            lemma_first_index_props(s, '$', k + 1);
        }
        let rest = fold_math(s, e + 1, e + 1);
        (
            s.subrange(last, k).push(placeholder()) + rest.0,
            seq![
                DecorationView {
                    start: byte_offset(s, k) as int,
                    end: byte_offset(s, e + 1) as int,
                    cache_key: cache_key_spec(RenderKind::Math, s.subrange(k + 1, e)),
                },
            ] + rest.1,
        )
    } else {
        fold_math(s, k + 1, last)
    }
}

proof fn lemma_fold_math_wf(s: Seq<char>, k: int, last: int)
    requires
        0 <= k <= s.len(),
    ensures
        decorations_wf(fold_math(s, k, last).1),
        forall|j: int| 0 <= j < fold_math(s, k, last).1.len() ==> byte_offset(s, k) <= #[trigger] fold_math(s, k, last).1[j].start,
    decreases s.len() - k,
{
    if k < s.len() {
        if opens_math(s, k) && math_close_at(s, k) is Some {
            let e = math_close_at(s, k)->0;
            lemma_first_index_props(s, '$', k + 1);
            lemma_fold_math_wf(s, e + 1, e + 1);
            crate::text::lemma_prefix_bytes_strict(s, k, e + 1);
            let rest = fold_math(s, e + 1, e + 1).1;
            let d = fold_math(s, k, last).1;
            assert forall|j: int| 0 <= j < d.len() implies byte_offset(s, k) <= #[trigger] d[j].start by {
                if j > 0 {
                    assert(d[j] == rest[j - 1]);
                }
            }
            assert forall|a: int, b: int| 0 <= a < b < d.len() implies d[a].end <= d[b].start by {
                assert(d[b] == rest[b - 1]);
                if a > 0 {
                    assert(d[a] == rest[a - 1]);
                }
            }
            assert forall|a: int| 0 <= a < d.len() implies 0 <= #[trigger] d[a].start < d[a].end by {
                if a > 0 {
                    assert(d[a] == rest[a - 1]);
                }
            }
        } else {
            lemma_fold_math_wf(s, k + 1, last);
            crate::text::lemma_prefix_bytes_mono(s, k, k + 1);
        }
    }
}

/// The formulas folded out of a source are in order, none empty, none
/// overlapping: the mappings between source and shown offsets apply.
pub proof fn law_folded_decorations_wf(source: Seq<char>)
    ensures
        decorations_wf(fold_math(source, 0, 0).1),
{
    lemma_fold_math_wf(source, 0, 0);
}

/// Folds every inline formula of a block's source into a placeholder.
fn fold_inline_math(source: &str) -> (r: (Vec<char>, Vec<InlineDecoration>))
    ensures
        r.0@ == fold_math(source@, 0, 0).0,
        deco_views(r.1@) == fold_math(source@, 0, 0).1,
{
    let s = chars_of(source);
    let total = str_byte_len(source);
    let ghost sv = s@;
    let mut text: Vec<char> = Vec::new();
    let mut decos: Vec<InlineDecoration> = Vec::new();
    let mut k: usize = 0;
    let mut last: usize = 0;
    let mut b: usize = 0;
    assert(sv.take(0) =~= Seq::<char>::empty());
    while k < s.len()
        invariant
            sv == s@,
            sv == source@,
            total == utf8_len(sv),
            k <= sv.len(),
            last <= k,
            b == byte_offset(sv, k as int),
            text@ + fold_math(sv, k as int, last as int).0 == fold_math(sv, 0, 0).0,
            deco_views(decos@) + fold_math(sv, k as int, last as int).1 == fold_math(sv, 0, 0).1,
        decreases s.len() - k,
    {
        let c = s[k];
        if c == '$' && (k == 0 || s[k - 1] != '\\') {
            proof {
                lemma_first_index_props(sv, '$', k + 1);
            }
            match find_char_from(&s, k + 1, '$') {
                Some(e) => {
                    let formula = subrange(&s, k + 1, e);
                    if formula.len() > 0 && !contains(&formula, '\n') {
                        assert(math_close_at(sv, k as int) == Some(e as int));
                        let ghost rest = fold_math(sv, e + 1, e + 1);
                        let piece = subrange(&s, last, k);
                        let ghost text0 = text@;
                        append_chars(&mut text, &piece);
                        text.push('\u{FFFC}');
                        assert(text@ =~= text0 + sv.subrange(last as int, k as int).push(placeholder()));
                        proof {
                            let dollar = seq!['$'];
                            assert(sv.take(e + 1) =~= sv.take(k as int) + dollar + formula@ + dollar);
                            lemma_utf8_len_concat(sv.take(k as int), dollar);
                            lemma_utf8_len_concat(sv.take(k as int) + dollar, formula@);
                            lemma_utf8_len_concat(sv.take(k as int) + dollar + formula@, dollar);
                            assert(dollar.drop_last() =~= Seq::<char>::empty());
                            assert(utf8_len(dollar.drop_last()) == 0);
                            assert(dollar.last() == '$');
                            assert(utf8_len(dollar) == 1);
                            lemma_prefix_bytes_bound(sv, e + 1);
                        }
                        let w = byte_len(&formula);
                        let end_b = b + 1 + w + 1;
                        let key = typst_cache_key(&RenderKind::Math, string_of(&formula).as_str());
                        let ghost decos0 = deco_views(decos@);
                        let deco = InlineDecoration { start: b, end: end_b, cache_key: key };
                        decos.push(deco);
                        assert(deco_views(decos@) =~= decos0.push(deco@));
                        assert(fold_math(sv, k as int, last as int).0 == sv.subrange(last as int, k as int).push(placeholder()) + rest.0);
                        assert(text0 + (sv.subrange(last as int, k as int).push(placeholder()) + rest.0) =~= text@ + rest.0);
                        assert(decos0 + (seq![deco@] + rest.1) =~= deco_views(decos@) + rest.1);
                        k = e + 1;
                        b = end_b;
                        last = k;
                        continue;
                    } else {
                        assert(math_close_at(sv, k as int) is None);
                    }
                },
                None => {
                    assert(math_close_at(sv, k as int) is None);
                },
            }
        }
        proof {
            assert(sv.take(k + 1) =~= sv.take(k as int).push(sv[k as int]));
            lemma_utf8_len_push(sv.take(k as int), sv[k as int]);
            lemma_prefix_bytes_bound(sv, k + 1);
        }
        b = b + char_len_utf8(c);
        k += 1;
    }
    let piece = subrange(&s, last, s.len());
    let ghost text0 = text@;
    append_chars(&mut text, &piece);
    assert(deco_views(decos@) + seq![] =~= deco_views(decos@));
    (text, decos)
}

// ---------------------------------------------------------------------------
// Laying the blocks out
// ---------------------------------------------------------------------------

/// Where block `i` starts in the editor's flat text: blocks follow each
/// other with two bytes between them.
pub open spec fn block_start(blocks: Seq<BlockView>, i: int) -> int
    decreases i,
{
    if i <= 0 {
        0
    } else {
        block_start(blocks, i - 1) + utf8_len(blocks[i - 1].source) + 2
    }
}

/// Whether flat offset `off` falls in block `i`, its end included.
pub open spec fn in_block(blocks: Seq<BlockView>, i: int, off: int) -> bool {
    block_start(blocks, i) <= off <= block_start(blocks, i) + utf8_len(blocks[i].source)
}

/// `global_offset_to_block_local`: the block a flat offset falls in and
/// the offset within that block's source; `None` between blocks and past
/// the end.
pub open spec fn block_at_offset(blocks: Seq<BlockView>, off: int) -> Option<(int, int)> {
    if exists|i: int| 0 <= i < blocks.len() && in_block(blocks, i, off) {
        let i = choose|i: int| 0 <= i < blocks.len() && in_block(blocks, i, off);
        Some((i, off - block_start(blocks, i)))
    } else {
        None
    }
}

proof fn lemma_block_start_mono(blocks: Seq<BlockView>, i: int, j: int)
    requires
        0 <= i <= j <= blocks.len(),
    ensures
        block_start(blocks, i) <= block_start(blocks, j),
        i < j ==> block_start(blocks, i) + utf8_len(blocks[i].source) + 2 <= block_start(blocks, j),
    decreases j - i,
{
    if i < j {
        lemma_block_start_mono(blocks, i, j - 1);
    }
}

/// Blocks do not overlap in the flat text, so an offset falls in at most
/// one of them.
pub proof fn law_block_at_offset_unique(blocks: Seq<BlockView>, off: int, i: int)
    requires
        0 <= i < blocks.len(),
        in_block(blocks, i, off),
    ensures
        block_at_offset(blocks, off) == Some((i, off - block_start(blocks, i))),
{
    let k = choose|k: int| 0 <= k < blocks.len() && in_block(blocks, k, off);
    if k < i {
        lemma_block_start_mono(blocks, k, i);
    } else if i < k {
        lemma_block_start_mono(blocks, i, k);
    }
}

impl DocumentModel {
    /// The block a flat editor offset falls in, and the offset within it.
    pub fn global_offset_to_block_local(&self, offset: usize) -> (r: Option<(usize, usize)>)
        ensures
            match r {
                Some((i, local)) => block_at_offset(self@.current.blocks, offset as int) == Some(
                    (i as int, local as int),
                ),
                None => block_at_offset(self@.current.blocks, offset as int) is None,
            },
    {
        let blocks = self.blocks();
        let ghost bv = self@.current.blocks;
        assert(block_views(blocks@).len() == blocks@.len());
        let mut current: usize = 0;
        let mut i: usize = 0;
        while i < blocks.len()
            invariant
                bv == block_views(blocks@),
                bv == self@.current.blocks,
                bv.len() == blocks@.len(),
                i <= blocks@.len(),
                current == block_start(bv, i as int),
                current <= offset,
                forall|j: int| 0 <= j < i ==> !in_block(bv, j, offset as int),
            decreases blocks.len() - i,
        {
            let len = str_byte_len(blocks[i].source.as_str());
            assert(bv[i as int] == blocks@[i as int]@);
            if offset - current <= len {
                proof {
                    law_block_at_offset_unique(bv, offset as int, i as int);
                }
                return Some((i, offset - current));
            }
            if offset - current - len < 2 {
                proof {
                    assert forall|j: int| 0 <= j < bv.len() implies !in_block(bv, j, offset as int) by {
                        if j > i {
                            lemma_block_start_mono(bv, i + 1, j);
                        }
                    }
                }
                return None;
            }
            current = current + len + 2;
            i += 1;
        }
        None
    }
}

/// `block_local_to_global_offset`: the flat offset of an offset within a
/// block; `None` for a block that does not exist or an offset past its end.
pub open spec fn local_to_global(blocks: Seq<BlockView>, i: int, local: int) -> Option<int> {
    if 0 <= i < blocks.len() && 0 <= local <= utf8_len(blocks[i].source) {
        Some(block_start(blocks, i) + local)
    } else {
        None
    }
}

impl DocumentModel {
    /// The flat editor offset of an offset within a block.
    pub fn block_local_to_global_offset(&self, block_index: usize, local_offset: usize) -> (r: Option<usize>)
        requires
            layout_end(self@.current.blocks) <= usize::MAX,
        ensures
            match r {
                Some(g) => local_to_global(self@.current.blocks, block_index as int, local_offset as int) == Some(g as int),
                None => local_to_global(self@.current.blocks, block_index as int, local_offset as int) is None,
            },
    {
        let blocks = self.blocks();
        let ghost bv = self@.current.blocks;
        assert(block_views(blocks@).len() == blocks@.len());
        if block_index >= blocks.len() {
            return None;
        }
        let mut global: usize = 0;
        let mut i: usize = 0;
        proof {
            lemma_block_start_mono(bv, block_index as int + 1, bv.len() as int);
        }
        while i < block_index
            invariant
                bv == block_views(blocks@),
                bv.len() == blocks@.len(),
                block_index < blocks@.len(),
                i <= block_index,
                global == block_start(bv, i as int),
                block_start(bv, block_index as int + 1) <= usize::MAX,
            decreases block_index - i,
        {
            let len = str_byte_len(blocks[i].source.as_str());
            assert(bv[i as int] == blocks@[i as int]@);
            proof {
                lemma_block_start_mono(bv, i + 1, block_index as int);
            }
            global = global + len + 2;
            i += 1;
        }
        let len = str_byte_len(blocks[block_index].source.as_str());
        assert(bv[block_index as int] == blocks@[block_index as int]@);
        if local_offset <= len {
            Some(global + local_offset)
        } else {
            None
        }
    }
}

/// An offset within a block, taken to the flat text and back, is found
/// again in the same block.
pub proof fn law_local_global_round_trip(blocks: Seq<BlockView>, i: int, local: int)
    requires
        0 <= i < blocks.len(),
        0 <= local <= utf8_len(blocks[i].source),
    ensures
        local_to_global(blocks, i, local) matches Some(g) && block_at_offset(blocks, g) == Some((i, local)),
{
    law_block_at_offset_unique(blocks, block_start(blocks, i) + local, i);
}

/// A flat offset that falls in a block, taken to the block and back, is
/// the same offset.
pub proof fn law_global_local_round_trip(blocks: Seq<BlockView>, g: int)
    requires
        block_at_offset(blocks, g) is Some,
    ensures
        block_at_offset(blocks, g) matches Some((i, local)) && local_to_global(blocks, i, local) == Some(g),
{
}

/// Where the flat text ends: the start the block after the last would have.
pub open spec fn layout_end(blocks: Seq<BlockView>) -> int {
    block_start(blocks, blocks.len() as int)
}

/// The length of the document's flat editor text, when it fits in a
/// `usize`.
pub fn editor_layout_len(document: &DocumentModel) -> (r: Option<usize>)
    ensures
        match r {
            Some(n) => n == layout_end(document@.current.blocks),
            None => layout_end(document@.current.blocks) > usize::MAX,
        },
{
    let blocks = document.blocks();
    let ghost bv = document@.current.blocks;
    assert(block_views(blocks@).len() == blocks@.len());
    let mut current: usize = 0;
    let mut i: usize = 0;
    while i < blocks.len()
        invariant
            bv == block_views(blocks@),
            bv == document@.current.blocks,
            bv.len() == blocks@.len(),
            i <= blocks@.len(),
            current == block_start(bv, i as int),
        decreases blocks.len() - i,
    {
        let len = str_byte_len(blocks[i].source.as_str());
        assert(bv[i as int] == blocks@[i as int]@);
        if len > usize::MAX - 2 || current > usize::MAX - 2 - len {
            proof {
                lemma_block_start_mono(bv, i + 1, bv.len() as int);
            }
            return None;
        }
        current = current + len + 2;
        i += 1;
    }
    Some(current)
}

/// One editor block: the focused block keeps its source; any other block
/// shows its source with inline math folded.
pub open spec fn editor_block_spec(b: BlockView, start: int, focused: bool) -> EditorBlockView {
    EditorBlockView {
        text: if focused {
            b.source
        } else {
            fold_math(b.source, 0, 0).0
        },
        global_start: start,
        is_focused: focused,
        kind: b.kind,
        inline_math: if focused {
            seq![]
        } else {
            fold_math(b.source, 0, 0).1
        },
    }
}

/// The block the editor's cursor is in, if any.
pub open spec fn focused_index(blocks: Seq<BlockView>, cursor: Option<usize>) -> Option<int> {
    match cursor {
        Some(c) => match block_at_offset(blocks, c as int) {
            Some((i, _)) => Some(i),
            None => None,
        },
        None => None,
    }
}

pub open spec fn editor_blocks_spec(blocks: Seq<BlockView>, cursor: Option<usize>) -> Seq<EditorBlockView> {
    Seq::new(
        blocks.len(),
        |i: int|
            editor_block_spec(
                blocks[i],
                block_start(blocks, i),
                focused_index(blocks, cursor) == Some(i),
            ),
    )
}

/// The editor blocks of a document, with the block the cursor is in shown
/// as source.
pub fn generate_editor_blocks(doc: &DocumentModel, global_cursor: Option<usize>) -> (r: Vec<EditorBlock>)
    requires
        layout_end(doc@.current.blocks) <= usize::MAX,
    ensures
        editor_views(r@) == editor_blocks_spec(doc@.current.blocks, global_cursor),
        forall|i: int| 0 <= i < r@.len() ==> decorations_wf(#[trigger] editor_views(r@)[i].inline_math),
{
    let ghost bv = doc@.current.blocks;
    let focused: Option<usize> = match global_cursor {
        Some(c) => match doc.global_offset_to_block_local(c) {
            Some((index, _)) => Some(index),
            None => None,
        },
        None => None,
    };
    let blocks = doc.blocks();
    assert(block_views(blocks@).len() == blocks@.len());
    let mut out: Vec<EditorBlock> = Vec::new();
    let mut current: usize = 0;
    let mut i: usize = 0;
    while i < blocks.len()
        invariant
            bv == block_views(blocks@),
            bv.len() == blocks@.len(),
            layout_end(bv) <= usize::MAX,
            i <= blocks@.len(),
            current == block_start(bv, i as int),
            match focused {
                Some(f) => focused_index(bv, global_cursor) == Some(f as int),
                None => focused_index(bv, global_cursor) is None,
            },
            out@.len() == i,
            editor_views(out@).len() == i,
            forall|j: int| 0 <= j < i ==> #[trigger] editor_views(out@)[j] == editor_blocks_spec(bv, global_cursor)[j],
        decreases blocks.len() - i,
    {
        let block = &blocks[i];
        assert(bv[i as int] == block@);
        let is_focused = match focused {
            Some(f) => f == i,
            None => false,
        };
        let (text, inline_math) = if is_focused {
            (crate::text::copy_string(&block.source), Vec::new())
        } else {
            let (t, d) = fold_inline_math(block.source.as_str());
            (string_of(&t), d)
        };
        let eb = EditorBlock {
            text,
            global_start: current,
            is_focused,
            kind: block.kind.deep_copy(),
            inline_math,
        };
        assert(deco_views(Seq::<InlineDecoration>::empty()) =~= Seq::<DecorationView>::empty());
        assert(eb@ == editor_blocks_spec(bv, global_cursor)[i as int]);
        let ghost out0 = out@;
        let ghost ebv = eb@;
        out.push(eb);
        assert(editor_views(out@).len() == i + 1);
        assert forall|j: int| 0 <= j < i + 1 implies #[trigger] editor_views(out@)[j] == editor_blocks_spec(bv, global_cursor)[j] by {
            assert(editor_views(out@)[j] == out@[j]@);
            if j < i {
                assert(out@[j] == out0[j]);
                assert(editor_views(out0)[j] == out0[j]@);
            } else {
                assert(out@[j]@ == ebv);
            }
        }
        let len = str_byte_len(block.source.as_str());
        proof {
            lemma_block_start_mono(bv, i + 1, bv.len() as int);
        }
        current = current + len + 2;
        i += 1;
    }
    assert(editor_views(out@) =~= editor_blocks_spec(bv, global_cursor));
    assert forall|i: int| 0 <= i < out@.len() implies decorations_wf(#[trigger] editor_views(out@)[i].inline_math) by {
        law_folded_decorations_wf(bv[i].source);
    }
    out
}

} // verus!
