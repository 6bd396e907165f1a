//! Syntax highlighting of Rust code: tree-sitter finds the captures of a
//! highlight query, and they are turned into a run of coloured spans that
//! covers the text.
use vstd::prelude::*;
use tree_sitter::{Language, Parser, Query, QueryCursor, StreamingIterator};
use crate::text::{byte_offset, char_index, char_index_of, chars_of, is_boundary, lemma_char_index_unique, str_byte_len, string_from, string_of, subrange, utf8_len};

verus! {

/// The token class a span is coloured as.
#[derive(Debug, Clone, Copy, PartialEq, Eq, Structural)]
pub enum HighlightKind {
    Keyword,
    String,
    Comment,
    Function,
    Number,
    Constant,
    TypeName,
    Other,
}

/// A piece of the text and its class.
#[derive(Debug, Clone, PartialEq, Eq)]
pub struct HighlightedSpan {
    pub text: String,
    pub kind: HighlightKind,
}

pub struct SpanView {
    pub text: Seq<char>,
    pub kind: HighlightKind,
}

impl View for HighlightedSpan {
    type V = SpanView;

    open spec fn view(&self) -> SpanView {
        SpanView { text: self.text@, kind: self.kind }
    }
}

pub open spec fn span_views(v: Seq<HighlightedSpan>) -> Seq<SpanView> {
    v.map_values(|s: HighlightedSpan| s@)
}

/// One capture of the query: a byte range of the text and the name of
/// the capture.
#[derive(Debug, Clone)]
pub struct Capture {
    pub start: usize,
    pub end: usize,
    pub name: String,
}

impl View for Capture {
    type V = (usize, usize, Seq<char>);

    open spec fn view(&self) -> (usize, usize, Seq<char>) {
        (self.start, self.end, self.name@)
    }
}

pub open spec fn capture_views(v: Seq<Capture>) -> Seq<(usize, usize, Seq<char>)> {
    v.map_values(|c: Capture| c@)
}

/// The highlight query for Rust.
pub const RUST_HIGHLIGHT_QUERY: &'static str = r#"
            [
              "use" "mod" "fn" "struct" "enum" "impl" "trait" "let" "const"
              "static" "if" "else" "match" "loop" "while" "for" "in" "return" "break" "continue"
            ] @keyword

            (string_literal) @string
            (line_comment) @comment
            (block_comment) @comment
            (function_item name: (identifier) @function)
            (call_expression function: (identifier) @function)
            (integer_literal) @number
            (type_identifier) @type_name
            "#;

/// The captures tree-sitter finds for a query over a text parsed as Rust,
/// in the order of its matches; `None` when the query does not compile or
/// the text is not parsed.
pub uninterp spec fn rust_captures(query: Seq<char>, text: Seq<char>) -> Option<Seq<(usize, usize, Seq<char>)>>;

/// Parses `text` with tree-sitter's Rust grammar (`Parser::parse`) and runs
/// the query compiled by `Query::new` over it with `QueryCursor::matches`;
/// every capture of every match, in order, as its node's byte range and
/// the capture's name. The result is named, not stated.
#[verifier::external_body]
fn run_rust_query(query_source: &str, text: &str) -> (r: Option<Vec<Capture>>)
    ensures
        match r {
            Some(v) => rust_captures(query_source@, text@) == Some(capture_views(v@)),
            None => rust_captures(query_source@, text@) is None,
        },
{
    let language: Language = tree_sitter_rust::LANGUAGE.into();
    let query = Query::new(&language, query_source).ok()?;
    let mut parser = Parser::new();
    parser.set_language(&language).ok()?;
    let tree = parser.parse(text, None)?;
    let mut cursor = QueryCursor::new();
    let mut matches = cursor.matches(&query, tree.root_node(), text.as_bytes());
    let mut out = Vec::new();
    while let Some(m) = matches.next() {
        for c in m.captures() {
            let name = query.capture_names()[c.index as usize].to_string();
            out.push(Capture { start: c.node.start_byte(), end: c.node.end_byte(), name });
        }
    }
    Some(out)
}

/// The class of a capture name.
pub open spec fn kind_of_name(name: Seq<char>) -> HighlightKind {
    if name == "keyword"@ {
        HighlightKind::Keyword
    } else if name == "string"@ {
        HighlightKind::String
    } else if name == "comment"@ {
        HighlightKind::Comment
    } else if name == "function"@ {
        HighlightKind::Function
    } else if name == "number"@ {
        HighlightKind::Number
    } else if name == "constant"@ {
        HighlightKind::Constant
    } else if name == "type_name"@ {
        HighlightKind::TypeName
    } else {
        HighlightKind::Other
    }
}

fn name_is(name: &Vec<char>, s: &str) -> (r: bool)
    ensures
        r == (name@ == s@),
{
    crate::text::chars_eq(name, &chars_of(s))
}

pub fn kind_of_capture(name: &str) -> (r: HighlightKind)
    ensures
        r == kind_of_name(name@),
{
    let n = chars_of(name);
    if name_is(&n, "keyword") {
        HighlightKind::Keyword
    } else if name_is(&n, "string") {
        HighlightKind::String
    } else if name_is(&n, "comment") {
        HighlightKind::Comment
    } else if name_is(&n, "function") {
        HighlightKind::Function
    } else if name_is(&n, "number") {
        HighlightKind::Number
    } else if name_is(&n, "constant") {
        HighlightKind::Constant
    } else if name_is(&n, "type_name") {
        HighlightKind::TypeName
    } else {
        HighlightKind::Other
    }
}

// ---------------------------------------------------------------------------
// Ordering the captures
// ---------------------------------------------------------------------------

/// Puts `c` after every capture that starts no later than it.
pub open spec fn insert_by_start(sorted: Seq<(usize, usize, Seq<char>)>, c: (usize, usize, Seq<char>)) -> Seq<(usize, usize, Seq<char>)>
    decreases sorted.len(),
{
    if sorted.len() == 0 {
        seq![c]
    } else if sorted.last().0 <= c.0 {
        sorted.push(c)
    } else {
        insert_by_start(sorted.drop_last(), c).push(sorted.last())
    }
}

/// The captures ordered by start byte; captures with the same start keep
/// their order (a stable sort).
pub open spec fn sort_by_start(s: Seq<(usize, usize, Seq<char>)>) -> Seq<(usize, usize, Seq<char>)>
    decreases s.len(),
{
    if s.len() == 0 {
        s
    } else {
        insert_by_start(sort_by_start(s.drop_last()), s.last())
    }
}

pub open spec fn sorted_by_start(s: Seq<(usize, usize, Seq<char>)>) -> bool {
    forall|i: int, j: int| 0 <= i < j < s.len() ==> s[i].0 <= s[j].0
}

proof fn lemma_insert_shape(sorted: Seq<(usize, usize, Seq<char>)>, c: (usize, usize, Seq<char>), p: int)
    requires
        0 <= p <= sorted.len(),
        forall|k: int| p <= k < sorted.len() ==> sorted[k].0 > c.0,
        p > 0 ==> sorted[p - 1].0 <= c.0,
    ensures
        insert_by_start(sorted, c) == sorted.take(p).push(c) + sorted.skip(p),
    decreases sorted.len(),
{
    if sorted.len() == 0 {
        assert(sorted.take(p).push(c) + sorted.skip(p) =~= seq![c]);
    } else if sorted.last().0 <= c.0 {
        assert(p == sorted.len());
        assert(sorted.take(p) =~= sorted);
        assert(sorted.skip(p) =~= Seq::<(usize, usize, Seq<char>)>::empty());
        assert(sorted.take(p).push(c) + sorted.skip(p) =~= sorted.push(c));
    } else {
        let s2 = sorted.drop_last();
        lemma_insert_shape(s2, c, p);
        assert(sorted.take(p).push(c) + sorted.skip(p) =~= (s2.take(p).push(c) + s2.skip(p)).push(sorted.last()));
    }
}

proof fn lemma_insert_sorted(sorted: Seq<(usize, usize, Seq<char>)>, c: (usize, usize, Seq<char>))
    requires
        sorted_by_start(sorted),
    ensures
        sorted_by_start(insert_by_start(sorted, c)),
        insert_by_start(sorted, c).len() == sorted.len() + 1,
        insert_by_start(sorted, c).to_multiset() =~= sorted.to_multiset().insert(c),
    decreases sorted.len(),
{
    broadcast use vstd::seq_lib::group_to_multiset_ensures;
    if sorted.len() == 0 {
        assert(seq![c] =~= Seq::<(usize, usize, Seq<char>)>::empty().push(c));
    } else if sorted.last().0 <= c.0 {
    } else {
        let s2 = sorted.drop_last();
        lemma_insert_sorted(s2, c);
        let r = insert_by_start(s2, c);
        assert(sorted =~= s2.push(sorted.last()));
        assert forall|i: int, j: int| 0 <= i < j < r.push(sorted.last()).len() implies r.push(sorted.last())[i].0 <= r.push(sorted.last())[j].0 by {
            if j == r.len() {
                lemma_insert_members(s2, c, i);
            }
        }
    }
}

proof fn lemma_insert_members(sorted: Seq<(usize, usize, Seq<char>)>, c: (usize, usize, Seq<char>), i: int)
    requires
        sorted_by_start(sorted),
        0 <= i < insert_by_start(sorted, c).len(),
    ensures
        insert_by_start(sorted, c)[i] == c || exists|k: int| 0 <= k < sorted.len() && insert_by_start(sorted, c)[i] == sorted[k],
    decreases sorted.len(),
{
    if sorted.len() == 0 {
    } else if sorted.last().0 <= c.0 {
        if i < sorted.len() {
            assert(insert_by_start(sorted, c)[i] == sorted[i]);
        }
    } else {
        let s2 = sorted.drop_last();
        let r = insert_by_start(s2, c);
        if i < r.len() {
            lemma_insert_members(s2, c, i);
            if r[i] != c {
                let k = choose|k: int| 0 <= k < s2.len() && r[i] == s2[k];
                assert(sorted[k] == s2[k]);
            }
        } else {
            assert(insert_by_start(sorted, c)[i] == sorted[sorted.len() - 1]);
        }
    }
}

/// Sorting by start orders the captures by start byte and keeps every
/// capture, as many times as it occurs.
pub proof fn law_sort_by_start(s: Seq<(usize, usize, Seq<char>)>)
    ensures
        sorted_by_start(sort_by_start(s)),
        sort_by_start(s).len() == s.len(),
        sort_by_start(s).to_multiset() =~= s.to_multiset(),
    decreases s.len(),
{
    broadcast use vstd::seq_lib::group_to_multiset_ensures;
    if s.len() > 0 {
        law_sort_by_start(s.drop_last());
        lemma_insert_sorted(sort_by_start(s.drop_last()), s.last());
        assert(s =~= s.drop_last().push(s.last()));
    }
}

fn sort_captures(captures: Vec<Capture>) -> (r: Vec<Capture>)
    ensures
        capture_views(r@) == sort_by_start(capture_views(captures@)),
{
    let ghost cv = capture_views(captures@);
    let mut out: Vec<Capture> = Vec::new();
    let rest = captures;
    let mut i: usize = 0;
    let n = rest.len();
    assert(cv.take(0) =~= Seq::<(usize, usize, Seq<char>)>::empty());
    while i < n
        invariant
            n == cv.len(),
            rest@.len() == n,
            capture_views(rest@) == cv,
            i <= n,
            capture_views(out@) == sort_by_start(cv.take(i as int)),
            sorted_by_start(capture_views(out@)),
            out@.len() == i,
        decreases n - i,
    {
        let c = rest[i].clone_capture();
        assert(c@ == cv[i as int]);
        let ghost before = capture_views(out@);
        proof {
            law_sort_by_start(cv.take(i as int));
        }
        let mut p: usize = out.len();
        while p > 0 && out[p - 1].start > c.start
            invariant
                p <= out@.len(),
                before == capture_views(out@),
                forall|k: int| p <= k < before.len() ==> before[k].0 > c.start,
            decreases p,
        {
            assert(before[p - 1] == out@[p - 1]@);
            p -= 1;
        }
        proof {
            if p > 0 {
                assert(before[p - 1] == out@[p - 1]@);
            }
            lemma_insert_shape(before, c@, p as int);
            lemma_insert_sorted(before, c@);
        }
        out.insert(p, c);
        assert(capture_views(out@) =~= before.take(p as int).push(cv[i as int]) + before.skip(p as int));
        assert(cv.take(i + 1).drop_last() =~= cv.take(i as int));
        assert(cv.take(i + 1).last() == cv[i as int]);
        i += 1;
    }
    assert(cv.take(n as int) =~= cv);
    out
}

impl Capture {
    /// A copy of the capture.
    pub fn clone_capture(&self) -> (r: Capture)
        ensures
            r@ == self@,
    {
        Capture { start: self.start, end: self.end, name: crate::text::copy_string(&self.name) }
    }
}

// ---------------------------------------------------------------------------
// Spans
// ---------------------------------------------------------------------------

/// The text between two byte offsets.
pub open spec fn byte_slice(text: Seq<char>, a: int, b: int) -> Seq<char> {
    text.subrange(char_index(text, a), char_index(text, b))
}

/// Every capture is a range of whole characters of the text.
pub open spec fn captures_fit(text: Seq<char>, caps: Seq<(usize, usize, Seq<char>)>) -> bool {
    forall|i: int|
        0 <= i < caps.len() ==> {
            &&& #[trigger] caps[i].0 <= caps[i].1 <= utf8_len(text)
            &&& is_boundary(text, caps[i].0 as int)
            &&& is_boundary(text, caps[i].1 as int)
        }
}

/// The spans of the text from capture `i` on, where everything before byte
/// `last` is already covered: the text up to a capture is plain, a capture
/// that starts inside covered text is dropped, and the rest after the last
/// capture is plain.
pub open spec fn fold_spans(text: Seq<char>, caps: Seq<(usize, usize, Seq<char>)>, i: int, last: int) -> Seq<SpanView>
    decreases caps.len() - i,
{
    if i < 0 || i >= caps.len() {
        if last < utf8_len(text) {
            seq![SpanView { text: byte_slice(text, last, utf8_len(text) as int), kind: HighlightKind::Other }]
        } else {
            seq![]
        }
    } else {
        let c = caps[i];
        if (c.0 as int) < last {
            fold_spans(text, caps, i + 1, last)
        } else {
            let gap = if (c.0 as int) > last {
                seq![SpanView { text: byte_slice(text, last, c.0 as int), kind: HighlightKind::Other }]
            } else {
                seq![]
            };
            gap + seq![SpanView { text: byte_slice(text, c.0 as int, c.1 as int), kind: kind_of_name(c.2) }]
                + fold_spans(text, caps, i + 1, c.1 as int)
        }
    }
}

fn byte_to_index(t: &Vec<char>, b: usize) -> (k: usize)
    requires
        is_boundary(t@, b as int),
    ensures
        k <= t@.len(),
        k == char_index(t@, b as int),
{
    match char_index_of(t, b) {
        Some(k) => {
            proof {
                lemma_char_index_unique(t@, k as int);
            }
            k
        },
        None => {
            assert(false);
            0
        },
    }
}

fn slice_bytes(t: &Vec<char>, a: usize, b: usize) -> (r: String)
    requires
        is_boundary(t@, a as int),
        is_boundary(t@, b as int),
        a <= b,
    ensures
        r@ == byte_slice(t@, a as int, b as int),
{
    let i = byte_to_index(t, a);
    let j = byte_to_index(t, b);
    proof {
        if j < i {
            crate::text::lemma_prefix_bytes_strict(t@, j as int, i as int);
        }
    }
    string_of(&subrange(t, i, j))
}

/// Whether every capture is a range of whole characters of the text.
pub fn captures_fit_text(text: &str, captures: &Vec<Capture>) -> (r: bool)
    ensures
        r == captures_fit(text@, capture_views(captures@)),
{
    let t = chars_of(text);
    let total = str_byte_len(text);
    let ghost cv = capture_views(captures@);
    let mut i: usize = 0;
    while i < captures.len()
        invariant
            t@ == text@,
            total == utf8_len(text@),
            cv == capture_views(captures@),
            cv.len() == captures@.len(),
            i <= captures@.len(),
            forall|k: int|
                0 <= k < i ==> {
                    &&& #[trigger] cv[k].0 <= cv[k].1 <= utf8_len(text@)
                    &&& is_boundary(text@, cv[k].0 as int)
                    &&& is_boundary(text@, cv[k].1 as int)
                },
        decreases captures.len() - i,
    {
        let c = &captures[i];
        assert(cv[i as int] == c@);
        if !(c.start <= c.end && c.end <= total) {
            assert(!(cv[i as int].0 <= cv[i as int].1 <= utf8_len(text@)));
            return false;
        }
        let a = char_index_of(&t, c.start);
        let b = char_index_of(&t, c.end);
        if a.is_none() || b.is_none() {
            assert(!is_boundary(text@, cv[i as int].0 as int) || !is_boundary(text@, cv[i as int].1 as int));
            assert(cv[i as int].0 <= cv[i as int].1);
            return false;
        }
        proof {
            let ka = a->0 as int;
            let kb = b->0 as int;
            assert(0 <= ka <= text@.len() && byte_offset(text@, ka) == c.start);
            assert(0 <= kb <= text@.len() && byte_offset(text@, kb) == c.end);
        }
        i += 1;
    }
    true
}

/// The spans of a text for captures ordered by start.
pub fn spans_from_captures(text: &str, captures: &Vec<Capture>) -> (r: Vec<HighlightedSpan>)
    requires
        captures_fit(text@, capture_views(captures@)),
    ensures
        span_views(r@) == fold_spans(text@, capture_views(captures@), 0, 0),
{
    let t = chars_of(text);
    let total = str_byte_len(text);
    let ghost cv = capture_views(captures@);
    let mut spans: Vec<HighlightedSpan> = Vec::new();
    let mut last: usize = 0;
    let mut i: usize = 0;
    proof {
        crate::text::lemma_char_index_unique(text@, 0);
        assert(text@.take(0) =~= Seq::<char>::empty());
    }
    while i < captures.len()
        invariant
            t@ == text@,
            total == utf8_len(text@),
            cv == capture_views(captures@),
            cv.len() == captures@.len(),
            captures_fit(text@, cv),
            i <= captures@.len(),
            last <= total,
            is_boundary(text@, last as int),
            span_views(spans@) + fold_spans(text@, cv, i as int, last as int) == fold_spans(text@, cv, 0, 0),
        decreases captures.len() - i,
    {
        let c = &captures[i];
        assert(cv[i as int] == c@);
        let ghost s0 = span_views(spans@);
        if c.start < last {
            i += 1;
        } else {
            let ghost gap: Seq<SpanView> = if c.start > last {
                seq![SpanView { text: byte_slice(text@, last as int, c.start as int), kind: HighlightKind::Other }]
            } else {
                seq![]
            };
            if c.start > last {
                let piece = slice_bytes(&t, last, c.start);
                spans.push(HighlightedSpan { text: piece, kind: HighlightKind::Other });
            }
            assert(span_views(spans@) =~= s0 + gap);
            let piece = slice_bytes(&t, c.start, c.end);
            let kind = kind_of_capture(c.name.as_str());
            let ghost s1 = span_views(spans@);
            spans.push(HighlightedSpan { text: piece, kind });
            assert(span_views(spans@) =~= s1.push(SpanView { text: byte_slice(text@, c.start as int, c.end as int), kind: kind_of_name(cv[i as int].2) }));
            assert(s0 + (gap + seq![SpanView { text: byte_slice(text@, c.start as int, c.end as int), kind: kind_of_name(cv[i as int].2) }] + fold_spans(text@, cv, i + 1, c.end as int))
                =~= span_views(spans@) + fold_spans(text@, cv, i + 1, c.end as int));
            last = c.end;
            i += 1;
        }
    }
    if last < total {
        let ghost s0 = span_views(spans@);
        proof {
            crate::text::lemma_char_index_unique(text@, text@.len() as int);
            assert(text@.take(text@.len() as int) =~= text@);
        }
        let piece = slice_bytes(&t, last, total);
        spans.push(HighlightedSpan { text: piece, kind: HighlightKind::Other });
        assert(span_views(spans@) =~= s0 + fold_spans(text@, cv, i as int, last as int));
    } else {
        assert(span_views(spans@) =~= span_views(spans@) + fold_spans(text@, cv, i as int, last as int));
    }
    spans
}

/// The texts of the spans, one after the other.
pub open spec fn joined(spans: Seq<SpanView>) -> Seq<char>
    decreases spans.len(),
{
    if spans.len() == 0 {
        seq![]
    } else {
        spans[0].text + joined(spans.drop_first())
    }
}

proof fn lemma_joined_add(a: Seq<SpanView>, b: Seq<SpanView>)
    ensures
        joined(a + b) == joined(a) + joined(b),
    decreases a.len(),
{
    if a.len() == 0 {
        assert(a + b =~= b);
        assert(joined(a) + joined(b) =~= joined(b));
    } else {
        assert((a + b).drop_first() =~= a.drop_first() + b);
        lemma_joined_add(a.drop_first(), b);
        assert((a + b)[0] == a[0]);
        assert(a[0].text + (joined(a.drop_first()) + joined(b)) =~= (a[0].text + joined(a.drop_first())) + joined(b));
    }
}

proof fn lemma_joined_single(v: SpanView)
    ensures
        joined(seq![v]) == v.text,
{
    let one = seq![v];
    assert(one.drop_first() =~= Seq::<SpanView>::empty());
    assert(joined(one.drop_first()) == Seq::<char>::empty());
    assert(one[0] == v);
    assert(joined(one) =~= v.text);
}

proof fn lemma_index_mono(t: Seq<char>, a: int, b: int)
    requires
        is_boundary(t, a),
        is_boundary(t, b),
        a <= b,
    ensures
        0 <= char_index(t, a) <= char_index(t, b) <= t.len(),
        byte_offset(t, char_index(t, a)) == a,
        byte_offset(t, char_index(t, b)) == b,
{
    let ka = char_index(t, a);
    let kb = char_index(t, b);
    if kb < ka {
        crate::text::lemma_prefix_bytes_strict(t, kb, ka);
    }
}

proof fn lemma_slices_join(t: Seq<char>, a: int, b: int, c: int)
    requires
        is_boundary(t, a),
        is_boundary(t, b),
        is_boundary(t, c),
        a <= b <= c,
    ensures
        byte_slice(t, a, b) + byte_slice(t, b, c) == byte_slice(t, a, c),
{
    lemma_index_mono(t, a, b);
    lemma_index_mono(t, b, c);
    assert(byte_slice(t, a, b) + byte_slice(t, b, c) =~= byte_slice(t, a, c));
}

proof fn lemma_fold_spans_cover(text: Seq<char>, caps: Seq<(usize, usize, Seq<char>)>, i: int, last: int)
    requires
        captures_fit(text, caps),
        0 <= i,
        is_boundary(text, last),
        last <= utf8_len(text),
    ensures
        joined(fold_spans(text, caps, i, last)) == byte_slice(text, last, utf8_len(text) as int),
    decreases caps.len() - i,
{
    let l = utf8_len(text) as int;
    assert(is_boundary(text, l)) by {
        lemma_char_index_unique(text, text.len() as int);
        assert(text.take(text.len() as int) =~= text);
    }
    if i >= caps.len() {
        if last < l {
            lemma_joined_single(SpanView { text: byte_slice(text, last, l), kind: HighlightKind::Other });
        } else {
            lemma_index_mono(text, last, l);
            assert(byte_slice(text, last, l) =~= Seq::<char>::empty());
        }
    } else {
        let c = caps[i];
        if (c.0 as int) < last {
            lemma_fold_spans_cover(text, caps, i + 1, last);
        } else {
            lemma_fold_spans_cover(text, caps, i + 1, c.1 as int);
            let cap = seq![SpanView { text: byte_slice(text, c.0 as int, c.1 as int), kind: kind_of_name(c.2) }];
            let rest = fold_spans(text, caps, i + 1, c.1 as int);
            lemma_joined_single(cap[0]);
            assert(cap =~= seq![cap[0]]);
            lemma_joined_add(cap, rest);
            lemma_slices_join(text, c.0 as int, c.1 as int, l);
            if (c.0 as int) > last {
                let gap = seq![SpanView { text: byte_slice(text, last, c.0 as int), kind: HighlightKind::Other }];
                lemma_joined_single(gap[0]);
                assert(gap =~= seq![gap[0]]);
                lemma_joined_add(gap, cap + rest);
                assert(gap + cap + rest =~= gap + (cap + rest));
                lemma_slices_join(text, last, c.0 as int, l);
            } else {
                let empty = Seq::<SpanView>::empty();
                assert(empty + cap + rest =~= cap + rest);
            }
        }
    }
}

/// The spans of a text, one after the other, give the text back.
pub proof fn law_spans_cover_text(text: Seq<char>, caps: Seq<(usize, usize, Seq<char>)>)
    requires
        captures_fit(text, caps),
    ensures
        joined(fold_spans(text, caps, 0, 0)) == text,
{
    lemma_char_index_unique(text, 0);
    assert(text.take(0) =~= Seq::<char>::empty());
    lemma_fold_spans_cover(text, caps, 0, 0);
    lemma_char_index_unique(text, text.len() as int);
    assert(text.take(text.len() as int) =~= text);
    assert(byte_slice(text, 0, utf8_len(text) as int) =~= text);
}

/// Whatever tree-sitter finds, the highlighted spans together are the
/// text.
pub proof fn law_highlight_covers_text(query: Seq<char>, text: Seq<char>)
    ensures
        joined(highlight_spec(query, text)) == text,
{
    assert(captures_fit(text, Seq::<(usize, usize, Seq<char>)>::empty()));
    law_spans_cover_text(text, seq![]);
    match rust_captures(query, text) {
        Some(c) => {
            if captures_fit(text, sort_by_start(c)) {
                law_spans_cover_text(text, sort_by_start(c));
            }
        },
        None => {},
    }
}

/// Highlights Rust code.
pub struct SyntaxHighlighter {
    query: String,
}

/// The spans `highlight` gives: those of the ordered captures when they
/// fit the text, else the whole text as one plain span.
pub open spec fn highlight_spec(query: Seq<char>, text: Seq<char>) -> Seq<SpanView> {
    spans_from_found(text, rust_captures(query, text))
}

/// The spans of `text` from what a query found: the captures in order of
/// their start, when they fit the text; otherwise, or when the query found
/// nothing, the text as plain spans.
pub open spec fn spans_from_found(text: Seq<char>, found: Option<Seq<(usize, usize, Seq<char>)>>) -> Seq<
    SpanView,
> {
    match found {
        Some(c) => if captures_fit(text, sort_by_start(c)) {
            fold_spans(text, sort_by_start(c), 0, 0)
        } else {
            fold_spans(text, seq![], 0, 0)
        },
        None => fold_spans(text, seq![], 0, 0),
    }
}

pub open spec fn found_view(found: Option<Vec<Capture>>) -> Option<Seq<(usize, usize, Seq<char>)>> {
    match found {
        Some(c) => Some(capture_views(c@)),
        None => None,
    }
}

/// The spans of `text` from the captures a query found (see
/// `spans_from_found`).
pub fn highlight_found(text: &str, found: Option<Vec<Capture>>) -> (r: Vec<HighlightedSpan>)
    ensures
        span_views(r@) == spans_from_found(text@, found_view(found)),
{
    let empty: Vec<Capture> = Vec::new();
    assert(capture_views(empty@) =~= Seq::<(usize, usize, Seq<char>)>::empty());
    match found {
        Some(found) => {
            let sorted = sort_captures(found);
            if captures_fit_text(text, &sorted) {
                spans_from_captures(text, &sorted)
            } else {
                spans_from_captures(text, &empty)
            }
        },
        None => spans_from_captures(text, &empty),
    }
}

impl SyntaxHighlighter {
    pub closed spec fn query_source(&self) -> Seq<char> {
        self.query@
    }

    /// A highlighter with the Rust highlight query.
    pub fn new_rust() -> (r: SyntaxHighlighter)
        ensures
            r.query_source() == RUST_HIGHLIGHT_QUERY@,
    {
        SyntaxHighlighter { query: string_from(RUST_HIGHLIGHT_QUERY) }
    }

    /// The spans of `text`, which together cover it.
    pub fn highlight(&self, text: &str) -> (r: Vec<HighlightedSpan>)
        ensures
            span_views(r@) == highlight_spec(self.query_source(), text@),
    {
        let found = run_rust_query(self.query.as_str(), text);
        highlight_found(text, found)
    }
}

} // verus!
