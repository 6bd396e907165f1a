//! Document blocks: their kinds, how a block's source is rendered to plain
//! text, and the line classifiers of the Markdown block parser.
use vstd::prelude::*;
use crate::text::{
    all_digits, chars_of, copy_string, ends_with, find, find_chars,
    has_prefix, has_suffix, is_digit, join, join_chars, lines,
    split_lines_chars, starts_with, string_of, subrange, trim, trim_chars, trim_start,
    trim_start_chars, views_of,
};
use crate::html::{
    adapt_html, adapt_html_spec, adapter_opt_view, summarize_html_nodes, summarize_spec,
    HtmlAdapter, HtmlAdapterView,
};

verus! {

// ---------------------------------------------------------------------------
// Types
// ---------------------------------------------------------------------------

#[derive(Debug, Clone, PartialEq, Eq)]
pub enum BlockKind {
    Heading { level: u8 },
    Paragraph,
    ListItem { ordered: bool },
    Quote,
    CodeFence { language: Option<String> },
    MathBlock,
    TypstBlock,
}

pub enum BlockKindView {
    Heading { level: u8 },
    Paragraph,
    ListItem { ordered: bool },
    Quote,
    CodeFence { language: Option<Seq<char>> },
    MathBlock,
    TypstBlock,
}

impl View for BlockKind {
    type V = BlockKindView;

    open spec fn view(&self) -> BlockKindView {
        match self {
            BlockKind::Heading { level } => BlockKindView::Heading { level: *level },
            BlockKind::Paragraph => BlockKindView::Paragraph,
            BlockKind::ListItem { ordered } => BlockKindView::ListItem { ordered: *ordered },
            BlockKind::Quote => BlockKindView::Quote,
            BlockKind::CodeFence { language } => BlockKindView::CodeFence {
                language: match language {
                    Some(l) => Some(l@),
                    None => None,
                },
            },
            BlockKind::MathBlock => BlockKindView::MathBlock,
            BlockKind::TypstBlock => BlockKindView::TypstBlock,
        }
    }
}

impl BlockKind {
    /// A copy with the same contents.
    pub fn deep_copy(&self) -> (r: BlockKind)
        ensures
            r@ == self@,
    {
        match self {
            BlockKind::Heading { level } => BlockKind::Heading { level: *level },
            BlockKind::Paragraph => BlockKind::Paragraph,
            BlockKind::ListItem { ordered } => BlockKind::ListItem { ordered: *ordered },
            BlockKind::Quote => BlockKind::Quote,
            BlockKind::CodeFence { language } => BlockKind::CodeFence {
                language: match language {
                    Some(l) => Some(copy_string(l)),
                    None => None,
                },
            },
            BlockKind::MathBlock => BlockKind::MathBlock,
            BlockKind::TypstBlock => BlockKind::TypstBlock,
        }
    }

    /// A short lower-case name of the kind.
    pub fn label(&self) -> (r: &'static str)
        ensures
            r@ == kind_label(self@),
    {
        proof {
            reveal_strlit("heading");
            reveal_strlit("paragraph");
            reveal_strlit("list");
            reveal_strlit("quote");
            reveal_strlit("code");
            reveal_strlit("math");
            reveal_strlit("typst");
        }
        match self {
            BlockKind::Heading { .. } => "heading",
            BlockKind::Paragraph => "paragraph",
            BlockKind::ListItem { .. } => "list",
            BlockKind::Quote => "quote",
            BlockKind::CodeFence { .. } => "code",
            BlockKind::MathBlock => "math",
            BlockKind::TypstBlock => "typst",
        }
    }
}

pub open spec fn kind_label(k: BlockKindView) -> Seq<char> {
    match k {
        BlockKindView::Heading { .. } => seq!['h', 'e', 'a', 'd', 'i', 'n', 'g'],
        BlockKindView::Paragraph => seq!['p', 'a', 'r', 'a', 'g', 'r', 'a', 'p', 'h'],
        BlockKindView::ListItem { .. } => seq!['l', 'i', 's', 't'],
        BlockKindView::Quote => seq!['q', 'u', 'o', 't', 'e'],
        BlockKindView::CodeFence { .. } => seq!['c', 'o', 'd', 'e'],
        BlockKindView::MathBlock => seq!['m', 'a', 't', 'h'],
        BlockKindView::TypstBlock => seq!['t', 'y', 'p', 's', 't'],
    }
}

/// Whether a block of this kind is paragraph-like (HTML and inline math
/// are looked for in it).
pub open spec fn is_paragraph_like(k: BlockKindView) -> bool {
    k is Paragraph || k is ListItem || k is Quote
}

#[derive(Debug, Clone, PartialEq, Eq)]
pub enum TypstAdapter {
    Pending,
    Rendered { svg: String },
    Error { message: String },
}

pub enum TypstAdapterView {
    Pending,
    Rendered { svg: Seq<char> },
    Error { message: Seq<char> },
}

impl View for TypstAdapter {
    type V = TypstAdapterView;

    open spec fn view(&self) -> TypstAdapterView {
        match self {
            TypstAdapter::Pending => TypstAdapterView::Pending,
            TypstAdapter::Rendered { svg } => TypstAdapterView::Rendered { svg: svg@ },
            TypstAdapter::Error { message } => TypstAdapterView::Error { message: message@ },
        }
    }
}

pub open spec fn typst_opt_view(o: Option<TypstAdapter>) -> Option<TypstAdapterView> {
    match o {
        Some(t) => Some(t@),
        None => None,
    }
}

impl TypstAdapter {
    /// A copy with the same contents.
    pub fn deep_copy(&self) -> (r: TypstAdapter)
        ensures
            r@ == self@,
    {
        match self {
            TypstAdapter::Pending => TypstAdapter::Pending,
            TypstAdapter::Rendered { svg } => TypstAdapter::Rendered { svg: copy_string(svg) },
            TypstAdapter::Error { message } => TypstAdapter::Error { message: copy_string(message) },
        }
    }
}

pub fn copy_typst_opt(o: &Option<TypstAdapter>) -> (r: Option<TypstAdapter>)
    ensures
        typst_opt_view(r) == typst_opt_view(*o),
{
    match o {
        Some(t) => Some(t.deep_copy()),
        None => None,
    }
}

#[derive(Debug, Clone, Copy, PartialEq, Eq, Structural)]
pub struct CursorState {
    pub head: usize,
    pub anchor: Option<usize>,
}

impl Default for CursorState {
    fn default() -> (r: Self)
        ensures
            r == (CursorState { head: 0, anchor: None }),
    {
        Self { head: 0, anchor: None }
    }
}

#[derive(Debug, Clone, PartialEq, Eq)]
pub struct DocumentBlock {
    pub id: usize,
    pub kind: BlockKind,
    pub source: String,
    pub rendered: String,
    pub html: Option<HtmlAdapter>,
    pub typst: Option<TypstAdapter>,
    pub draft: Option<String>,
    pub cursor: CursorState,
}

pub struct BlockView {
    pub id: usize,
    pub kind: BlockKindView,
    pub source: Seq<char>,
    pub rendered: Seq<char>,
    pub html: Option<HtmlAdapterView>,
    pub typst: Option<TypstAdapterView>,
    pub draft: Option<Seq<char>>,
    pub cursor: CursorState,
}

pub open spec fn str_opt_view(o: Option<String>) -> Option<Seq<char>> {
    match o {
        Some(s) => Some(s@),
        None => None,
    }
}

impl View for DocumentBlock {
    type V = BlockView;

    open spec fn view(&self) -> BlockView {
        BlockView {
            id: self.id,
            kind: self.kind@,
            source: self.source@,
            rendered: self.rendered@,
            html: adapter_opt_view(self.html),
            typst: typst_opt_view(self.typst),
            draft: str_opt_view(self.draft),
            cursor: self.cursor,
        }
    }
}

impl BlockView {
    /// The text being edited: the draft when there is one, else the source.
    pub open spec fn text(self) -> Seq<char> {
        match self.draft {
            Some(d) => d,
            None => self.source,
        }
    }
}

pub fn copy_str_opt(o: &Option<String>) -> (r: Option<String>)
    ensures
        str_opt_view(r) == str_opt_view(*o),
{
    match o {
        Some(s) => Some(copy_string(s)),
        None => None,
    }
}

impl DocumentBlock {
    /// A copy with the same contents.
    pub fn deep_copy(&self) -> (r: DocumentBlock)
        ensures
            r@ == self@,
    {
        DocumentBlock {
            id: self.id,
            kind: self.kind.deep_copy(),
            source: copy_string(&self.source),
            rendered: copy_string(&self.rendered),
            html: match &self.html {
                Some(h) => Some(h.deep_copy()),
                None => None,
            },
            typst: copy_typst_opt(&self.typst),
            draft: copy_str_opt(&self.draft),
            cursor: self.cursor,
        }
    }

    /// The text being edited: the draft when there is one, else the source.
    pub fn text_chars(&self) -> (r: Vec<char>)
        ensures
            r@ == self@.text(),
    {
        match &self.draft {
            Some(d) => chars_of(d.as_str()),
            None => chars_of(self.source.as_str()),
        }
    }
}

// ---------------------------------------------------------------------------
// Line classifiers
// ---------------------------------------------------------------------------

/// Number of leading `c` characters.
pub open spec fn count_leading(s: Seq<char>, c: char) -> nat
    decreases s.len(),
{
    if s.len() > 0 && s[0] == c {
        1 + count_leading(s.drop_first(), c)
    } else {
        0
    }
}

/// `parse_heading`: one to six leading `#` (after leading whitespace) and
/// a non-empty trimmed text after them.
pub open spec fn heading_spec(line: Seq<char>) -> Option<(u8, Seq<char>)> {
    let t = trim_start(line);
    let hashes = count_leading(t, '#');
    if hashes == 0 || hashes > 6 {
        None
    } else {
        let text = trim(t.skip(hashes as int));
        if text.len() == 0 {
            None
        } else {
            Some((hashes as u8, text))
        }
    }
}

proof fn lemma_count_leading(s: Seq<char>, c: char, n: int)
    requires
        0 <= n <= s.len(),
        forall|j: int| 0 <= j < n ==> s[j] == c,
        n == s.len() || s[n] != c,
    ensures
        count_leading(s, c) == n,
    decreases n,
{
    if n > 0 {
        lemma_count_leading(s.drop_first(), c, n - 1);
    }
}

pub fn parse_heading(line: &Vec<char>) -> (r: Option<(u8, Vec<char>)>)
    ensures
        match r {
            Some((level, text)) => heading_spec(line@) == Some((level, text@)),
            None => heading_spec(line@) is None,
        },
{
    let t = trim_start_chars(line);
    let mut hashes: usize = 0;
    while hashes < t.len() && t[hashes] == '#'
        invariant
            hashes <= t@.len(),
            forall|j: int| 0 <= j < hashes ==> t@[j] == '#',
        decreases t.len() - hashes,
    {
        hashes += 1;
    }
    proof {
        lemma_count_leading(t@, '#', hashes as int);
    }
    if hashes == 0 || hashes > 6 {
        return None;
    }
    let rest = subrange(&t, hashes, t.len());
    assert(rest@ =~= t@.skip(hashes as int));
    let text = trim_chars(&rest);
    if text.len() == 0 {
        return None;
    }
    Some((hashes as u8, text))
}

/// `parse_unordered_list_item`: the text after a leading `- ` or `* `.
pub open spec fn unordered_item_spec(line: Seq<char>) -> Option<Seq<char>> {
    let t = trim_start(line);
    if starts_with(t, seq!['-', ' ']) || starts_with(t, seq!['*', ' ']) {
        Some(t.skip(2))
    } else {
        None
    }
}

pub fn parse_unordered_list_item(line: &Vec<char>) -> (r: Option<Vec<char>>)
    ensures
        match r {
            Some(v) => unordered_item_spec(line@) == Some(v@),
            None => unordered_item_spec(line@) is None,
        },
{
    let t = trim_start_chars(line);
    let dash = vec!['-', ' '];
    let star = vec!['*', ' '];
    assert(dash@ =~= seq!['-', ' ']);
    assert(star@ =~= seq!['*', ' ']);
    if has_prefix(&t, &dash) || has_prefix(&t, &star) {
        let r = subrange(&t, 2, t.len());
        assert(r@ =~= t@.skip(2));
        Some(r)
    } else {
        None
    }
}

/// `parse_ordered_list_item`: the text after a leading run of decimal
/// digits and `. `.
pub open spec fn ordered_item_spec(line: Seq<char>) -> Option<Seq<char>> {
    let t = trim_start(line);
    match find(t, seq!['.', ' ']) {
        None => None,
        Some(d) => if d == 0 || !all_digits(t.take(d)) {
            None
        } else {
            Some(t.skip(d + 2))
        },
    }
}

pub fn parse_ordered_list_item(line: &Vec<char>) -> (r: Option<Vec<char>>)
    ensures
        match r {
            Some(v) => ordered_item_spec(line@) == Some(v@),
            None => ordered_item_spec(line@) is None,
        },
{
    let t = trim_start_chars(line);
    let pat = vec!['.', ' '];
    assert(pat@ =~= seq!['.', ' ']);
    proof {
        crate::text::lemma_find_at_props(t@, pat@, 0);
    }
    let d = match find_chars(&t, &pat) {
        None => {
            return None;
        },
        Some(d) => d,
    };
    if d == 0 {
        return None;
    }
    let tlen = t.len();
    let mut k: usize = 0;
    while k < d
        invariant
            k <= d,
            tlen == t@.len(),
            d + 2 <= t@.len(),
            t@ == trim_start(line@),
            find(t@, seq!['.', ' ']) == Some(d as int),
            forall|j: int| 0 <= j < k ==> is_digit(t@[j]),
        decreases d - k,
    {
        if !('0' <= t[k] && t[k] <= '9') {
            assert(!all_digits(t@.take(d as int))) by {
                assert(t@.take(d as int)[k as int] == t@[k as int]);
            }
            return None;
        }
        k += 1;
    }
    assert(all_digits(t@.take(d as int)));
    let r = subrange(&t, d + 2, t.len());
    assert(r@ =~= t@.skip(d + 2));
    Some(r)
}

pub open spec fn dollars() -> Seq<char> {
    seq!['$', '$']
}

/// `parse_single_line_math_block`: a trimmed line `$$ .. $$` with a
/// non-empty body.
pub open spec fn single_line_math_spec(line: Seq<char>) -> Option<Seq<char>> {
    let t = trim(line);
    if t.len() >= 4 && starts_with(t, dollars()) && ends_with(t, dollars()) {
        let body = trim(t.subrange(2, t.len() - 2));
        if body.len() > 0 {
            Some(body)
        } else {
            None
        }
    } else {
        None
    }
}

/// The trimmed text between a leading and a trailing `$$`, if both exist.
fn dollar_body(t: &Vec<char>) -> (r: Option<Vec<char>>)
    ensures
        match r {
            Some(b) => t@.len() >= 4 && starts_with(t@, dollars()) && ends_with(t@, dollars())
                && b@ == trim(t@.subrange(2, t@.len() - 2)),
            None => !(t@.len() >= 4 && starts_with(t@, dollars()) && ends_with(t@, dollars())),
        },
{
    let d = vec!['$', '$'];
    assert(d@ =~= dollars());
    if t.len() >= 4 && has_prefix(t, &d) && has_suffix(t, &d) {
        let inner = subrange(t, 2, t.len() - 2);
        Some(trim_chars(&inner))
    } else {
        None
    }
}

pub fn parse_single_line_math_block(line: &Vec<char>) -> (r: Option<Vec<char>>)
    ensures
        match r {
            Some(v) => single_line_math_spec(line@) == Some(v@),
            None => single_line_math_spec(line@) is None,
        },
{
    let t = trim_chars(line);
    match dollar_body(&t) {
        Some(b) => if b.len() > 0 {
            Some(b)
        } else {
            None
        },
        None => None,
    }
}

// ---------------------------------------------------------------------------
// Inline math detection
// ---------------------------------------------------------------------------

/// Looks for the `$` closing an inline formula opened just before `start`,
/// scanning from `j`; backslashes escape the next character. Returns
/// whether a non-empty formula closes, and where the outer scan resumes.
pub open spec fn math_close(s: Seq<char>, start: int, j: int) -> (bool, int)
    decreases s.len() + 2 - j,
{
    if j < 0 || j >= s.len() {
        (false, j + 1)
    } else if s[j] == '\\' {
        math_close(s, start, j + 2)
    } else if s[j] == '$' {
        if j > start {
            (true, j)
        } else {
            (false, j + 1)
        }
    } else {
        math_close(s, start, j + 1)
    }
}

/// `contains_inline_math` scanning from index `i`: a `$ .. $` pair with a
/// non-empty body, where `$$` and backslash-escaped characters do not count.
pub open spec fn inline_math_from(s: Seq<char>, i: int) -> bool
    decreases s.len() + 2 - i,
{
    if i < 0 || i >= s.len() {
        false
    } else if s[i] == '\\' {
        inline_math_from(s, i + 2)
    } else if s[i] == '$' {
        if i + 1 < s.len() && s[i + 1] == '$' {
            inline_math_from(s, i + 2)
        } else {
            let (found, next) = math_close(s, i + 1, i + 1);
            if found {
                true
            } else if i < next <= s.len() + 2 {
                inline_math_from(s, next)
            } else {
                false
            }
        }
    } else {
        inline_math_from(s, i + 1)
    }
}

pub open spec fn has_inline_math(s: Seq<char>) -> bool {
    inline_math_from(s, 0)
}

proof fn lemma_math_close(s: Seq<char>, start: int, j: int)
    requires
        0 <= start <= j <= s.len() + 1,
    ensures
        !math_close(s, start, j).0 ==> j < math_close(s, start, j).1 <= s.len() + 2,
    decreases s.len() + 2 - j,
{
    if j < s.len() {
        if s[j] == '\\' {
            lemma_math_close(s, start, j + 2);
        } else if s[j] != '$' {
            lemma_math_close(s, start, j + 1);
        }
    }
}

/// The closing scan of an inline formula opened just before `start`:
/// whether it closes, and (when it does not) where the outer scan resumes,
/// `None` when that is past the end.
fn math_close_exec(s: &Vec<char>, start: usize) -> (r: (bool, Option<usize>))
    requires
        start <= s@.len(),
    ensures
        r.0 == math_close(s@, start as int, start as int).0,
        !r.0 ==> match r.1 {
            Some(n) => n == math_close(s@, start as int, start as int).1 && n < s@.len(),
            None => math_close(s@, start as int, start as int).1 >= s@.len(),
        },
{
    let len = s.len();
    let mut inner = start;
    while inner < len
        invariant
            len == s@.len(),
            start <= inner <= len,
            math_close(s@, start as int, start as int) == math_close(
                s@,
                start as int,
                inner as int,
            ),
        decreases len - inner,
    {
        if s[inner] == '\\' {
            if len - inner <= 2 {
                assert(math_close(s@, start as int, inner + 2) == (false, inner + 3));
                return (false, None);
            }
            inner += 2;
            continue;
        }
        if s[inner] == '$' {
            if inner > start {
                return (true, None);
            }
            if inner + 1 < len {
                return (false, Some(inner + 1));
            }
            return (false, None);
        }
        inner += 1;
    }
    (false, None)
}

pub fn contains_inline_math(s: &Vec<char>) -> (r: bool)
    ensures
        r == has_inline_math(s@),
{
    let len = s.len();
    let mut index: usize = 0;
    while index < len
        invariant
            len == s@.len(),
            index <= len,
            has_inline_math(s@) == inline_math_from(s@, index as int),
        decreases len - index,
    {
        if s[index] == '\\' {
            if len - index <= 2 {
                assert(!inline_math_from(s@, index + 2));
                return false;
            }
            index += 2;
            continue;
        }
        if s[index] == '$' {
            if index + 1 < len && s[index + 1] == '$' {
                index += 2;
                continue;
            }
            proof {
                lemma_math_close(s@, index + 1, index + 1);
            }
            let (found, next) = math_close_exec(s, index + 1);
            if found {
                return true;
            }
            match next {
                Some(n) => {
                    index = n;
                },
                None => {
                    assert(!inline_math_from(s@, math_close(s@, index + 1, index + 1).1));
                    return false;
                },
            }
            continue;
        }
        index += 1;
    }
    false
}

// ---------------------------------------------------------------------------
// Rendering a block's source
// ---------------------------------------------------------------------------

/// `render_paragraph_like_source`: the summary of adapted HTML, else the
/// trimmed source.
pub open spec fn render_paragraph_like_spec(source: Seq<char>) -> Seq<char> {
    match adapt_html_spec(source) {
        Some(HtmlAdapterView::Adapted { nodes }) => summarize_spec(nodes),
        _ => trim(source),
    }
}

pub fn render_paragraph_like_source(source: &Vec<char>) -> (r: Vec<char>)
    ensures
        r@ == render_paragraph_like_spec(source@),
{
    match adapt_html(source) {
        Some(HtmlAdapter::Adapted { nodes }) => summarize_html_nodes(&nodes),
        _ => trim_chars(source),
    }
}

pub open spec fn fence_marker() -> Seq<char> {
    seq!['`', '`', '`']
}

/// The lines of a fenced block after its opening line, up to (not
/// including) the first line that starts a fence.
pub open spec fn fence_body(ls: Seq<Seq<char>>) -> Seq<Seq<char>>
    decreases ls.len(),
{
    if ls.len() == 0 || starts_with(trim_start(ls[0]), fence_marker()) {
        seq![]
    } else {
        seq![ls[0]] + fence_body(ls.drop_first())
    }
}

/// `render_fenced_block_source`: the body lines of a fenced block, joined.
pub open spec fn render_fenced_spec(source: Seq<char>) -> Seq<char> {
    let ls = lines(source);
    join(fence_body(if ls.len() > 0 { ls.drop_first() } else { ls }), seq!['\n'])
}

pub fn render_fenced_block_source(source: &Vec<char>) -> (r: Vec<char>)
    ensures
        r@ == render_fenced_spec(source@),
{
    let ls = split_lines_chars(source);
    let marker = vec!['`', '`', '`'];
    assert(marker@ =~= fence_marker());
    let mut body: Vec<Vec<char>> = Vec::new();
    let ghost rest_all = if views_of(ls@).len() > 0 { views_of(ls@).drop_first() } else { views_of(ls@) };
    let mut i: usize = 1;
    if ls.len() == 0 {
        i = 0;
    }
    assert(rest_all =~= views_of(ls@).skip(i as int));
    loop
        invariant
            i <= ls@.len(),
            ls@.len() > 0 ==> i >= 1,
            marker@ == fence_marker(),
            fence_body(rest_all) == views_of(body@) + fence_body(views_of(ls@).skip(i as int)),
        ensures
            fence_body(views_of(ls@).skip(i as int)) == Seq::<Seq<char>>::empty(),
        decreases ls@.len() - i,
    {
        if i >= ls.len() {
            assert(views_of(ls@).skip(i as int) =~= Seq::<Seq<char>>::empty());
            break;
        }
        let ts = trim_start_chars(&ls[i]);
        if has_prefix(&ts, &marker) {
            assert(views_of(ls@).skip(i as int)[0] == ls@[i as int]@);
            break;
        }
        let ghost before = views_of(body@);
        let line = subrange(&ls[i], 0, ls[i].len());
        assert(line@ =~= ls@[i as int]@);
        body.push(line);
        assert(views_of(body@) =~= before.push(ls@[i as int]@));
        assert(views_of(ls@).skip(i as int).drop_first() =~= views_of(ls@).skip(i + 1));
        assert(before + fence_body(views_of(ls@).skip(i as int)) =~= views_of(body@) + fence_body(
            views_of(ls@).skip(i + 1),
        ));
        i += 1;
    }
    assert(views_of(body@) + Seq::<Seq<char>>::empty() =~= views_of(body@));
    let nl = vec!['\n'];
    assert(nl@ =~= seq!['\n']);
    join_chars(&body, &nl)
}

/// `render_math_block_source`: the trimmed body between `$$` markers, else
/// the trimmed source.
pub open spec fn render_math_spec(source: Seq<char>) -> Seq<char> {
    let t = trim(source);
    if t.len() >= 4 && starts_with(t, dollars()) && ends_with(t, dollars()) {
        trim(t.subrange(2, t.len() - 2))
    } else {
        t
    }
}

pub fn render_math_block_source(source: &Vec<char>) -> (r: Vec<char>)
    ensures
        r@ == render_math_spec(source@),
{
    let t = trim_chars(source);
    match dollar_body(&t) {
        Some(b) => b,
        None => t,
    }
}

pub open spec fn quote_marker() -> Seq<char> {
    seq!['>', ' ']
}

/// `render_block_source`: the plain text a block shows when not focused.
pub open spec fn render_spec(kind: BlockKindView, source: Seq<char>) -> Seq<char> {
    match kind {
        BlockKindView::Heading { .. } => match heading_spec(source) {
            Some((_, text)) => text,
            None => trim(source),
        },
        BlockKindView::Paragraph => render_paragraph_like_spec(source),
        BlockKindView::ListItem { ordered } => {
            let item = if ordered {
                ordered_item_spec(source)
            } else {
                unordered_item_spec(source)
            };
            render_paragraph_like_spec(
                match item {
                    Some(t) => t,
                    None => trim(source),
                },
            )
        },
        BlockKindView::Quote => {
            let t = trim_start(source);
            render_paragraph_like_spec(
                if starts_with(t, quote_marker()) {
                    t.skip(2)
                } else {
                    trim(source)
                },
            )
        },
        BlockKindView::CodeFence { .. } => render_fenced_spec(source),
        BlockKindView::TypstBlock => render_fenced_spec(source),
        BlockKindView::MathBlock => render_math_spec(source),
    }
}

pub fn render_block_source(kind: &BlockKind, source: &Vec<char>) -> (r: Vec<char>)
    ensures
        r@ == render_spec(kind@, source@),
{
    match kind {
        BlockKind::Heading { .. } => match parse_heading(source) {
            Some((_, text)) => text,
            None => trim_chars(source),
        },
        BlockKind::Paragraph => render_paragraph_like_source(source),
        BlockKind::ListItem { ordered } => {
            let item = if *ordered {
                parse_ordered_list_item(source)
            } else {
                parse_unordered_list_item(source)
            };
            let body = match item {
                Some(t) => t,
                None => trim_chars(source),
            };
            render_paragraph_like_source(&body)
        },
        BlockKind::Quote => {
            let t = trim_start_chars(source);
            let marker = vec!['>', ' '];
            assert(marker@ =~= quote_marker());
            let body = if has_prefix(&t, &marker) {
                let b = subrange(&t, 2, t.len());
                assert(b@ =~= t@.skip(2));
                b
            } else {
                trim_chars(source)
            };
            render_paragraph_like_source(&body)
        },
        BlockKind::CodeFence { .. } => render_fenced_block_source(source),
        BlockKind::TypstBlock => render_fenced_block_source(source),
        BlockKind::MathBlock => render_math_block_source(source),
    }
}

/// `adapt_block_html`: HTML metadata is kept for paragraph-like blocks.
pub open spec fn block_html_spec(kind: BlockKindView, source: Seq<char>) -> Option<
    HtmlAdapterView,
> {
    if is_paragraph_like(kind) {
        adapt_html_spec(source)
    } else {
        None
    }
}

pub fn adapt_block_html(kind: &BlockKind, source: &Vec<char>) -> (r: Option<HtmlAdapter>)
    ensures
        adapter_opt_view(r) == block_html_spec(kind@, source@),
{
    match kind {
        BlockKind::Paragraph | BlockKind::ListItem { .. } | BlockKind::Quote => adapt_html(source),
        _ => None,
    }
}

/// `typst_adapter_for_block`: math and Typst blocks, and paragraph-like
/// blocks whose rendered text holds inline math, start out pending.
pub open spec fn typst_for_spec(kind: BlockKindView, rendered: Seq<char>) -> Option<
    TypstAdapterView,
> {
    if kind is MathBlock || kind is TypstBlock {
        Some(TypstAdapterView::Pending)
    } else if is_paragraph_like(kind) && has_inline_math(rendered) {
        Some(TypstAdapterView::Pending)
    } else {
        None
    }
}

pub fn typst_adapter_for_block(kind: &BlockKind, rendered: &Vec<char>) -> (r: Option<
    TypstAdapter,
>)
    ensures
        typst_opt_view(r) == typst_for_spec(kind@, rendered@),
{
    match kind {
        BlockKind::MathBlock | BlockKind::TypstBlock => Some(TypstAdapter::Pending),
        BlockKind::Paragraph | BlockKind::ListItem { .. } | BlockKind::Quote => {
            if contains_inline_math(rendered) {
                Some(TypstAdapter::Pending)
            } else {
                None
            }
        },
        _ => None,
    }
}

/// The block `new_block` builds for a kind and source.
pub open spec fn new_block_spec(id: usize, kind: BlockKindView, source: Seq<char>) -> BlockView {
    let rendered = render_spec(kind, source);
    BlockView {
        id,
        kind,
        source,
        rendered,
        html: block_html_spec(kind, source),
        typst: typst_for_spec(kind, rendered),
        draft: None,
        cursor: CursorState { head: 0, anchor: None },
    }
}

pub fn new_block(id: usize, kind: BlockKind, source: &Vec<char>) -> (r: DocumentBlock)
    ensures
        r@ == new_block_spec(id, kind@, source@),
{
    let rendered = render_block_source(&kind, source);
    let html = adapt_block_html(&kind, source);
    let typst = typst_adapter_for_block(&kind, &rendered);
    DocumentBlock {
        id,
        kind,
        source: string_of(source),
        rendered: string_of(&rendered),
        html,
        typst,
        draft: None,
        cursor: CursorState { head: 0, anchor: None },
    }
}

/// A quote shows what its text after the `> ` marker shows as a
/// paragraph: the marker itself is never shown.
pub proof fn law_quote_shows_its_text(x: Seq<char>)
    ensures
        render_spec(BlockKindView::Quote, quote_marker() + x) == render_spec(BlockKindView::Paragraph, x),
{
    let q = quote_marker() + x;
    assert(q[0] == '>');
    assert(!crate::text::is_ws('>'));
    assert(trim_start(q) == q);
    assert(q.take(2) =~= quote_marker());
    assert(starts_with(q, quote_marker()));
    assert(q.skip(2) =~= x);
}

} // verus!
