//! The inline HTML adapter: recognises `<span style=..>` and `<img ..>` tags
//! inside paragraph-like blocks and extracts their safe metadata.
use vstd::prelude::*;
use crate::text::{
    append_chars, chars_eq, chars_of, contains, contains_char, copy_string, ends_with,
    find_at, find_char_from, find_from, first_index_from, has_suffix, is_ascii_whitespace,
    is_ascii_ws, is_whitespace, is_ws, lemma_find_at_props, lemma_first_index_props,
    lower_seq, occurs_at, parse_u32, parse_u32_chars, starts_with_at, string_of, subrange,
    to_ascii_lowercase, trim, trim_chars, views_of,
};

verus! {

// ---------------------------------------------------------------------------
// Types and their views
// ---------------------------------------------------------------------------

#[derive(Debug, Clone, PartialEq, Eq)]
pub enum HtmlNode {
    Text(String),
    StyledText(HtmlStyledText),
    Image(HtmlImage),
}

#[derive(Debug, Clone, PartialEq, Eq)]
pub struct HtmlStyledText {
    pub text: String,
    pub color: Option<String>,
    pub font_size_px: Option<u16>,
}

#[derive(Debug, Clone, PartialEq, Eq)]
pub struct HtmlImage {
    pub src: Option<String>,
    pub alt: Option<String>,
    pub width_px: Option<u32>,
}

#[derive(Debug, Clone, PartialEq, Eq)]
pub enum HtmlAdapter {
    Adapted { nodes: Vec<HtmlNode> },
    Unsupported { raw: String },
}

pub enum HtmlNodeView {
    Text(Seq<char>),
    StyledText { text: Seq<char>, color: Option<Seq<char>>, font_size_px: Option<u16> },
    Image { src: Option<Seq<char>>, alt: Option<Seq<char>>, width_px: Option<u32> },
}

pub enum HtmlAdapterView {
    Adapted { nodes: Seq<HtmlNodeView> },
    Unsupported { raw: Seq<char> },
}

pub open spec fn opt_view(o: Option<String>) -> Option<Seq<char>> {
    match o {
        Some(s) => Some(s@),
        None => None,
    }
}

impl View for HtmlNode {
    type V = HtmlNodeView;

    open spec fn view(&self) -> HtmlNodeView {
        match self {
            HtmlNode::Text(t) => HtmlNodeView::Text(t@),
            HtmlNode::StyledText(s) => HtmlNodeView::StyledText {
                text: s.text@,
                color: opt_view(s.color),
                font_size_px: s.font_size_px,
            },
            HtmlNode::Image(i) => HtmlNodeView::Image {
                src: opt_view(i.src),
                alt: opt_view(i.alt),
                width_px: i.width_px,
            },
        }
    }
}

pub open spec fn node_views(v: Seq<HtmlNode>) -> Seq<HtmlNodeView> {
    v.map_values(|n: HtmlNode| n@)
}

impl View for HtmlAdapter {
    type V = HtmlAdapterView;

    open spec fn view(&self) -> HtmlAdapterView {
        match self {
            HtmlAdapter::Adapted { nodes } => HtmlAdapterView::Adapted { nodes: node_views(nodes@) },
            HtmlAdapter::Unsupported { raw } => HtmlAdapterView::Unsupported { raw: raw@ },
        }
    }
}

pub open spec fn adapter_opt_view(o: Option<HtmlAdapter>) -> Option<HtmlAdapterView> {
    match o {
        Some(a) => Some(a@),
        None => None,
    }
}

fn opt_string(o: &Option<Vec<char>>) -> (r: Option<String>)
    ensures
        opt_view(r) == (match o {
            Some(v) => Some(v@),
            None => None::<Seq<char>>,
        }),
{
    match o {
        Some(v) => Some(string_of(v)),
        None => None,
    }
}

fn copy_opt_string(o: &Option<String>) -> (r: Option<String>)
    ensures
        opt_view(r) == opt_view(*o),
{
    match o {
        Some(s) => Some(copy_string(s)),
        None => None,
    }
}

impl HtmlNode {
    /// A copy with the same contents.
    pub fn deep_copy(&self) -> (r: HtmlNode)
        ensures
            r@ == self@,
    {
        match self {
            HtmlNode::Text(t) => HtmlNode::Text(copy_string(t)),
            HtmlNode::StyledText(s) => HtmlNode::StyledText(
                HtmlStyledText {
                    text: copy_string(&s.text),
                    color: copy_opt_string(&s.color),
                    font_size_px: s.font_size_px,
                },
            ),
            HtmlNode::Image(i) => HtmlNode::Image(
                HtmlImage {
                    src: copy_opt_string(&i.src),
                    alt: copy_opt_string(&i.alt),
                    width_px: i.width_px,
                },
            ),
        }
    }
}

impl HtmlAdapter {
    /// A copy with the same contents.
    pub fn deep_copy(&self) -> (r: HtmlAdapter)
        ensures
            r@ == self@,
    {
        match self {
            HtmlAdapter::Adapted { nodes } => {
                let mut out: Vec<HtmlNode> = Vec::new();
                let mut i: usize = 0;
                while i < nodes.len()
                    invariant
                        i <= nodes.len(),
                        node_views(out@) == node_views(nodes@.take(i as int)),
                    decreases nodes.len() - i,
                {
                    let n = nodes[i].deep_copy();
                    let ghost before = node_views(out@);
                    out.push(n);
                    assert(node_views(out@) =~= before.push(n@));
                    assert(nodes@.take(i + 1) =~= nodes@.take(i as int).push(nodes@[i as int]));
                    assert(node_views(nodes@.take(i + 1)) =~= node_views(nodes@.take(i as int)).push(
                        nodes@[i as int]@,
                    ));
                    i += 1;
                }
                assert(nodes@.take(nodes.len() as int) =~= nodes@);
                HtmlAdapter::Adapted { nodes: out }
            },
            HtmlAdapter::Unsupported { raw } => HtmlAdapter::Unsupported { raw: copy_string(raw) },
        }
    }
}

// ---------------------------------------------------------------------------
// Scanning helpers (ASCII whitespace, as the tag scanner uses)
// ---------------------------------------------------------------------------

/// First index `>= i` that is not ASCII whitespace.
pub open spec fn skip_ws(s: Seq<char>, i: int) -> int
    decreases s.len() - i,
{
    if 0 <= i < s.len() && is_ascii_ws(s[i]) {
        skip_ws(s, i + 1)
    } else {
        i
    }
}

/// First index `>= i` holding ASCII whitespace or `=`.
pub open spec fn skip_key(s: Seq<char>, i: int) -> int
    decreases s.len() - i,
{
    if 0 <= i < s.len() && !is_ascii_ws(s[i]) && s[i] != '=' {
        skip_key(s, i + 1)
    } else {
        i
    }
}

/// First index `>= i` holding ASCII whitespace.
pub open spec fn skip_word(s: Seq<char>, i: int) -> int
    decreases s.len() - i,
{
    if 0 <= i < s.len() && !is_ascii_ws(s[i]) {
        skip_word(s, i + 1)
    } else {
        i
    }
}

/// First index `>= i` holding `q`.
pub open spec fn skip_to(s: Seq<char>, i: int, q: char) -> int
    decreases s.len() - i,
{
    if 0 <= i < s.len() && s[i] != q {
        skip_to(s, i + 1, q)
    } else {
        i
    }
}

proof fn lemma_skip_ws(s: Seq<char>, i: int)
    requires
        0 <= i <= s.len(),
    ensures
        i <= skip_ws(s, i) <= s.len(),
        skip_ws(s, i) < s.len() ==> !is_ascii_ws(s[skip_ws(s, i)]),
    decreases s.len() - i,
{
    if i < s.len() && is_ascii_ws(s[i]) {
        lemma_skip_ws(s, i + 1);
    }
}

proof fn lemma_skip_key(s: Seq<char>, i: int)
    requires
        0 <= i <= s.len(),
    ensures
        i <= skip_key(s, i) <= s.len(),
        skip_key(s, i) < s.len() ==> (is_ascii_ws(s[skip_key(s, i)]) || s[skip_key(s, i)] == '='),
    decreases s.len() - i,
{
    if i < s.len() && !is_ascii_ws(s[i]) && s[i] != '=' {
        lemma_skip_key(s, i + 1);
    }
}

proof fn lemma_skip_word(s: Seq<char>, i: int)
    requires
        0 <= i <= s.len(),
    ensures
        i <= skip_word(s, i) <= s.len(),
    decreases s.len() - i,
{
    if i < s.len() && !is_ascii_ws(s[i]) {
        lemma_skip_word(s, i + 1);
    }
}

proof fn lemma_skip_to(s: Seq<char>, i: int, q: char)
    requires
        0 <= i <= s.len(),
    ensures
        i <= skip_to(s, i, q) <= s.len(),
    decreases s.len() - i,
{
    if i < s.len() && s[i] != q {
        lemma_skip_to(s, i + 1, q);
    }
}

fn skip_ws_exec(s: &Vec<char>, i: usize) -> (r: usize)
    requires
        i <= s@.len(),
    ensures
        r == skip_ws(s@, i as int),
        i <= r <= s@.len(),
{
    proof {
        lemma_skip_ws(s@, i as int);
    }
    let mut j = i;
    while j < s.len() && is_ascii_whitespace(s[j])
        invariant
            i <= j <= s@.len(),
            skip_ws(s@, i as int) == skip_ws(s@, j as int),
        decreases s.len() - j,
    {
        j += 1;
    }
    j
}

fn skip_key_exec(s: &Vec<char>, i: usize) -> (r: usize)
    requires
        i <= s@.len(),
    ensures
        r == skip_key(s@, i as int),
        i <= r <= s@.len(),
{
    proof {
        lemma_skip_key(s@, i as int);
    }
    let mut j = i;
    while j < s.len() && !is_ascii_whitespace(s[j]) && s[j] != '='
        invariant
            i <= j <= s@.len(),
            skip_key(s@, i as int) == skip_key(s@, j as int),
        decreases s.len() - j,
    {
        j += 1;
    }
    j
}

fn skip_word_exec(s: &Vec<char>, i: usize) -> (r: usize)
    requires
        i <= s@.len(),
    ensures
        r == skip_word(s@, i as int),
        i <= r <= s@.len(),
{
    proof {
        lemma_skip_word(s@, i as int);
    }
    let mut j = i;
    while j < s.len() && !is_ascii_whitespace(s[j])
        invariant
            i <= j <= s@.len(),
            skip_word(s@, i as int) == skip_word(s@, j as int),
        decreases s.len() - j,
    {
        j += 1;
    }
    j
}

fn skip_to_exec(s: &Vec<char>, i: usize, q: char) -> (r: usize)
    requires
        i <= s@.len(),
    ensures
        r == skip_to(s@, i as int, q),
        i <= r <= s@.len(),
{
    proof {
        lemma_skip_to(s@, i as int, q);
    }
    let mut j = i;
    while j < s.len() && s[j] != q
        invariant
            i <= j <= s@.len(),
            skip_to(s@, i as int, q) == skip_to(s@, j as int, q),
        decreases s.len() - j,
    {
        j += 1;
    }
    j
}

// ---------------------------------------------------------------------------
// Tag attributes
// ---------------------------------------------------------------------------

/// Drops every leading `c`.
pub open spec fn trim_start_char(s: Seq<char>, c: char) -> Seq<char>
    decreases s.len(),
{
    if s.len() > 0 && s[0] == c {
        trim_start_char(s.drop_first(), c)
    } else {
        s
    }
}

/// Drops every trailing `c`.
pub open spec fn trim_end_char(s: Seq<char>, c: char) -> Seq<char>
    decreases s.len(),
{
    if s.len() > 0 && s.last() == c {
        trim_end_char(s.drop_last(), c)
    } else {
        s
    }
}

/// The attribute text of a tag: the tag without its angle brackets and
/// trailing slash, from its first whitespace on; `None` when the tag has no
/// whitespace at all.
pub open spec fn tag_attribute_text(tag: Seq<char>) -> Option<Seq<char>> {
    let inner = trim(trim_end_char(trim_end_char(trim_start_char(trim(tag), '<'), '>'), '/'));
    if exists|i: int| 0 <= i < inner.len() && is_ws(inner[i]) {
        let k = choose|i: int|
            0 <= i < inner.len() && is_ws(inner[i]) && forall|j: int| 0 <= j < i ==> !is_ws(inner[j]);
        Some(trim(inner.skip(k)))
    } else {
        None
    }
}

/// One `key=value` pair of the attribute scan at index `i`; returns the
/// pair (when one is recorded) and the index where scanning resumes, or
/// `None` for the index when scanning stops.
pub open spec fn attr_step(s: Seq<char>, i: int) -> (Option<(Seq<char>, Seq<char>)>, Option<int>) {
    let i0 = skip_ws(s, i);
    if i0 >= s.len() {
        (None, None)
    } else {
        let key_end = skip_key(s, i0);
        let key = lower_seq(trim(s.subrange(i0, key_end)));
        let j = skip_ws(s, key_end);
        if j >= s.len() || s[j] != '=' {
            (None, Some(skip_word(s, j)))
        } else {
            let j2 = skip_ws(s, j + 1);
            if j2 >= s.len() {
                (None, None)
            } else {
                let (value, next) = if s[j2] == '"' || s[j2] == '\'' {
                    let ve = skip_to(s, j2 + 1, s[j2]);
                    (s.subrange(j2 + 1, ve), if ve < s.len() {
                        ve + 1
                    } else {
                        ve
                    })
                } else {
                    let ve = skip_word(s, j2);
                    (s.subrange(j2, ve), ve)
                };
                (if key.len() > 0 {
                    Some((key, value))
                } else {
                    None
                }, Some(next))
            }
        }
    }
}

/// The attribute pairs found by scanning `s` from index `i`, in order.
pub open spec fn attr_scan(s: Seq<char>, i: int) -> Seq<(Seq<char>, Seq<char>)>
    decreases s.len() - i,
{
    if i < 0 || i >= s.len() {
        seq![]
    } else {
        let (pair, next) = attr_step(s, i);
        let rest = match next {
            Some(n) => if i < n <= s.len() {
                attr_scan(s, n)
            } else {
                seq![]
            },
            None => seq![],
        };
        match pair {
            Some(p) => seq![p] + rest,
            None => rest,
        }
    }
}

/// The attributes of a tag, in the order they appear; a later binding of a
/// key replaces an earlier one (see `attr_lookup`).
pub open spec fn tag_attributes(tag: Seq<char>) -> Seq<(Seq<char>, Seq<char>)> {
    match tag_attribute_text(tag) {
        Some(t) => attr_scan(t, 0),
        None => seq![],
    }
}

/// The value bound to `key`: the last binding wins, as with map insertion.
pub open spec fn attr_lookup(pairs: Seq<(Seq<char>, Seq<char>)>, key: Seq<char>) -> Option<
    Seq<char>,
>
    decreases pairs.len(),
{
    if pairs.len() == 0 {
        None
    } else if pairs.last().0 == key {
        Some(pairs.last().1)
    } else {
        attr_lookup(pairs.drop_last(), key)
    }
}

/// The attributes as a map from key to value.
pub open spec fn attr_map(pairs: Seq<(Seq<char>, Seq<char>)>) -> Map<Seq<char>, Seq<char>>
    decreases pairs.len(),
{
    if pairs.len() == 0 {
        Map::empty()
    } else {
        attr_map(pairs.drop_last()).insert(pairs.last().0, pairs.last().1)
    }
}

/// Looking a key up in the pairs agrees with the map they build.
pub proof fn lemma_attr_lookup_map(pairs: Seq<(Seq<char>, Seq<char>)>, key: Seq<char>)
    ensures
        attr_lookup(pairs, key) == (if attr_map(pairs).contains_key(key) {
            Some(attr_map(pairs)[key])
        } else {
            None::<Seq<char>>
        }),
    decreases pairs.len(),
{
    if pairs.len() > 0 {
        lemma_attr_lookup_map(pairs.drop_last(), key);
    }
}

pub open spec fn pair_views(v: Seq<(Vec<char>, Vec<char>)>) -> Seq<(Seq<char>, Seq<char>)> {
    v.map_values(|p: (Vec<char>, Vec<char>)| (p.0@, p.1@))
}

pub fn trim_start_char_exec(s: &Vec<char>, c: char) -> (r: Vec<char>)
    ensures
        r@ == trim_start_char(s@, c),
{
    let mut i: usize = 0;
    assert(s@.skip(0) =~= s@);
    while i < s.len() && s[i] == c
        invariant
            i <= s@.len(),
            trim_start_char(s@, c) == trim_start_char(s@.skip(i as int), c),
        decreases s.len() - i,
    {
        assert(s@.skip(i as int).drop_first() =~= s@.skip(i + 1));
        i += 1;
    }
    subrange(s, i, s.len())
}

fn trim_end_char_exec(s: &Vec<char>, c: char) -> (r: Vec<char>)
    ensures
        r@ == trim_end_char(s@, c),
{
    let mut n: usize = s.len();
    assert(s@.take(s@.len() as int) =~= s@);
    while n > 0 && s[n - 1] == c
        invariant
            n <= s@.len(),
            trim_end_char(s@, c) == trim_end_char(s@.take(n as int), c),
        decreases n,
    {
        assert(s@.take(n as int).drop_last() =~= s@.take(n - 1));
        n -= 1;
    }
    let r = subrange(s, 0, n);
    assert(s@.subrange(0, n as int) =~= s@.take(n as int));
    r
}

/// The attribute text of a tag (see `tag_attribute_text`).
fn tag_attribute_text_exec(tag: &Vec<char>) -> (r: Option<Vec<char>>)
    ensures
        match r {
            Some(v) => tag_attribute_text(tag@) == Some(v@),
            None => tag_attribute_text(tag@) is None,
        },
{
    let t = trim_chars(tag);
    let t = trim_start_char_exec(&t, '<');
    let t = trim_end_char_exec(&t, '>');
    let t = trim_end_char_exec(&t, '/');
    let inner = trim_chars(&t);
    let mut k: usize = 0;
    while k < inner.len() && !is_whitespace(inner[k])
        invariant
            k <= inner@.len(),
            forall|j: int| 0 <= j < k ==> !is_ws(inner@[j]),
        decreases inner.len() - k,
    {
        k += 1;
    }
    if k == inner.len() {
        return None;
    }
    let ghost kk = choose|i: int|
        0 <= i < inner@.len() && is_ws(inner@[i]) && forall|j: int| 0 <= j < i ==> !is_ws(inner@[j]);
    assert(0 <= k < inner@.len() && is_ws(inner@[k as int]) && forall|j: int|
        0 <= j < k ==> !is_ws(inner@[j]));
    assert(kk == k) by {
        if kk < k {
        } else if k < kk {
            assert(!is_ws(inner@[k as int]));
        }
    }
    let rest = subrange(&inner, k, inner.len());
    assert(rest@ =~= inner@.skip(k as int));
    Some(trim_chars(&rest))
}

proof fn lemma_attr_step_progress(s: Seq<char>, i: int)
    requires
        0 <= i < s.len(),
    ensures
        attr_step(s, i).1 matches Some(n) ==> i < n <= s.len(),
{
    lemma_skip_ws(s, i);
    let i0 = skip_ws(s, i);
    if i0 < s.len() {
        lemma_skip_key(s, i0);
        let key_end = skip_key(s, i0);
        lemma_skip_ws(s, key_end);
        let j = skip_ws(s, key_end);
        if j >= s.len() || s[j] != '=' {
            lemma_skip_word(s, j);
            if j == i0 {
                // s[i0] is neither whitespace nor '=', so the key is not empty
                assert(key_end > i0);
            }
        } else {
            lemma_skip_ws(s, j + 1);
            let j2 = skip_ws(s, j + 1);
            if j2 < s.len() {
                if s[j2] == '"' || s[j2] == '\'' {
                    lemma_skip_to(s, j2 + 1, s[j2]);
                } else {
                    lemma_skip_word(s, j2);
                }
            }
        }
    }
}

/// Scans the attribute text of a tag into key/value pairs.
fn scan_attributes(s: &Vec<char>) -> (r: Vec<(Vec<char>, Vec<char>)>)
    ensures
        pair_views(r@) == attr_scan(s@, 0),
{
    let mut out: Vec<(Vec<char>, Vec<char>)> = Vec::new();
    let mut index: usize = 0;
    assert(pair_views(out@) + attr_scan(s@, 0) =~= attr_scan(s@, 0));
    while index < s.len()
        invariant
            index <= s@.len(),
            pair_views(out@) + attr_scan(s@, index as int) == attr_scan(s@, 0),
        decreases s.len() - index,
    {
        proof {
            lemma_attr_step_progress(s@, index as int);
        }
        let ghost start = index as int;
        let ghost step = attr_step(s@, index as int);
        index = skip_ws_exec(s, index);
        if index >= s.len() {
            // nothing but whitespace remains: the scan ends
            assert(attr_scan(s@, start) =~= Seq::empty());
            index = s.len();
            assert(attr_scan(s@, index as int) =~= Seq::empty());
            continue;
        }
        let key_start = index;
        index = skip_key_exec(s, index);
        let raw_key = subrange(s, key_start, index);
        let trimmed_key = trim_chars(&raw_key);
        let key = to_ascii_lowercase(&trimmed_key);
        index = skip_ws_exec(s, index);
        if index >= s.len() || s[index] != '=' {
            index = skip_word_exec(s, index);
            continue;
        }
        index += 1;
        index = skip_ws_exec(s, index);
        if index >= s.len() {
            // a key and `=` with no value: the scan ends
            assert(attr_scan(s@, start) =~= Seq::empty());
            index = s.len();
            assert(attr_scan(s@, index as int) =~= Seq::empty());
            continue;
        }
        let value = if s[index] == '"' || s[index] == '\'' {
            let quote = s[index];
            index += 1;
            let value_start = index;
            index = skip_to_exec(s, index, quote);
            let value = subrange(s, value_start, index);
            if index < s.len() {
                index += 1;
            }
            value
        } else {
            let value_start = index;
            index = skip_word_exec(s, index);
            subrange(s, value_start, index)
        };
        if key.len() > 0 {
            let ghost before = pair_views(out@);
            out.push((key, value));
            assert(pair_views(out@) =~= before.push(step.0->0));
            assert(before.push(step.0->0) + attr_scan(s@, index as int) =~= before + (seq![
                step.0->0] + attr_scan(s@, index as int)));
        }
    }
    assert(attr_scan(s@, index as int) =~= Seq::empty());
    assert(pair_views(out@) + attr_scan(s@, index as int) =~= pair_views(out@));
    out
}

/// The attributes of a tag, in order (see `tag_attributes`).
pub fn parse_tag_attributes(tag: &Vec<char>) -> (r: Vec<(Vec<char>, Vec<char>)>)
    ensures
        pair_views(r@) == tag_attributes(tag@),
{
    match tag_attribute_text_exec(tag) {
        Some(t) => scan_attributes(&t),
        None => Vec::new(),
    }
}

/// The value bound to `key` in the attribute pairs (see `attr_lookup`).
pub fn lookup_attribute(pairs: &Vec<(Vec<char>, Vec<char>)>, key: &Vec<char>) -> (r: Option<
    Vec<char>,
>)
    ensures
        match r {
            Some(v) => attr_lookup(pair_views(pairs@), key@) == Some(v@),
            None => attr_lookup(pair_views(pairs@), key@) is None,
        },
{
    let mut n = pairs.len();
    assert(pairs@.take(n as int) =~= pairs@);
    while n > 0
        invariant
            n <= pairs@.len(),
            attr_lookup(pair_views(pairs@), key@) == attr_lookup(
                pair_views(pairs@.take(n as int)),
                key@,
            ),
        decreases n,
    {
        let ghost pv = pair_views(pairs@.take(n as int));
        assert(pv.last() == (pairs@[n - 1].0@, pairs@[n - 1].1@));
        assert(pv.drop_last() =~= pair_views(pairs@.take(n - 1)));
        if chars_eq(&pairs[n - 1].0, key) {
            let v = subrange(&pairs[n - 1].1, 0, pairs[n - 1].1.len());
            assert(v@ =~= pairs@[n - 1].1@);
            return Some(v);
        }
        n -= 1;
    }
    assert(pair_views(pairs@.take(0)) =~= Seq::empty());
    None
}

// ---------------------------------------------------------------------------
// Pixel values and styles
// ---------------------------------------------------------------------------

pub open spec fn px_suffix() -> Seq<char> {
    seq!['p', 'x']
}

/// `parse_px_u32`: a decimal `u32`, optionally followed by `px`, with
/// surrounding whitespace ignored.
pub open spec fn parse_px_u32_spec(value: Seq<char>) -> Option<u32> {
    let v = trim(value);
    let digits = if ends_with(v, px_suffix()) {
        trim(v.take(v.len() - 2))
    } else {
        v
    };
    parse_u32(digits)
}

/// `parse_px_u16`: as `parse_px_u32_spec`, for values that fit in a `u16`.
pub open spec fn parse_px_u16_spec(value: Seq<char>) -> Option<u16> {
    match parse_px_u32_spec(value) {
        Some(n) => if n <= u16::MAX {
            Some(n as u16)
        } else {
            None
        },
        None => None,
    }
}

pub fn parse_px_u32(value: &Vec<char>) -> (r: Option<u32>)
    ensures
        r == parse_px_u32_spec(value@),
{
    let v = trim_chars(value);
    let px = vec!['p', 'x'];
    assert(px@ =~= px_suffix());
    let digits = if has_suffix(&v, &px) {
        let head = subrange(&v, 0, v.len() - 2);
        assert(head@ =~= v@.take(v@.len() - 2));
        trim_chars(&head)
    } else {
        v
    };
    parse_u32_chars(&digits)
}

pub fn parse_px_u16(value: &Vec<char>) -> (r: Option<u16>)
    ensures
        r == parse_px_u16_spec(value@),
{
    match parse_px_u32(value) {
        Some(n) => if n <= 65535 {
            Some(n as u16)
        } else {
            None
        },
        None => None,
    }
}

/// `str::split` on one character: the pieces between occurrences of `c`,
/// including empty ones.
pub open spec fn split_on(s: Seq<char>, c: char, cur: Seq<char>) -> Seq<Seq<char>>
    decreases s.len(),
{
    if s.len() == 0 {
        seq![cur]
    } else if s[0] == c {
        seq![cur] + split_on(s.drop_first(), c, seq![])
    } else {
        split_on(s.drop_first(), c, cur.push(s[0]))
    }
}

pub fn split_on_char(s: &Vec<char>, c: char) -> (r: Vec<Vec<char>>)
    ensures
        views_of(r@) == split_on(s@, c, seq![]),
{
    let mut out: Vec<Vec<char>> = Vec::new();
    let mut cur: Vec<char> = Vec::new();
    let mut i: usize = 0;
    assert(s@.skip(0) =~= s@);
    assert(views_of(out@) + split_on(s@.skip(0), c, cur@) =~= split_on(s@, c, seq![]));
    while i < s.len()
        invariant
            i <= s@.len(),
            views_of(out@) + split_on(s@.skip(i as int), c, cur@) == split_on(s@, c, seq![]),
        decreases s.len() - i,
    {
        assert(s@.skip(i as int).drop_first() =~= s@.skip(i + 1));
        if s[i] == c {
            let ghost before = views_of(out@);
            let ghost cur_v = cur@;
            out.push(cur);
            cur = Vec::new();
            assert(views_of(out@) =~= before.push(cur_v));
            assert(cur@ =~= Seq::<char>::empty());
            assert(before + split_on(s@.skip(i as int), c, cur_v) =~= views_of(out@) + split_on(
                s@.skip(i + 1),
                c,
                cur@,
            ));
        } else {
            cur.push(s[i]);
        }
        i += 1;
    }
    assert(s@.skip(i as int) =~= Seq::<char>::empty());
    let ghost before = views_of(out@);
    out.push(cur);
    assert(views_of(out@) =~= before.push(cur@));
    out
}

/// The `color` and `font-size` declarations of a `style` attribute, folded
/// over its `;`-separated declarations.
pub open spec fn style_fold(decls: Seq<Seq<char>>) -> (Option<Seq<char>>, Option<u16>)
    decreases decls.len(),
{
    if decls.len() == 0 {
        (None, None)
    } else {
        let (color, size) = style_fold(decls.drop_last());
        let d = decls.last();
        match first_index_from(d, ':', 0) {
            None => (color, size),
            Some(k) => {
                let key = lower_seq(trim(d.take(k)));
                let value = trim(d.skip(k + 1));
                if key == seq!['c', 'o', 'l', 'o', 'r'] && value.len() > 0 {
                    (Some(value), size)
                } else if key == seq!['f', 'o', 'n', 't', '-', 's', 'i', 'z', 'e'] {
                    (color, parse_px_u16_spec(value))
                } else {
                    (color, size)
                }
            },
        }
    }
}

/// The text color and font size a `<span>` tag's `style` attribute sets.
pub open spec fn span_style(tag: Seq<char>) -> (Option<Seq<char>>, Option<u16>) {
    match attr_lookup(tag_attributes(tag), seq!['s', 't', 'y', 'l', 'e']) {
        None => (None, None),
        Some(style) => style_fold(split_on(style, ';', seq![])),
    }
}

pub fn parse_span_style(tag: &Vec<char>) -> (r: (Option<Vec<char>>, Option<u16>))
    ensures
        (match r.0 {
            Some(v) => Some(v@),
            None => None::<Seq<char>>,
        }) == span_style(tag@).0,
        r.1 == span_style(tag@).1,
{
    let attrs = parse_tag_attributes(tag);
    let style_key = vec!['s', 't', 'y', 'l', 'e'];
    assert(style_key@ =~= seq!['s', 't', 'y', 'l', 'e']);
    let style = match lookup_attribute(&attrs, &style_key) {
        Some(s) => s,
        None => {
            return (None, None);
        },
    };
    let decls = split_on_char(&style, ';');
    let color_key = vec!['c', 'o', 'l', 'o', 'r'];
    let size_key = vec!['f', 'o', 'n', 't', '-', 's', 'i', 'z', 'e'];
    assert(color_key@ =~= seq!['c', 'o', 'l', 'o', 'r']);
    assert(size_key@ =~= seq!['f', 'o', 'n', 't', '-', 's', 'i', 'z', 'e']);
    let mut color: Option<Vec<char>> = None;
    let mut font_size_px: Option<u16> = None;
    let mut i: usize = 0;
    while i < decls.len()
        invariant
            i <= decls@.len(),
            color_key@ == seq!['c', 'o', 'l', 'o', 'r'],
            size_key@ == seq!['f', 'o', 'n', 't', '-', 's', 'i', 'z', 'e'],
            (match color {
                Some(v) => Some(v@),
                None => None::<Seq<char>>,
            }) == style_fold(views_of(decls@.take(i as int))).0,
            font_size_px == style_fold(views_of(decls@.take(i as int))).1,
        decreases decls.len() - i,
    {
        let d = &decls[i];
        assert(views_of(decls@.take(i + 1)).drop_last() =~= views_of(decls@.take(i as int)));
        assert(views_of(decls@.take(i + 1)).last() == d@);
        proof {
            lemma_first_index_props(d@, ':', 0);
        }
        match find_char_from(d, 0, ':') {
            None => {},
            Some(k) => {
                let raw_key = subrange(d, 0, k);
                assert(raw_key@ =~= d@.take(k as int));
                let tk = trim_chars(&raw_key);
                let key = to_ascii_lowercase(&tk);
                let raw_value = subrange(d, k + 1, d.len());
                assert(raw_value@ =~= d@.skip(k + 1));
                let value = trim_chars(&raw_value);
                if chars_eq(&key, &color_key) && value.len() > 0 {
                    color = Some(value);
                } else if chars_eq(&key, &size_key) {
                    font_size_px = parse_px_u16(&value);
                }
            },
        }
        i += 1;
    }
    assert(decls@.take(decls@.len() as int) =~= decls@);
    (color, font_size_px)
}

/// The image an `<img>` tag describes, or `None` when it has no attributes.
pub open spec fn img_tag(tag: Seq<char>) -> Option<HtmlNodeView> {
    let attrs = tag_attributes(tag);
    if attrs.len() == 0 {
        None
    } else {
        let width = match attr_lookup(attrs, seq!['w', 'i', 'd', 't', 'h']) {
            Some(v) => match parse_px_u32_spec(v) {
                Some(n) => Some(n),
                None => parse_u32(v),
            },
            None => None,
        };
        Some(
            HtmlNodeView::Image {
                src: attr_lookup(attrs, seq!['s', 'r', 'c']),
                alt: attr_lookup(attrs, seq!['a', 'l', 't']),
                width_px: width,
            },
        )
    }
}

pub fn parse_img_tag(tag: &Vec<char>) -> (r: Option<HtmlImage>)
    ensures
        match r {
            Some(img) => img_tag(tag@) == Some(HtmlNode::Image(img)@),
            None => img_tag(tag@) is None,
        },
{
    let attrs = parse_tag_attributes(tag);
    if attrs.len() == 0 {
        return None;
    }
    let width_key = vec!['w', 'i', 'd', 't', 'h'];
    let src_key = vec!['s', 'r', 'c'];
    let alt_key = vec!['a', 'l', 't'];
    assert(width_key@ =~= seq!['w', 'i', 'd', 't', 'h']);
    assert(src_key@ =~= seq!['s', 'r', 'c']);
    assert(alt_key@ =~= seq!['a', 'l', 't']);
    let width_px = match lookup_attribute(&attrs, &width_key) {
        Some(v) => match parse_px_u32(&v) {
            Some(n) => Some(n),
            None => parse_u32_chars(&v),
        },
        None => None,
    };
    let src = lookup_attribute(&attrs, &src_key);
    let alt = lookup_attribute(&attrs, &alt_key);
    Some(HtmlImage { src: opt_string(&src), alt: opt_string(&alt), width_px })
}

// ---------------------------------------------------------------------------
// The adapter
// ---------------------------------------------------------------------------

pub open spec fn img_open() -> Seq<char> {
    seq!['<', 'i', 'm', 'g']
}

pub open spec fn span_open() -> Seq<char> {
    seq!['<', 's', 'p', 'a', 'n']
}

pub open spec fn span_close() -> Seq<char> {
    seq!['<', '/', 's', 'p', 'a', 'n', '>']
}

/// The supported tag that starts at `start` in `t`, with the index just
/// after it: an `<img ..>` tag with attributes, or a `<span ..>text</span>`
/// whose text holds no `<`. `None` for any other tag.
pub open spec fn tag_at(t: Seq<char>, start: int) -> Option<(HtmlNodeView, int)> {
    if occurs_at(t, img_open(), start) {
        match first_index_from(t, '>', start) {
            None => None,
            Some(tag_end) => match img_tag(t.subrange(start, tag_end + 1)) {
                None => None,
                Some(image) => Some((image, tag_end + 1)),
            },
        }
    } else if occurs_at(t, span_open(), start) {
        match first_index_from(t, '>', start) {
            None => None,
            Some(open_end) => match find_at(t, span_close(), open_end + 1) {
                None => None,
                Some(close_start) => {
                    let inner = t.subrange(open_end + 1, close_start);
                    if contains_char(inner, '<') {
                        None
                    } else {
                        let (color, size) = span_style(t.subrange(start, open_end + 1));
                        Some(
                            (
                                HtmlNodeView::StyledText { text: inner, color, font_size_px: size },
                                close_start + 7,
                            ),
                        )
                    }
                },
            },
        }
    } else {
        None
    }
}

/// The adapter's scan of the trimmed source `t` from index `pos`, with the
/// nodes found so far and whether a supported tag has been seen.
pub open spec fn adapt_from(
    t: Seq<char>,
    pos: int,
    nodes: Seq<HtmlNodeView>,
    saw_html: bool,
) -> Option<HtmlAdapterView>
    decreases t.len() - pos,
{
    if pos < 0 || pos > t.len() {
        None
    } else {
        match first_index_from(t, '<', pos) {
            None => {
                let tail = t.skip(pos);
                let nodes = if tail.len() > 0 {
                    nodes.push(HtmlNodeView::Text(tail))
                } else {
                    nodes
                };
                if saw_html {
                    Some(HtmlAdapterView::Adapted { nodes })
                } else {
                    None
                }
            },
            Some(start) => {
                let before = t.subrange(pos, start);
                let nodes = if before.len() > 0 {
                    nodes.push(HtmlNodeView::Text(before))
                } else {
                    nodes
                };
                match tag_at(t, start) {
                    None => Some(HtmlAdapterView::Unsupported { raw: t }),
                    Some((node, next)) => if pos < next <= t.len() {
                        adapt_from(t, next, nodes.push(node), true)
                    } else {
                        None
                    },
                }
            },
        }
    }
}

/// `adapt_html`: `None` unless the source holds both `<` and `>`; then the
/// scan of the trimmed source, which yields `Adapted` when every tag is a
/// supported `<img>` or `<span>` (and at least one occurs), `Unsupported`
/// with the trimmed source on any other tag, and `None` when no tag occurs.
pub open spec fn adapt_html_spec(source: Seq<char>) -> Option<HtmlAdapterView> {
    if !contains_char(source, '<') || !contains_char(source, '>') {
        None
    } else {
        adapt_from(trim(source), 0, seq![], false)
    }
}

fn push_text_node(nodes: &mut Vec<HtmlNode>, t: &Vec<char>, a: usize, b: usize)
    requires
        a <= b <= t@.len(),
    ensures
        node_views(final(nodes)@) == (if b > a {
            node_views(old(nodes)@).push(HtmlNodeView::Text(t@.subrange(a as int, b as int)))
        } else {
            node_views(old(nodes)@)
        }),
{
    if b > a {
        let piece = subrange(t, a, b);
        let ghost before = node_views(nodes@);
        nodes.push(HtmlNode::Text(string_of(&piece)));
        assert(node_views(nodes@) =~= before.push(
            HtmlNodeView::Text(t@.subrange(a as int, b as int)),
        ));
    }
}

/// Parses the supported tag at `start` (see `tag_at`).
fn parse_tag_at(t: &Vec<char>, start: usize) -> (r: Option<(HtmlNode, usize)>)
    requires
        start < t@.len(),
    ensures
        match r {
            Some((node, next)) => tag_at(t@, start as int) == Some((node@, next as int)) && start
                < next <= t@.len(),
            None => tag_at(t@, start as int) is None,
        },
{
    let tlen = t.len();
    let img = vec!['<', 'i', 'm', 'g'];
    let span = vec!['<', 's', 'p', 'a', 'n'];
    let close = vec!['<', '/', 's', 'p', 'a', 'n', '>'];
    assert(img@ =~= img_open());
    assert(span@ =~= span_open());
    assert(close@ =~= span_close());
    if starts_with_at(t, start, &img) {
        proof {
            lemma_first_index_props(t@, '>', start as int);
        }
        let tag_end = match find_char_from(t, start, '>') {
            None => {
                return None;
            },
            Some(e) => e,
        };
        let tag = subrange(t, start, tag_end + 1);
        match parse_img_tag(&tag) {
            None => None,
            Some(image) => Some((HtmlNode::Image(image), tag_end + 1)),
        }
    } else if starts_with_at(t, start, &span) {
        proof {
            lemma_first_index_props(t@, '>', start as int);
        }
        let open_end = match find_char_from(t, start, '>') {
            None => {
                return None;
            },
            Some(e) => e,
        };
        proof {
            lemma_find_at_props(t@, close@, open_end + 1);
        }
        let close_start = match find_from(t, open_end + 1, &close) {
            None => {
                return None;
            },
            Some(c) => c,
        };
        let inner = subrange(t, open_end + 1, close_start);
        if contains(&inner, '<') {
            return None;
        }
        let open_tag = subrange(t, start, open_end + 1);
        let (color, font_size_px) = parse_span_style(&open_tag);
        let node = HtmlNode::StyledText(
            HtmlStyledText { text: string_of(&inner), color: opt_string(&color), font_size_px },
        );
        Some((node, close_start + 7))
    } else {
        None
    }
}

pub fn adapt_html(source: &Vec<char>) -> (r: Option<HtmlAdapter>)
    ensures
        adapter_opt_view(r) == adapt_html_spec(source@),
{
    if !contains(source, '<') || !contains(source, '>') {
        return None;
    }
    let t = trim_chars(source);
    let mut pos: usize = 0;
    let mut nodes: Vec<HtmlNode> = Vec::new();
    let mut saw_html = false;
    assert(node_views(nodes@) =~= Seq::<HtmlNodeView>::empty());
    loop
        invariant
            pos <= t@.len(),
            t@ == trim(source@),
            adapt_html_spec(source@) == adapt_from(t@, pos as int, node_views(nodes@), saw_html),
        decreases t@.len() - pos,
    {
        proof {
            lemma_first_index_props(t@, '<', pos as int);
        }
        let start = match find_char_from(&t, pos, '<') {
            None => {
                push_text_node(&mut nodes, &t, pos, t.len());
                assert(t@.subrange(pos as int, t@.len() as int) =~= t@.skip(pos as int));
                if saw_html {
                    return Some(HtmlAdapter::Adapted { nodes });
                } else {
                    return None;
                }
            },
            Some(s) => s,
        };
        push_text_node(&mut nodes, &t, pos, start);
        match parse_tag_at(&t, start) {
            None => {
                return Some(HtmlAdapter::Unsupported { raw: string_of(&t) });
            },
            Some((node, next)) => {
                let ghost before = node_views(nodes@);
                nodes.push(node);
                assert(node_views(nodes@) =~= before.push(node@));
                pos = next;
                saw_html = true;
            },
        }
    }
}

// ---------------------------------------------------------------------------
// Plain-text summary of adapted nodes
// ---------------------------------------------------------------------------

pub open spec fn image_prefix() -> Seq<char> {
    seq!['[', 'i', 'm', 'a', 'g', 'e', ':', ' ']
}

pub open spec fn image_placeholder() -> Seq<char> {
    seq!['[', 'i', 'm', 'a', 'g', 'e', ']']
}

/// The text one node contributes to a summary: its text, or an image
/// placeholder naming its alt text (else its source).
pub open spec fn node_text(n: HtmlNodeView) -> Seq<char> {
    match n {
        HtmlNodeView::Text(t) => t,
        HtmlNodeView::StyledText { text, .. } => text,
        HtmlNodeView::Image { src, alt, .. } => {
            let label = match alt {
                Some(a) => Some(a),
                None => src,
            };
            match label {
                Some(l) => image_prefix() + l + seq![']'],
                None => image_placeholder(),
            }
        },
    }
}

pub open spec fn nodes_text(nodes: Seq<HtmlNodeView>) -> Seq<char>
    decreases nodes.len(),
{
    if nodes.len() == 0 {
        seq![]
    } else {
        nodes_text(nodes.drop_last()) + node_text(nodes.last())
    }
}

/// `summarize_html_nodes`: the nodes' texts concatenated, then trimmed.
pub open spec fn summarize_spec(nodes: Seq<HtmlNodeView>) -> Seq<char> {
    trim(nodes_text(nodes))
}

fn append_string(out: &mut Vec<char>, s: &String)
    ensures
        final(out)@ == old(out)@ + s@,
{
    let v = chars_of(s.as_str());
    append_chars(out, &v);
}

pub fn summarize_html_nodes(nodes: &Vec<HtmlNode>) -> (r: Vec<char>)
    ensures
        r@ == summarize_spec(node_views(nodes@)),
{
    let mut out: Vec<char> = Vec::new();
    let mut i: usize = 0;
    while i < nodes.len()
        invariant
            i <= nodes.len(),
            out@ == nodes_text(node_views(nodes@.take(i as int))),
        decreases nodes.len() - i,
    {
        let ghost prev = out@;
        match &nodes[i] {
            HtmlNode::Text(t) => append_string(&mut out, t),
            HtmlNode::StyledText(s) => append_string(&mut out, &s.text),
            HtmlNode::Image(img) => {
                let label = match &img.alt {
                    Some(a) => Some(a),
                    None => match &img.src {
                        Some(s) => Some(s),
                        None => None,
                    },
                };
                match label {
                    Some(l) => {
                        let p = vec!['[', 'i', 'm', 'a', 'g', 'e', ':', ' '];
                        append_chars(&mut out, &p);
                        append_string(&mut out, l);
                        out.push(']');
                        assert(out@ =~= prev + node_text(nodes@[i as int]@));
                    },
                    None => {
                        let p = vec!['[', 'i', 'm', 'a', 'g', 'e', ']'];
                        append_chars(&mut out, &p);
                        assert(out@ =~= prev + node_text(nodes@[i as int]@));
                    },
                }
            },
        }
        assert(out@ =~= prev + node_text(nodes@[i as int]@));
        i += 1;
        assert(node_views(nodes@.take(i as int)).drop_last() =~= node_views(
            nodes@.take((i - 1) as int),
        ));
    }
    assert(nodes@.take(nodes.len() as int) =~= nodes@);
    trim_chars(&out)
}

} // verus!
