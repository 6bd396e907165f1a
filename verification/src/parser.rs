//! The line-based Markdown block parser.
use vstd::prelude::*;
use crate::text::{
    append_chars, chars_eq, has_prefix, is_blank, join, join_chars, lines, lines_from,
    split_lines_chars,
    starts_with, subrange, trim, trim_chars, trim_end, trim_end_chars, trim_start,
    trim_start_chars, views_of,
};
use crate::blocks::{
    dollars, fence_marker, heading_spec, new_block, new_block_spec, ordered_item_spec,
    parse_heading, parse_ordered_list_item, parse_single_line_math_block,
    parse_unordered_list_item, quote_marker, render_paragraph_like_spec, single_line_math_spec,
    unordered_item_spec,
    BlockKind, BlockKindView, BlockView, DocumentBlock,
};

verus! {

/// The parser's state between lines.
pub struct ParseState {
    /// Finished blocks, as kind and source.
    pub items: Seq<(BlockKindView, Seq<char>)>,
    /// Lines of the paragraph being gathered.
    pub para: Seq<Seq<char>>,
    /// Lines of the fenced block being gathered.
    pub code: Seq<Seq<char>>,
    /// The language of the open fence; a fence is open iff this is `Some`.
    pub code_lang: Option<Seq<char>>,
    /// Lines of the display-math block being gathered.
    pub math: Seq<Seq<char>>,
    pub in_math: bool,
}

pub open spec fn initial_state() -> ParseState {
    ParseState {
        items: seq![],
        para: seq![],
        code: seq![],
        code_lang: None,
        math: seq![],
        in_math: false,
    }
}

pub open spec fn newline() -> Seq<char> {
    seq!['\n']
}

pub open spec fn typst_word() -> Seq<char> {
    seq!['t', 'y', 'p', 's', 't']
}

/// The block a closed fence yields: a Typst block for the `typst`
/// language, a code fence otherwise; its source is the fence re-assembled.
pub open spec fn fence_item(lang: Seq<char>, code: Seq<Seq<char>>) -> (BlockKindView, Seq<char>) {
    let source = fence_marker() + lang + newline() + join(code, newline()) + newline()
        + fence_marker();
    if lang == typst_word() {
        (BlockKindView::TypstBlock, source)
    } else {
        (BlockKindView::CodeFence { language: Some(lang) }, source)
    }
}

/// The block a closed display-math region yields.
pub open spec fn math_item(math: Seq<Seq<char>>) -> (BlockKindView, Seq<char>) {
    (BlockKindView::MathBlock, dollars() + newline() + join(math, newline()) + newline() + dollars())
}

/// Ends the paragraph being gathered: its lines joined and trimmed become a
/// paragraph block unless they are blank.
pub open spec fn flush(st: ParseState) -> ParseState {
    if st.para.len() == 0 {
        st
    } else {
        let content = trim(join(st.para, newline()));
        ParseState {
            items: if content.len() > 0 {
                st.items.push((BlockKindView::Paragraph, content))
            } else {
                st.items
            },
            para: seq![],
            ..st
        }
    }
}

/// Flushes the paragraph, then records a single-line block.
pub open spec fn push_single(st: ParseState, kind: BlockKindView, source: Seq<char>) -> ParseState {
    let f = flush(st);
    ParseState { items: f.items.push((kind, source)), ..f }
}

/// The level of a heading line.
pub open spec fn heading_level(line: Seq<char>) -> u8 {
    match heading_spec(line) {
        Some((level, _)) => level,
        None => 0,
    }
}

/// One line of input (before its trailing whitespace is removed).
pub open spec fn step(st: ParseState, raw: Seq<char>) -> ParseState {
    let line = trim_end(raw);
    if st.in_math {
        if trim(line) == dollars() {
            ParseState { items: st.items.push(math_item(st.math)), math: seq![], in_math: false, ..st }
        } else {
            ParseState { math: st.math.push(line), ..st }
        }
    } else if st.code_lang is Some {
        if starts_with(trim_start(line), fence_marker()) {
            ParseState {
                items: st.items.push(fence_item(st.code_lang->0, st.code)),
                code: seq![],
                code_lang: None,
                ..st
            }
        } else {
            ParseState { code: st.code.push(line), ..st }
        }
    } else if trim(line).len() == 0 {
        flush(st)
    } else if starts_with(trim_start(line), fence_marker()) {
        let info = trim(trim_start(line).skip(3));
        let f = flush(st);
        ParseState {
            code_lang: if info.len() == 0 {
                None
            } else {
                Some(info)
            },
            code: seq![],
            ..f
        }
    } else if heading_spec(line) is Some {
        push_single(st, BlockKindView::Heading { level: heading_level(line) }, line)
    } else if starts_with(trim_start(line), quote_marker()) {
        push_single(st, BlockKindView::Quote, line)
    } else if unordered_item_spec(line) is Some {
        push_single(st, BlockKindView::ListItem { ordered: false }, line)
    } else if ordered_item_spec(line) is Some {
        push_single(st, BlockKindView::ListItem { ordered: true }, line)
    } else if single_line_math_spec(line) is Some {
        push_single(st, BlockKindView::MathBlock, trim(line))
    } else if trim(line) == dollars() {
        let f = flush(st);
        ParseState { in_math: true, math: seq![], ..f }
    } else {
        ParseState { para: st.para.push(line), ..st }
    }
}

/// The state after the given lines.
pub open spec fn run_lines(st: ParseState, ls: Seq<Seq<char>>) -> ParseState
    decreases ls.len(),
{
    if ls.len() == 0 {
        st
    } else {
        run_lines(step(st, ls[0]), ls.drop_first())
    }
}

/// End of input: an open fence or math region is closed, then the
/// paragraph is flushed.
pub open spec fn finish(st: ParseState) -> ParseState {
    let a = match st.code_lang {
        Some(lang) => ParseState { items: st.items.push(fence_item(lang, st.code)), ..st },
        None => st,
    };
    let b = if a.in_math {
        ParseState { items: a.items.push(math_item(a.math)), ..a }
    } else {
        a
    };
    flush(b)
}

/// The kind and source of each block of a Markdown source, in order.
pub open spec fn parse_items(source: Seq<char>) -> Seq<(BlockKindView, Seq<char>)> {
    finish(run_lines(initial_state(), lines(source))).items
}

/// The blocks built from parsed items: block `i` has id `i`.
pub open spec fn blocks_of(items: Seq<(BlockKindView, Seq<char>)>) -> Seq<BlockView> {
    Seq::new(items.len(), |i: int| new_block_spec(i as usize, items[i].0, items[i].1))
}

/// `parse_blocks`: the blocks of a Markdown source.
pub open spec fn parse_blocks_spec(source: Seq<char>) -> Seq<BlockView> {
    blocks_of(parse_items(source))
}

pub open spec fn block_views(v: Seq<DocumentBlock>) -> Seq<BlockView> {
    v.map_values(|b: DocumentBlock| b@)
}

struct BlockParser {
    blocks: Vec<DocumentBlock>,
    para: Vec<Vec<char>>,
    code: Vec<Vec<char>>,
    code_lang: Option<Vec<char>>,
    math: Vec<Vec<char>>,
    in_math: bool,
}

impl BlockParser {
    spec fn state(&self) -> ParseState {
        ParseState {
            items: self.blocks@.map_values(|b: DocumentBlock| (b@.kind, b@.source)),
            para: views_of(self.para@),
            code: views_of(self.code@),
            code_lang: match self.code_lang {
                Some(l) => Some(l@),
                None => None,
            },
            math: views_of(self.math@),
            in_math: self.in_math,
        }
    }

    spec fn wf(&self) -> bool {
        forall|i: int|
            0 <= i < self.blocks@.len() ==> #[trigger] self.blocks@[i]@ == new_block_spec(
                i as usize,
                self.blocks@[i]@.kind,
                self.blocks@[i]@.source,
            )
    }

    fn push_block(&mut self, kind: BlockKind, source: &Vec<char>)
        requires
            old(self).wf(),
        ensures
            final(self).state() == (ParseState {
                items: old(self).state().items.push((kind@, source@)),
                ..old(self).state()
            }),
            final(self).wf(),
    {
        let id = self.blocks.len();
        let b = new_block(id, kind, source);
        self.blocks.push(b);
        assert(self.state().items =~= old(self).state().items.push((kind@, source@)));
    }

    fn flush(&mut self)
        requires
            old(self).wf(),
        ensures
            final(self).state() == flush(old(self).state()),
            final(self).wf(),
    {
        if self.para.len() == 0 {
            return;
        }
        let nl = vec!['\n'];
        assert(nl@ =~= newline());
        let joined = join_chars(&self.para, &nl);
        let content = trim_chars(&joined);
        if content.len() > 0 {
            self.push_block(BlockKind::Paragraph, &content);
        }
        self.para = Vec::new();
        assert(views_of(self.para@) =~= Seq::<Seq<char>>::empty());
        assert(self.state() =~= flush(old(self).state()));
    }

    fn close_fence(&mut self)
        requires
            old(self).wf(),
            old(self).code_lang is Some,
        ensures
            final(self).state() == (ParseState {
                items: old(self).state().items.push(
                    fence_item(old(self).state().code_lang->0, old(self).state().code),
                ),
                ..old(self).state()
            }),
            final(self).wf(),
    {
        let lang = match &self.code_lang {
            Some(l) => subrange(l, 0, l.len()),
            None => Vec::new(),
        };
        assert(lang@ =~= old(self).state().code_lang->0);
        let nl = vec!['\n'];
        assert(nl@ =~= newline());
        let mut source = vec!['`', '`', '`'];
        assert(source@ =~= fence_marker());
        append_chars(&mut source, &lang);
        source.push('\n');
        let body = join_chars(&self.code, &nl);
        append_chars(&mut source, &body);
        source.push('\n');
        source.push('`');
        source.push('`');
        source.push('`');
        let typst = vec!['t', 'y', 'p', 's', 't'];
        assert(typst@ =~= typst_word());
        let ghost item = fence_item(lang@, views_of(self.code@));
        assert(source@ =~= item.1);
        if chars_eq(&lang, &typst) {
            self.push_block(BlockKind::TypstBlock, &source);
        } else {
            self.push_block(BlockKind::CodeFence { language: Some(crate::text::string_of(&lang)) }, &source);
        }
    }

    fn close_math(&mut self)
        requires
            old(self).wf(),
        ensures
            final(self).state() == (ParseState {
                items: old(self).state().items.push(math_item(old(self).state().math)),
                ..old(self).state()
            }),
            final(self).wf(),
    {
        let nl = vec!['\n'];
        assert(nl@ =~= newline());
        let mut source = vec!['$', '$', '\n'];
        let body = join_chars(&self.math, &nl);
        append_chars(&mut source, &body);
        source.push('\n');
        source.push('$');
        source.push('$');
        assert(source@ =~= math_item(views_of(self.math@)).1);
        self.push_block(BlockKind::MathBlock, &source);
    }

    fn push_single(&mut self, kind: BlockKind, source: &Vec<char>)
        requires
            old(self).wf(),
        ensures
            final(self).state() == push_single(old(self).state(), kind@, source@),
            final(self).wf(),
    {
        self.flush();
        self.push_block(kind, source);
    }

    /// Handles one raw input line.
    fn step(&mut self, raw: &Vec<char>)
        requires
            old(self).wf(),
        ensures
            final(self).state() == step(old(self).state(), raw@),
            final(self).wf(),
    {
        let line = trim_end_chars(raw);
        let dd = vec!['$', '$'];
        assert(dd@ =~= dollars());
        let marker = vec!['`', '`', '`'];
        assert(marker@ =~= fence_marker());
        if self.in_math {
            let t = trim_chars(&line);
            if chars_eq(&t, &dd) {
                self.close_math();
                self.math = Vec::new();
                self.in_math = false;
                assert(views_of(self.math@) =~= Seq::<Seq<char>>::empty());
                assert(self.state() =~= step(old(self).state(), raw@));
            } else {
                let ghost before = views_of(self.math@);
                self.math.push(line);
                assert(views_of(self.math@) =~= before.push(trim_end(raw@)));
                assert(self.state() =~= step(old(self).state(), raw@));
            }
            return;
        }
        if self.code_lang.is_some() {
            let ts = trim_start_chars(&line);
            if has_prefix(&ts, &marker) {
                self.close_fence();
                self.code = Vec::new();
                self.code_lang = None;
                assert(views_of(self.code@) =~= Seq::<Seq<char>>::empty());
                assert(self.state() =~= step(old(self).state(), raw@));
            } else {
                let ghost before = views_of(self.code@);
                self.code.push(line);
                assert(views_of(self.code@) =~= before.push(trim_end(raw@)));
                assert(self.state() =~= step(old(self).state(), raw@));
            }
            return;
        }
        if is_blank(&line) {
            self.flush();
            return;
        }
        let ts = trim_start_chars(&line);
        if has_prefix(&ts, &marker) {
            self.flush();
            let rest = subrange(&ts, 3, ts.len());
            assert(rest@ =~= ts@.skip(3));
            let info = trim_chars(&rest);
            if info.len() == 0 {
                self.code_lang = None;
            } else {
                self.code_lang = Some(info);
            }
            self.code = Vec::new();
            assert(views_of(self.code@) =~= Seq::<Seq<char>>::empty());
            assert(self.state() =~= step(old(self).state(), raw@));
            return;
        }
        if let Some((level, _text)) = parse_heading(&line) {
            self.push_single(BlockKind::Heading { level }, &line);
            return;
        }
        let qm = vec!['>', ' '];
        assert(qm@ =~= quote_marker());
        if has_prefix(&ts, &qm) {
            self.push_single(BlockKind::Quote, &line);
            return;
        }
        if parse_unordered_list_item(&line).is_some() {
            self.push_single(BlockKind::ListItem { ordered: false }, &line);
            return;
        }
        if parse_ordered_list_item(&line).is_some() {
            self.push_single(BlockKind::ListItem { ordered: true }, &line);
            return;
        }
        if parse_single_line_math_block(&line).is_some() {
            let t = trim_chars(&line);
            self.push_single(BlockKind::MathBlock, &t);
            return;
        }
        let t = trim_chars(&line);
        if chars_eq(&t, &dd) {
            self.flush();
            self.in_math = true;
            self.math = Vec::new();
            assert(views_of(self.math@) =~= Seq::<Seq<char>>::empty());
            assert(self.state() =~= step(old(self).state(), raw@));
            return;
        }
        let ghost before = views_of(self.para@);
        self.para.push(line);
        assert(views_of(self.para@) =~= before.push(trim_end(raw@)));
        assert(self.state() =~= step(old(self).state(), raw@));
    }

    fn finish(&mut self)
        requires
            old(self).wf(),
        ensures
            final(self).state() == finish(old(self).state()),
            final(self).wf(),
    {
        if self.code_lang.is_some() {
            self.close_fence();
        }
        let ghost a = self.state();
        if self.in_math {
            self.close_math();
        }
        self.flush();
    }
}

proof fn lemma_blocks_of_state(p: &BlockParser)
    requires
        p.wf(),
    ensures
        block_views(p.blocks@) == blocks_of(p.state().items),
{
    assert(block_views(p.blocks@) =~= blocks_of(p.state().items)) by {
        assert forall|i: int| 0 <= i < p.blocks@.len() implies block_views(p.blocks@)[i]
            == blocks_of(p.state().items)[i] by {
            assert(p.blocks@[i]@ == new_block_spec(i as usize, p.blocks@[i]@.kind, p.blocks@[i]@.source));
        }
    }
}

/// Splits a Markdown source into blocks (see `parse_blocks_spec`).
pub fn parse_blocks(source: &Vec<char>) -> (r: Vec<DocumentBlock>)
    ensures
        block_views(r@) == parse_blocks_spec(source@),
{
    let ls = split_lines_chars(source);
    let mut p = BlockParser {
        blocks: Vec::new(),
        para: Vec::new(),
        code: Vec::new(),
        code_lang: None,
        math: Vec::new(),
        in_math: false,
    };
    assert(p.state().items =~= initial_state().items);
    assert(p.state().para =~= initial_state().para);
    assert(p.state().code =~= initial_state().code);
    assert(p.state().math =~= initial_state().math);
    assert(p.state() == initial_state());
    let mut i: usize = 0;
    assert(views_of(ls@).skip(0) =~= views_of(ls@));
    while i < ls.len()
        invariant
            i <= ls@.len(),
            p.wf(),
            run_lines(initial_state(), lines(source@)) == run_lines(
                p.state(),
                views_of(ls@).skip(i as int),
            ),
        decreases ls@.len() - i,
    {
        assert(views_of(ls@).skip(i as int).drop_first() =~= views_of(ls@).skip(i + 1));
        assert(views_of(ls@).skip(i as int)[0] == ls@[i as int]@);
        p.step(&ls[i]);
        i += 1;
    }
    assert(views_of(ls@).skip(i as int) =~= Seq::<Seq<char>>::empty());
    p.finish();
    proof {
        lemma_blocks_of_state(&p);
    }
    p.blocks
}

proof fn lemma_lines_one(s: Seq<char>, cur: Seq<char>)
    requires
        forall|i: int| 0 <= i < s.len() ==> s[i] != '\n',
    ensures
        lines_from(s, cur) == (if (cur + s).len() == 0 {
            Seq::<Seq<char>>::empty()
        } else {
            seq![cur + s]
        }),
    decreases s.len(),
{
    if s.len() == 0 {
        assert(cur + s =~= cur);
    } else {
        let t = s.drop_first();
        assert forall|i: int| 0 <= i < t.len() implies t[i] != '\n' by {
            assert(t[i] == s[i + 1]);
        }
        lemma_lines_one(t, cur.push(s[0]));
        assert(cur.push(s[0]) + t =~= cur + s);
    }
}

/// A document of one line `N. text` (with `N` digits) is one ordered list
/// item: its source is the line, and it shows what the text after the
/// number and `. ` shows as a paragraph.
pub proof fn law_ordered_item_line(l: Seq<char>, rest: Seq<char>)
    requires
        forall|i: int| 0 <= i < l.len() ==> l[i] != '\n',
        trim(trim_end(l)).len() > 0,
        !starts_with(trim_start(trim_end(l)), fence_marker()),
        heading_spec(trim_end(l)) is None,
        !starts_with(trim_start(trim_end(l)), quote_marker()),
        unordered_item_spec(trim_end(l)) is None,
        ordered_item_spec(trim_end(l)) == Some(rest),
    ensures
        parse_blocks_spec(l).len() == 1,
        parse_blocks_spec(l)[0].kind == (BlockKindView::ListItem { ordered: true }),
        parse_blocks_spec(l)[0].source == trim_end(l),
        parse_blocks_spec(l)[0].rendered == render_paragraph_like_spec(rest),
{
    lemma_lines_one(l, seq![]);
    assert(Seq::<char>::empty() + l =~= l);
    assert(l.len() > 0) by {
        if l.len() == 0 {
            assert(trim_end(l) == l);
            assert(trim(l) =~= Seq::<char>::empty());
        }
    }
    assert(lines(l) == seq![l]);
    assert(seq![l].drop_first() =~= Seq::<Seq<char>>::empty());
    let st = step(initial_state(), l);
    assert(run_lines(initial_state(), lines(l)) == run_lines(st, Seq::<Seq<char>>::empty()));
    assert(st.items =~= seq![(BlockKindView::ListItem { ordered: true }, trim_end(l))]);
    assert(parse_items(l) == st.items);
}

} // verus!
