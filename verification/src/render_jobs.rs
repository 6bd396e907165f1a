//! Typst render jobs: which blocks need rendering, their cache keys, and
//! how finished renders are written back to the blocks that wait for them.
use vstd::prelude::*;
use crate::text::{
    all_digits, append_chars, chars_eq, chars_of, copy_string, find_char_from, first_index_from,
    is_digit, string_from, string_of, subrange, trim, trim_chars,
};
use crate::html::{trim_start_char, trim_start_char_exec};
use crate::blocks::{
    is_paragraph_like, BlockKind, BlockKindView, BlockView, DocumentBlock,
    TypstAdapter, TypstAdapterView,
};
use crate::document::{DocumentModel, DocumentView, SnapshotView};
use crate::parser::block_views;
use crate::typst::{error_message_spec, RenderKind, TypstError};

verus! {

/// `typst_render_request`: math blocks render their body as math, Typst
/// blocks (and paragraph-like blocks awaiting inline math) as a block.
pub open spec fn render_request_spec(b: BlockView) -> Option<(RenderKind, Seq<char>)> {
    match b.kind {
        BlockKindView::MathBlock => Some((RenderKind::Math, b.rendered)),
        BlockKindView::TypstBlock => Some((RenderKind::Block, b.rendered)),
        _ => if is_paragraph_like(b.kind) && b.typst is Some {
            Some((RenderKind::Block, b.rendered))
        } else {
            None
        },
    }
}

pub fn typst_render_request(block: &DocumentBlock) -> (r: Option<(RenderKind, String)>)
    ensures
        match r {
            Some((k, s)) => render_request_spec(block@) == Some((k, s@)),
            None => render_request_spec(block@) is None,
        },
{
    match block.kind {
        BlockKind::MathBlock => Some((RenderKind::Math, copy_string(&block.rendered))),
        BlockKind::TypstBlock => Some((RenderKind::Block, copy_string(&block.rendered))),
        BlockKind::Paragraph | BlockKind::ListItem { .. } | BlockKind::Quote => {
            if block.typst.is_some() {
                Some((RenderKind::Block, copy_string(&block.rendered)))
            } else {
                None
            }
        },
        _ => None,
    }
}

pub open spec fn kind_prefix(kind: RenderKind) -> Seq<char> {
    match kind {
        RenderKind::Math => seq!['m', 'a', 't', 'h', ':', ':'],
        RenderKind::Block => seq!['b', 'l', 'o', 'c', 'k', ':', ':'],
    }
}

/// `typst_cache_key`: the render kind's name, `::`, then the source.
pub open spec fn cache_key_spec(kind: RenderKind, source: Seq<char>) -> Seq<char> {
    kind_prefix(kind) + source
}

pub fn typst_cache_key(kind: &RenderKind, source: &str) -> (r: String)
    ensures
        r@ == cache_key_spec(*kind, source@),
{
    let mut key = match kind {
        RenderKind::Math => vec!['m', 'a', 't', 'h', ':', ':'],
        RenderKind::Block => vec!['b', 'l', 'o', 'c', 'k', ':', ':'],
    };
    assert(key@ =~= kind_prefix(*kind));
    let s = chars_of(source);
    append_chars(&mut key, &s);
    string_of(&key)
}

/// Cache keys tell render kinds apart, and sources apart within a kind.
pub proof fn law_cache_key_injective(k1: RenderKind, s1: Seq<char>, k2: RenderKind, s2: Seq<char>)
    requires
        cache_key_spec(k1, s1) == cache_key_spec(k2, s2),
    ensures
        k1 == k2,
        s1 == s2,
{
    let a = cache_key_spec(k1, s1);
    assert(a[0] == kind_prefix(k1)[0]);
    assert(a[0] == kind_prefix(k2)[0]);
    if k1 == k2 {
        let n = kind_prefix(k1).len() as int;
        assert(s1 =~= a.skip(n));
        assert(s2 =~= cache_key_spec(k2, s2).skip(n));
    }
}

/// `typst_adapter_from_result`: a rendered SVG, or the error's message.
pub open spec fn adapter_from_result_spec(result: Result<String, TypstError>) -> TypstAdapterView {
    match result {
        Ok(svg) => TypstAdapterView::Rendered { svg: svg@ },
        Err(e) => TypstAdapterView::Error { message: error_message_spec(e) },
    }
}

pub fn typst_adapter_from_result(result: Result<String, TypstError>) -> (r: TypstAdapter)
    ensures
        r@ == adapter_from_result_spec(result),
{
    match result {
        Ok(svg) => TypstAdapter::Rendered { svg },
        Err(error) => TypstAdapter::Error { message: error.message() },
    }
}

/// `apply_typst_adapter`: a block that takes part in rendering gets the new
/// render state; any other block is left alone.
pub open spec fn adapted_block(b: BlockView, a: TypstAdapterView) -> BlockView {
    if b.typst is Some {
        BlockView { typst: Some(a), ..b }
    } else {
        b
    }
}

pub fn apply_typst_adapter(block: &mut DocumentBlock, adapter: TypstAdapter) -> (r: bool)
    ensures
        r == (old(block)@.typst is Some),
        final(block)@ == adapted_block(old(block)@, adapter@),
{
    if block.typst.is_none() {
        return false;
    }
    block.typst = Some(adapter);
    true
}

pub fn apply_typst_result(block: &mut DocumentBlock, result: Result<String, TypstError>) -> (r: bool)
    ensures
        r == (old(block)@.typst is Some),
        final(block)@ == adapted_block(old(block)@, adapter_from_result_spec(result)),
{
    let adapter = typst_adapter_from_result(result);
    apply_typst_adapter(block, adapter)
}

/// What clicking a block does.
#[derive(Debug, Clone, Copy, PartialEq, Eq, Structural)]
pub struct BlockClickPlan {
    pub apply_draft: bool,
    pub switch_block_focus: bool,
    pub refresh_window_focus: bool,
}

/// Clicking another block applies a pending draft and moves focus there;
/// every click refreshes window focus.
pub fn plan_block_click(current_index: usize, target_index: usize, has_draft: bool) -> (r: BlockClickPlan)
    ensures
        r == (BlockClickPlan {
            apply_draft: has_draft && current_index != target_index,
            switch_block_focus: current_index != target_index,
            refresh_window_focus: true,
        }),
{
    BlockClickPlan {
        apply_draft: has_draft && current_index != target_index,
        switch_block_focus: current_index != target_index,
        refresh_window_focus: true,
    }
}

pub open spec fn key_views(v: Seq<String>) -> Seq<Seq<char>> {
    v.map_values(|s: String| s@)
}

fn contains_key(keys: &Vec<String>, key: &str) -> (r: bool)
    ensures
        r == key_views(keys@).contains(key@),
{
    let k = string_from(key);
    let mut i: usize = 0;
    while i < keys.len()
        invariant
            i <= keys@.len(),
            k@ == key@,
            forall|j: int| 0 <= j < i ==> keys@[j]@ != key@,
        decreases keys.len() - i,
    {
        if keys[i] == k {
            assert(key_views(keys@)[i as int] == key@);
            return true;
        }
        i += 1;
    }
    assert forall|j: int| 0 <= j < key_views(keys@).len() implies key_views(keys@)[j] != key@ by {
        assert(key_views(keys@)[j] == keys@[j]@);
    }
    false
}

/// A render starts only for a key that is neither cached nor in flight.
pub fn should_start_typst_compile(cached_keys: &Vec<String>, in_flight: &Vec<String>, cache_key: &str) -> (r: bool)
    ensures
        r == (!key_views(cached_keys@).contains(cache_key@) && !key_views(in_flight@).contains(
            cache_key@,
        )),
{
    !contains_key(cached_keys, cache_key) && !contains_key(in_flight, cache_key)
}

/// Whether a block awaits the render with this cache key.
pub open spec fn awaits_key(b: BlockView, key: Seq<char>) -> bool {
    &&& b.typst == Some(TypstAdapterView::Pending)
    &&& match render_request_spec(b) {
        Some((k, s)) => cache_key_spec(k, s) == key,
        None => false,
    }
}

/// Indices (below `n`) of the blocks that await the key, in order.
pub open spec fn awaiting_indices(blocks: Seq<BlockView>, key: Seq<char>, n: int) -> Seq<int>
    decreases n,
{
    if n <= 0 {
        seq![]
    } else {
        let rest = awaiting_indices(blocks, key, n - 1);
        if awaits_key(blocks[n - 1], key) {
            rest.push(n - 1)
        } else {
            rest
        }
    }
}

/// The blocks after a finished render is written back: every block that
/// awaits the key takes the new state.
pub open spec fn with_render(blocks: Seq<BlockView>, key: Seq<char>, a: TypstAdapterView) -> Seq<BlockView> {
    Seq::new(
        blocks.len(),
        |i: int| if awaits_key(blocks[i], key) {
            BlockView { typst: Some(a), ..blocks[i] }
        } else {
            blocks[i]
        },
    )
}

proof fn lemma_awaiting_indices(blocks: Seq<BlockView>, key: Seq<char>, n: int)
    requires
        0 <= n <= blocks.len(),
    ensures
        forall|j: int| 0 <= j < awaiting_indices(blocks, key, n).len() ==> 0 <= #[trigger] awaiting_indices(blocks, key, n)[j] < n,
        forall|j: int, m: int| 0 <= j < m < awaiting_indices(blocks, key, n).len() ==> awaiting_indices(blocks, key, n)[j] < awaiting_indices(blocks, key, n)[m],
        forall|i: int| 0 <= i < n ==> (awaits_key(blocks[i], key) <==> awaiting_indices(blocks, key, n).contains(i)),
        awaiting_indices(blocks, key, n).len() <= n,
    decreases n,
{
    if n > 0 {
        lemma_awaiting_indices(blocks, key, n - 1);
        let rest = awaiting_indices(blocks, key, n - 1);
        if awaits_key(blocks[n - 1], key) {
            assert forall|i: int| 0 <= i < n implies (awaits_key(blocks[i], key) <==> rest.push(n - 1).contains(i)) by {
                if i < n - 1 {
                    if rest.contains(i) {
                        let j = choose|j: int| 0 <= j < rest.len() && rest[j] == i;
                        assert(rest.push(n - 1)[j] == i);
                    }
                    if rest.push(n - 1).contains(i) {
                        let ext = rest.push(n - 1);
                        let j = choose|j: int| 0 <= j < ext.len() && ext[j] == i;
                        assert(j < rest.len());
                        assert(rest[j] == i);
                    }
                } else {
                    assert(rest.push(n - 1)[rest.len() as int] == n - 1);
                }
            }
        } else {
            assert forall|i: int| 0 <= i < n implies (awaits_key(blocks[i], key) <==> rest.contains(i)) by {
                if i == n - 1 && rest.contains(i) {
                    let j = choose|j: int| 0 <= j < rest.len() && rest[j] == i;
                }
            }
        }
    }
}

/// Writes a finished render to every block that awaits its cache key and
/// returns how many blocks took it; focus ends where it was.
pub fn apply_cached_typst_adapter(document: &mut DocumentModel, cache_key: &str, adapter: TypstAdapter) -> (r: usize)
    requires
        old(document).wf(),
    ensures
        final(document).wf(),
        final(document)@ == (DocumentView {
            current: SnapshotView {
                blocks: with_render(old(document)@.current.blocks, cache_key@, adapter@),
                ..old(document)@.current
            },
            ..old(document)@
        }),
        r == awaiting_indices(old(document)@.current.blocks, cache_key@, old(document)@.current.blocks.len() as int).len(),
{
    let ghost d0 = document@;

    let ghost blocks0 = d0.current.blocks;
    let ghost n = blocks0.len() as int;
    let previous_focus = document.focused_block();
    let key = chars_of(cache_key);
    let mut targets: Vec<usize> = Vec::new();
    let count = document.block_count();
    let mut i: usize = 0;
    while i < count
        invariant
            i <= count,
            count == blocks0.len(),
            document@ == d0,
            blocks0 == d0.current.blocks,
            key@ == cache_key@,
            targets@.map_values(|x: usize| x as int) == awaiting_indices(blocks0, cache_key@, i as int),
        decreases count - i,
    {
        let all = document.blocks();
        assert(block_views(all@).len() == all@.len());
        let block = &all[i];
        assert(block@ == blocks0[i as int]) by {
            assert(block_views(all@)[i as int] == block@);
        }
        let pending = match &block.typst {
            Some(TypstAdapter::Pending) => true,
            _ => false,
        };
        if pending {
            match typst_render_request(block) {
                Some((kind, source)) => {
                    let k = typst_cache_key(&kind, source.as_str());
                    let kc = chars_of(k.as_str());
                    if chars_eq(&kc, &key) {
                        let ghost before = targets@.map_values(|x: usize| x as int);
                        targets.push(i);
                        assert(targets@.map_values(|x: usize| x as int) =~= before.push(i as int));
                    }
                },
                None => {},
            }
        }
        i += 1;
    }
    proof {
        lemma_awaiting_indices(blocks0, cache_key@, n);
    }
    let ghost tv = targets@.map_values(|x: usize| x as int);
    let mut updated: usize = 0;
    let mut j: usize = 0;
    while j < targets.len()
        invariant
            j <= targets@.len(),
            tv == targets@.map_values(|x: usize| x as int),
            tv == awaiting_indices(blocks0, cache_key@, n),
            n == blocks0.len(),
            forall|a: int| 0 <= a < tv.len() ==> 0 <= #[trigger] tv[a] < n,
            forall|a: int, b: int| 0 <= a < b < tv.len() ==> tv[a] < tv[b],
            forall|x: int| 0 <= x < n ==> (awaits_key(blocks0[x], cache_key@) <==> tv.contains(x)),
            document.wf(),
            updated == j,
            previous_focus == d0.current.focused_block,
            crate::document::focus_ok(d0.current),
            document@.undo == d0.undo,
            document@.redo == d0.redo,
            document@.current.source == d0.current.source,
            document@.current.outline == d0.current.outline,
            document@.current.stats == d0.current.stats,
            document@.current.blocks == Seq::new(
                blocks0.len(),
                |x: int| if tv.take(j as int).contains(x) {
                    BlockView { typst: Some(adapter@), ..blocks0[x] }
                } else {
                    blocks0[x]
                },
            ),
        decreases targets@.len() - j,
    {
        let index = targets[j];
        assert(tv[j as int] == index as int);
        let ok = document.focus_block(index);
        assert(ok);
        let ghost before_blocks = document@.current.blocks;
        assert(!tv.take(j as int).contains(index as int)) by {
            let t0 = tv.take(j as int);
            if t0.contains(index as int) {
                let a = choose|a: int| 0 <= a < t0.len() && t0[a] == index as int;
                assert(tv[a] < tv[j as int]);
            }
        }
        assert(awaits_key(blocks0[index as int], cache_key@)) by {
            assert(tv.contains(index as int));
        }
        let a = adapter.deep_copy();
        match document.focused_block_mut() {
            Some(block) => {
                let changed = apply_typst_adapter(block, a);
                assert(changed);
            },
            None => {
                assert(false);
            },
        }
        updated += 1;
        assert(tv.take(j + 1) =~= tv.take(j as int).push(index as int));
        assert(document@.current.blocks =~= Seq::new(
            blocks0.len(),
            |x: int| if tv.take(j + 1).contains(x) {
                BlockView { typst: Some(adapter@), ..blocks0[x] }
            } else {
                blocks0[x]
            },
        )) by {
            let t1 = tv.take(j + 1);
            let t0 = tv.take(j as int);
            assert forall|x: int| 0 <= x < n implies (t1.contains(x) <==> (t0.contains(x) || x == index as int)) by {
                if t1.contains(x) {
                    let a = choose|a: int| 0 <= a < t1.len() && t1[a] == x;
                    if a < j {
                        assert(t0[a] == x);
                    }
                }
                if t0.contains(x) {
                    let a = choose|a: int| 0 <= a < t0.len() && t0[a] == x;
                    assert(t1[a] == x);
                }
                if x == index as int {
                    assert(t1[j as int] == x);
                }
            }
        }
        j += 1;
    }
    assert(tv.take(tv.len() as int) =~= tv);
    assert(document@.current.blocks =~= with_render(blocks0, cache_key@, adapter@));
    let count = document.block_count();
    let last = if count == 0 { 0 } else { count - 1 };
    let restore_index = if previous_focus <= last { previous_focus } else { last };
    let _ = document.focus_block(restore_index);
    assert(document@.current =~= (SnapshotView { blocks: with_render(blocks0, cache_key@, adapter@), ..d0.current }));
    updated
}

/// A finished render from a job started for one block is written to every
/// block that now awaits the same cache key (see `apply_cached_typst_adapter`).
pub fn apply_completed_typst_work(
    document: &mut DocumentModel,
    cache_key: &str,
    _origin_index: usize,
    _origin_source: &str,
    adapter: TypstAdapter,
) -> (r: usize)
    requires
        old(document).wf(),
    ensures
        final(document).wf(),
        final(document)@ == (DocumentView {
            current: SnapshotView {
                blocks: with_render(old(document)@.current.blocks, cache_key@, adapter@),
                ..old(document)@.current
            },
            ..old(document)@
        }),
        r == awaiting_indices(old(document)@.current.blocks, cache_key@, old(document)@.current.blocks.len() as int).len(),
{
    apply_cached_typst_adapter(document, cache_key, adapter)
}

/// A render to start or to take from the cache: the block, its source
/// when the job was planned, and what is rendered under which key.
pub struct TypstJob {
    pub index: usize,
    pub block_source: String,
    pub kind: RenderKind,
    pub source: String,
    pub cache_key: String,
}

pub struct TypstJobView {
    pub index: int,
    pub block_source: Seq<char>,
    pub kind: RenderKind,
    pub source: Seq<char>,
    pub cache_key: Seq<char>,
}

impl View for TypstJob {
    type V = TypstJobView;

    open spec fn view(&self) -> TypstJobView {
        TypstJobView {
            index: self.index as int,
            block_source: self.block_source@,
            kind: self.kind,
            source: self.source@,
            cache_key: self.cache_key@,
        }
    }
}

pub open spec fn job_views(v: Seq<TypstJob>) -> Seq<TypstJobView> {
    v.map_values(|j: TypstJob| j@)
}

/// The job of block `i`, when the block waits for a render.
pub open spec fn job_of(b: BlockView, i: int) -> Option<TypstJobView> {
    if b.typst == Some(TypstAdapterView::Pending) {
        match render_request_spec(b) {
            Some((k, s)) => Some(
                TypstJobView { index: i, block_source: b.source, kind: k, source: s, cache_key: cache_key_spec(k, s) },
            ),
            None => None,
        }
    } else {
        None
    }
}

/// The jobs of the blocks below `n`, in block order.
pub open spec fn jobs_spec(blocks: Seq<BlockView>, n: int) -> Seq<TypstJobView>
    decreases n,
{
    if n <= 0 {
        seq![]
    } else {
        let rest = jobs_spec(blocks, n - 1);
        match job_of(blocks[n - 1], n - 1) {
            Some(j) => rest.push(j),
            None => rest,
        }
    }
}

/// The renders the document waits for: one job per block whose render is
/// pending, in block order.
pub fn typst_jobs(document: &DocumentModel) -> (r: Vec<TypstJob>)
    ensures
        job_views(r@) == jobs_spec(document@.current.blocks, document@.current.blocks.len() as int),
{
    let blocks = document.blocks();
    let ghost bv = document@.current.blocks;
    assert(block_views(blocks@).len() == blocks@.len());
    let mut jobs: Vec<TypstJob> = Vec::new();
    let mut i: usize = 0;
    while i < blocks.len()
        invariant
            bv == block_views(blocks@),
            bv.len() == blocks@.len(),
            i <= blocks@.len(),
            job_views(jobs@) == jobs_spec(bv, i as int),
        decreases blocks.len() - i,
    {
        let block = &blocks[i];
        assert(bv[i as int] == block@);
        let pending = match &block.typst {
            Some(TypstAdapter::Pending) => true,
            _ => false,
        };
        if pending {
            match typst_render_request(block) {
                Some((kind, source)) => {
                    let cache_key = typst_cache_key(&kind, source.as_str());
                    let ghost j0 = job_views(jobs@);
                    let job = TypstJob { index: i, block_source: copy_string(&block.source), kind, source, cache_key };
                    let ghost jv = job@;
                    jobs.push(job);
                    assert(job_views(jobs@) =~= j0.push(jv));
                },
                None => {},
            }
        }
        i += 1;
    }
    jobs
}

pub open spec fn ellipsis() -> char {
    '\u{2026}'
}

/// `truncate_for_pill`: the first `max_chars` characters, with an ellipsis
/// when the input was longer.
pub open spec fn truncate_spec(input: Seq<char>, max_chars: usize) -> Seq<char> {
    if input.len() > max_chars {
        input.take(max_chars as int).push(ellipsis())
    } else {
        input
    }
}

pub fn truncate_for_pill(input: &str, max_chars: usize) -> (r: String)
    ensures
        r@ == truncate_spec(input@, max_chars),
{
    let chars = chars_of(input);
    if chars.len() > max_chars {
        let mut out = subrange(&chars, 0, max_chars);
        out.push('\u{2026}');
        assert(out@ =~= chars@.take(max_chars as int).push(ellipsis()));
        string_of(&out)
    } else {
        string_of(&chars)
    }
}

pub open spec fn x11_socket_dir() -> Seq<char> {
    "/tmp/.X11-unix/X"@
}

/// The part of a `DISPLAY` value that names the display number: after
/// trimming and dropping the leading colons, everything before the first `.`.
pub open spec fn display_number(display: Seq<char>) -> Seq<char> {
    let t = trim_start_char(trim(display), ':');
    match first_index_from(t, '.', 0) {
        Some(k) => t.take(k),
        None => t,
    }
}

/// The X11 socket a `DISPLAY` value names; `None` unless its display
/// number is a non-empty run of ASCII digits.
pub open spec fn x11_socket_path_spec(display: Seq<char>) -> Option<Seq<char>> {
    let n = display_number(display);
    if n.len() == 0 || !all_digits(n) {
        None
    } else {
        Some(x11_socket_dir() + n)
    }
}

fn all_digits_exec(s: &Vec<char>) -> (r: bool)
    ensures
        r == all_digits(s@),
{
    let mut i: usize = 0;
    while i < s.len()
        invariant
            i <= s@.len(),
            forall|j: int| 0 <= j < i ==> is_digit(s@[j]),
        decreases s.len() - i,
    {
        let c = s[i];
        if !('0' <= c && c <= '9') {
            return false;
        }
        i += 1;
    }
    true
}

pub fn x11_socket_path(display: &str) -> (r: Option<String>)
    ensures
        match r {
            Some(p) => x11_socket_path_spec(display@) == Some(p@),
            None => x11_socket_path_spec(display@) is None,
        },
{
    let d = chars_of(display);
    let t = trim_chars(&d);
    let t = trim_start_char_exec(&t, ':');
    let number = match find_char_from(&t, 0, '.') {
        Some(k) => subrange(&t, 0, k),
        None => t,
    };
    proof {
        assert(number@ == display_number(display@)) by {
            if first_index_from(trim_start_char(trim(display@), ':'), '.', 0) is Some {
                assert(number@ =~= display_number(display@));
            }
        }
    }
    if number.len() == 0 || !all_digits_exec(&number) {
        return None;
    }
    let mut path = chars_of("/tmp/.X11-unix/X");
    append_chars(&mut path, &number);
    Some(string_of(&path))
}

} // verus!
