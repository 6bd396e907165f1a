//! The project tree: entries ordered directories first and then by name,
//! the rows the file panel shows for the expanded directories, and the set
//! of expanded directories.
use vstd::prelude::*;
use crate::text::{chars_of, copy_string, trim, trim_chars};
use crate::workspace::path_views;
use crate::paths::{path_key, path_keys, same_path};

verus! {

/// A file or directory of the project; a directory holds its children.
#[derive(Debug)]
pub struct Entry {
    pub path: String,
    pub is_dir: bool,
    pub name: String,
    pub children: Option<Vec<Entry>>,
}

/// What a watched project directory reports.
#[derive(Debug, Clone, Copy, PartialEq, Eq, Structural)]
pub enum WorktreeEvent {
    Updated,
}

/// Names the scan leaves out.
pub open spec fn ignored_name(name: Seq<char>) -> bool {
    name == "target"@ || name == ".git"@
}

pub fn is_ignored_name(name: &str) -> (r: bool)
    ensures
        r == ignored_name(name@),
{
    let n = chars_of(name);
    crate::text::chars_eq(&n, &chars_of("target")) || crate::text::chars_eq(&n, &chars_of(".git"))
}

// ---------------------------------------------------------------------------
// Ordering
// ---------------------------------------------------------------------------

/// Lexicographic order of names by code point, which is the byte order of
/// their UTF-8 text that `String` compares by.
pub open spec fn name_lt(a: Seq<char>, b: Seq<char>) -> bool
    decreases a.len(),
{
    if a.len() == 0 {
        b.len() > 0
    } else if b.len() == 0 {
        false
    } else if a[0] != b[0] {
        a[0] < b[0]
    } else {
        name_lt(a.drop_first(), b.drop_first())
    }
}

/// Directories come before files; within each, names in order.
pub open spec fn entry_before(a: Entry, b: Entry) -> bool {
    (a.is_dir && !b.is_dir) || (a.is_dir == b.is_dir && name_lt(a.name@, b.name@))
}

fn name_less(a: &Vec<char>, b: &Vec<char>) -> (r: bool)
    ensures
        r == name_lt(a@, b@),
{
    let mut i: usize = 0;
    assert(a@.skip(0) =~= a@);
    assert(b@.skip(0) =~= b@);
    while i < a.len() && i < b.len() && a[i] == b[i]
        invariant
            i <= a@.len(),
            i <= b@.len(),
            name_lt(a@, b@) == name_lt(a@.skip(i as int), b@.skip(i as int)),
        decreases a.len() - i,
    {
        assert(a@.skip(i as int).drop_first() =~= a@.skip(i + 1));
        assert(b@.skip(i as int).drop_first() =~= b@.skip(i + 1));
        i += 1;
    }
    if i == a.len() {
        i < b.len()
    } else if i == b.len() {
        false
    } else {
        assert(a@.skip(i as int)[0] == a@[i as int]);
        assert(b@.skip(i as int)[0] == b@[i as int]);
        a[i] < b[i]
    }
}

fn entry_less(a: &Entry, b: &Entry) -> (r: bool)
    ensures
        r == entry_before(*a, *b),
{
    if a.is_dir != b.is_dir {
        a.is_dir
    } else {
        name_less(&chars_of(a.name.as_str()), &chars_of(b.name.as_str()))
    }
}

/// Puts `e` after every entry it does not come before.
pub open spec fn insert_entry(sorted: Seq<Entry>, e: Entry) -> Seq<Entry>
    decreases sorted.len(),
{
    if sorted.len() == 0 {
        seq![e]
    } else if !entry_before(e, sorted.last()) {
        sorted.push(e)
    } else {
        insert_entry(sorted.drop_last(), e).push(sorted.last())
    }
}

/// The entries in panel order; entries that tie keep their order (a
/// stable sort).
pub open spec fn sort_entries_spec(s: Seq<Entry>) -> Seq<Entry>
    decreases s.len(),
{
    if s.len() == 0 {
        s
    } else {
        insert_entry(sort_entries_spec(s.drop_last()), s.last())
    }
}

pub open spec fn entries_sorted(s: Seq<Entry>) -> bool {
    forall|i: int, j: int| 0 <= i < j < s.len() ==> !entry_before(s[j], s[i])
}

proof fn lemma_name_lt_asym(a: Seq<char>, b: Seq<char>)
    ensures
        !(name_lt(a, b) && name_lt(b, a)),
    decreases a.len(),
{
    if a.len() > 0 && b.len() > 0 && a[0] == b[0] {
        lemma_name_lt_asym(a.drop_first(), b.drop_first());
    }
}

#[verifier::spinoff_prover]
proof fn lemma_name_lt_total(a: Seq<char>, b: Seq<char>)
    ensures
        a != b ==> name_lt(a, b) || name_lt(b, a),
    decreases a.len(),
{
    if a.len() > 0 && b.len() > 0 && a[0] == b[0] {
        lemma_name_lt_total(a.drop_first(), b.drop_first());
        if a != b {
            assert(a.drop_first() != b.drop_first()) by {
                if a.drop_first() == b.drop_first() {
                    assert(a.drop_first().len() == a.len() - 1);
                    assert(b.drop_first().len() == b.len() - 1);
                    assert(a.len() == b.len());
                    assert forall|k: int| 0 <= k < a.len() implies a[k] == b[k] by {
                        if k > 0 {
                            assert(a[k] == a.drop_first()[k - 1]);
                            assert(b[k] == b.drop_first()[k - 1]);
                        }
                    }
                    assert(a =~= b);
                }
            }
        }
    } else if a.len() == 0 && b.len() == 0 {
        assert(a =~= b);
    }
}

proof fn lemma_name_lt_trans(a: Seq<char>, b: Seq<char>, c: Seq<char>)
    requires
        name_lt(a, b),
        name_lt(b, c),
    ensures
        name_lt(a, c),
    decreases a.len(),
{
    if a.len() > 0 && b.len() > 0 && c.len() > 0 && a[0] == b[0] && b[0] == c[0] {
        lemma_name_lt_trans(a.drop_first(), b.drop_first(), c.drop_first());
    }
}

/// The panel order does not put an entry before itself, and puts two
/// entries one way round at most.
proof fn lemma_before_facts(a: Entry, b: Entry, c: Entry)
    ensures
        !(entry_before(a, b) && entry_before(b, a)),
        entry_before(a, b) && entry_before(b, c) ==> entry_before(a, c),
        !entry_before(a, b) && !entry_before(b, c) ==> !entry_before(a, c),
{
    lemma_name_lt_asym(a.name@, b.name@);
    if entry_before(a, b) && entry_before(b, c) && a.is_dir == c.is_dir {
        lemma_name_lt_trans(a.name@, b.name@, c.name@);
    }
    if !entry_before(a, b) && !entry_before(b, c) && entry_before(a, c) {
        lemma_name_lt_total(a.name@, b.name@);
        lemma_name_lt_total(b.name@, c.name@);
        if a.is_dir == b.is_dir && b.is_dir == c.is_dir {
            if b.name@ == c.name@ {
            } else if a.name@ == b.name@ {
            } else {
                lemma_name_lt_trans(c.name@, b.name@, a.name@);
                lemma_name_lt_asym(a.name@, c.name@);
            }
        }
    }
}

proof fn lemma_insert_entry(sorted: Seq<Entry>, e: Entry)
    requires
        entries_sorted(sorted),
    ensures
        entries_sorted(insert_entry(sorted, e)),
        insert_entry(sorted, e).to_multiset() =~= sorted.to_multiset().insert(e),
        insert_entry(sorted, e).len() == sorted.len() + 1,
        forall|k: int| 0 <= k < insert_entry(sorted, e).len() ==> #[trigger] insert_entry(sorted, e)[k] == e || sorted.contains(insert_entry(sorted, e)[k]),
    decreases sorted.len(),
{
    broadcast use vstd::seq_lib::group_to_multiset_ensures;
    if sorted.len() == 0 {
        assert(seq![e] =~= Seq::<Entry>::empty().push(e));
    } else if !entry_before(e, sorted.last()) {
        let r = sorted.push(e);
        assert forall|i: int, j: int| 0 <= i < j < r.len() implies !entry_before(r[j], r[i]) by {
            if j == sorted.len() {
                lemma_before_facts(e, sorted.last(), r[i]);
                lemma_before_facts(r[i], sorted.last(), e);
                if i < sorted.len() - 1 {
                    assert(!entry_before(sorted.last(), sorted[i]));
                }
                lemma_before_facts(e, sorted[sorted.len() - 1], sorted[i]);
            }
        }
        assert forall|k: int| 0 <= k < r.len() implies #[trigger] r[k] == e || sorted.contains(r[k]) by {
            if k < sorted.len() {
                assert(r[k] == sorted[k]);
            }
        }
    } else {
        let s2 = sorted.drop_last();
        let l = sorted.last();
        assert(entries_sorted(s2)) by {
            assert forall|i: int, j: int| 0 <= i < j < s2.len() implies !entry_before(s2[j], s2[i]) by {
                assert(s2[i] == sorted[i]);
                assert(s2[j] == sorted[j]);
            }
        }
        lemma_insert_entry(s2, e);
        let m = insert_entry(s2, e);
        let r = m.push(l);
        assert(sorted =~= s2.push(l));
        assert forall|i: int, j: int| 0 <= i < j < r.len() implies !entry_before(r[j], r[i]) by {
            if j == m.len() {
                assert(r[i] == m[i]);
                if m[i] == e {
                    lemma_before_facts(e, l, e);
                } else {
                    assert(s2.contains(m[i]));
                    let k = choose|k: int| 0 <= k < s2.len() && s2[k] == m[i];
                    assert(sorted[k] == s2[k]);
                    assert(!entry_before(sorted[sorted.len() - 1], sorted[k]));
                }
            }
        }
        assert forall|k: int| 0 <= k < r.len() implies #[trigger] r[k] == e || sorted.contains(r[k]) by {
            if k < m.len() {
                assert(r[k] == m[k]);
                if m[k] != e {
                    let q = choose|q: int| 0 <= q < s2.len() && s2[q] == m[k];
                    assert(sorted[q] == s2[q]);
                }
            } else {
                assert(r[k] == sorted[sorted.len() - 1]);
            }
        }
    }
}

/// Sorting puts the entries in panel order and keeps every entry.
pub proof fn law_sort_entries(s: Seq<Entry>)
    ensures
        entries_sorted(sort_entries_spec(s)),
        sort_entries_spec(s).to_multiset() =~= s.to_multiset(),
        sort_entries_spec(s).len() == s.len(),
    decreases s.len(),
{
    broadcast use vstd::seq_lib::group_to_multiset_ensures;
    if s.len() > 0 {
        law_sort_entries(s.drop_last());
        lemma_insert_entry(sort_entries_spec(s.drop_last()), s.last());
        assert(s =~= s.drop_last().push(s.last()));
    }
}

proof fn lemma_insert_entry_shape(sorted: Seq<Entry>, e: Entry, p: int)
    requires
        0 <= p <= sorted.len(),
        forall|k: int| p <= k < sorted.len() ==> entry_before(e, #[trigger] sorted[k]),
        p > 0 ==> !entry_before(e, sorted[p - 1]),
    ensures
        insert_entry(sorted, e) == sorted.take(p).push(e) + sorted.skip(p),
    decreases sorted.len(),
{
    if sorted.len() == 0 {
        assert(sorted.take(p).push(e) + sorted.skip(p) =~= seq![e]);
    } else if !entry_before(e, sorted.last()) {
        assert(p == sorted.len());
        assert(sorted.take(p).push(e) + sorted.skip(p) =~= sorted.push(e));
    } else {
        let s2 = sorted.drop_last();
        assert forall|k: int| p <= k < s2.len() implies entry_before(e, #[trigger] s2[k]) by {
            assert(s2[k] == sorted[k]);
        }
        lemma_insert_entry_shape(s2, e, p);
        assert(sorted.take(p).push(e) + sorted.skip(p) =~= (s2.take(p).push(e) + s2.skip(p)).push(sorted.last()));
    }
}

/// Orders entries for the panel: directories first, then by name.
pub fn sort_entries(entries: Vec<Entry>) -> (r: Vec<Entry>)
    ensures
        r@ == sort_entries_spec(entries@),
{
    let ghost all = entries@;
    let mut rest = entries;
    let mut out: Vec<Entry> = Vec::new();
    let mut taken: usize = 0;
    let n = rest.len();
    assert(all.take(0) =~= Seq::<Entry>::empty());
    assert(all.skip(0) =~= all);
    while rest.len() > 0
        invariant
            all.len() == n,
            taken <= all.len(),
            rest@ == all.skip(taken as int),
            out@ == sort_entries_spec(all.take(taken as int)),
        decreases rest.len(),
    {
        let e = rest.remove(0);
        assert(e == all[taken as int]);
        let ghost before = out@;
        let mut p: usize = out.len();
        while p > 0 && entry_less(&e, &out[p - 1])
            invariant
                p <= out@.len(),
                out@ == before,
                forall|k: int| p <= k < before.len() ==> entry_before(e, #[trigger] before[k]),
            decreases p,
        {
            p -= 1;
        }
        proof {
            lemma_insert_entry_shape(before, e, p as int);
        }
        out.insert(p, e);
        assert(out@ =~= before.take(p as int).push(all[taken as int]) + before.skip(p as int));
        assert(all.take(taken + 1).drop_last() =~= all.take(taken as int));
        assert(all.take(taken + 1).last() == all[taken as int]);
        assert(rest@ =~= all.skip(taken + 1));
        taken += 1;
    }
    assert(all.take(taken as int) =~= all);
    out
}

// ---------------------------------------------------------------------------
// Rows of the file panel
// ---------------------------------------------------------------------------

/// One row of the file panel: an entry and how deep it is nested.
pub struct VisibleEntry {
    pub depth: usize,
    pub path: String,
    pub name: String,
    pub is_dir: bool,
}

impl View for VisibleEntry {
    type V = (int, Seq<char>, Seq<char>, bool);

    open spec fn view(&self) -> (int, Seq<char>, Seq<char>, bool) {
        (self.depth as int, self.path@, self.name@, self.is_dir)
    }
}

pub open spec fn row_views(v: Seq<VisibleEntry>) -> Seq<(int, Seq<char>, Seq<char>, bool)> {
    v.map_values(|r: VisibleEntry| r@)
}

/// Whether an entry's children are shown: it is a directory, and an
/// expanded path names the same place.
pub open spec fn shows_children(e: Entry, expanded: Seq<Seq<char>>) -> bool {
    e.is_dir && path_keys(expanded).contains(path_key(e.path@)) && e.children is Some
}

/// The rows of an entry: itself, then the rows of its children when it is
/// expanded.
pub open spec fn entry_rows(e: Entry, depth: int, expanded: Seq<Seq<char>>) -> Seq<(int, Seq<char>, Seq<char>, bool)>
    decreases e,
{
    seq![(depth, e.path@, e.name@, e.is_dir)] + if shows_children(e, expanded) {
        visible_rows(e.children->0@, depth + 1, expanded)
    } else {
        seq![]
    }
}

/// The rows of a list of entries, in order.
pub open spec fn visible_rows(s: Seq<Entry>, depth: int, expanded: Seq<Seq<char>>) -> Seq<(int, Seq<char>, Seq<char>, bool)>
    decreases s,
{
    if s.len() == 0 {
        seq![]
    } else {
        visible_rows(s.drop_last(), depth, expanded) + entry_rows(s.last(), depth, expanded)
    }
}

/// How deep the expanded entries nest below a list of entries.
pub open spec fn expanded_height(s: Seq<Entry>, expanded: Seq<Seq<char>>) -> nat
    decreases s,
{
    if s.len() == 0 {
        0
    } else {
        let rest = expanded_height(s.drop_last(), expanded);
        let e = s.last();
        let here: nat = if shows_children(e, expanded) {
            1 + expanded_height(e.children->0@, expanded)
        } else {
            0
        };
        if rest >= here {
            rest
        } else {
            here
        }
    }
}

proof fn lemma_height_prefix(s: Seq<Entry>, i: int, expanded: Seq<Seq<char>>)
    requires
        0 <= i < s.len(),
    ensures
        expanded_height(s.take(i), expanded) <= expanded_height(s, expanded),
        shows_children(s[i], expanded) ==> 1 + expanded_height(s[i].children->0@, expanded) <= expanded_height(s, expanded),
    decreases s.len(),
{
    let l = s.len() - 1;
    assert(s.drop_last() =~= s.take(l));
    if i < l {
        lemma_height_prefix(s.drop_last(), i, expanded);
        assert(s.drop_last().take(i) =~= s.take(i));
        assert(s.drop_last()[i] == s[i]);
    } else {
        assert(s.take(i) =~= s.drop_last());
    }
}

fn push_rows(entries: &Vec<Entry>, depth: usize, expanded: &Vec<String>, out: &mut Vec<VisibleEntry>)
    requires
        depth + expanded_height(entries@, path_views(expanded@)) <= usize::MAX,
    ensures
        row_views(final(out)@) == row_views(old(out)@) + visible_rows(entries@, depth as int, path_views(expanded@)),
    decreases entries@,
{
    let ghost ex = path_views(expanded@);
    let ghost s = entries@;
    let ghost start = row_views(out@);
    let mut i: usize = 0;
    assert(s.take(0) =~= Seq::<Entry>::empty());
    while i < entries.len()
        invariant
            s == entries@,
            ex == path_views(expanded@),
            depth + expanded_height(s, ex) <= usize::MAX,
            i <= s.len(),
            row_views(out@) == start + visible_rows(s.take(i as int), depth as int, ex),
        decreases entries.len() - i,
    {
        let e = &entries[i];
        let ghost before = row_views(out@);
        out.push(VisibleEntry { depth, path: copy_string(&e.path), name: copy_string(&e.name), is_dir: e.is_dir });
        assert(row_views(out@) =~= before.push((depth as int, e.path@, e.name@, e.is_dir)));
        let open = e.is_dir && contains_path(expanded, &e.path) && e.children.is_some();
        assert(s[i as int] == *e);
        assert(open == shows_children(s[i as int], ex));
        proof {
            lemma_height_prefix(s, i as int, ex);
        }
        let ghost row = (depth as int, e.path@, e.name@, e.is_dir);
        if open {
            match &e.children {
                Some(children) => {
                    assert(decreases_to!(entries@ => entries@[i as int]));
                    assert(decreases_to!(e => e.children));
                    let ghost mid = row_views(out@);
                    push_rows(children, depth + 1, expanded, out);
                    assert(row_views(out@) == mid + visible_rows(s[i as int].children->0@, depth + 1, ex));
                },
                None => {},
            }
        }
        assert(row_views(out@) =~= before + entry_rows(s[i as int], depth as int, ex));
        assert(s.take(i + 1).drop_last() =~= s.take(i as int));
        assert(s.take(i + 1).last() == s[i as int]);
        assert(row_views(out@) =~= start + visible_rows(s.take(i + 1), depth as int, ex));
        i += 1;
    }
    assert(s.take(i as int) =~= s);
}

/// How deep the expanded entries nest below one entry, itself included
/// when its children are shown.
pub open spec fn node_height(e: Entry, expanded: Seq<Seq<char>>) -> nat {
    if shows_children(e, expanded) {
        1 + expanded_height(e.children->0@, expanded)
    } else {
        0
    }
}

proof fn lemma_height_bound(s: Seq<Entry>, expanded: Seq<Seq<char>>, bound: int)
    ensures
        expanded_height(s, expanded) <= bound <==> (bound >= 0 && forall|i: int| 0 <= i < s.len() ==> node_height(#[trigger] s[i], expanded) <= bound),
    decreases s.len(),
{
    if s.len() > 0 {
        let t = s.drop_last();
        lemma_height_bound(t, expanded, bound);
        assert forall|i: int| 0 <= i < t.len() implies #[trigger] t[i] == s[i] by {}
        if forall|i: int| 0 <= i < s.len() ==> node_height(#[trigger] s[i], expanded) <= bound {
            assert forall|i: int| 0 <= i < t.len() implies node_height(#[trigger] t[i], expanded) <= bound by {
                assert(t[i] == s[i]);
            }
            assert(node_height(s[s.len() - 1], expanded) <= bound);
        }
        if expanded_height(s, expanded) <= bound {
            assert forall|i: int| 0 <= i < s.len() implies node_height(#[trigger] s[i], expanded) <= bound by {
                if i < t.len() {
                    assert(t[i] == s[i]);
                    assert(node_height(t[i], expanded) <= bound);
                }
            }
        }
    }
}

/// Whether the rows of `entries` at `depth` have depths that fit in a
/// `usize`.
pub fn rows_fit(entries: &Vec<Entry>, depth: usize, expanded: &Vec<String>) -> (r: bool)
    ensures
        r == (depth + expanded_height(entries@, path_views(expanded@)) <= usize::MAX),
    decreases entries@,
{
    let ghost ex = path_views(expanded@);
    let ghost s = entries@;
    proof {
        lemma_height_bound(s, ex, usize::MAX - depth);
    }
    let mut i: usize = 0;
    while i < entries.len()
        invariant
            s == entries@,
            ex == path_views(expanded@),
            i <= s.len(),
            forall|k: int| 0 <= k < i ==> node_height(#[trigger] s[k], ex) <= usize::MAX - depth,
            (depth + expanded_height(s, ex) <= usize::MAX) <==> (forall|k: int| 0 <= k < s.len() ==> node_height(#[trigger] s[k], ex) <= usize::MAX - depth),
        decreases entries.len() - i,
    {
        let e = &entries[i];
        assert(s[i as int] == *e);
        let open = e.is_dir && contains_path(expanded, &e.path) && e.children.is_some();
        if open {
            match &e.children {
                Some(children) => {
                    if depth == usize::MAX {
                        assert(node_height(s[i as int], ex) > usize::MAX - depth);
                        return false;
                    }
                    assert(decreases_to!(entries@ => entries@[i as int]));
                    assert(decreases_to!(e => e.children));
                    if !rows_fit(children, depth + 1, expanded) {
                        assert(node_height(s[i as int], ex) > usize::MAX - depth);
                        return false;
                    }
                },
                None => {},
            }
        }
        i += 1;
    }
    true
}

fn contains_path(expanded: &Vec<String>, path: &String) -> (r: bool)
    ensures
        r == path_keys(path_views(expanded@)).contains(path_key(path@)),
{
    let ghost pv = path_keys(path_views(expanded@));
    let ghost k = path_key(path@);
    let mut i: usize = 0;
    while i < expanded.len()
        invariant
            pv == path_keys(path_views(expanded@)),
            k == path_key(path@),
            pv.len() == expanded@.len(),
            i <= expanded@.len(),
            forall|j: int| 0 <= j < i ==> pv[j] != k,
        decreases expanded.len() - i,
    {
        assert(pv[i as int] == path_key(expanded@[i as int]@));
        if same_path(expanded[i].as_str(), path.as_str()) {
            assert(pv[i as int] == k);
            return true;
        }
        i += 1;
    }
    false
}

/// The rows the file panel shows for a list of entries at `depth`.
pub fn collect_visible(entries: &Vec<Entry>, depth: usize, expanded: &Vec<String>) -> (r: Vec<VisibleEntry>)
    requires
        depth + expanded_height(entries@, path_views(expanded@)) <= usize::MAX,
    ensures
        row_views(r@) == visible_rows(entries@, depth as int, path_views(expanded@)),
{
    let mut out: Vec<VisibleEntry> = Vec::new();
    push_rows(entries, depth, expanded, &mut out);
    assert(row_views(Seq::<VisibleEntry>::empty()) =~= Seq::empty());
    out
}

// ---------------------------------------------------------------------------
// Expanded directories
// ---------------------------------------------------------------------------

/// `toggle_directory`: the first expanded path naming the same place is
/// collapsed; when there is none, the path is expanded.
pub open spec fn toggled_dirs(expanded: Seq<Seq<char>>, path: Seq<char>) -> Seq<Seq<char>> {
    match path_keys(expanded).index_of_first(path_key(path)) {
        Some(i) => expanded.remove(i),
        None => expanded.push(path),
    }
}

/// `k` taken out of `ks` where it first occurs, or added at the end.
pub open spec fn toggle_key<K>(ks: Seq<K>, k: K) -> Seq<K> {
    match ks.index_of_first(k) {
        Some(i) => ks.remove(i),
        None => ks.push(k),
    }
}

proof fn lemma_keys_toggled(expanded: Seq<Seq<char>>, path: Seq<char>)
    ensures
        path_keys(toggled_dirs(expanded, path)) == toggle_key(path_keys(expanded), path_key(path)),
{
    let ks = path_keys(expanded);
    ks.index_of_first_ensures(path_key(path));
    match ks.index_of_first(path_key(path)) {
        Some(i) => {
            expanded.remove_ensures(i);
            ks.remove_ensures(i);
            assert(path_keys(expanded.remove(i)) =~= ks.remove(i));
        },
        None => {
            assert(path_keys(expanded.push(path)) =~= ks.push(path_key(path)));
        },
    }
}

proof fn lemma_toggle_key_distinct<K>(ks: Seq<K>, k: K)
    requires
        ks.no_duplicates(),
    ensures
        toggle_key(ks, k).no_duplicates(),
{
    ks.index_of_first_ensures(k);
    match ks.index_of_first(k) {
        Some(i) => {
            let r = ks.remove(i);
            assert forall|a: int, b: int| 0 <= a < r.len() && 0 <= b < r.len() && a != b implies r[a] != r[b] by {
                let a0 = if a < i { a } else { a + 1 };
                let b0 = if b < i { b } else { b + 1 };
                assert(r[a] == ks[a0]);
                assert(r[b] == ks[b0]);
            }
        },
        None => {
            let r = ks.push(k);
            assert forall|a: int, b: int| 0 <= a < r.len() && 0 <= b < r.len() && a != b implies r[a] != r[b] by {
                if a < ks.len() && b < ks.len() {
                    assert(r[a] == ks[a]);
                    assert(r[b] == ks[b]);
                } else if a < ks.len() {
                    assert(r[a] == ks[a]);
                    assert(ks.contains(ks[a]));
                } else {
                    assert(r[b] == ks[b]);
                    assert(ks.contains(ks[b]));
                }
            }
        },
    }
}

proof fn lemma_toggle_key_twice<K>(ks: Seq<K>, k: K)
    requires
        ks.no_duplicates(),
    ensures
        toggle_key(toggle_key(ks, k), k).to_set() =~= ks.to_set(),
        toggle_key(ks, k).contains(k) <==> !ks.contains(k),
{
    ks.index_of_first_ensures(k);
    let once = toggle_key(ks, k);
    once.index_of_first_ensures(k);
    match ks.index_of_first(k) {
        Some(i) => {
            assert(!once.contains(k)) by {
                if once.contains(k) {
                    let j = choose|j: int| 0 <= j < once.len() && once[j] == k;
                    if j < i {
                        assert(once[j] == ks[j]);
                    } else {
                        assert(once[j] == ks[j + 1]);
                    }
                }
            }
            let twice = once.push(k);
            assert forall|x: K| twice.contains(x) <==> ks.contains(x) by {
                if ks.contains(x) {
                    let j = choose|j: int| 0 <= j < ks.len() && ks[j] == x;
                    if j < i {
                        assert(twice[j] == x);
                    } else if j == i {
                        assert(twice[once.len() as int] == x);
                    } else {
                        assert(once[j - 1] == ks[j]);
                        assert(twice[j - 1] == x);
                    }
                }
                if twice.contains(x) {
                    let j = choose|j: int| 0 <= j < twice.len() && twice[j] == x;
                    if j < once.len() {
                        if j < i {
                            assert(ks[j] == x);
                        } else {
                            assert(ks[j + 1] == x);
                        }
                    }
                }
            }
        },
        None => {
            assert(once[ks.len() as int] == k);
            assert(once.contains(k));
            let j = once.index_of_first(k)->0;
            assert(j == ks.len()) by {
                if j < ks.len() {
                    assert(once[j] == ks[j]);
                }
            }
            let twice = once.remove(j);
            assert(twice =~= ks);
        },
    }
}

/// Expands or collapses a directory of the file panel.
pub fn toggle_directory(expanded: &mut Vec<String>, path: String)
    requires
        path_keys(path_views(old(expanded)@)).no_duplicates(),
    ensures
        path_views(final(expanded)@) == toggled_dirs(path_views(old(expanded)@), path@),
        path_keys(path_views(final(expanded)@)).no_duplicates(),
{
    let ghost e0 = path_views(expanded@);
    let ghost ks = path_keys(e0);
    let ghost k = path_key(path@);
    proof {
        ks.index_of_first_ensures(k);
        lemma_keys_toggled(e0, path@);
        lemma_toggle_key_distinct(ks, k);
    }
    let mut i: usize = 0;
    while i < expanded.len()
        invariant
            e0 == path_views(expanded@),
            ks == path_keys(e0),
            ks.no_duplicates(),
            k == path_key(path@),
            expanded@ == old(expanded)@,
            ks.len() == expanded@.len(),
            i <= expanded@.len(),
            forall|j: int| 0 <= j < i ==> ks[j] != k,
            match ks.index_of_first(k) {
                Some(index) => {
                    &&& ks.contains(k)
                    &&& 0 <= index < ks.len()
                    &&& ks[index] == k
                    &&& forall|j: int| 0 <= j < index < ks.len() ==> ks[j] != k
                },
                None => !ks.contains(k),
            },
        decreases expanded.len() - i,
    {
        assert(ks[i as int] == path_key(expanded@[i as int]@));
        if same_path(expanded[i].as_str(), path.as_str()) {
            assert(ks.index_of_first(k) == Some(i as int)) by {
                let m = ks.index_of_first(k)->0;
                if m < i {
                    assert(ks[m] != k);
                }
            }
            expanded.remove(i);
            assert(path_views(expanded@) =~= e0.remove(i as int));
            assert(path_views(expanded@) == toggled_dirs(e0, path@));
            proof {
                lemma_keys_toggled(e0, path@);
                lemma_toggle_key_distinct(ks, k);
            }
            return;
        }
        i += 1;
    }
    let ghost p = path@;
    expanded.push(path);
    assert(path_views(expanded@) =~= e0.push(p));
}

/// Toggling a directory twice leaves the same places expanded, and a
/// toggle expands a place exactly when it was not expanded.
pub proof fn law_toggle_twice(expanded: Seq<Seq<char>>, path: Seq<char>)
    requires
        path_keys(expanded).no_duplicates(),
    ensures
        path_keys(toggled_dirs(toggled_dirs(expanded, path), path)).to_set() =~= path_keys(expanded).to_set(),
        path_keys(toggled_dirs(expanded, path)).contains(path_key(path)) <==> !path_keys(expanded).contains(
            path_key(path),
        ),
{
    lemma_keys_toggled(expanded, path);
    lemma_keys_toggled(toggled_dirs(expanded, path), path);
    lemma_toggle_key_twice(path_keys(expanded), path_key(path));
}

/// The name typed for a new file, a new directory or a rename: the text
/// trimmed, when anything is left.
pub fn input_name(value: &str) -> (r: Option<String>)
    ensures
        match r {
            Some(n) => trim(value@).len() > 0 && n@ == trim(value@),
            None => trim(value@).len() == 0,
        },
{
    let t = trim_chars(&chars_of(value));
    if t.len() == 0 {
        None
    } else {
        Some(crate::text::string_of(&t))
    }
}

/// Whether a changed path lies in a build or version-control directory,
/// whose changes do not trigger a rescan.
pub open spec fn noise_path(path: Seq<char>) -> bool {
    crate::text::find(path, "/target/"@) is Some || crate::text::find(path, "/.git/"@) is Some
}

pub fn is_noise_path(path: &str) -> (r: bool)
    ensures
        r == noise_path(path@),
{
    let p = chars_of(path);
    crate::text::find_chars(&p, &chars_of("/target/")).is_some() || crate::text::find_chars(
        &p,
        &chars_of("/.git/"),
    ).is_some()
}

// ---------------------------------------------------------------------------
// Building the tree from a scan
// ---------------------------------------------------------------------------

/// One path the scan found: where it is, the directory it is in, its name
/// and whether it is a directory.
pub struct ScannedEntry {
    pub path: String,
    pub parent: String,
    pub name: String,
    pub is_dir: bool,
}

/// `e` stands for a scanned path found in `parent`.
pub open spec fn scanned_as(e: Entry, x: ScannedEntry, parent: Seq<char>) -> bool {
    &&& e.path@ == x.path@
    &&& e.name@ == x.name@
    &&& e.is_dir == x.is_dir
    &&& x.parent@ == parent
    &&& !ignored_name(x.name@)
}

/// A list of entries that the scan found in `parent`, in panel order, where
/// every directory holds its own such list and no file holds one.
pub open spec fn tree_from_scan(s: Seq<Entry>, parent: Seq<char>, scan: Seq<ScannedEntry>) -> bool
    decreases s,
{
    if s.len() == 0 {
        true
    } else {
        &&& tree_from_scan(s.drop_last(), parent, scan)
        &&& node_from_scan(s.last(), parent, scan)
        &&& forall|i: int| 0 <= i < s.len() - 1 ==> !entry_before(s.last(), #[trigger] s[i])
    }
}

pub open spec fn node_from_scan(e: Entry, parent: Seq<char>, scan: Seq<ScannedEntry>) -> bool
    decreases e,
{
    &&& exists|k: int| 0 <= k < scan.len() && scanned_as(e, #[trigger] scan[k], parent)
    &&& (e.is_dir <==> e.children is Some)
    &&& (e.children matches Some(c) ==> tree_from_scan(c@, e.path@, scan))
}

/// The scan's paths without the ignored names.
pub open spec fn kept_scan(scan: Seq<ScannedEntry>) -> Seq<ScannedEntry> {
    scan.filter(|x: ScannedEntry| !ignored_name(x.name@))
}

/// How many of `kept` the scan found in `dir`.
pub open spec fn found_in(kept: Seq<ScannedEntry>, dir: Seq<char>) -> nat {
    kept.filter(in_dir(dir)).len()
}

/// No path is named twice by the scan, and none is the root itself: what a
/// walk of a directory yields.
pub open spec fn scan_unique(scan: Seq<ScannedEntry>, root: Seq<char>) -> bool {
    &&& forall|i: int, j: int|
        #![trigger scan[i], scan[j]]
        0 <= i < scan.len() && 0 <= j < scan.len() && i != j ==> scan[i].path@ != scan[j].path@
    &&& forall|i: int| 0 <= i < scan.len() ==> (#[trigger] scan[i]).path@ != root
}

/// No two entries of a list have the same path.
pub open spec fn entries_apart(s: Seq<Entry>) -> bool {
    forall|a: int, b: int|
        #![trigger s[a], s[b]]
        0 <= a < s.len() && 0 <= b < s.len() && a != b ==> s[a].path@ != s[b].path@
}

/// Every directory of a list holds each of the entries `kept` has in it
/// once: as many entries as there are, no two with the same path.
pub open spec fn tree_complete(s: Seq<Entry>, kept: Seq<ScannedEntry>) -> bool
    decreases s,
{
    if s.len() == 0 {
        true
    } else {
        &&& tree_complete(s.drop_last(), kept)
        &&& node_complete(s.last(), kept)
    }
}

pub open spec fn node_complete(e: Entry, kept: Seq<ScannedEntry>) -> bool
    decreases e,
{
    e.children matches Some(c) ==> c@.len() == found_in(kept, e.path@) && entries_apart(c@)
        && tree_complete(c@, kept)
}

/// Found in `dir`.
pub open spec fn in_dir(dir: Seq<char>) -> spec_fn(ScannedEntry) -> bool {
    |x: ScannedEntry| x.parent@ == dir
}

/// Found anywhere but in `dir`.
spec fn off_dir(dir: Seq<char>) -> spec_fn(ScannedEntry) -> bool {
    |x: ScannedEntry| x.parent@ != dir
}

/// Found in a directory not expanded yet.
spec fn unexpanded(visited: Set<Seq<char>>) -> spec_fn(ScannedEntry) -> bool {
    |x: ScannedEntry| !visited.contains(x.parent@)
}

/// The scanned paths whose directory has not been expanded yet.
spec fn unvisited(kept: Seq<ScannedEntry>, visited: Set<Seq<char>>) -> Seq<ScannedEntry> {
    kept.filter(unexpanded(visited))
}

/// Paths are told apart: no element twice, and one path names one element.
spec fn paths_apart(kept: Seq<ScannedEntry>, root: Seq<char>) -> bool {
    &&& kept.no_duplicates()
    &&& forall|a: ScannedEntry, b: ScannedEntry|
        #![trigger kept.contains(a), kept.contains(b)]
        kept.contains(a) && kept.contains(b) && a.path@ == b.path@ ==> a == b
    &&& forall|a: ScannedEntry| #[trigger] kept.contains(a) ==> a.path@ != root
}

/// `p` is the root, or the path of a scanned element whose directory was
/// expanded.
spec fn reached(kept: Seq<ScannedEntry>, visited: Set<Seq<char>>, root: Seq<char>, p: Seq<char>) -> bool {
    p == root || exists|w: ScannedEntry| #[trigger] kept.contains(w) && w.path@ == p && visited.contains(w.parent@)
}

spec fn visited_ok(kept: Seq<ScannedEntry>, visited: Set<Seq<char>>, root: Seq<char>) -> bool {
    forall|v: Seq<char>| #[trigger] visited.contains(v) ==> reached(kept, visited, root, v)
}

/// `e` comes from an element of `pool` found in `dir`.
spec fn from_group(e: Entry, pool: Seq<ScannedEntry>, dir: Seq<char>) -> bool {
    exists|m: int|
        0 <= m < pool.len() && (#[trigger] pool[m]).path@ == e.path@ && pool[m].parent@ == dir
            && pool[m].is_dir == e.is_dir
}

proof fn lemma_filter_filter<A>(s: Seq<A>, f: spec_fn(A) -> bool, g: spec_fn(A) -> bool)
    ensures
        s.filter(f).filter(g) == s.filter(|x: A| f(x) && g(x)),
    decreases s.len(),
{
    reveal(Seq::filter);
    if s.len() > 0 {
        lemma_filter_filter(s.drop_last(), f, g);
        let t = s.drop_last().filter(f);
        if f(s.last()) {
            t.lemma_filter_push(s.last(), g);
        }
    }
}

proof fn lemma_filter_all<A>(s: Seq<A>, f: spec_fn(A) -> bool)
    requires
        forall|i: int| 0 <= i < s.len() ==> f(#[trigger] s[i]),
    ensures
        s.filter(f) == s,
    decreases s.len(),
{
    reveal(Seq::filter);
    if s.len() > 0 {
        lemma_filter_all(s.drop_last(), f);
        assert(f(s[s.len() - 1]));
        assert(s.drop_last().push(s.last()) =~= s);
    }
}

proof fn lemma_filter_no_dup<A>(s: Seq<A>, f: spec_fn(A) -> bool)
    requires
        s.no_duplicates(),
    ensures
        s.filter(f).no_duplicates(),
    decreases s.len(),
{
    reveal(Seq::filter);
    if s.len() > 0 {
        let d = s.drop_last();
        assert(d.no_duplicates()) by {
            assert forall|i: int, j: int| 0 <= i < d.len() && 0 <= j < d.len() && i != j implies d[i] != d[j] by {
                assert(d[i] == s[i] && d[j] == s[j]);
            }
        }
        lemma_filter_no_dup(d, f);
        let t = d.filter(f);
        if f(s.last()) {
            if t.contains(s.last()) {
                d.lemma_filter_contains_rev(f, s.last());
                let k = choose|k: int| 0 <= k < d.len() && d[k] == s.last();
                assert(s[k] == s[s.len() - 1]);
            }
            let u = t.push(s.last());
            assert forall|i: int, j: int| 0 <= i < u.len() && 0 <= j < u.len() && i != j implies u[i] != u[j] by {
                if i < t.len() && j < t.len() {
                    assert(u[i] == t[i] && u[j] == t[j]);
                } else if i < t.len() {
                    assert(u[i] == t[i]);
                    assert(t.contains(t[i]));
                } else {
                    assert(u[j] == t[j]);
                    assert(t.contains(t[j]));
                }
            }
        }
    }
}

/// Expanding a directory keeps the facts that tie every expanded path to the
/// scan.
proof fn lemma_visit(kept: Seq<ScannedEntry>, visited: Set<Seq<char>>, root: Seq<char>, p: Seq<char>)
    requires
        visited_ok(kept, visited, root),
        reached(kept, visited, root, p),
    ensures
        visited_ok(kept, visited.insert(p), root),
{
    let v1 = visited.insert(p);
    assert forall|v: Seq<char>| #[trigger] v1.contains(v) implies reached(kept, v1, root, v) by {
        assert(reached(kept, visited, root, v));
        if v != root {
            let w = choose|w: ScannedEntry| #[trigger] kept.contains(w) && w.path@ == v && visited.contains(w.parent@);
            assert(v1.contains(w.parent@));
        }
    }
}

/// Taking the group of `path` out of the unvisited paths leaves those of
/// the other unexpanded directories.
proof fn lemma_take_visit(kept: Seq<ScannedEntry>, visited: Set<Seq<char>>, path: Seq<char>)
    ensures
        unvisited(kept, visited).filter(off_dir(path)) == unvisited(kept, visited.insert(path)),
        !visited.contains(path) ==> unvisited(kept, visited).filter(in_dir(path)) == kept.filter(
            in_dir(path),
        ),
{
    let f = unexpanded(visited);
    let g = off_dir(path);
    let h = in_dir(path);
    lemma_filter_filter(kept, f, g);
    lemma_filter_filter(kept, f, h);
    let v1 = visited.insert(path);
    assert((|x: ScannedEntry| f(x) && g(x)) =~= unexpanded(v1));
    if !visited.contains(path) {
        assert((|x: ScannedEntry| f(x) && h(x)) =~= h);
    }
}

/// Takes out of the pool every path found in `path`, keeping their order.
fn take_group(pool: &mut Vec<ScannedEntry>, path: &String) -> (group: Vec<ScannedEntry>)
    ensures
        final(pool)@.len() + group@.len() == old(pool)@.len(),
        group@ == old(pool)@.filter(in_dir(path@)),
        final(pool)@ == old(pool)@.filter(off_dir(path@)),
        forall|k: int| 0 <= k < final(pool)@.len() ==> old(pool)@.contains(#[trigger] final(pool)@[k]),
        forall|k: int| 0 <= k < group@.len() ==> old(pool)@.contains(#[trigger] group@[k]),
        forall|k: int| 0 <= k < group@.len() ==> (#[trigger] group@[k]).parent@ == path@,
{
    let ghost p0 = pool@;
    let mut group: Vec<ScannedEntry> = Vec::new();
    let mut kept: Vec<ScannedEntry> = Vec::new();
    let mut i: usize = 0;
    let n = pool.len();
    let ghost f = in_dir(path@);
    let ghost g = off_dir(path@);
    assert(p0.take(0) =~= Seq::<ScannedEntry>::empty());
    assert(p0.skip(0) =~= p0);
    proof {
        reveal(Seq::filter);
    }
    while pool.len() > 0
        invariant
            p0.len() == n,
            i + pool@.len() == n,
            pool@ == p0.skip(i as int),
            f == in_dir(path@),
            g == off_dir(path@),
            group@ == p0.take(i as int).filter(f),
            kept@ == p0.take(i as int).filter(g),
            kept@.len() + group@.len() == i,
            forall|k: int| 0 <= k < kept@.len() ==> p0.contains(#[trigger] kept@[k]),
            forall|k: int| 0 <= k < group@.len() ==> p0.contains(#[trigger] group@[k]),
            forall|k: int| 0 <= k < group@.len() ==> (#[trigger] group@[k]).parent@ == path@,
        decreases pool.len(),
    {
        let x = pool.remove(0);
        assert(x == p0[i as int]);
        assert(pool@ =~= p0.skip(i + 1));
        proof {
            p0.take(i as int).lemma_filter_push(p0[i as int], f);
            p0.take(i as int).lemma_filter_push(p0[i as int], g);
            assert(p0.take(i + 1) =~= p0.take(i as int).push(p0[i as int]));
        }
        if x.parent == *path {
            group.push(x);
        } else {
            kept.push(x);
        }
        i += 1;
    }
    assert(p0.take(i as int) =~= p0);
    *pool = kept;
    group
}

/// Per-entry facts of a list, together with its order, make it a list of
/// the scan.
proof fn lemma_tree_from_parts(s: Seq<Entry>, parent: Seq<char>, scan: Seq<ScannedEntry>)
    requires
        entries_sorted(s),
        forall|k: int| 0 <= k < s.len() ==> node_from_scan(#[trigger] s[k], parent, scan),
    ensures
        tree_from_scan(s, parent, scan),
    decreases s.len(),
{
    if s.len() > 0 {
        let t = s.drop_last();
        assert forall|i: int, j: int| 0 <= i < j < t.len() implies !entry_before(t[j], t[i]) by {
            assert(t[i] == s[i]);
            assert(t[j] == s[j]);
        }
        assert forall|k: int| 0 <= k < t.len() implies node_from_scan(#[trigger] t[k], parent, scan) by {
            assert(t[k] == s[k]);
        }
        lemma_tree_from_parts(t, parent, scan);
        assert(node_from_scan(s[s.len() - 1], parent, scan));
    }
}

proof fn lemma_complete_from_parts(s: Seq<Entry>, kept: Seq<ScannedEntry>)
    requires
        forall|k: int| 0 <= k < s.len() ==> node_complete(#[trigger] s[k], kept),
    ensures
        tree_complete(s, kept),
    decreases s.len(),
{
    if s.len() > 0 {
        let t = s.drop_last();
        assert forall|k: int| 0 <= k < t.len() implies node_complete(#[trigger] t[k], kept) by {
            assert(t[k] == s[k]);
        }
        lemma_complete_from_parts(t, kept);
        assert(node_complete(s[s.len() - 1], kept));
    }
}

/// A sorted copy of entries whose paths differ has paths that differ, and
/// holds only those entries.
proof fn lemma_sorted_apart(ev: Seq<Entry>, sv: Seq<Entry>)
    requires
        forall|a: int, b: int|
            #![trigger ev[a], ev[b]]
            0 <= a < ev.len() && 0 <= b < ev.len() && a != b ==> ev[a].path@ != ev[b].path@,
        sv.to_multiset() =~= ev.to_multiset(),
    ensures
        forall|a: int, b: int|
            #![trigger sv[a], sv[b]]
            0 <= a < sv.len() && 0 <= b < sv.len() && a != b ==> sv[a].path@ != sv[b].path@,
{
    broadcast use vstd::seq_lib::group_to_multiset_ensures;
    assert(ev.no_duplicates()) by {
        assert forall|a: int, b: int| 0 <= a < ev.len() && 0 <= b < ev.len() && a != b implies ev[a] != ev[b] by {
            assert(ev[a].path@ != ev[b].path@);
        }
    }
    ev.lemma_multiset_has_no_duplicates();
    sv.lemma_multiset_has_no_duplicates_conv();
    assert forall|a: int, b: int|
        #![trigger sv[a], sv[b]]
        0 <= a < sv.len() && 0 <= b < sv.len() && a != b implies sv[a].path@ != sv[b].path@ by {
        assert(sv.to_multiset().count(sv[a]) > 0);
        assert(sv.to_multiset().count(sv[b]) > 0);
        let x = choose|x: int| 0 <= x < ev.len() && ev[x] == sv[a];
        let y = choose|y: int| 0 <= y < ev.len() && ev[y] == sv[b];
        if x != y {
            assert(ev[x].path@ != ev[y].path@);
        }
    }
}

/// Which visited paths the expansion of a directory's first `i` entries
/// can have added: their own, and those of paths still unexpanded after the
/// directory's group was taken.
spec fn covered(
    vc: Set<Seq<char>>,
    v1: Set<Seq<char>>,
    sv: Seq<Entry>,
    i: int,
    after: Seq<ScannedEntry>,
) -> bool {
    forall|v: Seq<char>|
        #[trigger] vc.contains(v) ==> v1.contains(v) || (exists|k: int|
            0 <= k < i && (#[trigger] sv[k]).path@ == v) || (exists|m: int|
            0 <= m < after.len() && (#[trigger] after[m]).path@ == v)
}

/// The next entry of a directory has not been expanded yet.
proof fn lemma_fresh(
    kept: Seq<ScannedEntry>,
    visited: Set<Seq<char>>,
    root: Seq<char>,
    path: Seq<char>,
    vc: Set<Seq<char>>,
    after: Seq<ScannedEntry>,
    sv: Seq<Entry>,
    i: int,
    z: ScannedEntry,
)
    requires
        paths_apart(kept, root),
        visited_ok(kept, visited, root),
        !visited.contains(path),
        reached(kept, visited, root, path),
        after == unvisited(kept, visited.insert(path)),
        0 <= i < sv.len(),
        kept.contains(z),
        z.path@ == sv[i].path@,
        z.parent@ == path,
        forall|a: int, b: int|
            #![trigger sv[a], sv[b]]
            0 <= a < sv.len() && 0 <= b < sv.len() && a != b ==> sv[a].path@ != sv[b].path@,
        covered(vc, visited.insert(path), sv, i, after),
    ensures
        !vc.contains(sv[i].path@),
{
    broadcast use vstd::seq_lib::group_filter_ensures, Seq::lemma_filter_contains_rev;

    let p = sv[i].path@;
    let v1 = visited.insert(path);
    if vc.contains(p) {
        if v1.contains(p) {
            if visited.contains(p) {
                assert(reached(kept, visited, root, p));
                assert(p != root);
                let w = choose|w: ScannedEntry|
                    #[trigger] kept.contains(w) && w.path@ == p && visited.contains(w.parent@);
                assert(w == z);
            } else {
                assert(p == path);
                assert(p != root);
                let w = choose|w: ScannedEntry|
                    #[trigger] kept.contains(w) && w.path@ == path && visited.contains(w.parent@);
                assert(w == z);
            }
        } else if exists|k: int| 0 <= k < i && (#[trigger] sv[k]).path@ == p {
            let k = choose|k: int| 0 <= k < i && (#[trigger] sv[k]).path@ == p;
            assert(sv[k].path@ != sv[i].path@);
        } else {
            let m = choose|m: int| 0 <= m < after.len() && (#[trigger] after[m]).path@ == p;
            let y = after[m];
            assert(after.contains(y));
            assert(kept.contains(y));
            assert(!v1.contains(y.parent@));
            assert(y == z);
        }
    }
}

/// What one expansion adds keeps the visited paths covered.
proof fn lemma_covered_step(
    kept: Seq<ScannedEntry>,
    v1: Set<Seq<char>>,
    vc: Set<Seq<char>>,
    v2: Set<Seq<char>>,
    after: Seq<ScannedEntry>,
    sv: Seq<Entry>,
    i: int,
)
    requires
        0 <= i < sv.len(),
        covered(vc, v1, sv, i, after),
        forall|v: Seq<char>| v1.contains(v) ==> #[trigger] vc.contains(v),
        after == unvisited(kept, v1),
        forall|v: Seq<char>|
            #[trigger] v2.contains(v) ==> vc.contains(v) || v == sv[i].path@ || exists|m: int|
                0 <= m < unvisited(kept, vc).len() && (#[trigger] unvisited(kept, vc)[m]).path@ == v,
    ensures
        covered(v2, v1, sv, i + 1, after),
{
    broadcast use vstd::seq_lib::group_filter_ensures, Seq::lemma_filter_contains_rev;

    let pc = unvisited(kept, vc);
    assert forall|v: Seq<char>| #[trigger] v2.contains(v) implies v1.contains(v) || (exists|k: int|
        0 <= k < i + 1 && (#[trigger] sv[k]).path@ == v) || (exists|m: int|
        0 <= m < after.len() && (#[trigger] after[m]).path@ == v) by {
        if vc.contains(v) {
            if exists|k: int| 0 <= k < i && (#[trigger] sv[k]).path@ == v {
                let k = choose|k: int| 0 <= k < i && (#[trigger] sv[k]).path@ == v;
                assert(sv[k].path@ == v);
            }
        } else if v == sv[i].path@ {
            assert(sv[i].path@ == v);
        } else {
            let m = choose|m: int| 0 <= m < pc.len() && (#[trigger] pc[m]).path@ == v;
            let y = pc[m];
            assert(pc.contains(y));
            assert(kept.contains(y));
            assert(!vc.contains(y.parent@));
            assert(!v1.contains(y.parent@));
            let j = choose|j: int| 0 <= j < kept.len() && kept[j] == y;
            assert(after.contains(kept[j]));
            let q = choose|q: int| 0 <= q < after.len() && after[q] == kept[j];
            assert(after[q].path@ == v);
        }
    }
}

/// Every scanned path with no ignored name, told apart when the scan names
/// each path once.
proof fn lemma_scan_apart(scan: Seq<ScannedEntry>, root: Seq<char>)
    requires
        scan_unique(scan, root),
    ensures
        paths_apart(kept_scan(scan), root),
{
    broadcast use Seq::lemma_filter_contains_rev;

    assert(scan.no_duplicates()) by {
        assert forall|i: int, j: int| 0 <= i < scan.len() && 0 <= j < scan.len() && i != j implies scan[i] != scan[j] by {
            assert(scan[i].path@ != scan[j].path@);
        }
    }
    let kept = kept_scan(scan);
    lemma_filter_no_dup(scan, |x: ScannedEntry| !ignored_name(x.name@));
    assert forall|a: ScannedEntry, b: ScannedEntry|
        #![trigger kept.contains(a), kept.contains(b)]
        kept.contains(a) && kept.contains(b) && a.path@ == b.path@ implies a == b by {
        assert(scan.contains(a));
        assert(scan.contains(b));
        let i = choose|i: int| 0 <= i < scan.len() && scan[i] == a;
        let j = choose|j: int| 0 <= j < scan.len() && scan[j] == b;
        if i != j {
            assert(scan[i].path@ != scan[j].path@);
        }
    }
    assert forall|a: ScannedEntry| #[trigger] kept.contains(a) implies a.path@ != root by {
        assert(scan.contains(a));
        let i = choose|i: int| 0 <= i < scan.len() && scan[i] == a;
        assert(scan[i].path@ != root);
    }
}

fn build_children(
    path: &String,
    pool: &mut Vec<ScannedEntry>,
    Ghost(scan): Ghost<Seq<ScannedEntry>>,
    Ghost(kept): Ghost<Seq<ScannedEntry>>,
    Ghost(root): Ghost<Seq<char>>,
    Ghost(visited): Ghost<Set<Seq<char>>>,
    Ghost(uniq): Ghost<bool>,
) -> (r: (Vec<Entry>, Ghost<Set<Seq<char>>>))
    requires
        forall|k: int| 0 <= k < old(pool)@.len() ==> scan.contains(#[trigger] old(pool)@[k]),
        forall|k: int| 0 <= k < old(pool)@.len() ==> !ignored_name((#[trigger] old(pool)@[k]).name@),
        old(pool)@ == unvisited(kept, visited),
        uniq ==> paths_apart(kept, root),
        uniq ==> visited_ok(kept, visited, root),
        uniq ==> !visited.contains(path@),
        uniq ==> reached(kept, visited, root, path@),
    ensures
        final(pool)@.len() <= old(pool)@.len(),
        forall|k: int| 0 <= k < final(pool)@.len() ==> scan.contains(#[trigger] final(pool)@[k]),
        forall|k: int| 0 <= k < final(pool)@.len() ==> !ignored_name((#[trigger] final(pool)@[k]).name@),
        tree_from_scan(r.0@, path@, scan),
        r.0@.len() == old(pool)@.filter(in_dir(path@)).len(),
        final(pool)@ == unvisited(kept, r.1@),
        r.1@.contains(path@),
        forall|v: Seq<char>| visited.contains(v) ==> #[trigger] r.1@.contains(v),
        forall|v: Seq<char>|
            #[trigger] r.1@.contains(v) ==> visited.contains(v) || v == path@ || exists|m: int|
                0 <= m < old(pool)@.len() && (#[trigger] old(pool)@[m]).path@ == v,
        uniq ==> visited_ok(kept, r.1@, root),
        uniq ==> tree_complete(r.0@, kept) && r.0@.len() == found_in(kept, path@) && entries_apart(r.0@),
    decreases old(pool)@.len(),
{
    let ghost before = pool@;
    let group = take_group(pool, path);
    let ghost after = pool@;
    let ghost v1 = visited.insert(path@);
    proof {
        lemma_take_visit(kept, visited, path@);
        if uniq {
            lemma_visit(kept, visited, root, path@);
        }
    }
    let ghost glen = group@.len();
    let mut entries: Vec<Entry> = Vec::new();
    let mut g = group;
    let ghost gv = g@;
    let mut j: usize = 0;
    let gn = g.len();
    assert(gv.skip(0) =~= gv);
    while g.len() > 0
        invariant
            gv.len() == gn,
            g@ == gv.skip(j as int),
            j <= gv.len(),
            entries@.len() == j,
            forall|k: int| 0 <= k < gv.len() ==> before.contains(#[trigger] gv[k]),
            forall|k: int| 0 <= k < gv.len() ==> (#[trigger] gv[k]).parent@ == path@,
            forall|k: int| 0 <= k < before.len() ==> scan.contains(#[trigger] before[k]),
            forall|k: int| 0 <= k < before.len() ==> !ignored_name((#[trigger] before[k]).name@),
            forall|k: int| 0 <= k < entries@.len() ==> {
                &&& (exists|q: int| 0 <= q < scan.len() && scanned_as(#[trigger] entries@[k], scan[q], path@))
                &&& (entries@[k].is_dir <==> entries@[k].children is Some)
                &&& entries@[k].path@ == gv[k].path@
                &&& entries@[k].is_dir == gv[k].is_dir
            },
        decreases g.len(),
    {
        let x = g.remove(0);
        assert(x == gv[j as int]);
        assert(g@ =~= gv.skip(j + 1));
        let ghost xv = x;
        proof {
            assert(before.contains(xv));
            let q0 = choose|q: int| 0 <= q < before.len() && before[q] == xv;
            assert(scan.contains(before[q0]));
        }
        let ghost q = choose|q: int| 0 <= q < scan.len() && scan[q] == xv;
        let is_dir = x.is_dir;
        let e = Entry {
            path: x.path,
            is_dir,
            name: x.name,
            children: if is_dir { Some(Vec::new()) } else { None },
        };
        assert(scanned_as(e, scan[q], path@));
        let ghost e0 = entries@;
        entries.push(e);
        assert forall|k: int| 0 <= k < entries@.len() implies {
            &&& (exists|q: int| 0 <= q < scan.len() && scanned_as(#[trigger] entries@[k], scan[q], path@))
            &&& (entries@[k].is_dir <==> entries@[k].children is Some)
            &&& entries@[k].path@ == gv[k].path@
            &&& entries@[k].is_dir == gv[k].is_dir
        } by {
            if k < j {
                assert(entries@[k] == e0[k]);
            } else {
                assert(entries@[k] == e);
            }
        }
        j += 1;
    }
    assert(g@.len() == 0);
    assert(entries@.len() == glen);
    let ghost ev = entries@;
    proof {
        assert forall|k: int| 0 <= k < ev.len() implies from_group(#[trigger] ev[k], before, path@) by {
            assert(before.contains(gv[k]));
            let m = choose|m: int| 0 <= m < before.len() && before[m] == gv[k];
            assert(before[m].path@ == ev[k].path@);
        }
        if uniq {
            broadcast use Seq::lemma_filter_contains_rev;

            lemma_filter_no_dup(kept, unexpanded(visited));
            lemma_filter_no_dup(before, in_dir(path@));
            assert forall|a: int, b: int|
                #![trigger ev[a], ev[b]]
                0 <= a < ev.len() && 0 <= b < ev.len() && a != b implies ev[a].path@ != ev[b].path@ by {
                if ev[a].path@ == ev[b].path@ {
                    assert(before.contains(gv[a]));
                    assert(before.contains(gv[b]));
                    assert(kept.contains(gv[a]));
                    assert(kept.contains(gv[b]));
                    assert(gv[a] == gv[b]);
                }
            }
        }
    }
    let sorted = sort_entries(entries);
    let ghost sv = sorted@;
    proof {
        broadcast use vstd::seq_lib::group_to_multiset_ensures;
        law_sort_entries(ev);
        assert forall|k: int| 0 <= k < sv.len() implies ev.contains(#[trigger] sv[k]) by {
            assert(sv.to_multiset().count(sv[k]) > 0);
        }
        assert forall|k: int| 0 <= k < sv.len() implies from_group(#[trigger] sv[k], before, path@) by {
            let x = choose|x: int| 0 <= x < ev.len() && ev[x] == sv[k];
            assert(from_group(ev[x], before, path@));
        }
        if uniq {
            lemma_sorted_apart(ev, sv);
        }
    }
    let mut rest = sorted;
    let mut out: Vec<Entry> = Vec::new();
    let mut i: usize = 0;
    let sn = rest.len();
    let ghost mut vc = v1;
    assert(sv.skip(0) =~= sv);
    while rest.len() > 0
        invariant
            sv.len() == sn,
            sn == glen,
            before == old(pool)@,
            rest@ == sv.skip(i as int),
            i <= sv.len(),
            sv.len() == gv.len(),
            gv.len() > 0 ==> after.len() < before.len(),
            pool@.len() <= after.len(),
            after.len() + gv.len() == before.len(),
            entries_sorted(sv),
            forall|k: int| 0 <= k < sv.len() ==> ev.contains(#[trigger] sv[k]),
            forall|k: int| 0 <= k < ev.len() ==> {
                &&& (exists|q: int| 0 <= q < scan.len() && scanned_as(#[trigger] ev[k], scan[q], path@))
                &&& (ev[k].is_dir <==> ev[k].children is Some)
            },
            forall|k: int| 0 <= k < pool@.len() ==> scan.contains(#[trigger] pool@[k]),
            forall|k: int| 0 <= k < pool@.len() ==> !ignored_name((#[trigger] pool@[k]).name@),
            out@.len() == i,
            forall|k: int| 0 <= k < i ==> {
                &&& (#[trigger] out@[k]).path@ == sv[k].path@
                &&& out@[k].name@ == sv[k].name@
                &&& out@[k].is_dir == sv[k].is_dir
                &&& node_from_scan(out@[k], path@, scan)
            },
            forall|k: int| 0 <= k < sv.len() ==> from_group(#[trigger] sv[k], before, path@),
            before == unvisited(kept, visited),
            v1 == visited.insert(path@),
            after == unvisited(kept, v1),
            forall|k: int| 0 <= k < after.len() ==> before.contains(#[trigger] after[k]),
            pool@ == unvisited(kept, vc),
            forall|v: Seq<char>| v1.contains(v) ==> #[trigger] vc.contains(v),
            covered(vc, v1, sv, i as int, after),
            uniq ==> paths_apart(kept, root),
            uniq ==> visited_ok(kept, vc, root),
            uniq ==> visited_ok(kept, visited, root),
            uniq ==> !visited.contains(path@),
            uniq ==> reached(kept, visited, root, path@),
            uniq ==> forall|a: int, b: int|
                #![trigger sv[a], sv[b]]
                0 <= a < sv.len() && 0 <= b < sv.len() && a != b ==> sv[a].path@ != sv[b].path@,
            uniq ==> forall|k: int| 0 <= k < i ==> node_complete(#[trigger] out@[k], kept),
        decreases rest.len(),
    {
        let e = rest.remove(0);
        assert(e == sv[i as int]);
        assert(rest@ =~= sv.skip(i + 1));
        proof {
            assert(ev.contains(e));
            let k = choose|k: int| 0 <= k < ev.len() && ev[k] == e;
            assert(ev[k] == e);
        }
        let Entry { path: p, is_dir, name, children: _ } = e;
        let mut children: Option<Vec<Entry>> = None;
        if is_dir {
            let ghost pc = pool@;
            proof {
                assert(from_group(sv[i as int], before, path@));
                let m = choose|m: int|
                    0 <= m < before.len() && (#[trigger] before[m]).path@ == sv[i as int].path@
                        && before[m].parent@ == path@ && before[m].is_dir == sv[i as int].is_dir;
                let z = before[m];
                if uniq {
                    broadcast use Seq::lemma_filter_contains_rev;

                    assert(before.contains(z));
                    assert(kept.contains(z));
                    lemma_fresh(kept, visited, root, path@, vc, after, sv, i as int, z);
                    assert(vc.contains(path@));
                    assert(reached(kept, vc, root, p@));
                }
            }
            let (kids, Ghost(v2)) = build_children(
                &p,
                pool,
                Ghost(scan),
                Ghost(kept),
                Ghost(root),
                Ghost(vc),
                Ghost(uniq),
            );
            proof {
                lemma_covered_step(kept, v1, vc, v2, after, sv, i as int);
                vc = v2;
            }
            children = Some(kids);
        } else {
            assert(covered(vc, v1, sv, i + 1, after)) by {
                assert forall|v: Seq<char>| #[trigger] vc.contains(v) implies v1.contains(v) || (exists|k: int|
                    0 <= k < i + 1 && (#[trigger] sv[k]).path@ == v) || (exists|m: int|
                    0 <= m < after.len() && (#[trigger] after[m]).path@ == v) by {
                    if exists|k: int| 0 <= k < i && (#[trigger] sv[k]).path@ == v {
                        let k = choose|k: int| 0 <= k < i && (#[trigger] sv[k]).path@ == v;
                        assert(sv[k].path@ == v);
                    }
                }
            }
        }
        let node = Entry { path: p, is_dir, name, children };
        proof {
            let k = choose|k: int| 0 <= k < ev.len() && ev[k] == sv[i as int];
            let q = choose|q: int| 0 <= q < scan.len() && scanned_as(ev[k], scan[q], path@);
            assert(scanned_as(node, scan[q], path@));
        }
        let ghost o0 = out@;
        out.push(node);
        assert forall|k: int| 0 <= k < i + 1 implies {
            &&& (#[trigger] out@[k]).path@ == sv[k].path@
            &&& out@[k].name@ == sv[k].name@
            &&& out@[k].is_dir == sv[k].is_dir
            &&& node_from_scan(out@[k], path@, scan)
        } by {
            if k < i {
                assert(out@[k] == o0[k]);
            }
        }
        proof {
            if uniq {
                assert forall|k: int| 0 <= k < i + 1 implies node_complete(#[trigger] out@[k], kept) by {
                    if k < i {
                        assert(out@[k] == o0[k]);
                    }
                }
            }
        }
        i += 1;
    }
    proof {
        let o = out@;
        assert forall|a: int, b: int| 0 <= a < b < o.len() implies !entry_before(o[b], o[a]) by {
            assert(!entry_before(sv[b], sv[a]));
        }
        lemma_tree_from_parts(o, path@, scan);
        assert forall|v: Seq<char>| #[trigger] vc.contains(v) implies visited.contains(v) || v == path@
            || exists|m: int| 0 <= m < before.len() && (#[trigger] before[m]).path@ == v by {
            if !v1.contains(v) {
                if exists|k: int| 0 <= k < sv.len() && (#[trigger] sv[k]).path@ == v {
                    let k = choose|k: int| 0 <= k < sv.len() && (#[trigger] sv[k]).path@ == v;
                    assert(from_group(sv[k], before, path@));
                } else {
                    let m = choose|m: int| 0 <= m < after.len() && (#[trigger] after[m]).path@ == v;
                    assert(before.contains(after[m]));
                    let q = choose|q: int| 0 <= q < before.len() && before[q] == after[m];
                    assert(before[q].path@ == v);
                }
            }
        }
        if uniq {
            lemma_complete_from_parts(o, kept);
            assert forall|a: int, b: int|
                #![trigger o[a], o[b]]
                0 <= a < o.len() && 0 <= b < o.len() && a != b implies o[a].path@ != o[b].path@ by {
                assert(o[a].path@ == sv[a].path@);
                assert(o[b].path@ == sv[b].path@);
                assert(sv[a].path@ != sv[b].path@);
            }
        }
    }
    (out, Ghost(vc))
}

/// The project tree of a scan: the root directory and, below it, every
/// scanned path reached from it, each directory's entries in panel order.
/// Paths the scan names `target` or `.git` are left out. Where the scan
/// names each path once, and never the root, every directory of the tree
/// holds each entry the scan found in it exactly once.
pub fn build_tree(root_path: String, root_name: String, scanned: Vec<ScannedEntry>) -> (r: Entry)
    ensures
        r.path@ == root_path@,
        r.name@ == root_name@,
        r.is_dir,
        r.children matches Some(c) && tree_from_scan(c@, root_path@, scanned@) && c@.len()
            == found_in(kept_scan(scanned@), root_path@),
        scan_unique(scanned@, root_path@) ==> node_complete(r, kept_scan(scanned@)),
{
    let ghost scan = scanned@;
    let mut pool: Vec<ScannedEntry> = Vec::new();
    let mut input = scanned;
    let mut i: usize = 0;
    let n = input.len();
    let ghost keep = |x: ScannedEntry| !ignored_name(x.name@);
    assert(scan.skip(0) =~= scan);
    assert(scan.take(0) =~= Seq::<ScannedEntry>::empty());
    proof {
        reveal(Seq::filter);
    }
    while input.len() > 0
        invariant
            scan.len() == n,
            keep == (|x: ScannedEntry| !ignored_name(x.name@)),
            pool@ == scan.take(i as int).filter(keep),
            input@ == scan.skip(i as int),
            i <= scan.len(),
            forall|k: int| 0 <= k < pool@.len() ==> scan.contains(#[trigger] pool@[k]),
            forall|k: int| 0 <= k < pool@.len() ==> !ignored_name((#[trigger] pool@[k]).name@),
        decreases input.len(),
    {
        let x = input.remove(0);
        assert(x == scan[i as int]);
        assert(input@ =~= scan.skip(i + 1));
        proof {
            scan.take(i as int).lemma_filter_push(scan[i as int], keep);
            assert(scan.take(i + 1) =~= scan.take(i as int).push(scan[i as int]));
        }
        if !is_ignored_name(x.name.as_str()) {
            let ghost p0 = pool@;
            pool.push(x);
            assert forall|k: int| 0 <= k < pool@.len() implies scan.contains(#[trigger] pool@[k]) by {
                if k < p0.len() {
                    assert(pool@[k] == p0[k]);
                } else {
                    assert(scan[i as int] == pool@[k]);
                }
            }
            assert forall|k: int| 0 <= k < pool@.len() implies !ignored_name((#[trigger] pool@[k]).name@) by {
                if k < p0.len() {
                    assert(pool@[k] == p0[k]);
                }
            }
        }
        i += 1;
    }
    assert(scan.take(i as int) =~= scan);
    let ghost kept = pool@;
    let ghost uniq = scan_unique(scan, root_path@);
    proof {
        lemma_filter_all(kept, unexpanded(Set::<Seq<char>>::empty()));
        assert(pool@ == unvisited(kept, Set::<Seq<char>>::empty()));
        if uniq {
            lemma_scan_apart(scan, root_path@);
        }
    }
    let (children, _) = build_children(
        &root_path,
        &mut pool,
        Ghost(scan),
        Ghost(kept),
        Ghost(root_path@),
        Ghost(Set::<Seq<char>>::empty()),
        Ghost(uniq),
    );
    Entry { path: root_path, is_dir: true, name: root_name, children: Some(children) }
}

} // verus!
