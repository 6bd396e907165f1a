//! Paths compared the way `std::path::Path` compares them: by their
//! components, so that repeated separators, `.` components past the start
//! and a trailing separator make no difference.
use vstd::prelude::*;
use crate::text::{chars_of, chars_eq, views_of};

verus! {

/// A part between separators is kept unless it is empty or `.`.
pub open spec fn keep_part(acc: Seq<Seq<char>>, part: Seq<char>) -> Seq<Seq<char>> {
    if part.len() == 0 || part == seq!['.'] {
        acc
    } else {
        acc.push(part)
    }
}

/// The named parts of `p` from position `i` on, where `cur` is the part
/// being read and `acc` the parts kept so far.
pub open spec fn parts_from(p: Seq<char>, i: int, cur: Seq<char>, acc: Seq<Seq<char>>) -> Seq<Seq<char>>
    decreases p.len() - i,
{
    if i < 0 || i >= p.len() {
        keep_part(acc, cur)
    } else if p[i] == '/' {
        parts_from(p, i + 1, seq![], keep_part(acc, cur))
    } else {
        parts_from(p, i + 1, cur.push(p[i]), acc)
    }
}

/// The components of a path: whether it starts at the root, whether it
/// starts with a `.` component (only without a root), and its other
/// components, neither empty nor `.`, in order.
pub open spec fn path_key(p: Seq<char>) -> (bool, bool, Seq<Seq<char>>) {
    let rooted = p.len() > 0 && p[0] == '/';
    let cur_dir = !rooted && p.len() > 0 && p[0] == '.' && (p.len() == 1 || p[1] == '/');
    (rooted, cur_dir, parts_from(p, 0, seq![], seq![]))
}

/// The components of each path of a list.
pub open spec fn path_keys(v: Seq<Seq<char>>) -> Seq<(bool, bool, Seq<Seq<char>>)> {
    v.map_values(|p: Seq<char>| path_key(p))
}

fn keep_part_exec(acc: &mut Vec<Vec<char>>, part: Vec<char>)
    ensures
        views_of(final(acc)@) == keep_part(views_of(old(acc)@), part@),
{
    if part.len() == 0 || (part.len() == 1 && part[0] == '.') {
        assert(part.len() == 1 ==> (part@ == seq!['.'] <==> part@[0] == '.')) by {
            if part.len() == 1 {
                if part@[0] == '.' {
                    assert(part@ =~= seq!['.']);
                }
            }
        }
        return;
    }
    assert(part@ != seq!['.']) by {
        if part@ == seq!['.'] {
            assert(part@.len() == 1 && part@[0] == '.');
        }
    }
    let ghost before = views_of(acc@);
    acc.push(part);
    assert(views_of(acc@) =~= before.push(part@));
}

/// The named components of a path (see `path_key`).
fn path_parts(p: &Vec<char>) -> (r: Vec<Vec<char>>)
    ensures
        views_of(r@) == parts_from(p@, 0, seq![], seq![]),
{
    let mut acc: Vec<Vec<char>> = Vec::new();
    let mut cur: Vec<char> = Vec::new();
    let mut i: usize = 0;
    assert(views_of(acc@) =~= Seq::<Seq<char>>::empty());
    while i < p.len()
        invariant
            i <= p@.len(),
            parts_from(p@, 0, seq![], seq![]) == parts_from(p@, i as int, cur@, views_of(acc@)),
        decreases p.len() - i,
    {
        if p[i] == '/' {
            let part = cur;
            keep_part_exec(&mut acc, part);
            cur = Vec::new();
            assert(cur@ =~= Seq::<char>::empty());
        } else {
            let ghost c0 = cur@;
            cur.push(p[i]);
            assert(cur@ =~= c0.push(p@[i as int]));
        }
        i += 1;
    }
    keep_part_exec(&mut acc, cur);
    acc
}

fn parts_eq(a: &Vec<Vec<char>>, b: &Vec<Vec<char>>) -> (r: bool)
    ensures
        r == (views_of(a@) == views_of(b@)),
{
    if a.len() != b.len() {
        assert(views_of(a@).len() != views_of(b@).len());
        return false;
    }
    let mut i: usize = 0;
    while i < a.len()
        invariant
            a@.len() == b@.len(),
            i <= a@.len(),
            forall|j: int| 0 <= j < i ==> (#[trigger] a@[j])@ == b@[j]@,
        decreases a.len() - i,
    {
        if !chars_eq(&a[i], &b[i]) {
            assert(views_of(a@)[i as int] != views_of(b@)[i as int]);
            return false;
        }
        i += 1;
    }
    assert(views_of(a@) =~= views_of(b@)) by {
        assert forall|j: int| 0 <= j < a@.len() implies views_of(a@)[j] == views_of(b@)[j] by {
            assert(a@[j]@ == b@[j]@);
        }
    }
    true
}

fn path_head(p: &Vec<char>) -> (r: (bool, bool))
    ensures
        r.0 == path_key(p@).0,
        r.1 == path_key(p@).1,
{
    let rooted = p.len() > 0 && p[0] == '/';
    let cur_dir = !rooted && p.len() > 0 && p[0] == '.' && (p.len() == 1 || p[1] == '/');
    (rooted, cur_dir)
}

/// Whether two paths name the same place as `Path`'s `==` sees it: the same
/// components.
pub fn same_path(a: &str, b: &str) -> (r: bool)
    ensures
        r == (path_key(a@) == path_key(b@)),
{
    let ac = chars_of(a);
    let bc = chars_of(b);
    let (ar, ad) = path_head(&ac);
    let (br, bd) = path_head(&bc);
    if ar != br || ad != bd {
        return false;
    }
    let ap = path_parts(&ac);
    let bp = path_parts(&bc);
    parts_eq(&ap, &bp)
}

} // verus!
