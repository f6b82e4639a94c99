//! The orders in which the sysroot report lists its entries: names in the
//! order of `String`, paths in the order of `Path` (component by
//! component), and the stable insertion sort that applies either.
use vstd::prelude::*;

use crate::text::{
    chars_of, find_char_from, find_char_from_exec, lemma_find_char_from_bounds, sub_vec,
};

verus! {

/// `a` sorts strictly before `b` in the order of `String`: character by
/// character, by code point, a proper prefix first.
pub open spec fn str_lt(a: Seq<char>, b: Seq<char>) -> bool
    decreases a.len(),
{
    if b.len() == 0 {
        false
    } else if a.len() == 0 {
        true
    } else if a[0] != b[0] {
        a[0] < b[0]
    } else {
        str_lt(a.drop_first(), b.drop_first())
    }
}

/// The `/`-separated segments of `p` from position `start` on, empty
/// segments included.
pub open spec fn segments_from(p: Seq<char>, start: int) -> Seq<Seq<char>>
    decreases p.len() - start,
{
    if start < 0 || start > p.len() {
        seq![]
    } else {
        match find_char_from(p, '/', start) {
            None => seq![p.subrange(start, p.len() as int)],
            Some(end) => if start <= end < p.len() {
                seq![p.subrange(start, end)] + segments_from(p, end + 1)
            } else {
                seq![]
            },
        }
    }
}

/// Rank of a root-directory component.
pub open spec fn root_rank() -> u8 {
    1
}

/// Rank of a `.` component.
pub open spec fn cur_rank() -> u8 {
    2
}

/// Rank of a `..` component.
pub open spec fn parent_rank() -> u8 {
    3
}

/// Rank of a named component.
pub open spec fn normal_rank() -> u8 {
    4
}

/// The components that the segments stand for: empty and `.` segments
/// vanish, `..` is a parent-directory component, and any other segment a
/// named one.
pub open spec fn normal_parts(segs: Seq<Seq<char>>) -> Seq<(u8, Seq<char>)>
    decreases segs.len(),
{
    if segs.len() == 0 {
        seq![]
    } else {
        let rest = normal_parts(segs.drop_first());
        if segs[0].len() == 0 || segs[0] == seq!['.'] {
            rest
        } else if segs[0] == seq!['.', '.'] {
            seq![(parent_rank(), Seq::<char>::empty())] + rest
        } else {
            seq![(normal_rank(), segs[0])] + rest
        }
    }
}

/// The components of a Unix path as `Path::components` yields them: a
/// root directory first when the path starts with `/`, a current
/// directory when a relative path starts with a `.` segment, then the
/// remaining segments.
pub open spec fn path_parts(p: Seq<char>) -> Seq<(u8, Seq<char>)> {
    let segs = segments_from(p, 0);
    let rooted = p.len() > 0 && p[0] == '/';
    let leading_cur = !rooted && segs.len() > 0 && segs[0] == seq!['.'];
    (if rooted {
        seq![(root_rank(), Seq::<char>::empty())]
    } else {
        seq![]
    }) + (if leading_cur {
        seq![(cur_rank(), Seq::<char>::empty())]
    } else {
        seq![]
    }) + normal_parts(
        if leading_cur {
            segs.drop_first()
        } else {
            segs
        },
    )
}

/// One component sorts strictly before another.
pub open spec fn part_lt(a: (u8, Seq<char>), b: (u8, Seq<char>)) -> bool {
    a.0 < b.0 || (a.0 == b.0 && str_lt(a.1, b.1))
}

/// A component list sorts strictly before another, lexicographically.
pub open spec fn parts_lt(a: Seq<(u8, Seq<char>)>, b: Seq<(u8, Seq<char>)>) -> bool
    decreases a.len(),
{
    if b.len() == 0 {
        false
    } else if a.len() == 0 {
        true
    } else if a[0] != b[0] {
        part_lt(a[0], b[0])
    } else {
        parts_lt(a.drop_first(), b.drop_first())
    }
}

/// `a` sorts strictly before `b` in the order of `Path`.
pub open spec fn path_lt(a: Seq<char>, b: Seq<char>) -> bool {
    parts_lt(path_parts(a), path_parts(b))
}

/// The order used for a list: that of paths or that of strings.
pub open spec fn text_lt(by_path: bool, a: Seq<char>, b: Seq<char>) -> bool {
    if by_path {
        path_lt(a, b)
    } else {
        str_lt(a, b)
    }
}

/// Where a stable insertion puts `x` into `sorted`: before the first
/// element at or after `i` that `x` sorts strictly before.
pub open spec fn insertion_point(by_path: bool, sorted: Seq<Seq<char>>, x: Seq<char>, i: int) -> int
    decreases sorted.len() - i,
{
    if i < 0 || i >= sorted.len() {
        sorted.len() as int
    } else if text_lt(by_path, x, sorted[i]) {
        i
    } else {
        insertion_point(by_path, sorted, x, i + 1)
    }
}

/// `s` sorted stably: each element, in order, is inserted after every
/// element it does not sort strictly before.
pub open spec fn stable_sorted(by_path: bool, s: Seq<Seq<char>>) -> Seq<Seq<char>>
    decreases s.len(),
{
    if s.len() == 0 {
        s
    } else {
        let prefix = stable_sorted(by_path, s.drop_last());
        prefix.insert(insertion_point(by_path, prefix, s.last(), 0), s.last())
    }
}

proof fn lemma_insertion_point_bounds(by_path: bool, sorted: Seq<Seq<char>>, x: Seq<char>, i: int)
    requires
        0 <= i,
    ensures
        i <= insertion_point(by_path, sorted, x, i) <= sorted.len() || (i > sorted.len()
            && insertion_point(by_path, sorted, x, i) == sorted.len()),
    decreases sorted.len() - i,
{
    if i < sorted.len() && !text_lt(by_path, x, sorted[i]) {
        lemma_insertion_point_bounds(by_path, sorted, x, i + 1);
    }
}

pub(crate) proof fn lemma_insertion_point_in_range(
    by_path: bool,
    sorted: Seq<Seq<char>>,
    x: Seq<char>,
)
    ensures
        0 <= insertion_point(by_path, sorted, x, 0) <= sorted.len(),
{
    lemma_insertion_point_bounds(by_path, sorted, x, 0);
}

/// Whether `a` sorts strictly before `b` as strings.
pub(crate) fn str_lt_exec(a: &Vec<char>, b: &Vec<char>) -> (r: bool)
    ensures
        r == str_lt(a@, b@),
{
    let mut i: usize = 0;
    assert(a@.skip(0) == a@ && b@.skip(0) == b@);
    while i < a.len() && i < b.len() && a[i] == b[i]
        invariant
            i <= a.len(),
            i <= b.len(),
            str_lt(a@, b@) == str_lt(a@.skip(i as int), b@.skip(i as int)),
        decreases a.len() - i,
    {
        assert(a@.skip(i as int).drop_first() == a@.skip(i + 1));
        assert(b@.skip(i as int).drop_first() == b@.skip(i + 1));
        i = i + 1;
    }
    if i >= b.len() {
        false
    } else if i >= a.len() {
        true
    } else {
        a[i] < b[i]
    }
}

/// A path component: its rank and, for a named one, its text.
struct PathPart {
    rank: u8,
    text: Vec<char>,
}

spec fn part_view(p: PathPart) -> (u8, Seq<char>) {
    (p.rank, p.text@)
}

spec fn parts_view(v: Seq<PathPart>) -> Seq<(u8, Seq<char>)> {
    v.map_values(|p: PathPart| part_view(p))
}

/// The `/`-separated segments of `p`.
fn segments_exec(p: &Vec<char>) -> (r: Vec<Vec<char>>)
    ensures
        r@.map_values(|s: Vec<char>| s@) == segments_from(p@, 0),
{
    let mut out: Vec<Vec<char>> = Vec::new();
    let mut start: usize = 0;
    loop
        invariant
            start <= p.len(),
            segments_from(p@, 0) == out@.map_values(|s: Vec<char>| s@) + segments_from(
                p@,
                start as int,
            ),
        decreases p.len() - start,
    {
        proof {
            lemma_find_char_from_bounds(p@, '/', start as int);
        }
        let ghost before = out@;
        match find_char_from_exec(p, '/', start) {
            None => {
                let seg = sub_vec(p, start, p.len());
                out.push(seg);
                assert(out@.map_values(|s: Vec<char>| s@) == before.map_values(|s: Vec<char>| s@)
                    + seq![p@.subrange(start as int, p@.len() as int)]);
                return out;
            },
            Some(end) => {
                let seg = sub_vec(p, start, end);
                out.push(seg);
                assert(out@.map_values(|s: Vec<char>| s@) == before.map_values(|s: Vec<char>| s@)
                    + seq![p@.subrange(start as int, end as int)]);
                start = end + 1;
            },
        }
    }
}

fn is_dot(s: &Vec<char>) -> (r: bool)
    ensures
        r == (s@ == seq!['.']),
{
    let r = s.len() == 1 && s[0] == '.';
    if s.len() == 1 && s[0] == '.' {
        assert(s@ == seq!['.']);
    }
    r
}

fn is_dot_dot(s: &Vec<char>) -> (r: bool)
    ensures
        r == (s@ == seq!['.', '.']),
{
    let r = s.len() == 2 && s[0] == '.' && s[1] == '.';
    if r {
        assert(s@ == seq!['.', '.']);
    }
    r
}

/// The components of a path.
fn path_parts_exec(p: &Vec<char>) -> (r: Vec<PathPart>)
    ensures
        parts_view(r@) == path_parts(p@),
{
    let segs = segments_exec(p);
    let ghost segv = segs@.map_values(|s: Vec<char>| s@);
    let rooted = p.len() > 0 && p[0] == '/';
    let leading_cur = !rooted && segs.len() > 0 && is_dot(&segs[0]);
    let mut out: Vec<PathPart> = Vec::new();
    if rooted {
        out.push(PathPart { rank: 1, text: Vec::new() });
    }
    if leading_cur {
        out.push(PathPart { rank: 2, text: Vec::new() });
    }
    let ghost head = parts_view(out@);
    assert(head == (if rooted {
        seq![(root_rank(), Seq::<char>::empty())]
    } else {
        seq![]
    }) + (if leading_cur {
        seq![(cur_rank(), Seq::<char>::empty())]
    } else {
        seq![]
    }));
    let mut i: usize = if leading_cur {
        1
    } else {
        0
    };
    let ghost tail = if leading_cur {
        segv.drop_first()
    } else {
        segv
    };
    assert(segv.skip(i as int) == tail);
    // the remaining segments, from the back, give the remaining parts
    let mut rest: Vec<PathPart> = Vec::new();
    while i < segs.len()
        invariant
            i <= segs.len(),
            segv == segs@.map_values(|s: Vec<char>| s@),
            normal_parts(tail) == parts_view(rest@) + normal_parts(segv.skip(i as int)),
        decreases segs.len() - i,
    {
        let ghost before = parts_view(rest@);
        assert(segv.skip(i as int).drop_first() == segv.skip(i + 1));
        assert(segv.skip(i as int)[0] == segs@[i as int]@);
        let seg = &segs[i];
        if seg.len() == 0 || is_dot(seg) {
        } else if is_dot_dot(seg) {
            rest.push(PathPart { rank: 3, text: Vec::new() });
            assert(parts_view(rest@) == before + seq![(parent_rank(), Seq::<char>::empty())]);
        } else {
            let copy = sub_vec(seg, 0, seg.len());
            assert(seg@.subrange(0, seg@.len() as int) == seg@);
            rest.push(PathPart { rank: 4, text: copy });
            assert(parts_view(rest@) == before + seq![(normal_rank(), seg@)]);
        }
        i = i + 1;
    }
    assert(segv.skip(i as int) == Seq::<Seq<char>>::empty());
    let mut k: usize = 0;
    let ghost base = parts_view(out@);
    while k < rest.len()
        invariant
            k <= rest.len(),
            parts_view(out@) == base + parts_view(rest@).take(k as int),
        decreases rest.len() - k,
    {
        let part = PathPart { rank: rest[k].rank, text: sub_vec(&rest[k].text, 0, rest[k].text.len()) };
        assert(rest@[k as int].text@.subrange(0, rest@[k as int].text@.len() as int) == rest@[k as int].text@);
        let ghost before = out@;
        out.push(part);
        assert(parts_view(out@) == parts_view(before).push(part_view(rest@[k as int])));
        assert(parts_view(rest@).take(k + 1) == parts_view(rest@).take(k as int).push(
            part_view(rest@[k as int]),
        ));
        k = k + 1;
    }
    assert(parts_view(rest@).take(rest@.len() as int) == parts_view(rest@));
    out
}

/// Whether `a` sorts strictly before `b` as paths.
fn path_lt_exec(a: &Vec<char>, b: &Vec<char>) -> (r: bool)
    ensures
        r == path_lt(a@, b@),
{
    let pa = path_parts_exec(a);
    let pb = path_parts_exec(b);
    let ghost va = parts_view(pa@);
    let ghost vb = parts_view(pb@);
    let mut i: usize = 0;
    assert(va.skip(0) == va && vb.skip(0) == vb);
    loop
        invariant
            i <= pa.len(),
            i <= pb.len(),
            va == parts_view(pa@),
            vb == parts_view(pb@),
            path_lt(a@, b@) == parts_lt(va.skip(i as int), vb.skip(i as int)),
        decreases pa.len() - i,
    {
        if i >= pb.len() {
            return false;
        }
        if i >= pa.len() {
            return true;
        }
        let x = &pa[i];
        let y = &pb[i];
        assert(va.skip(i as int)[0] == part_view(pa@[i as int]));
        assert(vb.skip(i as int)[0] == part_view(pb@[i as int]));
        if x.rank != y.rank {
            return x.rank < y.rank;
        }
        let text_lt_ab = str_lt_exec(&x.text, &y.text);
        let text_lt_ba = str_lt_exec(&y.text, &x.text);
        if text_lt_ab || text_lt_ba || x.text.len() != y.text.len() {
            proof {
                lemma_str_lt_irreflexive(x.text@);
            }
            if x.text.len() != y.text.len() {
                assert(x.text@ != y.text@);
                proof {
                    lemma_str_lt_total(x.text@, y.text@);
                }
            }
            return text_lt_ab;
        }
        proof {
            lemma_str_lt_total(x.text@, y.text@);
        }
        assert(va.skip(i as int).drop_first() == va.skip(i + 1));
        assert(vb.skip(i as int).drop_first() == vb.skip(i + 1));
        i = i + 1;
    }
}

pub(crate) proof fn lemma_str_lt_irreflexive(a: Seq<char>)
    ensures
        !str_lt(a, a),
    decreases a.len(),
{
    if a.len() > 0 {
        lemma_str_lt_irreflexive(a.drop_first());
    }
}

pub(crate) proof fn lemma_str_lt_total(a: Seq<char>, b: Seq<char>)
    ensures
        a == b || str_lt(a, b) || str_lt(b, a),
    decreases a.len(),
{
    if a.len() > 0 && b.len() > 0 && a[0] == b[0] {
        lemma_str_lt_total(a.drop_first(), b.drop_first());
        if a.drop_first() == b.drop_first() {
            assert(a == seq![a[0]] + a.drop_first());
            assert(b == seq![b[0]] + b.drop_first());
        }
    } else if a.len() == 0 && b.len() == 0 {
        assert(a == b);
    }
}

/// Whether `a` sorts strictly before `b` in the chosen order.
fn text_lt_exec(by_path: bool, a: &Vec<char>, b: &Vec<char>) -> (r: bool)
    ensures
        r == text_lt(by_path, a@, b@),
{
    if by_path {
        path_lt_exec(a, b)
    } else {
        str_lt_exec(a, b)
    }
}

/// Sorts strings stably, as paths or as strings.
///
/// The result holds the same strings, each as often, and no string in it
/// sorts strictly before one ahead of it.
pub fn sort_stable(by_path: bool, items: &Vec<String>) -> (r: Vec<String>)
    ensures
        r@.map_values(|s: String| s@) == stable_sorted(by_path, items@.map_values(|s: String| s@)),
        is_sorted_by(by_path, r@.map_values(|s: String| s@)),
        r@.map_values(|s: String| s@).to_multiset() == items@.map_values(|s: String| s@).to_multiset(),
{
    let ghost src = items@.map_values(|s: String| s@);
    let mut sorted: Vec<String> = Vec::new();
    let mut keys: Vec<Vec<char>> = Vec::new();
    let mut n: usize = 0;
    while n < items.len()
        invariant
            n <= items.len(),
            src == items@.map_values(|s: String| s@),
            sorted@.map_values(|s: String| s@) == stable_sorted(by_path, src.take(n as int)),
            keys@.map_values(|k: Vec<char>| k@) == sorted@.map_values(|s: String| s@),
        decreases items.len() - n,
    {
        let ghost prefix = stable_sorted(by_path, src.take(n as int));
        assert(src.take(n + 1).drop_last() == src.take(n as int));
        assert(src.take(n + 1).last() == items@[n as int]@);
        let x = chars_of(items[n].as_str());
        let mut j: usize = 0;
        while j < keys.len() && !text_lt_exec(by_path, &x, &keys[j])
            invariant
                j <= keys.len(),
                keys@.map_values(|k: Vec<char>| k@) == prefix,
                insertion_point(by_path, prefix, x@, 0) == insertion_point(
                    by_path,
                    prefix,
                    x@,
                    j as int,
                ),
            decreases keys.len() - j,
        {
            assert(prefix[j as int] == keys@[j as int]@);
            j = j + 1;
        }
        if j < keys.len() {
            assert(prefix[j as int] == keys@[j as int]@);
        }
        let ghost ks = keys@;
        let ghost ss = sorted@;
        keys.insert(j, x);
        sorted.insert(j, items[n].clone());
        assert(keys@.map_values(|k: Vec<char>| k@) == prefix.insert(j as int, items@[n as int]@)) by {
            assert(ks.map_values(|k: Vec<char>| k@) == prefix);
        }
        assert(sorted@.map_values(|s: String| s@) == prefix.insert(j as int, items@[n as int]@)) by {
            assert(ss.map_values(|s: String| s@) == prefix);
        }
        n = n + 1;
    }
    assert(src.take(items.len() as int) == src);
    proof {
        lemma_stable_sorted_is_sorted_permutation(by_path, src);
    }
    sorted
}


/// No element of `s` sorts strictly before an element ahead of it.
pub open spec fn is_sorted_by(by_path: bool, s: Seq<Seq<char>>) -> bool {
    forall|i: int, j: int|
        0 <= i < j < s.len() ==> !text_lt(by_path, #[trigger] s[j], #[trigger] s[i])
}

pub(crate) proof fn lemma_str_lt_transitive(a: Seq<char>, b: Seq<char>, c: Seq<char>)
    requires
        str_lt(a, b),
        str_lt(b, c),
    ensures
        str_lt(a, c),
    decreases a.len(),
{
    if a.len() > 0 && b.len() > 0 && c.len() > 0 && a[0] == b[0] && b[0] == c[0] {
        lemma_str_lt_transitive(a.drop_first(), b.drop_first(), c.drop_first());
    }
}

proof fn lemma_part_lt_transitive(a: (u8, Seq<char>), b: (u8, Seq<char>), c: (u8, Seq<char>))
    requires
        part_lt(a, b),
        part_lt(b, c),
    ensures
        part_lt(a, c),
{
    if a.0 == b.0 && b.0 == c.0 {
        lemma_str_lt_transitive(a.1, b.1, c.1);
    }
}

proof fn lemma_part_lt_irreflexive(a: (u8, Seq<char>))
    ensures
        !part_lt(a, a),
{
    lemma_str_lt_irreflexive(a.1);
}

proof fn lemma_parts_lt_irreflexive(a: Seq<(u8, Seq<char>)>)
    ensures
        !parts_lt(a, a),
    decreases a.len(),
{
    if a.len() > 0 {
        lemma_parts_lt_irreflexive(a.drop_first());
    }
}

proof fn lemma_parts_lt_transitive(
    a: Seq<(u8, Seq<char>)>,
    b: Seq<(u8, Seq<char>)>,
    c: Seq<(u8, Seq<char>)>,
)
    requires
        parts_lt(a, b),
        parts_lt(b, c),
    ensures
        parts_lt(a, c),
    decreases a.len(),
{
    if a.len() > 0 && b.len() > 0 && c.len() > 0 {
        if a[0] == b[0] && b[0] == c[0] {
            lemma_parts_lt_transitive(a.drop_first(), b.drop_first(), c.drop_first());
        } else if a[0] != b[0] && b[0] != c[0] {
            lemma_part_lt_transitive(a[0], b[0], c[0]);
            if a[0] == c[0] {
                lemma_part_lt_irreflexive(a[0]);
            }
        }
    }
}

/// The order of a list is a strict order: never reflexive, and transitive.
pub proof fn lemma_text_lt_strict_order(by_path: bool, a: Seq<char>, b: Seq<char>, c: Seq<char>)
    ensures
        !text_lt(by_path, a, a),
        text_lt(by_path, a, b) && text_lt(by_path, b, c) ==> text_lt(by_path, a, c),
{
    if by_path {
        lemma_parts_lt_irreflexive(path_parts(a));
        if path_lt(a, b) && path_lt(b, c) {
            lemma_parts_lt_transitive(path_parts(a), path_parts(b), path_parts(c));
        }
    } else {
        lemma_str_lt_irreflexive(a);
        if str_lt(a, b) && str_lt(b, c) {
            lemma_str_lt_transitive(a, b, c);
        }
    }
}

proof fn lemma_insertion_point_facts(by_path: bool, sorted: Seq<Seq<char>>, x: Seq<char>, i: int)
    requires
        0 <= i <= sorted.len(),
        forall|k: int| 0 <= k < i ==> !text_lt(by_path, x, #[trigger] sorted[k]),
    ensures
        i <= insertion_point(by_path, sorted, x, i) <= sorted.len(),
        forall|k: int|
            0 <= k < insertion_point(by_path, sorted, x, i) ==> !text_lt(
                by_path,
                x,
                #[trigger] sorted[k],
            ),
        insertion_point(by_path, sorted, x, i) < sorted.len() ==> text_lt(
            by_path,
            x,
            sorted[insertion_point(by_path, sorted, x, i)],
        ),
    decreases sorted.len() - i,
{
    if i < sorted.len() && !text_lt(by_path, x, sorted[i]) {
        lemma_insertion_point_facts(by_path, sorted, x, i + 1);
    }
}

/// The stable sort of a list holds the same elements as the list, each as
/// often, and lists them in order.
pub proof fn lemma_stable_sorted_is_sorted_permutation(by_path: bool, s: Seq<Seq<char>>)
    ensures
        is_sorted_by(by_path, stable_sorted(by_path, s)),
        stable_sorted(by_path, s).to_multiset() == s.to_multiset(),
    decreases s.len(),
{
    broadcast use vstd::seq_lib::to_multiset_insert, vstd::seq_lib::to_multiset_build;

    if s.len() == 0 {
    } else {
        let prefix = stable_sorted(by_path, s.drop_last());
        let x = s.last();
        lemma_stable_sorted_is_sorted_permutation(by_path, s.drop_last());
        lemma_insertion_point_facts(by_path, prefix, x, 0);
        let j = insertion_point(by_path, prefix, x, 0);
        let r = prefix.insert(j, x);
        assert(r == stable_sorted(by_path, s));
        assert(s.drop_last().push(x) == s);
        assert forall|a: int, b: int| 0 <= a < b < r.len() implies !text_lt(
            by_path,
            #[trigger] r[b],
            #[trigger] r[a],
        ) by {
            lemma_text_lt_strict_order(by_path, r[b], r[a], x);
            if b < j {
                assert(r[a] == prefix[a] && r[b] == prefix[b]);
            } else if b == j {
                assert(r[a] == prefix[a]);
            } else if a == j {
                assert(r[b] == prefix[b - 1]);
                if j < prefix.len() {
                    lemma_text_lt_strict_order(by_path, prefix[b - 1], x, prefix[j]);
                    lemma_text_lt_strict_order(by_path, x, prefix[j], prefix[b - 1]);
                    if b - 1 > j {
                        assert(!text_lt(by_path, prefix[b - 1], prefix[j]));
                    } else {
                        lemma_text_lt_strict_order(by_path, x, prefix[j], x);
                    }
                }
            } else if a < j {
                assert(r[a] == prefix[a] && r[b] == prefix[b - 1]);
            } else {
                assert(r[a] == prefix[a - 1] && r[b] == prefix[b - 1]);
            }
        }
    }
}


/// Sorted by the order of `String`, a list without repeats comes out in
/// strictly increasing order, with the same elements.
pub(crate) proof fn lemma_stable_sorted_strictly(s: Seq<Seq<char>>)
    requires
        s.no_duplicates(),
    ensures
        forall|a: int, b: int|
            0 <= a < b < stable_sorted(false, s).len() ==> str_lt(
                #[trigger] stable_sorted(false, s)[a],
                #[trigger] stable_sorted(false, s)[b],
            ),
        forall|x: Seq<char>| #[trigger] stable_sorted(false, s).contains(x) <==> s.contains(x),
{
    broadcast use vstd::seq_lib::to_multiset_contains;

    let t = stable_sorted(false, s);
    lemma_stable_sorted_is_sorted_permutation(false, s);
    s.lemma_multiset_has_no_duplicates();
    assert forall|x: Seq<char>| t.to_multiset().contains(x) implies t.to_multiset().count(x)
        == 1 by {
        assert(s.to_multiset().contains(x));
    }
    t.lemma_multiset_has_no_duplicates_conv();
    assert forall|x: Seq<char>| #[trigger] t.contains(x) <==> s.contains(x) by {
        assert(t.to_multiset().count(x) == s.to_multiset().count(x));
    }
    assert forall|a: int, b: int| 0 <= a < b < t.len() implies str_lt(#[trigger] t[a], #[trigger] t[b]) by {
        lemma_str_lt_total(t[a], t[b]);
        assert(!text_lt(false, t[b], t[a]));
    }
}

} // verus!
