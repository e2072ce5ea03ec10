//! The cursor path that leads to a position, and the proof that the search
//! along it ends at that position.

use vstd::prelude::*;
use crate::doc::{CurNode, DocNode};
use crate::order::{
    head_at, lemma_level_ok, lemma_level_push, lemma_prefix_mono, lemma_prefix_unfold,
    level, node_ok, nodes_ok, path_ok, start, total, valid, Pos,
};
use crate::scan::cursor_scan;
use crate::stepper::{cur_kids, cur_level, cur_path_ok, lemma_path_prefix};
use crate::validate::well_formed;

verus! {

/// The cursor element that passes the whole of a document node: a skip of
/// its length for a run of text, and for a group a `WithGroup` that passes
/// each of its children.
pub open spec fn pass_of(n: DocNode) -> CurNode
    decreases n, 0int,
{
    match n {
        DocNode::Chars(s) => CurNode::Skip(s.len()),
        DocNode::Group(_, c) => CurNode::WithGroup(passes(c, c.len() as int)),
    }
}

/// The cursor elements that pass the first `k` elements of a sibling list,
/// one for each.
pub open spec fn passes(lv: Seq<DocNode>, k: int) -> Seq<CurNode>
    decreases lv, k,
{
    if k <= 0 || k > lv.len() {
        Seq::empty()
    } else {
        passes(lv, k - 1).push(pass_of(lv[k - 1]))
    }
}

/// The marker that ends a cursor path before the given node.
pub open spec fn marker(n: DocNode) -> CurNode {
    match n {
        DocNode::Chars(_) => CurNode::Char,
        DocNode::Group(_, _) => CurNode::Group,
    }
}

/// The last stretch of a cursor path: what passes the siblings before
/// `head`, a skip of the characters passed in the run at `head`, if any,
/// and the end marker.
pub open spec fn last_stretch(lv: Seq<DocNode>, head: int, debt: int) -> Seq<CurNode> {
    let front = passes(lv, head);
    let mid = if debt > 0 {
        front.push(CurNode::Skip(debt as nat))
    } else {
        front
    };
    mid.push(marker(lv[head]))
}

/// A cursor path that goes down `path` and continues inside with `inner`:
/// at each depth it passes the siblings before the group entered.
pub open spec fn wrapped(root: Seq<DocNode>, path: Seq<int>, inner: Seq<CurNode>) -> Seq<CurNode>
    decreases path.len(),
{
    if path.len() == 0 {
        inner
    } else {
        wrapped(
            root,
            path.drop_last(),
            passes(level(root, path.drop_last()), path.last()).push(CurNode::WithGroup(inner)),
        )
    }
}

/// The cursor path that leads to a position before an element of the
/// document.
pub open spec fn cursor_path_to(root: Seq<DocNode>, p: Pos) -> Seq<CurNode> {
    wrapped(root, p.path, last_stretch(level(root, p.path), p.head, p.debt))
}

/// The position that a search found, without its count.
pub open spec fn found(o: Option<(Pos, int)>) -> Option<Pos> {
    match o {
        Some((q, _)) => Some(q),
        None => None,
    }
}

/// A position at the given place.
pub open spec fn at(path: Seq<int>, head: int, debt: int) -> Pos {
    Pos { path, head, debt }
}

/// What passes a prefix of a sibling list holds one element for each
/// sibling, the one that passes it.
pub proof fn lemma_passes_index(lv: Seq<DocNode>, k: int, i: int)
    requires
        0 <= k <= lv.len(),
    ensures
        passes(lv, k).len() == k,
        0 <= i < k ==> passes(lv, k)[i] == pass_of(lv[i]),
    decreases k,
{
    if k > 0 {
        lemma_passes_index(lv, k - 1, i);
    }
}

/// Entering a `WithGroup` extends the path by its index.
pub proof fn lemma_cur_level_push(cur: Seq<CurNode>, path: Seq<int>, i: int)
    requires
        0 <= i < cur_level(cur, path).len(),
    ensures
        cur_level(cur, path.push(i)) == cur_kids(cur_level(cur, path)[i]),
        cur_path_ok(cur, path.push(i)) == (cur_path_ok(cur, path) && cur_level(cur, path)[i]
            is WithGroup),
{
    assert(path.push(i).drop_last() =~= path);
}

/// Inside a wrapped cursor path, at the end of the path wrapped around it,
/// stands the inner path.
pub proof fn lemma_wrapped_level(root: Seq<DocNode>, path: Seq<int>, inner: Seq<CurNode>)
    requires
        path_ok(root, path),
    ensures
        cur_path_ok(wrapped(root, path, inner), path),
        cur_level(wrapped(root, path, inner), path) == inner,
    decreases path.len(),
{
    if path.len() > 0 {
        let up_path = path.drop_last();
        let i = path.last();
        let outer = passes(level(root, up_path), i).push(CurNode::WithGroup(inner));
        lemma_wrapped_level(root, up_path, outer);
        lemma_passes_index(level(root, up_path), i, 0);
        assert(outer[i] == CurNode::WithGroup(inner));
    }
}

/// What stands at depth `j` of a cursor path wrapped around `inner`.
pub open spec fn spine(root: Seq<DocNode>, path: Seq<int>, inner: Seq<CurNode>, j: int) -> Seq<
    CurNode,
>
    decreases path.len() - j,
{
    if j >= path.len() || j < 0 {
        inner
    } else {
        passes(level(root, path.take(j)), path[j]).push(
            CurNode::WithGroup(spine(root, path, inner, j + 1)),
        )
    }
}

/// Wrapping along a whole path is wrapping along a prefix of it around what
/// stands at that depth.
pub proof fn lemma_wrapped_spine(root: Seq<DocNode>, path: Seq<int>, inner: Seq<CurNode>, j: int)
    requires
        0 <= j <= path.len(),
    ensures
        wrapped(root, path, inner) == wrapped(root, path.take(j), spine(root, path, inner, j)),
    decreases path.len() - j,
{
    if j == path.len() {
        assert(path.take(j) =~= path);
    } else {
        lemma_wrapped_spine(root, path, inner, j + 1);
        let longer = path.take(j + 1);
        assert(longer.drop_last() =~= path.take(j));
        assert(longer.last() == path[j]);
    }
}

/// What stands at depth `j` of the cursor path to a position.
pub proof fn lemma_cursor_path_level(root: Seq<DocNode>, p: Pos, j: int)
    requires
        path_ok(root, p.path),
        0 <= j <= p.path.len(),
    ensures
        cur_path_ok(cursor_path_to(root, p), p.path.take(j)),
        cur_level(cursor_path_to(root, p), p.path.take(j)) == spine(
            root,
            p.path,
            last_stretch(level(root, p.path), p.head, p.debt),
            j,
        ),
{
    let inner = last_stretch(level(root, p.path), p.head, p.debt);
    lemma_wrapped_spine(root, p.path, inner, j);
    lemma_path_prefix(root, p.path, j);
    lemma_wrapped_level(root, p.path.take(j), spine(root, p.path, inner, j));
}

/// The search passes a run of text together with a skip. With the document
/// at character `d` of the run at `h` and the cursor path at unit `d` of a
/// skip of `n` units at the same index, where the run has at least `n`
/// characters, the search goes on from the end of the skip.
pub proof fn lemma_scan_run(
    root: Seq<DocNode>,
    cur: Seq<CurNode>,
    path: Seq<int>,
    h: int,
    d: int,
    n: int,
)
    requires
        nodes_ok(root),
        path_ok(root, path),
        0 <= h < level(root, path).len(),
        h < cur_level(cur, path).len(),
        cur_level(cur, path)[h] == CurNode::Skip(n as nat),
        level(root, path)[h] matches DocNode::Chars(s) && 0 <= d < n <= s.len(),
    ensures
        level(root, path)[h] matches DocNode::Chars(s) && found(
            cursor_scan(root, cur, at(path, h, d), at(path, h, d)),
        ) == found(
            cursor_scan(
                root,
                cur,
                if n < s.len() {
                    at(path, h, n)
                } else {
                    at(path, h + 1, 0)
                },
                at(path, h + 1, 0),
            ),
        ),
    decreases n - d,
{
    let p = at(path, h, d);
    assert(valid(root, p));
    assert(head_at(root, p) == Some(level(root, path)[h]));
    assert(crate::stepper::cur_head_at(cur, p) == Some(CurNode::Skip(n as nat)));
    if d + 1 < n {
        lemma_scan_run(root, cur, path, h, d + 1, n);
    }
}

/// The search passes siblings together with the cursor elements that pass
/// them: from before sibling `h` it goes on before sibling `k`, the
/// document and the cursor path at the same place.
pub proof fn lemma_scan_passes(
    root: Seq<DocNode>,
    cur: Seq<CurNode>,
    path: Seq<int>,
    h: int,
    k: int,
)
    requires
        nodes_ok(root),
        path_ok(root, path),
        cur_path_ok(cur, path),
        0 <= h <= k <= level(root, path).len(),
        k <= cur_level(cur, path).len(),
        forall|i: int| h <= i < k ==> cur_level(cur, path)[i] == pass_of(level(root, path)[i]),
    ensures
        found(cursor_scan(root, cur, at(path, h, 0), at(path, h, 0))) == found(
            cursor_scan(root, cur, at(path, k, 0), at(path, k, 0)),
        ),
    decreases total(level(root, path)), k - h,
{
    if h < k {
        let lv = level(root, path);
        let cl = cur_level(cur, path);
        let p = at(path, h, 0);
        lemma_level_ok(root, path);
        assert(node_ok(lv[h]));
        assert(cl[h] == pass_of(lv[h]));
        assert(valid(root, p));
        assert(head_at(root, p) == Some(lv[h]));
        assert(crate::stepper::cur_head_at(cur, p) == Some(cl[h]));
        match lv[h] {
            DocNode::Chars(s) => {
                lemma_scan_run(root, cur, path, h, 0, s.len() as int);
            },
            DocNode::Group(_, c) => {
                let down = path.push(h);
                lemma_level_push(root, path, h);
                lemma_cur_level_push(cur, path, h);
                lemma_prefix_unfold(lv, h);
                lemma_prefix_mono(lv, h + 1, lv.len() as int);
                assert(level(root, down) == c);
                assert(cur_level(cur, down) == passes(c, c.len() as int));
                assert forall|i: int| 0 <= i < c.len() implies cur_level(cur, down)[i] == pass_of(
                    level(root, down)[i],
                ) by {
                    lemma_passes_index(c, c.len() as int, i);
                }
                lemma_passes_index(c, c.len() as int, 0);
                lemma_scan_passes(root, cur, down, 0, c.len() as int);
                let inside = at(down, c.len() as int, 0);
                assert(valid(root, inside));
                assert(head_at(root, inside) is None);
                assert(crate::stepper::cur_head_at(cur, inside) is None);
                assert(down.drop_last() =~= path);
                assert(crate::order::step(root, inside) == at(path, h + 1, 0));
                assert(crate::stepper::cur_exit(inside) == at(path, h + 1, 0));
                assert(crate::order::step(root, p) == at(down, 0, 0));
                assert(crate::stepper::cur_enter(p) == at(down, 0, 0));
            },
        }
        lemma_scan_passes(root, cur, path, h + 1, k);
    }
}

/// The search along the cursor path to `target` goes down the path of
/// `target`: from the start of the document it goes on from the start of
/// the sibling list at depth `j`.
pub proof fn lemma_scan_descends(root: Seq<DocNode>, target: Pos, j: int)
    requires
        nodes_ok(root),
        valid(root, target),
        head_at(root, target) is Some,
        0 <= j <= target.path.len(),
    ensures
        found(cursor_scan(root, cursor_path_to(root, target), start(), start())) == found(
            cursor_scan(
                root,
                cursor_path_to(root, target),
                at(target.path.take(j), 0, 0),
                at(target.path.take(j), 0, 0),
            ),
        ),
    decreases j,
{
    let cur = cursor_path_to(root, target);
    if j == 0 {
        assert(target.path.take(0) =~= Seq::<int>::empty());
    } else {
        lemma_scan_descends(root, target, j - 1);
        let here = target.path.take(j - 1);
        let i = target.path[j - 1];
        let lv = level(root, here);
        let inner = last_stretch(level(root, target.path), target.head, target.debt);
        lemma_path_prefix(root, target.path, j - 1);
        lemma_path_prefix(root, target.path, j);
        assert(target.path.take(j).drop_last() =~= here);
        assert(here.push(i) =~= target.path.take(j));
        lemma_cursor_path_level(root, target, j - 1);
        let cl = cur_level(cur, here);
        assert(cl == passes(lv, i).push(
            CurNode::WithGroup(spine(root, target.path, inner, j)),
        ));
        lemma_passes_index(lv, i, 0);
        assert forall|x: int| 0 <= x < i implies cl[x] == pass_of(lv[x]) by {
            lemma_passes_index(lv, i, x);
        }
        lemma_scan_passes(root, cur, here, 0, i);
        let p = at(here, i, 0);
        assert(valid(root, p));
        assert(head_at(root, p) == Some(lv[i]));
        assert(crate::stepper::cur_head_at(cur, p) == Some(cl[i]));
        assert(crate::order::step(root, p) == at(target.path.take(j), 0, 0));
        assert(crate::stepper::cur_enter(p) == at(target.path.take(j), 0, 0));
    }
}

/// The search along the cursor path that leads to a position of a
/// well-formed document ends at that position.
pub proof fn law_cursor_path_is_found(root: Seq<DocNode>, target: Pos)
    requires
        well_formed(root),
        valid(root, target),
        head_at(root, target) is Some,
    ensures
        cursor_scan(root, cursor_path_to(root, target), start(), start()) matches Some((q, _))
            && q == target,
{
    let cur = cursor_path_to(root, target);
    let path = target.path;
    let lv = level(root, path);
    let inner = last_stretch(lv, target.head, target.debt);
    lemma_scan_descends(root, target, path.len() as int);
    assert(path.take(path.len() as int) =~= path);
    lemma_cursor_path_level(root, target, path.len() as int);
    let cl = cur_level(cur, path);
    assert(cl == inner);
    lemma_passes_index(lv, target.head, 0);
    assert forall|x: int| 0 <= x < target.head implies cl[x] == pass_of(lv[x]) by {
        lemma_passes_index(lv, target.head, x);
    }
    lemma_scan_passes(root, cur, path, 0, target.head);
    if target.debt > 0 {
        let before_run = at(path, target.head, 0);
        assert(cl[target.head] == CurNode::Skip(target.debt as nat));
        lemma_scan_run(root, cur, path, target.head, 0, target.debt);
        let reached = at(path, target.head + 1, 0);
        assert(cl[target.head + 1] == marker(lv[target.head]));
        assert(crate::stepper::cur_head_at(cur, reached) == Some(cl[target.head + 1]));
        assert(at(path, target.head, target.debt) == target);
    } else {
        assert(cl[target.head] == marker(lv[target.head]));
        assert(crate::stepper::cur_head_at(cur, target) == Some(cl[target.head]));
        assert(at(path, target.head, 0) == target);
    }
}

/// `cur` is the cursor path that leads to `t`, a position before an element
/// of the document.
pub open spec fn is_path_to(root: Seq<DocNode>, cur: Seq<CurNode>, t: Pos) -> bool {
    &&& valid(root, t)
    &&& head_at(root, t) is Some
    &&& cur == cursor_path_to(root, t)
}

/// The search along a cursor path from the start of a well-formed document
/// counts the characters and block boundaries that stand before the position
/// found, and ends at the position that the path leads to wherever the path
/// is that of a position.
pub proof fn law_cursor_from_start(root: Seq<DocNode>, cur: Seq<CurNode>)
    requires
        well_formed(root),
    ensures
        cursor_scan(root, cur, start(), start()) matches Some((q, k)) ==> k
            == crate::finds::steps_before(root, crate::order::rank(root, q)),
        forall|t: Pos|
            is_path_to(root, cur, t) ==> (cursor_scan(root, cur, start(), start()) matches Some(
                (q, _),
            ) && q == t),
{
    crate::laws::lemma_start_rank(root);
    crate::laws::law_cursor_count(root, cur, start(), start());
    assert forall|t: Pos| is_path_to(root, cur, t) implies (cursor_scan(
        root,
        cur,
        start(),
        start(),
    ) matches Some((q, _)) && q == t) by {
        law_cursor_path_is_found(root, t);
    }
}

} // verus!
