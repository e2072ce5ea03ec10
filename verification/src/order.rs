//! Positions in a document and the order in which a walk visits them.
//!
//! A position is a path of group indices from the root, an index into the
//! sibling list reached that way, and the number of characters already passed
//! in the run at that index. A forward walk moves one unit at a time: over one
//! character, into a group, or out of an exhausted group. `rank` counts the
//! moves from the start of the document to a position, which orders all
//! positions of a document in a line.

use vstd::prelude::*;
use crate::doc::DocNode;

verus! {

/// A position in a document.
pub struct Pos {
    /// The indices of the groups entered, outermost first.
    pub path: Seq<int>,
    /// The index of the current element among its siblings.
    pub head: int,
    /// The characters already passed in the run at `head`.
    pub debt: int,
}

/// The children of a node; a run of text has none.
pub open spec fn kids(n: DocNode) -> Seq<DocNode> {
    match n {
        DocNode::Group(_, c) => c,
        DocNode::Chars(_) => Seq::empty(),
    }
}

/// The sibling list that `path` leads to.
pub open spec fn level(root: Seq<DocNode>, path: Seq<int>) -> Seq<DocNode>
    decreases path.len(),
{
    if path.len() == 0 {
        root
    } else {
        let up = level(root, path.drop_last());
        if 0 <= path.last() < up.len() {
            kids(up[path.last()])
        } else {
            Seq::empty()
        }
    }
}

/// Every index of `path` names a group.
pub open spec fn path_ok(root: Seq<DocNode>, path: Seq<int>) -> bool
    decreases path.len(),
{
    path.len() == 0 || {
        let up = level(root, path.drop_last());
        &&& path_ok(root, path.drop_last())
        &&& 0 <= path.last() < up.len()
        &&& up[path.last()] is Group
    }
}

/// The position names a place of the document: the path leads through
/// groups, the index is within the sibling list or just past its end, and
/// characters are only passed inside a run, never all of them.
pub open spec fn valid(root: Seq<DocNode>, p: Pos) -> bool {
    let lv = level(root, p.path);
    &&& path_ok(root, p.path)
    &&& 0 <= p.head <= lv.len()
    &&& 0 <= p.debt
    &&& p.debt > 0 ==> p.head < lv.len() && (lv[p.head] matches DocNode::Chars(s) && p.debt
        < s.len())
}

/// The element at the position, if the sibling list is not exhausted.
pub open spec fn head_at(root: Seq<DocNode>, p: Pos) -> Option<DocNode> {
    let lv = level(root, p.path);
    if 0 <= p.head < lv.len() {
        Some(lv[p.head])
    } else {
        None
    }
}

/// The position before the first element of the document.
pub open spec fn start() -> Pos {
    Pos { path: Seq::empty(), head: 0, debt: 0 }
}

/// The position past the last element of the document.
pub open spec fn end(root: Seq<DocNode>) -> Pos {
    Pos { path: Seq::empty(), head: root.len() as int, debt: 0 }
}

/// Whether the position is past the last element at the top of the document.
pub open spec fn is_end(root: Seq<DocNode>, p: Pos) -> bool {
    p.path.len() == 0 && p.head == root.len()
}

/// No run of text is empty.
pub open spec fn node_ok(n: DocNode) -> bool
    decreases n,
{
    match n {
        DocNode::Chars(s) => s.len() > 0,
        DocNode::Group(_, c) => nodes_ok(c),
    }
}

/// No run of text in the list, at any depth, is empty.
pub open spec fn nodes_ok(s: Seq<DocNode>) -> bool
    decreases s,
{
    forall|i: int| 0 <= i < s.len() ==> node_ok(#[trigger] s[i])
}

/// The number of moves that a walk spends on a node: one for each character
/// of a run, and for a group one to enter, one to leave, and those of its
/// children.
pub open spec fn weight(n: DocNode) -> nat
    decreases n, 0int,
{
    match n {
        DocNode::Chars(s) => s.len(),
        DocNode::Group(_, c) => 2 + prefix_weight(c, c.len() as int),
    }
}

/// The moves spent on the first `k` elements of a sibling list.
pub open spec fn prefix_weight(s: Seq<DocNode>, k: int) -> nat
    decreases s, k,
{
    if k <= 0 || k > s.len() {
        0
    } else {
        prefix_weight(s, k - 1) + weight(s[k - 1])
    }
}

/// The moves of a walk through the whole document.
pub open spec fn total(root: Seq<DocNode>) -> nat {
    prefix_weight(root, root.len() as int)
}

/// The moves from the start of the document to the first position of the
/// sibling list that `path` leads to.
pub open spec fn before(root: Seq<DocNode>, path: Seq<int>) -> nat
    decreases path.len(),
{
    if path.len() == 0 {
        0
    } else {
        before(root, path.drop_last()) + prefix_weight(
            level(root, path.drop_last()),
            path.last(),
        ) + 1
    }
}

/// The moves from the start of the document to the position.
pub open spec fn rank(root: Seq<DocNode>, p: Pos) -> int {
    before(root, p.path) + prefix_weight(level(root, p.path), p.head) + p.debt
}

/// One move forward: over a character, into a group, or out of an exhausted
/// group. At the end of the document nothing moves.
pub open spec fn step(root: Seq<DocNode>, p: Pos) -> Pos {
    let lv = level(root, p.path);
    if 0 <= p.head < lv.len() {
        match lv[p.head] {
            DocNode::Chars(s) => if p.debt + 1 < s.len() {
                Pos { path: p.path, head: p.head, debt: p.debt + 1 }
            } else {
                Pos { path: p.path, head: p.head + 1, debt: 0 }
            },
            DocNode::Group(_, _) => Pos { path: p.path.push(p.head), head: 0, debt: 0 },
        }
    } else if p.path.len() > 0 {
        Pos { path: p.path.drop_last(), head: p.path.last() + 1, debt: 0 }
    } else {
        p
    }
}

/// One move backward: over the character before the position, into the group
/// before it from that group's end, or out of a group through its start. At
/// the start of the document nothing moves.
pub open spec fn unstep(root: Seq<DocNode>, p: Pos) -> Pos {
    let lv = level(root, p.path);
    if p.debt > 0 {
        Pos { path: p.path, head: p.head, debt: p.debt - 1 }
    } else if 0 < p.head <= lv.len() {
        match lv[p.head - 1] {
            DocNode::Chars(s) => Pos { path: p.path, head: p.head - 1, debt: s.len() - 1 },
            DocNode::Group(_, c) => Pos {
                path: p.path.push(p.head - 1),
                head: c.len() as int,
                debt: 0,
            },
        }
    } else if p.path.len() > 0 {
        Pos { path: p.path.drop_last(), head: p.path.last(), debt: 0 }
    } else {
        p
    }
}

/// The position after the group that encloses `p`.
pub open spec fn leave(p: Pos) -> Pos {
    Pos { path: p.path.drop_last(), head: p.path.last() + 1, debt: 0 }
}

/// The position that `n` moves forward from the start reach.
pub open spec fn pos_at(root: Seq<DocNode>, n: int) -> Pos
    decreases n,
{
    if n <= 0 {
        start()
    } else {
        step(root, pos_at(root, n - 1))
    }
}

/// A longer prefix of a sibling list takes at least as many moves.
pub proof fn lemma_prefix_mono(s: Seq<DocNode>, a: int, b: int)
    requires
        0 <= a <= b <= s.len(),
    ensures
        prefix_weight(s, a) <= prefix_weight(s, b),
    decreases b - a,
{
    if a < b {
        lemma_prefix_mono(s, a, b - 1);
    }
}

/// The sibling lists of a document without empty runs have no empty runs.
pub proof fn lemma_level_ok(root: Seq<DocNode>, path: Seq<int>)
    requires
        nodes_ok(root),
        path_ok(root, path),
    ensures
        nodes_ok(level(root, path)),
    decreases path.len(),
{
    if path.len() > 0 {
        lemma_level_ok(root, path.drop_last());
        let up = level(root, path.drop_last());
        assert(node_ok(up[path.last()]));
    }
}

/// Entering a group extends the path by its index.
pub proof fn lemma_level_push(root: Seq<DocNode>, path: Seq<int>, i: int)
    requires
        0 <= i < level(root, path).len(),
    ensures
        level(root, path.push(i)) == kids(level(root, path)[i]),
        path_ok(root, path.push(i)) == (path_ok(root, path) && level(root, path)[i] is Group),
        before(root, path.push(i)) == before(root, path) + prefix_weight(level(root, path), i) + 1,
{
    assert(path.push(i).drop_last() =~= path);
}

/// Unfolds the moves spent on a prefix that ends in a given element.
pub proof fn lemma_prefix_unfold(s: Seq<DocNode>, k: int)
    requires
        0 <= k < s.len(),
    ensures
        prefix_weight(s, k + 1) == prefix_weight(s, k) + weight(s[k]),
        s[k] matches DocNode::Chars(t) ==> weight(s[k]) == t.len(),
        s[k] matches DocNode::Group(_, c) ==> weight(s[k]) == 2 + total(c),
{
}

/// A sibling list and what precedes it fit into the document.
pub proof fn lemma_level_bound(root: Seq<DocNode>, path: Seq<int>)
    requires
        path_ok(root, path),
    ensures
        before(root, path) + total(level(root, path)) + (if path.len() > 0 {
            1int
        } else {
            0int
        }) <= total(root),
    decreases path.len(),
{
    if path.len() > 0 {
        let up_path = path.drop_last();
        let up = level(root, up_path);
        let i = path.last();
        lemma_level_bound(root, up_path);
        lemma_prefix_mono(up, i + 1, up.len() as int);
        lemma_prefix_unfold(up, i);
        assert(level(root, path) == kids(up[i]));
        assert(before(root, path) == before(root, up_path) + prefix_weight(up, i) + 1);
    }
}

/// No position ranks beyond the end of the document.
pub proof fn lemma_rank_bound(root: Seq<DocNode>, p: Pos)
    requires
        valid(root, p),
    ensures
        0 <= rank(root, p) <= total(root),
{
    let lv = level(root, p.path);
    lemma_level_bound(root, p.path);
    if p.debt > 0 {
        lemma_prefix_unfold(lv, p.head);
        lemma_prefix_mono(lv, p.head + 1, lv.len() as int);
    } else {
        lemma_prefix_mono(lv, p.head, lv.len() as int);
    }
}

/// A move forward from any position but the end reaches the position of the
/// next rank, and a move backward from there returns.
pub proof fn lemma_step(root: Seq<DocNode>, p: Pos)
    requires
        nodes_ok(root),
        valid(root, p),
        !is_end(root, p),
    ensures
        valid(root, step(root, p)),
        rank(root, step(root, p)) == rank(root, p) + 1,
        unstep(root, step(root, p)) == p,
        rank(root, p) < total(root),
{
    let lv = level(root, p.path);
    let q = step(root, p);
    lemma_level_ok(root, p.path);
    if 0 <= p.head < lv.len() {
        assert(node_ok(lv[p.head]));
        lemma_prefix_unfold(lv, p.head);
        match lv[p.head] {
            DocNode::Chars(s) => {},
            DocNode::Group(_, c) => {
                lemma_level_push(root, p.path, p.head);
                assert(q.path.drop_last() =~= p.path);
                assert(prefix_weight(c, 0) == 0);
                assert(unstep(root, q) == p);
            },
        }
    } else {
        let up_path = p.path.drop_last();
        let up = level(root, up_path);
        let i = p.path.last();
        assert(up_path.push(i) =~= p.path);
        lemma_prefix_unfold(up, i);
        assert(level(root, p.path) == kids(up[i]));
        assert(before(root, p.path) == before(root, up_path) + prefix_weight(up, i) + 1);
        assert(unstep(root, q) == p);
    }
    lemma_rank_bound(root, q);
}

/// A move backward from any position but the start reaches the position of
/// the rank before, and a move forward from there returns.
pub proof fn lemma_unstep(root: Seq<DocNode>, p: Pos)
    requires
        nodes_ok(root),
        valid(root, p),
        p != start(),
    ensures
        valid(root, unstep(root, p)),
        rank(root, unstep(root, p)) == rank(root, p) - 1,
        step(root, unstep(root, p)) == p,
        !is_end(root, unstep(root, p)),
{
    let lv = level(root, p.path);
    let q = unstep(root, p);
    lemma_level_ok(root, p.path);
    if p.debt > 0 {
    } else if 0 < p.head {
        assert(node_ok(lv[p.head - 1]));
        lemma_prefix_unfold(lv, p.head - 1);
        match lv[p.head - 1] {
            DocNode::Chars(s) => {},
            DocNode::Group(_, c) => {
                lemma_level_push(root, p.path, p.head - 1);
                assert(q.path.drop_last() =~= p.path);
                assert(step(root, q) == p);
            },
        }
    } else if p.path.len() > 0 {
        let up_path = p.path.drop_last();
        let up = level(root, up_path);
        let i = p.path.last();
        assert(up_path.push(i) =~= p.path);
        assert(before(root, p.path) == before(root, up_path) + prefix_weight(up, i) + 1);
        assert(prefix_weight(lv, 0) == 0);
        assert(step(root, q) == p);
    } else {
        assert(p.path =~= Seq::<int>::empty());
        assert(false);
    }
}

/// The end of the document has the highest rank.
pub proof fn lemma_end_rank(root: Seq<DocNode>, p: Pos)
    requires
        valid(root, p),
        is_end(root, p),
    ensures
        rank(root, p) == total(root),
        p == end(root),
{
    assert(p.path =~= Seq::<int>::empty());
}

/// The walk from the start reaches every position after as many moves as its
/// rank.
pub proof fn lemma_reach(root: Seq<DocNode>, p: Pos)
    requires
        nodes_ok(root),
        valid(root, p),
    ensures
        pos_at(root, rank(root, p)) == p,
    decreases rank(root, p),
{
    lemma_rank_bound(root, p);
    if p == start() {
    } else {
        lemma_unstep(root, p);
        let q = unstep(root, p);
        lemma_rank_bound(root, q);
        lemma_reach(root, q);
    }
}

/// As many moves as the document takes, or fewer, reach a position of that
/// rank.
pub proof fn lemma_pos_at(root: Seq<DocNode>, n: int)
    requires
        nodes_ok(root),
        0 <= n <= total(root),
    ensures
        valid(root, pos_at(root, n)),
        rank(root, pos_at(root, n)) == n,
    decreases n,
{
    if n > 0 {
        lemma_pos_at(root, n - 1);
        lemma_step(root, pos_at(root, n - 1));
    }
}

/// Two positions of the same rank are the same position.
pub proof fn lemma_rank_injective(root: Seq<DocNode>, p: Pos, q: Pos)
    requires
        nodes_ok(root),
        valid(root, p),
        valid(root, q),
        rank(root, p) == rank(root, q),
    ensures
        p == q,
{
    lemma_reach(root, p);
    lemma_reach(root, q);
}

} // verus!
