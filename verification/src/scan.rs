//! What the walker's searches find, stated over positions of a document.
//!
//! Each search follows the order of the walk (see the module `order`) from a
//! position to the first one at which it stops, forward by `step` or backward
//! by `unstep`, and counts on the way what the caret counter counts.

use vstd::prelude::*;
use crate::doc::{CurNode, DocNode, OpNode};
use crate::order::{
    head_at, is_end, kids, lemma_level_bound, lemma_level_ok, lemma_prefix_mono,
    lemma_prefix_unfold, lemma_rank_bound, lemma_step, lemma_unstep, level, node_ok, nodes_ok,
    prefix_weight, rank, start, step, total, unstep, valid, Pos,
};
use crate::schema::{is_block, is_cursor};
use crate::stepper::{cur_enter, cur_exit, cur_head_at, cur_skip};
use crate::writer::place_skip;

verus! {

/// What a forward search sees at a position.
#[derive(Clone, Copy, Debug, PartialEq, Eq)]
pub enum HeadKind {
    /// A run of text.
    Chars,
    /// The group that marks the embedded caret.
    Cursor,
    /// A group that is a block boundary.
    Block,
    /// Any other group.
    Plain,
    /// The end of the sibling list.
    Exhausted,
}

/// What stands at the position.
pub open spec fn kind_at(root: Seq<DocNode>, p: Pos) -> HeadKind {
    match head_at(root, p) {
        None => HeadKind::Exhausted,
        Some(DocNode::Chars(_)) => HeadKind::Chars,
        Some(DocNode::Group(a, _)) => if is_cursor(a) {
            HeadKind::Cursor
        } else if is_block(a) {
            HeadKind::Block
        } else {
            HeadKind::Plain
        },
    }
}

/// Whether a block boundary stands at the position.
pub open spec fn block_at(root: Seq<DocNode>, p: Pos) -> bool {
    head_at(root, p) matches Some(DocNode::Group(a, _)) && is_block(a)
}

/// A found position with `k` added to its count.
pub open spec fn shifted(found: Option<(Pos, int)>, k: int) -> Option<(Pos, int)> {
    match found {
        Some((q, n)) => Some((q, n + k)),
        None => None,
    }
}

/// The position after the element at `p`, whatever it is.
pub open spec fn hop(p: Pos) -> Pos {
    Pos { path: p.path, head: p.head + 1, debt: 0 }
}

/// Passing the rest of a run of text moves forward in the order of the walk.
pub proof fn lemma_hop(root: Seq<DocNode>, p: Pos)
    requires
        nodes_ok(root),
        valid(root, p),
        head_at(root, p) matches Some(DocNode::Chars(_)),
    ensures
        valid(root, hop(p)),
        rank(root, p) < rank(root, hop(p)) <= total(root),
{
    let lv = level(root, p.path);
    lemma_level_ok(root, p.path);
    assert(node_ok(lv[p.head]));
    lemma_prefix_unfold(lv, p.head);
    lemma_rank_bound(root, hop(p));
}

/// The search for the embedded caret from `p`: the first position at or
/// after `p` at which the caret's group stands, entering every other group
/// on the way, and the number of runs of text and block boundaries met
/// before it. Nothing is found where the walk ends first.
pub open spec fn caret_scan(root: Seq<DocNode>, p: Pos) -> Option<(Pos, int)>
    decreases total(root) - rank(root, p),
{
    if !nodes_ok(root) || !valid(root, p) {
        None
    } else {
        match kind_at(root, p) {
            HeadKind::Cursor => Some((p, 0)),
            HeadKind::Chars => {
                proof {
                    lemma_hop(root, p);
                }
                shifted(caret_scan(root, hop(p)), 1)
            },
            HeadKind::Block => {
                proof {
                    lemma_step(root, p);
                }
                shifted(caret_scan(root, step(root, p)), 1)
            },
            HeadKind::Plain => {
                proof {
                    lemma_step(root, p);
                }
                caret_scan(root, step(root, p))
            },
            HeadKind::Exhausted => if is_end(root, p) {
                None
            } else {
                proof {
                    lemma_step(root, p);
                }
                caret_scan(root, step(root, p))
            },
        }
    }
}

/// Whether the cursor element ends a cursor path.
pub open spec fn is_terminal(c: Option<CurNode>) -> bool {
    c matches Some(CurNode::Group) || c matches Some(CurNode::Char)
}

/// The search along a cursor path: the document from `p` and the cursor
/// path from `c` are walked together until the cursor path shows an end
/// marker. A character takes one unit of a `Skip`; a group is entered
/// together with a `WithGroup`; an exhausted group is left together with
/// the `WithGroup` around the cursor position. The count is the number of
/// characters and block boundaries passed. Nothing is found where the two do
/// not fit or the document ends first.
pub open spec fn cursor_scan(root: Seq<DocNode>, cur: Seq<CurNode>, p: Pos, c: Pos) -> Option<
    (Pos, int),
>
    decreases total(root) - rank(root, p),
{
    if !nodes_ok(root) || !valid(root, p) {
        None
    } else if is_terminal(cur_head_at(cur, c)) {
        Some((p, 0))
    } else {
        match head_at(root, p) {
            Some(DocNode::Chars(_)) => if cur_head_at(cur, c) matches Some(CurNode::Skip(_)) {
                proof {
                    lemma_step(root, p);
                }
                shifted(cursor_scan(root, cur, step(root, p), cur_skip(cur, c)), 1)
            } else {
                None
            },
            Some(DocNode::Group(a, _)) => if cur_head_at(cur, c) matches Some(
                CurNode::WithGroup(_),
            ) {
                proof {
                    lemma_step(root, p);
                }
                shifted(
                    cursor_scan(root, cur, step(root, p), cur_enter(c)),
                    if is_block(a) {
                        1
                    } else {
                        0
                    },
                )
            } else {
                None
            },
            None => if is_end(root, p) {
                None
            } else {
                proof {
                    lemma_step(root, p);
                }
                cursor_scan(root, cur, step(root, p), cur_exit(c))
            },
        }
    }
}

/// The move to the next character from `p`: the position reached and what
/// is added to the counter. The search passes one character and stops behind
/// it; it stops before the caret's group, and before a block boundary, which
/// it counts; it enters any other group and leaves exhausted ones; at the
/// end of the document it stays.
pub open spec fn next_char_scan(root: Seq<DocNode>, p: Pos) -> (Pos, int)
    decreases total(root) - rank(root, p),
{
    if !nodes_ok(root) || !valid(root, p) {
        (p, 0)
    } else {
        match kind_at(root, p) {
            HeadKind::Chars => (step(root, p), 1),
            HeadKind::Cursor => (p, 0),
            HeadKind::Block => (p, 1),
            HeadKind::Plain => {
                proof {
                    lemma_step(root, p);
                }
                next_char_scan(root, step(root, p))
            },
            HeadKind::Exhausted => if is_end(root, p) {
                (p, 0)
            } else {
                proof {
                    lemma_step(root, p);
                }
                next_char_scan(root, step(root, p))
            },
        }
    }
}

/// The search for the next block from `p`: the first child position of the
/// first block boundary at or after `p`, where text is passed, other groups
/// are entered and exhausted groups are left.
pub open spec fn block_scan(root: Seq<DocNode>, p: Pos) -> Option<Pos>
    decreases total(root) - rank(root, p),
{
    if !nodes_ok(root) || !valid(root, p) {
        None
    } else {
        match head_at(root, p) {
            Some(DocNode::Chars(_)) => {
                proof {
                    lemma_hop(root, p);
                }
                block_scan(root, hop(p))
            },
            Some(DocNode::Group(a, _)) => if is_block(a) {
                Some(step(root, p))
            } else {
                proof {
                    lemma_step(root, p);
                }
                block_scan(root, step(root, p))
            },
            None => if is_end(root, p) {
                None
            } else {
                proof {
                    lemma_step(root, p);
                }
                block_scan(root, step(root, p))
            },
        }
    }
}

/// Whether a character stands just before the position.
pub open spec fn char_behind(root: Seq<DocNode>, p: Pos) -> bool {
    let lv = level(root, p.path);
    p.debt > 0 || (0 < p.head <= lv.len() && lv[p.head - 1] is Chars)
}

/// The position one sibling unit before `p`: before the character just
/// before `p`, or before the group just before it. There is none at the
/// start of a sibling list.
pub open spec fn retreat(root: Seq<DocNode>, p: Pos) -> Option<Pos> {
    if char_behind(root, p) {
        Some(unstep(root, p))
    } else if p.head > 0 {
        Some(Pos { path: p.path, head: p.head - 1, debt: 0 })
    } else {
        None
    }
}

/// The outcome of a backward search for a character.
pub struct Snap {
    /// Whether a character was found.
    pub found: bool,
    /// Where the search stopped.
    pub pos: Pos,
    /// What is added to the counter.
    pub delta: int,
}

/// The backward search for the nearest character from `p`. With a
/// character just before the position the search stops there and takes one
/// from the counter. A group just before the position is entered from its
/// end. At the start of a group the search leaves it and stands before it:
/// at a block boundary it stops there, takes one from the counter and has
/// found nothing; otherwise it goes on. At the start of the document it has
/// found nothing.
pub open spec fn snap_scan(root: Seq<DocNode>, p: Pos) -> Snap
    decreases rank(root, p),
{
    if !nodes_ok(root) || !valid(root, p) {
        Snap { found: false, pos: p, delta: 0 }
    } else if char_behind(root, p) {
        Snap { found: true, pos: p, delta: -1 }
    } else if p.head == 0 && p.path.len() == 0 {
        Snap { found: false, pos: p, delta: 0 }
    } else {
        let q = unstep(root, p);
        if p.head == 0 && block_at(root, q) {
            Snap { found: false, pos: q, delta: -1 }
        } else {
            proof {
                if p.path.len() == 0 {
                    assert(p != start());
                } else {
                    assert(p.path != start().path);
                }
                lemma_unstep(root, p);
                lemma_rank_bound(root, q);
            }
            snap_scan(root, q)
        }
    }
}

/// What a walk that changes nothing writes for a group: the span of all its
/// children.
pub open spec fn inner_span(n: DocNode) -> Seq<OpNode>
    decreases n, 0int,
{
    match n {
        DocNode::Group(_, c) => emit(c, c.len() as int),
        DocNode::Chars(_) => Seq::empty(),
    }
}

/// What a walk that changes nothing writes for the first `k` elements of a
/// sibling list: a skip of its length for a run of text, merged with a skip
/// before it, and a `WithGroup` for a group.
pub open spec fn emit(lv: Seq<DocNode>, k: int) -> Seq<OpNode>
    decreases lv, k,
{
    if k <= 0 || k > lv.len() {
        Seq::empty()
    } else {
        match lv[k - 1] {
            DocNode::Chars(s) => place_skip(emit(lv, k - 1), s.len()),
            DocNode::Group(_, _) => emit(lv, k - 1).push(OpNode::WithGroup(inner_span(lv[k - 1]))),
        }
    }
}

/// What is written in the innermost open group on the way to `p`.
pub open spec fn row(root: Seq<DocNode>, p: Pos) -> Seq<OpNode> {
    place_skip(emit(level(root, p.path), p.head), p.debt as nat)
}

/// What is written in each enclosing group on the way into `path`, outermost
/// first.
pub open spec fn frames(root: Seq<DocNode>, path: Seq<int>) -> Seq<Seq<OpNode>>
    decreases path.len(),
{
    if path.len() == 0 {
        Seq::empty()
    } else {
        frames(root, path.drop_last()).push(emit(level(root, path.drop_last()), path.last()))
    }
}

/// The count of the skip that ends the span; zero where it does not end
/// in a skip.
pub open spec fn tail_skip(span: Seq<OpNode>) -> nat {
    if span.len() > 0 && span.last() is Skip {
        span.last()->Skip_0
    } else {
        0
    }
}

/// Skipping in two parts writes what skipping the sum at once writes.
pub proof fn lemma_place_skip_add(span: Seq<OpNode>, a: nat, b: nat)
    requires
        tail_skip(span) + a + b <= usize::MAX,
    ensures
        place_skip(place_skip(span, a), b) == place_skip(span, a + b),
        tail_skip(place_skip(span, a)) <= tail_skip(span) + a,
{
    if a == 0 || b == 0 {
    } else if span.len() > 0 && span.last() is Skip {
        let m = span.last()->Skip_0;
        let mid = span.drop_last().push(OpNode::Skip(m + a));
        assert(mid.drop_last() =~= span.drop_last());
    } else {
        let mid = span.push(OpNode::Skip(a));
        assert(mid.drop_last() =~= span);
    }
}

/// The skip that ends what is written for a prefix of a sibling list counts
/// no more than the moves through that prefix.
pub proof fn lemma_tail_bound(lv: Seq<DocNode>, k: int)
    requires
        0 <= k <= lv.len(),
        prefix_weight(lv, k) <= usize::MAX,
    ensures
        tail_skip(emit(lv, k)) <= prefix_weight(lv, k),
    decreases k,
{
    if k > 0 {
        lemma_prefix_unfold(lv, k - 1);
        lemma_tail_bound(lv, k - 1);
        match lv[k - 1] {
            DocNode::Chars(s) => {
                lemma_place_skip_add(emit(lv, k - 1), s.len(), 0);
            },
            DocNode::Group(_, _) => {},
        }
    }
}

/// One frame is written for each group entered.
pub proof fn lemma_frames_len(root: Seq<DocNode>, path: Seq<int>)
    ensures
        frames(root, path).len() == path.len(),
    decreases path.len(),
{
    if path.len() > 0 {
        lemma_frames_len(root, path.drop_last());
    }
}

/// In a document without empty runs, a run at a position has a character
/// left to pass.
pub proof fn lemma_head_run(root: Seq<DocNode>, p: Pos)
    requires
        nodes_ok(root),
        valid(root, p),
        head_at(root, p) matches Some(DocNode::Chars(_)),
    ensures
        head_at(root, p) matches Some(DocNode::Chars(s)) && p.debt + 1 <= s.len(),
{
    let lv = level(root, p.path);
    lemma_level_ok(root, p.path);
    assert(node_ok(lv[p.head]));
}

/// What is written on the way to a position follows the moves of the walk:
/// a passed character adds a skip of one, an entered group opens a frame,
/// and a left group closes one into a `WithGroup`.
pub proof fn lemma_row_step(root: Seq<DocNode>, p: Pos)
    requires
        nodes_ok(root),
        total(root) <= usize::MAX,
        valid(root, p),
        !is_end(root, p),
    ensures
        match head_at(root, p) {
            Some(DocNode::Chars(_)) => {
                &&& row(root, step(root, p)) == place_skip(row(root, p), 1)
                &&& frames(root, step(root, p).path) == frames(root, p.path)
            },
            Some(DocNode::Group(_, _)) => {
                &&& row(root, step(root, p)) == Seq::<OpNode>::empty()
                &&& frames(root, step(root, p).path) == frames(root, p.path).push(row(root, p))
            },
            None => {
                &&& frames(root, p.path).len() > 0
                &&& row(root, step(root, p)) == frames(root, p.path).last().push(
                    OpNode::WithGroup(row(root, p)),
                )
                &&& frames(root, step(root, p).path) == frames(root, p.path).drop_last()
            },
        },
{
    let lv = level(root, p.path);
    let q = step(root, p);
    lemma_rank_bound(root, p);
    lemma_step(root, p);
    match head_at(root, p) {
        Some(DocNode::Chars(s)) => {
            lemma_head_run(root, p);
            lemma_prefix_unfold(lv, p.head);
            lemma_level_bound(root, p.path);
            lemma_prefix_mono(lv, p.head + 1, lv.len() as int);
            lemma_tail_bound(lv, p.head);
            lemma_place_skip_add(emit(lv, p.head), p.debt as nat, 1);
            if p.debt + 1 < s.len() {
            } else {
                assert(emit(lv, p.head + 1) == place_skip(emit(lv, p.head), s.len()));
            }
        },
        Some(DocNode::Group(_, c)) => {
            assert(q.path.drop_last() =~= p.path);
            assert(level(root, q.path) == c);
            assert(emit(c, 0) =~= Seq::<OpNode>::empty());
        },
        None => {
            lemma_frames_len(root, p.path);
            let up_path = p.path.drop_last();
            let up = level(root, up_path);
            let i = p.path.last();
            assert(lv == kids(up[i]));
            assert(inner_span(up[i]) == emit(lv, lv.len() as int));
            assert(emit(up, i + 1) == emit(up, i).push(OpNode::WithGroup(inner_span(up[i]))));
            assert(frames(root, p.path).drop_last() =~= frames(root, up_path));
        },
    }
}

} // verus!
