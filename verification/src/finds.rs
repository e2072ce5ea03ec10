//! What the walker's searches find, said of the positions of a document
//! without following a search move by move.
//!
//! The order of positions is that of the walk: a position comes before
//! another when its rank is lower (see the module `order`).

use vstd::prelude::*;
use crate::doc::{DocNode, OpNode};
use crate::order::{is_end, level, pos_at, rank, step, unstep, valid, Pos};
use crate::scan::{block_at, char_behind, kind_at, HeadKind, Snap};

verus! {

/// The caret's group stands at the position.
pub open spec fn caret_at(root: Seq<DocNode>, x: Pos) -> bool {
    kind_at(root, x) is Cursor
}

/// `q` is the first position at or after `p` at which the caret's group
/// stands.
pub open spec fn first_caret(root: Seq<DocNode>, p: Pos, q: Pos) -> bool {
    &&& valid(root, q)
    &&& caret_at(root, q)
    &&& rank(root, p) <= rank(root, q)
    &&& forall|x: Pos|
        valid(root, x) && rank(root, p) <= rank(root, x) < rank(root, q) ==> !caret_at(root, x)
}

/// The caret's group stands at no position at or after `p`.
pub open spec fn no_caret(root: Seq<DocNode>, p: Pos) -> bool {
    forall|x: Pos| valid(root, x) && rank(root, p) <= rank(root, x) ==> !caret_at(root, x)
}

/// The caret's group stands at `c` and at no other position of the
/// document.
pub open spec fn sole_caret(root: Seq<DocNode>, c: Pos) -> bool {
    &&& valid(root, c)
    &&& caret_at(root, c)
    &&& forall|x: Pos| valid(root, x) && caret_at(root, x) ==> x == c
}

/// A run of text begins at the position, or a block boundary stands there:
/// what the search for the caret counts.
pub open spec fn starts_unit(root: Seq<DocNode>, x: Pos) -> bool {
    (kind_at(root, x) is Chars && x.debt == 0) || kind_at(root, x) is Block
}

/// The number of runs of text and block boundaries that begin at the first
/// `n` positions of the walk.
pub open spec fn units_before(root: Seq<DocNode>, n: int) -> int
    decreases n,
{
    if n <= 0 {
        0
    } else {
        units_before(root, n - 1) + if starts_unit(root, pos_at(root, n - 1)) {
            1int
        } else {
            0int
        }
    }
}

/// A character or a block boundary stands at the position: what the search
/// along a cursor path counts.
pub open spec fn holds_step(root: Seq<DocNode>, x: Pos) -> bool {
    kind_at(root, x) is Chars || block_at(root, x)
}

/// The number of characters and block boundaries that stand at the first
/// `n` positions of the walk.
pub open spec fn steps_before(root: Seq<DocNode>, n: int) -> int
    decreases n,
{
    if n <= 0 {
        0
    } else {
        steps_before(root, n - 1) + if holds_step(root, pos_at(root, n - 1)) {
            1int
        } else {
            0int
        }
    }
}

/// The move to the next character stops at the position: at a run of text,
/// at the caret's group, at a block boundary and at the end of the document.
pub open spec fn halts(root: Seq<DocNode>, x: Pos) -> bool {
    kind_at(root, x) is Chars || kind_at(root, x) is Cursor || kind_at(root, x) is Block || is_end(
        root,
        x,
    )
}

/// `x` is the first position at or after `p` at which the move to the next
/// character stops.
pub open spec fn first_halt(root: Seq<DocNode>, p: Pos, x: Pos) -> bool {
    &&& valid(root, x)
    &&& halts(root, x)
    &&& rank(root, p) <= rank(root, x)
    &&& forall|y: Pos|
        valid(root, y) && rank(root, p) <= rank(root, y) < rank(root, x) ==> !halts(root, y)
}

/// Where the move to the next character ends and what it adds to the
/// counter, once it has stopped at `x`: it passes a character, counts a
/// block boundary, or does nothing.
pub open spec fn halt_outcome(root: Seq<DocNode>, x: Pos) -> (Pos, int) {
    match kind_at(root, x) {
        HeadKind::Chars => (step(root, x), 1int),
        HeadKind::Block => (x, 1int),
        _ => (x, 0int),
    }
}

/// `q` is the first position inside the first block boundary at or after
/// `p`.
pub open spec fn inside_first_block(root: Seq<DocNode>, p: Pos, q: Pos) -> bool {
    let x = unstep(root, q);
    &&& valid(root, q)
    &&& valid(root, x)
    &&& block_at(root, x)
    &&& q == step(root, x)
    &&& rank(root, p) <= rank(root, x)
    &&& forall|y: Pos|
        valid(root, y) && rank(root, p) <= rank(root, y) < rank(root, x) ==> !block_at(root, y)
}

/// No block boundary stands at or after `p`.
pub open spec fn no_block(root: Seq<DocNode>, p: Pos) -> bool {
    forall|y: Pos| valid(root, y) && rank(root, p) <= rank(root, y) ==> !block_at(root, y)
}

/// The position is the first inside a block boundary, so that a search
/// backward leaves a block there.
pub open spec fn leaves_block(root: Seq<DocNode>, y: Pos) -> bool {
    y.head == 0 && y.debt == 0 && y.path.len() > 0 && block_at(root, unstep(root, y))
}

/// No position after `q` up to `p` has a character just before it.
pub open spec fn no_char_between(root: Seq<DocNode>, q: Pos, p: Pos) -> bool {
    forall|y: Pos|
        valid(root, y) && rank(root, q) < rank(root, y) <= rank(root, p) ==> !char_behind(root, y)
}

/// No position after `q` up to `p` is the first inside a block boundary.
pub open spec fn no_block_left_between(root: Seq<DocNode>, q: Pos, p: Pos) -> bool {
    forall|y: Pos|
        valid(root, y) && rank(root, q) < rank(root, y) <= rank(root, p) ==> !leaves_block(root, y)
}

/// The outcome `s` is that of the search backward for the character
/// nearest to `p`. The search stops at or before `p` and has passed no
/// position with a character just before it. It has succeeded where it
/// stands behind a character and has left no block on the way; it takes
/// one from the counter. It has failed at the start of the document, with
/// the counter unchanged, or just outside the first block that it left, with
/// one taken from the counter.
pub open spec fn nearest_char(root: Seq<DocNode>, p: Pos, s: Snap) -> bool {
    &&& valid(root, s.pos)
    &&& rank(root, s.pos) <= rank(root, p)
    &&& no_char_between(root, s.pos, p)
    &&& if s.found {
        &&& char_behind(root, s.pos)
        &&& s.delta == -1
        &&& no_block_left_between(root, s.pos, p)
    } else if s.delta == 0 {
        &&& s.pos == crate::order::start()
        &&& no_block_left_between(root, s.pos, p)
    } else {
        &&& s.delta == -1
        &&& rank(root, s.pos) < rank(root, p)
        &&& leaves_block(root, step(root, s.pos))
        &&& no_block_left_between(root, step(root, s.pos), p)
    }
}

/// The element passes over content without changing it.
pub open spec fn pure_node(e: OpNode) -> bool
    decreases e,
{
    match e {
        OpNode::Skip(_) => true,
        OpNode::WithGroup(inner) => pure_span(inner),
        _ => false,
    }
}

/// The span holds only skips and groups that are kept, at every depth.
pub open spec fn pure_span(s: Seq<OpNode>) -> bool
    decreases s,
{
    forall|i: int| 0 <= i < s.len() ==> pure_node(#[trigger] s[i])
}

/// The place in a sibling list after `n` more units are passed from
/// element `h` with `d` characters of it already passed: a unit is a
/// character of a run or a whole group. There is none where the list ends
/// first.
pub open spec fn pass_units(lv: Seq<DocNode>, h: int, d: int, n: nat) -> Option<(int, int)>
    decreases n,
{
    if n == 0 {
        Some((h, d))
    } else if !(0 <= h < lv.len()) {
        None
    } else {
        match lv[h] {
            DocNode::Chars(s) => if d + 1 < s.len() {
                pass_units(lv, h, d + 1, (n - 1) as nat)
            } else {
                pass_units(lv, h + 1, 0, (n - 1) as nat)
            },
            DocNode::Group(_, _) => pass_units(lv, h + 1, 0, (n - 1) as nat),
        }
    }
}

/// The place in a sibling list after one more element of a span that
/// changes nothing is followed. A skip passes its units. A kept group
/// passes a whole group, and its inner span must lead through all of that
/// group's children.
pub open spec fn pass_node(lv: Seq<DocNode>, at: Option<(int, int)>, e: OpNode) -> Option<
    (int, int),
>
    decreases e, 0int,
{
    match at {
        None => None,
        Some((h, d)) => match e {
            OpNode::Skip(n) => pass_units(lv, h, d, n),
            OpNode::WithGroup(inner) => if d == 0 && 0 <= h < lv.len() && (
            lv[h] matches DocNode::Group(_, c) && pass_upto(c, inner, inner.len() as int) == Some(
                (c.len() as int, 0int),
            )) {
                Some((h + 1, 0))
            } else {
                None
            },
            _ => None,
        },
    }
}

/// The place in a sibling list that the first `k` elements of a span lead
/// to from its start.
pub open spec fn pass_upto(lv: Seq<DocNode>, span: Seq<OpNode>, k: int) -> Option<(int, int)>
    decreases span, k,
{
    if k <= 0 || k > span.len() {
        Some((0, 0))
    } else {
        pass_node(lv, pass_upto(lv, span, k - 1), span[k - 1])
    }
}

/// The place in a sibling list that a span leads to from its start: the
/// index of the element reached and the characters passed in it.
pub open spec fn pass_span(lv: Seq<DocNode>, span: Seq<OpNode>) -> Option<(int, int)> {
    pass_upto(lv, span, span.len() as int)
}

/// What is written changes nothing and passes exactly the content before
/// the position `p`: every element is a skip or a kept group; following
/// `past` from the start of the sibling list of `p` leads to `p`; and there
/// is one frame for each group entered, which leads from the start of its
/// sibling list to that group.
pub open spec fn leads_to(
    root: Seq<DocNode>,
    p: Pos,
    past: Seq<OpNode>,
    stack: Seq<Seq<OpNode>>,
) -> bool {
    &&& pure_span(past)
    &&& pass_span(level(root, p.path), past) == Some((p.head, p.debt))
    &&& stack.len() == p.path.len()
    &&& forall|j: int|
        0 <= j < p.path.len() ==> pure_span(#[trigger] stack[j]) && pass_span(
            level(root, p.path.take(j)),
            stack[j],
        ) == Some((p.path[j], 0int))
}

} // verus!
