//! Laws of the walker's searches, proved over the positions of a document.

use vstd::prelude::*;
use crate::doc::{CurNode, DocNode, OpNode};
use crate::order::{
    head_at, is_end, lemma_end_rank, lemma_level_ok, lemma_pos_at, lemma_rank_bound,
    lemma_rank_injective, lemma_reach, lemma_step, lemma_unstep, level, node_ok, nodes_ok, pos_at,
    rank, start, step, total, unstep, valid, Pos,
};
use crate::finds::{
    caret_at, first_caret, first_halt, halt_outcome, halts, inside_first_block, leads_to,
    leaves_block, nearest_char, no_block, no_caret, pass_node, pass_span, pass_units, pass_upto,
    pure_node, pure_span, sole_caret, steps_before, units_before,
};
use crate::scan::{
    block_at, block_scan, caret_scan, char_behind, cursor_scan, emit, frames, hop, kind_at,
    lemma_hop, next_char_scan, retreat, row, snap_scan, HeadKind,
};
use crate::validate::well_formed;
use crate::writer::place_skip;

verus! {

/// Every position from a run's position up to the position after the run
/// stands in that run.
pub proof fn lemma_inside_run(root: Seq<DocNode>, p: Pos, x: Pos)
    requires
        nodes_ok(root),
        valid(root, p),
        head_at(root, p) matches Some(DocNode::Chars(_)),
        valid(root, x),
        rank(root, p) <= rank(root, x) < rank(root, hop(p)),
    ensures
        x.path == p.path,
        x.head == p.head,
    decreases rank(root, x) - rank(root, p),
{
    if rank(root, x) == rank(root, p) {
        lemma_rank_injective(root, x, p);
    } else {
        lemma_rank_bound(root, p);
        assert(x != start()) by {
            if x == start() {
                assert(rank(root, x) == 0) by {
                    assert(crate::order::before(root, x.path) == 0);
                    assert(crate::order::prefix_weight(level(root, x.path), 0) == 0);
                }
            }
        }
        lemma_unstep(root, x);
        let y = unstep(root, x);
        lemma_inside_run(root, p, y);
    }
}

/// The search for the caret finds the first position, in the order of the
/// walk, at which the caret's group stands, and nothing exactly when there
/// is no such position at or after the one it starts from.
pub proof fn law_caret_is_first(root: Seq<DocNode>, p: Pos)
    requires
        nodes_ok(root),
        valid(root, p),
    ensures
        match caret_scan(root, p) {
            Some((q, n)) => first_caret(root, p, q) && n >= 0,
            None => no_caret(root, p),
        },
    decreases total(root) - rank(root, p),
{
    lemma_rank_bound(root, p);
    match kind_at(root, p) {
        HeadKind::Cursor => {},
        HeadKind::Chars => {
            lemma_hop(root, p);
            let next = hop(p);
            law_caret_is_first(root, next);
            assert forall|x: Pos|
                valid(root, x) && rank(root, p) <= rank(root, x) < rank(root, next) implies !caret_at(
                root,
                x,
            ) by {
                lemma_inside_run(root, p, x);
            }
        },
        _ => {
            if is_end(root, p) {
                assert forall|x: Pos|
                    valid(root, x) && rank(root, p) <= rank(root, x) implies !caret_at(root, x) by {
                    lemma_end_rank(root, p);
                    lemma_rank_bound(root, x);
                    lemma_rank_injective(root, x, p);
                }
            } else {
                lemma_step(root, p);
                let next = step(root, p);
                law_caret_is_first(root, next);
                assert forall|x: Pos|
                    valid(root, x) && rank(root, p) == rank(root, x) implies !caret_at(root, x) by {
                    lemma_rank_injective(root, x, p);
                }
            }
        },
    }
}

/// The rank of the start of the document is zero.
pub proof fn lemma_start_rank(root: Seq<DocNode>)
    ensures
        valid(root, start()),
        rank(root, start()) == 0,
{
    assert(crate::order::before(root, start().path) == 0);
    assert(crate::order::prefix_weight(level(root, start().path), 0) == 0);
}

/// In a well-formed document that holds the caret's group at exactly one
/// position, the search from the start of the document ends at that
/// position.
pub proof fn law_single_caret_is_found(root: Seq<DocNode>, caret: Pos)
    requires
        well_formed(root),
        sole_caret(root, caret),
    ensures
        caret_scan(root, start()) matches Some((q, _)) && q == caret,
{
    law_caret_is_first(root, start());
    lemma_start_rank(root);
    lemma_rank_bound(root, caret);
}

/// Inside a run of text no unit begins.
pub proof fn lemma_units_in_run(root: Seq<DocNode>, p: Pos, n: int)
    requires
        nodes_ok(root),
        valid(root, p),
        head_at(root, p) matches Some(DocNode::Chars(_)),
        rank(root, p) < n <= rank(root, hop(p)),
    ensures
        units_before(root, n) == units_before(root, rank(root, p) + 1),
    decreases n,
{
    if n > rank(root, p) + 1 {
        lemma_hop(root, p);
        lemma_units_in_run(root, p, n - 1);
        lemma_pos_at(root, n - 1);
        let x = pos_at(root, n - 1);
        lemma_inside_run(root, p, x);
        if x.debt == p.debt {
            assert(x == p);
        }
        assert(x.debt > 0) by {
            if x.debt <= 0 {
                crate::order::lemma_level_ok(root, p.path);
            }
        }
    }
}

/// The count of the search for the caret is the number of runs of text and
/// block boundaries that begin between the position it starts from, where
/// no character of a run is passed, and the caret.
pub proof fn law_caret_count(root: Seq<DocNode>, p: Pos)
    requires
        nodes_ok(root),
        valid(root, p),
        p.debt == 0,
    ensures
        caret_scan(root, p) matches Some((q, k)) ==> k == units_before(root, rank(root, q))
            - units_before(root, rank(root, p)),
    decreases total(root) - rank(root, p),
{
    lemma_rank_bound(root, p);
    lemma_reach(root, p);
    match kind_at(root, p) {
        HeadKind::Cursor => {},
        HeadKind::Chars => {
            lemma_hop(root, p);
            law_caret_count(root, hop(p));
            lemma_units_in_run(root, p, rank(root, hop(p)));
        },
        _ => {
            if !is_end(root, p) {
                lemma_step(root, p);
                law_caret_count(root, step(root, p));
            }
        },
    }
}

/// The search for the caret from the start of the document finds the first
/// position at which the caret's group stands, counts the runs of text and
/// block boundaries that begin before it, and finds nothing exactly when the
/// caret's group stands nowhere. Where the caret's group stands at exactly
/// one position, that position is found.
pub proof fn law_caret_from_start(root: Seq<DocNode>)
    requires
        nodes_ok(root),
    ensures
        match caret_scan(root, start()) {
            Some((q, k)) => {
                &&& first_caret(root, start(), q)
                &&& k == units_before(root, rank(root, q))
                &&& forall|c: Pos| sole_caret(root, c) ==> c == q
            },
            None => {
                &&& no_caret(root, start())
                &&& forall|c: Pos| !sole_caret(root, c)
            },
        },
{
    lemma_start_rank(root);
    law_caret_is_first(root, start());
    law_caret_count(root, start());
    assert forall|c: Pos| sole_caret(root, c) implies caret_scan(root, start()) matches Some(
        (q, _),
    ) && q == c by {
        lemma_rank_bound(root, c);
    }
}

/// The count of the search along a cursor path is the number of characters
/// and block boundaries that stand between the position it starts from and
/// the position found.
pub proof fn law_cursor_count(root: Seq<DocNode>, cur: Seq<CurNode>, p: Pos, c: Pos)
    requires
        nodes_ok(root),
        valid(root, p),
    ensures
        cursor_scan(root, cur, p, c) matches Some((q, k)) ==> rank(root, p) <= rank(root, q) && k
            == steps_before(root, rank(root, q)) - steps_before(root, rank(root, p)),
    decreases total(root) - rank(root, p),
{
    lemma_rank_bound(root, p);
    lemma_reach(root, p);
    if crate::scan::is_terminal(crate::stepper::cur_head_at(cur, c)) {
    } else if !is_end(root, p) {
        lemma_step(root, p);
        let next = step(root, p);
        match head_at(root, p) {
            Some(DocNode::Chars(_)) => {
                law_cursor_count(root, cur, next, crate::stepper::cur_skip(cur, c));
            },
            Some(DocNode::Group(_, _)) => {
                law_cursor_count(root, cur, next, crate::stepper::cur_enter(c));
            },
            None => {
                law_cursor_count(root, cur, next, crate::stepper::cur_exit(c));
            },
        }
    }
}

/// The move to the next character goes to the first position, in the order
/// of the walk, at which it stops, and there passes a character, counts a
/// block boundary, or does nothing. The position returned is that first
/// position.
pub proof fn law_next_char_is_first(root: Seq<DocNode>, p: Pos) -> (x: Pos)
    requires
        nodes_ok(root),
        valid(root, p),
    ensures
        first_halt(root, p, x),
        next_char_scan(root, p) == halt_outcome(root, x),
    decreases total(root) - rank(root, p),
{
    lemma_rank_bound(root, p);
    if halts(root, p) {
        p
    } else {
        lemma_step(root, p);
        let x = law_next_char_is_first(root, step(root, p));
        assert forall|y: Pos|
            valid(root, y) && rank(root, p) <= rank(root, y) < rank(root, x) implies !halts(
            root,
            y,
        ) by {
            if rank(root, y) == rank(root, p) {
                lemma_rank_injective(root, y, p);
            }
        }
        x
    }
}

/// The move to the next block enters the first block boundary, in the order
/// of the walk, at or after the position it starts from, and finds nothing
/// exactly when there is none.
pub proof fn law_block_is_first(root: Seq<DocNode>, p: Pos)
    requires
        nodes_ok(root),
        valid(root, p),
    ensures
        match block_scan(root, p) {
            Some(q) => inside_first_block(root, p, q),
            None => no_block(root, p),
        },
    decreases total(root) - rank(root, p),
{
    lemma_rank_bound(root, p);
    if block_at(root, p) {
        lemma_step(root, p);
    } else if head_at(root, p) matches Some(DocNode::Chars(_)) {
        lemma_hop(root, p);
        let next = hop(p);
        law_block_is_first(root, next);
        assert forall|y: Pos|
            valid(root, y) && rank(root, p) <= rank(root, y) < rank(root, next) implies !block_at(
            root,
            y,
        ) by {
            lemma_inside_run(root, p, y);
        }
    } else if is_end(root, p) {
        assert forall|y: Pos| valid(root, y) && rank(root, p) <= rank(root, y) implies !block_at(
            root,
            y,
        ) by {
            lemma_end_rank(root, p);
            lemma_rank_bound(root, y);
            lemma_rank_injective(root, y, p);
        }
    } else {
        lemma_step(root, p);
        law_block_is_first(root, step(root, p));
        assert forall|y: Pos|
            valid(root, y) && rank(root, p) == rank(root, y) implies !block_at(root, y) by {
            lemma_rank_injective(root, y, p);
        }
    }
}

/// The search backward for a character finds the nearest one: it passes no
/// position with a character just before it, and it fails only at the
/// start of the document or where it leaves a block.
pub proof fn law_snap_is_nearest(root: Seq<DocNode>, p: Pos)
    requires
        nodes_ok(root),
        valid(root, p),
    ensures
        nearest_char(root, p, snap_scan(root, p)),
    decreases rank(root, p),
{
    lemma_rank_bound(root, p);
    if char_behind(root, p) {
    } else if p.head == 0 && p.path.len() == 0 {
        assert(p.path =~= Seq::<int>::empty());
        assert(p == start());
    } else {
        if p.path.len() == 0 {
            assert(p != start());
        } else {
            assert(p.path != start().path);
        }
        lemma_unstep(root, p);
        let q = unstep(root, p);
        lemma_rank_bound(root, q);
        if p.head == 0 && block_at(root, q) {
            assert forall|y: Pos|
                valid(root, y) && rank(root, q) < rank(root, y) <= rank(root, p) implies !char_behind(
                root,
                y,
            ) by {
                lemma_rank_injective(root, y, p);
            }
        } else {
            law_snap_is_nearest(root, q);
            let s = snap_scan(root, q);
            assert forall|y: Pos|
                valid(root, y) && rank(root, p) == rank(root, y) implies !char_behind(root, y)
                && !leaves_block(root, y) by {
                lemma_rank_injective(root, y, p);
            }
        }
    }
}

/// Moving over the next character and back again restores the position and
/// the counter, wherever a character stands just before the position and
/// one just after it. The move forward passes that character and adds one
/// to the counter; the move back goes back over the same character, finds
/// the character before the old position at once, stops at the old position
/// and takes one from the counter.
pub proof fn law_next_char_then_back_char(root: Seq<DocNode>, p: Pos)
    requires
        well_formed(root),
        valid(root, p),
        kind_at(root, p) is Chars,
        char_behind(root, p),
    ensures
        ({
            let forward = next_char_scan(root, p);
            let back = snap_scan(root, retreat(root, forward.0)->0);
            &&& retreat(root, forward.0) == Some(p)
            &&& back.found
            &&& back.pos == p
            &&& forward.1 + back.delta == 0
        }),
{
    lemma_step(root, p);
}

/// A walker that stands at the start of its document writes nothing, and
/// only such a walker does.
pub proof fn law_writers_at_start(root: Seq<DocNode>, p: Pos)
    requires
        well_formed(root),
        valid(root, p),
    ensures
        (row(root, p) == Seq::<OpNode>::empty() && frames(root, p.path) == Seq::<
            Seq<OpNode>,
        >::empty()) <==> p == start(),
{
    let lv = level(root, p.path);
    if p == start() {
        assert(emit(lv, 0) =~= Seq::<OpNode>::empty());
        assert(frames(root, p.path) =~= Seq::<Seq<OpNode>>::empty());
    } else if p.path.len() > 0 {
        crate::scan::lemma_frames_len(root, p.path);
        assert(frames(root, p.path).len() > 0);
    } else {
        assert(p.path =~= Seq::<int>::empty());
        let written = emit(lv, p.head);
        if p.debt > 0 {
            assert(place_skip(written, p.debt as nat).len() > 0);
        } else {
            assert(p.head > 0);
            lemma_level_ok(root, p.path);
            assert(node_ok(lv[p.head - 1]));
            let earlier = emit(lv, p.head - 1);
            match lv[p.head - 1] {
                DocNode::Chars(s) => {
                    assert(place_skip(earlier, s.len()).len() > 0);
                },
                DocNode::Group(_, _) => {},
            }
            assert(written.len() > 0);
        }
        assert(row(root, p).len() > 0);
    }
}

/// What a span's first elements lead to does not depend on what follows
/// them.
pub proof fn lemma_pass_prefix(lv: Seq<DocNode>, a: Seq<OpNode>, b: Seq<OpNode>, k: int)
    requires
        0 <= k <= a.len(),
        k <= b.len(),
        forall|i: int| 0 <= i < k ==> a[i] == b[i],
    ensures
        pass_upto(lv, a, k) == pass_upto(lv, b, k),
    decreases k,
{
    if k > 0 {
        lemma_pass_prefix(lv, a, b, k - 1);
    }
}

/// A span with one more element leads to where that element leads from the
/// span's own place.
pub proof fn lemma_pass_push(lv: Seq<DocNode>, span: Seq<OpNode>, e: OpNode)
    ensures
        pass_span(lv, span.push(e)) == pass_node(lv, pass_span(lv, span), e),
{
    lemma_pass_prefix(lv, span.push(e), span, span.len() as int);
}

/// Passing units in two parts leads to where passing them at once leads.
pub proof fn lemma_pass_units_add(lv: Seq<DocNode>, h: int, d: int, a: nat, b: nat)
    ensures
        pass_units(lv, h, d, a + b) == (match pass_units(lv, h, d, a) {
            Some((h2, d2)) => pass_units(lv, h2, d2, b),
            None => None,
        }),
    decreases a,
{
    if a > 0 && 0 <= h < lv.len() {
        match lv[h] {
            DocNode::Chars(s) => {
                if d + 1 < s.len() {
                    lemma_pass_units_add(lv, h, d + 1, (a - 1) as nat, b);
                } else {
                    lemma_pass_units_add(lv, h + 1, 0, (a - 1) as nat, b);
                }
            },
            DocNode::Group(_, _) => {
                lemma_pass_units_add(lv, h + 1, 0, (a - 1) as nat, b);
            },
        }
        assert((a + b - 1) as nat == (a - 1) as nat + b);
    }
}

/// Skipping `n` units at the end of a span leads `n` units further.
pub proof fn lemma_pass_place_skip(lv: Seq<DocNode>, span: Seq<OpNode>, n: nat)
    ensures
        pass_span(lv, place_skip(span, n)) == (match pass_span(lv, span) {
            Some((h, d)) => pass_units(lv, h, d, n),
            None => None,
        }),
{
    if n == 0 {
    } else if span.len() > 0 && (span.last() matches OpNode::Skip(m) && m + n <= usize::MAX) {
        let m = span.last()->Skip_0;
        let front = span.drop_last();
        assert(front.push(span.last()) =~= span);
        lemma_pass_push(lv, front, span.last());
        lemma_pass_push(lv, front, OpNode::Skip(m + n));
        match pass_span(lv, front) {
            Some((h, d)) => {
                lemma_pass_units_add(lv, h, d, m, n);
            },
            None => {},
        }
    } else {
        lemma_pass_push(lv, span, OpNode::Skip(n));
    }
}

/// Passing characters of one run stays in the run until its last character
/// is passed.
pub proof fn lemma_pass_run(lv: Seq<DocNode>, h: int, d: int, n: nat)
    requires
        0 <= h < lv.len(),
        0 <= d,
        lv[h] matches DocNode::Chars(s) && d + n <= s.len() && d < s.len(),
    ensures
        lv[h] matches DocNode::Chars(s) && pass_units(lv, h, d, n) == Some(
            if d + n < s.len() {
                (h, d + n)
            } else {
                (h + 1, 0int)
            },
        ),
    decreases n,
{
    if n > 0 {
        let s = lv[h]->Chars_0;
        if d + 1 < s.len() {
            lemma_pass_run(lv, h, d + 1, (n - 1) as nat);
        } else {
            assert(n == 1);
            assert(pass_units(lv, h + 1, 0, 0) == Some((h + 1, 0int)));
        }
    }
}

/// What is written for a prefix of a sibling list changes nothing and leads
/// from the start of the list to the end of the prefix.
pub proof fn lemma_emit_covers(lv: Seq<DocNode>, k: int)
    requires
        nodes_ok(lv),
        0 <= k <= lv.len(),
    ensures
        pure_span(emit(lv, k)),
        pass_span(lv, emit(lv, k)) == Some((k, 0int)),
    decreases lv, k,
{
    if k > 0 {
        lemma_emit_covers(lv, k - 1);
        let earlier = emit(lv, k - 1);
        assert(node_ok(lv[k - 1]));
        match lv[k - 1] {
            DocNode::Chars(s) => {
                assert(emit(lv, k) == place_skip(earlier, s.len()));
                lemma_pass_place_skip(lv, earlier, s.len());
                lemma_pass_run(lv, k - 1, 0, s.len());
                lemma_pure_place(earlier, s.len());
            },
            DocNode::Group(_, c) => {
                lemma_emit_covers(c, c.len() as int);
                let e = OpNode::WithGroup(emit(c, c.len() as int));
                assert(crate::scan::inner_span(lv[k - 1]) == emit(c, c.len() as int));
                assert(emit(lv, k) == earlier.push(e));
                lemma_pass_push(lv, earlier, e);
                assert(pure_node(e));
                let out = earlier.push(e);
                assert forall|i: int| 0 <= i < out.len() implies pure_node(#[trigger] out[i]) by {
                    if i < earlier.len() {
                        assert(out[i] == earlier[i]);
                    }
                }
            },
        }
    }
}

/// Skipping at the end of a span that changes nothing changes nothing.
pub proof fn lemma_pure_place(span: Seq<OpNode>, n: nat)
    requires
        pure_span(span),
    ensures
        pure_span(place_skip(span, n)),
{
    let out = place_skip(span, n);
    assert forall|i: int| 0 <= i < out.len() implies pure_node(#[trigger] out[i]) by {
        if i < span.len() - 1 {
            assert(out[i] == span[i]);
        } else if i < span.len() && out.len() > span.len() {
            assert(out[i] == span[i]);
        }
    }
}

/// Each frame is what is written before the group entered at its depth.
pub proof fn lemma_frames_index(root: Seq<DocNode>, path: Seq<int>, j: int)
    requires
        0 <= j < path.len(),
    ensures
        frames(root, path).len() == path.len(),
        frames(root, path)[j] == emit(level(root, path.take(j)), path[j]),
    decreases path.len(),
{
    crate::scan::lemma_frames_len(root, path);
    crate::scan::lemma_frames_len(root, path.drop_last());
    if j < path.len() - 1 {
        lemma_frames_index(root, path.drop_last(), j);
        assert(path.drop_last().take(j) =~= path.take(j));
    } else {
        assert(path.take(j) =~= path.drop_last());
    }
}

/// What a walker writes changes nothing and passes exactly the content
/// before its position.
pub proof fn law_writers_change_nothing(root: Seq<DocNode>, p: Pos)
    requires
        well_formed(root),
        valid(root, p),
    ensures
        leads_to(root, p, row(root, p), frames(root, p.path)),
{
    let lv = level(root, p.path);
    let stack = frames(root, p.path);
    lemma_level_ok(root, p.path);
    lemma_emit_covers(lv, p.head);
    lemma_pure_place(emit(lv, p.head), p.debt as nat);
    lemma_pass_place_skip(lv, emit(lv, p.head), p.debt as nat);
    if p.debt > 0 {
        lemma_pass_run(lv, p.head, 0, p.debt as nat);
    }
    crate::scan::lemma_frames_len(root, p.path);
    assert forall|j: int| 0 <= j < p.path.len() implies pure_span(#[trigger] stack[j]) && pass_span(
        level(root, p.path.take(j)),
        stack[j],
    ) == Some((p.path[j], 0int)) by {
        lemma_frames_index(root, p.path, j);
        crate::stepper::lemma_path_prefix(root, p.path, j);
        crate::stepper::lemma_path_prefix(root, p.path, j + 1);
        assert(p.path.take(j + 1).drop_last() =~= p.path.take(j));
        lemma_level_ok(root, p.path.take(j));
        lemma_emit_covers(level(root, p.path.take(j)), p.path[j]);
    }
}

} // verus!
