//! The walker: locates the caret or a remote cursor in a document, moves it
//! by characters and blocks, and writes the operation that leads to it.

use vstd::prelude::*;
use crate::doc::{cur_nodes, CurElement, CurSpan, Doc, DocElement, DocNode};
use crate::cursor_path::{is_path_to, law_cursor_from_start};
use crate::finds::{
    first_caret, first_halt, halt_outcome, inside_first_block, leads_to, nearest_char, no_block,
    no_caret, sole_caret, steps_before, units_before,
};
use crate::laws::{
    law_block_is_first, law_caret_from_start, law_next_char_is_first, law_snap_is_nearest,
    law_writers_at_start, law_writers_change_nothing,
};
use crate::order::{
    end, is_end, leave, lemma_end_rank, lemma_rank_bound, lemma_rank_injective, lemma_step,
    lemma_unstep, rank, start, total, Pos,
};
use crate::scan::{
    block_at, block_scan, caret_scan, char_behind, cursor_scan, frames, kind_at,
    lemma_frames_len, lemma_head_run, lemma_hop, lemma_row_step, next_char_scan, retreat, row,
    shifted, snap_scan, HeadKind,
};
use crate::schema::{has_block_tag, has_cursor_tag};
use crate::stepper::{CurStepper, DocStepper};
use crate::validate::{measure, well_formed, WalkerError};
use crate::writer::{AddWriter, DelWriter};

verus! {

/// What stands just before a position among its siblings.
enum BehindKind {
    Chars,
    Group,
    Nothing,
}

/// What a cursor stepper shows.
enum CurKind {
    Terminal,
    Skip,
    WithGroup,
    Exhausted,
}

/// What stands at the stepper's position, and whether it is a block
/// boundary.
fn look(doc: &DocStepper) -> (seen: (HeadKind, bool))
    requires
        doc.wf(),
    ensures
        seen.0 == kind_at(doc.root(), doc.pos()),
        seen.1 == block_at(doc.root(), doc.pos()),
{
    match doc.head() {
        None => (HeadKind::Exhausted, false),
        Some(DocElement::DocChars(_)) => (HeadKind::Chars, false),
        Some(DocElement::DocGroup(attrs, _)) => {
            let block = has_block_tag(attrs);
            if has_cursor_tag(attrs) {
                (HeadKind::Cursor, block)
            } else if block {
                (HeadKind::Block, block)
            } else {
                (HeadKind::Plain, block)
            }
        },
    }
}

/// What stands just before the stepper's position.
fn look_behind(doc: &DocStepper) -> (seen: BehindKind)
    requires
        doc.wf(),
    ensures
        (seen is Chars) == char_behind(doc.root(), doc.pos()),
        (seen is Nothing) == (!char_behind(doc.root(), doc.pos()) && doc.pos().head == 0),
{
    if doc.char_debt() > 0 {
        return BehindKind::Chars;
    }
    match doc.behind() {
        None => BehindKind::Nothing,
        Some(DocElement::DocChars(_)) => BehindKind::Chars,
        Some(DocElement::DocGroup(_, _)) => BehindKind::Group,
    }
}

/// What the cursor stepper shows at its position.
fn look_cur(cur: &CurStepper) -> (seen: CurKind)
    requires
        cur.wf(),
    ensures
        match crate::stepper::cur_head_at(cur.root(), cur.pos()) {
            None => seen is Exhausted,
            Some(crate::doc::CurNode::Skip(_)) => seen is Skip,
            Some(crate::doc::CurNode::WithGroup(_)) => seen is WithGroup,
            Some(_) => seen is Terminal,
        },
{
    match cur.head() {
        None => CurKind::Exhausted,
        Some(CurElement::CurSkip(_)) => CurKind::Skip,
        Some(CurElement::CurWithGroup(_)) => CurKind::WithGroup,
        Some(_) => CurKind::Terminal,
    }
}

/// A position in a document together with a counter of the characters and
/// blocks before it. The walker holds a copy of the document it was made
/// for; its stepper moves through another copy.
#[derive(Debug)]
pub struct Walker {
    original_doc: Doc,
    pub doc: DocStepper,
    caret_pos: isize,
}

impl Walker {
    /// The document that the walker was made for.
    pub closed spec fn original(&self) -> Seq<DocNode> {
        self.original_doc@
    }

    /// The value of the caret counter.
    pub closed spec fn counter(&self) -> int {
        self.caret_pos as int
    }

    /// The stepper that holds the walker's position.
    pub closed spec fn stepper(&self) -> DocStepper {
        self.doc
    }

    /// The walker's position in the document.
    pub open spec fn place(&self) -> Pos {
        self.stepper().pos()
    }

    /// The document is well formed and the stepper stands at one of its
    /// places.
    pub open spec fn wf(&self) -> bool {
        &&& well_formed(self.original())
        &&& self.stepper().wf()
        &&& self.stepper().root() == self.original()
    }

    /// The value of the caret counter.
    pub fn caret_pos(&self) -> (n: isize)
        ensures
            n == self.counter(),
    {
        self.caret_pos
    }

    /// The stepper that holds the walker's position.
    pub fn doc(&self) -> (stepper: &DocStepper)
        ensures
            *stepper == self.stepper(),
    {
        &self.doc
    }

    /// The document that the walker was made for.
    pub fn original_doc(&self) -> (doc: &Doc)
        ensures
            doc@ == self.original(),
    {
        &self.original_doc
    }

    /// Locates the embedded caret: the first group tagged `cursor` that a
    /// walk from the start of the document meets, entering every other
    /// group. The counter is one less than the number of runs of text and
    /// block boundaries that begin before the caret. A document that is not
    /// well formed is refused; in a well-formed one the caret is not found
    /// exactly when no group tagged `cursor` stands anywhere. A caret that
    /// stands at exactly one position is found there.
    #[verifier::loop_isolation(false)]
    pub fn to_caret(doc: &Doc) -> (r: Result<Walker, WalkerError>)
        ensures
            match r {
                Ok(w) => {
                    &&& w.wf()
                    &&& w.original() == doc@
                    &&& first_caret(doc@, start(), w.place())
                    &&& w.counter() + 1 == units_before(doc@, rank(doc@, w.place()))
                    &&& caret_scan(doc@, start()) == Some((w.place(), w.counter() + 1))
                },
                Err(WalkerError::Malformed) => !well_formed(doc@),
                Err(WalkerError::NotFound) => {
                    &&& well_formed(doc@)
                    &&& no_caret(doc@, start())
                    &&& caret_scan(doc@, start()) is None
                },
            },
            forall|c: Pos|
                well_formed(doc@) && sole_caret(doc@, c) ==> (r matches Ok(w) && w.place() == c),
    {
        if measure(&doc.0).is_none() {
            return Err(WalkerError::Malformed);
        }
        proof {
            law_caret_from_start(doc@);
        }
        let mut walker = Walker {
            original_doc: doc.clone(),
            doc: DocStepper::new(&doc.0),
            caret_pos: -1,
        };
        let ghost root = doc@;
        proof {
            lemma_rank_bound(root, start());
        }
        loop
            invariant
                root == doc@,
                walker.wf(),
                walker.original() == root,
                0 <= walker.counter() + 1 <= rank(root, walker.doc.pos()),
                caret_scan(root, start()) == shifted(
                    caret_scan(root, walker.doc.pos()),
                    walker.counter() + 1,
                ),
            decreases total(root) - rank(root, walker.doc.pos()),
        {
            let ghost p = walker.doc.pos();
            let (kind, _) = look(&walker.doc);
            proof {
                lemma_rank_bound(root, p);
                if !is_end(root, p) {
                    lemma_step(root, p);
                }
            }
            match kind {
                HeadKind::Cursor => {
                    return Ok(walker);
                },
                HeadKind::Chars => {
                    proof {
                        lemma_hop(root, p);
                    }
                    walker.caret_pos = walker.caret_pos + 1;
                    walker.doc.next();
                },
                HeadKind::Block => {
                    walker.caret_pos = walker.caret_pos + 1;
                    walker.doc.enter();
                },
                HeadKind::Plain => {
                    walker.doc.enter();
                },
                HeadKind::Exhausted => {
                    if walker.doc.is_done() {
                        return Err(WalkerError::NotFound);
                    }
                    walker.doc.exit();
                },
            }
        }
    }

    /// Locates the position that a cursor path leads to: the document and
    /// the path are walked together until the path shows an end marker. The
    /// counter is one less than the number of characters and block
    /// boundaries that stand before the position found. A document that is
    /// not well formed is refused; in a well-formed one nothing is found
    /// where the path does not fit the document or the document ends before
    /// the path shows an end marker. The cursor path of a position leads to
    /// that position.
    #[verifier::loop_isolation(false)]
    pub fn to_cursor(doc: &Doc, cur: &CurSpan) -> (r: Result<Walker, WalkerError>)
        ensures
            match r {
                Ok(w) => {
                    &&& w.wf()
                    &&& w.original() == doc@
                    &&& cursor_scan(doc@, cur_nodes(cur@), start(), start()) == Some(
                        (w.place(), w.counter() + 1),
                    )
                    &&& w.counter() + 1 == steps_before(doc@, rank(doc@, w.place()))
                },
                Err(WalkerError::Malformed) => !well_formed(doc@),
                Err(WalkerError::NotFound) => well_formed(doc@) && cursor_scan(
                    doc@,
                    cur_nodes(cur@),
                    start(),
                    start(),
                ) is None,
            },
            forall|t: Pos|
                well_formed(doc@) && is_path_to(doc@, cur_nodes(cur@), t) ==> (r matches Ok(w)
                    && w.place() == t),
    {
        if measure(&doc.0).is_none() {
            return Err(WalkerError::Malformed);
        }
        proof {
            law_cursor_from_start(doc@, cur_nodes(cur@));
        }
        let mut walker = Walker {
            original_doc: doc.clone(),
            doc: DocStepper::new(&doc.0),
            caret_pos: -1,
        };
        let mut match_cur = CurStepper::new(cur);
        let ghost root = doc@;
        let ghost path = cur_nodes(cur@);
        proof {
            lemma_rank_bound(root, start());
        }
        loop
            invariant
                root == doc@,
                path == cur_nodes(cur@),
                walker.wf(),
                walker.original() == root,
                match_cur.wf(),
                match_cur.root() == path,
                match_cur.pos().path.len() == walker.doc.pos().path.len(),
                0 <= walker.counter() + 1 <= rank(root, walker.doc.pos()),
                cursor_scan(root, path, start(), start()) == shifted(
                    cursor_scan(root, path, walker.doc.pos(), match_cur.pos()),
                    walker.counter() + 1,
                ),
            decreases total(root) - rank(root, walker.doc.pos()),
        {
            let ghost p = walker.doc.pos();
            let shown = look_cur(&match_cur);
            if let CurKind::Terminal = shown {
                return Ok(walker);
            }
            let (kind, block) = look(&walker.doc);
            proof {
                lemma_rank_bound(root, p);
                if !is_end(root, p) {
                    lemma_step(root, p);
                }
            }
            match kind {
                HeadKind::Chars => {
                    if let CurKind::Skip = shown {
                        proof {
                            lemma_head_run(root, p);
                        }
                        walker.caret_pos = walker.caret_pos + 1;
                        walker.doc.skip(1);
                        match_cur.skip();
                    } else {
                        return Err(WalkerError::NotFound);
                    }
                },
                HeadKind::Exhausted => {
                    if walker.doc.is_done() {
                        return Err(WalkerError::NotFound);
                    }
                    walker.doc.exit();
                    match_cur.exit();
                },
                _ => {
                    if let CurKind::WithGroup = shown {
                        if block {
                            walker.caret_pos = walker.caret_pos + 1;
                        }
                        walker.doc.enter();
                        match_cur.enter();
                    } else {
                        return Err(WalkerError::NotFound);
                    }
                },
            }
        }
    }

    /// Moves to the next block: leaves the current group, then walks on to
    /// the first block boundary and enters it. The counter is left alone.
    /// At the top of the document there is no group to leave: nothing moves.
    /// Where no block follows, the stepper is left at the end of the
    /// document.
    #[verifier::loop_isolation(false)]
    pub fn back_block(&mut self) -> (r: Result<(), WalkerError>)
        requires
            old(self).wf(),
        ensures
            final(self).wf(),
            final(self).original() == old(self).original(),
            final(self).counter() == old(self).counter(),
            r is Err ==> r == Err::<(), WalkerError>(WalkerError::NotFound),
            old(self).place().path.len() == 0 ==> r is Err && final(self).place() == old(self).place(),
            old(self).place().path.len() > 0 ==> match block_scan(
                old(self).original(),
                leave(old(self).place()),
            ) {
                Some(q) => r is Ok && final(self).place() == q,
                None => r is Err && final(self).place() == end(old(self).original()),
            },
            old(self).place().path.len() > 0 ==> if r is Ok {
                inside_first_block(
                    old(self).original(),
                    leave(old(self).place()),
                    final(self).place(),
                )
            } else {
                no_block(old(self).original(), leave(old(self).place()))
            },
    {
        if self.doc.depth() == 0 {
            return Err(WalkerError::NotFound);
        }
        let ghost root = self.original();
        let ghost from = leave(self.doc.pos());
        self.doc.exit();
        proof {
            law_block_is_first(root, from);
        }
        loop
            invariant
                root == old(self).original(),
                old(self).place().path.len() > 0,
                from == leave(old(self).place()),
                self.wf(),
                self.original() == root,
                self.counter() == old(self).counter(),
                block_scan(root, from) == block_scan(root, self.doc.pos()),
            decreases total(root) - rank(root, self.doc.pos()),
        {
            let ghost p = self.doc.pos();
            let (kind, block) = look(&self.doc);
            proof {
                lemma_rank_bound(root, p);
                if !is_end(root, p) {
                    lemma_step(root, p);
                }
            }
            match kind {
                HeadKind::Chars => {
                    proof {
                        lemma_hop(root, p);
                    }
                    self.doc.next();
                },
                HeadKind::Exhausted => {
                    if self.doc.is_done() {
                        proof {
                            lemma_end_rank(root, p);
                        }
                        return Err(WalkerError::NotFound);
                    }
                    self.doc.exit();
                },
                _ => {
                    self.doc.enter();
                    if block {
                        return Ok(());
                    }
                },
            }
        }
    }

    /// Moves over the next character. The walk passes one character and
    /// stops behind it, adding one to the counter. It stops before the
    /// caret's group, and before a block boundary, for which it adds one to
    /// the counter. It enters any other group, leaves exhausted ones, and
    /// stays at the end of the document.
    #[verifier::loop_isolation(false)]
    pub fn next_char(&mut self)
        requires
            old(self).wf(),
            old(self).counter() < isize::MAX,
        ensures
            final(self).wf(),
            final(self).original() == old(self).original(),
            final(self).place() == next_char_scan(old(self).original(), old(self).place()).0,
            final(self).counter() == old(self).counter() + next_char_scan(
                old(self).original(),
                old(self).place(),
            ).1,
            old(self).counter() <= final(self).counter() <= old(self).counter() + 1,
            exists|x: Pos|
                first_halt(old(self).original(), old(self).place(), x) && halt_outcome(
                    old(self).original(),
                    x,
                ) == (final(self).place(), final(self).counter() - old(self).counter()),
    {
        let ghost root = self.original();
        let ghost from = self.doc.pos();
        let ghost halt = law_next_char_is_first(root, from);
        loop
            invariant
                root == old(self).original(),
                from == old(self).place(),
                self.wf(),
                self.original() == root,
                self.counter() == old(self).counter(),
                self.counter() < isize::MAX,
                next_char_scan(root, from) == next_char_scan(root, self.doc.pos()),
            decreases total(root) - rank(root, self.doc.pos()),
        {
            let ghost p = self.doc.pos();
            let (kind, _) = look(&self.doc);
            proof {
                lemma_rank_bound(root, p);
                if !is_end(root, p) {
                    lemma_step(root, p);
                }
            }
            match kind {
                HeadKind::Chars => {
                    proof {
                        lemma_head_run(root, p);
                    }
                    self.caret_pos = self.caret_pos + 1;
                    self.doc.skip(1);
                    return ;
                },
                HeadKind::Cursor => {
                    return ;
                },
                HeadKind::Block => {
                    self.caret_pos = self.caret_pos + 1;
                    return ;
                },
                HeadKind::Plain => {
                    self.doc.enter();
                },
                HeadKind::Exhausted => {
                    if self.doc.is_done() {
                        return ;
                    }
                    self.doc.exit();
                },
            }
        }
    }

    /// Moves back by one sibling unit, a character or a whole group, and
    /// then searches backward for a character as `snap_char` does. At the
    /// start of a sibling list there is no unit to go back over: nothing
    /// moves.
    #[verifier::loop_isolation(false)]
    pub fn back_char(&mut self) -> (r: Result<(), WalkerError>)
        requires
            old(self).wf(),
            old(self).counter() > isize::MIN,
        ensures
            final(self).wf(),
            final(self).original() == old(self).original(),
            r is Err ==> r == Err::<(), WalkerError>(WalkerError::NotFound),
            match retreat(old(self).original(), old(self).place()) {
                Some(q) => {
                    let s = snap_scan(old(self).original(), q);
                    &&& (r is Ok) == s.found
                    &&& final(self).place() == s.pos
                    &&& final(self).counter() == old(self).counter() + s.delta
                    &&& nearest_char(old(self).original(), q, s)
                },
                None => {
                    &&& r is Err
                    &&& final(self).place() == old(self).place()
                    &&& final(self).counter() == old(self).counter()
                },
            },
            old(self).counter() - 1 <= final(self).counter() <= old(self).counter(),
    {
        proof {
            if self.doc.pos() != start() {
                lemma_unstep(self.original(), self.doc.pos());
            }
        }
        match look_behind(&self.doc) {
            BehindKind::Chars => {
                self.doc.unskip(1);
            },
            BehindKind::Group => {
                self.doc.prev();
            },
            BehindKind::Nothing => {
                return Err(WalkerError::NotFound);
            },
        }
        self.snap_char()
    }

    /// Searches backward for the nearest character. With a character just
    /// before the position the search succeeds there and takes one from the
    /// counter. A group just before the position is entered from its end.
    /// At the start of a group the search leaves it and stands before it: at
    /// a block boundary it stops there, takes one from the counter and
    /// fails; otherwise it goes on. At the start of the document it fails.
    #[verifier::loop_isolation(false)]
    pub fn snap_char(&mut self) -> (r: Result<(), WalkerError>)
        requires
            old(self).wf(),
            old(self).counter() > isize::MIN,
        ensures
            final(self).wf(),
            final(self).original() == old(self).original(),
            r is Err ==> r == Err::<(), WalkerError>(WalkerError::NotFound),
            (r is Ok) == snap_scan(old(self).original(), old(self).place()).found,
            final(self).place() == snap_scan(old(self).original(), old(self).place()).pos,
            final(self).counter() == old(self).counter() + snap_scan(
                old(self).original(),
                old(self).place(),
            ).delta,
            old(self).counter() - 1 <= final(self).counter() <= old(self).counter(),
            nearest_char(
                old(self).original(),
                old(self).place(),
                snap_scan(old(self).original(), old(self).place()),
            ),
    {
        let ghost root = self.original();
        let ghost from = self.doc.pos();
        proof {
            law_snap_is_nearest(root, from);
        }
        loop
            invariant
                root == old(self).original(),
                from == old(self).place(),
                self.wf(),
                self.original() == root,
                self.counter() == old(self).counter(),
                self.counter() > isize::MIN,
                snap_scan(root, from) == snap_scan(root, self.doc.pos()),
            decreases rank(root, self.doc.pos()),
        {
            let ghost p = self.doc.pos();
            proof {
                lemma_rank_bound(root, p);
                if p != start() {
                    lemma_unstep(root, p);
                }
            }
            match look_behind(&self.doc) {
                BehindKind::Chars => {
                    self.caret_pos = self.caret_pos - 1;
                    return Ok(());
                },
                BehindKind::Group => {
                    self.doc.unexit();
                },
                BehindKind::Nothing => {
                    if self.doc.depth() == 0 {
                        return Err(WalkerError::NotFound);
                    }
                    self.doc.unenter();
                    let (_, block) = look(&self.doc);
                    if block {
                        self.caret_pos = self.caret_pos - 1;
                        return Err(WalkerError::NotFound);
                    }
                },
            }
        }
    }

    /// Writes the way from the start of the document to the walker's
    /// position, alike into a deletion and an addition that change nothing:
    /// a skip for each character passed, an open group for each group
    /// entered and not yet left, a closed one for each group left.
    #[verifier::loop_isolation(false)]
    pub fn to_writers(&self) -> (r: (DelWriter, AddWriter))
        requires
            self.wf(),
        ensures
            r.0.past() == row(self.original(), self.place()),
            r.0.stack() == frames(self.original(), self.place().path),
            r.1.past() == r.0.past(),
            r.1.stack() == r.0.stack(),
            leads_to(self.original(), self.place(), r.0.past(), r.0.stack()),
            (r.0.past().len() == 0 && r.0.stack().len() == 0) <==> self.place() == start(),
    {
        proof {
            law_writers_change_nothing(self.original(), self.place());
            law_writers_at_start(self.original(), self.place());
        }
        let mut del = DelWriter::new();
        let mut add = AddWriter::new();
        let mut doc_stepper = DocStepper::new(&self.original_doc.0);
        let ghost root = self.original();
        let ghost target = self.doc.pos();
        proof {
            lemma_rank_bound(root, target);
            assert(crate::scan::emit(root, 0) =~= Seq::<crate::doc::OpNode>::empty());
        }
        while !self.doc.same_place(&doc_stepper)
            invariant
                root == self.original(),
                target == self.doc.pos(),
                self.wf(),
                doc_stepper.wf(),
                doc_stepper.root() == root,
                rank(root, doc_stepper.pos()) <= rank(root, target),
                del.past() == row(root, doc_stepper.pos()),
                del.stack() == frames(root, doc_stepper.pos().path),
                add.past() == del.past(),
                add.stack() == del.stack(),
            decreases rank(root, target) - rank(root, doc_stepper.pos()),
        {
            let ghost p = doc_stepper.pos();
            proof {
                lemma_rank_bound(root, p);
                lemma_rank_bound(root, target);
                if rank(root, p) == rank(root, target) {
                    lemma_rank_injective(root, p, target);
                }
                if is_end(root, p) {
                    lemma_end_rank(root, p);
                }
                lemma_step(root, p);
                lemma_row_step(root, p);
                lemma_frames_len(root, p.path);
            }
            let (kind, _) = look(&doc_stepper);
            match kind {
                HeadKind::Chars => {
                    proof {
                        lemma_head_run(root, p);
                    }
                    del.skip(1);
                    add.skip(1);
                    doc_stepper.skip(1);
                },
                HeadKind::Exhausted => {
                    del.exit();
                    add.exit();
                    doc_stepper.exit();
                },
                _ => {
                    del.begin();
                    add.begin();
                    doc_stepper.enter();
                },
            }
        }
        (del, add)
    }
}

} // verus!
