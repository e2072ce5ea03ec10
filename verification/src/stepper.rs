//! Steppers: cursors that move through a document or through a cursor path
//! one unit at a time.

use vstd::prelude::*;
use vstd::string::StrSliceExecFns;
use crate::doc::{cur_node, cur_nodes, doc_node, doc_nodes, CurElement, CurNode, DocElement, DocNode};
use crate::order::{
    head_at, is_end, kids, lemma_level_push, level, nodes_ok,
    path_ok, start, valid, Pos,
};

verus! {

/// The indices of a stepper's path as integers.
pub open spec fn ints(path: Seq<usize>) -> Seq<int> {
    path.map_values(|i: usize| i as int)
}

/// A prefix of a path through groups leads through groups.
pub proof fn lemma_path_prefix(root: Seq<DocNode>, path: Seq<int>, k: int)
    requires
        path_ok(root, path),
        0 <= k <= path.len(),
    ensures
        path_ok(root, path.take(k)),
    decreases path.len(),
{
    if k < path.len() {
        lemma_path_prefix(root, path.drop_last(), k);
        assert(path.drop_last().take(k) =~= path.take(k));
    } else {
        assert(path.take(k) =~= path);
    }
}

/// No sibling list of a document built from vectors is longer than a vector
/// can be.
pub open spec fn fits(s: Seq<DocNode>) -> bool
    decreases s,
{
    &&& s.len() <= usize::MAX
    &&& forall|i: int| 0 <= i < s.len() ==> node_fits(#[trigger] s[i])
}

/// No sibling list below the node is longer than a vector can be.
pub open spec fn node_fits(n: DocNode) -> bool
    decreases n,
{
    match n {
        DocNode::Chars(_) => true,
        DocNode::Group(_, c) => fits(c),
    }
}

/// The model of a vector of elements fits.
pub proof fn lemma_fits(v: Vec<DocElement>)
    ensures
        fits(doc_nodes(v@)),
    decreases v,
{
    let s = doc_nodes(v@);
    assert(s.len() == v.len());
    assert forall|i: int| 0 <= i < s.len() implies node_fits(#[trigger] s[i]) by {
        match v@[i] {
            DocElement::DocChars(_) => {},
            DocElement::DocGroup(_, children) => {
                lemma_fits(children);
            },
        }
    }
}

/// Every sibling list that a path reaches fits.
pub proof fn lemma_level_fits(root: Seq<DocNode>, path: Seq<int>)
    requires
        fits(root),
        path_ok(root, path),
    ensures
        fits(level(root, path)),
    decreases path.len(),
{
    if path.len() > 0 {
        lemma_level_fits(root, path.drop_last());
        let up = level(root, path.drop_last());
        assert(node_fits(up[path.last()]));
    }
}

/// A cursor over a document. It holds its own copy of the document and a
/// position in it.
#[derive(Debug)]
pub struct DocStepper {
    root: Vec<DocElement>,
    path: Vec<usize>,
    head: usize,
    char_debt: usize,
}

impl DocStepper {
    /// The document that the stepper moves through.
    pub closed spec fn root(&self) -> Seq<DocNode> {
        doc_nodes(self.root@)
    }

    /// The position of the stepper.
    pub closed spec fn pos(&self) -> Pos {
        Pos { path: ints(self.path@), head: self.head as int, debt: self.char_debt as int }
    }

    /// The document has no empty run and the position is one of its places.
    pub open spec fn wf(&self) -> bool {
        &&& nodes_ok(self.root())
        &&& valid(self.root(), self.pos())
    }

    /// A stepper at the start of a copy of `span`.
    pub fn new(span: &Vec<DocElement>) -> (stepper: DocStepper)
        requires
            nodes_ok(doc_nodes(span@)),
        ensures
            stepper.wf(),
            stepper.root() == doc_nodes(span@),
            stepper.pos() == start(),
    {
        let stepper = DocStepper {
            root: crate::doc::clone_doc_span(span),
            path: Vec::new(),
            head: 0,
            char_debt: 0,
        };
        proof {
            assert(ints(stepper.path@) =~= Seq::<int>::empty());
        }
        stepper
    }

    /// The sibling list that the stepper stands in.
    fn siblings(&self) -> (lv: &Vec<DocElement>)
        requires
            self.wf(),
        ensures
            doc_nodes(lv@) == level(self.root(), self.pos().path),
    {
        let ghost root = self.root();
        let ghost path = self.pos().path;
        let mut lv: &Vec<DocElement> = &self.root;
        let mut k: usize = 0;
        proof {
            assert(path.take(0) =~= Seq::<int>::empty());
        }
        while k < self.path.len()
            invariant
                k <= self.path.len(),
                root == self.root(),
                path == ints(self.path@),
                path_ok(root, path),
                doc_nodes(lv@) == level(root, path.take(k as int)),
            decreases self.path.len() - k,
        {
            let i = self.path[k];
            proof {
                lemma_path_prefix(root, path, k as int + 1);
                assert(path.take(k as int + 1).drop_last() =~= path.take(k as int));
                assert(path.take(k as int + 1).last() == i as int);
            }
            match &lv[i] {
                DocElement::DocGroup(_, children) => {
                    lv = children;
                },
                DocElement::DocChars(_) => {
                    proof {
                        assert(false);
                    }
                },
            }
            k += 1;
        }
        proof {
            assert(path.take(k as int) =~= path);
        }
        lv
    }

    /// The element at the position, or nothing where the sibling list is
    /// exhausted. For a run of which some characters are passed, this is the
    /// whole run.
    pub fn head(&self) -> (h: Option<&DocElement>)
        requires
            self.wf(),
        ensures
            match h {
                Some(e) => head_at(self.root(), self.pos()) == Some(doc_node(*e)),
                None => head_at(self.root(), self.pos()) is None,
            },
    {
        let lv = self.siblings();
        if self.head < lv.len() {
            Some(&lv[self.head])
        } else {
            None
        }
    }

    /// The element just before the position among its siblings, or nothing
    /// at the start of the sibling list.
    pub fn behind(&self) -> (b: Option<&DocElement>)
        requires
            self.wf(),
        ensures
            match b {
                Some(e) => self.pos().head > 0 && level(self.root(), self.pos().path)[self.pos().head
                    - 1] == doc_node(*e),
                None => self.pos().head == 0,
            },
    {
        let lv = self.siblings();
        if self.head > 0 {
            Some(&lv[self.head - 1])
        } else {
            None
        }
    }

    /// The number of characters passed in the run at the position.
    pub fn char_debt(&self) -> (n: usize)
        ensures
            n == self.pos().debt,
    {
        self.char_debt
    }

    /// The index of the position among its siblings.
    pub fn index(&self) -> (n: usize)
        ensures
            n == self.pos().head,
    {
        self.head
    }

    /// The number of groups entered.
    pub fn depth(&self) -> (n: usize)
        ensures
            n == self.pos().path.len(),
    {
        self.path.len()
    }

    /// The indices of the groups entered, outermost first.
    pub fn path(&self) -> (path: &Vec<usize>)
        ensures
            ints(path@) == self.pos().path,
    {
        &self.path
    }

    /// Whether the stepper is past the last element at the top of the
    /// document.
    pub fn is_done(&self) -> (done: bool)
        requires
            self.wf(),
        ensures
            done == is_end(self.root(), self.pos()),
    {
        self.path.len() == 0 && self.head >= self.root.len()
    }

    /// Whether two steppers stand at the same position.
    pub fn same_place(&self, other: &DocStepper) -> (same: bool)
        ensures
            same == (self.pos() == other.pos()),
    {
        if self.head != other.head || self.char_debt != other.char_debt || self.path.len()
            != other.path.len() {
            proof {
                assert(ints(self.path@).len() == self.path@.len());
                assert(ints(other.path@).len() == other.path@.len());
            }
            return false;
        }
        let mut k: usize = 0;
        while k < self.path.len()
            invariant
                k <= self.path.len(),
                self.path.len() == other.path.len(),
                forall|j: int| 0 <= j < k ==> self.path@[j] == other.path@[j],
            decreases self.path.len() - k,
        {
            if self.path[k] != other.path[k] {
                proof {
                    assert(ints(self.path@)[k as int] != ints(other.path@)[k as int]);
                }
                return false;
            }
            k += 1;
        }
        proof {
            assert(ints(self.path@) =~= ints(other.path@));
        }
        true
    }

    /// Descends into the group at the position, to its first child.
    pub fn enter(&mut self)
        requires
            old(self).wf(),
            head_at(old(self).root(), old(self).pos()) matches Some(DocNode::Group(_, _)),
        ensures
            final(self).wf(),
            final(self).root() == old(self).root(),
            final(self).pos() == (Pos {
                path: old(self).pos().path.push(old(self).pos().head),
                head: 0,
                debt: 0,
            }),
    {
        proof {
            lemma_level_push(self.root(), self.pos().path, self.pos().head);
        }
        self.path.push(self.head);
        self.head = 0;
        self.char_debt = 0;
        proof {
            assert(ints(self.path@) =~= old(self).pos().path.push(old(self).pos().head));
        }
    }

    /// Leaves the current group and stands after it.
    pub fn exit(&mut self)
        requires
            old(self).wf(),
            old(self).pos().path.len() > 0,
        ensures
            final(self).wf(),
            final(self).root() == old(self).root(),
            final(self).pos() == (Pos {
                path: old(self).pos().path.drop_last(),
                head: old(self).pos().path.last() + 1,
                debt: 0,
            }),
    {
        proof {
            lemma_fits(self.root);
            lemma_level_fits(self.root(), self.pos().path.drop_last());
        }
        let i = self.path.pop().unwrap();
        self.head = i + 1;
        self.char_debt = 0;
        proof {
            assert(ints(self.path@) =~= old(self).pos().path.drop_last());
        }
    }

    /// Leaves the current group backward and stands before it: the reverse
    /// of `enter`.
    pub fn unenter(&mut self)
        requires
            old(self).wf(),
            old(self).pos().path.len() > 0,
        ensures
            final(self).wf(),
            final(self).root() == old(self).root(),
            final(self).pos() == (Pos {
                path: old(self).pos().path.drop_last(),
                head: old(self).pos().path.last(),
                debt: 0,
            }),
    {
        let i = self.path.pop().unwrap();
        self.head = i;
        self.char_debt = 0;
        proof {
            assert(ints(self.path@) =~= old(self).pos().path.drop_last());
        }
    }

    /// Descends backward into the group just before the position, to the end
    /// of its children: the reverse of `exit`.
    pub fn unexit(&mut self)
        requires
            old(self).wf(),
            old(self).pos().debt == 0,
            old(self).pos().head > 0,
            level(old(self).root(), old(self).pos().path)[old(self).pos().head - 1] is Group,
        ensures
            final(self).wf(),
            final(self).root() == old(self).root(),
            final(self).pos() == (Pos {
                path: old(self).pos().path.push(old(self).pos().head - 1),
                head: kids(
                    level(old(self).root(), old(self).pos().path)[old(self).pos().head - 1],
                ).len() as int,
                debt: 0,
            }),
    {
        let lv = self.siblings();
        let n = match &lv[self.head - 1] {
            DocElement::DocGroup(_, children) => children.len(),
            DocElement::DocChars(_) => 0,
        };
        proof {
            lemma_level_push(self.root(), self.pos().path, self.pos().head - 1);
            assert(doc_nodes(lv@)[self.head - 1] == doc_node(lv@[self.head - 1]));
            assert(n == kids(level(self.root(), self.pos().path)[self.pos().head - 1]).len());
        }
        self.path.push(self.head - 1);
        self.head = n;
        self.char_debt = 0;
        proof {
            assert(ints(self.path@) =~= old(self).pos().path.push(old(self).pos().head - 1));
        }
    }

    /// Moves to the next sibling, whatever the element at the position is.
    pub fn next(&mut self)
        requires
            old(self).wf(),
            head_at(old(self).root(), old(self).pos()) is Some,
        ensures
            final(self).wf(),
            final(self).root() == old(self).root(),
            final(self).pos() == (Pos {
                path: old(self).pos().path,
                head: old(self).pos().head + 1,
                debt: 0,
            }),
    {
        proof {
            lemma_fits(self.root);
            lemma_level_fits(self.root(), self.pos().path);
        }
        self.head = self.head + 1;
        self.char_debt = 0;
    }

    /// Moves to the start of the sibling before the position.
    pub fn prev(&mut self)
        requires
            old(self).wf(),
            old(self).pos().head > 0,
        ensures
            final(self).wf(),
            final(self).root() == old(self).root(),
            final(self).pos() == (Pos {
                path: old(self).pos().path,
                head: old(self).pos().head - 1,
                debt: 0,
            }),
    {
        self.head = self.head - 1;
        self.char_debt = 0;
    }

    /// Passes `n` characters of the run at the position. Past the last
    /// character of the run the stepper stands at the next sibling.
    pub fn skip(&mut self, n: usize)
        requires
            old(self).wf(),
            n > 0,
            head_at(old(self).root(), old(self).pos()) matches Some(DocNode::Chars(s))
                && old(self).pos().debt + n <= s.len(),
        ensures
            final(self).wf(),
            final(self).root() == old(self).root(),
            head_at(old(self).root(), old(self).pos()) matches Some(DocNode::Chars(s))
                && final(self).pos() == (if old(self).pos().debt + n < s.len() {
                Pos {
                    path: old(self).pos().path,
                    head: old(self).pos().head,
                    debt: old(self).pos().debt + n,
                }
            } else {
                Pos { path: old(self).pos().path, head: old(self).pos().head + 1, debt: 0 }
            }),
    {
        let lv = self.siblings();
        let len = match &lv[self.head] {
            DocElement::DocChars(text) => text.as_str().unicode_len(),
            DocElement::DocGroup(_, _) => 0,
        };
        proof {
            assert(doc_nodes(lv@)[self.head as int] == doc_node(lv@[self.head as int]));
            assert(self.head < lv.len());
        }
        if self.char_debt + n < len {
            self.char_debt = self.char_debt + n;
        } else {
            self.head = self.head + 1;
            self.char_debt = 0;
        }
    }

    /// Goes back over `n` characters: those passed in the run at the
    /// position or, at the start of an element, the last ones of the run
    /// just before it.
    pub fn unskip(&mut self, n: usize)
        requires
            old(self).wf(),
            n > 0,
            old(self).pos().debt >= n || (old(self).pos().debt == 0 && old(self).pos().head > 0
                && (level(old(self).root(), old(self).pos().path)[old(self).pos().head
                - 1] matches DocNode::Chars(s) && n <= s.len())),
        ensures
            final(self).wf(),
            final(self).root() == old(self).root(),
            final(self).pos() == (if old(self).pos().debt >= n {
                Pos {
                    path: old(self).pos().path,
                    head: old(self).pos().head,
                    debt: old(self).pos().debt - n,
                }
            } else {
                Pos {
                    path: old(self).pos().path,
                    head: old(self).pos().head - 1,
                    debt: weight_behind(old(self).root(), old(self).pos()) - n,
                }
            }),
    {
        if self.char_debt >= n {
            self.char_debt = self.char_debt - n;
        } else {
            let lv = self.siblings();
            let len = match &lv[self.head - 1] {
                DocElement::DocChars(text) => text.as_str().unicode_len(),
                DocElement::DocGroup(_, _) => 0,
            };
            proof {
                assert(doc_nodes(lv@)[self.head - 1] == doc_node(lv@[self.head - 1]));
            }
            self.head = self.head - 1;
            self.char_debt = len - n;
        }
    }
}

/// The length of the run just before the position; zero where no run stands
/// there.
pub open spec fn weight_behind(root: Seq<DocNode>, p: Pos) -> int {
    let lv = level(root, p.path);
    if 0 < p.head <= lv.len() {
        match lv[p.head - 1] {
            DocNode::Chars(s) => s.len() as int,
            DocNode::Group(_, _) => 0,
        }
    } else {
        0
    }
}

/// The elements inside a cursor element; only a `WithGroup` has any.
pub open spec fn cur_kids(n: CurNode) -> Seq<CurNode> {
    match n {
        CurNode::WithGroup(c) => c,
        _ => Seq::empty(),
    }
}

/// The list of cursor elements that `path` leads to.
pub open spec fn cur_level(root: Seq<CurNode>, path: Seq<int>) -> Seq<CurNode>
    decreases path.len(),
{
    if path.len() == 0 {
        root
    } else {
        let up = cur_level(root, path.drop_last());
        if 0 <= path.last() < up.len() {
            cur_kids(up[path.last()])
        } else {
            Seq::empty()
        }
    }
}

/// Every index of `path` names a `WithGroup`.
pub open spec fn cur_path_ok(root: Seq<CurNode>, path: Seq<int>) -> bool
    decreases path.len(),
{
    path.len() == 0 || {
        let up = cur_level(root, path.drop_last());
        &&& cur_path_ok(root, path.drop_last())
        &&& 0 <= path.last() < up.len()
        &&& up[path.last()] is WithGroup
    }
}

/// The position names a place of the cursor path; `debt` counts the units
/// already taken from the `Skip` at `head`.
pub open spec fn cur_valid(root: Seq<CurNode>, p: Pos) -> bool {
    let lv = cur_level(root, p.path);
    &&& cur_path_ok(root, p.path)
    &&& 0 <= p.head <= lv.len()
    &&& 0 <= p.debt
    &&& p.debt > 0 ==> p.head < lv.len() && (lv[p.head] matches CurNode::Skip(n) && p.debt < n)
}

/// The cursor element at the position, if the list is not exhausted.
pub open spec fn cur_head_at(root: Seq<CurNode>, p: Pos) -> Option<CurNode> {
    let lv = cur_level(root, p.path);
    if 0 <= p.head < lv.len() {
        Some(lv[p.head])
    } else {
        None
    }
}

/// The position after one unit of the element at `p` is taken: a `Skip`
/// with units left stays at the position, anything else is passed whole.
pub open spec fn cur_skip(root: Seq<CurNode>, p: Pos) -> Pos {
    match cur_head_at(root, p) {
        Some(CurNode::Skip(n)) if p.debt + 1 < n => Pos {
            path: p.path,
            head: p.head,
            debt: p.debt + 1,
        },
        Some(_) => Pos { path: p.path, head: p.head + 1, debt: 0 },
        None => p,
    }
}

/// The first position inside the element at `p`.
pub open spec fn cur_enter(p: Pos) -> Pos {
    Pos { path: p.path.push(p.head), head: 0, debt: 0 }
}

/// The position after the element that encloses `p`.
pub open spec fn cur_exit(p: Pos) -> Pos {
    Pos { path: p.path.drop_last(), head: p.path.last() + 1, debt: 0 }
}

/// No list of a cursor path built from vectors is longer than a vector can
/// be.
pub open spec fn cur_fits(s: Seq<CurNode>) -> bool
    decreases s,
{
    &&& s.len() <= usize::MAX
    &&& forall|i: int| 0 <= i < s.len() ==> cur_node_fits(#[trigger] s[i])
}

/// No list below the cursor element is longer than a vector can be.
pub open spec fn cur_node_fits(n: CurNode) -> bool
    decreases n,
{
    match n {
        CurNode::WithGroup(c) => cur_fits(c),
        _ => true,
    }
}

/// The model of a vector of cursor elements fits.
pub proof fn lemma_cur_fits(v: Vec<CurElement>)
    ensures
        cur_fits(cur_nodes(v@)),
    decreases v,
{
    let s = cur_nodes(v@);
    assert(s.len() == v.len());
    assert forall|i: int| 0 <= i < s.len() implies cur_node_fits(#[trigger] s[i]) by {
        match v@[i] {
            CurElement::CurWithGroup(inner) => {
                lemma_cur_fits(inner);
            },
            _ => {},
        }
    }
}

/// Every list that a path reaches in a cursor path fits.
pub proof fn lemma_cur_level_fits(root: Seq<CurNode>, path: Seq<int>)
    requires
        cur_fits(root),
        cur_path_ok(root, path),
    ensures
        cur_fits(cur_level(root, path)),
    decreases path.len(),
{
    if path.len() > 0 {
        lemma_cur_level_fits(root, path.drop_last());
        let up = cur_level(root, path.drop_last());
        assert(cur_node_fits(up[path.last()]));
    }
}

/// A prefix of a path through a cursor path leads through `WithGroup`s.
pub proof fn lemma_cur_path_prefix(root: Seq<CurNode>, path: Seq<int>, k: int)
    requires
        cur_path_ok(root, path),
        0 <= k <= path.len(),
    ensures
        cur_path_ok(root, path.take(k)),
    decreases path.len(),
{
    if k < path.len() {
        lemma_cur_path_prefix(root, path.drop_last(), k);
        assert(path.drop_last().take(k) =~= path.take(k));
    } else {
        assert(path.take(k) =~= path);
    }
}

/// A cursor over a cursor path. It holds its own copy of the path and a
/// position in it.
#[derive(Debug)]
pub struct CurStepper {
    root: Vec<CurElement>,
    path: Vec<usize>,
    head: usize,
    used: usize,
}

impl CurStepper {
    /// The cursor path that the stepper moves through.
    pub closed spec fn root(&self) -> Seq<CurNode> {
        cur_nodes(self.root@)
    }

    /// The position of the stepper.
    pub closed spec fn pos(&self) -> Pos {
        Pos { path: ints(self.path@), head: self.head as int, debt: self.used as int }
    }

    /// The position is a place of the cursor path.
    pub open spec fn wf(&self) -> bool {
        cur_valid(self.root(), self.pos())
    }

    /// A stepper at the start of a copy of `span`.
    pub fn new(span: &Vec<CurElement>) -> (stepper: CurStepper)
        ensures
            stepper.wf(),
            stepper.root() == cur_nodes(span@),
            stepper.pos() == start(),
    {
        let stepper = CurStepper {
            root: crate::doc::clone_cur_span(span),
            path: Vec::new(),
            head: 0,
            used: 0,
        };
        proof {
            assert(ints(stepper.path@) =~= Seq::<int>::empty());
        }
        stepper
    }

    /// The list that the stepper stands in.
    fn siblings(&self) -> (lv: &Vec<CurElement>)
        requires
            self.wf(),
        ensures
            cur_nodes(lv@) == cur_level(self.root(), self.pos().path),
    {
        let ghost root = self.root();
        let ghost path = self.pos().path;
        let mut lv: &Vec<CurElement> = &self.root;
        let mut k: usize = 0;
        proof {
            assert(path.take(0) =~= Seq::<int>::empty());
        }
        while k < self.path.len()
            invariant
                k <= self.path.len(),
                root == self.root(),
                path == ints(self.path@),
                cur_path_ok(root, path),
                cur_nodes(lv@) == cur_level(root, path.take(k as int)),
            decreases self.path.len() - k,
        {
            let i = self.path[k];
            proof {
                lemma_cur_path_prefix(root, path, k as int + 1);
                assert(path.take(k as int + 1).drop_last() =~= path.take(k as int));
                assert(path.take(k as int + 1).last() == i as int);
            }
            match &lv[i] {
                CurElement::CurWithGroup(inner) => {
                    lv = inner;
                },
                _ => {
                    proof {
                        assert(false);
                    }
                },
            }
            k += 1;
        }
        proof {
            assert(path.take(k as int) =~= path);
        }
        lv
    }

    /// The element at the position, or nothing where the list is exhausted.
    /// For a `Skip` of which some units are taken, this is the whole element.
    pub fn head(&self) -> (h: Option<&CurElement>)
        requires
            self.wf(),
        ensures
            match h {
                Some(e) => cur_head_at(self.root(), self.pos()) == Some(cur_node(*e)),
                None => cur_head_at(self.root(), self.pos()) is None,
            },
    {
        let lv = self.siblings();
        if self.head < lv.len() {
            Some(&lv[self.head])
        } else {
            None
        }
    }

    /// The number of groups entered.
    pub fn depth(&self) -> (n: usize)
        ensures
            n == self.pos().path.len(),
    {
        self.path.len()
    }

    /// Whether the stepper is past the last element at the top of the path.
    pub fn is_done(&self) -> (done: bool)
        requires
            self.wf(),
        ensures
            done == (self.pos().path.len() == 0 && self.pos().head == self.root().len()),
    {
        self.path.len() == 0 && self.head >= self.root.len()
    }

    /// Takes one unit of the element at the position.
    pub fn skip(&mut self)
        requires
            old(self).wf(),
            cur_head_at(old(self).root(), old(self).pos()) is Some,
        ensures
            final(self).wf(),
            final(self).root() == old(self).root(),
            final(self).pos() == cur_skip(old(self).root(), old(self).pos()),
    {
        let lv = self.siblings();
        let count = match &lv[self.head] {
            CurElement::CurSkip(n) => *n,
            _ => 0,
        };
        proof {
            assert(cur_nodes(lv@)[self.head as int] == cur_node(lv@[self.head as int]));
            assert(self.head < lv.len());
        }
        if self.used < count && self.used + 1 < count {
            self.used = self.used + 1;
        } else {
            self.head = self.head + 1;
            self.used = 0;
        }
    }

    /// Descends into the `WithGroup` at the position.
    pub fn enter(&mut self)
        requires
            old(self).wf(),
            cur_head_at(old(self).root(), old(self).pos()) matches Some(CurNode::WithGroup(_)),
        ensures
            final(self).wf(),
            final(self).root() == old(self).root(),
            final(self).pos() == cur_enter(old(self).pos()),
    {
        proof {
            assert(self.pos().path.push(self.pos().head).drop_last() =~= self.pos().path);
        }
        self.path.push(self.head);
        self.head = 0;
        self.used = 0;
        proof {
            assert(ints(self.path@) =~= old(self).pos().path.push(old(self).pos().head));
        }
    }

    /// Leaves the current `WithGroup` and stands after it, whatever is left
    /// inside.
    pub fn exit(&mut self)
        requires
            old(self).wf(),
            old(self).pos().path.len() > 0,
        ensures
            final(self).wf(),
            final(self).root() == old(self).root(),
            final(self).pos() == cur_exit(old(self).pos()),
    {
        proof {
            lemma_cur_fits(self.root);
            lemma_cur_level_fits(self.root(), self.pos().path.drop_last());
        }
        let i = self.path.pop().unwrap();
        self.head = i + 1;
        self.used = 0;
        proof {
            assert(ints(self.path@) =~= old(self).pos().path.drop_last());
        }
    }
}

} // verus!
