//! Writers: builders that assemble a deletion or an addition span from
//! primitive steps, merging adjacent elements of the same kind.

use vstd::prelude::*;
use vstd::string::StringExecFns;
use crate::doc::{add_node, add_nodes, del_node, del_nodes, AddElement, Attrs, DelElement, OpNode};

verus! {

/// The span after `n` units are skipped at its end. A skip that directly
/// follows a skip is merged with it, unless the sum would not fit a `usize`;
/// skipping nothing changes nothing.
pub open spec fn place_skip(span: Seq<OpNode>, n: nat) -> Seq<OpNode> {
    if n == 0 {
        span
    } else if span.len() > 0 && (span.last() matches OpNode::Skip(m) && m + n <= usize::MAX) {
        span.drop_last().push(OpNode::Skip(span.last()->Skip_0 + n))
    } else {
        span.push(OpNode::Skip(n))
    }
}

/// The span after `n` characters are deleted at its end, merged like skips.
pub open spec fn place_del_chars(span: Seq<OpNode>, n: nat) -> Seq<OpNode> {
    if n == 0 {
        span
    } else if span.len() > 0 && (span.last() matches OpNode::DelChars(m) && m + n <= usize::MAX) {
        span.drop_last().push(OpNode::DelChars(span.last()->DelChars_0 + n))
    } else {
        span.push(OpNode::DelChars(n))
    }
}

/// The span after `text` is inserted at its end. Text that directly follows
/// inserted text is appended to it; inserting nothing changes nothing.
pub open spec fn place_add_chars(span: Seq<OpNode>, text: Seq<char>) -> Seq<OpNode> {
    if text.len() == 0 {
        span
    } else if span.len() > 0 && span.last() is AddChars {
        span.drop_last().push(OpNode::AddChars(span.last()->AddChars_0 + text))
    } else {
        span.push(OpNode::AddChars(text))
    }
}

/// The models of the spans of a writer's open groups.
pub open spec fn del_frames(stack: Seq<Vec<DelElement>>) -> Seq<Seq<OpNode>> {
    Seq::new(stack.len(), |i: int| del_nodes(stack[i]@))
}

/// The models of the spans of a writer's open groups.
pub open spec fn add_frames(stack: Seq<Vec<AddElement>>) -> Seq<Seq<OpNode>> {
    Seq::new(stack.len(), |i: int| add_nodes(stack[i]@))
}

/// A builder of a deletion span.
#[derive(Debug)]
pub struct DelWriter {
    past: Vec<DelElement>,
    stack: Vec<Vec<DelElement>>,
}

impl DelWriter {
    /// The span written so far in the innermost open group.
    pub closed spec fn past(&self) -> Seq<OpNode> {
        del_nodes(self.past@)
    }

    /// The spans of the enclosing open groups, outermost first, each as it
    /// stood when the group inside it was begun.
    pub closed spec fn stack(&self) -> Seq<Seq<OpNode>> {
        del_frames(self.stack@)
    }

    /// A writer that has written nothing.
    pub fn new() -> (w: DelWriter)
        ensures
            w.past() == Seq::<OpNode>::empty(),
            w.stack() == Seq::<Seq<OpNode>>::empty(),
    {
        let w = DelWriter { past: Vec::new(), stack: Vec::new() };
        proof {
            assert(w.past() =~= Seq::<OpNode>::empty());
            assert(w.stack() =~= Seq::<Seq<OpNode>>::empty());
        }
        w
    }

    /// Skips `n` units.
    pub fn skip(&mut self, n: usize)
        ensures
            final(self).past() == place_skip(old(self).past(), n as nat),
            final(self).stack() == old(self).stack(),
    {
        if n == 0 {
            return ;
        }
        let len = self.past.len();
        if len > 0 {
            let merged = match &self.past[len - 1] {
                DelElement::DelSkip(m) => if *m <= usize::MAX - n {
                    Some(*m + n)
                } else {
                    None
                },
                _ => None,
            };
            proof {
                assert(old(self).past().last() == del_node(self.past@[len - 1]));
            }
            if let Some(sum) = merged {
                self.past.pop();
                self.past.push(DelElement::DelSkip(sum));
                proof {
                    assert(self.past() =~= old(self).past().drop_last().push(
                        OpNode::Skip(sum as nat),
                    ));
                }
                return ;
            }
        }
        self.past.push(DelElement::DelSkip(n));
        proof {
            assert(self.past() =~= old(self).past().push(OpNode::Skip(n as nat)));
        }
    }

    /// Deletes `n` characters.
    pub fn delete_chars(&mut self, n: usize)
        ensures
            final(self).past() == place_del_chars(old(self).past(), n as nat),
            final(self).stack() == old(self).stack(),
    {
        if n == 0 {
            return ;
        }
        let len = self.past.len();
        if len > 0 {
            let merged = match &self.past[len - 1] {
                DelElement::DelChars(m) => if *m <= usize::MAX - n {
                    Some(*m + n)
                } else {
                    None
                },
                _ => None,
            };
            proof {
                assert(old(self).past().last() == del_node(self.past@[len - 1]));
            }
            if let Some(sum) = merged {
                self.past.pop();
                self.past.push(DelElement::DelChars(sum));
                proof {
                    assert(self.past() =~= old(self).past().drop_last().push(
                        OpNode::DelChars(sum as nat),
                    ));
                }
                return ;
            }
        }
        self.past.push(DelElement::DelChars(n));
        proof {
            assert(self.past() =~= old(self).past().push(OpNode::DelChars(n as nat)));
        }
    }

    /// Opens a group: what follows addresses the children of the next group.
    pub fn begin(&mut self)
        ensures
            final(self).past() == Seq::<OpNode>::empty(),
            final(self).stack() == old(self).stack().push(old(self).past()),
    {
        let mut past: Vec<DelElement> = Vec::new();
        core::mem::swap(&mut self.past, &mut past);
        self.stack.push(past);
        proof {
            assert(self.past() =~= Seq::<OpNode>::empty());
            assert(self.stack() =~= old(self).stack().push(old(self).past()));
        }
    }

    /// Closes the innermost open group as one that is kept: its span becomes
    /// a `WithGroup` at the end of the enclosing span.
    pub fn exit(&mut self)
        requires
            old(self).stack().len() > 0,
        ensures
            final(self).past() == old(self).stack().last().push(
                OpNode::WithGroup(old(self).past()),
            ),
            final(self).stack() == old(self).stack().drop_last(),
    {
        let mut inner: Vec<DelElement> = Vec::new();
        core::mem::swap(&mut self.past, &mut inner);
        let mut outer = self.stack.pop().unwrap();
        outer.push(DelElement::DelWithGroup(inner));
        self.past = outer;
        proof {
            assert(self.past() =~= old(self).stack().last().push(
                OpNode::WithGroup(old(self).past()),
            ));
            assert(self.stack() =~= old(self).stack().drop_last());
        }
    }

    /// Closes the innermost open group as one that is removed: its span
    /// becomes a `DelGroup` at the end of the enclosing span.
    pub fn close(&mut self)
        requires
            old(self).stack().len() > 0,
        ensures
            final(self).past() == old(self).stack().last().push(
                OpNode::DelGroup(old(self).past()),
            ),
            final(self).stack() == old(self).stack().drop_last(),
    {
        let mut inner: Vec<DelElement> = Vec::new();
        core::mem::swap(&mut self.past, &mut inner);
        let mut outer = self.stack.pop().unwrap();
        outer.push(DelElement::DelGroup(inner));
        self.past = outer;
        proof {
            assert(self.past() =~= old(self).stack().last().push(
                OpNode::DelGroup(old(self).past()),
            ));
            assert(self.stack() =~= old(self).stack().drop_last());
        }
    }

    /// The number of open groups.
    pub fn depth(&self) -> (n: usize)
        ensures
            n == self.stack().len(),
    {
        self.stack.len()
    }

    /// The span written, once every group is closed.
    pub fn result(self) -> (span: Vec<DelElement>)
        requires
            self.stack().len() == 0,
        ensures
            del_nodes(span@) == self.past(),
    {
        self.past
    }
}

/// A builder of an addition span.
#[derive(Debug)]
pub struct AddWriter {
    past: Vec<AddElement>,
    stack: Vec<Vec<AddElement>>,
}

impl AddWriter {
    /// The span written so far in the innermost open group.
    pub closed spec fn past(&self) -> Seq<OpNode> {
        add_nodes(self.past@)
    }

    /// The spans of the enclosing open groups, outermost first, each as it
    /// stood when the group inside it was begun.
    pub closed spec fn stack(&self) -> Seq<Seq<OpNode>> {
        add_frames(self.stack@)
    }

    /// A writer that has written nothing.
    pub fn new() -> (w: AddWriter)
        ensures
            w.past() == Seq::<OpNode>::empty(),
            w.stack() == Seq::<Seq<OpNode>>::empty(),
    {
        let w = AddWriter { past: Vec::new(), stack: Vec::new() };
        proof {
            assert(w.past() =~= Seq::<OpNode>::empty());
            assert(w.stack() =~= Seq::<Seq<OpNode>>::empty());
        }
        w
    }

    /// Skips `n` units.
    pub fn skip(&mut self, n: usize)
        ensures
            final(self).past() == place_skip(old(self).past(), n as nat),
            final(self).stack() == old(self).stack(),
    {
        if n == 0 {
            return ;
        }
        let len = self.past.len();
        if len > 0 {
            let merged = match &self.past[len - 1] {
                AddElement::AddSkip(m) => if *m <= usize::MAX - n {
                    Some(*m + n)
                } else {
                    None
                },
                _ => None,
            };
            proof {
                assert(old(self).past().last() == add_node(self.past@[len - 1]));
            }
            if let Some(sum) = merged {
                self.past.pop();
                self.past.push(AddElement::AddSkip(sum));
                proof {
                    assert(self.past() =~= old(self).past().drop_last().push(
                        OpNode::Skip(sum as nat),
                    ));
                }
                return ;
            }
        }
        self.past.push(AddElement::AddSkip(n));
        proof {
            assert(self.past() =~= old(self).past().push(OpNode::Skip(n as nat)));
        }
    }

    /// Inserts `text`.
    pub fn chars(&mut self, text: &str)
        ensures
            final(self).past() == place_add_chars(old(self).past(), text@),
            final(self).stack() == old(self).stack(),
    {
        if text.is_empty() {
            return ;
        }
        let len = self.past.len();
        if len > 0 {
            let follows_text = match &self.past[len - 1] {
                AddElement::AddChars(_) => true,
                _ => false,
            };
            proof {
                assert(old(self).past().last() == add_node(self.past@[len - 1]));
            }
            if follows_text {
                let last = self.past.pop().unwrap();
                match last {
                    AddElement::AddChars(mut joined) => {
                        joined.append(text);
                        self.past.push(AddElement::AddChars(joined));
                    },
                    other => {
                        self.past.push(other);
                    },
                }
                proof {
                    assert(self.past() =~= old(self).past().drop_last().push(
                        OpNode::AddChars(old(self).past().last()->AddChars_0 + text@),
                    ));
                }
                return ;
            }
        }
        self.past.push(AddElement::AddChars(text.to_owned()));
        proof {
            assert(self.past() =~= old(self).past().push(OpNode::AddChars(text@)));
        }
    }

    /// Opens a group: what follows addresses the children of the next group.
    pub fn begin(&mut self)
        ensures
            final(self).past() == Seq::<OpNode>::empty(),
            final(self).stack() == old(self).stack().push(old(self).past()),
    {
        let mut past: Vec<AddElement> = Vec::new();
        core::mem::swap(&mut self.past, &mut past);
        self.stack.push(past);
        proof {
            assert(self.past() =~= Seq::<OpNode>::empty());
            assert(self.stack() =~= old(self).stack().push(old(self).past()));
        }
    }

    /// Closes the innermost open group as one that is kept: its span becomes
    /// a `WithGroup` at the end of the enclosing span.
    pub fn exit(&mut self)
        requires
            old(self).stack().len() > 0,
        ensures
            final(self).past() == old(self).stack().last().push(
                OpNode::WithGroup(old(self).past()),
            ),
            final(self).stack() == old(self).stack().drop_last(),
    {
        let mut inner: Vec<AddElement> = Vec::new();
        core::mem::swap(&mut self.past, &mut inner);
        let mut outer = self.stack.pop().unwrap();
        outer.push(AddElement::AddWithGroup(inner));
        self.past = outer;
        proof {
            assert(self.past() =~= old(self).stack().last().push(
                OpNode::WithGroup(old(self).past()),
            ));
            assert(self.stack() =~= old(self).stack().drop_last());
        }
    }

    /// Closes the innermost open group as a new group with the given
    /// attributes: its span becomes an `AddGroup` at the end of the
    /// enclosing span.
    pub fn close(&mut self, attrs: Attrs)
        requires
            old(self).stack().len() > 0,
        ensures
            final(self).past() == old(self).stack().last().push(
                OpNode::AddGroup(attrs@, old(self).past()),
            ),
            final(self).stack() == old(self).stack().drop_last(),
    {
        let mut inner: Vec<AddElement> = Vec::new();
        core::mem::swap(&mut self.past, &mut inner);
        let mut outer = self.stack.pop().unwrap();
        outer.push(AddElement::AddGroup(attrs, inner));
        self.past = outer;
        proof {
            assert(self.past() =~= old(self).stack().last().push(
                OpNode::AddGroup(attrs@, old(self).past()),
            ));
            assert(self.stack() =~= old(self).stack().drop_last());
        }
    }

    /// The number of open groups.
    pub fn depth(&self) -> (n: usize)
        ensures
            n == self.stack().len(),
    {
        self.stack.len()
    }

    /// The span written, once every group is closed.
    pub fn result(self) -> (span: Vec<AddElement>)
        requires
            self.stack().len() == 0,
        ensures
            add_nodes(span@) == self.past(),
    {
        self.past
    }
}

} // verus!
