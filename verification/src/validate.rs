//! Well-formedness of documents, and the errors of this library.

use vstd::prelude::*;
use vstd::string::StrSliceExecFns;
use crate::doc::{doc_node, doc_nodes, Doc, DocElement, DocNode};
use crate::order::{lemma_prefix_mono, lemma_prefix_unfold, node_ok, nodes_ok, prefix_weight, total};

verus! {

/// Why an operation on a document failed.
#[derive(Clone, Copy, Debug, PartialEq, Eq, Hash)]
pub enum WalkerError {
    /// No position of the kind asked for exists in the document.
    NotFound,
    /// The document is not well formed.
    Malformed,
}

/// A document is well formed when none of its runs of text is empty and a
/// walk through it takes no more moves than an `isize` can count.
pub open spec fn well_formed(root: Seq<DocNode>) -> bool {
    &&& nodes_ok(root)
    &&& total(root) <= isize::MAX
}

/// The number of moves that a walk through `span` takes, if `span` is well
/// formed.
pub fn measure(span: &Vec<DocElement>) -> (moves: Option<usize>)
    ensures
        match moves {
            Some(t) => well_formed(doc_nodes(span@)) && t == total(doc_nodes(span@)),
            None => !well_formed(doc_nodes(span@)),
        },
    decreases span,
{
    let ghost model = doc_nodes(span@);
    let limit: usize = isize::MAX as usize;
    let mut acc: usize = 0;
    let mut i: usize = 0;
    while i < span.len()
        invariant
            i <= span.len(),
            model == doc_nodes(span@),
            limit == isize::MAX,
            acc == prefix_weight(model, i as int),
            acc <= limit,
            forall|k: int| 0 <= k < i ==> node_ok(#[trigger] model[k]),
        decreases span.len() - i,
    {
        proof {
            lemma_prefix_unfold(model, i as int);
            lemma_prefix_mono(model, i as int + 1, model.len() as int);
            assert(model[i as int] == doc_node(span@[i as int]));
        }
        let w: usize = match &span[i] {
            DocElement::DocChars(text) => {
                let n = text.as_str().unicode_len();
                if n == 0 {
                    proof {
                        assert(!node_ok(model[i as int]));
                    }
                    return None;
                }
                n
            },
            DocElement::DocGroup(_, children) => {
                match measure(children) {
                    None => {
                        proof {
                            if nodes_ok(model) {
                                assert(node_ok(model[i as int]));
                            }
                        }
                        return None;
                    },
                    Some(t) => {
                        if t > limit - 2 {
                            return None;
                        }
                        t + 2
                    },
                }
            },
        };
        if w > limit - acc {
            return None;
        }
        acc = acc + w;
        i = i + 1;
    }
    Some(acc)
}

impl Doc {
    /// Checks that the document is well formed.
    pub fn validate(&self) -> (r: Result<(), WalkerError>)
        ensures
            r is Ok <==> well_formed(self@),
            r is Err ==> r == Err::<(), WalkerError>(WalkerError::Malformed),
    {
        match measure(&self.0) {
            Some(_) => Ok(()),
            None => Err(WalkerError::Malformed),
        }
    }
}

} // verus!
