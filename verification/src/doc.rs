//! Document, operation and cursor value types, each with its mathematical
//! model.
//!
//! A document is a forest of [`DocElement`]s. Contracts never speak of the
//! executable values directly: they speak of their models, [`DocNode`],
//! [`OpNode`] and [`CurNode`], which replace strings by sequences of
//! characters, vectors by sequences and attribute lists by maps.

use vstd::prelude::*;
use vstd::std_specs::cmp::PartialEqSpecImpl;
use crate::text::str_eq;

verus! {

/// Model of a document node.
pub enum DocNode {
    /// A run of text.
    Chars(Seq<char>),
    /// A group with its attributes and its children.
    Group(Map<Seq<char>, Seq<char>>, Seq<DocNode>),
}

/// Model of an element of a deletion or addition span. The two kinds of span
/// share their skipping elements, so that a deletion and an addition that
/// change nothing have the same model.
pub enum OpNode {
    /// Pass over `n` sibling units unchanged.
    Skip(nat),
    /// Descend into the next group, leaving its attributes alone.
    WithGroup(Seq<OpNode>),
    /// Remove `n` characters.
    DelChars(nat),
    /// Remove the next group; the inner span addresses its children.
    DelGroup(Seq<OpNode>),
    /// Remove the given styles from `n` units.
    DelStyles(nat, Seq<Style>),
    /// Insert text.
    AddChars(Seq<char>),
    /// Insert a group around what the inner span addresses.
    AddGroup(Map<Seq<char>, Seq<char>>, Seq<OpNode>),
    /// Set the given styles on `n` units.
    AddStyles(nat, Seq<(Style, Option<Seq<char>>)>),
}

/// Model of an element of a cursor path.
pub enum CurNode {
    Skip(nat),
    WithGroup(Seq<CurNode>),
    Group,
    Char,
}

/// Formatting that a style element can set or clear.
#[derive(Clone, Copy, Debug, PartialEq, Eq, Hash)]
pub enum Style {
    Normie,
    Selected,
    Bold,
    Italic,
    Link,
}

pub type StyleSet = Vec<Style>;

pub type StyleMap = Vec<(Style, Option<String>)>;

/// The attributes of a group: a mapping from keys to values. A later entry
/// for a key replaces an earlier one.
#[derive(Debug)]
pub struct Attrs {
    entries: Vec<(String, String)>,
}

/// The map that a list of entries stands for.
pub open spec fn entries_map(s: Seq<(String, String)>) -> Map<Seq<char>, Seq<char>>
    decreases s.len(),
{
    if s.len() == 0 {
        Map::empty()
    } else {
        entries_map(s.drop_last()).insert(s.last().0@, s.last().1@)
    }
}

/// A key is mapped exactly when some entry holds it, and then to the value
/// of the last such entry.
pub proof fn lemma_entries_map_lookup(s: Seq<(String, String)>, key: Seq<char>, i: int)
    requires
        0 <= i < s.len(),
        s[i].0@ == key,
        forall|k: int| i < k < s.len() ==> s[k].0@ != key,
    ensures
        entries_map(s).contains_key(key),
        entries_map(s)[key] == s[i].1@,
    decreases s.len(),
{
    if i < s.len() - 1 {
        lemma_entries_map_lookup(s.drop_last(), key, i);
    }
}

/// A key that no entry holds is not mapped.
pub proof fn lemma_entries_map_absent(s: Seq<(String, String)>, key: Seq<char>)
    requires
        forall|k: int| 0 <= k < s.len() ==> s[k].0@ != key,
    ensures
        !entries_map(s).contains_key(key),
    decreases s.len(),
{
    if s.len() > 0 {
        lemma_entries_map_absent(s.drop_last(), key);
    }
}

/// The key of every entry is mapped.
pub proof fn lemma_entries_map_present(s: Seq<(String, String)>, i: int)
    requires
        0 <= i < s.len(),
    ensures
        entries_map(s).contains_key(s[i].0@),
    decreases s.len(),
{
    if i < s.len() - 1 {
        lemma_entries_map_present(s.drop_last(), i);
    }
}

impl View for Attrs {
    type V = Map<Seq<char>, Seq<char>>;

    closed spec fn view(&self) -> Map<Seq<char>, Seq<char>> {
        entries_map(self.entries@)
    }
}

impl Attrs {
    /// The entries in the order in which they were inserted.
    pub closed spec fn entries(&self) -> Seq<(Seq<char>, Seq<char>)> {
        Seq::new(self.entries@.len(), |i: int| (self.entries@[i].0@, self.entries@[i].1@))
    }

    /// No attributes.
    pub fn new() -> (attrs: Attrs)
        ensures
            attrs@ == Map::<Seq<char>, Seq<char>>::empty(),
    {
        Attrs { entries: Vec::new() }
    }

    /// Maps `key` to `value`, replacing what `key` was mapped to.
    pub fn insert(&mut self, key: String, value: String)
        ensures
            final(self)@ == old(self)@.insert(key@, value@),
    {
        self.entries.push((key, value));
        proof {
            assert(self.entries@.drop_last() =~= old(self).entries@);
        }
    }

    /// The value of `key`, if it has one.
    pub fn get(&self, key: &str) -> (value: Option<&String>)
        ensures
            match value {
                Some(v) => self@.contains_key(key@) && self@[key@] == v@,
                None => !self@.contains_key(key@),
            },
    {
        let mut i: usize = self.entries.len();
        while i > 0
            invariant
                i <= self.entries.len(),
                forall|k: int| i <= k < self.entries.len() ==> self.entries@[k].0@ != key@,
            decreases i,
        {
            i -= 1;
            if str_eq(self.entries[i].0.as_str(), key) {
                proof {
                    lemma_entries_map_lookup(self.entries@, key@, i as int);
                }
                return Some(&self.entries[i].1);
            }
        }
        proof {
            lemma_entries_map_absent(self.entries@, key@);
        }
        None
    }

    /// The number of entries held, replaced ones included.
    pub fn entry_count(&self) -> (n: usize)
        ensures
            n == self.entries().len(),
    {
        self.entries.len()
    }

    /// The key and the value of the entry at `index`.
    pub fn entry(&self, index: usize) -> (pair: (&String, &String))
        requires
            index < self.entries().len(),
        ensures
            pair.0@ == self.entries()[index as int].0,
            pair.1@ == self.entries()[index as int].1,
    {
        (&self.entries[index].0, &self.entries[index].1)
    }
}

impl Attrs {
    /// Whether every key of `self` has the same value in `other`.
    fn within(&self, other: &Attrs) -> (yes: bool)
        ensures
            yes == (forall|k: Seq<char>| #[trigger]
                self@.contains_key(k) ==> other@.contains_key(k) && other@[k] == self@[k]),
    {
        let mut i: usize = 0;
        while i < self.entries.len()
            invariant
                i <= self.entries.len(),
                forall|j: int|
                    0 <= j < i ==> other@.contains_key(#[trigger] self.entries@[j].0@)
                        && other@[self.entries@[j].0@] == self@[self.entries@[j].0@],
            decreases self.entries.len() - i,
        {
            let key = self.entries[i].0.as_str();
            proof {
                lemma_entries_map_present(self.entries@, i as int);
                assert(self@.contains_key(key@));
            }
            let same = match (self.get(key), other.get(key)) {
                (Some(mine), Some(theirs)) => str_eq(mine.as_str(), theirs.as_str()),
                _ => false,
            };
            if !same {
                return false;
            }
            i += 1;
        }
        proof {
            assert forall|k: Seq<char>| #[trigger] self@.contains_key(k) implies other@.contains_key(
                k,
            ) && other@[k] == self@[k] by {
                if forall|j: int| 0 <= j < self.entries@.len() ==> self.entries@[j].0@ != k {
                    lemma_entries_map_absent(self.entries@, k);
                } else {
                    let j = choose|j: int| 0 <= j < self.entries@.len() && self.entries@[j].0@ == k;
                    assert(other@.contains_key(self.entries@[j].0@));
                }
            }
        }
        true
    }
}

impl PartialEq for Attrs {
    /// Two attribute lists are equal when they map the same keys to the same
    /// values, in whatever order the entries were inserted.
    fn eq(&self, other: &Attrs) -> (same: bool) {
        let same = self.within(other) && other.within(self);
        proof {
            if same {
                assert(self@ =~= other@);
            }
        }
        same
    }
}

impl PartialEqSpecImpl for Attrs {
    open spec fn obeys_eq_spec() -> bool {
        true
    }

    open spec fn eq_spec(&self, other: &Attrs) -> bool {
        self@ == other@
    }
}

impl Eq for Attrs {

}

impl Clone for Attrs {
    fn clone(&self) -> (copy: Attrs)
        ensures
            copy@ == self@,
            copy.entries() == self.entries(),
    {
        let mut entries: Vec<(String, String)> = Vec::new();
        let mut i: usize = 0;
        while i < self.entries.len()
            invariant
                i <= self.entries.len(),
                entries.len() == i,
                forall|k: int| 0 <= k < i ==> entries@[k] == self.entries@[k],
            decreases self.entries.len() - i,
        {
            let k = self.entries[i].0.clone();
            let v = self.entries[i].1.clone();
            entries.push((k, v));
            i += 1;
        }
        proof {
            assert(entries@ =~= self.entries@);
        }
        let copy = Attrs { entries };
        proof {
            assert(copy.entries() =~= self.entries());
        }
        copy
    }
}

/// A node of the document tree.
#[derive(Debug, PartialEq, Eq)]
pub enum DocElement {
    /// A run of text. A well-formed document holds no empty run.
    DocChars(String),
    /// A group that owns its children.
    DocGroup(Attrs, DocSpan),
}

pub type DocSpan = Vec<DocElement>;

pub type DelSpan = Vec<DelElement>;

pub type AddSpan = Vec<AddElement>;

pub type CurSpan = Vec<CurElement>;

pub type Op = (DelSpan, AddSpan);

/// The root of a document: a forest of elements.
#[derive(Debug, PartialEq, Eq)]
pub struct Doc(pub Vec<DocElement>);

/// An element of a deletion span.
#[derive(Debug, PartialEq, Eq)]
pub enum DelElement {
    DelSkip(usize),
    DelWithGroup(DelSpan),
    DelChars(usize),
    DelGroup(DelSpan),
    DelStyles(usize, StyleSet),
}

/// An element of an addition span.
#[derive(Debug, PartialEq, Eq)]
pub enum AddElement {
    AddSkip(usize),
    AddWithGroup(AddSpan),
    AddChars(String),
    AddGroup(Attrs, AddSpan),
    AddStyles(usize, StyleMap),
}

/// An element of a cursor path.
#[derive(Debug, PartialEq, Eq)]
pub enum CurElement {
    CurSkip(usize),
    CurWithGroup(CurSpan),
    CurGroup,
    CurChar,
}

/// The model of one document element.
pub open spec fn doc_node(e: DocElement) -> DocNode
    decreases e,
{
    match e {
        DocElement::DocChars(text) => DocNode::Chars(text@),
        DocElement::DocGroup(attrs, children) => DocNode::Group(attrs@, doc_nodes(children@)),
    }
}

/// The model of a list of document elements.
pub open spec fn doc_nodes(s: Seq<DocElement>) -> Seq<DocNode>
    decreases s,
{
    Seq::new(
        s.len(),
        |i: int|
            if 0 <= i < s.len() {
                doc_node(s[i])
            } else {
                arbitrary()
            },
    )
}

/// The model of a style map's entries.
pub open spec fn style_entries(s: Seq<(Style, Option<String>)>) -> Seq<(Style, Option<Seq<char>>)> {
    Seq::new(
        s.len(),
        |i: int|
            (
                s[i].0,
                match s[i].1 {
                    Some(v) => Some(v@),
                    None => None,
                },
            ),
    )
}

/// The model of one deletion element.
pub open spec fn del_node(e: DelElement) -> OpNode
    decreases e,
{
    match e {
        DelElement::DelSkip(n) => OpNode::Skip(n as nat),
        DelElement::DelWithGroup(inner) => OpNode::WithGroup(del_nodes(inner@)),
        DelElement::DelChars(n) => OpNode::DelChars(n as nat),
        DelElement::DelGroup(inner) => OpNode::DelGroup(del_nodes(inner@)),
        DelElement::DelStyles(n, styles) => OpNode::DelStyles(n as nat, styles@),
    }
}

/// The model of a deletion span.
pub open spec fn del_nodes(s: Seq<DelElement>) -> Seq<OpNode>
    decreases s,
{
    Seq::new(
        s.len(),
        |i: int|
            if 0 <= i < s.len() {
                del_node(s[i])
            } else {
                arbitrary()
            },
    )
}

/// The model of one addition element.
pub open spec fn add_node(e: AddElement) -> OpNode
    decreases e,
{
    match e {
        AddElement::AddSkip(n) => OpNode::Skip(n as nat),
        AddElement::AddWithGroup(inner) => OpNode::WithGroup(add_nodes(inner@)),
        AddElement::AddChars(text) => OpNode::AddChars(text@),
        AddElement::AddGroup(attrs, inner) => OpNode::AddGroup(attrs@, add_nodes(inner@)),
        AddElement::AddStyles(n, styles) => OpNode::AddStyles(n as nat, style_entries(styles@)),
    }
}

/// The model of an addition span.
pub open spec fn add_nodes(s: Seq<AddElement>) -> Seq<OpNode>
    decreases s,
{
    Seq::new(
        s.len(),
        |i: int|
            if 0 <= i < s.len() {
                add_node(s[i])
            } else {
                arbitrary()
            },
    )
}

/// The model of one cursor element.
pub open spec fn cur_node(e: CurElement) -> CurNode
    decreases e,
{
    match e {
        CurElement::CurSkip(n) => CurNode::Skip(n as nat),
        CurElement::CurWithGroup(inner) => CurNode::WithGroup(cur_nodes(inner@)),
        CurElement::CurGroup => CurNode::Group,
        CurElement::CurChar => CurNode::Char,
    }
}

/// The model of a cursor path.
pub open spec fn cur_nodes(s: Seq<CurElement>) -> Seq<CurNode>
    decreases s,
{
    Seq::new(
        s.len(),
        |i: int|
            if 0 <= i < s.len() {
                cur_node(s[i])
            } else {
                arbitrary()
            },
    )
}

impl DeepView for DocElement {
    type V = DocNode;

    open spec fn deep_view(&self) -> DocNode {
        doc_node(*self)
    }
}

impl DeepView for DelElement {
    type V = OpNode;

    open spec fn deep_view(&self) -> OpNode {
        del_node(*self)
    }
}

impl DeepView for AddElement {
    type V = OpNode;

    open spec fn deep_view(&self) -> OpNode {
        add_node(*self)
    }
}

impl DeepView for CurElement {
    type V = CurNode;

    open spec fn deep_view(&self) -> CurNode {
        cur_node(*self)
    }
}

impl View for Doc {
    type V = Seq<DocNode>;

    open spec fn view(&self) -> Seq<DocNode> {
        doc_nodes(self.0@)
    }
}

/// Copies a list of document elements.
pub fn clone_doc_span(span: &Vec<DocElement>) -> (copy: Vec<DocElement>)
    ensures
        doc_nodes(copy@) == doc_nodes(span@),
    decreases span,
{
    let mut copy: Vec<DocElement> = Vec::new();
    let mut i: usize = 0;
    while i < span.len()
        invariant
            i <= span.len(),
            copy.len() == i,
            forall|k: int| 0 <= k < i ==> doc_node(copy@[k]) == doc_node(span@[k]),
        decreases span.len() - i,
    {
        let e = span[i].clone();
        copy.push(e);
        i += 1;
    }
    proof {
        assert(doc_nodes(copy@) =~= doc_nodes(span@));
    }
    copy
}

impl Clone for DocElement {
    fn clone(&self) -> (copy: DocElement)
        ensures
            doc_node(copy) == doc_node(*self),
        decreases self,
    {
        match self {
            DocElement::DocChars(text) => DocElement::DocChars(text.clone()),
            DocElement::DocGroup(attrs, children) => DocElement::DocGroup(
                attrs.clone(),
                clone_doc_span(children),
            ),
        }
    }
}

/// Copies a deletion span.
pub fn clone_del_span(span: &Vec<DelElement>) -> (copy: Vec<DelElement>)
    ensures
        del_nodes(copy@) == del_nodes(span@),
    decreases span,
{
    let mut copy: Vec<DelElement> = Vec::new();
    let mut i: usize = 0;
    while i < span.len()
        invariant
            i <= span.len(),
            copy.len() == i,
            forall|k: int| 0 <= k < i ==> del_node(copy@[k]) == del_node(span@[k]),
        decreases span.len() - i,
    {
        let e = span[i].clone();
        copy.push(e);
        i += 1;
    }
    proof {
        assert(del_nodes(copy@) =~= del_nodes(span@));
    }
    copy
}

impl Clone for DelElement {
    fn clone(&self) -> (copy: DelElement)
        ensures
            del_node(copy) == del_node(*self),
        decreases self,
    {
        match self {
            DelElement::DelSkip(n) => DelElement::DelSkip(*n),
            DelElement::DelWithGroup(inner) => DelElement::DelWithGroup(clone_del_span(inner)),
            DelElement::DelChars(n) => DelElement::DelChars(*n),
            DelElement::DelGroup(inner) => DelElement::DelGroup(clone_del_span(inner)),
            DelElement::DelStyles(n, styles) => {
                let mut copy: Vec<Style> = Vec::new();
                let mut i: usize = 0;
                while i < styles.len()
                    invariant
                        i <= styles.len(),
                        copy.len() == i,
                        forall|k: int| 0 <= k < i ==> copy@[k] == styles@[k],
                    decreases styles.len() - i,
                {
                    copy.push(styles[i]);
                    i += 1;
                }
                proof {
                    assert(copy@ =~= styles@);
                }
                DelElement::DelStyles(*n, copy)
            },
        }
    }
}

/// Copies an addition span.
pub fn clone_add_span(span: &Vec<AddElement>) -> (copy: Vec<AddElement>)
    ensures
        add_nodes(copy@) == add_nodes(span@),
    decreases span,
{
    let mut copy: Vec<AddElement> = Vec::new();
    let mut i: usize = 0;
    while i < span.len()
        invariant
            i <= span.len(),
            copy.len() == i,
            forall|k: int| 0 <= k < i ==> add_node(copy@[k]) == add_node(span@[k]),
        decreases span.len() - i,
    {
        let e = span[i].clone();
        copy.push(e);
        i += 1;
    }
    proof {
        assert(add_nodes(copy@) =~= add_nodes(span@));
    }
    copy
}

impl Clone for AddElement {
    fn clone(&self) -> (copy: AddElement)
        ensures
            add_node(copy) == add_node(*self),
        decreases self,
    {
        match self {
            AddElement::AddSkip(n) => AddElement::AddSkip(*n),
            AddElement::AddWithGroup(inner) => AddElement::AddWithGroup(clone_add_span(inner)),
            AddElement::AddChars(text) => AddElement::AddChars(text.clone()),
            AddElement::AddGroup(attrs, inner) => AddElement::AddGroup(
                attrs.clone(),
                clone_add_span(inner),
            ),
            AddElement::AddStyles(n, styles) => {
                let mut copy: Vec<(Style, Option<String>)> = Vec::new();
                let mut i: usize = 0;
                while i < styles.len()
                    invariant
                        i <= styles.len(),
                        copy.len() == i,
                        forall|k: int| 0 <= k < i ==> copy@[k] == styles@[k],
                    decreases styles.len() - i,
                {
                    let value = match &styles[i].1 {
                        Some(v) => Some(v.clone()),
                        None => None,
                    };
                    copy.push((styles[i].0, value));
                    i += 1;
                }
                proof {
                    assert(copy@ =~= styles@);
                }
                AddElement::AddStyles(*n, copy)
            },
        }
    }
}

/// Copies a cursor path.
pub fn clone_cur_span(span: &Vec<CurElement>) -> (copy: Vec<CurElement>)
    ensures
        cur_nodes(copy@) == cur_nodes(span@),
    decreases span,
{
    let mut copy: Vec<CurElement> = Vec::new();
    let mut i: usize = 0;
    while i < span.len()
        invariant
            i <= span.len(),
            copy.len() == i,
            forall|k: int| 0 <= k < i ==> cur_node(copy@[k]) == cur_node(span@[k]),
        decreases span.len() - i,
    {
        let e = span[i].clone();
        copy.push(e);
        i += 1;
    }
    proof {
        assert(cur_nodes(copy@) =~= cur_nodes(span@));
    }
    copy
}

impl Clone for CurElement {
    fn clone(&self) -> (copy: CurElement)
        ensures
            cur_node(copy) == cur_node(*self),
        decreases self,
    {
        match self {
            CurElement::CurSkip(n) => CurElement::CurSkip(*n),
            CurElement::CurWithGroup(inner) => CurElement::CurWithGroup(clone_cur_span(inner)),
            CurElement::CurGroup => CurElement::CurGroup,
            CurElement::CurChar => CurElement::CurChar,
        }
    }
}

impl Clone for Doc {
    fn clone(&self) -> (copy: Doc)
        ensures
            copy@ == self@,
    {
        Doc(clone_doc_span(&self.0))
    }
}

} // verus!
