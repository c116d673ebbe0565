//! Untyped document trees: mappings, sequences and scalars.

use vstd::prelude::*;

verus! {

/// The mathematical value of a document tree.
pub enum Doc {
    Null,
    Bool(bool),
    Number(Seq<char>),
    Text(Seq<char>),
    List(Seq<Doc>),
    Dict(Seq<(Doc, Doc)>),
    Tagged(Seq<char>, Box<Doc>),
}

/// An untyped document tree.
///
/// A number is kept as its literal text. A mapping keeps its entries in
/// document order; nothing in the type stops a key from occurring twice.
#[derive(Debug, PartialEq, Eq, Hash)]
pub enum Tree {
    /// Null, also what an empty value reads as.
    Null,
    /// `true` or `false`.
    Bool(bool),
    /// A number, as its text.
    Number(String),
    /// A string.
    Text(String),
    /// A sequence of values.
    Sequence(Vec<Tree>),
    /// A mapping: keys with their values, in the order of the document.
    Mapping(Vec<(Tree, Tree)>),
    /// A value with a tag.
    Tagged(String, Box<Tree>),
}

/// The value of a tree.
pub open spec fn doc_of(v: Tree) -> Doc
    decreases v,
{
    match v {
        Tree::Null => Doc::Null,
        Tree::Bool(b) => Doc::Bool(b),
        Tree::Number(n) => Doc::Number(n@),
        Tree::Text(s) => Doc::Text(s@),
        Tree::Sequence(items) => Doc::List(
            Seq::new(
                items@.len(),
                |i: int|
                    if 0 <= i < items@.len() {
                        doc_of(items@[i])
                    } else {
                        Doc::Null
                    },
            ),
        ),
        Tree::Mapping(entries) => Doc::Dict(
            Seq::new(
                entries@.len(),
                |i: int|
                    if 0 <= i < entries@.len() {
                        let e = entries@[i];
                        (doc_of(e.0), doc_of(e.1))
                    } else {
                        (Doc::Null, Doc::Null)
                    },
            ),
        ),
        Tree::Tagged(tag, inner) => Doc::Tagged(tag@, Box::new(doc_of(*inner))),
    }
}

impl View for Tree {
    type V = Doc;

    open spec fn view(&self) -> Doc {
        doc_of(*self)
    }
}

impl DeepView for Tree {
    type V = Doc;

    open spec fn deep_view(&self) -> Doc {
        doc_of(*self)
    }
}

/// The values of a sequence of trees.
pub open spec fn docs_of(items: Seq<Tree>) -> Seq<Doc> {
    Seq::new(items.len(), |i: int| items[i]@)
}

/// The values of a sequence of mapping entries.
pub open spec fn pairs_of(entries: Seq<(Tree, Tree)>) -> Seq<(Doc, Doc)> {
    Seq::new(entries.len(), |i: int| (entries[i].0@, entries[i].1@))
}

/// A sequence tree's value is the list of its items' values.
pub proof fn lemma_sequence_view(items: Vec<Tree>)
    ensures
        Tree::Sequence(items)@ == Doc::List(docs_of(items@)),
{
    assert(Tree::Sequence(items)@->List_0 =~= docs_of(items@));
}

/// A mapping tree's value is the list of its entries' values.
pub proof fn lemma_mapping_view(entries: Vec<(Tree, Tree)>)
    ensures
        Tree::Mapping(entries)@ == Doc::Dict(pairs_of(entries@)),
{
    let lhs = Tree::Mapping(entries)@->Dict_0;
    let rhs = pairs_of(entries@);
    assert(lhs =~= rhs);
}

impl Tree {
    /// A deep copy of the tree.
    #[verifier::loop_isolation(false)]
    pub fn duplicate(&self) -> (r: Tree)
        ensures
            r@ == self@,
        decreases self,
    {
        match self {
            Tree::Null => Tree::Null,
            Tree::Bool(b) => Tree::Bool(*b),
            Tree::Number(n) => Tree::Number(n.clone()),
            Tree::Text(s) => Tree::Text(s.clone()),
            Tree::Sequence(items) => {
                let mut out: Vec<Tree> = Vec::new();
                let mut i: usize = 0;
                while i < items.len()
                    invariant
                        i <= items.len(),
                        out@.len() == i,
                        forall|j: int| 0 <= j < i ==> out@[j]@ == items@[j]@,
                    decreases items.len() - i,
                {
                    out.push(items[i].duplicate());
                    i += 1;
                }
                proof {
                    lemma_sequence_view(out);
                    lemma_sequence_view(*items);
                    assert(docs_of(out@) =~= docs_of(items@));
                }
                Tree::Sequence(out)
            },
            Tree::Mapping(entries) => {
                let mut out: Vec<(Tree, Tree)> = Vec::new();
                let mut i: usize = 0;
                while i < entries.len()
                    invariant
                        i <= entries.len(),
                        out@.len() == i,
                        forall|j: int|
                            0 <= j < i ==> out@[j].0@ == entries@[j].0@ && out@[j].1@
                                == entries@[j].1@,
                    decreases entries.len() - i,
                {
                    let k = entries[i].0.duplicate();
                    let v = entries[i].1.duplicate();
                    out.push((k, v));
                    i += 1;
                }
                proof {
                    lemma_mapping_view(out);
                    lemma_mapping_view(*entries);
                    assert(pairs_of(out@) =~= pairs_of(entries@));
                }
                Tree::Mapping(out)
            },
            Tree::Tagged(tag, inner) => Tree::Tagged(tag.clone(), Box::new(inner.duplicate())),
        }
    }
}

impl Tree {
    /// Whether two trees have the same value.
    #[verifier::loop_isolation(false)]
    pub fn same(&self, other: &Tree) -> (r: bool)
        ensures
            r == (self@ == other@),
        decreases self,
    {
        match (self, other) {
            (Tree::Null, Tree::Null) => true,
            (Tree::Bool(a), Tree::Bool(b)) => *a == *b,
            (Tree::Number(a), Tree::Number(b)) => *a == *b,
            (Tree::Text(a), Tree::Text(b)) => *a == *b,
            (Tree::Sequence(a), Tree::Sequence(b)) => {
                proof {
                    lemma_sequence_view(*a);
                    lemma_sequence_view(*b);
                }
                if a.len() != b.len() {
                    assert(docs_of(a@).len() != docs_of(b@).len());
                    return false;
                }
                let mut i: usize = 0;
                while i < a.len()
                    invariant
                        i <= a.len(),
                        forall|j: int| 0 <= j < i ==> a@[j]@ == b@[j]@,
                    decreases a.len() - i,
                {
                    if !a[i].same(&b[i]) {
                        assert(docs_of(a@)[i as int] != docs_of(b@)[i as int]);
                        return false;
                    }
                    i += 1;
                }
                assert(docs_of(a@) =~= docs_of(b@));
                true
            },
            (Tree::Mapping(a), Tree::Mapping(b)) => {
                proof {
                    lemma_mapping_view(*a);
                    lemma_mapping_view(*b);
                }
                if a.len() != b.len() {
                    assert(pairs_of(a@).len() != pairs_of(b@).len());
                    return false;
                }
                let mut i: usize = 0;
                while i < a.len()
                    invariant
                        i <= a.len(),
                        forall|j: int|
                            0 <= j < i ==> a@[j].0@ == b@[j].0@ && a@[j].1@ == b@[j].1@,
                    decreases a.len() - i,
                {
                    if !a[i].0.same(&b[i].0) || !a[i].1.same(&b[i].1) {
                        assert(pairs_of(a@)[i as int] != pairs_of(b@)[i as int]);
                        return false;
                    }
                    i += 1;
                }
                assert(pairs_of(a@) =~= pairs_of(b@));
                true
            },
            (Tree::Tagged(ta, a), Tree::Tagged(tb, b)) => *ta == *tb && a.same(b),
            _ => false,
        }
    }
}

impl Clone for Tree {
    fn clone(&self) -> (r: Self)
        ensures
            r@ == self@,
    {
        self.duplicate()
    }
}

} // verus!
