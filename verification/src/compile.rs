//! From the texts of the description files to the manifest.
//!
//! The files are taken in the ascending order of their paths. Each text
//! is read, the documents are merged in that order, and the merged document
//! is decoded.

use crate::decode::{decode, decode_doc};
use crate::document::{docs_of, lemma_mapping_view, pairs_of, Doc, Tree};
use crate::merge::{merge_all, merge_all_docs};
use crate::sbd::{SbdFile, SbdFileModel};
use crate::schema::{DecodeError, Fault};
use crate::text::{ascending, ends_with, insert_ascending, lemma_ascending_unique, text_ends_with};
use crate::yaml::{parse, yaml_parsed};
use vstd::prelude::*;

verus! {

/// Whether a path is that of a description file: it ends in `.yaml`.
pub open spec fn is_fragment_path(path: Seq<char>) -> bool {
    text_ends_with(path, ".yaml"@)
}

/// The paths of the description files among `paths`, each once, in the
/// ascending order of their bytes: the order in which the files are merged.
pub fn fragment_paths(paths: &Vec<String>) -> (r: Vec<String>)
    ensures
        ascending(r.deep_view()),
        forall|p: Seq<char>| #[trigger]
            r.deep_view().contains(p) <==> paths.deep_view().contains(p) && is_fragment_path(p),
{
    let ghost all = paths.deep_view();
    let mut out: Vec<String> = Vec::new();
    let mut i: usize = 0;
    while i < paths.len()
        invariant
            i <= paths.len(),
            all == paths.deep_view(),
            ascending(out.deep_view()),
            forall|p: Seq<char>| #[trigger]
                out.deep_view().contains(p) <==> all.take(i as int).contains(p)
                    && is_fragment_path(p),
        decreases paths.len() - i,
    {
        let ghost before = out.deep_view();
        let ghost path = paths@[i as int]@;
        proof {
            let upto = all.take(i + 1);
            let sofar = all.take(i as int);
            assert forall|p: Seq<char>| upto.contains(p) <==> sofar.contains(p) || p == path by {
                if upto.contains(p) {
                    let k = choose|k: int| 0 <= k < upto.len() && upto[k] == p;
                    if k < i {
                        assert(sofar[k] == p);
                    }
                }
                if sofar.contains(p) {
                    let k = choose|k: int| 0 <= k < sofar.len() && sofar[k] == p;
                    assert(upto[k] == p);
                }
                if p == path {
                    assert(upto[i as int] == p);
                }
            }
        }
        if ends_with(paths[i].as_str(), ".yaml") {
            insert_ascending(&mut out, paths[i].clone());
            proof {
                let after = out.deep_view();
                assert forall|p: Seq<char>| after.contains(p) <==> before.contains(p) || p
                    == path by {
                    assert(after.to_set().contains(p) <==> before.to_set().insert(path).contains(
                        p,
                    ));
                }
            }
        }
        i += 1;
    }
    assert(all.take(paths.len() as int) =~= all);
    out
}

/// The order of the description files depends on nothing but the set of
/// paths: two lists that hold the same paths give the same order.
pub proof fn lemma_fragment_order_is_determined(
    first: Seq<Seq<char>>,
    second: Seq<Seq<char>>,
    first_order: Seq<Seq<char>>,
    second_order: Seq<Seq<char>>,
)
    requires
        forall|p: Seq<char>| first.contains(p) <==> second.contains(p),
        ascending(first_order),
        ascending(second_order),
        forall|p: Seq<char>| #[trigger]
            first_order.contains(p) <==> first.contains(p) && is_fragment_path(p),
        forall|p: Seq<char>| #[trigger]
            second_order.contains(p) <==> second.contains(p) && is_fragment_path(p),
    ensures
        first_order == second_order,
{
    assert forall|p: Seq<char>| first_order.contains(p) <==> second_order.contains(p) by {}
    lemma_ascending_unique(first_order, second_order);
}

/// The document that the text of a description file stands for: the empty
/// mapping for a text without any character, else what the parser reads;
/// `None` where the parser rejects the text.
pub open spec fn fragment_doc(text: Seq<char>) -> Option<Doc> {
    if text.len() == 0 {
        Some(Doc::Dict(Seq::empty()))
    } else {
        yaml_parsed(text)
    }
}

/// The position of the first text that is no document.
pub open spec fn first_unreadable(texts: Seq<Seq<char>>, n: int) -> Option<int>
    decreases n,
{
    if n <= 0 || n > texts.len() {
        None
    } else {
        match first_unreadable(texts, n - 1) {
            Some(i) => Some(i),
            None => if fragment_doc(texts[n - 1]) is None {
                Some(n - 1)
            } else {
                None
            },
        }
    }
}

/// The documents of the texts; of a text that is no document, null.
pub open spec fn fragment_docs(texts: Seq<Seq<char>>) -> Seq<Doc> {
    Seq::new(
        texts.len(),
        |i: int|
            match fragment_doc(texts[i]) {
                Some(doc) => doc,
                None => Doc::Null,
            },
    )
}

/// Why a set of description files gives no manifest.
pub enum CompileFault {
    Parse { fragment: int },
    Merge { fragment: int, path: Seq<Doc> },
    Decode(Fault),
}

/// Why a set of description files gives no manifest.
#[derive(Debug, PartialEq, Eq)]
pub enum CompileError {
    /// The text at position `fragment` is no YAML document.
    Parse { fragment: usize, message: String },
    /// The document at position `fragment` cannot be merged into the ones
    /// before it: at `path` one side holds a mapping and the other does not.
    Merge { fragment: usize, path: Vec<Tree> },
    /// The merged document is not a board description.
    Decode(DecodeError),
}

impl CompileError {
    /// The mathematical value of the error. The parser's message is no
    /// part of it.
    pub open spec fn fault(&self) -> CompileFault {
        match self {
            CompileError::Parse { fragment, message } => CompileFault::Parse {
                fragment: *fragment as int,
            },
            CompileError::Merge { fragment, path } => CompileFault::Merge {
                fragment: *fragment as int,
                path: docs_of(path@),
            },
            CompileError::Decode(e) => CompileFault::Decode(e.deep_view()),
        }
    }
}

/// What the texts of the description files, in the order of the list,
/// give: the manifest, or the first thing that goes wrong. All texts are
/// read before any is merged, and all are merged before anything is decoded.
pub open spec fn compile_texts(texts: Seq<Seq<char>>) -> Result<SbdFileModel, CompileFault> {
    match first_unreadable(texts, texts.len() as int) {
        Some(i) => Err(CompileFault::Parse { fragment: i }),
        None => match merge_all_docs(fragment_docs(texts)) {
            Err((i, path)) => Err(CompileFault::Merge { fragment: i, path }),
            Ok(merged) => match decode_doc(merged) {
                Err(f) => Err(CompileFault::Decode(f)),
                Ok(manifest) => Ok(manifest),
            },
        },
    }
}

/// Reads the text of one description file. A text without any character
/// stands for the empty mapping.
pub fn read_fragment(text: &str) -> (r: Result<Tree, String>)
    ensures
        match r {
            Ok(tree) => fragment_doc(text@) == Some(tree@),
            Err(_) => fragment_doc(text@) is None,
        },
{
    if text.is_empty() {
        let empty: Vec<(Tree, Tree)> = Vec::new();
        proof {
            lemma_mapping_view(empty);
            assert(pairs_of(empty@) =~= Seq::<(Doc, Doc)>::empty());
        }
        Ok(Tree::Mapping(empty))
    } else {
        match parse(text) {
            Ok(tree) => Ok(tree),
            Err(e) => Err(e.message),
        }
    }
}

/// A text that is no document stays the first such text however many
/// texts follow.
pub proof fn lemma_first_unreadable_stops(texts: Seq<Seq<char>>, n: int, m: int)
    requires
        0 <= n <= m <= texts.len(),
        first_unreadable(texts, n) is Some,
    ensures
        first_unreadable(texts, m) == first_unreadable(texts, n),
    decreases m - n,
{
    if n < m {
        lemma_first_unreadable_stops(texts, n, m - 1);
    }
}

/// Compiles the texts of the description files, given in the order in
/// which they are to be merged, into the manifest.
pub fn compile(texts: &Vec<String>) -> (r: Result<SbdFile, CompileError>)
    ensures
        match r {
            Ok(manifest) => compile_texts(texts.deep_view()) == Ok::<SbdFileModel, CompileFault>(
                manifest.deep_view(),
            ) && manifest.wf(),
            Err(e) => compile_texts(texts.deep_view()) == Err::<SbdFileModel, CompileFault>(
                e.fault(),
            ),
        },
{
    let ghost all = texts.deep_view();
    let mut docs: Vec<Tree> = Vec::new();
    let mut i: usize = 0;
    while i < texts.len()
        invariant
            i <= texts.len(),
            all == texts.deep_view(),
            docs@.len() == i,
            first_unreadable(all, i as int) is None,
            forall|j: int| 0 <= j < i ==> fragment_doc(all[j]) == Some(#[trigger] docs@[j]@),
        decreases texts.len() - i,
    {
        match read_fragment(texts[i].as_str()) {
            Ok(tree) => {
                docs.push(tree);
            },
            Err(message) => {
                proof {
                    lemma_first_unreadable_stops(all, i + 1, all.len() as int);
                }
                return Err(CompileError::Parse { fragment: i, message });
            },
        }
        i += 1;
    }
    assert(docs_of(docs@) =~= fragment_docs(all));
    match merge_all(&docs) {
        Err(e) => Err(CompileError::Merge { fragment: e.fragment, path: e.path }),
        Ok(merged) => match decode(&merged) {
            Err(e) => Err(CompileError::Decode(e)),
            Ok(manifest) => Ok(manifest),
        },
    }
}

} // verus!
