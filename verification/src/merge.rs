//! Deep merge of document trees.
//!
//! Two mappings merge key by key. Two values that are both no mapping do
//! not merge: the later one stands. A mapping and a value that is no mapping
//! cannot be merged at all.

use crate::document::{docs_of, lemma_mapping_view, pairs_of, Doc, Tree};
use vstd::prelude::*;

verus! {

/// `key` is the key of entry `i` and of no entry before it.
pub open spec fn is_first_key(entries: Seq<(Doc, Doc)>, key: Doc, i: int) -> bool {
    &&& 0 <= i < entries.len()
    &&& entries[i].0 == key
    &&& forall|j: int| 0 <= j < i ==> entries[j].0 != key
}

/// The position of the first entry with the given key.
pub open spec fn key_position(entries: Seq<(Doc, Doc)>, key: Doc) -> Option<int> {
    if exists|i: int| is_first_key(entries, key, i) {
        Some(choose|i: int| is_first_key(entries, key, i))
    } else {
        None
    }
}

/// The value of the first entry with the given key.
pub open spec fn lookup(entries: Seq<(Doc, Doc)>, key: Doc) -> Option<Doc> {
    match key_position(entries, key) {
        Some(i) => Some(entries[i].1),
        None => None,
    }
}

/// The merge of `over` into `base`, or the keys that lead to the place
/// where the two cannot be merged.
pub open spec fn merge_docs(base: Doc, over: Doc) -> Result<Doc, Seq<Doc>>
    decreases over, 0nat,
{
    match (base, over) {
        (Doc::Dict(a), Doc::Dict(b)) => match merge_entries(a, b) {
            Ok(merged) => Ok(Doc::Dict(merged)),
            Err(path) => Err(path),
        },
        (Doc::Dict(_), _) => Err(Seq::empty()),
        (_, Doc::Dict(_)) => Err(Seq::empty()),
        (_, _) => Ok(over),
    }
}

/// The merge of the entries `over` into the entries `base`, one entry
/// after the other; the first entry that cannot be merged decides.
pub open spec fn merge_entries(base: Seq<(Doc, Doc)>, over: Seq<(Doc, Doc)>) -> Result<
    Seq<(Doc, Doc)>,
    Seq<Doc>,
>
    decreases over, 0nat,
{
    if over.len() == 0 {
        Ok(base)
    } else {
        match merge_entries(base, over.drop_last()) {
            Ok(merged) => merge_entry(merged, over.last().0, over.last().1),
            Err(path) => Err(path),
        }
    }
}

/// The merge of one entry into the entries `base`: a new key is added at
/// the end, a known key keeps its place and gets the merged value.
pub open spec fn merge_entry(base: Seq<(Doc, Doc)>, key: Doc, value: Doc) -> Result<
    Seq<(Doc, Doc)>,
    Seq<Doc>,
>
    decreases value, 1nat,
{
    match key_position(base, key) {
        None => Ok(base.push((key, value))),
        Some(i) => match merge_docs(base[i].1, value) {
            Ok(merged) => Ok(base.update(i, (key, merged))),
            Err(path) => Err(seq![key] + path),
        },
    }
}

/// The merge of a list of documents, each merged into what the ones before
/// it gave; no document gives the empty mapping. Where two cannot be
/// merged: the position of the later one and the keys that lead to the
/// place.
pub open spec fn merge_all_docs(docs: Seq<Doc>) -> Result<Doc, (int, Seq<Doc>)>
    decreases docs.len(),
{
    if docs.len() == 0 {
        Ok(Doc::Dict(Seq::empty()))
    } else if docs.len() == 1 {
        Ok(docs[0])
    } else {
        match merge_all_docs(docs.drop_last()) {
            Ok(merged) => match merge_docs(merged, docs.last()) {
                Ok(all) => Ok(all),
                Err(path) => Err((docs.len() - 1, path)),
            },
            Err(conflict) => Err(conflict),
        }
    }
}

/// Two documents that cannot be merged.
#[derive(Debug, PartialEq, Eq)]
pub struct MergeError {
    /// The position, in the list of documents, of the later of the two.
    pub fragment: usize,
    /// The keys that lead from the root to the place where one of the two
    /// holds a mapping and the other does not.
    pub path: Vec<Tree>,
}

/// An entry that cannot be merged stops the merge of all entries.
pub proof fn lemma_merge_entries_stops(
    base: Seq<(Doc, Doc)>,
    over: Seq<(Doc, Doc)>,
    n: int,
)
    requires
        0 <= n <= over.len(),
        merge_entries(base, over.take(n)) is Err,
    ensures
        merge_entries(base, over) == merge_entries(base, over.take(n)),
    decreases over.len(),
{
    if n < over.len() {
        assert(over.drop_last().take(n) =~= over.take(n));
        lemma_merge_entries_stops(base, over.drop_last(), n);
    } else {
        assert(over.take(n) =~= over);
    }
}

/// Where `key` stands among the entries.
fn find_key(entries: &Vec<(Tree, Tree)>, key: &Tree) -> (r: Option<usize>)
    ensures
        match r {
            Some(i) => key_position(pairs_of(entries@), key@) == Some(i as int) && i
                < entries.len(),
            None => key_position(pairs_of(entries@), key@) is None,
        },
{
    let mut i: usize = 0;
    while i < entries.len()
        invariant
            i <= entries.len(),
            forall|j: int| 0 <= j < i ==> pairs_of(entries@)[j].0 != key@,
        decreases entries.len() - i,
    {
        if entries[i].0.same(key) {
            proof {
                let pairs = pairs_of(entries@);
                assert(is_first_key(pairs, key@, i as int));
                let k = choose|k: int| is_first_key(pairs, key@, k);
                assert(k == i);
            }
            return Some(i);
        }
        i += 1;
    }
    None
}

/// Merges `over` into `base`.
///
/// Fails with the keys that lead to the place where one of the two holds a
/// mapping and the other does not.
#[verifier::loop_isolation(false)]
pub fn merge(base: &Tree, over: &Tree) -> (r: Result<Tree, Vec<Tree>>)
    ensures
        match r {
            Ok(merged) => merge_docs(base@, over@) == Ok::<Doc, Seq<Doc>>(merged@),
            Err(path) => merge_docs(base@, over@) == Err::<Doc, Seq<Doc>>(docs_of(path@)),
        },
    decreases over,
{
    match (base, over) {
        (Tree::Mapping(a), Tree::Mapping(b)) => {
            proof {
                lemma_mapping_view(*a);
                lemma_mapping_view(*b);
            }
            let mut acc: Vec<(Tree, Tree)> = Vec::new();
            let mut n: usize = 0;
            while n < a.len()
                invariant
                    n <= a.len(),
                    acc@.len() == n,
                    forall|j: int|
                        0 <= j < n ==> acc@[j].0@ == a@[j].0@ && acc@[j].1@ == a@[j].1@,
                decreases a.len() - n,
            {
                acc.push((a[n].0.duplicate(), a[n].1.duplicate()));
                n += 1;
            }
            assert(pairs_of(acc@) =~= pairs_of(a@));
            assert(pairs_of(b@).take(0) =~= Seq::<(Doc, Doc)>::empty());
            let mut j: usize = 0;
            while j < b.len()
                invariant
                    j <= b.len(),
                    merge_entries(pairs_of(a@), pairs_of(b@).take(j as int)) == Ok::<
                        Seq<(Doc, Doc)>,
                        Seq<Doc>,
                    >(pairs_of(acc@)),
                decreases b.len() - j,
            {
                let key = &b[j].0;
                let value = &b[j].1;
                let ghost before = pairs_of(acc@);
                proof {
                    let upto = pairs_of(b@).take(j + 1);
                    assert(upto.drop_last() =~= pairs_of(b@).take(j as int));
                    assert(upto.last() == (key@, value@));
                    assert(merge_entries(pairs_of(a@), upto) == merge_entry(
                        before,
                        key@,
                        value@,
                    ));
                }
                match find_key(&acc, key) {
                    None => {
                        acc.push((key.duplicate(), value.duplicate()));
                        assert(pairs_of(acc@) =~= before.push((key@, value@)));
                    },
                    Some(i) => {
                        assert(before[i as int].1 == acc@[i as int].1@);
                        match merge(&acc[i].1, value) {
                            Ok(merged) => {
                                let ghost m = merged@;
                                acc.set(i, (key.duplicate(), merged));
                                assert(pairs_of(acc@) =~= before.update(i as int, (key@, m)));
                            },
                            Err(inner) => {
                                let mut path = inner;
                                let ghost tail = docs_of(path@);
                                path.insert(0, key.duplicate());
                                proof {
                                    assert(docs_of(path@) =~= seq![key@] + tail);
                                    lemma_merge_entries_stops(
                                        pairs_of(a@),
                                        pairs_of(b@),
                                        j + 1,
                                    );
                                }
                                return Err(path);
                            },
                        }
                    },
                }
                j += 1;
            }
            proof {
                assert(pairs_of(b@).take(b.len() as int) =~= pairs_of(b@));
                lemma_mapping_view(acc);
            }
            Ok(Tree::Mapping(acc))
        },
        (Tree::Mapping(_), _) => {
            let path: Vec<Tree> = Vec::new();
            assert(docs_of(path@) =~= Seq::<Doc>::empty());
            Err(path)
        },
        (_, Tree::Mapping(_)) => {
            let path: Vec<Tree> = Vec::new();
            assert(docs_of(path@) =~= Seq::<Doc>::empty());
            Err(path)
        },
        (_, _) => Ok(over.duplicate()),
    }
}

/// Merges a list of documents in the order of the list.
///
/// No document gives the empty mapping, and one document gives itself.
pub fn merge_all(docs: &Vec<Tree>) -> (r: Result<Tree, MergeError>)
    ensures
        match r {
            Ok(merged) => merge_all_docs(docs_of(docs@)) == Ok::<Doc, (int, Seq<Doc>)>(merged@),
            Err(e) => merge_all_docs(docs_of(docs@)) == Err::<Doc, (int, Seq<Doc>)>(
                (e.fragment as int, docs_of(e.path@)),
            ),
        },
        docs@.len() == 1 ==> r is Ok && r->Ok_0@ == docs@[0]@,
{
    if docs.len() == 0 {
        let empty: Vec<(Tree, Tree)> = Vec::new();
        proof {
            lemma_mapping_view(empty);
            assert(pairs_of(empty@) =~= Seq::<(Doc, Doc)>::empty());
        }
        return Ok(Tree::Mapping(empty));
    }
    let mut acc = docs[0].duplicate();
    let mut i: usize = 1;
    assert(docs_of(docs@).take(1).len() == 1);
    while i < docs.len()
        invariant
            1 <= i <= docs.len(),
            merge_all_docs(docs_of(docs@).take(i as int)) == Ok::<Doc, (int, Seq<Doc>)>(acc@),
        decreases docs.len() - i,
    {
        proof {
            let upto = docs_of(docs@).take(i + 1);
            assert(upto.drop_last() =~= docs_of(docs@).take(i as int));
            assert(upto.last() == docs@[i as int]@);
        }
        match merge(&acc, &docs[i]) {
            Ok(merged) => {
                acc = merged;
            },
            Err(path) => {
                proof {
                    lemma_merge_all_stops(docs_of(docs@), i + 1);
                }
                return Err(MergeError { fragment: i, path });
            },
        }
        i += 1;
    }
    assert(docs_of(docs@).take(docs.len() as int) =~= docs_of(docs@));
    Ok(acc)
}

/// Two documents that cannot be merged stop the merge of the whole list.
pub proof fn lemma_merge_all_stops(docs: Seq<Doc>, n: int)
    requires
        0 <= n <= docs.len(),
        merge_all_docs(docs.take(n)) is Err,
    ensures
        merge_all_docs(docs) == merge_all_docs(docs.take(n)),
    decreases docs.len(),
{
    if n < docs.len() {
        assert(docs.drop_last().take(n) =~= docs.take(n));
        lemma_merge_all_stops(docs.drop_last(), n);
    } else {
        assert(docs.take(n) =~= docs);
    }
}

/// No key occurs twice among the entries.
pub open spec fn distinct_keys(entries: Seq<(Doc, Doc)>) -> bool {
    forall|i: int, j: int| 0 <= i < j < entries.len() ==> entries[i].0 != entries[j].0
}

/// What the merge of two mappings holds under a key: the merge of the two
/// values where both sides have the key, and the value of the one side that
/// has it where only one has.
pub open spec fn merged_value(base: Option<Doc>, over: Option<Doc>) -> Option<Doc> {
    match (base, over) {
        (Some(a), Some(b)) => match merge_docs(a, b) {
            Ok(merged) => Some(merged),
            Err(_) => None,
        },
        (Some(a), None) => Some(a),
        (None, Some(b)) => Some(b),
        (None, None) => None,
    }
}

/// Merging one entry changes what stands under its key, and nothing
/// else.
pub proof fn lemma_merge_entry_lookup(
    base: Seq<(Doc, Doc)>,
    key: Doc,
    value: Doc,
    other: Doc,
)
    requires
        merge_entry(base, key, value) is Ok,
    ensures
        lookup(merge_entry(base, key, value)->Ok_0, key) == merged_value(
            lookup(base, key),
            Some(value),
        ),
        other != key ==> lookup(merge_entry(base, key, value)->Ok_0, other) == lookup(base, other),
{
    let merged = merge_entry(base, key, value)->Ok_0;
    match key_position(base, key) {
        None => {
            assert(is_first_key(merged, key, base.len() as int)) by {
                assert forall|j: int| 0 <= j < base.len() implies merged[j].0 != key by {
                    if base[j].0 == key {
                        lemma_key_occurs(base, key, j);
                    }
                }
            }
            lemma_key_position_is(merged, key, base.len() as int);
            if other != key {
                if key_position(base, other) is Some {
                    let k = key_position(base, other)->Some_0;
                    assert(is_first_key(merged, other, k));
                    lemma_key_position_is(merged, other, k);
                } else {
                    if key_position(merged, other) is Some {
                        let k = key_position(merged, other)->Some_0;
                        assert(is_first_key(merged, other, k));
                        lemma_key_occurs(base, other, k);
                    }
                }
            }
        },
        Some(i) => {
            assert(is_first_key(base, key, i));
            assert(is_first_key(merged, key, i));
            lemma_key_position_is(merged, key, i);
            if other != key {
                if key_position(base, other) is Some {
                    let k = key_position(base, other)->Some_0;
                    assert(is_first_key(base, other, k));
                    assert(is_first_key(merged, other, k));
                    lemma_key_position_is(merged, other, k);
                } else {
                    if key_position(merged, other) is Some {
                        let k = key_position(merged, other)->Some_0;
                        assert(is_first_key(merged, other, k));
                        lemma_key_occurs(base, other, k);
                    }
                }
            }
        },
    }
}

/// A key that stands at some position has a first position.
pub proof fn lemma_key_occurs(entries: Seq<(Doc, Doc)>, key: Doc, i: int)
    requires
        0 <= i < entries.len(),
        entries[i].0 == key,
    ensures
        key_position(entries, key) is Some,
    decreases i,
{
    if exists|j: int| 0 <= j < i && entries[j].0 == key {
        let j = choose|j: int| 0 <= j < i && entries[j].0 == key;
        lemma_key_occurs(entries, key, j);
    } else {
        assert(is_first_key(entries, key, i));
    }
}

/// The first position of a key is its position.
pub proof fn lemma_key_position_is(entries: Seq<(Doc, Doc)>, key: Doc, i: int)
    requires
        is_first_key(entries, key, i),
    ensures
        key_position(entries, key) == Some(i),
{
    let k = choose|k: int| is_first_key(entries, key, k);
    assert(is_first_key(entries, key, k));
    assert(k == i);
}

/// The merge of two mappings, where it succeeds, holds under every key what
/// the two sides give for it: keys of one side pass through, keys of both
/// sides hold the merge of the two values. The later mapping must hold no
/// key twice.
pub proof fn lemma_merge_lookup(base: Seq<(Doc, Doc)>, over: Seq<(Doc, Doc)>, key: Doc)
    requires
        distinct_keys(over),
        merge_entries(base, over) is Ok,
    ensures
        lookup(merge_entries(base, over)->Ok_0, key) == merged_value(
            lookup(base, key),
            lookup(over, key),
        ),
        lookup(base, key) is Some && lookup(over, key) is Some ==> merge_docs(
            lookup(base, key)->Some_0,
            lookup(over, key)->Some_0,
        ) is Ok,
    decreases over.len(),
{
    if over.len() > 0 {
        let front = over.drop_last();
        let last = over.last();
        assert(distinct_keys(front)) by {
            assert forall|i: int, j: int| 0 <= i < j < front.len() implies front[i].0
                != front[j].0 by {
                assert(front[i] == over[i] && front[j] == over[j]);
            }
        }
        lemma_merge_lookup(base, front, key);
        let sofar = merge_entries(base, front)->Ok_0;
        lemma_merge_entry_lookup(sofar, last.0, last.1, key);
        if key == last.0 {
            if key_position(front, key) is Some {
                let k = key_position(front, key)->Some_0;
                assert(is_first_key(front, key, k));
                assert(over[k].0 == over[over.len() - 1].0);
            }
            assert(is_first_key(over, key, over.len() - 1)) by {
                assert forall|j: int| 0 <= j < over.len() - 1 implies over[j].0 != key by {
                    assert(over[j].0 != over[over.len() - 1].0);
                }
            }
            lemma_key_position_is(over, key, over.len() - 1);
        } else {
            if key_position(front, key) is Some {
                let k = key_position(front, key)->Some_0;
                assert(is_first_key(front, key, k));
                assert(is_first_key(over, key, k)) by {
                    assert forall|j: int| 0 <= j < k implies over[j].0 != key by {
                        assert(front[j] == over[j]);
                    }
                    assert(front[k] == over[k]);
                }
                lemma_key_position_is(over, key, k);
            } else {
                if key_position(over, key) is Some {
                    let k = key_position(over, key)->Some_0;
                    assert(is_first_key(over, key, k));
                    assert(front[k] == over[k]);
                    lemma_key_occurs(front, key, k);
                }
            }
        }
    } else {
        assert(key_position(over, key) is None);
    }
}

/// Merging brings no key in twice: where no key occurs twice among the
/// earlier entries, none does among the merged ones.
pub proof fn lemma_merge_keeps_keys_distinct(base: Seq<(Doc, Doc)>, over: Seq<(Doc, Doc)>)
    requires
        distinct_keys(base),
        merge_entries(base, over) is Ok,
    ensures
        distinct_keys(merge_entries(base, over)->Ok_0),
    decreases over.len(),
{
    if over.len() > 0 {
        lemma_merge_keeps_keys_distinct(base, over.drop_last());
        let sofar = merge_entries(base, over.drop_last())->Ok_0;
        let key = over.last().0;
        let merged = merge_entries(base, over)->Ok_0;
        assert(merge_entries(base, over) == merge_entry(sofar, key, over.last().1));
        match key_position(sofar, key) {
            None => {
                assert(merged == sofar.push((key, over.last().1)));
                assert forall|i: int, j: int| 0 <= i < j < merged.len() implies merged[i].0
                    != merged[j].0 by {
                    if j == sofar.len() {
                        assert(merged[i] == sofar[i]);
                        if sofar[i].0 == key {
                            lemma_key_occurs(sofar, key, i);
                        }
                    } else {
                        assert(merged[i] == sofar[i] && merged[j] == sofar[j]);
                    }
                }
            },
            Some(k) => {
                assert(is_first_key(sofar, key, k));
                assert forall|i: int, j: int| 0 <= i < j < merged.len() implies merged[i].0
                    != merged[j].0 by {
                    assert(merged[i].0 == sofar[i].0 && merged[j].0 == sofar[j].0);
                }
            },
        }
    }
}

/// Merging the empty mapping into a mapping changes nothing, and so does
/// merging a mapping without a repeated key into the empty mapping.
pub proof fn lemma_merge_empty(entries: Seq<(Doc, Doc)>)
    ensures
        merge_docs(Doc::Dict(entries), Doc::Dict(Seq::empty())) == Ok::<Doc, Seq<Doc>>(
            Doc::Dict(entries),
        ),
        distinct_keys(entries) ==> merge_docs(Doc::Dict(Seq::empty()), Doc::Dict(entries)) == Ok::<
            Doc,
            Seq<Doc>,
        >(Doc::Dict(entries)),
{
    if distinct_keys(entries) {
        lemma_merge_into_empty(entries, entries.len() as int);
        assert(entries.take(entries.len() as int) =~= entries);
    }
}

/// Merging the first `n` entries of a mapping without a repeated key into
/// the empty mapping gives those entries.
pub proof fn lemma_merge_into_empty(entries: Seq<(Doc, Doc)>, n: int)
    requires
        distinct_keys(entries),
        0 <= n <= entries.len(),
    ensures
        merge_entries(Seq::empty(), entries.take(n)) == Ok::<Seq<(Doc, Doc)>, Seq<Doc>>(
            entries.take(n),
        ),
    decreases n,
{
    if n == 0 {
        assert(entries.take(0) =~= Seq::<(Doc, Doc)>::empty());
    } else {
        lemma_merge_into_empty(entries, n - 1);
        let upto = entries.take(n);
        let front = entries.take(n - 1);
        assert(upto.drop_last() =~= front);
        assert(upto.last() == entries[n - 1]);
        if key_position(front, entries[n - 1].0) is Some {
            let k = key_position(front, entries[n - 1].0)->Some_0;
            assert(is_first_key(front, entries[n - 1].0, k));
            assert(entries[k].0 == entries[n - 1].0);
        }
        assert(key_position(front, entries[n - 1].0) is None);
        assert(front.push((entries[n - 1].0, entries[n - 1].1)) =~= upto);
        assert(merge_entry(front, upto.last().0, upto.last().1) == Ok::<
            Seq<(Doc, Doc)>,
            Seq<Doc>,
        >(upto));
        assert(merge_entries(Seq::empty(), upto) == merge_entry(
            front,
            upto.last().0,
            upto.last().1,
        ));
    }
}

/// The merge of a single document is that document.
pub proof fn lemma_merge_single(doc: Doc)
    ensures
        merge_all_docs(seq![doc]) == Ok::<Doc, (int, Seq<Doc>)>(doc),
{
}

/// Of two values that are both no mapping, the later one stands: nothing
/// of the earlier one is kept, whether they are scalars or sequences.
pub proof fn lemma_leaf_replaced(base: Doc, over: Doc)
    requires
        !(base is Dict),
        !(over is Dict),
    ensures
        merge_docs(base, over) == Ok::<Doc, Seq<Doc>>(over),
{
}

/// A mapping and a value that is no mapping cannot be merged.
pub proof fn lemma_mixed_conflict(base: Doc, over: Doc)
    requires
        (base is Dict) != (over is Dict),
    ensures
        merge_docs(base, over) == Err::<Doc, Seq<Doc>>(Seq::empty()),
{
}

} // verus!
