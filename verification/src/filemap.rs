//! A virtual file tree: relative paths and the full text of each file.
//!
//! The tree never touches storage itself. It says what has to be written,
//! and it classifies the files that a walk of a directory has found.

use vstd::prelude::*;
use vstd::utf8::encode_utf8;

verus! {

/// The number of bytes that a text takes on disk.
pub open spec fn byte_len(text: Seq<char>) -> nat {
    encode_utf8(text).len()
}

/// The map that a list of (path, content) pairs describes, a later pair
/// replacing an earlier one with the same path.
pub open spec fn map_of(pairs: Seq<(Seq<char>, Seq<char>)>) -> Map<Seq<char>, Seq<char>>
    decreases pairs.len(),
{
    if pairs.len() == 0 {
        Map::empty()
    } else {
        map_of(pairs.drop_last()).insert(pairs.last().0, pairs.last().1)
    }
}

/// What a directory holds once every pair of `writes` has been written
/// into it, in order: files that were there before and are not written stay.
pub open spec fn disk_after(
    disk: Map<Seq<char>, Seq<char>>,
    writes: Seq<(Seq<char>, Seq<char>)>,
) -> Map<Seq<char>, Seq<char>> {
    disk.union_prefer_right(map_of(writes))
}

/// `path` occurs at position `i` among the pairs and nowhere before it.
pub open spec fn is_first_at(pairs: Seq<(Seq<char>, Seq<char>)>, path: Seq<char>, i: int) -> bool {
    &&& 0 <= i < pairs.len()
    &&& pairs[i].0 == path
    &&& forall|j: int| 0 <= j < i ==> pairs[j].0 != path
}

/// The first position of `path` among the pairs, if it occurs.
pub open spec fn position_of(pairs: Seq<(Seq<char>, Seq<char>)>, path: Seq<char>) -> Option<int> {
    if exists|i: int| is_first_at(pairs, path, i) {
        Some(choose|i: int| is_first_at(pairs, path, i))
    } else {
        None
    }
}

/// The pairs with `path` set to `content`: in place where the path
/// occurs, at the end where it does not.
pub open spec fn upsert(
    pairs: Seq<(Seq<char>, Seq<char>)>,
    path: Seq<char>,
    content: Seq<char>,
) -> Seq<(Seq<char>, Seq<char>)> {
    match position_of(pairs, path) {
        Some(i) => pairs.update(i, (path, content)),
        None => pairs.push((path, content)),
    }
}

/// No path occurs twice among the pairs.
pub open spec fn distinct_paths(pairs: Seq<(Seq<char>, Seq<char>)>) -> bool {
    forall|i: int, j: int| 0 <= i < j < pairs.len() ==> pairs[i].0 != pairs[j].0
}

/// A file that a walk of the target directory has found.
///
/// `path` is relative to the target directory, `len` is the length in bytes
/// that the file system reports, and `content` is the file's text where it
/// was read.
#[derive(Debug, Clone, PartialEq, Eq)]
pub struct DiskFile {
    pub path: String,
    pub len: u64,
    pub content: Option<String>,
}

/// Whether a file on disk counts as holding `expected`.
///
/// A file of the expected length counts as equal whatever its bytes are.
/// Any other file counts as equal only if its text was read and is the
/// expected text.
pub open spec fn file_matches(expected: Seq<char>, file: DiskFile) -> bool {
    file.len == byte_len(expected) || (file.content matches Some(text) && text@ == expected)
}

/// The file is part of the tree and does not count as equal to it.
pub open spec fn is_differing(tree: Map<Seq<char>, Seq<char>>, file: DiskFile) -> bool {
    tree.contains_key(file.path@) && !file_matches(tree[file.path@], file)
}

/// The file is not part of the tree.
pub open spec fn is_extra(tree: Map<Seq<char>, Seq<char>>, file: DiskFile) -> bool {
    !tree.contains_key(file.path@)
}

/// The walk has found a file at `path`.
pub open spec fn seen(files: Seq<DiskFile>, path: Seq<char>) -> bool {
    exists|i: int| 0 <= i < files.len() && files[i].path@ == path
}

/// The paths of the differing files, in the order of the walk.
pub open spec fn differing_of(tree: Map<Seq<char>, Seq<char>>, files: Seq<DiskFile>) -> Seq<
    Seq<char>,
>
    decreases files.len(),
{
    if files.len() == 0 {
        Seq::empty()
    } else if is_differing(tree, files.last()) {
        differing_of(tree, files.drop_last()).push(files.last().path@)
    } else {
        differing_of(tree, files.drop_last())
    }
}

/// The paths of the extra files, in the order of the walk.
pub open spec fn extra_of(tree: Map<Seq<char>, Seq<char>>, files: Seq<DiskFile>) -> Seq<
    Seq<char>,
>
    decreases files.len(),
{
    if files.len() == 0 {
        Seq::empty()
    } else if is_extra(tree, files.last()) {
        extra_of(tree, files.drop_last()).push(files.last().path@)
    } else {
        extra_of(tree, files.drop_last())
    }
}

/// The paths among `pairs` that the walk has not found, in the order of
/// the pairs.
pub open spec fn missing_of(pairs: Seq<(Seq<char>, Seq<char>)>, files: Seq<DiskFile>) -> Seq<
    Seq<char>,
>
    decreases pairs.len(),
{
    if pairs.len() == 0 {
        Seq::empty()
    } else if !seen(files, pairs.last().0) {
        missing_of(pairs.drop_last(), files).push(pairs.last().0)
    } else {
        missing_of(pairs.drop_last(), files)
    }
}

/// The texts of a list of strings.
pub open spec fn texts_of(items: Seq<String>) -> Seq<Seq<char>> {
    Seq::new(items.len(), |i: int| items[i]@)
}

/// The texts of a list of pairs of strings.
pub open spec fn text_pairs_of(items: Seq<(String, String)>) -> Seq<(Seq<char>, Seq<char>)> {
    Seq::new(items.len(), |i: int| (items[i].0@, items[i].1@))
}

/// Why a tree was not written.
#[derive(Debug, Clone, Copy, PartialEq, Eq)]
pub enum WriteError {
    /// The target exists and overwriting was not asked for.
    AlreadyExists,
}

/// A virtual file tree: a map from relative, slash-separated paths to the
/// full text of each file.
#[derive(Debug)]
pub struct FileMap {
    entries: Vec<(String, String)>,
}

impl View for FileMap {
    type V = Map<Seq<char>, Seq<char>>;

    closed spec fn view(&self) -> Map<Seq<char>, Seq<char>> {
        map_of(text_pairs_of(self.entries@))
    }
}

/// Where `path` stands in `entries`.
fn find_path(entries: &Vec<(String, String)>, path: &String) -> (r: Option<usize>)
    ensures
        match r {
            Some(i) => is_first_at(text_pairs_of(entries@), path@, i as int),
            None => forall|j: int| 0 <= j < entries.len() ==> entries@[j].0@ != path@,
        },
{
    let mut i: usize = 0;
    while i < entries.len()
        invariant
            i <= entries.len(),
            forall|j: int| 0 <= j < i ==> entries@[j].0@ != path@,
        decreases entries.len() - i,
    {
        if entries[i].0 == *path {
            return Some(i);
        }
        i += 1;
    }
    None
}

impl FileMap {
    #[verifier::type_invariant]
    spec fn distinct(self) -> bool {
        distinct_paths(text_pairs_of(self.entries@))
    }

    /// The tree's files in the order in which their paths were first
    /// inserted.
    pub closed spec fn listing(&self) -> Seq<(Seq<char>, Seq<char>)> {
        text_pairs_of(self.entries@)
    }

    /// The tree is the map of its listing.
    pub proof fn lemma_listing(&self)
        ensures
            self@ == map_of(self.listing()),
    {
    }

    /// A tree without files.
    pub fn new() -> (r: Self)
        ensures
            r@ == Map::<Seq<char>, Seq<char>>::empty(),
            r.listing() == Seq::<(Seq<char>, Seq<char>)>::empty(),
            distinct_paths(r.listing()),
    {
        let r = FileMap { entries: Vec::new() };
        assert(r.listing() =~= Seq::<(Seq<char>, Seq<char>)>::empty());
        r
    }

    /// Sets the content of the file at `path`, replacing what the tree
    /// held there.
    pub fn insert(&mut self, path: String, content: String)
        ensures
            final(self)@ == old(self)@.insert(path@, content@),
            final(self).listing() == upsert(old(self).listing(), path@, content@),
            distinct_paths(old(self).listing()),
            distinct_paths(final(self).listing()),
    {
        proof {
            use_type_invariant(&*self);
        }
        let ghost before = text_pairs_of(self.entries@);
        let ghost p = path@;
        let ghost c = content@;
        let mut entries: Vec<(String, String)> = Vec::new();
        std::mem::swap(&mut entries, &mut self.entries);
        match find_path(&entries, &path) {
            Some(i) => {
                entries.set(i, (path, content));
                proof {
                    assert(position_of(before, p) == Some(i as int)) by {
                        let k = choose|k: int| is_first_at(before, p, k);
                        assert(k == i);
                    }
                    assert(text_pairs_of(entries@) =~= before.update(i as int, (p, c)));
                    lemma_map_of_update(before, i as int, c);
                }
            },
            None => {
                entries.push((path, content));
                proof {
                    assert(position_of(before, p) is None);
                    assert(text_pairs_of(entries@) =~= before.push((p, c)));
                    assert(before.push((p, c)).drop_last() =~= before);
                }
            },
        }
        self.entries = entries;
    }
}

impl FileMap {
    /// The content that the tree holds for `path`.
    pub fn get(&self, path: &String) -> (r: Option<&String>)
        ensures
            match r {
                Some(content) => self@.contains_key(path@) && content@ == self@[path@],
                None => !self@.contains_key(path@),
            },
    {
        proof {
            use_type_invariant(self);
            lemma_map_of_distinct(self.listing());
        }
        match find_path(&self.entries, path) {
            Some(i) => Some(&self.entries[i].1),
            None => None,
        }
    }

    /// Whether the text of a file found at `path` with length `len` has to
    /// be read before the tree can be compared with it.
    ///
    /// That is so where the tree holds the path and the lengths differ.
    pub fn needs_content(&self, path: &String, len: u64) -> (r: bool)
        ensures
            r == (self@.contains_key(path@) && len != byte_len(self@[path@])),
    {
        match self.get(path) {
            Some(content) => len != content.as_str().as_bytes().len() as u64,
            None => false,
        }
    }

    /// What has to be written for the tree to stand under a target
    /// directory, given whether anything exists at the target.
    ///
    /// Where the target exists and `overwrite` is false nothing may be
    /// written. Otherwise every file of the tree is to be written once,
    /// with its parent directories, over whatever is there.
    pub fn write_all(&self, target_exists: bool, overwrite: bool) -> (r: Result<
        Vec<(String, String)>,
        WriteError,
    >)
        ensures
            !overwrite && target_exists ==> r == Err::<Vec<(String, String)>, WriteError>(
                WriteError::AlreadyExists,
            ),
            overwrite || !target_exists ==> r is Ok && text_pairs_of(r->Ok_0@) == self.listing(),
            distinct_paths(self.listing()),
    {
        proof {
            use_type_invariant(self);
        }
        if !overwrite && target_exists {
            return Err(WriteError::AlreadyExists);
        }
        let mut writes: Vec<(String, String)> = Vec::new();
        let mut i: usize = 0;
        while i < self.entries.len()
            invariant
                i <= self.entries.len(),
                writes@.len() == i,
                forall|j: int|
                    0 <= j < i ==> writes@[j].0@ == self.entries@[j].0@ && writes@[j].1@
                        == self.entries@[j].1@,
            decreases self.entries.len() - i,
        {
            writes.push((self.entries[i].0.clone(), self.entries[i].1.clone()));
            i += 1;
        }
        assert(text_pairs_of(writes@) =~= self.listing());
        Ok(writes)
    }

    /// Classifies the files that a walk of the target directory has found.
    ///
    /// Returns the paths of the differing files and of the extra files,
    /// each in the order of the walk, and the paths of the tree that the
    /// walk has not found, in the tree's order.
    pub fn compare(&self, files: &Vec<DiskFile>) -> (r: (Vec<String>, Vec<String>, Vec<String>))
        ensures
            texts_of(r.0@) == differing_of(self@, files@),
            texts_of(r.1@) == extra_of(self@, files@),
            texts_of(r.2@) == missing_of(self.listing(), files@),
            forall|p: Seq<char>| #[trigger]
                texts_of(r.0@).contains(p) <==> exists|i: int|
                    0 <= i < files@.len() && files@[i].path@ == p && is_differing(
                        self@,
                        #[trigger] files@[i],
                    ),
            forall|p: Seq<char>| #[trigger]
                texts_of(r.1@).contains(p) <==> seen(files@, p) && !self@.contains_key(p),
            forall|p: Seq<char>| #[trigger]
                texts_of(r.2@).contains(p) <==> self@.contains_key(p) && !seen(files@, p),
    {
        let mut differing: Vec<String> = Vec::new();
        let mut extra: Vec<String> = Vec::new();
        let mut missing: Vec<String> = Vec::new();
        let mut i: usize = 0;
        assert(files@.take(0) =~= Seq::<DiskFile>::empty());
        while i < files.len()
            invariant
                i <= files.len(),
                texts_of(differing@) =~= differing_of(self@, files@.take(i as int)),
                texts_of(extra@) =~= extra_of(self@, files@.take(i as int)),
            decreases files.len() - i,
        {
            let file = &files[i];
            proof {
                assert(files@.take(i + 1).drop_last() =~= files@.take(i as int));
                assert(files@.take(i + 1).last() == files@[i as int]);
            }
            match self.get(&file.path) {
                Some(expected) => {
                    let same = file.len == expected.as_str().as_bytes().len() as u64 || match &file.content {
                        Some(text) => *text == *expected,
                        None => false,
                    };
                    if !same {
                        differing.push(file.path.clone());
                    }
                },
                None => {
                    extra.push(file.path.clone());
                },
            }
            i += 1;
        }
        assert(files@.take(files.len() as int) =~= files@);
        let mut k: usize = 0;
        assert(self.listing().take(0) =~= Seq::<(Seq<char>, Seq<char>)>::empty());
        while k < self.entries.len()
            invariant
                k <= self.entries.len(),
                texts_of(missing@) =~= missing_of(self.listing().take(k as int), files@),
            decreases self.entries.len() - k,
        {
            proof {
                assert(self.listing().take(k + 1).drop_last() =~= self.listing().take(k as int));
                assert(self.listing().take(k + 1).last() == self.listing()[k as int]);
            }
            if !was_seen(files, &self.entries[k].0) {
                missing.push(self.entries[k].0.clone());
            }
            k += 1;
        }
        proof {
            assert(self.listing().take(self.entries.len() as int) =~= self.listing());
            use_type_invariant(self);
            lemma_differing_members(self@, files@);
            lemma_extra_members(self@, files@);
            lemma_missing_members(self.listing(), files@);
        }
        (differing, extra, missing)
    }
}

impl FileMap {
    /// Whether `other` holds every file of this tree, with the same
    /// content.
    fn within(&self, other: &FileMap) -> (r: bool)
        ensures
            r == (forall|p: Seq<char>| #[trigger]
                self@.contains_key(p) ==> other@.contains_key(p) && other@[p] == self@[p]),
    {
        let mut i: usize = 0;
        while i < self.entries.len()
            invariant
                i <= self.entries.len(),
                forall|j: int|
                    0 <= j < i ==> other@.contains_key(#[trigger] self.listing()[j].0) && other@[self.listing()[j].0]
                        == self.listing()[j].1,
            decreases self.entries.len() - i,
        {
            let same = match other.get(&self.entries[i].0) {
                Some(content) => *content == self.entries[i].1,
                None => false,
            };
            if !same {
                proof {
                    use_type_invariant(self);
                    lemma_map_of_distinct(self.listing());
                    assert(self@.contains_key(self.listing()[i as int].0));
                }
                return false;
            }
            i += 1;
        }
        proof {
            use_type_invariant(self);
            lemma_map_of_distinct(self.listing());
        }
        true
    }
}

impl Clone for FileMap {
    fn clone(&self) -> (r: Self)
        ensures
            r@ == self@,
            r.listing() == self.listing(),
    {
        proof {
            use_type_invariant(self);
        }
        let mut entries: Vec<(String, String)> = Vec::new();
        let mut i: usize = 0;
        while i < self.entries.len()
            invariant
                i <= self.entries.len(),
                entries@.len() == i,
                forall|j: int|
                    0 <= j < i ==> entries@[j].0@ == self.entries@[j].0@ && entries@[j].1@
                        == self.entries@[j].1@,
            decreases self.entries.len() - i,
        {
            entries.push((self.entries[i].0.clone(), self.entries[i].1.clone()));
            i += 1;
        }
        assert(text_pairs_of(entries@) =~= text_pairs_of(self.entries@));
        FileMap { entries }
    }
}

impl Default for FileMap {
    fn default() -> (r: Self)
        ensures
            r@ == Map::<Seq<char>, Seq<char>>::empty(),
    {
        FileMap::new()
    }
}

impl PartialEq for FileMap {
    /// Two trees are equal if they hold the same files with the same
    /// content, in whatever order these were inserted.
    fn eq(&self, other: &Self) -> (r: bool) {
        let r = self.within(other) && other.within(self);
        proof {
            if r {
                assert(self@ =~= other@);
            }
        }
        r
    }
}

impl vstd::std_specs::cmp::PartialEqSpecImpl for FileMap {
    open spec fn obeys_eq_spec() -> bool {
        true
    }

    open spec fn eq_spec(&self, other: &Self) -> bool {
        self@ == other@
    }
}

impl Eq for FileMap {

}

/// Whether the walk has found a file at `path`.
fn was_seen(files: &Vec<DiskFile>, path: &String) -> (r: bool)
    ensures
        r == seen(files@, path@),
{
    let mut i: usize = 0;
    while i < files.len()
        invariant
            i <= files.len(),
            forall|j: int| 0 <= j < i ==> files@[j].path@ != path@,
        decreases files.len() - i,
    {
        if files[i].path == *path {
            return true;
        }
        i += 1;
    }
    false
}

/// Where no path occurs twice, the map holds exactly the paths of the
/// pairs, each with its content.
pub proof fn lemma_map_of_distinct(pairs: Seq<(Seq<char>, Seq<char>)>)
    requires
        distinct_paths(pairs),
    ensures
        forall|i: int| 0 <= i < pairs.len() ==> map_of(pairs).contains_key(#[trigger] pairs[i].0),
        forall|i: int| 0 <= i < pairs.len() ==> map_of(pairs)[#[trigger] pairs[i].0] == pairs[i].1,
        forall|p: Seq<char>| #[trigger]
            map_of(pairs).contains_key(p) ==> exists|i: int| 0 <= i < pairs.len() && pairs[i].0 == p,
    decreases pairs.len(),
{
    if pairs.len() > 0 {
        let front = pairs.drop_last();
        lemma_map_of_distinct(front);
        assert forall|i: int| 0 <= i < pairs.len() implies map_of(pairs).contains_key(
            #[trigger] pairs[i].0,
        ) && map_of(pairs)[pairs[i].0] == pairs[i].1 by {
            if i < pairs.len() - 1 {
                assert(front[i] == pairs[i]);
            }
        }
        assert forall|p: Seq<char>| #[trigger] map_of(pairs).contains_key(p) implies exists|i: int|
            0 <= i < pairs.len() && pairs[i].0 == p by {
            if p == pairs.last().0 {
                assert(pairs[pairs.len() - 1].0 == p);
            } else {
                assert(map_of(front).contains_key(p));
                let i = choose|i: int| 0 <= i < front.len() && front[i].0 == p;
                assert(pairs[i] == front[i]);
            }
        }
    }
}

/// A path is reported as differing exactly if the walk has found, at
/// that path, a file that is part of the tree and does not count as equal.
pub proof fn lemma_differing_members(tree: Map<Seq<char>, Seq<char>>, files: Seq<DiskFile>)
    ensures
        forall|p: Seq<char>| #[trigger]
            differing_of(tree, files).contains(p) <==> exists|i: int|
                0 <= i < files.len() && files[i].path@ == p && is_differing(
                    tree,
                    #[trigger] files[i],
                ),
    decreases files.len(),
{
    if files.len() > 0 {
        let front = files.drop_last();
        let last = files.last();
        lemma_differing_members(tree, front);
        assert forall|p: Seq<char>| #[trigger]
            differing_of(tree, files).contains(p) <==> exists|i: int|
                0 <= i < files.len() && files[i].path@ == p && is_differing(
                    tree,
                    #[trigger] files[i],
                ) by {
            let found = differing_of(tree, files);
            let before = differing_of(tree, front);
            if found.contains(p) {
                let k = choose|k: int| 0 <= k < found.len() && found[k] == p;
                if is_differing(tree, last) && k == before.len() {
                    assert(files[files.len() - 1].path@ == p);
                } else {
                    assert(before[k] == p);
                    assert(before.contains(p));
                    let i = choose|i: int|
                        0 <= i < front.len() && front[i].path@ == p && is_differing(
                            tree,
                            #[trigger] front[i],
                        );
                    assert(files[i] == front[i]);
                }
            }
            if exists|i: int|
                0 <= i < files.len() && files[i].path@ == p && is_differing(
                    tree,
                    #[trigger] files[i],
                ) {
                let i = choose|i: int|
                    0 <= i < files.len() && files[i].path@ == p && is_differing(
                        tree,
                        #[trigger] files[i],
                    );
                if i == files.len() - 1 {
                    assert(found[found.len() - 1] == p);
                } else {
                    assert(front[i] == files[i]);
                    assert(before.contains(p));
                    let k = choose|k: int| 0 <= k < before.len() && before[k] == p;
                    assert(found[k] == p);
                }
            }
        }
    }
}

/// A path is reported as extra exactly if the walk has found a file at
/// that path and the tree does not hold the path.
pub proof fn lemma_extra_members(tree: Map<Seq<char>, Seq<char>>, files: Seq<DiskFile>)
    ensures
        forall|p: Seq<char>| #[trigger]
            extra_of(tree, files).contains(p) <==> seen(files, p) && !tree.contains_key(p),
    decreases files.len(),
{
    if files.len() > 0 {
        let front = files.drop_last();
        let last = files.last();
        lemma_extra_members(tree, front);
        assert forall|p: Seq<char>| #[trigger]
            extra_of(tree, files).contains(p) <==> seen(files, p) && !tree.contains_key(p) by {
            let found = extra_of(tree, files);
            let before = extra_of(tree, front);
            if found.contains(p) {
                let k = choose|k: int| 0 <= k < found.len() && found[k] == p;
                if is_extra(tree, last) && k == before.len() {
                    assert(files[files.len() - 1].path@ == p);
                } else {
                    assert(before[k] == p);
                    assert(before.contains(p));
                    assert(seen(front, p));
                    let i = choose|i: int| 0 <= i < front.len() && front[i].path@ == p;
                    assert(files[i] == front[i]);
                }
            }
            if seen(files, p) && !tree.contains_key(p) {
                let i = choose|i: int| 0 <= i < files.len() && files[i].path@ == p;
                if i == files.len() - 1 {
                    assert(found[found.len() - 1] == p);
                } else {
                    assert(front[i] == files[i]);
                    assert(seen(front, p));
                    assert(before.contains(p));
                    let k = choose|k: int| 0 <= k < before.len() && before[k] == p;
                    assert(found[k] == p);
                }
            }
        }
    }
}

/// A path is reported as missing exactly if it is a path of the pairs
/// and the walk has found no file at it.
pub proof fn lemma_missing_members(pairs: Seq<(Seq<char>, Seq<char>)>, files: Seq<DiskFile>)
    ensures
        forall|p: Seq<char>| #[trigger]
            missing_of(pairs, files).contains(p) <==> map_of(pairs).contains_key(p) && !seen(
                files,
                p,
            ),
    decreases pairs.len(),
{
    if pairs.len() > 0 {
        let front = pairs.drop_last();
        let last = pairs.last();
        lemma_missing_members(front, files);
        assert forall|p: Seq<char>| #[trigger]
            missing_of(pairs, files).contains(p) <==> map_of(pairs).contains_key(p) && !seen(
                files,
                p,
            ) by {
            let found = missing_of(pairs, files);
            let before = missing_of(front, files);
            if found.contains(p) {
                let k = choose|k: int| 0 <= k < found.len() && found[k] == p;
                if !seen(files, last.0) && k == before.len() {
                    assert(p == last.0);
                } else {
                    assert(before[k] == p);
                    assert(before.contains(p));
                    assert(map_of(front).contains_key(p));
                }
            }
            if map_of(pairs).contains_key(p) && !seen(files, p) {
                if p == last.0 {
                    assert(found[found.len() - 1] == p);
                } else {
                    assert(map_of(front).contains_key(p));
                    assert(before.contains(p));
                    let k = choose|k: int| 0 <= k < before.len() && before[k] == p;
                    assert(found[k] == p);
                }
            }
        }
    }
}

/// `files` is a faithful walk of `disk`: it finds every file of `disk`,
/// finds nothing else, and reports each file's length in bytes.
pub open spec fn walks(files: Seq<DiskFile>, disk: Map<Seq<char>, Seq<char>>) -> bool {
    &&& forall|i: int|
        0 <= i < files.len() ==> disk.contains_key((#[trigger] files[i]).path@) && files[i].len
            == byte_len(disk[files[i].path@])
    &&& forall|p: Seq<char>| #[trigger] disk.contains_key(p) ==> seen(files, p)
}

/// Writing a tree into an empty directory and comparing the tree with a
/// faithful walk of that directory reports nothing.
pub proof fn lemma_compare_after_write(tree: FileMap, files: Seq<DiskFile>)
    requires
        walks(files, disk_after(Map::empty(), tree.listing())),
    ensures
        differing_of(tree@, files) == Seq::<Seq<char>>::empty(),
        extra_of(tree@, files) == Seq::<Seq<char>>::empty(),
        missing_of(tree.listing(), files) == Seq::<Seq<char>>::empty(),
{
    let disk = disk_after(Map::empty(), tree.listing());
    assert(disk =~= tree@);
    lemma_differing_members(tree@, files);
    lemma_extra_members(tree@, files);
    lemma_missing_members(tree.listing(), files);
    let d = differing_of(tree@, files);
    let e = extra_of(tree@, files);
    let m = missing_of(tree.listing(), files);
    if d.len() > 0 {
        assert(d.contains(d[0]));
    }
    if e.len() > 0 {
        assert(e.contains(e[0]));
    }
    if m.len() > 0 {
        assert(m.contains(m[0]));
    }
    assert(d =~= Seq::<Seq<char>>::empty());
    assert(e =~= Seq::<Seq<char>>::empty());
    assert(m =~= Seq::<Seq<char>>::empty());
}

/// Writing never removes a file: what was in the directory and is not
/// part of the tree is still there, and every file of the tree holds the
/// tree's content.
pub proof fn lemma_write_keeps_other_files(tree: FileMap, disk: Map<Seq<char>, Seq<char>>)
    ensures
        forall|p: Seq<char>|
            tree@.contains_key(p) ==> #[trigger] disk_after(disk, tree.listing()).contains_key(p)
                && disk_after(disk, tree.listing())[p] == tree@[p],
        forall|p: Seq<char>|
            !tree@.contains_key(p) && disk.contains_key(p) ==> #[trigger] disk_after(
                disk,
                tree.listing(),
            ).contains_key(p) && disk_after(disk, tree.listing())[p] == disk[p],
{
}

/// A file of the expected length is never reported as differing,
/// whatever its bytes are.
pub proof fn lemma_equal_length_matches(tree: Map<Seq<char>, Seq<char>>, file: DiskFile)
    requires
        tree.contains_key(file.path@),
        file.len == byte_len(tree[file.path@]),
    ensures
        !is_differing(tree, file),
        !is_extra(tree, file),
{
}

/// A file of the tree whose length on disk is not the expected length is
/// reported as differing, provided that the text read from it, if any, has
/// the length that the file system reports.
pub proof fn lemma_other_length_differs(tree: Map<Seq<char>, Seq<char>>, file: DiskFile)
    requires
        tree.contains_key(file.path@),
        file.len != byte_len(tree[file.path@]),
        file.content matches Some(text) ==> byte_len(text@) == file.len,
    ensures
        is_differing(tree, file),
{
}

/// Replacing the content of a pair changes the map at that pair's path
/// only, provided that no path occurs twice.
pub proof fn lemma_map_of_update(pairs: Seq<(Seq<char>, Seq<char>)>, i: int, content: Seq<char>)
    requires
        0 <= i < pairs.len(),
        distinct_paths(pairs),
    ensures
        map_of(pairs.update(i, (pairs[i].0, content))) == map_of(pairs).insert(
            pairs[i].0,
            content,
        ),
        distinct_paths(pairs.update(i, (pairs[i].0, content))),
    decreases pairs.len(),
{
    let updated = pairs.update(i, (pairs[i].0, content));
    if i == pairs.len() - 1 {
        assert(updated.drop_last() =~= pairs.drop_last());
        assert(map_of(updated) =~= map_of(pairs).insert(pairs[i].0, content));
    } else {
        lemma_map_of_update(pairs.drop_last(), i, content);
        assert(updated.drop_last() =~= pairs.drop_last().update(i, (pairs[i].0, content)));
        assert(pairs.last().0 != pairs[i].0);
        assert(map_of(updated) =~= map_of(pairs).insert(pairs[i].0, content));
    }
}

} // verus!
