//! A flat index from paths to entries, built once per tree.

use vstd::prelude::*;
use vstd::hash_map::StringHashMap;
use crate::file::StaticCombinableFile;
use crate::dir::{
    CombinableDir, VfsEntry, holds_at, lemma_holds_at_longer, lemma_same_entry_trans,
    same_entry,
};

verus! {

/// A tree flattened into a map from each entry's path to a copy of the entry.
///
/// The root stands at the empty path; the entry named `n` of the directory at
/// path `p` stands at `p + "/" + n`.
pub struct IndexedVfs {
    compressed_path: StringHashMap<VfsEntry>,
}

/// What a lookup in an [`IndexedVfs`] finds.
pub enum TryPathResult {
    NotFound,
    Dir(CombinableDir),
    File(StaticCombinableFile),
}

impl View for IndexedVfs {
    type V = Map<Seq<char>, VfsEntry>;

    closed spec fn view(&self) -> Map<Seq<char>, VfsEntry> {
        self.compressed_path@
    }
}

impl IndexedVfs {
    /// The map is an index of `root`: the empty path holds the root, the path
    /// of every entry below it is a key, and each other key holds a copy of an
    /// entry found at that path.
    pub open spec fn indexes(&self, root: CombinableDir) -> bool {
        &&& self@.contains_key(Seq::empty())
        &&& same_entry(self@[Seq::empty()], VfsEntry::Dir(root))
        &&& forall|p: Seq<char>, e: VfsEntry| #[trigger]
            holds_at(root, Seq::empty(), p, e) ==> self@.contains_key(p)
        &&& forall|p: Seq<char>|
            #![trigger self@.contains_key(p)]
            self@.contains_key(p) && p != Seq::<char>::empty() ==> exists|e: VfsEntry|
                #[trigger] holds_at(root, Seq::empty(), p, e) && same_entry(self@[p], e)
    }

    /// Indexes every entry of the tree, intermediate directories included.
    pub fn new(root: CombinableDir) -> (r: IndexedVfs)
        ensures
            r.indexes(root),
    {
        let mut compressed_path: StringHashMap<VfsEntry> = StringHashMap::new();
        let path = String::new();
        root.index_into(&mut compressed_path, &path);
        let ghost built = compressed_path@;
        compressed_path.insert(String::new(), VfsEntry::Dir(root.clone()));
        proof {
            assert(path@ =~= Seq::<char>::empty());
            assert forall|p: Seq<char>|
                #![trigger compressed_path@.contains_key(p)]
                compressed_path@.contains_key(p) && p != Seq::<char>::empty() implies exists|
                e: VfsEntry,
            | #[trigger] holds_at(root, Seq::empty(), p, e) && same_entry(compressed_path@[p], e) by {
                assert(built.contains_key(p));
            }
        }
        IndexedVfs { compressed_path }
    }

    /// Looks a path up; a path that names no entry gives `NotFound`.
    pub fn try_path(&self, path: &str) -> (r: TryPathResult)
        ensures
            match r {
                TryPathResult::NotFound => !self@.contains_key(path@),
                TryPathResult::Dir(d) => self@.contains_key(path@) && same_entry(
                    VfsEntry::Dir(d),
                    self@[path@],
                ),
                TryPathResult::File(f) => self@.contains_key(path@) && same_entry(
                    VfsEntry::File(f),
                    self@[path@],
                ),
            },
    {
        match self.compressed_path.get(path) {
            None => TryPathResult::NotFound,
            Some(VfsEntry::Dir(d)) => TryPathResult::Dir(d.clone()),
            Some(VfsEntry::File(f)) => TryPathResult::File(f.clone()),
        }
    }
}

/// Every entry of the tree can be looked up by its path: where the entries
/// found at a path are all the same tree, the index holds that tree there.
pub proof fn lemma_index_complete(idx: IndexedVfs, root: CombinableDir, p: Seq<char>, e: VfsEntry)
    requires
        idx.indexes(root),
        holds_at(root, Seq::empty(), p, e),
        forall|e2: VfsEntry| #[trigger] holds_at(root, Seq::empty(), p, e2) ==> same_entry(e2, e),
    ensures
        idx@.contains_key(p),
        same_entry(idx@[p], e),
{
    if p != Seq::<char>::empty() {
        let e2 = choose|e2: VfsEntry| #[trigger]
            holds_at(root, Seq::empty(), p, e2) && same_entry(idx@[p], e2);
        lemma_same_entry_trans(idx@[p], e2, e);
    } else {
        assert(holds_at(root, Seq::empty(), p, e));
        lemma_holds_at_longer(root, Seq::empty(), p, e);
    }
}

/// A path at which no entry of the tree stands is not in its index.
pub proof fn lemma_index_not_found(idx: IndexedVfs, root: CombinableDir, p: Seq<char>)
    requires
        idx.indexes(root),
        p != Seq::<char>::empty(),
        forall|e: VfsEntry| !(#[trigger] holds_at(root, Seq::empty(), p, e)),
    ensures
        !idx@.contains_key(p),
{
}

} // verus!
