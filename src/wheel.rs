//! One refresh cycle's work, and the published state it updates.

use vstd::prelude::*;
use std::sync::Arc;
use crate::dir::{CombinableDir, combine_vfs_dirs, merges};
use crate::hidden::{UrlHiddenDir, hide_url_for_dir, hides};
use crate::index::IndexedVfs;
use crate::json::dir_json;
use crate::meta::{VfsBasicMeta, lemma_total_size_nonneg, total_size};
use crate::rcu::ReadCopyUpdate;

verus! {

/// The flag that tells the refresh loop to stop; it is read once per cycle.
pub struct StopSignal {
    stop: bool,
}

impl View for StopSignal {
    type V = bool;

    closed spec fn view(&self) -> bool {
        self.stop
    }
}

impl StopSignal {
    pub fn new() -> (r: StopSignal)
        ensures
            !r@,
    {
        StopSignal { stop: false }
    }

    pub fn is_stop(&self) -> (r: bool)
        ensures
            r == self@,
    {
        self.stop
    }

    pub fn stop(&mut self)
        ensures
            final(self)@,
    {
        self.stop = true;
    }
}

/// The trees that the drivers delivered, in driver order; failures, and trees
/// whose sizes or times do not add up, are left out.
pub open spec fn fetched_trees(fetched: Seq<Result<CombinableDir, String>>) -> Seq<CombinableDir>
    decreases fetched.len(),
{
    if fetched.len() == 0 {
        Seq::empty()
    } else {
        let rest = fetched_trees(fetched.drop_last());
        match fetched.last() {
            Ok(d) => if d.wf() {
                rest.push(d)
            } else {
                rest
            },
            Err(_) => rest,
        }
    }
}

/// `index` and `listing` are what a cycle publishes for the merge of `trees`.
pub open spec fn publishes(index: IndexedVfs, listing: Seq<char>, trees: Seq<CombinableDir>) -> bool {
    exists|merged: CombinableDir, hidden: UrlHiddenDir|
        {
            &&& merged.wf()
            &&& merges(merged, trees)
            &&& index.indexes(merged)
            &&& hides(hidden, merged)
            &&& listing == dir_json(hidden)
        }
}

/// The work of one refresh cycle once every driver has answered: failed
/// fetches and inconsistent trees are dropped, the delivered trees are merged,
/// and the merged tree is indexed by path and listed without links.
///
/// Nothing is built when no driver delivered a tree, or when the delivered
/// trees are together too large to count in bytes; the previous snapshot then
/// stays published.
pub fn build_snapshot(fetched: Vec<Result<CombinableDir, String>>) -> (r: Option<(IndexedVfs, String)>)
    ensures
        r is Some <==> fetched_trees(fetched@).len() > 0 && total_size(fetched_trees(fetched@))
            <= u64::MAX,
        r matches Some((index, listing)) ==> publishes(index, listing@, fetched_trees(fetched@)),
{
    let ghost all = fetched@;
    let mut trees: Vec<CombinableDir> = Vec::new();
    let mut total: u64 = 0;
    let mut overflow = false;
    for res in it: fetched.into_iter()
        invariant
            it.seq() == all,
            trees@ == fetched_trees(all.take(it.index() as int)),
            forall|i: int| 0 <= i < trees@.len() ==> (#[trigger] trees@[i]).wf(),
            !overflow ==> total == total_size(trees@),
            overflow ==> total_size(trees@) > u64::MAX,
    {
        let ghost k = it.index() as int;
        let ghost before = trees@;
        proof {
            assert(all.take(k + 1).drop_last() =~= all.take(k));
            assert(all.take(k + 1).last() == res);
            assert(all[k] == res);
        }
        if let Ok(d) = res {
            if d.is_well_formed() {
                let s = d.size();
                if !overflow {
                    match total.checked_add(s) {
                        Some(t) => total = t,
                        None => overflow = true,
                    }
                }
                trees.push(d);
                proof {
                    assert(trees@.drop_last() =~= before);
                    lemma_total_size_nonneg(before);
                }
            }
        }
    }
    proof {
        assert(all.take(all.len() as int) =~= all);
    }
    if trees.len() == 0 || overflow {
        return None;
    }
    let merged = combine_vfs_dirs(trees);
    let hidden = hide_url_for_dir(&merged);
    let listing = hidden.to_json();
    let ghost m = merged;
    let index = IndexedVfs::new(merged);
    assert(publishes(index, listing@, fetched_trees(all))) by {
        assert(m.wf() && merges(m, fetched_trees(all)) && index.indexes(m) && hides(hidden, m)
            && listing@ == dir_json(hidden));
    }
    Some((index, listing))
}

/// The published state: the path index of the merged tree and its JSON
/// listing, each in a cell of its own that readers use without waiting.
pub struct Wheel {
    pub path_map: ReadCopyUpdate<IndexedVfs>,
    pub tree: ReadCopyUpdate<String>,
}

impl Wheel {
    /// Starts from the first cycle's fetch; `None` when that cycle builds
    /// nothing to publish.
    pub fn new(fetched: Vec<Result<CombinableDir, String>>) -> (r: Option<Wheel>)
        ensures
            r is Some <==> fetched_trees(fetched@).len() > 0 && total_size(fetched_trees(fetched@))
                <= u64::MAX,
    {
        match build_snapshot(fetched) {
            Some((index, listing)) => Some(
                Wheel { path_map: ReadCopyUpdate::new(index), tree: ReadCopyUpdate::new(listing) },
            ),
            None => None,
        }
    }

    /// Runs the rest of a cycle on what the drivers delivered and publishes
    /// the result; returns whether anything was published.
    pub fn refresh(&self, fetched: Vec<Result<CombinableDir, String>>) -> (r: bool)
        ensures
            r <==> fetched_trees(fetched@).len() > 0 && total_size(fetched_trees(fetched@))
                <= u64::MAX,
    {
        match build_snapshot(fetched) {
            Some((index, listing)) => {
                self.path_map.update(index);
                self.tree.update(listing);
                true
            },
            None => false,
        }
    }

    /// The path index published now.
    pub fn get_path_map(&self) -> Arc<IndexedVfs> {
        self.path_map.read()
    }

    /// The JSON listing published now.
    pub fn get_hidden_view(&self) -> Arc<String> {
        self.tree.read()
    }
}

} // verus!
