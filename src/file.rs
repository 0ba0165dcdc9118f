//! Files with fixed download links, and how copies of one file are joined.

use vstd::prelude::*;
use rand::Rng;
use crate::meta::{
    Combinable, StaticDownloadLinkFile, VfsBasicMeta, VfsFileMeta, largest_size, latest,
};

verus! {

/// A file whose download links are known when it is created.
pub struct StaticCombinableFile {
    pub name: String,
    pub size: u64,
    /// Milliseconds since the Unix epoch.
    pub last_modified: u64,
    pub links: Vec<String>,
}

/// The links of the files, one file after the other.
pub open spec fn joined_links(files: Seq<StaticCombinableFile>) -> Seq<String>
    decreases files.len(),
{
    if files.len() == 0 {
        Seq::empty()
    } else {
        joined_links(files.drop_last()) + files.last().links@
    }
}

/// `f` stands for all the files of `group` (which share a name): it has the
/// first one's name, the largest size, the latest modification time, and every
/// link of every file, in order.
pub open spec fn is_join_of(f: StaticCombinableFile, group: Seq<StaticCombinableFile>) -> bool {
    &&& group.len() > 0
    &&& f.name@ == group[0].name@
    &&& f.size == largest_size(group)
    &&& f.last_modified == latest(group)
    &&& f.links@ == joined_links(group)
}

/// `a` and `b` hold the same name, size, modification time and links.
pub open spec fn same_file(a: StaticCombinableFile, b: StaticCombinableFile) -> bool {
    &&& a.name@ == b.name@
    &&& a.size == b.size
    &&& a.last_modified == b.last_modified
    &&& a.links@ == b.links@
}

impl Clone for StaticCombinableFile {
    fn clone(&self) -> (r: Self)
        ensures
            same_file(r, *self),
    {
        StaticCombinableFile {
            name: self.name.clone(),
            size: self.size,
            last_modified: self.last_modified,
            links: self.links.clone(),
        }
    }
}

/// Relies on rand's `Rng::gen_range` over `thread_rng()`: an index drawn
/// uniformly below `n`. It panics on an empty range, which `requires` excludes.
#[verifier::external_body]
fn random_index(n: usize) -> (r: usize)
    requires
        n > 0,
    ensures
        r < n,
{
    rand::thread_rng().gen_range(0..n)
}

impl StaticCombinableFile {
    /// One of the links, drawn at random.
    pub fn random_link(&self) -> (r: String)
        requires
            self.links@.len() > 0,
        ensures
            self.links@.contains(r),
    {
        let i = random_index(self.links.len());
        let r = self.links[i].clone();
        assert(self.links@[i as int] == r);
        r
    }
}

impl VfsBasicMeta for StaticCombinableFile {
    open spec fn spec_name(&self) -> Seq<char> {
        self.name@
    }

    open spec fn spec_size(&self) -> u64 {
        self.size
    }

    open spec fn spec_last_modified(&self) -> u64 {
        self.last_modified
    }

    fn name(&self) -> (r: &str) {
        self.name.as_str()
    }

    fn size(&self) -> (r: u64) {
        self.size
    }

    fn last_modified(&self) -> (r: u64) {
        self.last_modified
    }
}

impl VfsFileMeta for StaticCombinableFile {
    open spec fn spec_links(&self) -> Seq<String> {
        self.links@
    }

    fn on_download(&self) -> (r: String) {
        self.random_link()
    }
}

impl StaticDownloadLinkFile for StaticCombinableFile {
    fn new(name: String, size: u64, last_modified: u64, links: Vec<String>) -> (r: Self) {
        StaticCombinableFile { name, size, last_modified, links }
    }

    fn links(&self) -> (r: &Vec<String>) {
        &self.links
    }

    fn destruct(self) -> (r: (String, u64, u64, Vec<String>)) {
        (self.name, self.size, self.last_modified, self.links)
    }
}

impl Combinable for StaticCombinableFile {
    open spec fn combinable(from: Seq<Self>) -> bool {
        from.len() > 0
    }

    open spec fn combined(r: Self, from: Seq<Self>) -> bool {
        is_join_of(r, from)
    }

    /// Folds copies of one file, found under the same name in several places,
    /// into one file that offers all of their links.
    fn combine(from: Vec<Self>) -> (r: Self) {
        let ghost all = from@;
        let mut name = String::new();
        let mut size: u64 = 0;
        let mut last_modified: u64 = 0;
        let mut links: Vec<String> = Vec::new();
        let mut first = true;
        for f in it: from.into_iter()
            invariant
                it.seq() == all,
                all.len() > 0,
                first <==> it.index() == 0,
                !first ==> name@ == all[0].name@,
                size == largest_size(all.take(it.index() as int)),
                last_modified == latest(all.take(it.index() as int)),
                links@ == joined_links(all.take(it.index() as int)),
        {
            proof {
                let k = it.index() as int;
                assert(all.take(k + 1).drop_last() =~= all.take(k));
                assert(all.take(k + 1).last() == f);
            }
            let StaticCombinableFile { name: n, size: s, last_modified: t, links: mut l } = f;
            if first {
                name = n;
                first = false;
            }
            if s > size {
                size = s;
            }
            if t > last_modified {
                last_modified = t;
            }
            links.append(&mut l);
        }
        proof {
            assert(all.take(all.len() as int) =~= all);
        }
        StaticCombinableFile { name, size, last_modified, links }
    }
}

} // verus!
