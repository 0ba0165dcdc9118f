//! The link-free listing of a tree, safe to show in public.

use vstd::prelude::*;
use crate::dir::{CombinableDir, lemma_same_shape, lemma_subdirectory_decreases, same_shape};
use crate::file::StaticCombinableFile;
use crate::meta::{VfsBasicMeta, VfsDirMeta};

verus! {

/// A file as the public listing shows it: no download link.
pub struct UrlHiddenFile {
    pub name: String,
    pub size: u64,
    /// Milliseconds since the Unix epoch.
    pub last_modified: u64,
}

/// A directory as the public listing shows it: the same tree, without links.
pub struct UrlHiddenDir {
    pub name: String,
    pub size: u64,
    /// Milliseconds since the Unix epoch.
    pub last_modified: u64,
    pub files: Vec<UrlHiddenFile>,
    pub subdirectories: Vec<UrlHiddenDir>,
}

/// An entry of a listed directory.
pub enum UrlHiddenEntry {
    File(UrlHiddenFile),
    Dir(UrlHiddenDir),
}

pub open spec fn hides_file(h: UrlHiddenFile, f: StaticCombinableFile) -> bool {
    &&& h.name@ == f.name@
    &&& h.size == f.size
    &&& h.last_modified == f.last_modified
}

/// `h` is the link-free listing of `d`: the same names, sizes, times and
/// hierarchy, in the same order.
pub open spec fn hides(h: UrlHiddenDir, d: CombinableDir) -> bool
    decreases h,
{
    &&& h.name@ == d.spec_name()
    &&& h.size == d.spec_size()
    &&& h.last_modified == d.spec_last_modified()
    &&& h.files@.len() == d.spec_files().len()
    &&& forall|i: int| 0 <= i < h.files@.len() ==> hides_file(#[trigger] h.files@[i], d.spec_files()[i])
    &&& h.subdirectories@.len() == d.spec_subdirectories().len()
    &&& forall|i: int|
        0 <= i < h.subdirectories@.len() ==> hides(
            #[trigger] h.subdirectories@[i],
            d.spec_subdirectories()[i],
        )
}

/// `a` and `b` are the same listing.
pub open spec fn same_listing(a: UrlHiddenDir, b: UrlHiddenDir) -> bool
    decreases a,
{
    &&& a.name@ == b.name@
    &&& a.size == b.size
    &&& a.last_modified == b.last_modified
    &&& a.files@.len() == b.files@.len()
    &&& forall|i: int|
        0 <= i < a.files@.len() ==> {
            let (f, g) = (#[trigger] a.files@[i], b.files@[i]);
            f.name@ == g.name@ && f.size == g.size && f.last_modified == g.last_modified
        }
    &&& a.subdirectories@.len() == b.subdirectories@.len()
    &&& forall|i: int|
        0 <= i < a.subdirectories@.len() ==> same_listing(
            #[trigger] a.subdirectories@[i],
            b.subdirectories@[i],
        )
}

impl Clone for UrlHiddenFile {
    fn clone(&self) -> (r: Self)
        ensures
            r.name@ == self.name@,
            r.size == self.size,
            r.last_modified == self.last_modified,
    {
        UrlHiddenFile { name: self.name.clone(), size: self.size, last_modified: self.last_modified }
    }
}

impl Clone for UrlHiddenDir {
    fn clone(&self) -> (r: Self)
        ensures
            same_listing(r, *self),
        decreases self,
    {
        let mut files: Vec<UrlHiddenFile> = Vec::new();
        for i in 0..self.files.len()
            invariant
                files@.len() == i,
                forall|j: int|
                    0 <= j < i ==> {
                        let (f, g) = (#[trigger] files@[j], self.files@[j]);
                        f.name@ == g.name@ && f.size == g.size && f.last_modified == g.last_modified
                    },
        {
            files.push(self.files[i].clone());
        }
        let mut subdirectories: Vec<UrlHiddenDir> = Vec::new();
        for i in 0..self.subdirectories.len()
            invariant
                subdirectories@.len() == i,
                forall|j: int|
                    0 <= j < i ==> same_listing(#[trigger] subdirectories@[j], self.subdirectories@[j]),
        {
            subdirectories.push(self.subdirectories[i].clone());
        }
        UrlHiddenDir {
            name: self.name.clone(),
            size: self.size,
            last_modified: self.last_modified,
            files,
            subdirectories,
        }
    }
}

impl UrlHiddenDir {
    /// The directory's entries: subdirectories first, then files, as copies.
    pub fn list(&self) -> (r: Vec<UrlHiddenEntry>)
        ensures
            r@.len() == self.subdirectories@.len() + self.files@.len(),
            forall|i: int|
                0 <= i < self.subdirectories@.len() ==> match #[trigger] r@[i] {
                    UrlHiddenEntry::Dir(d) => same_listing(d, self.subdirectories@[i]),
                    UrlHiddenEntry::File(_) => false,
                },
            forall|i: int|
                0 <= i < self.files@.len() ==> match #[trigger] r@[self.subdirectories@.len() + i] {
                    UrlHiddenEntry::File(f) => f.name@ == self.files@[i].name@ && f.size
                        == self.files@[i].size && f.last_modified == self.files@[i].last_modified,
                    UrlHiddenEntry::Dir(_) => false,
                },
    {
        let mut entries: Vec<UrlHiddenEntry> = Vec::new();
        for i in 0..self.subdirectories.len()
            invariant
                entries@.len() == i,
                forall|j: int|
                    0 <= j < i ==> match #[trigger] entries@[j] {
                        UrlHiddenEntry::Dir(d) => same_listing(d, self.subdirectories@[j]),
                        UrlHiddenEntry::File(_) => false,
                    },
        {
            entries.push(UrlHiddenEntry::Dir(self.subdirectories[i].clone()));
        }
        let n = self.subdirectories.len();
        for i in 0..self.files.len()
            invariant
                n == self.subdirectories@.len(),
                entries@.len() == n + i,
                forall|j: int|
                    0 <= j < n ==> match #[trigger] entries@[j] {
                        UrlHiddenEntry::Dir(d) => same_listing(d, self.subdirectories@[j]),
                        UrlHiddenEntry::File(_) => false,
                    },
                forall|j: int|
                    0 <= j < i ==> match #[trigger] entries@[n + j] {
                        UrlHiddenEntry::File(f) => f.name@ == self.files@[j].name@ && f.size
                            == self.files@[j].size && f.last_modified
                            == self.files@[j].last_modified,
                        UrlHiddenEntry::Dir(_) => false,
                    },
        {
            entries.push(UrlHiddenEntry::File(self.files[i].clone()));
            assert(entries@[n + i as int] == entries@.last());
        }
        entries
    }
}

/// The public listing of a file: its name, size and time, without links.
pub fn hide_url_for_file(file: &StaticCombinableFile) -> (r: UrlHiddenFile)
    ensures
        hides_file(r, *file),
{
    UrlHiddenFile {
        name: file.name.clone(),
        size: file.size,
        last_modified: file.last_modified,
    }
}

/// The public listing of a tree: its shape and metadata, without any link.
pub fn hide_url_for_dir(dir: &CombinableDir) -> (r: UrlHiddenDir)
    ensures
        hides(r, *dir),
    decreases dir,
{
    let source = dir.files();
    let mut files: Vec<UrlHiddenFile> = Vec::new();
    for i in 0..source.len()
        invariant
            source@ == dir.spec_files(),
            files@.len() == i,
            forall|j: int| 0 <= j < i ==> hides_file(#[trigger] files@[j], source@[j]),
    {
        files.push(hide_url_for_file(&source[i]));
    }
    let children = dir.subdirectories();
    let mut subdirectories: Vec<UrlHiddenDir> = Vec::new();
    for i in 0..children.len()
        invariant
            children@ == dir.spec_subdirectories(),
            subdirectories@.len() == i,
            forall|j: int| 0 <= j < i ==> hides(#[trigger] subdirectories@[j], children@[j]),
    {
        proof {
            lemma_subdirectory_decreases(*dir, i as int);
        }
        subdirectories.push(hide_url_for_dir(&children[i]));
    }
    UrlHiddenDir {
        name: dir.name().to_string(),
        size: dir.size(),
        last_modified: dir.last_modified(),
        files,
        subdirectories,
    }
}

/// The listing shows no link: two trees that differ only in their download
/// links have the same listing.
pub proof fn lemma_listing_ignores_links(
    h1: UrlHiddenDir,
    d1: CombinableDir,
    h2: UrlHiddenDir,
    d2: CombinableDir,
)
    requires
        hides(h1, d1),
        hides(h2, d2),
        same_shape(d1, d2),
    ensures
        same_listing(h1, h2),
    decreases h1,
{
    lemma_same_shape(d1, d2);
    assert forall|i: int| 0 <= i < h1.subdirectories@.len() implies same_listing(
        #[trigger] h1.subdirectories@[i],
        h2.subdirectories@[i],
    ) by {
        lemma_listing_ignores_links(
            h1.subdirectories@[i],
            d1.spec_subdirectories()[i],
            h2.subdirectories@[i],
            d2.spec_subdirectories()[i],
        );
    }
}

} // verus!
