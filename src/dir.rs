//! Directory trees: construction, merging, mounting, and the paths of their entries.

use vstd::prelude::*;
use vstd::hash_map::StringHashMap;
use vstd::string::StringExecFns;
use crate::file::{StaticCombinableFile, is_join_of, joined_links, same_file};
use crate::meta::{
    Combinable, VfsBasicMeta, VfsDirMeta, divide_by_name, group_by_name, groups_total, groups_view, latest,
    lemma_group_members, lemma_group_total, lemma_groups_shape, lemma_groups_total_prefix,
    distinct_names, groups_latest, largest_size, lemma_group_distinct, lemma_group_latest,
    lemma_same_sizes, lemma_latest_append, lemma_latest_pointwise,
    lemma_largest_size_bound, lemma_total_size_append, lemma_total_size_nonneg,
    lemma_total_size_prefix, max_u64, total_size,
};

verus! {

/// A directory that can be merged with other directories of the same name.
///
/// Its size is the sum of its children's sizes and its modification time the
/// latest of its children's (zero when it has none), at every level.
pub struct CombinableDir {
    name: String,
    files: Vec<StaticCombinableFile>,
    subdirectories: Vec<CombinableDir>,
    size: u64,
    last_modified: u64,
}

impl CombinableDir {
    /// Sizes add up and modification times are the latest, at every level.
    pub closed spec fn wf(&self) -> bool
        decreases self,
    {
        &&& self.size as int == total_size(self.files@) + total_size(self.subdirectories@)
        &&& self.last_modified == max_u64(latest(self.files@), latest(self.subdirectories@))
        &&& forall|i: int|
            0 <= i < self.subdirectories@.len() ==> (#[trigger] self.subdirectories@[i]).wf()
    }

    /// Builds a directory from its children; its size and modification time
    /// are computed from theirs.
    pub fn new(
        name: String,
        files: Vec<StaticCombinableFile>,
        subdirectories: Vec<CombinableDir>,
    ) -> (r: CombinableDir)
        requires
            total_size(files@) + total_size(subdirectories@) <= u64::MAX,
        ensures
            (forall|i: int| 0 <= i < subdirectories@.len() ==> (#[trigger] subdirectories@[i]).wf())
                ==> r.wf(),
            r.spec_name() == name@,
            r.spec_files() == files@,
            r.spec_subdirectories() == subdirectories@,
            r.spec_size() == total_size(files@) + total_size(subdirectories@),
            r.spec_last_modified() == max_u64(latest(files@), latest(subdirectories@)),
    {
        proof {
            lemma_total_size_nonneg(files@);
            lemma_total_size_nonneg(subdirectories@);
        }
        let mut size: u64 = 0;
        let mut last_modified: u64 = 0;
        let mut i: usize = 0;
        while i < files.len()
            invariant
                i <= files.len(),
                size == total_size(files@.take(i as int)),
                last_modified == latest(files@.take(i as int)),
                total_size(files@) + total_size(subdirectories@) <= u64::MAX,
                total_size(subdirectories@) >= 0,
            decreases files.len() - i,
        {
            proof {
                assert(files@.take(i + 1).drop_last() =~= files@.take(i as int));
                lemma_total_size_prefix(files@, i + 1);
            }
            size = size + files[i].size;
            if files[i].last_modified > last_modified {
                last_modified = files[i].last_modified;
            }
            i = i + 1;
        }
        assert(files@.take(files@.len() as int) =~= files@);
        let ghost file_size = size as int;
        let ghost file_time = last_modified;
        let mut dir_time: u64 = 0;
        let mut j: usize = 0;
        while j < subdirectories.len()
            invariant
                j <= subdirectories.len(),
                size == file_size + total_size(subdirectories@.take(j as int)),
                file_size == total_size(files@),
                dir_time == latest(subdirectories@.take(j as int)),
                total_size(files@) + total_size(subdirectories@) <= u64::MAX,
            decreases subdirectories.len() - j,
        {
            proof {
                assert(subdirectories@.take(j + 1).drop_last() =~= subdirectories@.take(j as int));
                lemma_total_size_prefix(subdirectories@, j + 1);
            }
            size = size + subdirectories[j].size;
            if subdirectories[j].last_modified > dir_time {
                dir_time = subdirectories[j].last_modified;
            }
            j = j + 1;
        }
        assert(subdirectories@.take(subdirectories@.len() as int) =~= subdirectories@);
        if dir_time > last_modified {
            last_modified = dir_time;
        }
        CombinableDir { name, files, subdirectories, size, last_modified }
    }

    /// Whether sizes add up and modification times are the latest, at every
    /// level. Every directory built by this library is well formed.
    pub fn is_well_formed(&self) -> (r: bool)
        ensures
            r == self.wf(),
        decreases self,
    {
        proof {
            lemma_total_size_nonneg(self.files@);
            lemma_total_size_nonneg(self.subdirectories@);
        }
        let mut size: u64 = 0;
        let mut overflow = false;
        let mut file_time: u64 = 0;
        for i in 0..self.files.len()
            invariant
                !overflow ==> size == total_size(self.files@.take(i as int)),
                overflow ==> total_size(self.files@.take(i as int)) > u64::MAX,
                file_time == latest(self.files@.take(i as int)),
        {
            proof {
                assert(self.files@.take(i + 1).drop_last() =~= self.files@.take(i as int));
                lemma_total_size_nonneg(self.files@.take(i as int));
            }
            if !overflow {
                match size.checked_add(self.files[i].size) {
                    Some(t) => size = t,
                    None => overflow = true,
                }
            }
            if self.files[i].last_modified > file_time {
                file_time = self.files[i].last_modified;
            }
        }
        assert(self.files@.take(self.files@.len() as int) =~= self.files@);
        let ghost file_total = total_size(self.files@);
        let mut dir_time: u64 = 0;
        for i in 0..self.subdirectories.len()
            invariant
                file_total == total_size(self.files@),
                file_total >= 0,
                !overflow ==> size == file_total + total_size(self.subdirectories@.take(i as int)),
                overflow ==> file_total + total_size(self.subdirectories@.take(i as int))
                    > u64::MAX,
                dir_time == latest(self.subdirectories@.take(i as int)),
                forall|j: int| 0 <= j < i ==> (#[trigger] self.subdirectories@[j]).wf(),
        {
            let d = &self.subdirectories[i];
            proof {
                assert(self.subdirectories@.take(i + 1).drop_last() =~= self.subdirectories@.take(
                    i as int,
                ));
                lemma_total_size_nonneg(self.subdirectories@.take(i as int));
            }
            if !d.is_well_formed() {
                return false;
            }
            if !overflow {
                match size.checked_add(d.size) {
                    Some(t) => size = t,
                    None => overflow = true,
                }
            }
            if d.last_modified > dir_time {
                dir_time = d.last_modified;
            }
        }
        assert(self.subdirectories@.take(self.subdirectories@.len() as int)
            =~= self.subdirectories@);
        let time = if dir_time > file_time {
            dir_time
        } else {
            file_time
        };
        !overflow && size == self.size && time == self.last_modified
    }

    /// Takes the directory apart into its name, files and subdirectories.
    pub fn destruct(self) -> (r: (String, Vec<StaticCombinableFile>, Vec<CombinableDir>))
        ensures
            r.0@ == self.spec_name(),
            r.1@ == self.spec_files(),
            r.2@ == self.spec_subdirectories(),
    {
        (self.name, self.files, self.subdirectories)
    }
}

/// `r` is `d` placed under the chain of directories named by `path`, outermost first.
pub closed spec fn is_mounted(r: CombinableDir, d: CombinableDir, path: Seq<String>) -> bool
    decreases path.len(),
{
    if path.len() == 0 {
        r == d
    } else {
        &&& r.name@ == path[0]@
        &&& r.files@.len() == 0
        &&& r.subdirectories@.len() == 1
        &&& is_mounted(r.subdirectories@[0], d, path.drop_first())
    }
}

/// Height of the tree below `d`, counting its first `n` subdirectories.
closed spec fn height_upto(d: CombinableDir, n: nat) -> nat
    decreases d, n,
{
    if n == 0 || n > d.subdirectories@.len() {
        0
    } else {
        let s = d.subdirectories@[n - 1];
        let h = 1 + height_upto(s, s.subdirectories@.len());
        let rest = height_upto(d, (n - 1) as nat);
        if h > rest {
            h
        } else {
            rest
        }
    }
}

/// Number of directory levels below `d`.
pub closed spec fn height(d: CombinableDir) -> nat {
    height_upto(d, d.subdirectories@.len())
}

/// One more than the greatest height among the directories; zero when there are none.
pub closed spec fn forest_height(s: Seq<CombinableDir>) -> nat
    decreases s.len(),
{
    if s.len() == 0 {
        0
    } else {
        let rest = forest_height(s.drop_last());
        let h = height(s.last()) + 1;
        if h > rest {
            h
        } else {
            rest
        }
    }
}

proof fn lemma_height_upto(d: CombinableDir, n: nat, i: int)
    requires
        0 <= i < n <= d.subdirectories@.len(),
    ensures
        height(d.subdirectories@[i]) < height_upto(d, n),
    decreases n,
{
    if i < n - 1 {
        lemma_height_upto(d, (n - 1) as nat, i);
    }
}

proof fn lemma_forest_height(s: Seq<CombinableDir>, bound: nat)
    ensures
        forall|i: int| 0 <= i < s.len() ==> height(#[trigger] s[i]) < forest_height(s),
        (forall|i: int| 0 <= i < s.len() ==> height(#[trigger] s[i]) < bound) ==> forest_height(s)
            <= bound,
    decreases s.len(),
{
    if s.len() > 0 {
        let rest = s.drop_last();
        lemma_forest_height(rest, bound);
        assert(forall|i: int| 0 <= i < rest.len() ==> rest[i] == s[i]);
    }
}

/// The files of all the directories, one directory after the other.
pub closed spec fn flat_files(dirs: Seq<CombinableDir>) -> Seq<StaticCombinableFile>
    decreases dirs.len(),
{
    if dirs.len() == 0 {
        Seq::empty()
    } else {
        flat_files(dirs.drop_last()) + dirs.last().files@
    }
}

/// The subdirectories of all the directories, one directory after the other.
pub closed spec fn flat_subdirectories(dirs: Seq<CombinableDir>) -> Seq<CombinableDir>
    decreases dirs.len(),
{
    if dirs.len() == 0 {
        Seq::empty()
    } else {
        flat_subdirectories(dirs.drop_last()) + dirs.last().subdirectories@
    }
}

/// `r` is the merge of `dirs`: it takes the first directory's name; files of
/// the same name are joined into one, in the order in which names first
/// appear; subdirectories of the same name are merged in turn, and a
/// subdirectory whose name occurs once is kept as it is.
pub closed spec fn merges(r: CombinableDir, dirs: Seq<CombinableDir>) -> bool
    decreases r,
{
    let fgroups = group_by_name(flat_files(dirs));
    let dgroups = group_by_name(flat_subdirectories(dirs));
    &&& dirs.len() > 0
    &&& r.name@ == dirs[0].name@
    &&& r.files@.len() == fgroups.len()
    &&& forall|i: int| 0 <= i < fgroups.len() ==> is_join_of(#[trigger] r.files@[i], fgroups[i])
    &&& r.subdirectories@.len() == dgroups.len()
    &&& forall|i: int|
        0 <= i < dgroups.len() ==> if dgroups[i].len() == 1 {
            #[trigger] r.subdirectories@[i] == dgroups[i][0]
        } else {
            merges(r.subdirectories@[i], dgroups[i])
        }
}

/// The directories' sizes add up to those of their files and subdirectories;
/// each subdirectory is well formed and lower than the tallest directory.
proof fn lemma_flat(dirs: Seq<CombinableDir>)
    requires
        forall|i: int| 0 <= i < dirs.len() ==> (#[trigger] dirs[i]).wf(),
    ensures
        total_size(flat_files(dirs)) + total_size(flat_subdirectories(dirs)) == total_size(dirs),
        forall|k: int|
            0 <= k < flat_subdirectories(dirs).len() ==> (#[trigger] flat_subdirectories(
                dirs,
            )[k]).wf() && height(flat_subdirectories(dirs)[k]) + 1 < forest_height(dirs),
    decreases dirs.len(),
{
    if dirs.len() > 0 {
        let rest = dirs.drop_last();
        let d = dirs.last();
        assert(forall|i: int| 0 <= i < rest.len() ==> rest[i] == dirs[i]);
        lemma_flat(rest);
        lemma_total_size_append(flat_files(rest), d.files@);
        lemma_total_size_append(flat_subdirectories(rest), d.subdirectories@);
        lemma_forest_height(dirs, 0);
        lemma_forest_height(rest, 0);
        let fs = flat_subdirectories(dirs);
        let fr = flat_subdirectories(rest);
        assert forall|k: int| 0 <= k < fs.len() implies (#[trigger] fs[k]).wf() && height(fs[k]) + 1
            < forest_height(dirs) by {
            if k < fr.len() {
                assert(fs[k] == fr[k]);
            } else {
                let i = k - fr.len();
                assert(fs[k] == d.subdirectories@[i]);
                assert(dirs[dirs.len() - 1] == d);
                lemma_height_upto(d, d.subdirectories@.len(), i);
            }
        }
    }
}

impl CombinableDir {
    /// Places the directory under a chain of new directories named by `path`,
    /// outermost first.
    pub fn mount(self, path: Vec<String>) -> (r: CombinableDir)
        ensures
            self.wf() ==> r.wf(),
            is_mounted(r, self, path@),
            r.spec_size() == self.spec_size(),
    {
        let ghost all = path@;
        let mut path = path;
        let mut dir = self;
        while path.len() > 0
            invariant
                self.wf() ==> dir.wf(),
                dir.size == self.size,
                path@ == all.take(path@.len() as int),
                path@.len() <= all.len(),
                is_mounted(dir, self, all.skip(path@.len() as int)),
            decreases path@.len(),
        {
            let name = path.pop().unwrap();
            let ghost k = path@.len() as int;
            proof {
                assert(path@ =~= all.take(k));
                assert(all.skip(k).drop_first() =~= all.skip(k + 1));
                assert(all.skip(k)[0] == name);
                assert(seq![dir].drop_last() =~= Seq::<CombinableDir>::empty());
                assert(total_size(Seq::<CombinableDir>::empty()) == 0);
                assert(total_size(Seq::<StaticCombinableFile>::empty()) == 0);
                assert(seq![dir].last() == dir);
                assert(total_size(seq![dir]) == dir.size);
            }
            let ghost inner = dir;
            let mut subdirectories: Vec<CombinableDir> = Vec::new();
            subdirectories.push(dir);
            assert(subdirectories@ =~= seq![inner]);
            let files: Vec<StaticCombinableFile> = Vec::new();
            assert(files@ =~= Seq::<StaticCombinableFile>::empty());
            dir = CombinableDir::new(name, files, subdirectories);
        }
        proof {
            assert(all.skip(0) =~= all);
        }
        dir
    }
}

/// `a` and `b` are the same tree: equal names, sizes and times, the same
/// files, and the same subdirectories, in order.
pub closed spec fn same_dir(a: CombinableDir, b: CombinableDir) -> bool
    decreases a,
{
    &&& a.name@ == b.name@
    &&& a.size == b.size
    &&& a.last_modified == b.last_modified
    &&& a.files@.len() == b.files@.len()
    &&& forall|i: int| 0 <= i < a.files@.len() ==> same_file(#[trigger] a.files@[i], b.files@[i])
    &&& a.subdirectories@.len() == b.subdirectories@.len()
    &&& forall|i: int|
        0 <= i < a.subdirectories@.len() ==> same_dir(
            #[trigger] a.subdirectories@[i],
            b.subdirectories@[i],
        )
}

/// An entry of a directory: a file or a subdirectory.
pub enum VfsEntry {
    File(StaticCombinableFile),
    Dir(CombinableDir),
}

/// `a` and `b` are the same entry, as trees.
pub open spec fn same_entry(a: VfsEntry, b: VfsEntry) -> bool {
    match (a, b) {
        (VfsEntry::File(x), VfsEntry::File(y)) => same_file(x, y),
        (VfsEntry::Dir(x), VfsEntry::Dir(y)) => same_dir(x, y),
        _ => false,
    }
}

/// The path of the entry named `name` in the directory at `prefix`.
pub open spec fn child_path(prefix: Seq<char>, name: Seq<char>) -> Seq<char> {
    prefix + seq!['/'] + name
}

/// `e` is an entry found at path `p` somewhere below `d`, where `d` itself
/// stands at `prefix`.
pub closed spec fn holds_at(d: CombinableDir, prefix: Seq<char>, p: Seq<char>, e: VfsEntry) -> bool
    decreases d,
{
    ||| exists|i: int|
        0 <= i < d.files@.len() && p == child_path(prefix, d.files@[i].name@) && e
            == VfsEntry::File(#[trigger] d.files@[i])
    ||| exists|i: int|
        0 <= i < d.subdirectories@.len() && p == child_path(prefix, d.subdirectories@[i].name@)
            && e == VfsEntry::Dir(#[trigger] d.subdirectories@[i])
    ||| exists|i: int|
        0 <= i < d.subdirectories@.len() && holds_at(
            #[trigger] d.subdirectories@[i],
            child_path(prefix, d.subdirectories@[i].name@),
            p,
            e,
        )
}

/// An entry stands deeper than the directory it was found under.
pub proof fn lemma_holds_at_longer(d: CombinableDir, prefix: Seq<char>, p: Seq<char>, e: VfsEntry)
    requires
        holds_at(d, prefix, p, e),
    ensures
        p.len() > prefix.len(),
    decreases d,
{
    if exists|i: int|
        0 <= i < d.subdirectories@.len() && holds_at(
            #[trigger] d.subdirectories@[i],
            child_path(prefix, d.subdirectories@[i].name@),
            p,
            e,
        ) {
        let i = choose|i: int|
            0 <= i < d.subdirectories@.len() && holds_at(
                #[trigger] d.subdirectories@[i],
                child_path(prefix, d.subdirectories@[i].name@),
                p,
                e,
            );
        lemma_holds_at_longer(
            d.subdirectories@[i],
            child_path(prefix, d.subdirectories@[i].name@),
            p,
            e,
        );
    }
}

/// A subdirectory is smaller than its parent, for recursion over trees.
pub proof fn lemma_subdirectory_decreases(d: CombinableDir, i: int)
    requires
        0 <= i < d.spec_subdirectories().len(),
    ensures
        decreases_to!(d => d.spec_subdirectories()[i]),
{
    assert(decreases_to!(d => d.subdirectories));
    assert(decreases_to!(d.subdirectories => d.subdirectories@[i]));
}

/// `a` and `b` are the same tree but for their download links.
pub closed spec fn same_shape(a: CombinableDir, b: CombinableDir) -> bool
    decreases a,
{
    &&& a.name@ == b.name@
    &&& a.size == b.size
    &&& a.last_modified == b.last_modified
    &&& a.files@.len() == b.files@.len()
    &&& forall|i: int|
        0 <= i < a.files@.len() ==> {
            let (f, g) = (#[trigger] a.files@[i], b.files@[i]);
            f.name@ == g.name@ && f.size == g.size && f.last_modified == g.last_modified
        }
    &&& a.subdirectories@.len() == b.subdirectories@.len()
    &&& forall|i: int|
        0 <= i < a.subdirectories@.len() ==> same_shape(
            #[trigger] a.subdirectories@[i],
            b.subdirectories@[i],
        )
}

/// What `same_shape` says, through the directories' accessors.
pub proof fn lemma_same_shape(a: CombinableDir, b: CombinableDir)
    requires
        same_shape(a, b),
    ensures
        a.spec_name() == b.spec_name(),
        a.spec_size() == b.spec_size(),
        a.spec_last_modified() == b.spec_last_modified(),
        a.spec_files().len() == b.spec_files().len(),
        forall|i: int|
            0 <= i < a.spec_files().len() ==> (#[trigger] a.spec_files()[i]).name@
                == b.spec_files()[i].name@ && a.spec_files()[i].size == b.spec_files()[i].size
                && a.spec_files()[i].last_modified == b.spec_files()[i].last_modified,
        a.spec_subdirectories().len() == b.spec_subdirectories().len(),
        forall|i: int|
            0 <= i < a.spec_subdirectories().len() ==> same_shape(
                #[trigger] a.spec_subdirectories()[i],
                b.spec_subdirectories()[i],
            ),
{
}

pub proof fn lemma_same_dir_trans(a: CombinableDir, b: CombinableDir, c: CombinableDir)
    requires
        same_dir(a, b),
        same_dir(b, c),
    ensures
        same_dir(a, c),
    decreases a,
{
    assert forall|i: int| 0 <= i < a.subdirectories@.len() implies same_dir(
        #[trigger] a.subdirectories@[i],
        c.subdirectories@[i],
    ) by {
        lemma_same_dir_trans(a.subdirectories@[i], b.subdirectories@[i], c.subdirectories@[i]);
    }
}

pub proof fn lemma_same_entry_trans(a: VfsEntry, b: VfsEntry, c: VfsEntry)
    requires
        same_entry(a, b),
        same_entry(b, c),
    ensures
        same_entry(a, c),
{
    if let (VfsEntry::Dir(x), VfsEntry::Dir(y), VfsEntry::Dir(z)) = (a, b, c) {
        lemma_same_dir_trans(x, y, z);
    }
}

impl Clone for CombinableDir {
    fn clone(&self) -> (r: Self)
        ensures
            same_dir(r, *self),
        decreases self,
    {
        let mut files: Vec<StaticCombinableFile> = Vec::new();
        for i in 0..self.files.len()
            invariant
                files@.len() == i,
                forall|j: int| 0 <= j < i ==> same_file(#[trigger] files@[j], self.files@[j]),
        {
            files.push(self.files[i].clone());
        }
        let mut subdirectories: Vec<CombinableDir> = Vec::new();
        for i in 0..self.subdirectories.len()
            invariant
                subdirectories@.len() == i,
                forall|j: int|
                    0 <= j < i ==> same_dir(#[trigger] subdirectories@[j], self.subdirectories@[j]),
        {
            subdirectories.push(self.subdirectories[i].clone());
        }
        CombinableDir {
            name: self.name.clone(),
            files,
            subdirectories,
            size: self.size,
            last_modified: self.last_modified,
        }
    }
}

impl VfsBasicMeta for CombinableDir {
    closed spec fn spec_name(&self) -> Seq<char> {
        self.name@
    }

    closed spec fn spec_size(&self) -> u64 {
        self.size
    }

    closed spec fn spec_last_modified(&self) -> u64 {
        self.last_modified
    }

    fn name(&self) -> (r: &str) {
        self.name.as_str()
    }

    fn size(&self) -> (r: u64) {
        self.size
    }

    fn last_modified(&self) -> (r: u64) {
        self.last_modified
    }
}

impl VfsDirMeta<StaticCombinableFile> for CombinableDir {
    closed spec fn spec_files(&self) -> Seq<StaticCombinableFile> {
        self.files@
    }

    closed spec fn spec_subdirectories(&self) -> Seq<CombinableDir> {
        self.subdirectories@
    }

    fn files(&self) -> (r: &Vec<StaticCombinableFile>) {
        &self.files
    }

    fn subdirectories(&self) -> (r: &Vec<CombinableDir>) {
        &self.subdirectories
    }
}


/// Merges directories that stand for the same directory on several backends
/// into one directory.
///
/// Files of the same name become one file offering all their links; same-named
/// subdirectories are merged recursively. The result takes the first
/// directory's name, and its size and modification time are computed afresh.
pub fn combine_vfs_dirs(dirs: Vec<CombinableDir>) -> (r: CombinableDir)
    requires
        dirs@.len() > 0,
        forall|i: int| 0 <= i < dirs@.len() ==> (#[trigger] dirs@[i]).wf(),
        total_size(dirs@) <= u64::MAX,
    ensures
        r.wf(),
        merges(r, dirs@),
        r.spec_size() <= total_size(dirs@),
    decreases forest_height(dirs@),
{
    let ghost all = dirs@;
    proof {
        lemma_flat(all);
    }
    let mut name = String::new();
    let mut files: Vec<StaticCombinableFile> = Vec::new();
    let mut subdirectories: Vec<CombinableDir> = Vec::new();
    let mut first = true;
    for d in it: dirs.into_iter()
        invariant
            it.seq() == all,
            all.len() > 0,
            first <==> it.index() == 0,
            !first ==> name@ == all[0].name@,
            files@ == flat_files(all.take(it.index() as int)),
            subdirectories@ == flat_subdirectories(all.take(it.index() as int)),
    {
        proof {
            let k = it.index() as int;
            assert(all.take(k + 1).drop_last() =~= all.take(k));
            assert(all.take(k + 1).last() == d);
        }
        let (n, mut f, mut s) = d.destruct();
        if first {
            name = n;
            first = false;
        }
        files.append(&mut f);
        subdirectories.append(&mut s);
    }
    proof {
        assert(all.take(all.len() as int) =~= all);
    }
    let ghost flat_f = files@;
    let ghost flat_d = subdirectories@;
    let ghost fgroups = group_by_name(flat_f);
    let ghost dgroups = group_by_name(flat_d);
    let ghost top = forest_height(all);
    proof {
        lemma_groups_shape(flat_f);
        lemma_groups_shape(flat_d);
        lemma_group_total(flat_f);
        lemma_group_total(flat_d);
        lemma_total_size_nonneg(flat_f);
        lemma_total_size_nonneg(flat_d);
        lemma_group_members(flat_d, |x: CombinableDir| x.wf() && height(x) + 1 < top);
    }

    let file_groups = divide_by_name(files);
    let mut merged_files: Vec<StaticCombinableFile> = Vec::new();
    for g in it: file_groups.into_iter()
        invariant
            groups_view(it.seq()) == fgroups,
            forall|i: int| 0 <= i < fgroups.len() ==> #[trigger] fgroups[i].len() > 0,
            merged_files@.len() == it.index(),
            forall|j: int|
                0 <= j < it.index() ==> is_join_of(#[trigger] merged_files@[j], fgroups[j]),
            total_size(merged_files@) <= groups_total(fgroups.take(it.index() as int)),
    {
        let ghost k = it.index() as int;
        let ghost before = merged_files@;
        proof {
            assert(groups_view(it.seq())[k] == it.seq()[k]@);
            assert(g@ == fgroups[k]);
        }
        let f = StaticCombinableFile::combine(g);
        merged_files.push(f);
        proof {
            lemma_largest_size_bound(fgroups[k]);
            assert(fgroups.take(k + 1).drop_last() =~= fgroups.take(k));
            assert(merged_files@.drop_last() =~= before);
        }
    }
    proof {
        assert(fgroups.take(fgroups.len() as int) =~= fgroups);
    }

    let dir_groups = divide_by_name(subdirectories);
    let mut merged_dirs: Vec<CombinableDir> = Vec::new();
    for g in it: dir_groups.into_iter()
        invariant
            groups_view(it.seq()) == dgroups,
            forall|i: int| 0 <= i < dgroups.len() ==> #[trigger] dgroups[i].len() > 0,
            forall|i: int, j: int|
                0 <= i < dgroups.len() && 0 <= j < dgroups[i].len() ==> (#[trigger] dgroups[i][j]).wf()
                    && height(dgroups[i][j]) + 1 < top,
            groups_total(dgroups) == total_size(flat_d),
            total_size(flat_f) + total_size(flat_d) == total_size(all),
            total_size(all) <= u64::MAX,
            total_size(flat_f) >= 0,
            top == forest_height(all),
            all == dirs@,
            merged_dirs@.len() == it.index(),
            forall|j: int| 0 <= j < it.index() ==> (#[trigger] merged_dirs@[j]).wf(),
            forall|j: int|
                0 <= j < it.index() ==> if dgroups[j].len() == 1 {
                    #[trigger] merged_dirs@[j] == dgroups[j][0]
                } else {
                    merges(merged_dirs@[j], dgroups[j])
                },
            total_size(merged_dirs@) <= groups_total(dgroups.take(it.index() as int)),
    {
        let ghost k = it.index() as int;
        let ghost before = merged_dirs@;
        proof {
            assert(groups_view(it.seq())[k] == it.seq()[k]@);
            assert(g@ == dgroups[k]);
            lemma_groups_total_prefix(dgroups, k);
            assert(dgroups.take(k + 1).drop_last() =~= dgroups.take(k));
        }
        let mut g = g;
        let m = if g.len() == 1 {
            let m = g.pop().unwrap();
            proof {
                assert(total_size(dgroups[k]) == m.size) by {
                    assert(dgroups[k].drop_last() =~= Seq::<CombinableDir>::empty());
                    assert(total_size(Seq::<CombinableDir>::empty()) == 0);
                }
            }
            m
        } else {
            proof {
                assert forall|i: int| 0 <= i < g@.len() implies height(#[trigger] g@[i]) < top - 1 by {
                    assert(g@[i] == dgroups[k][i]);
                }
                assert(top >= 1) by {
                    assert(g@[0] == dgroups[k][0]);
                }
                lemma_forest_height(g@, (top - 1) as nat);
                lemma_total_size_nonneg(before);
            }
            combine_vfs_dirs(g)
        };
        merged_dirs.push(m);
        proof {
            assert(merged_dirs@.drop_last() =~= before);
        }
    }
    proof {
        assert(dgroups.take(dgroups.len() as int) =~= dgroups);
        assert(fgroups.take(fgroups.len() as int) =~= fgroups);
    }
    CombinableDir::new(name, merged_files, merged_dirs)
}

impl Combinable for CombinableDir {
    open spec fn combinable(from: Seq<Self>) -> bool {
        &&& from.len() > 0
        &&& forall|i: int| 0 <= i < from.len() ==> (#[trigger] from[i]).wf()
        &&& total_size(from) <= u64::MAX
    }

    open spec fn combined(r: Self, from: Seq<Self>) -> bool {
        &&& r.wf()
        &&& merges(r, from)
        &&& r.spec_size() <= total_size(from)
    }

    fn combine(from: Vec<Self>) -> (r: Self) {
        combine_vfs_dirs(from)
    }
}


impl CombinableDir {
    /// Records every entry below the directory, which stands at `path`, under
    /// its own path.
    pub(crate) fn index_into(&self, map: &mut StringHashMap<VfsEntry>, path: &String)
        ensures
            forall|p: Seq<char>| #[trigger] old(map)@.contains_key(p) ==> final(map)@.contains_key(p),
            forall|p: Seq<char>, e: VfsEntry| #[trigger]
                holds_at(*self, path@, p, e) ==> final(map)@.contains_key(p),
            forall|p: Seq<char>| #[trigger]
                final(map)@.contains_key(p) ==> (old(map)@.contains_key(p) && final(map)@[p] == old(
                    map,
                )@[p]) || exists|e: VfsEntry|
                    #[trigger] holds_at(*self, path@, p, e) && same_entry(final(map)@[p], e),
        decreases self,
    {
        proof {
            reveal_strlit("/");
        }
        let ghost before = map@;
        for i in 0..self.files.len()
            invariant
                forall|p: Seq<char>| #[trigger] before.contains_key(p) ==> map@.contains_key(p),
                forall|j: int|
                    0 <= j < i ==> map@.contains_key(
                        child_path(path@, (#[trigger] self.files@[j]).name@),
                    ),
                forall|p: Seq<char>| #[trigger]
                    map@.contains_key(p) ==> (before.contains_key(p) && map@[p] == before[p])
                        || exists|e: VfsEntry|
                        #[trigger] holds_at(*self, path@, p, e) && same_entry(map@[p], e),
        {
            let f = &self.files[i];
            let mut key = path.clone();
            key.append("/");
            key.append(f.name.as_str());
            let ghost k = key@;
            let ghost e = VfsEntry::File(self.files@[i as int]);
            map.insert(key, VfsEntry::File(f.clone()));
            proof {
                reveal_strlit("/");
                assert(k =~= child_path(path@, self.files@[i as int].name@));
                assert(holds_at(*self, path@, k, e));
            }
        }
        for i in 0..self.subdirectories.len()
            invariant
                forall|p: Seq<char>| #[trigger] before.contains_key(p) ==> map@.contains_key(p),
                forall|j: int|
                    0 <= j < self.files@.len() ==> map@.contains_key(
                        child_path(path@, (#[trigger] self.files@[j]).name@),
                    ),
                forall|j: int|
                    0 <= j < i ==> map@.contains_key(
                        child_path(path@, (#[trigger] self.subdirectories@[j]).name@),
                    ),
                forall|j: int, p: Seq<char>, e: VfsEntry|
                    0 <= j < i && #[trigger] holds_at(
                        self.subdirectories@[j],
                        child_path(path@, self.subdirectories@[j].name@),
                        p,
                        e,
                    ) ==> map@.contains_key(p),
                forall|p: Seq<char>| #[trigger]
                    map@.contains_key(p) ==> (before.contains_key(p) && map@[p] == before[p])
                        || exists|e: VfsEntry|
                        #[trigger] holds_at(*self, path@, p, e) && same_entry(map@[p], e),
        {
            let d = &self.subdirectories[i];
            let mut key = path.clone();
            key.append("/");
            key.append(d.name.as_str());
            let ghost k = key@;
            let ghost e = VfsEntry::Dir(self.subdirectories@[i as int]);
            let ghost mid = map@;
            map.insert(key.clone(), VfsEntry::Dir(d.clone()));
            proof {
                reveal_strlit("/");
                assert(k =~= child_path(path@, self.subdirectories@[i as int].name@));
                assert(holds_at(*self, path@, k, e));
            }
            let ghost mid2 = map@;
            d.index_into(map, &key);
            proof {
                assert forall|p: Seq<char>| #[trigger] before.contains_key(p) implies map@.contains_key(
                    p,
                ) by {
                    assert(mid.contains_key(p));
                    assert(mid2.contains_key(p));
                }
                assert forall|j: int| 0 <= j < self.files@.len() implies map@.contains_key(
                    child_path(path@, (#[trigger] self.files@[j]).name@),
                ) by {
                    assert(mid2.contains_key(child_path(path@, self.files@[j].name@)));
                }
                assert forall|j: int| 0 <= j < i + 1 implies map@.contains_key(
                    child_path(path@, (#[trigger] self.subdirectories@[j]).name@),
                ) by {
                    assert(mid2.contains_key(child_path(path@, self.subdirectories@[j].name@)));
                }
                assert forall|j: int, p: Seq<char>, e: VfsEntry|
                    0 <= j < i + 1 && #[trigger] holds_at(
                        self.subdirectories@[j],
                        child_path(path@, self.subdirectories@[j].name@),
                        p,
                        e,
                    ) implies map@.contains_key(p) by {
                    if j < i {
                        assert(mid2.contains_key(p));
                    } else {
                        assert(self.subdirectories@[j] == *d);
                        assert(holds_at(*d, k, p, e));
                    }
                }
                assert forall|p: Seq<char>| #[trigger] map@.contains_key(p) implies (before.contains_key(
                    p,
                ) && map@[p] == before[p]) || exists|e: VfsEntry|
                    #[trigger] holds_at(*self, path@, p, e) && same_entry(map@[p], e) by {
                    if !(mid2.contains_key(p) && map@[p] == mid2[p]) {
                        let e2 = choose|e2: VfsEntry|
                            #[trigger] holds_at(*d, k, p, e2) && same_entry(map@[p], e2);
                        assert(holds_at(*self, path@, p, e2));
                    }
                }
            }
        }
        proof {
            assert forall|p: Seq<char>, e: VfsEntry| #[trigger]
                holds_at(*self, path@, p, e) implies map@.contains_key(p) by {
                if exists|i: int|
                    0 <= i < self.files@.len() && p == child_path(path@, self.files@[i].name@) && e
                        == VfsEntry::File(#[trigger] self.files@[i]) {
                    let i = choose|i: int|
                        0 <= i < self.files@.len() && p == child_path(path@, self.files@[i].name@)
                            && e == VfsEntry::File(#[trigger] self.files@[i]);
                    assert(map@.contains_key(child_path(path@, self.files@[i].name@)));
                } else if exists|i: int|
                    0 <= i < self.subdirectories@.len() && p == child_path(
                        path@,
                        self.subdirectories@[i].name@,
                    ) && e == VfsEntry::Dir(#[trigger] self.subdirectories@[i]) {
                    let i = choose|i: int|
                        0 <= i < self.subdirectories@.len() && p == child_path(
                            path@,
                            self.subdirectories@[i].name@,
                        ) && e == VfsEntry::Dir(#[trigger] self.subdirectories@[i]);
                    assert(map@.contains_key(child_path(path@, self.subdirectories@[i].name@)));
                } else {
                    let i = choose|i: int|
                        0 <= i < self.subdirectories@.len() && holds_at(
                            #[trigger] self.subdirectories@[i],
                            child_path(path@, self.subdirectories@[i].name@),
                            p,
                            e,
                        );
                    assert(holds_at(
                        self.subdirectories@[i],
                        child_path(path@, self.subdirectories@[i].name@),
                        p,
                        e,
                    ));
                }
            }
        }
    }
}


/// Sum of the sizes of the first `n` subdirectories' files of `d`, at every depth.
closed spec fn deep_size_upto(d: CombinableDir, n: nat) -> int
    decreases d, n,
{
    if n == 0 || n > d.subdirectories@.len() {
        0
    } else {
        let c = d.subdirectories@[n - 1];
        deep_size_upto(d, (n - 1) as nat) + total_size(c.files@) + deep_size_upto(
            c,
            c.subdirectories@.len(),
        )
    }
}

/// Sum of the sizes of all files below `d`, at every depth.
pub closed spec fn deep_size(d: CombinableDir) -> int {
    total_size(d.files@) + deep_size_upto(d, d.subdirectories@.len())
}

/// Latest modification time among the first `n` subdirectories' files of
/// `d`, at every depth; zero when there are none.
closed spec fn deep_latest_upto(d: CombinableDir, n: nat) -> u64
    decreases d, n,
{
    if n == 0 || n > d.subdirectories@.len() {
        0
    } else {
        let c = d.subdirectories@[n - 1];
        max_u64(
            deep_latest_upto(d, (n - 1) as nat),
            max_u64(latest(c.files@), deep_latest_upto(c, c.subdirectories@.len())),
        )
    }
}

/// Latest modification time among all files below `d`, at every depth; zero
/// when there are none.
pub closed spec fn deep_latest(d: CombinableDir) -> u64 {
    max_u64(latest(d.files@), deep_latest_upto(d, d.subdirectories@.len()))
}

/// Latest modification time among all files below any of the directories.
pub open spec fn forest_latest(dirs: Seq<CombinableDir>) -> u64
    decreases dirs.len(),
{
    if dirs.len() == 0 {
        0
    } else {
        max_u64(forest_latest(dirs.drop_last()), deep_latest(dirs.last()))
    }
}

/// In a well-formed tree, and so in every merge, a directory's size is the sum
/// of the sizes of all files below it, and its modification time the latest
/// among them (zero when it holds no file).
pub proof fn lemma_wf_deep(d: CombinableDir)
    requires
        d.wf(),
    ensures
        d.spec_size() == deep_size(d),
        d.spec_last_modified() == deep_latest(d),
    decreases d,
{
    let subs = d.subdirectories@;
    assert forall|n: nat| n <= subs.len() implies #[trigger] deep_size_upto(d, n) == total_size(
        subs.take(n as int),
    ) && deep_latest_upto(d, n) == latest(subs.take(n as int)) by {
        lemma_deep_upto(d, n);
    }
    assert(subs.take(subs.len() as int) =~= subs);
}

proof fn lemma_deep_upto(d: CombinableDir, n: nat)
    requires
        d.wf(),
        n <= d.subdirectories@.len(),
    ensures
        deep_size_upto(d, n) == total_size(d.subdirectories@.take(n as int)),
        deep_latest_upto(d, n) == latest(d.subdirectories@.take(n as int)),
    decreases d, n,
{
    let subs = d.subdirectories@;
    if n > 0 {
        let c = subs[n - 1];
        lemma_deep_upto(d, (n - 1) as nat);
        lemma_subdirectory_decreases(d, n - 1);
        assert(c.wf());
        lemma_wf_deep(c);
        assert(subs.take(n as int).drop_last() =~= subs.take(n - 1));
    } else {
        assert(subs.take(0) =~= Seq::<CombinableDir>::empty());
    }
}


proof fn lemma_flat_latest(dirs: Seq<CombinableDir>)
    requires
        forall|i: int| 0 <= i < dirs.len() ==> (#[trigger] dirs[i]).wf(),
    ensures
        max_u64(latest(flat_files(dirs)), latest(flat_subdirectories(dirs))) == latest(dirs),
    decreases dirs.len(),
{
    if dirs.len() > 0 {
        let rest = dirs.drop_last();
        let d = dirs.last();
        assert(forall|i: int| 0 <= i < rest.len() ==> rest[i] == dirs[i]);
        lemma_flat_latest(rest);
        lemma_latest_append(flat_files(rest), d.files@);
        lemma_latest_append(flat_subdirectories(rest), d.subdirectories@);
        assert(d == dirs[dirs.len() - 1]);
    }
}

proof fn lemma_merge_latest(r: CombinableDir, dirs: Seq<CombinableDir>)
    requires
        forall|i: int| 0 <= i < dirs.len() ==> (#[trigger] dirs[i]).wf(),
        r.wf(),
        merges(r, dirs),
    ensures
        r.last_modified == latest(dirs),
    decreases r,
{
    let flat_f = flat_files(dirs);
    let flat_d = flat_subdirectories(dirs);
    let fgroups = group_by_name(flat_f);
    let dgroups = group_by_name(flat_d);
    lemma_flat(dirs);
    lemma_flat_latest(dirs);
    lemma_groups_shape(flat_d);
    lemma_group_members(flat_d, |x: CombinableDir| x.wf());
    lemma_group_latest(flat_f);
    lemma_group_latest(flat_d);
    assert forall|i: int| 0 <= i < r.files@.len() implies (#[trigger] r.files@[i]).spec_last_modified()
        == latest(fgroups[i]) by {
        assert(is_join_of(r.files@[i], fgroups[i]));
    }
    lemma_latest_pointwise(r.files@, fgroups);
    assert forall|i: int| 0 <= i < r.subdirectories@.len() implies (
    #[trigger] r.subdirectories@[i]).spec_last_modified() == latest(dgroups[i]) by {
        let g = dgroups[i];
        if g.len() == 1 {
            assert(g.drop_last() =~= Seq::<CombinableDir>::empty());
            assert(latest(Seq::<CombinableDir>::empty()) == 0);
            assert(g.last() == g[0]);
        } else {
            assert(r.subdirectories@[i].wf());
            assert forall|j: int| 0 <= j < g.len() implies (#[trigger] g[j]).wf() by {
                assert(dgroups[i][j].wf());
            }
            lemma_merge_latest(r.subdirectories@[i], g);
        }
    }
    lemma_latest_pointwise(r.subdirectories@, dgroups);
}

/// The merge's modification time is the latest among all files of all the
/// merged trees, at every depth; the same holds of every directory of the
/// merge, with respect to the files below it.
pub proof fn lemma_combine_last_modified(r: CombinableDir, trees: Seq<CombinableDir>)
    requires
        forall|i: int| 0 <= i < trees.len() ==> (#[trigger] trees[i]).wf(),
        r.wf(),
        merges(r, trees),
    ensures
        r.spec_last_modified() == forest_latest(trees),
        r.spec_last_modified() == deep_latest(r),
{
    lemma_merge_latest(r, trees);
    lemma_forest_latest(trees);
    lemma_wf_deep(r);
}

proof fn lemma_forest_latest(trees: Seq<CombinableDir>)
    requires
        forall|i: int| 0 <= i < trees.len() ==> (#[trigger] trees[i]).wf(),
    ensures
        latest(trees) == forest_latest(trees),
    decreases trees.len(),
{
    if trees.len() > 0 {
        let rest = trees.drop_last();
        assert(forall|i: int| 0 <= i < rest.len() ==> rest[i] == trees[i]);
        lemma_forest_latest(rest);
        assert(trees.last() == trees[trees.len() - 1]);
        lemma_wf_deep(trees.last());
    }
}

/// The merge's size is the sum of the sizes of all its files at every depth,
/// each merged file counted once however many trees held it.
pub proof fn lemma_combine_size(r: CombinableDir, trees: Seq<CombinableDir>)
    requires
        r.wf(),
        merges(r, trees),
    ensures
        r.spec_size() == deep_size(r),
{
    lemma_wf_deep(r);
}

/// Trees whose entries have distinct names across all of them merge without
/// overlap: the merge's size is the sum of the trees' sizes.
pub proof fn lemma_combine_disjoint_size(r: CombinableDir, trees: Seq<CombinableDir>)
    requires
        forall|i: int| 0 <= i < trees.len() ==> (#[trigger] trees[i]).wf(),
        r.wf(),
        merges(r, trees),
        distinct_names(flat_files(trees)),
        distinct_names(flat_subdirectories(trees)),
    ensures
        r.spec_size() == total_size(trees),
{
    let flat_f = flat_files(trees);
    let flat_d = flat_subdirectories(trees);
    lemma_flat(trees);
    lemma_group_distinct(flat_f);
    lemma_group_distinct(flat_d);
    let fgroups = group_by_name(flat_f);
    assert forall|i: int| 0 <= i < r.files@.len() implies (#[trigger] r.files@[i]).spec_size()
        == flat_f[i].spec_size() && r.files@[i].spec_last_modified()
        == flat_f[i].spec_last_modified() by {
        let g = fgroups[i];
        assert(g == seq![flat_f[i]]);
        assert(g.drop_last() =~= Seq::<StaticCombinableFile>::empty());
        assert(largest_size(Seq::<StaticCombinableFile>::empty()) == 0);
        assert(latest(Seq::<StaticCombinableFile>::empty()) == 0);
        assert(g.last() == flat_f[i]);
        assert(is_join_of(r.files@[i], g));
    }
    lemma_same_sizes(r.files@, flat_f);
    assert(r.subdirectories@ =~= flat_d);
}

/// Merging a single directory whose entries have distinct names gives it
/// back: the same name, size and time, files with the same names, sizes,
/// times and links, and the very same subdirectories.
pub proof fn lemma_combine_single(a: CombinableDir, r: CombinableDir)
    requires
        a.wf(),
        r.wf(),
        merges(r, seq![a]),
        distinct_names(a.spec_files()),
        distinct_names(a.spec_subdirectories()),
    ensures
        r.spec_name() == a.spec_name(),
        r.spec_size() == a.spec_size(),
        r.spec_last_modified() == a.spec_last_modified(),
        r.spec_files().len() == a.spec_files().len(),
        forall|i: int|
            0 <= i < r.spec_files().len() ==> same_file(
                #[trigger] r.spec_files()[i],
                a.spec_files()[i],
            ),
        r.spec_subdirectories() == a.spec_subdirectories(),
{
    let one = seq![a];
    assert(one.drop_last() =~= Seq::<CombinableDir>::empty());
    assert(one.last() == a);
    let none = Seq::<CombinableDir>::empty();
    assert(flat_files(none) == Seq::<StaticCombinableFile>::empty());
    assert(flat_subdirectories(none) == Seq::<CombinableDir>::empty());
    assert(flat_files(one) == flat_files(none) + a.files@);
    assert(flat_subdirectories(one) == flat_subdirectories(none) + a.subdirectories@);
    assert(flat_files(one) =~= a.files@);
    assert(flat_subdirectories(one) =~= a.subdirectories@);
    lemma_group_distinct(a.files@);
    lemma_group_distinct(a.subdirectories@);
    let fgroups = group_by_name(a.files@);
    assert forall|i: int| 0 <= i < r.files@.len() implies same_file(
        #[trigger] r.files@[i],
        a.files@[i],
    ) by {
        let g = fgroups[i];
        assert(g == seq![a.files@[i]]);
        assert(g.drop_last() =~= Seq::<StaticCombinableFile>::empty());
        assert(largest_size(Seq::<StaticCombinableFile>::empty()) == 0);
        assert(latest(Seq::<StaticCombinableFile>::empty()) == 0);
        assert(joined_links(Seq::<StaticCombinableFile>::empty()) == Seq::<String>::empty());
        assert(g.last() == a.files@[i]);
        assert(is_join_of(r.files@[i], g));
        assert(r.files@[i].links@ =~= a.files@[i].links@);
    }
    assert(r.subdirectories@ =~= a.subdirectories@);
    lemma_same_sizes(r.files@, a.files@);
}



/// `f` is a file found at path `p` below `d`, where `p` joins the names of
/// the directories on the way, each followed by `/`, to the file's name, and
/// `prefix` is what stands before them.
pub closed spec fn file_at(d: CombinableDir, prefix: Seq<char>, p: Seq<char>, f: StaticCombinableFile) -> bool
    decreases d,
{
    ||| exists|i: int|
        0 <= i < d.files@.len() && p == prefix + d.files@[i].name@ && f == #[trigger] d.files@[i]
    ||| exists|i: int|
        0 <= i < d.subdirectories@.len() && file_at(
            #[trigger] d.subdirectories@[i],
            prefix + d.subdirectories@[i].name@ + seq!['/'],
            p,
            f,
        )
}

impl CombinableDir {
    fn files_into(&self, map: &mut StringHashMap<StaticCombinableFile>, path: &String)
        ensures
            forall|p: Seq<char>| #[trigger] old(map)@.contains_key(p) ==> final(map)@.contains_key(p),
            forall|p: Seq<char>, f: StaticCombinableFile| #[trigger]
                file_at(*self, path@, p, f) ==> final(map)@.contains_key(p),
            forall|p: Seq<char>| #[trigger]
                final(map)@.contains_key(p) ==> (old(map)@.contains_key(p) && final(map)@[p] == old(
                    map,
                )@[p]) || exists|f: StaticCombinableFile|
                    #[trigger] file_at(*self, path@, p, f) && same_file(final(map)@[p], f),
        decreases self,
    {
        let ghost before = map@;
        for i in 0..self.files.len()
            invariant
                forall|p: Seq<char>| #[trigger] before.contains_key(p) ==> map@.contains_key(p),
                forall|j: int|
                    0 <= j < i ==> map@.contains_key(path@ + (#[trigger] self.files@[j]).name@),
                forall|p: Seq<char>| #[trigger]
                    map@.contains_key(p) ==> (before.contains_key(p) && map@[p] == before[p])
                        || exists|f: StaticCombinableFile|
                        #[trigger] file_at(*self, path@, p, f) && same_file(map@[p], f),
        {
            let f = &self.files[i];
            let mut key = path.clone();
            key.append(f.name.as_str());
            let ghost k = key@;
            map.insert(key, f.clone());
            proof {
                assert(k == path@ + self.files@[i as int].name@);
                assert(file_at(*self, path@, k, self.files@[i as int]));
            }
        }
        for i in 0..self.subdirectories.len()
            invariant
                forall|p: Seq<char>| #[trigger] before.contains_key(p) ==> map@.contains_key(p),
                forall|j: int|
                    0 <= j < self.files@.len() ==> map@.contains_key(
                        path@ + (#[trigger] self.files@[j]).name@,
                    ),
                forall|j: int, p: Seq<char>, f: StaticCombinableFile|
                    0 <= j < i && #[trigger] file_at(
                        self.subdirectories@[j],
                        path@ + self.subdirectories@[j].name@ + seq!['/'],
                        p,
                        f,
                    ) ==> map@.contains_key(p),
                forall|p: Seq<char>| #[trigger]
                    map@.contains_key(p) ==> (before.contains_key(p) && map@[p] == before[p])
                        || exists|f: StaticCombinableFile|
                        #[trigger] file_at(*self, path@, p, f) && same_file(map@[p], f),
        {
            proof {
                reveal_strlit("/");
            }
            let d = &self.subdirectories[i];
            let mut key = path.clone();
            key.append(d.name.as_str());
            key.append("/");
            let ghost k = key@;
            let ghost mid = map@;
            d.files_into(map, &key);
            proof {
                assert(k =~= path@ + self.subdirectories@[i as int].name@ + seq!['/']);
                assert forall|p: Seq<char>| #[trigger] before.contains_key(p) implies map@.contains_key(
                    p,
                ) by {
                    assert(mid.contains_key(p));
                }
                assert forall|j: int| 0 <= j < self.files@.len() implies map@.contains_key(
                    path@ + (#[trigger] self.files@[j]).name@,
                ) by {
                    assert(mid.contains_key(path@ + self.files@[j].name@));
                }
                assert forall|j: int, p: Seq<char>, f: StaticCombinableFile|
                    0 <= j < i + 1 && #[trigger] file_at(
                        self.subdirectories@[j],
                        path@ + self.subdirectories@[j].name@ + seq!['/'],
                        p,
                        f,
                    ) implies map@.contains_key(p) by {
                    if j < i {
                        assert(mid.contains_key(p));
                    } else {
                        assert(self.subdirectories@[j] == *d);
                        assert(file_at(*d, k, p, f));
                    }
                }
                assert forall|p: Seq<char>| #[trigger] map@.contains_key(p) implies (before.contains_key(
                    p,
                ) && map@[p] == before[p]) || exists|f: StaticCombinableFile|
                    #[trigger] file_at(*self, path@, p, f) && same_file(map@[p], f) by {
                    if !(mid.contains_key(p) && map@[p] == mid[p]) {
                        let f2 = choose|f2: StaticCombinableFile|
                            #[trigger] file_at(*d, k, p, f2) && same_file(map@[p], f2);
                        assert(file_at(*self, path@, p, f2));
                    }
                }
            }
        }
        proof {
            assert forall|p: Seq<char>, f: StaticCombinableFile| #[trigger]
                file_at(*self, path@, p, f) implies map@.contains_key(p) by {
                if exists|i: int|
                    0 <= i < self.files@.len() && p == path@ + self.files@[i].name@ && f
                        == #[trigger] self.files@[i] {
                    let i = choose|i: int|
                        0 <= i < self.files@.len() && p == path@ + self.files@[i].name@ && f
                            == #[trigger] self.files@[i];
                    assert(map@.contains_key(path@ + self.files@[i].name@));
                } else {
                    let i = choose|i: int|
                        0 <= i < self.subdirectories@.len() && file_at(
                            #[trigger] self.subdirectories@[i],
                            path@ + self.subdirectories@[i].name@ + seq!['/'],
                            p,
                            f,
                        );
                    assert(file_at(
                        self.subdirectories@[i],
                        path@ + self.subdirectories@[i].name@ + seq!['/'],
                        p,
                        f,
                    ));
                }
            }
        }
    }

    /// Maps the path of every file below the directory (the names of the
    /// directories on the way, each followed by `/`, then the file's name) to
    /// a copy of the file.
    pub fn compress_path(self) -> (r: StringHashMap<StaticCombinableFile>)
        ensures
            forall|p: Seq<char>, f: StaticCombinableFile| #[trigger]
                file_at(self, Seq::empty(), p, f) ==> r@.contains_key(p),
            forall|p: Seq<char>| #[trigger]
                r@.contains_key(p) ==> exists|f: StaticCombinableFile|
                    #[trigger] file_at(self, Seq::empty(), p, f) && same_file(r@[p], f),
    {
        let mut map: StringHashMap<StaticCombinableFile> = StringHashMap::new();
        let path = String::new();
        self.files_into(&mut map, &path);
        assert(path@ =~= Seq::<char>::empty());
        map
    }

    /// The directory's entries: subdirectories first, then files, as copies.
    pub fn list(&self) -> (r: Vec<VfsEntry>)
        ensures
            r@.len() == self.spec_subdirectories().len() + self.spec_files().len(),
            forall|i: int|
                0 <= i < self.spec_subdirectories().len() ==> same_entry(
                    #[trigger] r@[i],
                    VfsEntry::Dir(self.spec_subdirectories()[i]),
                ),
            forall|i: int|
                0 <= i < self.spec_files().len() ==> same_entry(
                    #[trigger] r@[self.spec_subdirectories().len() + i],
                    VfsEntry::File(self.spec_files()[i]),
                ),
    {
        let mut entries: Vec<VfsEntry> = Vec::new();
        for i in 0..self.subdirectories.len()
            invariant
                entries@.len() == i,
                forall|j: int|
                    0 <= j < i ==> same_entry(
                        #[trigger] entries@[j],
                        VfsEntry::Dir(self.subdirectories@[j]),
                    ),
        {
            entries.push(VfsEntry::Dir(self.subdirectories[i].clone()));
        }
        let n = self.subdirectories.len();
        for i in 0..self.files.len()
            invariant
                n == self.subdirectories@.len(),
                entries@.len() == n + i,
                forall|j: int|
                    0 <= j < n ==> same_entry(
                        #[trigger] entries@[j],
                        VfsEntry::Dir(self.subdirectories@[j]),
                    ),
                forall|j: int|
                    0 <= j < i ==> same_entry(
                        #[trigger] entries@[n + j],
                        VfsEntry::File(self.files@[j]),
                    ),
        {
            entries.push(VfsEntry::File(self.files[i].clone()));
            assert(entries@[n + i as int] == entries@.last());
        }
        entries
    }
}

impl VfsBasicMeta for VfsEntry {
    open spec fn spec_name(&self) -> Seq<char> {
        match self {
            VfsEntry::File(f) => f.spec_name(),
            VfsEntry::Dir(d) => d.spec_name(),
        }
    }

    open spec fn spec_size(&self) -> u64 {
        match self {
            VfsEntry::File(f) => f.spec_size(),
            VfsEntry::Dir(d) => d.spec_size(),
        }
    }

    open spec fn spec_last_modified(&self) -> u64 {
        match self {
            VfsEntry::File(f) => f.spec_last_modified(),
            VfsEntry::Dir(d) => d.spec_last_modified(),
        }
    }

    fn name(&self) -> (r: &str) {
        match self {
            VfsEntry::File(f) => f.name(),
            VfsEntry::Dir(d) => d.name(),
        }
    }

    fn size(&self) -> (r: u64) {
        match self {
            VfsEntry::File(f) => f.size(),
            VfsEntry::Dir(d) => d.size(),
        }
    }

    fn last_modified(&self) -> (r: u64) {
        match self {
            VfsEntry::File(f) => f.last_modified(),
            VfsEntry::Dir(d) => d.last_modified(),
        }
    }
}

} // verus!
