//! Metadata traits shared by files and directories, and grouping entries by name.

use vstd::prelude::*;
use vstd::hash_map::StringHashMap;

verus! {

/// Metadata shared by every entry of the file system.
pub trait VfsBasicMeta: Sized {
    spec fn spec_name(&self) -> Seq<char>;

    spec fn spec_size(&self) -> u64;

    spec fn spec_last_modified(&self) -> u64;

    fn name(&self) -> (r: &str)
        ensures
            r@ == self.spec_name(),
    ;

    /// Size in bytes.
    fn size(&self) -> (r: u64)
        ensures
            r == self.spec_size(),
    ;

    /// Milliseconds since the Unix epoch.
    fn last_modified(&self) -> (r: u64)
        ensures
            r == self.spec_last_modified(),
    ;
}

/// A file: an entry that can be downloaded through one of its links.
pub trait VfsFileMeta: VfsBasicMeta {
    /// The equivalent download links of the file.
    spec fn spec_links(&self) -> Seq<String>;

    /// One of the file's links, drawn at random on every call.
    fn on_download(&self) -> (r: String)
        requires
            self.spec_links().len() > 0,
        ensures
            self.spec_links().contains(r),
    ;
}

/// A directory: an entry that holds files and subdirectories.
pub trait VfsDirMeta<File: VfsFileMeta>: VfsBasicMeta {
    spec fn spec_files(&self) -> Seq<File>;

    spec fn spec_subdirectories(&self) -> Seq<Self>;

    fn files(&self) -> (r: &Vec<File>)
        ensures
            r@ == self.spec_files(),
    ;

    fn subdirectories(&self) -> (r: &Vec<Self>)
        ensures
            r@ == self.spec_subdirectories(),
    ;
}

/// A file whose download links are fixed when it is created.
pub trait StaticDownloadLinkFile: VfsFileMeta {
    fn new(name: String, size: u64, last_modified: u64, links: Vec<String>) -> (r: Self)
        ensures
            r.spec_name() == name@,
            r.spec_size() == size,
            r.spec_last_modified() == last_modified,
            r.spec_links() == links@,
    ;

    fn links(&self) -> (r: &Vec<String>)
        ensures
            r@ == self.spec_links(),
    ;

    /// Takes the file apart into its name, size, modification time and links.
    fn destruct(self) -> (r: (String, u64, u64, Vec<String>))
        ensures
            r.0@ == self.spec_name(),
            r.1 == self.spec_size(),
            r.2 == self.spec_last_modified(),
            r.3@ == self.spec_links(),
    ;
}

/// Values of which several can be folded into one.
pub trait Combinable: Sized {
    /// Whether the values in `from` may be combined.
    spec fn combinable(from: Seq<Self>) -> bool;

    /// Whether `r` is the combination of the values in `from`.
    spec fn combined(r: Self, from: Seq<Self>) -> bool;

    fn combine(from: Vec<Self>) -> (r: Self)
        requires
            Self::combinable(from@),
        ensures
            Self::combined(r, from@),
    ;
}

/// Sum of the sizes of the entries.
pub open spec fn total_size<T: VfsBasicMeta>(s: Seq<T>) -> int
    decreases s.len(),
{
    if s.len() == 0 {
        0
    } else {
        total_size(s.drop_last()) + s.last().spec_size()
    }
}

/// Latest modification time of the entries; zero when there are none.
pub open spec fn latest<T: VfsBasicMeta>(s: Seq<T>) -> u64
    decreases s.len(),
{
    if s.len() == 0 {
        0
    } else {
        let rest = latest(s.drop_last());
        let t = s.last().spec_last_modified();
        if t > rest {
            t
        } else {
            rest
        }
    }
}

/// Largest size among the entries; zero when there are none.
pub open spec fn largest_size<T: VfsBasicMeta>(s: Seq<T>) -> u64
    decreases s.len(),
{
    if s.len() == 0 {
        0
    } else {
        let rest = largest_size(s.drop_last());
        let x = s.last().spec_size();
        if x > rest {
            x
        } else {
            rest
        }
    }
}

/// Position of the group whose entries carry `name`, or -1.
pub open spec fn find_group<T: VfsBasicMeta>(groups: Seq<Seq<T>>, name: Seq<char>) -> int
    decreases groups.len(),
{
    if groups.len() == 0 {
        -1
    } else if groups.last()[0].spec_name() == name {
        groups.len() - 1
    } else {
        find_group(groups.drop_last(), name)
    }
}

/// The entries grouped by name: groups come in the order in which their name
/// first appears, and each group keeps its entries in input order.
pub open spec fn group_by_name<T: VfsBasicMeta>(items: Seq<T>) -> Seq<Seq<T>>
    decreases items.len(),
{
    if items.len() == 0 {
        Seq::empty()
    } else {
        let groups = group_by_name(items.drop_last());
        let x = items.last();
        let i = find_group(groups, x.spec_name());
        if i < 0 {
            groups.push(seq![x])
        } else {
            groups.update(i, groups[i].push(x))
        }
    }
}

/// Sum of the sizes of every entry of every group.
pub open spec fn groups_total<T: VfsBasicMeta>(groups: Seq<Seq<T>>) -> int
    decreases groups.len(),
{
    if groups.len() == 0 {
        0
    } else {
        groups_total(groups.drop_last()) + total_size(groups.last())
    }
}

pub open spec fn max_u64(a: u64, b: u64) -> u64 {
    if a > b {
        a
    } else {
        b
    }
}

pub open spec fn groups_view<T>(groups: Seq<Vec<T>>) -> Seq<Seq<T>> {
    groups.map_values(|g: Vec<T>| g@)
}

pub proof fn lemma_find_group_range<T: VfsBasicMeta>(groups: Seq<Seq<T>>, name: Seq<char>)
    ensures
        -1 <= find_group(groups, name) < groups.len(),
        find_group(groups, name) >= 0 ==> groups[find_group(groups, name)][0].spec_name()
            == name,
        find_group(groups, name) < 0 ==> forall|j: int|
            0 <= j < groups.len() ==> groups[j][0].spec_name() != name,
    decreases groups.len(),
{
    if groups.len() > 0 {
        let rest = groups.drop_last();
        lemma_find_group_range(rest, name);
        assert(forall|j: int| 0 <= j < rest.len() ==> rest[j] == groups[j]);
    }
}

/// Two group sequences whose groups lead with the same names find the same group.
proof fn lemma_find_group_same_names<T: VfsBasicMeta>(
    a: Seq<Seq<T>>,
    b: Seq<Seq<T>>,
    name: Seq<char>,
)
    requires
        a.len() == b.len(),
        forall|j: int| 0 <= j < a.len() ==> a[j][0].spec_name() == b[j][0].spec_name(),
    ensures
        find_group(a, name) == find_group(b, name),
    decreases a.len(),
{
    if a.len() > 0 {
        lemma_find_group_same_names(a.drop_last(), b.drop_last(), name);
    }
}

pub proof fn lemma_total_size_nonneg<T: VfsBasicMeta>(s: Seq<T>)
    ensures
        total_size(s) >= 0,
        forall|i: int| 0 <= i < s.len() ==> s[i].spec_size() <= total_size(s),
    decreases s.len(),
{
    if s.len() > 0 {
        let rest = s.drop_last();
        lemma_total_size_nonneg(rest);
        assert(forall|i: int| 0 <= i < rest.len() ==> rest[i] == s[i]);
    }
}

pub proof fn lemma_total_size_prefix<T: VfsBasicMeta>(s: Seq<T>, k: int)
    requires
        0 <= k <= s.len(),
    ensures
        total_size(s.take(k)) <= total_size(s),
    decreases s.len() - k,
{
    if k < s.len() {
        lemma_total_size_prefix(s, k + 1);
        assert(s.take(k + 1).drop_last() =~= s.take(k));
    } else {
        assert(s.take(k) =~= s);
    }
}

pub proof fn lemma_total_size_append<T: VfsBasicMeta>(a: Seq<T>, b: Seq<T>)
    ensures
        total_size(a + b) == total_size(a) + total_size(b),
    decreases b.len(),
{
    if b.len() == 0 {
        assert(a + b =~= a);
    } else {
        lemma_total_size_append(a, b.drop_last());
        assert((a + b).drop_last() =~= a + b.drop_last());
    }
}

pub proof fn lemma_largest_size_bound<T: VfsBasicMeta>(s: Seq<T>)
    ensures
        largest_size(s) <= total_size(s),
    decreases s.len(),
{
    if s.len() > 0 {
        lemma_largest_size_bound(s.drop_last());
        lemma_total_size_nonneg(s.drop_last());
    }
}

pub proof fn lemma_groups_total_prefix<T: VfsBasicMeta>(gs: Seq<Seq<T>>, k: int)
    requires
        0 <= k <= gs.len(),
    ensures
        groups_total(gs.take(k)) <= groups_total(gs),
        k < gs.len() ==> groups_total(gs.take(k)) + total_size(gs[k]) <= groups_total(gs),
    decreases gs.len() - k,
{
    if k < gs.len() {
        lemma_groups_total_prefix(gs, k + 1);
        assert(gs.take(k + 1).drop_last() =~= gs.take(k));
        lemma_total_size_nonneg(gs[k]);
    } else {
        assert(gs.take(k) =~= gs);
    }
}

/// Grouping neither loses nor adds size.
pub proof fn lemma_group_total<T: VfsBasicMeta>(items: Seq<T>)
    ensures
        groups_total(group_by_name(items)) == total_size(items),
    decreases items.len(),
{
    if items.len() > 0 {
        let rest = items.drop_last();
        let x = items.last();
        let gs = group_by_name(rest);
        lemma_group_total(rest);
        let i = find_group(gs, x.spec_name());
        lemma_find_group_range(gs, x.spec_name());
        if i < 0 {
            let gs2 = gs.push(seq![x]);
            assert(gs2.drop_last() =~= gs);
            assert(seq![x].drop_last() =~= Seq::<T>::empty());
            assert(total_size(Seq::<T>::empty()) == 0);
            assert(seq![x].last() == x);
            assert(total_size(seq![x]) == x.spec_size());
            assert(groups_total(gs2) == groups_total(gs) + x.spec_size());
        } else {
            lemma_groups_total_update(gs, i, gs[i].push(x));
            assert(gs[i].push(x).drop_last() =~= gs[i]);
            assert(total_size(gs[i].push(x)) == total_size(gs[i]) + x.spec_size());
        }
        assert(total_size(items) == total_size(rest) + x.spec_size());
    }
}

proof fn lemma_groups_total_update<T: VfsBasicMeta>(gs: Seq<Seq<T>>, i: int, g: Seq<T>)
    requires
        0 <= i < gs.len(),
    ensures
        groups_total(gs.update(i, g)) == groups_total(gs) - total_size(gs[i]) + total_size(g),
    decreases gs.len(),
{
    let gs2 = gs.update(i, g);
    if i < gs.len() - 1 {
        lemma_groups_total_update(gs.drop_last(), i, g);
        assert(gs2.drop_last() =~= gs.drop_last().update(i, g));
    } else {
        assert(gs2.drop_last() =~= gs.drop_last());
    }
}

/// Every group is non-empty, its entries carry the group's name, and no two
/// groups share a name.
pub proof fn lemma_groups_shape<T: VfsBasicMeta>(items: Seq<T>)
    ensures
        forall|i: int|
            0 <= i < group_by_name(items).len() ==> #[trigger] group_by_name(items)[i].len() > 0,
        forall|i: int, j: int|
            0 <= i < group_by_name(items).len() && 0 <= j < group_by_name(items)[i].len()
                ==> #[trigger] group_by_name(items)[i][j].spec_name()
                == group_by_name(items)[i][0].spec_name(),
        forall|i: int, j: int|
            0 <= i < j < group_by_name(items).len() ==> #[trigger] group_by_name(items)[i][0].spec_name()
                != #[trigger] group_by_name(items)[j][0].spec_name(),
    decreases items.len(),
{
    if items.len() > 0 {
        let rest = items.drop_last();
        let x = items.last();
        let gs = group_by_name(rest);
        lemma_groups_shape(rest);
        lemma_find_group_range(gs, x.spec_name());
    }
}

/// What holds of every item holds of every member of every group.
pub proof fn lemma_group_members<T: VfsBasicMeta>(items: Seq<T>, p: spec_fn(T) -> bool)
    requires
        forall|k: int| 0 <= k < items.len() ==> p(#[trigger] items[k]),
    ensures
        forall|i: int, j: int|
            0 <= i < group_by_name(items).len() && 0 <= j < group_by_name(items)[i].len() ==> p(
                #[trigger] group_by_name(items)[i][j],
            ),
    decreases items.len(),
{
    if items.len() > 0 {
        let rest = items.drop_last();
        let x = items.last();
        let gs = group_by_name(rest);
        assert(forall|k: int| 0 <= k < rest.len() ==> rest[k] == items[k]);
        lemma_group_members(rest, p);
        lemma_find_group_range(gs, x.spec_name());
        assert(p(items[items.len() - 1]));
    }
}

/// Latest modification time over every entry of every group.
pub open spec fn groups_latest<T: VfsBasicMeta>(groups: Seq<Seq<T>>) -> u64
    decreases groups.len(),
{
    if groups.len() == 0 {
        0
    } else {
        max_u64(groups_latest(groups.drop_last()), latest(groups.last()))
    }
}

pub proof fn lemma_latest_append<T: VfsBasicMeta>(a: Seq<T>, b: Seq<T>)
    ensures
        latest(a + b) == max_u64(latest(a), latest(b)),
    decreases b.len(),
{
    if b.len() == 0 {
        assert(a + b =~= a);
    } else {
        lemma_latest_append(a, b.drop_last());
        assert((a + b).drop_last() =~= a + b.drop_last());
    }
}

proof fn lemma_groups_latest_update<T: VfsBasicMeta>(gs: Seq<Seq<T>>, i: int, x: T)
    requires
        0 <= i < gs.len(),
    ensures
        groups_latest(gs.update(i, gs[i].push(x))) == max_u64(
            groups_latest(gs),
            x.spec_last_modified(),
        ),
    decreases gs.len(),
{
    let gs2 = gs.update(i, gs[i].push(x));
    assert(gs[i].push(x).drop_last() =~= gs[i]);
    if i < gs.len() - 1 {
        lemma_groups_latest_update(gs.drop_last(), i, x);
        assert(gs2.drop_last() =~= gs.drop_last().update(i, gs[i].push(x)));
    } else {
        assert(gs2.drop_last() =~= gs.drop_last());
    }
}

/// Grouping keeps the latest modification time.
pub proof fn lemma_group_latest<T: VfsBasicMeta>(items: Seq<T>)
    ensures
        groups_latest(group_by_name(items)) == latest(items),
    decreases items.len(),
{
    if items.len() > 0 {
        let rest = items.drop_last();
        let x = items.last();
        let gs = group_by_name(rest);
        lemma_group_latest(rest);
        let i = find_group(gs, x.spec_name());
        lemma_find_group_range(gs, x.spec_name());
        if i < 0 {
            let gs2 = gs.push(seq![x]);
            assert(gs2.drop_last() =~= gs);
            assert(seq![x].drop_last() =~= Seq::<T>::empty());
            assert(latest(Seq::<T>::empty()) == 0);
            assert(seq![x].last() == x);
        } else {
            lemma_groups_latest_update(gs, i, x);
        }
    }
}

/// Entries that each carry the latest time of their group carry, together,
/// the latest time of all groups.
pub proof fn lemma_latest_pointwise<T: VfsBasicMeta>(s: Seq<T>, gs: Seq<Seq<T>>)
    requires
        s.len() == gs.len(),
        forall|i: int|
            0 <= i < s.len() ==> (#[trigger] s[i]).spec_last_modified() == latest(gs[i]),
    ensures
        latest(s) == groups_latest(gs),
    decreases s.len(),
{
    if s.len() > 0 {
        let (s1, g1) = (s.drop_last(), gs.drop_last());
        assert forall|i: int| 0 <= i < s1.len() implies (#[trigger] s1[i]).spec_last_modified()
            == latest(g1[i]) by {
            assert(s1[i] == s[i]);
            assert(g1[i] == gs[i]);
        }
        lemma_latest_pointwise(s1, g1);
        assert(s.last() == s[s.len() - 1]);
    }
}

/// No two entries share a name.
pub open spec fn distinct_names<T: VfsBasicMeta>(s: Seq<T>) -> bool {
    forall|i: int, j: int|
        0 <= i < j < s.len() ==> #[trigger] s[i].spec_name() != #[trigger] s[j].spec_name()
}

/// Entries with distinct names each form a group of their own.
pub proof fn lemma_group_distinct<T: VfsBasicMeta>(items: Seq<T>)
    requires
        distinct_names(items),
    ensures
        group_by_name(items).len() == items.len(),
        forall|i: int| 0 <= i < items.len() ==> #[trigger] group_by_name(items)[i] == seq![items[i]],
    decreases items.len(),
{
    if items.len() > 0 {
        let rest = items.drop_last();
        let x = items.last();
        assert(forall|i: int| 0 <= i < rest.len() ==> rest[i] == items[i]);
        lemma_group_distinct(rest);
        let gs = group_by_name(rest);
        lemma_find_group_range(gs, x.spec_name());
        if find_group(gs, x.spec_name()) >= 0 {
            let i = find_group(gs, x.spec_name());
            assert(gs[i][0] == items[i]);
            assert(items[i].spec_name() != items[items.len() - 1].spec_name());
        }
    }
}

/// Entries of the same sizes and times, position by position, add up to the
/// same size and time.
pub proof fn lemma_same_sizes<T: VfsBasicMeta>(a: Seq<T>, b: Seq<T>)
    requires
        a.len() == b.len(),
        forall|i: int|
            0 <= i < a.len() ==> (#[trigger] a[i]).spec_size() == b[i].spec_size()
                && a[i].spec_last_modified() == b[i].spec_last_modified(),
    ensures
        total_size(a) == total_size(b),
        latest(a) == latest(b),
    decreases a.len(),
{
    if a.len() > 0 {
        let (a1, b1) = (a.drop_last(), b.drop_last());
        assert forall|i: int| 0 <= i < a1.len() implies (#[trigger] a1[i]).spec_size()
            == b1[i].spec_size() && a1[i].spec_last_modified() == b1[i].spec_last_modified() by {
            assert(a1[i] == a[i]);
            assert(b1[i] == b[i]);
        }
        lemma_same_sizes(a1, b1);
        assert(a.last() == a[a.len() - 1]);
    }
}

/// Groups the entries by name, in the order in which each name first appears.
pub fn divide_by_name<T: VfsBasicMeta>(items: Vec<T>) -> (r: Vec<Vec<T>>)
    ensures
        groups_view(r@) == group_by_name(items@),
{
    let ghost all = items@;
    let mut groups: Vec<Vec<T>> = Vec::new();
    let mut index: StringHashMap<usize> = StringHashMap::new();
    for item in it: items.into_iter()
        invariant
            it.seq() == all,
            groups_view(groups@) == group_by_name(all.take(it.index() as int)),
            forall|j: int| 0 <= j < groups@.len() ==> groups@[j]@.len() > 0,
            forall|n: Seq<char>| #[trigger]
                index@.contains_key(n) ==> index@[n] as int == find_group(
                    groups_view(groups@),
                    n,
                ),
            forall|n: Seq<char>| #[trigger]
                find_group(groups_view(groups@), n) >= 0 ==> index@.contains_key(n),
    {
        let ghost gv = groups_view(groups@);
        let ghost prefix = all.take(it.index() as int);
        proof {
            assert(all.take(it.index() + 1).drop_last() =~= prefix);
            lemma_find_group_range(gv, item.spec_name());
        }
        let name = item.name().to_string();
        match index.get(name.as_str()) {
            Some(i) => {
                let i = *i;
                groups[i].push(item);
                proof {
                    let gv2 = groups_view(groups@);
                    assert(gv2 =~= gv.update(i as int, gv[i as int].push(item)));
                    assert forall|n: Seq<char>| find_group(gv2, n) == find_group(gv, n) by {
                        lemma_find_group_same_names(gv2, gv, n);
                    }
                }
            },
            None => {
                let at = groups.len();
                let mut g: Vec<T> = Vec::new();
                g.push(item);
                groups.push(g);
                index.insert(name, at);
                proof {
                    let gv2 = groups_view(groups@);
                    assert(gv2 =~= gv.push(seq![item]));
                    assert(gv2.drop_last() =~= gv);
                    assert forall|n: Seq<char>| #[trigger]
                        find_group(gv2, n) >= 0 implies index@.contains_key(n) by {
                        if n != name@ {
                            assert(find_group(gv2, n) == find_group(gv, n));
                        }
                    }
                }
            },
        }
    }
    proof {
        assert(all.take(all.len() as int) =~= all);
    }
    groups
}

} // verus!
