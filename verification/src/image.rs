//! The catalog of images and the retention engine that runs over it.

use std::hash::{Hash, Hasher};
use vstd::prelude::*;
use vstd::string::StringExecFns;
use vstd::std_specs::cmp::PartialEqSpecImpl;
use crate::engine::evict_from;
use crate::retention::{
    distinct, evicted, is_excess, lemma_evicted_once, lemma_evicted_values, lemma_keep_nothing,
};
use crate::version::{Version, VersionKey, VersionView};

verus! {

/// One image of a repository: its id and the version that its tag tells.
#[derive(Debug)]
pub struct ImageEntry {
    pub id: String,
    pub ver: Version,
}

/// The mathematical value of an [`ImageEntry`].
pub struct ImageEntryView {
    pub id: Seq<char>,
    pub ver: VersionView,
}

impl View for ImageEntry {
    type V = ImageEntryView;

    open spec fn view(&self) -> ImageEntryView {
        ImageEntryView { id: self.id@, ver: self.ver@ }
    }
}

impl PartialEq for ImageEntry {
    fn eq(&self, other: &Self) -> (r: bool) {
        self.ver == other.ver
    }
}

impl PartialEqSpecImpl for ImageEntry {
    open spec fn obeys_eq_spec() -> bool {
        true
    }

    open spec fn eq_spec(&self, other: &Self) -> bool {
        self@.ver.key() == other@.ver.key()
    }
}

impl Eq for ImageEntry {

}

impl Hash for ImageEntry {
    fn hash<H: Hasher>(&self, state: &mut H) {
        self.ver.hash(state)
    }
}

/// The mathematical value of a repository: its name and its images in the order in
/// which they came.
pub struct RepositoryView {
    pub name: Seq<char>,
    pub entries: Seq<ImageEntryView>,
}

/// The versions of a list of images.
pub open spec fn versions(entries: Seq<ImageEntryView>) -> Seq<VersionView> {
    Seq::new(entries.len(), |i: int| entries[i].ver)
}

/// A catalog holds each repository once, and in a repository each version once.
pub open spec fn well_formed(catalog: Seq<RepositoryView>) -> bool {
    &&& forall|i: int, j: int| 0 <= i < j < catalog.len() ==> catalog[i].name != catalog[j].name
    &&& forall|i: int| 0 <= i < catalog.len() ==> distinct(versions(#[trigger] catalog[i].entries))
}

/// A version that the engine evicts, and the repository that it is evicted from.
#[derive(Debug)]
pub struct Eviction<'a> {
    pub repository: &'a str,
    pub version: &'a Version,
}

/// The mathematical value of an [`Eviction`].
pub struct EvictionView {
    pub repository: Seq<char>,
    pub version: VersionView,
}

impl<'a> View for Eviction<'a> {
    type V = EvictionView;

    open spec fn view(&self) -> EvictionView {
        EvictionView { repository: self.repository@, version: self.version@ }
    }
}

/// The values of a list of evictions.
pub open spec fn eviction_views(list: Seq<Eviction>) -> Seq<EvictionView> {
    Seq::new(list.len(), |i: int| list[i]@)
}

/// The evictions of the versions `vs` from the repository `name`.
pub open spec fn tagged(name: Seq<char>, vs: Seq<VersionView>) -> Seq<EvictionView> {
    Seq::new(vs.len(), |i: int| EvictionView { repository: name, version: vs[i] })
}

/// What the engine evicts from a catalog, repository by repository, each in the order
/// in which its images came.
pub open spec fn evictions(catalog: Seq<RepositoryView>, canonical: nat, snapshot: nat) -> Seq<
    EvictionView,
>
    decreases catalog.len(),
{
    if catalog.len() == 0 {
        Seq::empty()
    } else {
        evictions(catalog.drop_last(), canonical, snapshot) + tagged(
            catalog.last().name,
            evicted(versions(catalog.last().entries), canonical, snapshot),
        )
    }
}

/// The eviction `ev` names a version of the catalog that is in excess: a version of
/// the repository that it names, whose bucket there holds as many newer versions as
/// it keeps, or more.
pub open spec fn excess_in(
    catalog: Seq<RepositoryView>,
    ev: EvictionView,
    canonical: nat,
    snapshot: nat,
) -> bool {
    exists|r: int|
        0 <= r < catalog.len() && (#[trigger] catalog[r]).name == ev.repository && versions(
            catalog[r].entries,
        ).contains(ev.version) && is_excess(
            versions(catalog[r].entries),
            ev.version.key(),
            canonical,
            snapshot,
        )
}

/// Every version of every repository of the catalog, in the order in which they stand.
pub open spec fn all_versions(catalog: Seq<RepositoryView>) -> Seq<EvictionView>
    decreases catalog.len(),
{
    if catalog.len() == 0 {
        Seq::empty()
    } else {
        all_versions(catalog.drop_last()) + tagged(
            catalog.last().name,
            versions(catalog.last().entries),
        )
    }
}

/// The rule of retention on a catalog: the engine evicts exactly the versions in
/// excess, and none of them twice.
pub proof fn lemma_evictions_are_the_excess(catalog: Seq<RepositoryView>, canonical: nat, snapshot: nat)
    requires
        well_formed(catalog),
    ensures
        forall|ev: EvictionView| #[trigger]
            evictions(catalog, canonical, snapshot).contains(ev) <==> excess_in(
                catalog,
                ev,
                canonical,
                snapshot,
            ),
        evictions(catalog, canonical, snapshot).no_duplicates(),
    decreases catalog.len(),
{
    let all = evictions(catalog, canonical, snapshot);
    if catalog.len() == 0 {
        assert forall|ev: EvictionView| #[trigger] all.contains(ev) <==> excess_in(
            catalog,
            ev,
            canonical,
            snapshot,
        ) by {}
    } else {
        let rest = catalog.drop_last();
        let last = catalog.last();
        let n = catalog.len() - 1;
        let vs = versions(last.entries);
        let left = evictions(rest, canonical, snapshot);
        let gone = evicted(vs, canonical, snapshot);
        let right = tagged(last.name, gone);
        assert(catalog[n] == last);
        assert(distinct(versions(catalog[n].entries)));
        assert(well_formed(rest)) by {
            assert forall|i: int| 0 <= i < rest.len() implies distinct(
                versions(#[trigger] rest[i].entries),
            ) by {
                assert(rest[i] == catalog[i]);
            }
        }
        lemma_evictions_are_the_excess(rest, canonical, snapshot);
        lemma_evicted_once(vs, canonical, snapshot);
        assert forall|ev: EvictionView| #[trigger] all.contains(ev) <==> excess_in(
            catalog,
            ev,
            canonical,
            snapshot,
        ) by {
            lemma_evicted_values(vs, canonical, snapshot, ev.version);
            if all.contains(ev) {
                let i = choose|i: int| 0 <= i < all.len() && all[i] == ev;
                if i < left.len() {
                    assert(left[i] == ev);
                    assert(left.contains(ev));
                    let r = choose|r: int|
                        0 <= r < rest.len() && (#[trigger] rest[r]).name == ev.repository
                            && versions(rest[r].entries).contains(ev.version) && is_excess(
                            versions(rest[r].entries),
                            ev.version.key(),
                            canonical,
                            snapshot,
                        );
                    assert(catalog[r] == rest[r]);
                } else {
                    assert(right[i - left.len()] == ev);
                    assert(gone[i - left.len()] == ev.version);
                    assert(gone.contains(ev.version));
                }
            }
            if excess_in(catalog, ev, canonical, snapshot) {
                let r = choose|r: int|
                    0 <= r < catalog.len() && (#[trigger] catalog[r]).name == ev.repository
                        && versions(catalog[r].entries).contains(ev.version) && is_excess(
                        versions(catalog[r].entries),
                        ev.version.key(),
                        canonical,
                        snapshot,
                    );
                if r < n {
                    assert(rest[r] == catalog[r]);
                    assert(excess_in(rest, ev, canonical, snapshot));
                    assert(left.contains(ev));
                    let i = choose|i: int| 0 <= i < left.len() && left[i] == ev;
                    assert(all[i] == ev);
                } else {
                    assert(gone.contains(ev.version));
                    let i = choose|i: int| 0 <= i < gone.len() && gone[i] == ev.version;
                    assert(right[i] == ev);
                    assert(all[left.len() + i] == ev);
                }
            }
        }
        assert forall|i: int, j: int| 0 <= i < all.len() && 0 <= j < all.len() && i != j implies all[i]
            != all[j] by {
            if i < left.len() && j < left.len() {
                assert(all[i] == left[i] && all[j] == left[j]);
            } else if i >= left.len() && j >= left.len() {
                let x = i - left.len();
                let y = j - left.len();
                assert(all[i] == right[x] && all[j] == right[y]);
                if x < y {
                    assert(gone[x].key() != gone[y].key());
                } else {
                    assert(gone[y].key() != gone[x].key());
                }
            } else {
                let (a, b) = if i < left.len() {
                    (i, j)
                } else {
                    (j, i)
                };
                assert(all[a] == left[a]);
                assert(all[b] == right[b - left.len()]);
                assert(left.contains(left[a]));
                assert(excess_in(rest, left[a], canonical, snapshot));
                let r = choose|r: int|
                    0 <= r < rest.len() && (#[trigger] rest[r]).name == left[a].repository;
                assert(rest[r] == catalog[r]);
                assert(catalog[r].name != catalog[n].name);
            }
        }
    }
}

/// With both limits zero the engine evicts every version of the catalog.
pub proof fn lemma_keep_nothing_evicts_all(catalog: Seq<RepositoryView>)
    ensures
        evictions(catalog, 0, 0) == all_versions(catalog),
    decreases catalog.len(),
{
    if catalog.len() > 0 {
        lemma_keep_nothing_evicts_all(catalog.drop_last());
        lemma_keep_nothing(versions(catalog.last().entries));
    }
}

/// The engine has no memory: what it evicts depends on the catalog and the two limits
/// alone, so a second run on the same catalog evicts the same versions.
pub proof fn lemma_same_run_same_evictions(
    first: Seq<RepositoryView>,
    second: Seq<RepositoryView>,
    canonical: nat,
    snapshot: nat,
)
    requires
        first == second,
    ensures
        evictions(first, canonical, snapshot) == evictions(second, canonical, snapshot),
{
}

/// The values of a list of images.
pub open spec fn entry_views(entries: Seq<ImageEntry>) -> Seq<ImageEntryView> {
    Seq::new(entries.len(), |i: int| entries[i]@)
}

/// The first index from `from` on at which `catalog` holds a repository called `name`;
/// the length of `catalog` where it holds none.
pub open spec fn find_name(catalog: Seq<RepositoryView>, name: Seq<char>, from: int) -> int
    decreases catalog.len() - from,
{
    if from < 0 || from >= catalog.len() {
        catalog.len() as int
    } else if catalog[from].name == name {
        from
    } else {
        find_name(catalog, name, from + 1)
    }
}

/// The first index from `from` on at which `entries` holds the version `k`; the length
/// of `entries` where it holds none.
pub open spec fn find_version(entries: Seq<ImageEntryView>, k: VersionKey, from: int) -> int
    decreases entries.len() - from,
{
    if from < 0 || from >= entries.len() {
        entries.len() as int
    } else if entries[from].ver.key() == k {
        from
    } else {
        find_version(entries, k, from + 1)
    }
}

/// The images of a repository once `e` has come: it takes the place of the image of
/// the same version, or stands last.
pub open spec fn put(entries: Seq<ImageEntryView>, e: ImageEntryView) -> Seq<ImageEntryView> {
    let j = find_version(entries, e.ver.key(), 0);
    if j < entries.len() {
        entries.update(j, e)
    } else {
        entries.push(e)
    }
}

/// The catalog once the image `e` of the repository `name` has come: a repository
/// that the catalog does not hold yet stands last.
pub open spec fn with_entry(catalog: Seq<RepositoryView>, name: Seq<char>, e: ImageEntryView) -> Seq<
    RepositoryView,
> {
    let r = find_name(catalog, name, 0);
    if r < catalog.len() {
        catalog.update(r, RepositoryView { name, entries: put(catalog[r].entries, e) })
    } else {
        catalog.push(RepositoryView { name, entries: seq![e] })
    }
}

/// The index of the image of the version of `v`, or the number of images where there
/// is none.
pub fn version_index(entries: &Vec<ImageEntry>, v: &Version) -> (r: usize)
    ensures
        r == find_version(entry_views(entries@), v@.key(), 0),
        r <= entries.len(),
        r < entries.len() ==> entries[r as int]@.ver.key() == v@.key(),
        r == entries.len() ==> forall|i: int|
            0 <= i < entries.len() ==> (#[trigger] entry_views(entries@)[i]).ver.key() != v@.key(),
{
    let ghost es = entry_views(entries@);
    let mut r: usize = 0;
    while r < entries.len()
        invariant
            r <= entries.len(),
            es == entry_views(entries@),
            find_version(es, v@.key(), 0) == find_version(es, v@.key(), r as int),
            forall|i: int| 0 <= i < r ==> (#[trigger] es[i]).ver.key() != v@.key(),
        decreases entries.len() - r,
    {
        assert(es[r as int] == entries[r as int]@);
        if entries[r].ver == *v {
            return r;
        }
        r = r + 1;
    }
    r
}

/// The image of the version `k` in the repository called `name`, if the catalog holds
/// one.
pub open spec fn entry_of(catalog: Seq<RepositoryView>, name: Seq<char>, k: VersionKey) -> Option<
    ImageEntryView,
> {
    let r = find_name(catalog, name, 0);
    if r < catalog.len() {
        let j = find_version(catalog[r].entries, k, 0);
        if j < catalog[r].entries.len() {
            Some(catalog[r].entries[j])
        } else {
            None
        }
    } else {
        None
    }
}

/// The value of an image, if there is one.
pub open spec fn opt_entry(e: Option<&ImageEntry>) -> Option<ImageEntryView> {
    match e {
        Some(x) => Some(x@),
        None => None,
    }
}

/// A repository and its images.
struct Repository {
    name: String,
    entries: Vec<ImageEntry>,
}

impl View for Repository {
    type V = RepositoryView;

    closed spec fn view(&self) -> RepositoryView {
        RepositoryView { name: self.name@, entries: entry_views(self.entries@) }
    }
}

/// The values of a list of repositories.
spec fn catalog_of(repositories: Seq<Repository>) -> Seq<RepositoryView> {
    Seq::new(repositories.len(), |i: int| repositories[i]@)
}

/// The images of a registry, by repository. A catalog holds each repository once,
/// and in a repository each version once.
pub struct Images {
    repositories: Vec<Repository>,
}

impl View for Images {
    type V = Seq<RepositoryView>;

    closed spec fn view(&self) -> Seq<RepositoryView> {
        catalog_of(self.repositories@)
    }
}

impl Images {
    #[verifier::type_invariant]
    spec fn holds_each_once(self) -> bool {
        well_formed(self@)
    }

    /// The catalog without images.
    pub fn new() -> (r: Images)
        ensures
            r@ == Seq::<RepositoryView>::empty(),
    {
        let r = Images { repositories: Vec::new() };
        assert(r@ =~= Seq::<RepositoryView>::empty());
        r
    }

    /// The index of the repository called `name`, or the number of repositories where
    /// there is none.
    fn name_index(&self, name: &String) -> (r: usize)
        ensures
            r == find_name(self@, name@, 0),
            r <= self@.len(),
            r < self@.len() ==> self@[r as int].name == name@,
            r == self.repositories.len() ==> forall|i: int|
                0 <= i < self@.len() ==> (#[trigger] self@[i]).name != name@,
    {
        let mut r: usize = 0;
        while r < self.repositories.len()
            invariant
                r <= self.repositories.len(),
                find_name(self@, name@, 0) == find_name(self@, name@, r as int),
                forall|i: int| 0 <= i < r ==> (#[trigger] self@[i]).name != name@,
            decreases self.repositories.len() - r,
        {
            assert(self@[r as int] == self.repositories[r as int]@);
            if self.repositories[r].name == *name {
                return r;
            }
            r = r + 1;
        }
        r
    }

    /// The image of the version of `ver` in the repository called `repository`, however
    /// that version was written there.
    pub fn find(&self, repository: &str, ver: &Version) -> (r: Option<&ImageEntry>)
        ensures
            opt_entry(r) == entry_of(self@, repository@, ver@.key()),
    {
        let name = String::from_str(repository);
        let at = self.name_index(&name);
        if at < self.repositories.len() {
            assert(self@[at as int] == self.repositories[at as int]@);
            let entries = &self.repositories[at].entries;
            let j = version_index(entries, ver);
            if j < entries.len() {
                assert(entry_views(entries@)[j as int] == entries[j as int]@);
                Some(&entries[j])
            } else {
                None
            }
        } else {
            None
        }
    }

    /// Puts an image into the catalog, under the repository called `repository`. It
    /// takes the place of the image of the same version, if the repository holds
    /// one: of two images with one version, the later one stays.
    pub fn insert(&mut self, repository: &str, entry: ImageEntry)
        ensures
            final(self)@ == with_entry(old(self)@, repository@, entry@),
            well_formed(final(self)@),
    {
        proof {
            use_type_invariant(&*self);
        }
        let ghost before = self@;
        let ghost e = entry@;
        let name = String::from_str(repository);
        let r = self.name_index(&name);
        let mut repositories: Vec<Repository> = Vec::new();
        assert(catalog_of(repositories@) =~= Seq::<RepositoryView>::empty());
        core::mem::swap(&mut repositories, &mut self.repositories);
        assert(catalog_of(repositories@) == before);
        if r < repositories.len() {
            let ghost entries_before = entry_views(repositories[r as int].entries@);
            assert(before[r as int] == repositories[r as int]@);
            assert(distinct(versions(before[r as int].entries)));
            let j = version_index(&repositories[r].entries, &entry.ver);
            if j < repositories[r].entries.len() {
                repositories[r].entries.set(j, entry);
            } else {
                repositories[r].entries.push(entry);
            }
            proof {
                let after = catalog_of(repositories@);
                let entries_after = entry_views(repositories[r as int].entries@);
                assert(entries_after =~= put(entries_before, e));
                assert(after[r as int] == repositories[r as int]@);
                assert(after[r as int].name == repository@);
                assert forall|i: int| 0 <= i < after.len() && i != r implies after[i]
                    == before[i] by {
                    assert(after[i] == repositories[i]@);
                }
                assert(after =~= with_entry(before, repository@, e));
                assert forall|i: int| 0 <= i < after.len() implies distinct(
                    versions(#[trigger] after[i].entries),
                ) by {
                    if i == r {
                        let now = versions(entries_after);
                        let then = versions(entries_before);
                        assert forall|x: int, y: int| 0 <= x < y < now.len() implies now[x].key()
                            != now[y].key() by {
                            if j < then.len() {
                                assert(now[x].key() == then[x].key());
                                assert(now[y].key() == then[y].key());
                            } else if y < then.len() {
                                assert(now[x] == then[x] && now[y] == then[y]);
                            } else {
                                assert(now[x] == then[x]);
                                assert(entries_before[x].ver.key() != e.ver.key());
                            }
                        }
                    } else {
                        assert(after[i] == before[i]);
                    }
                }
                assert forall|x: int, y: int| 0 <= x < y < after.len() implies after[x].name
                    != after[y].name by {
                    assert(after[x].name == before[x].name);
                    assert(after[y].name == before[y].name);
                }
            }
        } else {
            let mut entries: Vec<ImageEntry> = Vec::new();
            entries.push(entry);
            assert(entry_views(entries@) =~= seq![e]);
            repositories.push(Repository { name, entries });
            proof {
                let after = catalog_of(repositories@);
                assert(after =~= with_entry(before, repository@, e));
                assert forall|i: int| 0 <= i < after.len() implies distinct(
                    versions(#[trigger] after[i].entries),
                ) by {
                    if i < before.len() {
                        assert(after[i] == before[i]);
                    }
                }
                assert forall|x: int, y: int| 0 <= x < y < after.len() implies after[x].name
                    != after[y].name by {
                    assert(after[x] == before[x]);
                    if y < before.len() {
                        assert(after[y] == before[y]);
                    }
                }
            }
        }
        core::mem::swap(&mut repositories, &mut self.repositories);
    }

    /// Runs the retention engine: tells which versions to evict so that every bucket
    /// of every repository keeps its newest versions only, `canonical_keep_count` of
    /// them in a bucket of canonical versions and `snapshot_keep_count` in a bucket
    /// of snapshots. The catalog itself stays as it is.
    ///
    /// The evictions come repository by repository; within a repository they come as
    /// its buckets overflow while its images are taken one by one. Whatever that
    /// order, the versions evicted are exactly those in excess, each of them once.
    pub fn delete<'a>(&'a self, canonical_keep_count: usize, snapshot_keep_count: usize) -> (out:
        Vec<Eviction<'a>>)
        ensures
            well_formed(self@),
            eviction_views(out@) == evictions(
                self@,
                canonical_keep_count as nat,
                snapshot_keep_count as nat,
            ),
            forall|ev: EvictionView| #[trigger]
                eviction_views(out@).contains(ev) <==> excess_in(
                    self@,
                    ev,
                    canonical_keep_count as nat,
                    snapshot_keep_count as nat,
                ),
            eviction_views(out@).no_duplicates(),
            canonical_keep_count == 0 && snapshot_keep_count == 0 ==> eviction_views(out@)
                == all_versions(self@),
    {
        proof {
            use_type_invariant(self);
            lemma_evictions_are_the_excess(
                self@,
                canonical_keep_count as nat,
                snapshot_keep_count as nat,
            );
            lemma_keep_nothing_evicts_all(self@);
        }
        let ghost canonical = canonical_keep_count as nat;
        let ghost snapshot = snapshot_keep_count as nat;
        let mut out: Vec<Eviction<'a>> = Vec::new();
        let mut r: usize = 0;
        assert(eviction_views(out@) =~= evictions(self@.take(0), canonical, snapshot));
        while r < self.repositories.len()
            invariant
                r <= self.repositories.len(),
                canonical == canonical_keep_count as nat,
                snapshot == snapshot_keep_count as nat,
                eviction_views(out@) == evictions(self@.take(r as int), canonical, snapshot),
            decreases self.repositories.len() - r,
        {
            let repository = &self.repositories[r];
            proof {
                let next = self@.take(r + 1);
                assert(next.drop_last() =~= self@.take(r as int));
                assert(next.last() == repository@);
            }
            evict_from(
                repository.name.as_str(),
                &repository.entries,
                canonical_keep_count,
                snapshot_keep_count,
                &mut out,
            );
            r = r + 1;
        }
        assert(self@.take(r as int) =~= self@);
        out
    }
}

} // verus!
