//! The retention engine at work on one repository: a shelf for each bucket, on which
//! the versions that the bucket keeps stand oldest first.

use vstd::prelude::*;
use crate::image::{entry_views, eviction_views, tagged, versions, Eviction, EvictionView, ImageEntry};
use crate::retention::{
    ascending, evicted, evicted_by_last, holds, lemma_insert_in_order_at,
    lemma_unseen_bucket_keeps_nothing, limit, overflow, receive, retained, BucketKey,
};
use crate::version::{
    lemma_order_connected, lemma_order_irreflexive, lemma_order_transitive, opt_text, same_text,
    Version, VersionView,
};

verus! {

/// The values of a list of versions.
spec fn version_views(list: Seq<&Version>) -> Seq<VersionView> {
    Seq::new(list.len(), |i: int| list[i]@)
}

/// Looks `e` up in an ascending list: whether the same version is there, and if not,
/// the index at which `e` keeps the list ascending.
fn search(kept: &Vec<&Version>, e: &Version) -> (r: (bool, usize))
    requires
        ascending(version_views(kept@)),
    ensures
        r.0 == holds(version_views(kept@), e@.key()),
        !r.0 ==> r.1 <= kept.len(),
        !r.0 ==> forall|i: int|
            0 <= i < r.1 ==> (#[trigger] version_views(kept@)[i]).key().sorts_before(e@.key()),
        !r.0 ==> forall|i: int|
            r.1 <= i < kept.len() ==> e@.key().sorts_before(
                (#[trigger] version_views(kept@)[i]).key(),
            ),
{
    let ghost vs = version_views(kept@);
    let mut lo: usize = 0;
    let mut hi: usize = kept.len();
    while lo < hi
        invariant
            lo <= hi <= kept.len(),
            vs == version_views(kept@),
            ascending(vs),
            forall|i: int| 0 <= i < lo ==> (#[trigger] vs[i]).key().sorts_before(e@.key()),
            forall|i: int| hi <= i < vs.len() ==> e@.key().sorts_before((#[trigger] vs[i]).key()),
        decreases hi - lo,
    {
        let mid = lo + (hi - lo) / 2;
        let probe = kept[mid];
        assert(vs[mid as int] == probe@);
        if probe.is_older_than(e) {
            proof {
                assert forall|i: int| 0 <= i < mid + 1 implies (#[trigger] vs[i]).key().sorts_before(
                    e@.key(),
                ) by {
                    if i < mid {
                        lemma_order_transitive(vs[i].key(), probe@.key(), e@.key());
                    }
                }
            }
            lo = mid + 1;
        } else if e.is_older_than(probe) {
            proof {
                assert forall|i: int| mid <= i < vs.len() implies e@.key().sorts_before(
                    (#[trigger] vs[i]).key(),
                ) by {
                    if mid < i {
                        lemma_order_transitive(e@.key(), probe@.key(), vs[i].key());
                    }
                }
            }
            hi = mid;
        } else {
            proof {
                lemma_order_connected(probe@.key(), e@.key());
            }
            return (true, mid);
        }
    }
    proof {
        if holds(vs, e@.key()) {
            let i = choose|i: int| 0 <= i < vs.len() && vs[i].key() == e@.key();
            lemma_order_irreflexive(e@.key());
            assert(vs[i].key() == e@.key());
        }
    }
    (false, lo)
}

/// Lets `e` arrive in a bucket that keeps `keep` versions: puts it in its place unless
/// the same version is kept already, and takes the oldest out where the bucket then
/// holds more than `keep`.
fn place<'a>(kept: &mut Vec<&'a Version>, e: &'a Version, keep: usize) -> (r: Option<
    &'a Version,
>)
    requires
        ascending(version_views(old(kept)@)),
    ensures
        version_views(final(kept)@) == receive(version_views(old(kept)@), e@, keep as nat),
        opt_view(r) == overflow(version_views(old(kept)@), e@, keep as nat),
        ascending(version_views(final(kept)@)),
{
    let ghost before = version_views(kept@);
    let (found, at) = search(kept, e);
    if !found {
        kept.insert(at, e);
        proof {
            lemma_insert_in_order_at(before, e@, at as int);
            assert(version_views(kept@) =~= before.insert(at as int, e@));
        }
    }
    let ghost g = version_views(kept@);
    assert(ascending(g)) by {
        if !found {
            assert forall|i: int, j: int| 0 <= i < j < g.len() implies g[i].key().sorts_before(
                g[j].key(),
            ) by {
                if i < at && j > at {
                    assert(g[i] == before[i] && g[j] == before[j - 1]);
                } else if i > at {
                    assert(g[i] == before[i - 1] && g[j] == before[j - 1]);
                } else if j < at {
                    assert(g[i] == before[i] && g[j] == before[j]);
                }
            }
        }
    }
    if keep < kept.len() {
        let oldest = kept.remove(0);
        proof {
            assert(version_views(kept@) =~= g.drop_first());
            assert(oldest@ == g[0]);
            assert forall|i: int, j: int| 0 <= i < j < g.len() - 1 implies g.drop_first()[i].key().sorts_before(
                g.drop_first()[j].key(),
            ) by {
                assert(g.drop_first()[i] == g[i + 1] && g.drop_first()[j] == g[j + 1]);
            }
        }
        Some(oldest)
    } else {
        None
    }
}

/// The view of an optional version.
spec fn opt_view(v: Option<&Version>) -> Option<VersionView> {
    match v {
        Some(x) => Some(x@),
        None => None,
    }
}

/// The versions that one bucket of a repository keeps while the engine runs.
struct Shelf<'a> {
    branch: &'a Option<String>,
    is_snapshot: bool,
    kept: Vec<&'a Version>,
}

impl<'a> Shelf<'a> {
    /// The bucket that the shelf stands for.
    spec fn key(self) -> BucketKey {
        BucketKey { is_snapshot: self.is_snapshot, branch: opt_text(*self.branch) }
    }
}

/// The buckets of a list of shelves.
spec fn shelf_keys(shelves: Seq<Shelf>) -> Seq<BucketKey> {
    Seq::new(shelves.len(), |i: int| shelves[i].key())
}

/// The index of the shelf of the bucket of `v`, if there is one.
fn find_shelf(shelves: &Vec<Shelf>, v: &Version) -> (r: Option<usize>)
    ensures
        r matches Some(t) ==> t < shelves.len() && shelves[t as int].key() == v@.key().bucket(),
        r is None ==> !shelf_keys(shelves@).contains(v@.key().bucket()),
{
    let mut t: usize = 0;
    while t < shelves.len()
        invariant
            t <= shelves.len(),
            forall|u: int| 0 <= u < t ==> shelves[u].key() != v@.key().bucket(),
        decreases shelves.len() - t,
    {
        if shelves[t].is_snapshot == v.is_snapshot && same_text(shelves[t].branch, &v.branch) {
            return Some(t);
        }
        t = t + 1;
    }
    proof {
        let keys = shelf_keys(shelves@);
        if keys.contains(v@.key().bucket()) {
            let u = choose|u: int| 0 <= u < keys.len() && keys[u] == v@.key().bucket();
            assert(shelves[u].key() == keys[u]);
        }
    }
    None
}

/// The shelves hold what their buckets keep after the versions `seen` have arrived.
spec fn shelves_hold(
    shelves: Seq<Shelf>,
    seen: Seq<VersionView>,
    canonical: nat,
    snapshot: nat,
) -> bool {
    &&& forall|t: int, u: int| 0 <= t < u < shelves.len() ==> shelves[t].key() != shelves[u].key()
    &&& forall|t: int|
        0 <= t < shelves.len() ==> ascending(version_views(#[trigger] shelves[t].kept@))
            && version_views(shelves[t].kept@) == retained(
            seen,
            shelves[t].key(),
            limit(shelves[t].key(), canonical, snapshot),
        )
    &&& forall|j: int|
        0 <= j < seen.len() ==> shelf_keys(shelves).contains((#[trigger] seen[j]).key().bucket())
}

/// Runs the engine over the images of one repository, in the order in which they
/// stand, and appends what it evicts to `out`.
pub fn evict_from<'a>(
    name: &'a str,
    entries: &'a Vec<ImageEntry>,
    canonical: usize,
    snapshot: usize,
    out: &mut Vec<Eviction<'a>>,
)
    ensures
        eviction_views(final(out)@) == eviction_views(old(out)@) + tagged(
            name@,
            evicted(versions(entry_views(entries@)), canonical as nat, snapshot as nat),
        ),
{
    let ghost vs = versions(entry_views(entries@));
    let ghost start = eviction_views(out@);
    let mut shelves: Vec<Shelf<'a>> = Vec::new();
    let mut i: usize = 0;
    proof {
        assert(tagged(name@, evicted(vs.take(0), canonical as nat, snapshot as nat)) =~= Seq::empty());
        assert(start + Seq::<EvictionView>::empty() =~= start);
    }
    while i < entries.len()
        invariant
            i <= entries.len(),
            vs == versions(entry_views(entries@)),
            shelves_hold(shelves@, vs.take(i as int), canonical as nat, snapshot as nat),
            eviction_views(out@) == start + tagged(
                name@,
                evicted(vs.take(i as int), canonical as nat, snapshot as nat),
            ),
        decreases entries.len() - i,
    {
        let v = &entries[i].ver;
        let keep = if v.is_snapshot {
            snapshot
        } else {
            canonical
        };
        let ghost seen = vs.take(i as int);
        let ghost next = vs.take(i + 1);
        let ghost b = v@.key().bucket();
        let ghost gone_before = evicted(seen, canonical as nat, snapshot as nat);
        proof {
            assert(vs[i as int] == v@);
            assert(next.drop_last() =~= seen);
            assert(next.last() == v@);
            assert(keep as nat == limit(b, canonical as nat, snapshot as nat));
        }
        let t = match find_shelf(&shelves, v) {
            Some(t) => t,
            None => {
                proof {
                    assert forall|j: int| 0 <= j < seen.len() implies (#[trigger] seen[j]).key().bucket()
                        != b by {}
                    lemma_unseen_bucket_keeps_nothing(seen, b, keep as nat);
                }
                let ghost old_keys = shelf_keys(shelves@);
                shelves.push(Shelf { branch: &v.branch, is_snapshot: v.is_snapshot, kept: Vec::new() });
                proof {
                    let t = shelves.len() - 1;
                    assert(version_views(shelves[t].kept@) =~= Seq::empty());
                    assert forall|j: int| 0 <= j < seen.len() implies shelf_keys(shelves@).contains(
                        (#[trigger] seen[j]).key().bucket(),
                    ) by {
                        let u = choose|u: int|
                            0 <= u < old_keys.len() && old_keys[u] == seen[j].key().bucket();
                        assert(shelf_keys(shelves@)[u] == old_keys[u]);
                    }
                    assert forall|t: int, u: int| 0 <= t < u < shelves.len() implies shelves[t].key()
                        != shelves[u].key() by {
                        if u == shelves.len() - 1 {
                            assert(old_keys[t] == shelves[t].key());
                        }
                    }
                }
                shelves.len() - 1
            },
        };
        assert(shelves_hold(shelves@, seen, canonical as nat, snapshot as nat));
        assert(shelves[t as int].key() == b);
        let ghost shelves_before = shelves@;
        let gone = place(&mut shelves[t].kept, v, keep);
        proof {
            assert(shelves@.len() == shelves_before.len());
            assert forall|u: int| 0 <= u < shelves.len() implies shelves[u].key()
                == shelves_before[u].key() by {}
            assert forall|u: int| 0 <= u < shelves.len() && u != t implies shelves[u].kept
                == shelves_before[u].kept by {}
            assert(shelf_keys(shelves@) =~= shelf_keys(shelves_before));
            assert(shelf_keys(shelves@)[t as int] == b);
            assert forall|j: int| 0 <= j < next.len() implies shelf_keys(shelves@).contains(
                (#[trigger] next[j]).key().bucket(),
            ) by {
                if j < seen.len() {
                    assert(next[j] == seen[j]);
                }
            }
            assert(opt_view(gone) == evicted_by_last(next, canonical as nat, snapshot as nat));
        }
        match gone {
            Some(x) => {
                let ghost out_before = out@;
                out.push(Eviction { repository: name, version: x });
                proof {
                    let e = EvictionView { repository: name@, version: x@ };
                    assert(eviction_views(out@) =~= eviction_views(out_before).push(e));
                    assert(tagged(name@, gone_before.push(x@)) =~= tagged(name@, gone_before).push(e));
                    assert(start + tagged(name@, gone_before).push(e) =~= (start + tagged(
                        name@,
                        gone_before,
                    )).push(e));
                }
            },
            None => {},
        }
        i = i + 1;
    }
    proof {
        assert(vs.take(i as int) =~= vs);
    }
}

} // verus!
