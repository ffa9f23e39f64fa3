//! The retention rule, stated on the versions of one repository.
//!
//! Versions arrive one by one. Each belongs to the bucket of its branch and snapshot
//! flag, and each bucket keeps the newest versions it has seen, up to its limit: a
//! version that arrives is put in its place among the kept ones, and where the bucket
//! then holds more than its limit, the oldest kept version is evicted.

use vstd::prelude::*;
use crate::version::{
    lemma_order_asymmetric, lemma_order_connected, lemma_order_irreflexive,
    lemma_order_transitive, VersionKey, VersionView,
};

verus! {

/// What versions of one bucket share: the branch and the snapshot flag.
pub struct BucketKey {
    pub is_snapshot: bool,
    pub branch: Option<Seq<char>>,
}

impl VersionKey {
    /// The bucket that the version belongs to.
    pub open spec fn bucket(self) -> BucketKey {
        BucketKey { is_snapshot: self.is_snapshot, branch: self.branch }
    }
}

/// How many versions a bucket keeps: the snapshot limit for a bucket of snapshots,
/// the canonical limit for any other.
pub open spec fn limit(b: BucketKey, canonical: nat, snapshot: nat) -> nat {
    if b.is_snapshot {
        snapshot
    } else {
        canonical
    }
}

/// No two of the versions are the same version.
pub open spec fn distinct(vs: Seq<VersionView>) -> bool {
    forall|i: int, j: int| 0 <= i < j < vs.len() ==> vs[i].key() != vs[j].key()
}

/// The versions stand oldest first, each strictly older than the next.
pub open spec fn ascending(vs: Seq<VersionView>) -> bool {
    forall|i: int, j: int| 0 <= i < j < vs.len() ==> vs[i].key().sorts_before(vs[j].key())
}

/// The version `k` is among `vs`, however it was written.
pub open spec fn holds(vs: Seq<VersionView>, k: VersionKey) -> bool {
    exists|i: int| 0 <= i < vs.len() && vs[i].key() == k
}

/// `kept` with `e` put behind the last version that is older than `e`.
pub open spec fn insert_in_order(kept: Seq<VersionView>, e: VersionView) -> Seq<VersionView>
    decreases kept.len(),
{
    if kept.len() == 0 {
        seq![e]
    } else if kept.last().key().sorts_before(e.key()) {
        kept.push(e)
    } else {
        insert_in_order(kept.drop_last(), e).push(kept.last())
    }
}

/// `kept` once `e` has arrived and before anything is evicted: `e` takes its place
/// unless the same version is kept already.
pub open spec fn grown(kept: Seq<VersionView>, e: VersionView) -> Seq<VersionView> {
    if holds(kept, e.key()) {
        kept
    } else {
        insert_in_order(kept, e)
    }
}

/// What a bucket keeps once `e` has arrived: with more than `keep` versions, all but
/// the oldest.
pub open spec fn receive(kept: Seq<VersionView>, e: VersionView, keep: nat) -> Seq<VersionView> {
    let g = grown(kept, e);
    if g.len() > keep {
        g.drop_first()
    } else {
        g
    }
}

/// What a bucket evicts when `e` arrives: with more than `keep` versions, the oldest.
pub open spec fn overflow(kept: Seq<VersionView>, e: VersionView, keep: nat) -> Option<
    VersionView,
> {
    let g = grown(kept, e);
    if g.len() > keep {
        Some(g[0])
    } else {
        None
    }
}

/// What the bucket `b` keeps after the versions `vs` have arrived in this order.
pub open spec fn retained(vs: Seq<VersionView>, b: BucketKey, keep: nat) -> Seq<VersionView>
    decreases vs.len(),
{
    if vs.len() == 0 {
        Seq::empty()
    } else if vs.last().key().bucket() == b {
        receive(retained(vs.drop_last(), b, keep), vs.last(), keep)
    } else {
        retained(vs.drop_last(), b, keep)
    }
}

/// What the arrival of the last of `vs` evicts, if anything.
pub open spec fn evicted_by_last(vs: Seq<VersionView>, canonical: nat, snapshot: nat) -> Option<
    VersionView,
>
    recommends
        vs.len() > 0,
{
    let b = vs.last().key().bucket();
    let keep = limit(b, canonical, snapshot);
    overflow(retained(vs.drop_last(), b, keep), vs.last(), keep)
}

/// The versions evicted while `vs` arrive in this order, in the order of eviction.
pub open spec fn evicted(vs: Seq<VersionView>, canonical: nat, snapshot: nat) -> Seq<VersionView>
    decreases vs.len(),
{
    if vs.len() == 0 {
        Seq::empty()
    } else {
        let before = evicted(vs.drop_last(), canonical, snapshot);
        match evicted_by_last(vs, canonical, snapshot) {
            Some(v) => before.push(v),
            None => before,
        }
    }
}

/// `w` is a version of the bucket of `k` and newer than `k`.
pub open spec fn outranks(w: VersionKey, k: VersionKey) -> bool {
    w.bucket() == k.bucket() && k.sorts_before(w)
}

/// How many of `vs` are versions of the bucket of `k` and newer than `k`.
pub open spec fn newer_count(vs: Seq<VersionView>, k: VersionKey) -> nat
    decreases vs.len(),
{
    if vs.len() == 0 {
        0
    } else {
        newer_count(vs.drop_last(), k) + if outranks(vs.last().key(), k) {
            1nat
        } else {
            0nat
        }
    }
}

/// The version `k` is in excess among `vs`: its bucket holds as many newer versions
/// as it keeps, or more.
pub open spec fn is_excess(vs: Seq<VersionView>, k: VersionKey, canonical: nat, snapshot: nat) -> bool {
    newer_count(vs, k) >= limit(k.bucket(), canonical, snapshot)
}

/// All of `vs` are versions of the bucket `b`.
pub open spec fn all_of_bucket(vs: Seq<VersionView>, b: BucketKey) -> bool {
    forall|i: int| 0 <= i < vs.len() ==> (#[trigger] vs[i]).key().bucket() == b
}

/// Every one of `part` is one of `whole`.
pub open spec fn drawn_from(part: Seq<VersionView>, whole: Seq<VersionView>) -> bool {
    forall|i: int| 0 <= i < part.len() ==> whole.contains(#[trigger] part[i])
}

/// In an ascending list, a version that is older than all from index `at` on and newer
/// than all before goes in at `at`.
pub(crate) proof fn lemma_insert_in_order_at(kept: Seq<VersionView>, e: VersionView, at: int)
    requires
        0 <= at <= kept.len(),
        forall|i: int| 0 <= i < at ==> kept[i].key().sorts_before(e.key()),
        forall|i: int| at <= i < kept.len() ==> e.key().sorts_before(kept[i].key()),
    ensures
        insert_in_order(kept, e) == kept.insert(at, e),
    decreases kept.len(),
{
    if kept.len() == 0 {
        assert(seq![e] =~= kept.insert(at, e));
    } else if at == kept.len() {
        assert(kept.push(e) =~= kept.insert(at, e));
    } else {
        lemma_order_asymmetric(e.key(), kept.last().key());
        lemma_insert_in_order_at(kept.drop_last(), e, at);
        assert(kept.drop_last().insert(at, e).push(kept.last()) =~= kept.insert(at, e));
    }
}

/// A bucket of which no version has arrived keeps nothing.
pub(crate) proof fn lemma_unseen_bucket_keeps_nothing(vs: Seq<VersionView>, b: BucketKey, keep: nat)
    requires
        forall|j: int| 0 <= j < vs.len() ==> (#[trigger] vs[j]).key().bucket() != b,
    ensures
        retained(vs, b, keep) == Seq::<VersionView>::empty(),
    decreases vs.len(),
{
    if vs.len() > 0 {
        assert(vs.last() == vs[vs.len() - 1]);
        assert forall|j: int| 0 <= j < vs.drop_last().len() implies (#[trigger] vs.drop_last()[j]).key().bucket()
            != b by {
            assert(vs.drop_last()[j] == vs[j]);
        }
        lemma_unseen_bucket_keeps_nothing(vs.drop_last(), b, keep);
    }
}

/// One more version counts for one more where it outranks `k`, wherever it is put.
proof fn lemma_count_after_insert(kept: Seq<VersionView>, e: VersionView, k: VersionKey)
    ensures
        newer_count(insert_in_order(kept, e), k) == newer_count(kept, k) + if outranks(e.key(), k) {
            1nat
        } else {
            0nat
        },
    decreases kept.len(),
{
    if kept.len() == 0 {
        assert(seq![e].drop_last() =~= kept);
        assert(newer_count(seq![e].drop_last(), k) == 0);
    } else if kept.last().key().sorts_before(e.key()) {
        assert(kept.push(e).drop_last() =~= kept);
    } else {
        lemma_count_after_insert(kept.drop_last(), e, k);
        let inner = insert_in_order(kept.drop_last(), e);
        assert(inner.push(kept.last()).drop_last() =~= inner);
    }
}

/// Without its first version a list counts for one less where that version outranks
/// `k`.
proof fn lemma_count_after_drop_first(kept: Seq<VersionView>, k: VersionKey)
    requires
        kept.len() > 0,
    ensures
        newer_count(kept, k) == newer_count(kept.drop_first(), k) + if outranks(kept[0].key(), k) {
            1nat
        } else {
            0nat
        },
    decreases kept.len(),
{
    if kept.len() == 1 {
        assert(kept.drop_last() =~= kept.drop_first());
        assert(newer_count(kept.drop_last(), k) == 0);
    } else {
        lemma_count_after_drop_first(kept.drop_last(), k);
        assert(kept.drop_last().drop_first() =~= kept.drop_first().drop_last());
    }
}

/// A list counts no more versions than it holds, and fewer where it holds `k`.
proof fn lemma_count_bounds(kept: Seq<VersionView>, k: VersionKey)
    ensures
        newer_count(kept, k) <= kept.len(),
        holds(kept, k) ==> newer_count(kept, k) < kept.len(),
    decreases kept.len(),
{
    if kept.len() > 0 {
        lemma_count_bounds(kept.drop_last(), k);
        lemma_order_irreflexive(k);
        if holds(kept, k) {
            let i = choose|i: int| 0 <= i < kept.len() && kept[i].key() == k;
            if i < kept.len() - 1 {
                assert(kept.drop_last()[i].key() == k);
            }
        }
    }
}

/// A list of versions that all outrank `k` counts every one of them.
proof fn lemma_count_all(kept: Seq<VersionView>, k: VersionKey)
    requires
        forall|i: int| 0 <= i < kept.len() ==> outranks((#[trigger] kept[i]).key(), k),
    ensures
        newer_count(kept, k) == kept.len(),
    decreases kept.len(),
{
    if kept.len() > 0 {
        assert forall|i: int| 0 <= i < kept.drop_last().len() implies outranks(
            (#[trigger] kept.drop_last()[i]).key(),
            k,
        ) by {
            assert(kept.drop_last()[i] == kept[i]);
        }
        lemma_count_all(kept.drop_last(), k);
        assert(outranks(kept[kept.len() - 1].key(), k));
    }
}

/// Where a version that an ascending list does not hold goes in: behind all that are
/// older, before all that are newer, and the list stays ascending.
proof fn lemma_place_in_order(kept: Seq<VersionView>, e: VersionView) -> (at: int)
    requires
        ascending(kept),
        !holds(kept, e.key()),
    ensures
        0 <= at <= kept.len(),
        grown(kept, e) == kept.insert(at, e),
        forall|i: int| 0 <= i < at ==> (#[trigger] kept[i]).key().sorts_before(e.key()),
        forall|i: int| at <= i < kept.len() ==> e.key().sorts_before((#[trigger] kept[i]).key()),
        ascending(kept.insert(at, e)),
    decreases kept.len(),
{
    let at = if kept.len() == 0 {
        0
    } else if kept.last().key().sorts_before(e.key()) {
        assert forall|i: int| 0 <= i < kept.len() implies (#[trigger] kept[i]).key().sorts_before(
            e.key(),
        ) by {
            if i < kept.len() - 1 {
                lemma_order_transitive(kept[i].key(), kept.last().key(), e.key());
            }
        }
        kept.len() as int
    } else {
        assert(kept[kept.len() - 1].key() != e.key());
        lemma_order_connected(kept.last().key(), e.key());
        assert(!holds(kept.drop_last(), e.key())) by {
            if holds(kept.drop_last(), e.key()) {
                let i = choose|i: int|
                    0 <= i < kept.drop_last().len() && kept.drop_last()[i].key() == e.key();
                assert(kept[i].key() == e.key());
            }
        }
        let inner = lemma_place_in_order(kept.drop_last(), e);
        assert forall|i: int| 0 <= i < inner implies (#[trigger] kept[i]).key().sorts_before(
            e.key(),
        ) by {
            assert(kept.drop_last()[i] == kept[i]);
        }
        assert forall|i: int| inner <= i < kept.len() implies e.key().sorts_before(
            (#[trigger] kept[i]).key(),
        ) by {
            if i < kept.len() - 1 {
                assert(kept.drop_last()[i] == kept[i]);
            }
        }
        inner
    };
    lemma_insert_in_order_at(kept, e, at);
    let g = kept.insert(at, e);
    assert forall|i: int, j: int| 0 <= i < j < g.len() implies g[i].key().sorts_before(
        g[j].key(),
    ) by {
        if i < at && j > at {
            assert(g[i] == kept[i] && g[j] == kept[j - 1]);
        } else if i > at {
            assert(g[i] == kept[i - 1] && g[j] == kept[j - 1]);
        } else if j < at {
            assert(g[i] == kept[i] && g[j] == kept[j]);
        }
    }
    at
}

/// What holds of a list holds of its beginning: distinct versions stay distinct, and
/// what is drawn from the beginning is drawn from the whole.
proof fn lemma_beginning(vs: Seq<VersionView>)
    requires
        vs.len() > 0,
    ensures
        distinct(vs) ==> distinct(vs.drop_last()),
        distinct(vs) ==> !holds(vs.drop_last(), vs.last().key()),
        forall|x: VersionView| vs.drop_last().contains(x) ==> vs.contains(x),
        vs.contains(vs.last()),
{
    let p = vs.drop_last();
    if distinct(vs) {
        assert forall|i: int, j: int| 0 <= i < j < p.len() implies p[i].key() != p[j].key() by {
            assert(p[i] == vs[i] && p[j] == vs[j]);
        }
        if holds(p, vs.last().key()) {
            let i = choose|i: int| 0 <= i < p.len() && p[i].key() == vs.last().key();
            assert(p[i] == vs[i]);
            assert(vs[vs.len() - 1] == vs.last());
        }
    }
    assert forall|x: VersionView| p.contains(x) implies vs.contains(x) by {
        let i = choose|i: int| 0 <= i < p.len() && p[i] == x;
        assert(vs[i] == x);
    }
    assert(vs[vs.len() - 1] == vs.last());
}

/// What a bucket keeps stands oldest first, is no more than its limit, belongs to the
/// bucket, and has arrived.
pub proof fn lemma_retained_shape(vs: Seq<VersionView>, b: BucketKey, keep: nat)
    requires
        distinct(vs),
    ensures
        ascending(retained(vs, b, keep)),
        retained(vs, b, keep).len() <= keep,
        all_of_bucket(retained(vs, b, keep), b),
        drawn_from(retained(vs, b, keep), vs),
    decreases vs.len(),
{
    if vs.len() > 0 {
        let p = vs.drop_last();
        let e = vs.last();
        let before = retained(p, b, keep);
        lemma_beginning(vs);
        lemma_retained_shape(p, b, keep);
        if e.key().bucket() == b {
            lemma_not_kept_before(vs, b, keep);
            let at = lemma_place_in_order(before, e);
            let g = before.insert(at, e);
            assert forall|i: int| 0 <= i < g.len() implies (#[trigger] g[i]).key().bucket() == b
                && vs.contains(g[i]) by {
                if i < at {
                    assert(g[i] == before[i]);
                } else if i > at {
                    assert(g[i] == before[i - 1]);
                }
            }
            if g.len() > keep {
                let k = g.drop_first();
                assert forall|i: int, j: int| 0 <= i < j < k.len() implies k[i].key().sorts_before(
                    k[j].key(),
                ) by {
                    assert(k[i] == g[i + 1] && k[j] == g[j + 1]);
                }
                assert forall|i: int| 0 <= i < k.len() implies (#[trigger] k[i]).key().bucket() == b
                    && vs.contains(k[i]) by {
                    assert(k[i] == g[i + 1]);
                }
            }
        }
    }
}

/// A bucket does not keep the version that arrives next: the versions that arrive are
/// distinct, and a bucket keeps only what has arrived.
proof fn lemma_not_kept_before(vs: Seq<VersionView>, b: BucketKey, keep: nat)
    requires
        distinct(vs),
        vs.len() > 0,
        drawn_from(retained(vs.drop_last(), b, keep), vs.drop_last()),
    ensures
        !holds(retained(vs.drop_last(), b, keep), vs.last().key()),
{
    let p = vs.drop_last();
    let before = retained(p, b, keep);
    lemma_beginning(vs);
    if holds(before, vs.last().key()) {
        let i = choose|i: int| 0 <= i < before.len() && before[i].key() == vs.last().key();
        assert(p.contains(before[i]));
        let j = choose|j: int| 0 <= j < p.len() && p[j] == before[i];
        assert(p[j].key() == vs.last().key());
    }
}

/// What a bucket keeps counts no more versions newer than `q` than have arrived, and
/// exactly as many where the bucket is not full or `q` is no older than all it keeps.
proof fn lemma_retained_counts(vs: Seq<VersionView>, b: BucketKey, keep: nat, q: VersionKey)
    requires
        distinct(vs),
        q.bucket() == b,
    ensures
        newer_count(retained(vs, b, keep), q) <= newer_count(vs, q),
        retained(vs, b, keep).len() < keep || (retained(vs, b, keep).len() > 0 && !q.sorts_before(
            retained(vs, b, keep)[0].key(),
        )) ==> newer_count(vs, q) == newer_count(retained(vs, b, keep), q),
    decreases vs.len(),
{
    if vs.len() > 0 {
        let p = vs.drop_last();
        let e = vs.last();
        let before = retained(p, b, keep);
        lemma_beginning(vs);
        lemma_retained_shape(p, b, keep);
        lemma_retained_counts(p, b, keep, q);
        if e.key().bucket() == b {
            lemma_not_kept_before(vs, b, keep);
            let at = lemma_place_in_order(before, e);
            let g = before.insert(at, e);
            lemma_count_after_insert(before, e, q);
            if g.len() > keep {
                let k = g.drop_first();
                lemma_count_after_drop_first(g, q);
                if k.len() > 0 && !q.sorts_before(k[0].key()) {
                    assert(k[0] == g[1]);
                    assert(g[0].key().sorts_before(g[1].key()));
                    if q.sorts_before(g[0].key()) {
                        lemma_order_transitive(q, g[0].key(), g[1].key());
                    }
                    if at == 0 {
                        assert(before[0] == g[1]);
                    } else {
                        assert(before[0] == g[0]);
                    }
                }
            }
        }
    }
}

/// A version of a bucket that has arrived is kept, or else the bucket is full of
/// versions that are all newer.
proof fn lemma_kept_or_older(vs: Seq<VersionView>, b: BucketKey, keep: nat, j: int)
    requires
        distinct(vs),
        0 <= j < vs.len(),
        vs[j].key().bucket() == b,
    ensures
        holds(retained(vs, b, keep), vs[j].key()) || (retained(vs, b, keep).len() == keep
            && forall|i: int|
            0 <= i < retained(vs, b, keep).len() ==> vs[j].key().sorts_before(
                (#[trigger] retained(vs, b, keep)[i]).key(),
            )),
    decreases vs.len(),
{
    let p = vs.drop_last();
    let e = vs.last();
    let before = retained(p, b, keep);
    let kj = vs[j].key();
    lemma_beginning(vs);
    lemma_retained_shape(p, b, keep);
    if j < vs.len() - 1 {
        assert(p[j] == vs[j]);
        lemma_kept_or_older(p, b, keep, j);
    }
    if e.key().bucket() == b {
        lemma_not_kept_before(vs, b, keep);
        let at = lemma_place_in_order(before, e);
        let g = before.insert(at, e);
        let k = retained(vs, b, keep);
        assert(g[at] == e);
        // where the version stands in the grown list, if it does
        let spot: int = if j == vs.len() - 1 {
            at
        } else if holds(before, kj) {
            let i0 = choose|i: int| 0 <= i < before.len() && before[i].key() == kj;
            if i0 < at {
                assert(g[i0] == before[i0]);
                i0
            } else {
                assert(g[i0 + 1] == before[i0]);
                i0 + 1
            }
        } else {
            -1
        };
        if spot >= 0 {
            assert(g[spot].key() == kj);
            if g.len() > keep {
                if spot >= 1 {
                    assert(k[spot - 1] == g[spot]);
                } else {
                    assert forall|i: int| 0 <= i < k.len() implies kj.sorts_before(
                        (#[trigger] k[i]).key(),
                    ) by {
                        assert(k[i] == g[i + 1]);
                    }
                }
            }
        } else {
            assert(g.len() > keep);
            assert forall|i: int| 0 <= i < k.len() implies kj.sorts_before(
                (#[trigger] k[i]).key(),
            ) by {
                assert(k[i] == g[i + 1]);
                if i + 1 < at {
                    assert(g[i + 1] == before[i + 1]);
                } else if i + 1 > at {
                    assert(g[i + 1] == before[i]);
                } else {
                    assert(before[0].key().sorts_before(e.key()));
                    lemma_order_transitive(kj, before[0].key(), e.key());
                }
            }
        }
    }
}

/// Among the versions that have arrived, a bucket keeps exactly those that are not in
/// excess.
pub proof fn lemma_kept_iff_not_excess(vs: Seq<VersionView>, canonical: nat, snapshot: nat, j: int)
    requires
        distinct(vs),
        0 <= j < vs.len(),
    ensures
        holds(
            retained(
                vs,
                vs[j].key().bucket(),
                limit(vs[j].key().bucket(), canonical, snapshot),
            ),
            vs[j].key(),
        ) <==> !is_excess(vs, vs[j].key(), canonical, snapshot),
{
    let k = vs[j].key();
    let b = k.bucket();
    let keep = limit(b, canonical, snapshot);
    let kept = retained(vs, b, keep);
    lemma_retained_shape(vs, b, keep);
    lemma_retained_counts(vs, b, keep, k);
    lemma_count_bounds(kept, k);
    if holds(kept, k) {
        let i = choose|i: int| 0 <= i < kept.len() && kept[i].key() == k;
        lemma_order_irreflexive(k);
        if i > 0 {
            lemma_order_asymmetric(kept[0].key(), kept[i].key());
        }
    } else {
        lemma_kept_or_older(vs, b, keep, j);
        assert forall|i: int| 0 <= i < kept.len() implies outranks((#[trigger] kept[i]).key(), k) by {}
        lemma_count_all(kept, k);
    }
}

/// A list with one more version holds what it held and that version.
proof fn lemma_holds_after_insert(kept: Seq<VersionView>, at: int, e: VersionView, k: VersionKey)
    requires
        0 <= at <= kept.len(),
    ensures
        holds(kept.insert(at, e), k) <==> holds(kept, k) || e.key() == k,
{
    let g = kept.insert(at, e);
    if holds(kept, k) {
        let i = choose|i: int| 0 <= i < kept.len() && kept[i].key() == k;
        if i < at {
            assert(g[i] == kept[i]);
        } else {
            assert(g[i + 1] == kept[i]);
        }
    }
    if e.key() == k {
        assert(g[at] == e);
    }
    if holds(g, k) {
        let i = choose|i: int| 0 <= i < g.len() && g[i].key() == k;
        if i < at {
            assert(g[i] == kept[i]);
        } else if i > at {
            assert(g[i] == kept[i - 1]);
        }
    }
}

/// An ascending list without its first version holds what it held, but for that
/// version.
proof fn lemma_holds_after_drop_first(kept: Seq<VersionView>, k: VersionKey)
    requires
        ascending(kept),
        kept.len() > 0,
    ensures
        holds(kept.drop_first(), k) <==> holds(kept, k) && kept[0].key() != k,
{
    let rest = kept.drop_first();
    if holds(rest, k) {
        let i = choose|i: int| 0 <= i < rest.len() && rest[i].key() == k;
        assert(rest[i] == kept[i + 1]);
        lemma_order_irreflexive(k);
        assert(kept[0].key().sorts_before(kept[i + 1].key()));
    }
    if holds(kept, k) && kept[0].key() != k {
        let i = choose|i: int| 0 <= i < kept.len() && kept[i].key() == k;
        assert(rest[i - 1] == kept[i]);
    }
}

/// A list with one more version at its end holds what it held and that version.
proof fn lemma_holds_after_push(vs: Seq<VersionView>, e: VersionView, k: VersionKey)
    ensures
        holds(vs.push(e), k) <==> holds(vs, k) || e.key() == k,
{
    let g = vs.push(e);
    if holds(vs, k) {
        let i = choose|i: int| 0 <= i < vs.len() && vs[i].key() == k;
        assert(g[i] == vs[i]);
    }
    if e.key() == k {
        assert(g[vs.len() as int] == e);
    }
    if holds(g, k) {
        let i = choose|i: int| 0 <= i < g.len() && g[i].key() == k;
        if i < vs.len() {
            assert(g[i] == vs[i]);
        }
    }
}

/// What is evicted has arrived.
pub proof fn lemma_evicted_have_arrived(vs: Seq<VersionView>, canonical: nat, snapshot: nat)
    requires
        distinct(vs),
    ensures
        drawn_from(evicted(vs, canonical, snapshot), vs),
    decreases vs.len(),
{
    if vs.len() > 0 {
        let p = vs.drop_last();
        let e = vs.last();
        let b = e.key().bucket();
        let keep = limit(b, canonical, snapshot);
        let before = retained(p, b, keep);
        lemma_beginning(vs);
        lemma_evicted_have_arrived(p, canonical, snapshot);
        lemma_retained_shape(p, b, keep);
        lemma_not_kept_before(vs, b, keep);
        let at = lemma_place_in_order(before, e);
        let g = before.insert(at, e);
        let gone = evicted(vs, canonical, snapshot);
        let gone_before = evicted(p, canonical, snapshot);
        assert forall|i: int| 0 <= i < gone.len() implies vs.contains(#[trigger] gone[i]) by {
            if i < gone_before.len() {
                assert(gone[i] == gone_before[i]);
            } else {
                assert(gone[i] == g[0]);
                if at == 0 {
                    assert(g[0] == e);
                } else {
                    assert(g[0] == before[0]);
                }
            }
        }
    }
}

/// A version is evicted exactly where it has arrived and its bucket does not keep it.
pub proof fn lemma_evicted_iff_not_kept(
    vs: Seq<VersionView>,
    canonical: nat,
    snapshot: nat,
    k: VersionKey,
)
    requires
        distinct(vs),
    ensures
        holds(evicted(vs, canonical, snapshot), k) <==> holds(vs, k) && !holds(
            retained(vs, k.bucket(), limit(k.bucket(), canonical, snapshot)),
            k,
        ),
    decreases vs.len(),
{
    if vs.len() > 0 {
        let p = vs.drop_last();
        let e = vs.last();
        let eb = e.key().bucket();
        let keep = limit(eb, canonical, snapshot);
        let before = retained(p, eb, keep);
        let gone_before = evicted(p, canonical, snapshot);
        lemma_beginning(vs);
        assert(vs =~= p.push(e));
        lemma_holds_after_push(p, e, k);
        lemma_evicted_iff_not_kept(p, canonical, snapshot, k);
        lemma_evicted_have_arrived(p, canonical, snapshot);
        lemma_retained_shape(p, eb, keep);
        lemma_not_kept_before(vs, eb, keep);
        let at = lemma_place_in_order(before, e);
        let g = before.insert(at, e);
        lemma_holds_after_insert(before, at, e, k);
        lemma_holds_after_drop_first(g, k);
        if g.len() > keep {
            lemma_holds_after_push(gone_before, g[0], k);
            assert(g[0].key().bucket() == eb) by {
                if at == 0 {
                    assert(g[0] == e);
                } else {
                    assert(g[0] == before[0]);
                }
            }
        }
        if holds(gone_before, k) && !holds(p, k) {
            let i = choose|i: int| 0 <= i < gone_before.len() && gone_before[i].key() == k;
            assert(p.contains(gone_before[i]));
            let j = choose|j: int| 0 <= j < p.len() && p[j] == gone_before[i];
            assert(p[j].key() == k);
        }
    }
}

/// No version is evicted twice.
pub proof fn lemma_evicted_once(vs: Seq<VersionView>, canonical: nat, snapshot: nat)
    requires
        distinct(vs),
    ensures
        distinct(evicted(vs, canonical, snapshot)),
    decreases vs.len(),
{
    if vs.len() > 0 {
        let p = vs.drop_last();
        let e = vs.last();
        let eb = e.key().bucket();
        let keep = limit(eb, canonical, snapshot);
        let before = retained(p, eb, keep);
        let gone = evicted(vs, canonical, snapshot);
        let gone_before = evicted(p, canonical, snapshot);
        lemma_beginning(vs);
        lemma_evicted_once(p, canonical, snapshot);
        lemma_retained_shape(p, eb, keep);
        lemma_not_kept_before(vs, eb, keep);
        let at = lemma_place_in_order(before, e);
        let g = before.insert(at, e);
        if g.len() > keep {
            let m = g[0];
            assert(gone == gone_before.push(m));
            lemma_evicted_iff_not_kept(p, canonical, snapshot, m.key());
            if at == 0 {
                assert(m == e);
            } else {
                assert(m == before[0]);
                assert(m.key().bucket() == eb);
            }
            assert(!holds(gone_before, m.key()));
            assert forall|i: int, j: int| 0 <= i < j < gone.len() implies gone[i].key()
                != gone[j].key() by {
                assert(gone[i] == gone_before[i]);
                if j < gone_before.len() {
                    assert(gone[j] == gone_before[j]);
                }
            }
        }
    }
}

/// The rule of retention: of the versions of a repository, the engine evicts exactly
/// those in excess, that is, those whose bucket holds as many newer versions as it
/// keeps, or more. The order in which the versions arrive has no part in it.
pub proof fn lemma_evicted_are_the_excess(
    vs: Seq<VersionView>,
    canonical: nat,
    snapshot: nat,
    k: VersionKey,
)
    requires
        distinct(vs),
    ensures
        holds(evicted(vs, canonical, snapshot), k) <==> holds(vs, k) && is_excess(
            vs,
            k,
            canonical,
            snapshot,
        ),
{
    lemma_evicted_iff_not_kept(vs, canonical, snapshot, k);
    if holds(vs, k) {
        let j = choose|j: int| 0 <= j < vs.len() && vs[j].key() == k;
        lemma_kept_iff_not_excess(vs, canonical, snapshot, j);
    }
}

/// With both limits zero every version is evicted as it arrives.
pub proof fn lemma_keep_nothing(vs: Seq<VersionView>)
    ensures
        evicted(vs, 0, 0) == vs,
    decreases vs.len(),
{
    if vs.len() > 0 {
        let p = vs.drop_last();
        let e = vs.last();
        let b = e.key().bucket();
        lemma_keep_nothing(p);
        lemma_nothing_kept(p, b);
        assert(!holds(Seq::<VersionView>::empty(), e.key()));
        assert(grown(Seq::<VersionView>::empty(), e) =~= seq![e]);
        assert(evicted(vs, 0, 0) =~= vs);
    }
}

/// A bucket that keeps no version holds none.
proof fn lemma_nothing_kept(vs: Seq<VersionView>, b: BucketKey)
    ensures
        retained(vs, b, 0) == Seq::<VersionView>::empty(),
    decreases vs.len(),
{
    if vs.len() > 0 {
        let e = vs.last();
        lemma_nothing_kept(vs.drop_last(), b);
        if e.key().bucket() == b {
            assert(!holds(Seq::<VersionView>::empty(), e.key()));
            assert(grown(Seq::<VersionView>::empty(), e) =~= seq![e]);
            assert(seq![e].drop_first() =~= Seq::<VersionView>::empty());
        }
    }
}

/// The rule of retention on the versions as they were written: a version is evicted
/// exactly where it has arrived and is in excess.
pub proof fn lemma_evicted_values(vs: Seq<VersionView>, canonical: nat, snapshot: nat, v: VersionView)
    requires
        distinct(vs),
    ensures
        evicted(vs, canonical, snapshot).contains(v) <==> vs.contains(v) && is_excess(
            vs,
            v.key(),
            canonical,
            snapshot,
        ),
{
    let gone = evicted(vs, canonical, snapshot);
    lemma_evicted_are_the_excess(vs, canonical, snapshot, v.key());
    lemma_evicted_have_arrived(vs, canonical, snapshot);
    if gone.contains(v) {
        let i = choose|i: int| 0 <= i < gone.len() && gone[i] == v;
        assert(gone[i].key() == v.key());
        assert(vs.contains(gone[i]));
    }
    if vs.contains(v) && is_excess(vs, v.key(), canonical, snapshot) {
        let j = choose|j: int| 0 <= j < vs.len() && vs[j] == v;
        assert(vs[j].key() == v.key());
        let i = choose|i: int| 0 <= i < gone.len() && gone[i].key() == v.key();
        assert(vs.contains(gone[i]));
        let j2 = choose|j2: int| 0 <= j2 < vs.len() && vs[j2] == gone[i];
        assert(j2 == j);
    }
}

/// A bucket that keeps nothing loses every version that arrives in it.
pub proof fn lemma_bucket_that_keeps_nothing(
    vs: Seq<VersionView>,
    canonical: nat,
    snapshot: nat,
    v: VersionView,
)
    requires
        distinct(vs),
        vs.contains(v),
        limit(v.key().bucket(), canonical, snapshot) == 0,
    ensures
        evicted(vs, canonical, snapshot).contains(v),
{
    lemma_evicted_values(vs, canonical, snapshot, v);
}

/// A bucket that holds no more versions than it keeps loses none: a version that is
/// evicted has at least as many newer versions in its bucket as the bucket keeps.
pub proof fn lemma_evicted_have_newer(
    vs: Seq<VersionView>,
    canonical: nat,
    snapshot: nat,
    v: VersionView,
)
    requires
        distinct(vs),
        evicted(vs, canonical, snapshot).contains(v),
    ensures
        newer_count(vs, v.key()) >= limit(v.key().bucket(), canonical, snapshot),
        vs.len() > limit(v.key().bucket(), canonical, snapshot),
{
    lemma_evicted_values(vs, canonical, snapshot, v);
    lemma_count_bounds(vs, v.key());
    let j = choose|j: int| 0 <= j < vs.len() && vs[j] == v;
    assert(vs[j].key() == v.key());
}

/// The newest stay: a version that is evicted is older than every version that its
/// bucket keeps in the end.
pub proof fn lemma_evicted_are_older_than_kept(
    vs: Seq<VersionView>,
    canonical: nat,
    snapshot: nat,
    v: VersionView,
    w: VersionView,
)
    requires
        distinct(vs),
        evicted(vs, canonical, snapshot).contains(v),
        retained(vs, v.key().bucket(), limit(v.key().bucket(), canonical, snapshot)).contains(w),
    ensures
        v.key().sorts_before(w.key()),
{
    let b = v.key().bucket();
    let keep = limit(b, canonical, snapshot);
    let kept = retained(vs, b, keep);
    let gone = evicted(vs, canonical, snapshot);
    let g = choose|g: int| 0 <= g < gone.len() && gone[g] == v;
    assert(gone[g].key() == v.key());
    lemma_evicted_iff_not_kept(vs, canonical, snapshot, v.key());
    let j = choose|j: int| 0 <= j < vs.len() && vs[j].key() == v.key();
    lemma_kept_or_older(vs, b, keep, j);
    let i = choose|i: int| 0 <= i < kept.len() && kept[i] == w;
    assert(vs[j].key().sorts_before(kept[i].key()));
}

/// The two lists hold the same versions, in whatever order.
pub open spec fn same_versions(vs: Seq<VersionView>, ws: Seq<VersionView>) -> bool {
    forall|v: VersionView| vs.contains(v) <==> ws.contains(v)
}

/// Without one of its versions a list counts for one less where that version
/// outranks `k`.
proof fn lemma_count_after_remove(vs: Seq<VersionView>, j: int, k: VersionKey)
    requires
        0 <= j < vs.len(),
    ensures
        newer_count(vs, k) == newer_count(vs.remove(j), k) + if outranks(vs[j].key(), k) {
            1nat
        } else {
            0nat
        },
    decreases vs.len(),
{
    if j == vs.len() - 1 {
        assert(vs.remove(j) =~= vs.drop_last());
    } else {
        lemma_count_after_remove(vs.drop_last(), j, k);
        assert(vs.remove(j).drop_last() =~= vs.drop_last().remove(j));
        assert(vs.remove(j).last() == vs.last());
    }
}

/// How many versions outrank `k` does not depend on the order in which they stand.
pub proof fn lemma_count_ignores_order(vs: Seq<VersionView>, ws: Seq<VersionView>, k: VersionKey)
    requires
        distinct(vs),
        distinct(ws),
        same_versions(vs, ws),
    ensures
        newer_count(vs, k) == newer_count(ws, k),
    decreases vs.len(),
{
    if vs.len() == 0 {
        if ws.len() > 0 {
            assert(ws.contains(ws[0]));
            assert(vs.contains(ws[0]));
        }
    } else {
        let p = vs.drop_last();
        let e = vs.last();
        lemma_beginning(vs);
        assert(ws.contains(e));
        let j = choose|j: int| 0 <= j < ws.len() && ws[j] == e;
        let rest = ws.remove(j);
        assert forall|x: int, y: int| 0 <= x < y < rest.len() implies rest[x].key()
            != rest[y].key() by {
            let x0 = if x < j {
                x
            } else {
                x + 1
            };
            let y0 = if y < j {
                y
            } else {
                y + 1
            };
            assert(rest[x] == ws[x0] && rest[y] == ws[y0]);
        }
        assert forall|v: VersionView| p.contains(v) <==> rest.contains(v) by {
            if p.contains(v) {
                let x = choose|x: int| 0 <= x < p.len() && p[x] == v;
                assert(vs[x] == v);
                assert(vs[x].key() != vs[vs.len() - 1].key());
                assert(ws.contains(v));
                let i = choose|i: int| 0 <= i < ws.len() && ws[i] == v;
                if i < j {
                    assert(rest[i] == v);
                } else {
                    assert(rest[i - 1] == v);
                }
            }
            if rest.contains(v) {
                let i = choose|i: int| 0 <= i < rest.len() && rest[i] == v;
                let i0 = if i < j {
                    i
                } else {
                    i + 1
                };
                assert(ws[i0] == v);
                if i0 < j {
                    assert(ws[i0].key() != ws[j].key());
                } else {
                    assert(ws[j].key() != ws[i0].key());
                }
                assert(ws.contains(v));
                let x = choose|x: int| 0 <= x < vs.len() && vs[x] == v;
                assert(p[x] == v);
            }
        }
        lemma_count_ignores_order(p, rest, k);
        lemma_count_after_remove(ws, j, k);
    }
}

/// The order in which the versions of a repository arrive does not matter to what is
/// evicted: the same versions, in any two orders, lose the same of them.
pub proof fn lemma_order_of_arrival_is_immaterial(
    vs: Seq<VersionView>,
    ws: Seq<VersionView>,
    canonical: nat,
    snapshot: nat,
    v: VersionView,
)
    requires
        distinct(vs),
        distinct(ws),
        same_versions(vs, ws),
    ensures
        evicted(vs, canonical, snapshot).contains(v) <==> evicted(ws, canonical, snapshot).contains(
            v,
        ),
{
    lemma_evicted_values(vs, canonical, snapshot, v);
    lemma_evicted_values(ws, canonical, snapshot, v);
    lemma_count_ignores_order(vs, ws, v.key());
}

/// Those of `vs` that are not in excess among `all`, in the order in which they stand.
pub open spec fn spared(
    vs: Seq<VersionView>,
    all: Seq<VersionView>,
    canonical: nat,
    snapshot: nat,
) -> Seq<VersionView>
    decreases vs.len(),
{
    if vs.len() == 0 {
        Seq::empty()
    } else if is_excess(all, vs.last().key(), canonical, snapshot) {
        spared(vs.drop_last(), all, canonical, snapshot)
    } else {
        spared(vs.drop_last(), all, canonical, snapshot).push(vs.last())
    }
}

/// What is spared of distinct versions is distinct, is drawn from them, is not in
/// excess among `all`, and counts no more versions that outrank `k` than they do.
proof fn lemma_spared(
    vs: Seq<VersionView>,
    all: Seq<VersionView>,
    canonical: nat,
    snapshot: nat,
    k: VersionKey,
)
    requires
        distinct(vs),
    ensures
        distinct(spared(vs, all, canonical, snapshot)),
        drawn_from(spared(vs, all, canonical, snapshot), vs),
        forall|i: int|
            0 <= i < spared(vs, all, canonical, snapshot).len() ==> !is_excess(
                all,
                (#[trigger] spared(vs, all, canonical, snapshot)[i]).key(),
                canonical,
                snapshot,
            ),
        newer_count(spared(vs, all, canonical, snapshot), k) <= newer_count(vs, k),
    decreases vs.len(),
{
    if vs.len() > 0 {
        let p = vs.drop_last();
        let e = vs.last();
        let rest = spared(p, all, canonical, snapshot);
        let now = spared(vs, all, canonical, snapshot);
        lemma_beginning(vs);
        lemma_spared(p, all, canonical, snapshot, k);
        assert forall|i: int| 0 <= i < now.len() implies vs.contains(#[trigger] now[i]) by {
            if i < rest.len() {
                assert(now[i] == rest[i]);
                assert(p.contains(rest[i]));
            }
        }
        if !is_excess(all, e.key(), canonical, snapshot) {
            assert(now.drop_last() =~= rest);
            assert forall|i: int, j: int| 0 <= i < j < now.len() implies now[i].key()
                != now[j].key() by {
                assert(now[i] == rest[i]);
                if j < rest.len() {
                    assert(now[j] == rest[j]);
                } else {
                    assert(p.contains(rest[i]));
                    let x = choose|x: int| 0 <= x < p.len() && p[x] == rest[i];
                    assert(p[x].key() != e.key());
                }
            }
        }
    }
}

/// Retention is idempotent: once the versions in excess are gone, a second run finds
/// nothing to evict.
pub proof fn lemma_second_run_evicts_nothing(vs: Seq<VersionView>, canonical: nat, snapshot: nat)
    requires
        distinct(vs),
    ensures
        evicted(spared(vs, vs, canonical, snapshot), canonical, snapshot) == Seq::<
            VersionView,
        >::empty(),
{
    let rest = spared(vs, vs, canonical, snapshot);
    let gone = evicted(rest, canonical, snapshot);
    if gone.len() > 0 {
        let v = gone[0];
        assert(gone.contains(v));
        lemma_spared(vs, vs, canonical, snapshot, v.key());
        lemma_evicted_values(rest, canonical, snapshot, v);
        let i = choose|i: int| 0 <= i < rest.len() && rest[i] == v;
        assert(!is_excess(vs, rest[i].key(), canonical, snapshot));
    }
    assert(gone =~= Seq::<VersionView>::empty());
}

} // verus!
