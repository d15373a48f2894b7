//! What the scanner's state is after a request, and what it is asked to scan.

use crate::disk_laws::lemma_member_ordered;
use crate::discover::{DiskModel, PartitionModel};
use crate::engine::{
    cache_file, dirty_count, dirty_jobs, first_occurrences, holds_path,
    jobs_of_disk, jobs_of_disks, jobs_of_part, places_of_disks, places_of_parts, same_paths,
    shown_disk, slug, EngineModel, Job, JobModel, BATCH_PERIOD, DIRTY_LIMIT,
    FULL_PERIOD, PUBLISH_PERIOD, TOPOLOGY_PERIOD,
};
use crate::path::{comps, joined, lossy_text, under};
use crate::path_map::{
    filed_under, law_dropped, law_filed, lemma_longest_key, lemma_place_of, place_of,
    without_filed,
};
use crate::pool::{Scene, UsageModel};
use crate::scan::ProgressModel;
use crate::sort::{law_ordered_ascending, ordered};
use crate::text::contains_seq;
use crate::tree::TreeModel;
use crate::tree_view::lemma_ordered_member;
use vstd::prelude::*;
use vstd::utf8::*;

verus! {

/// The topology is looked at every 4 seconds, all mounts are scanned every 6
/// hours, progress is published 5 times in a second, a tree is held for a quarter
/// of a second, and 400 changes are looked at together.
pub proof fn law_periods()
    ensures
        TOPOLOGY_PERIOD == 4 * 1_000_000_000,
        FULL_PERIOD == 6 * 60 * 60 * 1_000_000_000,
        PUBLISH_PERIOD * 5 == 1_000_000_000,
        BATCH_PERIOD * 4 == 1_000_000_000,
        DIRTY_LIMIT == 400,
{
}

/// A tick counts one further, and starts again at zero behind the largest count.
/// Nothing else changes.
pub proof fn law_ticked(e: EngineModel)
    ensures
        e.ticks < u64::MAX ==> e.ticked().ticks == e.ticks + 1,
        e.ticks == u64::MAX ==> e.ticked().ticks == 0,
        e.ticked() == (EngineModel { ticks: e.ticked().ticks, ..e }),
{
}

// ---------------------------------------------------------------------------
// Requests
// ---------------------------------------------------------------------------

/// Whether a path waits to be expanded.
pub open spec fn waits(e: EngineModel, path: Seq<u8>) -> bool {
    exists|i: int| 0 <= i < e.expand_queue.len() && comps(#[trigger] e.expand_queue[i]) == comps(
        path,
    )
}

/// A path that names a place waits once it was asked for, behind those that wait
/// already; one that names none, or waits already, changes nothing.
pub proof fn law_expand_requested(e: EngineModel, path: Seq<u8>)
    ensures
        ({
            let r = e.expand_requested(path);
            let place = path.len() > 0 && !contains_seq(lossy_text(path), "::"@);
            &&& place ==> waits(r, path)
            &&& !place || waits(e, path) ==> r == e
            &&& place && !waits(e, path) ==> r.expand_queue == e.expand_queue.push(path)
            &&& r == (EngineModel { expand_queue: r.expand_queue, ..e })
        }),
{
    let r = e.expand_requested(path);
    assert(holds_path(e.expand_queue, path) == waits(e, path));
    if path.len() > 0 && !contains_seq(lossy_text(path), "::"@) && !waits(e, path) {
        assert(r.expand_queue[e.expand_queue.len() as int] == path);
        assert(comps(r.expand_queue[e.expand_queue.len() as int]) == comps(path));
    }
}

/// What waits to be expanded is taken once, in the order in which it was asked
/// for.
pub proof fn law_first_occurrences(s: Seq<Seq<u8>>)
    ensures
        forall|i: int|
            0 <= i < s.len() ==> exists|j: int|
                0 <= j < first_occurrences(s).len() && comps(
                    #[trigger] first_occurrences(s)[j],
                ) == comps(#[trigger] s[i]),
        forall|j: int|
            0 <= j < first_occurrences(s).len() ==> s.contains(#[trigger] first_occurrences(s)[j]),
        forall|i: int, j: int|
            0 <= i < j < first_occurrences(s).len() ==> comps(#[trigger] first_occurrences(s)[i])
                != comps(#[trigger] first_occurrences(s)[j]),
    decreases s.len(),
{
    if s.len() > 0 {
        let t = s.drop_last();
        law_first_occurrences(t);
        let kept = first_occurrences(t);
        let all = first_occurrences(s);
        assert forall|i: int| 0 <= i < s.len() implies exists|j: int|
            0 <= j < all.len() && comps(#[trigger] all[j]) == comps(#[trigger] s[i]) by {
            if i < t.len() {
                assert(t[i] == s[i]);
                let j = choose|j: int|
                    0 <= j < kept.len() && comps(#[trigger] kept[j]) == comps(t[i]);
                assert(comps(all[j]) == comps(s[i]));
            } else if holds_path(kept, s.last()) {
                let j = choose|j: int|
                    0 <= j < kept.len() && crate::path::same_path(#[trigger] kept[j], s.last());
                assert(comps(all[j]) == comps(s[i]));
            } else {
                assert(comps(all[kept.len() as int]) == comps(s[i]));
            }
        }
        assert forall|j: int| 0 <= j < all.len() implies s.contains(#[trigger] all[j]) by {
            if j < kept.len() {
                assert(t.contains(kept[j]));
                let i = choose|i: int| 0 <= i < t.len() && t[i] == kept[j];
                assert(s[i] == all[j]);
            } else {
                assert(s[s.len() - 1] == all[j]);
            }
        }
        assert forall|i: int, j: int| 0 <= i < j < all.len() implies comps(#[trigger] all[i])
            != comps(#[trigger] all[j]) by {
            if j < kept.len() {
                assert(comps(kept[i]) != comps(kept[j]));
            } else {
                assert(!crate::path::same_path(kept[i], s.last()));
            }
        }
    }
}

/// A mount that is to be scanned anew has no tree and no progress, and a scan is
/// due; the trees of the others stay. All mounts together lose their trees, and
/// are scanned whatever they have.
pub proof fn law_rescan_requested(e: EngineModel, mount: Seq<u8>, other: Seq<u8>)
    requires
        e.wf(),
    ensures
        ({
            let one = e.rescan_requested(Some(mount));
            let all = e.rescan_requested(None);
            &&& filed_under(one.trees, mount) is None
            &&& comps(other) != comps(mount) ==> filed_under(one.trees, other) == filed_under(
                e.trees,
                other,
            )
            &&& filed_under(one.progress, mount) == Some(
                ProgressModel { files: 0, bytes: 0, done: false, error: None },
            )
            &&& comps(other) != comps(mount) ==> filed_under(one.progress, other) == filed_under(
                e.progress,
                other,
            )
            &&& one.rescan_flag && one.force_rescan == e.force_rescan
            &&& one == (EngineModel {
                trees: one.trees,
                progress: one.progress,
                rescan_flag: true,
                ..e
            })
            &&& filed_under(all.trees, mount) is None
            &&& all.rescan_flag && all.force_rescan
            &&& all == (EngineModel {
                trees: Seq::empty(),
                rescan_flag: true,
                force_rescan: true,
                ..e
            })
        }),
{
    law_dropped(e.trees, mount);
    law_filed(
        e.progress,
        mount,
        ProgressModel { files: 0, bytes: 0, done: false, error: None },
        other,
    );
    if comps(other) != comps(mount) {
        lemma_without_other(e.trees, mount, other);
    }
}

proof fn lemma_without_other<V>(s: Seq<(Seq<u8>, V)>, path: Seq<u8>, other: Seq<u8>)
    requires
        crate::path_map::distinct_keys(s),
        comps(other) != comps(path),
    ensures
        filed_under(without_filed(s, path), other) == filed_under(s, other),
{
    let t = without_filed(s, path);
    lemma_place_of(s, path, s.len());
    lemma_place_of(s, other, s.len());
    lemma_place_of(t, other, t.len());
    if let Some(k) = place_of(s, path, s.len()) {
        assert forall|i: int| 0 <= i < t.len() implies #[trigger] t[i] == s[if i < k {
            i
        } else {
            i + 1
        }] by {}
        match place_of(s, other, s.len()) {
            Some(j) => {
                let moved = if j < k {
                    j
                } else {
                    j - 1
                };
                assert(t[moved] == s[j]);
                let q = place_of(t, other, t.len()).unwrap();
                let back = if q < k {
                    q
                } else {
                    q + 1
                };
                assert(t[q] == s[back]);
                if back < j {
                    assert(!crate::path::same_path(s[back].0, s[j].0));
                } else if j < back {
                    assert(!crate::path::same_path(s[j].0, s[back].0));
                }
            },
            None => {
                if let Some(q) = place_of(t, other, t.len()) {
                    let back = if q < k {
                        q
                    } else {
                        q + 1
                    };
                    assert(t[q] == s[back]);
                }
            },
        }
    }
}

/// A tree, or the progress of a scan, that is noted of a mount is found there,
/// and nothing else changes.
pub proof fn law_noted(
    e: EngineModel,
    mount: Seq<u8>,
    other: Seq<u8>,
    tree: TreeModel,
    p: ProgressModel,
)
    ensures
        filed_under(e.with_tree(mount, tree).trees, mount) == Some(tree),
        filed_under(e.with_progress(mount, p).progress, mount) == Some(p),
        comps(other) != comps(mount) ==> filed_under(e.with_tree(mount, tree).trees, other)
            == filed_under(e.trees, other),
        comps(other) != comps(mount) ==> filed_under(e.with_progress(mount, p).progress, other)
            == filed_under(e.progress, other),
        e.with_tree(mount, tree) == (EngineModel { trees: e.with_tree(mount, tree).trees, ..e }),
        e.with_progress(mount, p) == (EngineModel {
            progress: e.with_progress(mount, p).progress,
            ..e
        }),
{
    law_filed(e.trees, mount, tree, other);
    law_filed(e.progress, mount, p, other);
}

// ---------------------------------------------------------------------------
// Changed paths
// ---------------------------------------------------------------------------

/// A changed path is looked at in the tree of the innermost mount that holds it;
/// one that no tree holds is left out.
pub proof fn law_dirty_job(
    trees: Seq<(Seq<u8>, TreeModel)>,
    paths: Seq<Seq<u8>>,
    n: nat,
    mount: Seq<u8>,
    path: Seq<u8>,
)
    requires
        n <= paths.len(),
    ensures
        dirty_jobs(trees, paths, n).contains((mount, path)) ==> under(path, mount) && exists|
            i: int,
        |
            0 <= i < n && #[trigger] paths[i] == path,
        forall|i: int, k: int|
            0 <= i < n && 0 <= k < trees.len() && under(#[trigger] paths[i], (
            #[trigger] trees[k]).0) ==> exists|j: int|
                0 <= j < dirty_jobs(trees, paths, n).len() && (#[trigger] dirty_jobs(
                    trees,
                    paths,
                    n,
                )[j]).1 == paths[i] && dirty_jobs(trees, paths, n)[j].0.len()
                    >= trees[k].0.len(),
    decreases n,
{
    if n > 0 {
        let before = dirty_jobs(trees, paths, (n - 1) as nat);
        let all = dirty_jobs(trees, paths, n);
        law_dirty_job(trees, paths, (n - 1) as nat, mount, path);
        lemma_longest_key(trees, paths[n - 1], trees.len());
        if all.contains((mount, path)) {
            let j = choose|j: int| 0 <= j < all.len() && all[j] == (mount, path);
            if j < before.len() {
                assert(before[j] == (mount, path));
            } else {
                assert(paths[n - 1] == path);
            }
        }
        assert forall|i: int, k: int|
            0 <= i < n && 0 <= k < trees.len() && under(#[trigger] paths[i], (
            #[trigger] trees[k]).0) implies exists|j: int|
            0 <= j < all.len() && (#[trigger] all[j]).1 == paths[i] && all[j].0.len()
                >= trees[k].0.len() by {
            if i < n - 1 {
                let j = choose|j: int|
                    0 <= j < before.len() && (#[trigger] before[j]).1 == paths[i]
                        && before[j].0.len() >= trees[k].0.len();
                assert(all[j] == before[j]);
            } else {
                crate::engine::law_dirty_mount(trees, paths[i], k);
                assert(all[before.len() as int].1 == paths[i]);
            }
        }
    }
}

/// A tree that was kept from an earlier scan is taken in with its totals, as a
/// scan that is done; other mounts keep what they had.
pub proof fn law_cached(e: EngineModel, mount: Seq<u8>, kept: TreeModel, other: Seq<u8>)
    ensures
        ({
            let r = e.with_cached(mount, kept);
            let t = filed_under(r.trees, mount);
            let p = filed_under(r.progress, mount);
            &&& t == Some(kept.pruned().reindexed())
            &&& p is Some && p.unwrap().done && p.unwrap().error is None
            &&& p.unwrap().files == t.unwrap().files && p.unwrap().bytes == t.unwrap().bytes
            &&& comps(other) != comps(mount) ==> filed_under(r.trees, other) == filed_under(
                e.trees,
                other,
            ) && filed_under(r.progress, other) == filed_under(e.progress, other)
            &&& r == (EngineModel { trees: r.trees, progress: r.progress, ..e })
        }),
{
    let t = kept.pruned().reindexed();
    let p = ProgressModel { files: t.files, bytes: t.bytes, done: true, error: None };
    law_filed(e.progress, mount, p, other);
    law_filed(e.trees, mount, t, other);
}

/// All that was noted is looked at where it is no more than the limit, and as
/// much as that where it is more.
pub proof fn law_dirty_count(paths: Seq<Seq<u8>>)
    ensures
        paths.len() <= 400 ==> dirty_count(paths) == paths.len(),
        paths.len() > 400 ==> dirty_count(paths) == 400,
{
}

// ---------------------------------------------------------------------------
// Mounts and jobs
// ---------------------------------------------------------------------------

/// Whether a place is that of a mount of a disk.
pub open spec fn place_on(disks: Seq<DiskModel>, d: int, p: int, m: int, place: Seq<u8>) -> bool {
    &&& 0 <= d < disks.len()
    &&& 0 <= p < disks[d].partitions.len()
    &&& 0 <= m < disks[d].partitions[p].mounts.len()
    &&& disks[d].partitions[p].mounts[m].path == place
}

proof fn lemma_concat<A>(a: Seq<A>, b: Seq<A>, x: A)
    ensures
        (a + b).contains(x) <==> a.contains(x) || b.contains(x),
{
    let c = a + b;
    if a.contains(x) {
        let i = choose|i: int| 0 <= i < a.len() && a[i] == x;
        assert(c[i] == x);
    }
    if b.contains(x) {
        let i = choose|i: int| 0 <= i < b.len() && b[i] == x;
        assert(c[a.len() + i] == x);
    }
    if c.contains(x) {
        let i = choose|i: int| 0 <= i < c.len() && c[i] == x;
        if i < a.len() {
            assert(a[i] == x);
        } else {
            assert(b[i - a.len()] == x);
        }
    }
}

proof fn lemma_places_of_parts(parts: Seq<PartitionModel>, n: nat, x: Seq<u8>)
    requires
        n <= parts.len(),
    ensures
        places_of_parts(parts, n).contains(x) <==> exists|p: int, m: int|
            0 <= p < n && 0 <= m < parts[p].mounts.len() && (#[trigger] parts[p].mounts[m]).path
                == x,
    decreases n,
{
    if n > 0 {
        lemma_places_of_parts(parts, (n - 1) as nat, x);
        let own = Seq::new(parts[n - 1].mounts.len(), |i: int| parts[n - 1].mounts[i].path);
        lemma_concat(places_of_parts(parts, (n - 1) as nat), own, x);
        if own.contains(x) {
            let m = choose|m: int| 0 <= m < own.len() && own[m] == x;
            assert(parts[n - 1].mounts[m].path == x);
        }
        if exists|p: int, m: int|
            0 <= p < n && 0 <= m < parts[p].mounts.len() && (#[trigger] parts[p].mounts[m]).path
                == x {
            let (p, m) = choose|p: int, m: int|
                0 <= p < n && 0 <= m < parts[p].mounts.len() && (
                #[trigger] parts[p].mounts[m]).path == x;
            if p == n - 1 {
                assert(own[m] == x);
            } else {
                assert(parts[p].mounts[m].path == x);
            }
        }
    }
}

proof fn lemma_places_of_disks(disks: Seq<DiskModel>, n: nat, x: Seq<u8>)
    requires
        n <= disks.len(),
    ensures
        places_of_disks(disks, n).contains(x) <==> exists|d: int, p: int, m: int|
            d < n && #[trigger] place_on(disks, d, p, m, x),
    decreases n,
{
    if n > 0 {
        lemma_places_of_disks(disks, (n - 1) as nat, x);
        let parts = disks[n - 1].partitions;
        lemma_places_of_parts(parts, parts.len(), x);
        lemma_concat(
            places_of_disks(disks, (n - 1) as nat),
            places_of_parts(parts, parts.len()),
            x,
        );
        if places_of_disks(disks, (n - 1) as nat).contains(x) {
            let (d, p, m) = choose|d: int, p: int, m: int|
                d < n - 1 && #[trigger] place_on(disks, d, p, m, x);
            assert(d < n && place_on(disks, d, p, m, x));
        }
        if places_of_parts(parts, parts.len()).contains(x) {
            let (p, m) = choose|p: int, m: int|
                0 <= p < parts.len() && 0 <= m < parts[p].mounts.len() && (
                #[trigger] parts[p].mounts[m]).path == x;
            assert(place_on(disks, n - 1, p, m, x));
        }
        if exists|d: int, p: int, m: int| d < n && #[trigger] place_on(disks, d, p, m, x) {
            let (d, p, m) = choose|d: int, p: int, m: int|
                d < n && #[trigger] place_on(disks, d, p, m, x);
            if d < n - 1 {
                assert(place_on(disks, d, p, m, x));
            } else {
                assert(parts[p].mounts[m].path == x);
            }
        }
    }
}

/// The places of the disks are those of the mounts of their partitions.
pub proof fn law_places(disks: Seq<DiskModel>, x: Seq<u8>)
    ensures
        places_of_disks(disks, disks.len()).contains(x) <==> exists|d: int, p: int, m: int| #[trigger]
            place_on(disks, d, p, m, x),
{
    lemma_places_of_disks(disks, disks.len(), x);
    if exists|d: int, p: int, m: int| #[trigger] place_on(disks, d, p, m, x) {
        let (d, p, m) = choose|d: int, p: int, m: int| #[trigger] place_on(disks, d, p, m, x);
        assert(d < disks.len() && place_on(disks, d, p, m, x));
    }
}

/// Two lists of places are the same where each has the components of the other
/// at each index.
pub proof fn law_same_places(a: Seq<Seq<u8>>, b: Seq<Seq<u8>>)
    ensures
        same_paths(a, b) <==> a.len() == b.len() && forall|i: int|
            0 <= i < a.len() ==> comps(#[trigger] a[i]) == comps(b[i]),
{
}

/// Whether a job scans a mount of a disk.
pub open spec fn job_of(disks: Seq<DiskModel>, d: int, p: int, m: int, j: JobModel) -> bool {
    &&& place_on(disks, d, p, m, j.path)
    &&& j.removable == disks[d].removable
    &&& j.rotational == disks[d].rotational
    &&& j.size >= disks[d].partitions[p].size
    &&& j.size >= disks[d].partitions[p].mounts[m].total
    &&& j.size == disks[d].partitions[p].size || j.size
        == disks[d].partitions[p].mounts[m].total
}

proof fn lemma_jobs_of_disk(disks: Seq<DiskModel>, d: int, n: nat, j: JobModel)
    requires
        0 <= d < disks.len(),
        n <= disks[d].partitions.len(),
    ensures
        jobs_of_disk(disks[d], n).contains(j) <==> exists|p: int, m: int|
            p < n && #[trigger] job_of(disks, d, p, m, j),
    decreases n,
{
    if n > 0 {
        let disk = disks[d];
        lemma_jobs_of_disk(disks, d, (n - 1) as nat, j);
        let own = jobs_of_part(disk, disk.partitions[n - 1]);
        lemma_concat(jobs_of_disk(disk, (n - 1) as nat), own, j);
        if jobs_of_disk(disk, (n - 1) as nat).contains(j) {
            let (p, m) = choose|p: int, m: int|
                p < n - 1 && #[trigger] job_of(disks, d, p, m, j);
            assert(p < n && job_of(disks, d, p, m, j));
        }
        if own.contains(j) {
            let m = choose|m: int| 0 <= m < own.len() && own[m] == j;
            assert(job_of(disks, d, n - 1, m, j));
        }
        if exists|p: int, m: int| p < n && #[trigger] job_of(disks, d, p, m, j) {
            let (p, m) = choose|p: int, m: int| p < n && #[trigger] job_of(disks, d, p, m, j);
            if p < n - 1 {
                assert(job_of(disks, d, p, m, j));
            } else {
                assert(own[m] == j);
            }
        }
    }
}

proof fn lemma_jobs_of_disks(disks: Seq<DiskModel>, n: nat, j: JobModel)
    requires
        n <= disks.len(),
    ensures
        jobs_of_disks(disks, n).contains(j) <==> exists|d: int, p: int, m: int|
            d < n && #[trigger] job_of(disks, d, p, m, j),
    decreases n,
{
    if n > 0 {
        lemma_jobs_of_disks(disks, (n - 1) as nat, j);
        let parts = disks[n - 1].partitions;
        lemma_jobs_of_disk(disks, n - 1, parts.len(), j);
        lemma_concat(
            jobs_of_disks(disks, (n - 1) as nat),
            jobs_of_disk(disks[n - 1], parts.len()),
            j,
        );
        if jobs_of_disks(disks, (n - 1) as nat).contains(j) {
            let (d, p, m) = choose|d: int, p: int, m: int|
                d < n - 1 && #[trigger] job_of(disks, d, p, m, j);
            assert(d < n && job_of(disks, d, p, m, j));
        }
        if jobs_of_disk(disks[n - 1], parts.len()).contains(j) {
            let (p, m) = choose|p: int, m: int|
                p < parts.len() && #[trigger] job_of(disks, n - 1, p, m, j);
            assert(job_of(disks, n - 1, p, m, j));
        }
        if exists|d: int, p: int, m: int| d < n && #[trigger] job_of(disks, d, p, m, j) {
            let (d, p, m) = choose|d: int, p: int, m: int|
                d < n && #[trigger] job_of(disks, d, p, m, j);
            if d < n - 1 {
                assert(job_of(disks, d, p, m, j));
            } else {
                assert(p < parts.len() && job_of(disks, n - 1, p, m, j));
            }
        }
    }
}

/// Each mount of each disk is scanned: those of fixed disks before those of
/// removable ones, of these those of disks that do not rotate first, and of these
/// the small ones.
pub proof fn law_scan_jobs(disks: Seq<DiskModel>, j: JobModel)
    ensures
        ({
            let jobs = ordered::<Job>(jobs_of_disks(disks, disks.len()));
            &&& jobs.contains(j) <==> exists|d: int, p: int, m: int| #[trigger]
                job_of(disks, d, p, m, j)
            &&& forall|a: int, b: int|
                0 <= a < b < jobs.len() ==> {
                    let (x, y) = (#[trigger] jobs[a], #[trigger] jobs[b]);
                    &&& x.removable ==> y.removable
                    &&& x.removable == y.removable && x.rotational ==> y.rotational
                    &&& x.removable == y.removable && x.rotational == y.rotational ==> x.size
                        <= y.size
                }
        }),
{
    let raw = jobs_of_disks(disks, disks.len());
    let jobs = ordered::<Job>(raw);
    lemma_jobs_of_disks(disks, disks.len(), j);
    law_ordered_ascending::<Job>(raw);
    if jobs.contains(j) {
        lemma_ordered_member::<Job>(raw, j);
    }
    if raw.contains(j) {
        lemma_member_ordered::<Job>(raw, j);
    }
    if exists|d: int, p: int, m: int| #[trigger] job_of(disks, d, p, m, j) {
        let (d, p, m) = choose|d: int, p: int, m: int| #[trigger] job_of(disks, d, p, m, j);
        assert(d < disks.len() && job_of(disks, d, p, m, j));
    }
    assert forall|a: int, b: int| 0 <= a < b < jobs.len() implies {
        let (x, y) = (#[trigger] jobs[a], #[trigger] jobs[b]);
        &&& x.removable ==> y.removable
        &&& x.removable == y.removable && x.rotational ==> y.rotational
        &&& x.removable == y.removable && x.rotational == y.rotational ==> x.size <= y.size
    } by {
        assert(crate::sort::ascending::<Job>(jobs));
    }
}

// ---------------------------------------------------------------------------
// Files and views
// ---------------------------------------------------------------------------

/// The tree of a mount is kept in a file whose name is made of the letters and
/// digits of the mount's path, with an underscore for anything else.
pub proof fn law_cache_file(dir: Seq<u8>, mount: Seq<u8>, i: int)
    requires
        0 <= i < lossy_text(mount).len(),
    ensures
        cache_file(dir, mount) == joined(dir, encode_utf8(slug(lossy_text(mount)) + ".bin"@)),
        slug(lossy_text(mount)).len() == lossy_text(mount).len(),
        ({
            let c = lossy_text(mount)[i];
            let kept = 'a' <= c <= 'z' || 'A' <= c <= 'Z' || '0' <= c <= '9';
            slug(lossy_text(mount))[i] == if kept {
                c
            } else {
                '_'
            }
        }),
{
}

/// A shown disk says what the disk says, with its partitions in order, and each
/// of these says what the partition says, with what is shown of its mounts.
pub proof fn law_shown_disk(scene: Scene, d: DiskModel, usage: Seq<Seq<UsageModel>>, i: int)
    ensures
        ({
            let v = shown_disk(scene, d, usage);
            &&& v.name == d.name && v.model == d.model && v.serial == d.serial && v.transport
                == d.transport
            &&& v.size == d.size && v.unallocated == d.unallocated
            &&& v.rotational == d.rotational && v.removable == d.removable
            &&& v.partitions.len() == d.partitions.len()
            &&& 0 <= i < d.partitions.len() ==> {
                let x = v.partitions[i];
                let p = d.partitions[i];
                &&& x.name == p.name && x.mapped_name == p.mapped_name && x.label == p.label
                &&& x.fstype == p.fstype && x.size == p.size && x.start == p.start && x.locked
                    == p.locked
                &&& x.mounts == scene.partition(p, usage[i])
            }
        }),
{
}

/// A scene is drawn from the trees and the progress of the scanner.
pub proof fn law_scene(e: EngineModel, focus: Seq<Seq<u8>>, open: Seq<Seq<u8>>)
    ensures
        e.scene(focus, open).trees == e.trees,
        e.scene(focus, open).progress == e.progress,
        e.scene(focus, open).focus == focus,
        e.scene(focus, open).open == open,
{
}

} // verus!
