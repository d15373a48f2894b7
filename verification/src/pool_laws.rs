//! What is shown of a partition, said of its mounts and of their scans.

use crate::discover::{FsStats, MountModel, PartitionModel};
use crate::mount_laws::{is_free, is_gap};
use crate::mount_view::{focus_of, gap_suppressed, mount_tiles, opened_in, shown_mount};
use crate::path::{comps, lossy_text};
use crate::path_map::filed_under;
use crate::pool::{
    current_usage, progress_of, share_pool, sizes_sum, Scene, UsageModel,
};
use crate::scan::ProgressModel;
use crate::snapshot::{KindModel, ScanModel, ViewModel, ViewNode};
use crate::sort::{law_ordered_ascending, law_ordered_same_values, ordered};
use crate::tree::TreeModel;
use vstd::prelude::*;

verus! {

/// The usage of a mount is what the system reports now, or else what was known;
/// its place stays.
pub proof fn law_current_usage(mounts: Seq<MountModel>, stats: Seq<Option<FsStats>>, i: int)
    requires
        0 <= i < mounts.len() == stats.len(),
    ensures
        current_usage(mounts, stats).len() == mounts.len(),
        current_usage(mounts, stats)[i].path == mounts[i].path,
        stats[i] is None ==> current_usage(mounts, stats)[i] == mounts[i],
        stats[i] matches Some(s) ==> current_usage(mounts, stats)[i]
            == crate::discover::usage_of(mounts[i].path, s),
{
}

/// The progress of a mount is what is noted of it. Where nothing is, a mount with
/// a tree is done with what the tree holds, and one without has not begun.
pub proof fn law_progress(
    path: Seq<u8>,
    tree: Option<TreeModel>,
    progress: Seq<(Seq<u8>, ProgressModel)>,
)
    ensures
        ({
            let p = progress_of(path, tree, progress);
            &&& filed_under(progress, path) matches Some(x) ==> p == x
            &&& filed_under(progress, path) is None ==> p.error is None && p.done == (tree is Some)
            &&& filed_under(progress, path) is None ==> (tree matches Some(t) ==> p.files == t.files
                && p.bytes == t.bytes)
            &&& filed_under(progress, path) is None && tree is None ==> p.files == 0 && p.bytes == 0
        }),
{
}

/// What is filed under a path is filed under the same components.
pub proof fn law_filed_under<V>(s: Seq<(Seq<u8>, V)>, path: Seq<u8>)
    ensures
        filed_under(s, path) matches Some(v) ==> exists|i: int|
            0 <= i < s.len() && comps((#[trigger] s[i]).0) == comps(path) && s[i].1 == v,
        filed_under(s, path) is None ==> forall|i: int|
            0 <= i < s.len() ==> comps((#[trigger] s[i]).0) != comps(path),
{
    crate::path_map::lemma_place_of(s, path, s.len());
}

/// Mounts share the space of their partition where there are several, and all
/// report the same size and the same free space.
pub proof fn law_share_pool(usage: Seq<UsageModel>)
    ensures
        share_pool(usage) <==> usage.len() > 1 && forall|i: int, j: int|
            0 <= i < usage.len() && 0 <= j < usage.len() ==> (#[trigger] usage[i]).mount.total == (
            #[trigger] usage[j]).mount.total && usage[i].mount.available
                == usage[j].mount.available,
{
    if usage.len() > 1 && (forall|i: int, j: int|
        0 <= i < usage.len() && 0 <= j < usage.len() ==> (#[trigger] usage[i]).mount.total == (
        #[trigger] usage[j]).mount.total && usage[i].mount.available == usage[j].mount.available) {
        assert forall|i: int| 0 <= i < usage.len() implies (#[trigger] usage[i]).mount.total
            == usage[0].mount.total && usage[i].mount.available == usage[0].mount.available by {
            let z = usage[0];
        }
    }
}

/// Mounts that do not share their space are shown one by one, in order, each from
/// its own tree and progress, with its own zoom and opened folders, and with the
/// bytes that are unseen and free.
pub proof fn law_mounts_alone(c: Scene, p: PartitionModel, usage: Seq<UsageModel>, i: int)
    requires
        !share_pool(usage),
        0 <= i < usage.len(),
    ensures
        ({
            let v = c.partition(p, usage);
            let m = usage[i].mount;
            let tree = filed_under(c.trees, m.path);
            &&& v.len() == usage.len()
            &&& v[i].path == lossy_text(m.path)
            &&& v[i].total == m.total && v[i].used == m.used && v[i].available == m.available
            &&& v[i] == shown_mount(
                m,
                tree,
                progress_of(m.path, tree, c.progress),
                usage[i].min_size,
                true,
                p.fstype,
                focus_of(m.path, c.focus, c.focus.len()),
                opened_in(m.path, c.open, c.open.len()),
            )
        }),
{
}

// ---------------------------------------------------------------------------
// A shared partition
// ---------------------------------------------------------------------------

/// The progress of a mount of a scene.
pub open spec fn progress_in(c: Scene, m: MountModel) -> ProgressModel {
    progress_of(m.path, filed_under(c.trees, m.path), c.progress)
}

/// The bytes that are known of a mount: those of its tree, else those that its
/// scan has counted.
pub open spec fn known_bytes(c: Scene, m: MountModel) -> int {
    match filed_under(c.trees, m.path) {
        Some(t) => t.bytes as int,
        None => progress_in(c, m).bytes as int,
    }
}

/// The bytes that are known of the first `n` mounts.
pub open spec fn all_bytes(c: Scene, usage: Seq<UsageModel>, n: nat) -> int
    decreases n,
{
    if n == 0 {
        0
    } else {
        all_bytes(c, usage, (n - 1) as nat) + known_bytes(c, usage[n - 1].mount)
    }
}

/// The files that the scans of the first `n` mounts have counted.
pub open spec fn all_files(c: Scene, usage: Seq<UsageModel>, n: nat) -> int
    decreases n,
{
    if n == 0 {
        0
    } else {
        all_files(c, usage, (n - 1) as nat) + progress_in(c, usage[n - 1].mount).files
    }
}

proof fn lemma_sums(c: Scene, usage: Seq<UsageModel>, n: nat)
    ensures
        c.bytes_sum(usage, n) == all_bytes(c, usage, n),
        c.files_sum(usage, n) == all_files(c, usage, n),
        all_bytes(c, usage, n) >= 0,
        all_files(c, usage, n) >= 0,
    decreases n,
{
    if n > 0 {
        lemma_sums(c, usage, (n - 1) as nat);
    }
}

proof fn lemma_last_error(c: Scene, usage: Seq<UsageModel>, n: nat)
    requires
        n <= usage.len(),
    ensures
        c.last_error(usage, n) is None <==> forall|i: int|
            0 <= i < n ==> progress_in(c, (#[trigger] usage[i]).mount).error is None,
        forall|i: int|
            0 <= i < n && progress_in(c, (#[trigger] usage[i]).mount).error is Some && (forall|
                j: int,
            |
                i < j < n ==> progress_in(c, (#[trigger] usage[j]).mount).error is None)
                ==> c.last_error(usage, n) == progress_in(c, usage[i].mount).error,
    decreases n,
{
    if n > 0 {
        lemma_last_error(c, usage, (n - 1) as nat);
        assert(c.scan(usage[n - 1].mount) == progress_in(c, usage[n - 1].mount));
    }
}

/// Mounts that share their space are shown as one, with the size of the pool,
/// under the name that it is mapped to, its label, or its own. Its scan has
/// failed where one of theirs has, is under way where one of theirs is, and has
/// counted what they have together.
pub proof fn law_pool(c: Scene, p: PartitionModel, usage: Seq<UsageModel>)
    requires
        share_pool(usage),
        c.sums_fit(usage, p.fstype),
    ensures
        c.partition(p, usage).len() == 1,
        ({
            let v = c.partition(p, usage)[0];
            let n = usage.len();
            let going = exists|i: int|
                0 <= i < n && !progress_in(c, (#[trigger] usage[i]).mount).done;
            let failed = exists|i: int|
                0 <= i < n && progress_in(c, (#[trigger] usage[i]).mount).error is Some;
            &&& v.total == usage[0].mount.total
            &&& v.used == usage[0].mount.used
            &&& v.available == usage[0].mount.available
            &&& p.mapped_name matches Some(x) ==> v.path == x
            &&& p.mapped_name is None ==> (p.label matches Some(x) ==> v.path == x)
            &&& p.mapped_name is None && p.label is None ==> v.path == p.name
            &&& v.tree.path == v.path && v.tree.name == v.path && v.tree.kind is Directory
            &&& v.tree.size == v.total || (v.total == 0 && v.tree.size == 1)
            &&& forall|i: int|
                0 <= i < n && progress_in(c, (#[trigger] usage[i]).mount).error is Some && (forall|
                    j: int,
                |
                    i < j < n ==> progress_in(c, (#[trigger] usage[j]).mount).error is None)
                    ==> v.scan == ScanModel::Error(
                    progress_in(c, usage[i].mount).error.unwrap(),
                )
            &&& !failed && going ==> v.scan == (ScanModel::Scanning {
                files: all_files(c, usage, n) as u64,
                bytes: all_bytes(c, usage, n) as u64,
            })
            &&& !failed && !going ==> v.scan == (ScanModel::Live {
                files: all_files(c, usage, n) as u64,
                bytes: all_bytes(c, usage, n) as u64,
            })
        }),
{
    lemma_sums(c, usage, usage.len());
    lemma_last_error(c, usage, usage.len());
    assert forall|i: int| 0 <= i < usage.len() implies c.scan((#[trigger] usage[i]).mount)
        == progress_in(c, usage[i].mount) by {}
}

/// Whether a tile stands for a mount that shares its partition: it has its path
/// and the tiles of its tree, whose sizes it has together.
pub open spec fn stands_for_mount(
    c: Scene,
    u: UsageModel,
    fstype: Seq<char>,
    t: ViewModel,
) -> bool {
    &&& t.path == lossy_text(u.mount.path)
    &&& t.name == t.path
    &&& t.kind is Directory
    &&& t.children == mount_tiles(
        u.mount,
        filed_under(c.trees, u.mount.path),
        progress_in(c, u.mount),
        u.min_size,
        false,
        fstype,
        focus_of(u.mount.path, c.focus, c.focus.len()),
        opened_in(u.mount.path, c.open, c.open.len()),
    )
    &&& t.size == sizes_sum(t.children) || (sizes_sum(t.children) == 0 && t.size == 1)
}

/// The tiles of a shared partition stand for its mounts, for the free bytes of
/// the pool if there are any, and for the bytes in use that no scan has seen,
/// where these are more than the least size. The larger ones come first.
pub proof fn law_pool_tiles(c: Scene, p: PartitionModel, usage: Seq<UsageModel>)
    requires
        share_pool(usage),
        c.sums_fit(usage, p.fstype),
    ensures
        ({
            let tiles = c.partition(p, usage)[0].tree.children;
            let n = usage.len();
            let done = forall|i: int|
                0 <= i < n ==> progress_in(c, (#[trigger] usage[i]).mount).done;
            let unseen = usage[0].mount.used - all_bytes(c, usage, n);
            let gap = unseen > usage[0].min_size && (!done || !gap_suppressed(p.fstype));
            let free = usage[0].mount.available > 0;
            &&& tiles.len() == n + (if gap {
                1int
            } else {
                0
            }) + (if free {
                1int
            } else {
                0
            })
            &&& forall|i: int|
                0 <= i < n ==> exists|k: int|
                    0 <= k < tiles.len() && stands_for_mount(
                        c,
                        #[trigger] usage[i],
                        p.fstype,
                        #[trigger] tiles[k],
                    )
            &&& gap ==> exists|k: int|
                0 <= k < tiles.len() && is_gap(#[trigger] tiles[k], unseen, done)
            &&& free ==> exists|k: int|
                0 <= k < tiles.len() && is_free(#[trigger] tiles[k], usage[0].mount.available)
            &&& forall|i: int, j: int|
                0 <= i < j < tiles.len() ==> (#[trigger] tiles[i]).size >= (
                #[trigger] tiles[j]).size
        }),
{
    broadcast use vstd::seq_lib::group_to_multiset_ensures;

    let n = usage.len();
    let tiles = c.partition(p, usage)[0].tree.children;
    lemma_sums(c, usage, n);
    assert forall|i: int| 0 <= i < n implies c.scan((#[trigger] usage[i]).mount) == progress_in(
        c,
        usage[i].mount,
    ) by {}
    let done = forall|i: int| 0 <= i < n ==> progress_in(c, (#[trigger] usage[i]).mount).done;
    assert(done == !c.scanning(usage, n));
    let unseen = usage[0].mount.used - all_bytes(c, usage, n);
    let gap = unseen > usage[0].min_size && (!done || !gap_suppressed(p.fstype));
    let free = usage[0].mount.available > 0;
    let mounts = Seq::new(n, |i: int| c.shared(usage[i], p.fstype));
    let a = if gap {
        mounts.push(
            if done {
                crate::snapshot::leaf_view(
                    p.name + "::gap"@,
                    "overhead"@,
                    unseen as u64,
                    KindModel::Overhead,
                )
            } else {
                crate::snapshot::leaf_view(
                    p.name + "::gap"@,
                    "scanning"@,
                    unseen as u64,
                    KindModel::Scanning,
                )
            },
        )
    } else {
        mounts
    };
    let all = if free {
        a.push(
            crate::snapshot::leaf_view(
                p.name + "::free"@,
                "free"@,
                usage[0].mount.available,
                KindModel::Free,
            ),
        )
    } else {
        a
    };
    assert(tiles == ordered::<ViewNode>(all));
    law_ordered_ascending::<ViewNode>(all);
    law_ordered_same_values::<ViewNode>(all);
    assert forall|x: ViewModel| all.contains(x) implies tiles.contains(x) by {
        assert(tiles.to_multiset().contains(x) == all.to_multiset().contains(x));
    }
    assert forall|i: int| 0 <= i < n implies exists|k: int|
        0 <= k < tiles.len() && stands_for_mount(
            c,
            #[trigger] usage[i],
            p.fstype,
            #[trigger] tiles[k],
        ) by {
        let x = mounts[i];
        assert(all[i] == x);
        assert(all.contains(x));
        let k = choose|k: int| 0 <= k < tiles.len() && tiles[k] == x;
        lemma_sum_nonneg(c.inner_tiles(usage[i], p.fstype));
        assert(stands_for_mount(c, usage[i], p.fstype, tiles[k]));
    }
    if gap {
        let x = a[n as int];
        assert(all[n as int] == x);
        assert(all.contains(x));
        let k = choose|k: int| 0 <= k < tiles.len() && tiles[k] == x;
        assert(is_gap(tiles[k], unseen, done));
    }
    if free {
        let x = all[a.len() as int];
        assert(all.contains(x));
        let k = choose|k: int| 0 <= k < tiles.len() && tiles[k] == x;
        assert(is_free(tiles[k], usage[0].mount.available));
    }
    assert forall|i: int, j: int| 0 <= i < j < tiles.len() implies (#[trigger] tiles[i]).size >= (
    #[trigger] tiles[j]).size by {
        assert(crate::sort::ascending::<ViewNode>(tiles));
    }
}

proof fn lemma_sum_nonneg(s: Seq<ViewModel>)
    ensures
        sizes_sum(s) >= 0,
    decreases s.len(),
{
    if s.len() > 0 {
        lemma_sum_nonneg(s.drop_last());
    }
}

} // verus!
