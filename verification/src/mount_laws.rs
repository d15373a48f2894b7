//! What is shown of a mount, said of what the file system reports of it.

use crate::discover::MountModel;
use crate::mount_view::{
    focus_of, gap_suppressed, mount_tiles, opened_in, seen_bytes, shown_mount, status_of,
};
use crate::path::{comps, lossy_text, under};
use crate::scan::ProgressModel;
use crate::snapshot::{KindModel, ScanModel, ViewModel, ViewNode};
use crate::sort::{law_ordered_ascending, law_ordered_same_values, ordered};
use crate::text::{contains_seq, lower};
use crate::tree::TreeModel;
use vstd::prelude::*;

verus! {

/// The bytes of a shown mount are those that the file system reports, each in
/// its own place, and its tile has its path and the size of all of it.
pub proof fn law_mount_bytes(
    mount: MountModel,
    tree: Option<TreeModel>,
    scan: ProgressModel,
    min_size: u64,
    with_pool: bool,
    fstype: Seq<char>,
    focus: Option<Seq<u8>>,
    open: Seq<Seq<u8>>,
)
    ensures
        ({
            let v = shown_mount(mount, tree, scan, min_size, with_pool, fstype, focus, open);
            &&& v.path == lossy_text(mount.path)
            &&& v.total == mount.total
            &&& v.used == mount.used
            &&& v.available == mount.available
            &&& v.tree.path == v.path
            &&& v.tree.name == v.path
            &&& v.tree.kind is Directory
            &&& v.tree.size == v.total || (v.total == 0 && v.tree.size == 1)
            &&& v.tree.children == mount_tiles(
                mount,
                tree,
                scan,
                min_size,
                with_pool,
                fstype,
                focus,
                open,
            )
            &&& v.scan == status_of(scan, seen_bytes(tree, scan))
        }),
{
}

/// What a scan has seen is what its tree holds or what it has counted, whichever
/// is more.
pub proof fn law_seen_bytes(tree: Option<TreeModel>, scan: ProgressModel)
    ensures
        seen_bytes(tree, scan) >= scan.bytes,
        tree matches Some(t) ==> seen_bytes(tree, scan) >= t.bytes,
        seen_bytes(tree, scan) == scan.bytes || (tree matches Some(t) && seen_bytes(tree, scan)
            == t.bytes),
{
}

/// A scan that failed says why; one that is done is live, with its files and the
/// bytes it has seen; any other is under way, with what it has counted so far.
pub proof fn law_scan_status(scan: ProgressModel, seen: u64)
    ensures
        scan.error matches Some(e) ==> status_of(scan, seen) == ScanModel::Error(e),
        scan.error is None && scan.done ==> status_of(scan, seen) == (ScanModel::Live {
            files: scan.files,
            bytes: seen,
        }),
        scan.error is None && !scan.done && scan.bytes > 0 ==> status_of(scan, seen) == (
        ScanModel::Scanning { files: scan.files, bytes: scan.bytes }),
        scan.error is None && !scan.done && scan.bytes == 0 ==> status_of(scan, seen) == (
        ScanModel::Scanning { files: scan.files, bytes: seen }),
{
}

/// Whether a tile stands for free bytes.
pub open spec fn is_free(t: ViewModel, bytes: u64) -> bool {
    t.kind is Free && t.size == bytes && t.name == "free"@ && t.children.len() == 0
}

/// Whether a tile stands for bytes in use that the scan has not seen.
pub open spec fn is_gap(t: ViewModel, bytes: int, done: bool) -> bool {
    &&& t.size == bytes
    &&& t.children.len() == 0
    &&& if done {
        t.kind is Overhead && t.name == "overhead"@
    } else {
        t.kind is Scanning && t.name == "scanning"@
    }
}

/// Whether a mount shows the bytes of its pool: it is asked to and is not zoomed
/// into.
pub open spec fn shows_pool(
    mount: MountModel,
    with_pool: bool,
    focus: Option<Seq<u8>>,
) -> bool {
    with_pool && (focus matches Some(p) ==> comps(p) == comps(mount.path))
}

/// The tiles of a mount are those of the layer of its tree at the folder that is
/// zoomed into, and, where it shows its pool, one for the free bytes if there are
/// any, and one for the bytes in use that the scan has not seen, where these are
/// more than `min_size`: while it runs, and once it is done on file systems on
/// which they mean anything. The larger ones come first.
pub proof fn law_mount_tiles(
    mount: MountModel,
    tree: Option<TreeModel>,
    scan: ProgressModel,
    min_size: u64,
    with_pool: bool,
    fstype: Seq<char>,
    focus: Option<Seq<u8>>,
    open: Seq<Seq<u8>>,
)
    ensures
        ({
            let tiles = mount_tiles(
                mount,
                tree,
                scan,
                min_size,
                with_pool,
                fstype,
                focus,
                open,
            );
            let inner = match tree {
                Some(t) => t.layer(focus, open, min_size).children,
                None => Seq::empty(),
            };
            let pool = shows_pool(mount, with_pool, focus);
            let unseen = mount.used - seen_bytes(tree, scan);
            let gap = pool && unseen > min_size && (!scan.done || !gap_suppressed(fstype));
            let free = pool && mount.available > 0;
            &&& tiles.len() == inner.len() + (if gap {
                1int
            } else {
                0
            }) + (if free {
                1int
            } else {
                0
            })
            &&& forall|i: int| 0 <= i < inner.len() ==> tiles.contains(#[trigger] inner[i])
            &&& gap ==> exists|i: int|
                0 <= i < tiles.len() && is_gap(#[trigger] tiles[i], unseen, scan.done)
            &&& free ==> exists|i: int|
                0 <= i < tiles.len() && is_free(#[trigger] tiles[i], mount.available)
            &&& forall|i: int|
                0 <= i < tiles.len() ==> inner.contains(#[trigger] tiles[i]) || (gap && is_gap(
                    tiles[i],
                    unseen,
                    scan.done,
                )) || (free && is_free(tiles[i], mount.available))
            &&& forall|i: int, j: int|
                0 <= i < j < tiles.len() ==> (#[trigger] tiles[i]).size >= (
                #[trigger] tiles[j]).size
        }),
{
    broadcast use vstd::seq_lib::group_to_multiset_ensures;

    let tiles = mount_tiles(mount, tree, scan, min_size, with_pool, fstype, focus, open);
    let inner = match tree {
        Some(t) => t.layer(focus, open, min_size).children,
        None => Seq::empty(),
    };
    let pool = shows_pool(mount, with_pool, focus);
    let unseen = mount.used - seen_bytes(tree, scan);
    let gap = pool && unseen > min_size && (!scan.done || !gap_suppressed(fstype));
    let free = pool && mount.available > 0;
    let name = lossy_text(mount.path);
    let a = if gap {
        inner.push(
            if scan.done {
                crate::snapshot::leaf_view(
                    name + "::gap"@,
                    "overhead"@,
                    unseen as u64,
                    KindModel::Overhead,
                )
            } else {
                crate::snapshot::leaf_view(
                    name + "::gap"@,
                    "scanning"@,
                    unseen as u64,
                    KindModel::Scanning,
                )
            },
        )
    } else {
        inner
    };
    let all = if free {
        a.push(
            crate::snapshot::leaf_view(
                name + "::free"@,
                "free"@,
                mount.available,
                KindModel::Free,
            ),
        )
    } else {
        a
    };
    assert(tiles == ordered::<ViewNode>(all));
    law_ordered_ascending::<ViewNode>(all);
    law_ordered_same_values::<ViewNode>(all);
    assert forall|x: ViewModel| tiles.contains(x) == all.contains(x) by {
        assert(tiles.to_multiset().contains(x) == all.to_multiset().contains(x));
    }
    assert forall|i: int| 0 <= i < inner.len() implies tiles.contains(#[trigger] inner[i]) by {
        assert(all[i] == inner[i]);
        assert(all.contains(inner[i]));
    }
    if gap {
        let x = a[inner.len() as int];
        assert(all[inner.len() as int] == x);
        assert(tiles.contains(x));
        let i = choose|i: int| 0 <= i < tiles.len() && tiles[i] == x;
        assert(is_gap(tiles[i], unseen, scan.done));
    }
    if free {
        let x = all[a.len() as int];
        assert(tiles.contains(x));
        let i = choose|i: int| 0 <= i < tiles.len() && tiles[i] == x;
        assert(is_free(tiles[i], mount.available));
    }
    assert forall|i: int| 0 <= i < tiles.len() implies inner.contains(#[trigger] tiles[i]) || (gap
        && is_gap(tiles[i], unseen, scan.done)) || (free && is_free(
        tiles[i],
        mount.available,
    )) by {
        assert(tiles.contains(tiles[i]));
        let k = choose|k: int| 0 <= k < all.len() && all[k] == tiles[i];
        if k < inner.len() {
            assert(inner[k] == tiles[i]);
        }
    }
    assert forall|i: int, j: int| 0 <= i < j < tiles.len() implies (#[trigger] tiles[i]).size >= (
    #[trigger] tiles[j]).size by {
        assert(crate::sort::ascending::<ViewNode>(tiles));
    }
}

/// Bytes in use that a walk cannot see mean nothing on the file systems of
/// Windows, however their type is spelled, and on no other.
pub proof fn law_suppressed(fstype: Seq<char>)
    ensures
        contains_seq(lower(fstype), "ntfs"@) ==> gap_suppressed(fstype),
        lower(fstype) == "ntfs"@ || lower(fstype) == "ntfs3"@ || lower(fstype) == "fuseblk"@
            || lower(fstype) == "exfat"@ || lower(fstype) == "vfat"@ || lower(fstype) == "msdos"@
            ==> gap_suppressed(fstype),
        gap_suppressed(fstype) ==> contains_seq(lower(fstype), "ntfs"@) || lower(fstype)
            == "ntfs"@ || lower(fstype) == "ntfs3"@ || lower(fstype) == "fuseblk"@ || lower(fstype)
            == "exfat"@ || lower(fstype) == "vfat"@ || lower(fstype) == "msdos"@,
{
}

/// The folder that a mount is zoomed into is the longest of the given ones at or
/// below it; of equally long ones the last.
pub proof fn law_focus(mount: Seq<u8>, focus: Seq<Seq<u8>>, n: nat, k: int)
    requires
        n <= focus.len(),
    ensures
        focus_of(mount, focus, n) matches Some(p) ==> under(p, mount) && focus.take(
            n as int,
        ).contains(p),
        0 <= k < n && under(focus[k], mount) ==> (focus_of(mount, focus, n) matches Some(p)
            && p.len() >= focus[k].len()),
        n > 0 && under(focus[n - 1], mount) && (focus_of(mount, focus, n) matches Some(p)
            && p.len() == focus[n - 1].len()) ==> focus_of(mount, focus, n) == Some(focus[n - 1]),
    decreases n,
{
    if n > 0 {
        law_focus(mount, focus, (n - 1) as nat, k);
        let best = focus_of(mount, focus, (n - 1) as nat);
        let all = focus.take(n as int);
        if best is Some {
            let p = best.unwrap();
            let before = focus.take(n - 1);
            let i = choose|i: int| 0 <= i < before.len() && before[i] == p;
            assert(all[i] == p);
        }
        assert(all[n - 1] == focus[n - 1]);
    }
}

/// The opened folders of a mount are those at or below it, in order.
pub proof fn law_opened(mount: Seq<u8>, open: Seq<Seq<u8>>, n: nat, p: Seq<u8>)
    requires
        n <= open.len(),
    ensures
        opened_in(mount, open, n).contains(p) <==> under(p, mount) && open.take(
            n as int,
        ).contains(p),
    decreases n,
{
    if n > 0 {
        law_opened(mount, open, (n - 1) as nat, p);
        let before = opened_in(mount, open, (n - 1) as nat);
        let after = opened_in(mount, open, n);
        assert(open.take(n as int) =~= open.take(n - 1).push(open[n - 1]));
        let a = open.take(n - 1);
        let b = open.take(n as int);
        if a.contains(p) {
            let i = choose|i: int| 0 <= i < a.len() && a[i] == p;
            assert(b[i] == p);
        }
        if b.contains(p) {
            let i = choose|i: int| 0 <= i < b.len() && b[i] == p;
            if i < a.len() {
                assert(a[i] == p);
            }
        }
        if before.contains(p) {
            let i = choose|i: int| 0 <= i < before.len() && before[i] == p;
            assert(after[i] == p);
        }
        if after.contains(p) {
            let i = choose|i: int| 0 <= i < after.len() && after[i] == p;
            if i < before.len() {
                assert(before[i] == p);
            }
        }
        if open[n - 1] == p {
            assert(b[n - 1] == p);
            if under(p, mount) {
                assert(after[before.len() as int] == p);
            }
        }
    }
}

} // verus!
