//! What the map shows of mounts and partitions.

use crate::discover::{Mount, MountModel};
use crate::path::{lossy_text, same_path, under, PathBuf};
use crate::scan::{ProgressModel, ScanProgress};
use crate::snapshot::{
    leaf_view, lemma_view_children, Kind, KindModel, MountView, MountViewModel, ScanModel,
    ScanStatus, ViewModel, ViewNode,
};
use crate::rescan::tree_model;
use crate::sort::{ordered, sort, views};
use crate::text::{contains_seq, contains_text, lower, text_eq, to_lower};
use crate::tree::{path_model, sat_sub, FileTree, TreeModel};
use crate::tree_view::{larger, larger_of};
use vstd::prelude::*;
use vstd::string::*;
use vstd::utf8::*;

verus! {

/// Whether the file systems of this type use no bytes that a walk cannot see,
/// so that a difference to the reported usage means nothing.
pub open spec fn gap_suppressed(fstype: Seq<char>) -> bool {
    let ft = lower(fstype);
    ||| ft == "ntfs"@
    ||| ft == "ntfs3"@
    ||| ft == "fuseblk"@
    ||| ft == "exfat"@
    ||| ft == "vfat"@
    ||| ft == "msdos"@
    ||| contains_seq(ft, "ntfs"@)
}

/// Whether a difference to the reported usage means nothing for this type.
pub fn suppress_df_gap(fstype: &str) -> (r: bool)
    ensures
        r == gap_suppressed(fstype@),
{
    let ft = to_lower(fstype);
    let ft = ft.as_str();
    text_eq(ft, "ntfs") || text_eq(ft, "ntfs3") || text_eq(ft, "fuseblk") || text_eq(ft, "exfat")
        || text_eq(ft, "vfat") || text_eq(ft, "msdos") || contains_text(ft, "ntfs")
}

/// The tile for bytes that are in use but not seen by the scan: what is still
/// to be scanned, or overhead once the scan is done. None if there are no more
/// than `min_size`, or if they mean nothing for this file system.
pub open spec fn usage_gap(
    path: Seq<char>,
    gap: u64,
    min_size: u64,
    scan_done: bool,
    fstype: Seq<char>,
) -> Option<ViewModel> {
    if gap <= min_size {
        None
    } else if !scan_done {
        Some(leaf_view(path, "scanning"@, gap, KindModel::Scanning))
    } else if gap_suppressed(fstype) {
        None
    } else {
        Some(leaf_view(path, "overhead"@, gap, KindModel::Overhead))
    }
}

/// The list with the item behind it, if there is one.
pub open spec fn with_item<A>(s: Seq<A>, item: Option<A>) -> Seq<A> {
    match item {
        Some(x) => s.push(x),
        None => s,
    }
}

/// The tile for free bytes, if there are any.
pub open spec fn free_tile(path: Seq<char>, available: u64) -> Option<ViewModel> {
    if available > 0 {
        Some(leaf_view(path, "free"@, available, KindModel::Free))
    } else {
        None
    }
}

/// Puts one more tile behind the others.
pub(crate) fn push_tile(children: &mut Vec<ViewNode>, tile: ViewNode)
    ensures
        views(final(children)@) == views(old(children)@).push(tile@),
{
    let ghost before = views(children@);
    let ghost model = tile@;
    children.push(tile);
    assert(views(children@) =~= before.push(model));
}

/// Adds the tile for bytes that are in use but not seen by the scan.
pub(crate) fn push_usage_gap(
    children: &mut Vec<ViewNode>,
    path: String,
    gap: u64,
    min_size: u64,
    scan_done: bool,
    fstype: &str,
)
    ensures
        views(final(children)@) == with_item(
            views(old(children)@),
            usage_gap(path@, gap, min_size, scan_done, fstype@),
        ),
{
    if gap <= min_size {
        return ;
    }
    if !scan_done {
        push_tile(children, ViewNode::leaf(path, "scanning".to_string(), gap, Kind::Scanning));
        return ;
    }
    if suppress_df_gap(fstype) {
        return ;
    }
    push_tile(children, ViewNode::leaf(path, "overhead".to_string(), gap, Kind::Overhead));
}

/// Adds the tile for free bytes.
pub(crate) fn push_free(children: &mut Vec<ViewNode>, path: String, available: u64)
    ensures
        views(final(children)@) == with_item(views(old(children)@), free_tile(path@, available)),
{
    if available > 0 {
        push_tile(children, ViewNode::leaf(path, "free".to_string(), available, Kind::Free));
    }
}

/// A text with another one behind it.
pub(crate) fn joined_text(a: &str, b: &str) -> (r: String)
    ensures
        r@ == a@ + b@,
{
    let mut out = a.to_string();
    out.append(b);
    out
}

// ---------------------------------------------------------------------------
// Focus
// ---------------------------------------------------------------------------

/// The paths that a list of texts stands for.
pub open spec fn text_paths(s: Seq<String>) -> Seq<Seq<u8>> {
    Seq::new(s.len(), |i: int| encode_utf8(s[i]@))
}

/// The last of the longest ones among the first `n` paths at or below `mount`.
pub open spec fn focus_of(mount: Seq<u8>, focus: Seq<Seq<u8>>, n: nat) -> Option<Seq<u8>>
    decreases n,
{
    if n == 0 {
        None
    } else {
        let best = focus_of(mount, focus, (n - 1) as nat);
        let p = focus[n - 1];
        if under(p, mount) && (best is None || best.unwrap().len() <= p.len()) {
            Some(p)
        } else {
            best
        }
    }
}

/// The first `n` paths without those that are not at or below `mount`.
pub open spec fn opened_in(mount: Seq<u8>, open: Seq<Seq<u8>>, n: nat) -> Seq<Seq<u8>>
    decreases n,
{
    if n == 0 {
        Seq::empty()
    } else {
        let before = opened_in(mount, open, (n - 1) as nat);
        if under(open[n - 1], mount) {
            before.push(open[n - 1])
        } else {
            before
        }
    }
}

/// The longest of the given paths at or below `mount`.
pub fn focus_for_mount(mount: &PathBuf, focus: &[String]) -> (r: Option<PathBuf>)
    ensures
        path_model(r) == focus_of(mount@, text_paths(focus@), focus@.len()),
{
    let ghost all = text_paths(focus@);
    let mut best: Option<PathBuf> = None;
    let mut i: usize = 0;
    while i < focus.len()
        invariant
            i <= focus.len(),
            all == text_paths(focus@),
            path_model(best) == focus_of(mount@, all, i as nat),
        decreases focus.len() - i,
    {
        let p = PathBuf::from(focus[i].as_str());
        assert(all[i as int] == p@);
        if p.starts_with(mount) {
            let longer = match &best {
                Some(b) => b.bytes.len() <= p.bytes.len(),
                None => true,
            };
            if longer {
                best = Some(p);
            }
        }
        i = i + 1;
    }
    best
}

/// The given paths at or below `mount`.
pub fn open_for_mount(mount: &PathBuf, open: &[String]) -> (r: Vec<PathBuf>)
    ensures
        views(r@) == opened_in(mount@, text_paths(open@), open@.len()),
{
    let ghost all = text_paths(open@);
    let mut out: Vec<PathBuf> = Vec::new();
    let mut i: usize = 0;
    assert(views(out@) =~= Seq::<Seq<u8>>::empty());
    while i < open.len()
        invariant
            i <= open.len(),
            all == text_paths(open@),
            views(out@) == opened_in(mount@, all, i as nat),
        decreases open.len() - i,
    {
        let p = PathBuf::from(open[i].as_str());
        assert(all[i as int] == p@);
        if p.starts_with(mount) {
            let ghost before = views(out@);
            let ghost model = p@;
            out.push(p);
            assert(views(out@) =~= before.push(model));
        }
        i = i + 1;
    }
    out
}

// ---------------------------------------------------------------------------
// One mount
// ---------------------------------------------------------------------------

/// The bytes of a mount that the scan has seen.
pub open spec fn seen_bytes(tree: Option<TreeModel>, scan: ProgressModel) -> u64 {
    match tree {
        Some(t) => larger(t.bytes, scan.bytes),
        None => scan.bytes,
    }
}

/// How far the scan of a mount has come.
pub open spec fn status_of(scan: ProgressModel, seen: u64) -> ScanModel {
    match scan.error {
        Some(e) => ScanModel::Error(e),
        None => if !scan.done {
            ScanModel::Scanning {
                files: scan.files,
                bytes: if scan.bytes > 0 {
                    scan.bytes
                } else {
                    seen
                },
            }
        } else {
            ScanModel::Live { files: scan.files, bytes: seen }
        },
    }
}

/// The tiles of a mount: those of its tree and, where the pool is shown and
/// the mount is not zoomed into, those of unseen and free bytes; the larger
/// ones first.
pub open spec fn mount_tiles(
    mount: MountModel,
    tree: Option<TreeModel>,
    scan: ProgressModel,
    min_size: u64,
    with_pool: bool,
    fstype: Seq<char>,
    focus: Option<Seq<u8>>,
    open: Seq<Seq<u8>>,
) -> Seq<ViewModel> {
    let inner = match tree {
        Some(t) => t.layer(focus, open, min_size).children,
        None => Seq::empty(),
    };
    let zoomed = focus is Some && !same_path(focus.unwrap(), mount.path);
    let name = lossy_text(mount.path);
    let all = if with_pool && !zoomed {
        with_item(
            with_item(
                inner,
                usage_gap(
                    name + "::gap"@,
                    sat_sub(mount.used, seen_bytes(tree, scan) as int),
                    min_size,
                    scan.done,
                    fstype,
                ),
            ),
            free_tile(name + "::free"@, mount.available),
        )
    } else {
        inner
    };
    ordered::<ViewNode>(all)
}

/// What is shown of a mount.
pub open spec fn shown_mount(
    mount: MountModel,
    tree: Option<TreeModel>,
    scan: ProgressModel,
    min_size: u64,
    with_pool: bool,
    fstype: Seq<char>,
    focus: Option<Seq<u8>>,
    open: Seq<Seq<u8>>,
) -> MountViewModel {
    let name = lossy_text(mount.path);
    MountViewModel {
        path: name,
        total: mount.total,
        used: mount.used,
        available: mount.available,
        scan: status_of(scan, seen_bytes(tree, scan)),
        tree: ViewModel {
            path: name,
            name,
            size: larger(mount.total, 1),
            kind: KindModel::Directory,
            children: mount_tiles(mount, tree, scan, min_size, with_pool, fstype, focus, open),
        },
    }
}

/// What is shown of a mount. Of the tree, nothing below `min_size` is shown
/// while there is enough else; `with_pool` adds unseen and free bytes.
pub fn mount_view(
    mount: &Mount,
    tree: Option<&FileTree>,
    scan: &ScanProgress,
    min_size: u64,
    with_pool: bool,
    fstype: &str,
    focus: Option<&PathBuf>,
    open: &[PathBuf],
) -> (r: MountView)
    requires
        tree matches Some(t) ==> t.model().wf(),
    ensures
        r@ == shown_mount(
            mount@,
            tree_model(tree),
            scan@,
            min_size,
            with_pool,
            fstype@,
            match focus {
                Some(p) => Some(p@),
                None => None,
            },
            views(open@),
        ),
{
    let zoomed = match focus {
        Some(p) => !p.same_as(&mount.path),
        None => false,
    };
    let mut children: Vec<ViewNode> = Vec::new();
    let mut seen: u64 = scan.bytes;
    assert(views(children@) =~= Seq::<ViewModel>::empty());
    if let Some(t) = tree {
        let view = t.view_layer(focus, open, min_size);
        proof {
            lemma_view_children(view);
        }
        children = view.children;
        seen = larger_of(t.bytes, scan.bytes);
    }
    let name = mount.path.to_string_lossy();
    if with_pool && !zoomed {
        push_usage_gap(
            &mut children,
            joined_text(name.as_str(), "::gap"),
            mount.used.saturating_sub(seen),
            min_size,
            scan.done,
            fstype,
        );
        push_free(&mut children, joined_text(name.as_str(), "::free"), mount.available);
    }
    sort(&mut children);
    let status = match &scan.error {
        Some(e) => ScanStatus::Error(e.clone()),
        None => if !scan.done {
            ScanStatus::Scanning {
                files: scan.files,
                bytes: if scan.bytes > 0 {
                    scan.bytes
                } else {
                    seen
                },
            }
        } else {
            ScanStatus::Live { files: scan.files, bytes: seen }
        },
    };
    let tree = ViewNode {
        path: name.clone(),
        name: name.clone(),
        size: larger_of(mount.total, 1),
        kind: Kind::Directory,
        children,
    };
    proof {
        lemma_view_children(tree);
    }
    MountView {
        path: name,
        total: mount.total,
        used: mount.used,
        available: mount.available,
        scan: status,
        tree,
    }
}

} // verus!
