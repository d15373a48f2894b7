//! What the window does with clicks and keys, said of the state before and
//! after.

use crate::feed::{feed_next, route_of, FeedAction, FeedEvent, FeedState};
use crate::path::{lossy_text, parent_path, under};
use crate::snapshot::{status_label, DiskViewModel, KindModel, ScanModel, SnapshotSource};
use crate::text::{begins_with, contains_seq, decimal, trimmed};
use crate::ui::{
    innermost, kind_text, last_gutter, last_hit, law_unzoomed, law_zoomed, no_place, outside_of,
    row_of, source_text, zoom_of, AppModel, CommandModel, HitModel, RowModel,
};
use vstd::prelude::*;
use vstd::utf8::*;

verus! {

/// Whether a tile stands for a folder: it is a directory, lies on a mount, and
/// its path is one.
pub open spec fn folder_tile(h: HitModel) -> bool {
    h.kind is Directory && h.mount.len() > 0 && !contains_seq(h.path, "::"@)
}

// ---------------------------------------------------------------------------
// The pointer
// ---------------------------------------------------------------------------

/// A click counts once: as a double click, with the shift key, as a plain one, or
/// on the gutter; and it hits what the pointer is on.
pub proof fn law_row(
    double: bool,
    single: bool,
    on_gutter: bool,
    shift: bool,
    hover: Option<HitModel>,
)
    ensures
        ({
            let r = row_of(double, single, on_gutter, shift, hover);
            &&& r.hover == hover
            &&& r.gutter_clicked <==> on_gutter && (double || single)
            &&& double && !on_gutter ==> r.double_clicked == hover && r.clicked is None
                && r.shift_clicked is None
            &&& !double && single && !on_gutter && shift ==> r.shift_clicked == hover && r.clicked
                is None && r.double_clicked is None
            &&& !double && single && !on_gutter && !shift ==> r.clicked == hover && r.shift_clicked
                is None && r.double_clicked is None
            &&& on_gutter || (!double && !single) ==> r.clicked is None && r.shift_clicked is None
                && r.double_clicked is None
        }),
{
}

/// A click opens a folder in place and asks for what is in it. It stays open with
/// those that are, is selected, and nothing else changes.
pub proof fn law_click_folder(m: AppModel, h: HitModel, p: Seq<char>)
    requires
        folder_tile(h),
    ensures
        ({
            let (r, asked) = m.tile_clicked(h, false);
            &&& r.open.contains(p) <==> m.open.contains(p) || p == h.path
            &&& r.selected == Some(h)
            &&& asked == seq![CommandModel::Expand(h.path)]
            &&& r == (AppModel { open: r.open, selected: r.selected, ..m })
        }),
{
    let r = m.tile_clicked(h, false).0;
    assert(!no_place(h.path));
    if !m.open.contains(h.path) {
        assert(r.open[m.open.len() as int] == h.path);
        if m.open.contains(p) {
            let i = choose|i: int| 0 <= i < m.open.len() && m.open[i] == p;
            assert(r.open[i] == p);
        }
        if r.open.contains(p) {
            let i = choose|i: int| 0 <= i < r.open.len() && r.open[i] == p;
            if i < m.open.len() {
                assert(m.open[i] == p);
            }
        }
    }
}

/// A folder that is to fill the window is zoomed into: its mount is, and no other
/// one. Its disk is expanded, it is selected, and what is in it is asked for.
pub proof fn law_fill_folder(m: AppModel, h: HitModel, other: Seq<char>)
    requires
        m.wf(),
        folder_tile(h),
    ensures
        ({
            let (r, asked) = m.tile_clicked(h, true);
            &&& zoom_of(r.zoom, h.mount) == Some(h.path)
            &&& other != h.mount ==> zoom_of(r.zoom, other) == zoom_of(m.zoom, other)
            &&& r.expanded_disk == Some(h.disk)
            &&& r.selected == Some(h)
            &&& r.open == m.open
            &&& r.hover == m.hover
            &&& r.status == m.status
            &&& r.scroll_focus
            &&& asked == seq![CommandModel::Expand(h.path)]
        }),
{
    assert(!no_place(h.path));
    law_zoomed(m.zoom, h.mount, h.path, other);
}

/// Any other tile but that of a nested mount is selected by a click. Nothing is
/// asked for and nothing else changes, but that its disk is expanded where it is
/// to fill the window.
pub proof fn law_click_other(m: AppModel, h: HitModel, fill: bool)
    requires
        !folder_tile(h),
        h.kind !is MountPoint,
    ensures
        ({
            let (r, asked) = m.tile_clicked(h, fill);
            &&& asked.len() == 0
            &&& r.selected == Some(h)
            &&& r.zoom == m.zoom
            &&& r.open == m.open
            &&& r.expanded_disk == if fill {
                Some(h.disk)
            } else {
                m.expanded_disk
            }
            &&& r.scroll_focus == (m.scroll_focus || fill)
            &&& r.hover == m.hover && r.status == m.status
        }),
{
}

/// A nested mount leads to the disk that it is of: that disk is expanded, the
/// mount is selected there, and neither it nor the one that it was found in is
/// zoomed into any more. Nothing is asked for.
pub proof fn law_click_mount(m: AppModel, h: HitModel, fill: bool, other: Seq<char>)
    requires
        m.wf(),
        h.kind is MountPoint,
    ensures
        ({
            let (r, asked) = m.tile_clicked(h, fill);
            let disk = h.kind->MountPoint_disk;
            let mount = h.kind->MountPoint_mount;
            &&& asked.len() == 0
            &&& r.expanded_disk == Some(disk)
            &&& r.scroll_focus
            &&& r.selected == Some(
                HitModel {
                    disk,
                    partition: h.kind->MountPoint_partition,
                    mount,
                    path: mount,
                    name: h.name,
                    size: h.size,
                    kind: h.kind,
                },
            )
            &&& zoom_of(r.zoom, mount) is None
            &&& zoom_of(r.zoom, h.mount) is None
            &&& other != mount && other != h.mount ==> zoom_of(r.zoom, other) == zoom_of(
                m.zoom,
                other,
            )
            &&& r.open == m.open && r.hover == m.hover && r.status == m.status
        }),
{
    let mount = h.kind->MountPoint_mount;
    let once = crate::ui::without_zoom(m.zoom, mount);
    law_unzoomed(m.zoom, mount, other);
    law_unzoomed(m.zoom, mount, h.mount);
    law_unzoomed(once, h.mount, other);
    law_unzoomed(once, h.mount, mount);
    law_unzoomed(m.zoom, mount, mount);
}

/// A click on the gutter of a disk expands the disk and selects it, by its model
/// or, where it has none, by its name.
pub proof fn law_gutter(m: AppModel, d: DiskViewModel)
    ensures
        ({
            let r = m.disk_expanded(d);
            &&& r.expanded_disk == Some(d.name)
            &&& r.scroll_focus
            &&& r.selected matches Some(s) && s.disk == d.name && s.size == d.size && s.path
                == d.name + "::disk"@ && s.kind is Other && s.mount.len() == 0 && s.partition.len()
                == 0 && s.name == if trimmed(d.model).len() > 0 {
                trimmed(d.model)
            } else {
                d.name
            }
            &&& r.zoom == m.zoom && r.open == m.open && r.hover == m.hover && r.status == m.status
        }),
{
}

// ---------------------------------------------------------------------------
// Rows
// ---------------------------------------------------------------------------

/// Of all rows the last one with a hit counts.
pub proof fn law_last_hit(
    rows: Seq<RowModel>,
    pick: spec_fn(RowModel) -> Option<HitModel>,
    n: nat,
)
    requires
        n <= rows.len(),
    ensures
        last_hit(rows, pick, n) is None <==> forall|i: int|
            0 <= i < n ==> pick(#[trigger] rows[i]) is None,
        forall|i: int|
            0 <= i < n && pick(#[trigger] rows[i]) is Some && (forall|j: int|
                i < j < n ==> pick(#[trigger] rows[j]) is None) ==> last_hit(rows, pick, n) == pick(
                rows[i],
            ),
    decreases n,
{
    if n > 0 {
        law_last_hit(rows, pick, (n - 1) as nat);
    }
}

/// Of all rows the last one with a click on its gutter counts.
pub proof fn law_last_gutter(rows: Seq<RowModel>, n: nat)
    requires
        n <= rows.len(),
    ensures
        last_gutter(rows, n) is None <==> forall|i: int|
            0 <= i < n ==> !(#[trigger] rows[i]).gutter_clicked,
        last_gutter(rows, n) matches Some(i) ==> 0 <= i < n && rows[i].gutter_clicked && forall|
            j: int,
        |
            i < j < n ==> !(#[trigger] rows[j]).gutter_clicked,
    decreases n,
{
    if n > 0 {
        law_last_gutter(rows, (n - 1) as nat);
    }
}

/// Whether nothing but this was clicked on the rows.
pub open spec fn only(
    rows: Seq<RowModel>,
    clicked: Option<HitModel>,
    shift: Option<HitModel>,
    double: Option<HitModel>,
    gutter: Option<int>,
) -> bool {
    &&& last_hit(rows, |r: RowModel| r.clicked, rows.len()) == clicked
    &&& last_hit(rows, |r: RowModel| r.shift_clicked, rows.len()) == shift
    &&& last_hit(rows, |r: RowModel| r.double_clicked, rows.len()) == double
    &&& last_gutter(rows, rows.len()) == gutter
}

/// The rows do to the state what was clicked on them: a plain click opens, one
/// with the shift key fills the window, and a double click fills it with a folder
/// and selects anything else; a click on a gutter expands the disk of its row.
/// The window scrolls to nothing afterwards.
pub proof fn law_rows(m: AppModel, disks: Seq<DiskViewModel>, rows: Seq<RowModel>, h: HitModel)
    ensures
        ({
            let (r, asked) = m.rows_taken(disks, rows);
            let on = AppModel {
                hover: last_hit(rows, |r: RowModel| r.hover, rows.len()),
                ..m
            };
            let still = |x: AppModel| AppModel { scroll_focus: false, ..x };
            &&& !r.scroll_focus
            &&& only(rows, None, None, None, None) ==> r == still(on) && asked.len() == 0
            &&& only(rows, Some(h), None, None, None) ==> r == still(on.tile_clicked(h, false).0)
                && asked == on.tile_clicked(h, false).1
            &&& only(rows, None, Some(h), None, None) ==> r == still(on.tile_clicked(h, true).0)
                && asked == on.tile_clicked(h, true).1
            &&& only(rows, None, None, Some(h), None) && folder_tile(h) ==> r == still(
                on.tile_clicked(h, true).0,
            ) && asked == on.tile_clicked(h, true).1
            &&& only(rows, None, None, Some(h), None) && !folder_tile(h) ==> r == still(
                on.tile_clicked(h, false).0,
            ) && asked == on.tile_clicked(h, false).1
            &&& forall|i: int|
                only(rows, None, None, None, Some(i)) ==> r == still(
                    on.disk_expanded(#[trigger] disks[i]),
                ) && asked.len() == 0
        }),
{
    let (r, asked) = m.rows_taken(disks, rows);
    let on = AppModel { hover: last_hit(rows, |r: RowModel| r.hover, rows.len()), ..m };
    let none = Seq::<CommandModel>::empty();
    assert(none + none + none =~= none);
    let a = on.tile_clicked(h, false).1;
    let b = on.tile_clicked(h, true).1;
    assert(a + none + none =~= a);
    assert(none + b + none =~= b);
    assert(none + none + a =~= a);
    assert(none + none + b =~= b);
}

// ---------------------------------------------------------------------------
// Zooming out
// ---------------------------------------------------------------------------

/// To zoom out keeps the disk and the partition that are selected, what is
/// opened, and the zoom of all other mounts; the selection stays on the mount.
pub proof fn law_zoom_out_keeps(m: AppModel, mount: Seq<char>, path: Seq<char>, other: Seq<char>)
    requires
        m.wf(),
    ensures
        m.zoomed_out(mount, path) matches Some(r) ==> {
            &&& r.open == m.open
            &&& r.expanded_disk == m.expanded_disk
            &&& r.hover == m.hover && r.status == m.status && r.scroll_focus == m.scroll_focus
            &&& other != mount ==> zoom_of(r.zoom, other) == zoom_of(m.zoom, other)
            &&& r.selected matches Some(s) && s.mount == mount && s.kind is Directory && (
            m.selected matches Some(old) ==> s.disk == old.disk && s.partition == old.partition
                && s.size == old.size)
        },
{
    law_unzoomed(m.zoom, mount, other);
    let q = parent_path(encode_utf8(m.zoom_start(mount, path)));
    if q is Some {
        law_zoomed(m.zoom, mount, lossy_text(q.unwrap()), other);
    }
}

/// A mount that is zoomed into a folder below it is zoomed out to the folder above
/// that one, or out of the zoom where that is the mount; one that is zoomed into
/// itself, or into no folder of its own, leaves the zoom.
pub proof fn law_zoom_out_from(m: AppModel, mount: Seq<char>, z: Seq<char>)
    requires
        m.wf(),
        mount.len() > 0,
        zoom_of(m.zoom, mount) == Some(z),
    ensures
        ({
            let out = m.zoomed_out(mount, z);
            let inside = z != mount && begins_with(z, mount);
            &&& !inside ==> (out matches Some(r) && zoom_of(r.zoom, mount) is None && (
            r.selected matches Some(s) && s.path == mount))
            &&& inside ==> match parent_path(encode_utf8(z)) {
                None => out is None,
                Some(q) => {
                    let up = lossy_text(q);
                    &&& up == mount || up.len() == 0 ==> (out matches Some(r) && zoom_of(
                        r.zoom,
                        mount,
                    ) is None && (r.selected matches Some(s) && s.path == z))
                    &&& up != mount && up.len() > 0 ==> (out matches Some(r) && zoom_of(
                        r.zoom,
                        mount,
                    ) == Some(up) && (r.selected matches Some(s) && s.path == up))
                },
            }
        }),
{
    law_unzoomed(m.zoom, mount, mount);
    let q = parent_path(encode_utf8(z));
    if q is Some {
        law_zoomed(m.zoom, mount, lossy_text(q.unwrap()), mount);
    }
}

/// The folder that a zoom out starts from is the one that the mount is zoomed
/// into, where the selection lies in it or around it, else the selection.
pub proof fn law_zoom_start(m: AppModel, mount: Seq<char>, path: Seq<char>)
    ensures
        zoom_of(m.zoom, mount) is None ==> m.zoom_start(mount, path) == path,
        zoom_of(m.zoom, mount) matches Some(z) ==> m.zoom_start(mount, path) == if begins_with(
            path,
            z,
        ) || begins_with(z, path) {
            z
        } else {
            path
        },
{
    if zoom_of(m.zoom, mount) == Some(path) {
        assert(path.subrange(0, path.len() as int) =~= path);
    }
}

proof fn lemma_innermost_longest(open: Seq<Seq<char>>, path: Seq<char>, n: nat, k: int)
    requires
        n <= open.len(),
    ensures
        innermost(open, path, n) matches Some(t) ==> open.contains(t) && under(
            encode_utf8(path),
            encode_utf8(t),
        ),
        0 <= k < n && under(encode_utf8(path), encode_utf8(open[k])) ==> (innermost(
            open,
            path,
            n,
        ) matches Some(t) && encode_utf8(t).len() >= encode_utf8(open[k]).len()),
    decreases n,
{
    if n > 0 {
        lemma_innermost_longest(open, path, (n - 1) as nat, k);
        assert(open.contains(open[n - 1]));
    }
}

proof fn lemma_outside_members(open: Seq<Seq<char>>, target: Seq<char>, n: nat, x: Seq<char>)
    requires
        n <= open.len(),
    ensures
        outside_of(open, target, n).contains(x) <==> open.take(n as int).contains(x) && !under(
            encode_utf8(x),
            encode_utf8(target),
        ),
    decreases n,
{
    if n > 0 {
        lemma_outside_members(open, target, (n - 1) as nat, x);
        let a = outside_of(open, target, (n - 1) as nat);
        let b = outside_of(open, target, n);
        let s = open.take(n - 1);
        let t = open.take(n as int);
        if a.contains(x) {
            let i = choose|i: int| 0 <= i < a.len() && a[i] == x;
            assert(b[i] == x);
        }
        if b.contains(x) {
            let i = choose|i: int| 0 <= i < b.len() && b[i] == x;
            if i < a.len() {
                assert(a[i] == x);
            } else {
                assert(t[n - 1] == x);
            }
        }
        if s.contains(x) {
            let i = choose|i: int| 0 <= i < s.len() && s[i] == x;
            assert(t[i] == x);
        }
        if t.contains(x) {
            let i = choose|i: int| 0 <= i < t.len() && t[i] == x;
            if i < s.len() {
                assert(s[i] == x);
            } else if !under(encode_utf8(x), encode_utf8(target)) {
                assert(b[a.len() as int] == x);
            }
        }
    }
}

/// To close closes the innermost opened folder around the selection with all that
/// are opened in it, and selects it. Where none is around it, nothing is closed.
pub proof fn law_collapse(m: AppModel, mount: Seq<char>, path: Seq<char>, k: int, p: Seq<char>)
    requires
        mount.len() > 0,
        !contains_seq(path, "::"@),
    ensures
        m.collapsed(mount, path) is None <==> forall|i: int|
            0 <= i < m.open.len() ==> !under(encode_utf8(path), encode_utf8(#[trigger] m.open[i])),
        m.collapsed(mount, path) matches Some(r) ==> {
            &&& r.selected matches Some(s)
            &&& m.open.contains(s.path)
            &&& under(encode_utf8(path), encode_utf8(s.path))
            &&& 0 <= k < m.open.len() && under(encode_utf8(path), encode_utf8(m.open[k]))
                ==> encode_utf8(s.path).len() >= encode_utf8(m.open[k]).len()
            &&& r.open.contains(p) <==> m.open.contains(p) && !under(
                encode_utf8(p),
                encode_utf8(s.path),
            )
            &&& s.mount == mount
            &&& r == (AppModel { open: r.open, selected: r.selected, ..m })
        },
{
    assert(!no_place(path));
    lemma_innermost_longest(m.open, path, m.open.len(), k);
    assert(m.open.take(m.open.len() as int) =~= m.open);
    match innermost(m.open, path, m.open.len()) {
        Some(t) => {
            lemma_outside_members(m.open, t, m.open.len(), p);
            if forall|i: int|
                0 <= i < m.open.len() ==> !under(
                    encode_utf8(path),
                    encode_utf8(#[trigger] m.open[i]),
                ) {
                let i = choose|i: int| 0 <= i < m.open.len() && m.open[i] == t;
                assert(!under(encode_utf8(path), encode_utf8(m.open[i])));
            }
        },
        None => {
            assert forall|i: int| 0 <= i < m.open.len() implies !under(
                encode_utf8(path),
                encode_utf8(#[trigger] m.open[i]),
            ) by {
                lemma_innermost_longest(m.open, path, m.open.len(), i);
            }
        },
    }
}

/// The escape key zooms the selection's mount out, if it is zoomed into; else it
/// closes a folder around the selection; else it lets go of the disk that is
/// expanded with the zoom and the selection; else of all that is opened too.
pub proof fn law_escape(m: AppModel)
    ensures
        ({
            let e = m.escaped();
            let let_go = m.selected is None || {
                let s = m.selected.unwrap();
                (zoom_of(m.zoom, s.mount) is None || m.zoomed_out(s.mount, s.path) is None)
                    && m.collapsed(s.mount, s.path) is None
            };
            &&& m.selected matches Some(s) ==> (zoom_of(m.zoom, s.mount) is Some && m.zoomed_out(
                s.mount,
                s.path,
            ) is Some ==> Some(e) == m.zoomed_out(s.mount, s.path))
            &&& m.selected matches Some(s) ==> ((zoom_of(m.zoom, s.mount) is None || m.zoomed_out(
                s.mount,
                s.path,
            ) is None) && m.collapsed(s.mount, s.path) is Some ==> Some(e) == m.collapsed(
                s.mount,
                s.path,
            ))
            &&& let_go ==> e.selected is None && e.zoom.len() == 0 && e.expanded_disk is None
            &&& let_go && m.expanded_disk is Some ==> e.open == m.open
            &&& let_go && m.expanded_disk is None ==> e.open.len() == 0
        }),
{
}

// ---------------------------------------------------------------------------
// Texts and the feed
// ---------------------------------------------------------------------------

/// Each kind of tile is named for what it is; a nested mount by its disk and its
/// partition.
pub proof fn law_kind_text(
    ext: Seq<char>,
    disk: Seq<char>,
    partition: Seq<char>,
    mount: Seq<char>,
    model: Seq<char>,
)
    ensures
        kind_text(KindModel::Directory) == "directory"@,
        kind_text(KindModel::File { ext }) == "file"@,
        kind_text(KindModel::Free) == "free space"@,
        kind_text(KindModel::Overhead) == "filesystem overhead"@,
        kind_text(KindModel::Scanning) == "scanning"@,
        kind_text(KindModel::Other) == "other"@,
        kind_text(KindModel::Unmounted) == "unmounted"@,
        kind_text(KindModel::Locked) == "locked"@,
        kind_text(KindModel::Swap) == "swap"@,
        kind_text(KindModel::MountPoint { disk, partition, mount, model }) == "mount → "@ + disk
            + " "@ + partition,
        source_text(SnapshotSource::Daemon) == "daemon"@,
        source_text(SnapshotSource::Local) == "local scan"@,
{
}

/// A scan is described by how many files it has counted and how large they are,
/// or by what went wrong.
pub proof fn law_status_label(files: u64, bytes: u64, e: Seq<char>, size: Seq<char>)
    ensures
        status_label(ScanModel::Pending, size) == "waiting"@,
        status_label(ScanModel::Live { files, bytes }, size) == decimal(files as nat)
            + " files · "@ + size,
        status_label(ScanModel::Scanning { files, bytes }, size) == "scanning "@ + decimal(
            files as nat,
        ) + " files · "@ + size,
        status_label(ScanModel::Error(e), size) == "error: "@ + e,
{
}

/// Commands are held while no one feeds the window, and else go to whoever does.
/// The window is fed again after 400 milliseconds, and a scanner that failed is
/// tried again after 2 seconds.
pub proof fn law_feed(event: FeedEvent)
    ensures
        route_of(FeedState::Seeking) is Hold,
        route_of(FeedState::Daemon) is ToDaemon,
        route_of(FeedState::Local) is ToScanner,
        feed_next(FeedState::Seeking, FeedEvent::ScannerFailed) == (
            FeedState::Seeking,
            FeedAction::WaitThenConnect { ms: 2000 },
        ),
        feed_next(FeedState::Daemon, FeedEvent::Shown) == (
            FeedState::Daemon,
            FeedAction::AskDaemon { after_ms: 400 },
        ),
        feed_next(FeedState::Local, FeedEvent::Shown) == (
            FeedState::Local,
            FeedAction::Probe { after_ms: 400 },
        ),
        feed_next(FeedState::Local, FeedEvent::DaemonDown) == (
            FeedState::Local,
            FeedAction::AskScanner,
        ),
        feed_next(FeedState::Daemon, event).0 is Seeking <==> event is SnapshotFailed,
        feed_next(FeedState::Local, event).0 is Seeking <==> event is DaemonUp,
        feed_next(FeedState::Seeking, event).0 is Daemon <==> event is Connected,
        feed_next(FeedState::Seeking, event).0 is Local <==> event is ScannerReady,
{
}

} // verus!
