//! What the map draws, said of what it is drawn from.

use crate::color::{
    archive_ext, audio_ext, binary_ext, database_ext, document_ext, ext_color, font_ext, image_ext,
    kind_color, package_ext, source_ext, video_ext,
};
use crate::map::{
    cut_text, disk_title, dotted, end_of, first_zoomed, found_in, found_node, idle_kind,
    inner_kids, law_spans_show_partitions, media_text, node_or_tree, partitions_in, placed_on_disk, span_weight, spans_of, spans_upto,
    split_of, tile_name, title_bits, zoomed_into, zoomed_place, SpanModel,
};
use crate::order::bytes_less;
use crate::snapshot::{
    DiskViewModel, KindModel, MountViewModel, PartitionView, PartitionViewModel, ViewModel,
};
use crate::sort::{law_ordered_ascending, ordered};
use crate::text::{finishes_with, lower, trimmed};
use crate::ui::zoom_of;
use crate::walk_laws::at_most_all;
use vstd::prelude::*;
use vstd::utf8::*;

verus! {

// ---------------------------------------------------------------------------
// Spans
// ---------------------------------------------------------------------------

/// A part of a disk is drawn with the weight of its bytes, and with one where it
/// has none.
pub proof fn law_span_weight(p: PartitionViewModel, size: u64)
    ensures
        p.size > 0 ==> span_weight(SpanModel::Partition(p)) == p.size,
        p.size == 0 ==> span_weight(SpanModel::Partition(p)) == 1,
        size > 0 ==> span_weight(SpanModel::Unallocated { size }) == size,
        size == 0 ==> span_weight(SpanModel::Unallocated { size }) == 1,
{
}

/// Whether `end` is where the first `n` partitions end at the latest.
pub open spec fn ends_at(parts: Seq<PartitionViewModel>, n: nat, end: u64) -> bool {
    &&& forall|j: int|
        0 <= j < n ==> end >= at_most_all((#[trigger] parts[j]).start + parts[j].size)
    &&& end == 0 || exists|j: int|
        0 <= j < n && end == at_most_all((#[trigger] parts[j]).start + parts[j].size)
}

proof fn lemma_end_of(parts: Seq<PartitionViewModel>, n: nat)
    requires
        n <= parts.len(),
    ensures
        ends_at(parts, n, end_of(parts, n)),
    decreases n,
{
    if n > 0 {
        lemma_end_of(parts, (n - 1) as nat);
        let before = end_of(parts, (n - 1) as nat);
        let now = end_of(parts, n);
        if now == before && before != 0 {
            let j = choose|j: int|
                0 <= j < n - 1 && before == at_most_all((#[trigger] parts[j]).start
                    + parts[j].size);
            assert(now == at_most_all(parts[j].start + parts[j].size));
        } else if now != 0 {
            assert(now == at_most_all(parts[n - 1].start + parts[n - 1].size));
        }
    }
}

proof fn lemma_spans_keep(parts: Seq<PartitionViewModel>, i: nat, n: nat, x: SpanModel)
    requires
        i <= n <= parts.len(),
        spans_upto(parts, i).contains(x),
    ensures
        spans_upto(parts, n).contains(x),
    decreases n,
{
    if i < n {
        lemma_spans_keep(parts, i, (n - 1) as nat, x);
        let a = spans_upto(parts, (n - 1) as nat);
        let b = spans_upto(parts, n);
        let k = choose|k: int| 0 <= k < a.len() && a[k] == x;
        assert(b[k] == x);
    }
}

/// The space before a partition that no earlier one reaches into is drawn, and so
/// is that behind the last one, where it is more than 512 KiB; and no other space
/// is, where the places of the partitions are known.
pub proof fn law_gaps(d: DiskViewModel, i: nat, size: u64)
    requires
        exists|k: int| 0 <= k < d.partitions.len() && (#[trigger] d.partitions[k]).start > 0,
    ensures
        ({
            let parts = ordered::<&PartitionView>(d.partitions);
            let spans = spans_of(d);
            &&& forall|j: int, k: int|
                0 <= j < k < parts.len() ==> (#[trigger] parts[j]).start <= (
                #[trigger] parts[k]).start
            &&& i < parts.len() && ends_at(parts, i, end_of(parts, i)) && parts[i as int].start
                > end_of(parts, i) + 524288 ==> spans.contains(
                SpanModel::Unallocated { size: (parts[i as int].start - end_of(parts, i)) as u64 },
            )
            &&& d.size > end_of(parts, parts.len()) + 524288 ==> spans.contains(
                SpanModel::Unallocated { size: (d.size - end_of(parts, parts.len())) as u64 },
            )
            &&& i <= parts.len() ==> ends_at(parts, i, end_of(parts, i))
            &&& spans.contains(SpanModel::Unallocated { size }) ==> size > 524288 && (size == d.size
                - end_of(parts, parts.len()) || exists|k: int|
                0 <= k < parts.len() && size == (#[trigger] parts[k]).start - end_of(
                    parts,
                    k as nat,
                ))
        }),
{
    assert(placed_on_disk(d.partitions));
    assert(512 * 1024 == 524288);
    let parts = ordered::<&PartitionView>(d.partitions);
    let n = parts.len();
    let spans = spans_of(d);
    law_ordered_ascending::<&PartitionView>(d.partitions);
    assert forall|j: int, k: int| 0 <= j < k < parts.len() implies (#[trigger] parts[j]).start <= (
    #[trigger] parts[k]).start by {
        assert(crate::sort::ascending::<&PartitionView>(parts));
    }
    if i <= n {
        lemma_end_of(parts, i);
    }
    let upto = spans_upto(parts, n);
    if i < n && parts[i as int].start > end_of(parts, i) + 524288 {
        let x = SpanModel::Unallocated { size: (parts[i as int].start - end_of(parts, i)) as u64 };
        let before = spans_upto(parts, i);
        let after = spans_upto(parts, i + 1);
        assert(after[before.len() as int] == x);
        lemma_spans_keep(parts, i + 1, n, x);
        let k = choose|k: int| 0 <= k < upto.len() && upto[k] == x;
        assert(spans[k] == x);
    }
    if d.size > end_of(parts, n) + 524288 {
        assert(spans[upto.len() as int] == SpanModel::Unallocated {
            size: (d.size - end_of(parts, n)) as u64,
        });
    }
    let x = SpanModel::Unallocated { size };
    if spans.contains(x) {
        let k = choose|k: int| 0 <= k < spans.len() && spans[k] == x;
        if k < upto.len() {
            assert(upto[k] == x);
            lemma_gap_origin(parts, n, size);
        }
    }
}

proof fn lemma_gap_origin(parts: Seq<PartitionViewModel>, n: nat, size: u64)
    requires
        n <= parts.len(),
        spans_upto(parts, n).contains(SpanModel::Unallocated { size }),
    ensures
        size > 524288,
        exists|k: int|
            0 <= k < n && size == (#[trigger] parts[k]).start - end_of(parts, k as nat),
    decreases n,
{
    assert(512 * 1024 == 524288);
    let x = SpanModel::Unallocated { size };
    let all = spans_upto(parts, n);
    let k = choose|k: int| 0 <= k < all.len() && all[k] == x;
    if n > 0 {
        let before = spans_upto(parts, (n - 1) as nat);
        if k < before.len() {
            assert(before[k] == x);
            assert(before.contains(x));
            lemma_gap_origin(parts, (n - 1) as nat, size);
            let j = choose|j: int|
                0 <= j < n - 1 && size == (#[trigger] parts[j]).start - end_of(parts, j as nat);
            assert(size == parts[j].start - end_of(parts, j as nat));
        } else {
            assert(size == parts[n - 1].start - end_of(parts, (n - 1) as nat));
        }
    }
}

/// A disk without partitions is drawn as one. Where the places of the partitions
/// are not known they are drawn as they are listed, and the space that is left
/// behind them where it is more than 8 MiB and more than half a percent.
pub proof fn law_spans_unplaced(d: DiskViewModel, i: int)
    requires
        forall|k: int| 0 <= k < d.partitions.len() ==> (#[trigger] d.partitions[k]).start == 0,
    ensures
        ({
            let spans = spans_of(d);
            let n = d.partitions.len();
            let spare = d.unallocated > 8388608 && d.unallocated > d.size / 200;
            &&& n == 0 ==> spans.len() == 1 && (spans[0] matches SpanModel::Unallocated { size }
                && (size == d.size || (d.size == 0 && size == 1)))
            &&& n > 0 && 0 <= i < n ==> spans[i] == SpanModel::Partition(d.partitions[i])
            &&& n > 0 ==> spans.len() == n + if spare {
                1int
            } else {
                0
            }
            &&& n > 0 && spare ==> spans.last() == (SpanModel::Unallocated { size: d.unallocated })
        }),
{
    assert(8 * 1024 * 1024 == 8388608);
    assert(!placed_on_disk(d.partitions));
}

/// The space of a mount is split into what is free, no more than all, and the
/// rest, which is drawn with one byte at least.
pub proof fn law_split(total: u64, available: u64)
    ensures
        ({
            let (used, free) = split_of(total, available);
            &&& available <= total ==> free == available
            &&& available > total ==> free == total
            &&& free < total ==> used + free == total
            &&& free == total ==> used == 1
        }),
{
}

// ---------------------------------------------------------------------------
// Zoom
// ---------------------------------------------------------------------------

/// A mount is drawn zoomed into the folder that it is zoomed into, unless that is
/// the mount itself.
pub proof fn law_zoomed_into(zoom: Seq<(Seq<char>, Seq<char>)>, mount: Seq<char>, p: Seq<char>)
    ensures
        zoomed_into(zoom, mount) == Some(p) <==> zoom_of(zoom, mount) == Some(p) && p != mount,
{
}

proof fn lemma_first_zoomed(mounts: Seq<MountViewModel>, zoom: Seq<(Seq<char>, Seq<char>)>, k: int)
    requires
        0 <= k,
    ensures
        first_zoomed(mounts, zoom, k) matches Some(i) ==> k <= i < mounts.len() && zoomed_into(
            zoom,
            mounts[i].path,
        ) is Some && forall|j: int|
            k <= j < i ==> zoomed_into(zoom, (#[trigger] mounts[j]).path) is None,
        first_zoomed(mounts, zoom, k) is None ==> forall|j: int|
            k <= j < mounts.len() ==> zoomed_into(zoom, (#[trigger] mounts[j]).path) is None,
    decreases mounts.len() - k,
{
    if k < mounts.len() {
        lemma_first_zoomed(mounts, zoom, k + 1);
    }
}

/// The row of a disk is filled by the first of its mounts that is zoomed into; by
/// none where none is.
pub proof fn law_zoomed_place(
    parts: Seq<PartitionViewModel>,
    zoom: Seq<(Seq<char>, Seq<char>)>,
    k: int,
)
    requires
        0 <= k,
    ensures
        zoomed_place(parts, zoom, k) matches Some((i, j)) ==> {
            &&& k <= i < parts.len()
            &&& 0 <= j < parts[i].mounts.len()
            &&& zoomed_into(zoom, parts[i].mounts[j].path) is Some
            &&& forall|b: int|
                0 <= b < j ==> zoomed_into(zoom, (#[trigger] parts[i].mounts[b]).path) is None
            &&& forall|a: int, b: int|
                k <= a < i && 0 <= b < parts[a].mounts.len() ==> zoomed_into(
                    zoom,
                    (#[trigger] parts[a].mounts[b]).path,
                ) is None
        },
        zoomed_place(parts, zoom, k) is None ==> forall|a: int, b: int|
            k <= a < parts.len() && 0 <= b < parts[a].mounts.len() ==> zoomed_into(
                zoom,
                (#[trigger] parts[a].mounts[b]).path,
            ) is None,
    decreases parts.len() - k,
{
    if k < parts.len() {
        lemma_first_zoomed(parts[k].mounts, zoom, 0);
        law_zoomed_place(parts, zoom, k + 1);
    }
}

/// Whether a tile is another one or stands in it.
pub open spec fn in_tile(n: ViewModel, x: ViewModel) -> bool
    decreases n, n.children.len() + 1,
{
    n == x || in_first(n, x, n.children.len())
}

/// Whether a tile stands in one of the first `k` tiles inside another one.
pub open spec fn in_first(n: ViewModel, x: ViewModel, k: nat) -> bool
    decreases n, k,
{
    if k == 0 || k > n.children.len() {
        false
    } else {
        in_first(n, x, (k - 1) as nat) || in_tile(n.children[k - 1], x)
    }
}

/// The tile that is found for a path stands in the tree and has that path; where
/// none is found no tile of the tree has it.
pub proof fn law_found_node(n: ViewModel, path: Seq<char>, x: ViewModel)
    ensures
        found_node(n, path) matches Some(f) ==> f.path == path && in_tile(n, f),
        found_node(n, path) is None && in_tile(n, x) ==> x.path != path,
        found_node(n, path) is None ==> node_or_tree(n, path) == n,
        found_node(n, path) matches Some(f) ==> node_or_tree(n, path) == f,
    decreases n, n.children.len() + 1,
{
    if n.path != path {
        lemma_found_in(n, path, x, n.children.len());
    }
}

proof fn lemma_found_in(n: ViewModel, path: Seq<char>, x: ViewModel, k: nat)
    ensures
        found_in(n, path, k) matches Some(f) ==> f.path == path && in_first(n, f, k),
        found_in(n, path, k) is None && in_first(n, x, k) ==> x.path != path,
    decreases n, k,
{
    if 0 < k <= n.children.len() {
        lemma_found_in(n, path, x, (k - 1) as nat);
        law_found_node(n.children[k - 1], path, x);
    }
}

/// What is drawn inside a tile is all that stands in it but free space, in order.
pub proof fn law_inner_kids(s: Seq<ViewModel>, n: nat, x: ViewModel)
    requires
        n <= s.len(),
    ensures
        inner_kids(s, n).contains(x) <==> s.take(n as int).contains(x) && x.kind !is Free,
        (forall|i: int| 0 <= i < n ==> (#[trigger] s[i]).kind !is Free) ==> inner_kids(s, n)
            == s.take(n as int),
    decreases n,
{
    if n > 0 {
        law_inner_kids(s, (n - 1) as nat, x);
        let a = inner_kids(s, (n - 1) as nat);
        let b = inner_kids(s, n);
        let p = s.take(n - 1);
        let q = s.take(n as int);
        assert(q =~= p.push(s[n - 1]));
        if a.contains(x) {
            let i = choose|i: int| 0 <= i < a.len() && a[i] == x;
            assert(b[i] == x);
        }
        if b.contains(x) {
            let i = choose|i: int| 0 <= i < b.len() && b[i] == x;
            if i < a.len() {
                assert(a[i] == x);
            }
        }
        if p.contains(x) {
            let i = choose|i: int| 0 <= i < p.len() && p[i] == x;
            assert(q[i] == x);
        }
        if q.contains(x) {
            let i = choose|i: int| 0 <= i < q.len() && q[i] == x;
            if i < p.len() {
                assert(p[i] == x);
            } else if x.kind !is Free {
                assert(b[a.len() as int] == x);
            }
        }
        if b.contains(x) && !a.contains(x) {
            assert(q[n - 1] == x);
        }
    } else {
        assert(s.take(0) =~= Seq::<ViewModel>::empty());
    }
}

// ---------------------------------------------------------------------------
// Partitions and texts
// ---------------------------------------------------------------------------

/// A partition without mounts is shown as locked where it is, as swap where that
/// is its type, however it is spelled, and else as unmounted.
pub proof fn law_idle_kind(p: PartitionViewModel)
    ensures
        p.locked ==> idle_kind(p) is Locked,
        !p.locked && lower(p.fstype) == "swap"@ ==> idle_kind(p) is Swap,
        !p.locked && lower(p.fstype) != "swap"@ ==> idle_kind(p) is Unmounted,
{
}

/// The title of a partition begins with its name; its label, its type and that it
/// is locked follow in this order, as far as there is anything to say.
pub proof fn law_title(p: PartitionViewModel)
    ensures
        ({
            let bits = title_bits(p);
            let labelled = p.label is Some && p.label.unwrap().len() > 0;
            let typed = p.fstype.len() > 0;
            &&& bits[0] == p.name
            &&& bits.len() == 1 + (if labelled {
                1int
            } else {
                0
            }) + (if typed {
                1int
            } else {
                0
            }) + (if p.locked {
                1int
            } else {
                0
            })
            &&& labelled ==> bits[1] == p.label.unwrap()
            &&& typed ==> bits[if labelled {
                2int
            } else {
                1
            }] == p.fstype
            &&& p.locked ==> bits.last() == "locked"@
        }),
{
}

/// Texts are joined by a dot between blanks.
pub proof fn law_dotted(bits: Seq<Seq<char>>, x: Seq<char>)
    requires
        bits.len() > 0,
    ensures
        dotted(seq![x]) == x,
        dotted(bits.push(x)) == dotted(bits) + " · "@ + x,
{
    assert(bits.push(x).drop_last() =~= bits);
}

/// A text that is cut has no more characters than it may have, the last of which
/// says that it was; one that has no more stays as it is.
pub proof fn law_cut_text(s: Seq<char>, max: nat)
    requires
        max > 0,
    ensures
        s.len() <= max ==> cut_text(s, max) == s,
        s.len() > max ==> cut_text(s, max).len() == max && cut_text(s, max).last() == '…'
            && cut_text(s, max).take(max - 1) == s.take(max - 1),
{
    reveal_strlit("…");
    if s.len() > max {
        assert(cut_text(s, max).take(max - 1) =~= s.take(max - 1));
    }
}

/// The name on a tile is the name, where that has no more than 28 bytes, and else
/// the first 27 characters of it and a sign that it was cut.
pub proof fn law_tile_name(name: Seq<char>)
    ensures
        encode_utf8(name).len() <= 28 ==> tile_name(name) == name,
        encode_utf8(name).len() > 28 && name.len() >= 27 ==> tile_name(name) == name.take(27)
            + "…"@,
        encode_utf8(name).len() > 28 && name.len() < 27 ==> tile_name(name) == name + "…"@,
{
    if name.len() < 27 {
        assert(name.take(name.len() as int) =~= name);
    }
}

/// A disk is named by its model, without white space around it, or by its device
/// where it has none.
pub proof fn law_disk_title(d: DiskViewModel)
    ensures
        trimmed(d.model).len() > 0 ==> disk_title(d) == trimmed(d.model),
        trimmed(d.model).len() == 0 ==> disk_title(d) == d.name,
{
}

/// A removable disk is a USB one, any other that rotates a hard disk, and one that
/// does not a solid state one; how it is attached stands before that.
pub proof fn law_media(transport: Seq<char>, rotational: bool)
    ensures
        media_text(None, true, rotational) == "USB"@,
        media_text(None, false, true) == "HDD"@,
        media_text(None, false, false) == "SSD"@,
        media_text(Some(transport), true, rotational) == transport + " · "@ + "USB"@,
        media_text(Some(transport), false, true) == transport + " · "@ + "HDD"@,
        media_text(Some(transport), false, false) == transport + " · "@ + "SSD"@,
{
}

// ---------------------------------------------------------------------------
// Colours
// ---------------------------------------------------------------------------

/// Each kind of tile has its colour; a file has that of its extension, in lower
/// case.
pub proof fn law_kind_colors(name: Seq<char>, ext: Seq<char>, kind: KindModel)
    ensures
        kind_color(KindModel::Free, name) == (36u8, 40u8, 48u8),
        kind_color(KindModel::Overhead, name) == (64u8, 56u8, 46u8),
        kind_color(KindModel::Scanning, name) == (86u8, 92u8, 58u8),
        kind_color(KindModel::Other, name) == (92u8, 96u8, 108u8),
        kind_color(KindModel::Unmounted, name) == (48u8, 52u8, 62u8),
        kind_color(KindModel::Locked, name) == (72u8, 42u8, 48u8),
        kind_color(KindModel::Swap, name) == (58u8, 64u8, 52u8),
        kind_color(KindModel::Directory, name) == (62u8, 88u8, 122u8),
        kind is MountPoint ==> kind_color(kind, name) == (48u8, 148u8, 168u8),
        kind_color(KindModel::File { ext }, name) == ext_color(lower(ext), lower(name)),
{
}

/// These are the extensions of each sort of file.
pub proof fn law_sorts_of_files(e: Seq<char>)
    ensures
        image_ext(e) <==> e == "jpg"@ || e == "jpeg"@ || e == "png"@ || e == "gif"@
            || e == "webp"@ || e == "svg"@ || e == "bmp"@ || e == "tif"@ || e == "tiff"@
            || e == "heic"@ || e == "raw"@ || e == "cr2"@ || e == "nef"@ || e == "ico"@
            || e == "avif"@,
        video_ext(e) <==> e == "mp4"@ || e == "mkv"@ || e == "avi"@ || e == "mov"@ || e == "webm"@
            || e == "m4v"@ || e == "wmv"@ || e == "flv"@ || e == "mpeg"@ || e == "mpg"@
            || e == "m2ts"@ || e == "mts"@ || e == "vob"@,
        audio_ext(e) <==> e == "mp3"@ || e == "flac"@ || e == "wav"@ || e == "ogg"@ || e == "aac"@
            || e == "m4a"@ || e == "wma"@ || e == "aiff"@ || e == "opus"@,
        archive_ext(e) <==> e == "zip"@ || e == "tar"@ || e == "gz"@ || e == "tgz"@ || e == "bz2"@
            || e == "xz"@ || e == "7z"@ || e == "rar"@ || e == "zst"@ || e == "lz4"@
            || e == "iso"@ || e == "img"@ || e == "dmg"@,
        document_ext(e) <==> e == "pdf"@ || e == "doc"@ || e == "docx"@ || e == "odt"@
            || e == "rtf"@ || e == "txt"@ || e == "md"@ || e == "epub"@ || e == "xls"@
            || e == "xlsx"@ || e == "ods"@ || e == "ppt"@ || e == "pptx"@ || e == "csv"@,
        source_ext(e) <==> e == "rs"@ || e == "c"@ || e == "h"@ || e == "cc"@ || e == "cpp"@
            || e == "hpp"@ || e == "js"@ || e == "ts"@ || e == "jsx"@ || e == "tsx"@ || e == "py"@
            || e == "go"@ || e == "java"@ || e == "kt"@ || e == "swift"@ || e == "rb"@
            || e == "php"@ || e == "sh"@ || e == "bash"@ || e == "zsh"@ || e == "lua"@
            || e == "toml"@ || e == "yaml"@ || e == "yml"@ || e == "json"@ || e == "xml"@
            || e == "html"@ || e == "css"@ || e == "scss"@ || e == "vue"@ || e == "svelte"@,
        font_ext(e) <==> e == "ttf"@ || e == "otf"@ || e == "woff"@ || e == "woff2"@,
        binary_ext(e) <==> e == "exe"@ || e == "dll"@ || e == "so"@ || e == "o"@ || e == "a"@
            || e == "dylib"@ || e == "wasm"@ || e == "bin"@ || e == "elf"@,
        database_ext(e) <==> e == "db"@ || e == "sqlite"@ || e == "sqlite3"@ || e == "sql"@
            || e == "mdb"@,
        package_ext(e) <==> e == "pacman"@ || e == "pkg.tar.zst"@,
{
}

/// The extensions of each sort of file have one colour, which no other sort has;
/// where an extension is of two sorts, the first of them counts. Packages are
/// known by their name too.
pub proof fn law_ext_colors(e: Seq<char>, name: Seq<char>)
    ensures
        ({
            let c = ext_color(e, name);
            let media = image_ext(e) || video_ext(e) || audio_ext(e);
            let papers = media || archive_ext(e) || document_ext(e);
            let known = papers || source_ext(e) || font_ext(e) || binary_ext(e) || database_ext(e);
            let package = package_ext(e) || finishes_with(name, ".pkg.tar.zst"@) || finishes_with(
                name,
                ".pkg.tar.xz"@,
            );
            &&& c == (176u8, 86u8, 168u8) <==> image_ext(e)
            &&& c == (196u8, 64u8, 72u8) <==> !image_ext(e) && video_ext(e)
            &&& c == (196u8, 168u8, 52u8) <==> !image_ext(e) && !video_ext(e) && audio_ext(e)
            &&& c == (204u8, 116u8, 48u8) <==> !media && archive_ext(e)
            &&& c == (72u8, 128u8, 196u8) <==> !media && !archive_ext(e) && document_ext(e)
            &&& c == (64u8, 160u8, 112u8) <==> !papers && source_ext(e)
            &&& c == (128u8, 112u8, 176u8) <==> !papers && !source_ext(e) && font_ext(e)
            &&& c == (140u8, 148u8, 156u8) <==> !papers && !source_ext(e) && !font_ext(e)
                && binary_ext(e)
            &&& c == (88u8, 140u8, 148u8) <==> !papers && !source_ext(e) && !font_ext(e)
                && !binary_ext(e) && database_ext(e)
            &&& c == (96u8, 148u8, 176u8) <==> !known && package
            &&& c == (158u8, 162u8, 174u8) <==> !known && !package
        }),
{
}

/// Where places on the disk are known, partitions are drawn from its start to its
/// end; where two stand at one place, the one whose name comes later in the order
/// of bytes is no earlier.
pub proof fn law_spans_in_order(d: DiskViewModel)
    ensures
        ({
            let s = partitions_in(spans_of(d));
            (exists|i: int| 0 <= i < d.partitions.len() && (#[trigger] d.partitions[i]).start > 0)
                ==> forall|i: int, j: int|
                0 <= i < j < s.len() ==> (#[trigger] s[i]).start <= (#[trigger] s[j]).start && (
                s[i].start == s[j].start ==> !bytes_less(
                    encode_utf8(s[j].name),
                    encode_utf8(s[i].name),
                ))
        }),
{
    law_spans_show_partitions(d);
    if placed_on_disk(d.partitions) {
        let s = ordered::<&PartitionView>(d.partitions);
        law_ordered_ascending::<&PartitionView>(d.partitions);
        assert forall|i: int, j: int| 0 <= i < j < s.len() implies (#[trigger] s[i]).start <= (
        #[trigger] s[j]).start && (s[i].start == s[j].start ==> !bytes_less(
            encode_utf8(s[j].name),
            encode_utf8(s[i].name),
        )) by {
            assert(<&PartitionView as crate::sort::Ranked>::before(s[i], s[j]));
        }
    }
}

} // verus!
