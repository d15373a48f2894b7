//! What is drawn on the row of a disk, and with which texts.

use crate::order::{bytes_before, bytes_less, lemma_bytes_order, lemma_bytes_transitive};
use crate::snapshot::{
    DiskView, DiskViewModel, Kind, KindModel, MountView, MountViewModel, PartitionView,
    PartitionViewModel, ViewModel, ViewNode,
};
use crate::snapshot::lemma_view_children;
use crate::sort::{law_ordered_ascending, ordered, sort, views, Ranked};
use crate::text::{chars_of, lower, string_of, text_eq, to_lower, trim, trimmed};
use crate::tree::{sat_add, sat_sub};
use crate::tree_view::{larger, larger_of};
use crate::ui::{zoom_of, Hit, HitModel, ZoomMap};
use vstd::prelude::*;
use vstd::string::*;
use vstd::utf8::*;

verus! {

/// Gaps between partitions are drawn above this size.
pub const GAP_FLOOR: u64 = 512 * 1024;

/// Space without partitions is drawn above this size where the partitions have
/// no place on the disk.
pub const SPARE_FLOOR: u64 = 8 * 1024 * 1024;

/// What `str::to_uppercase` makes of a text.
pub uninterp spec fn upper_text(s: Seq<char>) -> Seq<char>;

/// `str::to_uppercase`: the text in upper case, by the rules of Unicode, which
/// are left to the name.
#[verifier::external_body]
fn to_upper(s: &str) -> (r: String)
    ensures
        r@ == upper_text(s@),
{
    s.to_uppercase()
}

// ---------------------------------------------------------------------------
// Spans
// ---------------------------------------------------------------------------

/// A part of a disk.
pub enum DiskSpan<'a> {
    Partition(&'a PartitionView),
    Unallocated { size: u64 },
}

/// The value of a [`DiskSpan`].
#[verifier::ext_equal]
pub enum SpanModel {
    Partition(PartitionViewModel),
    Unallocated { size: u64 },
}

impl<'a> View for DiskSpan<'a> {
    type V = SpanModel;

    open spec fn view(&self) -> SpanModel {
        match self {
            DiskSpan::Partition(p) => SpanModel::Partition(p@),
            DiskSpan::Unallocated { size } => SpanModel::Unallocated { size: *size },
        }
    }
}

/// The weight with which a part of a disk is drawn.
pub open spec fn span_weight(s: SpanModel) -> u64 {
    match s {
        SpanModel::Partition(p) => larger(p.size, 1),
        SpanModel::Unallocated { size } => larger(size, 1),
    }
}

impl<'a> DiskSpan<'a> {
    /// The weight with which it is drawn: its capacity, and no less than one.
    pub fn size(&self) -> (r: u64)
        ensures
            r == span_weight(self@),
    {
        match self {
            DiskSpan::Partition(p) => larger_of(p.size, 1),
            DiskSpan::Unallocated { size } => larger_of(*size, 1),
        }
    }
}

/// Partitions are ranked by where they start, then by the bytes of their name.
impl<'a> Ranked for &'a PartitionView {
    open spec fn before(a: PartitionViewModel, b: PartitionViewModel) -> bool {
        a.start < b.start || (a.start == b.start && !bytes_less(
            encode_utf8(b.name),
            encode_utf8(a.name),
        ))
    }

    proof fn before_total(a: PartitionViewModel, b: PartitionViewModel) {
        lemma_bytes_order(encode_utf8(a.name), encode_utf8(b.name));
    }

    proof fn before_transitive(
        a: PartitionViewModel,
        b: PartitionViewModel,
        c: PartitionViewModel,
    ) {
        let (x, y, z) = (encode_utf8(a.name), encode_utf8(b.name), encode_utf8(c.name));
        lemma_bytes_order(x, y);
        lemma_bytes_order(y, z);
        lemma_bytes_order(x, z);
        if bytes_less(x, y) && bytes_less(y, z) {
            lemma_bytes_transitive(x, y, z);
        }
    }

    fn is_before(&self, other: &Self) -> (r: bool) {
        self.start < other.start || (self.start == other.start && !bytes_before(
            other.name.as_str().as_bytes(),
            self.name.as_str().as_bytes(),
        ))
    }
}

/// Where the first `n` partitions end at the latest.
pub open spec fn end_of(parts: Seq<PartitionViewModel>, n: nat) -> u64
    decreases n,
{
    if n == 0 {
        0
    } else {
        larger(end_of(parts, (n - 1) as nat), sat_add(parts[n - 1].start, parts[n - 1].size))
    }
}

/// The spans with a gap behind them, if it is large enough.
pub open spec fn with_gap(spans: Seq<SpanModel>, from: u64, to: u64) -> Seq<SpanModel> {
    if to > from && to - from > GAP_FLOOR {
        spans.push(SpanModel::Unallocated { size: (to - from) as u64 })
    } else {
        spans
    }
}

/// The first `n` partitions, each with the gap before it.
pub open spec fn spans_upto(parts: Seq<PartitionViewModel>, n: nat) -> Seq<SpanModel>
    decreases n,
{
    if n == 0 {
        Seq::empty()
    } else {
        let p = parts[n - 1];
        with_gap(
            spans_upto(parts, (n - 1) as nat),
            end_of(parts, (n - 1) as nat),
            p.start,
        ).push(SpanModel::Partition(p))
    }
}

/// Whether the places of the partitions are known.
pub open spec fn placed_on_disk(parts: Seq<PartitionViewModel>) -> bool {
    exists|i: int| 0 <= i < parts.len() && (#[trigger] parts[i]).start > 0
}

/// The parts of a disk in the order of the disk: partitions, and the gaps
/// between them that are large enough.
pub open spec fn spans_of(d: DiskViewModel) -> Seq<SpanModel> {
    if d.partitions.len() == 0 {
        seq![SpanModel::Unallocated { size: larger(d.size, 1) }]
    } else if !placed_on_disk(d.partitions) {
        let spans = Seq::new(d.partitions.len(), |i: int| SpanModel::Partition(d.partitions[i]));
        if d.unallocated > d.size / 200 && d.unallocated > SPARE_FLOOR {
            spans.push(SpanModel::Unallocated { size: d.unallocated })
        } else {
            spans
        }
    } else {
        let parts = ordered::<&PartitionView>(d.partitions);
        with_gap(spans_upto(parts, parts.len()), end_of(parts, parts.len()), d.size)
    }
}

/// Puts a span behind the others.
fn push_span<'a>(spans: &mut Vec<DiskSpan<'a>>, span: DiskSpan<'a>)
    ensures
        views(final(spans)@) == views(old(spans)@).push(span@),
{
    let ghost before = views(spans@);
    let ghost model = span@;
    spans.push(span);
    assert(views(spans@) =~= before.push(model));
}

/// Puts a gap behind the others, if it is large enough.
fn push_gap<'a>(spans: &mut Vec<DiskSpan<'a>>, from: u64, to: u64)
    ensures
        views(final(spans)@) == with_gap(views(old(spans)@), from, to),
{
    if to > from {
        let gap: u64 = to - from;
        if gap > GAP_FLOOR {
            push_span(spans, DiskSpan::Unallocated { size: gap });
        }
    }
}

/// The parts of a disk in the order of the disk.
pub fn disk_spans<'a>(disk: &'a DiskView) -> (r: Vec<DiskSpan<'a>>)
    ensures
        views(r@) == spans_of(disk@),
{
    let ghost all = disk@.partitions;
    let mut spans: Vec<DiskSpan<'a>> = Vec::new();
    assert(views(spans@) =~= Seq::<SpanModel>::empty());
    if disk.partitions.len() == 0 {
        push_span(&mut spans, DiskSpan::Unallocated { size: larger_of(disk.size, 1) });
        assert(views(spans@) =~= spans_of(disk@));
        return spans;
    }
    let mut placed = false;
    let mut parts: Vec<&'a PartitionView> = Vec::new();
    let mut i: usize = 0;
    assert(views(parts@) =~= all.take(0));
    while i < disk.partitions.len()
        invariant
            i <= disk.partitions.len(),
            all == views(disk.partitions@),
            views(parts@) == all.take(i as int),
            placed == exists|j: int| 0 <= j < i && (#[trigger] all[j]).start > 0,
        decreases disk.partitions.len() - i,
    {
        let p: &'a PartitionView = &disk.partitions[i];
        assert(all[i as int] == p@);
        if p.start > 0 {
            placed = true;
        }
        let ghost before = views(parts@);
        parts.push(p);
        assert(views(parts@) =~= before.push(p@));
        assert(all.take(i + 1) =~= all.take(i as int).push(all[i as int]));
        i = i + 1;
    }
    assert(all.take(all.len() as int) =~= all);
    if !placed {
        let ghost target = Seq::new(all.len(), |i: int| SpanModel::Partition(all[i]));
        let mut k: usize = 0;
        assert(views(spans@) =~= target.take(0));
        while k < parts.len()
            invariant
                k <= parts.len(),
                all == views(parts@),
                target == Seq::new(all.len(), |i: int| SpanModel::Partition(all[i])),
                views(spans@) == target.take(k as int),
            decreases parts.len() - k,
        {
            assert(all[k as int] == parts@[k as int]@);
            push_span(&mut spans, DiskSpan::Partition(parts[k]));
            assert(target.take(k + 1) =~= target.take(k as int).push(target[k as int]));
            k = k + 1;
        }
        assert(target.take(target.len() as int) =~= target);
        if disk.unallocated > disk.size / 200 && disk.unallocated > SPARE_FLOOR {
            push_span(&mut spans, DiskSpan::Unallocated { size: disk.unallocated });
        }
        return spans;
    }
    sort(&mut parts);
    let ghost sorted = views(parts@);
    let mut cursor: u64 = 0;
    let mut k: usize = 0;
    while k < parts.len()
        invariant
            k <= parts.len(),
            sorted == views(parts@),
            views(spans@) == spans_upto(sorted, k as nat),
            cursor == end_of(sorted, k as nat),
        decreases parts.len() - k,
    {
        let p: &'a PartitionView = parts[k];
        assert(sorted[k as int] == p@);
        push_gap(&mut spans, cursor, p.start);
        push_span(&mut spans, DiskSpan::Partition(p));
        cursor = larger_of(cursor, p.start.saturating_add(p.size));
        k = k + 1;
    }
    push_gap(&mut spans, cursor, disk.size);
    spans
}

// ---------------------------------------------------------------------------
// Zoom
// ---------------------------------------------------------------------------

/// The folder that a mount is zoomed into, if it is not the mount itself.
pub open spec fn zoomed_into(
    zoom: Seq<(Seq<char>, Seq<char>)>,
    mount: Seq<char>,
) -> Option<Seq<char>> {
    match zoom_of(zoom, mount) {
        Some(path) => if path != mount {
            Some(path)
        } else {
            None
        },
        None => None,
    }
}

/// The first mount from `k` on that is zoomed into.
pub open spec fn first_zoomed(
    mounts: Seq<MountViewModel>,
    zoom: Seq<(Seq<char>, Seq<char>)>,
    k: int,
) -> Option<int>
    decreases mounts.len() - k,
{
    if k >= mounts.len() {
        None
    } else if zoomed_into(zoom, mounts[k].path) is Some {
        Some(k)
    } else {
        first_zoomed(mounts, zoom, k + 1)
    }
}

/// The first partition from `k` on with a mount that is zoomed into, and the
/// mount.
pub open spec fn zoomed_place(
    parts: Seq<PartitionViewModel>,
    zoom: Seq<(Seq<char>, Seq<char>)>,
    k: int,
) -> Option<(int, int)>
    decreases parts.len() - k,
{
    if k >= parts.len() {
        None
    } else {
        match first_zoomed(parts[k].mounts, zoom, 0) {
            Some(j) => Some((k, j)),
            None => zoomed_place(parts, zoom, k + 1),
        }
    }
}

/// The folder that a mount is zoomed into, if it is not the mount itself.
pub fn zoom_target<'a>(zoom: &'a ZoomMap, mount: &str) -> (r: Option<&'a String>)
    ensures
        match r {
            Some(p) => zoomed_into(zoom@, mount@) == Some(p@),
            None => zoomed_into(zoom@, mount@) is None,
        },
{
    match zoom.get(mount) {
        Some(p) => if text_eq(p.as_str(), mount) {
            None
        } else {
            Some(p)
        },
        None => None,
    }
}

/// The first mount of a disk that is zoomed into, with its partition and the
/// folder. It is drawn over the whole row.
pub fn zoomed_mount<'a>(disk: &'a DiskView, zoom: &'a ZoomMap) -> (r: Option<
    (&'a PartitionView, &'a MountView, &'a String),
>)
    ensures
        match r {
            Some((p, m, path)) => zoomed_place(disk@.partitions, zoom@, 0) matches Some((i, j))
                && p@ == disk@.partitions[i] && m@ == p@.mounts[j] && zoomed_into(
                zoom@,
                m@.path,
            ) == Some(path@),
            None => zoomed_place(disk@.partitions, zoom@, 0) is None,
        },
{
    let ghost parts = disk@.partitions;
    let mut i: usize = 0;
    while i < disk.partitions.len()
        invariant
            i <= disk.partitions.len(),
            parts == disk@.partitions,
            zoomed_place(parts, zoom@, 0) == zoomed_place(parts, zoom@, i as int),
        decreases disk.partitions.len() - i,
    {
        let p = &disk.partitions[i];
        assert(parts[i as int] == p@);
        let ghost mounts = p@.mounts;
        let mut j: usize = 0;
        while j < p.mounts.len()
            invariant
                i < disk.partitions.len(),
                j <= p.mounts.len(),
                parts == disk@.partitions,
                parts[i as int] == p@,
                mounts == p@.mounts,
                zoomed_place(parts, zoom@, 0) == zoomed_place(parts, zoom@, i as int),
                first_zoomed(mounts, zoom@, 0) == first_zoomed(mounts, zoom@, j as int),
            decreases p.mounts.len() - j,
        {
            let m = &p.mounts[j];
            assert(mounts[j as int] == m@);
            if let Some(path) = zoom_target(zoom, m.path.as_str()) {
                return Some((p, m, path));
            }
            j = j + 1;
        }
        i = i + 1;
    }
    None
}

/// The first tile with this path, a tile before those inside it.
pub open spec fn found_node(n: ViewModel, path: Seq<char>) -> Option<ViewModel>
    decreases n, n.children.len() + 1,
{
    if n.path == path {
        Some(n)
    } else {
        found_in(n, path, n.children.len())
    }
}

/// The first tile with this path among the first `k` tiles inside `n`, and
/// those inside them.
pub open spec fn found_in(n: ViewModel, path: Seq<char>, k: nat) -> Option<ViewModel>
    decreases n, k,
{
    if k == 0 || k > n.children.len() {
        None
    } else {
        match found_in(n, path, (k - 1) as nat) {
            Some(m) => Some(m),
            None => found_node(n.children[k - 1], path),
        }
    }
}

proof fn lemma_found_early(n: ViewModel, path: Seq<char>, j: nat, k: nat)
    requires
        j <= k <= n.children.len(),
        found_in(n, path, j) is Some,
    ensures
        found_in(n, path, k) == found_in(n, path, j),
    decreases k,
{
    if j < k {
        lemma_found_early(n, path, j, (k - 1) as nat);
    }
}

/// The first tile with this path.
pub fn find_node<'a>(node: &'a ViewNode, path: &str) -> (r: Option<&'a ViewNode>)
    ensures
        match r {
            Some(n) => found_node(node@, path@) == Some(n@),
            None => found_node(node@, path@) is None,
        },
    decreases node,
{
    let ghost m = node@;
    proof {
        lemma_view_children(*node);
    }
    if text_eq(node.path.as_str(), path) {
        return Some(node);
    }
    let mut i: usize = 0;
    while i < node.children.len()
        invariant
            i <= node.children.len(),
            m == node@,
            m.path != path@,
            m.children == views(node.children@),
            found_in(m, path@, i as nat) is None,
        decreases node.children.len() - i,
    {
        assert(m.children[i as int] == node.children@[i as int]@);
        if let Some(n) = find_node(&node.children[i], path) {
            proof {
                assert(found_in(m, path@, (i + 1) as nat) == Some(n@));
                lemma_found_early(m, path@, (i + 1) as nat, m.children.len());
            }
            return Some(n);
        }
        i = i + 1;
    }
    None
}

/// The tile with this path, or the whole tree if there is none.
pub open spec fn node_or_tree(tree: ViewModel, path: Seq<char>) -> ViewModel {
    match found_node(tree, path) {
        Some(n) => n,
        None => tree,
    }
}

/// What is drawn over the row of a disk.
pub enum DiskPlan<'a> {
    /// One folder of one mount.
    Zoomed { part: &'a PartitionView, mount: &'a MountView, node: &'a ViewNode },
    /// The parts of the disk side by side.
    Spans(Vec<DiskSpan<'a>>),
}

/// What is drawn over the row of a disk: the folder that one of its mounts is
/// zoomed into, else its parts.
pub fn disk_plan<'a>(disk: &'a DiskView, zoom: &'a ZoomMap) -> (r: DiskPlan<'a>)
    ensures
        match r {
            DiskPlan::Zoomed { part, mount, node } => zoomed_place(disk@.partitions, zoom@, 0)
                matches Some((i, j)) && part@ == disk@.partitions[i] && mount@ == part@.mounts[j]
                && node@ == node_or_tree(
                mount@.tree,
                zoomed_into(zoom@, mount@.path).unwrap(),
            ),
            DiskPlan::Spans(spans) => zoomed_place(disk@.partitions, zoom@, 0) is None && views(
                spans@,
            ) == spans_of(disk@),
        },
{
    match zoomed_mount(disk, zoom) {
        Some((part, mount, path)) => {
            let node = match find_node(&mount.tree, path.as_str()) {
                Some(n) => n,
                None => &mount.tree,
            };
            DiskPlan::Zoomed { part, mount, node }
        },
        None => DiskPlan::Spans(disk_spans(disk)),
    }
}

/// How a mount is drawn in the box of its partition.
pub struct MountPlan<'a> {
    /// Its share of the box.
    pub weight: u64,
    /// The folder that is drawn.
    pub node: &'a ViewNode,
    /// The used and the free bytes, where the free space has a tile of its own.
    pub split: Option<(u64, u64)>,
}

/// How a mount is drawn in the box of its partition. Free space has a tile of
/// its own unless there is none or the mount is zoomed into.
pub fn mount_plan<'a>(mount: &'a MountView, zoom: &ZoomMap) -> (r: MountPlan<'a>)
    ensures
        r.weight == larger(mount@.total, 1),
        r.node@ == match zoom_of(zoom@, mount@.path) {
            Some(path) => node_or_tree(mount@.tree, path),
            None => mount@.tree,
        },
        r.split == if zoomed_into(zoom@, mount@.path) is Some || mount@.available == 0 {
            None
        } else {
            Some(split_of(mount@.total, mount@.available))
        },
{
    let zoomed = zoom_target(zoom, mount.path.as_str()).is_some();
    let node = match zoom.get(mount.path.as_str()) {
        Some(path) => match find_node(&mount.tree, path.as_str()) {
            Some(n) => n,
            None => &mount.tree,
        },
        None => &mount.tree,
    };
    let split = if zoomed || mount.available == 0 {
        None
    } else {
        Some(split_mount(mount.total, mount.available))
    };
    MountPlan { weight: larger_of(mount.total, 1), node, split }
}

// ---------------------------------------------------------------------------
// Tiles
// ---------------------------------------------------------------------------

/// The first `n` tiles without those of free space.
pub open spec fn inner_kids(s: Seq<ViewModel>, n: nat) -> Seq<ViewModel>
    decreases n,
{
    if n == 0 {
        Seq::empty()
    } else {
        let before = inner_kids(s, (n - 1) as nat);
        if s[n - 1].kind is Free {
            before
        } else {
            before.push(s[n - 1])
        }
    }
}

/// The tiles that are drawn inside a tile, where it fills its place or is
/// opened; empty if it is drawn as one.
pub fn shown_kids<'a>(node: &'a ViewNode, fill: bool, open: &Vec<String>) -> (r: Vec<&'a ViewNode>)
    ensures
        views(r@) == if fill || views(open@).contains(node@.path) {
            inner_kids(node@.children, node@.children.len())
        } else {
            Seq::empty()
        },
{
    proof {
        lemma_view_children(*node);
    }
    let mut kids: Vec<&'a ViewNode> = Vec::new();
    assert(views(kids@) =~= Seq::<ViewModel>::empty());
    if !fill && !list_has(open, node.path.as_str()) {
        return kids;
    }
    let ghost all = node@.children;
    let mut i: usize = 0;
    while i < node.children.len()
        invariant
            i <= node.children.len(),
            all == views(node.children@),
            views(kids@) == inner_kids(all, i as nat),
        decreases node.children.len() - i,
    {
        let c: &'a ViewNode = &node.children[i];
        assert(all[i as int] == c@);
        let free = match c.kind {
            Kind::Free => true,
            _ => false,
        };
        if !free {
            let ghost before = views(kids@);
            kids.push(c);
            assert(views(kids@) =~= before.push(c@));
        }
        i = i + 1;
    }
    kids
}

/// Whether a text stands in the list.
fn list_has(s: &Vec<String>, x: &str) -> (r: bool)
    ensures
        r == views(s@).contains(x@),
{
    let ghost all = views(s@);
    let mut i: usize = 0;
    while i < s.len()
        invariant
            i <= s.len(),
            all == views(s@),
            forall|j: int| 0 <= j < i ==> #[trigger] all[j] != x@,
        decreases s.len() - i,
    {
        assert(all[i as int] == s@[i as int]@);
        if text_eq(s[i].as_str(), x) {
            return true;
        }
        i = i + 1;
    }
    false
}

/// The hit of a tile of a tree.
pub fn node_hit(disk: &str, part: &str, mount: &str, node: &ViewNode) -> (r: Hit)
    ensures
        r@ == (HitModel {
            disk: disk@,
            partition: part@,
            mount: mount@,
            path: node@.path,
            name: node@.name,
            size: node@.size,
            kind: node@.kind,
        }),
{
    Hit {
        disk: disk.to_string(),
        partition: part.to_string(),
        mount: mount.to_string(),
        path: node.path.clone(),
        name: node.name.clone(),
        size: node.size,
        kind: node.kind.clone(),
    }
}

/// The hit of space without partitions.
pub fn unallocated_hit(disk: &str, size: u64) -> (r: Hit)
    ensures
        r@ == (HitModel {
            disk: disk@,
            partition: "unallocated"@,
            mount: Seq::empty(),
            path: disk@ + "::unallocated"@,
            name: "unallocated"@,
            size,
            kind: KindModel::Unmounted,
        }),
{
    let mut path = disk.to_string();
    path.append("::unallocated");
    Hit {
        disk: disk.to_string(),
        partition: "unallocated".to_string(),
        mount: String::new(),
        path,
        name: "unallocated".to_string(),
        size,
        kind: Kind::Unmounted,
    }
}

/// How the space of a mount is split: the used bytes, no less than one, and
/// the free bytes.
pub open spec fn split_of(total: u64, available: u64) -> (u64, u64) {
    let free = if available <= total {
        available
    } else {
        total
    };
    (larger(sat_sub(total, free as int), 1), free)
}

/// How the space of a mount is split into used and free bytes.
pub fn split_mount(total: u64, available: u64) -> (r: (u64, u64))
    ensures
        r == split_of(total, available),
{
    let free: u64 = if available <= total {
        available
    } else {
        total
    };
    (larger_of(total.saturating_sub(free), 1), free)
}

/// The hit of the free space of a mount.
pub fn free_hit(disk: &str, part: &str, mount: &str, free: u64) -> (r: Hit)
    ensures
        r@ == (HitModel {
            disk: disk@,
            partition: part@,
            mount: mount@,
            path: mount@ + "::free"@,
            name: "free"@,
            size: free,
            kind: KindModel::Free,
        }),
{
    let mut path = mount.to_string();
    path.append("::free");
    Hit {
        disk: disk.to_string(),
        partition: part.to_string(),
        mount: mount.to_string(),
        path,
        name: "free".to_string(),
        size: free,
        kind: Kind::Free,
    }
}

/// The kind of a partition without mounts.
pub open spec fn idle_kind(p: PartitionViewModel) -> KindModel {
    if p.locked {
        KindModel::Locked
    } else if lower(p.fstype) == "swap"@ {
        KindModel::Swap
    } else {
        KindModel::Unmounted
    }
}

/// The texts with ` · ` between them.
pub open spec fn dotted(bits: Seq<Seq<char>>) -> Seq<char>
    decreases bits.len(),
{
    if bits.len() == 0 {
        Seq::empty()
    } else if bits.len() == 1 {
        bits[0]
    } else {
        dotted(bits.drop_last()) + " · "@ + bits.last()
    }
}

/// What the title of a partition is made of: its name, its label, its file
/// system, and whether it is locked.
pub open spec fn title_bits(p: PartitionViewModel) -> Seq<Seq<char>> {
    let a = seq![p.name];
    let b = match p.label {
        Some(l) => if l.len() > 0 {
            a.push(l)
        } else {
            a
        },
        None => a,
    };
    let c = if p.fstype.len() > 0 {
        b.push(p.fstype)
    } else {
        b
    };
    if p.locked {
        c.push("locked"@)
    } else {
        c
    }
}

/// Puts a text behind a title.
fn add_bit(title: &mut String, bit: &str, bits: Ghost<Seq<Seq<char>>>)
    requires
        bits@.len() > 0,
        old(title)@ == dotted(bits@),
    ensures
        final(title)@ == dotted(bits@.push(bit@)),
{
    title.append(" · ");
    title.append(bit);
    assert(bits@.push(bit@).drop_last() =~= bits@);
}

/// The title of a partition.
pub fn partition_title(part: &PartitionView) -> (r: String)
    ensures
        r@ == dotted(title_bits(part@)),
{
    let mut title = part.name.clone();
    let ghost mut bits = seq![part.name@];
    if let Some(l) = &part.label {
        if l.as_str().unicode_len() > 0 {
            add_bit(&mut title, l.as_str(), Ghost(bits));
            proof {
                bits = bits.push(l@);
            }
        }
    }
    if part.fstype.as_str().unicode_len() > 0 {
        add_bit(&mut title, part.fstype.as_str(), Ghost(bits));
        proof {
            bits = bits.push(part.fstype@);
        }
    }
    if part.locked {
        add_bit(&mut title, "locked", Ghost(bits));
    }
    title
}

/// The hit of a partition without mounts.
pub fn partition_hit(disk: &str, part: &PartitionView) -> (r: Hit)
    ensures
        r@ == (HitModel {
            disk: disk@,
            partition: part@.name,
            mount: Seq::empty(),
            path: part@.name,
            name: dotted(title_bits(part@)),
            size: part@.size,
            kind: idle_kind(part@),
        }),
{
    let ft = to_lower(part.fstype.as_str());
    let kind = if part.locked {
        Kind::Locked
    } else if text_eq(ft.as_str(), "swap") {
        Kind::Swap
    } else {
        Kind::Unmounted
    };
    Hit {
        disk: disk.to_string(),
        partition: part.name.clone(),
        mount: String::new(),
        path: part.name.clone(),
        name: partition_title(part),
        size: part.size,
        kind,
    }
}

/// Whether a tile is hatched: free space is, and nothing else.
pub fn is_hatched(kind: &Kind) -> (r: bool)
    ensures
        r == (kind@ is Free),
{
    match kind {
        Kind::Free => true,
        _ => false,
    }
}

// ---------------------------------------------------------------------------
// Texts
// ---------------------------------------------------------------------------

/// The text, cut to at most `max` characters with a sign that it was cut.
pub open spec fn cut_text(s: Seq<char>, max: nat) -> Seq<char> {
    if s.len() <= max {
        s
    } else {
        s.take(
            if max > 0 {
                max - 1
            } else {
                0
            },
        ) + "…"@
    }
}

/// The text, cut to at most `max` characters with a sign that it was cut.
pub fn truncate(s: &str, max: usize) -> (r: String)
    ensures
        r@ == cut_text(s@, max as nat),
{
    let cs = chars_of(s);
    if cs.len() <= max {
        return s.to_string();
    }
    let keep: usize = if max > 0 {
        max - 1
    } else {
        0
    };
    let mut out = string_of(&cs, 0, keep);
    assert(cs@.subrange(0, keep as int) =~= cs@.take(keep as int));
    out.append("…");
    out
}

/// The name on a tile: one of more than 28 bytes is cut to 27 characters.
pub open spec fn tile_name(name: Seq<char>) -> Seq<char> {
    if encode_utf8(name).len() > 28 {
        name.take(
            if name.len() < 27 {
                name.len() as int
            } else {
                27
            },
        ) + "…"@
    } else {
        name
    }
}

/// The text on a tile: its name, and below it its size where there is room.
pub fn tile_text(name: &str, size_text: &str, roomy: bool) -> (r: String)
    ensures
        r@ == if roomy {
            tile_name(name@) + "\n"@ + size_text@
        } else {
            tile_name(name@)
        },
{
    let mut out = name.to_string();
    if name.as_bytes().len() > 28 {
        let cs = chars_of(name);
        let keep: usize = if cs.len() < 27 {
            cs.len()
        } else {
            27
        };
        out = string_of(&cs, 0, keep);
        assert(cs@.subrange(0, keep as int) =~= cs@.take(keep as int));
        out.append("…");
    }
    if roomy {
        out.append("\n");
        out.append(size_text);
    }
    out
}

/// Whether the text on a tile of this colour is dark.
pub fn dark_text(color: (u8, u8, u8)) -> (r: bool)
    ensures
        r == (color.0 + color.1 + color.2 > 340),
{
    color.0 as u16 + color.1 as u16 + color.2 as u16 > 340
}

/// The name under which a disk is shown: its model, or its device.
pub open spec fn disk_title(d: DiskViewModel) -> Seq<char> {
    if trimmed(d.model).len() == 0 {
        d.name
    } else {
        trimmed(d.model)
    }
}

/// The name under which a disk is shown, cut to fit the gutter.
pub fn gutter_title(disk: &DiskView) -> (r: String)
    ensures
        r@ == cut_text(disk_title(disk@), 22),
{
    let model = trim(disk.model.as_str());
    if model.as_str().unicode_len() == 0 {
        truncate(disk.name.as_str(), 22)
    } else {
        truncate(model.as_str(), 22)
    }
}

/// The sort of a disk: how it is attached, if that is known, and what it is.
pub open spec fn media_text(
    transport: Option<Seq<char>>,
    removable: bool,
    rotational: bool,
) -> Seq<char> {
    let kind = if removable {
        "USB"@
    } else if rotational {
        "HDD"@
    } else {
        "SSD"@
    };
    match transport {
        Some(t) => t + " · "@ + kind,
        None => kind,
    }
}

/// The sort of a disk: how it is attached, if that is known, and what it is.
pub fn media_line(transport: Option<String>, removable: bool, rotational: bool) -> (r: String)
    ensures
        r@ == media_text(crate::snapshot::text_of(transport), removable, rotational),
{
    let kind = if removable {
        "USB"
    } else if rotational {
        "HDD"
    } else {
        "SSD"
    };
    match transport {
        Some(t) => {
            let mut out = t;
            out.append(" · ");
            out.append(kind);
            out
        },
        None => kind.to_string(),
    }
}

/// The sort of a disk, as the gutter shows it: the way it is attached is in
/// upper case.
pub fn gutter_media(disk: &DiskView) -> (r: String)
    ensures
        r@ == media_text(
            if disk@.transport.len() == 0 {
                None
            } else {
                Some(upper_text(disk@.transport))
            },
            disk@.removable,
            disk@.rotational,
        ),
{
    let transport = if disk.transport.as_str().unicode_len() == 0 {
        None
    } else {
        Some(to_upper(disk.transport.as_str()))
    };
    media_line(transport, disk.removable, disk.rotational)
}

/// The partitions among some spans.
pub open spec fn partitions_in(spans: Seq<SpanModel>) -> Seq<PartitionViewModel>
    decreases spans.len(),
{
    if spans.len() == 0 {
        Seq::empty()
    } else {
        match spans.last() {
            SpanModel::Partition(p) => partitions_in(spans.drop_last()).push(p),
            SpanModel::Unallocated { size } => partitions_in(spans.drop_last()),
        }
    }
}

proof fn lemma_partitions_push(spans: Seq<SpanModel>, x: SpanModel)
    ensures
        partitions_in(spans.push(x)) == match x {
            SpanModel::Partition(p) => partitions_in(spans).push(p),
            SpanModel::Unallocated { size } => partitions_in(spans),
        },
{
    assert(spans.push(x).drop_last() =~= spans);
}

proof fn lemma_spans_upto(parts: Seq<PartitionViewModel>, n: nat)
    requires
        n <= parts.len(),
    ensures
        partitions_in(spans_upto(parts, n)) == parts.take(n as int),
    decreases n,
{
    if n > 0 {
        lemma_spans_upto(parts, (n - 1) as nat);
        let before = spans_upto(parts, (n - 1) as nat);
        let p = parts[n - 1];
        let gapped = with_gap(before, end_of(parts, (n - 1) as nat), p.start);
        if gapped != before {
            lemma_partitions_push(before, gapped.last());
            assert(gapped =~= before.push(gapped.last()));
        }
        lemma_partitions_push(gapped, SpanModel::Partition(p));
        assert(parts.take(n as int) =~= parts.take(n - 1).push(p));
    } else {
        assert(parts.take(0) =~= Seq::<PartitionViewModel>::empty());
    }
}

proof fn lemma_all_partitions(parts: Seq<PartitionViewModel>, n: nat)
    requires
        n <= parts.len(),
    ensures
        partitions_in(Seq::new(n, |i: int| SpanModel::Partition(parts[i]))) == parts.take(
            n as int,
        ),
    decreases n,
{
    let spans = Seq::new(n, |i: int| SpanModel::Partition(parts[i]));
    if n > 0 {
        lemma_all_partitions(parts, (n - 1) as nat);
        let before = Seq::new((n - 1) as nat, |i: int| SpanModel::Partition(parts[i]));
        assert(spans =~= before.push(SpanModel::Partition(parts[n - 1])));
        lemma_partitions_push(before, SpanModel::Partition(parts[n - 1]));
        assert(parts.take(n as int) =~= parts.take(n - 1).push(parts[n - 1]));
    } else {
        assert(parts.take(0) =~= Seq::<PartitionViewModel>::empty());
    }
}

/// A disk shows each of its partitions once, in the order of the disk where
/// their places are known, and it shows at least one span.
pub proof fn law_spans_show_partitions(d: DiskViewModel)
    ensures
        partitions_in(spans_of(d)) == if placed_on_disk(d.partitions) {
            ordered::<&PartitionView>(d.partitions)
        } else {
            d.partitions
        },
        spans_of(d).len() > 0,
{
    let parts = d.partitions;
    if parts.len() == 0 {
        let one = SpanModel::Unallocated { size: larger(d.size, 1) };
        lemma_partitions_push(Seq::empty(), one);
        assert(Seq::empty().push(one) =~= spans_of(d));
        assert(parts =~= Seq::<PartitionViewModel>::empty());
    } else if !placed_on_disk(parts) {
        lemma_all_partitions(parts, parts.len());
        assert(parts.take(parts.len() as int) =~= parts);
        let spans = Seq::new(parts.len(), |i: int| SpanModel::Partition(parts[i]));
        lemma_partitions_push(spans, SpanModel::Unallocated { size: d.unallocated });
    } else {
        let sorted = ordered::<&PartitionView>(parts);
        law_ordered_ascending::<&PartitionView>(parts);
        lemma_spans_upto(sorted, sorted.len());
        assert(sorted.take(sorted.len() as int) =~= sorted);
        let before = spans_upto(sorted, sorted.len());
        let all = spans_of(d);
        if all != before {
            lemma_partitions_push(before, all.last());
            assert(all =~= before.push(all.last()));
        }
        if all.len() == 0 {
            assert(partitions_in(all).len() == 0);
        }
    }
}

} // verus!
