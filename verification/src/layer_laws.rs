//! What a view of a tree shows, said of the tree alone.

use crate::path::{comps, lossy_text, under};
use crate::snapshot::{KindModel, ViewModel};
use crate::sort::{law_ordered_ascending, law_ordered_same_values};
use crate::text::{trimmed, white_space};
use crate::text_laws::{law_trimmed, white_around};
use crate::tree::{NodeId, StoredModel, TreeModel};
use crate::tree_view::{child_floor, leads_through, lemma_ordered_member, with_rest, Kid, Tally};
use vstd::prelude::*;

verus! {

/// Whether a node is shown whatever its size: it is a nested mount, or the path
/// of an opened folder leads to it or through it.
pub open spec fn stands_out(m: TreeModel, c: NodeId, open: Seq<Seq<u8>>) -> bool {
    m.nodes[c as int].kind is MountPoint || exists|k: int|
        0 <= k < open.len() && under(#[trigger] open[k], m.path_of(c as int))
}

/// Whether a tile stands for a node: it has its path; that of a file has its
/// name, size and extension, that of a directory its name and no less than its
/// size, that of a nested mount says where it leads, by the name of the volume.
pub open spec fn stands_for(m: TreeModel, c: NodeId, v: ViewModel) -> bool {
    let n = m.nodes[c as int];
    &&& v.path == lossy_text(m.path_of(c as int))
    &&& match n.kind {
        StoredModel::Dir => v.kind is Directory && v.name == n.name && v.size >= n.size,
        StoredModel::File { ext } => v.kind == (KindModel::File { ext }) && v.name == n.name
            && v.size == n.size && v.children.len() == 0,
        StoredModel::MountPoint { disk, partition, mount, model, volume_used } => v.kind == (
        KindModel::MountPoint { disk, partition, mount, model }) && (v.name == "→ "@ + model
            || v.name == "→ "@ + disk) && v.children.len() == 0,
    }
}

/// The sum of the sizes of the first `n` of some nodes, without the nested
/// mounts.
pub open spec fn own_bytes(m: TreeModel, ids: Seq<NodeId>, n: nat) -> int
    decreases n,
{
    if n == 0 {
        0
    } else {
        own_bytes(m, ids, (n - 1) as nat) + if m.nodes[ids[n - 1] as int].kind is MountPoint {
            0
        } else {
            m.nodes[ids[n - 1] as int].size as int
        }
    }
}

/// Whether these are the children of `id` that are shown, in this order: living
/// ones, none twice, those that stand out first and each kind by size. One that
/// is left out does not stand out, is no larger than any that is shown and does
/// not, and is left out for being the 81st or for being small and the 9th.
pub open spec fn chosen(
    m: TreeModel,
    id: int,
    ids: Seq<NodeId>,
    min_size: u64,
    open: Seq<Seq<u8>>,
) -> bool {
    let kids = m.nodes[id].children;
    &&& ids.no_duplicates()
    &&& forall|j: int|
        0 <= j < ids.len() ==> kids.contains(#[trigger] ids[j]) && m.nodes[ids[j] as int].alive
    &&& forall|j: int, k: int|
        0 <= j <= k < ids.len() ==> (stands_out(m, #[trigger] ids[j], open) || !stands_out(
            m,
            #[trigger] ids[k],
            open,
        )) && (stands_out(m, ids[j], open) == stands_out(m, ids[k], open)
            ==> m.nodes[ids[j] as int].size >= m.nodes[ids[k] as int].size)
    &&& forall|j: int|
        0 <= j < ids.len() && !stands_out(m, #[trigger] ids[j], open) ==> j < 80 && (j < 8
            || m.nodes[ids[j] as int].size >= min_size)
    &&& forall|c: NodeId| #[trigger]
        kids.contains(c) && m.nodes[c as int].alive && !ids.contains(c) ==> {
            &&& !stands_out(m, c, open)
            &&& ids.len() >= 80 || (ids.len() >= 8 && m.nodes[c as int].size < min_size)
            &&& forall|j: int|
                0 <= j < ids.len() && !stands_out(m, #[trigger] ids[j], open)
                    ==> m.nodes[ids[j] as int].size >= m.nodes[c as int].size
        }
}

/// Whether `floor` is the least size of what is shown inside a child: the
/// largest of a hundredth of the child, a quarter of what holds for the children
/// themselves, and 16 KiB.
pub open spec fn floor_inside(floor: u64, size: u64, min_size: u64) -> bool {
    &&& floor >= size / 100 && floor >= min_size / 4 && floor >= 16384
    &&& floor == size / 100 || floor == min_size / 4 || floor == 16384
}

/// Whether the tiles inside a tile stand for these children of `id`, each as it
/// is viewed one level further down, with one more for the bytes of `id` that
/// none of them stands for, where these are more than 64 KiB and more than half
/// of `min_size`.
pub open spec fn tiles_of(
    m: TreeModel,
    id: int,
    ids: Seq<NodeId>,
    tiles: Seq<ViewModel>,
    min_size: u64,
    depth: nat,
    max_depth: nat,
    open: Seq<Seq<u8>>,
) -> bool {
    let rest = m.nodes[id].size - own_bytes(m, ids, ids.len());
    let more = rest > 65536 && rest > min_size / 2;
    &&& tiles.len() == ids.len() + if more {
        1int
    } else {
        0
    }
    &&& forall|j: int|
        0 <= j < ids.len() ==> stands_for(m, #[trigger] ids[j], #[trigger] tiles[j])
    &&& forall|j: int|
        0 <= j < ids.len() ==> viewed_inside(
            m,
            #[trigger] ids[j],
            #[trigger] tiles[j],
            min_size,
            depth,
            max_depth,
            open,
        )
    &&& more ==> tiles.last().kind is Other && tiles.last().name == "other"@ && tiles.last().size
        == rest
}

/// Whether a tile is the view of a node from one level above it.
pub open spec fn viewed_inside(
    m: TreeModel,
    c: NodeId,
    v: ViewModel,
    min_size: u64,
    depth: nat,
    max_depth: nat,
    open: Seq<Seq<u8>>,
) -> bool {
    exists|floor: u64|
        floor_inside(floor, m.nodes[c as int].size, min_size) && v == #[trigger] m.view_of(
            c as int,
            floor,
            depth + 1,
            max_depth,
            open,
        )
}

// ---------------------------------------------------------------------------
// The children in order
// ---------------------------------------------------------------------------

proof fn lemma_living(m: TreeModel, id: int, open: Seq<Seq<u8>>, k: nat)
    requires
        m.wf(),
        0 <= id < m.nodes.len(),
        k <= m.nodes[id].children.len(),
    ensures
        ({
            let s = m.living_kids(id, open, k);
            &&& s.no_duplicates()
            &&& forall|i: int|
                0 <= i < s.len() ==> m.nodes[id].children.take(k as int).contains(
                    (#[trigger] s[i]).id,
                ) && id < s[i].id < m.nodes.len() && m.nodes[s[i].id as int].alive && s[i].size
                    == m.nodes[s[i].id as int].size && s[i].portal == (m.nodes[s[i].id as int].kind
                    is MountPoint) && s[i].marked() == stands_out(m, s[i].id, open)
            &&& forall|q: int|
                0 <= q < k && m.nodes[(#[trigger] m.nodes[id].children[q]) as int].alive ==> exists|
                    i: int,
                |
                    0 <= i < s.len() && (#[trigger] s[i]).id == m.nodes[id].children[q]
        }),
    decreases k,
{
    if k > 0 {
        let s = m.living_kids(id, open, k);
        let before = m.living_kids(id, open, (k - 1) as nat);
        let kids = m.nodes[id].children;
        let c = kids[k - 1];
        lemma_living(m, id, open, (k - 1) as nat);
        assert(id < c < m.nodes.len());
        assert forall|i: int| 0 <= i < s.len() implies kids.take(k as int).contains(
            (#[trigger] s[i]).id,
        ) && id < s[i].id < m.nodes.len() && m.nodes[s[i].id as int].alive && s[i].size
            == m.nodes[s[i].id as int].size && s[i].portal == (m.nodes[s[i].id as int].kind
            is MountPoint) && s[i].marked() == stands_out(m, s[i].id, open) by {
            if i < before.len() {
                let t = kids.take(k - 1);
                let x = before[i].id;
                let q = choose|q: int| 0 <= q < t.len() && t[q] == x;
                assert(kids.take(k as int)[q] == x);
            } else {
                assert(kids.take(k as int)[k - 1] == c);
            }
        }
        if m.nodes[c as int].alive {
            assert forall|i: int| 0 <= i < before.len() implies before[i] != s.last() by {
                let t = kids.take(k - 1);
                let q = choose|q: int| 0 <= q < t.len() && t[q] == before[i].id;
                assert(kids[q] == before[i].id);
            }
        }
        assert forall|q: int|
            0 <= q < k && m.nodes[(#[trigger] kids[q]) as int].alive implies exists|i: int|
            0 <= i < s.len() && (#[trigger] s[i]).id == kids[q] by {
            if q < k - 1 {
                let i = choose|i: int| 0 <= i < before.len() && (#[trigger] before[i]).id == kids[q];
                assert(s[i].id == kids[q]);
            } else {
                assert(s[before.len() as int].id == kids[q]);
            }
        }
    }
}

proof fn lemma_kids(m: TreeModel, id: int, open: Seq<Seq<u8>>)
    requires
        m.wf(),
        0 <= id < m.nodes.len(),
    ensures
        ({
            let s = m.kids(id, open);
            &&& forall|i: int, j: int|
                0 <= i < j < s.len() ==> (#[trigger] s[i]).id != (#[trigger] s[j]).id
            &&& forall|i: int|
                0 <= i < s.len() ==> m.nodes[id].children.contains((#[trigger] s[i]).id) && id
                    < s[i].id < m.nodes.len() && m.nodes[s[i].id as int].alive && s[i].size
                    == m.nodes[s[i].id as int].size && s[i].portal == (m.nodes[s[i].id as int].kind
                    is MountPoint) && s[i].marked() == stands_out(m, s[i].id, open)
            &&& forall|c: NodeId| #[trigger]
                m.nodes[id].children.contains(c) && m.nodes[c as int].alive ==> exists|i: int|
                    0 <= i < s.len() && (#[trigger] s[i]).id == c
            &&& forall|i: int, j: int|
                0 <= i <= j < s.len() ==> ((#[trigger] s[i]).marked() || !(
                #[trigger] s[j]).marked()) && (s[i].marked() == s[j].marked() ==> s[i].size
                    >= s[j].size)
        }),
{
    broadcast use vstd::seq_lib::group_to_multiset_ensures;

    let n = m.nodes[id].children.len();
    let l = m.living_kids(id, open, n);
    let s = m.kids(id, open);
    let kids = m.nodes[id].children;
    assert(kids.take(n as int) =~= kids);
    lemma_living(m, id, open, n);
    law_ordered_ascending::<Kid>(l);
    law_ordered_same_values::<Kid>(l);
    l.lemma_multiset_has_no_duplicates();
    s.lemma_multiset_has_no_duplicates_conv();
    assert forall|i: int| 0 <= i < s.len() implies kids.contains((#[trigger] s[i]).id) && id
        < s[i].id < m.nodes.len() && m.nodes[s[i].id as int].alive && s[i].size
        == m.nodes[s[i].id as int].size && s[i].portal == (m.nodes[s[i].id as int].kind
        is MountPoint) && s[i].marked() == stands_out(m, s[i].id, open) by {
        lemma_ordered_member::<Kid>(l, s[i]);
        let q = choose|q: int| 0 <= q < l.len() && l[q] == s[i];
        assert(l[q].id == s[i].id);
    }
    assert forall|i: int, j: int| 0 <= i < j < s.len() implies (#[trigger] s[i]).id != (
    #[trigger] s[j]).id by {
        if s[i].id == s[j].id {
            lemma_ordered_member::<Kid>(l, s[i]);
            lemma_ordered_member::<Kid>(l, s[j]);
            lemma_same_kid(m, id, open, n, s[i]);
            lemma_same_kid(m, id, open, n, s[j]);
            assert(s[i] == s[j]);
        }
    }
    assert forall|c: NodeId| #[trigger]
        kids.contains(c) && m.nodes[c as int].alive implies exists|i: int|
        0 <= i < s.len() && (#[trigger] s[i]).id == c by {
        let q = choose|q: int| 0 <= q < kids.len() && kids[q] == c;
        assert(m.nodes[kids[q] as int].alive);
        let i = choose|i: int| 0 <= i < l.len() && (#[trigger] l[i]).id == c;
        assert(l.contains(l[i]));
        assert(s.to_multiset().contains(l[i]));
        assert(s.contains(l[i]));
        let j = choose|j: int| 0 <= j < s.len() && s[j] == l[i];
        assert(s[j].id == c);
    }
    assert forall|i: int, j: int| 0 <= i <= j < s.len() implies ((#[trigger] s[i]).marked() || !(
    #[trigger] s[j]).marked()) && (s[i].marked() == s[j].marked() ==> s[i].size >= s[j].size) by {
        assert(crate::sort::ascending::<Kid>(s));
    }
}

/// What is kept of a child follows from which child it is.
proof fn lemma_same_kid(m: TreeModel, id: int, open: Seq<Seq<u8>>, k: nat, x: Kid)
    requires
        m.living_kids(id, open, k).contains(x),
    ensures
        x == (Kid {
            size: m.nodes[x.id as int].size,
            id: x.id,
            portal: m.nodes[x.id as int].kind is MountPoint,
            needed: leads_through(open, m.path_of(x.id as int)),
        }),
    decreases k,
{
    if k > 0 {
        let s = m.living_kids(id, open, k);
        let before = m.living_kids(id, open, (k - 1) as nat);
        let i = choose|i: int| 0 <= i < s.len() && s[i] == x;
        if i < before.len() {
            assert(before[i] == x);
            lemma_same_kid(m, id, open, (k - 1) as nat, x);
        }
    }
}

// ---------------------------------------------------------------------------
// Tiles
// ---------------------------------------------------------------------------

/// The tile of a node stands for it.
pub proof fn law_tile_stands_for(
    m: TreeModel,
    id: NodeId,
    min_size: u64,
    depth: nat,
    max_depth: nat,
    open: Seq<Seq<u8>>,
)
    ensures
        stands_for(m, id, m.view_of(id as int, min_size, depth, max_depth, open)),
{
}

/// A nested mount is drawn at the size of what its volume uses, within bounds:
/// at least `min_size`, 4 MiB and a fortieth of the tree, and no more than an
/// eighth of the tree unless one of these is more. It has an arrow and the model
/// of its disk for a name, or the name of the disk where the model is blank.
pub proof fn law_portal_tile(
    m: TreeModel,
    id: int,
    min_size: u64,
    depth: nat,
    max_depth: nat,
    open: Seq<Seq<u8>>,
)
    requires
        m.nodes[id].kind is MountPoint,
    ensures
        ({
            let size = m.view_of(id, min_size, depth, max_depth, open).size;
            let used = m.nodes[id].kind->volume_used;
            &&& size >= min_size && size >= 4194304 && size >= m.bytes / 40
            &&& size <= used || size == min_size || size == 4194304 || size == m.bytes / 40
            &&& size <= m.bytes / 8 || size == min_size || size == 4194304
            &&& used >= size || used < min_size || used < 4194304 || used < m.bytes / 40
            &&& used > size ==> size >= m.bytes / 8
        }),
        ({
            let v = m.view_of(id, min_size, depth, max_depth, open);
            let model = m.nodes[id].kind->model;
            &&& v.children.len() == 0
            &&& (exists|i: int| 0 <= i < model.len() && !white_space(#[trigger] model[i]))
                ==> v.name == "→ "@ + model
            &&& (forall|i: int| 0 <= i < model.len() ==> white_space(#[trigger] model[i]))
                ==> v.name == "→ "@ + m.nodes[id].kind->disk
        }),
{
    assert(4 * 1024 * 1024 == 4194304);
    let model = m.nodes[id].kind->model;
    let t = trimmed(model);
    law_trimmed(model);
    let (i, j) = choose|i: int, j: int| white_around(model, trimmed(model), i, j);
    assert(white_around(model, t, i, j));
    if exists|k: int| 0 <= k < model.len() && !white_space(#[trigger] model[k]) {
        let k = choose|k: int| 0 <= k < model.len() && !white_space(#[trigger] model[k]);
        assert(i <= k < j);
        assert(t.len() > 0);
    }
    if forall|k: int| 0 <= k < model.len() ==> white_space(#[trigger] model[k]) {
        if t.len() > 0 {
            assert(t[0] == model[i]);
        }
    }
}

/// How many of the children are shown.
spec fn shown_count(kids: Seq<Kid>, i: nat, min_size: u64) -> nat
    decreases kids.len() - i,
{
    if i >= kids.len() {
        i
    } else if !kids[i as int].marked() && (i >= 80 || (i >= 8 && kids[i as int].size < min_size)) {
        i
    } else {
        shown_count(kids, i + 1, min_size)
    }
}

proof fn lemma_shown_count(kids: Seq<Kid>, i: nat, min_size: u64)
    requires
        i <= kids.len(),
    ensures
        ({
            let n = shown_count(kids, i, min_size);
            &&& i <= n <= kids.len()
            &&& n < kids.len() ==> !kids[n as int].marked() && (n >= 80 || (n >= 8
                && kids[n as int].size < min_size))
            &&& forall|j: int|
                i <= j < n ==> (#[trigger] kids[j]).marked() || (j < 80 && (j < 8 || kids[j].size
                    >= min_size))
        }),
    decreases kids.len() - i,
{
    if i < kids.len() && !(!kids[i as int].marked() && (i >= 80 || (i >= 8 && kids[i as int].size
        < min_size))) {
        lemma_shown_count(kids, i + 1, min_size);
    }
}

/// Where a child is too small, so are those that follow.
proof fn lemma_listed_stops(
    m: TreeModel,
    id: int,
    kids: Seq<Kid>,
    i: int,
    tally: Tally,
    min_size: u64,
    depth: nat,
    max_depth: nat,
    open: Seq<Seq<u8>>,
)
    requires
        0 <= i,
        tally.children.len() >= 8,
        forall|j: int| i <= j < kids.len() ==> !(#[trigger] kids[j]).marked() && kids[j].size
            < min_size,
    ensures
        m.listed(id, kids, i, tally, min_size, depth, max_depth, open) == tally,
    decreases kids.len() - i,
{
    if i < kids.len() {
        assert(!kids[i].marked());
        lemma_listed_stops(m, id, kids, i + 1, tally, min_size, depth, max_depth, open);
    }
}

proof fn lemma_listed_prefix(
    m: TreeModel,
    id: int,
    kids: Seq<Kid>,
    i: nat,
    tally: Tally,
    min_size: u64,
    depth: nat,
    max_depth: nat,
    open: Seq<Seq<u8>>,
    ids: Seq<NodeId>,
)
    requires
        i <= kids.len(),
        tally.children.len() == i,
        forall|j: int| 0 <= j < kids.len() ==> id < (#[trigger] kids[j]).id < m.nodes.len(),
        forall|j: int|
            0 <= j < kids.len() ==> (#[trigger] kids[j]).size == m.nodes[kids[j].id as int].size
                && kids[j].portal == (m.nodes[kids[j].id as int].kind is MountPoint),
        forall|a: int, b: int|
            0 <= a <= b < kids.len() ==> ((#[trigger] kids[a]).marked() || !(
            #[trigger] kids[b]).marked()) && (kids[a].marked() == kids[b].marked() ==> kids[a].size
                >= kids[b].size),
        ids.len() == kids.len(),
        forall|j: int| 0 <= j < kids.len() ==> (#[trigger] ids[j]) == kids[j].id,
        forall|j: int|
            0 <= j < i ==> stands_for(m, ids[j], #[trigger] tally.children[j]) && viewed_inside(
                m,
                ids[j],
                tally.children[j],
                min_size,
                depth,
                max_depth,
                open,
            ),
        tally.shown == if own_bytes(m, ids, i) > u64::MAX {
            u64::MAX as int
        } else {
            own_bytes(m, ids, i)
        },
    ensures
        ({
            let t = m.listed(id, kids, i as int, tally, min_size, depth, max_depth, open);
            let n = shown_count(kids, i, min_size);
            &&& t.children.len() == n
            &&& forall|j: int|
                0 <= j < n ==> stands_for(m, ids[j], #[trigger] t.children[j]) && viewed_inside(
                    m,
                    ids[j],
                    t.children[j],
                    min_size,
                    depth,
                    max_depth,
                    open,
                )
            &&& t.shown == if own_bytes(m, ids, n) > u64::MAX {
                u64::MAX as int
            } else {
                own_bytes(m, ids, n)
            }
        }),
    decreases kids.len() - i,
{
    if i < kids.len() {
        let kid = kids[i as int];
        if !kid.marked() && i >= 80 {
        } else if !kid.marked() && kid.size < min_size && i >= 8 {
            assert forall|j: int| i + 1 <= j < kids.len() implies !(#[trigger] kids[j]).marked()
                && kids[j].size < min_size by {
                assert(kids[i as int].marked() || !kids[j].marked());
            }
            lemma_listed_stops(m, id, kids, (i + 1) as int, tally, min_size, depth, max_depth, open);
        } else {
            let child = m.view_of(
                kid.id as int,
                child_floor(kid.size, min_size),
                depth + 1,
                max_depth,
                open,
            );
            law_tile_stands_for(
                m,
                kid.id,
                child_floor(kid.size, min_size),
                depth + 1,
                max_depth,
                open,
            );
            assert(ids[i as int] == kid.id);
            assert(16 * 1024 == 16384);
            assert(floor_inside(child_floor(kid.size, min_size), kid.size, min_size));
            assert(viewed_inside(m, kid.id, child, min_size, depth, max_depth, open));
            lemma_own_bytes(m, ids, i);
            lemma_listed_prefix(
                m,
                id,
                kids,
                i + 1,
                tally.with(child, kid),
                min_size,
                depth,
                max_depth,
                open,
                ids,
            );
        }
    }
}

proof fn lemma_own_bytes(m: TreeModel, ids: Seq<NodeId>, n: nat)
    ensures
        own_bytes(m, ids, n) >= 0,
    decreases n,
{
    if n > 0 {
        lemma_own_bytes(m, ids, (n - 1) as nat);
    }
}

proof fn lemma_own_bytes_same(m: TreeModel, a: Seq<NodeId>, b: Seq<NodeId>, n: nat)
    requires
        n <= a.len(),
        n <= b.len(),
        forall|j: int| 0 <= j < n ==> (#[trigger] a[j]) == b[j],
    ensures
        own_bytes(m, a, n) == own_bytes(m, b, n),
    decreases n,
{
    if n > 0 {
        lemma_own_bytes_same(m, a, b, (n - 1) as nat);
        assert(a[n - 1] == b[n - 1]);
    }
}

/// A directory that is expanded, and has living children, shows those that are
/// chosen of them, and what is left of its bytes.
pub proof fn law_view_lists(
    m: TreeModel,
    id: int,
    min_size: u64,
    depth: nat,
    max_depth: nat,
    open: Seq<Seq<u8>>,
)
    requires
        m.wf(),
        0 <= id < m.nodes.len(),
        m.nodes[id].kind is Dir,
        depth < max_depth || exists|k: int|
            0 <= k < open.len() && under(#[trigger] open[k], m.path_of(id)),
        exists|c: NodeId| #[trigger]
            m.nodes[id].children.contains(c) && m.nodes[c as int].alive,
    ensures
        exists|ids: Seq<NodeId>|
            chosen(m, id, ids, min_size, open) && #[trigger] tiles_of(
                m,
                id,
                ids,
                m.view_of(id, min_size, depth, max_depth, open).children,
                min_size,
                depth,
                max_depth,
                open,
            ),
{
    let kids = m.kids(id, open);
    let v = m.view_of(id, min_size, depth, max_depth, open);
    lemma_kids(m, id, open);
    let c = choose|c: NodeId| #[trigger]
        m.nodes[id].children.contains(c) && m.nodes[c as int].alive;
    assert(exists|i: int| 0 <= i < kids.len() && (#[trigger] kids[i]).id == c);
    let all = Seq::new(kids.len(), |j: int| kids[j].id);
    let t = m.listed(id, kids, 0, Tally::none(), min_size, depth, max_depth, open);
    lemma_listed_prefix(
        m,
        id,
        kids,
        0,
        Tally::none(),
        min_size,
        depth,
        max_depth,
        open,
        all,
    );
    lemma_shown_count(kids, 0, min_size);
    let n = shown_count(kids, 0, min_size);
    let ids = all.take(n as int);
    lemma_own_bytes_same(m, all, ids, n);
    let whole = with_rest(t, m.nodes[id].size, min_size, m.path_of(id));
    assert(v.children == whole.children);
    assert(64 * 1024 == 65536);
    assert forall|j: int| 0 <= j < ids.len() implies stands_for(
        m,
        #[trigger] ids[j],
        #[trigger] v.children[j],
    ) && viewed_inside(m, ids[j], v.children[j], min_size, depth, max_depth, open) by {
        assert(v.children[j] == t.children[j]);
    }
    assert(tiles_of(m, id, ids, v.children, min_size, depth, max_depth, open));
    assert forall|j: int, k: int| 0 <= j <= k < ids.len() implies (stands_out(
        m,
        #[trigger] ids[j],
        open,
    ) || !stands_out(m, #[trigger] ids[k], open)) && (stands_out(m, ids[j], open) == stands_out(
        m,
        ids[k],
        open,
    ) ==> m.nodes[ids[j] as int].size >= m.nodes[ids[k] as int].size) by {
        assert(kids[j].marked() || !kids[k].marked());
    }
    assert forall|j: int| 0 <= j < ids.len() implies m.nodes[id].children.contains(
        #[trigger] ids[j],
    ) && m.nodes[ids[j] as int].alive by {
        assert(m.nodes[id].children.contains(kids[j].id));
    }
    assert forall|j: int|
        0 <= j < ids.len() && !stands_out(m, #[trigger] ids[j], open) implies j < 80 && (j < 8
        || m.nodes[ids[j] as int].size >= min_size) by {
        assert(!kids[j].marked());
    }
    assert forall|x: NodeId| #[trigger]
        m.nodes[id].children.contains(x) && m.nodes[x as int].alive && !ids.contains(x) implies {
        &&& !stands_out(m, x, open)
        &&& ids.len() >= 80 || (ids.len() >= 8 && m.nodes[x as int].size < min_size)
        &&& forall|j: int|
            0 <= j < ids.len() && !stands_out(m, #[trigger] ids[j], open)
                ==> m.nodes[ids[j] as int].size >= m.nodes[x as int].size
    } by {
        let q = choose|q: int| 0 <= q < kids.len() && (#[trigger] kids[q]).id == x;
        if q < n {
            assert(ids[q] == x);
        }
        assert(kids[n as int].marked() || !kids[q].marked());
        assert forall|j: int| 0 <= j < ids.len() && !stands_out(m, #[trigger] ids[j], open) implies
            m.nodes[ids[j] as int].size >= m.nodes[x as int].size by {
            assert(kids[j].marked() || !kids[q].marked());
        }
    }
    assert(ids.no_duplicates()) by {
        assert forall|a: int, b: int| 0 <= a < ids.len() && 0 <= b < ids.len() && a != b implies
            ids[a] != ids[b] by {
            if a < b {
                assert(kids[a].id != kids[b].id);
            } else {
                assert(kids[b].id != kids[a].id);
            }
        }
    }
    assert(chosen(m, id, ids, min_size, open));
}

/// A directory without living children shows nothing inside it.
pub proof fn law_view_empty(
    m: TreeModel,
    id: int,
    min_size: u64,
    depth: nat,
    max_depth: nat,
    open: Seq<Seq<u8>>,
)
    requires
        m.wf(),
        0 <= id < m.nodes.len(),
        forall|c: NodeId| #[trigger]
            m.nodes[id].children.contains(c) ==> !m.nodes[c as int].alive,
    ensures
        m.view_of(id, min_size, depth, max_depth, open).children.len() == 0,
{
    lemma_kids(m, id, open);
    let kids = m.kids(id, open);
    if kids.len() > 0 {
        assert(m.nodes[id].children.contains(kids[0].id));
    }
}

// ---------------------------------------------------------------------------
// The layer
// ---------------------------------------------------------------------------

/// A layer is the view of the directory that is zoomed into, where the index
/// has one at that path: it has the path of that node, and its tiles stand for
/// children of it. Else it is the view of the root.
pub proof fn law_layer_at(m: TreeModel, at: Option<Seq<u8>>, open: Seq<Seq<u8>>, min_size: u64)
    requires
        m.wf(),
    ensures
        ({
            let v = m.layer(at, open, min_size);
            let filed = at is Some && m.dirs.dom().contains(comps(at.unwrap()));
            &&& filed ==> layer_of(m, m.dirs[comps(at.unwrap())], v, open, min_size)
            &&& !filed ==> layer_of(m, m.root, v, open, min_size)
        }),
{
    let v = m.layer(at, open, min_size);
    let filed = at is Some && m.dirs.dom().contains(comps(at.unwrap()));
    let id = if filed {
        m.dirs[comps(at.unwrap())]
    } else {
        m.root
    };
    law_tile_stands_for(m, id, min_size, 0, 1, open);
    if m.nodes[id as int].kind is Dir {
        if exists|c: NodeId| #[trigger]
            m.nodes[id as int].children.contains(c) && m.nodes[c as int].alive {
            law_view_lists(m, id as int, min_size, 0, 1, open);
        } else {
            law_view_empty(m, id as int, min_size, 0, 1, open);
        }
    }
}

/// Whether a view is that of one node and, if it is a directory, of its
/// children.
pub open spec fn layer_of(
    m: TreeModel,
    id: NodeId,
    v: ViewModel,
    open: Seq<Seq<u8>>,
    min_size: u64,
) -> bool {
    &&& stands_for(m, id, v)
    &&& m.nodes[id as int].kind is Dir ==> if exists|c: NodeId| #[trigger]
        m.nodes[id as int].children.contains(c) && m.nodes[c as int].alive {
        exists|ids: Seq<NodeId>|
            chosen(m, id as int, ids, min_size, open) && #[trigger] tiles_of(
                m,
                id as int,
                ids,
                v.children,
                min_size,
                0,
                1,
                open,
            )
    } else {
        v.children.len() == 0
    }
}

/// In a tree whose index is exact, the view of a directory that is zoomed into
/// has the components of the path that was asked for.
pub proof fn law_layer_path(m: TreeModel, at: Seq<u8>, open: Seq<Seq<u8>>, min_size: u64)
    requires
        m.orderly(),
        m.dirs.dom().contains(comps(at)),
    ensures
        exists|p: Seq<u8>| comps(p) == comps(at) && #[trigger] lossy_text(p) == m.layer(
            Some(at),
            open,
            min_size,
        ).path,
{
    let id = m.dirs[comps(at)];
    law_layer_at(m, Some(at), open, min_size);
    assert(comps(m.path_of(id as int)) == comps(at));
    assert(lossy_text(m.path_of(id as int)) == m.layer(Some(at), open, min_size).path);
}

} // verus!
