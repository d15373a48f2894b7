//! What holds of pruning and indexing.

use crate::path::{comps, joined};
use crate::tree::{
    fresh_node, lemma_linked_ok, linked, links_ok, NodeId, NodeModel, StoredModel, TreeModel,
    MAX_NODES, STORE_DEPTH,
};
use crate::tree_prune::{
    copied, copied_kids, height, height_of_kids, indexed, indexed_kids, lemma_copied_len,
    lemma_kid_room, lemma_subtree_finite, live_files,
};
use crate::tree_remove::{lemma_under_all_children, under_children};
use vstd::prelude::*;
use vstd::utf8::*;

verus! {

// ---------------------------------------------------------------------------
// Depth
// ---------------------------------------------------------------------------

/// How many nodes stand above a node.
pub open spec fn node_depth(nodes: Seq<NodeModel>, id: int) -> nat
    decreases id,
{
    match nodes[id].parent {
        Some(p) => if 0 <= p < id {
            node_depth(nodes, p as int) + 1
        } else {
            0
        },
        None => 0,
    }
}

/// Whether no node stands deeper than `limit`.
pub open spec fn no_deeper(nodes: Seq<NodeModel>, limit: nat) -> bool {
    forall|i: int| 0 <= i < nodes.len() ==> #[trigger] node_depth(nodes, i) <= limit
}

/// The depth is decided by the parent links alone.
pub proof fn lemma_depth_same(a: Seq<NodeModel>, b: Seq<NodeModel>, id: int)
    requires
        0 <= id < a.len() <= b.len(),
        forall|k: int| 0 <= k < a.len() ==> (#[trigger] a[k]).parent == b[k].parent,
    ensures
        node_depth(a, id) == node_depth(b, id),
    decreases id,
{
    assert(a[id].parent == b[id].parent);
    match a[id].parent {
        Some(p) => {
            if p < id {
                lemma_depth_same(a, b, p as int);
            }
        },
        None => {},
    }
}

/// The height below a node reaches no deeper than the deepest node.
pub proof fn lemma_height_no_deeper(
    nodes: Seq<NodeModel>,
    root: NodeId,
    id: int,
    k: nat,
    limit: nat,
)
    requires
        links_ok(nodes, root),
        no_deeper(nodes, limit),
        0 <= id < nodes.len(),
        k <= nodes[id].children.len(),
    ensures
        height_of_kids(nodes, id, k) + node_depth(nodes, id) <= limit,
    decreases nodes.len() - id, k,
{
    if k > 0 {
        lemma_height_no_deeper(nodes, root, id, (k - 1) as nat, limit);
        let c = nodes[id].children[k - 1] as int;
        assert(nodes[c].parent == Some(id as u32));
        lemma_height_no_deeper(nodes, root, c, nodes[c].children.len(), limit);
        assert(height(nodes, c) == height_of_kids(nodes, c, nodes[c].children.len()));
        assert(node_depth(nodes, c) == node_depth(nodes, id) + 1);
    } else {
        assert(node_depth(nodes, id) <= limit);
    }
}

/// A new node stands one below its parent, and no other depth changes.
pub proof fn lemma_linked_depth(nodes: Seq<NodeModel>, parent: int, node: NodeModel)
    requires
        0 <= parent < nodes.len() < MAX_NODES,
        node.parent == Some(parent as u32),
    ensures
        node_depth(linked(nodes, parent, node), nodes.len() as int) == node_depth(nodes, parent)
            + 1,
        forall|i: int|
            0 <= i < nodes.len() ==> #[trigger] node_depth(linked(nodes, parent, node), i)
                == node_depth(nodes, i),
{
    let l = linked(nodes, parent, node);
    assert forall|i: int| 0 <= i < nodes.len() implies #[trigger] node_depth(l, i) == node_depth(
        nodes,
        i,
    ) by {
        lemma_depth_same(nodes, l, i);
    }
    assert(l[nodes.len() as int].parent == Some(parent as u32));
    assert(node_depth(l, parent) == node_depth(nodes, parent));
}

proof fn lemma_copied_depth(
    src: TreeModel,
    dest: TreeModel,
    src_id: int,
    dest_id: NodeId,
    depth: nat,
    k: nat,
)
    requires
        links_ok(src.nodes, src.root),
        0 <= src_id < src.nodes.len(),
        k <= src.nodes[src_id].children.len(),
        links_ok(dest.nodes, dest.root),
        dest_id < dest.nodes.len(),
        dest.nodes.len() + under_children(src.nodes, src_id, k as int).len() <= MAX_NODES,
        dest.files <= dest.nodes.len(),
        node_depth(dest.nodes, dest_id as int) == depth,
        no_deeper(dest.nodes, STORE_DEPTH as nat),
    ensures
        ({
            let r = copied_kids(src, dest, src_id, dest_id, depth, k);
            &&& links_ok(r.nodes, dest.root)
            &&& r.nodes.len() >= dest.nodes.len()
            &&& r.files <= r.nodes.len()
            &&& r.root == dest.root
            &&& no_deeper(r.nodes, STORE_DEPTH as nat)
            &&& forall|i: int|
                0 <= i < dest.nodes.len() ==> #[trigger] node_depth(r.nodes, i) == node_depth(
                    dest.nodes,
                    i,
                )
        }),
    decreases STORE_DEPTH - depth, k,
{
    if k > 0 && depth < STORE_DEPTH {
        let j = (k - 1) as nat;
        lemma_kid_room(src.nodes, src.root, src_id, j as int);
        lemma_copied_depth(src, dest, src_id, dest_id, depth, j);
        lemma_copied_len(src, dest, src_id, dest_id, depth, j);
        let so_far = copied_kids(src, dest, src_id, dest_id, depth, j);
        let c = src.nodes[src_id].children[k - 1] as int;
        let n = src.nodes[c];
        if n.alive {
            let node = fresh_node(n.name, Some(dest_id), n.size, n.kind);
            let added = so_far.grafted(dest_id, n.name, n.size, n.kind, None);
            lemma_linked_ok(so_far.nodes, so_far.root, dest_id as int, node);
            lemma_linked_depth(so_far.nodes, dest_id as int, node);
            assert(node_depth(so_far.nodes, dest_id as int) == depth);
            assert forall|i: int| 0 <= i < added.nodes.len() implies #[trigger] node_depth(
                added.nodes,
                i,
            ) <= STORE_DEPTH by {
                if i < so_far.nodes.len() {
                    assert(node_depth(so_far.nodes, i) <= STORE_DEPTH);
                }
            }
            if n.kind is Dir {
                let id = so_far.nodes.len() as u32;
                let total = src.nodes[c].children.len();
                lemma_copied_depth(src, added, c, id, depth + 1, total);
                let r = copied(src, added, c, id, depth + 1);
                assert(r == copied_kids(src, added, c, id, depth + 1, total));
                assert forall|i: int| 0 <= i < dest.nodes.len() implies #[trigger] node_depth(
                    r.nodes,
                    i,
                ) == node_depth(dest.nodes, i) by {
                    assert(node_depth(so_far.nodes, i) == node_depth(dest.nodes, i));
                    assert(node_depth(added.nodes, i) == node_depth(so_far.nodes, i));
                }
            } else {
                assert forall|i: int| 0 <= i < dest.nodes.len() implies #[trigger] node_depth(
                    added.nodes,
                    i,
                ) == node_depth(dest.nodes, i) by {
                    assert(node_depth(so_far.nodes, i) == node_depth(dest.nodes, i));
                }
            }
        }
    }
}

pub proof fn lemma_root_alone(m: TreeModel)
    requires
        m.wf(),
    ensures
        ({
            let d = m.root_alone();
            let n = m.nodes[m.root as int].children.len();
            &&& links_ok(d.nodes, 0)
            &&& d.nodes.len() == 1
            &&& d.root == 0
            &&& d.files == 0
            &&& d.nodes.len() + under_children(m.nodes, m.root as int, n as int).len()
                <= MAX_NODES
            &&& node_depth(d.nodes, 0) == 0
        }),
{
    let n = m.nodes[m.root as int].children.len() as int;
    lemma_under_all_children(m.nodes, m.root, m.root as int);
    let inner = under_children(m.nodes, m.root as int, n);
    lemma_subtree_finite(m.nodes, inner);
    lemma_subtree_finite(m.nodes, inner.insert(m.root as int));
    let d = m.root_alone();
    assert(d.nodes[0].children.len() == 0);
}

/// A pruned tree is no deeper than what is stored, says so, and keeps the
/// total: the size of the root.
pub proof fn law_prune_depth(m: TreeModel)
    requires
        m.wf(),
    ensures
        height(m.pruned().nodes, m.pruned().root as int) <= STORE_DEPTH,
        m.pruned().store_depth == STORE_DEPTH,
        m.pruned().nodes[m.pruned().root as int].size == m.nodes[m.root as int].size,
        m.pruned().root_path == m.root_path,
{
    if height(m.nodes, m.root as int) > STORE_DEPTH {
        let d = m.root_alone();
        let n = m.nodes[m.root as int].children.len();
        lemma_root_alone(m);
        lemma_copied_depth(m, d, m.root as int, 0, 0, n);
        let copy = copied(m, d, m.root as int, 0, 0);
        assert(copy == copied_kids(m, d, m.root as int, 0, 0, n));
        lemma_height_no_deeper(
            copy.nodes,
            0,
            0,
            copy.nodes[0].children.len(),
            STORE_DEPTH as nat,
        );
        assert(height(copy.nodes, 0) == height_of_kids(
            copy.nodes,
            0,
            copy.nodes[0].children.len(),
        ));
        lemma_copied_outline(m, d, m.root as int, 0, 0, n);
        lemma_copied_fields(m, d, m.root as int, 0, 0, n);
    }
}

/// How many of the first `n` nodes are living files.
pub open spec fn files_among(nodes: Seq<NodeModel>, n: nat) -> nat
    decreases n,
{
    if n == 0 {
        0
    } else if nodes[n - 1].alive && nodes[n - 1].kind is File {
        files_among(nodes, (n - 1) as nat) + 1
    } else {
        files_among(nodes, (n - 1) as nat)
    }
}

proof fn lemma_files_among(nodes: Seq<NodeModel>, n: nat)
    requires
        n <= nodes.len(),
    ensures
        live_files(nodes.take(n as int)) == files_among(nodes, n) <= n,
    decreases n,
{
    if n > 0 {
        lemma_files_among(nodes, (n - 1) as nat);
        assert(nodes.take(n as int).drop_last() =~= nodes.take(n - 1));
    }
}

/// A pruned tree keeps its bytes, those of its root where it was cut. A tree that
/// was cut has as many files as it has living files; one that was not keeps all.
pub proof fn law_prune_totals(m: TreeModel)
    requires
        m.wf(),
    ensures
        height(m.nodes, m.root as int) > 3 ==> m.pruned().bytes == m.nodes[m.root as int].size,
        height(m.nodes, m.root as int) > 3 ==> m.pruned().files == files_among(
            m.pruned().nodes,
            m.pruned().nodes.len(),
        ),
        height(m.nodes, m.root as int) <= 3 ==> m.pruned().bytes == m.bytes && m.pruned().files
            == m.files && m.pruned().nodes == m.nodes,
        m.reindexed().bytes == m.bytes,
        m.reindexed().files == m.files,
{
    if height(m.nodes, m.root as int) > STORE_DEPTH {
        let d = m.root_alone();
        let n = m.nodes[m.root as int].children.len();
        lemma_root_alone(m);
        lemma_copied_fields(m, d, m.root as int, 0, 0, n);
        lemma_copied_depth(m, d, m.root as int, 0, 0, n);
        let copy = copied(m, d, m.root as int, 0, 0);
        assert(copy == copied_kids(m, d, m.root as int, 0, 0, n));
        law_prune_depth(m);
        lemma_files_among(copy.nodes, copy.nodes.len());
        assert(copy.nodes.take(copy.nodes.len() as int) =~= copy.nodes);
        assert(copy.nodes.len() <= MAX_NODES);
    }
}

proof fn lemma_copied_fields(
    src: TreeModel,
    dest: TreeModel,
    src_id: int,
    dest_id: NodeId,
    depth: nat,
    k: nat,
)
    ensures
        copied_kids(src, dest, src_id, dest_id, depth, k).root_path == dest.root_path,
        copied_kids(src, dest, src_id, dest_id, depth, k).store_depth == dest.store_depth,
        copied_kids(src, dest, src_id, dest_id, depth, k).root == dest.root,
    decreases STORE_DEPTH - depth, k,
{
    if k > 0 && depth < STORE_DEPTH {
        lemma_copied_fields(src, dest, src_id, dest_id, depth, (k - 1) as nat);
        let so_far = copied_kids(src, dest, src_id, dest_id, depth, (k - 1) as nat);
        let c = src.nodes[src_id].children[k - 1] as int;
        let n = src.nodes[c];
        if n.alive && n.kind is Dir {
            let added = so_far.grafted(dest_id, n.name, n.size, n.kind, None);
            let id = so_far.nodes.len() as u32;
            let total = src.nodes[c].children.len();
            lemma_copied_fields(src, added, c, id, depth + 1, total);
            assert(copied(src, added, c, id, depth + 1) == copied_kids(
                src,
                added,
                c,
                id,
                depth + 1,
                total,
            ));
        }
    }
}

// ---------------------------------------------------------------------------
// Outline
// ---------------------------------------------------------------------------

/// A living node with those below it, down to some depth.
#[verifier::ext_equal]
pub struct Outline {
    pub name: Seq<char>,
    pub size: u64,
    pub kind: StoredModel,
    pub kids: Seq<Outline>,
}

/// A node with the living nodes below it, down to `levels` levels. Only
/// directories have anything below them.
pub open spec fn outline(nodes: Seq<NodeModel>, id: int, levels: nat) -> Outline
    decreases levels, nodes[id].children.len() + 1,
{
    let n = nodes[id];
    Outline {
        name: n.name,
        size: n.size,
        kind: n.kind,
        kids: if n.kind is Dir {
            outline_kids(nodes, id, levels, n.children.len())
        } else {
            Seq::empty()
        },
    }
}

/// The living ones of the first `k` children of a node, down to `levels`
/// levels.
pub open spec fn outline_kids(nodes: Seq<NodeModel>, id: int, levels: nat, k: nat) -> Seq<Outline>
    decreases levels, k,
{
    if k == 0 || levels == 0 {
        Seq::empty()
    } else {
        let before = outline_kids(nodes, id, levels, (k - 1) as nat);
        let c = nodes[id].children[k - 1] as int;
        if nodes[c].alive {
            before.push(outline(nodes, c, (levels - 1) as nat))
        } else {
            before
        }
    }
}

/// Whether the children of each node from `lo` on come later in the list.
spec fn kids_later(nodes: Seq<NodeModel>, lo: int) -> bool {
    forall|i: int, k: int|
        lo <= i < nodes.len() && 0 <= k < nodes[i].children.len() ==> i < (
        #[trigger] nodes[i].children[k]) < nodes.len()
}

/// What stands below a node is decided by the nodes from it on.
proof fn lemma_outline_local(
    a: Seq<NodeModel>,
    b: Seq<NodeModel>,
    lo: int,
    id: int,
    levels: nat,
    k: nat,
)
    requires
        0 <= lo <= id < a.len() <= b.len(),
        kids_later(a, lo),
        forall|i: int| lo <= i < a.len() ==> #[trigger] a[i] == b[i],
        k <= a[id].children.len(),
    ensures
        outline_kids(a, id, levels, k) == outline_kids(b, id, levels, k),
    decreases levels, k,
{
    if k > 0 && levels > 0 {
        lemma_outline_local(a, b, lo, id, levels, (k - 1) as nat);
        assert(a[id] == b[id]);
        let c = a[id].children[k - 1] as int;
        assert(id < c < a.len());
        assert(a[c] == b[c]);
        let total = a[c].children.len();
        lemma_outline_local(a, b, lo, c, (levels - 1) as nat, total);
        assert(outline(a, c, (levels - 1) as nat) == outline(b, c, (levels - 1) as nat));
    }
}

/// The nodes below the first `k` children do not change where those nodes do
/// not, whatever else the node gets.
proof fn lemma_kids_outline_local(
    a: Seq<NodeModel>,
    b: Seq<NodeModel>,
    lo: int,
    id: int,
    levels: nat,
    k: nat,
)
    requires
        0 <= id < lo <= a.len() <= b.len(),
        kids_later(a, lo),
        forall|i: int| lo <= i < a.len() ==> #[trigger] a[i] == b[i],
        k <= a[id].children.len(),
        k <= b[id].children.len(),
        forall|j: int|
            0 <= j < k ==> lo <= (#[trigger] a[id].children[j]) < a.len() && a[id].children[j]
                == b[id].children[j],
    ensures
        outline_kids(a, id, levels, k) == outline_kids(b, id, levels, k),
    decreases k,
{
    if k > 0 && levels > 0 {
        lemma_kids_outline_local(a, b, lo, id, levels, (k - 1) as nat);
        let c = a[id].children[k - 1] as int;
        assert(a[c] == b[c]);
        lemma_outline_local(a, b, lo, c, (levels - 1) as nat, a[c].children.len());
        assert(outline(a, c, (levels - 1) as nat) == outline(b, c, (levels - 1) as nat));
    }
}

/// Whether `r` has the nodes of `d` and more, and only `id` has got children,
/// all of them new.
spec fn grown_under(d: Seq<NodeModel>, r: Seq<NodeModel>, id: int) -> bool {
    &&& r.len() >= d.len()
    &&& kids_later(r, d.len() as int)
    &&& forall|i: int| 0 <= i < d.len() && i != id ==> #[trigger] r[i] == d[i]
    &&& r[id] == (NodeModel { children: r[id].children, ..d[id] })
    &&& forall|j: int|
        0 <= j < r[id].children.len() ==> d.len() <= (#[trigger] r[id].children[j]) < r.len()
}

proof fn lemma_copied_outline(
    src: TreeModel,
    dest: TreeModel,
    src_id: int,
    dest_id: NodeId,
    depth: nat,
    k: nat,
)
    requires
        links_ok(src.nodes, src.root),
        0 <= src_id < src.nodes.len(),
        k <= src.nodes[src_id].children.len(),
        dest_id < dest.nodes.len(),
        dest.nodes[dest_id as int].children.len() == 0,
        dest.nodes.len() + under_children(src.nodes, src_id, k as int).len() <= MAX_NODES,
        dest.files <= dest.nodes.len(),
        depth <= STORE_DEPTH,
    ensures
        ({
            let r = copied_kids(src, dest, src_id, dest_id, depth, k);
            let levels = (STORE_DEPTH - depth) as nat;
            &&& grown_under(dest.nodes, r.nodes, dest_id as int)
            &&& outline_kids(
                r.nodes,
                dest_id as int,
                levels,
                r.nodes[dest_id as int].children.len(),
            ) == outline_kids(src.nodes, src_id, levels, k)
        }),
    decreases STORE_DEPTH - depth, k,
{
    let levels = (STORE_DEPTH - depth) as nat;
    let did = dest_id as int;
    let lo = dest.nodes.len() as int;
    if k > 0 && depth < STORE_DEPTH {
        let j = (k - 1) as nat;
        lemma_kid_room(src.nodes, src.root, src_id, j as int);
        lemma_copied_outline(src, dest, src_id, dest_id, depth, j);
        lemma_copied_len(src, dest, src_id, dest_id, depth, j);
        let so_far = copied_kids(src, dest, src_id, dest_id, depth, j);
        let c = src.nodes[src_id].children[k - 1] as int;
        let n = src.nodes[c];
        if n.alive {
            let x = so_far.nodes.len() as int;
            let id = x as u32;
            let added = so_far.grafted(dest_id, n.name, n.size, n.kind, None);
            let kids = so_far.nodes[did].children;
            assert(added.nodes[did].children == kids.push(id));
            assert(added.nodes[x].children.len() == 0);
            assert(grown_under(dest.nodes, added.nodes, did)) by {
                assert forall|i: int, q: int|
                    lo <= i < added.nodes.len() && 0 <= q < added.nodes[i].children.len() implies i
                    < (#[trigger] added.nodes[i].children[q]) < added.nodes.len() by {
                    assert(so_far.nodes[i].children[q] == added.nodes[i].children[q]);
                }
                assert forall|q: int| 0 <= q < added.nodes[did].children.len() implies lo <= (
                #[trigger] added.nodes[did].children[q]) < added.nodes.len() by {
                    if q < kids.len() {
                        assert(so_far.nodes[did].children[q] == added.nodes[did].children[q]);
                    }
                }
            }
            let total = src.nodes[c].children.len();
            let r = copied_kids(src, dest, src_id, dest_id, depth, k);
            if n.kind is Dir {
                lemma_copied_outline(src, added, c, id, depth + 1, total);
                assert(copied(src, added, c, id, depth + 1) == copied_kids(
                    src,
                    added,
                    c,
                    id,
                    depth + 1,
                    total,
                ));
            } else {
                assert(r == added);
            }
            assert(r.nodes[did] == added.nodes[did]);
            assert(grown_under(dest.nodes, r.nodes, did)) by {
                assert forall|i: int, q: int|
                    lo <= i < r.nodes.len() && 0 <= q < r.nodes[i].children.len() implies i < (
                #[trigger] r.nodes[i].children[q]) < r.nodes.len() by {
                    if i < x {
                        assert(r.nodes[i] == added.nodes[i]);
                        assert(added.nodes[i].children[q] == r.nodes[i].children[q]);
                    } else if i == x {
                        if n.kind is Dir {
                            assert(added.nodes.len() <= r.nodes[x].children[q]);
                        }
                    } else {
                        assert(i >= added.nodes.len());
                    }
                }
                assert forall|i: int| 0 <= i < lo && i != did implies #[trigger] r.nodes[i]
                    == dest.nodes[i] by {
                    assert(added.nodes[i] == so_far.nodes[i]);
                    assert(so_far.nodes[i] == dest.nodes[i]);
                }
                assert forall|q: int| 0 <= q < r.nodes[did].children.len() implies lo <= (
                #[trigger] r.nodes[did].children[q]) < r.nodes.len() by {
                    assert(added.nodes[did].children[q] == r.nodes[did].children[q]);
                }
            }
            assert forall|i: int| lo <= i < so_far.nodes.len() implies #[trigger] so_far.nodes[i]
                == r.nodes[i] by {
                assert(added.nodes[i] == so_far.nodes[i]);
                assert(r.nodes[i] == added.nodes[i]);
            }
            assert forall|q: int| 0 <= q < kids.len() implies lo <= (
            #[trigger] so_far.nodes[did].children[q]) < so_far.nodes.len()
                && so_far.nodes[did].children[q] == r.nodes[did].children[q] by {
                assert(r.nodes[did].children[q] == kids.push(id)[q]);
            }
            lemma_kids_outline_local(so_far.nodes, r.nodes, lo, did, levels, kids.len());
            assert(r.nodes[did].children[kids.len() as int] == id);
            let below = (levels - 1) as nat;
            assert(r.nodes[x].alive);
            assert(outline(r.nodes, x, below) == outline(src.nodes, c, below)) by {
                if n.kind is Dir {
                    assert(r.nodes[x] == (NodeModel {
                        children: r.nodes[x].children,
                        ..added.nodes[x]
                    }));
                }
            }
            assert(outline_kids(r.nodes, did, levels, kids.len() + 1) == outline_kids(
                r.nodes,
                did,
                levels,
                kids.len(),
            ).push(outline(r.nodes, x, below)));
        }
    }
}

/// Pruning keeps what is stored: the living nodes of the upper levels, with
/// their names, sizes and order. A directory at the stored depth keeps the
/// size of all that was below it.
pub proof fn law_prune_keeps_upper_levels(m: TreeModel)
    requires
        m.wf(),
        m.nodes[m.root as int].kind is Dir,
    ensures
        outline(m.pruned().nodes, m.pruned().root as int, STORE_DEPTH as nat) == outline(
            m.nodes,
            m.root as int,
            STORE_DEPTH as nat,
        ),
{
    if height(m.nodes, m.root as int) > STORE_DEPTH {
        let d = m.root_alone();
        let n = m.nodes[m.root as int].children.len();
        lemma_root_alone(m);
        lemma_copied_outline(m, d, m.root as int, 0, 0, n);
        lemma_copied_fields(m, d, m.root as int, 0, 0, n);
        assert(copied(m, d, m.root as int, 0, 0) == copied_kids(m, d, m.root as int, 0, 0, n));
    }
}

// ---------------------------------------------------------------------------
// The index
// ---------------------------------------------------------------------------

/// Whether a node is alive, and so is each node on the way to it from `top`.
pub open spec fn reached(nodes: Seq<NodeModel>, top: int, i: int) -> bool
    decreases i,
{
    nodes[i].alive && (i == top || match nodes[i].parent {
        Some(p) => 0 <= p < i && nodes[p as int].children.contains(i as u32) && reached(
            nodes,
            top,
            p as int,
        ),
        None => false,
    })
}

/// Whether each entry of an index is an old one or leads from a path to a
/// living directory at that path.
spec fn sound_entries(
    m: TreeModel,
    old_dirs: Map<Seq<Seq<u8>>, NodeId>,
    dirs: Map<Seq<Seq<u8>>, NodeId>,
    top: int,
) -> bool {
    forall|k: Seq<Seq<u8>>| #[trigger]
        dirs.dom().contains(k) ==> (old_dirs.dom().contains(k) && dirs[k] == old_dirs[k]) || (
        dirs[k] < m.nodes.len() && reached(m.nodes, top, dirs[k] as int)
            && m.nodes[dirs[k] as int].kind !is File && comps(m.path_of(dirs[k] as int)) == k)
}

/// What is reached through a child is reached.
proof fn lemma_reached_through(nodes: Seq<NodeModel>, top: int, c: int, i: int)
    requires
        0 <= c,
        nodes[top].alive,
        nodes[c].parent == Some(top as u32),
        0 <= top < c,
        top <= u32::MAX,
        nodes[top].children.contains(c as u32),
        reached(nodes, c, i),
    ensures
        reached(nodes, top, i),
    decreases i,
{
    if i == c {
        assert(reached(nodes, top, top));
    } else {
        lemma_reached_through(nodes, top, c, nodes[i].parent.unwrap() as int);
    }
}

proof fn lemma_indexed_sound(
    m: TreeModel,
    dirs: Map<Seq<Seq<u8>>, NodeId>,
    id: int,
    k: nat,
)
    requires
        links_ok(m.nodes, m.root),
        0 <= id < m.nodes.len(),
        k <= m.nodes[id].children.len(),
        m.nodes[id].alive,
    ensures
        sound_entries(m, dirs, indexed_kids(m.nodes, dirs, id, m.path_of(id), k), id),
    decreases m.nodes.len() - id, k,
{
    let path = m.path_of(id);
    if k > 0 {
        let before = indexed_kids(m.nodes, dirs, id, path, (k - 1) as nat);
        lemma_indexed_sound(m, dirs, id, (k - 1) as nat);
        let c = m.nodes[id].children[k - 1] as int;
        assert(m.nodes[c].parent == Some(id as u32));
        assert(m.nodes[id].children.contains(c as u32));
        let p = joined(path, encode_utf8(m.nodes[c].name));
        assert(p == m.path_of(c));
        if m.nodes[c].alive {
            let here = if m.nodes[c].kind is File {
                before
            } else {
                before.insert(comps(p), c as u32)
            };
            let total = m.nodes[c].children.len();
            lemma_indexed_sound(m, here, c, total);
            let r = indexed_kids(m.nodes, here, c, p, total);
            assert(indexed(m.nodes, before, c, p) == r);
            assert forall|x: Seq<Seq<u8>>| #[trigger] r.dom().contains(x) implies (
            dirs.dom().contains(x) && r[x] == dirs[x]) || (r[x] < m.nodes.len() && reached(
                m.nodes,
                id,
                r[x] as int,
            ) && m.nodes[r[x] as int].kind !is File && comps(m.path_of(r[x] as int)) == x) by {
                if here.dom().contains(x) && r[x] == here[x] {
                    if x == comps(p) && m.nodes[c].kind !is File {
                        assert(reached(m.nodes, c, c));
                        lemma_reached_through(m.nodes, id, c, c);
                    } else {
                        assert(before.dom().contains(x));
                    }
                } else {
                    lemma_reached_through(m.nodes, id, c, r[x] as int);
                }
            }
        } else {
            assert(indexed(m.nodes, before, c, p) == before);
        }
    }
}

/// Once a path is filed it stays filed.
proof fn lemma_indexed_grows(
    nodes: Seq<NodeModel>,
    dirs: Map<Seq<Seq<u8>>, NodeId>,
    id: int,
    path: Seq<u8>,
    k: nat,
    key: Seq<Seq<u8>>,
)
    requires
        dirs.dom().contains(key),
    ensures
        indexed_kids(nodes, dirs, id, path, k).dom().contains(key),
    decreases nodes.len() - id, k,
{
    if k > 0 {
        let before = indexed_kids(nodes, dirs, id, path, (k - 1) as nat);
        lemma_indexed_grows(nodes, dirs, id, path, (k - 1) as nat, key);
        let c = nodes[id].children[k - 1] as int;
        if id < c < nodes.len() {
            let p = joined(path, encode_utf8(nodes[c].name));
            let here = if nodes[c].kind is File {
                before
            } else {
                before.insert(comps(p), c as u32)
            };
            lemma_indexed_grows(nodes, here, c, p, nodes[c].children.len(), key);
            assert(indexed(nodes, before, c, p) == if nodes[c].alive {
                indexed_kids(nodes, here, c, p, nodes[c].children.len())
            } else {
                before
            });
        }
    }
}

/// More children leave what is filed filed.
proof fn lemma_indexed_more(
    nodes: Seq<NodeModel>,
    dirs: Map<Seq<Seq<u8>>, NodeId>,
    id: int,
    path: Seq<u8>,
    j: nat,
    k: nat,
    key: Seq<Seq<u8>>,
)
    requires
        j <= k,
        indexed_kids(nodes, dirs, id, path, j).dom().contains(key),
    ensures
        indexed_kids(nodes, dirs, id, path, k).dom().contains(key),
    decreases k,
{
    if j < k {
        lemma_indexed_more(nodes, dirs, id, path, j, (k - 1) as nat, key);
        let before = indexed_kids(nodes, dirs, id, path, (k - 1) as nat);
        let c = nodes[id].children[k - 1] as int;
        if id < c < nodes.len() {
            let p = joined(path, encode_utf8(nodes[c].name));
            let here = if nodes[c].kind is File {
                before
            } else {
                before.insert(comps(p), c as u32)
            };
            lemma_indexed_grows(nodes, here, c, p, nodes[c].children.len(), key);
            assert(indexed(nodes, before, c, p) == if nodes[c].alive {
                indexed_kids(nodes, here, c, p, nodes[c].children.len())
            } else {
                before
            });
        }
    }
}

/// A living directory below `id` is filed.
proof fn lemma_indexed_complete(m: TreeModel, dirs: Map<Seq<Seq<u8>>, NodeId>, id: int, i: int)
    requires
        links_ok(m.nodes, m.root),
        0 <= id < m.nodes.len(),
        0 <= i < m.nodes.len(),
        reached(m.nodes, id, i),
        m.nodes[id].alive,
        m.nodes[i].kind !is File,
    ensures
        indexed(m.nodes, dirs, id, m.path_of(id)).dom().contains(comps(m.path_of(i))),
    decreases m.nodes.len() - id,
{
    let path = m.path_of(id);
    let key = comps(m.path_of(i));
    let here = if m.nodes[id].kind is File {
        dirs
    } else {
        dirs.insert(comps(path), id as u32)
    };
    let total = m.nodes[id].children.len();
    if i == id {
        lemma_indexed_grows(m.nodes, here, id, path, total, key);
    } else {
        let k = lemma_reached_child(m.nodes, m.root, id, i);
        let c = m.nodes[id].children[k] as int;
        assert(m.nodes[c].parent == Some(id as u32));
        let p = joined(path, encode_utf8(m.nodes[c].name));
        assert(p == m.path_of(c));
        let before = indexed_kids(m.nodes, here, id, path, k as nat);
        lemma_indexed_complete(m, before, c, i);
        assert(indexed_kids(m.nodes, here, id, path, (k + 1) as nat) == indexed(
            m.nodes,
            before,
            c,
            p,
        ));
        lemma_indexed_more(m.nodes, here, id, path, (k + 1) as nat, total, key);
    }
}

/// What is reached from a node but is not the node is reached from one of its
/// children, which is alive.
proof fn lemma_reached_child(nodes: Seq<NodeModel>, root: NodeId, id: int, i: int) -> (k: int)
    requires
        links_ok(nodes, root),
        0 <= id < nodes.len(),
        0 <= i < nodes.len(),
        reached(nodes, id, i),
        i != id,
    ensures
        0 <= k < nodes[id].children.len(),
        id < nodes[id].children[k] < nodes.len(),
        nodes[nodes[id].children[k] as int].alive,
        reached(nodes, nodes[id].children[k] as int, i),
    decreases i,
{
    let p = nodes[i].parent.unwrap() as int;
    if p == id {
        let k = choose|k: int| 0 <= k < nodes[id].children.len() && nodes[id].children[k] == i as u32;
        assert(nodes[id].children[k] == i);
        assert(reached(nodes, i, i));
        k
    } else {
        let k = lemma_reached_child(nodes, root, id, p);
        k
    }
}

/// An index that is made anew holds the path of each living directory and
/// nested mount, and leads from each path to one of these at that path. Where
/// several have the same path it leads to one of them.
pub proof fn law_reindexed(m: TreeModel, i: int, key: Seq<Seq<u8>>)
    requires
        m.wf(),
        m.nodes[m.root as int].alive,
    ensures
        0 <= i < m.nodes.len() && reached(m.nodes, m.root as int, i) && m.nodes[i].kind !is File
            ==> m.reindexed().dirs.dom().contains(comps(m.path_of(i))),
        m.reindexed().dirs.dom().contains(key) ==> ({
            let id = m.reindexed().dirs[key] as int;
            id < m.nodes.len() && reached(m.nodes, m.root as int, id) && m.nodes[id].kind !is File
                && comps(m.path_of(id)) == key
        }),
{
    let root = m.root as int;
    let none = Map::<Seq<Seq<u8>>, NodeId>::empty();
    assert(m.path_of(root) == m.root_path);
    if 0 <= i < m.nodes.len() && reached(m.nodes, root, i) && m.nodes[i].kind !is File {
        lemma_indexed_complete(m, none, root, i);
    }
    let here = if m.nodes[root].kind is File {
        none
    } else {
        none.insert(comps(m.root_path), m.root)
    };
    lemma_indexed_sound(m, here, root, m.nodes[root].children.len());
    let r = m.reindexed().dirs;
    assert(r == indexed_kids(m.nodes, here, root, m.root_path, m.nodes[root].children.len()));
    if r.dom().contains(key) {
        if here.dom().contains(key) && r[key] == here[key] {
            assert(reached(m.nodes, root, root));
        }
    }
}

} // verus!
