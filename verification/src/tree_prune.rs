//! Indexing a tree anew and cutting it to the stored depth.

use crate::path::{comps, joined, PathBuf};
use crate::sort::views;
use crate::tree::{links_ok, FileTree, Node, NodeId, NodeModel, TreeModel, MAX_NODES, STORE_DEPTH};
use crate::tree_remove::{
    below, lemma_under_all_children, lemma_under_children_step, live_file, subtree, under_children,
};
use vstd::prelude::*;
use vstd::set_lib::*;
use vstd::utf8::*;

verus! {

// ---------------------------------------------------------------------------
// The index
// ---------------------------------------------------------------------------

/// The index after the living nodes from `id` down were filed, a node before
/// its children. `path` is the path of `id`.
pub open spec fn indexed(
    nodes: Seq<NodeModel>,
    dirs: Map<Seq<Seq<u8>>, NodeId>,
    id: int,
    path: Seq<u8>,
) -> Map<Seq<Seq<u8>>, NodeId>
    decreases nodes.len() - id, nodes[id].children.len() + 1,
{
    if !nodes[id].alive {
        dirs
    } else {
        let here = if nodes[id].kind is File {
            dirs
        } else {
            dirs.insert(comps(path), id as u32)
        };
        indexed_kids(nodes, here, id, path, nodes[id].children.len())
    }
}

/// The index after the first `k` children of `id` were filed with all below
/// them.
pub open spec fn indexed_kids(
    nodes: Seq<NodeModel>,
    dirs: Map<Seq<Seq<u8>>, NodeId>,
    id: int,
    path: Seq<u8>,
    k: nat,
) -> Map<Seq<Seq<u8>>, NodeId>
    decreases nodes.len() - id, k,
{
    if k == 0 {
        dirs
    } else {
        let c = nodes[id].children[k - 1] as int;
        let before = indexed_kids(nodes, dirs, id, path, (k - 1) as nat);
        if id < c < nodes.len() {
            indexed(nodes, before, c, joined(path, encode_utf8(nodes[c].name)))
        } else {
            before
        }
    }
}

impl TreeModel {
    /// The tree with its index made anew.
    pub open spec fn reindexed(self) -> TreeModel {
        TreeModel {
            dirs: indexed(self.nodes, Map::empty(), self.root as int, self.root_path),
            ..self
        }
    }
}

impl FileTree {
    /// Files the living nodes from `id` down.
    fn walk_index(&mut self, id: NodeId, path: PathBuf)
        requires
            old(self).model().wf(),
            id < old(self).model().nodes.len(),
        ensures
            final(self).model() == (TreeModel {
                dirs: indexed(old(self).model().nodes, old(self).model().dirs, id as int, path@),
                ..old(self).model()
            }),
            final(self).model().wf(),
        decreases old(self).model().nodes.len() - id,
    {
        let ghost m = self.model();
        let at: usize = id as usize;
        assert(m.nodes[id as int] == self.nodes@[id as int]@);
        if !self.nodes[at].alive {
            return ;
        }
        if !self.nodes[at].kind.is_file() {
            self.dirs.insert(&path, id);
        }
        let ghost here = self.model().dirs;
        let n: usize = self.nodes[at].children.len();
        let mut k: usize = 0;
        while k < n
            invariant
                k <= n,
                m == old(self).model(),
                m.wf(),
                id < m.nodes.len(),
                at == id,
                n == m.nodes[id as int].children.len(),
                self.model() == (TreeModel {
                    dirs: indexed_kids(m.nodes, here, id as int, path@, k as nat),
                    ..m
                }),
                self.model().wf(),
            decreases n - k,
        {
            assert(m.nodes[id as int] == self.nodes@[id as int]@);
            let c: NodeId = self.nodes[at].children[k];
            assert(c == m.nodes[id as int].children[k as int]);
            assert(m.nodes[c as int] == self.nodes@[c as int]@);
            let below = path.join(self.nodes[c as usize].name.as_str());
            self.walk_index(c, below);
            k = k + 1;
        }
    }

    /// Makes the index of directories anew from the nodes.
    pub fn rebuild_index(&mut self)
        requires
            old(self).model().wf(),
        ensures
            final(self).model() == old(self).model().reindexed(),
            final(self).model().wf(),
    {
        self.dirs = crate::index::PathIndex::new();
        let root: NodeId = self.root;
        let path = self.root_path.clone();
        self.walk_index(root, path);
    }
}

// ---------------------------------------------------------------------------
// Height
// ---------------------------------------------------------------------------

/// How many levels of living nodes stand below `id`.
pub open spec fn height(nodes: Seq<NodeModel>, id: int) -> nat
    decreases nodes.len() - id, nodes[id].children.len() + 1,
{
    height_of_kids(nodes, id, nodes[id].children.len())
}

/// How many levels of living nodes stand below `id` under its first `k`
/// children.
pub open spec fn height_of_kids(nodes: Seq<NodeModel>, id: int, k: nat) -> nat
    decreases nodes.len() - id, k,
{
    if k == 0 {
        0
    } else {
        let c = nodes[id].children[k - 1] as int;
        let before = height_of_kids(nodes, id, (k - 1) as nat);
        if id < c < nodes.len() && nodes[c].alive && height(nodes, c) + 1 > before {
            height(nodes, c) + 1
        } else {
            before
        }
    }
}

proof fn lemma_height_bound(nodes: Seq<NodeModel>, id: int, k: nat)
    requires
        0 <= id < nodes.len(),
    ensures
        height_of_kids(nodes, id, k) <= nodes.len() - 1 - id,
    decreases nodes.len() - id, k,
{
    if k > 0 {
        lemma_height_bound(nodes, id, (k - 1) as nat);
        let c = nodes[id].children[k - 1] as int;
        if id < c < nodes.len() {
            lemma_height_bound(nodes, c, nodes[c].children.len());
            assert(height(nodes, c) == height_of_kids(nodes, c, nodes[c].children.len()));
        }
    }
}

impl FileTree {
    /// How many levels of living nodes stand below `id`.
    fn height_below(&self, id: NodeId) -> (r: u32)
        requires
            self.model().wf(),
            id < self.model().nodes.len(),
        ensures
            r == height(self.model().nodes, id as int),
        decreases self.model().nodes.len() - id,
    {
        let ghost nodes = self.model().nodes;
        let node = &self.nodes[id as usize];
        assert(nodes[id as int] == node@);
        let mut most: u32 = 0;
        let mut k: usize = 0;
        while k < node.children.len()
            invariant
                k <= node.children.len(),
                self.model().wf(),
                nodes == self.model().nodes,
                id < nodes.len(),
                nodes[id as int] == node@,
                most == height_of_kids(nodes, id as int, k as nat),
            decreases node.children.len() - k,
        {
            let c: NodeId = node.children[k];
            assert(c == nodes[id as int].children[k as int]);
            assert(nodes[c as int] == self.nodes@[c as int]@);
            if self.nodes[c as usize].alive {
                let h: u32 = self.height_below(c);
                proof {
                    lemma_height_bound(nodes, c as int, nodes[c as int].children.len());
                }
                if h + 1 > most {
                    most = h + 1;
                }
            }
            k = k + 1;
        }
        most
    }

    /// How many levels of living nodes stand below the root.
    pub(crate) fn max_depth(&self) -> (r: u32)
        requires
            self.model().wf(),
        ensures
            r == height(self.model().nodes, self.model().root as int),
    {
        self.height_below(self.root)
    }
}

// ---------------------------------------------------------------------------
// Pruning
// ---------------------------------------------------------------------------

/// `dest` with copies of the living nodes below `src_id` put under `dest_id`,
/// which stands at `depth`, down to the stored depth.
pub open spec fn copied(
    src: TreeModel,
    dest: TreeModel,
    src_id: int,
    dest_id: NodeId,
    depth: nat,
) -> TreeModel
    decreases STORE_DEPTH - depth, src.nodes[src_id].children.len() + 1,
{
    if depth >= STORE_DEPTH {
        dest
    } else {
        copied_kids(src, dest, src_id, dest_id, depth, src.nodes[src_id].children.len())
    }
}

/// `dest` with copies of the first `k` children of `src_id`.
pub open spec fn copied_kids(
    src: TreeModel,
    dest: TreeModel,
    src_id: int,
    dest_id: NodeId,
    depth: nat,
    k: nat,
) -> TreeModel
    decreases STORE_DEPTH - depth, k,
{
    if k == 0 || depth >= STORE_DEPTH {
        dest
    } else {
        let so_far = copied_kids(src, dest, src_id, dest_id, depth, (k - 1) as nat);
        let c = src.nodes[src_id].children[k - 1] as int;
        let n = src.nodes[c];
        if !n.alive {
            so_far
        } else {
            let added = so_far.grafted(dest_id, n.name, n.size, n.kind, None);
            if n.kind is Dir {
                copied(src, added, c, so_far.nodes.len() as u32, depth + 1)
            } else {
                added
            }
        }
    }
}

/// How many nodes are living files.
pub open spec fn live_files(nodes: Seq<NodeModel>) -> nat
    decreases nodes.len(),
{
    if nodes.len() == 0 {
        0
    } else {
        live_files(nodes.drop_last()) + if live_file(nodes.last()) {
            1nat
        } else {
            0
        }
    }
}

/// No more nodes are living files than there are.
pub proof fn lemma_live_files(nodes: Seq<NodeModel>)
    ensures
        live_files(nodes) <= nodes.len(),
    decreases nodes.len(),
{
    if nodes.len() > 0 {
        lemma_live_files(nodes.drop_last());
    }
}

impl TreeModel {
    /// A tree that holds the root node of this one alone.
    pub open spec fn root_alone(self) -> TreeModel {
        let start = TreeModel::fresh(self.root_path);
        let n = self.nodes[self.root as int];
        TreeModel {
            nodes: seq![NodeModel { name: n.name, size: n.size, ..start.nodes[0] }],
            ..start
        }
    }

    /// The tree without the nodes below the stored depth. Sizes stay: a
    /// directory at the stored depth keeps the size of all that was below it.
    pub open spec fn pruned(self) -> TreeModel {
        if height(self.nodes, self.root as int) <= STORE_DEPTH {
            TreeModel { store_depth: STORE_DEPTH, ..self }
        } else {
            let copy = copied(self, self.root_alone(), self.root as int, 0, 0);
            (TreeModel {
                bytes: copy.nodes[0].size,
                files: live_files(copy.nodes) as u64,
                ..copy
            }).reindexed()
        }
    }
}

pub proof fn lemma_subtree_finite(nodes: Seq<NodeModel>, s: Set<int>)
    requires
        forall|i: int| #[trigger] s.contains(i) ==> 0 <= i < nodes.len(),
    ensures
        s.finite(),
        s.len() <= nodes.len(),
{
    lemma_int_range(0, nodes.len() as int);
    assert(s.subset_of(set_int_range(0, nodes.len() as int)));
    lemma_len_subset(s, set_int_range(0, nodes.len() as int));
}

/// The nodes below one more child are those below the others, the child and
/// those below it.
pub proof fn lemma_kid_room(nodes: Seq<NodeModel>, root: NodeId, id: int, k: int)
    requires
        links_ok(nodes, root),
        0 <= id < nodes.len(),
        0 <= k < nodes[id].children.len(),
    ensures
        ({
            let c = nodes[id].children[k] as int;
            let inner = under_children(nodes, c, nodes[c].children.len() as int);
            &&& id < c < nodes.len()
            &&& under_children(nodes, id, k + 1).len() == under_children(nodes, id, k).len() + 1
                + inner.len()
            &&& under_children(nodes, id, k + 1).len() <= under_children(
                nodes,
                id,
                nodes[id].children.len() as int,
            ).len()
        }),
{
    let c = nodes[id].children[k] as int;
    let n = nodes[id].children.len() as int;
    lemma_under_children_step(nodes, root, id, k);
    let a = under_children(nodes, id, k);
    let b = subtree(nodes, c);
    lemma_subtree_finite(nodes, a);
    lemma_subtree_finite(nodes, b);
    assert(a.disjoint(b));
    lemma_set_disjoint_lens(a, b);
    lemma_under_all_children(nodes, root, c);
    let inner = under_children(nodes, c, nodes[c].children.len() as int);
    lemma_subtree_finite(nodes, inner);
    assert(b =~= inner.insert(c));
    let some = under_children(nodes, id, k + 1);
    let all = under_children(nodes, id, n);
    assert(some.subset_of(all)) by {
        assert forall|x: int| some.contains(x) implies all.contains(x) by {
            let j = choose|j: int|
                0 <= j < k + 1 && below(nodes, #[trigger] nodes[id].children[j] as int, x);
            assert(0 <= j < n && below(nodes, nodes[id].children[j] as int, x));
        }
    }
    lemma_subtree_finite(nodes, all);
    lemma_len_subset(some, all);
}

/// A copy has no more nodes than what it copies.
pub proof fn lemma_copied_len(
    src: TreeModel,
    dest: TreeModel,
    src_id: int,
    dest_id: NodeId,
    depth: nat,
    k: nat,
)
    requires
        links_ok(src.nodes, src.root),
        0 <= src_id < src.nodes.len(),
        k <= src.nodes[src_id].children.len(),
        dest_id < dest.nodes.len(),
        dest.nodes.len() + under_children(src.nodes, src_id, k as int).len() <= MAX_NODES,
        dest.files <= dest.nodes.len(),
    ensures
        dest.nodes.len() <= copied_kids(src, dest, src_id, dest_id, depth, k).nodes.len(),
        copied_kids(src, dest, src_id, dest_id, depth, k).nodes.len() <= dest.nodes.len()
            + under_children(src.nodes, src_id, k as int).len(),
        copied_kids(src, dest, src_id, dest_id, depth, k).files <= copied_kids(
            src,
            dest,
            src_id,
            dest_id,
            depth,
            k,
        ).nodes.len(),
    decreases STORE_DEPTH - depth, k,
{
    if k > 0 && depth < STORE_DEPTH {
        let j = (k - 1) as nat;
        lemma_kid_room(src.nodes, src.root, src_id, j as int);
        lemma_copied_len(src, dest, src_id, dest_id, depth, j);
        let so_far = copied_kids(src, dest, src_id, dest_id, depth, j);
        let c = src.nodes[src_id].children[k - 1] as int;
        let n = src.nodes[c];
        if n.alive {
            let added = so_far.grafted(dest_id, n.name, n.size, n.kind, None);
            if n.kind is Dir {
                let id = so_far.nodes.len() as u32;
                let total = src.nodes[c].children.len();
                lemma_copied_len(src, added, c, id, depth + 1, total);
                assert(copied(src, added, c, id, depth + 1) == copied_kids(
                    src,
                    added,
                    c,
                    id,
                    depth + 1,
                    total,
                ));
            }
        }
    }
}

/// Puts copies of the living nodes below `src_id` under `dest_id`.
fn copy_capped(
    src: &FileTree,
    dest: &mut FileTree,
    src_id: NodeId,
    dest_id: NodeId,
    dest_depth: u32,
)
    requires
        src.model().wf(),
        src_id < src.model().nodes.len(),
        old(dest).model().wf(),
        dest_id < old(dest).model().nodes.len(),
        old(dest).model().files <= old(dest).model().nodes.len(),
        old(dest).model().nodes.len() + under_children(
            src.model().nodes,
            src_id as int,
            src.model().nodes[src_id as int].children.len() as int,
        ).len() <= MAX_NODES,
    ensures
        final(dest).model() == copied(src.model(), old(dest).model(), src_id as int, dest_id, dest_depth as nat),
        final(dest).model().wf(),
        final(dest).model().files <= final(dest).model().nodes.len(),
    decreases STORE_DEPTH - dest_depth,
{
    if dest_depth >= STORE_DEPTH {
        return ;
    }
    let ghost m = src.model();
    let ghost start = dest.model();
    let node = &src.nodes[src_id as usize];
    assert(m.nodes[src_id as int] == node@);
    let ghost total = node.children@.len();
    let mut k: usize = 0;
    while k < node.children.len()
        invariant
            k <= node.children.len(),
            m == src.model(),
            m.wf(),
            src_id < m.nodes.len(),
            m.nodes[src_id as int] == node@,
            total == node.children@.len(),
            dest_depth < STORE_DEPTH,
            dest_id < start.nodes.len(),
            start.files <= start.nodes.len(),
            start.nodes.len() + under_children(m.nodes, src_id as int, total as int).len()
                <= MAX_NODES,
            dest.model() == copied_kids(m, start, src_id as int, dest_id, dest_depth as nat, k as nat),
            dest.model().wf(),
            dest.model().nodes.len() >= start.nodes.len(),
            dest.model().files <= dest.model().nodes.len(),
        decreases node.children.len() - k,
    {
        let c: NodeId = node.children[k];
        assert(c == m.nodes[src_id as int].children[k as int]);
        let n = &src.nodes[c as usize];
        assert(m.nodes[c as int] == n@);
        proof {
            lemma_kid_room(m.nodes, m.root, src_id as int, k as int);
            lemma_copied_len(m, start, src_id as int, dest_id, dest_depth as nat, k as nat);
            lemma_copied_len(m, start, src_id as int, dest_id, dest_depth as nat, (k + 1) as nat);
        }
        if n.alive {
            let id: NodeId = dest.graft_child(dest_id, n.name.clone(), n.size, n.kind.clone(), None);
            if n.kind.is_dir() {
                copy_capped(src, dest, c, id, dest_depth + 1);
            }
        }
        k = k + 1;
    }
}

/// How many nodes are living files.
fn count_live_files(nodes: &Vec<Node>) -> (r: u64)
    requires
        nodes@.len() <= MAX_NODES,
    ensures
        r == live_files(views(nodes@)),
        r <= nodes@.len(),
{
    let ghost all = views(nodes@);
    let mut count: u64 = 0;
    let mut i: usize = 0;
    while i < nodes.len()
        invariant
            i <= nodes.len() <= MAX_NODES,
            all == views(nodes@),
            count == live_files(all.take(i as int)),
            count <= i,
        decreases nodes.len() - i,
    {
        assert(all.take(i + 1).drop_last() == all.take(i as int));
        assert(all.take(i + 1).last() == nodes@[i as int]@);
        if nodes[i].alive && nodes[i].kind.is_file() {
            count = count + 1;
        }
        i = i + 1;
    }
    assert(all.take(all.len() as int) == all);
    count
}

impl FileTree {
    /// Drops the nodes below the stored depth, keeping the sizes of all that
    /// was below on the nodes that stay.
    pub fn prune_to_store_depth(&mut self)
        requires
            old(self).model().wf(),
        ensures
            final(self).model() == old(self).model().pruned(),
            final(self).model().wf(),
    {
        let ghost m = self.model();
        if self.max_depth() <= STORE_DEPTH {
            self.store_depth = STORE_DEPTH;
            return ;
        }
        let mut next = FileTree::new(self.root_path.clone());
        let root = &self.nodes[self.root as usize];
        assert(m.nodes[m.root as int] == root@);
        next.nodes[0].name = root.name.clone();
        next.nodes[0].size = root.size;
        assert(next.model().nodes =~= m.root_alone().nodes);
        assert(next.model() =~= m.root_alone());
        proof {
            let n = m.nodes[m.root as int].children.len();
            lemma_under_all_children(m.nodes, m.root, m.root as int);
            let inner = under_children(m.nodes, m.root as int, n as int);
            lemma_subtree_finite(m.nodes, inner);
            lemma_subtree_finite(m.nodes, inner.insert(m.root as int));
        }
        copy_capped(self, &mut next, self.root, 0, 0);
        next.bytes = next.nodes[next.root as usize].size;
        next.files = count_live_files(&next.nodes);
        next.rebuild_index();
        *self = next;
    }
}

} // verus!
