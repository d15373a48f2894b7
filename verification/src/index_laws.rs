//! The index of a tree holds the paths of its living directories and nested
//! mounts, and every operation on the tree keeps it so.

use crate::path::{comps, dots_comp, lemma_joined_comps, parent_path, plain, under};
use crate::prune_laws::{law_reindexed, reached};
use crate::text::lemma_utf8_injective;
use crate::tree::{
    base_text, first_named, lemma_first_named, lemma_path_of_same, lemma_with_child_wf, NodeId,
    NodeModel, StoredModel, TreeModel, MAX_NODES, STORE_DEPTH,
};
use crate::tree_prune::{copied, copied_kids, height, lemma_copied_len, lemma_kid_room};
use crate::tree_remove::{
    below, lemma_below_after, lemma_killed_wf, lemma_node_at, lemma_without, subtree,
    under_children, without,
};
use vstd::prelude::*;
use vstd::utf8::*;

verus! {

/// Whether a text can name a node: it is a plain component and does not stand
/// for the directory above.
pub open spec fn name_ok(name: Seq<char>) -> bool {
    plain(encode_utf8(name)) && encode_utf8(name) != dots_comp()
}

impl TreeModel {
    /// Whether a node is alive and linked to the root by living nodes.
    pub open spec fn lives(self, i: int) -> bool {
        0 <= i < self.nodes.len() && reached(self.nodes, self.root as int, i)
    }

    /// Whether the nodes are in order: the root is a living directory, children
    /// are alive and have names, no file has children, and no two children of
    /// a node have the same name.
    pub open spec fn nodes_ok(self) -> bool {
        &&& self.nodes[self.root as int].alive
        &&& self.nodes[self.root as int].kind is Dir
        &&& forall|i: int, k: int|
            0 <= i < self.nodes.len() && 0 <= k < self.nodes[i].children.len() ==> self.child_ok(
                i,
                #[trigger] self.nodes[i].children[k],
            )
        &&& forall|i: int, j: int, k: int|
            0 <= i < self.nodes.len() && 0 <= j < k < self.nodes[i].children.len()
                ==> self.nodes[(#[trigger] self.nodes[i].children[j]) as int].name != self.nodes[(
            #[trigger] self.nodes[i].children[k]) as int].name
    }

    /// Whether `c` can be a child of `i`.
    pub open spec fn child_ok(self, i: int, c: NodeId) -> bool {
        &&& self.nodes[c as int].alive
        &&& name_ok(self.nodes[c as int].name)
        &&& self.nodes[i].kind !is File
    }

    /// Whether the index is exact: it leads from each path that it holds to a
    /// living directory or nested mount at that path, and it holds the path of
    /// each of these.
    pub open spec fn index_ok(self) -> bool {
        &&& forall|k: Seq<Seq<u8>>| #[trigger]
            self.dirs.dom().contains(k) ==> self.lives(self.dirs[k] as int)
                && self.nodes[self.dirs[k] as int].kind !is File && comps(
                self.path_of(self.dirs[k] as int),
            ) == k
        &&& forall|i: int| #[trigger]
            self.lives(i) && self.nodes[i].kind !is File ==> self.dirs.dom().contains(
                comps(self.path_of(i)),
            )
    }

    /// Whether the tree is well formed, its nodes are in order and its index is
    /// exact.
    pub open spec fn orderly(self) -> bool {
        self.wf() && self.nodes_ok() && self.index_ok()
    }
}

// ---------------------------------------------------------------------------
// Paths
// ---------------------------------------------------------------------------

/// The parent of a living node lives, and the path of the node is that of the
/// parent with the name behind it.
pub proof fn lemma_path_step(m: TreeModel, i: int)
    requires
        m.wf(),
        m.nodes_ok(),
        m.lives(i),
        i != m.root,
    ensures
        m.nodes[i].parent matches Some(p) && p < i && m.lives(p as int)
            && m.nodes[p as int].children.contains(i as u32) && name_ok(m.nodes[i].name)
            && m.nodes[p as int].kind !is File && comps(m.path_of(i)) == comps(
            m.path_of(p as int),
        ).push(encode_utf8(m.nodes[i].name)),
{
    let p = m.nodes[i].parent.unwrap();
    let kids = m.nodes[p as int].children;
    let k = choose|k: int| 0 <= k < kids.len() && kids[k] == i as u32;
    assert(m.child_ok(p as int, m.nodes[p as int].children[k]));
    lemma_joined_comps(m.path_of(p as int), encode_utf8(m.nodes[i].name));
}

/// A living node lies below the root.
pub proof fn lemma_lives_under(m: TreeModel, i: int)
    requires
        m.wf(),
        m.nodes_ok(),
        m.lives(i),
    ensures
        under(m.path_of(i), m.root_path),
        i != m.root ==> comps(m.path_of(i)).len() > comps(m.root_path).len(),
        i == m.root ==> m.path_of(i) == m.root_path,
    decreases i,
{
    if i != m.root {
        lemma_path_step(m, i);
        let p = m.nodes[i].parent.unwrap() as int;
        lemma_lives_under(m, p);
        let cs = comps(m.path_of(i));
        assert(cs.take(comps(m.root_path).len() as int) =~= comps(m.path_of(p)).take(
            comps(m.root_path).len() as int,
        ));
    }
}

/// Two living nodes have different paths.
pub proof fn lemma_paths_differ(m: TreeModel, i: int, j: int)
    requires
        m.wf(),
        m.nodes_ok(),
        m.lives(i),
        m.lives(j),
        comps(m.path_of(i)) == comps(m.path_of(j)),
    ensures
        i == j,
    decreases i,
{
    lemma_lives_under(m, i);
    lemma_lives_under(m, j);
    if i != m.root && j != m.root {
        lemma_path_step(m, i);
        lemma_path_step(m, j);
        let p = m.nodes[i].parent.unwrap() as int;
        let q = m.nodes[j].parent.unwrap() as int;
        let a = comps(m.path_of(p));
        let b = comps(m.path_of(q));
        let x = encode_utf8(m.nodes[i].name);
        let y = encode_utf8(m.nodes[j].name);
        assert(a.push(x).last() == x && b.push(y).last() == y);
        assert(a.push(x).drop_last() =~= a && b.push(y).drop_last() =~= b);
        lemma_paths_differ(m, p, q);
        lemma_utf8_injective(m.nodes[i].name, m.nodes[j].name);
        let kids = m.nodes[p].children;
        let s = choose|s: int| 0 <= s < kids.len() && kids[s] == i as u32;
        let t = choose|t: int| 0 <= t < kids.len() && kids[t] == j as u32;
        if s < t {
            assert(m.nodes[m.nodes[p].children[s] as int].name
                != m.nodes[m.nodes[p].children[t] as int].name);
        } else if t < s {
            assert(m.nodes[m.nodes[p].children[t] as int].name
                != m.nodes[m.nodes[p].children[s] as int].name);
        }
    }
}

/// The index leads from the path of each living directory and nested mount to
/// just that node, and it holds no other path.
pub proof fn law_index_exact(m: TreeModel, i: int, key: Seq<Seq<u8>>)
    requires
        m.orderly(),
    ensures
        m.lives(i) && m.nodes[i].kind !is File ==> m.dirs.dom().contains(comps(m.path_of(i)))
            && m.dirs[comps(m.path_of(i))] == i,
        m.dirs.dom().contains(key) <==> exists|x: int| #[trigger]
            m.lives(x) && m.nodes[x].kind !is File && comps(m.path_of(x)) == key,
{
    if m.lives(i) && m.nodes[i].kind !is File {
        lemma_paths_differ(m, m.dirs[comps(m.path_of(i))] as int, i);
    }
    if m.dirs.dom().contains(key) {
        assert(m.lives(m.dirs[key] as int));
    }
}

/// The path of a living directory or nested mount, and of each directory above
/// it, is in the index.
pub proof fn lemma_prefix_indexed(m: TreeModel, i: int, n: int)
    requires
        m.orderly(),
        m.lives(i),
        m.nodes[i].kind !is File,
        comps(m.root_path).len() <= n <= comps(m.path_of(i)).len(),
    ensures
        m.dirs.dom().contains(comps(m.path_of(i)).take(n)),
    decreases i,
{
    let cs = comps(m.path_of(i));
    lemma_lives_under(m, i);
    if n == cs.len() {
        assert(cs.take(n) =~= cs);
    } else {
        lemma_path_step(m, i);
        let p = m.nodes[i].parent.unwrap() as int;
        lemma_prefix_indexed(m, p, n);
        assert(comps(m.path_of(p)).take(n) =~= cs.take(n));
    }
}

// ---------------------------------------------------------------------------
// One more node
// ---------------------------------------------------------------------------

/// Whether a node lives is decided by the links and by which nodes are alive.
pub proof fn lemma_reached_same(a: Seq<NodeModel>, b: Seq<NodeModel>, top: int, i: int)
    requires
        0 <= i < a.len() <= b.len(),
        forall|x: int|
            0 <= x < a.len() ==> (#[trigger] a[x]).alive == b[x].alive && a[x].parent == b[x].parent,
        forall|x: int, y: u32|
            0 <= x < a.len() && y < a.len() ==> (#[trigger] a[x].children.contains(y))
                == b[x].children.contains(y),
    ensures
        reached(a, top, i) == reached(b, top, i),
    decreases i,
{
    assert(a[i].alive == b[i].alive);
    if i != top {
        match a[i].parent {
            Some(p) => {
                if p < i {
                    lemma_reached_same(a, b, top, p as int);
                    if i <= u32::MAX {
                        assert(a[p as int].children.contains(i as u32)
                            == b[p as int].children.contains(i as u32));
                    }
                }
            },
            None => {},
        }
    }
}

/// A tree whose nodes differ from those of an orderly one in their sizes alone
/// is orderly.
pub proof fn lemma_orderly_sizes(a: TreeModel, b: TreeModel)
    requires
        a.orderly(),
        b.wf(),
        a.root == b.root,
        a.root_path == b.root_path,
        a.dirs == b.dirs,
        a.nodes.len() == b.nodes.len(),
        forall|i: int|
            0 <= i < a.nodes.len() ==> #[trigger] b.nodes[i] == (NodeModel {
                size: b.nodes[i].size,
                ..a.nodes[i]
            }),
    ensures
        b.orderly(),
        forall|i: int| #[trigger] b.lives(i) == a.lives(i),
{
    assert forall|i: int| #[trigger] b.lives(i) == a.lives(i) by {
        if 0 <= i < a.nodes.len() {
            lemma_reached_same(a.nodes, b.nodes, a.root as int, i);
        }
    }
    assert forall|i: int, k: int|
        0 <= i < b.nodes.len() && 0 <= k < b.nodes[i].children.len() implies b.child_ok(
        i,
        #[trigger] b.nodes[i].children[k],
    ) by {
        assert(a.child_ok(i, a.nodes[i].children[k]));
    }
    assert forall|i: int, j: int, k: int|
        0 <= i < b.nodes.len() && 0 <= j < k < b.nodes[i].children.len() implies b.nodes[(
    #[trigger] b.nodes[i].children[j]) as int].name != b.nodes[(
    #[trigger] b.nodes[i].children[k]) as int].name by {
        assert(a.nodes[a.nodes[i].children[j] as int].name
            != a.nodes[a.nodes[i].children[k] as int].name);
    }
    assert forall|k: Seq<Seq<u8>>| #[trigger] b.dirs.dom().contains(k) implies b.lives(
        b.dirs[k] as int,
    ) && b.nodes[b.dirs[k] as int].kind !is File && comps(b.path_of(b.dirs[k] as int)) == k by {
        lemma_path_of_same(a, b, b.dirs[k] as int);
    }
    assert forall|i: int| #[trigger] b.lives(i) && b.nodes[i].kind
        !is File implies b.dirs.dom().contains(comps(b.path_of(i))) by {
        assert(a.lives(i));
        lemma_path_of_same(a, b, i);
    }
}

/// A node can be put under `parent` in order: it lives and is no file, the name
/// is good and no other child has it, and anything but a file is filed under
/// the path that it gets.
pub open spec fn fits(
    m: TreeModel,
    parent: NodeId,
    name: Seq<char>,
    kind: StoredModel,
    path: Option<Seq<u8>>,
) -> bool {
    &&& m.lives(parent as int)
    &&& m.nodes[parent as int].kind !is File
    &&& name_ok(name)
    &&& first_named(m.nodes, m.nodes[parent as int].children, name) is None
    &&& kind !is File ==> path is Some && comps(path.unwrap()) == comps(
        m.path_of(parent as int),
    ).push(encode_utf8(name))
}

/// A node with a good name that no other child has keeps the nodes in order.
pub proof fn lemma_added_nodes(
    m: TreeModel,
    parent: NodeId,
    name: Seq<char>,
    size: u64,
    kind: StoredModel,
    path: Option<Seq<u8>>,
)
    requires
        m.wf(),
        m.nodes_ok(),
        parent < m.nodes.len() < MAX_NODES,
        m.nodes[parent as int].kind !is File,
        name_ok(name),
        first_named(m.nodes, m.nodes[parent as int].children, name) is None,
    ensures
        m.grafted(parent, name, size, kind, path).wf(),
        m.grafted(parent, name, size, kind, path).nodes_ok(),
{
    let t = m.grafted(parent, name, size, kind, path);
    let new = m.nodes.len() as int;
    let kids = m.nodes[parent as int].children;
    lemma_with_child_wf(m, parent, name, size, kind, path);
    lemma_first_named(m.nodes, kids, name);
    assert(t.nodes[parent as int].children == kids.push(new as u32));
    assert forall|i: int, k: int|
        0 <= i < t.nodes.len() && 0 <= k < t.nodes[i].children.len() implies t.child_ok(
        i,
        #[trigger] t.nodes[i].children[k],
    ) by {
        if i == parent && k == kids.len() {
        } else {
            assert(m.nodes[i].children[k] == t.nodes[i].children[k]);
            assert(m.child_ok(i, m.nodes[i].children[k]));
        }
    }
    assert forall|i: int, j: int, k: int|
        0 <= i < t.nodes.len() && 0 <= j < k < t.nodes[i].children.len() implies t.nodes[(
    #[trigger] t.nodes[i].children[j]) as int].name != t.nodes[(
    #[trigger] t.nodes[i].children[k]) as int].name by {
        assert(m.nodes[i].children[j] == t.nodes[i].children[j]);
        assert(m.child_ok(i, m.nodes[i].children[j]));
        if i == parent && k == kids.len() {
            assert(m.nodes[kids[j] as int].name != name);
        } else {
            assert(m.nodes[i].children[k] == t.nodes[i].children[k]);
        }
    }
}

/// A node that fits keeps the tree orderly, with or without its size counted
/// above it. It lives, and so do just the nodes that did.
pub proof fn law_added_orderly(
    m: TreeModel,
    parent: NodeId,
    name: Seq<char>,
    size: u64,
    kind: StoredModel,
    path: Option<Seq<u8>>,
)
    requires
        m.orderly(),
        fits(m, parent, name, kind, path),
        m.has_room(),
    ensures
        ({
            let t = m.grafted(parent, name, size, kind, path);
            let new = m.nodes.len() as int;
            &&& t.orderly()
            &&& m.with_child(parent, name, size, kind, path).orderly()
            &&& t.lives(new)
            &&& comps(t.path_of(new)) == comps(m.path_of(parent as int)).push(encode_utf8(name))
            &&& forall|i: int| 0 <= i < new ==> #[trigger] t.lives(i) == m.lives(i)
        }),
{
    let t = m.grafted(parent, name, size, kind, path);
    let new = m.nodes.len() as int;
    let kids = m.nodes[parent as int].children;
    lemma_with_child_wf(m, parent, name, size, kind, path);
    lemma_first_named(m.nodes, kids, name);
    assert(t.nodes[parent as int].children == kids.push(new as u32));
    assert(kids.push(new as u32)[kids.len() as int] == new as u32);
    assert(t.nodes[parent as int].children.contains(new as u32));
    assert forall|x: int, y: u32| 0 <= x < m.nodes.len() && y < m.nodes.len() implies (
    #[trigger] m.nodes[x].children.contains(y)) == t.nodes[x].children.contains(y) by {
        if x == parent {
            if m.nodes[x].children.contains(y) {
                let k = choose|k: int| 0 <= k < kids.len() && kids[k] == y;
                assert(t.nodes[x].children[k] == y);
            }
            if t.nodes[x].children.contains(y) {
                let k = choose|k: int|
                    0 <= k < t.nodes[x].children.len() && t.nodes[x].children[k] == y;
                assert(kids[k] == y);
            }
        }
    }
    assert forall|i: int| 0 <= i < new implies #[trigger] t.lives(i) == m.lives(i) by {
        lemma_reached_same(m.nodes, t.nodes, m.root as int, i);
    }
    assert(t.lives(parent as int));
    assert(t.lives(new));
    lemma_added_nodes(m, parent, name, size, kind, path);
    lemma_path_of_same(m, t, parent as int);
    lemma_path_step(t, new);
    assert forall|k: Seq<Seq<u8>>| #[trigger] t.dirs.dom().contains(k) implies t.lives(
        t.dirs[k] as int,
    ) && t.nodes[t.dirs[k] as int].kind !is File && comps(t.path_of(t.dirs[k] as int)) == k by {
        if kind !is File && k == comps(path.unwrap()) {
        } else {
            assert(m.dirs.dom().contains(k));
            lemma_path_of_same(m, t, m.dirs[k] as int);
        }
    }
    assert forall|i: int| #[trigger] t.lives(i) && t.nodes[i].kind
        !is File implies t.dirs.dom().contains(comps(t.path_of(i))) by {
        if i < new {
            assert(m.lives(i));
            lemma_path_of_same(m, t, i);
        }
    }
    assert(t.orderly());
    let w = m.with_child(parent, name, size, kind, path);
    lemma_orderly_sizes(t, w);
}

/// A new size keeps the tree orderly.
pub proof fn law_resized_orderly(m: TreeModel, id: NodeId, size: u64)
    requires
        m.orderly(),
        id < m.nodes.len(),
    ensures
        m.resized(id, size).orderly(),
        forall|i: int| #[trigger] m.resized(id, size).lives(i) == m.lives(i),
{
    let t = m.resized(id, size);
    crate::tree::lemma_same_links_ok(m.nodes, t.nodes, m.root);
    lemma_orderly_sizes(m, t);
}

/// A tree that holds its root alone is orderly.
pub proof fn law_fresh_orderly(root_path: Seq<u8>)
    ensures
        TreeModel::fresh(root_path).orderly(),
{
    let m = TreeModel::fresh(root_path);
    assert(m.nodes[0].children.len() == 0);
    assert(m.path_of(0) == root_path);
}

// ---------------------------------------------------------------------------
// Removal
// ---------------------------------------------------------------------------

/// What is linked to a living node lives.
proof fn lemma_below_lives(m: TreeModel, id: int, i: int)
    requires
        m.wf(),
        m.nodes_ok(),
        m.lives(id),
        0 <= i < m.nodes.len(),
        below(m.nodes, id, i),
    ensures
        m.lives(i),
    decreases i,
{
    if i != id {
        let p = m.nodes[i].parent.unwrap() as int;
        lemma_below_lives(m, id, p);
        let kids = m.nodes[p].children;
        let k = choose|k: int| 0 <= k < kids.len() && kids[k] == i as u32;
        assert(m.child_ok(p, m.nodes[p].children[k]));
    }
}

/// After a removal just those nodes live that did and were not removed.
pub proof fn lemma_lives_killed(m: TreeModel, id: NodeId, i: int)
    requires
        m.wf(),
        m.nodes_ok(),
        m.lives(id as int),
        id != m.root,
        0 <= i < m.nodes.len(),
    ensures
        m.killed(id).lives(i) == (m.lives(i) && !below(m.nodes, id as int, i)),
    decreases i,
{
    let t = m.killed(id);
    let p = m.nodes[id as int].parent.unwrap() as int;
    let gone = subtree(m.nodes, id as int);
    let w = m.wiped(gone);
    lemma_without(w.nodes[p].children, id);
    if below(m.nodes, id as int, p) {
        lemma_below_after(m.nodes, id as int, p);
    }
    assert(t.nodes[i].parent == m.nodes[i].parent);
    assert(t.nodes[i].alive == (m.nodes[i].alive && !below(m.nodes, id as int, i)));
    if i == m.root {
    } else {
        let q = m.nodes[i].parent.unwrap() as int;
        lemma_lives_killed(m, id, q);
        if !below(m.nodes, id as int, i) {
            assert(i != id);
            if m.nodes[q].children.contains(i as u32) {
                assert(!below(m.nodes, id as int, q));
                assert(t.nodes[q].children.contains(i as u32));
            }
            if t.nodes[q].children.contains(i as u32) {
                assert(!gone.contains(q));
                assert(m.nodes[q].children.contains(i as u32));
            }
        }
    }
}

/// Removing a living node keeps the tree orderly.
pub proof fn lemma_killed_orderly(m: TreeModel, id: NodeId)
    requires
        m.orderly(),
        m.lives(id as int),
    ensures
        m.killed(id).orderly(),
{
    if id != m.root {
        let t = m.killed(id);
        let p = m.nodes[id as int].parent.unwrap() as int;
        let gone = subtree(m.nodes, id as int);
        let w = m.wiped(gone);
        let was = m.nodes[p].children;
        lemma_killed_wf(m, id);
        if below(m.nodes, id as int, p) {
            lemma_below_after(m.nodes, id as int, p);
        }
        lemma_without(was, id);
        assert(t.nodes[p].children == without(was, id));
        assert forall|i: int, k: int|
            0 <= i < t.nodes.len() && 0 <= k < t.nodes[i].children.len() implies !gone.contains(i)
            && m.nodes[i].children.contains(#[trigger] t.nodes[i].children[k])
            && t.nodes[i].children[k] != id by {
            let c = t.nodes[i].children[k];
            if i == p {
                assert(without(was, id).contains(c));
            } else {
                assert(m.nodes[i].children[k] == c);
                assert(m.nodes[c as int].parent == Some(i as u32));
            }
        }
        assert forall|i: int, k: int|
            0 <= i < t.nodes.len() && 0 <= k < t.nodes[i].children.len() implies t.child_ok(
            i,
            #[trigger] t.nodes[i].children[k],
        ) by {
            let c = t.nodes[i].children[k];
            let j = choose|j: int|
                0 <= j < m.nodes[i].children.len() && m.nodes[i].children[j] == c;
            assert(m.child_ok(i, m.nodes[i].children[j]));
            assert(m.nodes[c as int].parent == Some(i as u32));
            assert(!gone.contains(c as int));
        }
        assert forall|i: int, j: int, k: int|
            0 <= i < t.nodes.len() && 0 <= j < k < t.nodes[i].children.len() implies t.nodes[(
        #[trigger] t.nodes[i].children[j]) as int].name != t.nodes[(
        #[trigger] t.nodes[i].children[k]) as int].name by {
            let c = t.nodes[i].children[j];
            let d = t.nodes[i].children[k];
            assert(t.nodes[i].children.no_duplicates());
            assert(m.nodes[i].children.contains(c) && m.nodes[i].children.contains(d));
            let a = choose|a: int|
                0 <= a < m.nodes[i].children.len() && m.nodes[i].children[a] == c;
            let b = choose|b: int|
                0 <= b < m.nodes[i].children.len() && m.nodes[i].children[b] == d;
            if a < b {
                assert(m.nodes[m.nodes[i].children[a] as int].name
                    != m.nodes[m.nodes[i].children[b] as int].name);
            } else {
                assert(m.nodes[m.nodes[i].children[b] as int].name
                    != m.nodes[m.nodes[i].children[a] as int].name);
            }
        }
        if gone.contains(m.root as int) {
            assert(false);
        }
        assert(t.nodes_ok());
        assert forall|k: Seq<Seq<u8>>| #[trigger] t.dirs.dom().contains(k) implies t.lives(
            t.dirs[k] as int,
        ) && t.nodes[t.dirs[k] as int].kind !is File && comps(t.path_of(t.dirs[k] as int))
            == k by {
            assert(m.dirs.dom().contains(k));
            let x = m.dirs[k] as int;
            assert(m.lives(x));
            lemma_lives_killed(m, id, x);
            lemma_path_of_same(m, t, x);
            if below(m.nodes, id as int, x) {
                assert(gone.contains(x));
                assert(m.keys_of(gone).contains(k));
            }
        }
        assert forall|i: int| #[trigger] t.lives(i) && t.nodes[i].kind
            !is File implies t.dirs.dom().contains(comps(t.path_of(i))) by {
            lemma_lives_killed(m, id, i);
            lemma_path_of_same(m, t, i);
            let key = comps(m.path_of(i));
            assert(m.dirs.dom().contains(key));
            if m.keys_of(gone).contains(key) {
                let g = choose|g: int| #[trigger] gone.contains(g) && key == comps(m.path_of(g));
                lemma_below_lives(m, id as int, g);
                lemma_paths_differ(m, g, i);
            }
        }
    }
}

/// The node that stands for a path lives.
pub proof fn lemma_node_at_lives(m: TreeModel, path: Seq<u8>)
    requires
        m.orderly(),
    ensures
        m.node_at(path) matches Some(id) ==> m.lives(id as int),
{
    lemma_node_at(m, path);
    if !m.dirs.dom().contains(comps(path)) {
        match parent_path(path) {
            Some(q) => {
                if m.dirs.dom().contains(comps(q)) {
                    let pid = m.dirs[comps(q)] as int;
                    assert(m.lives(pid));
                    let kids = m.nodes[pid].children;
                    lemma_first_named(m.nodes, kids, base_text(path));
                    match first_named(m.nodes, kids, base_text(path)) {
                        Some(c) => {
                            let k = choose|k: int| 0 <= k < kids.len() && kids[k] == c;
                            assert(m.nodes[pid].children[k] == c);
                            assert(m.nodes[c as int].parent == Some(pid as u32));
                        },
                        None => {},
                    }
                }
            },
            None => {},
        }
    }
}

/// Removing a path keeps the tree orderly.
pub proof fn law_removed_orderly(m: TreeModel, path: Seq<u8>)
    requires
        m.orderly(),
    ensures
        m.removed(path).orderly(),
{
    lemma_node_at_lives(m, path);
    match m.node_at(path) {
        Some(id) => lemma_killed_orderly(m, id),
        None => {},
    }
}

// ---------------------------------------------------------------------------
// Making the index anew
// ---------------------------------------------------------------------------

/// A tree whose nodes are in order is orderly once its index is made anew.
pub proof fn law_reindexed_orderly(m: TreeModel)
    requires
        m.wf(),
        m.nodes_ok(),
    ensures
        m.reindexed().orderly(),
{
    let t = m.reindexed();
    assert forall|i: int| #[trigger] t.lives(i) == m.lives(i) by {}
    assert forall|k: Seq<Seq<u8>>| #[trigger] t.dirs.dom().contains(k) implies t.lives(
        t.dirs[k] as int,
    ) && t.nodes[t.dirs[k] as int].kind !is File && comps(t.path_of(t.dirs[k] as int)) == k by {
        law_reindexed(m, 0, k);
        lemma_path_of_same(m, t, t.dirs[k] as int);
    }
    assert forall|i: int| #[trigger] t.lives(i) && t.nodes[i].kind
        !is File implies t.dirs.dom().contains(comps(t.path_of(i))) by {
        law_reindexed(m, i, Seq::empty());
        lemma_path_of_same(m, t, i);
    }
    assert forall|i: int, k: int|
        0 <= i < t.nodes.len() && 0 <= k < t.nodes[i].children.len() implies t.child_ok(
        i,
        #[trigger] t.nodes[i].children[k],
    ) by {
        assert(m.child_ok(i, m.nodes[i].children[k]));
    }
}

/// Copies of nodes that are in order, put under a directory without children,
/// are in order.
proof fn lemma_copied_nodes(
    src: TreeModel,
    dest: TreeModel,
    src_id: int,
    dest_id: NodeId,
    depth: nat,
    k: nat,
)
    requires
        src.wf(),
        src.nodes_ok(),
        0 <= src_id < src.nodes.len(),
        k <= src.nodes[src_id].children.len(),
        dest.wf(),
        dest.nodes_ok(),
        dest_id < dest.nodes.len(),
        dest.nodes[dest_id as int].kind !is File,
        dest.nodes[dest_id as int].children.len() == 0,
        dest.files <= dest.nodes.len(),
        dest.nodes.len() + under_children(src.nodes, src_id, k as int).len() <= MAX_NODES,
    ensures
        ({
            let r = copied_kids(src, dest, src_id, dest_id, depth, k);
            &&& r.wf()
            &&& r.nodes_ok()
            &&& r.root == dest.root
            &&& r.files <= r.nodes.len()
            &&& r.nodes.len() >= dest.nodes.len()
            &&& forall|i: int|
                0 <= i < dest.nodes.len() ==> (#[trigger] r.nodes[i]).name == dest.nodes[i].name
                    && r.nodes[i].kind == dest.nodes[i].kind && (i != dest_id
                    ==> r.nodes[i].children == dest.nodes[i].children)
            &&& forall|q: int|
                0 <= q < r.nodes[dest_id as int].children.len() ==> has_name(
                    src,
                    src_id,
                    k,
                    r.nodes[(#[trigger] r.nodes[dest_id as int].children[q]) as int].name,
                )
        }),
    decreases STORE_DEPTH - depth, k,
{
    if k > 0 && depth < STORE_DEPTH {
        let j = (k - 1) as nat;
        let d = dest_id as int;
        lemma_kid_room(src.nodes, src.root, src_id, j as int);
        lemma_copied_len(src, dest, src_id, dest_id, depth, j);
        lemma_copied_nodes(src, dest, src_id, dest_id, depth, j);
        let so_far = copied_kids(src, dest, src_id, dest_id, depth, j);
        let r = copied_kids(src, dest, src_id, dest_id, depth, k);
        let c = src.nodes[src_id].children[k - 1] as int;
        assert(src.child_ok(src_id, src.nodes[src_id].children[k - 1]));
        let n = src.nodes[c];
        let x = so_far.nodes.len() as int;
        let was = so_far.nodes[d].children;
        lemma_first_named(so_far.nodes, was, n.name);
        match first_named(so_far.nodes, was, n.name) {
            Some(y) => {
                let q = choose|q: int| 0 <= q < was.len() && was[q] == y;
                assert(has_name(src, src_id, j, so_far.nodes[was[q] as int].name));
                let b = choose|b: int|
                    0 <= b < j && src.nodes[(
                    #[trigger] src.nodes[src_id].children[b]) as int].name == n.name;
                assert(src.nodes[src.nodes[src_id].children[b] as int].name
                    != src.nodes[src.nodes[src_id].children[k - 1] as int].name);
            },
            None => {},
        }
        lemma_added_nodes(so_far, dest_id, n.name, n.size, n.kind, None);
        let added = so_far.grafted(dest_id, n.name, n.size, n.kind, None);
        assert(added.nodes[d].children == was.push(x as u32));
        if n.kind is Dir {
            let total = n.children.len();
            lemma_copied_nodes(src, added, c, x as u32, depth + 1, total);
            assert(copied(src, added, c, x as u32, depth + 1) == copied_kids(
                src,
                added,
                c,
                x as u32,
                depth + 1,
                total,
            ));
        } else {
            assert(r == added);
        }
        assert(r.nodes[d].children == was.push(x as u32));
        assert forall|i: int| 0 <= i < dest.nodes.len() implies (#[trigger] r.nodes[i]).name
            == dest.nodes[i].name && r.nodes[i].kind == dest.nodes[i].kind && (i != dest_id
            ==> r.nodes[i].children == dest.nodes[i].children) by {
            assert(so_far.nodes[i].name == dest.nodes[i].name);
            assert(added.nodes[i].name == so_far.nodes[i].name);
        }
        assert forall|q: int| 0 <= q < r.nodes[d].children.len() implies has_name(
            src,
            src_id,
            k,
            r.nodes[(#[trigger] r.nodes[d].children[q]) as int].name,
        ) by {
            if q < was.len() {
                let y = was[q] as int;
                assert(so_far.nodes[d].children[q] == y);
                assert(has_name(src, src_id, j, so_far.nodes[y].name));
                let b = choose|b: int|
                    0 <= b < j && src.nodes[(
                    #[trigger] src.nodes[src_id].children[b]) as int].name == so_far.nodes[y].name;
                assert(added.nodes[y].name == so_far.nodes[y].name);
                assert(r.nodes[y].name == added.nodes[y].name);
                assert(src.nodes[src.nodes[src_id].children[b] as int].name == r.nodes[y].name);
            } else {
                assert(added.nodes[x].name == n.name);
                assert(r.nodes[x].name == n.name);
                assert(src.nodes[src.nodes[src_id].children[k - 1] as int].name == n.name);
            }
        }
    }
}

/// Whether one of the first `k` children of a node has a name.
pub open spec fn has_name(src: TreeModel, id: int, k: nat, name: Seq<char>) -> bool {
    exists|b: int|
        0 <= b < k && src.nodes[(#[trigger] src.nodes[id].children[b]) as int].name == name
}

/// A tree whose nodes are in order is orderly once it was pruned and its index
/// made anew, as one is that was kept on disk.
pub proof fn law_pruned_orderly(m: TreeModel)
    requires
        m.wf(),
        m.nodes_ok(),
    ensures
        m.pruned().reindexed().orderly(),
{
    if height(m.nodes, m.root as int) <= STORE_DEPTH {
        let t = m.pruned();
        assert forall|i: int, k: int|
            0 <= i < t.nodes.len() && 0 <= k < t.nodes[i].children.len() implies t.child_ok(
            i,
            #[trigger] t.nodes[i].children[k],
        ) by {
            assert(m.child_ok(i, m.nodes[i].children[k]));
        }
        law_reindexed_orderly(t);
    } else {
        let d = m.root_alone();
        let n = m.nodes[m.root as int].children.len();
        crate::prune_laws::lemma_root_alone(m);
        assert(d.wf());
        lemma_copied_nodes(m, d, m.root as int, 0, 0, n);
        let copy = copied(m, d, m.root as int, 0, 0);
        assert(copy == copied_kids(m, d, m.root as int, 0, 0, n));
        let t = m.pruned();
        assert(t.nodes == copy.nodes && t.root == copy.root);
        crate::tree_prune::lemma_live_files(copy.nodes);
        assert forall|i: int, k: int|
            0 <= i < t.nodes.len() && 0 <= k < t.nodes[i].children.len() implies t.child_ok(
            i,
            #[trigger] t.nodes[i].children[k],
        ) by {
            assert(copy.child_ok(i, copy.nodes[i].children[k]));
        }
        let plain_copy = TreeModel {
            bytes: copy.nodes[0].size,
            files: crate::tree_prune::live_files(copy.nodes) as u64,
            ..copy
        };
        assert(plain_copy.wf());
        assert(plain_copy.nodes_ok()) by {
            assert forall|i: int, k: int|
                0 <= i < plain_copy.nodes.len() && 0 <= k
                    < plain_copy.nodes[i].children.len() implies plain_copy.child_ok(
                i,
                #[trigger] plain_copy.nodes[i].children[k],
            ) by {
                assert(copy.child_ok(i, copy.nodes[i].children[k]));
            }
        }
        law_reindexed_orderly(plain_copy);
        assert(t.reindexed() == plain_copy.reindexed());
    }
}

} // verus!
