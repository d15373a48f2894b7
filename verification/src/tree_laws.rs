//! What holds of the operations on a tree together.

use crate::path::{comps, lemma_parent_comps, lossy_text, parent_path, same_path};
use crate::path::base_name;
use crate::tree::{
    base_text, first_named, fresh_node, lemma_chain_before, lemma_chain_same, lemma_chain_to_root,
    lemma_first_named, lemma_with_child_wf, linked, on_chain, sat_add, sat_sub, shrunk, NodeId,
    NodeModel, StoredModel, TreeModel, MAX_NODES,
};
use crate::tree_remove::{
    below, dead, lemma_below_after, lemma_count_one, lemma_node_at, lemma_without, subtree, without,
};
use vstd::prelude::*;

verus! {

/// The chain above an old node is the same once a child was added.
proof fn lemma_chain_linked(nodes: Seq<NodeModel>, parent: int, node: NodeModel, id: int, i: int)
    requires
        0 <= id < nodes.len(),
    ensures
        on_chain(linked(nodes, parent, node), id, i) == on_chain(nodes, id, i),
{
    lemma_chain_same(nodes, linked(nodes, parent, node), id, i);
}

/// A node that is added counts toward each node above it, up to the root, and
/// toward no other; nothing else of the old nodes changes but the list of
/// children that the new one joins.
pub proof fn law_add_child_counts(
    m: TreeModel,
    parent: NodeId,
    name: Seq<char>,
    size: u64,
    kind: StoredModel,
    path: Option<Seq<u8>>,
)
    requires
        m.wf(),
        parent < m.nodes.len() < MAX_NODES,
    ensures
        ({
            let t = m.with_child(parent, name, size, kind, path);
            let new = m.nodes.len() as int;
            &&& t.nodes.len() == new + 1
            &&& t.nodes[new] == fresh_node(name, Some(parent), size, kind)
            &&& forall|i: int|
                0 <= i < new ==> #[trigger] t.nodes[i] == (NodeModel {
                    size: if on_chain(m.nodes, parent as int, i) {
                        sat_add(m.nodes[i].size, size)
                    } else {
                        m.nodes[i].size
                    },
                    children: if i == parent {
                        m.nodes[i].children.push(new as u32)
                    } else {
                        m.nodes[i].children
                    },
                    ..m.nodes[i]
                })
            &&& t.nodes[t.root as int].size == sat_add(m.nodes[m.root as int].size, size)
            &&& t.bytes == t.nodes[t.root as int].size
        }),
{
    let node = fresh_node(name, Some(parent), size, kind);
    let l = linked(m.nodes, parent as int, node);
    let t = m.with_child(parent, name, size, kind, path);
    let new = m.nodes.len() as int;
    if on_chain(l, parent as int, new) {
        lemma_chain_before(l, parent as int, new);
    }
    assert forall|i: int| 0 <= i < new implies #[trigger] t.nodes[i] == (NodeModel {
        size: if on_chain(m.nodes, parent as int, i) {
            sat_add(m.nodes[i].size, size)
        } else {
            m.nodes[i].size
        },
        children: if i == parent {
            m.nodes[i].children.push(new as u32)
        } else {
            m.nodes[i].children
        },
        ..m.nodes[i]
    }) by {
        lemma_chain_linked(m.nodes, parent as int, node, parent as int, i);
    }
    lemma_chain_to_root(m.nodes, m.root, parent as int);
    assert(t.nodes[m.root as int].size == sat_add(m.nodes[m.root as int].size, size));
}

/// A list without a value that it does not hold is the list.
proof fn lemma_without_none(s: Seq<NodeId>, x: NodeId)
    requires
        !s.contains(x),
    ensures
        without(s, x) == s,
    decreases s.len(),
{
    if s.len() > 0 {
        assert(s[s.len() - 1] != x);
        assert(!s.drop_last().contains(x)) by {
            if s.drop_last().contains(x) {
                let k = choose|k: int| 0 <= k < s.drop_last().len() && s.drop_last()[k] == x;
                assert(s[k] == x);
            }
        }
        lemma_without_none(s.drop_last(), x);
        assert(s.drop_last().push(s.last()) =~= s);
    }
}

/// Removing a node that was just added brings back what was there before: all
/// nodes with their sizes, the count of files, the total, and the index, where
/// the node was filed under its own path and nothing else was. This holds
/// where no size above the node was at its limit.
pub proof fn lemma_killed_added(
    m: TreeModel,
    parent: NodeId,
    name: Seq<char>,
    size: u64,
    kind: StoredModel,
    path: Option<Seq<u8>>,
)
    requires
        m.wf(),
        parent < m.nodes.len() < MAX_NODES,
        forall|i: int|
            0 <= i < m.nodes.len() && on_chain(m.nodes, parent as int, i) ==> (
            #[trigger] m.nodes[i]).size + size <= u64::MAX,
    ensures
        ({
            let id = m.nodes.len() as u32;
            let t = m.with_child(parent, name, size, kind, path);
            let k = t.killed(id);
            &&& k.nodes == m.nodes.push(dead(t.nodes[id as int]))
            &&& k.files == m.files
            &&& k.bytes == m.nodes[m.root as int].size
            &&& (path is None || kind is File) && !m.dirs.dom().contains(
                comps(t.path_of(id as int)),
            ) ==> k.dirs == m.dirs
            &&& path is Some && kind !is File && comps(path.unwrap()) == comps(
                t.path_of(id as int),
            ) && !m.dirs.dom().contains(comps(path.unwrap())) ==> k.dirs == m.dirs
        }),
{
    let id = m.nodes.len() as u32;
    let n = m.nodes.len() as int;
    let t = m.with_child(parent, name, size, kind, path);
    law_add_child_counts(m, parent, name, size, kind, path);
    lemma_with_child_wf(m, parent, name, size, kind, path);
    let gone = subtree(t.nodes, n);
    assert(t.nodes[parent as int].children.contains(id)) by {
        assert(t.nodes[parent as int].children[m.nodes[parent as int].children.len() as int] == id);
    }
    assert forall|i: int| gone.contains(i) <==> set![n].contains(i) by {
        if gone.contains(i) {
            lemma_below_after(t.nodes, n, i);
        }
        assert(below(t.nodes, n, n));
    }
    assert(gone =~= set![n]);
    let w = t.wiped(gone);
    let kids = m.nodes[parent as int].children;
    assert(w.nodes[parent as int] == t.nodes[parent as int]);
    assert(!kids.contains(id)) by {
        if kids.contains(id) {
            let k = choose|k: int| 0 <= k < kids.len() && kids[k] == id;
            assert(m.nodes[parent as int].children[k] < m.nodes.len());
        }
    }
    lemma_without_none(kids, id);
    assert(kids.push(id).drop_last() =~= kids);
    assert(without(kids.push(id), id) == kids);
    let cut = w.nodes.update(
        parent as int,
        NodeModel { children: kids, ..w.nodes[parent as int] },
    );
    let k = t.killed(id);
    assert(k.nodes == shrunk(cut, parent as int, size));
    assert forall|i: int| 0 <= i < n + 1 implies #[trigger] k.nodes[i] == m.nodes.push(
        dead(t.nodes[n]),
    )[i] by {
        assert(cut[i].parent == t.nodes[i].parent);
        lemma_chain_same(m.nodes, cut, parent as int, i);
        if i < n {
            if on_chain(m.nodes, parent as int, i) {
                assert(m.nodes[i].size + size <= u64::MAX);
            }
        } else {
            if on_chain(cut, parent as int, n) {
                lemma_chain_before(cut, parent as int, n);
            }
        }
    }
    assert(k.nodes =~= m.nodes.push(dead(t.nodes[n])));
    lemma_count_one(t.nodes, n, t.nodes.len());
    assert(k.files == m.files);
    assert(k.bytes == m.nodes[m.root as int].size);
    let key = comps(t.path_of(n));
    assert forall|x: Seq<Seq<u8>>| t.keys_of(gone).contains(x) <==> x == key by {
        if x == key {
            assert(gone.contains(n));
        }
    }
    if (path is None || kind is File) && !m.dirs.dom().contains(key) {
        assert(k.dirs =~= m.dirs);
    }
    if path is Some && kind !is File && comps(path.unwrap()) == key && !m.dirs.dom().contains(
        comps(path.unwrap()),
    ) {
        assert(k.dirs =~= m.dirs);
    }
}

/// The first match does not change where names and life stay.
pub proof fn lemma_first_named_same(
    a: Seq<NodeModel>,
    b: Seq<NodeModel>,
    kids: Seq<NodeId>,
    name: Seq<char>,
)
    requires
        forall|k: int|
            0 <= k < kids.len() ==> a[(#[trigger] kids[k]) as int].alive == b[kids[k] as int].alive
                && a[kids[k] as int].name == b[kids[k] as int].name,
    ensures
        first_named(a, kids, name) == first_named(b, kids, name),
    decreases kids.len(),
{
    if kids.len() > 0 {
        assert(a[kids[0] as int].alive == b[kids[0] as int].alive);
        let rest = kids.drop_first();
        assert forall|k: int| 0 <= k < rest.len() implies a[(#[trigger] rest[k]) as int].alive
            == b[rest[k] as int].alive && a[rest[k] as int].name == b[rest[k] as int].name by {
            assert(rest[k] == kids[k + 1]);
        }
        lemma_first_named_same(a, b, rest, name);
    }
}

/// A new last child is found where no other one matches.
pub proof fn lemma_first_named_push(
    nodes: Seq<NodeModel>,
    kids: Seq<NodeId>,
    x: NodeId,
    name: Seq<char>,
)
    requires
        first_named(nodes, kids, name) is None,
        nodes[x as int].alive,
        nodes[x as int].name == name,
    ensures
        first_named(nodes, kids.push(x), name) == Some(x),
    decreases kids.len(),
{
    let all = kids.push(x);
    if kids.len() > 0 {
        assert(all[0] == kids[0]);
        assert(all.drop_first() =~= kids.drop_first().push(x));
        lemma_first_named_push(nodes, kids.drop_first(), x, name);
    } else {
        assert(all[0] == x);
    }
}

/// What was recorded of a file is read back: the first living child of its
/// name in its directory has the size that was given. Nothing is recorded
/// where the directory is not indexed.
pub proof fn law_upsert_read_back(m: TreeModel, path: Seq<u8>, size: u64, ext: Seq<char>)
    requires
        m.wf(),
        m.adds_file(path) ==> m.has_room(),
    ensures
        ({
            let t = m.upserted(path, size, ext);
            match parent_path(path) {
                Some(q) => if m.dirs.dom().contains(comps(q)) {
                    let pid = m.dirs[comps(q)] as int;
                    first_named(t.nodes, t.nodes[pid].children, base_text(path)) matches Some(c)
                        && t.nodes[c as int].size == size && t.bytes == t.nodes[t.root as int].size
                } else {
                    t == m
                },
                None => t == m,
            }
        }),
{
    let t = m.upserted(path, size, ext);
    match parent_path(path) {
        Some(q) => {
            if m.dirs.dom().contains(comps(q)) {
                let pid = m.dirs[comps(q)];
                let kids = m.nodes[pid as int].children;
                let name = base_text(path);
                lemma_first_named(m.nodes, kids, name);
                match first_named(m.nodes, kids, name) {
                    Some(c) => {
                        let k = choose|k: int| 0 <= k < kids.len() && kids[k] == c;
                        assert(m.nodes[pid as int].children[k] == c);
                        assert forall|k: int| 0 <= k < kids.len() implies m.nodes[(
                        #[trigger] kids[k]) as int].alive == t.nodes[kids[k] as int].alive
                            && m.nodes[kids[k] as int].name == t.nodes[kids[k] as int].name by {
                            assert(m.nodes[pid as int].children[k] < m.nodes.len());
                        }
                        lemma_first_named_same(m.nodes, t.nodes, kids, name);
                    },
                    None => {
                        let kind = StoredModel::File { ext };
                        law_add_child_counts(m, pid, name, size, kind, None);
                        let new = m.nodes.len() as u32;
                        assert forall|k: int| 0 <= k < kids.len() implies m.nodes[(
                        #[trigger] kids[k]) as int].alive == t.nodes[kids[k] as int].alive
                            && m.nodes[kids[k] as int].name == t.nodes[kids[k] as int].name by {
                            assert(m.nodes[pid as int].children[k] < m.nodes.len());
                        }
                        lemma_first_named_same(m.nodes, t.nodes, kids, name);
                        lemma_first_named_push(t.nodes, kids, new, name);
                        assert(t.nodes[pid as int].children == kids.push(new));
                    },
                }
            }
        },
        None => {},
    }
}

/// A directory that was ensured is there: to ensure it again changes nothing
/// and finds the same node.
pub proof fn law_ensure_again(m: TreeModel, path: Seq<u8>)
    requires
        m.ensured(path).1 is Some,
    ensures
        m.ensured(path).0.ensured(path) == m.ensured(path),
{
    lemma_parent_comps(path);
}

/// Directories that are added have no size: each old node keeps its own, and
/// so does the total, where it was that of the root.
pub proof fn law_ensure_keeps_sizes(m: TreeModel, path: Seq<u8>)
    requires
        m.wf(),
        m.ensured(path).0.nodes.len() <= MAX_NODES,
    ensures
        ({
            let t = m.ensured(path).0;
            &&& forall|i: int|
                0 <= i < m.nodes.len() ==> (#[trigger] t.nodes[i]).size == m.nodes[i].size
                    && t.nodes[i].name == m.nodes[i].name && t.nodes[i].kind == m.nodes[i].kind
                    && t.nodes[i].alive == m.nodes[i].alive
            &&& m.bytes == m.nodes[m.root as int].size ==> t.bytes == m.bytes
        }),
    decreases comps(path).len(),
{
    lemma_parent_comps(path);
    crate::tree::lemma_ensured(m, path);
    if m.dirs.dom().contains(comps(path)) || same_path(path, m.root_path) {
    } else {
        match parent_path(path) {
            None => {},
            Some(q) => {
                law_ensure_keeps_sizes(m, q);
                crate::tree::lemma_ensured(m, q);
                let (above, at) = m.ensured(q);
                match (at, base_name(path)) {
                    (Some(pid), Some(name)) => {
                        law_add_child_counts(
                            above,
                            pid,
                            lossy_text(name),
                            0,
                            StoredModel::Dir,
                            Some(path),
                        );
                        let t = m.ensured(path).0;
                        assert forall|i: int| 0 <= i < m.nodes.len() implies (
                        #[trigger] t.nodes[i]).size == m.nodes[i].size && t.nodes[i].name
                            == m.nodes[i].name && t.nodes[i].kind == m.nodes[i].kind
                            && t.nodes[i].alive == m.nodes[i].alive by {
                            assert(above.nodes[i].size == m.nodes[i].size);
                        }
                        assert(above.nodes[m.root as int].size == m.nodes[m.root as int].size);
                    },
                    _ => {},
                }
            },
        }
    }
}

/// What is removed is gone with all below it: those nodes are dead and have no
/// size, no path of theirs is indexed, and each other node stays as it was but
/// for the size that leaves the nodes above and the child that leaves its
/// parent.
pub proof fn law_removed(m: TreeModel, path: Seq<u8>)
    requires
        m.wf(),
    ensures
        ({
            let t = m.removed(path);
            match m.node_at(path) {
                Some(id) => if id == m.root {
                    t == m
                } else {
                    let p = m.nodes[id as int].parent.unwrap();
                    &&& forall|i: int|
                        0 <= i < m.nodes.len() && below(m.nodes, id as int, i) ==> !(
                        #[trigger] t.nodes[i]).alive && t.nodes[i].size == 0
                            && t.nodes[i].children.len() == 0 && !t.dirs.dom().contains(
                            comps(m.path_of(i)),
                        )
                    &&& forall|i: int|
                        0 <= i < m.nodes.len() && !below(m.nodes, id as int, i) ==> (
                        #[trigger] t.nodes[i]).alive == m.nodes[i].alive && t.nodes[i].name
                            == m.nodes[i].name && t.nodes[i].kind == m.nodes[i].kind
                            && t.nodes[i].size == if on_chain(m.nodes, p as int, i) {
                            sat_sub(m.nodes[i].size, m.nodes[id as int].size as int)
                        } else {
                            m.nodes[i].size
                        }
                    &&& !t.nodes[p as int].children.contains(id)
                    &&& t.bytes == t.nodes[t.root as int].size
                },
                None => t == m,
            }
        }),
{
    lemma_node_at(m, path);
    match m.node_at(path) {
        Some(id) => {
            if id != m.root {
                let t = m.killed(id);
                let p = m.nodes[id as int].parent.unwrap();
                let gone = subtree(m.nodes, id as int);
                let w = m.wiped(gone);
                let cut = w.nodes.update(
                    p as int,
                    NodeModel {
                        children: without(w.nodes[p as int].children, id),
                        ..w.nodes[p as int]
                    },
                );
                lemma_without(w.nodes[p as int].children, id);
                if below(m.nodes, id as int, p as int) {
                    lemma_below_after(m.nodes, id as int, p as int);
                }
                assert forall|i: int| 0 <= i < m.nodes.len() && below(
                    m.nodes,
                    id as int,
                    i,
                ) implies !(#[trigger] t.nodes[i]).alive && t.nodes[i].size == 0
                    && t.nodes[i].children.len() == 0 && !t.dirs.dom().contains(
                    comps(m.path_of(i)),
                ) by {
                    lemma_below_after(m.nodes, id as int, i);
                    assert(gone.contains(i));
                    assert(m.keys_of(gone).contains(comps(m.path_of(i))));
                }
                assert forall|i: int| 0 <= i < m.nodes.len() && !below(
                    m.nodes,
                    id as int,
                    i,
                ) implies (#[trigger] t.nodes[i]).alive == m.nodes[i].alive && t.nodes[i].name
                    == m.nodes[i].name && t.nodes[i].kind == m.nodes[i].kind && t.nodes[i].size
                    == if on_chain(m.nodes, p as int, i) {
                    sat_sub(m.nodes[i].size, m.nodes[id as int].size as int)
                } else {
                    m.nodes[i].size
                } by {
                    lemma_chain_same(m.nodes, cut, p as int, i);
                }
            }
        },
        None => {},
    }
}

/// A fresh tree holds its root alone: a living directory without size and
/// children, which bears the last name of the path, or the path where that ends
/// in no name or in one that is blank. Nothing else is filed.
pub proof fn law_fresh(path: Seq<u8>, key: Seq<Seq<u8>>)
    ensures
        ({
            let t = TreeModel::fresh(path);
            let n = t.nodes[0];
            &&& t.root_path == path && t.root == 0 && t.nodes.len() == 1
            &&& t.files == 0 && t.bytes == 0 && t.store_depth == 3
            &&& n.alive && n.kind is Dir && n.size == 0 && n.children.len() == 0
            &&& n.parent is None
            &&& t.dirs.dom().contains(key) <==> key == comps(path)
            &&& t.dirs[comps(path)] == 0
            &&& base_name(path) is None ==> n.name == lossy_text(path)
            &&& base_name(path) matches Some(b) ==> {
                &&& lossy_text(b).len() > 0 ==> n.name == lossy_text(b)
                &&& lossy_text(b).len() == 0 ==> n.name == lossy_text(path)
            }
        }),
{
}

} // verus!
