//! What holds of the changes to a tree whose index is exact.

use crate::index_laws::{
    fits, law_added_orderly, law_index_exact, law_removed_orderly, law_resized_orderly,
    lemma_lives_under, lemma_path_step, lemma_paths_differ, lemma_prefix_indexed,
    lemma_reached_same, name_ok,
};
use crate::path::{
    base_name, comps, dot_comp, dots_comp, joined, law_parent_of_joined, lemma_comps_plain,
    lemma_joined_comps, lemma_parent_comps, lossy_text, parent_path, plain, root_comp, same_path,
    under,
};
use crate::mounts::{foreign, EntryModel};
use crate::rescan::Found;
use crate::scan::size_of_meta;
use crate::tree::{
    base_text, capped, depth_below, extension, first_named, law_cap_path, lemma_ensured,
    lemma_first_named, lemma_path_of_same, lemma_with_child_wf, NodeId, StoredModel, TreeModel,
    MAX_NODES, STORE_DEPTH,
};
use crate::tree_laws::{
    law_add_child_counts, law_ensure_again, law_ensure_keeps_sizes, lemma_first_named_push,
    lemma_first_named_same, lemma_killed_added,
};
use crate::tree_remove::dead;
use vstd::prelude::*;
use vstd::utf8::*;

verus! {

// ---------------------------------------------------------------------------
// Adding and removing
// ---------------------------------------------------------------------------

/// A file or directory that is added to a directory under a new name, and then
/// removed at its path, leaves the tree as it was: all nodes with their sizes,
/// children and life, the count of files, the total and the index. The new
/// node is dead. This holds where no size above it was at its limit.
pub proof fn law_add_then_remove(
    m: TreeModel,
    dir: Seq<u8>,
    name: Seq<char>,
    size: u64,
    kind: StoredModel,
)
    requires
        m.orderly(),
        m.has_room(),
        m.bytes == m.nodes[m.root as int].size,
        m.dirs.dom().contains(comps(dir)),
        name_ok(name),
        first_named(
            m.nodes,
            m.nodes[m.dirs[comps(dir)] as int].children,
            name,
        ) is None,
        forall|i: int|
            0 <= i < m.nodes.len() && crate::tree::on_chain(
                m.nodes,
                m.dirs[comps(dir)] as int,
                i,
            ) ==> (#[trigger] m.nodes[i]).size + size <= u64::MAX,
    ensures
        ({
            let path = joined(dir, encode_utf8(name));
            let filed = if kind is File {
                None
            } else {
                Some(path)
            };
            let t = m.with_child(m.dirs[comps(dir)], name, size, kind, filed);
            let r = t.removed(path);
            &&& r.nodes == m.nodes.push(dead(t.nodes[m.nodes.len() as int]))
            &&& r.files == m.files
            &&& r.bytes == m.bytes
            &&& r.dirs == m.dirs
        }),
{
    let parent = m.dirs[comps(dir)];
    let new = m.nodes.len() as int;
    let path = joined(dir, encode_utf8(name));
    let filed = if kind is File {
        None
    } else {
        Some(path)
    };
    let t = m.with_child(parent, name, size, kind, filed);
    lemma_joined_comps(dir, encode_utf8(name));
    assert(m.lives(parent as int));
    assert(fits(m, parent, name, kind, filed));
    law_added_orderly(m, parent, name, size, kind, filed);
    let g = m.grafted(parent, name, size, kind, filed);
    crate::index_laws::lemma_orderly_sizes(g, t);
    assert(t.lives(new));
    lemma_path_of_same(g, t, new);
    assert(comps(t.path_of(new)) == comps(path));
    if m.dirs.dom().contains(comps(path)) {
        let x = m.dirs[comps(path)] as int;
        assert(m.lives(x));
        assert(g.lives(x) == m.lives(x));
        assert(t.lives(x) == g.lives(x));
        lemma_path_of_same(m, t, x);
        lemma_paths_differ(t, x, new);
    }
    if kind is File {
        if t.dirs.dom().contains(comps(path)) {
            lemma_paths_differ(t, t.dirs[comps(path)] as int, new);
        }
        law_parent_of_joined(dir, encode_utf8(name));
        lemma_parent_comps(path);
        encode_utf8_valid_utf8(name);
        encode_utf8_decode_utf8(name);
        assert(comps(path).last() == encode_utf8(name));
        assert(base_text(path) == name);
        let kids = m.nodes[parent as int].children;
        law_add_child_counts(m, parent, name, size, kind, filed);
        assert(t.nodes[parent as int].children == kids.push(new as u32));
        assert forall|k: int| 0 <= k < kids.len() implies m.nodes[(
        #[trigger] kids[k]) as int].alive == t.nodes[kids[k] as int].alive
            && m.nodes[kids[k] as int].name == t.nodes[kids[k] as int].name by {
            assert(m.nodes[parent as int].children[k] < m.nodes.len());
        }
        lemma_first_named_same(m.nodes, t.nodes, kids, name);
        lemma_first_named_push(t.nodes, kids, new as u32, name);
        let q = parent_path(path).unwrap();
        assert(comps(path).drop_last() =~= comps(dir));
        assert(comps(q) == comps(dir));
        assert(t.dirs == m.dirs);
    } else {
        assert(t.dirs.dom().contains(comps(path)) && t.dirs[comps(path)] == new);
    }
    assert(t.node_at(path) == Some(new as u32));
    lemma_killed_added(m, parent, name, size, kind, filed);
}

// ---------------------------------------------------------------------------
// Directories
// ---------------------------------------------------------------------------

/// Whether a component is a name: a text that stands for neither the root, the
/// directory it is in, nor the one above.
pub open spec fn is_name(c: Seq<u8>) -> bool {
    valid_utf8(c) && c != root_comp() && c != dot_comp() && c != dots_comp()
}

/// Whether the path, if it lies below the root, leads down from there by names.
pub open spec fn leads_down(path: Seq<u8>, root: Seq<u8>) -> bool {
    under(path, root) ==> forall|k: int|
        comps(root).len() <= k < comps(path).len() ==> is_name(#[trigger] comps(path)[k])
}

/// What the last step of a path is where it is a name.
pub proof fn lemma_name_step(path: Seq<u8>)
    requires
        comps(path).len() > 0,
        is_name(comps(path).last()),
    ensures
        parent_path(path) matches Some(q) && comps(q) == comps(path).drop_last(),
        base_name(path) == Some(comps(path).last()),
        plain(comps(path).last()),
        encode_utf8(lossy_text(comps(path).last())) == comps(path).last(),
        name_ok(lossy_text(comps(path).last())),
{
    lemma_comps_plain(path, comps(path).len() - 1);
    lemma_parent_comps(path);
    decode_utf8_encode_utf8(comps(path).last());
}

/// A path that leads down from a root it is not itself goes on from one that
/// does.
pub proof fn lemma_down_step(path: Seq<u8>, root: Seq<u8>)
    requires
        under(path, root),
        !same_path(path, root),
        leads_down(path, root),
    ensures
        comps(root).len() < comps(path).len(),
        is_name(comps(path).last()),
        parent_path(path) matches Some(q) && comps(q) == comps(path).drop_last() && under(q, root)
            && leads_down(q, root),
{
    let cs = comps(path);
    let base = comps(root);
    if base.len() == cs.len() {
        assert(base =~= cs);
    }
    assert(is_name(cs[cs.len() - 1]));
    lemma_name_step(path);
    let q = parent_path(path).unwrap();
    assert(comps(q).take(base.len() as int) =~= cs.take(base.len() as int));
    assert forall|k: int| base.len() <= k < comps(q).len() implies is_name(
        #[trigger] comps(q)[k],
    ) by {
        assert(comps(q)[k] == cs[k]);
    }
}

/// What lies below a directory lies below all that this one lies below.
proof fn lemma_under_parent(path: Seq<u8>, q: Seq<u8>, root: Seq<u8>)
    requires
        comps(path).len() > 0,
        comps(q) == comps(path).drop_last(),
        under(q, root),
    ensures
        under(path, root),
{
    let n = comps(root).len() as int;
    assert(comps(path).take(n) =~= comps(q).take(n));
}

/// What directories that are ensured leave as it is: the old nodes live and are
/// what they were, the new ones are directories, and the index gets only paths
/// on the way.
pub proof fn lemma_ensured_frame(m: TreeModel, path: Seq<u8>)
    requires
        m.wf(),
        m.ensured(path).0.nodes.len() <= MAX_NODES,
    ensures
        ({
            let t = m.ensured(path).0;
            &&& forall|i: int|
                0 <= i < m.nodes.len() ==> (#[trigger] t.nodes[i]).kind == m.nodes[i].kind
                    && t.nodes[i].name == m.nodes[i].name && t.nodes[i].parent
                    == m.nodes[i].parent && t.nodes[i].alive == m.nodes[i].alive
            &&& forall|x: int, y: u32|
                0 <= x < m.nodes.len() && y < m.nodes.len() ==> (
                #[trigger] m.nodes[x].children.contains(y)) == t.nodes[x].children.contains(y)
            &&& forall|i: int|
                m.nodes.len() <= i < t.nodes.len() ==> (#[trigger] t.nodes[i]).kind is Dir
            &&& forall|k: Seq<Seq<u8>>| #[trigger]
                t.dirs.dom().contains(k) && k.len() > comps(path).len() ==> m.dirs.dom().contains(
                    k,
                )
            &&& forall|k: Seq<Seq<u8>>| #[trigger]
                m.dirs.dom().contains(k) ==> t.dirs.dom().contains(k)
        }),
    decreases comps(path).len(),
{
    lemma_parent_comps(path);
    if m.dirs.dom().contains(comps(path)) || same_path(path, m.root_path) {
    } else {
        match parent_path(path) {
            None => {},
            Some(q) => {
                lemma_ensured(m, q);
                let (above, at) = m.ensured(q);
                match (at, base_name(path)) {
                    (Some(pid), Some(name)) => {
                        lemma_ensured_frame(m, q);
                        let t = m.ensured(path).0;
                        law_add_child_counts(
                            above,
                            pid,
                            lossy_text(name),
                            0,
                            StoredModel::Dir,
                            Some(path),
                        );
                        assert forall|i: int| 0 <= i < m.nodes.len() implies (
                        #[trigger] t.nodes[i]).kind == m.nodes[i].kind && t.nodes[i].name
                            == m.nodes[i].name && t.nodes[i].parent == m.nodes[i].parent
                            && t.nodes[i].alive == m.nodes[i].alive by {
                            assert(above.nodes[i].kind == m.nodes[i].kind);
                        }
                        assert forall|x: int, y: u32|
                            0 <= x < m.nodes.len() && y < m.nodes.len() implies (
                        #[trigger] m.nodes[x].children.contains(y))
                            == t.nodes[x].children.contains(y) by {
                            let a = above.nodes[x].children;
                            let b = t.nodes[x].children;
                            assert(m.nodes[x].children.contains(y) == a.contains(y));
                            if a.contains(y) {
                                let k = choose|k: int| 0 <= k < a.len() && a[k] == y;
                                assert(b[k] == y);
                            }
                            if b.contains(y) {
                                let k = choose|k: int| 0 <= k < b.len() && b[k] == y;
                                assert(above.nodes.len() > y);
                                assert(a[k] == y);
                            }
                        }
                        assert forall|i: int| m.nodes.len() <= i < t.nodes.len() implies (
                        #[trigger] t.nodes[i]).kind is Dir by {
                            if i < above.nodes.len() {
                                assert(above.nodes[i].kind is Dir);
                            }
                        }
                        assert(comps(q).len() < comps(path).len());
                    },
                    _ => {
                        lemma_ensured_frame(m, q);
                    },
                }
            },
        }
    }
}

/// A directory can be ensured just where it lies below the root. Then it is in
/// the index with each directory above it, up to the root, and the node that
/// is found there has its path. Else nothing changes. No size, no total and no
/// count changes, and to ensure it again changes nothing. This is said of
/// paths that lead down from the root by names, and of all that lie elsewhere.
pub proof fn law_ensured(m: TreeModel, path: Seq<u8>)
    requires
        m.orderly(),
        leads_down(path, m.root_path),
        m.ensured(path).0.nodes.len() <= MAX_NODES,
    ensures
        ({
            let (t, at) = m.ensured(path);
            &&& at is Some <==> under(path, m.root_path)
            &&& at matches Some(id) ==> {
                &&& t.dirs.dom().contains(comps(path))
                &&& t.dirs[comps(path)] == id
                &&& id < t.nodes.len()
                &&& comps(t.path_of(id as int)) == comps(path)
                &&& forall|n: int|
                    comps(m.root_path).len() <= n <= comps(path).len() ==> t.dirs.dom().contains(
                        #[trigger] comps(path).take(n),
                    )
                &&& t.ensured(path) == (t, at)
            }
            &&& at is None ==> t == m
            &&& t.files == m.files
            &&& m.bytes == m.nodes[m.root as int].size ==> t.bytes == m.bytes
            &&& forall|i: int|
                0 <= i < m.nodes.len() ==> (#[trigger] t.nodes[i]).size == m.nodes[i].size
        }),
    decreases comps(path).len(),
{
    let (t, at) = m.ensured(path);
    let cs = comps(path);
    let root = comps(m.root_path);
    lemma_ensured(m, path);
    lemma_ensured_sizes(m, path);
    assert(m.lives(m.root as int));
    lemma_lives_under(m, m.root as int);
    if m.dirs.dom().contains(cs) {
        let id = m.dirs[cs] as int;
        lemma_lives_under(m, id);
        assert forall|n: int| root.len() <= n <= cs.len() implies t.dirs.dom().contains(
            #[trigger] cs.take(n),
        ) by {
            lemma_prefix_indexed(m, id, n);
        }
    } else {
        assert(!same_path(path, m.root_path));
        lemma_parent_comps(path);
        if !under(path, m.root_path) {
            if let Some(q) = parent_path(path) {
                if under(q, m.root_path) {
                    lemma_under_parent(path, q, m.root_path);
                }
                law_ensured(m, q);
            }
        } else {
            lemma_down_step(path, m.root_path);
            lemma_name_step(path);
            let q = parent_path(path).unwrap();
            let name = cs.last();
            lemma_ensured(m, q);
            law_ensured(m, q);
            let (above, pid) = m.ensured(q);
            let id = above.nodes.len() as int;
            let p = pid.unwrap();
            law_add_child_counts(
                above,
                p,
                lossy_text(name),
                0,
                StoredModel::Dir,
                Some(path),
            );
            lemma_path_of_same(above, t, p as int);
            lemma_joined_comps(t.path_of(p as int), encode_utf8(lossy_text(name)));
            assert(comps(q).push(name) =~= cs);
            assert(comps(t.path_of(id)) == cs);
            assert forall|n: int| root.len() <= n <= cs.len() implies t.dirs.dom().contains(
                #[trigger] cs.take(n),
            ) by {
                if n == cs.len() {
                    assert(cs.take(n) =~= cs);
                } else {
                    assert(cs.take(n) =~= comps(q).take(n));
                    assert(above.dirs.dom().contains(comps(q).take(n)));
                }
            }
        }
    }
    if at is Some {
        law_ensure_again(m, path);
    }
}

proof fn lemma_ensured_sizes(m: TreeModel, path: Seq<u8>)
    requires
        m.wf(),
        m.ensured(path).0.nodes.len() <= MAX_NODES,
    ensures
        ({
            let t = m.ensured(path).0;
            &&& m.bytes == m.nodes[m.root as int].size ==> t.bytes == m.bytes
            &&& forall|i: int|
                0 <= i < m.nodes.len() ==> (#[trigger] t.nodes[i]).size == m.nodes[i].size
        }),
{
    law_ensure_keeps_sizes(m, path);
}

/// A directory that is ensured keeps the tree orderly, where no file stands at
/// its path or at one above it.
pub proof fn law_ensured_orderly(m: TreeModel, path: Seq<u8>)
    requires
        m.orderly(),
        leads_down(path, m.root_path),
        m.ensured(path).0.nodes.len() <= MAX_NODES,
        forall|i: int| #[trigger]
            m.lives(i) && m.nodes[i].kind is File ==> !under(path, m.path_of(i)),
    ensures
        m.ensured(path).0.orderly(),
    decreases comps(path).len(),
{
    let (t, at) = m.ensured(path);
    let cs = comps(path);
    if m.dirs.dom().contains(cs) || same_path(path, m.root_path) {
    } else if !under(path, m.root_path) {
        law_ensured(m, path);
    } else {
        lemma_down_step(path, m.root_path);
        lemma_name_step(path);
        let q = parent_path(path).unwrap();
        let name = lossy_text(cs.last());
        lemma_ensured(m, q);
        let (above, pid) = m.ensured(q);
        assert forall|i: int| #[trigger] m.lives(i) && m.nodes[i].kind is File implies !under(
            q,
            m.path_of(i),
        ) by {
            if under(q, m.path_of(i)) {
                let x = comps(m.path_of(i));
                assert(cs.take(x.len() as int) =~= comps(q).take(x.len() as int));
            }
        }
        law_ensured_orderly(m, q);
        law_ensured(m, q);
        if pid is Some {
            let p = pid.unwrap();
            law_index_exact(above, p as int, comps(q));
            assert(above.lives(above.dirs[comps(q)] as int));
            let kids = above.nodes[p as int].children;
            lemma_first_named(above.nodes, kids, name);
            lemma_ensured_frame(m, q);
            match first_named(above.nodes, kids, name) {
                Some(c) => {
                    let k = choose|k: int| 0 <= k < kids.len() && kids[k] == c;
                    assert(above.nodes[p as int].children[k] == c);
                    assert(above.child_ok(p as int, above.nodes[p as int].children[k]));
                    assert(above.nodes[c as int].parent == Some(p));
                    assert(above.lives(c as int));
                    lemma_path_step(above, c as int);
                    assert(comps(q).push(cs.last()) =~= cs);
                    assert(comps(above.path_of(c as int)) == cs);
                    if above.nodes[c as int].kind is File {
                        assert(c < m.nodes.len());
                        lemma_reached_same(m.nodes, above.nodes, m.root as int, c as int);
                        assert(m.lives(c as int));
                        lemma_path_of_same(m, above, c as int);
                        assert(cs.take(cs.len() as int) =~= cs);
                        assert(under(path, m.path_of(c as int)));
                    } else {
                        assert(above.dirs.dom().contains(cs));
                    }
                },
                None => {
                    assert(comps(q).push(cs.last()) =~= cs);
                    law_added_orderly(above, p, name, 0, StoredModel::Dir, Some(path));
                },
            }
        }
    }
}

/// A file that is recorded keeps the tree orderly, where the name of one that
/// is added is a text.
pub proof fn law_upserted_orderly(m: TreeModel, path: Seq<u8>, size: u64, ext: Seq<char>)
    requires
        m.orderly(),
        m.adds_file(path) ==> m.has_room(),
        m.adds_file(path) ==> (base_name(path) matches Some(name) && valid_utf8(
            name,
        )),
    ensures
        m.upserted(path, size, ext).orderly(),
{
    match parent_path(path) {
        Some(q) => {
            if m.dirs.dom().contains(comps(q)) {
                let pid = m.dirs[comps(q)];
                let kids = m.nodes[pid as int].children;
                let name = base_text(path);
                assert(m.lives(pid as int));
                lemma_first_named(m.nodes, kids, name);
                match first_named(m.nodes, kids, name) {
                    Some(c) => {
                        let k = choose|k: int| 0 <= k < kids.len() && kids[k] == c;
                        assert(m.nodes[pid as int].children[k] == c);
                        law_resized_orderly(m, c, size);
                    },
                    None => {
                        let last = base_name(path).unwrap();
                        lemma_comps_plain(path, comps(path).len() - 1);
                        decode_utf8_encode_utf8(last);
                        assert(last != root_comp() && last != dot_comp());
                        law_added_orderly(
                            m,
                            pid,
                            name,
                            size,
                            StoredModel::File { ext },
                            None,
                        );
                    },
                }
            }
        },
        None => {},
    }
}

// ---------------------------------------------------------------------------
// Expansion
// ---------------------------------------------------------------------------

/// A layer keeps the tree well formed.
pub proof fn lemma_layer_wf(m: TreeModel, dest: NodeId, sub: TreeModel, k: nat)
    requires
        m.wf(),
        dest < m.nodes.len(),
        m.with_layer(dest, sub, k).nodes.len() <= MAX_NODES,
    ensures
        m.with_layer(dest, sub, k).wf(),
        m.with_layer(dest, sub, k).nodes.len() >= m.nodes.len(),
        m.with_layer(dest, sub, k).nodes[dest as int].kind == m.nodes[dest as int].kind,
        m.with_layer(dest, sub, k).bytes == m.bytes,
        forall|i: int|
            0 <= i < m.nodes.len() ==> (#[trigger] m.with_layer(dest, sub, k).nodes[i]).size
                == m.nodes[i].size,
    decreases k,
{
    if k > 0 {
        let before = m.with_layer(dest, sub, (k - 1) as nat);
        lemma_layer_wf(m, dest, sub, (k - 1) as nat);
        let c = sub.nodes[sub.root as int].children[k - 1] as int;
        let n = sub.nodes[c];
        if n.alive && first_named(before.nodes, before.nodes[dest as int].children, n.name)
            is None {
            let path = if n.kind is File {
                None
            } else {
                Some(sub.path_of(c))
            };
            lemma_with_child_wf(before, dest, n.name, n.size, n.kind, path);
            let t = m.with_layer(dest, sub, k);
            assert forall|i: int| 0 <= i < m.nodes.len() implies (#[trigger] t.nodes[i]).size
                == m.nodes[i].size by {
                assert(before.nodes[i].size == m.nodes[i].size);
            }
        }
    }
}

/// After a layer was stored, each living child of the scan has its name under
/// the directory.
pub proof fn lemma_layer_named(m: TreeModel, dest: NodeId, sub: TreeModel, k: nat, j: int)
    requires
        m.wf(),
        dest < m.nodes.len(),
        m.with_layer(dest, sub, k).nodes.len() <= MAX_NODES,
        0 <= j < k,
        sub.nodes[sub.nodes[sub.root as int].children[j] as int].alive,
    ensures
        ({
            let t = m.with_layer(dest, sub, k);
            first_named(
                t.nodes,
                t.nodes[dest as int].children,
                sub.nodes[sub.nodes[sub.root as int].children[j] as int].name,
            ) is Some
        }),
    decreases k,
{
    let before = m.with_layer(dest, sub, (k - 1) as nat);
    let t = m.with_layer(dest, sub, k);
    lemma_layer_wf(m, dest, sub, k);
    lemma_layer_wf(m, dest, sub, (k - 1) as nat);
    let c = sub.nodes[sub.root as int].children[k - 1] as int;
    let n = sub.nodes[c];
    let was = before.nodes[dest as int].children;
    let kids = t.nodes[dest as int].children;
    let name = sub.nodes[sub.nodes[sub.root as int].children[j] as int].name;
    let grafts = n.alive && first_named(before.nodes, was, n.name) is None;
    lemma_first_named(t.nodes, kids, name);
    lemma_first_named(before.nodes, was, name);
    if j == k - 1 {
        if grafts {
            assert(kids[was.len() as int] == before.nodes.len() as u32);
        }
    } else {
        lemma_layer_named(m, dest, sub, (k - 1) as nat, j);
        if grafts {
            let x = first_named(before.nodes, was, name).unwrap();
            let q = choose|q: int| 0 <= q < was.len() && was[q] == x;
            assert(before.nodes[dest as int].children[q] == x);
            assert(kids[q] == x);
            assert(t.nodes[x as int].name == before.nodes[x as int].name);
        }
    }
}

/// Where all living children of a scan have their names under the directory, a
/// layer adds nothing.
proof fn lemma_layer_nothing(t: TreeModel, dest: NodeId, sub: TreeModel, k: nat)
    requires
        forall|j: int|
            0 <= j < k && sub.nodes[(#[trigger] sub.nodes[sub.root as int].children[j]) as int].alive
                ==> first_named(
                t.nodes,
                t.nodes[dest as int].children,
                sub.nodes[sub.nodes[sub.root as int].children[j] as int].name,
            ) is Some,
    ensures
        t.with_layer(dest, sub, k) == t,
    decreases k,
{
    if k > 0 {
        lemma_layer_nothing(t, dest, sub, (k - 1) as nat);
        assert(sub.nodes[sub.root as int].children[k - 1] == sub.nodes[sub.root as int].children[k
            - 1]);
    }
}

/// Whether the child at `j` of a scan is a directory that an expansion of `dir`
/// adds, by its name, and that the scan has at the place of `dir` itself.
pub open spec fn takes_place(m: TreeModel, dir: Seq<u8>, sub: TreeModel, j: int) -> bool {
    let c = sub.nodes[sub.root as int].children[j] as int;
    let kids = m.nodes[m.dirs[comps(dir)] as int].children;
    &&& sub.nodes[c].alive
    &&& sub.nodes[c].kind is Dir
    &&& same_path(sub.path_of(c), dir)
    &&& m.dirs.dom().contains(comps(dir))
    &&& first_named(m.nodes, kids, sub.nodes[c].name) is None
}

/// A layer leaves the names under a directory there.
proof fn lemma_layer_keeps_names(
    m: TreeModel,
    dest: NodeId,
    sub: TreeModel,
    k: nat,
    name: Seq<char>,
)
    requires
        m.wf(),
        dest < m.nodes.len(),
        m.with_layer(dest, sub, k).nodes.len() <= MAX_NODES,
        first_named(m.nodes, m.nodes[dest as int].children, name) is Some,
    ensures
        ({
            let t = m.with_layer(dest, sub, k);
            first_named(t.nodes, t.nodes[dest as int].children, name) is Some
        }),
    decreases k,
{
    if k > 0 {
        let before = m.with_layer(dest, sub, (k - 1) as nat);
        let t = m.with_layer(dest, sub, k);
        lemma_layer_wf(m, dest, sub, k);
        lemma_layer_wf(m, dest, sub, (k - 1) as nat);
        lemma_layer_keeps_names(m, dest, sub, (k - 1) as nat, name);
        let was = before.nodes[dest as int].children;
        let kids = t.nodes[dest as int].children;
        lemma_first_named(before.nodes, was, name);
        lemma_first_named(t.nodes, kids, name);
        let x = first_named(before.nodes, was, name).unwrap();
        let q = choose|q: int| 0 <= q < was.len() && was[q] == x;
        assert(before.nodes[dest as int].children[q] == x);
        assert(kids[q] == x);
        assert(t.nodes[x as int].name == before.nodes[x as int].name);
    }
}

/// The expanded directory keeps its place in the index, or a nested mount takes
/// it.
proof fn lemma_layer_place(m: TreeModel, dir: Seq<u8>, sub: TreeModel, k: nat)
    requires
        m.wf(),
        k <= sub.nodes[sub.root as int].children.len(),
        m.dirs.dom().contains(comps(dir)),
        m.with_layer(m.dirs[comps(dir)], sub, k).nodes.len() <= MAX_NODES,
        forall|j: int| 0 <= j < k ==> !#[trigger] takes_place(m, dir, sub, j),
    ensures
        ({
            let t = m.with_layer(m.dirs[comps(dir)], sub, k);
            &&& t.dirs.dom().contains(comps(dir))
            &&& t.dirs[comps(dir)] == m.dirs[comps(dir)] || t.nodes[t.dirs[comps(
                dir,
            )] as int].kind is MountPoint
        }),
    decreases k,
{
    if k > 0 {
        let dest = m.dirs[comps(dir)];
        let before = m.with_layer(dest, sub, (k - 1) as nat);
        let c = sub.nodes[sub.root as int].children[k - 1] as int;
        lemma_layer_wf(m, dest, sub, k);
        lemma_layer_wf(m, dest, sub, (k - 1) as nat);
        lemma_layer_place(m, dir, sub, (k - 1) as nat);
        assert(!takes_place(m, dir, sub, k - 1));
        if first_named(m.nodes, m.nodes[dest as int].children, sub.nodes[c].name) is Some {
            lemma_layer_keeps_names(m, dest, sub, (k - 1) as nat, sub.nodes[c].name);
        }
        assert(before.dirs[comps(dir)] < before.nodes.len());
    }
}

/// To expand a directory twice with the same scan is to expand it once: the
/// second time nothing is added. Neither time the total or the size of a node
/// that was there changes, and where the directory is not filed, or is none,
/// nothing changes at all. The expansion adds no directory that the scan has at
/// the place of the expanded one itself.
pub proof fn law_expand_twice(m: TreeModel, dir: Seq<u8>, sub: TreeModel)
    requires
        m.wf(),
        m.layered(dir, sub).nodes.len() <= MAX_NODES,
        forall|j: int|
            0 <= j < sub.nodes[sub.root as int].children.len() ==> !#[trigger] takes_place(
                m,
                dir,
                sub,
                j,
            ),
    ensures
        ({
            let t = m.layered(dir, sub);
            &&& t.layered(dir, sub) == t
            &&& t.bytes == m.bytes
            &&& t.nodes.len() >= m.nodes.len()
            &&& forall|i: int|
                0 <= i < m.nodes.len() ==> (#[trigger] t.nodes[i]).size == m.nodes[i].size
            &&& !m.dirs.dom().contains(comps(dir)) || m.nodes[m.dirs[comps(dir)] as int].kind
                !is Dir ==> t == m
        }),
{
    if m.dirs.dom().contains(comps(dir)) && m.nodes[m.dirs[comps(dir)] as int].kind is Dir {
        let dest = m.dirs[comps(dir)];
        let n = sub.nodes[sub.root as int].children.len();
        let t = m.with_layer(dest, sub, n);
        lemma_layer_wf(m, dest, sub, n);
        lemma_layer_place(m, dir, sub, n);
        assert forall|j: int|
            0 <= j < n && sub.nodes[(
            #[trigger] sub.nodes[sub.root as int].children[j]) as int].alive implies first_named(
            t.nodes,
            t.nodes[dest as int].children,
            sub.nodes[sub.nodes[sub.root as int].children[j] as int].name,
        ) is Some by {
            lemma_layer_named(m, dest, sub, n, j);
        }
        lemma_layer_nothing(t, dest, sub, n);
    }
}

proof fn lemma_layer_orderly(m: TreeModel, dest: NodeId, sub: TreeModel, k: nat, dir: Seq<u8>)
    requires
        m.orderly(),
        m.lives(dest as int),
        m.nodes[dest as int].kind is Dir,
        comps(m.path_of(dest as int)) == comps(dir),
        sub.wf(),
        sub.nodes_ok(),
        same_path(sub.root_path, dir),
        k <= sub.nodes[sub.root as int].children.len(),
        m.with_layer(dest, sub, k).nodes.len() <= MAX_NODES,
    ensures
        ({
            let t = m.with_layer(dest, sub, k);
            &&& t.orderly()
            &&& t.lives(dest as int)
            &&& t.nodes[dest as int].kind is Dir
            &&& comps(t.path_of(dest as int)) == comps(dir)
        }),
    decreases k,
{
    if k > 0 {
        let before = m.with_layer(dest, sub, (k - 1) as nat);
        lemma_layer_wf(m, dest, sub, k);
        lemma_layer_orderly(m, dest, sub, (k - 1) as nat, dir);
        let c = sub.nodes[sub.root as int].children[k - 1] as int;
        let n = sub.nodes[c];
        if n.alive && first_named(before.nodes, before.nodes[dest as int].children, n.name)
            is None {
            assert(sub.child_ok(
                sub.root as int,
                sub.nodes[sub.root as int].children[k - 1],
            ));
            assert(sub.nodes[c].parent == Some(sub.root));
            assert(sub.nodes[sub.root as int].children.contains(c as u32));
            assert(sub.lives(sub.root as int));
            assert(sub.lives(c));
            lemma_path_step(sub, c);
            assert(sub.path_of(sub.root as int) == sub.root_path);
            let path = if n.kind is File {
                None
            } else {
                Some(sub.path_of(c))
            };
            law_added_orderly(before, dest, n.name, n.size, n.kind, path);
            let t = m.with_layer(dest, sub, k);
            lemma_path_of_same(before, t, dest as int);
            assert(t.lives(dest as int) == before.lives(dest as int));
        }
    }
}

/// An expansion with a scan of the directory keeps the tree orderly.
pub proof fn law_layered_orderly(m: TreeModel, dir: Seq<u8>, sub: TreeModel)
    requires
        m.orderly(),
        sub.wf(),
        sub.nodes_ok(),
        same_path(sub.root_path, dir),
        m.layered(dir, sub).nodes.len() <= MAX_NODES,
    ensures
        m.layered(dir, sub).orderly(),
{
    if m.dirs.dom().contains(comps(dir)) && m.nodes[m.dirs[comps(dir)] as int].kind is Dir {
        assert(m.lives(m.dirs[comps(dir)] as int));
        lemma_layer_orderly(
            m,
            m.dirs[comps(dir)],
            sub,
            sub.nodes[sub.root as int].children.len(),
            dir,
        );
    }
}

// ---------------------------------------------------------------------------
// Single changes
// ---------------------------------------------------------------------------

/// A change at a path keeps the tree orderly, where the path leads down from the
/// root by names or lies elsewhere, and no file stands at a path above it, nor at
/// the path itself where a directory is found there now.
pub proof fn law_changed_orderly(
    m: TreeModel,
    mounts: Seq<EntryModel>,
    path: Seq<u8>,
    found: Found,
)
    requires
        m.orderly(),
        leads_down(path, m.root_path),
        comps(path).len() < u32::MAX,
        m.changed(mounts, path, found).0.nodes.len() <= MAX_NODES,
        forall|i: int| #[trigger]
            m.lives(i) && m.nodes[i].kind is File && under(path, m.path_of(i)) ==> same_path(
                path,
                m.path_of(i),
            ) && found !is Dir,
    ensures
        m.changed(mounts, path, found).0.orderly(),
{
    if !foreign(mounts, m.root_path, path) && !m.too_deep(path) {
        match found {
            Found::Dir => {
                let cut = capped(m.root_path, path, STORE_DEPTH as nat);
                lemma_cap_shallow(m.root_path, path);
                assert forall|i: int| #[trigger]
                    m.lives(i) && m.nodes[i].kind is File implies !under(cut, m.path_of(i)) by {}
                law_ensured_orderly(m, cut);
            },
            Found::File(meta) => {
                lemma_parent_comps(path);
                if let Some(q) = parent_path(path) {
                    if !foreign(mounts, m.root_path, q) {
                        assert(comps(m.root_path).len() <= comps(q).len());
                        lemma_down_step(path, m.root_path);
                        lemma_name_step(path);
                        let cut = capped(m.root_path, q, STORE_DEPTH as nat);
                        lemma_cap_shallow(m.root_path, q);
                        assert forall|i: int| #[trigger]
                            m.lives(i) && m.nodes[i].kind is File implies !under(
                            cut,
                            m.path_of(i),
                        ) by {
                            if under(q, m.path_of(i)) {
                                let x = comps(m.path_of(i));
                                let cs = comps(path);
                                assert(cs.take(x.len() as int) =~= comps(q).take(x.len() as int));
                                assert(same_path(path, m.path_of(i)));
                                assert(x.len() <= comps(q).len());
                            }
                        }
                        let t = m.ensured(cut).0;
                        if let Some(x) = meta {
                            let size = size_of_meta(x);
                            let ext = extension(base_text(path));
                            lemma_upserted_grows(t, path, size, ext);
                            law_ensured_orderly(m, cut);
                            law_upserted_orderly(t, path, size, ext);
                        } else {
                            law_ensured_orderly(m, cut);
                        }
                    }
                }
            },
            Found::Nothing => law_removed_orderly(m, path),
        }
    }
}

proof fn lemma_upserted_grows(m: TreeModel, path: Seq<u8>, size: u64, ext: Seq<char>)
    ensures
        m.upserted(path, size, ext).nodes.len() == m.nodes.len() + if m.adds_file(path) {
            1nat
        } else {
            0
        },
{
}

/// A path that is not too deep keeps its components where it is cut.
pub proof fn lemma_cap_shallow(root: Seq<u8>, path: Seq<u8>)
    requires
        depth_below(root, path) matches Some(n) ==> n <= STORE_DEPTH,
    ensures
        comps(capped(root, path, STORE_DEPTH as nat)) == comps(path),
{
    law_cap_path(root, path, STORE_DEPTH as nat);
    if under(path, root) {
        let cs = comps(path);
        assert(cs.subrange(0, cs.len() as int) =~= cs);
    }
}

} // verus!
