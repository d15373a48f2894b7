//! What single changes do to a tree, said of the tree's own paths and sizes.

use crate::change_laws::{
    law_ensured, law_ensured_orderly, leads_down, lemma_cap_shallow, lemma_down_step,
    lemma_ensured_frame, lemma_layer_named, lemma_layer_wf, lemma_name_step,
};
use crate::index_laws::{
    law_index_exact, lemma_lives_under, lemma_path_step, lemma_paths_differ, lemma_reached_same,
};
use crate::mounts::EntryModel;
use crate::path::{comps, lemma_parent_comps, lossy_text, parent_path, same_path, under};
use crate::rescan::{copies_child, law_layer_keeps, Found};
use crate::rescan_laws::lemma_node_at_own;
use crate::scan::{size_of_meta, Meta};
use crate::tree::{
    base_text, capped, extension, first_named, law_cap_path, lemma_ensured, lemma_first_named,
    lemma_path_of_same, on_chain, NodeId, StoredModel, TreeModel, MAX_NODES, STORE_DEPTH,
};
use crate::tree_laws::{law_add_child_counts, law_removed};
use crate::tree_remove::below;
use crate::walk_laws::at_most_all;
use vstd::prelude::*;
use vstd::utf8::*;

verus! {

/// Whether a path belongs to the file system of the root: it lies at or below it
/// and not at or below a mount that stands strictly below it.
pub open spec fn own_path(mounts: Seq<EntryModel>, root: Seq<u8>, path: Seq<u8>) -> bool {
    &&& under(path, root)
    &&& forall|i: int|
        0 <= i < mounts.len() && under((#[trigger] mounts[i]).target, root) && comps(
            mounts[i].target,
        ) != comps(root) ==> !under(path, mounts[i].target)
}

/// What a size becomes where a part of it that was `was` becomes `now`.
pub open spec fn moved(size: u64, was: u64, now: u64) -> int {
    let x = size - was + now;
    if x < 0 {
        0
    } else {
        at_most_all(x)
    }
}

// ---------------------------------------------------------------------------
// Chains and paths
// ---------------------------------------------------------------------------

/// The nodes above a living node are those whose path it lies below.
pub proof fn lemma_chain_is_above(m: TreeModel, c: int, i: int)
    requires
        m.orderly(),
        m.lives(c),
        m.lives(i),
    ensures
        on_chain(m.nodes, c, i) <==> under(m.path_of(c), m.path_of(i)),
    decreases c,
{
    let a = comps(m.path_of(c));
    let b = comps(m.path_of(i));
    lemma_lives_under(m, c);
    lemma_lives_under(m, i);
    assert(a.take(a.len() as int) =~= a);
    if c == i {
    } else if c == m.root {
    } else {
        lemma_path_step(m, c);
        let p = m.nodes[c].parent.unwrap() as int;
        let x = comps(m.path_of(p));
        lemma_chain_is_above(m, p, i);
        if under(m.path_of(c), m.path_of(i)) {
            if b.len() == a.len() {
                assert(a =~= b);
                lemma_paths_differ(m, c, i);
            }
            assert(x.take(b.len() as int) =~= a.take(b.len() as int));
        }
        if under(m.path_of(p), m.path_of(i)) {
            assert(x.take(b.len() as int) =~= a.take(b.len() as int));
        }
    }
}

/// A living node is below another where it has that one in the chain above.
pub proof fn lemma_below_chain(m: TreeModel, top: int, i: int)
    requires
        m.orderly(),
        m.lives(i),
    ensures
        below(m.nodes, top, i) <==> on_chain(m.nodes, i, top),
    decreases i,
{
    if i != top && i != m.root {
        lemma_path_step(m, i);
        lemma_below_chain(m, top, m.nodes[i].parent.unwrap() as int);
    }
}

// ---------------------------------------------------------------------------
// Files
// ---------------------------------------------------------------------------

/// A path of the file system has a directory of the file system.
proof fn lemma_own_parent(mounts: Seq<EntryModel>, root: Seq<u8>, path: Seq<u8>, q: Seq<u8>)
    requires
        own_path(mounts, root, path),
        comps(path).len() > 0,
        comps(q) == comps(path).drop_last(),
        under(q, root),
    ensures
        own_path(mounts, root, q),
        !crate::mounts::foreign(mounts, root, q),
        !crate::mounts::foreign(mounts, root, path),
{
    assert forall|i: int|
        0 <= i < mounts.len() && under((#[trigger] mounts[i]).target, root) && comps(
            mounts[i].target,
        ) != comps(root) implies !under(q, mounts[i].target) by {
        if under(q, mounts[i].target) {
            let n = comps(mounts[i].target).len() as int;
            assert(comps(path).take(n) =~= comps(q).take(n));
        }
    }
}

/// A file that is known and was found again has the size that was found, and
/// each directory above it has moved by the difference. Nothing else changes.
pub proof fn law_known_file(
    m: TreeModel,
    mounts: Seq<EntryModel>,
    path: Seq<u8>,
    meta: Meta,
    c: int,
)
    requires
        m.orderly(),
        own_path(mounts, m.root_path, path),
        comps(path).len() <= comps(m.root_path).len() + 3,
        m.lives(c),
        c != m.root,
        comps(m.path_of(c)) == comps(path),
    ensures
        ({
            let (t, next) = m.changed(mounts, path, Found::File(Some(meta)));
            let now = size_of_meta(meta);
            &&& next is None
            &&& t.nodes.len() == m.nodes.len()
            &&& t.nodes[c].size == now
            &&& forall|i: int|
                m.lives(i) && i != c ==> (#[trigger] t.nodes[i]).size == if under(
                    path,
                    m.path_of(i),
                ) {
                    moved(m.nodes[i].size, m.nodes[c].size, now)
                } else {
                    m.nodes[i].size as int
                }
            &&& forall|i: int|
                0 <= i < m.nodes.len() ==> (#[trigger] t.nodes[i]).name == m.nodes[i].name
                    && t.nodes[i].kind == m.nodes[i].kind && t.nodes[i].alive == m.nodes[i].alive
                    && t.nodes[i].children == m.nodes[i].children
            &&& t.bytes == t.nodes[t.root as int].size
            &&& t.files == m.files
            &&& t.dirs == m.dirs
        }),
{
    lemma_path_step(m, c);
    let p = m.nodes[c].parent.unwrap();
    let name = m.nodes[c].name;
    let cs = comps(path);
    assert(cs.last() == encode_utf8(name));
    encode_utf8_valid_utf8(name);
    encode_utf8_decode_utf8(name);
    lemma_node_at_own(m, c);
    lemma_lives_under(m, c);
    lemma_lives_under(m, p as int);
    assert(cs.last() != crate::path::root_comp() && cs.last() != crate::path::dot_comp());
    lemma_parent_comps(path);
    lemma_parent_comps(m.path_of(c));
    let q = parent_path(path).unwrap();
    assert(comps(q) =~= comps(m.path_of(p as int)));
    law_index_exact(m, p as int, comps(q));
    assert(under(q, m.root_path));
    lemma_own_parent(mounts, m.root_path, path, q);
    lemma_cap_shallow(m.root_path, q);
    let cut = capped(m.root_path, q, STORE_DEPTH as nat);
    assert(m.ensured(cut) == (m, Some(p)));
    assert(base_text(path) == name);
    // The child of that name is the one at that path.
    let kids = m.nodes[p as int].children;
    lemma_first_named(m.nodes, kids, name);
    let k = choose|k: int| 0 <= k < kids.len() && kids[k] == c as u32;
    assert(m.child_ok(p as int, m.nodes[p as int].children[k]));
    let f = first_named(m.nodes, kids, name);
    if f is None {
        assert(m.nodes[kids[k] as int].alive);
    }
    let d = f.unwrap();
    let j = choose|j: int| 0 <= j < kids.len() && kids[j] == d;
    if j < k {
        assert(m.nodes[m.nodes[p as int].children[j] as int].name
            != m.nodes[m.nodes[p as int].children[k] as int].name);
    } else if k < j {
        assert(m.nodes[m.nodes[p as int].children[k] as int].name
            != m.nodes[m.nodes[p as int].children[j] as int].name);
    }
    assert(d == c);
    let t = m.changed(mounts, path, Found::File(Some(meta))).0;
    assert(t == m.resized(d, size_of_meta(meta)));
    assert forall|i: int| m.lives(i) && i != c implies (#[trigger] t.nodes[i]).size == if under(
        path,
        m.path_of(i),
    ) {
        moved(m.nodes[i].size, m.nodes[c].size, size_of_meta(meta))
    } else {
        m.nodes[i].size as int
    } by {
        lemma_chain_is_above(m, c, i);
    }
}

/// A file that is found where none was known becomes a node with its name, its
/// extension and its size, in the directory of its path; each directory above it
/// has grown by that size. No other size changes.
#[verifier::rlimit(60)]
#[verifier::spinoff_prover]
pub proof fn law_new_file(m: TreeModel, mounts: Seq<EntryModel>, path: Seq<u8>, meta: Meta)
    requires
        m.orderly(),
        own_path(mounts, m.root_path, path),
        leads_down(path, m.root_path),
        comps(m.root_path).len() < comps(path).len() <= comps(m.root_path).len() + 3,
        forall|i: int| #[trigger] m.lives(i) ==> !same_path(m.path_of(i), path),
        forall|i: int| #[trigger]
            m.lives(i) && m.nodes[i].kind is File ==> !under(path, m.path_of(i)),
        m.changed(mounts, path, Found::File(Some(meta))).0.nodes.len() <= MAX_NODES,
    ensures
        ({
            let (t, next) = m.changed(mounts, path, Found::File(Some(meta)));
            let name = lossy_text(comps(path).last());
            let dir = comps(path).drop_last();
            let new = t.nodes.len() - 1;
            &&& next is None
            &&& new >= m.nodes.len()
            &&& t.nodes[new].name == name
            &&& t.nodes[new].kind == (StoredModel::File { ext: extension(name) })
            &&& t.nodes[new].size == size_of_meta(meta)
            &&& t.nodes[new].alive
            &&& t.dirs.dom().contains(dir)
            &&& t.nodes[new].parent == Some(t.dirs[dir])
            &&& t.nodes[t.dirs[dir] as int].children.contains(new as u32)
            &&& forall|i: int| #[trigger]
                m.lives(i) ==> t.nodes[i].size == if under(path, m.path_of(i)) {
                    at_most_all(m.nodes[i].size + size_of_meta(meta))
                } else {
                    m.nodes[i].size as int
                }
            &&& t.bytes == t.nodes[t.root as int].size
            &&& t.files == m.files + 1
        }),
{
    let root = m.root_path;
    let cs = comps(path);
    lemma_down_step(path, root);
    lemma_name_step(path);
    let q = parent_path(path).unwrap();
    lemma_own_parent(mounts, root, path, q);
    lemma_cap_shallow(root, q);
    let cut = capped(root, q, STORE_DEPTH as nat);
    let (e, at) = m.ensured(cut);
    let size = size_of_meta(meta);
    let name = base_text(path);
    let ext = extension(name);
    let t = m.changed(mounts, path, Found::File(Some(meta))).0;
    assert(t == e.upserted(path, size, ext));
    assert(e.nodes.len() <= t.nodes.len());
    assert forall|i: int| #[trigger] m.lives(i) && m.nodes[i].kind is File implies !under(
        cut,
        m.path_of(i),
    ) by {
        if under(cut, m.path_of(i)) {
            let n = comps(m.path_of(i)).len() as int;
            assert(cs.take(n) =~= comps(q).take(n));
        }
    }
    law_ensured(m, cut);
    law_ensured_orderly(m, cut);
    lemma_ensured(m, cut);
    lemma_ensured_frame(m, cut);
    let pid = e.dirs[comps(q)];
    let kids = e.nodes[pid as int].children;
    assert(e.lives(pid as int));
    lemma_first_named(e.nodes, kids, name);
    match first_named(e.nodes, kids, name) {
        Some(c) => {
            let k = choose|k: int| 0 <= k < kids.len() && kids[k] == c;
            assert(e.child_ok(pid as int, e.nodes[pid as int].children[k]));
            assert(e.nodes[c as int].parent == Some(pid));
            assert(e.lives(c as int));
            lemma_path_step(e, c as int);
            assert(comps(q).push(cs.last()) =~= cs);
            assert(comps(e.path_of(c as int)) == cs);
            if c < m.nodes.len() {
                lemma_reached_same(m.nodes, e.nodes, m.root as int, c as int);
                lemma_path_of_same(m, e, c as int);
                assert(m.lives(c as int));
            } else {
                law_index_exact(e, c as int, cs);
                assert(e.dirs.dom().contains(cs));
                assert(m.dirs.dom().contains(cs));
                assert(m.lives(m.dirs[cs] as int));
            }
            assert(false);
        },
        None => {},
    }
    law_add_child_counts(e, pid, name, size, StoredModel::File { ext }, None);
    let new = e.nodes.len() as int;
    let all = t.nodes[pid as int].children;
    assert(all == kids.push(new as u32));
    assert(all[kids.len() as int] == new as u32);
    assert forall|i: int| #[trigger] m.lives(i) implies t.nodes[i].size == if under(
        path,
        m.path_of(i),
    ) {
        at_most_all(m.nodes[i].size + size)
    } else {
        m.nodes[i].size as int
    } by {
        lemma_reached_same(m.nodes, e.nodes, m.root as int, i);
        lemma_path_of_same(m, e, i);
        assert(e.lives(i));
        lemma_chain_is_above(e, pid as int, i);
        assert(e.nodes[i].size == m.nodes[i].size);
        let b = comps(m.path_of(i));
        assert(comps(e.path_of(pid as int)) == comps(q));
        if under(path, m.path_of(i)) {
            if b.len() == cs.len() {
                assert(b =~= cs);
            }
            assert(comps(q).take(b.len() as int) =~= cs.take(b.len() as int));
        }
        if under(q, m.path_of(i)) {
            assert(comps(q).take(b.len() as int) =~= cs.take(b.len() as int));
        }
        assert(t.nodes[i].size == if on_chain(e.nodes, pid as int, i) {
            at_most_all(e.nodes[i].size + size)
        } else {
            e.nodes[i].size as int
        });
    }
    lemma_ensured_files(m, cut);
}

proof fn lemma_ensured_files(m: TreeModel, path: Seq<u8>)
    ensures
        m.ensured(path).0.files == m.files,
    decreases comps(path).len(),
{
    lemma_parent_comps(path);
    if m.dirs.dom().contains(comps(path)) || same_path(path, m.root_path) {
    } else {
        match parent_path(path) {
            Some(q) => lemma_ensured_files(m, q),
            None => {},
        }
    }
}

// ---------------------------------------------------------------------------
// Other changes
// ---------------------------------------------------------------------------

/// A change on another file system changes nothing.
pub proof fn law_change_elsewhere(
    m: TreeModel,
    mounts: Seq<EntryModel>,
    path: Seq<u8>,
    found: Found,
)
    requires
        !own_path(mounts, m.root_path, path),
    ensures
        m.changed(mounts, path, found) == (m, None::<Seq<u8>>),
{
}

/// A change deeper than what is stored changes nothing by itself; the stored
/// directory above it is to be rescanned.
pub proof fn law_change_below(m: TreeModel, mounts: Seq<EntryModel>, path: Seq<u8>, found: Found)
    requires
        own_path(mounts, m.root_path, path),
        comps(m.root_path).len() + 3 < comps(path).len() <= u32::MAX,
    ensures
        ({
            let (t, next) = m.changed(mounts, path, found);
            &&& t == m
            &&& next matches Some(d) && comps(d) == comps(path).take(
                comps(m.root_path).len() as int + 3,
            )
        }),
{
    law_cap_path(m.root_path, path, STORE_DEPTH as nat);
}

/// A directory that is found is in the index, and is to be rescanned. No size
/// changes by itself.
pub proof fn law_change_dir(m: TreeModel, mounts: Seq<EntryModel>, path: Seq<u8>)
    requires
        m.orderly(),
        own_path(mounts, m.root_path, path),
        leads_down(path, m.root_path),
        comps(path).len() <= comps(m.root_path).len() + 3,
        m.changed(mounts, path, Found::Dir).0.nodes.len() <= MAX_NODES,
    ensures
        ({
            let (t, next) = m.changed(mounts, path, Found::Dir);
            &&& next == Some(path)
            &&& t.dirs.dom().contains(comps(path))
            &&& comps(t.path_of(t.dirs[comps(path)] as int)) == comps(path)
            &&& forall|i: int|
                0 <= i < m.nodes.len() ==> (#[trigger] t.nodes[i]).size == m.nodes[i].size
            &&& t.files == m.files
        }),
{
    lemma_cap_shallow(m.root_path, path);
    law_ensured(m, capped(m.root_path, path, STORE_DEPTH as nat));
}

/// What is removed at a path is the node there with all that lies below it. Its
/// size leaves each directory above; all else stays.
pub proof fn law_removed_at(m: TreeModel, path: Seq<u8>, c: int)
    requires
        m.orderly(),
        m.lives(c),
        c != m.root,
        comps(m.path_of(c)) == comps(path),
    ensures
        ({
            let t = m.removed(path);
            &&& t.nodes.len() == m.nodes.len()
            &&& forall|i: int| #[trigger]
                m.lives(i) && under(m.path_of(i), path) ==> !t.nodes[i].alive && t.nodes[i].size
                    == 0 && !t.dirs.dom().contains(comps(m.path_of(i)))
            &&& forall|i: int| #[trigger]
                m.lives(i) && !under(m.path_of(i), path) ==> t.nodes[i].alive && t.nodes[i].name
                    == m.nodes[i].name && t.nodes[i].kind == m.nodes[i].kind && t.nodes[i].size
                    == if under(path, m.path_of(i)) {
                    moved(m.nodes[i].size, m.nodes[c].size, 0)
                } else {
                    m.nodes[i].size as int
                }
            &&& t.bytes == t.nodes[t.root as int].size
        }),
{
    lemma_path_step(m, c);
    lemma_node_at_path(m, path, c);
    law_removed(m, path);
    let t = m.removed(path);
    let p = m.nodes[c].parent.unwrap();
    crate::tree_remove::lemma_removed_wf(m, path);
    assert forall|i: int| #[trigger] m.lives(i) && under(m.path_of(i), path) implies !t.nodes[i].alive
        && t.nodes[i].size == 0 && !t.dirs.dom().contains(comps(m.path_of(i))) by {
        lemma_chain_is_above(m, i, c);
        lemma_below_chain(m, c, i);
    }
    assert forall|i: int| #[trigger]
        m.lives(i) && !under(m.path_of(i), path) implies t.nodes[i].alive && t.nodes[i].name
        == m.nodes[i].name && t.nodes[i].kind == m.nodes[i].kind && t.nodes[i].size == if under(
        path,
        m.path_of(i),
    ) {
        moved(m.nodes[i].size, m.nodes[c].size, 0)
    } else {
        m.nodes[i].size as int
    } by {
        lemma_chain_is_above(m, i, c);
        lemma_below_chain(m, c, i);
        lemma_chain_is_above(m, c, i);
        if i == c {
            assert(comps(path).take(comps(path).len() as int) =~= comps(path));
        }
        assert(m.nodes[i].alive);
    }
}

/// The node that stands for a path is the one that lives there.
pub proof fn lemma_node_at_path(m: TreeModel, path: Seq<u8>, c: int)
    requires
        m.orderly(),
        m.lives(c),
        c != m.root,
        comps(m.path_of(c)) == comps(path),
    ensures
        m.node_at(path) == Some(c as u32),
{
    let own = m.path_of(c);
    lemma_node_at_own(m, c);
    lemma_parent_comps(path);
    lemma_parent_comps(own);
}

/// Where nothing lives at a path that is reached by names, nothing is removed.
pub proof fn law_nothing_removed(m: TreeModel, path: Seq<u8>)
    requires
        m.orderly(),
        leads_down(path, m.root_path),
        forall|i: int| #[trigger] m.lives(i) ==> !same_path(m.path_of(i), path),
    ensures
        m.removed(path) == m,
{
    let cs = comps(path);
    if m.dirs.dom().contains(cs) {
        assert(m.lives(m.dirs[cs] as int));
    }
    lemma_parent_comps(path);
    match parent_path(path) {
        Some(q) => {
            if m.dirs.dom().contains(comps(q)) {
                let pid = m.dirs[comps(q)];
                assert(m.lives(pid as int));
                lemma_lives_under(m, pid as int);
                let n = comps(m.root_path).len() as int;
                assert(cs.take(n) =~= comps(q).take(n));
                assert(under(path, m.root_path));
                assert(m.lives(m.root as int));
                lemma_down_step(path, m.root_path);
                lemma_name_step(path);
                let kids = m.nodes[pid as int].children;
                let name = base_text(path);
                lemma_first_named(m.nodes, kids, name);
                match first_named(m.nodes, kids, name) {
                    Some(c) => {
                        let k = choose|k: int| 0 <= k < kids.len() && kids[k] == c;
                        assert(m.child_ok(pid as int, m.nodes[pid as int].children[k]));
                        assert(m.nodes[c as int].parent == Some(pid));
                        assert(m.lives(c as int));
                        lemma_path_step(m, c as int);
                        assert(comps(q).push(cs.last()) =~= cs);
                        assert(same_path(m.path_of(c as int), path));
                    },
                    None => {},
                }
            }
        },
        None => {},
    }
}

/// What is gone from the file system is removed from the tree.
pub proof fn law_change_gone(m: TreeModel, mounts: Seq<EntryModel>, path: Seq<u8>)
    requires
        own_path(mounts, m.root_path, path),
        comps(path).len() <= comps(m.root_path).len() + 3,
    ensures
        m.changed(mounts, path, Found::Nothing) == (m.removed(path), None::<Seq<u8>>),
{
}

// ---------------------------------------------------------------------------
// Expansions
// ---------------------------------------------------------------------------

/// After an expansion each living child of the scanned directory has a living
/// namesake under the expanded one; one that had none is there with the size and
/// the kind that were found. Nothing that was there has changed.
pub proof fn law_expansion(
    m: TreeModel,
    dir: Seq<u8>,
    sub: TreeModel,
    j: int,
)
    requires
        m.wf(),
        sub.wf(),
        m.dirs.dom().contains(comps(dir)),
        m.nodes[m.dirs[comps(dir)] as int].kind is Dir,
        m.nodes.len() + sub.nodes[sub.root as int].children.len() <= MAX_NODES,
        0 <= j < sub.nodes[sub.root as int].children.len(),
        sub.nodes[sub.nodes[sub.root as int].children[j] as int].alive,
    ensures
        ({
            let t = m.layered(dir, sub);
            let dest = m.dirs[comps(dir)] as int;
            let x = sub.nodes[sub.nodes[sub.root as int].children[j] as int];
            &&& exists|c: NodeId| #[trigger]
                t.nodes[dest].children.contains(c) && t.nodes[c as int].alive
                    && t.nodes[c as int].name == x.name
            &&& forall|i: int|
                0 <= i < m.nodes.len() ==> (#[trigger] t.nodes[i]).size == m.nodes[i].size
                    && t.nodes[i].name == m.nodes[i].name && t.nodes[i].kind == m.nodes[i].kind
                    && t.nodes[i].alive == m.nodes[i].alive
            &&& forall|i: int|
                m.nodes.len() <= i < t.nodes.len() ==> copies_child(
                    #[trigger] t.nodes[i],
                    dest as u32,
                    sub,
                )
            &&& t.bytes == m.bytes
        }),
{
    let dest = m.dirs[comps(dir)];
    let n = sub.nodes[sub.root as int].children.len();
    let t = m.layered(dir, sub);
    law_layer_keeps(m, dest, sub, n);
    lemma_layer_wf(m, dest, sub, n);
    lemma_layer_named(m, dest, sub, n, j);
    let x = sub.nodes[sub.nodes[sub.root as int].children[j] as int];
    lemma_first_named(t.nodes, t.nodes[dest as int].children, x.name);
}

/// An expansion goes to the directory at the path that was asked for, which is
/// added where it is missing; paths of other file systems, and what is no
/// directory, are left alone.
pub proof fn law_expanded(
    m: TreeModel,
    mounts: Seq<EntryModel>,
    dir: Seq<u8>,
    is_dir: bool,
    sub: TreeModel,
)
    requires
        m.orderly(),
        leads_down(dir, m.root_path),
        m.ensured(dir).0.nodes.len() <= MAX_NODES,
    ensures
        ({
            let t = m.expanded(mounts, dir, is_dir, sub);
            let ours = is_dir && own_path(mounts, m.root_path, dir);
            &&& !ours ==> t == m
            &&& ours ==> t == m.ensured(dir).0.layered(dir, sub)
            &&& ours ==> m.ensured(dir).0.dirs.dom().contains(comps(dir))
        }),
{
    law_ensured(m, dir);
    if own_path(mounts, m.root_path, dir) && crate::mounts::nested_mount(
        mounts,
        m.root_path,
        dir,
    ) {
        let i = choose|i: int|
            0 <= i < mounts.len() && same_path((#[trigger] mounts[i]).target, dir);
        assert(comps(dir).take(comps(dir).len() as int) =~= comps(dir));
        assert(under(mounts[i].target, m.root_path));
        assert(under(dir, mounts[i].target));
    }
}

} // verus!
