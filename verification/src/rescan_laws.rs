//! What holds of a rescan.

use crate::index_laws::{
    fits, has_name, law_added_orderly, law_index_exact, law_removed_orderly, law_resized_orderly,
    lemma_killed_orderly, lemma_lives_killed, lemma_path_step, lemma_paths_differ,
};
use crate::mounts::EntryModel;
use crate::path::{comps, joined, law_parent_of_joined, same_path, under};
use crate::rescan::{lemma_planted_len, lemma_planted_wf, planted, planted_count};
use crate::tree::{
    base_text, first_named, lemma_chain_before, lemma_first_named, lemma_path_of_same, on_chain,
    sat_add, sat_sub, NodeId, NodeModel, TreeModel, MAX_NODES,
};
use crate::tree_remove::{below, lemma_below_after, lemma_without, subtree, without};
use crate::update_laws::{
    law_removed_at, lemma_below_chain, lemma_chain_is_above, lemma_node_at_path, moved,
};
use crate::walk_laws::at_most_all;
use vstd::prelude::*;
use vstd::utf8::*;

verus! {

// ---------------------------------------------------------------------------
// Clearing a directory
// ---------------------------------------------------------------------------

/// The node that stands for the path of a living node is that node.
pub proof fn lemma_node_at_own(m: TreeModel, c: int)
    requires
        m.orderly(),
        m.lives(c),
        c != m.root,
    ensures
        m.node_at(m.path_of(c)) == Some(c as u32),
{
    lemma_path_step(m, c);
    let path = m.path_of(c);
    let p = m.nodes[c].parent.unwrap();
    let name = m.nodes[c].name;
    if m.nodes[c].kind !is File {
        law_index_exact(m, c, comps(path));
    } else {
        if m.dirs.dom().contains(comps(path)) {
            lemma_paths_differ(m, m.dirs[comps(path)] as int, c);
        }
        law_index_exact(m, p as int, comps(path));
        law_parent_of_joined(m.path_of(p as int), encode_utf8(name));
        encode_utf8_valid_utf8(name);
        encode_utf8_decode_utf8(name);
        assert(path == joined(m.path_of(p as int), encode_utf8(name)));
        assert(base_text(path) == name);
        let kids = m.nodes[p as int].children;
        lemma_first_named(m.nodes, kids, name);
        let k = choose|k: int| 0 <= k < kids.len() && kids[k] == c as u32;
        assert(m.child_ok(p as int, m.nodes[p as int].children[k]));
        match first_named(m.nodes, kids, name) {
            Some(d) => {
                let j = choose|j: int| 0 <= j < kids.len() && kids[j] == d;
                if j < k {
                    assert(m.nodes[m.nodes[p as int].children[j] as int].name
                        != m.nodes[m.nodes[p as int].children[k] as int].name);
                } else if k < j {
                    assert(m.nodes[m.nodes[p as int].children[k] as int].name
                        != m.nodes[m.nodes[p as int].children[j] as int].name);
                }
            },
            None => {
                assert(m.nodes[kids[k] as int].alive);
            },
        }
    }
}

/// A directory whose first `n` children were removed at their paths has the
/// others left, and the tree is orderly.
proof fn lemma_cleared_orderly(m: TreeModel, id: NodeId, n: nat)
    requires
        m.orderly(),
        m.lives(id as int),
        n <= m.nodes[id as int].children.len(),
    ensures
        ({
            let kids = m.nodes[id as int].children;
            let t = m.cleared(kids, n);
            &&& t.orderly()
            &&& t.lives(id as int)
            &&& t.nodes.len() == m.nodes.len()
            &&& t.root == m.root
            &&& t.root_path == m.root_path
            &&& t.nodes[id as int].kind == m.nodes[id as int].kind
            &&& t.path_of(id as int) == m.path_of(id as int)
            &&& forall|i: int|
                0 <= i < m.nodes.len() ==> (#[trigger] t.nodes[i]).parent == m.nodes[i].parent
                    && t.nodes[i].name == m.nodes[i].name
            &&& forall|y: u32| #[trigger]
                t.nodes[id as int].children.contains(y) <==> exists|j: int|
                    n <= j < kids.len() && kids[j] == y
        }),
    decreases n,
{
    let kids = m.nodes[id as int].children;
    if n > 0 {
        let before = m.cleared(kids, (n - 1) as nat);
        let t = m.cleared(kids, n);
        lemma_cleared_orderly(m, id, (n - 1) as nat);
        let c = kids[n - 1];
        assert(before.nodes[id as int].children.contains(c));
        let mine = before.nodes[id as int].children;
        let k = choose|k: int| 0 <= k < mine.len() && mine[k] == c;
        assert(before.nodes[id as int].children[k] == c);
        assert(before.child_ok(id as int, c));
        assert(before.nodes[c as int].parent == Some(id));
        assert(before.lives(c as int));
        lemma_node_at_own(before, c as int);
        lemma_killed_orderly(before, c);
        lemma_lives_killed(before, c, id as int);
        if below(before.nodes, c as int, id as int) {
            lemma_below_after(before.nodes, c as int, id as int);
        }
        let gone = subtree(before.nodes, c as int);
        assert(!gone.contains(id as int));
        lemma_without(mine, c);
        assert(t == before.killed(c));
        assert(t.nodes[id as int].children == without(mine, c));
        assert forall|i: int| 0 <= i < m.nodes.len() implies (#[trigger] t.nodes[i]).parent
            == m.nodes[i].parent && t.nodes[i].name == m.nodes[i].name by {
            assert(before.nodes[i].parent == m.nodes[i].parent);
        }
        lemma_path_of_same(m, t, id as int);
        assert forall|y: u32| #[trigger]
            t.nodes[id as int].children.contains(y) <==> exists|j: int|
                n <= j < kids.len() && kids[j] == y by {
            assert(t.nodes[id as int].children.contains(y) <==> mine.contains(y) && y != c);
            if mine.contains(y) && y != c {
                let j = choose|j: int| n - 1 <= j < kids.len() && kids[j] == y;
                assert(n <= j < kids.len() && kids[j] == y);
            }
            if exists|j: int| n <= j < kids.len() && kids[j] == y {
                let j = choose|j: int| n <= j < kids.len() && kids[j] == y;
                assert(n - 1 <= j < kids.len() && kids[j] == y);
                assert(kids.no_duplicates());
                assert(kids[j] != kids[n - 1]);
            }
        }
    } else {
        assert forall|y: u32| #[trigger]
            m.nodes[id as int].children.contains(y) <==> exists|j: int|
                n <= j < kids.len() && kids[j] == y by {
            if kids.contains(y) {
                let j = choose|j: int| 0 <= j < kids.len() && kids[j] == y;
                assert(n <= j < kids.len() && kids[j] == y);
            }
        }
    }
}

// ---------------------------------------------------------------------------
// Copies
// ---------------------------------------------------------------------------

/// Whether a node is among those that are copied: one of the first `k` children
/// of `sid`, or below one, through living directories.
pub open spec fn brought(src: TreeModel, sid: int, k: nat, i: int) -> bool
    decreases src.nodes.len() - sid, k,
{
    if k == 0 {
        false
    } else {
        let c = src.nodes[sid].children[k - 1] as int;
        brought(src, sid, (k - 1) as nat, i) || (sid < c < src.nodes.len() && src.nodes[c].alive
            && (i == c || (src.nodes[c].kind is Dir && brought(
            src,
            c,
            src.nodes[c].children.len(),
            i,
        ))))
    }
}

/// Whether `x` is a living copy of the node `c` of `src`, at the same path.
pub open spec fn copy_at(r: TreeModel, src: TreeModel, c: int, x: int) -> bool {
    &&& r.lives(x)
    &&& comps(r.path_of(x)) == comps(src.path_of(c))
    &&& r.nodes[x].size == src.nodes[c].size
    &&& r.nodes[x].kind == src.nodes[c].kind
    &&& r.nodes[x].name == src.nodes[c].name
}

/// Whether `b` has the nodes of `a` and more, where only `id` has got children
/// and the same of the old nodes live.
spec fn grown_at(a: TreeModel, b: TreeModel, id: int) -> bool {
    &&& b.nodes.len() >= a.nodes.len()
    &&& b.root_path == a.root_path
    &&& b.root == a.root
    &&& forall|i: int|
        0 <= i < a.nodes.len() ==> #[trigger] b.nodes[i] == (NodeModel {
            children: if i == id {
                b.nodes[i].children
            } else {
                a.nodes[i].children
            },
            ..a.nodes[i]
        })
    &&& forall|i: int| 0 <= i < a.nodes.len() ==> #[trigger] b.lives(i) == a.lives(i)
}

/// A copy stays one where the tree grows elsewhere.
proof fn lemma_copy_stays(a: TreeModel, b: TreeModel, id: int, src: TreeModel, c: int, x: int)
    requires
        grown_at(a, b, id),
        copy_at(a, src, c, x),
    ensures
        copy_at(b, src, c, x),
{
    assert(b.lives(x) == a.lives(x));
    assert(b.nodes[x].size == a.nodes[x].size);
    lemma_path_of_same(a, b, x);
}

/// Copies that are put under a directory without children keep the tree
/// orderly, and each node that is brought has its copy.
#[verifier::rlimit(60)]
#[verifier::spinoff_prover]
proof fn lemma_planted_orderly(dest: TreeModel, did: NodeId, src: TreeModel, sid: int, k: nat)
    requires
        dest.orderly(),
        dest.lives(did as int),
        dest.nodes[did as int].kind !is File,
        dest.nodes[did as int].children.len() == 0,
        src.wf(),
        src.nodes_ok(),
        src.lives(sid),
        k <= src.nodes[sid].children.len(),
        comps(dest.path_of(did as int)) == comps(src.path_of(sid)),
        dest.nodes.len() + planted_count(src, sid, k) <= MAX_NODES,
    ensures
        ({
            let r = planted(dest, did, src, sid, k);
            &&& r.orderly()
            &&& grown_at(dest, r, did as int)
            &&& forall|q: int|
                0 <= q < r.nodes[did as int].children.len() ==> has_name(
                    src,
                    sid,
                    k,
                    r.nodes[(#[trigger] r.nodes[did as int].children[q]) as int].name,
                )
            &&& forall|c: int| #[trigger]
                brought(src, sid, k, c) ==> exists|x: int|
                    dest.nodes.len() <= x && #[trigger] copy_at(r, src, c, x)
        }),
    decreases src.nodes.len() - sid, k,
{
    if k > 0 {
        let j = (k - 1) as nat;
        lemma_planted_orderly(dest, did, src, sid, j);
        lemma_planted_len(dest, did, src, sid, j);
        lemma_planted_wf(dest, did, src, sid, j);
        let before = planted(dest, did, src, sid, j);
        let r = planted(dest, did, src, sid, k);
        let d = did as int;
        let c = src.nodes[sid].children[k - 1] as int;
        assert(src.child_ok(sid, src.nodes[sid].children[k - 1]));
        assert(src.nodes[c].parent == Some(sid as u32));
        assert(src.nodes[sid].children.contains(c as u32));
        assert(src.lives(c));
        lemma_path_step(src, c);
        let n = src.nodes[c];
        let x = before.nodes.len() as int;
        let added = before.with_copy(did, src, c);
        let was = before.nodes[d].children;
        assert(before.lives(d) == dest.lives(d));
        lemma_path_of_same(dest, before, d);
        lemma_first_named(before.nodes, was, n.name);
        match first_named(before.nodes, was, n.name) {
            Some(y) => {
                let q = choose|q: int| 0 <= q < was.len() && was[q] == y;
                assert(has_name(src, sid, j, before.nodes[was[q] as int].name));
                let b = choose|b: int|
                    0 <= b < j && src.nodes[(
                    #[trigger] src.nodes[sid].children[b]) as int].name == n.name;
                assert(src.nodes[src.nodes[sid].children[b] as int].name
                    != src.nodes[src.nodes[sid].children[k - 1] as int].name);
            },
            None => {},
        }
        let path = if n.kind is File {
            None
        } else {
            Some(src.path_of(c))
        };
        assert(fits(before, did, n.name, n.kind, path));
        law_added_orderly(before, did, n.name, n.size, n.kind, path);
        assert(added.nodes[d].children == was.push(x as u32));
        assert(grown_at(before, added, d));
        assert(copy_at(added, src, c, x));
        if n.kind is Dir {
            let total = n.children.len();
            lemma_planted_len(added, x as u32, src, c, total);
            lemma_planted_orderly(added, x as u32, src, c, total);
            assert(r == planted(added, x as u32, src, c, total));
            lemma_copy_stays(added, r, x, src, c, x);
        }
        assert(r.nodes[d].children == was.push(x as u32));
        assert(grown_at(dest, r, d)) by {
            assert forall|i: int| 0 <= i < dest.nodes.len() implies #[trigger] r.nodes[i] == (
            NodeModel {
                children: if i == d {
                    r.nodes[i].children
                } else {
                    dest.nodes[i].children
                },
                ..dest.nodes[i]
            }) by {
                assert(before.nodes[i].kind == dest.nodes[i].kind);
                assert(added.nodes[i].kind == before.nodes[i].kind);
            }
            assert forall|i: int| 0 <= i < dest.nodes.len() implies #[trigger] r.lives(i)
                == dest.lives(i) by {
                assert(before.lives(i) == dest.lives(i));
                assert(added.lives(i) == before.lives(i));
            }
        }
        assert forall|q: int| 0 <= q < r.nodes[d].children.len() implies has_name(
            src,
            sid,
            k,
            r.nodes[(#[trigger] r.nodes[d].children[q]) as int].name,
        ) by {
            if q < was.len() {
                let y = was[q];
                assert(before.nodes[d].children[q] == y);
                assert(has_name(src, sid, j, before.nodes[y as int].name));
                let b = choose|b: int|
                    0 <= b < j && src.nodes[(
                    #[trigger] src.nodes[sid].children[b]) as int].name
                        == before.nodes[y as int].name;
                assert(y < x);
                assert(added.nodes[y as int].name == before.nodes[y as int].name);
                assert(r.nodes[y as int].name == added.nodes[y as int].name);
                assert(src.nodes[src.nodes[sid].children[b] as int].name
                    == r.nodes[y as int].name);
            } else {
                assert(r.nodes[x].name == n.name);
                assert(src.nodes[src.nodes[sid].children[k - 1] as int].name == n.name);
            }
        }
        assert forall|i: int| #[trigger] brought(src, sid, k, i) implies exists|y: int|
            dest.nodes.len() <= y && #[trigger] copy_at(r, src, i, y) by {
            if i == c {
                assert(copy_at(r, src, c, x));
            } else if brought(src, sid, j, i) {
                let y = choose|y: int|
                    dest.nodes.len() <= y && #[trigger] copy_at(before, src, i, y);
                lemma_copy_stays(before, added, d, src, i, y);
                if n.kind is Dir {
                    lemma_copy_stays(added, r, x, src, i, y);
                }
                assert(copy_at(r, src, i, y));
            } else {
                assert(n.kind is Dir && brought(src, c, n.children.len(), i));
                let y = choose|y: int|
                    added.nodes.len() <= y && #[trigger] copy_at(r, src, i, y);
                assert(copy_at(r, src, i, y));
            }
        }
    }
}

/// Whether a node stands below `top`, and each node between is a living
/// directory.
pub open spec fn carried(src: TreeModel, top: int, i: int) -> bool
    decreases i,
{
    src.nodes[i].alive && match src.nodes[i].parent {
        Some(p) => 0 <= p < i && src.nodes[p as int].children.contains(i as u32) && (p == top || (
        src.nodes[p as int].kind is Dir && carried(src, top, p as int))),
        None => false,
    }
}

proof fn lemma_brought_more(src: TreeModel, sid: int, j: nat, k: nat, i: int)
    requires
        j <= k,
        brought(src, sid, j, i),
    ensures
        brought(src, sid, k, i),
    decreases k,
{
    if j < k {
        lemma_brought_more(src, sid, j, (k - 1) as nat, i);
    }
}

/// A living child is brought.
proof fn lemma_brought_child(src: TreeModel, sid: int, i: int)
    requires
        src.wf(),
        0 <= sid < src.nodes.len(),
        0 <= i < src.nodes.len(),
        src.nodes[sid].children.contains(i as u32),
        src.nodes[i].alive,
    ensures
        brought(src, sid, src.nodes[sid].children.len(), i),
{
    let kids = src.nodes[sid].children;
    let k = choose|k: int| 0 <= k < kids.len() && kids[k] == i as u32;
    assert(src.nodes[sid].children[k] == i);
    assert(brought(src, sid, (k + 1) as nat, i));
    lemma_brought_more(src, sid, (k + 1) as nat, kids.len(), i);
}

/// A living child of a directory that is brought is brought.
proof fn lemma_brought_step(src: TreeModel, sid: int, k: nat, p: int, i: int)
    requires
        src.wf(),
        0 <= sid < src.nodes.len(),
        k <= src.nodes[sid].children.len(),
        brought(src, sid, k, p),
        0 <= p < src.nodes.len(),
        src.nodes[p].kind is Dir,
        0 <= i < src.nodes.len(),
        src.nodes[p].children.contains(i as u32),
        src.nodes[i].alive,
    ensures
        brought(src, sid, k, i),
    decreases src.nodes.len() - sid, k,
{
    let c = src.nodes[sid].children[k - 1] as int;
    if brought(src, sid, (k - 1) as nat, p) {
        lemma_brought_step(src, sid, (k - 1) as nat, p, i);
    } else if p == c {
        lemma_brought_child(src, c, i);
    } else {
        lemma_brought_step(src, c, src.nodes[c].children.len(), p, i);
    }
}

proof fn lemma_carried_brought(src: TreeModel, top: int, i: int)
    requires
        src.wf(),
        0 <= top < src.nodes.len(),
        0 <= i < src.nodes.len(),
        carried(src, top, i),
    ensures
        brought(src, top, src.nodes[top].children.len(), i),
    decreases i,
{
    let p = src.nodes[i].parent.unwrap() as int;
    if p == top {
        lemma_brought_child(src, top, i);
    } else {
        lemma_carried_brought(src, top, p);
        lemma_brought_step(src, top, src.nodes[top].children.len(), p, i);
    }
}

// ---------------------------------------------------------------------------
// Rescans
// ---------------------------------------------------------------------------

/// A rescan adds no more nodes than the scan has living ones below its root.
pub proof fn law_rescan_room(
    m: TreeModel,
    mounts: Seq<EntryModel>,
    dir: Seq<u8>,
    exists: bool,
    sub: Option<TreeModel>,
)
    requires
        m.wf(),
    ensures
        m.rescanned(mounts, dir, exists, sub).nodes.len() <= m.nodes.len() + match sub {
            Some(s) => s.rescan_need(),
            None => 0,
        },
{
    if m.rescans(mounts, dir) {
        let id = m.dirs[comps(dir)];
        let kids = m.nodes[id as int].children;
        assert forall|i: int| 0 <= i < kids.len() implies (#[trigger] kids[i])
            < m.nodes.len() by {
            assert(m.nodes[id as int].children[i] == kids[i]);
        }
        crate::rescan::lemma_cleared_wf(m, kids, kids.len());
        let bare = m.cleared(kids, kids.len());
        if exists {
            match sub {
                Some(s) => lemma_planted_len(
                    bare,
                    id,
                    s,
                    s.root as int,
                    s.nodes[s.root as int].children.len(),
                ),
                None => {},
            }
        } else {
            crate::tree_remove::lemma_removed_wf(bare, dir);
        }
    }
}

/// A rescan with a scan of the directory keeps the tree orderly.
pub proof fn law_rescanned_orderly(
    m: TreeModel,
    mounts: Seq<EntryModel>,
    dir: Seq<u8>,
    exists: bool,
    sub: Option<TreeModel>,
)
    requires
        m.orderly(),
        sub matches Some(s) ==> s.wf() && s.nodes_ok() && same_path(s.root_path, dir),
        m.rescanned(mounts, dir, exists, sub).nodes.len() <= MAX_NODES,
    ensures
        m.rescanned(mounts, dir, exists, sub).orderly(),
{
    if m.rescans(mounts, dir) {
        let id = m.dirs[comps(dir)];
        assert(m.lives(id as int));
        let kids = m.nodes[id as int].children;
        lemma_cleared_orderly(m, id, kids.len());
        let bare = m.cleared(kids, kids.len());
        lemma_no_children(m, id);
        if !exists {
            law_removed_orderly(bare, dir);
        } else {
            match sub {
                None => {},
                Some(s) => {
                    if m.levels_below(dir) == 0 {
                        law_resized_orderly(bare, id, s.bytes);
                    } else {
                        let n = s.nodes[s.root as int].children.len();
                        lemma_planted_len(bare, id, s, s.root as int, n);
                        assert(s.lives(s.root as int));
                        assert(s.path_of(s.root as int) == s.root_path);
                        lemma_planted_orderly(bare, id, s, s.root as int, n);
                        law_resized_orderly(
                            planted(bare, id, s, s.root as int, n),
                            id,
                            s.bytes,
                        );
                    }
                },
            }
        }
    }
}

/// A directory that was cleared has no children.
proof fn lemma_no_children(m: TreeModel, id: NodeId)
    requires
        m.orderly(),
        m.lives(id as int),
    ensures
        m.cleared(
            m.nodes[id as int].children,
            m.nodes[id as int].children.len(),
        ).nodes[id as int].children.len() == 0,
{
    let kids = m.nodes[id as int].children;
    lemma_cleared_orderly(m, id, kids.len());
    let left = m.cleared(kids, kids.len()).nodes[id as int].children;
    if left.len() > 0 {
        assert(left.contains(left[0]));
    }
}

/// A rescan takes over the sizes that were found, with all that lies deeper
/// than what is stored. The directory has the size of the scan, and each node
/// above it moves by the difference to what was left of it. Above the stored
/// depth each directory of the scan is in the index with the size that was
/// found, and each file stands at its path with its size.
pub proof fn law_rescan_takes_over(
    m: TreeModel,
    mounts: Seq<EntryModel>,
    dir: Seq<u8>,
    s: TreeModel,
    c: int,
)
    requires
        m.orderly(),
        m.rescans(mounts, dir),
        s.wf(),
        s.nodes_ok(),
        same_path(s.root_path, dir),
        m.rescanned(mounts, dir, true, Some(s)).nodes.len() <= MAX_NODES,
    ensures
        ({
            let t = m.rescanned(mounts, dir, true, Some(s));
            let id = m.dirs[comps(dir)] as int;
            let kids = m.nodes[id].children;
            let bare = m.cleared(kids, kids.len());
            let was = bare.nodes[id].size;
            &&& t.nodes[id].size == s.bytes
            &&& t.bytes == t.nodes[t.root as int].size
            &&& forall|i: int|
                0 <= i < m.nodes.len() && i != id ==> (#[trigger] t.nodes[i]).size == if on_chain(
                    m.nodes,
                    id,
                    i,
                ) {
                    if s.bytes >= was {
                        sat_add(bare.nodes[i].size, (s.bytes - was) as u64)
                    } else {
                        sat_sub(bare.nodes[i].size, was - s.bytes)
                    }
                } else {
                    bare.nodes[i].size
                }
            &&& m.levels_below(dir) > 0 && 0 <= c < s.nodes.len() && carried(s, s.root as int, c)
                ==> {
                &&& exists|x: int| m.nodes.len() <= x && #[trigger] copy_at(t, s, c, x)
                &&& s.nodes[c].kind !is File ==> t.dirs.dom().contains(comps(s.path_of(c)))
                    && t.nodes[t.dirs[comps(s.path_of(c))] as int].size == s.nodes[c].size
            }
        }),
{
    let t = m.rescanned(mounts, dir, true, Some(s));
    let id = m.dirs[comps(dir)];
    let kids = m.nodes[id as int].children;
    assert(m.lives(id as int));
    lemma_cleared_orderly(m, id, kids.len());
    lemma_no_children(m, id);
    let bare = m.cleared(kids, kids.len());
    let n = s.nodes[s.root as int].children.len();
    lemma_planted_len(bare, id, s, s.root as int, n);
    assert(s.lives(s.root as int));
    assert(s.path_of(s.root as int) == s.root_path);
    let full = if m.levels_below(dir) == 0 {
        bare
    } else {
        planted(bare, id, s, s.root as int, n)
    };
    if m.levels_below(dir) > 0 {
        lemma_planted_orderly(bare, id, s, s.root as int, n);
    }
    assert(grown_at(bare, full, id as int));
    assert(full.nodes[id as int].size == bare.nodes[id as int].size);
    law_resized_orderly(full, id, s.bytes);
    assert forall|i: int| 0 <= i < m.nodes.len() && i != id implies (#[trigger] t.nodes[i]).size
        == if on_chain(m.nodes, id as int, i) {
        if s.bytes >= bare.nodes[id as int].size {
            sat_add(bare.nodes[i].size, (s.bytes - bare.nodes[id as int].size) as u64)
        } else {
            sat_sub(bare.nodes[i].size, bare.nodes[id as int].size - s.bytes)
        }
    } else {
        bare.nodes[i].size
    } by {
        assert(full.nodes[i].size == bare.nodes[i].size);
        assert forall|k: int| 0 <= k < m.nodes.len() implies (#[trigger] m.nodes[k]).parent
            == full.nodes[k].parent by {
            assert(bare.nodes[k].parent == m.nodes[k].parent);
            assert(full.nodes[k].parent == bare.nodes[k].parent);
        }
        crate::tree::lemma_chain_same(m.nodes, full.nodes, id as int, i);
    }
    if m.levels_below(dir) > 0 && 0 <= c < s.nodes.len() && carried(s, s.root as int, c) {
        lemma_carried_brought(s, s.root as int, c);
        let x = choose|x: int| bare.nodes.len() <= x && #[trigger] copy_at(full, s, c, x);
        assert(t.lives(x) == full.lives(x));
        lemma_path_of_same(full, t, x);
        if on_chain(full.nodes, id as int, x) {
            lemma_chain_before(full.nodes, id as int, x);
        }
        assert(copy_at(t, s, c, x));
        if s.nodes[c].kind !is File {
            law_index_exact(t, x, comps(s.path_of(c)));
        }
    }
}

/// The sizes of the first `n` of these nodes together.
pub open spec fn sizes_of(m: TreeModel, kids: Seq<NodeId>, n: nat) -> int
    decreases n,
{
    if n == 0 {
        0
    } else {
        sizes_of(m, kids, (n - 1) as nat) + m.nodes[kids[n - 1] as int].size
    }
}

/// What is left of a size that loses a part, and no more than all of it.
pub open spec fn left_of(size: int, part: int) -> int {
    if part > size {
        0
    } else {
        size - part
    }
}

/// Whether a path lies at or below that of one of the first `n` of these nodes.
pub open spec fn below_some(m: TreeModel, kids: Seq<NodeId>, n: nat, path: Seq<u8>) -> bool {
    exists|j: int| 0 <= j < n && under(path, m.path_of((#[trigger] kids[j]) as int))
}

/// A living node strictly below another stands below one of its children, and
/// only such a node does.
proof fn lemma_below_kids(m: TreeModel, id: int, i: int)
    requires
        m.orderly(),
        m.lives(id),
        m.lives(i),
    ensures
        ({
            let kids = m.nodes[id].children;
            below_some(m, kids, kids.len(), m.path_of(i)) <==> i != id && under(
                m.path_of(i),
                m.path_of(id),
            )
        }),
    decreases i,
{
    let kids = m.nodes[id].children;
    let a = comps(m.path_of(i));
    let b = comps(m.path_of(id));
    if below_some(m, kids, kids.len(), m.path_of(i)) {
        let j = choose|j: int|
            0 <= j < kids.len() && under(m.path_of(i), m.path_of((#[trigger] kids[j]) as int));
        let c = kids[j] as int;
        lemma_kid_lives(m, id, j);
        lemma_path_step(m, c);
        let x = comps(m.path_of(c));
        assert(a.take(b.len() as int) =~= x.take(b.len() as int));
        assert(x.take(b.len() as int) =~= b);
    }
    if i != id && under(m.path_of(i), m.path_of(id)) {
        lemma_chain_is_above(m, i, id);
        if i == m.root {
            assert(false);
        }
        lemma_path_step(m, i);
        let p = m.nodes[i].parent.unwrap() as int;
        assert(a.take(a.len() as int) =~= a);
        if p == id {
            let j = choose|j: int| 0 <= j < kids.len() && kids[j] == i as u32;
            assert(under(m.path_of(i), m.path_of(kids[j] as int)));
        } else {
            lemma_chain_is_above(m, p, id);
            lemma_below_kids(m, id, p);
            let j = choose|j: int|
                0 <= j < kids.len() && under(
                    m.path_of(p),
                    m.path_of((#[trigger] kids[j]) as int),
                );
            let x = comps(m.path_of(kids[j] as int));
            assert(a.take(x.len() as int) =~= comps(m.path_of(p)).take(x.len() as int));
            assert(under(m.path_of(i), m.path_of(kids[j] as int)));
        }
    }
}

proof fn lemma_kid_lives(m: TreeModel, id: int, j: int)
    requires
        m.orderly(),
        m.lives(id),
        0 <= j < m.nodes[id].children.len(),
    ensures
        ({
            let c = m.nodes[id].children[j] as int;
            &&& m.lives(c)
            &&& c != m.root
            &&& m.nodes[c].parent == Some(id as u32)
        }),
{
    let c = m.nodes[id].children[j] as int;
    assert(m.child_ok(id, m.nodes[id].children[j]));
    assert(m.nodes[c].parent == Some(id as u32));
    assert(m.nodes[id].children.contains(c as u32));
    assert(m.lives(c));
}

/// Where the first `n` children of a directory were removed, what stood at or
/// below them lives no longer, and their sizes have left the directory and each
/// above it. All else that lived lives with its size.
#[verifier::rlimit(40)]
proof fn lemma_cleared_left(m: TreeModel, id: NodeId, n: nat)
    requires
        m.orderly(),
        m.lives(id as int),
        n <= m.nodes[id as int].children.len(),
    ensures
        ({
            let kids = m.nodes[id as int].children;
            let t = m.cleared(kids, n);
            forall|i: int| #[trigger]
                m.lives(i) ==> t.lives(i) == !below_some(m, kids, n, m.path_of(i)) && (t.lives(i)
                    ==> t.nodes[i].kind == m.nodes[i].kind && t.nodes[i].size == if under(
                    m.path_of(id as int),
                    m.path_of(i),
                ) {
                    left_of(m.nodes[i].size as int, sizes_of(m, kids, n))
                } else {
                    m.nodes[i].size as int
                })
        }),
    decreases n,
{
    let kids = m.nodes[id as int].children;
    if n > 0 {
        let before = m.cleared(kids, (n - 1) as nat);
        let t = m.cleared(kids, n);
        lemma_cleared_orderly(m, id, (n - 1) as nat);
        lemma_cleared_left(m, id, (n - 1) as nat);
        let c = kids[n - 1];
        lemma_kid_lives(m, id as int, n - 1);
        lemma_path_step(m, c as int);
        assert(m.lives(c as int));
        let path = m.path_of(c as int);
        lemma_path_of_same(m, before, c as int);
        let x = comps(path);
        let b = comps(m.path_of(id as int));
        assert(x.drop_last() =~= b);
        if below_some(m, kids, (n - 1) as nat, path) {
            let j = choose|j: int|
                0 <= j < n - 1 && under(path, m.path_of((#[trigger] kids[j]) as int));
            lemma_kid_lives(m, id as int, j);
            lemma_path_step(m, kids[j] as int);
            assert(comps(m.path_of(kids[j] as int)) =~= x);
            lemma_paths_differ(m, c as int, kids[j] as int);
            assert(m.nodes[id as int].children.no_duplicates());
        }
        if under(m.path_of(id as int), path) {
            assert(false);
        }
        assert(before.lives(c as int));
        lemma_node_at_own(before, c as int);
        assert(t == before.killed(c));
        law_removed_at(before, path, c as int);
        assert forall|i: int| #[trigger] m.lives(i) implies t.lives(i) == !below_some(
            m,
            kids,
            n,
            m.path_of(i),
        ) && (t.lives(i) ==> t.nodes[i].kind == m.nodes[i].kind && t.nodes[i].size == if under(
            m.path_of(id as int),
            m.path_of(i),
        ) {
            left_of(m.nodes[i].size as int, sizes_of(m, kids, n))
        } else {
            m.nodes[i].size as int
        }) by {
            lemma_path_of_same(m, before, i);
            lemma_lives_killed(before, c, i);
            assert(below_some(m, kids, n, m.path_of(i)) <==> below_some(
                m,
                kids,
                (n - 1) as nat,
                m.path_of(i),
            ) || under(m.path_of(i), path)) by {
                if under(m.path_of(i), path) {
                    assert(under(m.path_of(i), m.path_of(kids[n - 1] as int)));
                }
            }
            if before.lives(i) {
                lemma_below_chain(before, c as int, i);
                lemma_chain_is_above(before, i, c as int);
                if !under(m.path_of(i), path) {
                    let y = comps(m.path_of(i));
                    if under(path, m.path_of(i)) {
                        if y.len() == x.len() {
                            assert(y =~= x);
                            assert(x.take(x.len() as int) =~= x);
                            assert(false);
                        }
                        assert(b.take(y.len() as int) =~= x.take(y.len() as int));
                    }
                    if under(m.path_of(id as int), m.path_of(i)) {
                        assert(b.take(y.len() as int) =~= x.take(y.len() as int));
                    }
                }
            }
        }
    }
}

/// What is left of the size of a node where the children of `id` have left it.
pub open spec fn bare_size(m: TreeModel, id: int, i: int) -> int {
    let kids = m.nodes[id].children;
    left_of(m.nodes[i].size as int, sizes_of(m, kids, kids.len()))
}

/// Where a directory was found again, it has the size that was found. What lay
/// below it lives no longer. Each directory above has lost what lay below and
/// moves by the difference of the directory; where sizes add up that is its size
/// with the old size of the directory taken out and the new one put in. All else
/// stays.
pub proof fn law_rescan_found(m: TreeModel, mounts: Seq<EntryModel>, dir: Seq<u8>, s: TreeModel)
    requires
        m.orderly(),
        m.rescans(mounts, dir),
        s.wf(),
        s.nodes_ok(),
        same_path(s.root_path, dir),
        m.rescanned(mounts, dir, true, Some(s)).nodes.len() <= MAX_NODES,
    ensures
        ({
            let t = m.rescanned(mounts, dir, true, Some(s));
            let id = m.dirs[comps(dir)] as int;
            let kids = m.nodes[id].children;
            &&& t.lives(id) && t.nodes[id].size == s.bytes
            &&& forall|i: int| #[trigger]
                m.lives(i) && i != id ==> {
                    &&& under(m.path_of(i), dir) ==> !t.lives(i)
                    &&& !under(m.path_of(i), dir) ==> t.lives(i)
                    &&& under(dir, m.path_of(i)) ==> {
                        &&& t.nodes[i].size == moved(
                            bare_size(m, id, i) as u64,
                            bare_size(m, id, id) as u64,
                            s.bytes,
                        )
                        &&& sizes_of(m, kids, kids.len()) <= m.nodes[id].size
                            <= m.nodes[i].size ==> t.nodes[i].size == at_most_all(
                            m.nodes[i].size - m.nodes[id].size + s.bytes,
                        )
                    }
                    &&& !under(dir, m.path_of(i)) && !under(m.path_of(i), dir)
                        ==> t.nodes[i].size == m.nodes[i].size
                }
        }),
{
    let t = m.rescanned(mounts, dir, true, Some(s));
    let id = m.dirs[comps(dir)];
    let kids = m.nodes[id as int].children;
    let total = kids.len();
    assert(m.lives(id as int));
    law_index_exact(m, id as int, comps(dir));
    let bare = m.cleared(kids, total);
    lemma_cleared_orderly(m, id, total);
    lemma_cleared_left(m, id, total);
    lemma_no_children(m, id);
    let n = s.nodes[s.root as int].children.len();
    lemma_planted_len(bare, id, s, s.root as int, n);
    assert(s.lives(s.root as int));
    assert(s.path_of(s.root as int) == s.root_path);
    let full = if m.levels_below(dir) == 0 {
        bare
    } else {
        planted(bare, id, s, s.root as int, n)
    };
    if m.levels_below(dir) > 0 {
        lemma_planted_orderly(bare, id, s, s.root as int, n);
    }
    assert(grown_at(bare, full, id as int));
    law_resized_orderly(full, id, s.bytes);
    law_rescan_takes_over(m, mounts, dir, s, 0);
    lemma_below_kids(m, id as int, id as int);
    lemma_sizes_of(m, kids, total);
    assert(full.lives(id as int) == bare.lives(id as int));
    assert forall|i: int| #[trigger] m.lives(i) && i != id implies {
        &&& under(m.path_of(i), dir) ==> !t.lives(i)
        &&& !under(m.path_of(i), dir) ==> t.lives(i)
        &&& under(dir, m.path_of(i)) ==> {
            &&& t.nodes[i].size == moved(
                bare_size(m, id as int, i) as u64,
                bare_size(m, id as int, id as int) as u64,
                s.bytes,
            )
            &&& sizes_of(m, kids, kids.len()) <= m.nodes[id as int].size <= m.nodes[i].size
                ==> t.nodes[i].size == at_most_all(
                m.nodes[i].size - m.nodes[id as int].size + s.bytes,
            )
        }
        &&& !under(dir, m.path_of(i)) && !under(m.path_of(i), dir) ==> t.nodes[i].size
            == m.nodes[i].size
    } by {
        lemma_below_kids(m, id as int, i);
        lemma_chain_is_above(m, id as int, i);
        assert(full.lives(i) == bare.lives(i));
        assert(t.lives(i) == full.lives(i));
        if under(dir, m.path_of(i)) && under(m.path_of(i), dir) {
            assert(comps(m.path_of(i)) =~= comps(dir));
            lemma_paths_differ(m, i, id as int);
        }
        assert(t.nodes[i].size == t.nodes[i].size);
    }
}

proof fn lemma_sizes_of(m: TreeModel, kids: Seq<NodeId>, n: nat)
    ensures
        sizes_of(m, kids, n) >= 0,
    decreases n,
{
    if n > 0 {
        lemma_sizes_of(m, kids, (n - 1) as nat);
    }
}

/// Where a directory is gone, it and all that lay below it live no longer. What
/// was left of it leaves each directory above with the rest. All else stays. The
/// root itself stays, without what lay below it.
pub proof fn law_rescan_gone(
    m: TreeModel,
    mounts: Seq<EntryModel>,
    dir: Seq<u8>,
    sub: Option<TreeModel>,
)
    requires
        m.orderly(),
        m.rescans(mounts, dir),
    ensures
        ({
            let t = m.rescanned(mounts, dir, false, sub);
            let id = m.dirs[comps(dir)] as int;
            let kids = m.nodes[id].children;
            id != m.root ==> forall|i: int| #[trigger]
                m.lives(i) ==> {
                    &&& t.lives(i) <==> !under(m.path_of(i), dir)
                    &&& t.lives(i) && under(dir, m.path_of(i)) ==> t.nodes[i].size == left_of(
                        bare_size(m, id, i),
                        bare_size(m, id, id),
                    )
                    &&& t.lives(i) && !under(dir, m.path_of(i)) ==> t.nodes[i].size
                        == m.nodes[i].size
                }
        }),
        ({
            let t = m.rescanned(mounts, dir, false, sub);
            let id = m.dirs[comps(dir)] as int;
            id == m.root ==> forall|i: int| #[trigger]
                m.lives(i) ==> (t.lives(i) <==> i == id)
        }),
{
    let t = m.rescanned(mounts, dir, false, sub);
    let id = m.dirs[comps(dir)];
    let kids = m.nodes[id as int].children;
    let total = kids.len();
    assert(m.lives(id as int));
    law_index_exact(m, id as int, comps(dir));
    let bare = m.cleared(kids, total);
    lemma_cleared_orderly(m, id, total);
    lemma_cleared_left(m, id, total);
    lemma_below_kids(m, id as int, id as int);
    lemma_sizes_of(m, kids, total);
    assert(bare.lives(id as int));
    let x = comps(m.path_of(id as int));
    assert(x.take(x.len() as int) =~= x);
    if id != m.root {
        lemma_node_at_path(bare, dir, id as int);
        law_removed_at(bare, dir, id as int);
        assert(t == bare.killed(id));
        assert forall|i: int| #[trigger] m.lives(i) implies {
            &&& t.lives(i) <==> !under(m.path_of(i), dir)
            &&& t.lives(i) && under(dir, m.path_of(i)) ==> t.nodes[i].size == left_of(
                bare_size(m, id as int, i),
                bare_size(m, id as int, id as int),
            )
            &&& t.lives(i) && !under(dir, m.path_of(i)) ==> t.nodes[i].size == m.nodes[i].size
        } by {
            lemma_below_kids(m, id as int, i);
            lemma_path_of_same(m, bare, i);
            lemma_lives_killed(bare, id, i);
            if bare.lives(i) {
                lemma_below_chain(bare, id as int, i);
                lemma_chain_is_above(bare, i, id as int);
            }
        }
    } else {
        law_index_exact(bare, id as int, comps(dir));
        assert(bare.node_at(dir) == Some(id));
        assert(t == bare);
        assert forall|i: int| #[trigger] m.lives(i) implies (t.lives(i) <==> i == id) by {
            lemma_below_kids(m, id as int, i);
            crate::index_laws::lemma_lives_under(m, i);
        }
    }
}

/// Where a directory is there and was not read, it stays without what lay below
/// it, whose sizes have left it and each directory above. All else stays.
pub proof fn law_rescan_unread(m: TreeModel, mounts: Seq<EntryModel>, dir: Seq<u8>)
    requires
        m.orderly(),
        m.rescans(mounts, dir),
    ensures
        ({
            let t = m.rescanned(mounts, dir, true, None);
            let id = m.dirs[comps(dir)] as int;
            forall|i: int| #[trigger]
                m.lives(i) ==> {
                    &&& t.lives(i) <==> i == id || !under(m.path_of(i), dir)
                    &&& t.lives(i) ==> t.nodes[i].size == if under(dir, m.path_of(i)) {
                        bare_size(m, id, i)
                    } else {
                        m.nodes[i].size as int
                    }
                }
        }),
{
    let id = m.dirs[comps(dir)];
    let kids = m.nodes[id as int].children;
    assert(m.lives(id as int));
    law_index_exact(m, id as int, comps(dir));
    lemma_cleared_left(m, id, kids.len());
    let t = m.rescanned(mounts, dir, true, None);
    assert(t == m.cleared(kids, kids.len()));
    assert forall|i: int| #[trigger] m.lives(i) implies {
        &&& t.lives(i) <==> i == id || !under(m.path_of(i), dir)
        &&& t.lives(i) ==> t.nodes[i].size == if under(dir, m.path_of(i)) {
            bare_size(m, id as int, i)
        } else {
            m.nodes[i].size as int
        }
    } by {
        lemma_below_kids(m, id as int, i);
    }
}

/// Nothing is rescanned that is not filed or is a mount strictly below the root.
/// A directory is stored down to the third level below the root.
pub proof fn law_rescan_scope(
    m: TreeModel,
    mounts: Seq<EntryModel>,
    dir: Seq<u8>,
    exists: bool,
    sub: Option<TreeModel>,
    e: int,
)
    ensures
        !m.dirs.dom().contains(comps(dir)) ==> m.rescanned(mounts, dir, exists, sub) == m,
        0 <= e < mounts.len() && comps(mounts[e].target) == comps(dir) && under(dir, m.root_path)
            && comps(dir) != comps(m.root_path) ==> m.rescanned(mounts, dir, exists, sub) == m,
        under(dir, m.root_path) ==> {
            let depth = comps(dir).len() - comps(m.root_path).len();
            &&& depth <= 3 ==> m.levels_below(dir) == 3 - depth
            &&& 3 < depth <= u32::MAX ==> m.levels_below(dir) == 0
        },
{
}

} // verus!
