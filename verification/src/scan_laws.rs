//! What holds of a whole scan.

use crate::index_laws::{fits, law_added_orderly, law_fresh_orderly, lemma_orderly_sizes};
use crate::mounts::{nested_in, nested_mount, EntryModel};
use crate::path::{
    base_name, comps, lemma_comps_plain, lemma_parent_comps, lossy_text, parent_path, same_path,
};
use crate::prune_laws::{lemma_depth_same, lemma_linked_depth, no_deeper, node_depth};
use crate::scan::{
    lemma_cut_stack, lemma_visited_wf, lemma_with_portal, portal_kind, portal_name, scanned,
    size_of_meta, Meta, ScanModel, StepModel, UNREAD_INODE,
};
use crate::tree::{
    extension, first_named, fresh_node, grown, lemma_chain_to_root, linked, sat_add, NodeId, NodeModel,
    StoredModel, TreeModel, MAX_NODES,
};
use crate::tree_laws::law_add_child_counts;
use vstd::prelude::*;
use vstd::utf8::*;

verus! {

// ---------------------------------------------------------------------------
// Bytes
// ---------------------------------------------------------------------------

/// The bytes that a step of the walk adds to the total.
pub open spec fn step_bytes(
    s: ScanModel,
    mounts: Seq<EntryModel>,
    max_depth: nat,
    e: StepModel,
) -> u64 {
    if s.counts(mounts, e) && (e.depth > max_depth || e.is_dir || e.is_file) {
        size_of_meta(e.meta.unwrap())
    } else {
        0
    }
}

/// The total of the root and the first `n` steps of a walk, however deep they
/// are.
pub open spec fn walk_bytes(
    s: ScanModel,
    mounts: Seq<EntryModel>,
    max_depth: nat,
    steps: Seq<StepModel>,
    n: nat,
) -> u64
    decreases n,
{
    if n == 0 {
        s.tree.nodes[s.tree.root as int].size
    } else {
        sat_add(
            walk_bytes(s, mounts, max_depth, steps, (n - 1) as nat),
            step_bytes(s, mounts, max_depth, steps[n - 1]),
        )
    }
}

/// A step adds its bytes to the size of the root.
pub proof fn law_step_counts(s: ScanModel, mounts: Seq<EntryModel>, max_depth: nat, e: StepModel)
    requires
        s.wf(),
        s.tree.nodes.len() < MAX_NODES,
    ensures
        ({
            let v = s.visited(mounts, max_depth, e);
            v.tree.nodes[s.tree.root as int].size == sat_add(
                s.tree.nodes[s.tree.root as int].size,
                step_bytes(s, mounts, max_depth, e),
            )
        }),
{
    if s.counts(mounts, e) {
        lemma_cut_stack(s, e.depth);
        let parent = s.cut_stack(e.depth).last();
        let size = size_of_meta(e.meta.unwrap());
        lemma_chain_to_root(s.tree.nodes, s.tree.root, parent as int);
        if e.depth > max_depth {
        } else if e.is_dir {
            law_add_child_counts(
                s.tree,
                parent,
                lossy_text(e.name),
                size,
                StoredModel::Dir,
                Some(e.path),
            );
        } else if e.is_file {
            law_add_child_counts(
                s.tree,
                parent,
                lossy_text(e.name),
                size,
                StoredModel::File { ext: extension(lossy_text(e.name)) },
                None,
            );
        }
    }
}

/// What a walk keeps: a well formed scan of the same root.
pub proof fn lemma_walked_wf(
    s: ScanModel,
    mounts: Seq<EntryModel>,
    max_depth: nat,
    steps: Seq<StepModel>,
    n: nat,
)
    requires
        s.wf(),
        s.files == 0,
        s.tree.nodes.len() == 1,
        n <= steps.len() < MAX_NODES,
    ensures
        ({
            let w = s.walked(mounts, max_depth, steps, n);
            &&& w.wf()
            &&& w.tree.nodes.len() <= 1 + n
            &&& w.files <= n
            &&& w.tree.root == s.tree.root
            &&& w.tree.root_path == s.tree.root_path
        }),
    decreases n,
{
    if n > 0 {
        lemma_walked_wf(s, mounts, max_depth, steps, (n - 1) as nat);
        let w = s.walked(mounts, max_depth, steps, (n - 1) as nat);
        lemma_visited_wf(w, mounts, max_depth, steps[n - 1]);
    }
}

/// Deep files count: after a walk the size of the root is the total of all that
/// was walked, stored or not.
pub proof fn law_walk_counts_all(
    s: ScanModel,
    mounts: Seq<EntryModel>,
    max_depth: nat,
    steps: Seq<StepModel>,
    n: nat,
)
    requires
        s.wf(),
        s.files == 0,
        s.tree.nodes.len() == 1,
        n <= steps.len() < MAX_NODES,
    ensures
        s.walked(mounts, max_depth, steps, n).tree.nodes[s.tree.root as int].size == walk_bytes(
            s,
            mounts,
            max_depth,
            steps,
            n,
        ),
    decreases n,
{
    if n > 0 {
        law_walk_counts_all(s, mounts, max_depth, steps, (n - 1) as nat);
        lemma_walked_wf(s, mounts, max_depth, steps, (n - 1) as nat);
        let w = s.walked(mounts, max_depth, steps, (n - 1) as nat);
        law_step_counts(w, mounts, max_depth, steps[n - 1]);
        assert(step_bytes(w, mounts, max_depth, steps[n - 1]) == step_bytes(
            s,
            mounts,
            max_depth,
            steps[n - 1],
        ));
    }
}

// ---------------------------------------------------------------------------
// Depth
// ---------------------------------------------------------------------------

/// Whether the stack holds the directories from the root down, one for each
/// depth, and nothing is stored deeper than `max_depth`.
pub open spec fn stack_fits(s: ScanModel, max_depth: nat) -> bool {
    &&& s.stack.len() <= max_depth + 1
    &&& no_deeper(s.tree.nodes, max_depth)
    &&& forall|i: int|
        0 <= i < s.stack.len() ==> node_depth(s.tree.nodes, #[trigger] s.stack[i] as int) == i
}

/// Depths do not change where sizes do.
proof fn lemma_depth_grown(nodes: Seq<NodeModel>, id: int, delta: u64, i: int)
    requires
        0 <= i < nodes.len(),
    ensures
        node_depth(grown(nodes, id, delta), i) == node_depth(nodes, i),
{
    lemma_depth_same(nodes, grown(nodes, id, delta), i);
}

/// A new child stands one below its parent, and no other depth changes.
proof fn lemma_depth_with_child(
    m: TreeModel,
    parent: NodeId,
    name: Seq<char>,
    size: u64,
    kind: StoredModel,
    path: Option<Seq<u8>>,
)
    requires
        parent < m.nodes.len() < MAX_NODES,
    ensures
        ({
            let t = m.with_child(parent, name, size, kind, path);
            &&& node_depth(t.nodes, m.nodes.len() as int) == node_depth(m.nodes, parent as int) + 1
            &&& forall|i: int|
                0 <= i < m.nodes.len() ==> #[trigger] node_depth(t.nodes, i) == node_depth(
                    m.nodes,
                    i,
                )
        }),
{
    let node = fresh_node(name, Some(parent), size, kind);
    let l = linked(m.nodes, parent as int, node);
    let t = m.with_child(parent, name, size, kind, path);
    lemma_linked_depth(m.nodes, parent as int, node);
    lemma_depth_grown(l, parent as int, size, m.nodes.len() as int);
    assert forall|i: int| 0 <= i < m.nodes.len() implies #[trigger] node_depth(t.nodes, i)
        == node_depth(m.nodes, i) by {
        lemma_depth_grown(l, parent as int, size, i);
        assert(node_depth(l, i) == node_depth(m.nodes, i));
    }
}

/// A step of the walk stores nothing deeper than `max_depth`.
pub proof fn law_step_depth(s: ScanModel, mounts: Seq<EntryModel>, max_depth: nat, e: StepModel)
    requires
        s.wf(),
        s.tree.nodes.len() < MAX_NODES,
        stack_fits(s, max_depth),
    ensures
        stack_fits(s.visited(mounts, max_depth, e), max_depth),
{
    let v = s.visited(mounts, max_depth, e);
    if e.depth > 0 && !nested_mount(mounts, s.tree.root_path, e.path) {
        lemma_cut_stack(s, e.depth);
        let stack = s.cut_stack(e.depth);
        assert forall|i: int| 0 <= i < stack.len() implies node_depth(
            s.tree.nodes,
            #[trigger] stack[i] as int,
        ) == i by {
            assert(stack[i] == s.stack[i]);
        }
        let parent = stack.last();
        assert(parent == stack[stack.len() - 1]);
        if s.counts(mounts, e) {
            let size = size_of_meta(e.meta.unwrap());
            let name = lossy_text(e.name);
            if e.depth > max_depth {
                assert forall|i: int| 0 <= i < v.tree.nodes.len() implies #[trigger] node_depth(
                    v.tree.nodes,
                    i,
                ) == node_depth(s.tree.nodes, i) by {
                    lemma_depth_grown(s.tree.nodes, parent as int, size, i);
                }
                assert forall|i: int| 0 <= i < v.stack.len() implies node_depth(
                    v.tree.nodes,
                    #[trigger] v.stack[i] as int,
                ) == i by {
                    assert(stack[i] == s.stack[i]);
                }
            } else if e.is_dir || e.is_file {
                let kind = if e.is_dir {
                    StoredModel::Dir
                } else {
                    StoredModel::File { ext: extension(name) }
                };
                let path = if e.is_dir {
                    Some(e.path)
                } else {
                    None
                };
                lemma_depth_with_child(s.tree, parent, name, size, kind, path);
                assert forall|i: int| 0 <= i < v.tree.nodes.len() implies #[trigger] node_depth(
                    v.tree.nodes,
                    i,
                ) <= max_depth by {
                    if i < s.tree.nodes.len() {
                        assert(node_depth(s.tree.nodes, i) <= max_depth);
                    }
                }
                assert forall|i: int| 0 <= i < v.stack.len() implies node_depth(
                    v.tree.nodes,
                    #[trigger] v.stack[i] as int,
                ) == i by {
                    if i < stack.len() {
                        assert(stack[i] == s.stack[i]);
                        assert(node_depth(v.tree.nodes, stack[i] as int) == node_depth(
                            s.tree.nodes,
                            stack[i] as int,
                        ));
                    }
                }
            } else {
                assert(v.tree == s.tree);
            }
        } else {
            assert(v.tree == s.tree);
            assert(v.stack == stack);
        }
    }
}

/// A walk stores nothing deeper than `max_depth`.
pub proof fn law_walk_depth(
    root: Seq<u8>,
    meta: Option<Meta>,
    mounts: Seq<EntryModel>,
    max_depth: nat,
    steps: Seq<StepModel>,
    n: nat,
)
    requires
        n <= steps.len() < MAX_NODES,
    ensures
        ({
            let s = ScanModel::started(root, meta);
            &&& s.wf()
            &&& stack_fits(s.walked(mounts, max_depth, steps, n), max_depth)
        }),
    decreases n,
{
    let s = ScanModel::started(root, meta);
    lemma_started(root, meta);
    if n > 0 {
        law_walk_depth(root, meta, mounts, max_depth, steps, (n - 1) as nat);
        lemma_walked_wf(s, mounts, max_depth, steps, (n - 1) as nat);
        let w = s.walked(mounts, max_depth, steps, (n - 1) as nat);
        law_step_depth(w, mounts, max_depth, steps[n - 1]);
    } else {
        assert(node_depth(s.tree.nodes, 0) == 0);
    }
}

proof fn lemma_started(root: Seq<u8>, meta: Option<Meta>)
    ensures
        ({
            let s = ScanModel::started(root, meta);
            &&& s.wf()
            &&& s.files == 0
            &&& s.tree.nodes.len() == 1
            &&& s.tree.root == 0
            &&& s.tree.root_path == root
        }),
{
    let s = ScanModel::started(root, meta);
    assert(s.tree.nodes[0].parent is None);
    assert(s.tree.nodes[0].children.len() == 0);
    assert forall|k: Seq<Seq<u8>>| #[trigger] s.tree.dirs.dom().contains(k) implies s.tree.dirs[k]
        < s.tree.nodes.len() by {
        assert(k == comps(root));
    }
}

/// Portals are the only nodes that the end of a scan adds, and each stands at
/// most one below what the walk stored.
proof fn lemma_portals_depth(
    t: TreeModel,
    mounts: Seq<EntryModel>,
    nested: Seq<EntryModel>,
    inodes: Seq<Option<Meta>>,
    n: nat,
    max_depth: nat,
)
    requires
        t.wf(),
        n <= nested.len(),
        t.nodes.len() + n <= MAX_NODES,
        forall|i: int|
            0 <= i < t.nodes.len() ==> (#[trigger] t.nodes[i]).kind !is MountPoint,
        no_deeper(t.nodes, max_depth),
    ensures
        ({
            let r = t.with_portals(mounts, nested, inodes, n);
            &&& r.wf()
            &&& t.nodes.len() <= r.nodes.len() <= t.nodes.len() + n
            &&& r.root == t.root
            &&& r.root_path == t.root_path
            &&& forall|i: int|
                0 <= i < r.nodes.len() ==> (#[trigger] r.nodes[i]).kind !is MountPoint
                    ==> node_depth(r.nodes, i) <= max_depth
        }),
    decreases n,
{
    if n > 0 {
        lemma_portals_depth(t, mounts, nested, inodes, (n - 1) as nat, max_depth);
        let b = t.with_portals(mounts, nested, inodes, (n - 1) as nat);
        let m = nested[n - 1];
        let here = t.home(mounts);
        lemma_with_portal(b, here, m, inodes[n - 1]);
        let r = b.with_portal(here, m, inodes[n - 1]);
        if r != b {
            let pid = b.portal_parent(m.target).unwrap();
            let size = match inodes[n - 1] {
                Some(meta) => size_of_meta(meta),
                None => UNREAD_INODE,
            };
            assert(pid < b.nodes.len()) by {
                let q = crate::path::parent_path(m.target).unwrap();
                if b.dirs.dom().contains(comps(q)) {
                    assert(b.dirs[comps(q)] < b.nodes.len());
                }
            }
            law_add_child_counts(
                b,
                pid,
                portal_name(m.target),
                size,
                portal_kind(m),
                Some(m.target),
            );
            lemma_depth_with_child(
                b,
                pid,
                portal_name(m.target),
                size,
                portal_kind(m),
                Some(m.target),
            );
            assert forall|i: int|
                0 <= i < r.nodes.len() && (#[trigger] r.nodes[i]).kind
                    !is MountPoint implies node_depth(r.nodes, i) <= max_depth by {
                if i < b.nodes.len() {
                    assert(b.nodes[i].kind == r.nodes[i].kind);
                    assert(node_depth(r.nodes, i) == node_depth(b.nodes, i));
                }
            }
        }
    } else {
        assert forall|i: int|
            0 <= i < t.nodes.len() && (#[trigger] t.nodes[i]).kind
                !is MountPoint implies node_depth(t.nodes, i) <= max_depth by {
            assert(node_depth(t.nodes, i) <= max_depth);
        }
    }
}

/// No walk stores a nested mount.
proof fn lemma_walked_kinds(
    s: ScanModel,
    mounts: Seq<EntryModel>,
    max_depth: nat,
    steps: Seq<StepModel>,
    n: nat,
)
    requires
        s.wf(),
        s.files == 0,
        s.tree.nodes.len() == 1,
        s.tree.nodes[0].kind is Dir,
        n <= steps.len() < MAX_NODES,
    ensures
        forall|i: int|
            0 <= i < s.walked(mounts, max_depth, steps, n).tree.nodes.len() ==> (
            #[trigger] s.walked(mounts, max_depth, steps, n).tree.nodes[i]).kind !is MountPoint,
    decreases n,
{
    if n > 0 {
        lemma_walked_kinds(s, mounts, max_depth, steps, (n - 1) as nat);
        lemma_walked_wf(s, mounts, max_depth, steps, (n - 1) as nat);
        let w = s.walked(mounts, max_depth, steps, (n - 1) as nat);
        let e = steps[n - 1];
        let v = w.visited(mounts, max_depth, e);
        assert forall|i: int| 0 <= i < v.tree.nodes.len() implies (#[trigger] v.tree.nodes[i]).kind
            !is MountPoint by {
            if i < w.tree.nodes.len() {
                assert(w.tree.nodes[i].kind !is MountPoint);
            }
            if w.counts(mounts, e) && e.depth <= max_depth && (e.is_dir || e.is_file) {
                lemma_cut_stack(w, e.depth);
                let parent = w.cut_stack(e.depth).last();
                let size = size_of_meta(e.meta.unwrap());
                let name = lossy_text(e.name);
                let kind = if e.is_dir {
                    StoredModel::Dir
                } else {
                    StoredModel::File { ext: extension(name) }
                };
                let path = if e.is_dir {
                    Some(e.path)
                } else {
                    None
                };
                law_add_child_counts(w.tree, parent, name, size, kind, path);
            }
        }
    }
}

/// A scan stores no directory and no file deeper than `max_depth`. The total of
/// the tree is the size of its root, and its count of files that of all files
/// that were walked.
pub proof fn law_scan_depth(
    root: Seq<u8>,
    meta: Option<Meta>,
    steps: Seq<StepModel>,
    mounts: Seq<EntryModel>,
    inodes: Seq<Option<Meta>>,
    max_depth: nat,
)
    requires
        inodes.len() == nested_in(mounts, root, mounts.len()).len(),
        1 + steps.len() + inodes.len() <= MAX_NODES,
    ensures
        ({
            let t = scanned(root, meta, steps, mounts, inodes, max_depth);
            &&& forall|i: int|
                0 <= i < t.nodes.len() ==> (#[trigger] t.nodes[i]).kind !is MountPoint
                    ==> node_depth(t.nodes, i) <= max_depth
            &&& t.bytes == t.nodes[t.root as int].size
            &&& t.files == ScanModel::started(root, meta).walked(
                mounts,
                max_depth,
                steps,
                steps.len(),
            ).files
        }),
{
    let s = ScanModel::started(root, meta);
    lemma_started(root, meta);
    lemma_walked_wf(s, mounts, max_depth, steps, steps.len());
    lemma_walked_kinds(s, mounts, max_depth, steps, steps.len());
    law_walk_depth(root, meta, mounts, max_depth, steps, steps.len());
    let w = s.walked(mounts, max_depth, steps, steps.len());
    let nested = nested_in(mounts, root, mounts.len());
    lemma_portals_depth(w.tree, mounts, nested, inodes, nested.len(), max_depth);
}

// ---------------------------------------------------------------------------
// The index
// ---------------------------------------------------------------------------

/// Whether the tree of a scan is orderly and the stack holds living directories.
pub open spec fn scan_orderly(s: ScanModel) -> bool {
    &&& s.wf()
    &&& s.tree.orderly()
    &&& forall|i: int|
        0 <= i < s.stack.len() ==> s.tree.lives((#[trigger] s.stack[i]) as int)
            && s.tree.nodes[s.stack[i] as int].kind is Dir
}

/// Whether a step of the walk is in order: an entry that is stored has a name
/// that is new in its directory, and its path is that of the directory with
/// the name behind it.
pub open spec fn step_orderly(
    s: ScanModel,
    mounts: Seq<EntryModel>,
    max_depth: nat,
    e: StepModel,
) -> bool {
    s.counts(mounts, e) && e.depth <= max_depth && (e.is_dir || e.is_file) ==> fits(
        s.tree,
        s.cut_stack(e.depth).last(),
        lossy_text(e.name),
        if e.is_dir {
            StoredModel::Dir
        } else {
            StoredModel::File { ext: extension(lossy_text(e.name)) }
        },
        if e.is_dir {
            Some(e.path)
        } else {
            None
        },
    )
}

/// A step of the walk that is in order keeps the scan so.
pub proof fn law_step_orderly(s: ScanModel, mounts: Seq<EntryModel>, max_depth: nat, e: StepModel)
    requires
        scan_orderly(s),
        step_orderly(s, mounts, max_depth, e),
        s.tree.nodes.len() < MAX_NODES,
        s.files + MAX_NODES < u64::MAX,
    ensures
        scan_orderly(s.visited(mounts, max_depth, e)),
{
    let v = s.visited(mounts, max_depth, e);
    lemma_visited_wf(s, mounts, max_depth, e);
    if e.depth > 0 && !nested_mount(mounts, s.tree.root_path, e.path) {
        lemma_cut_stack(s, e.depth);
        let stack = s.cut_stack(e.depth);
        assert forall|i: int| 0 <= i < stack.len() implies s.tree.lives((
        #[trigger] stack[i]) as int) && s.tree.nodes[stack[i] as int].kind is Dir by {
            assert(stack[i] == s.stack[i]);
        }
        if s.counts(mounts, e) {
            let parent = stack.last();
            let size = size_of_meta(e.meta.unwrap());
            if e.depth > max_depth {
                lemma_orderly_sizes(s.tree, v.tree);
                assert forall|i: int| 0 <= i < v.stack.len() implies v.tree.lives((
                #[trigger] v.stack[i]) as int) && v.tree.nodes[v.stack[i] as int].kind is Dir by {
                    assert(v.stack[i] == stack[i]);
                    assert(v.tree.lives(stack[i] as int) == s.tree.lives(stack[i] as int));
                }
            } else if e.is_dir || e.is_file {
                let name = lossy_text(e.name);
                let kind = if e.is_dir {
                    StoredModel::Dir
                } else {
                    StoredModel::File { ext: extension(name) }
                };
                let path = if e.is_dir {
                    Some(e.path)
                } else {
                    None
                };
                law_added_orderly(s.tree, parent, name, size, kind, path);
                let g = s.tree.grafted(parent, name, size, kind, path);
                lemma_orderly_sizes(g, v.tree);
                let new = s.tree.nodes.len() as int;
                assert forall|i: int| 0 <= i < v.stack.len() implies v.tree.lives((
                #[trigger] v.stack[i]) as int) && v.tree.nodes[v.stack[i] as int].kind is Dir by {
                    assert(v.tree.lives(v.stack[i] as int) == g.lives(v.stack[i] as int));
                    if i < stack.len() {
                        assert(v.stack[i] == stack[i]);
                        assert(g.lives(stack[i] as int) == s.tree.lives(stack[i] as int));
                        assert(g.nodes[stack[i] as int].kind
                            == s.tree.nodes[stack[i] as int].kind);
                    }
                }
            } else {
                assert(v.stack == stack);
            }
        } else {
            assert(v.stack == stack);
        }
    }
}

/// A walk whose steps are in order gives a tree with an exact index.
pub proof fn law_walk_orderly(
    root: Seq<u8>,
    meta: Option<Meta>,
    mounts: Seq<EntryModel>,
    max_depth: nat,
    steps: Seq<StepModel>,
    n: nat,
)
    requires
        n <= steps.len() < MAX_NODES,
        forall|i: int|
            0 <= i < n ==> step_orderly(
                ScanModel::started(root, meta).walked(mounts, max_depth, steps, i as nat),
                mounts,
                max_depth,
                #[trigger] steps[i],
            ),
    ensures
        scan_orderly(ScanModel::started(root, meta).walked(mounts, max_depth, steps, n)),
    decreases n,
{
    let s = ScanModel::started(root, meta);
    lemma_started(root, meta);
    if n > 0 {
        let j = (n - 1) as nat;
        law_walk_orderly(root, meta, mounts, max_depth, steps, j);
        lemma_walked_wf(s, mounts, max_depth, steps, j);
        assert(step_orderly(
            s.walked(mounts, max_depth, steps, j),
            mounts,
            max_depth,
            steps[j as int],
        ));
        law_step_orderly(s.walked(mounts, max_depth, steps, j), mounts, max_depth, steps[j as int]);
    } else {
        law_fresh_orderly(root);
        let fresh = TreeModel::fresh(root);
        lemma_orderly_sizes(fresh, s.tree);
        assert(fresh.lives(0));
        assert(s.tree.lives(0) == fresh.lives(0));
    }
}

/// A portal to a mount whose name is a text keeps the tree orderly.
pub proof fn law_portal_orderly(
    t: TreeModel,
    here: Option<EntryModel>,
    m: EntryModel,
    inode: Option<Meta>,
)
    requires
        t.orderly(),
        t.has_room(),
        base_name(m.target) matches Some(name) && valid_utf8(name),
    ensures
        t.with_portal(here, m, inode).orderly(),
{
    let name = base_name(m.target).unwrap();
    let cs = comps(m.target);
    match t.portal_parent(m.target) {
        Some(pid) => {
            let q = parent_path(m.target).unwrap();
            lemma_parent_comps(m.target);
            lemma_comps_plain(m.target, cs.len() - 1);
            decode_utf8_encode_utf8(name);
            assert(cs.drop_last().push(cs.last()) =~= cs);
            assert(t.lives(t.root as int));
            assert(t.path_of(t.root as int) == t.root_path);
            if same_path(q, t.root_path) {
            } else {
                assert(t.lives(pid as int));
            }
            if first_named(
                t.nodes,
                t.nodes[pid as int].children,
                portal_name(m.target),
            ) is None {
                law_added_orderly(
                    t,
                    pid,
                    portal_name(m.target),
                    match inode {
                        Some(meta) => size_of_meta(meta),
                        None => UNREAD_INODE,
                    },
                    portal_kind(m),
                    Some(m.target),
                );
            }
        },
        None => {},
    }
}

proof fn lemma_portals_orderly(
    t: TreeModel,
    mounts: Seq<EntryModel>,
    nested: Seq<EntryModel>,
    inodes: Seq<Option<Meta>>,
    n: nat,
)
    requires
        t.orderly(),
        n <= nested.len(),
        t.nodes.len() + n <= MAX_NODES,
        forall|i: int|
            0 <= i < n ==> (base_name((#[trigger] nested[i]).target) matches Some(name)
                && valid_utf8(name)),
    ensures
        t.with_portals(mounts, nested, inodes, n).orderly(),
        t.with_portals(mounts, nested, inodes, n).nodes.len() <= t.nodes.len() + n,
    decreases n,
{
    if n > 0 {
        lemma_portals_orderly(t, mounts, nested, inodes, (n - 1) as nat);
        let before = t.with_portals(mounts, nested, inodes, (n - 1) as nat);
        assert(base_name(nested[n - 1].target) matches Some(name) && valid_utf8(name));
        law_portal_orderly(before, t.home(mounts), nested[n - 1], inodes[n - 1]);
    }
}

/// A scan whose steps are in order, with nested mounts whose names are texts,
/// gives a tree with an exact index.
pub proof fn law_scan_orderly(
    root: Seq<u8>,
    meta: Option<Meta>,
    steps: Seq<StepModel>,
    mounts: Seq<EntryModel>,
    inodes: Seq<Option<Meta>>,
    max_depth: nat,
)
    requires
        inodes.len() == nested_in(mounts, root, mounts.len()).len(),
        1 + steps.len() + inodes.len() <= MAX_NODES,
        forall|i: int|
            0 <= i < steps.len() ==> step_orderly(
                ScanModel::started(root, meta).walked(mounts, max_depth, steps, i as nat),
                mounts,
                max_depth,
                #[trigger] steps[i],
            ),
        forall|i: int|
            0 <= i < inodes.len() ==> (base_name(
                (#[trigger] nested_in(mounts, root, mounts.len())[i]).target,
            ) matches Some(name) && valid_utf8(name)),
    ensures
        scanned(root, meta, steps, mounts, inodes, max_depth).orderly(),
{
    let s = ScanModel::started(root, meta);
    lemma_started(root, meta);
    lemma_walked_wf(s, mounts, max_depth, steps, steps.len());
    law_walk_orderly(root, meta, mounts, max_depth, steps, steps.len());
    let w = s.walked(mounts, max_depth, steps, steps.len());
    let nested = nested_in(mounts, root, mounts.len());
    lemma_portals_orderly(w.tree, mounts, nested, inodes, nested.len());
    let t = w.tree.with_portals(mounts, nested, inodes, nested.len());
    lemma_orderly_sizes(t, w.finished(mounts, inodes));
}

} // verus!
