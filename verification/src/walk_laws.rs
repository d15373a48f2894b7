//! What a scan makes of the steps of a walk, said of the steps alone.

use crate::discover::skipped_fstype;
use crate::mounts::{nested_in, EntryModel};
use crate::path::{base_name, comps, lossy_text, parent_path, under};
use crate::scan::{
    lemma_cut_stack, lemma_with_portal, portal_kind, portal_name, scanned,
    size_of_meta, Meta, ScanModel, StepModel, UNREAD_INODE,
};
use crate::scan_laws::lemma_walked_wf;
use crate::tree::{
    extension, first_named, lemma_chain_to_root, on_chain, NodeId, StoredModel, TreeModel,
    MAX_NODES,
};
use crate::tree_laws::law_add_child_counts;
use vstd::prelude::*;

verus! {

/// The largest count of bytes that a size can say.
pub open spec fn at_most_all(n: int) -> int {
    if n > u64::MAX {
        u64::MAX as int
    } else {
        n
    }
}

/// A file takes no fewer bytes than its blocks and no fewer than its length, and
/// just as many as one of them, where the blocks can be counted in bytes.
pub proof fn law_taken_size(meta: Meta)
    ensures
        size_of_meta(meta) >= meta.len,
        size_of_meta(meta) >= at_most_all(meta.blocks * 512),
        size_of_meta(meta) == meta.len || size_of_meta(meta) == at_most_all(meta.blocks * 512),
{
}

/// Whether a step found what belongs to the file system below the root: it could
/// be read, is no symbolic link, and nothing is mounted at its place.
pub open spec fn own_step(e: StepModel, root: Seq<u8>, mounts: Seq<EntryModel>) -> bool {
    &&& e.depth > 0
    &&& e.meta is Some
    &&& !e.is_symlink
    &&& under(e.path, root) && comps(e.path) != comps(root) ==> forall|i: int|
        0 <= i < mounts.len() ==> comps((#[trigger] mounts[i]).target) != comps(e.path)
}

/// Whether a step is a file or a directory, or lies deeper than what is stored,
/// where no difference is made.
pub open spec fn sized_step(e: StepModel, max_depth: nat) -> bool {
    e.is_dir || e.is_file || e.depth > max_depth
}

/// Whether a step is a file.
pub open spec fn file_step(e: StepModel, max_depth: nat) -> bool {
    e.is_file && (!e.is_dir || e.depth > max_depth)
}

/// The bytes that the first `n` steps of a walk take.
pub open spec fn steps_bytes(
    steps: Seq<StepModel>,
    n: nat,
    root: Seq<u8>,
    mounts: Seq<EntryModel>,
    max_depth: nat,
) -> int
    decreases n,
{
    if n == 0 {
        0
    } else {
        let e = steps[n - 1];
        steps_bytes(steps, (n - 1) as nat, root, mounts, max_depth) + if own_step(e, root, mounts)
            && sized_step(e, max_depth) {
            size_of_meta(e.meta.unwrap()) as int
        } else {
            0
        }
    }
}

/// How many of the first `n` steps of a walk are files.
pub open spec fn steps_files(
    steps: Seq<StepModel>,
    n: nat,
    root: Seq<u8>,
    mounts: Seq<EntryModel>,
    max_depth: nat,
) -> int
    decreases n,
{
    if n == 0 {
        0
    } else {
        let e = steps[n - 1];
        steps_files(steps, (n - 1) as nat, root, mounts, max_depth) + if own_step(e, root, mounts)
            && file_step(e, max_depth) {
            1int
        } else {
            0
        }
    }
}

/// The node that holds what a step finds: the stored directory one level above
/// it, or the deepest one that is stored.
pub open spec fn holder(stack: Seq<NodeId>, depth: nat) -> NodeId {
    if stack.len() > depth {
        stack[depth - 1]
    } else {
        stack.last()
    }
}

/// What one step does. One that belongs to the file system adds its bytes to the
/// directory that holds it and to all above it, and to no other node; a file is
/// counted. A directory or a file that is not too deep becomes a node under that
/// directory, with its name, its size, and the extension of its name; a directory
/// is filed under its path. Any other step changes neither the tree nor the
/// count.
pub proof fn law_step(s: ScanModel, mounts: Seq<EntryModel>, max_depth: nat, e: StepModel)
    requires
        s.wf(),
        s.tree.nodes.len() < MAX_NODES,
        s.files < u64::MAX,
    ensures
        ({
            let v = s.visited(mounts, max_depth, e);
            let n = s.tree.nodes.len() as int;
            let own = own_step(e, s.tree.root_path, mounts);
            let p = holder(s.stack, e.depth);
            let size = size_of_meta(e.meta.unwrap());
            let stored = own && e.depth <= max_depth && (e.is_dir || e.is_file);
            &&& v.files == s.files + if own && file_step(e, max_depth) {
                1int
            } else {
                0
            }
            &&& !own || !sized_step(e, max_depth) ==> v.tree == s.tree
            &&& own && sized_step(e, max_depth) ==> forall|i: int|
                0 <= i < n ==> (#[trigger] v.tree.nodes[i]).size == if on_chain(
                    s.tree.nodes,
                    p as int,
                    i,
                ) {
                    at_most_all(s.tree.nodes[i].size + size)
                } else {
                    s.tree.nodes[i].size as int
                }
            &&& forall|i: int|
                0 <= i < n ==> (#[trigger] v.tree.nodes[i]).name == s.tree.nodes[i].name
                    && v.tree.nodes[i].kind == s.tree.nodes[i].kind && v.tree.nodes[i].alive
                    == s.tree.nodes[i].alive && v.tree.nodes[i].parent == s.tree.nodes[i].parent
            &&& !stored ==> v.tree.nodes.len() == n && v.tree.dirs == s.tree.dirs
            &&& stored ==> {
                &&& v.tree.nodes.len() == n + 1
                &&& v.tree.nodes[n].name == lossy_text(e.name)
                &&& v.tree.nodes[n].size == size
                &&& v.tree.nodes[n].parent == Some(p)
                &&& v.tree.nodes[n].alive
                &&& v.tree.nodes[n].children.len() == 0
                &&& v.tree.nodes[p as int].children == s.tree.nodes[p as int].children.push(
                    n as u32,
                )
                &&& e.is_dir ==> v.tree.nodes[n].kind is Dir && v.tree.dirs == s.tree.dirs.insert(
                    comps(e.path),
                    n as u32,
                ) && v.stack.last() == n && v.stack.len() == s.cut_stack(e.depth).len() + 1
                &&& !e.is_dir ==> v.tree.nodes[n].kind == (StoredModel::File {
                    ext: extension(lossy_text(e.name)),
                }) && v.tree.dirs == s.tree.dirs
            }
        }),
{
    let own = own_step(e, s.tree.root_path, mounts);
    assert(own == s.counts(mounts, e));
    if e.depth > 0 {
        lemma_cut_stack(s, e.depth);
    }
    if own {
        let parent = s.cut_stack(e.depth).last();
        assert(parent == holder(s.stack, e.depth));
        let size = size_of_meta(e.meta.unwrap());
        if e.depth > max_depth {
        } else if e.is_dir {
            law_add_child_counts(
                s.tree,
                parent,
                lossy_text(e.name),
                size,
                StoredModel::Dir,
                Some(e.path),
            );
        } else if e.is_file {
            law_add_child_counts(
                s.tree,
                parent,
                lossy_text(e.name),
                size,
                StoredModel::File { ext: extension(lossy_text(e.name)) },
                None,
            );
        }
    }
}

/// After a walk the size of the root is the sum of the root's own and that of
/// all steps that belong to its file system, whatever their names and however
/// deep they lie; and the count of files is that of the steps that are files.
pub proof fn law_walk_total(
    root: Seq<u8>,
    meta: Option<Meta>,
    mounts: Seq<EntryModel>,
    max_depth: nat,
    steps: Seq<StepModel>,
    n: nat,
)
    requires
        n <= steps.len() < MAX_NODES,
    ensures
        ({
            let w = ScanModel::started(root, meta).walked(mounts, max_depth, steps, n);
            let first = match meta {
                Some(x) => size_of_meta(x) as int,
                None => 0,
            };
            &&& w.tree.root_path == root
            &&& w.tree.nodes[w.tree.root as int].size == at_most_all(
                first + steps_bytes(steps, n, root, mounts, max_depth),
            )
            &&& w.files == steps_files(steps, n, root, mounts, max_depth)
        }),
    decreases n,
{
    let s = ScanModel::started(root, meta);
    lemma_started_scan(root, meta);
    lemma_walked_wf(s, mounts, max_depth, steps, n);
    lemma_steps_bytes(steps, n, root, mounts, max_depth);
    if n > 0 {
        let j = (n - 1) as nat;
        let w = s.walked(mounts, max_depth, steps, j);
        let e = steps[n - 1];
        law_walk_total(root, meta, mounts, max_depth, steps, j);
        lemma_walked_wf(s, mounts, max_depth, steps, j);
        lemma_steps_bytes(steps, j, root, mounts, max_depth);
        law_step(w, mounts, max_depth, e);
        if own_step(e, root, mounts) {
            lemma_cut_stack(w, e.depth);
            let p = holder(w.stack, e.depth);
            assert(p == w.cut_stack(e.depth).last());
            lemma_chain_to_root(w.tree.nodes, w.tree.root, p as int);
        }
        let v = w.visited(mounts, max_depth, e);
        assert(v.tree.nodes[w.tree.root as int].size == at_most_all(
            w.tree.nodes[w.tree.root as int].size + if own_step(e, root, mounts) && sized_step(
                e,
                max_depth,
            ) {
                size_of_meta(e.meta.unwrap()) as int
            } else {
                0
            },
        ));
    }
}

proof fn lemma_steps_bytes(
    steps: Seq<StepModel>,
    n: nat,
    root: Seq<u8>,
    mounts: Seq<EntryModel>,
    max_depth: nat,
)
    ensures
        steps_bytes(steps, n, root, mounts, max_depth) >= 0,
    decreases n,
{
    if n > 0 {
        lemma_steps_bytes(steps, (n - 1) as nat, root, mounts, max_depth);
    }
}

proof fn lemma_started_scan(root: Seq<u8>, meta: Option<Meta>)
    ensures
        ({
            let s = ScanModel::started(root, meta);
            s.wf() && s.tree.nodes.len() == 1 && s.tree.root_path == root && s.tree.root == 0
        }),
{
}

// ---------------------------------------------------------------------------
// Nested mounts
// ---------------------------------------------------------------------------

/// Whether two mounts are of one volume: they have the same source, or the same
/// disk and partition.
pub open spec fn one_volume(a: EntryModel, b: EntryModel) -> bool {
    (a.source.len() > 0 && a.source == b.source) || (a.disk is Some && a.disk == b.disk
        && a.partition is Some && a.partition == b.partition)
}

/// A nested mount is shown just where it is of a physical disk, of a file system
/// that counts, of another volume than the root, where the directory that holds
/// its place is stored, and where no other node has its name. It is shown under
/// that directory, with its name, and says which disk, partition and model it is
/// of, where it is mounted and how much it holds.
pub proof fn law_portal(
    t: TreeModel,
    here: Option<EntryModel>,
    m: EntryModel,
    inode: Option<Meta>,
    q: Seq<u8>,
    name: Seq<u8>,
)
    requires
        t.wf(),
        t.nodes.len() < MAX_NODES,
        t.dirs.dom().contains(comps(t.root_path)),
        t.dirs[comps(t.root_path)] == t.root,
        parent_path(m.target) == Some(q),
        base_name(m.target) == Some(name),
    ensures
        ({
            let r = t.with_portal(here, m, inode);
            let n = t.nodes.len() as int;
            let p = t.dirs[comps(q)];
            let shown = m.physical && !skipped_fstype(m.fstype) && !(here is Some && one_volume(
                here.unwrap(),
                m,
            )) && t.dirs.dom().contains(comps(q)) && first_named(
                t.nodes,
                t.nodes[p as int].children,
                lossy_text(name),
            ) is None;
            &&& !shown ==> r == t
            &&& shown ==> {
                &&& r.nodes.len() == n + 1
                &&& r.nodes[n].name == lossy_text(name)
                &&& r.nodes[n].parent == Some(p)
                &&& r.nodes[n].alive
                &&& r.nodes[n].size == match inode {
                    Some(x) => size_of_meta(x),
                    None => 4096,
                }
                &&& r.nodes[n].kind == (StoredModel::MountPoint {
                    disk: if m.disk is Some {
                        m.disk.unwrap()
                    } else {
                        Seq::empty()
                    },
                    partition: if m.partition is Some {
                        m.partition.unwrap()
                    } else {
                        Seq::empty()
                    },
                    mount: lossy_text(m.target),
                    model: if m.model is Some {
                        m.model.unwrap()
                    } else {
                        Seq::empty()
                    },
                    volume_used: m.used,
                })
                &&& r.dirs == t.dirs.insert(comps(m.target), n as u32)
                &&& r.nodes[t.root as int].size == at_most_all(
                    t.nodes[t.root as int].size + r.nodes[n].size,
                )
            }
        }),
{
    let pid = t.portal_parent(m.target);
    if pid is Some {
        law_add_child_counts(
            t,
            pid.unwrap(),
            portal_name(m.target),
            match inode {
                Some(meta) => size_of_meta(meta),
                None => UNREAD_INODE,
            },
            portal_kind(m),
            Some(m.target),
        );
    }
}

/// Portals are put under nodes that were there, and are no parents.
proof fn lemma_portals(
    t: TreeModel,
    mounts: Seq<EntryModel>,
    nested: Seq<EntryModel>,
    inodes: Seq<Option<Meta>>,
    n: nat,
)
    requires
        t.wf(),
        n <= nested.len(),
        t.nodes.len() + n <= MAX_NODES,
    ensures
        ({
            let r = t.with_portals(mounts, nested, inodes, n);
            &&& r.wf()
            &&& t.nodes.len() <= r.nodes.len() <= t.nodes.len() + n
            &&& r.root == t.root
            &&& r.root_path == t.root_path
            &&& forall|i: int|
                t.nodes.len() <= i < r.nodes.len() ==> (#[trigger] r.nodes[i]).kind is MountPoint
        }),
    decreases n,
{
    if n > 0 {
        lemma_portals(t, mounts, nested, inodes, (n - 1) as nat);
        let b = t.with_portals(mounts, nested, inodes, (n - 1) as nat);
        let m = nested[n - 1];
        let r = t.with_portals(mounts, nested, inodes, n);
        lemma_with_portal(b, t.home(mounts), m, inodes[n - 1]);
        if b.portal_parent(m.target) is Some {
            law_add_child_counts(
                b,
                b.portal_parent(m.target).unwrap(),
                portal_name(m.target),
                match inodes[n - 1] {
                    Some(meta) => size_of_meta(meta),
                    None => UNREAD_INODE,
                },
                portal_kind(m),
                Some(m.target),
            );
            assert forall|i: int| t.nodes.len() <= i < r.nodes.len() implies (
            #[trigger] r.nodes[i]).kind is MountPoint by {
                if i < b.nodes.len() {
                    assert(b.nodes[i].kind is MountPoint);
                }
            }
        }
    }
}

/// The total of a scan without nested mounts of other volumes is that of its
/// walk, and so is the count of files in any case.
pub proof fn law_scan_total(
    root: Seq<u8>,
    meta: Option<Meta>,
    steps: Seq<StepModel>,
    mounts: Seq<EntryModel>,
    inodes: Seq<Option<Meta>>,
    max_depth: nat,
)
    requires
        inodes.len() == nested_in(mounts, root, mounts.len()).len(),
        1 + steps.len() + inodes.len() <= MAX_NODES,
    ensures
        ({
            let t = scanned(root, meta, steps, mounts, inodes, max_depth);
            let first = match meta {
                Some(x) => size_of_meta(x) as int,
                None => 0,
            };
            let walk = first + steps_bytes(steps, steps.len(), root, mounts, max_depth);
            &&& t.root_path == root
            &&& t.files == steps_files(steps, steps.len(), root, mounts, max_depth)
            &&& t.bytes == t.nodes[t.root as int].size
            &&& t.bytes >= at_most_all(walk)
            &&& (forall|i: int|
                0 <= i < t.nodes.len() ==> (#[trigger] t.nodes[i]).kind !is MountPoint) ==> t.bytes
                == at_most_all(walk)
        }),
{
    let s = ScanModel::started(root, meta);
    lemma_started_scan(root, meta);
    lemma_walked_wf(s, mounts, max_depth, steps, steps.len());
    law_walk_total(root, meta, mounts, max_depth, steps, steps.len());
    let w = s.walked(mounts, max_depth, steps, steps.len());
    let nested = nested_in(mounts, root, mounts.len());
    lemma_portals(w.tree, mounts, nested, inodes, nested.len());
    lemma_portals_grow(w.tree, mounts, nested, inodes, nested.len());
    let r = w.tree.with_portals(mounts, nested, inodes, nested.len());
    if r.nodes.len() > w.tree.nodes.len() {
        assert(r.nodes[w.tree.nodes.len() as int].kind is MountPoint);
        let t = scanned(root, meta, steps, mounts, inodes, max_depth);
        assert(t.nodes[w.tree.nodes.len() as int].kind is MountPoint);
    }
}

/// Portals take nothing from the root; where none is added it stays as it is.
proof fn lemma_portals_grow(
    t: TreeModel,
    mounts: Seq<EntryModel>,
    nested: Seq<EntryModel>,
    inodes: Seq<Option<Meta>>,
    n: nat,
)
    requires
        t.wf(),
        n <= nested.len(),
        t.nodes.len() + n <= MAX_NODES,
    ensures
        ({
            let r = t.with_portals(mounts, nested, inodes, n);
            &&& r.nodes[t.root as int].size >= t.nodes[t.root as int].size
            &&& r.nodes.len() == t.nodes.len() ==> r.nodes[t.root as int].size
                == t.nodes[t.root as int].size
        }),
    decreases n,
{
    if n > 0 {
        lemma_portals(t, mounts, nested, inodes, (n - 1) as nat);
        lemma_portals_grow(t, mounts, nested, inodes, (n - 1) as nat);
        let b = t.with_portals(mounts, nested, inodes, (n - 1) as nat);
        let m = nested[n - 1];
        if b.portal_parent(m.target) is Some {
            law_add_child_counts(
                b,
                b.portal_parent(m.target).unwrap(),
                portal_name(m.target),
                match inodes[n - 1] {
                    Some(meta) => size_of_meta(meta),
                    None => UNREAD_INODE,
                },
                portal_kind(m),
                Some(m.target),
            );
        }
    }
}

} // verus!
