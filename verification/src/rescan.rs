//! Keeping a tree current: rescans, single changes and expansions.

use crate::mounts::{foreign, nested_mount, EntryModel, MountTable};
use crate::path::{comps, parent_path, PathBuf};
use crate::scan::{allocated_size, size_of_meta, Meta};
use crate::tree::{
    base_text, cap_path, capped, depth_below, ext_of, extension, first_named, lemma_with_child_wf,
    name_text, relative_depth, FileTree, NodeId, NodeModel, TreeModel, MAX_NODES, STORE_DEPTH,
};
use crate::tree_prune::{lemma_kid_room, lemma_subtree_finite};
use crate::tree_remove::{lemma_removed_wf, under_children};
use vstd::prelude::*;

verus! {

// ---------------------------------------------------------------------------
// Merging
// ---------------------------------------------------------------------------

impl TreeModel {
    /// The tree with the directory `path`, cut to the stored depth, and the
    /// node of it.
    pub open spec fn ensured_capped(self, path: Seq<u8>) -> (TreeModel, Option<NodeId>) {
        self.ensured(capped(self.root_path, path, STORE_DEPTH as nat))
    }
}

/// `dest` with copies of the living nodes that stand under the first `k`
/// children of `sid`, and of these, put under `did`. Each copy has the size of
/// the node that it copies; no size above them changes.
pub open spec fn planted(
    dest: TreeModel,
    did: NodeId,
    src: TreeModel,
    sid: int,
    k: nat,
) -> TreeModel
    decreases src.nodes.len() - sid, k,
{
    if k == 0 {
        dest
    } else {
        let before = planted(dest, did, src, sid, (k - 1) as nat);
        let c = src.nodes[sid].children[k - 1] as int;
        if sid < c < src.nodes.len() && src.nodes[c].alive {
            let added = before.with_copy(did, src, c);
            if src.nodes[c].kind is Dir {
                planted(
                    added,
                    before.nodes.len() as u32,
                    src,
                    c,
                    src.nodes[c].children.len(),
                )
            } else {
                added
            }
        } else {
            before
        }
    }
}

impl TreeModel {
    /// The tree with a copy of the node `c` of `src` under `did`, filed under
    /// the path that the node has there.
    pub open spec fn with_copy(self, did: NodeId, src: TreeModel, c: int) -> TreeModel {
        let n = src.nodes[c];
        self.grafted(
            did,
            n.name,
            n.size,
            n.kind,
            if n.kind is File {
                None
            } else {
                Some(src.path_of(c))
            },
        )
    }
}

/// How many nodes are copied.
pub open spec fn planted_count(src: TreeModel, sid: int, k: nat) -> nat
    decreases src.nodes.len() - sid, k,
{
    if k == 0 {
        0
    } else {
        let before = planted_count(src, sid, (k - 1) as nat);
        let c = src.nodes[sid].children[k - 1] as int;
        if sid < c < src.nodes.len() && src.nodes[c].alive {
            before + 1 + if src.nodes[c].kind is Dir {
                planted_count(src, c, src.nodes[c].children.len())
            } else {
                0
            }
        } else {
            before
        }
    }
}

/// The copies are as many as the nodes that are copied.
pub proof fn lemma_planted_len(dest: TreeModel, did: NodeId, src: TreeModel, sid: int, k: nat)
    ensures
        planted(dest, did, src, sid, k).nodes.len() == dest.nodes.len() + planted_count(
            src,
            sid,
            k,
        ),
    decreases src.nodes.len() - sid, k,
{
    if k > 0 {
        lemma_planted_len(dest, did, src, sid, (k - 1) as nat);
        let before = planted(dest, did, src, sid, (k - 1) as nat);
        let c = src.nodes[sid].children[k - 1] as int;
        if sid < c < src.nodes.len() && src.nodes[c].alive && src.nodes[c].kind is Dir {
            lemma_planted_len(
                before.with_copy(did, src, c),
                before.nodes.len() as u32,
                src,
                c,
                src.nodes[c].children.len(),
            );
        }
    }
}

proof fn lemma_count_grows(src: TreeModel, sid: int, j: nat, k: nat)
    requires
        j <= k,
    ensures
        planted_count(src, sid, j) <= planted_count(src, sid, k),
    decreases k,
{
    if j < k {
        lemma_count_grows(src, sid, j, (k - 1) as nat);
    }
}

/// No more nodes are copied than there are.
proof fn lemma_count_bound(src: TreeModel, sid: int, k: nat)
    requires
        src.wf(),
        0 <= sid < src.nodes.len(),
        k <= src.nodes[sid].children.len(),
    ensures
        planted_count(src, sid, k) <= under_children(src.nodes, sid, k as int).len(),
        planted_count(src, sid, k) <= src.nodes.len(),
    decreases src.nodes.len() - sid, k,
{
    lemma_subtree_finite(src.nodes, under_children(src.nodes, sid, k as int));
    if k > 0 {
        lemma_count_bound(src, sid, (k - 1) as nat);
        lemma_kid_room(src.nodes, src.root, sid, k - 1);
        let c = src.nodes[sid].children[k - 1] as int;
        lemma_count_bound(src, c, src.nodes[c].children.len());
    }
}

/// The tree stays well formed where copies are put into it.
pub proof fn lemma_planted_wf(dest: TreeModel, did: NodeId, src: TreeModel, sid: int, k: nat)
    requires
        dest.wf(),
        did < dest.nodes.len(),
        dest.nodes.len() + planted_count(src, sid, k) <= MAX_NODES,
    ensures
        ({
            let r = planted(dest, did, src, sid, k);
            &&& r.wf()
            &&& r.root == dest.root
            &&& r.root_path == dest.root_path
            &&& r.bytes == dest.bytes
        }),
    decreases src.nodes.len() - sid, k,
{
    if k > 0 {
        lemma_planted_wf(dest, did, src, sid, (k - 1) as nat);
        lemma_planted_len(dest, did, src, sid, (k - 1) as nat);
        let before = planted(dest, did, src, sid, (k - 1) as nat);
        let c = src.nodes[sid].children[k - 1] as int;
        if sid < c < src.nodes.len() && src.nodes[c].alive {
            let n = src.nodes[c];
            let path = if n.kind is File {
                None
            } else {
                Some(src.path_of(c))
            };
            lemma_with_child_wf(before, did, n.name, n.size, n.kind, path);
            if n.kind is Dir {
                lemma_planted_wf(
                    before.with_copy(did, src, c),
                    before.nodes.len() as u32,
                    src,
                    c,
                    n.children.len(),
                );
            }
        }
    }
}

impl FileTree {
    /// How many living nodes stand below `id`, through living directories.
    fn living_below(&self, id: NodeId) -> (r: u64)
        requires
            self.model().wf(),
            id < self.model().nodes.len(),
        ensures
            r == planted_count(
                self.model(),
                id as int,
                self.model().nodes[id as int].children.len(),
            ),
        decreases self.model().nodes.len() - id,
    {
        let ghost m = self.model();
        let n = &self.nodes[id as usize];
        assert(m.nodes[id as int] == n@);
        let ghost total = n.children@.len();
        proof {
            lemma_count_bound(m, id as int, total);
        }
        let mut sum: u64 = 0;
        let mut k: usize = 0;
        while k < n.children.len()
            invariant
                k <= n.children.len(),
                m == self.model(),
                m.wf(),
                id < m.nodes.len(),
                m.nodes[id as int] == n@,
                total == n.children@.len(),
                planted_count(m, id as int, total) <= m.nodes.len() <= MAX_NODES,
                sum == planted_count(m, id as int, k as nat),
            decreases n.children.len() - k,
        {
            let c: NodeId = n.children[k];
            assert(c == m.nodes[id as int].children[k as int]);
            assert(m.nodes[c as int] == self.nodes@[c as int]@);
            proof {
                lemma_count_grows(m, id as int, (k + 1) as nat, total);
            }
            if self.nodes[c as usize].alive {
                sum = sum + 1;
                if self.nodes[c as usize].kind.is_dir() {
                    let more: u64 = self.living_below(c);
                    sum = sum + more;
                }
            }
            k = k + 1;
        }
        sum
    }

    /// How many nodes are added where this scan of a directory is taken over by
    /// a rescan.
    pub fn merge_room(&self) -> (r: u64)
        requires
            self.model().wf(),
        ensures
            r == self.model().rescan_need(),
    {
        self.living_below(self.root)
    }
}

impl TreeModel {
    /// How many nodes are added where this scan of a directory is taken over by
    /// a rescan: the living ones below its root.
    pub open spec fn rescan_need(self) -> nat {
        planted_count(self, self.root as int, self.nodes[self.root as int].children.len())
    }
}

/// Puts copies of the living nodes below `sid` under `did`.
fn plant_children(dest: &mut FileTree, did: NodeId, src: &FileTree, sid: NodeId)
    requires
        old(dest).model().wf(),
        did < old(dest).model().nodes.len(),
        src.model().wf(),
        sid < src.model().nodes.len(),
        old(dest).model().nodes.len() + planted_count(
            src.model(),
            sid as int,
            src.model().nodes[sid as int].children.len(),
        ) <= MAX_NODES,
    ensures
        final(dest).model() == planted(
            old(dest).model(),
            did,
            src.model(),
            sid as int,
            src.model().nodes[sid as int].children.len(),
        ),
        final(dest).model().wf(),
    decreases src.model().nodes.len() - sid,
{
    let ghost m = src.model();
    let ghost d0 = dest.model();
    let node = &src.nodes[sid as usize];
    assert(m.nodes[sid as int] == node@);
    let ghost total = node.children@.len();
    let mut k: usize = 0;
    while k < node.children.len()
        invariant
            k <= node.children.len(),
            m == src.model(),
            m.wf(),
            sid < m.nodes.len(),
            m.nodes[sid as int] == node@,
            total == node.children@.len(),
            d0.wf(),
            did < d0.nodes.len(),
            d0.nodes.len() + planted_count(m, sid as int, total) <= MAX_NODES,
            dest.model() == planted(d0, did, m, sid as int, k as nat),
            dest.model().wf(),
        decreases node.children.len() - k,
    {
        let c: NodeId = node.children[k];
        assert(c == m.nodes[sid as int].children[k as int]);
        let n = &src.nodes[c as usize];
        assert(m.nodes[c as int] == n@);
        proof {
            lemma_planted_len(d0, did, m, sid as int, k as nat);
            lemma_count_grows(m, sid as int, (k + 1) as nat, total);
        }
        if n.alive {
            let path = if n.kind.is_file() {
                None
            } else {
                Some(src.path_of(c))
            };
            let id: NodeId = dest.graft_child(did, n.name.clone(), n.size, n.kind.clone(), path);
            if n.kind.is_dir() {
                plant_children(dest, id, src, c);
            }
        }
        k = k + 1;
    }
}

// ---------------------------------------------------------------------------
// Rescans
// ---------------------------------------------------------------------------

impl TreeModel {
    /// The tree after the paths of the first `n` of these nodes were removed,
    /// where the node was still alive.
    pub open spec fn cleared(self, kids: Seq<NodeId>, n: nat) -> TreeModel
        decreases n,
    {
        if n == 0 {
            self
        } else {
            let before = self.cleared(kids, (n - 1) as nat);
            let c = kids[n - 1] as int;
            if before.nodes[c].alive {
                before.removed(before.path_of(c))
            } else {
                before
            }
        }
    }

    /// Whether a rescan of `dir` does anything: the directory is filed and is
    /// no nested mount.
    pub open spec fn rescans(self, mounts: Seq<EntryModel>, dir: Seq<u8>) -> bool {
        self.dirs.dom().contains(comps(dir)) && !nested_mount(mounts, self.root_path, dir)
    }

    /// How many levels are stored below `dir`.
    pub open spec fn levels_below(self, dir: Seq<u8>) -> u32 {
        let depth = match depth_below(self.root_path, dir) {
            Some(n) => n as u32,
            None => 0,
        };
        if depth <= STORE_DEPTH {
            (STORE_DEPTH - depth) as u32
        } else {
            0
        }
    }

    /// The tree after a rescan of `dir`. All below it is dropped. A directory
    /// that is gone is dropped too; else it gets the size that was found, and,
    /// above the stored depth, what was found below it. Each node that is taken
    /// over has the size that was found, with all that lies deeper.
    pub open spec fn rescanned(
        self,
        mounts: Seq<EntryModel>,
        dir: Seq<u8>,
        exists: bool,
        sub: Option<TreeModel>,
    ) -> TreeModel {
        if !self.rescans(mounts, dir) {
            self
        } else {
            let id = self.dirs[comps(dir)];
            let kids = self.nodes[id as int].children;
            let bare = self.cleared(kids, kids.len());
            if !exists {
                bare.removed(dir)
            } else {
                match sub {
                    None => bare,
                    Some(s) => {
                        let full = if self.levels_below(dir) == 0 {
                            bare
                        } else {
                            planted(
                                bare,
                                id,
                                s,
                                s.root as int,
                                s.nodes[s.root as int].children.len(),
                            )
                        };
                        full.resized(id, s.bytes)
                    },
                }
            }
        }
    }
}

pub proof fn lemma_cleared_wf(m: TreeModel, kids: Seq<NodeId>, n: nat)
    requires
        m.wf(),
        n <= kids.len(),
        forall|i: int| 0 <= i < kids.len() ==> (#[trigger] kids[i]) < m.nodes.len(),
    ensures
        m.cleared(kids, n).wf(),
        m.cleared(kids, n).nodes.len() == m.nodes.len(),
        m.cleared(kids, n).root == m.root,
        m.cleared(kids, n).root_path == m.root_path,
    decreases n,
{
    if n > 0 {
        lemma_cleared_wf(m, kids, (n - 1) as nat);
        let before = m.cleared(kids, (n - 1) as nat);
        lemma_removed_wf(before, before.path_of(kids[n - 1] as int));
    }
}

/// How many levels a rescan of `dir` looks at; none if there is nothing to do.
pub fn rescan_levels(tree: &FileTree, dir: &PathBuf, mounts: &MountTable) -> (r: Option<u32>)
    ensures
        r == if tree.model().rescans(mounts@, dir@) {
            Some(tree.model().levels_below(dir@))
        } else {
            None
        },
{
    if tree.dirs.get(dir).is_none() || mounts.is_nested_mount(&tree.root_path, dir) {
        return None;
    }
    let depth: u32 = match relative_depth(&tree.root_path, dir) {
        Some(n) => n,
        None => 0,
    };
    Some(
        if depth <= STORE_DEPTH {
            STORE_DEPTH - depth
        } else {
            0
        },
    )
}

/// Brings the part of the tree at `dir` up to date. `exists` says whether the
/// directory is still there, `sub` is a scan of it with the levels that
/// [`rescan_levels`] asks for; none if it failed.
pub fn rescan_dir(
    tree: &mut FileTree,
    dir: &PathBuf,
    mounts: &MountTable,
    exists: bool,
    sub: Option<&FileTree>,
)
    requires
        old(tree).model().wf(),
        sub matches Some(s) ==> s.model().wf(),
        old(tree).model().rescanned(mounts@, dir@, exists, tree_model(sub)).nodes.len()
            <= MAX_NODES,
    ensures
        final(tree).model() == old(tree).model().rescanned(
            mounts@,
            dir@,
            exists,
            tree_model(sub),
        ),
        final(tree).model().wf(),
{
    let ghost m = tree.model();
    let levels: u32 = match rescan_levels(tree, dir, mounts) {
        Some(n) => n,
        None => {
            return ;
        },
    };
    let id: NodeId = match tree.dirs.get(dir) {
        Some(id) => id,
        None => {
            return ;
        },
    };
    assert(m.dirs.dom().contains(comps(dir@)));
    assert(m.nodes[id as int] == tree.nodes@[id as int]@);
    let kids = tree.nodes[id as usize].children.clone();
    assert(kids@ == m.nodes[id as int].children);
    assert forall|i: int| 0 <= i < kids@.len() implies (#[trigger] kids@[i]) < m.nodes.len() by {
        assert(m.nodes[id as int].children[i] == kids@[i]);
    }
    let mut i: usize = 0;
    while i < kids.len()
        invariant
            i <= kids.len(),
            m.wf(),
            forall|j: int| 0 <= j < kids@.len() ==> (#[trigger] kids@[j]) < m.nodes.len(),
            tree.model() == m.cleared(kids@, i as nat),
            tree.model().wf(),
            tree.model().nodes.len() == m.nodes.len(),
        decreases kids.len() - i,
    {
        let c: NodeId = kids[i];
        assert(tree.model().nodes[c as int] == tree.nodes@[c as int]@);
        proof {
            lemma_cleared_wf(m, kids@, (i + 1) as nat);
        }
        if tree.nodes[c as usize].alive {
            let path = tree.path_of(c);
            tree.remove_path(&path);
        }
        i = i + 1;
    }
    proof {
        lemma_cleared_wf(m, kids@, kids@.len());
    }
    if !exists {
        tree.remove_path(dir);
        return ;
    }
    if let Some(s) = sub {
        if levels > 0 {
            proof {
                let bare = tree.model();
                let sm = s.model();
                let n = sm.nodes[sm.root as int].children.len();
                lemma_planted_len(bare, id, sm, sm.root as int, n);
            }
            plant_children(tree, id, s, s.root);
        }
        proof {
            lemma_planted_len(
                m.cleared(kids@, kids@.len()),
                id,
                s.model(),
                s.model().root as int,
                s.model().nodes[s.model().root as int].children.len(),
            );
        }
        tree.resize(id, s.bytes);
    }
}

/// The value of a tree, if there is one.
pub open spec fn tree_model(t: Option<&FileTree>) -> Option<TreeModel> {
    match t {
        Some(s) => Some(s.model()),
        None => None,
    }
}

// ---------------------------------------------------------------------------
// Single changes
// ---------------------------------------------------------------------------

/// What a watch says that has happened to a path.
#[derive(Clone, Copy, Debug, PartialEq, Eq, Structural)]
pub enum ChangeKind {
    Any,
    Access,
    Create,
    Modify,
    Remove,
    Other,
}

/// Whether an event means that the tree may have to follow: the path was made,
/// altered or removed, or nobody knows.
pub fn counts_as_change(kind: ChangeKind) -> (r: bool)
    ensures
        r == (kind is Create || kind is Modify || kind is Remove || kind is Any),
{
    match kind {
        ChangeKind::Create => true,
        ChangeKind::Modify => true,
        ChangeKind::Remove => true,
        ChangeKind::Any => true,
        ChangeKind::Access => false,
        ChangeKind::Other => false,
    }
}

/// What is found at a changed path.
#[derive(Clone, Copy, Debug)]
pub enum Found {
    Dir,
    /// With what the file system says of it, if it could be read.
    File(Option<Meta>),
    Nothing,
}

impl TreeModel {
    /// Whether a path lies deeper than what is stored.
    pub open spec fn too_deep(self, path: Seq<u8>) -> bool {
        match depth_below(self.root_path, path) {
            Some(n) => n as u32 > STORE_DEPTH,
            None => false,
        }
    }

    /// The tree after a change at `path`, and the directory that is to be
    /// rescanned. Paths of other file systems are ignored; of one that lies
    /// too deep the stored directory above it is rescanned. A directory is
    /// added and rescanned, a file recorded with its directory, and what is
    /// gone is removed.
    pub open spec fn changed(
        self,
        mounts: Seq<EntryModel>,
        path: Seq<u8>,
        found: Found,
    ) -> (TreeModel, Option<Seq<u8>>) {
        if foreign(mounts, self.root_path, path) {
            (self, None)
        } else if self.too_deep(path) {
            (self, Some(capped(self.root_path, path, STORE_DEPTH as nat)))
        } else {
            match found {
                Found::Dir => (self.ensured_capped(path).0, Some(path)),
                Found::File(meta) => match parent_path(path) {
                    Some(q) => if foreign(mounts, self.root_path, q) {
                        (self, None)
                    } else {
                        (self.ensured_capped(q).0.recorded(path, meta), None)
                    },
                    None => (self.recorded(path, meta), None),
                },
                Found::Nothing => (self.removed(path), None),
            }
        }
    }

    /// The tree with the file at `path` recorded, if it could be read.
    pub open spec fn recorded(self, path: Seq<u8>, meta: Option<Meta>) -> TreeModel {
        match meta {
            Some(m) => self.upserted(path, size_of_meta(m), extension(base_text(path))),
            None => self,
        }
    }
}

/// Takes a change at `path` into the tree. The result is the directory that is
/// to be rescanned, if there is one.
pub fn apply_change(
    tree: &mut FileTree,
    path: &PathBuf,
    mounts: &MountTable,
    found: Found,
) -> (r: Option<PathBuf>)
    requires
        old(tree).model().wf(),
        old(tree).model().changed(mounts@, path@, found).0.nodes.len() <= MAX_NODES,
    ensures
        final(tree).model() == old(tree).model().changed(mounts@, path@, found).0,
        match r {
            Some(p) => old(tree).model().changed(mounts@, path@, found).1 == Some(p@),
            None => old(tree).model().changed(mounts@, path@, found).1 is None,
        },
        final(tree).model().wf(),
{
    let ghost m = tree.model();
    if mounts.is_foreign_path(&tree.root_path, path) {
        return None;
    }
    let depth: u32 = match relative_depth(&tree.root_path, path) {
        Some(n) => n,
        None => 0,
    };
    if depth > STORE_DEPTH {
        return Some(cap_path(&tree.root_path, path, STORE_DEPTH));
    }
    match found {
        Found::Dir => {
            tree.ensure_dir(path);
            Some(path.clone())
        },
        Found::File(meta) => {
            if let Some(parent) = path.parent() {
                if mounts.is_foreign_path(&tree.root_path, &parent) {
                    return None;
                }
                proof {
                    if let Some(x) = meta {
                        let e = m.ensured_capped(parent@).0;
                        let ext = extension(base_text(path@));
                        assert(e.upserted(path@, size_of_meta(x), ext).nodes.len() >= e.nodes.len());
                    }
                }
                tree.ensure_dir(&parent);
            }
            if let Some(x) = meta {
                let name = name_text(path);
                let ext = ext_of(name.as_str());
                tree.upsert_file(path, allocated_size(&x), ext);
            }
            None
        },
        Found::Nothing => {
            tree.remove_path(path);
            None
        },
    }
}

// ---------------------------------------------------------------------------
// Expansion
// ---------------------------------------------------------------------------

impl TreeModel {
    /// The tree with the first `k` children of the root of `sub` grafted under
    /// `dest`: the living ones whose name no living child of `dest` has.
    pub open spec fn with_layer(self, dest: NodeId, sub: TreeModel, k: nat) -> TreeModel
        decreases k,
    {
        if k == 0 {
            self
        } else {
            let before = self.with_layer(dest, sub, (k - 1) as nat);
            let c = sub.nodes[sub.root as int].children[k - 1] as int;
            let n = sub.nodes[c];
            if n.alive && first_named(before.nodes, before.nodes[dest as int].children, n.name)
                is None {
                before.grafted(
                    dest,
                    n.name,
                    n.size,
                    n.kind,
                    if n.kind is File {
                        None
                    } else {
                        Some(sub.path_of(c))
                    },
                )
            } else {
                before
            }
        }
    }

    /// The tree with one more layer under the directory `dir`, where it is
    /// filed.
    pub open spec fn layered(self, dir: Seq<u8>, sub: TreeModel) -> TreeModel {
        if self.dirs.dom().contains(comps(dir)) && self.nodes[self.dirs[comps(dir)] as int].kind
            is Dir {
            self.with_layer(
                self.dirs[comps(dir)],
                sub,
                sub.nodes[sub.root as int].children.len(),
            )
        } else {
            self
        }
    }

    /// The tree after `dir` was expanded: it is added where it is missing and
    /// gets one more layer. Nested mounts, other file systems and what is no
    /// directory are left alone.
    pub open spec fn expanded(
        self,
        mounts: Seq<EntryModel>,
        dir: Seq<u8>,
        is_dir: bool,
        sub: TreeModel,
    ) -> TreeModel {
        if nested_mount(mounts, self.root_path, dir) || foreign(mounts, self.root_path, dir)
            || !is_dir {
            self
        } else {
            self.ensured(dir).0.layered(dir, sub)
        }
    }
}

proof fn lemma_layer_grows(m: TreeModel, dest: NodeId, sub: TreeModel, j: nat, k: nat)
    requires
        j <= k,
    ensures
        m.with_layer(dest, sub, j).nodes.len() <= m.with_layer(dest, sub, k).nodes.len(),
    decreases k,
{
    if j < k {
        lemma_layer_grows(m, dest, sub, j, (k - 1) as nat);
    }
}

/// Stores the children of the root of `sub` under `dir`. Children that are
/// there under the same name are left in place, so that earlier expansions
/// are not collapsed. The result is the number of nodes added.
pub fn graft_expand_layer(tree: &mut FileTree, dir: &PathBuf, sub: &FileTree) -> (r: u32)
    requires
        old(tree).model().wf(),
        sub.model().wf(),
        old(tree).model().layered(dir@, sub.model()).nodes.len() <= MAX_NODES,
    ensures
        final(tree).model() == old(tree).model().layered(dir@, sub.model()),
        final(tree).model().wf(),
        r == final(tree).model().nodes.len() - old(tree).model().nodes.len(),
{
    let ghost m = tree.model();
    let ghost s = sub.model();
    let dest: NodeId = match tree.dirs.get(dir) {
        Some(id) => id,
        None => {
            return 0;
        },
    };
    assert(m.dirs.dom().contains(comps(dir@)));
    assert(m.nodes[dest as int] == tree.nodes@[dest as int]@);
    if !tree.nodes[dest as usize].kind.is_dir() {
        return 0;
    }
    let root = &sub.nodes[sub.root as usize];
    assert(s.nodes[s.root as int] == root@);
    let ghost total = root.children@.len();
    let mut added: u32 = 0;
    let mut k: usize = 0;
    while k < root.children.len()
        invariant
            k <= root.children.len(),
            s == sub.model(),
            s.wf(),
            m.wf(),
            s.nodes[s.root as int] == root@,
            total == root.children@.len(),
            dest < m.nodes.len(),
            m.with_layer(dest, s, total).nodes.len() <= MAX_NODES,
            tree.model() == m.with_layer(dest, s, k as nat),
            tree.model().wf(),
            tree.model().nodes.len() == m.nodes.len() + added,
            added <= k,
        decreases root.children.len() - k,
    {
        let c: NodeId = root.children[k];
        assert(c == s.nodes[s.root as int].children[k as int]);
        let n = &sub.nodes[c as usize];
        assert(s.nodes[c as int] == n@);
        proof {
            lemma_layer_grows(m, dest, s, (k + 1) as nat, total);
        }
        if n.alive {
            if tree.child_named(dest, n.name.as_str()).is_none() {
                let path = if n.kind.is_file() {
                    None
                } else {
                    Some(sub.path_of(c))
                };
                tree.graft_child(dest, n.name.clone(), n.size, n.kind.clone(), path);
                added = added + 1;
            }
        }
        k = k + 1;
    }
    added
}

/// Stores one more layer under `dir` (immediate children only). `is_dir` says
/// whether it is a directory, and `sub` is a scan of it that stores one level.
/// The result is the number of nodes added under it.
pub fn expand_one_layer(
    tree: &mut FileTree,
    dir: &PathBuf,
    mounts: &MountTable,
    is_dir: bool,
    sub: &FileTree,
) -> (r: u32)
    requires
        old(tree).model().wf(),
        sub.model().wf(),
        old(tree).model().expanded(mounts@, dir@, is_dir, sub.model()).nodes.len() <= MAX_NODES,
    ensures
        final(tree).model() == old(tree).model().expanded(mounts@, dir@, is_dir, sub.model()),
        final(tree).model().wf(),
        r == if nested_mount(mounts@, old(tree).model().root_path, dir@) || foreign(
            mounts@,
            old(tree).model().root_path,
            dir@,
        ) || !is_dir {
            0
        } else {
            final(tree).model().nodes.len() - old(tree).model().ensured(dir@).0.nodes.len()
        },
{
    let ghost m = tree.model();
    if mounts.is_nested_mount(&tree.root_path, dir) || mounts.is_foreign_path(
        &tree.root_path,
        dir,
    ) {
        return 0;
    }
    if !is_dir {
        return 0;
    }
    proof {
        let t = m.ensured(dir@).0;
        let sm = sub.model();
        lemma_layer_grows(
            t,
            t.dirs[comps(dir@)],
            sm,
            0,
            sm.nodes[sm.root as int].children.len(),
        );
    }
    tree.ensure_dir_uncapped(dir);
    graft_expand_layer(tree, dir, sub)
}

/// An expansion leaves in place what is there: each old node keeps its name,
/// size, kind and life, no node but the expanded one gets children, and the
/// children it had stay in front. Each node that is added is a copy of a
/// living child of the scanned directory.
pub proof fn law_layer_keeps(m: TreeModel, dest: NodeId, sub: TreeModel, k: nat)
    requires
        m.wf(),
        sub.wf(),
        dest < m.nodes.len(),
        k <= sub.nodes[sub.root as int].children.len(),
        m.nodes.len() + k <= MAX_NODES,
    ensures
        ({
            let t = m.with_layer(dest, sub, k);
            let was = m.nodes[dest as int].children;
            let kids = t.nodes[dest as int].children;
            &&& m.nodes.len() <= t.nodes.len() <= m.nodes.len() + k
            &&& t.bytes == m.bytes
            &&& forall|i: int|
                0 <= i < m.nodes.len() ==> #[trigger] t.nodes[i] == (NodeModel {
                    children: if i == dest {
                        kids
                    } else {
                        m.nodes[i].children
                    },
                    ..m.nodes[i]
                })
            &&& was.len() <= kids.len() && kids.take(was.len() as int) == was
            &&& forall|i: int|
                m.nodes.len() <= i < t.nodes.len() ==> copies_child(
                    #[trigger] t.nodes[i],
                    dest,
                    sub,
                )
        }),
    decreases k,
{
    let was = m.nodes[dest as int].children;
    if k > 0 {
        law_layer_keeps(m, dest, sub, (k - 1) as nat);
        let before = m.with_layer(dest, sub, (k - 1) as nat);
        let t = m.with_layer(dest, sub, k);
        let c = sub.nodes[sub.root as int].children[k - 1] as int;
        let n = sub.nodes[c];
        if n.alive && first_named(before.nodes, before.nodes[dest as int].children, n.name)
            is None {
            assert forall|i: int| m.nodes.len() <= i < t.nodes.len() implies copies_child(
                #[trigger] t.nodes[i],
                dest,
                sub,
            ) by {
                if i < before.nodes.len() {
                    assert(copies_child(before.nodes[i], dest, sub));
                    assert(t.nodes[i] == before.nodes[i]);
                } else {
                    assert(sub.nodes[sub.root as int].children[k - 1] == c);
                }
            }
            assert forall|i: int| 0 <= i < m.nodes.len() implies #[trigger] t.nodes[i] == (
            NodeModel {
                children: if i == dest {
                    t.nodes[dest as int].children
                } else {
                    m.nodes[i].children
                },
                ..m.nodes[i]
            }) by {
                assert(before.nodes[i] == (NodeModel {
                    children: if i == dest {
                        before.nodes[dest as int].children
                    } else {
                        m.nodes[i].children
                    },
                    ..m.nodes[i]
                }));
            }
            assert(t.nodes[dest as int].children.take(was.len() as int)
                =~= before.nodes[dest as int].children.take(was.len() as int));
        }
    } else {
        assert(was.take(was.len() as int) =~= was);
    }
}

/// Whether a node is a copy under `dest` of a living child of the root of `sub`.
pub open spec fn copies_child(node: NodeModel, dest: NodeId, sub: TreeModel) -> bool {
    exists|j: int|
        0 <= j < sub.nodes[sub.root as int].children.len() && ({
            let n = sub.nodes[(#[trigger] sub.nodes[sub.root as int].children[j]) as int];
            n.alive && node.name == n.name && node.size == n.size && node.kind == n.kind
                && node.parent == Some(dest) && node.alive
        })
}

} // verus!
