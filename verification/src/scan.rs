//! Filling a tree from a walk of the file system and keeping it current.

use crate::discover::{
    copy_or_empty, mul_sizes, sat_mul, skip_fstype, skipped_fstype, text_or_empty,
};
use crate::mounts::{
    identity_of, lemma_last_at, lemma_longest_above, nested_in, nested_mount, EntryModel,
    MountEntry, MountTable,
};
use crate::path::{base_name, comps, lossy_text, parent_path, same_path, utf8_lossy, PathBuf};
use crate::snapshot::text_of;
use crate::sort::views;
use crate::text::text_eq;
use crate::tree::{
    ext_of, extension, first_named, grown, lemma_same_links_ok, lemma_with_child_wf, FileTree,
    NodeId, NodeModel, StoredKind, StoredModel, TreeModel, MAX_NODES,
};
use crate::tree_view::{larger, larger_of};
use vstd::prelude::*;
use vstd::string::*;

verus! {

/// How far the scan of a mount has come.
#[derive(Debug)]
pub struct ScanProgress {
    pub files: u64,
    pub bytes: u64,
    pub done: bool,
    pub error: Option<String>,
}

/// The value of a [`ScanProgress`].
#[verifier::ext_equal]
pub struct ProgressModel {
    pub files: u64,
    pub bytes: u64,
    pub done: bool,
    pub error: Option<Seq<char>>,
}

impl View for ScanProgress {
    type V = ProgressModel;

    open spec fn view(&self) -> ProgressModel {
        ProgressModel {
            files: self.files,
            bytes: self.bytes,
            done: self.done,
            error: text_of(self.error),
        }
    }
}

/// A scan that has seen nothing.
impl Default for ScanProgress {
    fn default() -> (r: Self)
        ensures
            r@ == (ProgressModel { files: 0, bytes: 0, done: false, error: None }),
    {
        ScanProgress { files: 0, bytes: 0, done: false, error: None }
    }
}

impl Clone for ScanProgress {
    fn clone(&self) -> (r: Self)
        ensures
            r@ == self@,
    {
        ScanProgress {
            files: self.files,
            bytes: self.bytes,
            done: self.done,
            error: match &self.error {
                Some(e) => Some(e.clone()),
                None => None,
            },
        }
    }
}

/// What the file system says of a file's size.
#[derive(Clone, Copy, Debug)]
pub struct Meta {
    /// Allocated blocks of 512 bytes.
    pub blocks: u64,
    /// Length in bytes.
    pub len: u64,
}

/// The bytes that a file takes: its blocks, or its length where a file system
/// reports fewer blocks than that.
pub open spec fn size_of_meta(meta: Meta) -> u64 {
    larger(sat_mul(meta.blocks, 512), meta.len)
}

/// The bytes that a file takes.
pub fn allocated_size(meta: &Meta) -> (r: u64)
    ensures
        r == size_of_meta(*meta),
{
    larger_of(mul_sizes(meta.blocks, 512), meta.len)
}

// ---------------------------------------------------------------------------
// The walk
// ---------------------------------------------------------------------------

/// One step of a walk: what is found at a path.
#[derive(Debug)]
pub struct WalkEntry {
    /// How far below the start of the walk it stands.
    pub depth: usize,
    pub path: PathBuf,
    pub name: Vec<u8>,
    pub is_dir: bool,
    pub is_file: bool,
    pub is_symlink: bool,
    /// None if it could not be read.
    pub meta: Option<Meta>,
}

/// The value of a [`WalkEntry`].
#[verifier::ext_equal]
pub struct StepModel {
    pub depth: nat,
    pub path: Seq<u8>,
    pub name: Seq<u8>,
    pub is_dir: bool,
    pub is_file: bool,
    pub is_symlink: bool,
    pub meta: Option<Meta>,
}

impl View for WalkEntry {
    type V = StepModel;

    open spec fn view(&self) -> StepModel {
        StepModel {
            depth: self.depth as nat,
            path: self.path@,
            name: self.name@,
            is_dir: self.is_dir,
            is_file: self.is_file,
            is_symlink: self.is_symlink,
            meta: self.meta,
        }
    }
}

/// A scan under way.
pub struct Scan {
    pub tree: FileTree,
    /// The stored directories from the root down to the current one.
    pub stack: Vec<NodeId>,
    /// The files seen, stored or not.
    pub files: u64,
}

/// The value of a [`Scan`].
#[verifier::ext_equal]
pub struct ScanModel {
    pub tree: TreeModel,
    pub stack: Seq<NodeId>,
    pub files: u64,
}

impl View for Scan {
    type V = ScanModel;

    open spec fn view(&self) -> ScanModel {
        ScanModel { tree: self.tree.model(), stack: self.stack@, files: self.files }
    }
}

impl ScanModel {
    /// Whether the scan is well formed: the stack holds nodes of a well formed
    /// tree and begins with its root, and the tree can take over the count of
    /// files.
    pub open spec fn wf(self) -> bool {
        &&& self.tree.wf()
        &&& self.files + MAX_NODES <= u64::MAX
        &&& self.stack.len() > 0
        &&& self.stack[0] == self.tree.root
        &&& forall|i: int| 0 <= i < self.stack.len() ==> (#[trigger] self.stack[i]) < self.tree.nodes.len()
    }

    /// A scan that has seen nothing but the root.
    pub open spec fn started(root: Seq<u8>, meta: Option<Meta>) -> ScanModel {
        let fresh = TreeModel::fresh(root);
        ScanModel {
            tree: match meta {
                Some(m) => TreeModel {
                    nodes: seq![NodeModel { size: size_of_meta(m), ..fresh.nodes[0] }],
                    ..fresh
                },
                None => fresh,
            },
            stack: seq![0],
            files: 0,
        }
    }

    /// Whether a step of the walk leaves a trace: it is below the root, no
    /// nested mount, no symbolic link, and could be read.
    pub open spec fn counts(self, mounts: Seq<EntryModel>, e: StepModel) -> bool {
        &&& e.depth > 0
        &&& !nested_mount(mounts, self.tree.root_path, e.path)
        &&& !e.is_symlink
        &&& e.meta is Some
    }

    /// The stack cut back to the directory that holds an entry at `depth`.
    pub open spec fn cut_stack(self, depth: nat) -> Seq<NodeId> {
        if self.stack.len() > depth {
            self.stack.take(depth as int)
        } else {
            self.stack
        }
    }

    /// The scan after a step of the walk. A directory or a file is stored down
    /// to `max_depth`; what lies deeper adds its size to the stored directory
    /// that holds it.
    pub open spec fn visited(
        self,
        mounts: Seq<EntryModel>,
        max_depth: nat,
        e: StepModel,
    ) -> ScanModel {
        if e.depth == 0 || nested_mount(mounts, self.tree.root_path, e.path) {
            self
        } else {
            let stack = self.cut_stack(e.depth);
            if !self.counts(mounts, e) {
                ScanModel { stack, ..self }
            } else {
                let parent = stack.last();
                let size = size_of_meta(e.meta.unwrap());
                if e.depth > max_depth {
                    ScanModel {
                        tree: TreeModel {
                            nodes: grown(self.tree.nodes, parent as int, size),
                            ..self.tree
                        },
                        stack,
                        files: if e.is_file {
                            (self.files + 1) as u64
                        } else {
                            self.files
                        },
                    }
                } else if e.is_dir {
                    ScanModel {
                        tree: self.tree.with_child(
                            parent,
                            lossy_text(e.name),
                            size,
                            StoredModel::Dir,
                            Some(e.path),
                        ),
                        stack: stack.push(self.tree.nodes.len() as u32),
                        ..self
                    }
                } else if e.is_file {
                    ScanModel {
                        tree: self.tree.with_child(
                            parent,
                            lossy_text(e.name),
                            size,
                            StoredModel::File { ext: extension(lossy_text(e.name)) },
                            None,
                        ),
                        stack,
                        files: (self.files + 1) as u64,
                    }
                } else {
                    ScanModel { stack, ..self }
                }
            }
        }
    }

    /// The scan after the first `n` steps of a walk.
    pub open spec fn walked(
        self,
        mounts: Seq<EntryModel>,
        max_depth: nat,
        steps: Seq<StepModel>,
        n: nat,
    ) -> ScanModel
        decreases n,
    {
        if n == 0 {
            self
        } else {
            self.walked(mounts, max_depth, steps, (n - 1) as nat).visited(
                mounts,
                max_depth,
                steps[n - 1],
            )
        }
    }

    /// The tree once the walk is over.
    pub open spec fn finished(
        self,
        mounts: Seq<EntryModel>,
        inodes: Seq<Option<Meta>>,
    ) -> TreeModel {
        let nested = nested_in(mounts, self.tree.root_path, mounts.len());
        let tree = self.tree.with_portals(mounts, nested, inodes, nested.len());
        TreeModel { files: self.files, bytes: tree.nodes[tree.root as int].size, ..tree }
    }
}

/// Cutting the stack keeps its nodes.
pub proof fn lemma_cut_stack(s: ScanModel, depth: nat)
    requires
        s.wf(),
        depth > 0,
    ensures
        s.cut_stack(depth).len() > 0,
        s.cut_stack(depth)[0] == s.tree.root,
        forall|i: int|
            0 <= i < s.cut_stack(depth).len() ==> s.cut_stack(depth)[i] == #[trigger] s.stack[i],
        s.cut_stack(depth).last() < s.tree.nodes.len(),
{
    let cut = s.cut_stack(depth);
    assert(cut.last() == s.stack[cut.len() - 1]);
}

/// A step of the walk keeps the scan well formed.
pub proof fn lemma_visited_wf(s: ScanModel, mounts: Seq<EntryModel>, max_depth: nat, e: StepModel)
    requires
        s.wf(),
    ensures
        s.visited(mounts, max_depth, e).tree.nodes.len() >= s.tree.nodes.len(),
        s.visited(mounts, max_depth, e).tree.nodes.len() <= s.tree.nodes.len() + 1,
        s.visited(mounts, max_depth, e).tree.nodes.len() <= MAX_NODES && s.files + MAX_NODES
            < u64::MAX ==> s.visited(mounts, max_depth, e).wf(),
        s.visited(mounts, max_depth, e).tree.root_path == s.tree.root_path,
        s.visited(mounts, max_depth, e).tree.root == s.tree.root,
{
    let v = s.visited(mounts, max_depth, e);
    if e.depth > 0 && !nested_mount(mounts, s.tree.root_path, e.path) {
        lemma_cut_stack(s, e.depth);
        let stack = s.cut_stack(e.depth);
        if s.counts(mounts, e) && v.tree.nodes.len() <= MAX_NODES {
            let parent = stack.last();
            let size = size_of_meta(e.meta.unwrap());
            if e.depth > max_depth {
                lemma_same_links_ok(
                    s.tree.nodes,
                    grown(s.tree.nodes, parent as int, size),
                    s.tree.root,
                );
            } else if e.is_dir {
                lemma_with_child_wf(
                    s.tree,
                    parent,
                    lossy_text(e.name),
                    size,
                    StoredModel::Dir,
                    Some(e.path),
                );
            } else if e.is_file {
                lemma_with_child_wf(
                    s.tree,
                    parent,
                    lossy_text(e.name),
                    size,
                    StoredModel::File { ext: extension(lossy_text(e.name)) },
                    None,
                );
            }
        }
        assert forall|i: int| 0 <= i < v.stack.len() implies (#[trigger] v.stack[i])
            < v.tree.nodes.len() || v.tree.nodes.len() > MAX_NODES by {
            if i < stack.len() {
                assert(stack[i] == s.stack[i]);
            }
        }
    }
}

// ---------------------------------------------------------------------------
// Nested mounts
// ---------------------------------------------------------------------------

/// The size of a nested mount whose directory could not be read.
pub const UNREAD_INODE: u64 = 4096;

/// Whether a mount is of the volume that holds the root.
pub open spec fn same_volume(here: Option<EntryModel>, m: EntryModel) -> bool {
    match here {
        Some(h) => (h.source.len() > 0 && h.source == m.source) || (h.disk is Some && h.partition
            is Some && m.disk == h.disk && m.partition == h.partition),
        None => false,
    }
}

/// The name of a nested mount.
pub open spec fn portal_name(target: Seq<u8>) -> Seq<char> {
    match base_name(target) {
        Some(name) => lossy_text(name),
        None => lossy_text(target),
    }
}

/// What a nested mount is stored as.
pub open spec fn portal_kind(m: EntryModel) -> StoredModel {
    StoredModel::MountPoint {
        disk: text_or_empty(m.disk),
        partition: text_or_empty(m.partition),
        mount: lossy_text(m.target),
        model: text_or_empty(m.model),
        volume_used: m.used,
    }
}

impl TreeModel {
    /// The node under which a nested mount at `target` is shown.
    pub open spec fn portal_parent(self, target: Seq<u8>) -> Option<NodeId> {
        match parent_path(target) {
            Some(q) => if same_path(q, self.root_path) {
                Some(self.root)
            } else if self.dirs.dom().contains(comps(q)) {
                Some(self.dirs[comps(q)])
            } else {
                None
            },
            None => None,
        }
    }

    /// The tree with a portal to the mount `m`, where it is another volume on
    /// a physical disk whose directory's parent is stored, and no living child
    /// has its name.
    pub open spec fn with_portal(
        self,
        here: Option<EntryModel>,
        m: EntryModel,
        inode: Option<Meta>,
    ) -> TreeModel {
        if !m.physical || skipped_fstype(m.fstype) || same_volume(here, m) {
            self
        } else {
            match self.portal_parent(m.target) {
                None => self,
                Some(pid) => if first_named(
                    self.nodes,
                    self.nodes[pid as int].children,
                    portal_name(m.target),
                ) is Some {
                    self
                } else {
                    self.with_child(
                        pid,
                        portal_name(m.target),
                        match inode {
                            Some(meta) => size_of_meta(meta),
                            None => UNREAD_INODE,
                        },
                        portal_kind(m),
                        Some(m.target),
                    )
                },
            }
        }
    }

    /// The tree with portals to the first `n` of the nested mounts.
    pub open spec fn with_portals(
        self,
        mounts: Seq<EntryModel>,
        nested: Seq<EntryModel>,
        inodes: Seq<Option<Meta>>,
        n: nat,
    ) -> TreeModel
        decreases n,
    {
        if n == 0 {
            self
        } else {
            self.with_portals(mounts, nested, inodes, (n - 1) as nat).with_portal(
                self.home(mounts),
                nested[n - 1],
                inodes[n - 1],
            )
        }
    }

    /// The mount that holds the root of the tree.
    pub open spec fn home(self, mounts: Seq<EntryModel>) -> Option<EntryModel> {
        match identity_of(mounts, self.root_path) {
            Some(i) => Some(mounts[i]),
            None => None,
        }
    }
}

pub proof fn lemma_with_portal(
    t: TreeModel,
    here: Option<EntryModel>,
    m: EntryModel,
    inode: Option<Meta>,
)
    requires
        t.wf(),
    ensures
        t.with_portal(here, m, inode).nodes.len() >= t.nodes.len(),
        t.with_portal(here, m, inode).nodes.len() <= MAX_NODES ==> t.with_portal(
            here,
            m,
            inode,
        ).wf(),
        t.with_portal(here, m, inode).root_path == t.root_path,
        t.with_portal(here, m, inode).root == t.root,
{
    match t.portal_parent(m.target) {
        Some(pid) => {
            if t.nodes.len() < MAX_NODES {
                lemma_with_child_wf(
                    t,
                    pid,
                    portal_name(m.target),
                    match inode {
                        Some(meta) => size_of_meta(meta),
                        None => UNREAD_INODE,
                    },
                    portal_kind(m),
                    Some(m.target),
                );
            }
        },
        None => {},
    }
}

/// Whether a mount is of the volume that holds the root.
fn is_same_volume(here: Option<&MountEntry>, m: &MountEntry) -> (r: bool)
    ensures
        r == same_volume(
            match here {
                Some(h) => Some(h@),
                None => None,
            },
            m@,
        ),
{
    match here {
        None => false,
        Some(h) => {
            if h.source.as_str().unicode_len() > 0 && text_eq(h.source.as_str(), m.source.as_str()) {
                return true;
            }
            match (&h.disk, &h.partition, &m.disk, &m.partition) {
                (Some(hd), Some(hp), Some(md), Some(mp)) => {
                    text_eq(hd.as_str(), md.as_str()) && text_eq(hp.as_str(), mp.as_str())
                },
                _ => false,
            }
        },
    }
}

/// Adds a portal to each nested mount of another volume. `inodes[i]` is what
/// the file system says of the i-th nested mount's directory.
pub fn attach_portals(tree: &mut FileTree, mounts: &MountTable, inodes: &Vec<Option<Meta>>)
    requires
        old(tree).model().wf(),
        inodes@.len() == nested_in(mounts@, old(tree).model().root_path, mounts@.len()).len(),
        old(tree).model().nodes.len() + inodes@.len() <= MAX_NODES,
    ensures
        final(tree).model() == old(tree).model().with_portals(
            mounts@,
            nested_in(mounts@, old(tree).model().root_path, mounts@.len()),
            inodes@,
            inodes@.len(),
        ),
        final(tree).model().wf(),
{
    let ghost t0 = tree.model();
    let root = tree.root_path.clone();
    let here = mounts.identity(&root);
    let ghost home = t0.home(mounts@);
    proof {
        lemma_last_at(mounts@, root@, mounts@.len());
        lemma_longest_above(mounts@, root@, mounts@.len());
    }
    let nested = mounts.nested(&root);
    let ghost all = views(nested@);
    let ghost total = inodes@.len();
    let mut i: usize = 0;
    while i < nested.len()
        invariant
            i <= nested.len(),
            all == views(nested@),
            all == nested_in(mounts@, t0.root_path, mounts@.len()),
            inodes@.len() == nested@.len(),
            total == inodes@.len(),
            root@ == t0.root_path,
            home == t0.home(mounts@),
            match here {
                Some(h) => home == Some(h@),
                None => home is None,
            },
            t0.nodes.len() + total <= MAX_NODES,
            tree.model().nodes.len() <= t0.nodes.len() + i,
            tree.model() == t0.with_portals(mounts@, all, inodes@, i as nat),
            tree.model().wf(),
            tree.model().root_path == t0.root_path,
        decreases nested.len() - i,
    {
        let m: &MountEntry = nested[i];
        let ghost before = tree.model();
        assert(all[i as int] == m@);
        proof {
            lemma_with_portal(before, home, m@, inodes@[i as int]);
        }
        if m.physical && !skip_fstype(m.fstype.as_str()) && !is_same_volume(here, m) {
            if let Some(parent) = m.target.parent() {
                let pid: Option<NodeId> = if parent.same_as(&root) {
                    Some(tree.root)
                } else {
                    tree.dirs.get(&parent)
                };
                if let Some(pid) = pid {
                    assert(before.portal_parent(m.target@) == Some(pid));
                    assert(pid < before.nodes.len()) by {
                        if before.dirs.dom().contains(comps(parent@)) {
                            assert(before.dirs[comps(parent@)] < before.nodes.len());
                        }
                    }
                    let name = match m.target.file_name() {
                        Some(bytes) => utf8_lossy(bytes.as_slice()),
                        None => m.target.to_string_lossy(),
                    };
                    if tree.child_named(pid, name.as_str()).is_none() {
                        let inode: u64 = match &inodes[i] {
                            Some(meta) => allocated_size(meta),
                            None => UNREAD_INODE,
                        };
                        let kind = StoredKind::MountPoint {
                            disk: copy_or_empty(&m.disk),
                            partition: copy_or_empty(&m.partition),
                            mount: m.target.to_string_lossy(),
                            model: copy_or_empty(&m.model),
                            volume_used: m.used,
                        };
                        tree.add_child(pid, name, inode, kind, Some(m.target.clone()));
                    }
                }
            }
        }
        i = i + 1;
    }
}

// ---------------------------------------------------------------------------
// Scanning
// ---------------------------------------------------------------------------

/// What a walk does after a step.
#[derive(Clone, Copy, Debug, PartialEq, Eq, Structural)]
pub enum WalkAction {
    Continue,
    /// Do not go into the directory that was just found.
    SkipDir,
}

impl Scan {
    /// Begins a scan. `meta` is what the file system says of the root.
    pub fn start(root: PathBuf, meta: Option<Meta>) -> (r: Scan)
        ensures
            r@ == ScanModel::started(root@, meta),
            r@.wf(),
    {
        let mut tree = FileTree::new(root);
        let ghost fresh = tree.model();
        if let Some(m) = meta {
            tree.nodes[0].size = allocated_size(&m);
            assert(tree.model().nodes =~= seq![NodeModel { size: size_of_meta(m), ..fresh.nodes[0] }]);
        }
        let stack: Vec<NodeId> = vec![0];
        let r = Scan { tree, stack, files: 0 };
        assert(r@.stack =~= seq![0u32]);
        assert(r@ =~= ScanModel::started(root@, meta));
        proof {
            lemma_same_links_ok(fresh.nodes, r@.tree.nodes, 0);
        }
        r
    }

    /// Takes one step of the walk into the tree.
    pub fn visit(&mut self, entry: &WalkEntry, mounts: &MountTable, max_depth: u32) -> (r: WalkAction)
        requires
            old(self)@.wf(),
            old(self)@.tree.nodes.len() < MAX_NODES,
            old(self)@.files + MAX_NODES < u64::MAX,
        ensures
            final(self)@ == old(self)@.visited(mounts@, max_depth as nat, entry@),
            final(self)@.wf(),
            r == if entry.depth > 0 && entry.is_dir && nested_mount(
                mounts@,
                old(self)@.tree.root_path,
                entry.path@,
            ) {
                WalkAction::SkipDir
            } else {
                WalkAction::Continue
            },
    {
        let ghost s = self@;
        proof {
            lemma_visited_wf(s, mounts@, max_depth as nat, entry@);
        }
        if entry.depth == 0 {
            return WalkAction::Continue;
        }
        if mounts.is_nested_mount(&self.tree.root_path, &entry.path) {
            return if entry.is_dir {
                WalkAction::SkipDir
            } else {
                WalkAction::Continue
            };
        }
        proof {
            lemma_cut_stack(s, entry.depth as nat);
        }
        if self.stack.len() > entry.depth {
            self.stack.truncate(entry.depth);
        }
        assert(self.stack@ =~= s.cut_stack(entry.depth as nat));
        let parent: NodeId = self.stack[self.stack.len() - 1];
        if entry.is_symlink {
            return WalkAction::Continue;
        }
        let size: u64 = match &entry.meta {
            Some(meta) => allocated_size(meta),
            None => {
                return WalkAction::Continue;
            },
        };
        if entry.depth as u64 > max_depth as u64 {
            self.tree.add_size(parent, size);
            if entry.is_file {
                self.files = self.files + 1;
            }
        } else {
            let name = utf8_lossy(entry.name.as_slice());
            if entry.is_dir {
                let id: NodeId = self.tree.add_child(
                    parent,
                    name,
                    size,
                    StoredKind::Dir,
                    Some(entry.path.clone()),
                );
                self.stack.push(id);
            } else if entry.is_file {
                let ext = ext_of(name.as_str());
                self.tree.add_child(parent, name, size, StoredKind::File { ext }, None);
                self.files = self.files + 1;
            }
        }
        WalkAction::Continue
    }

    /// Ends the scan. `inodes[i]` is what the file system says of the i-th
    /// mount nested in the root.
    pub fn finish(self, mounts: &MountTable, inodes: &Vec<Option<Meta>>) -> (r: FileTree)
        requires
            self@.wf(),
            inodes@.len() == nested_in(mounts@, self@.tree.root_path, mounts@.len()).len(),
            self@.tree.nodes.len() + inodes@.len() <= MAX_NODES,
        ensures
            r.model() == self@.finished(mounts@, inodes@),
            r.model().wf(),
    {
        let mut tree = self.tree;
        attach_portals(&mut tree, mounts, inodes);
        tree.files = self.files;
        tree.bytes = tree.nodes[tree.root as usize].size;
        tree
    }
}

/// The tree of a whole scan.
pub open spec fn scanned(
    root: Seq<u8>,
    meta: Option<Meta>,
    steps: Seq<StepModel>,
    mounts: Seq<EntryModel>,
    inodes: Seq<Option<Meta>>,
    max_depth: nat,
) -> TreeModel {
    ScanModel::started(root, meta).walked(mounts, max_depth, steps, steps.len()).finished(
        mounts,
        inodes,
    )
}

/// Scans a mount from the steps of its walk.
pub fn scan_mount(
    root: PathBuf,
    meta: Option<Meta>,
    steps: &Vec<WalkEntry>,
    mounts: &MountTable,
    inodes: &Vec<Option<Meta>>,
    max_depth: u32,
) -> (r: FileTree)
    requires
        inodes@.len() == nested_in(mounts@, root@, mounts@.len()).len(),
        1 + steps@.len() + inodes@.len() <= MAX_NODES,
    ensures
        r.model() == scanned(root@, meta, views(steps@), mounts@, inodes@, max_depth as nat),
        r.model().wf(),
{
    let ghost all = views(steps@);
    let ghost depth = max_depth as nat;
    let mut scan = Scan::start(root, meta);
    let ghost s0 = scan@;
    let mut i: usize = 0;
    while i < steps.len()
        invariant
            i <= steps.len(),
            all == views(steps@),
            depth == max_depth as nat,
            s0.wf(),
            s0.files == 0,
            1 + steps@.len() <= MAX_NODES,
            scan@.files <= i,
            scan@.tree.nodes.len() <= 1 + i,
            scan@.tree.root_path == s0.tree.root_path,
            scan@ == s0.walked(mounts@, depth, all, i as nat),
            scan@.wf(),
        decreases steps.len() - i,
    {
        assert(all[i as int] == steps@[i as int]@);
        scan.visit(&steps[i], mounts, max_depth);
        i = i + 1;
    }
    scan.finish(mounts, inodes)
}

} // verus!
