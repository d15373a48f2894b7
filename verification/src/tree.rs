//! The tree of files and directories under one mount.

use crate::index::PathIndex;
use crate::path::{
    base_name, byte_lists, comps, counts, dot_comp, joined, joined_all, kept, lemma_comps_plain,
    lemma_joined_comps, lemma_parent_comps, lossy_text, parent_path, plain, root_comp, same_path,
    under, utf8_lossy, PathBuf, SLASH,
};
use crate::sort::views;
use crate::text::{chars_of, lemma_split_nonempty, lower, split_chars, split_on, stem_len, string_of, text_eq, to_lower};
use vstd::prelude::*;
use vstd::string::*;
use vstd::utf8::*;

verus! {

/// The place of a node in the list of nodes.
pub type NodeId = u32;

/// Directory levels kept under each mount root. Deeper files are walked for
/// size but not stored as nodes.
pub const STORE_DEPTH: u32 = 3;

/// The number of nodes that a tree can hold.
pub const MAX_NODES: u64 = 0x1_0000_0000;

// ---------------------------------------------------------------------------
// Depth
// ---------------------------------------------------------------------------

/// How many components `path` has below `root`; none if it is not below it.
pub open spec fn depth_below(root: Seq<u8>, path: Seq<u8>) -> Option<nat> {
    if under(path, root) {
        Some((comps(path).len() - comps(root).len()) as nat)
    } else {
        None
    }
}

/// How many components `path` has below `root`.
pub fn relative_depth(root: &PathBuf, path: &PathBuf) -> (r: Option<u32>)
    ensures
        match depth_below(root@, path@) {
            Some(n) => r == Some(n as u32),
            None => r is None,
        },
{
    if path.starts_with(root) {
        let a = path.components();
        let b = root.components();
        assert(byte_lists(a@).len() == a@.len());
        assert(byte_lists(b@).len() == b@.len());
        let n: usize = a.len() - b.len();
        Some(#[verifier::truncate] (n as u32))
    } else {
        None
    }
}

/// The path cut to at most `max_depth` components below `root`; a path that is
/// not below `root` is kept.
pub open spec fn capped(root: Seq<u8>, path: Seq<u8>, max_depth: nat) -> Seq<u8> {
    match depth_below(root, path) {
        Some(n) => {
            let from = comps(root).len() as int;
            let count = if n < max_depth {
                n
            } else {
                max_depth
            };
            joined_all(root, comps(path).subrange(from, from + count))
        },
        None => path,
    }
}

/// The path cut to at most `max_depth` components below `root`.
pub fn cap_path(root: &PathBuf, path: &PathBuf, max_depth: u32) -> (r: PathBuf)
    ensures
        r@ == capped(root@, path@, max_depth as nat),
{
    if !path.starts_with(root) {
        return path.clone();
    }
    let a = path.components();
    let b = root.components();
    let ghost all = comps(path@);
    let ghost from = comps(root@).len() as int;
    assert(byte_lists(a@).len() == a@.len());
    assert(byte_lists(b@).len() == b@.len());
    let first: usize = b.len();
    let rest: usize = a.len() - first;
    let count: usize = if rest as u64 > max_depth as u64 {
        max_depth as usize
    } else {
        rest
    };
    let mut out = root.clone();
    let mut i: usize = 0;
    assert(all.subrange(from, from) == Seq::<Seq<u8>>::empty());
    while i < count
        invariant
            i <= count,
            first + count <= a.len(),
            first == from,
            all == byte_lists(a@),
            out@ == joined_all(root@, all.subrange(from, from + i)),
        decreases count - i,
    {
        out = out.join_bytes(a[first + i].as_slice());
        assert(all[from + i] == a@[first + i]@);
        assert(all.subrange(from, from + i + 1).drop_last() == all.subrange(from, from + i));
        i = i + 1;
    }
    out
}

/// A path without components is empty.
proof fn lemma_no_comps(p: Seq<u8>)
    requires
        comps(p).len() == 0,
    ensures
        p.len() == 0,
{
    if p.len() > 0 {
        lemma_first_piece(p);
    }
}

/// A path that is not empty has a component.
proof fn lemma_first_piece(p: Seq<u8>)
    requires
        p.len() > 0,
    ensures
        comps(p).len() > 0,
{
    let pieces = split_on(p, SLASH);
    lemma_split_nonempty(p, SLASH);
    if p[0] != SLASH && pieces[0] != dot_comp() {
        lemma_piece_grows(p);
        lemma_kept_one(pieces);
    }
}

/// The first piece of a path that does not begin with a slash is not empty.
proof fn lemma_piece_grows(p: Seq<u8>)
    requires
        p.len() > 0,
        p[0] != SLASH,
    ensures
        split_on(p, SLASH)[0].len() > 0,
    decreases p.len(),
{
    let q = p.drop_last();
    lemma_split_nonempty(q, SLASH);
    if p.len() == 1 {
        assert(q =~= Seq::<u8>::empty());
        assert(split_on(q, SLASH) =~= seq![Seq::<u8>::empty()]);
    } else {
        assert(q[0] == p[0]);
        lemma_piece_grows(q);
    }
}

/// Where the first piece counts, a component is kept.
proof fn lemma_kept_one(pieces: Seq<Seq<u8>>)
    requires
        pieces.len() > 0,
        counts(pieces[0]),
    ensures
        kept(pieces).len() > 0,
    decreases pieces.len(),
{
    if pieces.len() > 1 {
        lemma_kept_one(pieces.drop_last());
    }
}

/// Putting the next components of a path behind a path that has the first ones
/// gives a path that has them all.
proof fn lemma_rejoined(root: Seq<u8>, path: Seq<u8>, k: nat)
    requires
        under(path, root),
        comps(root).len() + k <= comps(path).len(),
    ensures
        comps(
            joined_all(
                root,
                comps(path).subrange(comps(root).len() as int, (comps(root).len() + k) as int),
            ),
        ) == comps(path).take((comps(root).len() + k) as int),
    decreases k,
{
    let cs = comps(path);
    let from = comps(root).len() as int;
    let parts = cs.subrange(from, from + k);
    if k == 0 {
        assert(parts =~= Seq::<Seq<u8>>::empty());
        assert(cs.take(from) =~= comps(root));
    } else {
        let shorter = cs.subrange(from, from + k - 1);
        assert(parts.drop_last() =~= shorter);
        lemma_rejoined(root, path, (k - 1) as nat);
        let p = joined_all(root, shorter);
        let c = cs[from + k - 1];
        assert(parts.last() == c);
        lemma_comps_plain(path, from + k - 1);
        assert(cs.take(from + k) =~= cs.take(from + k - 1).push(c));
        if plain(c) {
            lemma_joined_comps(p, c);
        } else {
            assert(from == 0 && k == 1);
            assert(cs.take(0) =~= Seq::<Seq<u8>>::empty());
            lemma_no_comps(p);
            assert(p =~= Seq::<u8>::empty());
            assert(joined(p, c) =~= c);
            lemma_lone_comp(c);
            assert(cs.take(1) =~= seq![c]);
        }
    }
}

/// A path that is a slash or a dot has that component alone.
proof fn lemma_lone_comp(c: Seq<u8>)
    requires
        c == root_comp() || c == dot_comp(),
    ensures
        comps(c) == seq![c],
{
    assert(c.drop_last() =~= Seq::<u8>::empty());
    assert(split_on(c.drop_last(), SLASH) =~= seq![Seq::<u8>::empty()]);
    let none = Seq::<u8>::empty();
    let empty = Seq::<Seq<u8>>::empty();
    if c == root_comp() {
        let pieces = split_on(c, SLASH);
        assert(pieces =~= seq![none].push(none));
        assert(pieces.drop_last() =~= seq![none]);
        assert(seq![none].drop_last() =~= empty);
        assert(kept(seq![none]) == kept(empty));
        assert(kept(pieces) == kept(seq![none]));
        assert(comps(c) =~= seq![c]);
    } else {
        let pieces = split_on(c, SLASH);
        assert(pieces =~= seq![c]);
        assert(pieces.drop_last() =~= empty);
        assert(kept(pieces) == kept(empty));
        assert(comps(c) =~= seq![c]);
    }
}

/// A capped path has the first components of the path, no more than
/// `max_depth` of them below the root; a path that is not below the root keeps
/// all of its components.
pub proof fn law_cap_path(root: Seq<u8>, path: Seq<u8>, max_depth: nat)
    ensures
        match depth_below(root, path) {
            Some(n) => {
                let kept_depth = if n < max_depth {
                    n
                } else {
                    max_depth
                };
                &&& comps(capped(root, path, max_depth)) == comps(path).take(
                    (comps(root).len() + kept_depth) as int,
                )
                &&& depth_below(root, capped(root, path, max_depth)) == Some(kept_depth)
                &&& under(path, capped(root, path, max_depth))
            },
            None => capped(root, path, max_depth) == path,
        },
        comps(capped(root, path, max_depth)).len() <= comps(path).len(),
{
    match depth_below(root, path) {
        Some(n) => {
            let count = if n < max_depth {
                n
            } else {
                max_depth
            };
            lemma_rejoined(root, path, count);
            let cut = comps(path).take((comps(root).len() + count) as int);
            assert(comps(root).is_prefix_of(cut)) by {
                assert(cut.subrange(0, comps(root).len() as int) =~= comps(path).subrange(
                    0,
                    comps(root).len() as int,
                ));
            }
            assert(cut.is_prefix_of(comps(path))) by {
                assert(comps(path).subrange(0, cut.len() as int) =~= cut);
            }
        },
        None => {},
    }
}

// ---------------------------------------------------------------------------
// File names
// ---------------------------------------------------------------------------

/// The last piece that is neither empty nor a dot.
pub open spec fn last_piece(pieces: Seq<Seq<char>>) -> Option<Seq<char>>
    decreases pieces.len(),
{
    if pieces.len() == 0 {
        None
    } else if pieces.last().len() > 0 && pieces.last() != seq!['.'] {
        Some(pieces.last())
    } else {
        last_piece(pieces.drop_last())
    }
}

/// The file name that a text ends with, if it ends with one.
pub open spec fn name_piece(s: Seq<char>) -> Option<Seq<char>> {
    match last_piece(split_on(s, '/')) {
        Some(piece) => if piece == seq!['.', '.'] {
            None
        } else {
            Some(piece)
        },
        None => None,
    }
}

/// The extension of a name in lower case: what follows its last dot, unless
/// the dot comes first; empty if there is none.
pub open spec fn extension(name: Seq<char>) -> Seq<char> {
    match name_piece(name) {
        Some(piece) => if stem_len(piece, '.') >= 2 {
            lower(piece.skip(stem_len(piece, '.') as int))
        } else {
            Seq::empty()
        },
        None => Seq::empty(),
    }
}

/// The extension of a name in lower case.
pub fn ext_of(name: &str) -> (r: String)
    ensures
        r@ == extension(name@),
{
    let chars = chars_of(name);
    let pieces = split_chars(&chars, '/');
    let ghost all = views(pieces@);
    assert(all == split_on(name@, '/'));
    let mut n: usize = pieces.len();
    assert(all.take(n as int) == all);
    while n > 0
        invariant
            n <= pieces.len(),
            all == views(pieces@),
            all == split_on(name@, '/'),
            last_piece(all.take(n as int)) == last_piece(all),
        decreases n,
    {
        let piece = &pieces[n - 1];
        assert(all.take(n as int).last() == piece@);
        assert(all.take(n as int).drop_last() == all.take(n - 1));
        let dot = piece.len() == 1 && piece[0] == '.';
        assert(dot ==> piece@ == seq!['.']);
        if piece.len() > 0 && !dot {
            let dots = piece.len() == 2 && piece[0] == '.' && piece[1] == '.';
            assert(dots ==> piece@ == seq!['.', '.']);
            if dots {
                return String::new();
            }
            assert(name_piece(name@) == Some(piece@));
            let mut stem: usize = piece.len();
            assert(piece@.take(stem as int) == piece@);
            while stem > 0 && piece[stem - 1] != '.'
                invariant
                    stem <= piece.len(),
                    stem_len(piece@.take(stem as int), '.') == stem_len(piece@, '.'),
                decreases stem,
            {
                assert(piece@.take(stem as int).drop_last() == piece@.take(stem - 1));
                stem = stem - 1;
            }
            if stem < 2 {
                return String::new();
            }
            assert(piece@.subrange(stem as int, piece@.len() as int) == piece@.skip(stem as int));
            let ext = string_of(piece, stem, piece.len());
            return to_lower(ext.as_str());
        }
        n = n - 1;
    }
    String::new()
}

// ---------------------------------------------------------------------------
// Nodes
// ---------------------------------------------------------------------------

/// What a node stands for.
#[derive(Debug)]
pub enum StoredKind {
    Dir,
    File { ext: String },
    MountPoint { disk: String, partition: String, mount: String, model: String, volume_used: u64 },
}

/// The value of a [`StoredKind`].
#[verifier::ext_equal]
pub enum StoredModel {
    Dir,
    File { ext: Seq<char> },
    MountPoint {
        disk: Seq<char>,
        partition: Seq<char>,
        mount: Seq<char>,
        model: Seq<char>,
        volume_used: u64,
    },
}

impl View for StoredKind {
    type V = StoredModel;

    open spec fn view(&self) -> StoredModel {
        match self {
            StoredKind::Dir => StoredModel::Dir,
            StoredKind::File { ext } => StoredModel::File { ext: ext@ },
            StoredKind::MountPoint { disk, partition, mount, model, volume_used } =>
                StoredModel::MountPoint {
                disk: disk@,
                partition: partition@,
                mount: mount@,
                model: model@,
                volume_used: *volume_used,
            },
        }
    }
}

impl Clone for StoredKind {
    fn clone(&self) -> (r: Self)
        ensures
            r@ == self@,
    {
        match self {
            StoredKind::Dir => StoredKind::Dir,
            StoredKind::File { ext } => StoredKind::File { ext: ext.clone() },
            StoredKind::MountPoint { disk, partition, mount, model, volume_used } =>
                StoredKind::MountPoint {
                disk: disk.clone(),
                partition: partition.clone(),
                mount: mount.clone(),
                model: model.clone(),
                volume_used: *volume_used,
            },
        }
    }
}

impl StoredKind {
    /// Whether this is a file.
    pub fn is_file(&self) -> (r: bool)
        ensures
            r == (self@ is File),
    {
        match self {
            StoredKind::File { .. } => true,
            _ => false,
        }
    }

    /// Whether this is a directory.
    pub fn is_dir(&self) -> (r: bool)
        ensures
            r == (self@ is Dir),
    {
        match self {
            StoredKind::Dir => true,
            _ => false,
        }
    }

    /// Whether this is a nested mount.
    pub fn is_portal(&self) -> (r: bool)
        ensures
            r == (self@ is MountPoint),
    {
        match self {
            StoredKind::MountPoint { .. } => true,
            _ => false,
        }
    }
}

/// A file, a directory or a nested mount.
#[derive(Debug)]
pub struct Node {
    pub name: String,
    pub parent: Option<NodeId>,
    pub size: u64,
    pub kind: StoredKind,
    pub children: Vec<NodeId>,
    pub alive: bool,
}

/// The value of a [`Node`].
#[verifier::ext_equal]
pub struct NodeModel {
    pub name: Seq<char>,
    pub parent: Option<NodeId>,
    pub size: u64,
    pub kind: StoredModel,
    pub children: Seq<NodeId>,
    pub alive: bool,
}

impl View for Node {
    type V = NodeModel;

    open spec fn view(&self) -> NodeModel {
        NodeModel {
            name: self.name@,
            parent: self.parent,
            size: self.size,
            kind: self.kind@,
            children: self.children@,
            alive: self.alive,
        }
    }
}

/// The files and directories under one mount.
pub struct FileTree {
    pub root_path: PathBuf,
    pub nodes: Vec<Node>,
    pub root: NodeId,
    pub files: u64,
    pub bytes: u64,
    pub store_depth: u32,
    pub dirs: PathIndex<NodeId>,
}

/// The value of a [`FileTree`]. The index `dirs` is keyed by the components of
/// a path.
#[verifier::ext_equal]
pub struct TreeModel {
    pub root_path: Seq<u8>,
    pub nodes: Seq<NodeModel>,
    pub root: NodeId,
    pub files: u64,
    pub bytes: u64,
    pub store_depth: u32,
    pub dirs: Map<Seq<Seq<u8>>, NodeId>,
}

impl View for FileTree {
    type V = TreeModel;

    open spec fn view(&self) -> TreeModel {
        self.model()
    }
}

impl FileTree {
    /// The value of the tree.
    pub open spec fn model(&self) -> TreeModel {
        TreeModel {
            root_path: self.root_path@,
            nodes: views(self.nodes@),
            root: self.root,
            files: self.files,
            bytes: self.bytes,
            store_depth: self.store_depth,
            dirs: self.dirs@,
        }
    }
}

/// Whether the links between the nodes form a tree: a parent comes before its
/// children in the list, each child points back, and only the root has no
/// parent.
pub open spec fn links_ok(nodes: Seq<NodeModel>, root: NodeId) -> bool {
    &&& root < nodes.len() <= MAX_NODES
    &&& forall|i: int| 0 <= i < nodes.len() ==> ((#[trigger] nodes[i]).parent is None <==> i == root)
    &&& forall|i: int|
        0 <= i < nodes.len() ==> ((#[trigger] nodes[i]).parent matches Some(p) ==> p < i)
    &&& forall|i: int, k: int|
        0 <= i < nodes.len() && 0 <= k < nodes[i].children.len() ==> i < (
        #[trigger] nodes[i].children[k]) < nodes.len() && nodes[nodes[i].children[k] as int].parent
            == Some(i as u32)
    &&& forall|i: int| 0 <= i < nodes.len() ==> (#[trigger] nodes[i]).children.no_duplicates()
}

impl TreeModel {
    /// Whether the tree is well formed: the nodes are linked to a tree, the
    /// index leads to nodes, and the count of files leaves room for each node
    /// that can still be added.
    pub open spec fn wf(self) -> bool {
        &&& links_ok(self.nodes, self.root)
        &&& self.files + (MAX_NODES - self.nodes.len()) <= u64::MAX
        &&& forall|k: Seq<Seq<u8>>|
            #[trigger] self.dirs.dom().contains(k) ==> self.dirs[k] < self.nodes.len()
    }
}

/// The sum of two sizes, or the largest size if it is larger.
pub open spec fn sat_add(a: u64, b: u64) -> u64 {
    if a + b > u64::MAX {
        u64::MAX
    } else {
        (a + b) as u64
    }
}

/// The difference of two sizes, or zero if it is negative.
pub open spec fn sat_sub(a: u64, b: int) -> u64 {
    if a < b {
        0
    } else {
        (a - b) as u64
    }
}

/// Whether `i` is `id` or one of the nodes above it.
pub open spec fn on_chain(nodes: Seq<NodeModel>, id: int, i: int) -> bool
    decreases id,
{
    i == id || match nodes[id].parent {
        Some(p) => 0 <= p < id && on_chain(nodes, p as int, i),
        None => false,
    }
}

/// The nodes with `delta` added to the size of `id` and of each node above it.
pub open spec fn grown(nodes: Seq<NodeModel>, id: int, delta: u64) -> Seq<NodeModel> {
    Seq::new(
        nodes.len(),
        |i: int|
            if on_chain(nodes, id, i) {
                NodeModel { size: sat_add(nodes[i].size, delta), ..nodes[i] }
            } else {
                nodes[i]
            },
    )
}

/// The nodes with `delta` taken from the size of `id` and of each node above
/// it.
pub open spec fn shrunk(nodes: Seq<NodeModel>, id: int, delta: u64) -> Seq<NodeModel> {
    Seq::new(
        nodes.len(),
        |i: int|
            if on_chain(nodes, id, i) {
                NodeModel { size: sat_sub(nodes[i].size, delta as int), ..nodes[i] }
            } else {
                nodes[i]
            },
    )
}

/// The nodes with a new last node that is a child of `parent`.
pub open spec fn linked(nodes: Seq<NodeModel>, parent: int, node: NodeModel) -> Seq<NodeModel> {
    Seq::new(
        nodes.len() + 1,
        |i: int|
            if i == nodes.len() {
                node
            } else if i == parent {
                NodeModel { children: nodes[i].children.push(nodes.len() as u32), ..nodes[i] }
            } else {
                nodes[i]
            },
    )
}

/// A living node without children.
pub open spec fn fresh_node(
    name: Seq<char>,
    parent: Option<NodeId>,
    size: u64,
    kind: StoredModel,
) -> NodeModel {
    NodeModel { name, parent, size, kind, children: Seq::empty(), alive: true }
}

/// The index with the new node `id` filed under `path`; files are not filed.
pub open spec fn filed(
    dirs: Map<Seq<Seq<u8>>, NodeId>,
    kind: StoredModel,
    path: Option<Seq<u8>>,
    id: NodeId,
) -> Map<Seq<Seq<u8>>, NodeId> {
    match path {
        Some(p) => if kind is File {
            dirs
        } else {
            dirs.insert(comps(p), id)
        },
        None => dirs,
    }
}

/// The name of a tree's root node.
pub open spec fn root_name(path: Seq<u8>) -> Seq<char> {
    match base_name(path) {
        Some(name) => if lossy_text(name).len() > 0 {
            lossy_text(name)
        } else {
            lossy_text(path)
        },
        None => lossy_text(path),
    }
}

impl TreeModel {
    /// A tree that holds its root alone.
    pub open spec fn fresh(root_path: Seq<u8>) -> TreeModel {
        TreeModel {
            root_path,
            nodes: seq![fresh_node(root_name(root_path), None, 0, StoredModel::Dir)],
            root: 0,
            files: 0,
            bytes: 0,
            store_depth: STORE_DEPTH,
            dirs: Map::empty().insert(comps(root_path), 0),
        }
    }

    /// The tree with one more node under `parent`; no size above it changes.
    pub open spec fn grafted(
        self,
        parent: NodeId,
        name: Seq<char>,
        size: u64,
        kind: StoredModel,
        path: Option<Seq<u8>>,
    ) -> TreeModel {
        TreeModel {
            nodes: linked(self.nodes, parent as int, fresh_node(name, Some(parent), size, kind)),
            files: if kind is File {
                (self.files + 1) as u64
            } else {
                self.files
            },
            dirs: filed(self.dirs, kind, path, self.nodes.len() as u32),
            ..self
        }
    }

    /// The tree with one more node under `parent`; its size is added to each
    /// node above it.
    pub open spec fn with_child(
        self,
        parent: NodeId,
        name: Seq<char>,
        size: u64,
        kind: StoredModel,
        path: Option<Seq<u8>>,
    ) -> TreeModel {
        let added = self.grafted(parent, name, size, kind, path);
        let nodes = grown(added.nodes, parent as int, size);
        TreeModel { nodes, bytes: nodes[self.root as int].size, ..added }
    }

    /// The path of a node: the root's path with the names below it.
    pub open spec fn path_of(self, id: int) -> Seq<u8>
        decreases id,
    {
        match self.nodes[id].parent {
            Some(p) => if 0 <= p < id {
                joined(self.path_of(p as int), encode_utf8(self.nodes[id].name))
            } else {
                self.root_path
            },
            None => self.root_path,
        }
    }
}

/// The chain above a node ends at the root.
pub proof fn lemma_chain_to_root(nodes: Seq<NodeModel>, root: NodeId, id: int)
    requires
        links_ok(nodes, root),
        0 <= id < nodes.len(),
    ensures
        on_chain(nodes, id, root as int),
    decreases id,
{
    match nodes[id].parent {
        Some(p) => lemma_chain_to_root(nodes, root, p as int),
        None => {},
    }
}

/// A node on the chain comes no later than its start.
pub proof fn lemma_chain_before(nodes: Seq<NodeModel>, id: int, i: int)
    requires
        on_chain(nodes, id, i),
    ensures
        i <= id,
    decreases id,
{
    if i != id {
        let p = nodes[id].parent.unwrap() as int;
        lemma_chain_before(nodes, p, i);
    }
}

/// The chain is decided by the parent links alone.
pub proof fn lemma_chain_same(a: Seq<NodeModel>, b: Seq<NodeModel>, id: int, i: int)
    requires
        0 <= id < a.len(),
        a.len() <= b.len(),
        forall|k: int| 0 <= k < a.len() ==> (#[trigger] a[k]).parent == b[k].parent,
    ensures
        on_chain(a, id, i) == on_chain(b, id, i),
    decreases id,
{
    assert(a[id].parent == b[id].parent);
    match a[id].parent {
        Some(p) => {
            if p < id {
                lemma_chain_same(a, b, p as int, i);
            }
        },
        None => {},
    }
}

/// Whether two lists of nodes have the same links.
pub open spec fn same_links(a: Seq<NodeModel>, b: Seq<NodeModel>) -> bool {
    &&& a.len() == b.len()
    &&& forall|k: int| 0 <= k < a.len() ==> (#[trigger] a[k]).parent == b[k].parent && a[k].children
        == b[k].children
}

/// Nodes with the same links are as well linked.
pub proof fn lemma_same_links_ok(a: Seq<NodeModel>, b: Seq<NodeModel>, root: NodeId)
    requires
        links_ok(a, root),
        same_links(a, b),
    ensures
        links_ok(b, root),
{
    assert forall|i: int, k: int| 0 <= i < b.len() && 0 <= k < b[i].children.len() implies i < (
    #[trigger] b[i].children[k]) < b.len() && b[b[i].children[k] as int].parent == Some(i as u32) by {
        assert(a[i].children == b[i].children);
        let c = a[i].children[k];
        assert(a[c as int].parent == b[c as int].parent);
    }
    assert forall|i: int| 0 <= i < b.len() implies ((#[trigger] b[i]).parent is None <==> i == root)
        && (b[i].parent matches Some(p) ==> p < i) && b[i].children.no_duplicates() by {
        assert(a[i].parent == b[i].parent);
    }
}

pub proof fn lemma_linked_ok(nodes: Seq<NodeModel>, root: NodeId, parent: int, node: NodeModel)
    requires
        links_ok(nodes, root),
        0 <= parent < nodes.len() < MAX_NODES,
        node.parent == Some(parent as u32),
        node.children.len() == 0,
    ensures
        links_ok(linked(nodes, parent, node), root),
{
    let b = linked(nodes, parent, node);
    let new = nodes.len() as u32;
    let kids = nodes[parent].children;
    assert(b[parent].children == kids.push(new));
    assert forall|i: int, k: int| 0 <= i < b.len() && 0 <= k < b[i].children.len() implies i < (
    #[trigger] b[i].children[k]) < b.len() && b[b[i].children[k] as int].parent == Some(i as u32) by {
        if i < nodes.len() {
            assert(nodes[i].parent == b[i].parent);
            if i == parent && k == kids.len() {
            } else {
                let c = nodes[i].children[k];
                assert(c == b[i].children[k]);
                assert(nodes[c as int].parent == b[c as int].parent);
            }
        }
    }
    assert forall|i: int| 0 <= i < b.len() implies ((#[trigger] b[i]).parent is None <==> i == root)
        && (b[i].parent matches Some(p) ==> p < i) && b[i].children.no_duplicates() by {
        if i < nodes.len() {
            assert(nodes[i].parent == b[i].parent);
            if i == parent {
                assert forall|x: int, y: int| 0 <= x < y < kids.push(new).len() implies kids.push(new)[x]
                    != kids.push(new)[y] by {
                    if y == kids.len() {
                        assert(nodes[parent].children[x] < nodes.len());
                    }
                }
            }
        }
    }
}

/// The path of a node is decided by the names and parent links alone.
pub proof fn lemma_path_of_same(a: TreeModel, b: TreeModel, id: int)
    requires
        0 <= id < a.nodes.len(),
        a.nodes.len() <= b.nodes.len(),
        a.root_path == b.root_path,
        forall|k: int|
            0 <= k < a.nodes.len() ==> (#[trigger] a.nodes[k]).parent == b.nodes[k].parent
                && a.nodes[k].name == b.nodes[k].name,
    ensures
        a.path_of(id) == b.path_of(id),
    decreases id,
{
    assert(a.nodes[id].parent == b.nodes[id].parent);
    match a.nodes[id].parent {
        Some(p) => {
            if p < id {
                lemma_path_of_same(a, b, p as int);
            }
        },
        None => {},
    }
}

impl FileTree {
    /// A tree that holds its root alone.
    pub fn new(root_path: PathBuf) -> (r: FileTree)
        ensures
            r.model() == TreeModel::fresh(root_path@),
            r.model().wf(),
    {
        let mut name = String::new();
        let mut named = false;
        match root_path.file_name() {
            Some(bytes) => {
                let text = utf8_lossy(bytes.as_slice());
                if text.as_str().unicode_len() > 0 {
                    name = text;
                    named = true;
                }
            },
            None => {},
        }
        if !named {
            name = root_path.to_string_lossy();
        }
        let mut dirs = PathIndex::new();
        dirs.insert(&root_path, 0);
        let node = Node {
            name,
            parent: None,
            size: 0,
            kind: StoredKind::Dir,
            children: Vec::new(),
            alive: true,
        };
        let mut nodes: Vec<Node> = Vec::new();
        nodes.push(node);
        let r = FileTree {
            root_path,
            nodes,
            root: 0,
            files: 0,
            bytes: 0,
            store_depth: STORE_DEPTH,
            dirs,
        };
        assert(r.model().nodes == TreeModel::fresh(root_path@).nodes);
        assert(r.model() =~= TreeModel::fresh(root_path@));
        r
    }

    /// Adds `delta` to the size of `id` and of each node above it.
    pub(crate) fn add_size(&mut self, id: NodeId, delta: u64)
        requires
            old(self).model().wf(),
            id < old(self).model().nodes.len(),
        ensures
            final(self).model() == (TreeModel {
                nodes: grown(old(self).model().nodes, id as int, delta),
                ..old(self).model()
            }),
            final(self).model().wf(),
    {
        let ghost first = self.model();
        let ghost n0 = self.model().nodes;
        let mut cur: NodeId = id;
        loop
            invariant_except_break
                forall|i: int|
                    0 <= i < n0.len() ==> #[trigger] self.model().nodes[i] == if on_chain(
                        n0,
                        id as int,
                        i,
                    ) && !on_chain(n0, cur as int, i) {
                        NodeModel { size: sat_add(n0[i].size, delta), ..n0[i] }
                    } else {
                        n0[i]
                    },
            invariant
                first.wf(),
                n0 == first.nodes,
                cur < n0.len(),
                self.nodes@.len() == n0.len(),
                on_chain(n0, id as int, cur as int),
                self.model() == (TreeModel { nodes: self.model().nodes, ..first }),
            ensures
                self.model() == (TreeModel { nodes: self.model().nodes, ..first }),
                self.nodes@.len() == n0.len(),
                forall|i: int|
                    0 <= i < n0.len() ==> #[trigger] self.model().nodes[i] == grown(
                        n0,
                        id as int,
                        delta,
                    )[i],
            decreases cur,
        {
            let ghost now = self.model().nodes;
            let at: usize = cur as usize;
            assert(now[cur as int] == n0[cur as int]);
            let size: u64 = self.nodes[at].size;
            self.nodes[at].size = size.saturating_add(delta);
            assert(self.model().nodes == now.update(
                cur as int,
                NodeModel { size: sat_add(n0[cur as int].size, delta), ..n0[cur as int] },
            ));
            match self.nodes[at].parent {
                Some(p) => {
                    proof {
                        assert forall|i: int| on_chain(n0, p as int, i) implies i < cur by {
                            lemma_chain_before(n0, p as int, i);
                        }
                        lemma_chain_next(n0, id as int, cur as int);
                    }
                    cur = p;
                },
                None => {
                    break;
                },
            }
        }
        proof {
            assert(self.model().nodes == grown(n0, id as int, delta));
            lemma_same_links_ok(n0, self.model().nodes, first.root);
        }
    }

    /// Takes `delta` from the size of `id` and of each node above it.
    pub(crate) fn sub_size(&mut self, id: NodeId, delta: u64)
        requires
            old(self).model().wf(),
            id < old(self).model().nodes.len(),
        ensures
            final(self).model() == (TreeModel {
                nodes: shrunk(old(self).model().nodes, id as int, delta),
                ..old(self).model()
            }),
            final(self).model().wf(),
    {
        let ghost first = self.model();
        let ghost n0 = self.model().nodes;
        let mut cur: NodeId = id;
        loop
            invariant_except_break
                forall|i: int|
                    0 <= i < n0.len() ==> #[trigger] self.model().nodes[i] == if on_chain(
                        n0,
                        id as int,
                        i,
                    ) && !on_chain(n0, cur as int, i) {
                        NodeModel { size: sat_sub(n0[i].size, delta as int), ..n0[i] }
                    } else {
                        n0[i]
                    },
            invariant
                first.wf(),
                n0 == first.nodes,
                cur < n0.len(),
                self.nodes@.len() == n0.len(),
                on_chain(n0, id as int, cur as int),
                self.model() == (TreeModel { nodes: self.model().nodes, ..first }),
            ensures
                self.model() == (TreeModel { nodes: self.model().nodes, ..first }),
                self.nodes@.len() == n0.len(),
                forall|i: int|
                    0 <= i < n0.len() ==> #[trigger] self.model().nodes[i] == shrunk(
                        n0,
                        id as int,
                        delta,
                    )[i],
            decreases cur,
        {
            let ghost now = self.model().nodes;
            let at: usize = cur as usize;
            assert(now[cur as int] == n0[cur as int]);
            let size: u64 = self.nodes[at].size;
            self.nodes[at].size = size.saturating_sub(delta);
            assert(self.model().nodes == now.update(
                cur as int,
                NodeModel { size: sat_sub(n0[cur as int].size, delta as int), ..n0[cur as int] },
            ));
            match self.nodes[at].parent {
                Some(p) => {
                    proof {
                        assert forall|i: int| on_chain(n0, p as int, i) implies i < cur by {
                            lemma_chain_before(n0, p as int, i);
                        }
                        lemma_chain_next(n0, id as int, cur as int);
                    }
                    cur = p;
                },
                None => {
                    break;
                },
            }
        }
        proof {
            assert(self.model().nodes == shrunk(n0, id as int, delta));
            lemma_same_links_ok(n0, self.model().nodes, first.root);
        }
    }
}

/// The parent of a node on the chain is on the chain.
pub proof fn lemma_chain_next(nodes: Seq<NodeModel>, id: int, i: int)
    requires
        on_chain(nodes, id, i),
        nodes[i].parent matches Some(p) && p < i,
    ensures
        on_chain(nodes, id, nodes[i].parent.unwrap() as int),
    decreases id,
{
    if i != id {
        lemma_chain_next(nodes, nodes[id].parent.unwrap() as int, i);
    } else {
        let p = nodes[i].parent.unwrap() as int;
        assert(on_chain(nodes, p, p));
    }
}

/// The nodes after a child was added are well linked.
pub proof fn lemma_with_child_wf(
    m: TreeModel,
    parent: NodeId,
    name: Seq<char>,
    size: u64,
    kind: StoredModel,
    path: Option<Seq<u8>>,
)
    requires
        m.wf(),
        parent < m.nodes.len() < MAX_NODES,
    ensures
        m.grafted(parent, name, size, kind, path).wf(),
        m.with_child(parent, name, size, kind, path).wf(),
{
    let node = fresh_node(name, Some(parent), size, kind);
    lemma_linked_ok(m.nodes, m.root, parent as int, node);
    let added = m.grafted(parent, name, size, kind, path);
    let nodes = grown(added.nodes, parent as int, size);
    lemma_same_links_ok(added.nodes, nodes, m.root);
}

/// The first living child with the given name.
pub open spec fn first_named(
    nodes: Seq<NodeModel>,
    kids: Seq<NodeId>,
    name: Seq<char>,
) -> Option<NodeId>
    decreases kids.len(),
{
    if kids.len() == 0 {
        None
    } else if nodes[kids[0] as int].alive && nodes[kids[0] as int].name == name {
        Some(kids[0])
    } else {
        first_named(nodes, kids.drop_first(), name)
    }
}

/// A child that is found is a living child with that name.
pub proof fn lemma_first_named(nodes: Seq<NodeModel>, kids: Seq<NodeId>, name: Seq<char>)
    ensures
        first_named(nodes, kids, name) matches Some(c) ==> kids.contains(c)
            && nodes[c as int].alive && nodes[c as int].name == name,
        first_named(nodes, kids, name) is None ==> forall|k: int|
            0 <= k < kids.len() ==> !(nodes[#[trigger] kids[k] as int].alive
                && nodes[kids[k] as int].name == name),
    decreases kids.len(),
{
    if kids.len() > 0 {
        if nodes[kids[0] as int].alive && nodes[kids[0] as int].name == name {
        } else {
            let rest = kids.drop_first();
            lemma_first_named(nodes, rest, name);
            match first_named(nodes, rest, name) {
                Some(c) => {
                    let k = choose|k: int| 0 <= k < rest.len() && rest[k] == c;
                    assert(kids[k + 1] == c);
                },
                None => {
                    assert forall|k: int| 0 <= k < kids.len() implies !(
                    nodes[#[trigger] kids[k] as int].alive && nodes[kids[k] as int].name == name) by {
                        if k > 0 {
                            assert(rest[k - 1] == kids[k]);
                        }
                    }
                },
            }
        }
    }
}

/// The text of the last component of a path; empty if it has no name.
pub open spec fn base_text(path: Seq<u8>) -> Seq<char> {
    match base_name(path) {
        Some(name) => lossy_text(name),
        None => Seq::empty(),
    }
}

/// The text of the last component of a path.
pub(crate) fn name_text(path: &PathBuf) -> (r: String)
    ensures
        r@ == base_text(path@),
{
    match path.file_name() {
        Some(name) => utf8_lossy(name.as_slice()),
        None => String::new(),
    }
}

impl TreeModel {
    /// The tree with the size of `id` set to `size`; the difference goes to
    /// each node above it.
    pub open spec fn resized(self, id: NodeId, size: u64) -> TreeModel {
        let was = self.nodes[id as int].size;
        let moved = if was > size {
            shrunk(self.nodes, id as int, (was - size) as u64)
        } else if size > was {
            grown(self.nodes, id as int, (size - was) as u64)
        } else {
            self.nodes
        };
        let nodes = Seq::new(
            moved.len(),
            |i: int|
                if i == id {
                    NodeModel { size, ..moved[i] }
                } else {
                    moved[i]
                },
        );
        TreeModel { nodes, bytes: nodes[self.root as int].size, ..self }
    }

    /// The tree after the file at `path` was found to have this size. A path
    /// whose parent is not indexed changes nothing; a living child of that
    /// name is resized, else a file is added.
    pub open spec fn upserted(self, path: Seq<u8>, size: u64, ext: Seq<char>) -> TreeModel {
        match parent_path(path) {
            Some(q) => if self.dirs.dom().contains(comps(q)) {
                let pid = self.dirs[comps(q)];
                match first_named(self.nodes, self.nodes[pid as int].children, base_text(path)) {
                    Some(c) => self.resized(c, size),
                    None => self.with_child(
                        pid,
                        base_text(path),
                        size,
                        StoredModel::File { ext },
                        None,
                    ),
                }
            } else {
                self
            },
            None => self,
        }
    }

    /// The tree with directories added so that `path` is indexed, and the node
    /// of `path`; none if the path does not lead up to the root.
    pub open spec fn ensured(self, path: Seq<u8>) -> (TreeModel, Option<NodeId>)
        decreases comps(path).len(),
    {
        proof {
            lemma_parent_comps(path);
        }
        if self.dirs.dom().contains(comps(path)) {
            (self, Some(self.dirs[comps(path)]))
        } else if same_path(path, self.root_path) {
            (self, Some(self.root))
        } else {
            match parent_path(path) {
                None => (self, None),
                Some(q) => {
                    let (above, at) = self.ensured(q);
                    match (at, base_name(path)) {
                        (Some(pid), Some(name)) => (
                            above.with_child(
                                pid,
                                lossy_text(name),
                                0,
                                StoredModel::Dir,
                                Some(path),
                            ),
                            Some(above.nodes.len() as u32),
                        ),
                        _ => (above, None),
                    }
                },
            }
        }
    }

    /// Whether one more node can be numbered.
    pub open spec fn has_room(self) -> bool {
        self.nodes.len() < MAX_NODES
    }

    /// Whether recording the file at `path` adds a node.
    pub open spec fn adds_file(self, path: Seq<u8>) -> bool {
        match parent_path(path) {
            Some(q) => self.dirs.dom().contains(comps(q)) && first_named(
                self.nodes,
                self.nodes[self.dirs[comps(q)] as int].children,
                base_text(path),
            ) is None,
            None => false,
        }
    }
}

/// Adding directories keeps the tree well formed.
pub proof fn lemma_ensured(m: TreeModel, path: Seq<u8>)
    requires
        m.wf(),
    ensures
        m.ensured(path).0.nodes.len() >= m.nodes.len(),
        m.ensured(path).0.nodes.len() <= m.nodes.len() + comps(path).len(),
        m.ensured(path).0.nodes.len() <= MAX_NODES ==> m.ensured(path).0.wf(),
        m.ensured(path).0.nodes.len() <= MAX_NODES ==> (m.ensured(path).1 matches Some(id) ==> id
            < m.ensured(path).0.nodes.len()),
        m.ensured(path).0.root_path == m.root_path,
        m.ensured(path).0.root == m.root,
        m.ensured(path).0.files == m.files,
    decreases comps(path).len(),
{
    lemma_parent_comps(path);
    if m.dirs.dom().contains(comps(path)) || same_path(path, m.root_path) {
    } else {
        match parent_path(path) {
            None => {},
            Some(q) => {
                lemma_ensured(m, q);
                let (above, at) = m.ensured(q);
                match (at, base_name(path)) {
                    (Some(pid), Some(name)) => {
                        if above.nodes.len() < MAX_NODES {
                            lemma_with_child_wf(
                                above,
                                pid,
                                lossy_text(name),
                                0,
                                StoredModel::Dir,
                                Some(path),
                            );
                        }
                    },
                    _ => {},
                }
            },
        }
    }
}

impl FileTree {
    /// Adds a node under `parent` without changing any size above it.
    pub(crate) fn graft_child(
        &mut self,
        parent: NodeId,
        name: String,
        size: u64,
        kind: StoredKind,
        path: Option<PathBuf>,
    ) -> (id: NodeId)
        requires
            old(self).model().wf(),
            old(self).model().has_room(),
            parent < old(self).model().nodes.len(),
        ensures
            final(self).model() == old(self).model().grafted(parent, name@, size, kind@, path_model(path)),
            final(self).model().wf(),
            id == old(self).model().nodes.len(),
    {
        let ghost m = self.model();
        let ghost target = m.grafted(parent, name@, size, kind@, path_model(path));
        proof {
            lemma_with_child_wf(m, parent, name@, size, kind@, path_model(path));
        }
        let id: NodeId = self.nodes.len() as u32;
        match &path {
            Some(p) => {
                if !kind.is_file() {
                    self.dirs.insert(p, id);
                }
            },
            None => {},
        }
        if kind.is_file() {
            self.files = self.files + 1;
        }
        let node = Node { name, parent: Some(parent), size, kind, children: Vec::new(), alive: true };
        let at: usize = parent as usize;
        self.nodes[at].children.push(id);
        assert(views(self.nodes@) == m.nodes.update(
            parent as int,
            NodeModel {
                children: m.nodes[parent as int].children.push(id),
                ..m.nodes[parent as int]
            },
        ));
        self.nodes.push(node);
        assert(self.model().nodes =~= target.nodes);
        assert(self.model() =~= target);
        id
    }

    /// Adds a node under `parent` and its size to each node above it.
    pub fn add_child(
        &mut self,
        parent: NodeId,
        name: String,
        size: u64,
        kind: StoredKind,
        path: Option<PathBuf>,
    ) -> (id: NodeId)
        requires
            old(self).model().wf(),
            old(self).model().has_room(),
            parent < old(self).model().nodes.len(),
        ensures
            final(self).model() == old(self).model().with_child(parent, name@, size, kind@, path_model(path)),
            final(self).model().wf(),
            id == old(self).model().nodes.len(),
    {
        let id: NodeId = self.graft_child(parent, name, size, kind, path);
        self.add_size(parent, size);
        self.bytes = self.nodes[self.root as usize].size;
        id
    }

    /// The path of a node.
    pub fn path_of(&self, id: NodeId) -> (r: PathBuf)
        requires
            self.model().wf(),
            id < self.model().nodes.len(),
        ensures
            r@ == self.model().path_of(id as int),
        decreases id,
    {
        let node = &self.nodes[id as usize];
        assert(self.model().nodes[id as int] == node@);
        match node.parent {
            Some(p) => {
                let above = self.path_of(p);
                above.join(node.name.as_str())
            },
            None => self.root_path.clone(),
        }
    }

    /// The first living child of `id` with the given name.
    pub(crate) fn child_named(&self, id: NodeId, name: &str) -> (r: Option<NodeId>)
        requires
            self.model().wf(),
            id < self.model().nodes.len(),
        ensures
            r == first_named(self.model().nodes, self.model().nodes[id as int].children, name@),
            r matches Some(c) ==> c < self.model().nodes.len(),
    {
        let kids = &self.nodes[id as usize].children;
        let ghost all = self.model().nodes[id as int].children;
        assert(all == kids@);
        let mut i: usize = 0;
        assert(all.skip(0) == all);
        while i < kids.len()
            invariant
                i <= kids.len(),
                self.model().wf(),
                id < self.model().nodes.len(),
                all == kids@,
                all == self.model().nodes[id as int].children,
                first_named(self.model().nodes, all, name@) == first_named(
                    self.model().nodes,
                    all.skip(i as int),
                    name@,
                ),
            decreases kids.len() - i,
        {
            let c: NodeId = kids[i];
            assert(self.model().nodes[id as int].children[i as int] == c);
            let node = &self.nodes[c as usize];
            assert(self.model().nodes[c as int] == node@);
            assert(all.skip(i as int)[0] == c);
            assert(all.skip(i as int).drop_first() == all.skip(i + 1));
            if node.alive && text_eq(node.name.as_str(), name) {
                return Some(c);
            }
            i = i + 1;
        }
        None
    }

    /// Sets the size of `id`; the difference goes to each node above it.
    pub(crate) fn resize(&mut self, id: NodeId, size: u64)
        requires
            old(self).model().wf(),
            id < old(self).model().nodes.len(),
        ensures
            final(self).model() == old(self).model().resized(id, size),
            final(self).model().wf(),
    {
        let ghost m = self.model();
        let at: usize = id as usize;
        let was: u64 = self.nodes[at].size;
        assert(m.nodes[id as int].size == was);
        if was > size {
            self.sub_size(id, was - size);
        } else if size > was {
            self.add_size(id, size - was);
        }
        let ghost moved = self.model().nodes;
        self.nodes[at].size = size;
        assert(self.model().nodes =~= moved.update(id as int, NodeModel { size, ..moved[id as int] }));
        proof {
            lemma_same_links_ok(moved, self.model().nodes, m.root);
        }
        self.bytes = self.nodes[self.root as usize].size;
        assert(self.model() =~= m.resized(id, size));
    }

    /// Records that the file at `path` has this size.
    pub fn upsert_file(&mut self, path: &PathBuf, size: u64, ext: String)
        requires
            old(self).model().wf(),
            old(self).model().adds_file(path@) ==> old(self).model().has_room(),
        ensures
            final(self).model() == old(self).model().upserted(path@, size, ext@),
            final(self).model().wf(),
    {
        let parent = match path.parent() {
            Some(q) => q,
            None => {
                return ;
            },
        };
        let pid: NodeId = match self.dirs.get(&parent) {
            Some(id) => id,
            None => {
                return ;
            },
        };
        assert(self.model().dirs.dom().contains(comps(parent@)));
        let name = name_text(path);
        match self.child_named(pid, name.as_str()) {
            Some(c) => {
                self.resize(c, size);
            },
            None => {
                self.add_child(pid, name, size, StoredKind::File { ext }, None);
            },
        }
    }

    /// The node of the directory `path`, which is added with the directories
    /// above it where it is missing.
    pub fn ensure_dir_uncapped(&mut self, path: &PathBuf) -> (r: Option<NodeId>)
        requires
            old(self).model().wf(),
            old(self).model().ensured(path@).0.nodes.len() <= MAX_NODES,
        ensures
            final(self).model() == old(self).model().ensured(path@).0,
            r == old(self).model().ensured(path@).1,
            final(self).model().wf(),
            r matches Some(id) ==> id < final(self).model().nodes.len(),
        decreases comps(path@).len(),
    {
        let ghost m = self.model();
        proof {
            lemma_parent_comps(path@);
            lemma_ensured(m, path@);
        }
        if let Some(id) = self.dirs.get(path) {
            return Some(id);
        }
        if path.same_as(&self.root_path) {
            return Some(self.root);
        }
        match path.parent() {
            None => None,
            Some(parent) => {
                proof {
                    lemma_ensured(m, parent@);
                }
                match self.ensure_dir_uncapped(&parent) {
                    None => None,
                    Some(pid) => match path.file_name() {
                        None => None,
                        Some(name) => {
                            let text = utf8_lossy(name.as_slice());
                            let id: NodeId = self.add_child(
                                pid,
                                text,
                                0,
                                StoredKind::Dir,
                                Some(path.clone()),
                            );
                            Some(id)
                        },
                    },
                }
            },
        }
    }

    /// The node of the directory `path`, cut to the stored depth, which is
    /// added where it is missing.
    pub fn ensure_dir(&mut self, path: &PathBuf) -> (r: Option<NodeId>)
        requires
            old(self).model().wf(),
            old(self).model().ensured(
                capped(old(self).model().root_path, path@, STORE_DEPTH as nat),
            ).0.nodes.len() <= MAX_NODES,
        ensures
            final(self).model() == old(self).model().ensured(
                capped(old(self).model().root_path, path@, STORE_DEPTH as nat),
            ).0,
            r == old(self).model().ensured(capped(old(self).model().root_path, path@, STORE_DEPTH as nat)).1,
            final(self).model().wf(),
            r matches Some(id) ==> id < final(self).model().nodes.len(),
    {
        let target = cap_path(&self.root_path, path, STORE_DEPTH);
        self.ensure_dir_uncapped(&target)
    }
}

/// The path that is given, if one is.
pub open spec fn path_model(path: Option<PathBuf>) -> Option<Seq<u8>> {
    match path {
        Some(p) => Some(p@),
        None => None,
    }
}

// ---------------------------------------------------------------------------
// Loading
// ---------------------------------------------------------------------------

/// Whether one of the first `n` nodes, or the first `k` children of the n-th
/// one, has `c` among its children.
spec fn listed_before(nodes: Seq<NodeModel>, n: int, k: int, c: int) -> bool {
    ||| exists|i: int, j: int|
        0 <= i < n && 0 <= j < nodes[i].children.len() && #[trigger] nodes[i].children[j] == c
    ||| exists|j: int| 0 <= j < k && #[trigger] nodes[n].children[j] == c
}

/// Whether the parent links of the first `n` nodes are in order.
spec fn parents_ok(nodes: Seq<NodeModel>, root: NodeId, n: int) -> bool {
    forall|i: int|
        0 <= i < n ==> ((#[trigger] nodes[i]).parent is None <==> i == root) && (nodes[i].parent
            matches Some(p) ==> p < i)
}

/// Whether the child links of the first `n` nodes lead to children.
spec fn children_ok(nodes: Seq<NodeModel>, n: int) -> bool {
    forall|i: int, k: int|
        0 <= i < n && 0 <= k < nodes[i].children.len() ==> i < (#[trigger] nodes[i].children[k])
            < nodes.len() && nodes[nodes[i].children[k] as int].parent == Some(i as u32)
}

/// Whether no child occurs twice among those of the first `n` nodes.
spec fn children_once(nodes: Seq<NodeModel>, n: int) -> bool {
    forall|i: int| 0 <= i < n ==> (#[trigger] nodes[i]).children.no_duplicates()
}

impl FileTree {
    /// A tree of these nodes, without an index. None if the nodes are not
    /// linked to a tree, or there are too many files to count more.
    pub fn from_parts(
        root_path: PathBuf,
        nodes: Vec<Node>,
        root: NodeId,
        files: u64,
        bytes: u64,
        store_depth: u32,
    ) -> (r: Option<FileTree>)
        ensures
            ({
                let m = TreeModel {
                    root_path: root_path@,
                    nodes: views(nodes@),
                    root,
                    files,
                    bytes,
                    store_depth,
                    dirs: Map::empty(),
                };
                match r {
                    Some(t) => t.model() == m && m.wf(),
                    None => !m.wf(),
                }
            }),
    {
        let ghost all = views(nodes@);
        let n: usize = nodes.len();
        if n as u64 > MAX_NODES || root as u64 >= n as u64 || files > u64::MAX - (MAX_NODES
            - n as u64) {
            return None;
        }
        let mut seen: Vec<bool> = Vec::new();
        let mut i: usize = 0;
        while i < n
            invariant
                i <= n,
                n == nodes@.len(),
                root < n <= MAX_NODES,
                all == views(nodes@),
                seen@.len() == i,
                forall|c: int| 0 <= c < i ==> !(#[trigger] seen@[c]),
                parents_ok(all, root, i as int),
            decreases n - i,
        {
            assert(all[i as int] == nodes@[i as int]@);
            match nodes[i].parent {
                None => {
                    if i as u64 != root as u64 {
                        assert(!links_ok(all, root));
                        return None;
                    }
                },
                Some(p) => {
                    if i as u64 == root as u64 || p as u64 >= i as u64 {
                        assert(!links_ok(all, root));
                        return None;
                    }
                },
            }
            seen.push(false);
            i = i + 1;
        }
        let mut i: usize = 0;
        assert forall|c: int| 0 <= c < n implies #[trigger] seen@[c] == listed_before(all, 0, 0, c) by {
        }
        while i < n
            invariant
                i <= n,
                n == nodes@.len(),
                root < n <= MAX_NODES,
                all == views(nodes@),
                seen@.len() == n,
                parents_ok(all, root, n as int),
                children_ok(all, i as int),
                children_once(all, i as int),
                forall|c: int|
                    0 <= c < n ==> #[trigger] seen@[c] == listed_before(all, i as int, 0, c),
            decreases n - i,
        {
            let kids = &nodes[i].children;
            assert(all[i as int] == nodes@[i as int]@);
            let mut k: usize = 0;
            while k < kids.len()
                invariant
                    i < n,
                    k <= kids.len(),
                    n == nodes@.len(),
                    root < n <= MAX_NODES,
                    all == views(nodes@),
                    all[i as int].children == kids@,
                    seen@.len() == n,
                    parents_ok(all, root, n as int),
                    children_ok(all, i as int),
                    children_once(all, i as int),
                    forall|j: int|
                        0 <= j < k ==> i < (#[trigger] kids@[j]) < n
                            && all[kids@[j] as int].parent == Some(i as u32),
                    forall|a: int, b: int| 0 <= a < b < k ==> kids@[a] != kids@[b],
                    forall|c: int|
                        0 <= c < n ==> #[trigger] seen@[c] == listed_before(
                            all,
                            i as int,
                            k as int,
                            c,
                        ),
                decreases kids.len() - k,
            {
                let c: NodeId = kids[k];
                assert(all[i as int].children[k as int] == c);
                if c as u64 <= i as u64 || c as u64 >= n as u64 {
                    assert(!links_ok(all, root));
                    return None;
                }
                assert(all[c as int] == nodes@[c as int]@);
                let back = match nodes[c as usize].parent {
                    Some(p) => p as u64 == i as u64,
                    None => false,
                };
                if !back {
                    assert(!links_ok(all, root));
                    return None;
                }
                if seen[c as usize] {
                    proof {
                        lemma_listed_twice(all, root, i as int, k as int);
                    }
                    return None;
                }
                assert forall|a: int| 0 <= a < k implies kids@[a] != c by {
                    if kids@[a] == c {
                        assert(all[i as int].children[a] == c as int);
                        assert(listed_before(all, i as int, k as int, c as int));
                    }
                }
                let ghost before = seen@;
                seen.set(c as usize, true);
                assert forall|x: int| 0 <= x < n implies #[trigger] seen@[x] == listed_before(
                    all,
                    i as int,
                    k + 1,
                    x,
                ) by {
                    assert(before[x] == listed_before(all, i as int, k as int, x));
                    if x == c {
                        assert(all[i as int].children[k as int] == x);
                    }
                    if listed_before(all, i as int, k as int, x) {
                        if !(exists|a: int, b: int|
                            0 <= a < i && 0 <= b < all[a].children.len()
                                && #[trigger] all[a].children[b] == x) {
                            let j = choose|j: int|
                                0 <= j < k && #[trigger] all[i as int].children[j] == x;
                            assert(0 <= j < k + 1 && all[i as int].children[j] == x);
                        }
                    }
                }
                k = k + 1;
            }
            assert(all[i as int].children.no_duplicates());
            assert forall|c: int| 0 <= c < n implies #[trigger] seen@[c] == listed_before(
                all,
                i + 1,
                0,
                c,
            ) by {
                assert(seen@[c] == listed_before(all, i as int, kids@.len() as int, c));
                if listed_before(all, i + 1, 0, c) {
                    let (a, b) = choose|a: int, b: int|
                        0 <= a < i + 1 && 0 <= b < all[a].children.len()
                            && #[trigger] all[a].children[b] == c;
                    if a == i {
                        assert(all[i as int].children[b] == c);
                    } else {
                        assert(0 <= a < i && all[a].children[b] == c);
                    }
                }
                if listed_before(all, i as int, kids@.len() as int, c) {
                    if exists|a: int, b: int|
                        0 <= a < i && 0 <= b < all[a].children.len()
                            && #[trigger] all[a].children[b] == c {
                        let (a, b) = choose|a: int, b: int|
                            0 <= a < i && 0 <= b < all[a].children.len()
                                && #[trigger] all[a].children[b] == c;
                        assert(0 <= a < i + 1 && all[a].children[b] == c);
                    } else {
                        let j = choose|j: int|
                            0 <= j < kids@.len() && #[trigger] all[i as int].children[j] == c;
                        assert(all[i as int].children[j] == c);
                    }
                }
            }
            i = i + 1;
        }
        assert(links_ok(all, root));
        let dirs: PathIndex<NodeId> = PathIndex::new();
        Some(FileTree { root_path, nodes, root, files, bytes, store_depth, dirs })
    }
}

/// A child that was listed before is listed twice by its parent.
proof fn lemma_listed_twice(nodes: Seq<NodeModel>, root: NodeId, i: int, k: int)
    requires
        0 <= i < nodes.len() <= MAX_NODES,
        0 <= k < nodes[i].children.len(),
        children_ok(nodes, i),
        nodes[nodes[i].children[k] as int].parent == Some(i as u32),
        listed_before(nodes, i, k, nodes[i].children[k] as int),
    ensures
        !links_ok(nodes, root),
{
    let c = nodes[i].children[k];
    if exists|a: int, b: int|
        0 <= a < i && 0 <= b < nodes[a].children.len() && #[trigger] nodes[a].children[b] == c as int {
        let (a, b) = choose|a: int, b: int|
            0 <= a < i && 0 <= b < nodes[a].children.len() && #[trigger] nodes[a].children[b]
                == c as int;
        assert(nodes[c as int].parent == Some(a as u32));
    } else {
        let j = choose|j: int| 0 <= j < k && #[trigger] nodes[i].children[j] == c as int;
        assert(nodes[i].children[j] == nodes[i].children[k]);
        assert(!nodes[i].children.no_duplicates());
    }
}

} // verus!
