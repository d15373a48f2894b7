//! What the map shows of a tree.

use crate::path::{comps, joined, lossy_text, under, PathBuf};
use crate::snapshot::{leaf_view, lemma_view_children, Kind, KindModel, ViewModel, ViewNode};
use crate::sort::{ordered, sort, views, Ranked};
use crate::text::{trim, trimmed};
use crate::tree::{sat_add, sat_sub, FileTree, NodeId, StoredKind, StoredModel, TreeModel};
use vstd::prelude::*;
use vstd::string::*;
use vstd::utf8::*;

verus! {

/// The least size at which a nested mount is drawn.
pub const PORTAL_FLOOR: u64 = 4 * 1024 * 1024;

/// The least size of what is shown inside a child.
pub const CHILD_FLOOR: u64 = 16 * 1024;

/// What is not shown of a directory is lumped together above this size.
pub const REST_FLOOR: u64 = 64 * 1024;

/// A living child with what decides its place on the map.
#[derive(Clone, Copy)]
pub struct Kid {
    pub size: u64,
    pub id: NodeId,
    /// Whether it is a nested mount.
    pub portal: bool,
    /// Whether an opened path leads through it.
    pub needed: bool,
}

impl Kid {
    /// Whether it is shown whatever its size.
    pub open spec fn marked(self) -> bool {
        self.portal || self.needed
    }
}

impl View for Kid {
    type V = Kid;

    open spec fn view(&self) -> Kid {
        *self
    }
}

/// Marked children come first, then the larger ones.
impl Ranked for Kid {
    open spec fn before(a: Kid, b: Kid) -> bool {
        if a.marked() == b.marked() {
            a.size >= b.size
        } else {
            a.marked()
        }
    }

    proof fn before_total(a: Kid, b: Kid) {
    }

    proof fn before_transitive(a: Kid, b: Kid, c: Kid) {
    }

    fn is_before(&self, other: &Kid) -> (r: bool) {
        let a = self.portal || self.needed;
        let b = other.portal || other.needed;
        if a == b {
            self.size >= other.size
        } else {
            a
        }
    }
}

/// Whether one of the opened paths is `path` or lies below it.
pub open spec fn leads_through(open: Seq<Seq<u8>>, path: Seq<u8>) -> bool {
    exists|k: int| 0 <= k < open.len() && under(#[trigger] open[k], path)
}

/// The larger of two sizes.
pub open spec fn larger(a: u64, b: u64) -> u64 {
    if a >= b {
        a
    } else {
        b
    }
}

/// The size at which a nested mount is drawn: what the volume uses, but at
/// least a fortieth of the tree (and 4 MiB, and `min_size`), and at most an
/// eighth of the tree unless that is less.
pub open spec fn portal_size(bytes: u64, volume_used: u64, min_size: u64) -> u64 {
    let tree = larger(bytes, 1);
    let floor = larger(larger(min_size, tree / 40), PORTAL_FLOOR);
    let cap = larger(tree / 8, floor);
    let used = if volume_used <= cap {
        volume_used
    } else {
        cap
    };
    larger(used, floor)
}

/// The least size of what is shown inside a child of size `size`.
pub open spec fn child_floor(size: u64, min_size: u64) -> u64 {
    larger(larger(size / 100, min_size / 4), CHILD_FLOOR)
}

/// The children that are shown so far, the bytes that they stand for, and the
/// sum of the sizes at which they are drawn.
#[verifier::ext_equal]
pub struct Tally {
    pub children: Seq<ViewModel>,
    pub shown: u64,
    pub layout: u64,
}

impl Tally {
    /// Nothing shown yet.
    pub open spec fn none() -> Tally {
        Tally { children: Seq::empty(), shown: 0, layout: 0 }
    }

    /// One more child; a nested mount stands for no bytes of this tree.
    pub open spec fn with(self, child: ViewModel, kid: Kid) -> Tally {
        Tally {
            children: self.children.push(child),
            shown: if kid.portal {
                self.shown
            } else {
                sat_add(self.shown, kid.size)
            },
            layout: sat_add(self.layout, child.size),
        }
    }
}

impl TreeModel {
    /// The living ones of the first `k` children of `id`.
    pub open spec fn living_kids(self, id: int, open: Seq<Seq<u8>>, k: nat) -> Seq<Kid>
        decreases k,
    {
        if k == 0 {
            Seq::empty()
        } else {
            let before = self.living_kids(id, open, (k - 1) as nat);
            let c = self.nodes[id].children[k - 1];
            let n = self.nodes[c as int];
            if n.alive {
                before.push(
                    Kid {
                        size: n.size,
                        id: c,
                        portal: n.kind is MountPoint,
                        needed: leads_through(open, self.path_of(c as int)),
                    },
                )
            } else {
                before
            }
        }
    }

    /// The living children of `id` in the order in which they are shown.
    pub open spec fn kids(self, id: int, open: Seq<Seq<u8>>) -> Seq<Kid> {
        ordered::<Kid>(self.living_kids(id, open, self.nodes[id].children.len()))
    }

    /// What is shown of the children from the `i`-th on, added to `tally`:
    /// all that are marked; of the others those of at least `min_size`, or any
    /// while fewer than 8 are shown, until 80 are shown.
    pub open spec fn listed(
        self,
        id: int,
        kids: Seq<Kid>,
        i: int,
        tally: Tally,
        min_size: u64,
        depth: nat,
        max_depth: nat,
        open: Seq<Seq<u8>>,
    ) -> Tally
        decreases self.nodes.len() - id, 0nat, kids.len() - i,
    {
        if i >= kids.len() || i < 0 {
            tally
        } else {
            let kid = kids[i];
            if !kid.marked() && tally.children.len() >= 80 {
                tally
            } else if !kid.marked() && kid.size < min_size && tally.children.len() >= 8 {
                self.listed(id, kids, i + 1, tally, min_size, depth, max_depth, open)
            } else if id < kid.id < self.nodes.len() {
                let child = self.view_of(
                    kid.id as int,
                    child_floor(kid.size, min_size),
                    depth + 1,
                    max_depth,
                    open,
                );
                self.listed(
                    id,
                    kids,
                    i + 1,
                    tally.with(child, kid),
                    min_size,
                    depth,
                    max_depth,
                    open,
                )
            } else {
                tally
            }
        }
    }

    /// What is shown of the node `id`. Files and nested mounts are leaves. A
    /// directory shows its children down to `max_depth`, and below that where
    /// an opened path leads; what is not shown of its bytes is lumped into
    /// one more child if it is more than 64 KiB and half of `min_size`.
    pub open spec fn view_of(
        self,
        id: int,
        min_size: u64,
        depth: nat,
        max_depth: nat,
        open: Seq<Seq<u8>>,
    ) -> ViewModel
        decreases self.nodes.len() - id, 1nat, 0int,
    {
        let node = self.nodes[id];
        let path = self.path_of(id);
        match node.kind {
            StoredModel::MountPoint { disk, partition, mount, model, volume_used } => leaf_view(
                lossy_text(path),
                "→ "@ + if trimmed(model).len() > 0 {
                    model
                } else {
                    disk
                },
                portal_size(self.bytes, volume_used, min_size),
                KindModel::MountPoint { disk, partition, mount, model },
            ),
            StoredModel::File { ext } => leaf_view(
                lossy_text(path),
                node.name,
                node.size,
                KindModel::File { ext },
            ),
            StoredModel::Dir => {
                let kids = self.kids(id, open);
                if kids.len() > 0 && (depth < max_depth || leads_through(open, path)) {
                    let tally = self.listed(
                        id,
                        kids,
                        0,
                        Tally::none(),
                        min_size,
                        depth,
                        max_depth,
                        open,
                    );
                    let all = with_rest(tally, node.size, min_size, path);
                    ViewModel {
                        path: lossy_text(path),
                        name: node.name,
                        size: larger(node.size, all.layout),
                        kind: KindModel::Directory,
                        children: all.children,
                    }
                } else {
                    leaf_view(lossy_text(path), node.name, node.size, KindModel::Directory)
                }
            },
        }
    }

    /// What is shown of the directory `at`, or of the root if no directory is
    /// filed under that path: one layer, and more where an opened path leads.
    pub open spec fn layer(
        self,
        at: Option<Seq<u8>>,
        open: Seq<Seq<u8>>,
        min_size: u64,
    ) -> ViewModel {
        let id = match at {
            Some(p) => if self.dirs.dom().contains(comps(p)) {
                self.dirs[comps(p)]
            } else {
                self.root
            },
            None => self.root,
        };
        self.view_of(id as int, min_size, 0, 1, open)
    }
}

/// The tally with the bytes that are not shown lumped into one more child.
pub open spec fn with_rest(tally: Tally, size: u64, min_size: u64, path: Seq<u8>) -> Tally {
    let rest = sat_sub(size, tally.shown as int);
    if rest > min_size / 2 && rest > REST_FLOOR {
        Tally {
            children: tally.children.push(
                leaf_view(
                    lossy_text(joined(path, encode_utf8("other"@))),
                    "other"@,
                    rest,
                    KindModel::Other,
                ),
            ),
            layout: sat_add(tally.layout, rest),
            ..tally
        }
    } else {
        tally
    }
}

/// The larger of two sizes.
pub(crate) fn larger_of(a: u64, b: u64) -> (r: u64)
    ensures
        r == larger(a, b),
{
    if a >= b {
        a
    } else {
        b
    }
}

/// Whether one of the opened paths is `path` or lies below it.
fn is_open(open: &[PathBuf], path: &PathBuf) -> (r: bool)
    ensures
        r == leads_through(views(open@), path@),
{
    let mut k: usize = 0;
    while k < open.len()
        invariant
            k <= open.len(),
            forall|j: int| 0 <= j < k ==> !under(#[trigger] views(open@)[j], path@),
        decreases open.len() - k,
    {
        assert(views(open@)[k as int] == open@[k as int]@);
        if open[k].starts_with(path) {
            return true;
        }
        k = k + 1;
    }
    false
}

impl FileTree {
    /// The size at which a nested mount is drawn.
    fn portal_display_size(&self, volume_used: u64, min_size: u64) -> (r: u64)
        ensures
            r == portal_size(self.model().bytes, volume_used, min_size),
    {
        let tree: u64 = larger_of(self.bytes, 1);
        let floor: u64 = larger_of(larger_of(min_size, tree / 40), PORTAL_FLOOR);
        let cap: u64 = larger_of(tree / 8, floor);
        let used: u64 = if volume_used <= cap {
            volume_used
        } else {
            cap
        };
        larger_of(used, floor)
    }

    /// The living children of `id` in the order in which they are shown.
    fn sorted_kids(&self, id: NodeId, open: &[PathBuf]) -> (r: Vec<Kid>)
        requires
            self.model().wf(),
            id < self.model().nodes.len(),
        ensures
            r@ == self.model().kids(id as int, views(open@)),
            forall|k: int| 0 <= k < r@.len() ==> id < (#[trigger] r@[k]).id < self.model().nodes.len(),
    {
        let ghost m = self.model();
        let node = &self.nodes[id as usize];
        assert(m.nodes[id as int] == node@);
        let mut kids: Vec<Kid> = Vec::new();
        let mut k: usize = 0;
        while k < node.children.len()
            invariant
                k <= node.children.len(),
                m == self.model(),
                m.wf(),
                id < m.nodes.len(),
                m.nodes[id as int] == node@,
                kids@ == m.living_kids(id as int, views(open@), k as nat),
                forall|j: int| 0 <= j < kids@.len() ==> id < (#[trigger] kids@[j]).id < m.nodes.len(),
            decreases node.children.len() - k,
        {
            let c: NodeId = node.children[k];
            assert(c == m.nodes[id as int].children[k as int]);
            let n = &self.nodes[c as usize];
            assert(m.nodes[c as int] == n@);
            if n.alive {
                let path = self.path_of(c);
                kids.push(
                    Kid {
                        size: n.size,
                        id: c,
                        portal: n.kind.is_portal(),
                        needed: is_open(open, &path),
                    },
                );
            }
            k = k + 1;
        }
        let ghost before = kids@;
        sort(&mut kids);
        proof {
            assert(views(before) =~= before);
            assert(views(kids@) =~= kids@);
            assert forall|j: int| 0 <= j < kids@.len() implies id < (#[trigger] kids@[j]).id
                < m.nodes.len() by {
                lemma_ordered_member::<Kid>(before, kids@[j]);
                let i = choose|i: int| 0 <= i < before.len() && before[i] == kids@[j];
                assert(before[i] == kids@[j]);
            }
        }
        kids
    }

    /// What is shown of the node `id`.
    fn view_node(
        &self,
        id: NodeId,
        min_size: u64,
        depth: u32,
        max_depth: u32,
        open: &[PathBuf],
    ) -> (r: ViewNode)
        requires
            self.model().wf(),
            id < self.model().nodes.len(),
            depth <= id,
        ensures
            r@ == self.model().view_of(
                id as int,
                min_size,
                depth as nat,
                max_depth as nat,
                views(open@),
            ),
        decreases self.model().nodes.len() - id,
    {
        let ghost m = self.model();
        let ghost ways = views(open@);
        let node = &self.nodes[id as usize];
        assert(m.nodes[id as int] == node@);
        let path = self.path_of(id);
        match &node.kind {
            StoredKind::MountPoint { disk, partition, mount, model, volume_used } => {
                let mut label = "→ ".to_string();
                let bare = trim(model.as_str());
                if bare.as_str().unicode_len() > 0 {
                    label.append(model.as_str());
                } else {
                    label.append(disk.as_str());
                }
                let size: u64 = self.portal_display_size(*volume_used, min_size);
                let kind = Kind::MountPoint {
                    disk: disk.clone(),
                    partition: partition.clone(),
                    mount: mount.clone(),
                    model: model.clone(),
                };
                return ViewNode::leaf(path.to_string_lossy(), label, size, kind);
            },
            StoredKind::Dir => {},
            StoredKind::File { ext } => {
                return ViewNode::leaf(
                    path.to_string_lossy(),
                    node.name.clone(),
                    node.size,
                    Kind::File { ext: ext.clone() },
                );
            },
        }
        let kids = self.sorted_kids(id, open);
        if kids.len() == 0 || !(depth < max_depth || is_open(open, &path)) {
            return ViewNode::leaf(
                path.to_string_lossy(),
                node.name.clone(),
                node.size,
                Kind::Directory,
            );
        }
        let mut children: Vec<ViewNode> = Vec::new();
        let mut shown: u64 = 0;
        let mut layout_sum: u64 = 0;
        let ghost whole = m.listed(
            id as int,
            kids@,
            0,
            Tally::none(),
            min_size,
            depth as nat,
            max_depth as nat,
            ways,
        );
        let ghost mut tally = Tally::none();
        assert(views(children@) =~= Seq::<ViewModel>::empty());
        let mut i: usize = 0;
        while i < kids.len()
            invariant_except_break
                whole == m.listed(
                    id as int,
                    kids@,
                    i as int,
                    tally,
                    min_size,
                    depth as nat,
                    max_depth as nat,
                    ways,
                ),
            invariant
                i <= kids.len(),
                m == self.model(),
                m.wf(),
                id < m.nodes.len(),
                depth <= id,
                ways == views(open@),
                forall|k: int| 0 <= k < kids@.len() ==> id < (#[trigger] kids@[k]).id < m.nodes.len(),
                tally.children == views(children@),
                tally.shown == shown,
                tally.layout == layout_sum,
            ensures
                whole == tally,
            decreases kids.len() - i,
        {
            let kid: Kid = kids[i];
            let marked = kid.portal || kid.needed;
            if !marked && children.len() >= 80 {
                break;
            }
            if !marked && kid.size < min_size && children.len() >= 8 {
                i = i + 1;
                continue;
            }
            let floor: u64 = larger_of(larger_of(kid.size / 100, min_size / 4), CHILD_FLOOR);
            let child = self.view_node(kid.id, floor, depth + 1, max_depth, open);
            let ghost model = child@;
            layout_sum = layout_sum.saturating_add(child.size);
            if !kid.portal {
                shown = shown.saturating_add(kid.size);
            }
            let ghost before = views(children@);
            children.push(child);
            proof {
                assert(views(children@) =~= before.push(model));
                tally = tally.with(model, kid);
            }
            i = i + 1;
        }
        let rest: u64 = node.size.saturating_sub(shown);
        if rest > min_size / 2 && rest > REST_FLOOR {
            let other = path.join("other");
            let lump = ViewNode::leaf(
                other.to_string_lossy(),
                "other".to_string(),
                rest,
                Kind::Other,
            );
            let ghost model = lump@;
            let ghost before = views(children@);
            children.push(lump);
            assert(views(children@) =~= before.push(model));
            layout_sum = layout_sum.saturating_add(rest);
        }
        let r = ViewNode {
            path: path.to_string_lossy(),
            name: node.name.clone(),
            size: larger_of(node.size, layout_sum),
            kind: Kind::Directory,
            children,
        };
        proof {
            lemma_view_children(r);
            assert(r@.children == with_rest(whole, node.size, min_size, path@).children);
        }
        r
    }

    /// What is shown of the directory `at`, or of the root.
    pub fn view_layer(&self, at: Option<&PathBuf>, open: &[PathBuf], min_size: u64) -> (r: ViewNode)
        requires
            self.model().wf(),
        ensures
            r@ == self.model().layer(
                match at {
                    Some(p) => Some(p@),
                    None => None,
                },
                views(open@),
                min_size,
            ),
    {
        let id: NodeId = match at {
            Some(p) => match self.dirs.get(p) {
                Some(id) => {
                    assert(self.model().dirs.dom().contains(comps(p@)));
                    id
                },
                None => self.root,
            },
            None => self.root,
        };
        self.view_node(id, min_size, 0, 1, open)
    }

    /// What is shown of the root.
    pub fn view(&self, min_size: u64) -> (r: ViewNode)
        requires
            self.model().wf(),
        ensures
            r@ == self.model().layer(None, Seq::empty(), min_size),
    {
        let open: [PathBuf; 0] = [];
        let r = self.view_layer(None, &open, min_size);
        assert(views(open@) =~= Seq::<Seq<u8>>::empty());
        r
    }
}

/// What is in a sorted list was in the list.
pub proof fn lemma_ordered_member<T: Ranked>(s: Seq<T::V>, x: T::V)
    requires
        ordered::<T>(s).contains(x),
    ensures
        s.contains(x),
{
    broadcast use vstd::seq_lib::group_to_multiset_ensures;

    crate::sort::law_ordered_same_values::<T>(s);
    assert(ordered::<T>(s).to_multiset().contains(x));
    assert(s.to_multiset().contains(x));
}

} // verus!
