//! Removing nodes from a tree.

use crate::path::{comps, parent_path, PathBuf};
use crate::tree::{
    base_text, first_named, lemma_first_named, lemma_path_of_same, lemma_same_links_ok, links_ok,
    name_text, sat_sub, shrunk, FileTree, NodeId, NodeModel, TreeModel,
};
use vstd::prelude::*;

verus! {

/// Whether `i` is `top` or is reached from it by child links.
pub open spec fn below(nodes: Seq<NodeModel>, top: int, i: int) -> bool
    decreases i,
{
    i == top || match nodes[i].parent {
        Some(p) => 0 <= p < i && nodes[p as int].children.contains(i as u32) && below(
            nodes,
            top,
            p as int,
        ),
        None => false,
    }
}

/// The nodes that are reached from `top`.
pub open spec fn subtree(nodes: Seq<NodeModel>, top: int) -> Set<int> {
    Set::new(|i: int| 0 <= i < nodes.len() && below(nodes, top, i))
}

/// A node that is no longer there: not alive, without size and children.
pub open spec fn dead(node: NodeModel) -> NodeModel {
    NodeModel { alive: false, children: Seq::empty(), size: 0, ..node }
}

/// The nodes with those of `gone` dead.
pub open spec fn wiped_nodes(nodes: Seq<NodeModel>, gone: Set<int>) -> Seq<NodeModel> {
    Seq::new(
        nodes.len(),
        |i: int|
            if gone.contains(i) {
                dead(nodes[i])
            } else {
                nodes[i]
            },
    )
}

/// Whether a node is a living file.
pub open spec fn live_file(node: NodeModel) -> bool {
    node.alive && node.kind is File
}

/// How many of the first `n` nodes are living files of `set`.
pub open spec fn count_files(nodes: Seq<NodeModel>, set: Set<int>, n: nat) -> nat
    decreases n,
{
    if n == 0 {
        0
    } else {
        count_files(nodes, set, (n - 1) as nat) + if set.contains(n - 1) && live_file(
            nodes[n - 1],
        ) {
            1nat
        } else {
            0
        }
    }
}

/// `s` without the occurrences of `x`.
pub open spec fn without(s: Seq<NodeId>, x: NodeId) -> Seq<NodeId>
    decreases s.len(),
{
    if s.len() == 0 {
        Seq::empty()
    } else if s.last() == x {
        without(s.drop_last(), x)
    } else {
        without(s.drop_last(), x).push(s.last())
    }
}

impl TreeModel {
    /// The keys under which the paths of these nodes are filed.
    pub open spec fn keys_of(self, set: Set<int>) -> Set<Seq<Seq<u8>>> {
        Set::new(|k: Seq<Seq<u8>>| exists|i: int| #[trigger] set.contains(i) && k == comps(self.path_of(i)))
    }

    /// The tree with the nodes of `gone` dead, their living files no longer
    /// counted and their paths no longer filed.
    pub open spec fn wiped(self, gone: Set<int>) -> TreeModel {
        TreeModel {
            nodes: wiped_nodes(self.nodes, gone),
            files: sat_sub(self.files, count_files(self.nodes, gone, self.nodes.len()) as int),
            dirs: self.dirs.remove_keys(self.keys_of(gone)),
            ..self
        }
    }

    /// The tree without `id` and all below it; its size leaves each node
    /// above. The root stays.
    pub open spec fn killed(self, id: NodeId) -> TreeModel {
        match self.nodes[id as int].parent {
            None => self,
            Some(p) => {
                let w = self.wiped(subtree(self.nodes, id as int));
                let cut = w.nodes.update(
                    p as int,
                    NodeModel {
                        children: without(w.nodes[p as int].children, id),
                        ..w.nodes[p as int]
                    },
                );
                let nodes = shrunk(cut, p as int, self.nodes[id as int].size);
                TreeModel { nodes, bytes: nodes[self.root as int].size, ..w }
            },
        }
    }

    /// The node that stands for `path`: the one filed under it, else the
    /// first living child of that name in the directory filed under its
    /// parent.
    pub open spec fn node_at(self, path: Seq<u8>) -> Option<NodeId> {
        if self.dirs.dom().contains(comps(path)) {
            Some(self.dirs[comps(path)])
        } else {
            match parent_path(path) {
                Some(q) => if self.dirs.dom().contains(comps(q)) {
                    first_named(
                        self.nodes,
                        self.nodes[self.dirs[comps(q)] as int].children,
                        base_text(path),
                    )
                } else {
                    None
                },
                None => None,
            }
        }
    }

    /// The tree without the node that stands for `path`.
    pub open spec fn removed(self, path: Seq<u8>) -> TreeModel {
        match self.node_at(path) {
            Some(id) => self.killed(id),
            None => self,
        }
    }
}

/// A node below another comes no earlier.
pub proof fn lemma_below_after(nodes: Seq<NodeModel>, top: int, i: int)
    requires
        below(nodes, top, i),
    ensures
        top <= i,
    decreases i,
{
    if i != top {
        lemma_below_after(nodes, top, nodes[i].parent.unwrap() as int);
    }
}

/// Being below is transitive.
pub proof fn lemma_below_trans(nodes: Seq<NodeModel>, a: int, b: int, i: int)
    requires
        below(nodes, a, b),
        below(nodes, b, i),
    ensures
        below(nodes, a, i),
    decreases i,
{
    if i != b {
        lemma_below_trans(nodes, a, b, nodes[i].parent.unwrap() as int);
    }
}

/// Of two nodes above a third, the later one is below the earlier.
pub proof fn lemma_below_linear(nodes: Seq<NodeModel>, a: int, b: int, i: int)
    requires
        below(nodes, a, i),
        below(nodes, b, i),
        a <= b,
    ensures
        below(nodes, a, b),
    decreases i,
{
    if i != b {
        let p = nodes[i].parent.unwrap() as int;
        lemma_below_after(nodes, b, p);
        lemma_below_linear(nodes, a, b, p);
    }
}

/// What is below two children of one node is in no common subtree.
proof fn lemma_siblings_apart(nodes: Seq<NodeModel>, root: NodeId, id: int, j: int, k: int, i: int)
    requires
        links_ok(nodes, root),
        0 <= id < nodes.len(),
        0 <= j < k < nodes[id].children.len(),
    ensures
        !(below(nodes, nodes[id].children[j] as int, i) && below(
            nodes,
            nodes[id].children[k] as int,
            i,
        )),
{
    let a = nodes[id].children[j];
    let b = nodes[id].children[k];
    assert(a != b);
    if below(nodes, a as int, i) && below(nodes, b as int, i) {
        if a < b {
            lemma_below_linear(nodes, a as int, b as int, i);
            assert(nodes[b as int].parent == Some(id as u32));
            lemma_below_after(nodes, a as int, id);
        } else {
            lemma_below_linear(nodes, b as int, a as int, i);
            assert(nodes[a as int].parent == Some(id as u32));
            lemma_below_after(nodes, b as int, id);
        }
    }
}

/// What is below a node but is not the node is below one of its children.
pub proof fn lemma_below_child(nodes: Seq<NodeModel>, root: NodeId, id: int, i: int) -> (k: int)
    requires
        links_ok(nodes, root),
        0 <= id < nodes.len(),
        0 <= i < nodes.len(),
        below(nodes, id, i),
        i != id,
    ensures
        0 <= k < nodes[id].children.len(),
        below(nodes, nodes[id].children[k] as int, i),
    decreases i,
{
    let p = nodes[i].parent.unwrap() as int;
    if p == id {
        let k = choose|k: int|
            0 <= k < nodes[id].children.len() && nodes[id].children[k] == i as u32;
        k
    } else {
        lemma_below_child(nodes, root, id, p)
    }
}

/// A child is below its parent.
pub proof fn lemma_child_below(nodes: Seq<NodeModel>, root: NodeId, id: int, k: int)
    requires
        links_ok(nodes, root),
        0 <= id < nodes.len(),
        0 <= k < nodes[id].children.len(),
    ensures
        below(nodes, id, nodes[id].children[k] as int),
        id < nodes[id].children[k] < nodes.len(),
{
    let c = nodes[id].children[k] as int;
    assert(nodes[id].children.contains(c as u32));
    assert(nodes[c].parent == Some(id as u32));
    assert(below(nodes, id, id));
}

/// Nodes that die elsewhere do not change a subtree.
proof fn lemma_below_wiped(nodes: Seq<NodeModel>, gone: Set<int>, top: int, i: int)
    requires
        0 <= i < nodes.len(),
        forall|x: int| #[trigger] gone.contains(x) ==> !(0 <= x < nodes.len() && below(nodes, top, x)),
        forall|x: int|
            0 <= x < nodes.len() ==> ((#[trigger] nodes[x]).parent matches Some(p) ==> p < x),
    ensures
        below(wiped_nodes(nodes, gone), top, i) == below(nodes, top, i),
    decreases i,
{
    let w = wiped_nodes(nodes, gone);
    assert(w[i].parent == nodes[i].parent);
    if i != top {
        match nodes[i].parent {
            Some(p) => {
                lemma_below_wiped(nodes, gone, top, p as int);
                if below(nodes, top, p as int) {
                    assert(!gone.contains(p as int));
                }
            },
            None => {},
        }
    }
}

proof fn lemma_count_union(nodes: Seq<NodeModel>, a: Set<int>, b: Set<int>, n: nat)
    requires
        n <= nodes.len(),
        forall|x: int| !(#[trigger] a.contains(x) && b.contains(x)),
    ensures
        count_files(nodes, a.union(b), n) == count_files(nodes, a, n) + count_files(
            wiped_nodes(nodes, a),
            b,
            n,
        ),
    decreases n,
{
    if n > 0 {
        lemma_count_union(nodes, a, b, (n - 1) as nat);
        assert(!(a.contains(n - 1) && b.contains(n - 1)));
    }
}

/// Wiping one set and then another wipes both.
pub proof fn lemma_wiped_twice(m: TreeModel, a: Set<int>, b: Set<int>)
    requires
        m.wf(),
        forall|x: int| !(#[trigger] a.contains(x) && b.contains(x)),
        forall|x: int| #[trigger] a.contains(x) ==> 0 <= x < m.nodes.len(),
        forall|x: int| #[trigger] b.contains(x) ==> 0 <= x < m.nodes.len(),
    ensures
        m.wiped(a).wiped(b) == m.wiped(a.union(b)),
{
    let one = m.wiped(a);
    let two = one.wiped(b);
    let both = m.wiped(a.union(b));
    lemma_count_union(m.nodes, a, b, m.nodes.len());
    assert(two.nodes =~= both.nodes);
    assert forall|k: Seq<Seq<u8>>|
        m.keys_of(a.union(b)).contains(k) <==> #[trigger] m.keys_of(a).contains(k)
            || one.keys_of(b).contains(k) by {
        if m.keys_of(a.union(b)).contains(k) {
            let i = choose|i: int| #[trigger] a.union(b).contains(i) && k == comps(m.path_of(i));
            if a.contains(i) {
                assert(m.keys_of(a).contains(k));
            } else {
                assert(b.contains(i));
                lemma_path_of_same(m, one, i);
                assert(one.keys_of(b).contains(k));
            }
        }
        if m.keys_of(a).contains(k) {
            let i = choose|i: int| #[trigger] a.contains(i) && k == comps(m.path_of(i));
            assert(a.union(b).contains(i));
        }
        if one.keys_of(b).contains(k) {
            let i = choose|i: int| #[trigger] b.contains(i) && k == comps(one.path_of(i));
            lemma_path_of_same(m, one, i);
            assert(a.union(b).contains(i));
        }
    }
    assert(two.dirs =~= both.dirs);
}

/// The tree stays well formed where nodes die.
pub proof fn lemma_wiped_wf(m: TreeModel, gone: Set<int>)
    requires
        m.wf(),
    ensures
        m.wiped(gone).wf(),
{
    let w = m.wiped(gone);
    assert forall|i: int, k: int|
        0 <= i < w.nodes.len() && 0 <= k < w.nodes[i].children.len() implies i < (
    #[trigger] w.nodes[i].children[k]) < w.nodes.len() && w.nodes[w.nodes[i].children[k] as int].parent
        == Some(i as u32) by {
        assert(m.nodes[i].children[k] == w.nodes[i].children[k]);
    }
    assert forall|i: int| 0 <= i < w.nodes.len() implies ((#[trigger] w.nodes[i]).parent is None <==> i
        == w.root) && (w.nodes[i].parent matches Some(p) ==> p < i)
        && w.nodes[i].children.no_duplicates() by {
        assert(m.nodes[i].parent == w.nodes[i].parent);
    }
    assert forall|k: Seq<Seq<u8>>| #[trigger] w.dirs.dom().contains(k) implies w.dirs[k]
        < w.nodes.len() by {
        assert(m.dirs.dom().contains(k));
    }
}

/// The nodes below the first `j` children of `id`.
pub open spec fn under_children(nodes: Seq<NodeModel>, id: int, j: int) -> Set<int> {
    Set::new(
        |i: int|
            0 <= i < nodes.len() && exists|k: int|
                0 <= k < j && below(nodes, #[trigger] nodes[id].children[k] as int, i),
    )
}

pub proof fn lemma_under_children_step(nodes: Seq<NodeModel>, root: NodeId, id: int, j: int)
    requires
        links_ok(nodes, root),
        0 <= id < nodes.len(),
        0 <= j < nodes[id].children.len(),
    ensures
        under_children(nodes, id, j + 1) == under_children(nodes, id, j).union(
            subtree(nodes, nodes[id].children[j] as int),
        ),
        forall|x: int|
            !(#[trigger] under_children(nodes, id, j).contains(x) && subtree(
                nodes,
                nodes[id].children[j] as int,
            ).contains(x)),
{
    let c = nodes[id].children[j] as int;
    let a = under_children(nodes, id, j);
    assert forall|x: int| !(#[trigger] a.contains(x) && subtree(nodes, c).contains(x)) by {
        if a.contains(x) && subtree(nodes, c).contains(x) {
            let k = choose|k: int|
                0 <= k < j && below(nodes, #[trigger] nodes[id].children[k] as int, x);
            lemma_siblings_apart(nodes, root, id, k, j, x);
        }
    }
    assert forall|x: int|
        under_children(nodes, id, j + 1).contains(x) <==> a.union(subtree(nodes, c)).contains(x) by {
        if a.union(subtree(nodes, c)).contains(x) {
            if a.contains(x) {
                let k = choose|k: int|
                    0 <= k < j && below(nodes, #[trigger] nodes[id].children[k] as int, x);
                assert(0 <= k < j + 1 && below(nodes, nodes[id].children[k] as int, x));
            } else {
                assert(0 <= j < j + 1 && below(nodes, nodes[id].children[j] as int, x));
            }
        }
    }
    assert(under_children(nodes, id, j + 1) =~= a.union(subtree(nodes, c)));
}

pub proof fn lemma_under_all_children(nodes: Seq<NodeModel>, root: NodeId, id: int)
    requires
        links_ok(nodes, root),
        0 <= id < nodes.len(),
    ensures
        subtree(nodes, id) == under_children(
            nodes,
            id,
            nodes[id].children.len() as int,
        ).union(set![id]),
        !under_children(nodes, id, nodes[id].children.len() as int).contains(id),
{
    let n = nodes[id].children.len() as int;
    let a = under_children(nodes, id, n);
    if a.contains(id) {
        let k = choose|k: int| 0 <= k < n && below(nodes, #[trigger] nodes[id].children[k] as int, id);
        lemma_below_after(nodes, nodes[id].children[k] as int, id);
    }
    assert forall|x: int| subtree(nodes, id).contains(x) <==> a.union(set![id]).contains(x) by {
        if subtree(nodes, id).contains(x) && x != id {
            let k = lemma_below_child(nodes, root, id, x);
            assert(0 <= k < n && below(nodes, nodes[id].children[k] as int, x));
        }
        if a.contains(x) {
            let k = choose|k: int|
                0 <= k < n && below(nodes, #[trigger] nodes[id].children[k] as int, x);
            lemma_child_below(nodes, root, id, k);
            lemma_below_trans(nodes, id, nodes[id].children[k] as int, x);
        }
        assert(below(nodes, id, id));
    }
    assert(subtree(nodes, id) =~= a.union(set![id]));
}

pub proof fn lemma_count_one(nodes: Seq<NodeModel>, id: int, n: nat)
    requires
        0 <= id,
        n <= nodes.len(),
    ensures
        count_files(nodes, set![id], n) == if id < n && live_file(nodes[id]) {
            1nat
        } else {
            0
        },
    decreases n,
{
    if n > 0 {
        lemma_count_one(nodes, id, (n - 1) as nat);
    }
}

proof fn lemma_wiped_none(m: TreeModel)
    ensures
        m.wiped(Set::empty()) == m,
{
    lemma_count_none(m.nodes, m.nodes.len());
    assert(m.wiped(Set::empty()).nodes =~= m.nodes);
    assert(m.wiped(Set::empty()).dirs =~= m.dirs);
}

proof fn lemma_count_none(nodes: Seq<NodeModel>, n: nat)
    ensures
        count_files(nodes, Set::empty(), n) == 0,
    decreases n,
{
    if n > 0 {
        lemma_count_none(nodes, (n - 1) as nat);
    }
}

impl FileTree {
    /// Makes `id` and all below it dead.
    fn kill_recursive(&mut self, id: NodeId)
        requires
            old(self).model().wf(),
            id < old(self).model().nodes.len(),
        ensures
            final(self).model() == old(self).model().wiped(subtree(old(self).model().nodes, id as int)),
            final(self).model().wf(),
        decreases old(self).model().nodes.len() - id,
    {
        let ghost m = self.model();
        let at: usize = id as usize;
        let children = self.nodes[at].children.clone();
        assert(children@ == m.nodes[id as int].children);
        let mut j: usize = 0;
        proof {
            assert(under_children(m.nodes, id as int, 0) =~= Set::empty());
            lemma_wiped_none(m);
        }
        while j < children.len()
            invariant
                j <= children.len(),
                m == old(self).model(),
                m.wf(),
                id < m.nodes.len(),
                children@ == m.nodes[id as int].children,
                self.model() == m.wiped(under_children(m.nodes, id as int, j as int)),
                self.model().wf(),
            decreases children.len() - j,
        {
            let ghost done = under_children(m.nodes, id as int, j as int);
            let ghost c = m.nodes[id as int].children[j as int] as int;
            proof {
                lemma_under_children_step(m.nodes, m.root, id as int, j as int);
                assert(id < c < m.nodes.len());
                assert forall|i: int| 0 <= i < m.nodes.len() implies #[trigger] below(
                    wiped_nodes(m.nodes, done),
                    c,
                    i,
                ) == below(m.nodes, c, i) by {
                    assert forall|x: int| #[trigger] done.contains(x) implies !(0 <= x
                        < m.nodes.len() && below(m.nodes, c, x)) by {
                        assert(!(done.contains(x) && subtree(m.nodes, c).contains(x)));
                    }
                    lemma_below_wiped(m.nodes, done, c, i);
                }
                assert(subtree(self.model().nodes, c) =~= subtree(m.nodes, c));
                lemma_wiped_twice(m, done, subtree(m.nodes, c));
            }
            self.kill_recursive(children[j]);
            j = j + 1;
        }
        let ghost done = under_children(m.nodes, id as int, children@.len() as int);
        let ghost one = self.model();
        proof {
            lemma_under_all_children(m.nodes, m.root, id as int);
            lemma_wiped_twice(m, done, set![id as int]);
            lemma_count_one(one.nodes, id as int, one.nodes.len());
            lemma_wiped_wf(one, set![id as int]);
        }
        let path = self.path_of(id);
        self.dirs.remove(&path);
        assert(self.model().dirs =~= one.wiped(set![id as int]).dirs) by {
            assert forall|k: Seq<Seq<u8>>| one.keys_of(set![id as int]).contains(k) <==> k == comps(path@) by {
                if k == comps(path@) {
                    assert(set![id as int].contains(id as int));
                }
            }
        }
        assert(one.nodes[id as int] == self.nodes@[id as int]@);
        if self.nodes[at].kind.is_file() && self.nodes[at].alive {
            self.files = self.files.saturating_sub(1);
        }
        self.nodes[at].alive = false;
        self.nodes[at].children = Vec::new();
        self.nodes[at].size = 0;
        assert(self.model().nodes =~= one.wiped(set![id as int]).nodes);
        assert(self.model() =~= one.wiped(set![id as int]));
    }

    /// Removes `id` and all below it. The root stays.
    fn kill(&mut self, id: NodeId)
        requires
            old(self).model().wf(),
            id < old(self).model().nodes.len(),
        ensures
            final(self).model() == old(self).model().killed(id),
            final(self).model().wf(),
    {
        let ghost m = self.model();
        let at: usize = id as usize;
        let size: u64 = self.nodes[at].size;
        let parent: Option<NodeId> = self.nodes[at].parent;
        assert(m.nodes[id as int] == self.nodes@[id as int]@);
        if id == self.root {
            return ;
        }
        self.kill_recursive(id);
        let ghost w = self.model();
        if let Some(p) = parent {
            let kids = keep_others(&self.nodes[p as usize].children, id);
            self.nodes[p as usize].children = kids;
            let ghost cut = w.nodes.update(
                p as int,
                NodeModel { children: without(w.nodes[p as int].children, id), ..w.nodes[p as int] },
            );
            assert(self.model().nodes =~= cut);
            proof {
                lemma_cut_ok(w.nodes, w.root, p as int, id);
            }
            self.sub_size(p, size);
        }
        self.bytes = self.nodes[self.root as usize].size;
    }

    /// Removes the node that stands for `path`, if there is one.
    pub fn remove_path(&mut self, path: &PathBuf)
        requires
            old(self).model().wf(),
        ensures
            final(self).model() == old(self).model().removed(path@),
            final(self).model().wf(),
    {
        if let Some(id) = self.dirs.get(path) {
            assert(self.model().dirs.dom().contains(comps(path@)));
            self.kill(id);
            return ;
        }
        if let Some(parent) = path.parent() {
            if let Some(pid) = self.dirs.get(&parent) {
                assert(self.model().dirs.dom().contains(comps(parent@)));
                let name = name_text(path);
                if let Some(c) = self.child_named(pid, name.as_str()) {
                    self.kill(c);
                }
            }
        }
    }
}

/// The ids of the list that differ from `x`.
fn keep_others(s: &Vec<NodeId>, x: NodeId) -> (r: Vec<NodeId>)
    ensures
        r@ == without(s@, x),
{
    let mut out: Vec<NodeId> = Vec::new();
    let mut i: usize = 0;
    while i < s.len()
        invariant
            i <= s.len(),
            out@ == without(s@.take(i as int), x),
        decreases s.len() - i,
    {
        assert(s@.take(i + 1).drop_last() == s@.take(i as int));
        if s[i] != x {
            out.push(s[i]);
        }
        i = i + 1;
    }
    assert(s@.take(s@.len() as int) == s@);
    out
}

/// What is left of a list was in it.
pub proof fn lemma_without(s: Seq<NodeId>, x: NodeId)
    ensures
        forall|y: NodeId| #[trigger] without(s, x).contains(y) <==> s.contains(y) && y != x,
        s.no_duplicates() ==> without(s, x).no_duplicates(),
    decreases s.len(),
{
    if s.len() > 0 {
        let t = s.drop_last();
        lemma_without(t, x);
        let r = without(t, x);
        assert forall|y: NodeId| #[trigger] without(s, x).contains(y) <==> s.contains(y) && y != x by {
            if s.contains(y) && y != x {
                let k = choose|k: int| 0 <= k < s.len() && s[k] == y;
                if k < t.len() {
                    assert(t[k] == y);
                    assert(r.contains(y));
                    let j = choose|j: int| 0 <= j < r.len() && r[j] == y;
                    assert(without(s, x)[j] == y);
                } else {
                    assert(without(s, x)[r.len() as int] == y);
                }
            }
            if without(s, x).contains(y) {
                let j = choose|j: int| 0 <= j < without(s, x).len() && without(s, x)[j] == y;
                if j < r.len() {
                    assert(r[j] == y);
                    assert(r.contains(y));
                    let k = choose|k: int| 0 <= k < t.len() && t[k] == y;
                    assert(s[k] == y);
                } else {
                    assert(s[s.len() - 1] == y);
                }
            }
        }
        if s.no_duplicates() {
            assert(t.no_duplicates());
            if s.last() != x {
                if r.contains(s.last()) {
                    assert(t.contains(s.last()));
                    let k = choose|k: int| 0 <= k < t.len() && t[k] == s.last();
                    assert(s[k] == s[s.len() - 1]);
                }
                assert forall|a: int, b: int| 0 <= a < b < r.push(s.last()).len() implies r.push(
                    s.last(),
                )[a] != r.push(s.last())[b] by {
                    if b == r.len() {
                        assert(r.contains(r[a]));
                    }
                }
            }
        }
    }
}

proof fn lemma_cut_ok(nodes: Seq<NodeModel>, root: NodeId, p: int, id: NodeId)
    requires
        links_ok(nodes, root),
        0 <= p < nodes.len(),
    ensures
        links_ok(
            nodes.update(p, NodeModel { children: without(nodes[p].children, id), ..nodes[p] }),
            root,
        ),
{
    let b = nodes.update(p, NodeModel { children: without(nodes[p].children, id), ..nodes[p] });
    lemma_without(nodes[p].children, id);
    assert forall|i: int, k: int| 0 <= i < b.len() && 0 <= k < b[i].children.len() implies i < (
    #[trigger] b[i].children[k]) < b.len() && b[b[i].children[k] as int].parent == Some(i as u32) by {
        let c = b[i].children[k];
        if i == p {
            assert(b[p].children.contains(c));
            assert(nodes[p].children.contains(c));
            let j = choose|j: int| 0 <= j < nodes[p].children.len() && nodes[p].children[j] == c;
            assert(nodes[p].children[j] == c);
        } else {
            assert(nodes[i].children[k] == c);
        }
        assert(nodes[c as int].parent == b[c as int].parent);
    }
    assert forall|i: int| 0 <= i < b.len() implies ((#[trigger] b[i]).parent is None <==> i == root)
        && (b[i].parent matches Some(q) ==> q < i) && b[i].children.no_duplicates() by {
        assert(nodes[i].parent == b[i].parent);
    }
}

/// Removing a node keeps the tree well formed and the list of nodes as long.
pub proof fn lemma_killed_wf(m: TreeModel, id: NodeId)
    requires
        m.wf(),
        id < m.nodes.len(),
    ensures
        m.killed(id).wf(),
        m.killed(id).nodes.len() == m.nodes.len(),
        m.killed(id).root == m.root,
        m.killed(id).root_path == m.root_path,
{
    match m.nodes[id as int].parent {
        None => {},
        Some(p) => {
            let w = m.wiped(subtree(m.nodes, id as int));
            lemma_wiped_wf(m, subtree(m.nodes, id as int));
            let cut = w.nodes.update(
                p as int,
                NodeModel { children: without(w.nodes[p as int].children, id), ..w.nodes[p as int] },
            );
            lemma_cut_ok(w.nodes, w.root, p as int, id);
            lemma_same_links_ok(cut, shrunk(cut, p as int, m.nodes[id as int].size), w.root);
        },
    }
}

/// The node that stands for a path is one of the nodes.
pub proof fn lemma_node_at(m: TreeModel, path: Seq<u8>)
    requires
        m.wf(),
    ensures
        m.node_at(path) matches Some(id) ==> id < m.nodes.len(),
{
    if !m.dirs.dom().contains(comps(path)) {
        match parent_path(path) {
            Some(q) => {
                if m.dirs.dom().contains(comps(q)) {
                    let pid = m.dirs[comps(q)] as int;
                    let kids = m.nodes[pid].children;
                    lemma_first_named(m.nodes, kids, base_text(path));
                    match first_named(m.nodes, kids, base_text(path)) {
                        Some(c) => {
                            let k = choose|k: int| 0 <= k < kids.len() && kids[k] == c;
                            assert(m.nodes[pid].children[k] == c);
                        },
                        None => {},
                    }
                }
            },
            None => {},
        }
    }
}

/// Removing a path keeps the tree well formed.
pub proof fn lemma_removed_wf(m: TreeModel, path: Seq<u8>)
    requires
        m.wf(),
    ensures
        m.removed(path).wf(),
        m.removed(path).nodes.len() == m.nodes.len(),
        m.removed(path).root == m.root,
        m.removed(path).root_path == m.root_path,
{
    lemma_node_at(m, path);
    match m.node_at(path) {
        Some(id) => lemma_killed_wf(m, id),
        None => {},
    }
}

} // verus!
