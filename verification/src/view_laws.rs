//! What holds of the views of a tree.

use crate::pool::sizes_sum;
use crate::snapshot::ViewModel;
use crate::sort::{ascending, law_ordered_ascending, Ranked};
use crate::tree::TreeModel;
use crate::tree_view::{child_floor, leads_through, with_rest, Kid, Tally};
use vstd::prelude::*;

verus! {

/// Whether the drawn sizes are the sum of those of the children, or at the
/// limit.
spec fn tallied(t: Tally) -> bool {
    t.layout == if sizes_sum(t.children) > u64::MAX {
        u64::MAX as int
    } else {
        sizes_sum(t.children)
    }
}

proof fn lemma_sum_push(s: Seq<ViewModel>, x: ViewModel)
    ensures
        sizes_sum(s.push(x)) == sizes_sum(s) + x.size,
{
    assert(s.push(x).drop_last() =~= s);
}

proof fn lemma_listed_tallied(
    m: TreeModel,
    id: int,
    kids: Seq<Kid>,
    i: int,
    tally: Tally,
    min_size: u64,
    depth: nat,
    max_depth: nat,
    open: Seq<Seq<u8>>,
)
    requires
        tallied(tally),
    ensures
        tallied(m.listed(id, kids, i, tally, min_size, depth, max_depth, open)),
    decreases kids.len() - i,
{
    if 0 <= i < kids.len() {
        let kid = kids[i];
        if !kid.marked() && tally.children.len() >= 80 {
        } else if !kid.marked() && kid.size < min_size && tally.children.len() >= 8 {
            lemma_listed_tallied(m, id, kids, i + 1, tally, min_size, depth, max_depth, open);
        } else if id < kid.id < m.nodes.len() {
            let child = m.view_of(
                kid.id as int,
                child_floor(kid.size, min_size),
                depth + 1,
                max_depth,
                open,
            );
            lemma_sum_push(tally.children, child);
            lemma_listed_tallied(
                m,
                id,
                kids,
                i + 1,
                tally.with(child, kid),
                min_size,
                depth,
                max_depth,
                open,
            );
        }
    }
}

/// The tiles inside a tile fit into it: their sizes add up to no more than its
/// own, unless that is at the limit. A directory is never drawn smaller than
/// it is, and larger only to hold its tiles.
pub proof fn law_view_fits(
    m: TreeModel,
    id: int,
    min_size: u64,
    depth: nat,
    max_depth: nat,
    open: Seq<Seq<u8>>,
)
    ensures
        ({
            let v = m.view_of(id, min_size, depth, max_depth, open);
            &&& sizes_sum(v.children) <= v.size || v.size == u64::MAX
            &&& m.nodes[id].kind is Dir ==> v.size >= m.nodes[id].size
            &&& m.nodes[id].kind is Dir && v.size > m.nodes[id].size ==> v.size <= sizes_sum(
                v.children,
            )
        }),
{
    let kids = m.kids(id, open);
    let path = m.path_of(id);
    if m.nodes[id].kind is Dir && kids.len() > 0 && (depth < max_depth || leads_through(
        open,
        path,
    )) {
        lemma_listed_tallied(
            m,
            id,
            kids,
            0,
            Tally::none(),
            min_size,
            depth,
            max_depth,
            open,
        );
        let t = m.listed(id, kids, 0, Tally::none(), min_size, depth, max_depth, open);
        let all = with_rest(t, m.nodes[id].size, min_size, path);
        if all != t {
            lemma_sum_push(t.children, all.children.last());
            assert(all.children =~= t.children.push(all.children.last()));
        }
    }
}

/// A directory that is too deep to be expanded, and through which no opened
/// path leads, is a leaf, as are files and nested mounts.
pub proof fn law_view_closed_is_leaf(
    m: TreeModel,
    id: int,
    min_size: u64,
    depth: nat,
    max_depth: nat,
    open: Seq<Seq<u8>>,
)
    requires
        m.nodes[id].kind !is Dir || (depth >= max_depth && !leads_through(open, m.path_of(id))),
    ensures
        m.view_of(id, min_size, depth, max_depth, open).children.len() == 0,
{
}

/// The tiles that are there already stay where they are.
proof fn lemma_listed_keeps(
    m: TreeModel,
    id: int,
    kids: Seq<Kid>,
    i: int,
    tally: Tally,
    min_size: u64,
    depth: nat,
    max_depth: nat,
    open: Seq<Seq<u8>>,
    j: int,
)
    requires
        0 <= j < tally.children.len(),
    ensures
        ({
            let t = m.listed(id, kids, i, tally, min_size, depth, max_depth, open);
            j < t.children.len() && t.children[j] == tally.children[j]
        }),
    decreases kids.len() - i,
{
    if 0 <= i < kids.len() {
        let kid = kids[i];
        if !kid.marked() && tally.children.len() >= 80 {
        } else if !kid.marked() && kid.size < min_size && tally.children.len() >= 8 {
            lemma_listed_keeps(m, id, kids, i + 1, tally, min_size, depth, max_depth, open, j);
        } else if id < kid.id < m.nodes.len() {
            let child = m.view_of(
                kid.id as int,
                child_floor(kid.size, min_size),
                depth + 1,
                max_depth,
                open,
            );
            lemma_listed_keeps(
                m,
                id,
                kids,
                i + 1,
                tally.with(child, kid),
                min_size,
                depth,
                max_depth,
                open,
                j,
            );
        }
    }
}

/// The marked children, which come first, are all listed.
proof fn lemma_listed_marked(
    m: TreeModel,
    id: int,
    kids: Seq<Kid>,
    i: int,
    tally: Tally,
    min_size: u64,
    depth: nat,
    max_depth: nat,
    open: Seq<Seq<u8>>,
    j: int,
)
    requires
        0 <= i <= j < kids.len(),
        tally.children.len() == i,
        forall|q: int| 0 <= q < kids.len() ==> id < (#[trigger] kids[q]).id < m.nodes.len(),
        forall|q: int| 0 <= q <= j ==> (#[trigger] kids[q]).marked() || q == j,
        kids[j].marked() || j < 8,
    ensures
        ({
            let t = m.listed(id, kids, i, tally, min_size, depth, max_depth, open);
            j < t.children.len() && t.children[j] == m.view_of(
                kids[j].id as int,
                child_floor(kids[j].size, min_size),
                depth + 1,
                max_depth,
                open,
            )
        }),
    decreases kids.len() - i,
{
    let kid = kids[i];
    assert(kid.marked() || i == j);
    let child = m.view_of(
        kid.id as int,
        child_floor(kid.size, min_size),
        depth + 1,
        max_depth,
        open,
    );
    let next = tally.with(child, kid);
    if i < j {
        lemma_listed_marked(m, id, kids, i + 1, next, min_size, depth, max_depth, open, j);
    } else {
        lemma_listed_keeps(m, id, kids, i + 1, next, min_size, depth, max_depth, open, j);
    }
}

/// A directory that is expanded shows each child that is a nested mount or that
/// an opened path leads through, whatever its size; and it shows its first
/// child in any case.
pub proof fn law_view_shows_opened(
    m: TreeModel,
    id: int,
    min_size: u64,
    depth: nat,
    max_depth: nat,
    open: Seq<Seq<u8>>,
    j: int,
)
    requires
        m.wf(),
        0 <= id < m.nodes.len(),
        m.nodes[id].kind is Dir,
        depth < max_depth || leads_through(open, m.path_of(id)),
        0 <= j < m.kids(id, open).len(),
        m.kids(id, open)[j].marked() || j == 0,
    ensures
        ({
            let v = m.view_of(id, min_size, depth, max_depth, open);
            let kid = m.kids(id, open)[j];
            j < v.children.len() && v.children[j] == m.view_of(
                kid.id as int,
                child_floor(kid.size, min_size),
                depth + 1,
                max_depth,
                open,
            )
        }),
{
    let living = m.living_kids(id, open, m.nodes[id].children.len());
    let kids = m.kids(id, open);
    law_ordered_ascending::<Kid>(living);
    assert forall|q: int| 0 <= q < kids.len() implies id < (#[trigger] kids[q]).id
        < m.nodes.len() by {
        crate::tree_view::lemma_ordered_member::<Kid>(living, kids[q]);
        let i = choose|i: int| 0 <= i < living.len() && living[i] == kids[q];
        lemma_living_range(m, id, open, m.nodes[id].children.len(), i);
    }
    assert forall|q: int| 0 <= q <= j implies (#[trigger] kids[q]).marked() || q == j by {
        assert(Kid::before(kids[q], kids[j]));
    }
    lemma_listed_marked(
        m,
        id,
        kids,
        0,
        Tally::none(),
        min_size,
        depth,
        max_depth,
        open,
        j,
    );
}

proof fn lemma_living_range(m: TreeModel, id: int, open: Seq<Seq<u8>>, k: nat, i: int)
    requires
        m.wf(),
        0 <= id < m.nodes.len(),
        k <= m.nodes[id].children.len(),
        0 <= i < m.living_kids(id, open, k).len(),
    ensures
        id < m.living_kids(id, open, k)[i].id < m.nodes.len(),
    decreases k,
{
    if k > 0 {
        let before = m.living_kids(id, open, (k - 1) as nat);
        let c = m.nodes[id].children[k - 1];
        assert(id < c < m.nodes.len());
        if i < before.len() {
            lemma_living_range(m, id, open, (k - 1) as nat, i);
        }
    }
}

/// No marked child comes after one that is not.
proof fn lemma_none_marked(kids: Seq<Kid>, i: int, j: int)
    requires
        ascending::<Kid>(kids),
        0 <= i < kids.len(),
        i <= j <= kids.len(),
        !kids[i].marked(),
    ensures
        marked_from(kids, j) == 0,
    decreases kids.len() - j,
{
    if j < kids.len() {
        lemma_none_marked(kids, i, j + 1);
        assert(Kid::before(kids[i], kids[j]));
    }
}

proof fn lemma_listed_bounded(
    m: TreeModel,
    id: int,
    kids: Seq<Kid>,
    i: int,
    tally: Tally,
    min_size: u64,
    depth: nat,
    max_depth: nat,
    open: Seq<Seq<u8>>,
)
    requires
        0 <= i <= kids.len(),
        ascending::<Kid>(kids),
    ensures
        ({
            let t = m.listed(id, kids, i, tally, min_size, depth, max_depth, open);
            t.children.len() <= 80 || t.children.len() <= tally.children.len() + marked_from(
                kids,
                i,
            )
        }),
    decreases kids.len() - i,
{
    if i < kids.len() {
        let kid = kids[i];
        if !kid.marked() {
            lemma_none_marked(kids, i, i);
            lemma_none_marked(kids, i, i + 1);
        }
        if !kid.marked() && tally.children.len() >= 80 {
        } else if !kid.marked() && kid.size < min_size && tally.children.len() >= 8 {
            lemma_listed_bounded(m, id, kids, i + 1, tally, min_size, depth, max_depth, open);
        } else if id < kid.id < m.nodes.len() {
            let child = m.view_of(
                kid.id as int,
                child_floor(kid.size, min_size),
                depth + 1,
                max_depth,
                open,
            );
            lemma_listed_bounded(
                m,
                id,
                kids,
                i + 1,
                tally.with(child, kid),
                min_size,
                depth,
                max_depth,
                open,
            );
        }
    }
}

/// A directory shows no more than 80 of its children, or as many as are marked
/// where these are more. One more tile stands for what is not shown.
pub proof fn law_view_bounded(
    m: TreeModel,
    id: int,
    min_size: u64,
    depth: nat,
    max_depth: nat,
    open: Seq<Seq<u8>>,
)
    ensures
        ({
            let kids = m.kids(id, open);
            let marked = marked_from(kids, 0);
            let limit = if marked > 80 {
                marked
            } else {
                80
            };
            &&& m.listed(
                id,
                kids,
                0,
                Tally::none(),
                min_size,
                depth,
                max_depth,
                open,
            ).children.len() <= limit
            &&& m.view_of(id, min_size, depth, max_depth, open).children.len() <= limit + 1
        }),
{
    let kids = m.kids(id, open);
    law_ordered_ascending::<Kid>(m.living_kids(id, open, m.nodes[id].children.len()));
    lemma_listed_bounded(m, id, kids, 0, Tally::none(), min_size, depth, max_depth, open);
}

/// How many children from the i-th on are marked.
pub open spec fn marked_from(kids: Seq<Kid>, i: int) -> nat
    decreases kids.len() - i,
{
    if i >= kids.len() || i < 0 {
        0
    } else {
        marked_from(kids, i + 1) + if kids[i].marked() {
            1nat
        } else {
            0
        }
    }
}

} // verus!
