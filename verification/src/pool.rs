//! What the map shows of a partition with its mounts.

use crate::discover::{FsStats, Mount, MountModel, Partition, PartitionModel};
use crate::discover::{stat_fs, usage_of};
use crate::mount_view::{
    focus_for_mount, focus_of, free_tile, mount_tiles, mount_view, open_for_mount, opened_in,
    shown_mount, text_paths, usage_gap, with_item,
};
use crate::mount_view::{joined_text, push_free, push_tile, push_usage_gap};
use crate::path::{lossy_text, PathBuf};
use crate::path_map::{filed_under, lemma_place_of, place_of, PathMap};
use crate::rescan::tree_model;
use crate::scan::{ProgressModel, ScanProgress};
use crate::snapshot::{
    lemma_view_children, Kind, KindModel, MountView, MountViewModel, ScanModel, ScanStatus,
    ViewModel, ViewNode,
};
use crate::sort::{ordered, sort, views};
use crate::tree::{sat_sub, FileTree, TreeModel};
use crate::tree_view::{larger, larger_of};
use vstd::prelude::*;
use vstd::string::*;

verus! {

/// The current usage of a mount, and the size below which little of it is
/// shown.
#[derive(Debug)]
pub struct Usage {
    pub mount: Mount,
    pub min_size: u64,
}

/// The value of a [`Usage`].
#[verifier::ext_equal]
pub struct UsageModel {
    pub mount: MountModel,
    pub min_size: u64,
}

impl View for Usage {
    type V = UsageModel;

    open spec fn view(&self) -> UsageModel {
        UsageModel { mount: self.mount@, min_size: self.min_size }
    }
}

/// The current usage of the mounts of a partition: what the system reports,
/// else what was known before.
pub open spec fn current_usage(
    mounts: Seq<MountModel>,
    stats: Seq<Option<FsStats>>,
) -> Seq<MountModel> {
    Seq::new(
        mounts.len(),
        |i: int|
            match stats[i] {
                Some(s) => usage_of(mounts[i].path, s),
                None => mounts[i],
            },
    )
}

/// The current usage of the mounts of a partition. `stats[i]` is what the
/// system reports of the i-th one.
pub fn refresh_usage(mounts: &Vec<Mount>, stats: &Vec<Option<FsStats>>) -> (r: Vec<Mount>)
    requires
        mounts@.len() == stats@.len(),
    ensures
        views(r@) == current_usage(views(mounts@), stats@),
{
    let mut out: Vec<Mount> = Vec::new();
    let ghost target = current_usage(views(mounts@), stats@);
    let mut i: usize = 0;
    assert(views(out@) =~= target.take(0));
    while i < mounts.len()
        invariant
            i <= mounts.len(),
            mounts@.len() == stats@.len(),
            target == current_usage(views(mounts@), stats@),
            views(out@) == target.take(i as int),
        decreases mounts.len() - i,
    {
        let m = match &stats[i] {
            Some(s) => stat_fs(&mounts[i].path, s),
            None => mounts[i].clone(),
        };
        let ghost model = m@;
        let ghost before = views(out@);
        assert(views(mounts@)[i as int] == mounts@[i as int]@);
        assert(target[i as int] == model);
        out.push(m);
        assert(views(out@) =~= before.push(model));
        assert(target.take(i + 1) =~= target.take(i as int).push(target[i as int]));
        i = i + 1;
    }
    assert(target.take(target.len() as int) =~= target);
    out
}

/// What the map is drawn from: the trees and the progress of each mount, the
/// paths that are zoomed into and opened.
pub struct Scene {
    pub trees: Seq<(Seq<u8>, TreeModel)>,
    pub progress: Seq<(Seq<u8>, ProgressModel)>,
    pub focus: Seq<Seq<u8>>,
    pub open: Seq<Seq<u8>>,
}

/// Whether all trees are well formed.
pub open spec fn trees_ok(trees: Seq<(Seq<u8>, TreeModel)>) -> bool {
    forall|i: int| 0 <= i < trees.len() ==> (#[trigger] trees[i]).1.wf()
}

/// The progress of a mount: what is noted, else that of its tree.
pub open spec fn progress_of(
    path: Seq<u8>,
    tree: Option<TreeModel>,
    progress: Seq<(Seq<u8>, ProgressModel)>,
) -> ProgressModel {
    match filed_under(progress, path) {
        Some(p) => p,
        None => match tree {
            Some(t) => ProgressModel { files: t.files, bytes: t.bytes, done: true, error: None },
            None => ProgressModel { files: 0, bytes: 0, done: false, error: None },
        },
    }
}

/// The progress of a mount.
pub fn progress_for(
    m: &Mount,
    tree: Option<&FileTree>,
    progress: &PathMap<ScanProgress>,
) -> (r: ScanProgress)
    ensures
        r@ == progress_of(m@.path, tree_model(tree), progress@),
{
    match progress.get(&m.path) {
        Some(p) => p.clone(),
        None => match tree {
            Some(t) => ScanProgress { files: t.files, bytes: t.bytes, done: true, error: None },
            None => ScanProgress { files: 0, bytes: 0, done: false, error: None },
        },
    }
}

/// The sum of the sizes of some tiles.
pub open spec fn sizes_sum(s: Seq<ViewModel>) -> int
    decreases s.len(),
{
    if s.len() == 0 {
        0
    } else {
        sizes_sum(s.drop_last()) + s.last().size
    }
}

impl Scene {
    /// The tree of a mount.
    pub open spec fn tree(self, m: MountModel) -> Option<TreeModel> {
        filed_under(self.trees, m.path)
    }

    /// The progress of a mount.
    pub open spec fn scan(self, m: MountModel) -> ProgressModel {
        progress_of(m.path, self.tree(m), self.progress)
    }

    /// The path of a mount that is zoomed into.
    pub open spec fn focus_in(self, m: MountModel) -> Option<Seq<u8>> {
        focus_of(m.path, self.focus, self.focus.len())
    }

    /// The opened paths of a mount.
    pub open spec fn opened(self, m: MountModel) -> Seq<Seq<u8>> {
        opened_in(m.path, self.open, self.open.len())
    }

    /// What is shown of a mount that has its partition for itself.
    pub open spec fn alone(self, u: UsageModel, fstype: Seq<char>) -> MountViewModel {
        shown_mount(
            u.mount,
            self.tree(u.mount),
            self.scan(u.mount),
            u.min_size,
            true,
            fstype,
            self.focus_in(u.mount),
            self.opened(u.mount),
        )
    }

    /// The tiles of a mount that shares its partition.
    pub open spec fn inner_tiles(self, u: UsageModel, fstype: Seq<char>) -> Seq<ViewModel> {
        mount_tiles(
            u.mount,
            self.tree(u.mount),
            self.scan(u.mount),
            u.min_size,
            false,
            fstype,
            self.focus_in(u.mount),
            self.opened(u.mount),
        )
    }

    /// What is shown of a mount that shares its partition.
    pub open spec fn shared(self, u: UsageModel, fstype: Seq<char>) -> ViewModel {
        let tiles = self.inner_tiles(u, fstype);
        ViewModel {
            path: lossy_text(u.mount.path),
            name: lossy_text(u.mount.path),
            size: larger(sizes_sum(tiles) as u64, 1),
            kind: KindModel::Directory,
            children: tiles,
        }
    }

    /// The bytes of a mount that the scan has seen.
    pub open spec fn bytes_of(self, m: MountModel) -> u64 {
        match self.tree(m) {
            Some(t) => t.bytes,
            None => self.scan(m).bytes,
        }
    }

    /// The bytes that the scans of the first `n` mounts have seen.
    pub open spec fn bytes_sum(self, usage: Seq<UsageModel>, n: nat) -> int
        decreases n,
    {
        if n == 0 {
            0
        } else {
            self.bytes_sum(usage, (n - 1) as nat) + self.bytes_of(usage[n - 1].mount)
        }
    }

    /// The files that the scans of the first `n` mounts have seen.
    pub open spec fn files_sum(self, usage: Seq<UsageModel>, n: nat) -> int
        decreases n,
    {
        if n == 0 {
            0
        } else {
            self.files_sum(usage, (n - 1) as nat) + self.scan(usage[n - 1].mount).files
        }
    }

    /// Whether the scan of one of the first `n` mounts is not done.
    pub open spec fn scanning(self, usage: Seq<UsageModel>, n: nat) -> bool {
        exists|i: int| 0 <= i < n && !self.scan((#[trigger] usage[i]).mount).done
    }

    /// The last error of the scans of the first `n` mounts.
    pub open spec fn last_error(self, usage: Seq<UsageModel>, n: nat) -> Option<Seq<char>>
        decreases n,
    {
        if n == 0 {
            None
        } else {
            match self.scan(usage[n - 1].mount).error {
                Some(e) => Some(e),
                None => self.last_error(usage, (n - 1) as nat),
            }
        }
    }

    /// Whether all sums that a shared partition needs are in range.
    pub open spec fn sums_fit(self, usage: Seq<UsageModel>, fstype: Seq<char>) -> bool {
        &&& self.files_sum(usage, usage.len()) <= u64::MAX
        &&& self.bytes_sum(usage, usage.len()) <= u64::MAX
        &&& forall|i: int|
            0 <= i < usage.len() ==> sizes_sum(self.inner_tiles(#[trigger] usage[i], fstype))
                <= u64::MAX
    }

    /// What is shown of a partition whose mounts share its space: one mount
    /// view, with a tile for each mount, for unseen bytes and for free bytes,
    /// the larger ones first.
    pub open spec fn pooled(self, p: PartitionModel, usage: Seq<UsageModel>) -> MountViewModel {
        let n = usage.len();
        let pool = usage[0].mount;
        let scanning = self.scanning(usage, n);
        let mounts = Seq::new(n, |i: int| self.shared(usage[i], p.fstype));
        let tiles = with_item(
            with_item(
                mounts,
                usage_gap(
                    p.name + "::gap"@,
                    sat_sub(pool.used, self.bytes_sum(usage, n)),
                    usage[0].min_size,
                    !scanning,
                    p.fstype,
                ),
            ),
            free_tile(p.name + "::free"@, pool.available),
        );
        let name = match p.mapped_name {
            Some(m) => m,
            None => match p.label {
                Some(l) => l,
                None => p.name,
            },
        };
        let files = self.files_sum(usage, n) as u64;
        let bytes = self.bytes_sum(usage, n) as u64;
        MountViewModel {
            path: name,
            total: pool.total,
            used: pool.used,
            available: pool.available,
            scan: match self.last_error(usage, n) {
                Some(e) => ScanModel::Error(e),
                None => if scanning {
                    ScanModel::Scanning { files, bytes }
                } else {
                    ScanModel::Live { files, bytes }
                },
            },
            tree: ViewModel {
                path: name,
                name,
                size: larger(pool.total, 1),
                kind: KindModel::Directory,
                children: ordered::<ViewNode>(tiles),
            },
        }
    }

    /// What is shown of the mounts of a partition.
    pub open spec fn partition(self, p: PartitionModel, usage: Seq<UsageModel>) -> Seq<
        MountViewModel,
    > {
        if share_pool(usage) {
            seq![self.pooled(p, usage)]
        } else {
            Seq::new(usage.len(), |i: int| self.alone(usage[i], p.fstype))
        }
    }
}

/// Whether the mounts share the space of their partition: there are several,
/// and all report the same size and the same free space.
pub open spec fn share_pool(usage: Seq<UsageModel>) -> bool {
    usage.len() > 1 && forall|i: int|
        0 <= i < usage.len() ==> (#[trigger] usage[i]).mount.total == usage[0].mount.total
            && usage[i].mount.available == usage[0].mount.available
}

/// Whether the mounts share the space of their partition.
fn shares_pool(usage: &Vec<Usage>) -> (r: bool)
    ensures
        r == share_pool(views(usage@)),
{
    let ghost all = views(usage@);
    if usage.len() <= 1 {
        return false;
    }
    assert(all[0] == usage@[0]@);
    let mut i: usize = 0;
    while i < usage.len()
        invariant
            i <= usage.len(),
            usage@.len() > 1,
            all == views(usage@),
            all[0] == usage@[0]@,
            forall|j: int|
                0 <= j < i ==> (#[trigger] all[j]).mount.total == all[0].mount.total
                    && all[j].mount.available == all[0].mount.available,
        decreases usage.len() - i,
    {
        assert(all[i as int] == usage@[i as int]@);
        if usage[i].mount.total != usage[0].mount.total || usage[i].mount.available
            != usage[0].mount.available {
            return false;
        }
        i = i + 1;
    }
    true
}

/// The sum of the sizes of some tiles; none if it is out of range.
fn sum_sizes(tiles: &Vec<ViewNode>) -> (r: Option<u64>)
    ensures
        match r {
            Some(v) => v == sizes_sum(views(tiles@)),
            None => sizes_sum(views(tiles@)) > u64::MAX,
        },
{
    let ghost all = views(tiles@);
    let mut sum: u64 = 0;
    let mut i: usize = 0;
    assert(all.take(0) =~= Seq::<ViewModel>::empty());
    while i < tiles.len()
        invariant
            i <= tiles.len(),
            all == views(tiles@),
            sum == sizes_sum(all.take(i as int)),
        decreases tiles.len() - i,
    {
        assert(all.take(i + 1).drop_last() =~= all.take(i as int));
        assert(all.take(i + 1).last() == tiles@[i as int]@);
        match sum.checked_add(tiles[i].size) {
            Some(v) => {
                sum = v;
            },
            None => {
                proof {
                    lemma_sum_grows(all, i + 1);
                }
                return None;
            },
        }
        i = i + 1;
    }
    assert(all.take(all.len() as int) =~= all);
    Some(sum)
}

proof fn lemma_sum_grows(s: Seq<ViewModel>, n: int)
    requires
        0 <= n <= s.len(),
    ensures
        sizes_sum(s.take(n)) <= sizes_sum(s),
    decreases s.len() - n,
{
    if n < s.len() {
        assert(s.take(n + 1).drop_last() =~= s.take(n));
        lemma_sum_grows(s, n + 1);
    } else {
        assert(s.take(n) =~= s);
    }
}

proof fn lemma_sums_grow(c: Scene, usage: Seq<UsageModel>, j: nat, n: nat)
    requires
        j <= n,
    ensures
        0 <= c.files_sum(usage, j) <= c.files_sum(usage, n),
        0 <= c.bytes_sum(usage, j) <= c.bytes_sum(usage, n),
    decreases n,
{
    if j < n {
        lemma_sums_grow(c, usage, j, (n - 1) as nat);
    } else if n > 0 {
        lemma_sums_grow(c, usage, (n - 1) as nat, (n - 1) as nat);
    }
}

/// The tree of a mount.
fn tree_of<'a>(trees: &'a PathMap<FileTree>, path: &PathBuf) -> (r: Option<&'a FileTree>)
    requires
        trees_ok(trees@),
    ensures
        tree_model(r) == filed_under(trees@, path@),
        r matches Some(t) ==> t.model().wf(),
{
    proof {
        lemma_place_of(trees@, path@, trees@.len());
    }
    match trees.get(path) {
        Some(t) => {
            let ghost i = place_of(trees@, path@, trees@.len()).unwrap();
            assert(trees@[i].1.wf());
            Some(t)
        },
        None => None,
    }
}

/// What is shown of one mount, with or without unseen and free bytes.
fn one_mount(
    u: &Usage,
    trees: &PathMap<FileTree>,
    progress: &PathMap<ScanProgress>,
    fstype: &str,
    focus: &[String],
    open: &[String],
    with_pool: bool,
) -> (r: MountView)
    requires
        trees_ok(trees@),
    ensures
        ({
            let c = Scene {
                trees: trees@,
                progress: progress@,
                focus: text_paths(focus@),
                open: text_paths(open@),
            };
            r@ == shown_mount(
                u@.mount,
                c.tree(u@.mount),
                c.scan(u@.mount),
                u.min_size,
                with_pool,
                fstype@,
                c.focus_in(u@.mount),
                c.opened(u@.mount),
            )
        }),
{
    let m = &u.mount;
    let tree = tree_of(trees, &m.path);
    let scan = progress_for(m, tree, progress);
    let at = focus_for_mount(&m.path, focus);
    let opened = open_for_mount(&m.path, open);
    let at_ref: Option<&PathBuf> = match &at {
        Some(p) => Some(p),
        None => None,
    };
    mount_view(m, tree, &scan, u.min_size, with_pool, fstype, at_ref, opened.as_slice())
}

/// What is shown of the mounts of a partition. None if a sum that is shown is
/// out of range.
pub fn partition_mounts(
    p: &Partition,
    usage: &Vec<Usage>,
    trees: &PathMap<FileTree>,
    progress: &PathMap<ScanProgress>,
    focus: &[String],
    open: &[String],
) -> (r: Option<Vec<MountView>>)
    requires
        trees_ok(trees@),
    ensures
        ({
            let c = Scene {
                trees: trees@,
                progress: progress@,
                focus: text_paths(focus@),
                open: text_paths(open@),
            };
            match r {
                Some(v) => views(v@) == c.partition(p@, views(usage@)) && (share_pool(
                    views(usage@),
                ) ==> c.sums_fit(views(usage@), p@.fstype)),
                None => share_pool(views(usage@)) && !c.sums_fit(views(usage@), p@.fstype),
            }
        }),
{
    let ghost c = Scene {
        trees: trees@,
        progress: progress@,
        focus: text_paths(focus@),
        open: text_paths(open@),
    };
    let ghost us = views(usage@);
    let fstype = p.fstype.as_str();
    if !shares_pool(usage) {
        let mut out: Vec<MountView> = Vec::new();
        let ghost target = c.partition(p@, us);
        let mut i: usize = 0;
        assert(views(out@) =~= target.take(0));
        while i < usage.len()
            invariant
                i <= usage.len(),
                us == views(usage@),
                !share_pool(us),
                trees_ok(trees@),
                c == (Scene {
                    trees: trees@,
                    progress: progress@,
                    focus: text_paths(focus@),
                    open: text_paths(open@),
                }),
                fstype@ == p@.fstype,
                target == c.partition(p@, us),
                views(out@) == target.take(i as int),
            decreases usage.len() - i,
        {
            assert(us[i as int] == usage@[i as int]@);
            let v = one_mount(&usage[i], trees, progress, fstype, focus, open, true);
            let ghost model = v@;
            let ghost before = views(out@);
            assert(target[i as int] == model);
            out.push(v);
            assert(views(out@) =~= before.push(model));
            assert(target.take(i + 1) =~= target.take(i as int).push(target[i as int]));
            i = i + 1;
        }
        assert(target.take(target.len() as int) =~= target);
        return Some(out);
    }
    let ghost mounts = Seq::new(us.len(), |i: int| c.shared(us[i], p@.fstype));
    let mut children: Vec<ViewNode> = Vec::new();
    let mut scanned: u64 = 0;
    let mut files: u64 = 0;
    let mut scanning = false;
    let mut err: Option<String> = None;
    let mut i: usize = 0;
    assert(views(children@) =~= mounts.take(0));
    while i < usage.len()
        invariant
            i <= usage.len(),
            us == views(usage@),
            share_pool(us),
            trees_ok(trees@),
            c == (Scene {
                trees: trees@,
                progress: progress@,
                focus: text_paths(focus@),
                open: text_paths(open@),
            }),
            fstype@ == p@.fstype,
            mounts == Seq::new(us.len(), |i: int| c.shared(us[i], p@.fstype)),
            views(children@) == mounts.take(i as int),
            scanned == c.bytes_sum(us, i as nat),
            files == c.files_sum(us, i as nat),
            scanning == c.scanning(us, i as nat),
            crate::snapshot::text_of(err) == c.last_error(us, i as nat),
            forall|j: int|
                0 <= j < i ==> sizes_sum(c.inner_tiles(#[trigger] us[j], p@.fstype)) <= u64::MAX,
        decreases usage.len() - i,
    {
        let u = &usage[i];
        assert(us[i as int] == u@);
        proof {
            lemma_sums_grow(c, us, (i + 1) as nat, us.len());
        }
        let tree = tree_of(trees, &u.mount.path);
        let scan = progress_for(&u.mount, tree, progress);
        assert(scan@ == c.scan(us[i as int].mount));
        if let Some(e) = &scan.error {
            err = Some(e.clone());
        }
        if !scan.done {
            assert(!c.scan(us[i as int].mount).done);
            scanning = true;
        }
        assert(c.scanning(us, (i + 1) as nat) == (c.scanning(us, i as nat) || !scan.done)) by {
            if c.scanning(us, i as nat) {
                let k = choose|k: int| 0 <= k < i && !c.scan((#[trigger] us[k]).mount).done;
                assert(0 <= k < i + 1 && !c.scan(us[k].mount).done);
            }
            if !scan.done {
                assert(0 <= i < i + 1 && !c.scan(us[i as int].mount).done);
            }
        }
        match files.checked_add(scan.files) {
            Some(v) => {
                files = v;
            },
            None => {
                return None;
            },
        }
        let inner = one_mount(u, trees, progress, fstype, focus, open, false);
        proof {
            lemma_view_children(inner.tree);
        }
        let tiles = inner.tree.children;
        assert(views(tiles@) == c.inner_tiles(us[i as int], p@.fstype));
        let bytes: u64 = match tree {
            Some(t) => t.bytes,
            None => scan.bytes,
        };
        match scanned.checked_add(bytes) {
            Some(v) => {
                scanned = v;
            },
            None => {
                return None;
            },
        }
        let sum: u64 = match sum_sizes(&tiles) {
            Some(v) => v,
            None => {
                return None;
            },
        };
        let name = u.mount.path.to_string_lossy();
        let node = ViewNode {
            path: name.clone(),
            name,
            size: larger_of(sum, 1),
            kind: Kind::Directory,
            children: tiles,
        };
        proof {
            lemma_view_children(node);
            assert(node@ =~= c.shared(us[i as int], p@.fstype));
            assert(mounts[i as int] == c.shared(us[i as int], p@.fstype));
            assert(mounts.take(i + 1) =~= mounts.take(i as int).push(mounts[i as int]));
        }
        push_tile(&mut children, node);
        i = i + 1;
    }
    assert(mounts.take(mounts.len() as int) =~= mounts);
    assert(us[0] == usage@[0]@);
    let pool = &usage[0].mount;
    push_usage_gap(
        &mut children,
        joined_text(p.name.as_str(), "::gap"),
        pool.used.saturating_sub(scanned),
        usage[0].min_size,
        !scanning,
        fstype,
    );
    push_free(&mut children, joined_text(p.name.as_str(), "::free"), pool.available);
    sort(&mut children);
    let status = match err {
        Some(e) => ScanStatus::Error(e),
        None => if scanning {
            ScanStatus::Scanning { files, bytes: scanned }
        } else {
            ScanStatus::Live { files, bytes: scanned }
        },
    };
    let name = match &p.mapped_name {
        Some(m) => m.clone(),
        None => match &p.label {
            Some(l) => l.clone(),
            None => p.name.clone(),
        },
    };
    let tree = ViewNode {
        path: name.clone(),
        name: name.clone(),
        size: larger_of(pool.total, 1),
        kind: Kind::Directory,
        children,
    };
    proof {
        lemma_view_children(tree);
    }
    let view = MountView {
        path: name,
        total: pool.total,
        used: pool.used,
        available: pool.available,
        scan: status,
        tree,
    };
    assert(view@ =~= c.pooled(p@, us));
    let mut out: Vec<MountView> = Vec::new();
    out.push(view);
    assert(views(out@) =~= c.partition(p@, us));
    Some(out)
}

} // verus!
