//! The state of the scanner and how events change it.

use crate::discover::{Disk, DiskModel, Partition, PartitionModel};
use crate::mount_view::text_paths;
use crate::mounts::{EntryModel, MountTable};
use crate::path::{comps, joined, lossy_text, same_path, PathBuf};
use crate::path_map::{
    distinct_keys, filed_under, law_dropped, law_filed, law_filed_distinct, lemma_longest_key,
    lemma_place_of, longest_key, place_of, with_filed, without_filed, PathMap,
};
use crate::pool::{partition_mounts, share_pool, trees_ok, Scene, Usage, UsageModel};
use crate::prune_laws::{law_prune_depth, law_prune_keeps_upper_levels, outline};
use crate::rescan::{apply_change, graft_expand_layer, rescan_dir, rescan_levels, Found};
use crate::scan::{ProgressModel, ScanProgress};
use crate::snapshot::{
    DiskView, DiskViewModel, PartitionView, PartitionViewModel, Snapshot, SnapshotSource,
};
use crate::order::{comps_less, lemma_comps_order, lemma_comps_transitive};
use crate::sort::{
    ascending, law_ordered_ascending, law_ordered_same_values, ordered, sort, views, Ranked,
};
use crate::text::{chars_of, contains_seq, contains_text};
use crate::tree::{FileTree, TreeModel, MAX_NODES, STORE_DEPTH};
use crate::tree_prune::height;
use crate::tree_view::{larger, larger_of};
use vstd::prelude::*;
use vstd::string::*;
use vstd::utf8::*;

verus! {

/// The topology is looked at again after this many nanoseconds.
pub const TOPOLOGY_PERIOD: u128 = 4_000_000_000;

/// All mounts are scanned again after this many nanoseconds.
pub const FULL_PERIOD: u128 = 21_600_000_000_000;

/// Progress is published after this many nanoseconds.
pub const PUBLISH_PERIOD: u128 = 200_000_000;

/// A tree is held for no more than about this many nanoseconds.
pub const BATCH_PERIOD: u128 = 250_000_000;

/// How many changed paths are looked at together.
pub const DIRTY_LIMIT: usize = 400;

/// The state of the scanner.
pub struct Engine {
    pub source: SnapshotSource,
    pub disks: Vec<Disk>,
    pub mounts: MountTable,
    pub trees: PathMap<FileTree>,
    pub progress: PathMap<ScanProgress>,
    pub stop: bool,
    pub rescan_flag: bool,
    pub force_rescan: bool,
    pub watch_reload: bool,
    pub dirty: Vec<PathBuf>,
    pub expand_queue: Vec<PathBuf>,
    pub persist_dir: PathBuf,
    pub ticks: u64,
}

/// The value of an [`Engine`].
#[verifier::ext_equal]
pub struct EngineModel {
    pub source: SnapshotSource,
    pub disks: Seq<DiskModel>,
    pub mounts: Seq<EntryModel>,
    pub trees: Seq<(Seq<u8>, TreeModel)>,
    pub progress: Seq<(Seq<u8>, ProgressModel)>,
    pub stop: bool,
    pub rescan_flag: bool,
    pub force_rescan: bool,
    pub watch_reload: bool,
    pub dirty: Seq<Seq<u8>>,
    pub expand_queue: Seq<Seq<u8>>,
    pub persist_dir: Seq<u8>,
    pub ticks: u64,
}

impl View for Engine {
    type V = EngineModel;

    open spec fn view(&self) -> EngineModel {
        EngineModel {
            source: self.source,
            disks: views(self.disks@),
            mounts: self.mounts@,
            trees: self.trees@,
            progress: self.progress@,
            stop: self.stop,
            rescan_flag: self.rescan_flag,
            force_rescan: self.force_rescan,
            watch_reload: self.watch_reload,
            dirty: views(self.dirty@),
            expand_queue: views(self.expand_queue@),
            persist_dir: self.persist_dir@,
            ticks: self.ticks,
        }
    }
}

impl EngineModel {
    /// Whether all trees are well formed, and no mount has two trees or is
    /// noted twice.
    pub open spec fn wf(self) -> bool {
        trees_ok(self.trees) && distinct_keys(self.trees) && distinct_keys(self.progress)
    }

    /// The state with one more tick; the count starts again at zero.
    pub open spec fn ticked(self) -> EngineModel {
        EngineModel {
            ticks: if self.ticks == u64::MAX {
                0
            } else {
                (self.ticks + 1) as u64
            },
            ..self
        }
    }

    /// The state after a path was asked to be expanded: it waits, unless it
    /// stands for no place or waits already.
    pub open spec fn expand_requested(self, path: Seq<u8>) -> EngineModel {
        if path.len() == 0 || contains_seq(lossy_text(path), "::"@) || holds_path(
            self.expand_queue,
            path,
        ) {
            self
        } else {
            EngineModel { expand_queue: self.expand_queue.push(path), ..self }
        }
    }

    /// The state after a new scan was asked for, of one mount or of all: what
    /// is to be scanned has no tree any more.
    pub open spec fn rescan_requested(self, mount: Option<Seq<u8>>) -> EngineModel {
        match mount {
            Some(m) => EngineModel {
                trees: without_filed(self.trees, m),
                rescan_flag: true,
                ..self.with_progress(m, no_progress())
            },
            None => EngineModel {
                trees: Seq::empty(),
                force_rescan: true,
                rescan_flag: true,
                ..self
            },
        }
    }

    /// The state with a tree filed under a mount.
    pub open spec fn with_tree(self, mount: Seq<u8>, tree: TreeModel) -> EngineModel {
        EngineModel { trees: with_filed(self.trees, mount, tree), ..self }
    }

    /// The state with a tree that was kept on disk: cut to the depth that is
    /// stored, indexed anew, and live.
    pub open spec fn with_cached(self, mount: Seq<u8>, kept: TreeModel) -> EngineModel {
        let t = kept.pruned().reindexed();
        self.with_progress(
            mount,
            ProgressModel { files: t.files, bytes: t.bytes, done: true, error: None },
        ).with_tree(mount, t)
    }

    /// The state with the progress of a mount noted.
    pub open spec fn with_progress(self, mount: Seq<u8>, p: ProgressModel) -> EngineModel {
        EngineModel { progress: with_filed(self.progress, mount, p), ..self }
    }
}

/// The progress of a scan that has seen nothing.
pub open spec fn no_progress() -> ProgressModel {
    ProgressModel { files: 0, bytes: 0, done: false, error: None }
}

// ---------------------------------------------------------------------------
// Lists of mounts
// ---------------------------------------------------------------------------

/// The places of the mounts of the first `n` partitions.
pub open spec fn places_of_parts(parts: Seq<PartitionModel>, n: nat) -> Seq<Seq<u8>>
    decreases n,
{
    if n == 0 {
        Seq::empty()
    } else {
        places_of_parts(parts, (n - 1) as nat) + Seq::new(
            parts[n - 1].mounts.len(),
            |i: int| parts[n - 1].mounts[i].path,
        )
    }
}

/// The places of the mounts of the first `n` disks.
pub open spec fn places_of_disks(disks: Seq<DiskModel>, n: nat) -> Seq<Seq<u8>>
    decreases n,
{
    if n == 0 {
        Seq::empty()
    } else {
        places_of_disks(disks, (n - 1) as nat) + places_of_parts(
            disks[n - 1].partitions,
            disks[n - 1].partitions.len(),
        )
    }
}

/// Whether two lists of paths are equal, path by path.
pub open spec fn same_paths(a: Seq<Seq<u8>>, b: Seq<Seq<u8>>) -> bool {
    a.len() == b.len() && forall|i: int| 0 <= i < a.len() ==> same_path(#[trigger] a[i], b[i])
}

/// Puts the places of the mounts of a partition behind `out`.
fn push_places(p: &Partition, out: &mut Vec<PathBuf>)
    ensures
        views(final(out)@) == views(old(out)@) + Seq::new(
            p@.mounts.len(),
            |i: int| p@.mounts[i].path,
        ),
{
    let ghost first = views(out@);
    let ghost places = Seq::new(p@.mounts.len(), |i: int| p@.mounts[i].path);
    let mut i: usize = 0;
    assert(first + places.take(0) =~= first);
    while i < p.mounts.len()
        invariant
            i <= p.mounts.len(),
            places == Seq::new(p@.mounts.len(), |i: int| p@.mounts[i].path),
            views(out@) == first + places.take(i as int),
        decreases p.mounts.len() - i,
    {
        let path = p.mounts[i].path.clone();
        let ghost before = views(out@);
        let ghost model = path@;
        assert(p@.mounts[i as int] == p.mounts@[i as int]@);
        assert(places[i as int] == model);
        out.push(path);
        assert(views(out@) =~= before.push(model));
        assert(first + places.take(i + 1) =~= before.push(model));
        i = i + 1;
    }
    assert(places.take(places.len() as int) =~= places);
}

/// The places of all mounts of the disks.
pub fn mount_places(disks: &Vec<Disk>) -> (r: Vec<PathBuf>)
    ensures
        views(r@) == places_of_disks(views(disks@), disks@.len()),
{
    let ghost all = views(disks@);
    let mut out: Vec<PathBuf> = Vec::new();
    assert(views(out@) =~= Seq::<Seq<u8>>::empty());
    let mut d: usize = 0;
    while d < disks.len()
        invariant
            d <= disks.len(),
            all == views(disks@),
            views(out@) == places_of_disks(all, d as nat),
        decreases disks.len() - d,
    {
        let disk = &disks[d];
        let ghost parts = disk@.partitions;
        assert(all[d as int] == disk@);
        let ghost first = views(out@);
        let mut k: usize = 0;
        assert(first + places_of_parts(parts, 0) =~= first);
        while k < disk.partitions.len()
            invariant
                k <= disk.partitions.len(),
                parts == disk@.partitions,
                views(out@) == first + places_of_parts(parts, k as nat),
            decreases disk.partitions.len() - k,
        {
            assert(parts[k as int] == disk.partitions@[k as int]@);
            push_places(&disk.partitions[k], &mut out);
            assert(views(out@) =~= first + places_of_parts(parts, (k + 1) as nat));
            k = k + 1;
        }
        d = d + 1;
    }
    out
}

/// Whether two lists of paths are equal, path by path.
fn lists_equal(a: &Vec<PathBuf>, b: &Vec<PathBuf>) -> (r: bool)
    ensures
        r == same_paths(views(a@), views(b@)),
{
    if a.len() != b.len() {
        return false;
    }
    let ghost x = views(a@);
    let ghost y = views(b@);
    let mut i: usize = 0;
    while i < a.len()
        invariant
            i <= a.len() == b.len(),
            x == views(a@),
            y == views(b@),
            forall|j: int| 0 <= j < i ==> same_path(#[trigger] x[j], y[j]),
        decreases a.len() - i,
    {
        assert(x[i as int] == a@[i as int]@ && y[i as int] == b@[i as int]@);
        if !a[i].same_as(&b[i]) {
            return false;
        }
        i = i + 1;
    }
    true
}

// ---------------------------------------------------------------------------
// Scan jobs
// ---------------------------------------------------------------------------

/// A mount that is to be scanned.
pub struct Job {
    pub removable: bool,
    pub rotational: bool,
    pub size: u64,
    pub path: PathBuf,
}

/// The value of a [`Job`].
#[verifier::ext_equal]
pub struct JobModel {
    pub removable: bool,
    pub rotational: bool,
    pub size: u64,
    pub path: Seq<u8>,
}

impl View for Job {
    type V = JobModel;

    open spec fn view(&self) -> JobModel {
        JobModel {
            removable: self.removable,
            rotational: self.rotational,
            size: self.size,
            path: self.path@,
        }
    }
}

/// Fixed disks come first, then those that do not rotate, then small mounts.
impl Ranked for Job {
    open spec fn before(a: JobModel, b: JobModel) -> bool {
        if a.removable != b.removable {
            b.removable
        } else if a.rotational != b.rotational {
            b.rotational
        } else {
            a.size <= b.size
        }
    }

    proof fn before_total(a: JobModel, b: JobModel) {
    }

    proof fn before_transitive(a: JobModel, b: JobModel, c: JobModel) {
    }

    fn is_before(&self, other: &Job) -> (r: bool) {
        if self.removable != other.removable {
            other.removable
        } else if self.rotational != other.rotational {
            other.rotational
        } else {
            self.size <= other.size
        }
    }
}

/// The jobs of a partition.
pub open spec fn jobs_of_part(d: DiskModel, p: PartitionModel) -> Seq<JobModel> {
    Seq::new(
        p.mounts.len(),
        |i: int|
            JobModel {
                removable: d.removable,
                rotational: d.rotational,
                size: larger(p.mounts[i].total, p.size),
                path: p.mounts[i].path,
            },
    )
}

/// The jobs of the first `n` partitions of a disk.
pub open spec fn jobs_of_disk(d: DiskModel, n: nat) -> Seq<JobModel>
    decreases n,
{
    if n == 0 {
        Seq::empty()
    } else {
        jobs_of_disk(d, (n - 1) as nat) + jobs_of_part(d, d.partitions[n - 1])
    }
}

/// The jobs of the first `n` disks.
pub open spec fn jobs_of_disks(disks: Seq<DiskModel>, n: nat) -> Seq<JobModel>
    decreases n,
{
    if n == 0 {
        Seq::empty()
    } else {
        jobs_of_disks(disks, (n - 1) as nat) + jobs_of_disk(
            disks[n - 1],
            disks[n - 1].partitions.len(),
        )
    }
}

/// Puts the jobs of a partition behind `out`.
fn push_jobs(d: &Disk, p: &Partition, out: &mut Vec<Job>)
    ensures
        views(final(out)@) == views(old(out)@) + jobs_of_part(d@, p@),
{
    let ghost first = views(out@);
    let ghost jobs = jobs_of_part(d@, p@);
    let mut i: usize = 0;
    assert(first + jobs.take(0) =~= first);
    while i < p.mounts.len()
        invariant
            i <= p.mounts.len(),
            jobs == jobs_of_part(d@, p@),
            views(out@) == first + jobs.take(i as int),
        decreases p.mounts.len() - i,
    {
        let m = &p.mounts[i];
        assert(p@.mounts[i as int] == m@);
        let job = Job {
            removable: d.removable,
            rotational: d.rotational,
            size: larger_of(m.total, p.size),
            path: m.path.clone(),
        };
        let ghost before = views(out@);
        let ghost model = job@;
        assert(jobs[i as int] == model);
        out.push(job);
        assert(views(out@) =~= before.push(model));
        assert(first + jobs.take(i + 1) =~= before.push(model));
        i = i + 1;
    }
    assert(jobs.take(jobs.len() as int) =~= jobs);
}

/// All mounts of the disks in the order in which they are scanned.
pub fn scan_jobs(disks: &Vec<Disk>) -> (r: Vec<Job>)
    ensures
        views(r@) == ordered::<Job>(jobs_of_disks(views(disks@), disks@.len())),
{
    let ghost all = views(disks@);
    let mut out: Vec<Job> = Vec::new();
    assert(views(out@) =~= Seq::<JobModel>::empty());
    let mut d: usize = 0;
    while d < disks.len()
        invariant
            d <= disks.len(),
            all == views(disks@),
            views(out@) == jobs_of_disks(all, d as nat),
        decreases disks.len() - d,
    {
        let disk = &disks[d];
        assert(all[d as int] == disk@);
        let ghost first = views(out@);
        let mut k: usize = 0;
        assert(first + jobs_of_disk(disk@, 0) =~= first);
        while k < disk.partitions.len()
            invariant
                k <= disk.partitions.len(),
                views(out@) == first + jobs_of_disk(disk@, k as nat),
            decreases disk.partitions.len() - k,
        {
            assert(disk@.partitions[k as int] == disk.partitions@[k as int]@);
            push_jobs(disk, &disk.partitions[k], &mut out);
            assert(views(out@) =~= first + jobs_of_disk(disk@, (k + 1) as nat));
            k = k + 1;
        }
        d = d + 1;
    }
    sort(&mut out);
    out
}

// ---------------------------------------------------------------------------
// Changed paths
// ---------------------------------------------------------------------------

/// The paths without those that equal the one kept before them.
pub open spec fn distinct_paths(s: Seq<Seq<u8>>) -> Seq<Seq<u8>>
    decreases s.len(),
{
    if s.len() == 0 {
        Seq::empty()
    } else {
        let kept = distinct_paths(s.drop_last());
        if kept.len() > 0 && same_path(s.last(), kept.last()) {
            kept
        } else {
            kept.push(s.last())
        }
    }
}

/// Drops paths that equal the one before them.
fn dedup_paths(s: &Vec<PathBuf>) -> (r: Vec<PathBuf>)
    ensures
        views(r@) == distinct_paths(views(s@)),
{
    let ghost all = views(s@);
    let mut out: Vec<PathBuf> = Vec::new();
    let mut i: usize = 0;
    assert(views(out@) =~= distinct_paths(all.take(0)));
    while i < s.len()
        invariant
            i <= s.len(),
            all == views(s@),
            views(out@) == distinct_paths(all.take(i as int)),
        decreases s.len() - i,
    {
        assert(all.take(i + 1).drop_last() =~= all.take(i as int));
        assert(all.take(i + 1).last() == s@[i as int]@);
        let ghost before = views(out@);
        let n: usize = out.len();
        assert(n > 0 ==> before.last() == out@[n - 1]@);
        if n == 0 || !s[i].same_as(&out[n - 1]) {
            let path = s[i].clone();
            let ghost model = path@;
            out.push(path);
            assert(views(out@) =~= before.push(model));
        }
        i = i + 1;
    }
    assert(all.take(all.len() as int) =~= all);
    out
}

/// A changed path and the mount whose tree it belongs to.
pub struct DirtyJob {
    pub mount: PathBuf,
    pub path: PathBuf,
}

impl View for DirtyJob {
    type V = (Seq<u8>, Seq<u8>);

    open spec fn view(&self) -> (Seq<u8>, Seq<u8>) {
        (self.mount@, self.path@)
    }
}

/// The first `n` paths that belong to a tree, each with the mount of the tree.
pub open spec fn dirty_jobs(
    trees: Seq<(Seq<u8>, TreeModel)>,
    paths: Seq<Seq<u8>>,
    n: nat,
) -> Seq<(Seq<u8>, Seq<u8>)>
    decreases n,
{
    if n == 0 {
        Seq::empty()
    } else {
        let before = dirty_jobs(trees, paths, (n - 1) as nat);
        match longest_key(trees, paths[n - 1], trees.len()) {
            Some(i) => before.push((trees[i].0, paths[n - 1])),
            None => before,
        }
    }
}

/// How many of the changed paths are looked at.
pub open spec fn dirty_count(paths: Seq<Seq<u8>>) -> nat {
    if paths.len() < DIRTY_LIMIT {
        paths.len()
    } else {
        DIRTY_LIMIT as nat
    }
}

/// The paths without those that stood before in the list.
pub open spec fn first_occurrences(s: Seq<Seq<u8>>) -> Seq<Seq<u8>>
    decreases s.len(),
{
    if s.len() == 0 {
        Seq::empty()
    } else {
        let kept = first_occurrences(s.drop_last());
        if holds_path(kept, s.last()) {
            kept
        } else {
            kept.push(s.last())
        }
    }
}

/// Whether a path stands in the list.
pub open spec fn holds_path(s: Seq<Seq<u8>>, path: Seq<u8>) -> bool {
    exists|i: int| 0 <= i < s.len() && same_path(#[trigger] s[i], path)
}

/// Whether a path stands in the list.
fn list_holds(s: &Vec<PathBuf>, path: &PathBuf) -> (r: bool)
    ensures
        r == holds_path(views(s@), path@),
{
    let ghost all = views(s@);
    let mut i: usize = 0;
    while i < s.len()
        invariant
            i <= s.len(),
            all == views(s@),
            forall|j: int| 0 <= j < i ==> !same_path(#[trigger] all[j], path@),
        decreases s.len() - i,
    {
        assert(all[i as int] == s@[i as int]@);
        if s[i].same_as(path) {
            return true;
        }
        i = i + 1;
    }
    false
}

// ---------------------------------------------------------------------------
// File names
// ---------------------------------------------------------------------------

/// Whether a character is an ASCII letter or digit.
pub open spec fn ascii_alphanumeric(c: char) -> bool {
    'a' <= c <= 'z' || 'A' <= c <= 'Z' || '0' <= c <= '9'
}

/// The text with an underscore for each character but ASCII letters and digits.
pub open spec fn slug(s: Seq<char>) -> Seq<char> {
    Seq::new(
        s.len(),
        |i: int|
            if ascii_alphanumeric(s[i]) {
                s[i]
            } else {
                '_'
            },
    )
}

/// The file in which the tree of a mount is kept.
pub open spec fn cache_file(dir: Seq<u8>, mount: Seq<u8>) -> Seq<u8> {
    joined(dir, encode_utf8(slug(lossy_text(mount)) + ".bin"@))
}

/// The file in which the tree of a mount is kept.
pub fn persist_name(dir: &PathBuf, mount: &PathBuf) -> (r: PathBuf)
    ensures
        r@ == cache_file(dir@, mount@),
{
    let text = mount.to_string_lossy();
    let chars = chars_of(text.as_str());
    let ghost target = slug(chars@);
    let mut out = String::new();
    let mut i: usize = 0;
    assert(out@ =~= target.take(0));
    while i < chars.len()
        invariant
            i <= chars.len(),
            target == slug(chars@),
            out@ == target.take(i as int),
        decreases chars.len() - i,
    {
        let c = chars[i];
        let keep = ('a' <= c && c <= 'z') || ('A' <= c && c <= 'Z') || ('0' <= c && c <= '9');
        out.push(
            if keep {
                c
            } else {
                '_'
            },
        );
        assert(out@ =~= target.take(i + 1));
        i = i + 1;
    }
    assert(target.take(target.len() as int) =~= target);
    out.append(".bin");
    dir.join(out.as_str())
}

// ---------------------------------------------------------------------------
// Events
// ---------------------------------------------------------------------------

impl Engine {
    /// A scanner that has seen nothing and is to scan everything.
    pub fn new(source: SnapshotSource, persist_dir: PathBuf) -> (r: Engine)
        ensures
            r@ == (EngineModel {
                source,
                disks: Seq::empty(),
                mounts: Seq::empty(),
                trees: Seq::empty(),
                progress: Seq::empty(),
                stop: false,
                rescan_flag: true,
                force_rescan: true,
                watch_reload: false,
                dirty: Seq::empty(),
                expand_queue: Seq::empty(),
                persist_dir: persist_dir@,
                ticks: 0,
            }),
            r@.wf(),
    {
        let r = Engine {
            source,
            disks: Vec::new(),
            mounts: MountTable::default(),
            trees: PathMap::new(),
            progress: PathMap::new(),
            stop: false,
            rescan_flag: true,
            force_rescan: true,
            watch_reload: false,
            dirty: Vec::new(),
            expand_queue: Vec::new(),
            persist_dir,
            ticks: 0,
        };
        assert(r@.disks =~= Seq::<DiskModel>::empty());
        assert(r@.dirty =~= Seq::<Seq<u8>>::empty());
        assert(r@.expand_queue =~= Seq::<Seq<u8>>::empty());
        r
    }

    /// Asks the scanner to stop.
    pub fn stop(&mut self)
        ensures
            final(self)@ == (EngineModel { stop: true, ..old(self)@ }),
    {
        self.stop = true;
    }

    /// Notes that something has changed.
    pub fn tick(&mut self)
        ensures
            final(self)@ == old(self)@.ticked(),
    {
        self.ticks = self.ticks.wrapping_add(1);
    }

    /// Asks for a new scan, of one mount or of all. Trees that are to be
    /// scanned anew are dropped.
    pub fn request_rescan(&mut self, mount: Option<PathBuf>)
        ensures
            final(self)@ == old(self)@.rescan_requested(crate::tree::path_model(mount)),
            old(self)@.wf() ==> final(self)@.wf(),
    {
        match mount {
            Some(m) => {
                proof {
                    lemma_without_ok(self@.trees, m@);
                }
                self.trees.remove(&m);
                self.progress.insert(
                    m,
                    ScanProgress::default(),
                );
                self.rescan_flag = true;
            },
            None => {
                self.trees = PathMap::new();
                self.force_rescan = true;
                self.rescan_flag = true;
            },
        }
    }

    /// Asks for one more layer under a path. Paths that stand for no place,
    /// and those that wait already, are left out.
    pub fn request_expand(&mut self, path: PathBuf)
        ensures
            final(self)@ == old(self)@.expand_requested(path@),
            old(self)@.wf() ==> final(self)@.wf(),
    {
        if path.bytes.len() == 0 {
            return ;
        }
        let text = path.to_string_lossy();
        if contains_text(text.as_str(), "::") {
            return ;
        }
        if !list_holds(&self.expand_queue, &path) {
            let ghost before = views(self.expand_queue@);
            let ghost model = path@;
            self.expand_queue.push(path);
            assert(views(self.expand_queue@) =~= before.push(model));
        }
    }

    /// Takes over the disks and mounts that were found. Where the list of
    /// mounts has changed, watches are set anew and missing trees scanned.
    pub fn refresh_topology(&mut self, disks: Vec<Disk>, table: MountTable)
        ensures
            final(self)@ == ({
                let moved = !same_paths(
                    places_of_disks(old(self)@.disks, old(self)@.disks.len()),
                    places_of_disks(views(disks@), disks@.len()),
                );
                (EngineModel {
                    disks: views(disks@),
                    mounts: table@,
                    watch_reload: old(self)@.watch_reload || moved,
                    rescan_flag: old(self)@.rescan_flag || moved,
                    ..old(self)@
                }).ticked()
            }),
            old(self)@.wf() ==> final(self)@.wf(),
    {
        let was = mount_places(&self.disks);
        let now = mount_places(&disks);
        if !lists_equal(&was, &now) {
            self.watch_reload = true;
            self.rescan_flag = true;
        }
        self.mounts = table;
        self.disks = disks;
        self.tick();
    }

    /// Notes a changed path.
    pub fn note_dirty(&mut self, path: PathBuf)
        ensures
            final(self)@ == (EngineModel { dirty: old(self)@.dirty.push(path@), ..old(self)@ }),
    {
        let ghost before = views(self.dirty@);
        let ghost model = path@;
        self.dirty.push(path);
        assert(views(self.dirty@) =~= before.push(model));
    }

    /// The changed paths that are to be looked at now, each with the mount
    /// whose tree it belongs to: sorted, without repetitions, no more than
    /// [`DIRTY_LIMIT`]. Those beyond the limit wait for the next time.
    pub fn take_dirty(&mut self) -> (r: Vec<DirtyJob>)
        ensures
            ({
                let unique = distinct_paths(ordered::<PathBuf>(old(self)@.dirty));
                let n = dirty_count(unique);
                &&& views(r@) == dirty_jobs(old(self)@.trees, unique, n)
                &&& final(self)@ == (EngineModel { dirty: unique.skip(n as int), ..old(self)@ })
            }),
    {
        let mut paths: Vec<PathBuf> = Vec::new();
        std::mem::swap(&mut paths, &mut self.dirty);
        assert(self@.dirty =~= Seq::<Seq<u8>>::empty());
        sort(&mut paths);
        let unique = dedup_paths(&paths);
        let ghost all = views(unique@);
        let limit: usize = if unique.len() < DIRTY_LIMIT {
            unique.len()
        } else {
            DIRTY_LIMIT
        };
        let mut out: Vec<DirtyJob> = Vec::new();
        assert(views(out@) =~= Seq::<(Seq<u8>, Seq<u8>)>::empty());
        let mut i: usize = 0;
        while i < limit
            invariant
                i <= limit <= unique.len(),
                all == views(unique@),
                views(out@) == dirty_jobs(self@.trees, all, i as nat),
            decreases limit - i,
        {
            let path = &unique[i];
            assert(all[i as int] == path@);
            if let Some(k) = self.trees.longest_above(path) {
                let job = DirtyJob { mount: self.trees.entries[k].0.clone(), path: path.clone() };
                let ghost before = views(out@);
                let ghost model = job@;
                out.push(job);
                assert(views(out@) =~= before.push(model));
            }
            i = i + 1;
        }
        let mut left: Vec<PathBuf> = Vec::new();
        assert(views(left@) =~= all.subrange(limit as int, limit as int));
        while i < unique.len()
            invariant
                limit <= i <= unique.len(),
                all == views(unique@),
                views(left@) == all.subrange(limit as int, i as int),
            decreases unique.len() - i,
        {
            let path = unique[i].clone();
            let ghost before = views(left@);
            let ghost model = path@;
            assert(all[i as int] == model);
            left.push(path);
            assert(views(left@) =~= before.push(model));
            assert(views(left@) =~= all.subrange(limit as int, i + 1));
            i = i + 1;
        }
        assert(all.subrange(limit as int, all.len() as int) =~= all.skip(limit as int));
        self.dirty = left;
        out
    }

    /// Takes a change at `path` into the tree of `mount`. The result is the
    /// directory that is to be rescanned, if there is one.
    pub fn apply_dirty(&mut self, mount: &PathBuf, path: &PathBuf, found: Found) -> (r: Option<
        PathBuf,
    >)
        requires
            old(self)@.wf(),
            filed_under(old(self)@.trees, mount@) matches Some(t) ==> t.changed(
                old(self)@.mounts,
                path@,
                found,
            ).0.nodes.len() <= MAX_NODES,
        ensures
            final(self)@.wf(),
            match filed_under(old(self)@.trees, mount@) {
                Some(t) => {
                    let (after, next) = t.changed(old(self)@.mounts, path@, found);
                    &&& final(self)@ == old(self)@.with_tree(mount@, after)
                    &&& crate::tree::path_model(r) == next
                },
                None => final(self)@ == old(self)@ && r is None,
            },
    {
        let ghost before = self@;
        proof {
            lemma_place_of(self@.trees, mount@, self@.trees.len());
        }
        match self.trees.find(mount) {
            None => None,
            Some(i) => {
                assert(before.trees[i as int].1.wf());
                let r = apply_change(&mut self.trees.entries[i].1, path, &self.mounts, found);
                assert(self@.trees =~= with_filed(
                    before.trees,
                    mount@,
                    before.trees[i as int].1.changed(before.mounts, path@, found).0,
                ));
                r
            },
        }
    }

    /// How many levels a rescan of `dir` in the tree of `mount` looks at; none
    /// if there is nothing to do.
    pub fn dirty_levels(&self, mount: &PathBuf, dir: &PathBuf) -> (r: Option<u32>)
        ensures
            r == match filed_under(self@.trees, mount@) {
                Some(t) => if t.rescans(self@.mounts, dir@) {
                    Some(t.levels_below(dir@))
                } else {
                    None
                },
                None => None,
            },
    {
        match self.trees.find(mount) {
            None => None,
            Some(i) => rescan_levels(&self.trees.entries[i].1, dir, &self.mounts),
        }
    }

    /// Brings the part of the tree of `mount` at `dir` up to date.
    pub fn rescan_dirty(
        &mut self,
        mount: &PathBuf,
        dir: &PathBuf,
        exists: bool,
        sub: Option<&FileTree>,
    )
        requires
            old(self)@.wf(),
            sub matches Some(s) ==> s.model().wf(),
            filed_under(old(self)@.trees, mount@) matches Some(t) ==> t.rescanned(
                old(self)@.mounts,
                dir@,
                exists,
                crate::rescan::tree_model(sub),
            ).nodes.len() <= MAX_NODES,
        ensures
            final(self)@.wf(),
            final(self)@ == match filed_under(old(self)@.trees, mount@) {
                Some(t) => old(self)@.with_tree(
                    mount@,
                    t.rescanned(old(self)@.mounts, dir@, exists, crate::rescan::tree_model(sub)),
                ),
                None => old(self)@,
            },
    {
        let ghost before = self@;
        proof {
            lemma_place_of(self@.trees, mount@, self@.trees.len());
        }
        if let Some(i) = self.trees.find(mount) {
            assert(before.trees[i as int].1.wf());
            rescan_dir(&mut self.trees.entries[i].1, dir, &self.mounts, exists, sub);
            assert(self@.trees =~= with_filed(
                before.trees,
                mount@,
                before.trees[i as int].1.rescanned(
                    before.mounts,
                    dir@,
                    exists,
                    crate::rescan::tree_model(sub),
                ),
            ));
        }
    }
}

/// Well formed trees stay so where one is dropped.
proof fn lemma_without_ok(s: Seq<(Seq<u8>, TreeModel)>, path: Seq<u8>)
    ensures
        trees_ok(s) ==> trees_ok(without_filed(s, path)),
{
    lemma_place_of(s, path, s.len());
    if trees_ok(s) {
        let t = without_filed(s, path);
        assert forall|i: int| 0 <= i < t.len() implies (#[trigger] t[i]).1.wf() by {
            match place_of(s, path, s.len()) {
                Some(k) => {
                    if i < k {
                        assert(t[i] == s[i]);
                    } else {
                        assert(t[i] == s[i + 1]);
                    }
                },
                None => {},
            }
        }
    }
}

/// Well formed trees stay so where another one is filed.
proof fn lemma_with_ok(s: Seq<(Seq<u8>, TreeModel)>, path: Seq<u8>, tree: TreeModel)
    requires
        tree.wf(),
        trees_ok(s),
        distinct_keys(s),
    ensures
        trees_ok(with_filed(s, path, tree)),
        distinct_keys(with_filed(s, path, tree)),
{
    law_filed_distinct(s, path, tree);
    lemma_place_of(s, path, s.len());
    let t = with_filed(s, path, tree);
    assert forall|i: int| 0 <= i < t.len() implies (#[trigger] t[i]).1.wf() by {
        if i < s.len() {
            assert(s[i].1.wf());
        }
    }
}

/// Whether the topology is to be looked at again.
pub fn topology_due(elapsed: u128) -> (r: bool)
    ensures
        r == (elapsed > TOPOLOGY_PERIOD),
{
    elapsed > TOPOLOGY_PERIOD
}

/// Whether progress is to be published, given the nanoseconds since it was
/// last, and since the tree was taken.
pub fn publish_due(since_published: u128, since_taken: u128) -> (r: bool)
    ensures
        r == (since_published >= PUBLISH_PERIOD || since_taken >= BATCH_PERIOD),
{
    since_published >= PUBLISH_PERIOD || since_taken >= BATCH_PERIOD
}

impl Engine {
    /// Whether mounts are to be scanned now, given the nanoseconds since they
    /// last were: on request, and all of them after [`FULL_PERIOD`].
    pub fn scan_due(&mut self, elapsed: u128) -> (r: bool)
        ensures
            r == (old(self)@.rescan_flag || elapsed > FULL_PERIOD),
            final(self)@ == (EngineModel {
                rescan_flag: false,
                force_rescan: old(self)@.force_rescan || elapsed > FULL_PERIOD,
                ..old(self)@
            }),
    {
        let due = self.rescan_flag || elapsed > FULL_PERIOD;
        self.rescan_flag = false;
        if elapsed > FULL_PERIOD {
            self.force_rescan = true;
        }
        due
    }

    /// Whether mounts are to be scanned though they have a tree. The request
    /// is done with.
    pub fn take_force(&mut self) -> (r: bool)
        ensures
            r == old(self)@.force_rescan,
            final(self)@ == (EngineModel { force_rescan: false, ..old(self)@ }),
    {
        let force = self.force_rescan;
        self.force_rescan = false;
        force
    }

    /// Whether a mount is to be scanned.
    pub fn wants_scan(&self, mount: &PathBuf, force: bool) -> (r: bool)
        ensures
            r == (!self@.stop && (force || filed_under(self@.trees, mount@) is None)),
    {
        !self.stop && (force || self.trees.get(mount).is_none())
    }

    /// Begins the scan of a mount. A mount without a tree gets an empty one.
    pub fn begin_scan(&mut self, mount: &PathBuf)
        requires
            old(self)@.wf(),
        ensures
            final(self)@.wf(),
            final(self)@ == ({
                let noted = old(self)@.with_progress(mount@, no_progress());
                if filed_under(old(self)@.trees, mount@) is None {
                    noted.with_tree(mount@, TreeModel::fresh(mount@))
                } else {
                    noted
                }
            }),
    {
        self.progress.insert(
            mount.clone(),
            ScanProgress { files: 0, bytes: 0, done: false, error: None },
        );
        if self.trees.get(mount).is_none() {
            let tree = FileTree::new(mount.clone());
            proof {
                lemma_with_ok(self@.trees, mount@, tree.model());
            }
            self.trees.insert(mount.clone(), tree);
        }
    }

    /// Notes how far the scan of a mount has come.
    pub fn note_progress(&mut self, mount: &PathBuf, files: u64, bytes: u64)
        ensures
            final(self)@ == old(self)@.with_progress(
                mount@,
                ProgressModel { files, bytes, done: false, error: None },
            ),
            old(self)@.wf() ==> final(self)@.wf(),
    {
        self.progress.insert(
            mount.clone(),
            ScanProgress { files, bytes, done: false, error: None },
        );
    }

    /// Puts a tree in place of the one of a mount, and hands that one out. A
    /// mount without a tree takes none.
    pub fn swap_tree(&mut self, mount: &PathBuf, tree: FileTree) -> (r: Option<FileTree>)
        requires
            old(self)@.wf(),
            tree.model().wf(),
        ensures
            final(self)@.wf(),
            match filed_under(old(self)@.trees, mount@) {
                Some(t) => {
                    &&& r matches Some(x) && x.model() == t
                    &&& final(self)@ == old(self)@.with_tree(mount@, tree.model())
                },
                None => r is None && final(self)@ == old(self)@,
            },
    {
        let ghost before = self@;
        let ghost new = tree.model();
        proof {
            lemma_place_of(self@.trees, mount@, self@.trees.len());
        }
        match self.trees.find(mount) {
            None => None,
            Some(i) => {
                let mut other = tree;
                std::mem::swap(&mut self.trees.entries[i].1, &mut other);
                assert(self@.trees =~= with_filed(before.trees, mount@, new));
                proof {
                    lemma_with_ok(before.trees, mount@, new);
                }
                Some(other)
            },
        }
    }

    /// Ends the scan of a mount: its counts are the progress, and its tree
    /// takes the place of the one that the mount has. Where the mount has lost
    /// its tree meanwhile, the new one is handed back.
    pub fn finish_scan(&mut self, mount: &PathBuf, tree: FileTree) -> (r: Option<FileTree>)
        requires
            old(self)@.wf(),
            tree.model().wf(),
        ensures
            final(self)@.wf(),
            final(self)@ == ({
                let t = tree.model();
                let filed = if filed_under(old(self)@.trees, mount@) is Some {
                    old(self)@.with_tree(mount@, t)
                } else {
                    old(self)@
                };
                filed.with_progress(
                    mount@,
                    ProgressModel { files: t.files, bytes: t.bytes, done: true, error: None },
                ).ticked()
            }),
            match filed_under(old(self)@.trees, mount@) {
                Some(_) => r is None,
                None => r matches Some(x) && x.model() == tree.model(),
            },
    {
        self.progress.insert(
            mount.clone(),
            ScanProgress { files: tree.files, bytes: tree.bytes, done: true, error: None },
        );
        let lost = if self.trees.get(mount).is_some() {
            self.swap_tree(mount, tree);
            None
        } else {
            Some(tree)
        };
        self.tick();
        lost
    }

    /// Notes that the scan of a mount has failed.
    pub fn fail_scan(&mut self, mount: &PathBuf, error: String)
        ensures
            final(self)@ == old(self)@.with_progress(
                mount@,
                ProgressModel { files: 0, bytes: 0, done: true, error: Some(error@) },
            ).ticked(),
            old(self)@.wf() ==> final(self)@.wf(),
    {
        self.progress.insert(
            mount.clone(),
            ScanProgress { files: 0, bytes: 0, done: true, error: Some(error) },
        );
        self.tick();
    }

    /// The paths that wait for one more layer, each once. None waits any
    /// longer.
    pub fn take_expands(&mut self) -> (r: Vec<PathBuf>)
        ensures
            views(r@) == first_occurrences(old(self)@.expand_queue),
            final(self)@ == (EngineModel { expand_queue: Seq::empty(), ..old(self)@ }),
    {
        let mut queue: Vec<PathBuf> = Vec::new();
        std::mem::swap(&mut queue, &mut self.expand_queue);
        assert(self@.expand_queue =~= Seq::<Seq<u8>>::empty());
        let ghost all = views(queue@);
        let mut out: Vec<PathBuf> = Vec::new();
        let mut i: usize = 0;
        assert(views(out@) =~= first_occurrences(all.take(0)));
        while i < queue.len()
            invariant
                i <= queue.len(),
                all == views(queue@),
                views(out@) == first_occurrences(all.take(i as int)),
            decreases queue.len() - i,
        {
            assert(all.take(i + 1).drop_last() =~= all.take(i as int));
            assert(all.take(i + 1).last() == queue@[i as int]@);
            if !list_holds(&out, &queue[i]) {
                let path = queue[i].clone();
                let ghost before = views(out@);
                let ghost model = path@;
                out.push(path);
                assert(views(out@) =~= before.push(model));
            }
            i = i + 1;
        }
        assert(all.take(all.len() as int) =~= all);
        out
    }

    /// Lets paths wait again, behind those that wait already.
    pub fn requeue_expands(&mut self, paths: Vec<PathBuf>)
        ensures
            final(self)@ == (EngineModel {
                expand_queue: old(self)@.expand_queue + views(paths@),
                ..old(self)@
            }),
    {
        let ghost before = views(self.expand_queue@);
        let ghost more = views(paths@);
        let mut paths = paths;
        self.expand_queue.append(&mut paths);
        assert(views(self.expand_queue@) =~= before + more);
    }

    /// Begins to expand a path: the mount whose tree is to get one more layer,
    /// in which the path has its directory now. None if the path is to wait:
    /// it is in no tree, or the scan of its mount is not done.
    pub fn begin_expand(&mut self, path: &PathBuf) -> (r: Option<PathBuf>)
        requires
            old(self)@.wf(),
            longest_key(old(self)@.trees, path@, old(self)@.trees.len()) matches Some(i) ==> old(
                self,
            )@.trees[i].1.ensured(path@).0.nodes.len() <= MAX_NODES,
        ensures
            final(self)@.wf(),
            match longest_key(old(self)@.trees, path@, old(self)@.trees.len()) {
                Some(i) => {
                    let mount = old(self)@.trees[i].0;
                    let ready = filed_under(old(self)@.progress, mount) matches Some(p) && p.done;
                    if ready {
                        &&& crate::tree::path_model(r) == Some(mount)
                        &&& final(self)@ == (EngineModel {
                            trees: old(self)@.trees.update(
                                i,
                                (mount, old(self)@.trees[i].1.ensured(path@).0),
                            ),
                            ..old(self)@
                        })
                    } else {
                        r is None && final(self)@ == old(self)@
                    }
                },
                None => r is None && final(self)@ == old(self)@,
            },
    {
        let ghost before = self@;
        let i: usize = match self.trees.longest_above(path) {
            Some(i) => i,
            None => {
                return None;
            },
        };
        let mount = self.trees.entries[i].0.clone();
        let ready = match self.progress.get(&mount) {
            Some(p) => p.done,
            None => false,
        };
        if !ready {
            return None;
        }
        assert(before.trees[i as int].1.wf());
        self.trees.entries[i].1.ensure_dir_uncapped(path);
        assert(self@.trees =~= before.trees.update(
            i as int,
            (before.trees[i as int].0, before.trees[i as int].1.ensured(path@).0),
        ));
        Some(mount)
    }

    /// Ends the expansion of a path with a scan of it that stores one level.
    /// The result is the number of nodes added.
    pub fn finish_expand(&mut self, mount: &PathBuf, path: &PathBuf, sub: &FileTree) -> (r: u32)
        requires
            old(self)@.wf(),
            sub.model().wf(),
            filed_under(old(self)@.trees, mount@) matches Some(t) ==> t.layered(
                path@,
                sub.model(),
            ).nodes.len() <= MAX_NODES,
        ensures
            final(self)@.wf(),
            match filed_under(old(self)@.trees, mount@) {
                Some(t) => {
                    let after = t.layered(path@, sub.model());
                    let next = old(self)@.with_tree(mount@, after);
                    &&& r == after.nodes.len() - t.nodes.len()
                    &&& final(self)@ == if r > 0 {
                        next.ticked()
                    } else {
                        next
                    }
                },
                None => r == 0 && final(self)@ == old(self)@,
            },
    {
        let ghost before = self@;
        proof {
            lemma_place_of(self@.trees, mount@, self@.trees.len());
        }
        match self.trees.find(mount) {
            None => 0,
            Some(i) => {
                assert(before.trees[i as int].1.wf());
                let added: u32 = graft_expand_layer(&mut self.trees.entries[i].1, path, sub);
                assert(self@.trees =~= with_filed(
                    before.trees,
                    mount@,
                    before.trees[i as int].1.layered(path@, sub.model()),
                ));
                if added > 0 {
                    self.tick();
                }
                added
            },
        }
    }

    /// Takes over a tree that was kept on disk. One that was stored to another
    /// depth is refused.
    pub fn accept_cached(&mut self, mount: PathBuf, tree: FileTree) -> (r: bool)
        requires
            old(self)@.wf(),
            tree.model().wf(),
        ensures
            final(self)@.wf(),
            r == (tree.model().store_depth == STORE_DEPTH),
            final(self)@ == if r {
                old(self)@.with_cached(mount@, tree.model())
            } else {
                old(self)@
            },
    {
        let mut tree = tree;
        if tree.store_depth != STORE_DEPTH {
            return false;
        }
        tree.prune_to_store_depth();
        tree.rebuild_index();
        self.progress.insert(
            mount.clone(),
            ScanProgress { files: tree.files, bytes: tree.bytes, done: true, error: None },
        );
        proof {
            lemma_with_ok(self@.trees, mount@, tree.model());
        }
        self.trees.insert(mount, tree);
        true
    }
}

/// What came of the attempt to expand a path.
#[derive(Clone, Copy, Debug, PartialEq, Eq, Structural)]
pub enum ExpandOutcome {
    /// The scanner is to stop.
    Stopped,
    /// The path is in no tree, or the scan of its mount is not done.
    NotReady,
    /// The tree can take no more nodes.
    Full,
    /// The path is no directory.
    NoDirectory,
    /// The directory could not be scanned.
    ScanFailed,
    /// So many nodes were added.
    Added(u32),
}

/// What follows an attempt to expand a path.
#[derive(Clone, Copy, Debug, PartialEq, Eq, Structural)]
pub enum ExpandResult {
    /// It is done with.
    Done,
    /// It is done with, and the tree is to be kept on disk.
    Keep,
    /// It is to be tried again.
    Retry,
}

/// What follows an attempt to expand a path: one that could not begin is tried
/// again, and a tree that has grown is kept.
pub fn expand_result(outcome: ExpandOutcome) -> (r: ExpandResult)
    ensures
        r == match outcome {
            ExpandOutcome::Stopped | ExpandOutcome::NotReady => ExpandResult::Retry,
            ExpandOutcome::Added(n) => if n > 0 {
                ExpandResult::Keep
            } else {
                ExpandResult::Done
            },
            _ => ExpandResult::Done,
        },
{
    match outcome {
        ExpandOutcome::Stopped => ExpandResult::Retry,
        ExpandOutcome::NotReady => ExpandResult::Retry,
        ExpandOutcome::Added(n) => {
            if n > 0 {
                ExpandResult::Keep
            } else {
                ExpandResult::Done
            }
        },
        _ => ExpandResult::Done,
    }
}

// ---------------------------------------------------------------------------
// Snapshots
// ---------------------------------------------------------------------------

/// What is shown of a partition.
pub open spec fn shown_partition(
    scene: Scene,
    p: PartitionModel,
    usage: Seq<UsageModel>,
) -> PartitionViewModel {
    PartitionViewModel {
        name: p.name,
        mapped_name: p.mapped_name,
        label: p.label,
        fstype: p.fstype,
        size: p.size,
        start: p.start,
        locked: p.locked,
        mounts: scene.partition(p, usage),
    }
}

/// What is shown of a disk.
pub open spec fn shown_disk(
    scene: Scene,
    d: DiskModel,
    usage: Seq<Seq<UsageModel>>,
) -> DiskViewModel {
    DiskViewModel {
        name: d.name,
        model: d.model,
        serial: d.serial,
        transport: d.transport,
        size: d.size,
        rotational: d.rotational,
        removable: d.removable,
        unallocated: d.unallocated,
        partitions: Seq::new(
            d.partitions.len(),
            |i: int| shown_partition(scene, d.partitions[i], usage[i]),
        ),
    }
}

/// Whether all sums that a partition shows are in range.
pub open spec fn partition_fits(
    scene: Scene,
    p: PartitionModel,
    usage: Seq<UsageModel>,
) -> bool {
    share_pool(usage) ==> scene.sums_fit(usage, p.fstype)
}

/// Whether all sums that a disk shows are in range.
pub open spec fn disk_fits(scene: Scene, d: DiskModel, usage: Seq<Seq<UsageModel>>) -> bool {
    forall|i: int|
        0 <= i < d.partitions.len() ==> partition_fits(
            scene,
            #[trigger] d.partitions[i],
            usage[i],
        )
}

/// The usage of the mounts of each partition.
pub open spec fn part_usage(v: Seq<Vec<Usage>>) -> Seq<Seq<UsageModel>> {
    Seq::new(v.len(), |i: int| views(v[i]@))
}

/// The usage of the mounts of each partition of each disk.
pub open spec fn disk_usage(v: Seq<Vec<Vec<Usage>>>) -> Seq<Seq<Seq<UsageModel>>> {
    Seq::new(v.len(), |i: int| part_usage(v[i]@))
}

impl EngineModel {
    /// What the map is drawn from.
    pub open spec fn scene(self, focus: Seq<Seq<u8>>, open: Seq<Seq<u8>>) -> Scene {
        Scene { trees: self.trees, progress: self.progress, focus, open }
    }
}

impl Engine {
    /// What is shown of a disk; none if a sum that is shown is out of range.
    fn disk_view(
        &self,
        d: &Disk,
        usage: &Vec<Vec<Usage>>,
        focus: &[String],
        open: &[String],
    ) -> (r: Option<DiskView>)
        requires
            self@.wf(),
            usage@.len() == d@.partitions.len(),
        ensures
            ({
                let scene = self@.scene(text_paths(focus@), text_paths(open@));
                let us = part_usage(usage@);
                match r {
                    Some(v) => disk_fits(scene, d@, us) && v@ == shown_disk(scene, d@, us),
                    None => !disk_fits(scene, d@, us),
                }
            }),
    {
        let ghost scene = self@.scene(text_paths(focus@), text_paths(open@));
        let ghost us = part_usage(usage@);
        let ghost target = shown_disk(scene, d@, us).partitions;
        let mut partitions: Vec<PartitionView> = Vec::new();
        let mut i: usize = 0;
        assert(views(partitions@) =~= target.take(0));
        while i < d.partitions.len()
            invariant
                i <= d.partitions.len(),
                self@.wf(),
                usage@.len() == d@.partitions.len(),
                scene == self@.scene(text_paths(focus@), text_paths(open@)),
                us == part_usage(usage@),
                target == shown_disk(scene, d@, us).partitions,
                views(partitions@) == target.take(i as int),
                forall|j: int|
                    0 <= j < i ==> partition_fits(scene, #[trigger] d@.partitions[j], us[j]),
            decreases d.partitions.len() - i,
        {
            let p = &d.partitions[i];
            assert(d@.partitions[i as int] == p@);
            assert(us[i as int] == views(usage@[i as int]@));
            let mounts = match partition_mounts(
                p,
                &usage[i],
                &self.trees,
                &self.progress,
                focus,
                open,
            ) {
                Some(v) => v,
                None => {
                    assert(!partition_fits(scene, d@.partitions[i as int], us[i as int]));
                    return None;
                },
            };
            let view = PartitionView {
                name: p.name.clone(),
                mapped_name: crate::discover::copy_text(&p.mapped_name),
                label: crate::discover::copy_text(&p.label),
                fstype: p.fstype.clone(),
                size: p.size,
                start: p.start,
                locked: p.locked,
                mounts,
            };
            let ghost before = views(partitions@);
            let ghost model = view@;
            assert(target[i as int] =~= model);
            partitions.push(view);
            assert(views(partitions@) =~= before.push(model));
            assert(target.take(i + 1) =~= target.take(i as int).push(target[i as int]));
            i = i + 1;
        }
        assert(target.take(target.len() as int) =~= target);
        Some(
            DiskView {
                name: d.name.clone(),
                model: d.model.clone(),
                serial: d.serial.clone(),
                transport: d.transport.clone(),
                size: d.size,
                rotational: d.rotational,
                removable: d.removable,
                unallocated: d.unallocated,
                partitions,
            },
        )
    }

    /// The whole map. `usage` holds the current usage of each mount of each
    /// partition of each disk, `now` the milliseconds since the epoch. None if
    /// a sum that is shown is out of range.
    pub fn snapshot(
        &self,
        usage: &Vec<Vec<Vec<Usage>>>,
        focus: &[String],
        open: &[String],
        now: u128,
    ) -> (r: Option<Snapshot>)
        requires
            self@.wf(),
            usage@.len() == self@.disks.len(),
            forall|i: int|
                0 <= i < usage@.len() ==> (#[trigger] usage@[i])@.len()
                    == self@.disks[i].partitions.len(),
        ensures
            ({
                let scene = self@.scene(text_paths(focus@), text_paths(open@));
                let us = disk_usage(usage@);
                match r {
                    Some(s) => {
                        &&& s.generated_ms == now
                        &&& s.source == self@.source
                        &&& views(s.disks@) == Seq::new(
                            self@.disks.len(),
                            |i: int| shown_disk(scene, self@.disks[i], us[i]),
                        )
                        &&& forall|i: int|
                            0 <= i < self@.disks.len() ==> disk_fits(
                                scene,
                                #[trigger] self@.disks[i],
                                us[i],
                            )
                    },
                    None => exists|i: int|
                        0 <= i < self@.disks.len() && !disk_fits(
                            scene,
                            #[trigger] self@.disks[i],
                            us[i],
                        ),
                }
            }),
    {
        let ghost scene = self@.scene(text_paths(focus@), text_paths(open@));
        let ghost us = disk_usage(usage@);
        let ghost all = self@.disks;
        let ghost target = Seq::new(all.len(), |i: int| shown_disk(scene, all[i], us[i]));
        let mut disks: Vec<DiskView> = Vec::new();
        let mut i: usize = 0;
        assert(views(disks@) =~= target.take(0));
        while i < self.disks.len()
            invariant
                i <= self.disks.len(),
                self@.wf(),
                all == self@.disks,
                usage@.len() == all.len(),
                forall|k: int|
                    0 <= k < usage@.len() ==> (#[trigger] usage@[k])@.len()
                        == all[k].partitions.len(),
                scene == self@.scene(text_paths(focus@), text_paths(open@)),
                us == disk_usage(usage@),
                target == Seq::new(all.len(), |i: int| shown_disk(scene, all[i], us[i])),
                views(disks@) == target.take(i as int),
                forall|j: int| 0 <= j < i ==> disk_fits(scene, #[trigger] all[j], us[j]),
            decreases self.disks.len() - i,
        {
            assert(all[i as int] == self.disks@[i as int]@);
            assert(us[i as int] == part_usage(usage@[i as int]@));
            let view = match self.disk_view(&self.disks[i], &usage[i], focus, open) {
                Some(v) => v,
                None => {
                    assert(!disk_fits(scene, all[i as int], us[i as int]));
                    return None;
                },
            };
            let ghost before = views(disks@);
            let ghost model = view@;
            assert(target[i as int] == model);
            disks.push(view);
            assert(views(disks@) =~= before.push(model));
            assert(target.take(i + 1) =~= target.take(i as int).push(target[i as int]));
            i = i + 1;
        }
        assert(target.take(target.len() as int) =~= target);
        Some(Snapshot { generated_ms: now, source: self.source, disks })
    }
}

/// To ask twice for the same expansion is to ask once.
pub proof fn law_expand_once(e: EngineModel, path: Seq<u8>)
    ensures
        e.expand_requested(path).expand_requested(path) == e.expand_requested(path),
{
    let queue = e.expand_requested(path).expand_queue;
    if path.len() > 0 && !contains_seq(lossy_text(path), "::"@) {
        if !holds_path(e.expand_queue, path) {
            assert(same_path(queue[queue.len() - 1], path));
            assert(holds_path(queue, path));
        }
    }
}

/// A tree that is kept on disk, without its index, comes back as it was down
/// to the depth that is stored. One that was no deeper comes back whole. The
/// mount is live.
pub proof fn law_cached_comes_back(e: EngineModel, mount: Seq<u8>, t: TreeModel)
    requires
        t.wf(),
        t.store_depth == STORE_DEPTH,
        t.nodes[t.root as int].kind is Dir,
    ensures
        ({
            let kept = TreeModel { dirs: Map::empty(), ..t };
            let after = e.with_cached(mount, kept);
            &&& filed_under(after.trees, mount) matches Some(back)
            &&& filed_under(after.progress, mount) == Some(
                ProgressModel { files: back.files, bytes: back.bytes, done: true, error: None },
            )
            &&& back.root_path == t.root_path
            &&& outline(back.nodes, back.root as int, STORE_DEPTH as nat) == outline(
                t.nodes,
                t.root as int,
                STORE_DEPTH as nat,
            )
            &&& height(t.nodes, t.root as int) <= STORE_DEPTH ==> back == t.reindexed()
        }),
{
    let kept = TreeModel { dirs: Map::empty(), ..t };
    let back = kept.pruned().reindexed();
    law_filed(e.trees, mount, back, mount);
    law_filed(
        e.progress,
        mount,
        ProgressModel { files: back.files, bytes: back.bytes, done: true, error: None },
        mount,
    );
    law_prune_depth(kept);
    law_prune_keeps_upper_levels(kept);
}

/// A mount that is asked to be rescanned is scanned: it has no tree any more,
/// and a scan is due at once. To ask for all mounts leaves no tree.
pub proof fn law_rescan_drops_tree(e: EngineModel, mount: Seq<u8>)
    requires
        e.wf(),
    ensures
        filed_under(e.rescan_requested(Some(mount)).trees, mount) is None,
        e.rescan_requested(Some(mount)).rescan_flag,
        e.rescan_requested(None).trees.len() == 0,
        e.rescan_requested(None).rescan_flag && e.rescan_requested(None).force_rescan,
{
    law_dropped(e.trees, mount);
}

/// Whether each path comes before all that follow.
pub open spec fn strictly_ascending(s: Seq<Seq<u8>>) -> bool {
    forall|i: int, j: int|
        0 <= i < j < s.len() ==> comps_less(comps(#[trigger] s[i]), comps(#[trigger] s[j]))
}

proof fn lemma_distinct_ascending(s: Seq<Seq<u8>>)
    requires
        ascending::<PathBuf>(s),
    ensures
        strictly_ascending(distinct_paths(s)),
        s.len() > 0 ==> distinct_paths(s).len() > 0 && same_path(
            distinct_paths(s).last(),
            s.last(),
        ),
        distinct_paths(s).len() <= s.len(),
    decreases s.len(),
{
    if s.len() > 0 {
        let t = s.drop_last();
        assert forall|i: int, j: int| 0 <= i <= j < t.len() implies PathBuf::before(
            #[trigger] t[i],
            #[trigger] t[j],
        ) by {
            assert(PathBuf::before(s[i], s[j]));
        }
        lemma_distinct_ascending(t);
        let kept = distinct_paths(t);
        let all = distinct_paths(s);
        if t.len() > 0 && !same_path(s.last(), kept.last()) {
            assert(PathBuf::before(s[t.len() - 1], s[t.len() as int]));
            assert(t.last() == s[t.len() - 1]);
            lemma_comps_order(comps(kept.last()), comps(s.last()));
            assert forall|i: int, j: int| 0 <= i < j < all.len() implies comps_less(
                comps(#[trigger] all[i]),
                comps(#[trigger] all[j]),
            ) by {
                if j < kept.len() {
                    assert(comps_less(comps(kept[i]), comps(kept[j])));
                } else {
                    assert(comps_less(comps(kept.last()), comps(s.last())));
                    if i < kept.len() - 1 {
                        assert(comps_less(comps(kept[i]), comps(kept[kept.len() - 1])));
                        lemma_comps_transitive(
                            comps(kept[i]),
                            comps(kept.last()),
                            comps(s.last()),
                        );
                    }
                }
            }
        }
    }
}

/// The changed paths that are looked at together are in order, none occurs
/// twice, and there are no more than the limit.
pub proof fn law_dirty_jobs(trees: Seq<(Seq<u8>, TreeModel)>, noted: Seq<Seq<u8>>)
    ensures
        ({
            let unique = distinct_paths(ordered::<PathBuf>(noted));
            &&& strictly_ascending(unique)
            &&& dirty_jobs(trees, unique, dirty_count(unique)).len() <= DIRTY_LIMIT
        }),
{
    let sorted = ordered::<PathBuf>(noted);
    law_ordered_ascending::<PathBuf>(noted);
    lemma_distinct_ascending(sorted);
    lemma_dirty_len(trees, distinct_paths(sorted), dirty_count(distinct_paths(sorted)));
}

proof fn lemma_dirty_len(trees: Seq<(Seq<u8>, TreeModel)>, paths: Seq<Seq<u8>>, n: nat)
    ensures
        dirty_jobs(trees, paths, n).len() <= n,
    decreases n,
{
    if n > 0 {
        lemma_dirty_len(trees, paths, (n - 1) as nat);
    }
}

/// No changed path is lost: each that was noted is looked at now or waits for
/// the next time.
pub proof fn law_no_change_lost(noted: Seq<Seq<u8>>, i: int)
    requires
        0 <= i < noted.len(),
    ensures
        ({
            let unique = distinct_paths(ordered::<PathBuf>(noted));
            let n = dirty_count(unique);
            (exists|j: int| 0 <= j < n && same_path(noted[i], #[trigger] unique[j])) || (exists|
                j: int,
            |
                0 <= j < unique.skip(n as int).len() && same_path(
                    noted[i],
                    #[trigger] unique.skip(n as int)[j],
                ))
        }),
{
    let sorted = ordered::<PathBuf>(noted);
    let unique = distinct_paths(sorted);
    let n = dirty_count(unique);
    law_ordered_same_values::<PathBuf>(noted);
    assert(noted.to_multiset().contains(noted[i])) by {
        noted.to_multiset_ensures();
        assert(noted.contains(noted[i]));
    }
    sorted.to_multiset_ensures();
    assert(sorted.contains(noted[i]));
    let k = choose|k: int| 0 <= k < sorted.len() && sorted[k] == noted[i];
    let j = lemma_distinct_keeps(sorted, k);
    if j >= n {
        assert(unique.skip(n as int)[j - n] == unique[j]);
    }
}

/// Each path is the same as one that is kept.
proof fn lemma_distinct_keeps(s: Seq<Seq<u8>>, k: int) -> (j: int)
    requires
        0 <= k < s.len(),
    ensures
        0 <= j < distinct_paths(s).len(),
        same_path(s[k], distinct_paths(s)[j]),
    decreases s.len(),
{
    let t = s.drop_last();
    let kept = distinct_paths(t);
    if k < t.len() {
        let j = lemma_distinct_keeps(t, k);
        assert(t[k] == s[k]);
        assert(distinct_paths(s)[j] == kept[j]);
        j
    } else if kept.len() > 0 && same_path(s.last(), kept.last()) {
        kept.len() - 1
    } else {
        kept.len() as int
    }
}

/// A changed path goes to a tree that holds it: its mount is the path or lies
/// above it, and no other mount of a tree above it has a longer place.
pub proof fn law_dirty_mount(trees: Seq<(Seq<u8>, TreeModel)>, path: Seq<u8>, j: int)
    requires
        0 <= j < trees.len(),
        crate::path::under(path, trees[j].0),
    ensures
        longest_key(trees, path, trees.len()) matches Some(i) && 0 <= i < trees.len()
            && crate::path::under(path, trees[i].0) && trees[j].0.len() <= trees[i].0.len(),
{
    lemma_longest_is_longest(trees, path, trees.len(), j);
}

proof fn lemma_longest_is_longest(
    trees: Seq<(Seq<u8>, TreeModel)>,
    path: Seq<u8>,
    n: nat,
    j: int,
)
    requires
        0 <= j < n <= trees.len(),
        crate::path::under(path, trees[j].0),
    ensures
        longest_key(trees, path, n) matches Some(i) && 0 <= i < n && crate::path::under(
            path,
            trees[i].0,
        ) && trees[j].0.len() <= trees[i].0.len(),
    decreases n,
{
    lemma_longest_key(trees, path, (n - 1) as nat);
    if j < n - 1 {
        lemma_longest_is_longest(trees, path, (n - 1) as nat, j);
    }
}

} // verus!
