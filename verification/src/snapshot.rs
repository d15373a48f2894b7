//! What the map shows: disks, partitions, mounts and their view trees.

use crate::path::PathBuf;
use crate::sort::{views, Ranked};
use crate::text::{decimal, to_decimal};
use vstd::prelude::*;
use vstd::string::*;

verus! {

/// What a tile of the map stands for.
#[derive(Debug, PartialEq, Eq)]
pub enum Kind {
    Directory,
    File { ext: String },
    Free,
    Overhead,
    Scanning,
    Other,
    Unmounted,
    Locked,
    Swap,
    /// A nested mount of another volume. Its size is for display only; the
    /// bytes live on `disk`.
    MountPoint { disk: String, partition: String, mount: String, model: String },
}

/// The value of a [`Kind`].
#[verifier::ext_equal]
pub enum KindModel {
    Directory,
    File { ext: Seq<char> },
    Free,
    Overhead,
    Scanning,
    Other,
    Unmounted,
    Locked,
    Swap,
    MountPoint { disk: Seq<char>, partition: Seq<char>, mount: Seq<char>, model: Seq<char> },
}

impl View for Kind {
    type V = KindModel;

    open spec fn view(&self) -> KindModel {
        match self {
            Kind::Directory => KindModel::Directory,
            Kind::File { ext } => KindModel::File { ext: ext@ },
            Kind::Free => KindModel::Free,
            Kind::Overhead => KindModel::Overhead,
            Kind::Scanning => KindModel::Scanning,
            Kind::Other => KindModel::Other,
            Kind::Unmounted => KindModel::Unmounted,
            Kind::Locked => KindModel::Locked,
            Kind::Swap => KindModel::Swap,
            Kind::MountPoint { disk, partition, mount, model } => KindModel::MountPoint {
                disk: disk@,
                partition: partition@,
                mount: mount@,
                model: model@,
            },
        }
    }
}

impl Clone for Kind {
    fn clone(&self) -> (r: Self)
        ensures
            r@ == self@,
    {
        match self {
            Kind::Directory => Kind::Directory,
            Kind::File { ext } => Kind::File { ext: ext.clone() },
            Kind::Free => Kind::Free,
            Kind::Overhead => Kind::Overhead,
            Kind::Scanning => Kind::Scanning,
            Kind::Other => Kind::Other,
            Kind::Unmounted => Kind::Unmounted,
            Kind::Locked => Kind::Locked,
            Kind::Swap => Kind::Swap,
            Kind::MountPoint { disk, partition, mount, model } => Kind::MountPoint {
                disk: disk.clone(),
                partition: partition.clone(),
                mount: mount.clone(),
                model: model.clone(),
            },
        }
    }
}

/// One tile of the map with the tiles inside it.
#[derive(Debug)]
pub struct ViewNode {
    pub path: String,
    pub name: String,
    pub size: u64,
    pub kind: Kind,
    pub children: Vec<ViewNode>,
}

/// The value of a [`ViewNode`].
#[verifier::ext_equal]
pub struct ViewModel {
    pub path: Seq<char>,
    pub name: Seq<char>,
    pub size: u64,
    pub kind: KindModel,
    pub children: Seq<ViewModel>,
}

impl View for ViewNode {
    type V = ViewModel;

    open spec fn view(&self) -> ViewModel {
        self.model()
    }
}

/// Tiles are ranked by size, the largest first.
impl Ranked for ViewNode {
    open spec fn before(a: ViewModel, b: ViewModel) -> bool {
        a.size >= b.size
    }

    proof fn before_total(a: ViewModel, b: ViewModel) {
    }

    proof fn before_transitive(a: ViewModel, b: ViewModel, c: ViewModel) {
    }

    fn is_before(&self, other: &ViewNode) -> (r: bool) {
        self.size >= other.size
    }
}

/// The children of a view are the views of the children.
pub proof fn lemma_view_children(n: ViewNode)
    ensures
        n@.children == views(n.children@),
{
    let s = n@.children;
    assert(s.len() == n.children@.len());
    assert forall|i: int| 0 <= i < s.len() implies #[trigger] s[i] == views(n.children@)[i] by {
        assert(s[i] == n.children@[i].model());
    }
}

impl ViewNode {
    /// The value of the tile.
    pub open spec fn model(&self) -> ViewModel
        decreases self,
    {
        ViewModel {
            path: self.path@,
            name: self.name@,
            size: self.size,
            kind: self.kind@,
            children: Seq::new(
                self.children@.len(),
                |i: int|
                    if 0 <= i < self.children@.len() {
                        self.children@[i].model()
                    } else {
                        arbitrary()
                    },
            ),
        }
    }

    /// A tile without tiles inside it.
    pub fn leaf(path: String, name: String, size: u64, kind: Kind) -> (r: ViewNode)
        ensures
            r@ == leaf_view(path@, name@, size, kind@),
            r.children@.len() == 0,
    {
        let r = ViewNode { path, name, size, kind, children: Vec::new() };
        assert(r@.children =~= Seq::<ViewModel>::empty());
        r
    }
}

/// The value of a tile without tiles inside it.
pub open spec fn leaf_view(
    path: Seq<char>,
    name: Seq<char>,
    size: u64,
    kind: KindModel,
) -> ViewModel {
    ViewModel { path, name, size, kind, children: Seq::empty() }
}

/// How far the scan of a mount has come.
#[derive(Debug)]
pub enum ScanStatus {
    Pending,
    Scanning { files: u64, bytes: u64 },
    Live { files: u64, bytes: u64 },
    Error(String),
}

/// The value of a [`ScanStatus`].
#[verifier::ext_equal]
pub enum ScanModel {
    Pending,
    Scanning { files: u64, bytes: u64 },
    Live { files: u64, bytes: u64 },
    Error(Seq<char>),
}

impl View for ScanStatus {
    type V = ScanModel;

    open spec fn view(&self) -> ScanModel {
        match self {
            ScanStatus::Pending => ScanModel::Pending,
            ScanStatus::Scanning { files, bytes } => ScanModel::Scanning {
                files: *files,
                bytes: *bytes,
            },
            ScanStatus::Live { files, bytes } => ScanModel::Live { files: *files, bytes: *bytes },
            ScanStatus::Error(e) => ScanModel::Error(e@),
        }
    }
}

/// The line that describes a scan, given the text for its number of bytes.
pub open spec fn status_label(status: ScanModel, size_text: Seq<char>) -> Seq<char> {
    match status {
        ScanModel::Pending => "waiting"@,
        ScanModel::Scanning { files, bytes } => "scanning "@ + decimal(files as nat)
            + " files · "@ + size_text,
        ScanModel::Live { files, bytes } => decimal(files as nat) + " files · "@ + size_text,
        ScanModel::Error(e) => "error: "@ + e,
    }
}

impl ScanStatus {
    /// The line that describes the scan. `size_text` is the number of bytes of
    /// the status, written for people.
    pub fn label(&self, size_text: &str) -> (r: String)
        ensures
            r@ == status_label(self@, size_text@),
    {
        match self {
            ScanStatus::Pending => "waiting".to_string(),
            ScanStatus::Scanning { files, bytes: _ } => {
                let mut out = "scanning ".to_string();
                out.append(to_decimal(*files).as_str());
                out.append(" files · ");
                out.append(size_text);
                out
            },
            ScanStatus::Live { files, bytes: _ } => {
                let mut out = to_decimal(*files);
                out.append(" files · ");
                out.append(size_text);
                out
            },
            ScanStatus::Error(e) => {
                let mut out = "error: ".to_string();
                out.append(e.as_str());
                out
            },
        }
    }
}

/// A mounted file system of a partition.
#[derive(Debug)]
pub struct MountView {
    pub path: String,
    pub total: u64,
    pub used: u64,
    pub available: u64,
    pub scan: ScanStatus,
    pub tree: ViewNode,
}

/// The value of a [`MountView`].
#[verifier::ext_equal]
pub struct MountViewModel {
    pub path: Seq<char>,
    pub total: u64,
    pub used: u64,
    pub available: u64,
    pub scan: ScanModel,
    pub tree: ViewModel,
}

impl View for MountView {
    type V = MountViewModel;

    open spec fn view(&self) -> MountViewModel {
        MountViewModel {
            path: self.path@,
            total: self.total,
            used: self.used,
            available: self.available,
            scan: self.scan@,
            tree: self.tree@,
        }
    }
}

/// A partition of a disk.
#[derive(Debug)]
pub struct PartitionView {
    pub name: String,
    pub mapped_name: Option<String>,
    pub label: Option<String>,
    pub fstype: String,
    pub size: u64,
    pub start: u64,
    pub locked: bool,
    pub mounts: Vec<MountView>,
}

/// The value of a [`PartitionView`].
#[verifier::ext_equal]
pub struct PartitionViewModel {
    pub name: Seq<char>,
    pub mapped_name: Option<Seq<char>>,
    pub label: Option<Seq<char>>,
    pub fstype: Seq<char>,
    pub size: u64,
    pub start: u64,
    pub locked: bool,
    pub mounts: Seq<MountViewModel>,
}

/// The text of an optional string.
pub open spec fn text_of(s: Option<String>) -> Option<Seq<char>> {
    match s {
        Some(t) => Some(t@),
        None => None,
    }
}

impl View for PartitionView {
    type V = PartitionViewModel;

    open spec fn view(&self) -> PartitionViewModel {
        PartitionViewModel {
            name: self.name@,
            mapped_name: text_of(self.mapped_name),
            label: text_of(self.label),
            fstype: self.fstype@,
            size: self.size,
            start: self.start,
            locked: self.locked,
            mounts: views(self.mounts@),
        }
    }
}

/// A physical disk.
#[derive(Debug)]
pub struct DiskView {
    pub name: String,
    pub model: String,
    pub serial: String,
    pub transport: String,
    pub size: u64,
    pub rotational: bool,
    pub removable: bool,
    pub unallocated: u64,
    pub partitions: Vec<PartitionView>,
}

/// The value of a [`DiskView`].
#[verifier::ext_equal]
pub struct DiskViewModel {
    pub name: Seq<char>,
    pub model: Seq<char>,
    pub serial: Seq<char>,
    pub transport: Seq<char>,
    pub size: u64,
    pub rotational: bool,
    pub removable: bool,
    pub unallocated: u64,
    pub partitions: Seq<PartitionViewModel>,
}

impl View for DiskView {
    type V = DiskViewModel;

    open spec fn view(&self) -> DiskViewModel {
        DiskViewModel {
            name: self.name@,
            model: self.model@,
            serial: self.serial@,
            transport: self.transport@,
            size: self.size,
            rotational: self.rotational,
            removable: self.removable,
            unallocated: self.unallocated,
            partitions: views(self.partitions@),
        }
    }
}

/// Who made a snapshot.
#[derive(Clone, Copy, Debug, PartialEq, Eq, Structural)]
pub enum SnapshotSource {
    Daemon,
    Local,
}

/// The whole map at one moment.
#[derive(Debug)]
pub struct Snapshot {
    pub generated_ms: u128,
    pub source: SnapshotSource,
    pub disks: Vec<DiskView>,
}

impl Snapshot {
    /// A snapshot without disks.
    pub fn empty(source: SnapshotSource) -> (r: Snapshot)
        ensures
            r.generated_ms == 0,
            r.source == source,
            r.disks@ == Seq::<DiskView>::empty(),
    {
        Snapshot { generated_ms: 0, source, disks: Vec::new() }
    }
}

/// What the user has selected on the map.
#[derive(Debug)]
pub struct Selection {
    pub disk: String,
    pub partition: String,
    pub path: PathBuf,
    pub name: String,
    pub size: u64,
    pub kind: Kind,
}

} // verus!
