//! Physical disks, their partitions and what is mounted from them.

use crate::order::{
    bytes_before, bytes_less, comps_less, lemma_bytes_order, lemma_bytes_transitive,
    lemma_comps_order, lemma_comps_transitive, lemma_path_total,
    lemma_path_transitive, path_at_most,
};
use crate::path::{comps, same_path, PathBuf};
use crate::snapshot::text_of;
use crate::sort::{ascending, law_ordered_ascending, ordered, placed, sort, views, Ranked};
use crate::text::{
    begins_with, contains_seq, contains_text, number_in, parse_number, text_begins_with, text_eq,
    text_up_to, up_to,
};
use crate::tree::sat_sub;
use vstd::prelude::*;
use vstd::string::*;
use vstd::utf8::*;

verus! {

/// A mounted file system.
#[derive(Debug)]
pub struct Mount {
    pub path: PathBuf,
    pub total: u64,
    pub used: u64,
    pub available: u64,
}

/// The value of a [`Mount`].
#[verifier::ext_equal]
pub struct MountModel {
    pub path: Seq<u8>,
    pub total: u64,
    pub used: u64,
    pub available: u64,
}

impl View for Mount {
    type V = MountModel;

    open spec fn view(&self) -> MountModel {
        MountModel {
            path: self.path@,
            total: self.total,
            used: self.used,
            available: self.available,
        }
    }
}

impl Clone for Mount {
    fn clone(&self) -> (r: Self)
        ensures
            r@ == self@,
    {
        Mount {
            path: self.path.clone(),
            total: self.total,
            used: self.used,
            available: self.available,
        }
    }
}

/// Mounts are ranked by path.
impl Ranked for Mount {
    open spec fn before(a: MountModel, b: MountModel) -> bool {
        path_at_most(a.path, b.path)
    }

    proof fn before_total(a: MountModel, b: MountModel) {
        lemma_path_total(a.path, b.path);
    }

    proof fn before_transitive(a: MountModel, b: MountModel, c: MountModel) {
        lemma_path_transitive(a.path, b.path, c.path);
    }

    fn is_before(&self, other: &Mount) -> (r: bool) {
        self.path.at_most(&other.path)
    }
}

/// A partition of a disk.
#[derive(Debug)]
pub struct Partition {
    pub name: String,
    pub mapped_name: Option<String>,
    pub label: Option<String>,
    pub fstype: String,
    pub size: u64,
    /// Byte offset from the start of the disk (Linux 512-byte sectors).
    pub start: u64,
    pub locked: bool,
    pub mounts: Vec<Mount>,
}

/// The value of a [`Partition`].
#[verifier::ext_equal]
pub struct PartitionModel {
    pub name: Seq<char>,
    pub mapped_name: Option<Seq<char>>,
    pub label: Option<Seq<char>>,
    pub fstype: Seq<char>,
    pub size: u64,
    pub start: u64,
    pub locked: bool,
    pub mounts: Seq<MountModel>,
}

impl View for Partition {
    type V = PartitionModel;

    open spec fn view(&self) -> PartitionModel {
        PartitionModel {
            name: self.name@,
            mapped_name: text_of(self.mapped_name),
            label: text_of(self.label),
            fstype: self.fstype@,
            size: self.size,
            start: self.start,
            locked: self.locked,
            mounts: views(self.mounts@),
        }
    }
}

/// Partitions are ranked by where they start, then by the bytes of their name.
impl Ranked for Partition {
    open spec fn before(a: PartitionModel, b: PartitionModel) -> bool {
        a.start < b.start || (a.start == b.start && !bytes_less(
            encode_utf8(b.name),
            encode_utf8(a.name),
        ))
    }

    proof fn before_total(a: PartitionModel, b: PartitionModel) {
        lemma_bytes_order(encode_utf8(a.name), encode_utf8(b.name));
    }

    proof fn before_transitive(a: PartitionModel, b: PartitionModel, c: PartitionModel) {
        let (x, y, z) = (encode_utf8(a.name), encode_utf8(b.name), encode_utf8(c.name));
        lemma_bytes_order(x, y);
        lemma_bytes_order(y, z);
        lemma_bytes_order(x, z);
        if bytes_less(x, y) && bytes_less(y, z) {
            lemma_bytes_transitive(x, y, z);
        }
    }

    fn is_before(&self, other: &Partition) -> (r: bool) {
        self.start < other.start || (self.start == other.start && !bytes_before(
            other.name.as_str().as_bytes(),
            self.name.as_str().as_bytes(),
        ))
    }
}

/// A physical disk.
#[derive(Debug)]
pub struct Disk {
    pub name: String,
    pub model: String,
    pub serial: String,
    pub transport: String,
    pub size: u64,
    pub rotational: bool,
    pub removable: bool,
    pub partitions: Vec<Partition>,
    pub unallocated: u64,
}

/// The value of a [`Disk`].
#[verifier::ext_equal]
pub struct DiskModel {
    pub name: Seq<char>,
    pub model: Seq<char>,
    pub serial: Seq<char>,
    pub transport: Seq<char>,
    pub size: u64,
    pub rotational: bool,
    pub removable: bool,
    pub partitions: Seq<PartitionModel>,
    pub unallocated: u64,
}

impl View for Disk {
    type V = DiskModel;

    open spec fn view(&self) -> DiskModel {
        DiskModel {
            name: self.name@,
            model: self.model@,
            serial: self.serial@,
            transport: self.transport@,
            size: self.size,
            rotational: self.rotational,
            removable: self.removable,
            partitions: views(self.partitions@),
            unallocated: self.unallocated,
        }
    }
}

/// Fixed disks come before removable ones, then the larger ones.
impl Ranked for Disk {
    open spec fn before(a: DiskModel, b: DiskModel) -> bool {
        if a.removable == b.removable {
            a.size >= b.size
        } else {
            b.removable
        }
    }

    proof fn before_total(a: DiskModel, b: DiskModel) {
    }

    proof fn before_transitive(a: DiskModel, b: DiskModel, c: DiskModel) {
    }

    fn is_before(&self, other: &Disk) -> (r: bool) {
        if self.removable == other.removable {
            self.size >= other.size
        } else {
            other.removable
        }
    }
}

/// A copy of an optional text.
pub(crate) fn copy_text(s: &Option<String>) -> (r: Option<String>)
    ensures
        text_of(r) == text_of(*s),
{
    match s {
        Some(t) => Some(t.clone()),
        None => None,
    }
}

/// The text, or the empty one if there is none.
pub open spec fn text_or_empty(s: Option<Seq<char>>) -> Seq<char> {
    match s {
        Some(t) => t,
        None => Seq::empty(),
    }
}

/// The text, or the empty one if there is none.
pub(crate) fn copy_or_empty(s: &Option<String>) -> (r: String)
    ensures
        r@ == text_or_empty(text_of(*s)),
{
    match s {
        Some(t) => t.clone(),
        None => String::new(),
    }
}

// ---------------------------------------------------------------------------
// Block devices
// ---------------------------------------------------------------------------

/// A number as a tool may write it.
#[derive(Debug)]
pub enum NumberField {
    Unsigned(u64),
    Signed(i64),
    Text(String),
    Absent,
}

/// The number in a field: negative ones count as zero, as does an absent one;
/// none if the text is no number.
pub open spec fn field_value(field: NumberField) -> Option<u64> {
    match field {
        NumberField::Unsigned(v) => Some(v),
        NumberField::Signed(v) => Some(
            if v < 0 {
                0
            } else {
                v as u64
            },
        ),
        NumberField::Text(s) => number_in(s@),
        NumberField::Absent => Some(0),
    }
}

/// The number in a field.
pub fn de_u64(field: &NumberField) -> (r: Option<u64>)
    ensures
        r == field_value(*field),
{
    match field {
        NumberField::Unsigned(v) => Some(*v),
        NumberField::Signed(v) => Some(
            if *v < 0 {
                0
            } else {
                *v as u64
            },
        ),
        NumberField::Text(s) => parse_number(s.as_str()),
        NumberField::Absent => Some(0),
    }
}

/// A block device with the devices on it.
#[derive(Debug)]
pub struct LsblkDev {
    pub name: String,
    pub kname: Option<String>,
    pub kind: String,
    pub size: u64,
    pub start: u64,
    pub model: Option<String>,
    pub serial: Option<String>,
    pub fstype: Option<String>,
    pub label: Option<String>,
    pub rota: Option<bool>,
    pub tran: Option<String>,
    pub rm: Option<bool>,
    pub hotplug: Option<bool>,
    pub children: Vec<LsblkDev>,
}

/// The value of a [`LsblkDev`].
#[verifier::ext_equal]
pub struct DevModel {
    pub name: Seq<char>,
    pub kname: Option<Seq<char>>,
    pub kind: Seq<char>,
    pub size: u64,
    pub start: u64,
    pub model: Option<Seq<char>>,
    pub serial: Option<Seq<char>>,
    pub fstype: Option<Seq<char>>,
    pub label: Option<Seq<char>>,
    pub rota: Option<bool>,
    pub tran: Option<Seq<char>>,
    pub rm: Option<bool>,
    pub hotplug: Option<bool>,
    pub children: Seq<DevModel>,
}

impl LsblkDev {
    /// The value of the device.
    pub open spec fn model(&self) -> DevModel
        decreases self,
    {
        DevModel {
            name: self.name@,
            kname: text_of(self.kname),
            kind: self.kind@,
            size: self.size,
            start: self.start,
            model: text_of(self.model),
            serial: text_of(self.serial),
            fstype: text_of(self.fstype),
            label: text_of(self.label),
            rota: self.rota,
            tran: text_of(self.tran),
            rm: self.rm,
            hotplug: self.hotplug,
            children: Seq::new(
                self.children@.len(),
                |i: int|
                    if 0 <= i < self.children@.len() {
                        self.children@[i].model()
                    } else {
                        arbitrary()
                    },
            ),
        }
    }
}

/// The values of a list of devices.
pub open spec fn dev_models(devs: Seq<LsblkDev>) -> Seq<DevModel> {
    Seq::new(devs.len(), |i: int| devs[i].model())
}

/// The children of a device's value are the values of its children.
proof fn lemma_dev_children(d: LsblkDev)
    ensures
        d.model().children == dev_models(d.children@),
{
    let s = d.model().children;
    assert(s.len() == d.children@.len());
    assert forall|i: int| 0 <= i < s.len() implies #[trigger] s[i] == dev_models(d.children@)[i] by {
        assert(s[i] == d.children@[i].model());
    }
}

/// Whether a name begins like that of a device which is no physical disk.
pub open spec fn virtual_name(name: Seq<char>) -> bool {
    ||| begins_with(name, "loop"@)
    ||| begins_with(name, "ram"@)
    ||| begins_with(name, "zram"@)
    ||| begins_with(name, "sr"@)
    ||| begins_with(name, "fd"@)
    ||| begins_with(name, "nbd"@)
    ||| begins_with(name, "md"@)
}

/// Whether a disk is left out: it is empty or no physical disk.
pub fn skip_disk(name: &str, size: u64) -> (r: bool)
    ensures
        r == (size == 0 || virtual_name(name@)),
{
    if size == 0 {
        return true;
    }
    text_begins_with(name, "loop") || text_begins_with(name, "ram") || text_begins_with(
        name,
        "zram",
    ) || text_begins_with(name, "sr") || text_begins_with(name, "fd") || text_begins_with(
        name,
        "nbd",
    ) || text_begins_with(name, "md")
}

/// Whether a file system of this type is no local storage.
pub open spec fn skipped_fstype(ft: Seq<char>) -> bool {
    ||| ft == "proc"@
    ||| ft == "sysfs"@
    ||| ft == "cgroup"@
    ||| ft == "cgroup2"@
    ||| ft == "tmpfs"@
    ||| ft == "devtmpfs"@
    ||| ft == "devpts"@
    ||| ft == "securityfs"@
    ||| ft == "pstore"@
    ||| ft == "bpf"@
    ||| ft == "tracefs"@
    ||| ft == "debugfs"@
    ||| ft == "fusectl"@
    ||| ft == "configfs"@
    ||| ft == "mqueue"@
    ||| ft == "hugetlbfs"@
    ||| ft == "overlay"@
    ||| ft == "nsfs"@
    ||| ft == "autofs"@
    ||| ft == "binfmt_misc"@
    ||| ft == "efivarfs"@
    ||| ft == "rpc_pipefs"@
    ||| ft == "nfs"@
    ||| ft == "nfs4"@
    ||| ft == "cifs"@
    ||| ft == "smb3"@
    ||| ft == "fuse.gvfsd-fuse"@
    ||| ft == "fuse.portal"@
    ||| ft == "squashfs"@
    ||| begins_with(ft, "fuse."@)
}

/// Whether a file system of this type is no local storage.
pub fn skip_fstype(ft: &str) -> (r: bool)
    ensures
        r == skipped_fstype(ft@),
{
    text_eq(ft, "proc") || text_eq(ft, "sysfs") || text_eq(ft, "cgroup") || text_eq(ft, "cgroup2") || text_eq(ft, "tmpfs") || text_eq(ft, "devtmpfs") || text_eq(ft, "devpts") || text_eq(ft, "securityfs") || text_eq(ft, "pstore") || text_eq(ft, "bpf") || text_eq(ft, "tracefs") || text_eq(ft, "debugfs") || text_eq(ft, "fusectl") || text_eq(ft, "configfs") || text_eq(ft, "mqueue") || text_eq(ft, "hugetlbfs") || text_eq(ft, "overlay") || text_eq(ft, "nsfs") || text_eq(ft, "autofs") || text_eq(ft, "binfmt_misc") || text_eq(ft, "efivarfs") || text_eq(ft, "rpc_pipefs") || text_eq(ft, "nfs") || text_eq(ft, "nfs4") || text_eq(ft, "cifs") || text_eq(ft, "smb3") || text_eq(ft, "fuse.gvfsd-fuse") || text_eq(ft, "fuse.portal") || text_eq(ft, "squashfs") || text_begins_with(ft, "fuse.")
}

/// Whether a mount at this place is left out.
pub open spec fn skipped_target(s: Seq<char>) -> bool {
    ||| begins_with(s, "/proc"@)
    ||| begins_with(s, "/sys"@)
    ||| begins_with(s, "/dev"@)
    ||| begins_with(s, "/run/docker"@)
    ||| begins_with(s, "/run/user/"@) && contains_seq(s, "/doc"@)
    ||| begins_with(s, "/tmp/.mount_"@)
}

/// Whether a mount at this place is left out.
pub fn should_skip_target(s: &str) -> (r: bool)
    ensures
        r == skipped_target(s@),
{
    text_begins_with(s, "/proc") || text_begins_with(s, "/sys") || text_begins_with(s, "/dev")
        || text_begins_with(s, "/run/docker") || (text_begins_with(s, "/run/user/")
        && contains_text(s, "/doc")) || text_begins_with(s, "/tmp/.mount_")
}

/// The device of a mount source: `/dev/mapper/root[/@home]` is a subvolume of
/// `/dev/mapper/root`.
pub fn normalize_source(source: &str) -> (r: String)
    ensures
        r@ == up_to(source@, '['),
{
    text_up_to(source, '[')
}

// ---------------------------------------------------------------------------
// Mounted file systems
// ---------------------------------------------------------------------------

/// The sizes that the system reports of a file system, in fragments.
#[derive(Clone, Copy, Debug)]
pub struct FsStats {
    pub frsize: u64,
    pub blocks: u64,
    pub bfree: u64,
    pub bavail: u64,
}

/// The product of two sizes, or the largest size if it is larger.
pub open spec fn sat_mul(a: u64, b: u64) -> u64 {
    if a * b > u64::MAX {
        u64::MAX
    } else {
        (a * b) as u64
    }
}

/// The product of two sizes, or the largest size if it is larger.
pub(crate) fn mul_sizes(a: u64, b: u64) -> (r: u64)
    ensures
        r == sat_mul(a, b),
{
    match a.checked_mul(b) {
        Some(v) => v,
        None => u64::MAX,
    }
}

/// The usage of a file system from what the system reports.
pub open spec fn usage_of(path: Seq<u8>, stats: FsStats) -> MountModel {
    let total = sat_mul(stats.blocks, stats.frsize);
    MountModel {
        path,
        total,
        used: sat_sub(total, sat_mul(stats.bfree, stats.frsize) as int),
        available: sat_mul(stats.bavail, stats.frsize),
    }
}

/// The usage of the file system mounted at `path`.
pub fn stat_fs(path: &PathBuf, stats: &FsStats) -> (r: Mount)
    ensures
        r@ == usage_of(path@, *stats),
{
    let total: u64 = mul_sizes(stats.blocks, stats.frsize);
    let free_all: u64 = mul_sizes(stats.bfree, stats.frsize);
    let available: u64 = mul_sizes(stats.bavail, stats.frsize);
    let used: u64 = total.saturating_sub(free_all);
    Mount { path: path.clone(), total, used, available }
}

/// A line of the list of mounted file systems.
#[derive(Debug)]
pub struct FindmntFs {
    pub source: Option<String>,
    pub target: Option<String>,
    pub fstype: Option<String>,
}

/// The value of a [`FindmntFs`].
pub struct FsModel {
    pub source: Option<Seq<char>>,
    pub target: Option<Seq<char>>,
    pub fstype: Option<Seq<char>>,
}

impl View for FindmntFs {
    type V = FsModel;

    open spec fn view(&self) -> FsModel {
        FsModel {
            source: text_of(self.source),
            target: text_of(self.target),
            fstype: text_of(self.fstype),
        }
    }
}

/// Whether a file system is listed at all: it has a source and a place, and is
/// local storage at a place that is not left out.
pub open spec fn fs_wanted(fs: FsModel) -> bool {
    &&& fs.target is Some
    &&& fs.source is Some
    &&& !skipped_fstype(text_or_empty(fs.fstype))
    &&& !skipped_target(fs.target.unwrap())
}

/// Whether a file system is listed at all.
pub fn wants_fs(fs: &FindmntFs) -> (r: bool)
    ensures
        r == fs_wanted(fs@),
{
    match (&fs.target, &fs.source) {
        (Some(target), Some(_)) => {
            let ft = copy_or_empty(&fs.fstype);
            !skip_fstype(ft.as_str()) && !should_skip_target(target.as_str())
        },
        _ => false,
    }
}

/// The mounts of each device name.
pub struct MountIndex {
    /// A device name with one of its mounts, in the order in which they came.
    pub entries: Vec<(String, Mount)>,
}

impl View for MountIndex {
    type V = Seq<(Seq<char>, MountModel)>;

    open spec fn view(&self) -> Seq<(Seq<char>, MountModel)> {
        Seq::new(self.entries@.len(), |i: int| (self.entries@[i].0@, self.entries@[i].1@))
    }
}

/// The mounts that are listed under `key`.
pub open spec fn mounts_under(
    entries: Seq<(Seq<char>, MountModel)>,
    key: Seq<char>,
) -> Seq<MountModel>
    decreases entries.len(),
{
    if entries.len() == 0 {
        Seq::empty()
    } else if entries.last().0 == key {
        mounts_under(entries.drop_last(), key).push(entries.last().1)
    } else {
        mounts_under(entries.drop_last(), key)
    }
}

/// The mounts of a device: those listed under its name, its place under
/// `/dev`, its mapped name and its device mapper name.
pub open spec fn device_mounts(
    entries: Seq<(Seq<char>, MountModel)>,
    name: Seq<char>,
) -> Seq<MountModel> {
    mounts_under(entries, name) + mounts_under(entries, "/dev/"@ + name) + mounts_under(
        entries,
        "/dev/mapper/"@ + name,
    ) + mounts_under(entries, "/dev/dm-"@ + name)
}

impl MountIndex {
    /// An index without entries.
    pub fn new() -> (r: MountIndex)
        ensures
            r@ == Seq::<(Seq<char>, MountModel)>::empty(),
    {
        let r = MountIndex { entries: Vec::new() };
        assert(r@ =~= Seq::<(Seq<char>, MountModel)>::empty());
        r
    }

    /// Lists a mount under a name.
    fn list(&mut self, key: String, mount: Mount)
        ensures
            final(self)@ == old(self)@.push((key@, mount@)),
    {
        let ghost before = self@;
        let ghost entry = (key@, mount@);
        self.entries.push((key, mount));
        assert(self@ =~= before.push(entry));
    }

    /// Puts the mounts that are listed under `key` behind `out`.
    fn append_under(&self, key: &str, out: &mut Vec<Mount>)
        ensures
            views(final(out)@) == views(old(out)@) + mounts_under(self@, key@),
    {
        let ghost first = views(out@);
        let ghost all = self@;
        let mut i: usize = 0;
        assert(first + mounts_under(all.take(0), key@) =~= first);
        while i < self.entries.len()
            invariant
                i <= self.entries.len(),
                all == self@,
                views(out@) == first + mounts_under(all.take(i as int), key@),
            decreases self.entries.len() - i,
        {
            assert(all.take(i + 1).drop_last() =~= all.take(i as int));
            assert(all.take(i + 1).last() == (self.entries@[i as int].0@, self.entries@[i as int].1@));
            let ghost before = views(out@);
            if text_eq(self.entries[i].0.as_str(), key) {
                let mount = self.entries[i].1.clone();
                let ghost model = mount@;
                out.push(mount);
                assert(views(out@) =~= before.push(model));
                assert(views(out@) =~= first + mounts_under(all.take(i + 1), key@));
            }
            i = i + 1;
        }
        assert(all.take(all.len() as int) =~= all);
    }

    /// The mounts of a device.
    pub fn for_device(&self, name: &str) -> (r: Vec<Mount>)
        ensures
            views(r@) == device_mounts(self@, name@),
    {
        let mut out: Vec<Mount> = Vec::new();
        assert(views(out@) =~= Seq::<MountModel>::empty());
        self.append_under(name, &mut out);
        let mut key = "/dev/".to_string();
        key.append(name);
        self.append_under(key.as_str(), &mut out);
        let mut key = "/dev/mapper/".to_string();
        key.append(name);
        self.append_under(key.as_str(), &mut out);
        let mut key = "/dev/dm-".to_string();
        key.append(name);
        self.append_under(key.as_str(), &mut out);
        assert(views(out@) =~= device_mounts(self@, name@));
        out
    }
}

/// The entries after the first `n` file systems were listed, each under its
/// device and under its source. Of a file system without statistics all sizes
/// are zero.
pub open spec fn listed_mounts(
    filesystems: Seq<FsModel>,
    stats: Seq<Option<FsStats>>,
    n: nat,
) -> Seq<(Seq<char>, MountModel)>
    decreases n,
{
    if n == 0 {
        Seq::empty()
    } else {
        let before = listed_mounts(filesystems, stats, (n - 1) as nat);
        let fs = filesystems[n - 1];
        if fs_wanted(fs) {
            let path = encode_utf8(fs.target.unwrap());
            let usage = match stats[n - 1] {
                Some(s) => usage_of(path, s),
                None => MountModel { path, total: 0, used: 0, available: 0 },
            };
            before.push((up_to(fs.source.unwrap(), '['), usage)).push((fs.source.unwrap(), usage))
        } else {
            before
        }
    }
}

/// The index of the mounted file systems. `stats[i]` is what the system
/// reports of the i-th one.
pub fn load_mounts(filesystems: &Vec<FindmntFs>, stats: &Vec<Option<FsStats>>) -> (r: MountIndex)
    requires
        filesystems@.len() == stats@.len(),
    ensures
        r@ == listed_mounts(views(filesystems@), stats@, filesystems@.len()),
{
    let mut index = MountIndex::new();
    let ghost all = views(filesystems@);
    let mut i: usize = 0;
    while i < filesystems.len()
        invariant
            i <= filesystems.len(),
            filesystems@.len() == stats@.len(),
            all == views(filesystems@),
            index@ == listed_mounts(all, stats@, i as nat),
        decreases filesystems.len() - i,
    {
        let fs = &filesystems[i];
        assert(all[i as int] == fs@);
        if wants_fs(fs) {
            if let (Some(target), Some(source)) = (&fs.target, &fs.source) {
                let path = PathBuf::from(target.as_str());
                let usage = match &stats[i] {
                    Some(s) => stat_fs(&path, s),
                    None => Mount { path, total: 0, used: 0, available: 0 },
                };
                let key = normalize_source(source.as_str());
                index.list(key, usage.clone());
                index.list(source.clone(), usage);
            }
        }
        i = i + 1;
    }
    index
}

// ---------------------------------------------------------------------------
// Partitions
// ---------------------------------------------------------------------------

/// A device and all devices on it, each before those on it.
pub open spec fn preorder(d: DevModel) -> Seq<DevModel>
    decreases d, d.children.len() + 1,
{
    seq![d] + preorder_kids(d, d.children.len())
}

/// All devices on the first `k` children of `d`, with these.
pub open spec fn preorder_kids(d: DevModel, k: nat) -> Seq<DevModel>
    decreases d, k,
{
    if k == 0 || k > d.children.len() {
        Seq::empty()
    } else {
        preorder_kids(d, (k - 1) as nat) + preorder(d.children[k - 1])
    }
}

/// What is known of a partition from the devices on it.
pub struct Facts {
    pub mapped_name: Option<String>,
    pub fstype: String,
    pub label: Option<String>,
    pub locked: bool,
    pub names: Vec<String>,
}

/// The value of a [`Facts`].
#[verifier::ext_equal]
pub struct FactsModel {
    pub mapped_name: Option<Seq<char>>,
    pub fstype: Seq<char>,
    pub label: Option<Seq<char>>,
    pub locked: bool,
    pub names: Seq<Seq<char>>,
}

impl View for Facts {
    type V = FactsModel;

    open spec fn view(&self) -> FactsModel {
        FactsModel {
            mapped_name: text_of(self.mapped_name),
            fstype: self.fstype@,
            label: text_of(self.label),
            locked: self.locked,
            names: views(self.names@),
        }
    }
}

/// The names of a device.
pub open spec fn names_of(d: DevModel) -> Seq<Seq<char>> {
    match d.kname {
        Some(k) => seq![d.name, k],
        None => seq![d.name],
    }
}

/// Whether a device maps another one under a name of its own.
pub open spec fn maps_device(kind: Seq<char>) -> bool {
    kind == "crypt"@ || kind == "lvm"@ || kind == "raid1"@ || kind == "raid0"@
}

/// Whether a file system type is known and readable.
pub open spec fn readable(fstype: Option<Seq<char>>) -> bool {
    fstype is Some && fstype.unwrap() != "crypto_LUKS"@
}

/// What is known once the device `d` was seen too: later devices override
/// what earlier ones say.
pub open spec fn seen(facts: FactsModel, d: DevModel) -> FactsModel {
    FactsModel {
        mapped_name: if maps_device(d.kind) {
            Some(d.name)
        } else {
            facts.mapped_name
        },
        fstype: if readable(d.fstype) {
            d.fstype.unwrap()
        } else {
            facts.fstype
        },
        label: if d.label is Some {
            d.label
        } else {
            facts.label
        },
        locked: facts.locked && !readable(d.fstype),
        names: facts.names + names_of(d),
    }
}

/// What is known once all of `ds` were seen.
pub open spec fn seen_all(facts: FactsModel, ds: Seq<DevModel>) -> FactsModel
    decreases ds.len(),
{
    if ds.len() == 0 {
        facts
    } else {
        seen(seen_all(facts, ds.drop_last()), ds.last())
    }
}

proof fn lemma_seen_all_concat(facts: FactsModel, a: Seq<DevModel>, b: Seq<DevModel>)
    ensures
        seen_all(facts, a + b) == seen_all(seen_all(facts, a), b),
    decreases b.len(),
{
    if b.len() == 0 {
        assert(a + b =~= a);
    } else {
        lemma_seen_all_concat(facts, a, b.drop_last());
        assert((a + b).drop_last() =~= a + b.drop_last());
    }
}

/// What is known of a partition before the devices on it were seen.
pub open spec fn first_facts(d: DevModel) -> FactsModel {
    FactsModel {
        mapped_name: None,
        fstype: text_or_empty(d.fstype),
        label: d.label,
        locked: text_or_empty(d.fstype) == "crypto_LUKS"@,
        names: names_of(d),
    }
}

impl Facts {
    /// Adds what the names of a device are.
    fn add_names(&mut self, d: &LsblkDev)
        ensures
            final(self)@ == (FactsModel {
                names: old(self)@.names + names_of(d.model()),
                ..old(self)@
            }),
    {
        let ghost before = self@;
        self.names.push(d.name.clone());
        assert(views(self.names@) =~= before.names.push(d.name@));
        if let Some(k) = &d.kname {
            self.names.push(k.clone());
            assert(views(self.names@) =~= before.names + names_of(d.model()));
        } else {
            assert(views(self.names@) =~= before.names + names_of(d.model()));
        }
    }

    /// Notes a device on the partition and all devices on it.
    fn walk_nested(&mut self, d: &LsblkDev)
        ensures
            final(self)@ == seen_all(old(self)@, preorder(d.model())),
        decreases d,
    {
        let ghost m = d.model();
        let ghost first = self@;
        proof {
            lemma_dev_children(*d);
        }
        self.add_names(d);
        if text_eq(d.kind.as_str(), "crypt") || text_eq(d.kind.as_str(), "lvm") || text_eq(
            d.kind.as_str(),
            "raid1",
        ) || text_eq(d.kind.as_str(), "raid0") {
            self.mapped_name = Some(d.name.clone());
        }
        if let Some(ft) = &d.fstype {
            if !text_eq(ft.as_str(), "crypto_LUKS") {
                self.fstype = ft.clone();
                self.locked = false;
            }
        }
        if d.label.is_some() {
            self.label = copy_text(&d.label);
        }
        assert(self@ =~= seen(first, m));
        proof {
            let one = seq![m];
            assert(one.drop_last() =~= Seq::<DevModel>::empty());
            assert(seen_all(first, one) == seen(first, m)) by {
                assert(seen_all(first, one.drop_last()) == first);
            }
        }
        self.walk_children(d);
        proof {
            lemma_seen_all_concat(first, seq![m], preorder_kids(m, m.children.len()));
        }
    }

    /// Notes all devices on a device.
    fn walk_children(&mut self, d: &LsblkDev)
        ensures
            final(self)@ == seen_all(
                old(self)@,
                preorder_kids(d.model(), d.model().children.len()),
            ),
        decreases d, 0nat,
    {
        let ghost m = d.model();
        let ghost first = self@;
        proof {
            lemma_dev_children(*d);
        }
        let mut i: usize = 0;
        while i < d.children.len()
            invariant
                i <= d.children.len(),
                m == d.model(),
                m.children == dev_models(d.children@),
                self@ == seen_all(first, preorder_kids(m, i as nat)),
            decreases d.children.len() - i,
        {
            let c = &d.children[i];
            assert(m.children[i as int] == c.model());
            proof {
                lemma_seen_all_concat(first, preorder_kids(m, i as nat), preorder(c.model()));
            }
            self.walk_nested(c);
            i = i + 1;
        }
    }
}

/// The mounts of each of the names, in turn.
pub open spec fn mounts_of_names(
    entries: Seq<(Seq<char>, MountModel)>,
    names: Seq<Seq<char>>,
) -> Seq<MountModel>
    decreases names.len(),
{
    if names.len() == 0 {
        Seq::empty()
    } else {
        mounts_of_names(entries, names.drop_last()) + device_mounts(entries, names.last())
    }
}

/// The mounts without those at the same path as the one kept before them.
pub open spec fn distinct_mounts(s: Seq<MountModel>) -> Seq<MountModel>
    decreases s.len(),
{
    if s.len() == 0 {
        Seq::empty()
    } else {
        let kept = distinct_mounts(s.drop_last());
        if kept.len() > 0 && same_path(s.last().path, kept.last().path) {
            kept
        } else {
            kept.push(s.last())
        }
    }
}

/// Drops mounts at the same path as the one before them.
fn dedup_mounts(s: &Vec<Mount>) -> (r: Vec<Mount>)
    ensures
        views(r@) == distinct_mounts(views(s@)),
{
    let ghost all = views(s@);
    let mut out: Vec<Mount> = Vec::new();
    let mut i: usize = 0;
    assert(views(out@) =~= distinct_mounts(all.take(0)));
    while i < s.len()
        invariant
            i <= s.len(),
            all == views(s@),
            views(out@) == distinct_mounts(all.take(i as int)),
        decreases s.len() - i,
    {
        assert(all.take(i + 1).drop_last() =~= all.take(i as int));
        assert(all.take(i + 1).last() == s@[i as int]@);
        let ghost before = views(out@);
        let n: usize = out.len();
        assert(n > 0 ==> before.last() == out@[n - 1]@);
        if n == 0 || !s[i].path.same_as(&out[n - 1].path) {
            let mount = s[i].clone();
            let ghost model = mount@;
            out.push(mount);
            assert(views(out@) =~= before.push(model));
        }
        i = i + 1;
    }
    assert(all.take(all.len() as int) =~= all);
    out
}

/// The partition that a block device stands for.
pub open spec fn partition_of(
    d: DevModel,
    entries: Seq<(Seq<char>, MountModel)>,
) -> PartitionModel {
    let facts = seen_all(first_facts(d), preorder_kids(d, d.children.len()));
    let found = distinct_mounts(ordered::<Mount>(mounts_of_names(entries, facts.names)));
    PartitionModel {
        name: d.name,
        mapped_name: facts.mapped_name,
        label: facts.label,
        fstype: if found.len() > 0 && facts.fstype.len() == 0 {
            "mounted"@
        } else {
            facts.fstype
        },
        size: d.size,
        start: sat_mul(d.start, 512),
        locked: facts.locked && found.len() == 0,
        mounts: found,
    }
}

/// The partition that a block device stands for.
fn partition_from(d: &LsblkDev, mounts: &MountIndex) -> (r: Partition)
    ensures
        r@ == partition_of(d.model(), mounts@),
{
    let ghost m = d.model();
    let fstype = copy_or_empty(&d.fstype);
    let locked = text_eq(fstype.as_str(), "crypto_LUKS");
    let mut facts = Facts {
        mapped_name: None,
        fstype,
        label: copy_text(&d.label),
        locked,
        names: Vec::new(),
    };
    assert(facts@.names =~= Seq::<Seq<char>>::empty());
    facts.add_names(d);
    assert(facts@.names =~= names_of(m));
    assert(facts@ =~= first_facts(m));
    facts.walk_children(d);
    let ghost names = facts@.names;
    let mut all: Vec<Mount> = Vec::new();
    let mut i: usize = 0;
    assert(names.take(0) =~= Seq::<Seq<char>>::empty());
    assert(views(all@) =~= Seq::<MountModel>::empty());
    while i < facts.names.len()
        invariant
            i <= facts.names.len(),
            names == views(facts.names@),
            views(all@) == mounts_of_names(mounts@, names.take(i as int)),
        decreases facts.names.len() - i,
    {
        assert(names.take(i + 1).drop_last() =~= names.take(i as int));
        assert(names.take(i + 1).last() == facts.names@[i as int]@);
        let mut more = mounts.for_device(facts.names[i].as_str());
        let ghost before = views(all@);
        let ghost added = views(more@);
        all.append(&mut more);
        assert(views(all@) =~= before + added);
        i = i + 1;
    }
    assert(names.take(names.len() as int) =~= names);
    sort(&mut all);
    let found = dedup_mounts(&all);
    let mut fstype = facts.fstype;
    let mut locked = facts.locked;
    assert(views(found@).len() == found@.len());
    if found.len() > 0 {
        locked = false;
        if fstype.as_str().unicode_len() == 0 {
            fstype = "mounted".to_string();
        }
    }
    Partition {
        name: d.name.clone(),
        mapped_name: facts.mapped_name,
        label: facts.label,
        fstype,
        size: d.size,
        start: mul_sizes(d.start, 512),
        locked,
        mounts: found,
    }
}

/// The partitions among the first `k` devices on a disk.
pub open spec fn partitions_on(
    d: DevModel,
    entries: Seq<(Seq<char>, MountModel)>,
    k: nat,
) -> Seq<PartitionModel>
    decreases k,
{
    if k == 0 {
        Seq::empty()
    } else {
        let before = partitions_on(d, entries, (k - 1) as nat);
        if d.children[k - 1].kind == "part"@ {
            before.push(partition_of(d.children[k - 1], entries))
        } else {
            before
        }
    }
}

/// The partitions of a disk, in the order in which they are listed.
fn collect_partitions(d: &LsblkDev, mounts: &MountIndex) -> (r: Vec<Partition>)
    ensures
        views(r@) == partitions_on(d.model(), mounts@, d.model().children.len()),
{
    let ghost m = d.model();
    proof {
        lemma_dev_children(*d);
    }
    let mut out: Vec<Partition> = Vec::new();
    let mut i: usize = 0;
    assert(views(out@) =~= Seq::<PartitionModel>::empty());
    while i < d.children.len()
        invariant
            i <= d.children.len(),
            m == d.model(),
            m.children == dev_models(d.children@),
            views(out@) == partitions_on(m, mounts@, i as nat),
        decreases d.children.len() - i,
    {
        let c = &d.children[i];
        assert(m.children[i as int] == c.model());
        if text_eq(c.kind.as_str(), "part") {
            let ghost before = views(out@);
            let part = partition_from(c, mounts);
            let ghost model = part@;
            out.push(part);
            assert(views(out@) =~= before.push(model));
        }
        i = i + 1;
    }
    out
}

// ---------------------------------------------------------------------------
// Disks
// ---------------------------------------------------------------------------

/// The bytes of all partitions together.
pub open spec fn partition_bytes(s: Seq<PartitionModel>) -> int
    decreases s.len(),
{
    if s.len() == 0 {
        0
    } else {
        partition_bytes(s.drop_last()) + s.last().size
    }
}

/// The value of an optional flag.
pub open spec fn flag(f: Option<bool>) -> bool {
    f == Some(true)
}

/// The disk that a block device stands for; none if it is no physical disk, is
/// left out, or holds nothing but swap.
pub open spec fn disk_of(
    d: DevModel,
    entries: Seq<(Seq<char>, MountModel)>,
) -> Option<DiskModel> {
    let parts = partitions_on(d, entries, d.children.len());
    if d.kind != "disk"@ || d.size == 0 || virtual_name(d.name) || (parts.len() == 0 && d.fstype
        == Some("swap"@)) {
        None
    } else {
        Some(
            DiskModel {
                name: d.name,
                model: text_or_empty(d.model),
                serial: text_or_empty(d.serial),
                transport: text_or_empty(d.tran),
                size: d.size,
                rotational: flag(d.rota),
                removable: flag(d.rm) || flag(d.hotplug),
                partitions: ordered::<Partition>(parts),
                unallocated: sat_sub(d.size, partition_bytes(parts)),
            },
        )
    }
}

/// The disks among the first `n` devices.
pub open spec fn disks_among(
    devs: Seq<DevModel>,
    entries: Seq<(Seq<char>, MountModel)>,
    n: nat,
) -> Seq<DiskModel>
    decreases n,
{
    if n == 0 {
        Seq::empty()
    } else {
        let before = disks_among(devs, entries, (n - 1) as nat);
        match disk_of(devs[n - 1], entries) {
            Some(d) => before.push(d),
            None => before,
        }
    }
}

/// The value of an optional flag.
fn is_set(f: Option<bool>) -> (r: bool)
    ensures
        r == flag(f),
{
    match f {
        Some(b) => b,
        None => false,
    }
}

/// What the partitions leave of `size`.
fn unallocated_of(size: u64, parts: &Vec<Partition>) -> (r: u64)
    ensures
        r == sat_sub(size, partition_bytes(views(parts@))),
{
    let ghost all = views(parts@);
    let mut left: u64 = size;
    let mut i: usize = 0;
    assert(all.take(0) =~= Seq::<PartitionModel>::empty());
    while i < parts.len()
        invariant
            i <= parts.len(),
            all == views(parts@),
            partition_bytes(all.take(i as int)) >= 0,
            left == sat_sub(size, partition_bytes(all.take(i as int))),
        decreases parts.len() - i,
    {
        assert(all.take(i + 1).drop_last() =~= all.take(i as int));
        assert(all.take(i + 1).last() == parts@[i as int]@);
        left = left.saturating_sub(parts[i].size);
        i = i + 1;
    }
    assert(all.take(all.len() as int) =~= all);
    left
}

/// The disk that a block device stands for.
fn disk_from(d: &LsblkDev, mounts: &MountIndex) -> (r: Option<Disk>)
    ensures
        match r {
            Some(disk) => disk_of(d.model(), mounts@) == Some(disk@),
            None => disk_of(d.model(), mounts@) is None,
        },
{
    if !text_eq(d.kind.as_str(), "disk") || skip_disk(d.name.as_str(), d.size) {
        return None;
    }
    let mut parts = collect_partitions(d, mounts);
    assert(views(parts@).len() == parts@.len());
    if parts.len() == 0 {
        if let Some(ft) = &d.fstype {
            if text_eq(ft.as_str(), "swap") {
                return None;
            }
        }
    }
    let unallocated: u64 = unallocated_of(d.size, &parts);
    sort(&mut parts);
    Some(
        Disk {
            name: d.name.clone(),
            model: copy_or_empty(&d.model),
            serial: copy_or_empty(&d.serial),
            transport: copy_or_empty(&d.tran),
            size: d.size,
            rotational: is_set(d.rota),
            removable: is_set(d.rm) || is_set(d.hotplug),
            partitions: parts,
            unallocated,
        },
    )
}

/// The physical disks among the block devices, the fixed ones first and the
/// larger ones first, each with its partitions in the order of the disk.
pub fn discover_disks(devices: &Vec<LsblkDev>, mounts: &MountIndex) -> (r: Vec<Disk>)
    ensures
        views(r@) == ordered::<Disk>(
            disks_among(dev_models(devices@), mounts@, devices@.len()),
        ),
{
    let ghost all = dev_models(devices@);
    let mut disks: Vec<Disk> = Vec::new();
    let mut i: usize = 0;
    assert(views(disks@) =~= Seq::<DiskModel>::empty());
    while i < devices.len()
        invariant
            i <= devices.len(),
            all == dev_models(devices@),
            views(disks@) == disks_among(all, mounts@, i as nat),
        decreases devices.len() - i,
    {
        assert(all[i as int] == devices@[i as int].model());
        if let Some(disk) = disk_from(&devices[i], mounts) {
            let ghost before = views(disks@);
            let ghost model = disk@;
            disks.push(disk);
            assert(views(disks@) =~= before.push(model));
        }
        i = i + 1;
    }
    sort(&mut disks);
    disks
}

/// The partitions of a disk and what they leave make up the disk, where they
/// fit on it.
pub proof fn law_disk_adds_up(d: DevModel, entries: Seq<(Seq<char>, MountModel)>)
    ensures
        disk_of(d, entries) matches Some(disk) ==> partition_bytes(disk.partitions) <= disk.size
            ==> partition_bytes(disk.partitions) + disk.unallocated == disk.size,
{
    let parts = partitions_on(d, entries, d.children.len());
    lemma_ordered_bytes(parts);
    lemma_bytes_positive(parts);
}

proof fn lemma_bytes_positive(s: Seq<PartitionModel>)
    ensures
        partition_bytes(s) >= 0,
    decreases s.len(),
{
    if s.len() > 0 {
        lemma_bytes_positive(s.drop_last());
    }
}

proof fn lemma_placed_bytes(s: Seq<PartitionModel>, x: PartitionModel)
    ensures
        partition_bytes(placed::<Partition>(s, x)) == partition_bytes(s) + x.size,
    decreases s.len(),
{
    if s.len() == 0 {
        assert(seq![x].drop_last() =~= s);
    } else if Partition::before(s.last(), x) {
        assert(s.push(x).drop_last() =~= s);
    } else {
        lemma_placed_bytes(s.drop_last(), x);
        let q = placed::<Partition>(s.drop_last(), x);
        assert(q.push(s.last()).drop_last() =~= q);
    }
}

proof fn lemma_ordered_bytes(s: Seq<PartitionModel>)
    ensures
        partition_bytes(ordered::<Partition>(s)) == partition_bytes(s),
    decreases s.len(),
{
    if s.len() > 0 {
        lemma_ordered_bytes(s.drop_last());
        lemma_placed_bytes(ordered::<Partition>(s.drop_last()), s.last());
    }
}

/// Whether no two mounts are at the same place.
pub open spec fn places_distinct(s: Seq<MountModel>) -> bool {
    forall|i: int, j: int|
        0 <= i < j < s.len() ==> !same_path((#[trigger] s[i]).path, (#[trigger] s[j]).path)
}

pub proof fn lemma_distinct_mounts(s: Seq<MountModel>)
    requires
        ascending::<Mount>(s),
    ensures
        forall|i: int, j: int|
            0 <= i < j < distinct_mounts(s).len() ==> comps_less(
                comps((#[trigger] distinct_mounts(s)[i]).path),
                comps((#[trigger] distinct_mounts(s)[j]).path),
            ),
        s.len() > 0 ==> distinct_mounts(s).len() > 0 && same_path(
            distinct_mounts(s).last().path,
            s.last().path,
        ),
    decreases s.len(),
{
    if s.len() > 0 {
        let t = s.drop_last();
        assert forall|i: int, j: int| 0 <= i <= j < t.len() implies Mount::before(
            #[trigger] t[i],
            #[trigger] t[j],
        ) by {
            assert(Mount::before(s[i], s[j]));
        }
        lemma_distinct_mounts(t);
        let kept = distinct_mounts(t);
        let all = distinct_mounts(s);
        if t.len() > 0 && !same_path(s.last().path, kept.last().path) {
            assert(Mount::before(s[t.len() - 1], s[t.len() as int]));
            assert(t.last() == s[t.len() - 1]);
            lemma_comps_order(comps(kept.last().path), comps(s.last().path));
            assert forall|i: int, j: int| 0 <= i < j < all.len() implies comps_less(
                comps((#[trigger] all[i]).path),
                comps((#[trigger] all[j]).path),
            ) by {
                if j < kept.len() {
                    assert(comps_less(comps(kept[i].path), comps(kept[j].path)));
                } else if i < kept.len() - 1 {
                    assert(comps_less(comps(kept[i].path), comps(kept[kept.len() - 1].path)));
                    lemma_comps_transitive(
                        comps(kept[i].path),
                        comps(kept.last().path),
                        comps(s.last().path),
                    );
                }
            }
        }
    }
}

/// A partition lists no place twice, under however many names it was found.
pub proof fn law_mounts_once(d: DevModel, entries: Seq<(Seq<char>, MountModel)>)
    ensures
        places_distinct(partition_of(d, entries).mounts),
{
    let facts = seen_all(first_facts(d), preorder_kids(d, d.children.len()));
    let found = mounts_of_names(entries, facts.names);
    law_ordered_ascending::<Mount>(found);
    lemma_distinct_mounts(ordered::<Mount>(found));
    let s = partition_of(d, entries).mounts;
    assert forall|i: int, j: int| 0 <= i < j < s.len() implies !same_path(
        (#[trigger] s[i]).path,
        (#[trigger] s[j]).path,
    ) by {
        lemma_comps_order(comps(s[i].path), comps(s[j].path));
    }
}

/// A partition with mounts is not locked.
pub proof fn law_mounted_is_unlocked(d: DevModel, entries: Seq<(Seq<char>, MountModel)>)
    ensures
        partition_of(d, entries).mounts.len() > 0 ==> !partition_of(d, entries).locked
            && partition_of(d, entries).fstype.len() > 0,
{
    reveal_strlit("mounted");
}

} // verus!
