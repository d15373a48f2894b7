//! What is made of the block devices and mounts that the system lists, said of
//! those lists alone.

use crate::discover::{
    device_mounts, disk_of, disks_among, distinct_mounts, field_value, first_facts, fs_wanted,
    lemma_distinct_mounts, listed_mounts, mounts_of_names, mounts_under, partition_bytes, partition_of, partitions_on,
    preorder, preorder_kids, seen_all, skipped_fstype, skipped_target, usage_of,
    virtual_name, DevModel, Disk, DiskModel, FactsModel, FsModel, FsStats, Mount, MountModel,
    NumberField, Partition, PartitionModel,
};
use crate::order::{bytes_less, comps_less};
use crate::path::{comps, same_path};
use crate::sort::{law_ordered_ascending, law_ordered_same_values, ordered};
use crate::text::{begins_with, contains_seq, up_to};
use crate::tree_view::lemma_ordered_member;
use crate::walk_laws::at_most_all;
use vstd::prelude::*;
use vstd::utf8::*;

verus! {

/// What is in a list is in the sorted list.
pub proof fn lemma_member_ordered<T: crate::sort::Ranked>(s: Seq<T::V>, x: T::V)
    requires
        s.contains(x),
    ensures
        ordered::<T>(s).contains(x),
{
    broadcast use vstd::seq_lib::group_to_multiset_ensures;

    law_ordered_same_values::<T>(s);
    assert(s.to_multiset().contains(x));
    assert(ordered::<T>(s).to_multiset().contains(x));
}

// ---------------------------------------------------------------------------
// Numbers and usage
// ---------------------------------------------------------------------------

/// A number that is not negative stands for itself; a negative one and none at
/// all count as zero.
pub proof fn law_field_value(n: u64, v: i64)
    ensures
        field_value(NumberField::Unsigned(n)) == Some(n),
        v >= 0 ==> field_value(NumberField::Signed(v)) == Some(v as u64),
        v < 0 ==> field_value(NumberField::Signed(v)) == Some(0u64),
        field_value(NumberField::Absent) == Some(0u64),
{
}

/// A file system has as many bytes as its blocks take, has in use what is not
/// free of them, and has available what is available to users.
pub proof fn law_usage(path: Seq<u8>, stats: FsStats)
    ensures
        ({
            let u = usage_of(path, stats);
            &&& u.path == path
            &&& u.total == at_most_all(stats.blocks * stats.frsize)
            &&& u.available == at_most_all(stats.bavail * stats.frsize)
            &&& u.used == if u.total < at_most_all(stats.bfree * stats.frsize) {
                0
            } else {
                u.total - at_most_all(stats.bfree * stats.frsize)
            }
        }),
{
}

// ---------------------------------------------------------------------------
// What is left out
// ---------------------------------------------------------------------------

/// Just these types of file systems, and all others behind `fuse.`, are no local
/// storage.
pub proof fn law_skipped_types(ft: Seq<char>)
    ensures
        skipped_fstype(ft) <==> begins_with(ft, "fuse."@) || ft == "proc"@ || ft == "sysfs"@ || ft
            == "cgroup"@ || ft == "cgroup2"@ || ft == "tmpfs"@ || ft == "devtmpfs"@ || ft
            == "devpts"@ || ft == "securityfs"@ || ft == "pstore"@ || ft == "bpf"@ || ft
            == "tracefs"@ || ft == "debugfs"@ || ft == "fusectl"@ || ft == "configfs"@ || ft
            == "mqueue"@ || ft == "hugetlbfs"@ || ft == "overlay"@ || ft == "nsfs"@ || ft
            == "autofs"@ || ft == "binfmt_misc"@ || ft == "efivarfs"@ || ft == "rpc_pipefs"@ || ft
            == "nfs"@ || ft == "nfs4"@ || ft == "cifs"@ || ft == "smb3"@ || ft == "squashfs"@,
{
    reveal_strlit("fuse.");
    reveal_strlit("fuse.gvfsd-fuse");
    reveal_strlit("fuse.portal");
    if ft == "fuse.gvfsd-fuse"@ || ft == "fuse.portal"@ {
        assert(ft.take(5) =~= "fuse."@);
        assert(begins_with(ft, "fuse."@));
    }
}

/// Just the places of the system itself are left out.
pub proof fn law_skipped_places(s: Seq<char>)
    ensures
        skipped_target(s) <==> begins_with(s, "/proc"@) || begins_with(s, "/sys"@) || begins_with(
            s,
            "/dev"@,
        ) || begins_with(s, "/run/docker"@) || begins_with(s, "/tmp/.mount_"@) || (begins_with(
            s,
            "/run/user/"@,
        ) && contains_seq(s, "/doc"@)),
{
}

/// A file system is listed just where it has a source, a place that is not left
/// out, and no type that is.
pub proof fn law_wanted(fs: FsModel)
    ensures
        fs_wanted(fs) <==> fs.source is Some && fs.target is Some && !skipped_target(
            fs.target.unwrap(),
        ) && !skipped_fstype(
            match fs.fstype {
                Some(t) => t,
                None => Seq::empty(),
            },
        ),
{
}

// ---------------------------------------------------------------------------
// Mounts
// ---------------------------------------------------------------------------

/// The usage that is listed of a file system.
pub open spec fn usage_listed(fs: FsModel, stats: Option<FsStats>, u: MountModel) -> bool {
    &&& u.path == encode_utf8(fs.target.unwrap())
    &&& match stats {
        Some(s) => u == usage_of(u.path, s),
        None => u.total == 0 && u.used == 0 && u.available == 0,
    }
}

/// Each wanted file system is listed under its source, and under the part of it
/// before a bracket, with its usage; and nothing else is listed.
pub proof fn law_listed(
    filesystems: Seq<FsModel>,
    stats: Seq<Option<FsStats>>,
    n: nat,
    i: int,
    key: Seq<char>,
    u: MountModel,
)
    requires
        n <= filesystems.len() == stats.len(),
    ensures
        0 <= i < n && fs_wanted(filesystems[i]) && usage_listed(filesystems[i], stats[i], u) ==> {
            &&& listed_mounts(filesystems, stats, n).contains((filesystems[i].source.unwrap(), u))
            &&& listed_mounts(filesystems, stats, n).contains(
                (up_to(filesystems[i].source.unwrap(), '['), u),
            )
        },
        listed_mounts(filesystems, stats, n).contains((key, u)) ==> exists|j: int|
            0 <= j < n && fs_wanted(#[trigger] filesystems[j]) && usage_listed(
                filesystems[j],
                stats[j],
                u,
            ) && (key == filesystems[j].source.unwrap() || key == up_to(
                filesystems[j].source.unwrap(),
                '[',
            )),
    decreases n,
{
    if n > 0 {
        law_listed(filesystems, stats, (n - 1) as nat, i, key, u);
        let before = listed_mounts(filesystems, stats, (n - 1) as nat);
        let after = listed_mounts(filesystems, stats, n);
        let fs = filesystems[n - 1];
        if 0 <= i < n && fs_wanted(filesystems[i]) && usage_listed(filesystems[i], stats[i], u) {
            let a = (filesystems[i].source.unwrap(), u);
            let b = (up_to(filesystems[i].source.unwrap(), '['), u);
            if i < n - 1 {
                let x = choose|x: int| 0 <= x < before.len() && before[x] == a;
                let y = choose|y: int| 0 <= y < before.len() && before[y] == b;
                assert(after[x] == a && after[y] == b);
            } else {
                assert(after[before.len() as int] == b);
                assert(after[before.len() as int + 1] == a);
            }
        }
        if after.contains((key, u)) {
            let x = choose|x: int| 0 <= x < after.len() && after[x] == (key, u);
            if x < before.len() {
                assert(before[x] == (key, u));
            } else {
                assert(fs_wanted(filesystems[n - 1]));
            }
        }
    }
}

/// The mounts under a key are those that are listed with it.
pub proof fn law_mounts_under(entries: Seq<(Seq<char>, MountModel)>, key: Seq<char>, u: MountModel)
    ensures
        mounts_under(entries, key).contains(u) <==> entries.contains((key, u)),
    decreases entries.len(),
{
    if entries.len() > 0 {
        let before = entries.drop_last();
        law_mounts_under(before, key, u);
        let all = mounts_under(entries, key);
        let some = mounts_under(before, key);
        if entries.contains((key, u)) {
            let i = choose|i: int| 0 <= i < entries.len() && entries[i] == (key, u);
            if i < before.len() {
                assert(before[i] == (key, u));
                let j = choose|j: int| 0 <= j < some.len() && some[j] == u;
                assert(all[j] == u);
            } else {
                assert(all[some.len() as int] == u);
            }
        }
        if all.contains(u) {
            let j = choose|j: int| 0 <= j < all.len() && all[j] == u;
            if j < some.len() {
                assert(some[j] == u);
                let i = choose|i: int| 0 <= i < before.len() && before[i] == (key, u);
                assert(entries[i] == (key, u));
            } else {
                assert(entries[entries.len() - 1] == (key, u));
            }
        }
    }
}

/// Whether a mount is listed for a device: under its name, as it stands or with
/// the place of a device, of a mapped one, or of a mapper number before it.
pub open spec fn listed_for(
    entries: Seq<(Seq<char>, MountModel)>,
    name: Seq<char>,
    u: MountModel,
) -> bool {
    entries.contains((name, u)) || entries.contains(("/dev/"@ + name, u)) || entries.contains(
        ("/dev/mapper/"@ + name, u),
    ) || entries.contains(("/dev/dm-"@ + name, u))
}

proof fn lemma_concat_contains<A>(a: Seq<A>, b: Seq<A>, x: A)
    ensures
        (a + b).contains(x) <==> a.contains(x) || b.contains(x),
{
    let c = a + b;
    if a.contains(x) {
        let i = choose|i: int| 0 <= i < a.len() && a[i] == x;
        assert(c[i] == x);
    }
    if b.contains(x) {
        let i = choose|i: int| 0 <= i < b.len() && b[i] == x;
        assert(c[a.len() + i] == x);
    }
    if c.contains(x) {
        let i = choose|i: int| 0 <= i < c.len() && c[i] == x;
        if i < a.len() {
            assert(a[i] == x);
        } else {
            assert(b[i - a.len()] == x);
        }
    }
}

/// The mounts of a device are those that are listed for it.
pub proof fn law_device_mounts(
    entries: Seq<(Seq<char>, MountModel)>,
    name: Seq<char>,
    u: MountModel,
)
    ensures
        device_mounts(entries, name).contains(u) <==> listed_for(entries, name, u),
{
    let a = mounts_under(entries, name);
    let b = mounts_under(entries, "/dev/"@ + name);
    let c = mounts_under(entries, "/dev/mapper/"@ + name);
    let d = mounts_under(entries, "/dev/dm-"@ + name);
    lemma_concat_contains(a, b, u);
    lemma_concat_contains(a + b, c, u);
    lemma_concat_contains(a + b + c, d, u);
    law_mounts_under(entries, name, u);
    law_mounts_under(entries, "/dev/"@ + name, u);
    law_mounts_under(entries, "/dev/mapper/"@ + name, u);
    law_mounts_under(entries, "/dev/dm-"@ + name, u);
}

proof fn lemma_mounts_of_names(
    entries: Seq<(Seq<char>, MountModel)>,
    names: Seq<Seq<char>>,
    u: MountModel,
)
    ensures
        mounts_of_names(entries, names).contains(u) <==> exists|i: int|
            0 <= i < names.len() && listed_for(entries, #[trigger] names[i], u),
    decreases names.len(),
{
    if names.len() > 0 {
        let before = names.drop_last();
        lemma_mounts_of_names(entries, before, u);
        law_device_mounts(entries, names.last(), u);
        lemma_concat_contains(
            mounts_of_names(entries, before),
            device_mounts(entries, names.last()),
            u,
        );
        if mounts_of_names(entries, before).contains(u) {
            let i = choose|i: int|
                0 <= i < before.len() && listed_for(entries, #[trigger] before[i], u);
            assert(listed_for(entries, names[i], u));
        }
        if exists|i: int| 0 <= i < names.len() && listed_for(entries, #[trigger] names[i], u) {
            let i = choose|i: int|
                0 <= i < names.len() && listed_for(entries, #[trigger] names[i], u);
            if i < before.len() {
                assert(listed_for(entries, before[i], u));
            }
        }
    }
}

proof fn lemma_distinct(s: Seq<MountModel>, u: MountModel)
    ensures
        distinct_mounts(s).contains(u) ==> s.contains(u),
        s.contains(u) ==> exists|i: int|
            0 <= i < distinct_mounts(s).len() && same_path(
                (#[trigger] distinct_mounts(s)[i]).path,
                u.path,
            ),
    decreases s.len(),
{
    if s.len() > 0 {
        let t = s.drop_last();
        lemma_distinct(t, u);
        let kept = distinct_mounts(t);
        let all = distinct_mounts(s);
        if all.contains(u) {
            let i = choose|i: int| 0 <= i < all.len() && all[i] == u;
            if i < kept.len() {
                assert(kept[i] == u);
                let j = choose|j: int| 0 <= j < t.len() && t[j] == u;
                assert(s[j] == u);
            } else {
                assert(s[s.len() - 1] == u);
            }
        }
        if s.contains(u) {
            let j = choose|j: int| 0 <= j < s.len() && s[j] == u;
            if j < t.len() {
                assert(t[j] == u);
                let i = choose|i: int|
                    0 <= i < kept.len() && same_path((#[trigger] kept[i]).path, u.path);
                assert(same_path(all[i].path, u.path));
            } else {
                assert(same_path(all[all.len() - 1].path, u.path));
            }
        }
    }
}

// ---------------------------------------------------------------------------
// Partitions
// ---------------------------------------------------------------------------

/// A device is among those that stand on it and on one another, first of all;
/// and with each device that is among them its children are.
pub proof fn law_preorder(d: DevModel, i: int, j: int)
    ensures
        preorder(d).len() > 0 && preorder(d)[0] == d,
        0 <= i < preorder(d).len() && 0 <= j < preorder(d)[i].children.len() ==> preorder(
            d,
        ).contains(preorder(d)[i].children[j]),
    decreases d, d.children.len() + 1,
{
    let kids = preorder_kids(d, d.children.len());
    let all = preorder(d);
    if 0 <= i < all.len() && 0 <= j < all[i].children.len() {
        if i == 0 {
            lemma_kids_listed(d, d.children.len(), j);
            let x = d.children[j];
            let q = choose|q: int| 0 <= q < kids.len() && kids[q] == x;
            assert(all[q + 1] == x);
        } else {
            let x = kids[i - 1].children[j];
            lemma_kids_closed(d, d.children.len(), i - 1, j);
            let q = choose|q: int| 0 <= q < kids.len() && kids[q] == x;
            assert(all[q + 1] == x);
        }
    }
}

proof fn lemma_kids_listed(d: DevModel, k: nat, j: int)
    requires
        k <= d.children.len(),
        0 <= j < k,
    ensures
        preorder_kids(d, k).contains(d.children[j]),
    decreases d, k,
{
    let a = preorder_kids(d, (k - 1) as nat);
    let b = preorder(d.children[k - 1]);
    let x = d.children[j];
    if j < k - 1 {
        lemma_kids_listed(d, (k - 1) as nat, j);
    } else {
        assert(b[0] == x);
        assert(b.contains(x));
    }
    lemma_concat_contains(a, b, x);
}

proof fn lemma_kids_closed(d: DevModel, k: nat, i: int, j: int)
    requires
        k <= d.children.len(),
        0 <= i < preorder_kids(d, k).len(),
        0 <= j < preorder_kids(d, k)[i].children.len(),
    ensures
        preorder_kids(d, k).contains(preorder_kids(d, k)[i].children[j]),
    decreases d, k,
{
    let a = preorder_kids(d, (k - 1) as nat);
    let b = preorder(d.children[k - 1]);
    let x = preorder_kids(d, k)[i].children[j];
    if i < a.len() {
        lemma_kids_closed(d, (k - 1) as nat, i, j);
    } else {
        law_preorder(d.children[k - 1], i - a.len(), j);
    }
    lemma_concat_contains(a, b, x);
}

/// The devices that stand on a device.
pub open spec fn devices_on(d: DevModel) -> Seq<DevModel> {
    preorder(d).skip(1)
}

/// Whether a file system type is one that can be read.
pub open spec fn can_be_read(d: DevModel) -> bool {
    d.fstype is Some && d.fstype != Some("crypto_LUKS"@)
}

/// Whether a device gives a partition another name.
pub open spec fn gives_name(d: DevModel) -> bool {
    d.kind == "crypt"@ || d.kind == "lvm"@ || d.kind == "raid1"@ || d.kind == "raid0"@
}

/// The type stays where no device can be read.
proof fn lemma_no_type(f: FactsModel, ds: Seq<DevModel>)
    requires
        forall|i: int| 0 <= i < ds.len() ==> !can_be_read(#[trigger] ds[i]),
    ensures
        seen_all(f, ds).fstype == f.fstype,
        seen_all(f, ds).locked == f.locked,
    decreases ds.len(),
{
    if ds.len() > 0 {
        assert(!can_be_read(ds[ds.len() - 1]));
        lemma_no_type(f, ds.drop_last());
    }
}

/// The type is that of the last device that can be read.
proof fn lemma_last_type(f: FactsModel, ds: Seq<DevModel>, i: int)
    requires
        0 <= i < ds.len(),
        can_be_read(ds[i]),
        forall|j: int| i < j < ds.len() ==> !can_be_read(#[trigger] ds[j]),
    ensures
        seen_all(f, ds).fstype == ds[i].fstype.unwrap(),
        !seen_all(f, ds).locked,
    decreases ds.len(),
{
    if i < ds.len() - 1 {
        assert(!can_be_read(ds[ds.len() - 1]));
        let before = ds.drop_last();
        assert(before[i] == ds[i]);
        lemma_last_type(f, before, i);
    }
}

/// The label stays where no device has one.
proof fn lemma_no_label(f: FactsModel, ds: Seq<DevModel>)
    requires
        forall|i: int| 0 <= i < ds.len() ==> (#[trigger] ds[i]).label is None,
    ensures
        seen_all(f, ds).label == f.label,
    decreases ds.len(),
{
    if ds.len() > 0 {
        assert(ds[ds.len() - 1].label is None);
        lemma_no_label(f, ds.drop_last());
    }
}

/// The label is that of the last device that has one.
proof fn lemma_last_label(f: FactsModel, ds: Seq<DevModel>, i: int)
    requires
        0 <= i < ds.len(),
        ds[i].label is Some,
        forall|j: int| i < j < ds.len() ==> (#[trigger] ds[j]).label is None,
    ensures
        seen_all(f, ds).label == ds[i].label,
    decreases ds.len(),
{
    if i < ds.len() - 1 {
        assert(ds[ds.len() - 1].label is None);
        let before = ds.drop_last();
        assert(before[i] == ds[i]);
        lemma_last_label(f, before, i);
    }
}

/// The other name stays where no device gives one.
proof fn lemma_no_mapped(f: FactsModel, ds: Seq<DevModel>)
    requires
        forall|i: int| 0 <= i < ds.len() ==> !gives_name(#[trigger] ds[i]),
    ensures
        seen_all(f, ds).mapped_name == f.mapped_name,
    decreases ds.len(),
{
    if ds.len() > 0 {
        assert(!gives_name(ds[ds.len() - 1]));
        lemma_no_mapped(f, ds.drop_last());
    }
}

/// The other name is that of the last device that gives one.
proof fn lemma_last_mapped(f: FactsModel, ds: Seq<DevModel>, i: int)
    requires
        0 <= i < ds.len(),
        gives_name(ds[i]),
        forall|j: int| i < j < ds.len() ==> !gives_name(#[trigger] ds[j]),
    ensures
        seen_all(f, ds).mapped_name == Some(ds[i].name),
    decreases ds.len(),
{
    if i < ds.len() - 1 {
        assert(!gives_name(ds[ds.len() - 1]));
        let before = ds.drop_last();
        assert(before[i] == ds[i]);
        lemma_last_mapped(f, before, i);
    }
}

proof fn lemma_seen_names(f: FactsModel, ds: Seq<DevModel>, x: Seq<char>)
    ensures
        seen_all(f, ds).names.contains(x) <==> f.names.contains(x) || exists|i: int|
            0 <= i < ds.len() && ((#[trigger] ds[i]).name == x || ds[i].kname == Some(x)),
    decreases ds.len(),
{
    if ds.len() > 0 {
        let before = ds.drop_last();
        let last = ds.last();
        let n = ds.len() - 1;
        lemma_seen_names(f, before, x);
        let g = seen_all(f, ds);
        let h = seen_all(f, before);
        let own = crate::discover::names_of(last);
        assert(g.names == h.names + own);
        lemma_concat_contains(h.names, own, x);
        assert(own[0] == last.name);
        if last.kname is Some {
            assert(own[1] == last.kname.unwrap());
        }
        assert(own.contains(x) <==> last.name == x || last.kname == Some(x));
        if exists|i: int|
            0 <= i < before.len() && ((#[trigger] before[i]).name == x || before[i].kname == Some(
                x,
            )) {
            let i = choose|i: int|
                0 <= i < before.len() && ((#[trigger] before[i]).name == x || before[i].kname
                    == Some(x));
            assert(ds[i].name == x || ds[i].kname == Some(x));
        }
        if exists|i: int|
            0 <= i < ds.len() && ((#[trigger] ds[i]).name == x || ds[i].kname == Some(x)) {
            let i = choose|i: int|
                0 <= i < ds.len() && ((#[trigger] ds[i]).name == x || ds[i].kname == Some(x));
            if i < n {
                assert(before[i].name == x || before[i].kname == Some(x));
            }
        }
        if last.name == x || last.kname == Some(x) {
            assert(ds[n].name == x || ds[n].kname == Some(x));
        }
    }
}

/// A partition has the name, the size and the place on the disk of its device,
/// with 512 bytes to a sector.
pub proof fn law_partition_place(d: DevModel, entries: Seq<(Seq<char>, MountModel)>)
    ensures
        ({
            let p = partition_of(d, entries);
            &&& p.name == d.name
            &&& p.size == d.size
            &&& p.start == at_most_all(d.start * 512)
        }),
{
}

/// The label of a partition is that of the last device on it that has one, else
/// its own; so is its type, among the types that can be read. Its other name is
/// that of the last device on it that gives one. It is locked where it is
/// encrypted, nothing on it can be read, and nothing of it is mounted.
pub proof fn law_partition_facts(d: DevModel, entries: Seq<(Seq<char>, MountModel)>)
    ensures
        ({
            let p = partition_of(d, entries);
            let on = devices_on(d);
            let own = match d.fstype {
                Some(t) => t,
                None => Seq::empty(),
            };
            let none_read = forall|i: int| 0 <= i < on.len() ==> !can_be_read(#[trigger] on[i]);
            let mounted = p.mounts.len() > 0;
            &&& none_read ==> p.fstype == if own.len() == 0 && mounted {
                "mounted"@
            } else {
                own
            }
            &&& p.locked <==> own == "crypto_LUKS"@ && none_read && !mounted
            &&& forall|i: int|
                0 <= i < on.len() && can_be_read(#[trigger] on[i]) && (forall|j: int|
                    i < j < on.len() ==> !can_be_read(#[trigger] on[j])) ==> p.fstype == if mounted
                    && on[i].fstype.unwrap().len() == 0 {
                    "mounted"@
                } else {
                    on[i].fstype.unwrap()
                }
            &&& (forall|i: int| 0 <= i < on.len() ==> (#[trigger] on[i]).label is None) ==> p.label
                == d.label
            &&& forall|i: int|
                0 <= i < on.len() && (#[trigger] on[i]).label is Some && (forall|j: int|
                    i < j < on.len() ==> (#[trigger] on[j]).label is None) ==> p.label
                    == on[i].label
            &&& (forall|i: int| 0 <= i < on.len() ==> !gives_name(#[trigger] on[i]))
                ==> p.mapped_name is None
            &&& forall|i: int|
                0 <= i < on.len() && gives_name(#[trigger] on[i]) && (forall|j: int|
                    i < j < on.len() ==> !gives_name(#[trigger] on[j])) ==> p.mapped_name == Some(
                    on[i].name,
                )
        }),
{
    let on = devices_on(d);
    assert(on =~= preorder_kids(d, d.children.len()));
    let f = first_facts(d);
    let g = seen_all(f, on);
    if forall|i: int| 0 <= i < on.len() ==> !can_be_read(#[trigger] on[i]) {
        lemma_no_type(f, on);
    } else {
        let i = choose|i: int| 0 <= i < on.len() && can_be_read(#[trigger] on[i]);
        lemma_last_read(on, i);
        let k = choose|k: int|
            0 <= k < on.len() && can_be_read(#[trigger] on[k]) && forall|j: int|
                k < j < on.len() ==> !can_be_read(#[trigger] on[j]);
        lemma_last_type(f, on, k);
        assert(!g.locked);
    }
    if forall|i: int| 0 <= i < on.len() ==> (#[trigger] on[i]).label is None {
        lemma_no_label(f, on);
    }
    if forall|i: int| 0 <= i < on.len() ==> !gives_name(#[trigger] on[i]) {
        lemma_no_mapped(f, on);
    }
    assert forall|i: int|
        0 <= i < on.len() && can_be_read(#[trigger] on[i]) && (forall|j: int|
            i < j < on.len() ==> !can_be_read(#[trigger] on[j])) implies g.fstype
        == on[i].fstype.unwrap() by {
        lemma_last_type(f, on, i);
    }
    assert forall|i: int|
        0 <= i < on.len() && (#[trigger] on[i]).label is Some && (forall|j: int|
            i < j < on.len() ==> (#[trigger] on[j]).label is None) implies g.label
        == on[i].label by {
        lemma_last_label(f, on, i);
    }
    assert forall|i: int|
        0 <= i < on.len() && gives_name(#[trigger] on[i]) && (forall|j: int|
            i < j < on.len() ==> !gives_name(#[trigger] on[j])) implies g.mapped_name == Some(
        on[i].name,
    ) by {
        lemma_last_mapped(f, on, i);
    }
}

/// Where a device can be read, there is a last one.
proof fn lemma_last_read(ds: Seq<DevModel>, i: int)
    requires
        0 <= i < ds.len(),
        can_be_read(ds[i]),
    ensures
        exists|k: int|
            0 <= k < ds.len() && can_be_read(#[trigger] ds[k]) && forall|j: int|
                k < j < ds.len() ==> !can_be_read(#[trigger] ds[j]),
    decreases ds.len() - i,
{
    if forall|j: int| i < j < ds.len() ==> !can_be_read(#[trigger] ds[j]) {
    } else {
        let j = choose|j: int| i < j < ds.len() && can_be_read(#[trigger] ds[j]);
        lemma_last_read(ds, j);
    }
}

/// A mount of a partition is one that is listed for it, or for a device on it, by
/// its name or its name in the kernel; and for each that is listed so the
/// partition has a mount at that place.
#[verifier::rlimit(40)]
pub proof fn law_partition_mounts(
    d: DevModel,
    entries: Seq<(Seq<char>, MountModel)>,
    u: MountModel,
)
    ensures
        ({
            let p = partition_of(d, entries);
            let found = exists|i: int|
                0 <= i < preorder(d).len() && (listed_for(
                    entries,
                    (#[trigger] preorder(d)[i]).name,
                    u,
                ) || (preorder(d)[i].kname matches Some(k) && listed_for(entries, k, u)));
            &&& p.mounts.contains(u) ==> found
            &&& found ==> exists|k: int|
                0 <= k < p.mounts.len() && same_path((#[trigger] p.mounts[k]).path, u.path)
        }),
{
    let on = devices_on(d);
    let all = preorder(d);
    assert(on =~= preorder_kids(d, d.children.len()));
    assert(all[0] == d);
    let f = first_facts(d);
    let g = seen_all(f, on);
    let raw = mounts_of_names(entries, g.names);
    lemma_mounts_of_names(entries, g.names, u);
    let sorted = ordered::<Mount>(raw);
    lemma_distinct(sorted, u);
    assert(f.names[0] == d.name);
    if d.kname is Some {
        assert(f.names[1] == d.kname.unwrap());
    }
    assert forall|x: Seq<char>| #[trigger] f.names.contains(x) <==> d.name == x || d.kname == Some(
        x,
    ) by {}
    let p = partition_of(d, entries);
    if p.mounts.contains(u) {
        lemma_ordered_member::<Mount>(raw, u);
        let i = choose|i: int|
            0 <= i < g.names.len() && listed_for(entries, #[trigger] g.names[i], u);
        let x = g.names[i];
        assert(g.names.contains(x));
        lemma_seen_names(f, on, x);
        if f.names.contains(x) {
            assert(all[0].name == x || all[0].kname == Some(x));
        } else {
            let k = choose|k: int|
                0 <= k < on.len() && ((#[trigger] on[k]).name == x || on[k].kname == Some(x));
            assert(all[k + 1] == on[k]);
        }
    }
    if exists|i: int|
        0 <= i < all.len() && (listed_for(entries, (#[trigger] all[i]).name, u) || (
        all[i].kname matches Some(k) && listed_for(entries, k, u))) {
        let i = choose|i: int|
            0 <= i < all.len() && (listed_for(entries, (#[trigger] all[i]).name, u) || (
            all[i].kname matches Some(k) && listed_for(entries, k, u)));
        let x = if listed_for(entries, all[i].name, u) {
            all[i].name
        } else {
            all[i].kname.unwrap()
        };
        if i == 0 {
            assert(f.names.contains(x));
        } else {
            assert(on[i - 1] == all[i]);
        }
        lemma_seen_names(f, on, x);
        assert(g.names.contains(x));
        let j = choose|j: int| 0 <= j < g.names.len() && g.names[j] == x;
        assert(listed_for(entries, g.names[j], u));
        lemma_member_ordered::<Mount>(raw, u);
    }
}

// ---------------------------------------------------------------------------
// Disks
// ---------------------------------------------------------------------------

proof fn lemma_partitions_on(
    d: DevModel,
    entries: Seq<(Seq<char>, MountModel)>,
    k: nat,
    p: PartitionModel,
)
    requires
        k <= d.children.len(),
    ensures
        partitions_on(d, entries, k).contains(p) <==> exists|i: int|
            0 <= i < k && (#[trigger] d.children[i]).kind == "part"@ && p == partition_of(
                d.children[i],
                entries,
            ),
        partitions_on(d, entries, k).len() == 0 <==> forall|i: int|
            0 <= i < k ==> (#[trigger] d.children[i]).kind != "part"@,
    decreases k,
{
    if k > 0 {
        let before = partitions_on(d, entries, (k - 1) as nat);
        let all = partitions_on(d, entries, k);
        lemma_partitions_on(d, entries, (k - 1) as nat, p);
        if before.contains(p) {
            let i = choose|i: int| 0 <= i < before.len() && before[i] == p;
            assert(all[i] == p);
        }
        if all.contains(p) {
            let i = choose|i: int| 0 <= i < all.len() && all[i] == p;
            if i < before.len() {
                assert(before[i] == p);
            } else {
                assert(d.children[k - 1].kind == "part"@);
            }
        }
        if d.children[k - 1].kind == "part"@ {
            assert(all[before.len() as int] == partition_of(d.children[k - 1], entries));
        }
    }
}

/// Whether a device counts as a disk: it is one, it is not empty, it is no
/// memory, loop, network, optical, floppy or composed device, and it is not
/// swapped to as a whole.
pub open spec fn counts_as_disk(d: DevModel) -> bool {
    &&& d.kind == "disk"@
    &&& d.size > 0
    &&& !begins_with(d.name, "loop"@) && !begins_with(d.name, "ram"@) && !begins_with(
        d.name,
        "zram"@,
    ) && !begins_with(d.name, "sr"@) && !begins_with(d.name, "fd"@) && !begins_with(
        d.name,
        "nbd"@,
    ) && !begins_with(d.name, "md"@)
    &&& d.fstype == Some("swap"@) ==> exists|i: int|
        0 <= i < d.children.len() && (#[trigger] d.children[i]).kind == "part"@
}

/// A device that counts as a disk is one, with the name, size, model, serial
/// number and transport that it has; it is rotational just where it says that it
/// is, and removable just where it says that it is removable or hotplugged.
pub proof fn law_disk_says(d: DevModel, entries: Seq<(Seq<char>, MountModel)>)
    ensures
        disk_of(d, entries) is Some <==> counts_as_disk(d),
        disk_of(d, entries) matches Some(x) ==> {
            &&& x.name == d.name
            &&& x.size == d.size
            &&& x.rotational == (d.rota == Some(true))
            &&& x.removable == (d.rm == Some(true) || d.hotplug == Some(true))
            &&& d.model matches Some(t) ==> x.model == t
            &&& d.model is None ==> x.model.len() == 0
            &&& d.serial matches Some(t) ==> x.serial == t
            &&& d.serial is None ==> x.serial.len() == 0
            &&& d.tran matches Some(t) ==> x.transport == t
            &&& d.tran is None ==> x.transport.len() == 0
        },
{
    lemma_partitions_on(d, entries, d.children.len(), partition_of(d, entries));
    assert(virtual_name(d.name) <==> begins_with(d.name, "loop"@) || begins_with(d.name, "ram"@)
        || begins_with(d.name, "zram"@) || begins_with(d.name, "sr"@) || begins_with(d.name, "fd"@)
        || begins_with(d.name, "nbd"@) || begins_with(d.name, "md"@));
}

/// The partitions of a disk are those of the devices on it that are partitions,
/// in the order in which they stand on it; where two stand at one place, the one
/// whose name comes later in the order of bytes is no earlier.
pub proof fn law_disk_partitions(
    d: DevModel,
    entries: Seq<(Seq<char>, MountModel)>,
    p: PartitionModel,
)
    ensures
        disk_of(d, entries) matches Some(x) ==> {
            &&& x.partitions.contains(p) <==> exists|i: int|
                0 <= i < d.children.len() && (#[trigger] d.children[i]).kind == "part"@ && p
                    == partition_of(d.children[i], entries)
            &&& forall|i: int, j: int|
                0 <= i < j < x.partitions.len() ==> (#[trigger] x.partitions[i]).start <= (
                #[trigger] x.partitions[j]).start && (x.partitions[i].start
                    == x.partitions[j].start ==> !bytes_less(
                    encode_utf8(x.partitions[j].name),
                    encode_utf8(x.partitions[i].name),
                ))
        },
{
    let parts = partitions_on(d, entries, d.children.len());
    lemma_partitions_on(d, entries, d.children.len(), p);
    law_ordered_ascending::<Partition>(parts);
    if ordered::<Partition>(parts).contains(p) {
        lemma_ordered_member::<Partition>(parts, p);
    }
    if parts.contains(p) {
        lemma_member_ordered::<Partition>(parts, p);
    }
    let s = ordered::<Partition>(parts);
    assert forall|i: int, j: int| 0 <= i < j < s.len() implies (#[trigger] s[i]).start <= (
    #[trigger] s[j]).start && (s[i].start == s[j].start ==> !bytes_less(
        encode_utf8(s[j].name),
        encode_utf8(s[i].name),
    )) by {
        assert(crate::sort::ascending::<Partition>(s));
        assert(<Partition as crate::sort::Ranked>::before(s[i], s[j]));
    }
}

/// The mounts of a partition stand in the order of their paths, each place once.
pub proof fn law_mounts_in_order(d: DevModel, entries: Seq<(Seq<char>, MountModel)>)
    ensures
        ({
            let s = partition_of(d, entries).mounts;
            forall|i: int, j: int|
                0 <= i < j < s.len() ==> comps_less(
                    comps((#[trigger] s[i]).path),
                    comps((#[trigger] s[j]).path),
                )
        }),
{
    let facts = seen_all(first_facts(d), preorder_kids(d, d.children.len()));
    let found = mounts_of_names(entries, facts.names);
    law_ordered_ascending::<Mount>(found);
    lemma_distinct_mounts(ordered::<Mount>(found));
}

/// The sizes of the first `k` devices on a disk that are partitions.
pub open spec fn part_bytes(d: DevModel, k: nat) -> int
    decreases k,
{
    if k == 0 {
        0
    } else if d.children[k - 1].kind == "part"@ {
        part_bytes(d, (k - 1) as nat) + d.children[k - 1].size
    } else {
        part_bytes(d, (k - 1) as nat)
    }
}

proof fn lemma_part_bytes(d: DevModel, entries: Seq<(Seq<char>, MountModel)>, k: nat)
    ensures
        partition_bytes(partitions_on(d, entries, k)) == part_bytes(d, k),
        part_bytes(d, k) >= 0,
    decreases k,
{
    if k > 0 {
        lemma_part_bytes(d, entries, (k - 1) as nat);
        let before = partitions_on(d, entries, (k - 1) as nat);
        let p = partition_of(d.children[k - 1], entries);
        assert(before.push(p).drop_last() =~= before);
    }
}

/// What its partitions leave of a disk is unallocated, and nothing where they
/// take more than it has.
pub proof fn law_unallocated(d: DevModel, entries: Seq<(Seq<char>, MountModel)>)
    ensures
        disk_of(d, entries) matches Some(x) ==> {
            let taken = part_bytes(d, d.children.len());
            &&& taken <= d.size ==> x.unallocated + taken == d.size
            &&& taken > d.size ==> x.unallocated == 0
        },
{
    lemma_part_bytes(d, entries, d.children.len());
}

proof fn lemma_disks_among(
    devs: Seq<DevModel>,
    entries: Seq<(Seq<char>, MountModel)>,
    n: nat,
    x: DiskModel,
)
    requires
        n <= devs.len(),
    ensures
        disks_among(devs, entries, n).contains(x) <==> exists|i: int|
            0 <= i < n && disk_of(#[trigger] devs[i], entries) == Some(x),
        disks_among(devs, entries, n).len() <= n,
        (forall|i: int| 0 <= i < n ==> counts_as_disk(#[trigger] devs[i])) ==> disks_among(
            devs,
            entries,
            n,
        ).len() == n,
    decreases n,
{
    if n > 0 {
        let before = disks_among(devs, entries, (n - 1) as nat);
        let all = disks_among(devs, entries, n);
        lemma_disks_among(devs, entries, (n - 1) as nat, x);
        law_disk_says(devs[n - 1], entries);
        if forall|i: int| 0 <= i < n ==> counts_as_disk(#[trigger] devs[i]) {
            assert(counts_as_disk(devs[n - 1]));
        }
        if before.contains(x) {
            let i = choose|i: int| 0 <= i < before.len() && before[i] == x;
            assert(all[i] == x);
        }
        if all.contains(x) {
            let i = choose|i: int| 0 <= i < all.len() && all[i] == x;
            if i < before.len() {
                assert(before[i] == x);
            } else {
                assert(disk_of(devs[n - 1], entries) == Some(x));
            }
        }
        if disk_of(devs[n - 1], entries) == Some(x) {
            assert(all[before.len() as int] == x);
        }
    }
}

/// The disks that are discovered are those of the listed devices that count as
/// one, the fixed ones before the removable ones and each kind by size.
pub proof fn law_discovered(
    devs: Seq<DevModel>,
    entries: Seq<(Seq<char>, MountModel)>,
    x: DiskModel,
)
    ensures
        ({
            let disks = ordered::<Disk>(disks_among(devs, entries, devs.len()));
            &&& disks.contains(x) <==> exists|i: int|
                0 <= i < devs.len() && disk_of(#[trigger] devs[i], entries) == Some(x)
            &&& disks.len() <= devs.len()
            &&& (forall|i: int| 0 <= i < devs.len() ==> counts_as_disk(#[trigger] devs[i]))
                ==> disks.len() == devs.len()
            &&& forall|i: int, j: int|
                0 <= i < j < disks.len() ==> {
                    &&& (#[trigger] disks[i]).removable ==> (#[trigger] disks[j]).removable
                    &&& disks[i].removable == disks[j].removable ==> disks[i].size >= disks[j].size
                }
        }),
{
    let among = disks_among(devs, entries, devs.len());
    let disks = ordered::<Disk>(among);
    lemma_disks_among(devs, entries, devs.len(), x);
    law_ordered_ascending::<Disk>(among);
    if disks.contains(x) {
        lemma_ordered_member::<Disk>(among, x);
    }
    if among.contains(x) {
        lemma_member_ordered::<Disk>(among, x);
    }
    assert forall|i: int, j: int| 0 <= i < j < disks.len() implies {
        &&& (#[trigger] disks[i]).removable ==> (#[trigger] disks[j]).removable
        &&& disks[i].removable == disks[j].removable ==> disks[i].size >= disks[j].size
    } by {
        assert(crate::sort::ascending::<Disk>(disks));
    }
}

} // verus!
