use spacemap::discover::{
    de_u64, discover_disks, load_mounts, normalize_source, should_skip_target, skip_disk,
    skip_fstype, stat_fs, wants_fs, Disk, FindmntFs, FsStats, LsblkDev, MountIndex, NumberField,
};
use spacemap::mounts::MountTable;
use spacemap::path::PathBuf;

fn dev(name: &str, kind: &str, size: u64, start: u64) -> LsblkDev {
    LsblkDev {
        name: name.into(),
        kname: None,
        kind: kind.into(),
        size,
        start,
        model: None,
        serial: None,
        fstype: None,
        label: None,
        rota: None,
        tran: None,
        rm: None,
        hotplug: None,
        children: Vec::new(),
    }
}

fn fs(source: &str, target: &str, fstype: &str) -> FindmntFs {
    FindmntFs {
        source: Some(source.into()),
        target: Some(target.into()),
        fstype: Some(fstype.into()),
    }
}

const STATS: FsStats = FsStats { frsize: 10, blocks: 100, bfree: 40, bavail: 30 };

fn index(list: Vec<FindmntFs>) -> MountIndex {
    let stats = list.iter().map(|_| Some(STATS)).collect();
    load_mounts(&list, &stats)
}

#[test]
fn numbers_come_in_many_forms() {
    assert_eq!(de_u64(&NumberField::Unsigned(7)), Some(7));
    assert_eq!(de_u64(&NumberField::Signed(-7)), Some(0));
    assert_eq!(de_u64(&NumberField::Signed(7)), Some(7));
    assert_eq!(de_u64(&NumberField::Absent), Some(0));
    let text = |s: &str| de_u64(&NumberField::Text(s.into()));
    assert_eq!(text("42"), Some(42));
    assert_eq!(text("+42"), Some(42));
    assert_eq!(text("18446744073709551615"), Some(u64::MAX));
    assert_eq!(text("18446744073709551616"), None);
    for bad in ["", "+", "-1", " 1", "1 ", "0x1", "++1"] {
        assert_eq!(text(bad), None, "{bad:?}");
        assert!(bad.parse::<u64>().is_err());
    }
}

#[test]
fn usage_is_computed_from_blocks() {
    let m = stat_fs(&PathBuf::from("/x"), &STATS);
    assert_eq!((m.total, m.used, m.available), (1000, 600, 300));
    let odd = FsStats { frsize: u64::MAX, blocks: 2, bfree: 3, bavail: 1 };
    let m = stat_fs(&PathBuf::from("/x"), &odd);
    assert_eq!((m.total, m.used, m.available), (u64::MAX, 0, u64::MAX));
}

#[test]
fn virtual_disks_are_skipped() {
    for name in ["loop0", "ram1", "zram0", "sr0", "fd0", "nbd3", "md127"] {
        assert!(skip_disk(name, 5), "{name}");
    }
    assert!(skip_disk("sda", 0));
    assert!(!skip_disk("sda", 1));
    assert!(!skip_disk("nvme0n1", 1));
}

#[test]
fn file_systems_that_are_no_storage_are_skipped() {
    for ft in ["proc", "tmpfs", "overlay", "nfs4", "fuse.sshfs", "squashfs", "fuse.portal"] {
        assert!(skip_fstype(ft), "{ft}");
    }
    for ft in ["ext4", "btrfs", "fuseblk", "vfat", ""] {
        assert!(!skip_fstype(ft), "{ft}");
    }
    for t in ["/proc/x", "/sys", "/dev/shm", "/run/docker/x", "/run/user/1000/doc", "/tmp/.mount_x"] {
        assert!(should_skip_target(t), "{t}");
    }
    for t in ["/", "/home", "/run/user/1000", "/tmp"] {
        assert!(!should_skip_target(t), "{t}");
    }
    assert!(!wants_fs(&FindmntFs { source: None, target: Some("/".into()), fstype: None }));
    assert!(!wants_fs(&FindmntFs { source: Some("a".into()), target: None, fstype: None }));
    assert!(wants_fs(&FindmntFs { source: Some("a".into()), target: Some("/".into()), fstype: None }));
}

#[test]
fn subvolumes_belong_to_their_device() {
    assert_eq!(normalize_source("/dev/mapper/omarchy_root[/@home]"), "/dev/mapper/omarchy_root");
    assert_eq!(normalize_source("/dev/sda1"), "/dev/sda1");
    let idx = index(vec![fs("/dev/mapper/root[/@home]", "/home", "btrfs")]);
    assert_eq!(idx.for_device("root").len(), 1);
    assert_eq!(idx.for_device("sda").len(), 0);
    let twice = index(vec![fs("/dev/sda1", "/", "ext4"), fs("x", "/proc", "proc")]);
    assert_eq!(twice.for_device("sda1").len(), 2, "listed under device and source");
}

#[test]
fn disks_are_sorted_with_their_partitions() {
    let mut usb = dev("sdb", "disk", 500, 0);
    usb.hotplug = Some(true);
    let mut small = dev("sdc", "disk", 100, 0);
    small.model = Some("Small".into());
    let mut big = dev("sda", "disk", 1000, 0);
    let mut p1 = dev("sda1", "part", 300, 4);
    p1.fstype = Some("ext4".into());
    let p2 = dev("sda2", "part", 200, 2);
    let lvm = dev("vg-x", "lvm", 50, 0);
    big.children = vec![p1, p2, lvm];
    let mut swap = dev("sdd", "disk", 10, 0);
    swap.fstype = Some("swap".into());
    let idx = index(vec![fs("/dev/sda1", "/", "ext4")]);
    let disks = discover_disks(&vec![usb, small, big, swap, dev("loop0", "disk", 5, 0), dev("x", "rom", 5, 0)], &idx);
    let names: Vec<_> = disks.iter().map(|d| d.name.as_str()).collect();
    assert_eq!(names, ["sda", "sdc", "sdb"]);
    let sda = &disks[0];
    let parts: Vec<_> = sda.partitions.iter().map(|p| (p.name.as_str(), p.start)).collect();
    assert_eq!(parts, [("sda2", 1024), ("sda1", 2048)]);
    assert_eq!(sda.unallocated, 500);
    assert_eq!(sda.partitions[1].mounts.len(), 1, "each place once");
    assert_eq!(sda.partitions[1].mounts[0].used, 600);
    assert_eq!(disks[1].model, "Small");
    assert!(disks[2].removable);
}

#[test]
fn mapped_devices_describe_their_partition() {
    let mut part = dev("sda2", "part", 900, 8);
    part.fstype = Some("crypto_LUKS".into());
    part.kname = Some("sda2".into());
    let mut crypt = dev("luks-1", "crypt", 890, 0);
    crypt.kname = Some("dm-0".into());
    let mut root = dev("vg-root", "lvm", 800, 0);
    root.fstype = Some("btrfs".into());
    root.label = Some("system".into());
    crypt.children = vec![root];
    part.children = vec![crypt];
    let mut disk = dev("sda", "disk", 1000, 0);
    disk.children = vec![part];
    let idx = index(vec![
        fs("/dev/mapper/vg-root[/@]", "/", "btrfs"),
        fs("/dev/mapper/vg-root[/@home]", "/home", "btrfs"),
    ]);
    let disks = discover_disks(&vec![disk], &idx);
    let p = &disks[0].partitions[0];
    assert_eq!(p.mapped_name.as_deref(), Some("vg-root"));
    assert_eq!(p.label.as_deref(), Some("system"));
    assert_eq!(p.fstype, "btrfs");
    assert!(!p.locked);
    let places: Vec<_> = p.mounts.iter().map(|m| m.path.to_string_lossy()).collect();
    assert_eq!(places, ["/", "/home"]);
}

#[test]
fn locked_and_unnamed_partitions() {
    let mut locked = dev("sda1", "part", 10, 0);
    locked.fstype = Some("crypto_LUKS".into());
    let plain = dev("sda2", "part", 10, 0);
    let mut disk = dev("sda", "disk", 15, 0);
    disk.children = vec![locked, plain];
    let idx = index(vec![fs("/dev/sda2", "/x", "ext4")]);
    let disks = discover_disks(&vec![disk], &idx);
    assert!(disks[0].partitions[0].locked);
    assert_eq!(disks[0].partitions[1].fstype, "mounted");
    assert_eq!(disks[0].unallocated, 0);
}

#[test]
fn entries_get_the_disk_of_their_source() {
    let mut part = dev("sda2", "part", 900, 8);
    part.children = vec![dev("root", "crypt", 890, 0)];
    let mut disk = dev("sda", "disk", 1000, 0);
    disk.model = Some("M".into());
    disk.children = vec![part];
    let idx = index(vec![fs("/dev/mapper/root", "/", "btrfs")]);
    let disks: Vec<Disk> = discover_disks(&vec![disk], &idx);
    let t = MountTable::from_mountinfo(
        "1 0 0:1 / / rw - btrfs /dev/mapper/root rw\n\
         2 0 0:1 / /home rw - btrfs /dev/mapper/root[/@home] rw\n\
         3 0 0:2 / /tmp rw - tmpfs tmpfs rw\n",
        &disks,
    );
    let root = t.get(&PathBuf::from("/")).unwrap();
    assert_eq!(root.disk.as_deref(), Some("sda"));
    assert_eq!(root.partition.as_deref(), Some("sda2"));
    assert_eq!(root.model.as_deref(), Some("M"));
    assert_eq!((root.physical, root.used), (true, 600));
    let home = t.get(&PathBuf::from("/home")).unwrap();
    assert_eq!((home.physical, home.used), (true, 600), "usage of the first mount");
    let tmp = t.get(&PathBuf::from("/tmp")).unwrap();
    assert!(!tmp.physical && tmp.disk.is_none());
}
