use spacemap::discover::{Disk, Mount, Partition};
use spacemap::mounts::MountTable;
use spacemap::path::PathBuf;
use spacemap::rescan::{
    apply_change, counts_as_change, expand_one_layer, graft_expand_layer, rescan_dir,
    rescan_levels, ChangeKind, Found,
};
use spacemap::scan::{
    allocated_size, attach_portals, scan_mount, Meta, Scan, ScanProgress, WalkAction, WalkEntry,
};
use spacemap::tree::{FileTree, NodeId, StoredKind, STORE_DEPTH};

fn meta(len: u64) -> Meta {
    Meta { blocks: 0, len }
}

fn entry(root: &PathBuf, rel: &str, is_dir: bool, len: u64) -> WalkEntry {
    WalkEntry {
        depth: rel.split('/').count(),
        path: root.join(rel),
        name: rel.rsplit('/').next().unwrap().as_bytes().to_vec(),
        is_dir,
        is_file: !is_dir,
        is_symlink: false,
        meta: Some(meta(len)),
    }
}

fn max_node_depth(tree: &FileTree, id: NodeId, depth: u32) -> u32 {
    let mut m = depth;
    for &c in &tree.nodes[id as usize].children {
        if tree.nodes[c as usize].alive {
            m = m.max(max_node_depth(tree, c, depth + 1));
        }
    }
    m
}

fn child<'a>(tree: &'a FileTree, id: NodeId, name: &str) -> Option<&'a spacemap::tree::Node> {
    tree.nodes[id as usize]
        .children
        .iter()
        .map(|&c| &tree.nodes[c as usize])
        .find(|n| n.alive && n.name == name)
}

fn deep_walk(root: &PathBuf) -> Vec<WalkEntry> {
    vec![
        entry(root, "a", true, 0),
        entry(root, "a/b", true, 0),
        entry(root, "a/b/c", true, 0),
        entry(root, "a/b/c/d", true, 0),
        entry(root, "a/b/c/d/deep.bin", false, 4000),
        entry(root, "a/mid.bin", false, 2000),
        entry(root, "top.bin", false, 1000),
    ]
}

fn scan(root: &PathBuf, steps: &Vec<WalkEntry>, depth: u32) -> FileTree {
    scan_mount(
        root.clone(),
        Some(meta(0)),
        steps,
        &MountTable::default(),
        &Vec::new(),
        depth,
    )
}

#[test]
fn stores_three_layers_and_counts_deeper_bytes() {
    let root = PathBuf::from("/tmp/spacemap-depth");
    let tree = scan(&root, &deep_walk(&root), STORE_DEPTH);

    assert!(
        max_node_depth(&tree, tree.root, 0) <= STORE_DEPTH,
        "stored depth {}",
        max_node_depth(&tree, tree.root, 0)
    );
    assert!(
        tree.bytes >= 7000,
        "deep files should still count, bytes={}",
        tree.bytes
    );
    assert!(
        tree.dirs.get(&root.join("a/b/c/d")).is_none(),
        "depth-4 directories must not be stored"
    );
    assert!(tree.dirs.get(&root.join("a/b/c")).is_some());
}

#[test]
fn expand_adds_one_layer() {
    let root = PathBuf::from("/tmp/spacemap-expand");
    let steps = vec![
        entry(&root, "a", true, 0),
        entry(&root, "a/b", true, 0),
        entry(&root, "a/b/c", true, 0),
        entry(&root, "a/b/c/d", true, 0),
        entry(&root, "a/b/c/d/deep.bin", false, 4000),
    ];
    let mut tree = scan(&root, &steps, STORE_DEPTH);
    let table = MountTable::default();
    let leaf = root.join("a/b/c");
    assert!(tree.dirs.get(&root.join("a/b/c/d")).is_none());
    let sub = scan(
        &leaf,
        &vec![
            entry(&leaf, "d", true, 0),
            entry(&leaf, "d/deep.bin", false, 4000),
        ],
        1,
    );
    let added = expand_one_layer(&mut tree, &leaf, &table, true, &sub);
    assert!(added >= 1);
    assert!(tree.dirs.get(&root.join("a/b/c/d")).is_some());
    let deeper = root.join("a/b/c/d");
    let sub_d = scan(&deeper, &vec![entry(&deeper, "deep.bin", false, 4000)], 1);
    let added_d = expand_one_layer(&mut tree, &deeper, &table, true, &sub_d);
    assert!(added_d >= 1);
    let id = tree.dirs.get(&deeper).unwrap();
    assert!(
        child(&tree, id, "deep.bin").is_some(),
        "a second expand should store the next layer"
    );
}

#[test]
fn scan_gives_exact_sizes_and_counts() {
    let root = PathBuf::from("/mnt/x");
    let tree = scan(&root, &deep_walk(&root), STORE_DEPTH);
    assert_eq!(tree.bytes, 7000);
    assert_eq!(tree.files, 3);
    assert_eq!(tree.nodes.len(), 6);
    let c = tree.dirs.get(&root.join("a/b/c")).unwrap();
    assert_eq!(tree.nodes[c as usize].size, 4000);
    let a = tree.dirs.get(&root.join("a")).unwrap();
    assert_eq!(tree.nodes[a as usize].size, 6000);
    assert_eq!(child(&tree, tree.root, "top.bin").unwrap().size, 1000);
}

#[test]
fn blocks_count_where_they_exceed_the_length() {
    assert_eq!(allocated_size(&Meta { blocks: 8, len: 1000 }), 4096);
    assert_eq!(allocated_size(&Meta { blocks: 1, len: 1000 }), 1000);
    assert_eq!(
        allocated_size(&Meta { blocks: u64::MAX, len: 1 }),
        u64::MAX
    );
}

#[test]
fn walk_skips_what_leaves_no_trace() {
    let root = PathBuf::from("/");
    let table = MountTable::from_mountinfo(
        "50 32 0:29 /@home /home rw - btrfs /dev/sda2 rw\n",
        &[],
    );
    let mut scan = Scan::start(root.clone(), Some(meta(10)));
    let mut top = entry(&root, "x", true, 1);
    top.depth = 0;
    assert_eq!(scan.visit(&top, &table, 3), WalkAction::Continue);
    assert_eq!(
        scan.visit(&entry(&root, "home", true, 99), &table, 3),
        WalkAction::SkipDir
    );
    let mut link = entry(&root, "link", false, 99);
    link.is_symlink = true;
    assert_eq!(scan.visit(&link, &table, 3), WalkAction::Continue);
    let mut lost = entry(&root, "lost", false, 99);
    lost.meta = None;
    assert_eq!(scan.visit(&lost, &table, 3), WalkAction::Continue);
    let mut socket = entry(&root, "socket", false, 99);
    socket.is_file = false;
    assert_eq!(scan.visit(&socket, &table, 3), WalkAction::Continue);
    assert_eq!(scan.visit(&entry(&root, "f", false, 5), &table, 3), WalkAction::Continue);
    assert_eq!(scan.files, 1);
    assert_eq!(scan.tree.bytes, 15);
    assert_eq!(scan.tree.nodes.len(), 2);
    let tree = scan.finish(&table, &vec![None]);
    assert_eq!(tree.bytes, 15);
}

fn disk(name: &str, part: &str, path: &str, used: u64) -> Disk {
    Disk {
        name: name.into(),
        model: "Model".into(),
        serial: String::new(),
        transport: String::new(),
        size: 100,
        rotational: false,
        removable: false,
        partitions: vec![Partition {
            name: part.into(),
            mapped_name: None,
            label: None,
            fstype: "ext4".into(),
            size: 90,
            start: 0,
            locked: false,
            mounts: vec![Mount { path: PathBuf::from(path), total: 80, used, available: 10 }],
        }],
        unallocated: 10,
    }
}

#[test]
fn portals_lead_to_other_volumes() {
    let disks = [disk("sda", "sda1", "/", 40), disk("sdb", "sdb1", "/mnt/data", 50)];
    let table = MountTable::from_mountinfo(
        "1 0 8:1 / / rw - ext4 /dev/sda1 rw\n\
         2 1 8:17 / /mnt/data rw - ext4 /dev/sdb1 rw\n\
         3 1 8:1 / /mnt/same rw - ext4 /dev/sda1 rw\n\
         4 1 0:5 / /mnt/tmp rw - tmpfs tmpfs rw\n\
         5 1 8:17 / /deep/down/data rw - ext4 /dev/sdb1 rw\n",
        &disks,
    );
    let root = PathBuf::from("/");
    let mut tree = FileTree::new(root.clone());
    tree.add_child(0, "mnt".into(), 7, StoredKind::Dir, Some(PathBuf::from("/mnt")));
    let n = table.nested(&root).len();
    assert_eq!(n, 4);
    attach_portals(&mut tree, &table, &vec![Some(meta(100)), None, None, None]);
    let mnt = tree.dirs.get(&PathBuf::from("/mnt")).unwrap();
    let portal = child(&tree, mnt, "data").expect("portal");
    assert_eq!(portal.size, 100);
    match &portal.kind {
        StoredKind::MountPoint { disk, partition, mount, model, volume_used } => {
            assert_eq!(disk, "sdb");
            assert_eq!(partition, "sdb1");
            assert_eq!(mount, "/mnt/data");
            assert_eq!(model, "Model");
            assert_eq!(*volume_used, 50);
        }
        other => panic!("{other:?}"),
    }
    assert!(child(&tree, mnt, "same").is_none(), "same volume");
    assert!(child(&tree, mnt, "tmp").is_none(), "not a physical disk");
    assert_eq!(tree.nodes.len(), 3);
    assert_eq!(tree.bytes, 107);
    // A second time nothing is added: the name is taken.
    attach_portals(&mut tree, &table, &vec![None, None, None, None]);
    assert_eq!(tree.nodes.len(), 3);
}

#[test]
fn portal_without_readable_directory_has_a_default_size() {
    let disks = [disk("sda", "sda1", "/", 40), disk("sdb", "sdb1", "/data", 50)];
    let table = MountTable::from_mountinfo(
        "1 0 8:1 / / rw - ext4 /dev/sda1 rw\n2 1 8:17 / /data rw - ext4 /dev/sdb1 rw\n",
        &disks,
    );
    let mut tree = FileTree::new(PathBuf::from("/"));
    attach_portals(&mut tree, &table, &vec![None]);
    assert_eq!(child(&tree, 0, "data").unwrap().size, 4096);
}

#[test]
fn rescan_replaces_what_is_below() {
    let root = PathBuf::from("/mnt/x");
    let mut tree = scan(&root, &deep_walk(&root), STORE_DEPTH);
    let table = MountTable::default();
    let a = root.join("a");
    assert_eq!(rescan_levels(&tree, &a, &table), Some(2));
    let sub = scan(&a, &vec![entry(&a, "new.txt", false, 30)], 2);
    assert_eq!(sub.merge_room(), 1);
    rescan_dir(&mut tree, &a, &table, true, Some(&sub));
    let id = tree.dirs.get(&a).unwrap();
    assert!(child(&tree, id, "b").is_none());
    assert_eq!(child(&tree, id, "new.txt").unwrap().size, 30);
    assert_eq!(tree.bytes, 1030);
    assert!(tree.dirs.get(&root.join("a/b/c")).is_none());
}

#[test]
fn rescan_keeps_the_sizes_below_the_stored_depth() {
    let root = PathBuf::from("/mnt/x");
    let fresh = scan(&root, &deep_walk(&root), STORE_DEPTH);
    let mut tree = scan(&root, &deep_walk(&root), STORE_DEPTH);
    let table = MountTable::default();
    let a = root.join("a");
    let steps = vec![
        entry(&a, "b", true, 0),
        entry(&a, "b/c", true, 0),
        entry(&a, "b/c/d", true, 0),
        entry(&a, "b/c/d/deep.bin", false, 4000),
        entry(&a, "mid.bin", false, 2000),
    ];
    let sub = scan(&a, &steps, 2);
    assert_eq!(sub.merge_room(), 3);
    rescan_dir(&mut tree, &a, &table, true, Some(&sub));
    for rel in ["a", "a/b", "a/b/c"] {
        let at = |t: &FileTree| t.nodes[t.dirs.get(&root.join(rel)).unwrap() as usize].size;
        assert_eq!(at(&tree), at(&fresh), "{rel}");
    }
    assert_eq!(tree.nodes[tree.dirs.get(&root.join("a/b/c")).unwrap() as usize].size, 4000);
    assert!(tree.dirs.get(&root.join("a/b/c/d")).is_none());
    assert_eq!((tree.bytes, tree.files), (fresh.bytes, fresh.files));
}

#[test]
fn a_second_expansion_adds_nothing() {
    let root = PathBuf::from("/mnt/x");
    let mut tree = scan(&root, &deep_walk(&root), STORE_DEPTH);
    let c = root.join("a/b/c");
    let sub = scan(&c, &vec![entry(&c, "d", true, 10), entry(&c, "f", false, 20)], 1);
    let bytes = tree.bytes;
    assert_eq!(graft_expand_layer(&mut tree, &c, &sub), 2);
    let n = tree.nodes.len();
    assert_eq!(graft_expand_layer(&mut tree, &c, &sub), 0);
    assert_eq!((tree.nodes.len(), tree.bytes), (n, bytes));
    assert_eq!(graft_expand_layer(&mut tree, &root.join("none"), &sub), 0);
    // So it is with a file at the place of the directory itself.
    let b = root.join("a/b");
    let beside = scan(&b, &vec![entry(&b, "c", false, 5)], 1);
    assert_eq!(graft_expand_layer(&mut tree, &c, &beside), 1);
    assert_eq!(graft_expand_layer(&mut tree, &c, &beside), 0);
}

#[test]
fn watch_events_are_sorted_out() {
    for kind in [ChangeKind::Create, ChangeKind::Modify, ChangeKind::Remove, ChangeKind::Any] {
        assert!(counts_as_change(kind));
    }
    assert!(!counts_as_change(ChangeKind::Access));
    assert!(!counts_as_change(ChangeKind::Other));
}

#[test]
fn rescan_at_the_stored_depth_takes_the_size_over() {
    let root = PathBuf::from("/mnt/x");
    let mut tree = scan(&root, &deep_walk(&root), STORE_DEPTH);
    let table = MountTable::default();
    let c = root.join("a/b/c");
    assert_eq!(rescan_levels(&tree, &c, &table), Some(0));
    let sub = scan(&c, &vec![entry(&c, "f", false, 500)], 0);
    assert_eq!(sub.bytes, 500);
    rescan_dir(&mut tree, &c, &table, true, Some(&sub));
    let id = tree.dirs.get(&c).unwrap();
    assert_eq!(tree.nodes[id as usize].size, 500);
    assert_eq!(tree.bytes, 3500);
}

#[test]
fn rescan_of_a_missing_directory_removes_it() {
    let root = PathBuf::from("/mnt/x");
    let mut tree = scan(&root, &deep_walk(&root), STORE_DEPTH);
    let table = MountTable::default();
    rescan_dir(&mut tree, &root.join("a"), &table, false, None);
    assert!(tree.dirs.get(&root.join("a")).is_none());
    assert_eq!(tree.bytes, 1000);
    // What is not indexed, and what is a nested mount, is left alone.
    assert_eq!(rescan_levels(&tree, &root.join("q"), &table), None);
    let nested = MountTable::from_mountinfo("1 0 8:1 / /mnt/x rw - ext4 /dev/a rw\n2 0 8:1 / /mnt/x/top rw - ext4 /dev/b rw\n", &[]);
    tree.ensure_dir(&root.join("top"));
    assert_eq!(rescan_levels(&tree, &root.join("top"), &nested), None);
    assert_eq!(rescan_levels(&tree, &root, &nested), Some(3));
}

#[test]
fn changes_are_taken_over() {
    let root = PathBuf::from("/mnt/x");
    let mut tree = scan(&root, &deep_walk(&root), STORE_DEPTH);
    let table = MountTable::default();
    let other = PathBuf::from("/elsewhere/f");
    assert!(apply_change(&mut tree, &other, &table, Found::File(Some(meta(9)))).is_none());
    assert_eq!(tree.bytes, 7000);
    let deep = root.join("a/b/c/d/e");
    assert_eq!(
        apply_change(&mut tree, &deep, &table, Found::Dir),
        Some(root.join("a/b/c"))
    );
    let dir = root.join("n/m");
    assert_eq!(apply_change(&mut tree, &dir, &table, Found::Dir), Some(dir.clone()));
    assert!(tree.dirs.get(&dir).is_some());
    let file = root.join("n/m/Pic.JPG");
    assert!(apply_change(&mut tree, &file, &table, Found::File(Some(meta(50)))).is_none());
    let m = tree.dirs.get(&dir).unwrap();
    let node = child(&tree, m, "Pic.JPG").unwrap();
    assert_eq!(node.size, 50);
    assert!(matches!(&node.kind, StoredKind::File { ext } if ext == "jpg"));
    assert_eq!(tree.bytes, 7050);
    assert!(apply_change(&mut tree, &file, &table, Found::File(None)).is_none());
    assert_eq!(tree.bytes, 7050);
    assert!(apply_change(&mut tree, &file, &table, Found::Nothing).is_none());
    assert_eq!(tree.bytes, 7000);
    let m = tree.dirs.get(&dir).unwrap();
    assert!(child(&tree, m, "Pic.JPG").is_none());
}

#[test]
fn expansion_keeps_what_is_there() {
    let root = PathBuf::from("/mnt/x");
    let mut tree = FileTree::new(root.clone());
    tree.add_child(0, "old".into(), 10, StoredKind::Dir, Some(root.join("old")));
    let sub = scan(
        &root,
        &vec![entry(&root, "old", true, 99), entry(&root, "fresh", false, 5)],
        1,
    );
    assert_eq!(graft_expand_layer(&mut tree, &root, &sub), 1);
    assert_eq!(child(&tree, 0, "old").unwrap().size, 10);
    assert_eq!(child(&tree, 0, "fresh").unwrap().size, 5);
    assert_eq!(tree.bytes, 10, "sizes above are not touched");
    assert_eq!(graft_expand_layer(&mut tree, &root, &sub), 0);
    assert_eq!(graft_expand_layer(&mut tree, &root.join("none"), &sub), 0);
    let table = MountTable::from_mountinfo("1 0 8:1 / /mnt/x/old rw - ext4 /dev/b rw\n", &[]);
    assert_eq!(expand_one_layer(&mut tree, &root.join("old"), &table, true, &sub), 0);
    assert_eq!(expand_one_layer(&mut tree, &root.join("fresh"), &table, false, &sub), 0);
}

#[test]
fn fresh_progress_has_seen_nothing() {
    let p = ScanProgress::default();
    assert_eq!((p.files, p.bytes, p.done), (0, 0, false));
    assert!(p.error.is_none());
}
