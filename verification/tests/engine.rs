use spacemap::discover::{Disk, FsStats, Mount, Partition};
use spacemap::engine::{
    expand_result, persist_name, publish_due, scan_jobs, topology_due, Engine, ExpandOutcome,
    ExpandResult,
};
use spacemap::ipc::{
    data_dir, expect_ok, expect_pong, expect_snapshot, line_of, message_of, serve, socket_path,
    ReplyError, Request, Response,
};
use spacemap::mount_view::{focus_for_mount, mount_view, open_for_mount, suppress_df_gap};
use spacemap::mounts::MountTable;
use spacemap::path::PathBuf;
use spacemap::path_map::PathMap;
use spacemap::pool::{partition_mounts, progress_for, refresh_usage, Usage};
use spacemap::rescan::Found;
use spacemap::scan::{Meta, Scan, ScanProgress, WalkEntry};
use spacemap::snapshot::{Kind, ScanStatus, Snapshot, SnapshotSource};
use spacemap::tree::{FileTree, StoredKind};

fn path(s: &str) -> PathBuf {
    PathBuf::from(s)
}

fn mount(place: &str, total: u64, used: u64, available: u64) -> Mount {
    Mount { path: path(place), total, used, available }
}

fn partition(name: &str, size: u64, mounts: Vec<Mount>) -> Partition {
    Partition {
        name: name.into(),
        mapped_name: None,
        label: None,
        fstype: "ext4".into(),
        size,
        start: 0,
        locked: false,
        mounts,
    }
}

fn disk(name: &str, removable: bool, rotational: bool, partitions: Vec<Partition>) -> Disk {
    Disk {
        name: name.into(),
        model: String::new(),
        serial: String::new(),
        transport: String::new(),
        size: 1000,
        rotational,
        removable,
        partitions,
        unallocated: 0,
    }
}

fn tree(root: &str, file: u64) -> FileTree {
    let mut t = FileTree::new(path(root));
    t.add_child(0, "f".into(), file, StoredKind::File { ext: "txt".into() }, None);
    t
}

fn engine() -> Engine {
    Engine::new(SnapshotSource::Daemon, path("/cache"))
}

#[test]
fn new_engine_scans_everything() {
    let mut e = engine();
    assert!(e.scan_due(0));
    assert!(!e.scan_due(0));
    assert!(e.take_force());
    assert!(!e.take_force());
    assert!(e.scan_due(21_600_000_000_001));
    assert!(e.take_force(), "after six hours all mounts are scanned again");
    assert!(!e.scan_due(21_600_000_000_000));
    assert!(!topology_due(4_000_000_000));
    assert!(topology_due(4_000_000_001));
    assert!(publish_due(200_000_000, 0) && publish_due(0, 250_000_000));
    assert!(!publish_due(199_999_999, 249_999_999));
    e.stop();
    assert!(!e.wants_scan(&path("/"), true));
}

#[test]
fn jobs_go_from_fixed_to_removable() {
    let disks = vec![
        disk("usb", true, false, vec![partition("u1", 1, vec![mount("/u", 1, 0, 0)])]),
        disk("hdd", false, true, vec![partition("h1", 1, vec![mount("/h", 1, 0, 0)])]),
        disk(
            "ssd",
            false,
            false,
            vec![
                partition("s1", 5, vec![mount("/s1", 900, 0, 0)]),
                partition("s2", 800, vec![mount("/s2", 3, 0, 0), mount("/s3", 900, 0, 0)]),
            ],
        ),
    ];
    let jobs: Vec<_> = scan_jobs(&disks).iter().map(|j| j.path.to_string_lossy()).collect();
    assert_eq!(jobs, ["/s2", "/s1", "/s3", "/h", "/u"]);
}

#[test]
fn topology_changes_set_the_flags() {
    let mut e = engine();
    e.scan_due(0);
    let disks = || vec![disk("a", false, false, vec![partition("p", 1, vec![mount("/x", 1, 0, 0)])])];
    e.refresh_topology(disks(), MountTable::default());
    assert!(e.rescan_flag && e.watch_reload);
    assert_eq!(e.ticks, 1);
    e.rescan_flag = false;
    e.watch_reload = false;
    e.refresh_topology(disks(), MountTable::default());
    assert!(!e.rescan_flag && !e.watch_reload);
    assert_eq!(e.ticks, 2);
    e.ticks = u64::MAX;
    e.tick();
    assert_eq!(e.ticks, 0);
}

#[test]
fn scan_runs_from_begin_to_finish() {
    let mut e = engine();
    let m = path("/m");
    assert!(e.wants_scan(&m, false));
    e.begin_scan(&m);
    assert!(!e.progress.get(&m).unwrap().done);
    assert!(!e.wants_scan(&m, false));
    assert!(e.wants_scan(&m, true));
    e.note_progress(&m, 3, 30);
    assert_eq!(e.progress.get(&m).unwrap().files, 3);
    let was = e.swap_tree(&m, tree("/m", 70)).unwrap();
    assert_eq!(was.bytes, 0);
    assert!(e.finish_scan(&m, tree("/m", 77)).is_none());
    let p = e.progress.get(&m).unwrap();
    assert_eq!((p.files, p.bytes, p.done), (1, 77, true));
    assert_eq!(e.trees.get(&m).unwrap().bytes, 77);
    e.request_rescan(Some(m.clone()));
    let lost = e.finish_scan(&m, tree("/m", 78)).unwrap();
    assert_eq!(lost.bytes, 78);
    assert_eq!(e.progress.get(&m).unwrap().bytes, 78);
    assert!(e.trees.get(&m).is_none());
    assert!(e.swap_tree(&path("/other"), tree("/other", 1)).is_none());
    e.fail_scan(&path("/bad"), "no".into());
    let p = e.progress.get(&path("/bad")).unwrap();
    assert_eq!((p.done, p.error.as_deref()), (true, Some("no")));
    assert_eq!(e.ticks, 3);
}

#[test]
fn rescan_requests_drop_trees() {
    let mut e = engine();
    e.scan_due(0);
    e.take_force();
    for m in ["/a", "/b"] {
        e.begin_scan(&path(m));
    }
    e.request_rescan(Some(path("/a/")));
    assert!(e.trees.get(&path("/a")).is_none());
    assert!(e.trees.get(&path("/b")).is_some());
    assert!(e.rescan_flag && !e.force_rescan);
    e.request_rescan(None);
    assert!(e.trees.get(&path("/b")).is_none());
    assert!(e.force_rescan);
}

#[test]
fn expansions_wait_once() {
    let mut e = engine();
    e.request_expand(path("/m/a"));
    e.request_expand(path("/m/a/"));
    e.request_expand(path(""));
    e.request_expand(path("sda::free"));
    assert_eq!(e.expand_queue.len(), 1);
    e.requeue_expands(vec![path("/m/b"), path("/m/a")]);
    let jobs: Vec<_> = e.take_expands().iter().map(|p| p.to_string_lossy()).collect();
    assert_eq!(jobs, ["/m/a", "/m/b"]);
    assert!(e.take_expands().is_empty());
}

#[test]
fn expansion_needs_a_finished_scan() {
    let mut e = engine();
    let m = path("/m");
    let dir = path("/m/a/b/c/d");
    assert!(e.begin_expand(&dir).is_none(), "in no tree");
    e.begin_scan(&m);
    assert!(e.begin_expand(&dir).is_none(), "not done");
    e.finish_scan(&m, FileTree::new(m.clone()));
    assert_eq!(e.begin_expand(&dir), Some(m.clone()));
    assert!(e.trees.get(&m).unwrap().dirs.get(&dir).is_some());
    let sub = tree("/m/a/b/c/d", 5);
    let ticks = e.ticks;
    assert_eq!(e.finish_expand(&m, &dir, &sub), 1);
    assert_eq!(e.ticks, ticks + 1);
    assert_eq!(e.finish_expand(&m, &dir, &sub), 0);
    assert_eq!(e.ticks, ticks + 1);
    assert_eq!(e.finish_expand(&path("/none"), &dir, &sub), 0);
}

#[test]
fn changed_paths_go_to_the_innermost_mount() {
    let mut e = engine();
    for m in ["/", "/home", "/homes"] {
        e.begin_scan(&path(m));
    }
    for p in ["/home/b", "/usr", "/home/a", "/home/b/", "rel"] {
        e.note_dirty(path(p));
    }
    let jobs: Vec<_> = e
        .take_dirty()
        .iter()
        .map(|j| (j.mount.to_string_lossy(), j.path.to_string_lossy()))
        .collect();
    assert_eq!(
        jobs,
        [
            ("/home".to_string(), "/home/a".to_string()),
            ("/home".to_string(), "/home/b".to_string()),
            ("/".to_string(), "/usr".to_string()),
        ]
    );
    assert!(e.take_dirty().is_empty());
    for i in 0..500 {
        e.note_dirty(path(&format!("/x{i}")));
    }
    assert_eq!(e.take_dirty().len(), 400);
    // The rest waits.
    assert_eq!(e.dirty.len(), 100);
    assert_eq!(e.take_dirty().len(), 100);
    assert!(e.dirty.is_empty());
}

#[test]
fn expansions_are_tried_again_until_they_begin() {
    use_outcomes(&[ExpandOutcome::Stopped, ExpandOutcome::NotReady], ExpandResult::Retry);
    use_outcomes(
        &[
            ExpandOutcome::Full,
            ExpandOutcome::NoDirectory,
            ExpandOutcome::ScanFailed,
            ExpandOutcome::Added(0),
        ],
        ExpandResult::Done,
    );
    use_outcomes(&[ExpandOutcome::Added(3)], ExpandResult::Keep);
}

fn use_outcomes(outcomes: &[ExpandOutcome], result: ExpandResult) {
    for &o in outcomes {
        assert_eq!(expand_result(o), result);
    }
}

#[test]
fn changes_reach_the_tree_of_their_mount() {
    let mut e = engine();
    let m = path("/m");
    e.begin_scan(&m);
    let f = path("/m/f.bin");
    let found = Found::File(Some(Meta { blocks: 0, len: 8 }));
    assert!(e.apply_dirty(&m, &f, found).is_none());
    assert_eq!(e.trees.get(&m).unwrap().bytes, 8);
    assert!(e.apply_dirty(&path("/none"), &f, found).is_none());
    let d = path("/m/d");
    assert_eq!(e.apply_dirty(&m, &d, Found::Dir), Some(d.clone()));
    assert_eq!(e.dirty_levels(&m, &d), Some(2));
    assert_eq!(e.dirty_levels(&path("/none"), &d), None);
    e.rescan_dirty(&m, &d, true, Some(&tree("/m/d", 4)));
    assert_eq!(e.trees.get(&m).unwrap().bytes, 12);
    e.rescan_dirty(&m, &d, false, None);
    assert_eq!(e.trees.get(&m).unwrap().bytes, 8);
}

#[test]
fn cached_trees_of_another_depth_are_refused() {
    let mut e = engine();
    let mut t = tree("/m", 5);
    t.store_depth = 9;
    assert!(!e.accept_cached(path("/m"), t));
    assert!(e.trees.get(&path("/m")).is_none());
    assert!(e.accept_cached(path("/m"), tree("/m", 5)));
    let p = e.progress.get(&path("/m")).unwrap();
    assert_eq!((p.files, p.bytes, p.done), (1, 5, true));
}

#[test]
fn cached_trees_come_back() {
    let mut e = engine();
    let m = path("/m");
    let mut t = FileTree::new(m.clone());
    t.ensure_dir(&path("/m/a"));
    t.upsert_file(&path("/m/a/f.txt"), 7, "txt".into());
    t.ensure_dir_uncapped(&path("/m/a/b/c/d/e"));
    let (files, bytes, root, depth) = (t.files, t.bytes, t.root, t.store_depth);
    let kept = FileTree::from_parts(m.clone(), t.nodes, root, files, bytes, depth).unwrap();
    assert!(kept.dirs.get(&path("/m/a")).is_none());
    assert!(e.accept_cached(m.clone(), kept));
    let back = e.trees.get(&m).unwrap();
    assert_eq!((back.files, back.bytes), (1, 7));
    assert!(back.dirs.get(&path("/m/a/b/c")).is_some());
    assert!(back.dirs.get(&path("/m/a/b/c/d")).is_none());
}

#[test]
fn a_mount_has_one_tree() {
    let mut e = engine();
    for m in ["/m", "/m/", "//m"] {
        e.begin_scan(&path(m));
        e.note_progress(&path(m), 1, 1);
    }
    assert_eq!((e.trees.entries.len(), e.progress.entries.len()), (1, 1));
    e.request_rescan(Some(path("/m/")));
    assert!(e.trees.entries.is_empty());
}

#[test]
fn cache_files_have_plain_names() {
    assert_eq!(
        persist_name(&path("/c"), &path("/mnt/My Disk-1")),
        path("/c/_mnt_My_Disk_1.bin")
    );
    assert_eq!(persist_name(&path("/c"), &path("/é")), path("/c/__.bin"));
}

#[test]
fn focus_is_the_longest_path_in_the_mount() {
    let f: Vec<String> = ["/m", "/m/a", "/mm/a/b/c", "/m/a/b"].iter().map(|s| s.to_string()).collect();
    assert_eq!(focus_for_mount(&path("/m"), &f), Some(path("/m/a/b")));
    assert_eq!(focus_for_mount(&path("/x"), &f), None);
    let o: Vec<_> = open_for_mount(&path("/m"), &f).iter().map(|p| p.to_string_lossy()).collect();
    assert_eq!(o, ["/m", "/m/a", "/m/a/b"]);
}

#[test]
fn gaps_mean_nothing_on_some_file_systems() {
    for ft in ["NTFS", "ntfs3", "fuseblk", "exFAT", "vfat", "msdos", "lowntfs-3g"] {
        assert!(suppress_df_gap(ft), "{ft}");
    }
    assert!(!suppress_df_gap("ext4"));
}

fn progress(files: u64, bytes: u64, done: bool) -> ScanProgress {
    ScanProgress { files, bytes, done, error: None }
}

#[test]
fn mounts_show_unseen_and_free_bytes() {
    let m = mount("/m", 1_000_000, 600_000, 300_000);
    let t = tree("/m", 200_000);
    let v = mount_view(&m, Some(&t), &progress(1, 0, true), 70_000, true, "ext4", None, &[]);
    let kids: Vec<_> = v.tree.children.iter().map(|c| (c.name.as_str(), c.size)).collect();
    assert_eq!(kids, [("overhead", 400_000), ("free", 300_000), ("f", 200_000)]);
    assert_eq!(v.tree.children[0].path, "/m::gap");
    assert_eq!(v.tree.children[1].path, "/m::free");
    assert!(matches!(v.scan, ScanStatus::Live { files: 1, bytes: 200_000 }));
    assert_eq!((v.path.as_str(), v.tree.size), ("/m", 1_000_000));

    let v = mount_view(&m, Some(&t), &progress(1, 0, true), 70_000, true, "ntfs", None, &[]);
    assert!(!v.tree.children.iter().any(|c| c.name == "overhead"));
    let v = mount_view(&m, None, &progress(2, 5, false), 70_000, true, "ntfs", None, &[]);
    assert_eq!(v.tree.children[0].name, "scanning");
    assert!(matches!(v.tree.children[0].kind, Kind::Scanning));
    assert!(matches!(v.scan, ScanStatus::Scanning { files: 2, bytes: 5 }));
    let v = mount_view(&m, Some(&t), &progress(2, 0, false), 70_000, false, "ext4", None, &[]);
    assert!(matches!(v.scan, ScanStatus::Scanning { files: 2, bytes: 200_000 }));
    assert_eq!(v.tree.children.len(), 1, "the pool is not shown");
    let v = mount_view(&m, Some(&t), &progress(1, 0, true), 70_000, true, "ext4", Some(&path("/m/a")), &[]);
    assert_eq!(v.tree.children.len(), 1, "zoomed into");
    let failed = ScanProgress { files: 0, bytes: 0, done: true, error: Some("broken".into()) };
    let v = mount_view(&m, None, &failed, 70_000, false, "ext4", None, &[]);
    assert!(matches!(&v.scan, ScanStatus::Error(e) if e == "broken"));
}

#[test]
fn mounts_that_share_a_pool_are_shown_together() {
    let mut p = partition("sda2", 1_000_000, vec![]);
    p.label = Some("system".into());
    let usage = |used: u64| {
        vec![
            Usage { mount: mount("/", 1_000_000, used, 300_000), min_size: 65_536 },
            Usage { mount: mount("/home", 1_000_000, used, 300_000), min_size: 65_536 },
        ]
    };
    let mut trees = PathMap::new();
    trees.insert(path("/"), tree("/", 200_000));
    trees.insert(path("/home"), tree("/home", 100_000));
    let mut prog = PathMap::new();
    let views = partition_mounts(&p, &usage(600_000), &trees, &prog, &[], &[]).unwrap();
    assert_eq!(views.len(), 1);
    let v = &views[0];
    assert_eq!(v.path, "system");
    let kids: Vec<_> = v.tree.children.iter().map(|c| (c.path.as_str(), c.size)).collect();
    assert_eq!(
        kids,
        [("sda2::gap", 300_000), ("sda2::free", 300_000), ("/", 200_000), ("/home", 100_000)]
    );
    assert!(matches!(v.scan, ScanStatus::Live { files: 2, bytes: 300_000 }));
    prog.insert(path("/home"), progress(9, 1, false));
    let views = partition_mounts(&p, &usage(600_000), &trees, &prog, &[], &[]).unwrap();
    assert!(matches!(views[0].scan, ScanStatus::Scanning { files: 10, bytes: 300_000 }));
    prog.insert(
        path("/"),
        ScanProgress { files: 1, bytes: 0, done: true, error: Some("bad".into()) },
    );
    let views = partition_mounts(&p, &usage(600_000), &trees, &prog, &[], &[]).unwrap();
    assert!(matches!(&views[0].scan, ScanStatus::Error(e) if e == "bad"));
    p.mapped_name = Some("root".into());
    let views = partition_mounts(&p, &usage(0), &trees, &prog, &[], &[]).unwrap();
    assert_eq!(views[0].path, "root");

    prog.insert(path("/"), progress(u64::MAX, 0, true));
    assert!(
        partition_mounts(&p, &usage(0), &trees, &prog, &[], &[]).is_none(),
        "the sum of files is out of range"
    );
}

#[test]
fn mounts_of_their_own_are_shown_apart() {
    let p = partition("sda2", 1, vec![]);
    let usage = vec![
        Usage { mount: mount("/a", 10, 0, 3), min_size: 1 },
        Usage { mount: mount("/b", 10, 0, 4), min_size: 1 },
    ];
    let trees = PathMap::new();
    let prog = PathMap::new();
    let views = partition_mounts(&p, &usage, &trees, &prog, &[], &[]).unwrap();
    assert_eq!(views.len(), 2);
    assert!(matches!(views[0].scan, ScanStatus::Scanning { files: 0, bytes: 0 }));
    assert!(partition_mounts(&p, &vec![], &trees, &prog, &[], &[]).unwrap().is_empty());
    let t = tree("/a", 4);
    let from_tree = progress_for(&usage[0].mount, Some(&t), &prog);
    assert_eq!((from_tree.files, from_tree.bytes, from_tree.done), (1, 4, true));
    let now = FsStats { frsize: 1, blocks: 7, bfree: 2, bavail: 1 };
    let fresh = refresh_usage(&vec![mount("/a", 1, 1, 1), mount("/b", 2, 2, 2)], &vec![Some(now), None]);
    assert_eq!((fresh[0].total, fresh[0].used), (7, 5));
    assert_eq!(fresh[1].total, 2);
}

#[test]
fn snapshot_shows_all_disks() {
    let mut e = engine();
    e.refresh_topology(
        vec![disk("sda", false, false, vec![partition("sda1", 10, vec![mount("/m", 10, 5, 5)])])],
        MountTable::default(),
    );
    let usage = vec![vec![vec![Usage { mount: mount("/m", 10, 5, 5), min_size: 1 }]]];
    let s = e.snapshot(&usage, &[], &[], 123).unwrap();
    assert_eq!(s.generated_ms, 123);
    assert_eq!(s.source, SnapshotSource::Daemon);
    assert_eq!(s.disks[0].partitions[0].mounts[0].path, "/m");
    assert_eq!(s.disks[0].partitions[0].mounts[0].tree.children.len(), 2);
    let empty = Snapshot::empty(SnapshotSource::Local);
    assert!(empty.disks.is_empty() && empty.generated_ms == 0);
}

#[test]
fn requests_are_served() {
    let mut e = engine();
    assert!(matches!(serve(&mut e, &Request::Ping), Some(Response::Pong)));
    e.scan_due(0);
    assert!(matches!(serve(&mut e, &Request::Rescan { mount: None }), Some(Response::Done)));
    assert!(e.rescan_flag);
    assert!(matches!(
        serve(&mut e, &Request::Expand { path: "/x".into() }),
        Some(Response::Done)
    ));
    assert_eq!(e.expand_queue.len(), 1);
    assert!(serve(&mut e, &Request::Snapshot { focus: vec![], open: vec![] }).is_none());
}

#[test]
fn answers_must_fit_the_request() {
    assert!(expect_pong(Response::Pong).is_ok());
    assert!(expect_ok(Response::Done).is_ok());
    assert!(expect_snapshot(Response::Snapshot(Snapshot::empty(SnapshotSource::Local))).is_ok());
    assert!(matches!(expect_ok(Response::Pong), Err(ReplyError::Unexpected)));
    assert!(matches!(expect_pong(Response::Done), Err(ReplyError::Unexpected)));
    assert!(matches!(expect_snapshot(Response::Done), Err(ReplyError::Unexpected)));
    let e = expect_ok(Response::Error("why".into())).unwrap_err();
    assert_eq!(e.message(), "why");
    assert_eq!(ReplyError::Unexpected.message(), "unexpected response");
    assert!(expect_snapshot(Response::Error("x".into())).is_err());
    assert!(expect_pong(Response::Error("x".into())).is_err());
}

#[test]
fn messages_are_lines() {
    assert_eq!(line_of("{}"), "{}\n");
    assert_eq!(message_of("{}\n").as_deref(), Some("{}"));
    assert_eq!(message_of(" {} \r\n").as_deref(), Some(" {}"));
    assert_eq!(message_of("\n").as_deref(), Some(""));
    assert!(message_of("").is_none());
}

#[test]
fn places_of_socket_and_data() {
    assert_eq!(
        socket_path(Some(path("/run/user/1")), Some(path("/e")), path("/tmp")),
        path("/run/user/1/spacemap.sock")
    );
    assert_eq!(socket_path(None, Some(path("/e")), path("/tmp")), path("/e/spacemap.sock"));
    assert_eq!(socket_path(None, None, path("/tmp")), path("/tmp/spacemap.sock"));
    assert_eq!(data_dir(Some(path("/d"))), path("/d/spacemap"));
    assert_eq!(data_dir(None), path("./spacemap"));
}

#[test]
fn partly_scanned_trees_can_be_shown() {
    let mut e = engine();
    let m = path("/m");
    e.begin_scan(&m);
    let mut scan = Scan::start(m.clone(), None);
    let step = WalkEntry {
        depth: 1,
        path: path("/m/f"),
        name: b"f".to_vec(),
        is_dir: false,
        is_file: true,
        is_symlink: false,
        meta: Some(Meta { blocks: 0, len: 6 }),
    };
    scan.visit(&step, &MountTable::default(), 3);
    let held = e.swap_tree(&m, scan.tree).unwrap();
    assert_eq!(held.nodes.len(), 1);
    assert_eq!(e.trees.get(&m).unwrap().bytes, 6);
}
