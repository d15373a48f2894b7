use spacemap::map::{
    dark_text, disk_plan, disk_spans, find_node, free_hit, gutter_media, gutter_title, is_hatched,
    media_line, mount_plan, node_hit, partition_hit, partition_title, shown_kids, split_mount,
    tile_text, truncate, unallocated_hit, zoomed_mount, DiskPlan, DiskSpan,
};
use spacemap::snapshot::{
    DiskView, Kind, MountView, PartitionView, ScanStatus, SnapshotSource, ViewNode,
};
use spacemap::ui::{
    header_line, hit_line, kind_label, open_target, row_response, Command, Hit, RowResponse,
    SpacemapApp, ZoomMap,
};

fn node(path: &str, size: u64, kind: Kind, children: Vec<ViewNode>) -> ViewNode {
    ViewNode {
        path: path.into(),
        name: path.rsplit('/').next().unwrap().into(),
        size,
        kind,
        children,
    }
}

fn mount(path: &str, total: u64, available: u64, tree: ViewNode) -> MountView {
    MountView {
        path: path.into(),
        total,
        used: 0,
        available,
        scan: ScanStatus::Pending,
        tree,
    }
}

fn part(name: &str, start: u64, size: u64) -> PartitionView {
    PartitionView {
        name: name.into(),
        mapped_name: None,
        label: None,
        fstype: String::new(),
        size,
        start,
        locked: false,
        mounts: Vec::new(),
    }
}

fn disk(size: u64, unallocated: u64, partitions: Vec<PartitionView>) -> DiskView {
    DiskView {
        name: "sda".into(),
        model: "  Fast Disk ".into(),
        serial: String::new(),
        transport: "nvme".into(),
        size,
        rotational: false,
        removable: false,
        unallocated,
        partitions,
    }
}

fn folder(mount: &str, path: &str) -> Hit {
    Hit {
        disk: "sda".into(),
        partition: "sda1".into(),
        mount: mount.into(),
        path: path.into(),
        name: "n".into(),
        size: 7,
        kind: Kind::Directory,
    }
}

fn quiet() -> RowResponse {
    row_response(false, false, false, false, None)
}

fn names(spans: &[DiskSpan]) -> Vec<String> {
    spans
        .iter()
        .map(|s| match s {
            DiskSpan::Partition(p) => p.name.clone(),
            DiskSpan::Unallocated { size } => format!("gap {size}"),
        })
        .collect()
}

const MIB: u64 = 1024 * 1024;

#[test]
fn spans_follow_the_disk() {
    let d = disk(
        100 * MIB,
        0,
        vec![part("b", 50 * MIB, 10 * MIB), part("a", 10 * MIB, 40 * MIB)],
    );
    let spans = disk_spans(&d);
    assert_eq!(names(&spans), ["gap 10485760", "a", "b", "gap 41943040"]);
    assert_eq!(spans[1].size(), 40 * MIB);
    let tight = disk(60 * MIB, 0, vec![part("a", 1024, 60 * MIB)]);
    assert_eq!(names(&disk_spans(&tight)), ["a"]);
}

#[test]
fn spans_without_places_keep_their_order() {
    let d = disk(100 * MIB, 20 * MIB, vec![part("b", 0, 0), part("a", 0, 5)]);
    let spans = disk_spans(&d);
    assert_eq!(names(&spans), ["b", "a", "gap 20971520"]);
    assert_eq!(spans[0].size(), 1);
    let full = disk(100 * MIB, 8 * MIB, vec![part("b", 0, 1)]);
    assert_eq!(names(&disk_spans(&full)), ["b"]);
    assert_eq!(names(&disk_spans(&disk(0, 0, vec![]))), ["gap 1"]);
}

fn sample() -> DiskView {
    let tree = node(
        "/m",
        100,
        Kind::Directory,
        vec![
            node("/m/a", 60, Kind::Directory, vec![node("/m/a/x", 6, Kind::Other, vec![])]),
            node("/m::free", 40, Kind::Free, vec![]),
        ],
    );
    let mut p = part("sda1", 0, 100);
    p.mounts = vec![mount("/m", 100, 40, tree)];
    disk(100, 0, vec![p])
}

#[test]
fn zoom_draws_one_folder() {
    let d = sample();
    let mut zoom = ZoomMap::new();
    assert!(zoomed_mount(&d, &zoom).is_none());
    assert!(matches!(disk_plan(&d, &zoom), DiskPlan::Spans(s) if s.len() == 1));
    let plan = mount_plan(&d.partitions[0].mounts[0], &zoom);
    assert_eq!((plan.weight, plan.split), (100, Some((60, 40))));
    assert_eq!(plan.node.path, "/m");
    zoom.insert("/m".into(), "/m".into());
    assert!(zoomed_mount(&d, &zoom).is_none());
    zoom.insert("/m".into(), "/m/a".into());
    match disk_plan(&d, &zoom) {
        DiskPlan::Zoomed { part, mount, node } => {
            assert_eq!((part.name.as_str(), mount.path.as_str()), ("sda1", "/m"));
            assert_eq!(node.path, "/m/a");
        }
        DiskPlan::Spans(_) => panic!("not zoomed"),
    }
    let plan = mount_plan(&d.partitions[0].mounts[0], &zoom);
    assert_eq!(plan.split, None);
    assert_eq!(plan.node.path, "/m/a");
    zoom.insert("/m".into(), "/m/gone".into());
    assert!(matches!(disk_plan(&d, &zoom), DiskPlan::Zoomed { node, .. } if node.path == "/m"));
    assert_eq!(zoom.paths(), ["/m/gone"]);
    assert!(zoom.remove("/m"));
    assert!(!zoom.remove("/m"));
}

#[test]
fn nodes_are_found_by_path() {
    let d = sample();
    let tree = &d.partitions[0].mounts[0].tree;
    assert_eq!(find_node(tree, "/m/a/x").unwrap().size, 6);
    assert!(find_node(tree, "/m/b").is_none());
    assert_eq!(shown_kids(tree, true, &vec![]).len(), 1, "free space is no folder's child");
    assert!(shown_kids(tree, false, &vec![]).is_empty());
    assert_eq!(shown_kids(tree, false, &vec!["/m".into()]).len(), 1);
}

#[test]
fn hits_describe_their_tiles() {
    let h = unallocated_hit("sda", 5);
    assert_eq!((h.path.as_str(), h.partition.as_str()), ("sda::unallocated", "unallocated"));
    let h = free_hit("sda", "sda1", "/m", 9);
    assert_eq!((h.path.as_str(), h.size), ("/m::free", 9));
    let d = sample();
    let h = node_hit("sda", "sda1", "/m", &d.partitions[0].mounts[0].tree);
    assert_eq!((h.path.as_str(), h.size, h.mount.as_str()), ("/m", 100, "/m"));
    assert_eq!(split_mount(100, 40), (60, 40));
    assert_eq!(split_mount(100, 400), (1, 100));
    let mut p = part("sda3", 0, 4);
    assert!(matches!(partition_hit("sda", &p).kind, Kind::Unmounted));
    p.fstype = "SWAP".into();
    assert!(matches!(partition_hit("sda", &p).kind, Kind::Swap));
    p.locked = true;
    p.label = Some("L".into());
    let h = partition_hit("sda", &p);
    assert!(matches!(h.kind, Kind::Locked));
    assert_eq!(h.name, "sda3 · L · SWAP · locked");
    assert_eq!(partition_title(&part("x", 0, 0)), "x");
}

#[test]
fn texts_are_cut_to_fit() {
    assert_eq!(truncate("hello", 5), "hello");
    assert_eq!(truncate("hello", 4), "hel…");
    assert_eq!(truncate("héllo", 2), "h…");
    assert_eq!(truncate("hello", 0), "…");
    let long = "a".repeat(40);
    assert_eq!(tile_text(&long, "1 B", false), format!("{}…", "a".repeat(27)));
    assert_eq!(tile_text("name", "1 B", true), "name\n1 B");
    assert_eq!(tile_text(&"é".repeat(15), "", false), format!("{}…", "é".repeat(15)));
    assert!(dark_text((200, 100, 41)));
    assert!(!dark_text((200, 100, 40)));
}

#[test]
fn gutter_names_the_disk() {
    let mut d = sample();
    assert_eq!(gutter_title(&d), "Fast Disk");
    assert_eq!(gutter_media(&d), "NVME · SSD");
    d.rotational = true;
    d.transport = String::new();
    assert_eq!(gutter_media(&d), "HDD");
    d.removable = true;
    d.model = " ".into();
    assert_eq!(gutter_title(&d), "sda");
    assert_eq!(gutter_media(&d), "USB");
    assert_eq!(media_line(Some("SATA".into()), false, true), "SATA · HDD");
    assert!(is_hatched(&Kind::Free));
    for kind in [Kind::Directory, Kind::Scanning, Kind::Other, Kind::Unmounted] {
        assert!(!is_hatched(&kind));
    }
}

#[test]
fn clicks_open_folders_in_place() {
    let mut app = SpacemapApp::empty();
    assert_eq!(app.status, "starting…");
    let cmds = app.on_tile_click(folder("/m", "/m/a"), false);
    assert!(matches!(&cmds[..], [Command::Expand(p)] if p == "/m/a"));
    app.on_tile_click(folder("/m", "/m/a"), false);
    assert_eq!(app.open, ["/m/a"]);
    assert_eq!(app.selected.as_ref().unwrap().path, "/m/a");
    assert!(app.expanded_disk.is_none());
    app.on_escape();
    assert!(app.open.is_empty());
    assert_eq!(app.selected.as_ref().unwrap().path, "/m/a");
    assert_eq!(app.selected.as_ref().unwrap().name, "a");
    app.on_escape();
    assert!(app.selected.is_none());
}

#[test]
fn escape_closes_the_innermost_folder() {
    let mut app = SpacemapApp::empty();
    for p in ["/m/a", "/m/a/b", "/m/a/b/c", "/m/z"] {
        app.on_tile_click(folder("/m", p), false);
    }
    assert!(app.collapse_open("/m", "/m/a/b/file"));
    assert_eq!(app.open, ["/m/a", "/m/z"]);
    assert_eq!(app.selected.as_ref().unwrap().path, "/m/a/b");
    assert!(!app.collapse_open("/m", "/q"));
    assert!(!app.collapse_open("", "/m/a"));
    assert!(!app.collapse_open("/m", "/m/a::gap"));
}

#[test]
fn filling_the_window_zooms_and_escape_zooms_out() {
    let mut app = SpacemapApp::empty();
    app.on_tile_click(folder("/m", "/m/a/b"), true);
    assert_eq!(app.zoom.get("/m").unwrap(), "/m/a/b");
    assert_eq!(app.expanded_disk.as_deref(), Some("sda"));
    assert!(app.scroll_focus);
    app.on_escape();
    assert_eq!(app.zoom.get("/m").unwrap(), "/m/a");
    assert_eq!(app.selected.as_ref().unwrap().name, "a");
    app.on_escape();
    assert!(app.zoom.get("/m").is_none());
    assert_eq!(app.selected.as_ref().unwrap().path, "/m/a");
    app.on_escape();
    assert!(app.expanded_disk.is_none() && app.selected.is_none());
}

#[test]
fn nothing_is_opened_or_zoomed_twice() {
    let mut app = SpacemapApp::empty();
    for _ in 0..2 {
        app.on_tile_click(folder("/m", "/m/a"), false);
        app.on_tile_click(folder("/m", "/m/a/b"), true);
        app.on_tile_click(folder("/n", "/n/c"), true);
    }
    assert_eq!(app.open, ["/m/a"]);
    assert_eq!(app.zoom.paths(), ["/m/a/b", "/n/c"]);
    app.on_tile_click(folder("/m", "/m/a/b"), true);
    app.on_escape();
    assert_eq!(app.zoom.paths(), ["/m/a", "/n/c"]);
    app.on_escape();
    assert_eq!(app.zoom.paths(), ["/n/c"]);
}

#[test]
fn zoom_out_of_the_mount_itself() {
    let mut app = SpacemapApp::empty();
    assert!(!app.zoom_out("", "/m"));
    assert!(!app.zoom_out("/m", "/m"));
    app.zoom.insert("/m".into(), "/m".into());
    assert!(app.zoom_out("/m", "/m"));
    assert!(app.zoom.get("/m").is_none());
    assert_eq!(app.selected.as_ref().unwrap().name, "m");
    assert_eq!(app.selected.as_ref().unwrap().size, 0);
}

#[test]
fn nested_mounts_lead_to_their_disk() {
    let mut app = SpacemapApp::empty();
    app.zoom.insert("/data".into(), "/data/x".into());
    app.zoom.insert("/".into(), "/mnt".into());
    let mut h = folder("/", "/mnt/data");
    h.kind = Kind::MountPoint {
        disk: "sdb".into(),
        partition: "sdb1".into(),
        mount: "/data".into(),
        model: "M".into(),
    };
    assert!(app.on_tile_click(h, false).is_empty());
    assert_eq!(app.expanded_disk.as_deref(), Some("sdb"));
    assert!(app.zoom.entries.is_empty());
    let s = app.selected.as_ref().unwrap();
    assert_eq!((s.disk.as_str(), s.path.as_str()), ("sdb", "/data"));
}

#[test]
fn other_tiles_are_only_selected() {
    let mut app = SpacemapApp::empty();
    let mut h = folder("/m", "/m::free");
    h.kind = Kind::Free;
    assert!(app.on_tile_click(h, false).is_empty());
    assert!(app.open.is_empty());
    assert!(app.on_tile_click(folder("", "/m"), true).is_empty());
    assert_eq!(app.expanded_disk.as_deref(), Some("sda"));
}

#[test]
fn clicks_are_sorted_out() {
    let hit = || Some(folder("/m", "/m/a"));
    assert!(row_response(true, true, false, true, hit()).double_clicked.is_some());
    assert!(row_response(true, true, false, true, hit()).clicked.is_none());
    assert!(row_response(false, true, false, true, hit()).shift_clicked.is_some());
    assert!(row_response(false, true, false, false, hit()).clicked.is_some());
    let gutter = row_response(false, true, true, false, hit());
    assert!(gutter.gutter_clicked && gutter.clicked.is_none() && gutter.hover.is_some());
    assert!(row_response(true, false, true, false, None).gutter_clicked);
    assert!(!quiet().gutter_clicked);
}

#[test]
fn rows_are_taken_in_order() {
    let mut app = SpacemapApp::empty();
    let disks = vec![sample(), sample()];
    let rows = vec![
        row_response(false, true, false, false, Some(folder("/m", "/m/a"))),
        quiet(),
    ];
    let cmds = app.take_rows(&disks, &rows);
    assert_eq!(cmds.len(), 1);
    assert_eq!(app.open, ["/m/a"]);
    assert_eq!(app.hover.as_ref().unwrap().path, "/m/a");
    // A double click on a folder zooms into it.
    let rows = vec![quiet(), row_response(true, true, false, false, Some(folder("/m", "/m/b")))];
    app.take_rows(&disks, &rows);
    assert_eq!(app.zoom.get("/m").unwrap(), "/m/b");
    assert!(!app.scroll_focus);
    // A double click elsewhere only selects.
    let mut app = SpacemapApp::empty();
    let mut h = folder("/m", "/m/f");
    h.kind = Kind::File { ext: "txt".into() };
    app.take_rows(&disks, &vec![row_response(true, true, false, false, Some(h)), quiet()]);
    assert!(app.expanded_disk.is_none());
    // So it does on a directory without a place.
    for h in [folder("/m", "/m::rest"), folder("", "/m/d")] {
        let path = h.path.clone();
        let rows = vec![row_response(true, true, false, false, Some(h)), quiet()];
        assert!(app.take_rows(&disks, &rows).is_empty());
        assert!(app.expanded_disk.is_none());
        assert_eq!(app.selected.as_ref().unwrap().path, path);
    }
    let rows = vec![quiet(), row_response(false, true, true, false, None)];
    app.take_rows(&disks, &rows);
    assert_eq!(app.expanded_disk.as_deref(), Some("sda"));
    let s = app.selected.as_ref().unwrap();
    assert_eq!((s.path.as_str(), s.name.as_str()), ("sda::disk", "Fast Disk"));
    assert!(app.hover.is_none());
}

#[test]
fn lines_of_the_window() {
    let mut app = SpacemapApp::empty();
    app.note_source(SnapshotSource::Local);
    assert_eq!(app.status, "local scan");
    app.note_source(SnapshotSource::Daemon);
    assert_eq!(header_line(2, "3 GB", &app.status), "2 disks  ·  3 GB  ·  daemon");
    assert_eq!(
        hit_line(&folder("/m", "/m/a"), "7 B"),
        "sda  ·  sda1  ·  /m/a   7 B   directory"
    );
    assert_eq!(kind_label(&Kind::Overhead), "filesystem overhead");
    let portal = Kind::MountPoint {
        disk: "sdb".into(),
        partition: "sdb1".into(),
        mount: "/d".into(),
        model: "".into(),
    };
    assert_eq!(kind_label(&portal), "mount → sdb sdb1");
    assert_eq!(open_target(" /m/a ").as_deref(), Some("/m/a"));
    assert!(open_target("  ").is_none());
    assert!(open_target("sda::disk").is_none());
}

#[test]
fn scan_states_have_labels() {
    assert_eq!(ScanStatus::Pending.label("x"), "waiting");
    assert_eq!(ScanStatus::Scanning { files: 12, bytes: 5 }.label("5 B"), "scanning 12 files · 5 B");
    assert_eq!(ScanStatus::Live { files: 0, bytes: 5 }.label("5 B"), "0 files · 5 B");
    assert_eq!(ScanStatus::Error("bad".into()).label(""), "error: bad");
}
