use spacemap::path::PathBuf;
use spacemap::snapshot::Kind;
use spacemap::tree::{cap_path, ext_of, relative_depth, FileTree, Node, StoredKind, STORE_DEPTH};

#[test]
fn cap_path_stops_at_store_depth() {
    let root = PathBuf::from("/mnt/disk");
    let deep = root.join("a/b/c/d/e.txt");
    assert_eq!(cap_path(&root, &deep, STORE_DEPTH), root.join("a/b/c"));
    assert_eq!(relative_depth(&root, &deep), Some(5));
    assert_eq!(relative_depth(&root, &root), Some(0));
}

#[test]
fn view_layer_opens_nested_folder_in_place() {
    let root = PathBuf::from("/mnt/disk");
    let mut tree = FileTree::new(root.clone());
    let a = tree.add_child(
        tree.root,
        "a".into(),
        100,
        StoredKind::Dir,
        Some(root.join("a")),
    );
    tree.add_child(
        a,
        "b".into(),
        80,
        StoredKind::Dir,
        Some(root.join("a/b")),
    );
    tree.add_child(
        tree.root,
        "c".into(),
        20,
        StoredKind::Dir,
        Some(root.join("c")),
    );

    let closed = tree.view_layer(None, &[], 1);
    assert_eq!(closed.children.len(), 2);
    assert!(closed.children.iter().all(|c| c.children.is_empty()));

    let opened = tree.view_layer(None, &[root.join("a")], 1);
    let a_view = opened
        .children
        .iter()
        .find(|c| c.name == "a")
        .expect("a");
    assert!(
        a_view.children.iter().any(|c| c.name == "b"),
        "opened folder should show its children: {a_view:?}"
    );
    let c_view = opened.children.iter().find(|c| c.name == "c").expect("c");
    assert!(c_view.children.is_empty(), "unopened sibling stays a leaf");
}

fn file(ext: &str) -> StoredKind {
    StoredKind::File { ext: ext.into() }
}

fn sizes(tree: &FileTree) -> Vec<u64> {
    tree.nodes.iter().map(|n| n.size).collect()
}

#[test]
fn cap_path_keeps_paths_outside() {
    let root = PathBuf::from("/mnt/disk");
    let other = PathBuf::from("/mnt/other/a");
    assert_eq!(cap_path(&root, &other, 1), other);
    assert_eq!(relative_depth(&root, &other), None);
    let shallow = root.join("a");
    assert_eq!(cap_path(&root, &shallow, 3), shallow);
    assert_eq!(cap_path(&PathBuf::from(""), &PathBuf::from("/a/b"), 2), PathBuf::from("/a"));
    assert_eq!(cap_path(&root, &root.join("a//./b/c"), 2), root.join("a/b"));
}

#[test]
fn new_tree_holds_its_root() {
    let tree = FileTree::new(PathBuf::from("/mnt/disk"));
    assert_eq!(tree.nodes.len(), 1);
    assert_eq!(tree.nodes[0].name, "disk");
    assert_eq!(tree.dirs.get(&PathBuf::from("/mnt/disk/")), Some(0));
    assert_eq!(tree.store_depth, 3);
    let root = FileTree::new(PathBuf::from("/"));
    assert_eq!(root.nodes[0].name, "/");
    // Bytes that are no text are shown with a replacement character.
    let odd = FileTree::new(PathBuf { bytes: vec![b'/', b'a', 0xff] });
    assert_eq!(odd.nodes[0].name, "a\u{fffd}");
}

#[test]
fn extension_follows_the_last_dot() {
    assert_eq!(ext_of("Photo.JPG"), "jpg");
    assert_eq!(ext_of("archive.tar.gz"), "gz");
    assert_eq!(ext_of(".bashrc"), "");
    assert_eq!(ext_of("README"), "");
    assert_eq!(ext_of("a."), "");
    assert_eq!(ext_of(".."), "");
    assert_eq!(ext_of("x.y/z"), "");
    assert_eq!(ext_of("x/z.txt/"), "txt");
    assert_eq!(ext_of("x/z.txt/."), "txt");
    assert_eq!(ext_of(""), "");
}

#[test]
fn added_sizes_reach_the_root() {
    let root = PathBuf::from("/r");
    let mut tree = FileTree::new(root.clone());
    let a = tree.add_child(0, "a".into(), 4, StoredKind::Dir, Some(root.join("a")));
    let f = tree.add_child(a, "f.txt".into(), 6, file("txt"), None);
    assert_eq!((a, f), (1, 2));
    assert_eq!(sizes(&tree), vec![10, 10, 6]);
    assert_eq!(tree.bytes, 10);
    assert_eq!(tree.files, 1);
    assert_eq!(tree.path_of(f), PathBuf::from("/r/a/f.txt"));
    tree.add_child(a, "huge".into(), u64::MAX, file(""), None);
    assert_eq!(tree.bytes, u64::MAX, "sizes stop at the limit");
}

#[test]
fn adding_and_removing_brings_back_the_sizes() {
    let root = PathBuf::from("/r");
    let mut tree = FileTree::new(root.clone());
    let a = tree.add_child(0, "a".into(), 4, StoredKind::Dir, Some(root.join("a")));
    tree.add_child(a, "keep".into(), 1, file(""), None);
    let before = sizes(&tree);
    tree.add_child(a, "f".into(), 6, file(""), None);
    tree.remove_path(&root.join("a/f"));
    assert_eq!(sizes(&tree)[..3], before[..]);
    assert_eq!(tree.files, 1);
    assert_eq!(tree.bytes, 5);
    assert_eq!(tree.nodes[a as usize].children, vec![2]);
}

#[test]
fn removing_a_directory_removes_all_below() {
    let root = PathBuf::from("/r");
    let mut tree = FileTree::new(root.clone());
    let a = tree.add_child(0, "a".into(), 4, StoredKind::Dir, Some(root.join("a")));
    let b = tree.add_child(a, "b".into(), 3, StoredKind::Dir, Some(root.join("a/b")));
    tree.add_child(b, "f".into(), 2, file(""), None);
    tree.add_child(0, "g".into(), 1, file(""), None);
    tree.remove_path(&root.join("a"));
    assert_eq!(sizes(&tree), vec![1, 0, 0, 0, 1]);
    assert!(tree.nodes[1..4].iter().all(|n| !n.alive));
    assert!(tree.dirs.get(&root.join("a/b")).is_none());
    assert_eq!(tree.files, 1);
    // The root stays, and so does the tree for a path that is not there.
    tree.remove_path(&root);
    tree.remove_path(&root.join("none"));
    tree.remove_path(&PathBuf::from("/"));
    assert_eq!(tree.bytes, 1);
}

#[test]
fn recorded_files_are_read_back() {
    let root = PathBuf::from("/r");
    let mut tree = FileTree::new(root.clone());
    let path = root.join("f.txt");
    tree.upsert_file(&path, 5, "txt".into());
    assert_eq!(tree.bytes, 5);
    tree.upsert_file(&path, 9, "txt".into());
    assert_eq!(tree.bytes, 9);
    tree.upsert_file(&path, 2, "txt".into());
    assert_eq!(tree.bytes, 2);
    assert_eq!(tree.nodes.len(), 2);
    assert_eq!(tree.files, 1);
    tree.upsert_file(&root.join("no/where"), 7, "".into());
    tree.upsert_file(&PathBuf::from("/"), 7, "".into());
    assert_eq!(tree.bytes, 2);
}

#[test]
fn ensured_directories_are_found_again() {
    let root = PathBuf::from("/r");
    let mut tree = FileTree::new(root.clone());
    let deep = root.join("a/b/c/d");
    let c = tree.ensure_dir(&deep).expect("capped");
    assert_eq!(tree.path_of(c), root.join("a/b/c"));
    assert_eq!(tree.ensure_dir(&deep), Some(c));
    assert_eq!(tree.nodes.len(), 4);
    let d = tree.ensure_dir_uncapped(&deep).expect("uncapped");
    assert_eq!(tree.path_of(d), deep);
    assert_eq!(tree.ensure_dir_uncapped(&PathBuf::from("/other/x")), None);
    assert_eq!(tree.ensure_dir_uncapped(&PathBuf::from("/r/.")), Some(0));
    assert_eq!(tree.bytes, 0);
}

#[test]
fn pruning_keeps_the_upper_levels() {
    let root = PathBuf::from("/r");
    let mut tree = FileTree::new(root.clone());
    let mut at = 0;
    let mut path = root.clone();
    for name in ["a", "b", "c", "d"] {
        path = path.join(name);
        at = tree.add_child(at, name.into(), 1, StoredKind::Dir, Some(path.clone()));
    }
    tree.add_child(at, "deep".into(), 10, file(""), None);
    tree.add_child(0, "top".into(), 5, file(""), None);
    assert_eq!(tree.bytes, 19);
    tree.prune_to_store_depth();
    assert_eq!(tree.bytes, 19);
    assert_eq!(tree.files, 1);
    assert_eq!(tree.nodes.len(), 5);
    let c = tree.dirs.get(&root.join("a/b/c")).unwrap();
    assert_eq!(tree.nodes[c as usize].size, 12);
    assert!(tree.nodes[c as usize].children.is_empty());
    assert!(tree.dirs.get(&root.join("a/b/c/d")).is_none());
    // A tree that is shallow enough stays as it is.
    tree.prune_to_store_depth();
    assert_eq!(tree.nodes.len(), 5);
}

#[test]
fn index_is_made_anew_from_the_nodes() {
    let root = PathBuf::from("/r");
    let mut tree = FileTree::new(root.clone());
    let a = tree.add_child(0, "a".into(), 1, StoredKind::Dir, None);
    tree.add_child(a, "f".into(), 1, file(""), None);
    assert!(tree.dirs.get(&root.join("a")).is_none());
    tree.rebuild_index();
    assert_eq!(tree.dirs.get(&root.join("a")), Some(a));
    assert!(tree.dirs.get(&root.join("a/f")).is_none());
}

fn node(parent: Option<u32>, children: Vec<u32>) -> Node {
    Node {
        name: "n".into(),
        parent,
        size: 1,
        kind: StoredKind::Dir,
        children,
        alive: true,
    }
}

#[test]
fn loaded_nodes_must_form_a_tree() {
    let make = |nodes: Vec<Node>, root: u32, files: u64| {
        FileTree::from_parts(PathBuf::from("/r"), nodes, root, files, 1, 3)
    };
    assert!(make(vec![node(None, vec![1]), node(Some(0), vec![])], 0, 0).is_some());
    assert!(make(vec![], 0, 0).is_none(), "no root");
    assert!(make(vec![node(None, vec![])], 1, 0).is_none(), "root out of range");
    assert!(make(vec![node(None, vec![]), node(None, vec![])], 0, 0).is_none(), "two roots");
    assert!(make(vec![node(None, vec![1]), node(Some(1), vec![])], 0, 0).is_none(), "own parent");
    assert!(make(vec![node(None, vec![2]), node(Some(0), vec![])], 0, 0).is_none(), "no such child");
    assert!(
        make(vec![node(None, vec![1, 1]), node(Some(0), vec![])], 0, 0).is_none(),
        "child listed twice"
    );
    assert!(
        make(
            vec![node(None, vec![1, 2]), node(Some(0), vec![2]), node(Some(1), vec![])],
            0,
            0
        )
        .is_none(),
        "child of another parent"
    );
    assert!(make(vec![node(None, vec![])], 0, u64::MAX).is_none(), "too many files");
}

#[test]
fn view_lumps_what_is_not_shown() {
    let root = PathBuf::from("/r");
    let mut tree = FileTree::new(root.clone());
    for i in 0..100u64 {
        tree.add_child(0, format!("f{i}"), 1_000_000 + i, file("bin"), None);
    }
    let view = tree.view(1);
    assert_eq!(view.children.len(), 81);
    assert_eq!(view.children[0].name, "f99");
    let other = view.children.last().unwrap();
    assert_eq!(other.name, "other");
    assert_eq!(other.path, "/r/other");
    assert!(matches!(other.kind, Kind::Other));
    let shown: u64 = view.children[..80].iter().map(|c| c.size).sum();
    assert_eq!(shown + other.size, tree.bytes);
    assert_eq!(view.size, tree.bytes);
}

#[test]
fn view_shows_few_small_children() {
    let root = PathBuf::from("/r");
    let mut tree = FileTree::new(root.clone());
    for i in 0..20u64 {
        tree.add_child(0, format!("f{i}"), 10 + i, file(""), None);
    }
    let view = tree.view_layer(None, &[], 1000);
    assert_eq!(view.children.len(), 8);
    assert_eq!(tree.view_layer(None, &[], 0).children.len(), 20);
}

#[test]
fn portals_are_drawn_within_bounds() {
    let root = PathBuf::from("/r");
    let mut tree = FileTree::new(root.clone());
    let portal = |used: u64, model: &str| StoredKind::MountPoint {
        disk: "sdb".into(),
        partition: "sdb1".into(),
        mount: "/r/p".into(),
        model: model.into(),
        volume_used: used,
    };
    tree.add_child(0, "big".into(), 400_000_000, file(""), None);
    tree.add_child(0, "p".into(), 0, portal(1, " "), Some(root.join("p")));
    tree.add_child(0, "q".into(), 0, portal(u64::MAX, "Disk X"), Some(root.join("q")));
    let view = tree.view(1);
    assert_eq!(view.children[0].name, "→ sdb");
    assert_eq!(view.children[0].size, 10_000_000);
    assert_eq!(view.children[1].name, "→ Disk X");
    assert_eq!(view.children[1].size, 50_000_000);
    assert_eq!(view.size, 460_000_000);
    assert!(matches!(&view.children[0].kind, Kind::MountPoint { mount, .. } if mount == "/r/p"));
    let at = tree.view_layer(Some(&root.join("none")), &[], 1);
    assert_eq!(at.path, "/r", "an unknown place shows the root");
}

#[test]
fn adding_and_removing_leaves_the_tree_as_it_was() {
    let root = PathBuf::from("/mnt/disk");
    let mut tree = FileTree::new(root.clone());
    tree.ensure_dir(&root.join("a"));
    tree.upsert_file(&root.join("a/f"), 5, String::new());
    let sizes: Vec<u64> = tree.nodes.iter().map(|n| n.size).collect();
    let a = tree.dirs.get(&root.join("a")).unwrap();
    for dir in [false, true] {
        let (kind, filed) = if dir {
            (StoredKind::Dir, Some(root.join("a/new")))
        } else {
            (StoredKind::File { ext: String::new() }, None)
        };
        let id = tree.add_child(a, "new".into(), 7, kind, filed);
        assert_eq!(tree.bytes, 12);
        tree.remove_path(&root.join("a/new"));
        assert!(!tree.nodes[id as usize].alive);
        assert_eq!((tree.bytes, tree.files), (5, 1));
        assert!(tree.dirs.get(&root.join("a/new")).is_none());
        let now: Vec<u64> = tree.nodes.iter().take(sizes.len()).map(|n| n.size).collect();
        assert_eq!(now, sizes);
    }
}

#[test]
fn directories_are_ensured_below_the_root_alone() {
    let root = PathBuf::from("/mnt/disk");
    let mut tree = FileTree::new(root.clone());
    assert!(tree.ensure_dir_uncapped(&PathBuf::from("/mnt/other/x")).is_none());
    assert!(tree.ensure_dir_uncapped(&PathBuf::from("/")).is_none());
    assert_eq!(tree.nodes.len(), 1);
    let deep = root.join("a/b/c");
    let id = tree.ensure_dir_uncapped(&deep).unwrap();
    assert_eq!(tree.path_of(id), deep);
    for rel in ["a", "a/b", "a/b/c"] {
        assert!(tree.dirs.get(&root.join(rel)).is_some());
    }
    assert_eq!(tree.ensure_dir_uncapped(&deep), Some(id));
    assert_eq!(tree.nodes.len(), 4);
    // A path elsewhere, or a root, need be no text.
    let odd = PathBuf { bytes: b"/mnt/\xff".to_vec() };
    assert!(tree.ensure_dir_uncapped(&odd).is_none());
    let mut tree = FileTree::new(odd.clone());
    let id = tree.ensure_dir_uncapped(&odd.join("a")).unwrap();
    assert_eq!(tree.path_of(id), odd.join("a"));
}
