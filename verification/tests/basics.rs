use spacemap::color::{rgb_for_ext, rgb_for_kind};
use spacemap::index::PathIndex;
use spacemap::path::PathBuf;
use spacemap::path_map::PathMap;
use spacemap::scan::ScanProgress;
use spacemap::snapshot::{Kind, ViewNode};
use spacemap::sort::sort;
use spacemap::text::{
    contains_text, parse_number, split_lines, text_begins_with, text_finishes_with, to_decimal,
    to_lower, trim, trim_end,
};

fn p(s: &str) -> PathBuf {
    PathBuf::from(s)
}

#[test]
fn paths_are_equal_by_components() {
    assert_eq!(p("/a/b"), p("/a//b/"));
    assert_eq!(p("/a/./b"), p("/a/b/."));
    assert_ne!(p("a/b"), p("./a/b"));
    assert_ne!(p("/a"), p("a"));
    assert_ne!(p("/a/../b"), p("/b"));
}

#[test]
fn paths_agree_with_the_standard_library() {
    let texts = [
        "", "/", "//", ".", "..", "./", "a", "a/", "/a", "/a/", "/a/b", "/a/b/", "a/b", "./a", "a/.",
        "a/..", "../a", "/..", "/.", "/a//b", "/a/./b/.", "a./b", ".a", "/a/.b", "...", "/a/b/c",
        "//a//", "a/./", "./.", "././a",
    ];
    for t in texts {
        let std = std::path::Path::new(t);
        let own = p(t);
        assert_eq!(
            own.parent().map(|q| q.to_string_lossy()),
            std.parent().map(|q| q.to_string_lossy().into_owned()),
            "parent of {t:?}"
        );
        assert_eq!(
            own.file_name(),
            std.file_name().map(|n| n.to_string_lossy().into_owned().into_bytes()),
            "name of {t:?}"
        );
        assert_eq!(own.components().len(), std.components().count(), "components of {t:?}");
        for u in texts {
            let other = std::path::Path::new(u);
            assert_eq!(own.starts_with(&p(u)), std.starts_with(other), "{t:?} below {u:?}");
            assert_eq!(own == p(u), std == other, "{t:?} is {u:?}");
            assert_eq!(own.at_most(&p(u)), std <= other, "{t:?} before {u:?}");
            assert_eq!(
                own.join(u).to_string_lossy(),
                std.join(other).to_string_lossy(),
                "{t:?} with {u:?}"
            );
        }
    }
}

#[test]
fn parent_undoes_join() {
    assert_eq!(p("/a").join("b").parent(), Some(p("/a")));
    assert_eq!(p("/a/").join("b").file_name(), Some(b"b".to_vec()));
    assert_eq!(p("/a").join("/b"), p("/b"));
}

#[test]
fn broken_text_is_replaced() {
    let odd = PathBuf { bytes: vec![b'x', 0xfe, b'y'] };
    assert_eq!(odd.to_string_lossy(), "x\u{fffd}y");
    assert_eq!(p("é").to_string_lossy(), "é");
}

#[test]
fn index_keys_are_components() {
    let mut idx: PathIndex<u32> = PathIndex::new();
    idx.insert(&p("/a/b"), 1);
    idx.insert(&p("a/b"), 2);
    idx.insert(&p("/"), 3);
    idx.insert(&PathBuf { bytes: vec![b'a', 0xff] }, 4);
    assert_eq!(idx.get(&p("/a//b/")), Some(1));
    assert_eq!(idx.get(&p("a/b")), Some(2));
    assert_eq!(idx.get(&p("//")), Some(3));
    assert_eq!(idx.get(&p("aÿ")), None);
    assert_eq!(idx.get(&p("")), None);
    idx.insert(&p("/a/b/."), 9);
    assert_eq!(idx.get(&p("/a/b")), Some(9));
    idx.remove(&p("/a/b"));
    assert_eq!(idx.get(&p("/a/b")), None);
    assert_eq!(idx.get(&p("a/b")), Some(2));
}

#[test]
fn map_keys_are_components() {
    let mut m: PathMap<ScanProgress> = PathMap::new();
    m.insert(p("/a"), ScanProgress { files: 1, bytes: 0, done: true, error: None });
    m.insert(p("/a/"), ScanProgress { files: 2, bytes: 0, done: true, error: None });
    assert_eq!(m.get(&p("/a")).unwrap().files, 2);
    assert_eq!(m.entries.len(), 1);
    m.insert(p("/a/b"), ScanProgress::default());
    assert_eq!(m.longest_above(&p("/a/b/c")), Some(1));
    assert_eq!(m.longest_above(&p("/x")), None);
    m.remove(&p("/a"));
    assert!(m.get(&p("/a")).is_none());
    assert!(m.get(&p("/a/b")).is_some());
}

#[test]
fn sorting_is_stable() {
    let tile = |name: &str, size: u64| ViewNode {
        path: String::new(),
        name: name.into(),
        size,
        kind: Kind::Other,
        children: Vec::new(),
    };
    let mut v = vec![tile("a", 2), tile("b", 9), tile("c", 2), tile("d", 5), tile("e", 9)];
    sort(&mut v);
    let names: Vec<_> = v.iter().map(|t| t.name.as_str()).collect();
    assert_eq!(names, ["b", "e", "d", "a", "c"]);
    let mut many: Vec<_> = (0..3000).map(|i| tile(&format!("{i}"), (i * 7919) % 101)).collect();
    let mut expected: Vec<_> = many.iter().map(|t| (t.size, t.name.clone())).collect();
    expected.sort_by(|x, y| y.0.cmp(&x.0));
    sort(&mut many);
    let found: Vec<_> = many.iter().map(|t| (t.size, t.name.clone())).collect();
    assert_eq!(found, expected);
    let mut paths = vec![p("/b"), p("a"), p(".."), p("/a/b"), p("."), p("/a")];
    sort(&mut paths);
    let texts: Vec<_> = paths.iter().map(|q| q.to_string_lossy()).collect();
    assert_eq!(texts, ["/a", "/a/b", "/b", ".", "..", "a"]);
}

#[test]
fn texts_agree_with_the_standard_library() {
    let texts = ["", " ", "a", " a b ", "\u{3000}x\u{85}", "ÄbC.Z", "ntfs", "xntfsx", "a\u{200b}"];
    for t in texts {
        assert_eq!(trim(t), t.trim());
        assert_eq!(trim_end(t), t.trim_end());
        assert_eq!(to_lower(t), t.to_ascii_lowercase());
        for u in texts {
            assert_eq!(contains_text(t, u), t.contains(u), "{t:?} {u:?}");
            assert_eq!(text_begins_with(t, u), t.starts_with(u), "{t:?} {u:?}");
            assert_eq!(text_finishes_with(t, u), t.ends_with(u), "{t:?} {u:?}");
        }
    }
    for t in ["", "\n", "a", "a\n", "a\r\nb", "a\r", "\r\n\n", "a\n\nb\r\n"] {
        let own: Vec<String> = split_lines(t).iter().map(|l| l.iter().collect()).collect();
        let std: Vec<String> = t.lines().map(|l| l.to_string()).collect();
        assert_eq!(own, std, "{t:?}");
    }
    for n in [0, 7, 10, 99, 100, 12345, u64::MAX] {
        assert_eq!(to_decimal(n), n.to_string());
        assert_eq!(parse_number(&n.to_string()), Some(n));
    }
}

#[test]
fn colours_follow_the_file_type() {
    assert_eq!(rgb_for_ext("JPG", "x"), (176, 86, 168));
    assert_eq!(rgb_for_ext("mkv", "x"), (196, 64, 72));
    assert_eq!(rgb_for_ext("opus", "x"), (196, 168, 52));
    assert_eq!(rgb_for_ext("7z", "x"), (204, 116, 48));
    assert_eq!(rgb_for_ext("csv", "x"), (72, 128, 196));
    assert_eq!(rgb_for_ext("svelte", "x"), (64, 160, 112));
    assert_eq!(rgb_for_ext("woff2", "x"), (128, 112, 176));
    assert_eq!(rgb_for_ext("elf", "x"), (140, 148, 156));
    assert_eq!(rgb_for_ext("sqlite3", "x"), (88, 140, 148));
    assert_eq!(rgb_for_ext("pacman", "x"), (96, 148, 176));
    assert_eq!(rgb_for_ext("zst", "a.pkg.tar.zst"), (204, 116, 48));
    assert_eq!(rgb_for_ext("", "A.PKG.TAR.XZ"), (96, 148, 176));
    assert_eq!(rgb_for_ext("what", "x"), (158, 162, 174));
}

#[test]
fn colours_of_other_tiles() {
    let portal = Kind::MountPoint {
        disk: "".into(),
        partition: "".into(),
        mount: "".into(),
        model: "".into(),
    };
    let expected = [
        (Kind::Free, (36, 40, 48)),
        (Kind::Overhead, (64, 56, 46)),
        (Kind::Scanning, (86, 92, 58)),
        (Kind::Other, (92, 96, 108)),
        (Kind::Unmounted, (48, 52, 62)),
        (Kind::Locked, (72, 42, 48)),
        (Kind::Swap, (58, 64, 52)),
        (Kind::Directory, (62, 88, 122)),
        (portal, (48, 148, 168)),
        (Kind::File { ext: "rs".into() }, (64, 160, 112)),
    ];
    for (kind, rgb) in expected {
        assert_eq!(rgb_for_kind(&kind, "x"), rgb);
        assert_eq!(ViewNode::leaf("p".into(), "x".into(), 1, kind).color_rgb(), rgb);
    }
}
