use spacemap::mounts::{unescape_mount, MountTable};
use spacemap::path::PathBuf;

#[test]
fn unescapes_spaces() {
    assert_eq!(
        unescape_mount(r"/run/media/russell/Western\040Digital\040HDD"),
        "/run/media/russell/Western Digital HDD"
    );
}

#[test]
fn nested_under_root() {
    let table = MountTable::from_mountinfo(
        "32 1 0:29 /@ / rw - btrfs /dev/mapper/omarchy_root rw\n\
         50 32 0:29 /@home /home rw - btrfs /dev/mapper/omarchy_root rw\n\
         51 32 8:85 / /boot rw - vfat /dev/sdf5 rw\n\
         29 32 0:26 / /run rw - tmpfs run rw\n",
        &[],
    );
    let root = PathBuf::from("/");
    let nested: Vec<_> = table
        .nested(&root)
        .into_iter()
        .map(|e| e.target.to_string_lossy())
        .collect();
    assert!(nested.iter().any(|t| t == "/home"));
    assert!(nested.iter().any(|t| t == "/boot"));
    assert!(nested.iter().any(|t| t == "/run"));
    assert!(!nested.iter().any(|t| t == "/"));
    assert!(table.is_nested_mount(&root, &PathBuf::from("/home")));
    assert!(!table.is_nested_mount(&root, &root));
    assert!(table.is_foreign_path(&root, &PathBuf::from("/home/russell")));
    assert!(!table.is_foreign_path(&root, &PathBuf::from("/usr/bin")));
}

#[test]
fn scan_of_home_does_not_treat_root_as_nested() {
    let table = MountTable::from_mountinfo(
        "32 1 0:29 /@ / rw - btrfs /dev/mapper/omarchy_root rw\n\
         50 32 0:29 /@home /home rw - btrfs /dev/mapper/omarchy_root rw\n",
        &[],
    );
    assert!(table.nested(&PathBuf::from("/home")).is_empty());
}

fn table(text: &str) -> MountTable {
    MountTable::from_mountinfo(text, &[])
}

#[test]
fn unescapes_only_octal_bytes() {
    assert_eq!(unescape_mount(r"a\134b"), r"a\b");
    assert_eq!(unescape_mount(r"a\04"), r"a\04");
    assert_eq!(unescape_mount(r"a\0408"), "a 8");
    assert_eq!(unescape_mount(r"a\089b"), r"a\089b");
    assert_eq!(unescape_mount(r"a\777b"), r"a\777b");
    assert_eq!(unescape_mount(r"a\+40b"), "a b");
    assert_eq!(unescape_mount(""), "");
    assert_eq!(unescape_mount("/mnt/é"), "/mnt/é");
    assert_eq!(unescape_mount(r"/mnt/\303\251"), "/mnt/é");
    assert_eq!(unescape_mount(r"a\377b"), "a\u{fffd}b");
}

#[test]
fn mounts_outside_ascii_are_found() {
    let t = table("1 2 3 4 / rw - ext4 /dev/a rw\n1 2 3 4 /mnt/é rw - ext4 /dev/b rw\n");
    assert!(t.is_mount_point(&PathBuf::from("/mnt/é")));
    assert!(t.is_foreign_path(&PathBuf::from("/"), &PathBuf::from("/mnt/é/x")));
    let t = table("1 2 3 4 /mnt/\\303\\251\\040\\134 rw - ext4 /dev/b rw\n");
    assert!(t.is_foreign_path(&PathBuf::from("/"), &PathBuf::from("/mnt/é \\/x")));
}

#[test]
fn lines_without_the_form_are_left_out() {
    let t = table("garbage\n1 2 3 4 - ext4 /dev/a\r\n1 2 3 4 /x rw - ext4\r\n1 2 3 4 /y rw - vfat /dev/b rw");
    assert!(t.get(&PathBuf::from("/x")).is_some());
    assert_eq!(t.get(&PathBuf::from("/x")).unwrap().fstype, "ext4");
    assert_eq!(t.get(&PathBuf::from("/x")).unwrap().source, "");
    let y = t.get(&PathBuf::from("/y/")).unwrap();
    assert_eq!((y.fstype.as_str(), y.source.as_str(), y.physical), ("vfat", "/dev/b", false));
    assert!(!t.is_mount_point(&PathBuf::from("/z")));
}

#[test]
fn last_mount_at_a_place_wins() {
    let t = table("1 2 3 4 /x rw - ext4 /dev/a rw\n1 2 3 4 /x rw - btrfs /dev/b rw\n");
    assert_eq!(t.get(&PathBuf::from("/x")).unwrap().source, "/dev/b");
    let copy = t.clone();
    assert_eq!(copy.identity(&PathBuf::from("/x/y")).unwrap().source, "/dev/b");
}

#[test]
fn identity_is_the_longest_place_above() {
    let t = table(
        "1 2 3 4 / rw - ext4 /dev/a rw\n1 2 3 4 /home rw - ext4 /dev/b rw\n1 2 3 4 /home/me/x rw - ext4 /dev/c rw\n",
    );
    assert_eq!(t.identity(&PathBuf::from("/home/me")).unwrap().source, "/dev/b");
    assert_eq!(t.identity(&PathBuf::from("/usr")).unwrap().source, "/dev/a");
    assert_eq!(t.identity(&PathBuf::from("/home")).unwrap().source, "/dev/b");
    assert!(t.identity(&PathBuf::from("relative")).is_none());
    assert!(MountTable::default().identity(&PathBuf::from("/")).is_none());
}

#[test]
fn nested_mounts_are_foreign() {
    let t = table("1 2 3 4 /a/b rw - ext4 /dev/b rw\n");
    let root = PathBuf::from("/a");
    assert!(t.is_nested_mount(&root, &PathBuf::from("/a/b")));
    assert!(t.is_foreign_path(&root, &PathBuf::from("/a/b/c")));
    assert!(t.is_foreign_path(&root, &PathBuf::from("/z")));
    assert!(!t.is_foreign_path(&root, &PathBuf::from("/a/bc")));
    assert!(!t.is_foreign_path(&PathBuf::from("/a/b"), &PathBuf::from("/a/b/c")));
}
