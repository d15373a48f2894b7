//! The mounts that are visible to this process.

use crate::discover::{copy_text, normalize_source, Disk, DiskModel, Mount, MountModel, Partition, PartitionModel};
use crate::index::PathIndex;
use crate::path::{comps, lossy_text, same_path, under, utf8_lossy, PathBuf};
use crate::snapshot::text_of;
use crate::sort::views;
use crate::text::{
    find_chars, finishes_with, first_from, lines_of, split_chars, split_lines, split_on, string_of,
    text_eq, text_finishes_with, up_to,
};
use vstd::prelude::*;
use vstd::string::*;
use vstd::utf8::*;

verus! {

/// A mount visible in this process, used to avoid walking other file systems
/// and to jump to the owning physical disk. Its target is the path at which it
/// is mounted, byte for byte, whatever the script of its name: a walk that comes
/// to `/mnt/é` has to know it for another file system as it does `/mnt/e`.
#[derive(Debug)]
pub struct MountEntry {
    pub target: PathBuf,
    pub source: String,
    pub fstype: String,
    pub disk: Option<String>,
    pub partition: Option<String>,
    pub model: Option<String>,
    pub physical: bool,
    pub used: u64,
}

/// The value of a [`MountEntry`].
#[verifier::ext_equal]
pub struct EntryModel {
    pub target: Seq<u8>,
    pub source: Seq<char>,
    pub fstype: Seq<char>,
    pub disk: Option<Seq<char>>,
    pub partition: Option<Seq<char>>,
    pub model: Option<Seq<char>>,
    pub physical: bool,
    pub used: u64,
}

impl View for MountEntry {
    type V = EntryModel;

    open spec fn view(&self) -> EntryModel {
        EntryModel {
            target: self.target@,
            source: self.source@,
            fstype: self.fstype@,
            disk: text_of(self.disk),
            partition: text_of(self.partition),
            model: text_of(self.model),
            physical: self.physical,
            used: self.used,
        }
    }
}

impl Clone for MountEntry {
    fn clone(&self) -> (r: Self)
        ensures
            r@ == self@,
    {
        MountEntry {
            target: self.target.clone(),
            source: self.source.clone(),
            fstype: self.fstype.clone(),
            disk: copy_text(&self.disk),
            partition: copy_text(&self.partition),
            model: copy_text(&self.model),
            physical: self.physical,
            used: self.used,
        }
    }
}

// ---------------------------------------------------------------------------
// Reading the table
// ---------------------------------------------------------------------------

/// The byte that begins an escape.
pub const BACKSLASH: u8 = 92;

/// Whether a byte is an octal digit.
pub open spec fn octal(b: u8) -> bool {
    48 <= b <= 55
}

/// The number that three bytes stand for in base 8: three digits, or a plus
/// sign and two digits; none if it is anything else or no byte.
pub open spec fn octal_value(a: u8, b: u8, c: u8) -> Option<u8> {
    if !octal(b) || !octal(c) || !(octal(a) || a == 43) {
        None
    } else {
        let high = if a == 43 {
            0
        } else {
            (a - 48) * 64
        };
        let v = high + (b - 48) * 8 + (c - 48);
        if v <= 255 {
            Some(v as u8)
        } else {
            None
        }
    }
}

/// The bytes that a mount table field stands for: a backslash with an octal
/// number stands for the byte of that number, every other byte for itself. A
/// character outside ASCII is made of several bytes, escaped or not, and none
/// of these is taken for a character of its own.
pub open spec fn unescaped(s: Seq<u8>) -> Seq<u8>
    decreases s.len(),
{
    if s.len() == 0 {
        Seq::empty()
    } else if s.len() >= 4 && s[0] == BACKSLASH && octal_value(s[1], s[2], s[3]) is Some {
        seq![octal_value(s[1], s[2], s[3]).unwrap()] + unescaped(s.skip(4))
    } else {
        seq![s[0]] + unescaped(s.skip(1))
    }
}

/// Whether a byte of a path is escaped in the mount table: a tab, a line feed,
/// a blank and the backslash are.
pub open spec fn escapes(b: u8) -> bool {
    b == 9 || b == 10 || b == 32 || b == BACKSLASH
}

/// A path as the mount table writes it.
pub open spec fn escaped(path: Seq<u8>) -> Seq<u8>
    decreases path.len(),
{
    if path.len() == 0 {
        Seq::empty()
    } else {
        let b = path[0];
        let written = if escapes(b) {
            seq![BACKSLASH, (48 + b / 64) as u8, (48 + b / 8 % 8) as u8, (48 + b % 8) as u8]
        } else {
            seq![b]
        };
        written + escaped(path.skip(1))
    }
}

/// A path that is written into the mount table is read back as it was.
pub proof fn law_escaped_comes_back(path: Seq<u8>)
    ensures
        unescaped(escaped(path)) == path,
    decreases path.len(),
{
    if path.len() > 0 {
        let b = path[0];
        let rest = path.skip(1);
        let s = escaped(path);
        law_escaped_comes_back(rest);
        if escapes(b) {
            assert(octal_value(s[1], s[2], s[3]) == Some(b));
            assert(s.skip(4) =~= escaped(rest));
        } else {
            assert(s.skip(1) =~= escaped(rest));
        }
        assert(seq![b] + rest =~= path);
    }
}

/// The number that three bytes stand for in base 8.
fn read_octal(a: u8, b: u8, c: u8) -> (r: Option<u8>)
    ensures
        r == octal_value(a, b, c),
{
    if !(48 <= b && b <= 55) || !(48 <= c && c <= 55) || !((48 <= a && a <= 55) || a == 43) {
        return None;
    }
    let high: u16 = if a == 43 {
        0
    } else {
        (a - 48) as u16 * 64
    };
    let v: u16 = high + (b - 48) as u16 * 8 + (c - 48) as u16;
    if v <= 255 {
        Some(v as u8)
    } else {
        None
    }
}

/// The bytes that a mount table field stands for.
fn unescape_bytes(s: &str) -> (r: Vec<u8>)
    ensures
        r@ == unescaped(encode_utf8(s@)),
{
    let bytes = s.as_bytes();
    let ghost all = encode_utf8(s@);
    let mut out: Vec<u8> = Vec::new();
    let mut i: usize = 0;
    assert(all.skip(0) =~= all);
    assert(out@ + unescaped(all) =~= unescaped(all));
    while i < bytes.len()
        invariant
            i <= bytes.len(),
            all == bytes@,
            unescaped(all) == out@ + unescaped(all.skip(i as int)),
        decreases bytes.len() - i,
    {
        let ghost rest = all.skip(i as int);
        let ghost before = out@;
        assert(rest[0] == bytes@[i as int]);
        if bytes[i] == BACKSLASH && bytes.len() - i >= 4 {
            assert(rest[1] == bytes@[i + 1] && rest[2] == bytes@[i + 2] && rest[3] == bytes@[i + 3]);
            if let Some(c) = read_octal(bytes[i + 1], bytes[i + 2], bytes[i + 3]) {
                out.push(c);
                assert(rest.skip(4) =~= all.skip(i + 4));
                assert(before + (seq![c] + unescaped(all.skip(i + 4))) =~= out@ + unescaped(
                    all.skip(i + 4),
                ));
                i = i + 4;
                continue ;
            }
        }
        out.push(bytes[i]);
        assert(rest.skip(1) =~= all.skip(i + 1));
        assert(before + (seq![rest[0]] + unescaped(all.skip(i + 1))) =~= out@ + unescaped(
            all.skip(i + 1),
        ));
        i = i + 1;
    }
    assert(out@ + Seq::<u8>::empty() =~= out@);
    out
}

/// The text of a mount table field: the bytes that it stands for, read as UTF-8,
/// as any other name of the file system is.
pub fn unescape_mount(s: &str) -> (r: String)
    ensures
        r@ == lossy_text(unescaped(encode_utf8(s@))),
{
    let bytes = unescape_bytes(s);
    utf8_lossy(bytes.as_slice())
}

/// The entry in a line of the mount table: five fields and more, a hyphen
/// between blanks, the type and the source; none if it has not that form.
pub open spec fn parsed_line(line: Seq<char>) -> Option<EntryModel> {
    match first_from(line, seq![' ', '-', ' '], 0) {
        None => None,
        Some(at) => {
            let left = split_on(line.take(at), ' ');
            let right = split_on(line.skip(at + 3), ' ');
            if left.len() < 5 {
                None
            } else {
                Some(
                    EntryModel {
                        target: unescaped(encode_utf8(left[4])),
                        source: if right.len() >= 2 {
                            lossy_text(unescaped(encode_utf8(right[1])))
                        } else {
                            Seq::empty()
                        },
                        fstype: right[0],
                        disk: None,
                        partition: None,
                        model: None,
                        physical: false,
                        used: 0,
                    },
                )
            }
        },
    }
}

/// A part of a list of characters.
fn part_of(s: &Vec<char>, from: usize, to: usize) -> (r: Vec<char>)
    requires
        from <= to <= s.len(),
    ensures
        r@ == s@.subrange(from as int, to as int),
{
    let mut out: Vec<char> = Vec::new();
    let mut i: usize = from;
    while i < to
        invariant
            from <= i <= to <= s.len(),
            out@ == s@.subrange(from as int, i as int),
        decreases to - i,
    {
        out.push(s[i]);
        assert(out@ =~= s@.subrange(from as int, i + 1));
        i = i + 1;
    }
    out
}

/// The text of a list of characters.
fn field_text(field: &Vec<char>) -> (r: String)
    ensures
        r@ == field@,
{
    assert(field@.subrange(0, field@.len() as int) =~= field@);
    string_of(field, 0, field.len())
}

/// The entry in a line of the mount table.
fn parse_mountinfo_line(line: &Vec<char>) -> (r: Option<MountEntry>)
    ensures
        match r {
            Some(e) => parsed_line(line@) == Some(e@),
            None => parsed_line(line@) is None,
        },
{
    let dash: Vec<char> = vec![' ', '-', ' '];
    assert(dash@ =~= seq![' ', '-', ' ']);
    assert(dash@.len() == 3);
    let at: usize = match find_chars(line, &dash) {
        Some(k) => k,
        None => {
            return None;
        },
    };
    let n: usize = line.len();
    assert(at + 3 <= n);
    let left_part = part_of(line, 0, at);
    assert(left_part@ =~= line@.take(at as int));
    let right_part = part_of(line, at + 3, n);
    assert(right_part@ =~= line@.skip(at + 3));
    let left = split_chars(&left_part, ' ');
    let right = split_chars(&right_part, ' ');
    let ghost lf = views(left@);
    let ghost rf = views(right@);
    if left.len() < 5 {
        return None;
    }
    assert(lf[4] == left@[4]@);
    assert(rf[0] == right@[0]@);
    let target = PathBuf { bytes: unescape_bytes(field_text(&left[4]).as_str()) };
    let fstype = field_text(&right[0]);
    let source = if right.len() >= 2 {
        assert(rf[1] == right@[1]@);
        unescape_mount(field_text(&right[1]).as_str())
    } else {
        String::new()
    };
    Some(
        MountEntry {
            target,
            source,
            fstype,
            disk: None,
            partition: None,
            model: None,
            physical: false,
            used: 0,
        },
    )
}

/// The entries in the first `n` lines.
pub open spec fn parsed_lines(lines: Seq<Seq<char>>, n: nat) -> Seq<EntryModel>
    decreases n,
{
    if n == 0 {
        Seq::empty()
    } else {
        let before = parsed_lines(lines, (n - 1) as nat);
        match parsed_line(lines[n - 1]) {
            Some(e) => before.push(e),
            None => before,
        }
    }
}

// ---------------------------------------------------------------------------
// Disks
// ---------------------------------------------------------------------------

/// The names under which a partition can be mounted.
pub open spec fn aliases(p: PartitionModel) -> Seq<Seq<char>> {
    match p.mapped_name {
        Some(m) => seq![p.name, m, "mapper/"@ + m],
        None => seq![p.name],
    }
}

/// Whether a source names the device `alias`.
pub open spec fn names_device(source: Seq<char>, alias: Seq<char>) -> bool {
    source == alias || finishes_with(source, "/"@ + alias) || source == "/dev/"@ + alias
}

/// The first mount of a list at this place.
pub open spec fn first_mount_at(mounts: Seq<MountModel>, target: Seq<u8>, k: int) -> Option<int>
    decreases mounts.len() - k,
{
    if k >= mounts.len() {
        None
    } else if same_path(mounts[k].path, target) {
        Some(k)
    } else {
        first_mount_at(mounts, target, k + 1)
    }
}

/// Whether an entry is a mount of the partition: it stands at the place of one
/// of the partition's mounts, or its source names the partition.
pub open spec fn belongs_to(target: Seq<u8>, device: Seq<char>, p: PartitionModel) -> bool {
    first_mount_at(p.mounts, target, 0) is Some || exists|k: int|
        0 <= k < aliases(p).len() && names_device(device, #[trigger] aliases(p)[k])
}

/// The first partition from `k` on that an entry is a mount of.
pub open spec fn first_owner(
    parts: Seq<PartitionModel>,
    target: Seq<u8>,
    device: Seq<char>,
    k: int,
) -> Option<int>
    decreases parts.len() - k,
{
    if k >= parts.len() {
        None
    } else if belongs_to(target, device, parts[k]) {
        Some(k)
    } else {
        first_owner(parts, target, device, k + 1)
    }
}

/// The first disk from `k` on with a partition that an entry is a mount of,
/// and the partition.
pub open spec fn owner_of(
    disks: Seq<DiskModel>,
    target: Seq<u8>,
    device: Seq<char>,
    k: int,
) -> Option<(int, int)>
    decreases disks.len() - k,
{
    if k >= disks.len() {
        None
    } else {
        match first_owner(disks[k].partitions, target, device, 0) {
            Some(j) => Some((k, j)),
            None => owner_of(disks, target, device, k + 1),
        }
    }
}

/// The bytes in use on the mount: those of the partition's mount at this
/// place, else those known before, else those of its first mount.
pub open spec fn used_on(e: EntryModel, p: PartitionModel) -> u64 {
    match first_mount_at(p.mounts, e.target, 0) {
        Some(k) => p.mounts[k].used,
        None => if e.used != 0 {
            e.used
        } else if p.mounts.len() > 0 {
            p.mounts[0].used
        } else {
            0
        },
    }
}

/// The entry with the disk and the partition that it is a mount of.
pub open spec fn attached(e: EntryModel, disks: Seq<DiskModel>) -> EntryModel {
    match owner_of(disks, e.target, up_to(e.source, '['), 0) {
        Some((i, j)) => EntryModel {
            disk: Some(disks[i].name),
            partition: Some(disks[i].partitions[j].name),
            model: Some(disks[i].model),
            physical: true,
            used: used_on(e, disks[i].partitions[j]),
            ..e
        },
        None => e,
    }
}

/// The first mount of a list at this place.
fn find_mount_at(mounts: &Vec<Mount>, target: &PathBuf) -> (r: Option<usize>)
    ensures
        match r {
            Some(k) => k < mounts@.len() && first_mount_at(views(mounts@), target@, 0) == Some(
                k as int,
            ),
            None => first_mount_at(views(mounts@), target@, 0) is None,
        },
{
    let ghost all = views(mounts@);
    let mut k: usize = 0;
    while k < mounts.len()
        invariant
            k <= mounts.len(),
            all == views(mounts@),
            first_mount_at(all, target@, 0) == first_mount_at(all, target@, k as int),
        decreases mounts.len() - k,
    {
        assert(all[k as int] == mounts@[k as int]@);
        if mounts[k].path.same_as(target) {
            return Some(k);
        }
        k = k + 1;
    }
    None
}

/// The names under which a partition can be mounted.
fn device_aliases(p: &Partition) -> (r: Vec<String>)
    ensures
        views(r@) == aliases(p@),
{
    let mut v: Vec<String> = Vec::new();
    v.push(p.name.clone());
    if let Some(m) = &p.mapped_name {
        v.push(m.clone());
        let mut mapper = "mapper/".to_string();
        mapper.append(m.as_str());
        v.push(mapper);
        assert(views(v@) =~= aliases(p@));
    } else {
        assert(views(v@) =~= aliases(p@));
    }
    v
}

/// Whether a source names the device `alias`.
fn names_alias(source: &str, alias: &str) -> (r: bool)
    ensures
        r == names_device(source@, alias@),
{
    let mut tail = "/".to_string();
    tail.append(alias);
    let mut full = "/dev/".to_string();
    full.append(alias);
    text_eq(source, alias) || text_finishes_with(source, tail.as_str()) || text_eq(
        source,
        full.as_str(),
    )
}

/// Whether an entry is a mount of the partition.
fn is_mount_of(target: &PathBuf, device: &str, p: &Partition) -> (r: bool)
    ensures
        r == belongs_to(target@, device@, p@),
{
    if find_mount_at(&p.mounts, target).is_some() {
        return true;
    }
    let names = device_aliases(p);
    let ghost all = views(names@);
    let mut k: usize = 0;
    while k < names.len()
        invariant
            k <= names.len(),
            all == views(names@),
            all == aliases(p@),
            first_mount_at(p@.mounts, target@, 0) is None,
            forall|j: int| 0 <= j < k ==> !names_device(device@, #[trigger] all[j]),
        decreases names.len() - k,
    {
        assert(all[k as int] == names@[k as int]@);
        if names_alias(device, names[k].as_str()) {
            return true;
        }
        k = k + 1;
    }
    false
}

/// The first partition that an entry is a mount of.
fn find_owner(parts: &Vec<Partition>, target: &PathBuf, device: &str) -> (r: Option<usize>)
    ensures
        match r {
            Some(k) => k < parts@.len() && first_owner(views(parts@), target@, device@, 0) == Some(
                k as int,
            ),
            None => first_owner(views(parts@), target@, device@, 0) is None,
        },
{
    let ghost all = views(parts@);
    let mut k: usize = 0;
    while k < parts.len()
        invariant
            k <= parts.len(),
            all == views(parts@),
            first_owner(all, target@, device@, 0) == first_owner(all, target@, device@, k as int),
        decreases parts.len() - k,
    {
        assert(all[k as int] == parts@[k as int]@);
        if is_mount_of(target, device, &parts[k]) {
            return Some(k);
        }
        k = k + 1;
    }
    None
}

/// The entry with the disk and the partition that it is a mount of.
fn attach_disk(entry: MountEntry, disks: &[Disk]) -> (r: MountEntry)
    ensures
        r@ == attached(entry@, views(disks@)),
{
    let ghost all = views(disks@);
    let ghost first = entry@;
    let device = normalize_source(entry.source.as_str());
    let mut e = entry;
    let mut k: usize = 0;
    while k < disks.len()
        invariant
            k <= disks.len(),
            all == views(disks@),
            first == entry@,
            first == e@,
            device@ == up_to(first.source, '['),
            owner_of(all, first.target, device@, 0) == owner_of(
                all,
                first.target,
                device@,
                k as int,
            ),
        decreases disks.len() - k,
    {
        let d = &disks[k];
        assert(all[k as int] == d@);
        if let Some(j) = find_owner(&d.partitions, &e.target, device.as_str()) {
            let p = &d.partitions[j];
            assert(d@.partitions[j as int] == p@);
            let used: u64 = match find_mount_at(&p.mounts, &e.target) {
                Some(i) => {
                    assert(p@.mounts[i as int] == p.mounts@[i as int]@);
                    p.mounts[i].used
                },
                None => if e.used != 0 {
                    e.used
                } else if p.mounts.len() > 0 {
                    assert(p@.mounts[0] == p.mounts@[0]@);
                    p.mounts[0].used
                } else {
                    0
                },
            };
            e.disk = Some(d.name.clone());
            e.partition = Some(p.name.clone());
            e.model = Some(d.model.clone());
            e.physical = true;
            e.used = used;
            assert(e@ =~= attached(first, all));
            return e;
        }
        k = k + 1;
    }
    e
}

// ---------------------------------------------------------------------------
// The table
// ---------------------------------------------------------------------------

/// The last of the first `n` entries at this place.
pub open spec fn last_at(entries: Seq<EntryModel>, path: Seq<u8>, n: nat) -> Option<int>
    decreases n,
{
    if n == 0 {
        None
    } else if same_path(entries[n - 1].target, path) {
        Some(n - 1)
    } else {
        last_at(entries, path, (n - 1) as nat)
    }
}

/// Whether there is a mount at this place.
pub open spec fn mounted_at(entries: Seq<EntryModel>, path: Seq<u8>) -> bool {
    exists|i: int| 0 <= i < entries.len() && same_path((#[trigger] entries[i]).target, path)
}

/// The last of the first `n` entries among those with the longest place above
/// `path`.
pub open spec fn longest_above(entries: Seq<EntryModel>, path: Seq<u8>, n: nat) -> Option<int>
    decreases n,
{
    if n == 0 {
        None
    } else {
        let best = longest_above(entries, path, (n - 1) as nat);
        if under(path, entries[n - 1].target) && (best is None
            || entries[best.unwrap()].target.len() <= entries[n - 1].target.len()) {
            Some(n - 1)
        } else {
            best
        }
    }
}

/// The entry of the file system that holds `path`: the last one mounted there,
/// else the one mounted at the longest place above it.
pub open spec fn identity_of(entries: Seq<EntryModel>, path: Seq<u8>) -> Option<int> {
    match last_at(entries, path, entries.len()) {
        Some(i) => Some(i),
        None => longest_above(entries, path, entries.len()),
    }
}

/// Whether a place lies strictly inside `scan_root`.
pub open spec fn inside(scan_root: Seq<u8>, target: Seq<u8>) -> bool {
    !same_path(target, scan_root) && under(target, scan_root)
}

/// The first `n` entries without those that are not strictly inside
/// `scan_root`.
pub open spec fn nested_in(entries: Seq<EntryModel>, scan_root: Seq<u8>, n: nat) -> Seq<EntryModel>
    decreases n,
{
    if n == 0 {
        Seq::empty()
    } else {
        let before = nested_in(entries, scan_root, (n - 1) as nat);
        if inside(scan_root, entries[n - 1].target) {
            before.push(entries[n - 1])
        } else {
            before
        }
    }
}

/// Whether `path` is a mount point strictly inside `scan_root`.
pub open spec fn nested_mount(entries: Seq<EntryModel>, scan_root: Seq<u8>, path: Seq<u8>) -> bool {
    inside(scan_root, path) && mounted_at(entries, path)
}

/// Whether `path` does not belong to the file system that is scanned from
/// `scan_root`: it is not below it, or it is at or below a mount strictly
/// inside it.
pub open spec fn foreign(entries: Seq<EntryModel>, scan_root: Seq<u8>, path: Seq<u8>) -> bool {
    ||| !under(path, scan_root)
    ||| exists|i: int|
        0 <= i < entries.len() && inside(scan_root, (#[trigger] entries[i]).target) && under(
            path,
            entries[i].target,
        )
}

/// The entry that is found at a place is the last one there.
pub proof fn lemma_last_at(entries: Seq<EntryModel>, path: Seq<u8>, n: nat)
    requires
        n <= entries.len(),
    ensures
        match last_at(entries, path, n) {
            Some(i) => 0 <= i < n && same_path(entries[i].target, path) && forall|j: int|
                i < j < n ==> !same_path((#[trigger] entries[j]).target, path),
            None => forall|j: int|
                0 <= j < n ==> !same_path((#[trigger] entries[j]).target, path),
        },
    decreases n,
{
    if n > 0 && !same_path(entries[n - 1].target, path) {
        lemma_last_at(entries, path, (n - 1) as nat);
    }
}

/// The entry with the longest place above a path lies above it.
pub proof fn lemma_longest_above(entries: Seq<EntryModel>, path: Seq<u8>, n: nat)
    requires
        n <= entries.len(),
    ensures
        match longest_above(entries, path, n) {
            Some(i) => 0 <= i < n && under(path, entries[i].target) && (forall|j: int|
                0 <= j < n && under(path, (#[trigger] entries[j]).target) ==> entries[j].target.len()
                    <= entries[i].target.len()) && (forall|j: int|
                i < j < n && under(path, (#[trigger] entries[j]).target) ==> entries[j].target.len()
                    < entries[i].target.len()),
            None => forall|j: int| 0 <= j < n ==> !under(path, (#[trigger] entries[j]).target),
        },
    decreases n,
{
    if n > 0 {
        lemma_longest_above(entries, path, (n - 1) as nat);
    }
}

/// The mounts that are visible to this process.
pub struct MountTable {
    entries: Vec<MountEntry>,
    by_target: PathIndex<usize>,
}

impl View for MountTable {
    type V = Seq<EntryModel>;

    closed spec fn view(&self) -> Seq<EntryModel> {
        views(self.entries@)
    }
}

/// Whether the index files the last of the first `n` entries at each place.
spec fn indexes(index: Map<Seq<Seq<u8>>, usize>, entries: Seq<EntryModel>, n: nat) -> bool {
    forall|path: Seq<u8>|
        match #[trigger] last_at(entries, path, n) {
            Some(i) => index.dom().contains(comps(path)) && index[comps(path)] == i,
            None => !index.dom().contains(comps(path)),
        }
}

/// A table without mounts.
impl Default for MountTable {
    fn default() -> (r: MountTable)
        ensures
            r@ == Seq::<EntryModel>::empty(),
    {
        let r = MountTable::of_entries(Vec::new());
        assert(r@ =~= Seq::<EntryModel>::empty());
        r
    }
}

impl Clone for MountTable {
    fn clone(&self) -> (r: Self)
        ensures
            r@ == self@,
    {
        let ghost all = self@;
        let mut entries: Vec<MountEntry> = Vec::new();
        let mut i: usize = 0;
        assert(views(entries@) =~= all.take(0));
        while i < self.entries.len()
            invariant
                i <= self.entries.len(),
                all == views(self.entries@),
                views(entries@) == all.take(i as int),
            decreases self.entries.len() - i,
        {
            let e = self.entries[i].clone();
            let ghost before = views(entries@);
            let ghost model = e@;
            assert(all[i as int] == model);
            entries.push(e);
            assert(views(entries@) =~= before.push(model));
            assert(all.take(i + 1) =~= all.take(i as int).push(all[i as int]));
            i = i + 1;
        }
        assert(all.take(all.len() as int) =~= all);
        MountTable::of_entries(entries)
    }
}

impl MountTable {
    #[verifier::type_invariant]
    spec fn consistent(self) -> bool {
        indexes(self.by_target@, views(self.entries@), self.entries@.len())
    }

    /// The table of these entries.
    fn of_entries(entries: Vec<MountEntry>) -> (r: MountTable)
        ensures
            r@ == views(entries@),
    {
        let ghost all = views(entries@);
        let mut by_target: PathIndex<usize> = PathIndex::new();
        let mut i: usize = 0;
        while i < entries.len()
            invariant
                i <= entries.len(),
                all == views(entries@),
                indexes(by_target@, all, i as nat),
            decreases entries.len() - i,
        {
            let ghost before = by_target@;
            by_target.insert(&entries[i].target, i);
            proof {
                let key = comps(all[i as int].target);
                assert(all[i as int] == entries@[i as int]@);
                assert forall|path: Seq<u8>|
                    match #[trigger] last_at(all, path, (i + 1) as nat) {
                        Some(k) => by_target@.dom().contains(comps(path)) && by_target@[comps(path)]
                            == k,
                        None => !by_target@.dom().contains(comps(path)),
                    } by {
                    assert(match last_at(all, path, i as nat) {
                        Some(k) => before.dom().contains(comps(path)) && before[comps(path)] == k,
                        None => !before.dom().contains(comps(path)),
                    });
                }
            }
            i = i + 1;
        }
        MountTable { entries, by_target }
    }

    /// Reads the mount table of a process and attaches the disks.
    pub fn from_mountinfo(text: &str, disks: &[Disk]) -> (r: MountTable)
        ensures
            r@ == table_of(text@, views(disks@)),
    {
        let lines = split_lines(text);
        let ghost all = views(lines@);
        let ghost ds = views(disks@);
        let mut entries: Vec<MountEntry> = Vec::new();
        let mut i: usize = 0;
        assert(views(entries@) =~= attached_all(parsed_lines(all, 0), ds));
        while i < lines.len()
            invariant
                i <= lines.len(),
                all == views(lines@),
                ds == views(disks@),
                views(entries@) == attached_all(parsed_lines(all, i as nat), ds),
            decreases lines.len() - i,
        {
            assert(all[i as int] == lines@[i as int]@);
            if let Some(e) = parse_mountinfo_line(&lines[i]) {
                let ghost parsed = e@;
                let ghost before = parsed_lines(all, i as nat);
                let ghost done = views(entries@);
                let e = attach_disk(e, disks);
                let ghost model = e@;
                entries.push(e);
                assert(views(entries@) =~= done.push(model));
                assert(attached_all(before.push(parsed), ds) =~= done.push(model));
            }
            i = i + 1;
        }
        MountTable::of_entries(entries)
    }

    /// The last entry that is mounted at `path`.
    pub fn get(&self, path: &PathBuf) -> (r: Option<&MountEntry>)
        ensures
            match r {
                Some(e) => last_at(self@, path@, self@.len()) matches Some(i) && e@ == self@[i],
                None => last_at(self@, path@, self@.len()) is None,
            },
    {
        proof {
            use_type_invariant(self);
            lemma_last_at(self@, path@, self@.len());
        }
        let ghost found = last_at(self@, path@, self@.len());
        match self.by_target.get(path) {
            Some(i) => {
                assert(found == Some(i as int));
                Some(&self.entries[i])
            },
            None => None,
        }
    }

    /// Whether something is mounted at `path`.
    pub fn is_mount_point(&self, path: &PathBuf) -> (r: bool)
        ensures
            r == mounted_at(self@, path@),
    {
        proof {
            use_type_invariant(self);
            lemma_last_at(self@, path@, self@.len());
        }
        let ghost found = last_at(self@, path@, self@.len());
        self.by_target.get(path).is_some()
    }

    /// The entry of the file system that holds `path`.
    pub fn identity(&self, path: &PathBuf) -> (r: Option<&MountEntry>)
        ensures
            match r {
                Some(e) => identity_of(self@, path@) matches Some(i) && e@ == self@[i],
                None => identity_of(self@, path@) is None,
            },
    {
        if let Some(e) = self.get(path) {
            return Some(e);
        }
        let ghost all = self@;
        let mut best: Option<usize> = None;
        let mut i: usize = 0;
        while i < self.entries.len()
            invariant
                i <= self.entries.len(),
                all == views(self.entries@),
                match best {
                    Some(b) => b < i && longest_above(all, path@, i as nat) == Some(b as int),
                    None => longest_above(all, path@, i as nat) is None,
                },
            decreases self.entries.len() - i,
        {
            assert(all[i as int] == self.entries@[i as int]@);
            if path.starts_with(&self.entries[i].target) {
                match best {
                    Some(b) => {
                        assert(all[b as int] == self.entries@[b as int]@);
                        if self.entries[b].target.bytes.len() <= self.entries[i].target.bytes.len() {
                            best = Some(i);
                        }
                    },
                    None => {
                        best = Some(i);
                    },
                }
            }
            i = i + 1;
        }
        match best {
            Some(b) => Some(&self.entries[b]),
            None => None,
        }
    }

    /// The mounts strictly inside `scan_root` (not `scan_root` itself).
    pub fn nested(&self, scan_root: &PathBuf) -> (r: Vec<&MountEntry>)
        ensures
            views(r@) == nested_in(self@, scan_root@, self@.len()),
    {
        let ghost all = self@;
        let mut out: Vec<&MountEntry> = Vec::new();
        let mut i: usize = 0;
        assert(views(out@) =~= Seq::<EntryModel>::empty());
        while i < self.entries.len()
            invariant
                i <= self.entries.len(),
                all == views(self.entries@),
                views(out@) == nested_in(all, scan_root@, i as nat),
            decreases self.entries.len() - i,
        {
            let e = &self.entries[i];
            assert(all[i as int] == e@);
            if is_nested_target(scan_root, &e.target) {
                let ghost before = views(out@);
                out.push(e);
                assert(views(out@) =~= before.push(e@));
            }
            i = i + 1;
        }
        out
    }

    /// Whether `path` is a mount point strictly inside `scan_root`.
    pub fn is_nested_mount(&self, scan_root: &PathBuf, path: &PathBuf) -> (r: bool)
        ensures
            r == nested_mount(self@, scan_root@, path@),
    {
        if path.same_as(scan_root) {
            return false;
        }
        self.is_mount_point(path) && path.starts_with(scan_root)
    }

    /// Whether `path` lives under a nested mount of `scan_root`, so that it
    /// belongs to another file system, or is not below it at all.
    pub fn is_foreign_path(&self, scan_root: &PathBuf, path: &PathBuf) -> (r: bool)
        ensures
            r == foreign(self@, scan_root@, path@),
    {
        if !path.starts_with(scan_root) {
            return true;
        }
        let ghost all = self@;
        let mut i: usize = 0;
        while i < self.entries.len()
            invariant
                i <= self.entries.len(),
                all == views(self.entries@),
                all == self@,
                under(path@, scan_root@),
                forall|j: int|
                    0 <= j < i ==> !(inside(scan_root@, (#[trigger] all[j]).target) && under(
                        path@,
                        all[j].target,
                    )),
            decreases self.entries.len() - i,
        {
            let e = &self.entries[i];
            assert(all[i as int] == e@);
            if is_nested_target(scan_root, &e.target) && path.starts_with(&e.target) {
                return true;
            }
            i = i + 1;
        }
        false
    }
}

/// Whether a place lies strictly inside `scan_root`.
fn is_nested_target(scan_root: &PathBuf, target: &PathBuf) -> (r: bool)
    ensures
        r == inside(scan_root@, target@),
{
    !target.same_as(scan_root) && target.starts_with(scan_root)
}

/// The entries with the disks that they are mounts of.
pub open spec fn attached_all(entries: Seq<EntryModel>, disks: Seq<DiskModel>) -> Seq<EntryModel> {
    Seq::new(entries.len(), |i: int| attached(entries[i], disks))
}

/// The table that a mount table text stands for.
pub open spec fn table_of(text: Seq<char>, disks: Seq<DiskModel>) -> Seq<EntryModel> {
    attached_all(parsed_lines(lines_of(text), lines_of(text).len()), disks)
}

/// What is nested in a scan's root is strictly inside it, never the root
/// itself, and all that is strictly inside it is there.
pub proof fn law_nested(entries: Seq<EntryModel>, scan_root: Seq<u8>, n: nat, e: EntryModel)
    requires
        n <= entries.len(),
    ensures
        nested_in(entries, scan_root, n).contains(e) <==> exists|i: int|
            0 <= i < n && #[trigger] entries[i] == e && inside(scan_root, e.target),
        same_path(e.target, scan_root) ==> !nested_in(entries, scan_root, n).contains(e),
    decreases n,
{
    if n > 0 {
        law_nested(entries, scan_root, (n - 1) as nat, e);
        let before = nested_in(entries, scan_root, (n - 1) as nat);
        let all = nested_in(entries, scan_root, n);
        if all.contains(e) {
            let k = choose|k: int| 0 <= k < all.len() && all[k] == e;
            if k < before.len() {
                assert(before[k] == e);
                assert(before.contains(e));
                let i = choose|i: int|
                    0 <= i < n - 1 && #[trigger] entries[i] == e && inside(scan_root, e.target);
                assert(0 <= i < n && entries[i] == e);
            } else {
                assert(entries[n - 1] == e);
            }
        }
        if exists|i: int|
            0 <= i < n && #[trigger] entries[i] == e && inside(scan_root, e.target) {
            let i = choose|i: int|
                0 <= i < n && #[trigger] entries[i] == e && inside(scan_root, e.target);
            if i < n - 1 {
                assert(0 <= i < n - 1 && entries[i] == e);
                assert(before.contains(e));
                let k = choose|k: int| 0 <= k < before.len() && before[k] == e;
                assert(all[k] == e);
            } else {
                assert(all[before.len() as int] == e);
            }
        }
    }
}

/// A mount point nested in a scan's root is foreign to the scan, and so is all
/// below it; the root itself is not a nested mount.
pub proof fn law_nested_is_foreign(
    entries: Seq<EntryModel>,
    scan_root: Seq<u8>,
    mount: Seq<u8>,
    path: Seq<u8>,
)
    requires
        nested_mount(entries, scan_root, mount),
        under(path, mount),
    ensures
        foreign(entries, scan_root, path),
        !nested_mount(entries, scan_root, scan_root),
{
    let i = choose|i: int| 0 <= i < entries.len() && same_path((#[trigger] entries[i]).target, mount);
    assert(comps(entries[i].target) == comps(mount));
    assert(inside(scan_root, entries[i].target));
    assert(under(path, entries[i].target));
}

/// What is not foreign to a scan is below its root, and at or below no mount
/// nested in it.
pub proof fn law_own_paths(
    entries: Seq<EntryModel>,
    scan_root: Seq<u8>,
    path: Seq<u8>,
    mount: Seq<u8>,
)
    requires
        !foreign(entries, scan_root, path),
    ensures
        under(path, scan_root),
        nested_mount(entries, scan_root, mount) ==> !under(path, mount),
{
    if nested_mount(entries, scan_root, mount) && under(path, mount) {
        law_nested_is_foreign(entries, scan_root, mount, path);
    }
}

/// The file system that holds a path is mounted at or above it; there is one
/// wherever anything is mounted at or above it. Without a mount at the path
/// itself it is one with the longest place.
pub proof fn law_identity(entries: Seq<EntryModel>, path: Seq<u8>, j: int)
    requires
        0 <= j < entries.len(),
        under(path, entries[j].target),
    ensures
        identity_of(entries, path) matches Some(i) && 0 <= i < entries.len() && under(
            path,
            entries[i].target,
        ) && (mounted_at(entries, path) ==> same_path(entries[i].target, path)) && (!mounted_at(
            entries,
            path,
        ) ==> entries[j].target.len() <= entries[i].target.len()),
{
    lemma_last_at(entries, path, entries.len());
    lemma_longest_above(entries, path, entries.len());
    match last_at(entries, path, entries.len()) {
        Some(i) => {
            assert(comps(entries[i].target) == comps(path));
            assert(comps(path).subrange(0, comps(path).len() as int) =~= comps(path));
            assert(mounted_at(entries, path));
        },
        None => {
            assert(!mounted_at(entries, path));
        },
    }
}

} // verus!
