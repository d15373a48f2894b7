//! What the mount table says, said of its lines and of the disks alone.

use crate::discover::{DiskModel, PartitionModel};
use crate::mounts::{
    aliases, attached, attached_all, belongs_to, first_mount_at, first_owner, foreign, inside,
    names_device, nested_mount, owner_of, parsed_line, parsed_lines, table_of, EntryModel,
};
use crate::path::{comps, lossy_text, under};
use crate::text::{finishes_with, first_from, lines_of, split_on, up_to};
use crate::update_laws::own_path;
use vstd::prelude::*;
use vstd::utf8::*;

verus! {

/// A path is a nested mount where it lies below the root, is not the root, and
/// something is mounted there.
pub proof fn law_nested_mount(entries: Seq<EntryModel>, root: Seq<u8>, path: Seq<u8>)
    ensures
        nested_mount(entries, root, path) <==> under(path, root) && comps(path) != comps(root)
            && exists|i: int|
            0 <= i < entries.len() && comps((#[trigger] entries[i]).target) == comps(path),
        inside(root, path) <==> under(path, root) && comps(path) != comps(root),
{
}

/// A path is foreign just where it does not belong to the file system of the
/// root.
pub proof fn law_foreign(entries: Seq<EntryModel>, root: Seq<u8>, path: Seq<u8>)
    ensures
        foreign(entries, root, path) <==> !own_path(entries, root, path),
{
}

// ---------------------------------------------------------------------------
// Disks
// ---------------------------------------------------------------------------

/// Whether a source names a device: it is the name, or ends in it behind a
/// slash.
pub open spec fn source_names(source: Seq<char>, name: Seq<char>) -> bool {
    source == name || finishes_with(source, "/"@ + name)
}

/// Whether an entry of the mount table is a mount of a partition: the partition
/// has a mount at its place, or its source, up to a bracket, names the partition
/// or what it is mapped to.
pub open spec fn mount_of(e: EntryModel, p: PartitionModel) -> bool {
    let device = up_to(e.source, '[');
    ||| exists|k: int| 0 <= k < p.mounts.len() && comps((#[trigger] p.mounts[k]).path) == comps(
        e.target,
    )
    ||| source_names(device, p.name)
    ||| p.mapped_name matches Some(n) && (source_names(device, n) || source_names(
        device,
        "mapper/"@ + n,
    ))
}

proof fn lemma_first_mount(p: PartitionModel, target: Seq<u8>, k: int)
    requires
        0 <= k,
    ensures
        first_mount_at(p.mounts, target, k) matches Some(i) ==> k <= i < p.mounts.len() && comps(
            p.mounts[i].path,
        ) == comps(target) && forall|j: int|
            k <= j < i ==> comps((#[trigger] p.mounts[j]).path) != comps(target),
        first_mount_at(p.mounts, target, k) is None ==> forall|j: int|
            k <= j < p.mounts.len() ==> comps((#[trigger] p.mounts[j]).path) != comps(target),
    decreases p.mounts.len() - k,
{
    if k < p.mounts.len() {
        lemma_first_mount(p, target, k + 1);
    }
}

proof fn lemma_dev_prefix(source: Seq<char>, name: Seq<char>)
    ensures
        names_device(source, name) <==> source_names(source, name),
{
    reveal_strlit("/dev/");
    reveal_strlit("/");
    if source == "/dev/"@ + name {
        let tail = "/"@ + name;
        assert(source.len() == 5 + name.len());
        assert forall|i: int| 0 <= i < tail.len() implies #[trigger] tail[i] == source[source.len()
            - tail.len() + i] by {}
        assert(source.subrange(source.len() - tail.len(), source.len() as int) =~= tail);
        assert(finishes_with(source, tail));
    }
}

proof fn lemma_belongs(e: EntryModel, p: PartitionModel)
    ensures
        belongs_to(e.target, up_to(e.source, '['), p) <==> mount_of(e, p),
{
    let device = up_to(e.source, '[');
    lemma_first_mount(p, e.target, 0);
    lemma_dev_prefix(device, p.name);
    let a = aliases(p);
    assert(a[0] == p.name);
    if p.mapped_name is Some {
        let n = p.mapped_name.unwrap();
        lemma_dev_prefix(device, n);
        lemma_dev_prefix(device, "mapper/"@ + n);
        assert(a[1] == n);
        assert(a[2] == "mapper/"@ + n);
    }
    if mount_of(e, p) && first_mount_at(p.mounts, e.target, 0) is None {
        if source_names(device, p.name) {
            assert(names_device(device, a[0]));
        } else {
            assert(names_device(device, a[1]) || names_device(device, a[2]));
        }
    }
}

proof fn lemma_first_owner(e: EntryModel, parts: Seq<PartitionModel>, k: int)
    requires
        0 <= k,
    ensures
        ({
            let r = first_owner(parts, e.target, up_to(e.source, '['), k);
            &&& r matches Some(j) ==> k <= j < parts.len() && mount_of(e, parts[j]) && forall|i: int|
                k <= i < j ==> !mount_of(e, #[trigger] parts[i])
            &&& r is None ==> forall|i: int| k <= i < parts.len() ==> !mount_of(
                e,
                #[trigger] parts[i],
            )
        }),
    decreases parts.len() - k,
{
    if k < parts.len() {
        lemma_belongs(e, parts[k]);
        lemma_first_owner(e, parts, k + 1);
    }
}

/// Whether a partition of a disk is the first one that an entry is a mount of.
pub open spec fn owns(disks: Seq<DiskModel>, e: EntryModel, d: int, p: int) -> bool {
    &&& 0 <= d < disks.len()
    &&& 0 <= p < disks[d].partitions.len()
    &&& mount_of(e, disks[d].partitions[p])
    &&& forall|j: int| 0 <= j < p ==> !mount_of(e, #[trigger] disks[d].partitions[j])
    &&& forall|i: int, j: int|
        0 <= i < d && 0 <= j < disks[i].partitions.len() ==> !mount_of(
            e,
            #[trigger] disks[i].partitions[j],
        )
}

proof fn lemma_owner(e: EntryModel, disks: Seq<DiskModel>, k: int)
    requires
        0 <= k,
    ensures
        ({
            let r = owner_of(disks, e.target, up_to(e.source, '['), k);
            &&& r matches Some((d, p)) ==> k <= d < disks.len() && 0 <= p
                < disks[d].partitions.len() && mount_of(e, disks[d].partitions[p]) && (forall|j: int|
                0 <= j < p ==> !mount_of(e, #[trigger] disks[d].partitions[j])) && (forall|
                i: int,
                j: int,
            |
                k <= i < d && 0 <= j < disks[i].partitions.len() ==> !mount_of(
                    e,
                    #[trigger] disks[i].partitions[j],
                ))
            &&& r is None ==> forall|i: int, j: int|
                k <= i < disks.len() && 0 <= j < disks[i].partitions.len() ==> !mount_of(
                    e,
                    #[trigger] disks[i].partitions[j],
                )
        }),
    decreases disks.len() - k,
{
    if k < disks.len() {
        lemma_first_owner(e, disks[k].partitions, 0);
        lemma_owner(e, disks, k + 1);
    }
}

/// An entry keeps its place, its source and its type. It is physical where it is
/// a mount of a partition of a disk; then it says of which one, the first there
/// is, and how much is in use at its place. Where the partition lists no mount at
/// its place, it keeps what it says itself, or says what the first mount does.
pub proof fn law_attached(e: EntryModel, disks: Seq<DiskModel>)
    ensures
        ({
            let r = attached(e, disks);
            &&& r.target == e.target && r.source == e.source && r.fstype == e.fstype
            &&& (forall|d: int, p: int| !#[trigger] owns(disks, e, d, p)) ==> r == e
            &&& forall|d: int, p: int| #[trigger]
                owns(disks, e, d, p) ==> {
                    let part = disks[d].partitions[p];
                    &&& r.physical
                    &&& r.disk == Some(disks[d].name)
                    &&& r.partition == Some(part.name)
                    &&& r.model == Some(disks[d].model)
                    &&& forall|k: int|
                        0 <= k < part.mounts.len() && comps((#[trigger] part.mounts[k]).path)
                            == comps(e.target) && (forall|j: int|
                            0 <= j < k ==> comps((#[trigger] part.mounts[j]).path) != comps(
                                e.target,
                            )) ==> r.used == part.mounts[k].used
                    &&& (forall|k: int|
                        0 <= k < part.mounts.len() ==> comps((#[trigger] part.mounts[k]).path)
                            != comps(e.target)) ==> {
                        &&& e.used > 0 ==> r.used == e.used
                        &&& e.used == 0 && part.mounts.len() > 0 ==> r.used == part.mounts[0].used
                        &&& e.used == 0 && part.mounts.len() == 0 ==> r.used == 0
                    }
                }
        }),
{
    let r = attached(e, disks);
    lemma_owner(e, disks, 0);
    let o = owner_of(disks, e.target, up_to(e.source, '['), 0);
    if o is Some {
        let (x, y) = o.unwrap();
        assert(owns(disks, e, x, y));
        lemma_first_mount(disks[x].partitions[y], e.target, 0);
    }
    assert forall|d: int, p: int| #[trigger] owns(disks, e, d, p) implies {
        let part = disks[d].partitions[p];
        &&& r.physical
        &&& r.disk == Some(disks[d].name)
        &&& r.partition == Some(part.name)
        &&& r.model == Some(disks[d].model)
        &&& forall|k: int|
            0 <= k < part.mounts.len() && comps((#[trigger] part.mounts[k]).path) == comps(e.target)
                && (forall|j: int|
                0 <= j < k ==> comps((#[trigger] part.mounts[j]).path) != comps(e.target))
                ==> r.used == part.mounts[k].used
        &&& (forall|k: int|
            0 <= k < part.mounts.len() ==> comps((#[trigger] part.mounts[k]).path) != comps(
                e.target,
            )) ==> {
            &&& e.used > 0 ==> r.used == e.used
            &&& e.used == 0 && part.mounts.len() > 0 ==> r.used == part.mounts[0].used
            &&& e.used == 0 && part.mounts.len() == 0 ==> r.used == 0
        }
    } by {
        assert(mount_of(e, disks[d].partitions[p]));
        let (x, y) = o.unwrap();
        assert(mount_of(e, disks[x].partitions[y]));
        assert(x == d && y == p);
        let part = disks[d].partitions[p];
        lemma_first_mount(part, e.target, 0);
        assert forall|k: int|
            0 <= k < part.mounts.len() && comps((#[trigger] part.mounts[k]).path) == comps(e.target)
                && (forall|j: int|
                0 <= j < k ==> comps((#[trigger] part.mounts[j]).path) != comps(e.target)) implies
            r.used == part.mounts[k].used by {
            let i = first_mount_at(part.mounts, e.target, 0).unwrap();
            assert(comps(part.mounts[i].path) == comps(e.target));
        }
    }
}

// ---------------------------------------------------------------------------
// Lines
// ---------------------------------------------------------------------------

proof fn lemma_parsed_lines(lines: Seq<Seq<char>>, n: nat, e: EntryModel)
    requires
        n <= lines.len(),
    ensures
        parsed_lines(lines, n).contains(e) <==> exists|i: int|
            0 <= i < n && parsed_line(#[trigger] lines[i]) == Some(e),
    decreases n,
{
    if n > 0 {
        let before = parsed_lines(lines, (n - 1) as nat);
        let all = parsed_lines(lines, n);
        lemma_parsed_lines(lines, (n - 1) as nat, e);
        if before.contains(e) {
            let i = choose|i: int| 0 <= i < before.len() && before[i] == e;
            assert(all[i] == e);
        }
        if all.contains(e) {
            let i = choose|i: int| 0 <= i < all.len() && all[i] == e;
            if i < before.len() {
                assert(before[i] == e);
            } else {
                assert(parsed_line(lines[n - 1]) == Some(e));
            }
        }
        if parsed_line(lines[n - 1]) == Some(e) {
            assert(all[before.len() as int] == e);
        }
    }
}

/// The table has an entry for each line that has the form of one, with the disk
/// that it is of, and no other.
pub proof fn law_table(text: Seq<char>, disks: Seq<DiskModel>, e: EntryModel)
    ensures
        (exists|i: int|
            0 <= i < lines_of(text).len() && parsed_line(#[trigger] lines_of(text)[i]) == Some(e))
            ==> table_of(text, disks).contains(attached(e, disks)),
        table_of(text, disks).contains(e) ==> exists|i: int|
            0 <= i < lines_of(text).len() && (parsed_line(
                #[trigger] lines_of(text)[i],
            ) matches Some(x) && e == attached(x, disks)),
{
    let lines = lines_of(text);
    let raw = parsed_lines(lines, lines.len());
    let all = attached_all(raw, disks);
    lemma_parsed_lines(lines, lines.len(), e);
    if raw.contains(e) {
        let i = choose|i: int| 0 <= i < raw.len() && raw[i] == e;
        assert(all[i] == attached(e, disks));
    }
    if all.contains(e) {
        let i = choose|i: int| 0 <= i < all.len() && all[i] == e;
        let x = raw[i];
        lemma_parsed_lines(lines, lines.len(), x);
        assert(raw.contains(x));
        let k = choose|k: int| 0 <= k < lines.len() && parsed_line(#[trigger] lines[k]) == Some(x);
        assert(parsed_line(lines[k]) == Some(x));
    }
}

/// A line has the form of an entry where a hyphen between blanks stands in it
/// with five fields before it. The fifth field is the place; the first one behind
/// the hyphen is the type and the second one the source. Nothing is known yet of
/// the disk.
pub proof fn law_line(line: Seq<char>, at: int)
    requires
        first_from(line, seq![' ', '-', ' '], 0) == Some(at),
    ensures
        ({
            let left = split_on(line.take(at), ' ');
            let right = split_on(line.skip(at + 3), ' ');
            &&& parsed_line(line) is Some <==> left.len() >= 5
            &&& parsed_line(line) matches Some(e) ==> {
                &&& e.target == crate::mounts::unescaped(encode_utf8(left[4]))
                &&& e.fstype == right[0]
                &&& right.len() >= 2 ==> e.source == lossy_text(
                    crate::mounts::unescaped(encode_utf8(right[1])),
                )
                &&& right.len() < 2 ==> e.source.len() == 0
                &&& e.disk is None && e.partition is None && e.model is None
                &&& !e.physical && e.used == 0
            }
        }),
{
}

} // verus!
