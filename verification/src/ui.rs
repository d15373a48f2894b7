//! What the user has selected, opened and zoomed into, and how clicks change it.

use crate::path::{base_name, lossy_text, parent_path, under, utf8_lossy, PathBuf};
use crate::snapshot::{text_of, DiskView, DiskViewModel, Kind, KindModel, SnapshotSource};
use crate::sort::views;
use crate::text::{
    begins_with, contains_seq, contains_text, decimal, text_begins_with, text_eq, to_decimal, trim,
    trimmed,
};
use vstd::prelude::*;
use vstd::string::*;
use vstd::utf8::*;

verus! {

// ---------------------------------------------------------------------------
// Hits
// ---------------------------------------------------------------------------

/// A tile that the pointer is on, or that was clicked.
#[derive(Debug)]
pub struct Hit {
    pub disk: String,
    pub partition: String,
    pub mount: String,
    pub path: String,
    pub name: String,
    pub size: u64,
    pub kind: Kind,
}

/// The value of a [`Hit`].
#[verifier::ext_equal]
pub struct HitModel {
    pub disk: Seq<char>,
    pub partition: Seq<char>,
    pub mount: Seq<char>,
    pub path: Seq<char>,
    pub name: Seq<char>,
    pub size: u64,
    pub kind: KindModel,
}

impl View for Hit {
    type V = HitModel;

    open spec fn view(&self) -> HitModel {
        HitModel {
            disk: self.disk@,
            partition: self.partition@,
            mount: self.mount@,
            path: self.path@,
            name: self.name@,
            size: self.size,
            kind: self.kind@,
        }
    }
}

impl Clone for Hit {
    fn clone(&self) -> (r: Self)
        ensures
            r@ == self@,
    {
        Hit {
            disk: self.disk.clone(),
            partition: self.partition.clone(),
            mount: self.mount.clone(),
            path: self.path.clone(),
            name: self.name.clone(),
            size: self.size,
            kind: self.kind.clone(),
        }
    }
}

/// The value of an optional hit.
pub open spec fn hit_of(h: Option<Hit>) -> Option<HitModel> {
    match h {
        Some(x) => Some(x@),
        None => None,
    }
}

/// A copy of an optional hit.
fn copy_hit(h: &Option<Hit>) -> (r: Option<Hit>)
    ensures
        hit_of(r) == hit_of(*h),
{
    match h {
        Some(x) => Some(x.clone()),
        None => None,
    }
}

/// What happened on the row of a disk.
#[derive(Debug)]
pub struct RowResponse {
    pub hover: Option<Hit>,
    pub clicked: Option<Hit>,
    pub shift_clicked: Option<Hit>,
    pub double_clicked: Option<Hit>,
    pub gutter_clicked: bool,
}

/// The value of a [`RowResponse`].
#[verifier::ext_equal]
pub struct RowModel {
    pub hover: Option<HitModel>,
    pub clicked: Option<HitModel>,
    pub shift_clicked: Option<HitModel>,
    pub double_clicked: Option<HitModel>,
    pub gutter_clicked: bool,
}

impl View for RowResponse {
    type V = RowModel;

    open spec fn view(&self) -> RowModel {
        RowModel {
            hover: hit_of(self.hover),
            clicked: hit_of(self.clicked),
            shift_clicked: hit_of(self.shift_clicked),
            double_clicked: hit_of(self.double_clicked),
            gutter_clicked: self.gutter_clicked,
        }
    }
}

/// What happened on a row, given what the pointer did and where it is.
pub open spec fn row_of(
    double: bool,
    single: bool,
    on_gutter: bool,
    shift: bool,
    hover: Option<HitModel>,
) -> RowModel {
    let plain = single && !double && !on_gutter;
    RowModel {
        hover,
        clicked: if plain && !shift {
            hover
        } else {
            None
        },
        shift_clicked: if plain && shift {
            hover
        } else {
            None
        },
        double_clicked: if double && !on_gutter {
            hover
        } else {
            None
        },
        gutter_clicked: (double || single) && on_gutter,
    }
}

/// What happened on a row. A double click is no single one; a click on the
/// gutter is no click on a tile.
pub fn row_response(
    double: bool,
    single: bool,
    on_gutter: bool,
    shift: bool,
    hover: Option<Hit>,
) -> (r: RowResponse)
    ensures
        r@ == row_of(double, single, on_gutter, shift, hit_of(hover)),
{
    let mut clicked: Option<Hit> = None;
    let mut shift_clicked: Option<Hit> = None;
    let mut double_clicked: Option<Hit> = None;
    let mut gutter_clicked = false;
    if double {
        if on_gutter {
            gutter_clicked = true;
        } else {
            double_clicked = copy_hit(&hover);
        }
    } else if single {
        if on_gutter {
            gutter_clicked = true;
        } else if shift {
            shift_clicked = copy_hit(&hover);
        } else {
            clicked = copy_hit(&hover);
        }
    }
    RowResponse { hover, clicked, shift_clicked, double_clicked, gutter_clicked }
}

// ---------------------------------------------------------------------------
// State
// ---------------------------------------------------------------------------

/// What the user asks of the scanner.
#[derive(Debug)]
pub enum Command {
    Rescan(Option<String>),
    Expand(String),
}

/// The value of a [`Command`].
#[verifier::ext_equal]
pub enum CommandModel {
    Rescan(Option<Seq<char>>),
    Expand(Seq<char>),
}

impl View for Command {
    type V = CommandModel;

    open spec fn view(&self) -> CommandModel {
        match self {
            Command::Rescan(m) => CommandModel::Rescan(text_of(*m)),
            Command::Expand(p) => CommandModel::Expand(p@),
        }
    }
}

/// The folder that each mount is zoomed into.
pub struct ZoomMap {
    pub entries: Vec<(String, String)>,
}

impl View for ZoomMap {
    type V = Seq<(Seq<char>, Seq<char>)>;

    open spec fn view(&self) -> Seq<(Seq<char>, Seq<char>)> {
        Seq::new(self.entries@.len(), |i: int| (self.entries@[i].0@, self.entries@[i].1@))
    }
}

/// The place of a mount among the first `n` entries.
pub open spec fn zoom_place(
    z: Seq<(Seq<char>, Seq<char>)>,
    mount: Seq<char>,
    n: nat,
) -> Option<int>
    decreases n,
{
    if n == 0 {
        None
    } else if z[n - 1].0 == mount {
        Some(n - 1)
    } else {
        zoom_place(z, mount, (n - 1) as nat)
    }
}

/// The folder that a mount is zoomed into.
pub open spec fn zoom_of(z: Seq<(Seq<char>, Seq<char>)>, mount: Seq<char>) -> Option<Seq<char>> {
    match zoom_place(z, mount, z.len()) {
        Some(i) => Some(z[i].1),
        None => None,
    }
}

/// The zoom with a mount zoomed into `path`.
pub open spec fn with_zoom(
    z: Seq<(Seq<char>, Seq<char>)>,
    mount: Seq<char>,
    path: Seq<char>,
) -> Seq<(Seq<char>, Seq<char>)> {
    match zoom_place(z, mount, z.len()) {
        Some(i) => z.update(i, (z[i].0, path)),
        None => z.push((mount, path)),
    }
}

/// The zoom with a mount not zoomed into.
pub open spec fn without_zoom(
    z: Seq<(Seq<char>, Seq<char>)>,
    mount: Seq<char>,
) -> Seq<(Seq<char>, Seq<char>)> {
    match zoom_place(z, mount, z.len()) {
        Some(i) => z.remove(i),
        None => z,
    }
}

/// Whether no mount is zoomed into twice.
pub open spec fn zoom_once(z: Seq<(Seq<char>, Seq<char>)>) -> bool {
    forall|i: int, j: int| 0 <= i < j < z.len() ==> (#[trigger] z[i]).0 != (#[trigger] z[j]).0
}

proof fn lemma_zoom_place(z: Seq<(Seq<char>, Seq<char>)>, mount: Seq<char>, n: nat)
    requires
        n <= z.len(),
    ensures
        match zoom_place(z, mount, n) {
            Some(i) => 0 <= i < n && z[i].0 == mount,
            None => forall|i: int| 0 <= i < n ==> (#[trigger] z[i]).0 != mount,
        },
    decreases n,
{
    if n > 0 && z[n - 1].0 != mount {
        lemma_zoom_place(z, mount, (n - 1) as nat);
    }
}

/// A mount that is zoomed into is found there, and every other one as before.
/// No mount comes twice.
pub proof fn law_zoomed(
    z: Seq<(Seq<char>, Seq<char>)>,
    mount: Seq<char>,
    path: Seq<char>,
    other: Seq<char>,
)
    requires
        zoom_once(z),
    ensures
        zoom_once(with_zoom(z, mount, path)),
        zoom_of(with_zoom(z, mount, path), mount) == Some(path),
        other != mount ==> zoom_of(with_zoom(z, mount, path), other) == zoom_of(z, other),
{
    let t = with_zoom(z, mount, path);
    lemma_zoom_place(z, mount, z.len());
    lemma_zoom_place(t, mount, t.len());
    lemma_zoom_place(z, other, z.len());
    lemma_zoom_place(t, other, t.len());
    assert forall|i: int| 0 <= i < z.len() implies (#[trigger] t[i]).0 == z[i].0 by {}
    match zoom_place(z, mount, z.len()) {
        Some(i) => {
            assert(t[i] == (mount, path));
        },
        None => {
            assert(t[z.len() as int] == (mount, path));
        },
    }
    if other != mount {
        if let Some(i) = zoom_place(z, other, z.len()) {
            assert(t[i] == z[i]);
        }
    }
}

/// A mount that is zoomed out of is not found, and every other one as before.
/// No mount comes twice.
pub proof fn law_unzoomed(z: Seq<(Seq<char>, Seq<char>)>, mount: Seq<char>, other: Seq<char>)
    requires
        zoom_once(z),
    ensures
        zoom_once(without_zoom(z, mount)),
        zoom_of(without_zoom(z, mount), mount) is None,
        other != mount ==> zoom_of(without_zoom(z, mount), other) == zoom_of(z, other),
{
    let t = without_zoom(z, mount);
    lemma_zoom_place(z, mount, z.len());
    lemma_zoom_place(t, mount, t.len());
    lemma_zoom_place(z, other, z.len());
    lemma_zoom_place(t, other, t.len());
    if let Some(k) = zoom_place(z, mount, z.len()) {
        assert forall|i: int| 0 <= i < t.len() implies #[trigger] t[i] == z[if i < k {
            i
        } else {
            i + 1
        }] by {}
        if other != mount {
            if let Some(i) = zoom_place(z, other, z.len()) {
                let j = if i < k {
                    i
                } else {
                    i - 1
                };
                assert(t[j] == z[i]);
            }
        }
    }
}

impl ZoomMap {
    /// No mount is zoomed into.
    pub fn new() -> (r: ZoomMap)
        ensures
            r@ == Seq::<(Seq<char>, Seq<char>)>::empty(),
    {
        let r = ZoomMap { entries: Vec::new() };
        assert(r@ =~= Seq::<(Seq<char>, Seq<char>)>::empty());
        r
    }

    /// The place of a mount.
    fn find(&self, mount: &str) -> (r: Option<usize>)
        ensures
            match r {
                Some(i) => i < self@.len() && zoom_place(self@, mount@, self@.len()) == Some(
                    i as int,
                ),
                None => zoom_place(self@, mount@, self@.len()) is None,
            },
    {
        let ghost all = self@;
        let mut n: usize = self.entries.len();
        while n > 0
            invariant
                n <= self.entries@.len(),
                all == self@,
                zoom_place(all, mount@, all.len()) == zoom_place(all, mount@, n as nat),
            decreases n,
        {
            assert(all[n - 1] == (self.entries@[n - 1].0@, self.entries@[n - 1].1@));
            if text_eq(self.entries[n - 1].0.as_str(), mount) {
                return Some(n - 1);
            }
            n = n - 1;
        }
        None
    }

    /// The folder that a mount is zoomed into.
    pub fn get(&self, mount: &str) -> (r: Option<&String>)
        ensures
            match r {
                Some(p) => zoom_of(self@, mount@) == Some(p@),
                None => zoom_of(self@, mount@) is None,
            },
    {
        match self.find(mount) {
            Some(i) => Some(&self.entries[i].1),
            None => None,
        }
    }

    /// Zooms a mount into a folder.
    pub fn insert(&mut self, mount: String, path: String)
        ensures
            final(self)@ == with_zoom(old(self)@, mount@, path@),
            zoom_once(old(self)@) ==> zoom_once(final(self)@),
    {
        proof {
            if zoom_once(self@) {
                law_zoomed(self@, mount@, path@, mount@);
            }
        }
        let ghost before = self@;
        let ghost k = mount@;
        let ghost v = path@;
        match self.find(mount.as_str()) {
            Some(i) => {
                self.entries[i].1 = path;
                assert(self@ =~= before.update(i as int, (before[i as int].0, v)));
            },
            None => {
                self.entries.push((mount, path));
                assert(self@ =~= before.push((k, v)));
            },
        }
    }

    /// Zooms out of a mount. The result says whether it was zoomed into.
    pub fn remove(&mut self, mount: &str) -> (r: bool)
        ensures
            final(self)@ == without_zoom(old(self)@, mount@),
            r == (zoom_of(old(self)@, mount@) is Some),
            zoom_once(old(self)@) ==> zoom_once(final(self)@),
    {
        proof {
            if zoom_once(self@) {
                law_unzoomed(self@, mount@, mount@);
            }
        }
        let ghost before = self@;
        match self.find(mount) {
            Some(i) => {
                self.entries.remove(i);
                assert(self@ =~= before.remove(i as int));
                true
            },
            None => false,
        }
    }

    /// The folders that are zoomed into.
    pub fn paths(&self) -> (r: Vec<String>)
        ensures
            views(r@) == Seq::new(self@.len(), |i: int| self@[i].1),
    {
        let ghost target = Seq::new(self@.len(), |i: int| self@[i].1);
        let mut out: Vec<String> = Vec::new();
        let mut i: usize = 0;
        assert(views(out@) =~= target.take(0));
        while i < self.entries.len()
            invariant
                i <= self.entries@.len(),
                target == Seq::new(self@.len(), |i: int| self@[i].1),
                views(out@) == target.take(i as int),
            decreases self.entries.len() - i,
        {
            let ghost before = views(out@);
            out.push(self.entries[i].1.clone());
            assert(views(out@) =~= before.push(self.entries@[i as int].1@));
            assert(target.take(i + 1) =~= target.take(i as int).push(target[i as int]));
            i = i + 1;
        }
        assert(target.take(target.len() as int) =~= target);
        out
    }
}

/// The state of the window.
pub struct SpacemapApp {
    pub hover: Option<Hit>,
    pub selected: Option<Hit>,
    pub expanded_disk: Option<String>,
    pub zoom: ZoomMap,
    /// The folders that are opened in place, each once.
    pub open: Vec<String>,
    pub scroll_focus: bool,
    pub status: String,
}

/// The value of a [`SpacemapApp`].
#[verifier::ext_equal]
pub struct AppModel {
    pub hover: Option<HitModel>,
    pub selected: Option<HitModel>,
    pub expanded_disk: Option<Seq<char>>,
    pub zoom: Seq<(Seq<char>, Seq<char>)>,
    pub open: Seq<Seq<char>>,
    pub scroll_focus: bool,
    pub status: Seq<char>,
}

impl View for SpacemapApp {
    type V = AppModel;

    open spec fn view(&self) -> AppModel {
        AppModel {
            hover: hit_of(self.hover),
            selected: hit_of(self.selected),
            expanded_disk: text_of(self.expanded_disk),
            zoom: self.zoom@,
            open: views(self.open@),
            scroll_focus: self.scroll_focus,
            status: self.status@,
        }
    }
}

/// Whether a text names no place in the file system.
pub open spec fn no_place(path: Seq<char>) -> bool {
    contains_seq(path, "::"@)
}

/// Whether a tile stands for a folder: a directory with a place on a mount.
pub open spec fn is_folder_hit(h: HitModel) -> bool {
    h.kind is Directory && !no_place(h.path) && h.mount.len() > 0
}

/// Whether a tile stands for a folder: a directory with a place on a mount.
fn is_folder(h: &Hit) -> (r: bool)
    ensures
        r == is_folder_hit(h@),
{
    let directory = match h.kind {
        Kind::Directory => true,
        _ => false,
    };
    directory && !contains_text(h.path.as_str(), "::") && h.mount.as_str().unicode_len() > 0
}

/// The name of the last component of a path, or the whole text.
pub open spec fn short_name(path: Seq<char>) -> Seq<char> {
    match base_name(encode_utf8(path)) {
        Some(name) => lossy_text(name),
        None => path,
    }
}

/// The name of the last component of a path, or the whole text.
fn name_of(path: &str) -> (r: String)
    ensures
        r@ == short_name(path@),
{
    match PathBuf::from(path).file_name() {
        Some(name) => utf8_lossy(name.as_slice()),
        None => path.to_string(),
    }
}

/// The list with a text behind it, unless it is there.
pub open spec fn with_text(s: Seq<Seq<char>>, x: Seq<char>) -> Seq<Seq<char>> {
    if s.contains(x) {
        s
    } else {
        s.push(x)
    }
}

/// The last of the longest among the first `n` opened folders that are `path`
/// or lie above it.
pub open spec fn innermost(open: Seq<Seq<char>>, path: Seq<char>, n: nat) -> Option<Seq<char>>
    decreases n,
{
    if n == 0 {
        None
    } else {
        let best = innermost(open, path, (n - 1) as nat);
        let p = open[n - 1];
        if under(encode_utf8(path), encode_utf8(p)) && (best is None || encode_utf8(
            best.unwrap(),
        ).len() <= encode_utf8(p).len()) {
            Some(p)
        } else {
            best
        }
    }
}

/// The first `n` opened folders without those at or below `target`.
pub open spec fn outside_of(open: Seq<Seq<char>>, target: Seq<char>, n: nat) -> Seq<Seq<char>>
    decreases n,
{
    if n == 0 {
        Seq::empty()
    } else {
        let before = outside_of(open, target, (n - 1) as nat);
        if under(encode_utf8(open[n - 1]), encode_utf8(target)) {
            before
        } else {
            before.push(open[n - 1])
        }
    }
}

/// What is left of the opened folders is among them, each once.
proof fn lemma_outside_once(open: Seq<Seq<char>>, target: Seq<char>, n: nat)
    requires
        n <= open.len(),
        open.no_duplicates(),
    ensures
        outside_of(open, target, n).no_duplicates(),
        forall|k: int|
            0 <= k < outside_of(open, target, n).len() ==> open.take(n as int).contains(
                #[trigger] outside_of(open, target, n)[k],
            ),
    decreases n,
{
    if n > 0 {
        lemma_outside_once(open, target, (n - 1) as nat);
        let before = outside_of(open, target, (n - 1) as nat);
        let all = outside_of(open, target, n);
        let few = open.take(n - 1);
        assert forall|k: int| 0 <= k < all.len() implies open.take(n as int).contains(
            #[trigger] all[k],
        ) by {
            if k < before.len() {
                assert(few.contains(before[k]));
                let i = choose|i: int| 0 <= i < few.len() && few[i] == before[k];
                assert(open.take(n as int)[i] == all[k]);
            } else {
                assert(open.take(n as int)[n - 1] == all[k]);
            }
        }
        assert forall|k: int| 0 <= k < before.len() implies #[trigger] before[k] != open[n
            - 1] by {
            assert(few.contains(before[k]));
            let i = choose|i: int| 0 <= i < few.len() && few[i] == before[k];
            assert(open[i] == before[k]);
        }
    }
}

impl AppModel {
    /// Whether no mount is zoomed into twice and no folder is opened twice.
    pub open spec fn wf(self) -> bool {
        zoom_once(self.zoom) && self.open.no_duplicates()
    }

    /// The selection moved to another place of the same disk and partition.
    pub open spec fn moved(self, mount: Seq<char>, path: Seq<char>, name: Seq<char>) -> HitModel {
        HitModel {
            disk: match self.selected {
                Some(s) => s.disk,
                None => Seq::empty(),
            },
            partition: match self.selected {
                Some(s) => s.partition,
                None => Seq::empty(),
            },
            mount,
            path,
            name,
            size: match self.selected {
                Some(s) => s.size,
                None => 0,
            },
            kind: KindModel::Directory,
        }
    }

    /// The state after a click on the gutter of a disk: it is expanded and
    /// selected.
    pub open spec fn disk_expanded(self, d: DiskViewModel) -> AppModel {
        AppModel {
            expanded_disk: Some(d.name),
            scroll_focus: true,
            selected: Some(
                HitModel {
                    disk: d.name,
                    partition: Seq::empty(),
                    mount: Seq::empty(),
                    path: d.name + "::disk"@,
                    name: if trimmed(d.model).len() == 0 {
                        d.name
                    } else {
                        trimmed(d.model)
                    },
                    size: d.size,
                    kind: KindModel::Other,
                },
            ),
            ..self
        }
    }

    /// The state after a jump to the disk of a nested mount.
    pub open spec fn jumped(
        self,
        h: HitModel,
        disk: Seq<char>,
        partition: Seq<char>,
        mount: Seq<char>,
    ) -> AppModel {
        AppModel {
            expanded_disk: Some(disk),
            scroll_focus: true,
            zoom: without_zoom(without_zoom(self.zoom, mount), h.mount),
            selected: Some(
                HitModel {
                    disk,
                    partition,
                    mount,
                    path: mount,
                    name: h.name,
                    size: h.size,
                    kind: h.kind,
                },
            ),
            ..self
        }
    }

    /// The state after a click on a tile, and what is asked of the scanner. A
    /// nested mount leads to its disk. A folder is opened in place, or fills
    /// the window; any other tile is selected.
    pub open spec fn tile_clicked(self, h: HitModel, fill: bool) -> (AppModel, Seq<CommandModel>) {
        match h.kind {
            KindModel::MountPoint { disk, partition, mount, model } => (
                self.jumped(h, disk, partition, mount),
                Seq::empty(),
            ),
            _ => {
                let folder = is_folder_hit(h);
                (
                    AppModel {
                        zoom: if folder && fill {
                            with_zoom(self.zoom, h.mount, h.path)
                        } else {
                            self.zoom
                        },
                        open: if folder && !fill {
                            with_text(self.open, h.path)
                        } else {
                            self.open
                        },
                        expanded_disk: if fill {
                            Some(h.disk)
                        } else {
                            self.expanded_disk
                        },
                        scroll_focus: self.scroll_focus || fill,
                        selected: Some(h),
                        ..self
                    },
                    if folder {
                        seq![CommandModel::Expand(h.path)]
                    } else {
                        Seq::empty()
                    },
                )
            },
        }
    }

    /// The folder that a zoom out of a mount starts from.
    pub open spec fn zoom_start(self, mount: Seq<char>, path: Seq<char>) -> Seq<char> {
        match zoom_of(self.zoom, mount) {
            Some(z) => if path == z || begins_with(path, z) || begins_with(z, path) {
                z
            } else {
                path
            },
            None => path,
        }
    }

    /// The state one folder further out; none if there is nothing to zoom out
    /// of.
    pub open spec fn zoomed_out(self, mount: Seq<char>, path: Seq<char>) -> Option<AppModel> {
        let current = self.zoom_start(mount, path);
        if mount.len() == 0 {
            None
        } else if current == mount || !begins_with(current, mount) {
            if zoom_of(self.zoom, mount) is Some {
                Some(
                    AppModel {
                        zoom: without_zoom(self.zoom, mount),
                        selected: Some(self.moved(mount, mount, short_name(mount))),
                        ..self
                    },
                )
            } else {
                None
            }
        } else {
            match parent_path(encode_utf8(current)) {
                None => None,
                Some(q) => {
                    let p = lossy_text(q);
                    if p == mount || p.len() == 0 {
                        Some(
                            AppModel {
                                zoom: without_zoom(self.zoom, mount),
                                selected: Some(self.moved(mount, current, short_name(path))),
                                ..self
                            },
                        )
                    } else {
                        Some(
                            AppModel {
                                zoom: with_zoom(self.zoom, mount, p),
                                selected: Some(self.moved(mount, p, short_name(p))),
                                ..self
                            },
                        )
                    }
                },
            }
        }
    }

    /// The state with the innermost opened folder around `path` closed, with
    /// all that are opened in it; none if there is none.
    pub open spec fn collapsed(self, mount: Seq<char>, path: Seq<char>) -> Option<AppModel> {
        if mount.len() == 0 || no_place(path) {
            None
        } else {
            match innermost(self.open, path, self.open.len()) {
                None => None,
                Some(target) => Some(
                    AppModel {
                        open: outside_of(self.open, target, self.open.len()),
                        selected: Some(self.moved(mount, target, short_name(target))),
                        ..self
                    },
                ),
            }
        }
    }

    /// The state after the disk or all else was let go.
    pub open spec fn let_go(self) -> AppModel {
        AppModel {
            expanded_disk: None,
            zoom: Seq::empty(),
            selected: None,
            open: if self.expanded_disk is Some {
                self.open
            } else {
                Seq::empty()
            },
            ..self
        }
    }

    /// The state after the escape key: one folder further out, else the
    /// innermost opened folder closed, else the disk let go, else all.
    pub open spec fn escaped(self) -> AppModel {
        match self.selected {
            None => self.let_go(),
            Some(s) => {
                let out = if zoom_of(self.zoom, s.mount) is Some {
                    self.zoomed_out(s.mount, s.path)
                } else {
                    None
                };
                match out {
                    Some(m) => m,
                    None => match self.collapsed(s.mount, s.path) {
                        Some(m) => m,
                        None => self.let_go(),
                    },
                }
            },
        }
    }
}

impl SpacemapApp {
    /// A window in which nothing was done yet.
    pub fn empty() -> (r: SpacemapApp)
        ensures
            r@ == (AppModel {
                hover: None,
                selected: None,
                expanded_disk: None,
                zoom: Seq::empty(),
                open: Seq::empty(),
                scroll_focus: false,
                status: "starting…"@,
            }),
            r@.wf(),
    {
        let r = SpacemapApp {
            hover: None,
            selected: None,
            expanded_disk: None,
            zoom: ZoomMap::new(),
            open: Vec::new(),
            scroll_focus: false,
            status: "starting…".to_string(),
        };
        assert(r@.open =~= Seq::<Seq<char>>::empty());
        r
    }

    /// Takes over who made the snapshot that is shown.
    pub fn note_source(&mut self, source: SnapshotSource)
        ensures
            final(self)@ == (AppModel { status: source_text(source), ..old(self)@ }),
            old(self)@.wf() ==> final(self)@.wf(),
    {
        self.status = match source {
            SnapshotSource::Daemon => "daemon".to_string(),
            SnapshotSource::Local => "local scan".to_string(),
        };
    }

    /// Expands a disk and selects it.
    pub fn expand_disk(&mut self, disk: &DiskView)
        ensures
            final(self)@ == old(self)@.disk_expanded(disk@),
            old(self)@.wf() ==> final(self)@.wf(),
    {
        self.expanded_disk = Some(disk.name.clone());
        self.scroll_focus = true;
        let mut path = disk.name.clone();
        path.append("::disk");
        let model = trim(disk.model.as_str());
        let name = if model.as_str().unicode_len() == 0 {
            disk.name.clone()
        } else {
            model
        };
        self.selected = Some(
            Hit {
                disk: disk.name.clone(),
                partition: String::new(),
                mount: String::new(),
                path,
                name,
                size: disk.size,
                kind: Kind::Other,
            },
        );
    }

    /// Leads to the disk of a nested mount. The result says whether the tile
    /// is one.
    fn jump_to_mount(&mut self, h: &Hit) -> (r: bool)
        ensures
            r == (h@.kind is MountPoint),
            match h@.kind {
                KindModel::MountPoint { disk, partition, mount, model } => final(self)@ == old(
                    self,
                )@.jumped(h@, disk, partition, mount),
                _ => final(self)@ == old(self)@,
            },
            old(self)@.wf() ==> final(self)@.wf(),
    {
        match &h.kind {
            Kind::MountPoint { disk, partition, mount, model: _ } => {
                self.expanded_disk = Some(disk.clone());
                self.scroll_focus = true;
                self.zoom.remove(mount.as_str());
                self.zoom.remove(h.mount.as_str());
                self.selected = Some(
                    Hit {
                        disk: disk.clone(),
                        partition: partition.clone(),
                        mount: mount.clone(),
                        path: mount.clone(),
                        name: h.name.clone(),
                        size: h.size,
                        kind: h.kind.clone(),
                    },
                );
                true
            },
            _ => false,
        }
    }

    /// Opens a folder in place, unless it is open.
    fn open_folder(&mut self, path: String)
        ensures
            final(self)@ == (AppModel { open: with_text(old(self)@.open, path@), ..old(self)@ }),
            old(self)@.wf() ==> final(self)@.wf(),
    {
        let ghost all = views(self.open@);
        let mut i: usize = 0;
        while i < self.open.len()
            invariant
                i <= self.open.len(),
                self@ == old(self)@,
                all == views(self.open@),
                forall|j: int| 0 <= j < i ==> #[trigger] all[j] != path@,
            decreases self.open.len() - i,
        {
            assert(all[i as int] == self.open@[i as int]@);
            if text_eq(self.open[i].as_str(), path.as_str()) {
                assert(all.contains(path@));
                return ;
            }
            i = i + 1;
        }
        let ghost model = path@;
        self.open.push(path);
        assert(views(self.open@) =~= all.push(model));
    }

    /// Takes a click on a tile. The result is what is asked of the scanner.
    pub fn on_tile_click(&mut self, h: Hit, fill_window: bool) -> (r: Vec<Command>)
        ensures
            final(self)@ == old(self)@.tile_clicked(h@, fill_window).0,
            views(r@) == old(self)@.tile_clicked(h@, fill_window).1,
            old(self)@.wf() ==> final(self)@.wf(),
    {
        let mut commands: Vec<Command> = Vec::new();
        assert(views(commands@) =~= Seq::<CommandModel>::empty());
        if self.jump_to_mount(&h) {
            return commands;
        }
        if is_folder(&h) {
            commands.push(Command::Expand(h.path.clone()));
            assert(views(commands@) =~= seq![CommandModel::Expand(h.path@)]);
            if fill_window {
                self.zoom.insert(h.mount.clone(), h.path.clone());
                self.expanded_disk = Some(h.disk.clone());
                self.scroll_focus = true;
            } else {
                self.open_folder(h.path.clone());
            }
        } else if fill_window {
            self.expanded_disk = Some(h.disk.clone());
            self.scroll_focus = true;
        }
        self.selected = Some(h);
        commands
    }

    /// The selection moved to another place of the same disk and partition.
    fn moved_hit(&self, mount: &str, path: &str, name: String) -> (r: Hit)
        ensures
            r@ == self@.moved(mount@, path@, name@),
    {
        let (disk, partition, size) = match &self.selected {
            Some(s) => (s.disk.clone(), s.partition.clone(), s.size),
            None => (String::new(), String::new(), 0),
        };
        Hit {
            disk,
            partition,
            mount: mount.to_string(),
            path: path.to_string(),
            name,
            size,
            kind: Kind::Directory,
        }
    }

    /// Zooms one folder further out. The result says whether there was
    /// anything to zoom out of.
    pub fn zoom_out(&mut self, mount: &str, path: &str) -> (r: bool)
        ensures
            match old(self)@.zoomed_out(mount@, path@) {
                Some(m) => r && final(self)@ == m,
                None => !r && final(self)@ == old(self)@,
            },
            old(self)@.wf() ==> final(self)@.wf(),
    {
        if mount.unicode_len() == 0 {
            return false;
        }
        let mut current = path.to_string();
        if let Some(z) = self.zoom.get(mount) {
            if text_eq(path, z.as_str()) || text_begins_with(path, z.as_str()) || text_begins_with(
                z.as_str(),
                path,
            ) {
                current = z.clone();
            }
        }
        assert(current@ == self@.zoom_start(mount@, path@));
        if text_eq(current.as_str(), mount) || !text_begins_with(current.as_str(), mount) {
            let hit = self.moved_hit(mount, mount, name_of(mount));
            if self.zoom.remove(mount) {
                self.selected = Some(hit);
                return true;
            }
            return false;
        }
        match PathBuf::from(current.as_str()).parent() {
            None => false,
            Some(q) => {
                let p = q.to_string_lossy();
                if text_eq(p.as_str(), mount) || p.as_str().unicode_len() == 0 {
                    let hit = self.moved_hit(mount, current.as_str(), name_of(path));
                    self.zoom.remove(mount);
                    self.selected = Some(hit);
                } else {
                    let hit = self.moved_hit(mount, p.as_str(), name_of(p.as_str()));
                    self.zoom.insert(mount.to_string(), p);
                    self.selected = Some(hit);
                }
                true
            },
        }
    }

    /// The innermost opened folder around `path`.
    fn innermost_open(&self, path: &str) -> (r: Option<String>)
        ensures
            text_of(r) == innermost(self@.open, path@, self@.open.len()),
    {
        let ghost all = self@.open;
        let place = PathBuf::from(path);
        let mut best: Option<String> = None;
        let mut i: usize = 0;
        while i < self.open.len()
            invariant
                i <= self.open.len(),
                all == views(self.open@),
                place@ == encode_utf8(path@),
                text_of(best) == innermost(all, path@, i as nat),
            decreases self.open.len() - i,
        {
            assert(all[i as int] == self.open@[i as int]@);
            let p = PathBuf::from(self.open[i].as_str());
            if place.starts_with(&p) {
                let longer = match &best {
                    Some(b) => b.as_str().as_bytes().len() <= p.bytes.len(),
                    None => true,
                };
                if longer {
                    best = Some(self.open[i].clone());
                }
            }
            i = i + 1;
        }
        best
    }

    /// Closes the innermost opened folder around `path`. The result says
    /// whether there was one.
    pub fn collapse_open(&mut self, mount: &str, path: &str) -> (r: bool)
        ensures
            match old(self)@.collapsed(mount@, path@) {
                Some(m) => r && final(self)@ == m,
                None => !r && final(self)@ == old(self)@,
            },
            old(self)@.wf() ==> final(self)@.wf(),
    {
        if mount.unicode_len() == 0 || contains_text(path, "::") {
            return false;
        }
        let target = match self.innermost_open(path) {
            Some(t) => t,
            None => {
                return false;
            },
        };
        let hit = self.moved_hit(mount, target.as_str(), name_of(target.as_str()));
        let place = PathBuf::from(target.as_str());
        let ghost all = self@.open;
        let mut left: Vec<String> = Vec::new();
        let mut i: usize = 0;
        assert(views(left@) =~= Seq::<Seq<char>>::empty());
        while i < self.open.len()
            invariant
                i <= self.open.len(),
                all == views(self.open@),
                place@ == encode_utf8(target@),
                views(left@) == outside_of(all, target@, i as nat),
                self@ == old(self)@,
            decreases self.open.len() - i,
        {
            assert(all[i as int] == self.open@[i as int]@);
            let p = PathBuf::from(self.open[i].as_str());
            if !p.starts_with(&place) {
                let ghost before = views(left@);
                left.push(self.open[i].clone());
                assert(views(left@) =~= before.push(all[i as int]));
            }
            i = i + 1;
        }
        proof {
            if all.no_duplicates() {
                lemma_outside_once(all, target@, all.len());
            }
        }
        self.open = left;
        self.selected = Some(hit);
        true
    }

    /// Takes the escape key.
    pub fn on_escape(&mut self)
        ensures
            final(self)@ == old(self)@.escaped(),
            old(self)@.wf() ==> final(self)@.wf(),
    {
        if let Some(sel) = copy_hit(&self.selected) {
            if self.zoom.get(sel.mount.as_str()).is_some() {
                if self.zoom_out(sel.mount.as_str(), sel.path.as_str()) {
                    return ;
                }
            }
            if self.collapse_open(sel.mount.as_str(), sel.path.as_str()) {
                return ;
            }
        }
        self.selected = None;
        self.zoom = ZoomMap::new();
        if self.expanded_disk.is_some() {
            self.expanded_disk = None;
        } else {
            self.open = Vec::new();
            assert(views(self.open@) =~= Seq::<Seq<char>>::empty());
        }
    }
}

/// The text for who made a snapshot.
pub open spec fn source_text(source: SnapshotSource) -> Seq<char> {
    match source {
        SnapshotSource::Daemon => "daemon"@,
        SnapshotSource::Local => "local scan"@,
    }
}

// ---------------------------------------------------------------------------
// Rows
// ---------------------------------------------------------------------------

/// What the pointer is on: the last hit of the first `n` rows.
pub open spec fn last_hit(
    rows: Seq<RowModel>,
    pick: spec_fn(RowModel) -> Option<HitModel>,
    n: nat,
) -> Option<HitModel>
    decreases n,
{
    if n == 0 {
        None
    } else if pick(rows[n - 1]) is Some {
        pick(rows[n - 1])
    } else {
        last_hit(rows, pick, (n - 1) as nat)
    }
}

/// The last of the first `n` rows whose gutter was clicked.
pub open spec fn last_gutter(rows: Seq<RowModel>, n: nat) -> Option<int>
    decreases n,
{
    if n == 0 {
        None
    } else if rows[n - 1].gutter_clicked {
        Some(n - 1)
    } else {
        last_gutter(rows, (n - 1) as nat)
    }
}

impl AppModel {
    /// The state after a click, if there was one.
    pub open spec fn maybe_clicked(
        self,
        h: Option<HitModel>,
        fill: bool,
    ) -> (AppModel, Seq<CommandModel>) {
        match h {
            Some(x) => self.tile_clicked(x, fill),
            None => (self, Seq::empty()),
        }
    }

    /// The state after all that happened on the rows, and what is asked of the
    /// scanner. A shift click fills the window, as does a double click on a
    /// folder.
    pub open spec fn rows_taken(
        self,
        disks: Seq<DiskViewModel>,
        rows: Seq<RowModel>,
    ) -> (AppModel, Seq<CommandModel>) {
        let n = rows.len();
        let hovered = AppModel { hover: last_hit(rows, |r: RowModel| r.hover, n), ..self };
        let expanded = match last_gutter(rows, n) {
            Some(i) => hovered.disk_expanded(disks[i]),
            None => hovered,
        };
        let double = last_hit(rows, |r: RowModel| r.double_clicked, n);
        let (a, x) = expanded.maybe_clicked(last_hit(rows, |r: RowModel| r.clicked, n), false);
        let (b, y) = a.maybe_clicked(last_hit(rows, |r: RowModel| r.shift_clicked, n), true);
        let (c, z) = b.maybe_clicked(double, double matches Some(h) && is_folder_hit(h));
        (AppModel { scroll_focus: false, ..c }, x + y + z)
    }
}

impl SpacemapApp {
    /// Takes all that happened on the rows of the disks. The result is what is
    /// asked of the scanner.
    pub fn take_rows(&mut self, disks: &Vec<DiskView>, rows: &Vec<RowResponse>) -> (r: Vec<Command>)
        requires
            disks@.len() == rows@.len(),
        ensures
            final(self)@ == old(self)@.rows_taken(views(disks@), views(rows@)).0,
            views(r@) == old(self)@.rows_taken(views(disks@), views(rows@)).1,
            old(self)@.wf() ==> final(self)@.wf(),
    {
        let ghost all = views(rows@);
        let ghost by_hover = |r: RowModel| r.hover;
        let ghost by_click = |r: RowModel| r.clicked;
        let ghost by_shift = |r: RowModel| r.shift_clicked;
        let ghost by_double = |r: RowModel| r.double_clicked;
        let mut hover: Option<Hit> = None;
        let mut clicked: Option<Hit> = None;
        let mut shift_clicked: Option<Hit> = None;
        let mut double: Option<Hit> = None;
        let mut gutter: Option<usize> = None;
        let mut i: usize = 0;
        while i < rows.len()
            invariant
                i <= rows.len(),
                disks@.len() == rows@.len(),
                all == views(rows@),
                by_hover == (|r: RowModel| r.hover),
                by_click == (|r: RowModel| r.clicked),
                by_shift == (|r: RowModel| r.shift_clicked),
                by_double == (|r: RowModel| r.double_clicked),
                hit_of(hover) == last_hit(all, by_hover, i as nat),
                hit_of(clicked) == last_hit(all, by_click, i as nat),
                hit_of(shift_clicked) == last_hit(all, by_shift, i as nat),
                hit_of(double) == last_hit(all, by_double, i as nat),
                match gutter {
                    Some(k) => k < disks@.len() && last_gutter(all, i as nat) == Some(k as int),
                    None => last_gutter(all, i as nat) is None,
                },
            decreases rows.len() - i,
        {
            let row = &rows[i];
            assert(all[i as int] == row@);
            if row.hover.is_some() {
                hover = copy_hit(&row.hover);
            }
            if row.clicked.is_some() {
                clicked = copy_hit(&row.clicked);
            }
            if row.shift_clicked.is_some() {
                shift_clicked = copy_hit(&row.shift_clicked);
            }
            if row.double_clicked.is_some() {
                double = copy_hit(&row.double_clicked);
            }
            if row.gutter_clicked {
                gutter = Some(i);
            }
            i = i + 1;
        }
        let mut commands: Vec<Command> = Vec::new();
        assert(views(commands@) =~= Seq::<CommandModel>::empty());
        self.hover = hover;
        if let Some(k) = gutter {
            assert(views(disks@)[k as int] == disks@[k as int]@);
            self.expand_disk(&disks[k]);
        }
        let ghost x = views(commands@);
        if let Some(h) = clicked {
            let mut more = self.on_tile_click(h, false);
            let ghost added = views(more@);
            commands.append(&mut more);
            assert(views(commands@) =~= x + added);
        }
        let ghost y = views(commands@);
        if let Some(h) = shift_clicked {
            let mut more = self.on_tile_click(h, true);
            let ghost added = views(more@);
            commands.append(&mut more);
            assert(views(commands@) =~= y + added);
        }
        let ghost z = views(commands@);
        if let Some(h) = double {
            let folder = is_folder(&h);
            let mut more = self.on_tile_click(h, folder);
            let ghost added = views(more@);
            commands.append(&mut more);
            assert(views(commands@) =~= z + added);
        }
        self.scroll_focus = false;
        assert(views(commands@) =~= old(self)@.rows_taken(views(disks@), views(rows@)).1);
        commands
    }
}

// ---------------------------------------------------------------------------
// Texts
// ---------------------------------------------------------------------------

/// The text for a kind of tile.
pub open spec fn kind_text(kind: KindModel) -> Seq<char> {
    match kind {
        KindModel::Directory => "directory"@,
        KindModel::File { .. } => "file"@,
        KindModel::Free => "free space"@,
        KindModel::Overhead => "filesystem overhead"@,
        KindModel::Scanning => "scanning"@,
        KindModel::Other => "other"@,
        KindModel::Unmounted => "unmounted"@,
        KindModel::Locked => "locked"@,
        KindModel::Swap => "swap"@,
        KindModel::MountPoint { disk, partition, .. } => "mount → "@ + disk + " "@ + partition,
    }
}

/// The text for a kind of tile.
pub fn kind_label(kind: &Kind) -> (r: String)
    ensures
        r@ == kind_text(kind@),
{
    match kind {
        Kind::Directory => "directory".to_string(),
        Kind::File { .. } => "file".to_string(),
        Kind::Free => "free space".to_string(),
        Kind::Overhead => "filesystem overhead".to_string(),
        Kind::Scanning => "scanning".to_string(),
        Kind::Other => "other".to_string(),
        Kind::Unmounted => "unmounted".to_string(),
        Kind::Locked => "locked".to_string(),
        Kind::Swap => "swap".to_string(),
        Kind::MountPoint { disk, partition, mount: _, model: _ } => {
            let mut out = "mount → ".to_string();
            out.append(disk.as_str());
            out.append(" ");
            out.append(partition.as_str());
            out
        },
    }
}

/// The line at the top of the window: how many disks, how large, and who
/// scans them.
pub fn header_line(disks: usize, size_text: &str, status: &str) -> (r: String)
    ensures
        r@ == decimal(disks as nat) + " disks  ·  "@ + size_text@ + "  ·  "@ + status@,
{
    let mut out = to_decimal(disks as u64);
    out.append(" disks  ·  ");
    out.append(size_text);
    out.append("  ·  ");
    out.append(status);
    out
}

/// The line at the bottom of the window: what the pointer is on.
pub fn hit_line(h: &Hit, size_text: &str) -> (r: String)
    ensures
        r@ == h@.disk + "  ·  "@ + h@.partition + "  ·  "@ + h@.path + "   "@ + size_text@
            + "   "@ + kind_text(h@.kind),
{
    let mut out = h.disk.clone();
    out.append("  ·  ");
    out.append(h.partition.as_str());
    out.append("  ·  ");
    out.append(h.path.as_str());
    out.append("   ");
    out.append(size_text);
    out.append("   ");
    out.append(kind_label(&h.kind).as_str());
    out
}

/// What is handed to the file manager to reveal a path; none if it names no
/// place.
pub fn open_target(path: &str) -> (r: Option<String>)
    ensures
        match r {
            Some(p) => p@ == trimmed(path@) && p@.len() > 0 && !no_place(p@),
            None => trimmed(path@).len() == 0 || no_place(trimmed(path@)),
        },
{
    let p = trim(path);
    if p.as_str().unicode_len() == 0 || contains_text(p.as_str(), "::") {
        None
    } else {
        Some(p)
    }
}

/// A path is at or below itself.
proof fn lemma_under_self(p: Seq<u8>)
    ensures
        under(p, p),
{
    let cs = crate::path::comps(p);
    assert(cs.subrange(0, cs.len() as int) =~= cs);
}

proof fn lemma_innermost(open: Seq<Seq<char>>, path: Seq<char>, n: nat)
    requires
        n <= open.len(),
    ensures
        match innermost(open, path, n) {
            Some(t) => under(encode_utf8(path), encode_utf8(t)),
            None => forall|i: int|
                0 <= i < n ==> !under(encode_utf8(path), encode_utf8(#[trigger] open[i])),
        },
    decreases n,
{
    if n > 0 {
        lemma_innermost(open, path, (n - 1) as nat);
    }
}

proof fn lemma_outside(open: Seq<Seq<char>>, target: Seq<char>, n: nat, x: Seq<char>)
    requires
        n <= open.len(),
        outside_of(open, target, n).contains(x),
    ensures
        !under(encode_utf8(x), encode_utf8(target)),
    decreases n,
{
    let all = outside_of(open, target, n);
    let k = choose|k: int| 0 <= k < all.len() && all[k] == x;
    if n > 0 {
        let before = outside_of(open, target, (n - 1) as nat);
        if k < before.len() {
            assert(before[k] == x);
            assert(before.contains(x));
            lemma_outside(open, target, (n - 1) as nat, x);
        }
    }
}

/// A folder that was clicked open is closed by the escape key, where its mount
/// is not zoomed into.
pub proof fn law_click_then_escape(m: AppModel, h: HitModel)
    requires
        is_folder_hit(h),
        zoom_of(m.zoom, h.mount) is None,
    ensures
        m.tile_clicked(h, false).0.open.contains(h.path),
        !m.tile_clicked(h, false).0.escaped().open.contains(h.path),
        m.tile_clicked(h, false).1 == seq![CommandModel::Expand(h.path)],
{
    let c = m.tile_clicked(h, false).0;
    let p = encode_utf8(h.path);
    if !m.open.contains(h.path) {
        assert(c.open[m.open.len() as int] == h.path);
    }
    assert(c.open.contains(h.path));
    let i = choose|i: int| 0 <= i < c.open.len() && c.open[i] == h.path;
    lemma_under_self(p);
    lemma_innermost(c.open, h.path, c.open.len());
    match innermost(c.open, h.path, c.open.len()) {
        Some(t) => {
            let e = c.escaped();
            assert(e.open == outside_of(c.open, t, c.open.len()));
            if e.open.contains(h.path) {
                lemma_outside(c.open, t, c.open.len(), h.path);
            }
        },
        None => {
            assert(!under(encode_utf8(h.path), encode_utf8(c.open[i])));
        },
    }
}

/// A folder that fills the window is zoomed into, and its disk is expanded.
pub proof fn law_fill_zooms(m: AppModel, h: HitModel)
    requires
        m.wf(),
        is_folder_hit(h),
    ensures
        zoom_of(m.tile_clicked(h, true).0.zoom, h.mount) == Some(h.path),
        m.tile_clicked(h, true).0.expanded_disk == Some(h.disk),
{
    law_zoomed(m.zoom, h.mount, h.path, h.mount);
}

/// The escape key zooms out of a folder that fills the window: to the folder
/// above it, or out of the mount where that is the one above. What is opened
/// in place and the zoom of other mounts stay.
pub proof fn law_escape_zooms_out(m: AppModel, h: HitModel, other: Seq<char>)
    requires
        m.wf(),
        is_folder_hit(h),
        h.path == h.mount || !begins_with(h.path, h.mount) || parent_path(
            encode_utf8(h.path),
        ) is Some,
    ensures
        ({
            let out = m.tile_clicked(h, true).0.escaped();
            let above = lossy_text(parent_path(encode_utf8(h.path)).unwrap());
            let inside = h.path != h.mount && begins_with(h.path, h.mount);
            &&& zoom_of(out.zoom, h.mount) == if inside && above != h.mount && above.len() > 0 {
                Some(above)
            } else {
                None
            }
            &&& other != h.mount ==> zoom_of(out.zoom, other) == zoom_of(m.zoom, other)
            &&& out.open == m.open
        }),
{
    let c = m.tile_clicked(h, true).0;
    law_zoomed(m.zoom, h.mount, h.path, h.mount);
    law_zoomed(m.zoom, h.mount, h.path, other);
    let above = lossy_text(parent_path(encode_utf8(h.path)).unwrap());
    law_zoomed(c.zoom, h.mount, above, h.mount);
    law_zoomed(c.zoom, h.mount, above, other);
    law_unzoomed(c.zoom, h.mount, h.mount);
    law_unzoomed(c.zoom, h.mount, other);
}

/// The escape key pressed with nothing selected lets go of the disk first, and
/// of all that is opened at the second press.
pub proof fn law_escape_twice(m: AppModel)
    requires
        m.selected is None,
    ensures
        m.escaped().escaped() == (AppModel {
            selected: None,
            expanded_disk: None,
            zoom: Seq::empty(),
            open: Seq::empty(),
            ..m
        }),
{
}

} // verus!
