//! File-system paths as byte strings, compared by their components.

use crate::text::{bytes_eq, split_on, stem_len};
use vstd::prelude::*;
use vstd::string::*;
use vstd::utf8::*;
#[allow(unused_imports)]
use crate::text::lemma_split_nonempty;

verus! {

/// The byte that separates the components of a path.
pub const SLASH: u8 = 47;

/// The byte of the component that names the current directory.
pub const DOT: u8 = 46;

/// What `String::from_utf8_lossy` makes of bytes that are not UTF-8.
pub uninterp spec fn replaced_text(bytes: Seq<u8>) -> Seq<char>;

/// The text of a byte string: bytes that are UTF-8 are decoded, others are
/// replaced.
pub open spec fn lossy_text(bytes: Seq<u8>) -> Seq<char> {
    if valid_utf8(bytes) {
        decode_utf8(bytes)
    } else {
        replaced_text(bytes)
    }
}

/// `String::from_utf8_lossy`: the text of the bytes. Bytes that are valid
/// UTF-8 are decoded; how invalid ones are replaced is left to the name.
#[verifier::external_body]
pub(crate) fn utf8_lossy(bytes: &[u8]) -> (r: String)
    ensures
        r@ == if valid_utf8(bytes@) {
            decode_utf8(bytes@)
        } else {
            replaced_text(bytes@)
        },
{
    String::from_utf8_lossy(bytes).into_owned()
}

/// The component that stands for the root directory.
pub open spec fn root_comp() -> Seq<u8> {
    seq![SLASH]
}

/// The component that stands for the current directory.
pub open spec fn dot_comp() -> Seq<u8> {
    seq![DOT]
}

/// The component that stands for the parent directory.
pub open spec fn dots_comp() -> Seq<u8> {
    seq![DOT, DOT]
}

/// Whether a piece between slashes counts as a component of its own.
pub open spec fn counts(piece: Seq<u8>) -> bool {
    piece.len() > 0 && piece != dot_comp()
}

/// The components of a path: a root for a leading slash or a current
/// directory for a leading dot, then the pieces between slashes, without the
/// empty ones and the dots.
pub open spec fn comps(p: Seq<u8>) -> Seq<Seq<u8>> {
    lead_comps(p) + kept(split_on(p, SLASH))
}

/// The pieces that count as components, in order.
pub open spec fn kept(pieces: Seq<Seq<u8>>) -> Seq<Seq<u8>>
    decreases pieces.len(),
{
    if pieces.len() == 0 {
        Seq::empty()
    } else if counts(pieces.last()) {
        kept(pieces.drop_last()).push(pieces.last())
    } else {
        kept(pieces.drop_last())
    }
}

/// The component that a leading slash or a leading dot contributes.
pub open spec fn lead_comps(p: Seq<u8>) -> Seq<Seq<u8>> {
    if p.len() > 0 && p[0] == SLASH {
        seq![root_comp()]
    } else if split_on(p, SLASH)[0] == dot_comp() {
        seq![dot_comp()]
    } else {
        Seq::empty()
    }
}

/// Whether `p` is `base` or lies below it, component by component.
pub open spec fn under(p: Seq<u8>, base: Seq<u8>) -> bool {
    comps(base).is_prefix_of(comps(p))
}

/// Whether two paths have the same components.
pub open spec fn same_path(a: Seq<u8>, b: Seq<u8>) -> bool {
    comps(a) == comps(b)
}

/// The path without redundant slashes and dots at its end.
pub open spec fn trim_tail(p: Seq<u8>) -> Seq<u8>
    decreases p.len(),
{
    if p.len() >= 2 && (p.last() == SLASH || (p.last() == DOT && p[p.len() - 2] == SLASH)) {
        trim_tail(p.drop_last())
    } else {
        p
    }
}


/// The path without its last component; none for the empty path and the root.
pub open spec fn parent_path(p: Seq<u8>) -> Option<Seq<u8>> {
    if comps(p).len() == 0 || comps(p).last() == root_comp() {
        None
    } else {
        let q = trim_tail(p);
        Some(trim_tail(q.take(stem_len(q, SLASH) as int)))
    }
}

/// The last component, where it is a plain name.
pub open spec fn base_name(p: Seq<u8>) -> Option<Seq<u8>> {
    if comps(p).len() == 0 || comps(p).last() == root_comp() || comps(p).last() == dot_comp()
        || comps(p).last() == dots_comp() {
        None
    } else {
        Some(comps(p).last())
    }
}

/// `p` with `tail` put behind it; an absolute `tail` replaces `p`.
pub open spec fn joined(p: Seq<u8>, tail: Seq<u8>) -> Seq<u8> {
    if tail.len() > 0 && tail[0] == SLASH {
        tail
    } else if p.len() == 0 || p.last() == SLASH {
        p + tail
    } else {
        p.push(SLASH) + tail
    }
}

/// `p` with each of `parts` put behind it in turn.
pub open spec fn joined_all(p: Seq<u8>, parts: Seq<Seq<u8>>) -> Seq<u8>
    decreases parts.len(),
{
    if parts.len() == 0 {
        p
    } else {
        joined(joined_all(p, parts.drop_last()), parts.last())
    }
}

/// The byte strings of a list of byte vectors.
pub open spec fn byte_lists(v: Seq<Vec<u8>>) -> Seq<Seq<u8>> {
    Seq::new(v.len(), |i: int| v[i]@)
}

// ---------------------------------------------------------------------------
// Facts about components
// ---------------------------------------------------------------------------

proof fn lemma_kept_push(s: Seq<Seq<u8>>, x: Seq<u8>)
    ensures
        kept(s.push(x)) == if counts(x) {
            kept(s).push(x)
        } else {
            kept(s)
        },
{
    assert(s.push(x).drop_last() == s);
}

/// Each kept piece is one of the pieces, and it counts.
proof fn lemma_kept_from(s: Seq<Seq<u8>>, k: int) -> (i: int)
    requires
        0 <= k < kept(s).len(),
    ensures
        0 <= i < s.len(),
        s[i] == kept(s)[k],
        counts(s[i]),
    decreases s.len(),
{
    if counts(s.last()) && k == kept(s).len() - 1 {
        s.len() - 1
    } else {
        lemma_kept_from(s.drop_last(), k)
    }
}

/// Dropping a redundant end keeps the components.
pub proof fn lemma_trim_tail_comps(p: Seq<u8>)
    ensures
        comps(trim_tail(p)) == comps(p),
        trim_tail(p).len() <= p.len(),
        trim_tail(p) == p.take(trim_tail(p).len() as int),
    decreases p.len(),
{
    if p.len() >= 2 && (p.last() == SLASH || (p.last() == DOT && p[p.len() - 2] == SLASH)) {
        let q = p.drop_last();
        lemma_trim_tail_comps(q);
        let sp = split_on(p, SLASH);
        let sq = split_on(q, SLASH);
        lemma_split_nonempty(q, SLASH);
        if p.last() == SLASH {
            assert(sp == sq.push(Seq::empty()));
            lemma_kept_push(sq, Seq::empty());
            assert(kept(sp) == kept(sq));
            assert(sp[0] == sq[0]);
        } else {
            let r = q.drop_last();
            lemma_split_nonempty(r, SLASH);
            let sr = split_on(r, SLASH);
            assert(q.last() == SLASH);
            assert(sq == sr.push(Seq::empty()));
            assert(sq.drop_last() == sr);
            assert(sp == sr.push(Seq::empty().push(DOT)));
            assert(Seq::empty().push(DOT) == dot_comp());
            lemma_kept_push(sr, Seq::empty());
            lemma_kept_push(sr, dot_comp());
            assert(kept(sp) == kept(sq));
            assert(sp[0] == sq[0]);
        }
        assert(p[0] == q[0]);
        assert(q.take(trim_tail(q).len() as int) == p.take(trim_tail(q).len() as int));
    } else {
        assert(p.take(p.len() as int) == p);
    }
}

proof fn lemma_stem_len(p: Seq<u8>)
    ensures
        stem_len(p, SLASH) <= p.len(),
        forall|i: int| stem_len(p, SLASH) <= i < p.len() ==> p[i] != SLASH,
        stem_len(p, SLASH) > 0 ==> p[stem_len(p, SLASH) - 1] == SLASH,
    decreases p.len(),
{
    if p.len() > 0 && p.last() != SLASH {
        lemma_stem_len(p.drop_last());
        assert forall|i: int| stem_len(p, SLASH) <= i < p.len() implies p[i] != SLASH by {
            if i < p.len() - 1 {
                assert(p.drop_last()[i] == p[i]);
            }
        }
    }
}

/// The last piece of a split is what follows the last separator.
proof fn lemma_split_tail(p: Seq<u8>, n: int)
    requires
        0 <= n <= p.len(),
        forall|i: int| n <= i < p.len() ==> p[i] != SLASH,
        n > 0 ==> p[n - 1] == SLASH,
    ensures
        split_on(p.take(n), SLASH).last() == Seq::<u8>::empty(),
        split_on(p, SLASH) == split_on(p.take(n), SLASH).drop_last().push(p.skip(n)),
    decreases p.len(),
{
    lemma_split_nonempty(p.take(n), SLASH);
    if p.len() == n {
        assert(p.take(n) == p);
        assert(p.skip(n) == Seq::<u8>::empty());
        if n > 0 {
            assert(split_on(p, SLASH).last() == Seq::<u8>::empty());
        }
        assert(split_on(p, SLASH) == split_on(p, SLASH).drop_last().push(split_on(p, SLASH).last()));
    } else {
        let q = p.drop_last();
        assert forall|i: int| n <= i < q.len() implies q[i] != SLASH by {
            assert(q[i] == p[i]);
        }
        lemma_split_tail(q, n);
        assert(q.take(n) == p.take(n));
        assert(p.last() != SLASH);
        let before = split_on(q, SLASH);
        let stem = split_on(p.take(n), SLASH).drop_last();
        assert(before == stem.push(q.skip(n)));
        assert(before.drop_last() == stem);
        assert(q.skip(n).push(p.last()) == p.skip(n));
    }
}

/// A piece of a split contains no separator.
pub proof fn lemma_split_pieces(p: Seq<u8>, k: int, j: int)
    requires
        0 <= k < split_on(p, SLASH).len(),
        0 <= j < split_on(p, SLASH)[k].len(),
    ensures
        split_on(p, SLASH)[k][j] != SLASH,
    decreases p.len(),
{
    if p.len() > 0 {
        let before = split_on(p.drop_last(), SLASH);
        lemma_split_nonempty(p.drop_last(), SLASH);
        if k < before.len() - 1 {
            lemma_split_pieces(p.drop_last(), k, j);
        } else if p.last() == SLASH {
            if k == before.len() - 1 {
                lemma_split_pieces(p.drop_last(), k, j);
            }
        } else if j < before.last().len() {
            lemma_split_pieces(p.drop_last(), k, j);
        }
    }
}

/// Whether a byte string can stand as a component behind the first.
pub open spec fn plain(c: Seq<u8>) -> bool {
    &&& counts(c)
    &&& forall|j: int| 0 <= j < c.len() ==> c[j] != SLASH
}

/// Each component but a leading root or dot is a plain piece.
pub proof fn lemma_comps_plain(p: Seq<u8>, k: int)
    requires
        0 <= k < comps(p).len(),
    ensures
        plain(comps(p)[k]) || (k == 0 && (comps(p)[k] == root_comp() || comps(p)[k] == dot_comp())),
{
    let s = split_on(p, SLASH);
    let lead = lead_comps(p);
    if k >= lead.len() {
        let c = kept(s)[k - lead.len()];
        let i = lemma_kept_from(s, k - lead.len());
        assert forall|j: int| 0 <= j < c.len() implies c[j] != SLASH by {
            lemma_split_pieces(p, i, j);
        }
    }
}

/// The parent has all components but the last.
pub proof fn lemma_parent_comps(p: Seq<u8>)
    ensures
        parent_path(p) matches Some(q) ==> comps(q) == comps(p).drop_last(),
{
    if parent_path(p) is Some {
        let q = trim_tail(p);
        lemma_trim_tail_comps(p);
        lemma_trim_tail_shape(p);
        let n = stem_len(q, SLASH) as int;
        lemma_stem_len(q);
        let r = q.take(n);
        lemma_trim_tail_comps(r);
        lemma_split_tail(q, n);
        let sq = split_on(q, SLASH);
        let sr = split_on(r, SLASH);
        let last = q.skip(n);
        lemma_split_nonempty(r, SLASH);
        let stem = sr.drop_last();
        assert(sr == stem.push(Seq::empty()));
        lemma_kept_push(stem, last);
        lemma_kept_push(stem, Seq::empty());
        assert(sq == stem.push(last));
        if q.len() == 0 {
            assert(sq == seq![Seq::<u8>::empty()]);
            assert(kept(sq) == Seq::<Seq<u8>>::empty());
            assert(false);
        }
        if n == 0 {
            assert(r == Seq::<u8>::empty());
            assert(sr == seq![Seq::<u8>::empty()]);
            assert(stem == Seq::<Seq<u8>>::empty());
            assert(last == q);
            assert(q[0] != SLASH);
            assert(kept(stem) == Seq::<Seq<u8>>::empty());
            assert(comps(r) == Seq::<Seq<u8>>::empty());
            assert(sq[0] == q);
            if q == dot_comp() {
                assert(comps(q) == seq![dot_comp()]);
            } else {
                assert(counts(q));
                assert(comps(q) == seq![q]);
            }
        } else {
            assert(q[0] == r[0]);
            if n == q.len() {
                assert(q.last() == SLASH);
                assert(q == root_comp());
                assert(q.drop_last() == Seq::<u8>::empty());
                assert(split_on(q.drop_last(), SLASH) == seq![Seq::<u8>::empty()]);
                assert(split_on(q, SLASH) == seq![Seq::<u8>::empty()].push(Seq::<u8>::empty()));
                lemma_kept_push(seq![Seq::<u8>::empty()], Seq::empty());
                lemma_kept_push(Seq::empty(), Seq::empty());
                assert(Seq::empty().push(Seq::<u8>::empty()) == seq![Seq::<u8>::empty()]);
                assert(comps(q) == seq![root_comp()]);
                assert(false);
            }
            assert(last.len() > 0);
            assert(last[last.len() - 1] == q.last());
            if last == dot_comp() {
                assert(last.len() == 1);
                assert(n == q.len() - 1);
                assert(q[q.len() - 2] == SLASH);
                assert(q.last() == DOT);
                assert(false);
            }
            assert(counts(last));
            lemma_split_nonempty(r.drop_last(), SLASH);
            assert(r.last() == SLASH);
            assert(sr == split_on(r.drop_last(), SLASH).push(Seq::empty()));
            assert(stem.len() >= 1);
            assert(sq[0] == sr[0]);
            assert(comps(q) == comps(r).push(last));
            assert(comps(r).push(last).drop_last() == comps(r));
        }
    }
}

proof fn lemma_trim_tail_shape(p: Seq<u8>)
    ensures
        ({
            let q = trim_tail(p);
            q.len() < 2 || (q.last() != SLASH && !(q.last() == DOT && q[q.len() - 2] == SLASH))
        }),
    decreases p.len(),
{
    if p.len() >= 2 && (p.last() == SLASH || (p.last() == DOT && p[p.len() - 2] == SLASH)) {
        lemma_trim_tail_shape(p.drop_last());
    }
}

/// Joining a plain name adds one component.
pub proof fn lemma_joined_comps(p: Seq<u8>, name: Seq<u8>)
    requires
        plain(name),
    ensures
        comps(joined(p, name)) == comps(p).push(name),
{
    assert(name[0] != SLASH);
    if p.len() == 0 || p.last() == SLASH {
        lemma_joined_at_slash(p, name);
    } else {
        let r = p.push(SLASH);
        lemma_joined_at_slash(r, name);
        assert(r.drop_last() == p);
        lemma_trim_tail_comps(r);
        lemma_trim_tail_comps(p);
        assert(trim_tail(r) == trim_tail(p));
    }
}

proof fn lemma_joined_at_slash(p: Seq<u8>, name: Seq<u8>)
    requires
        plain(name),
        p.len() == 0 || p.last() == SLASH,
    ensures
        comps(p + name) == comps(p).push(name),
{
    let q = p + name;
    let n = p.len() as int;
    assert(q.take(n) == p);
    assert(q.skip(n) == name);
    assert forall|i: int| n <= i < q.len() implies q[i] != SLASH by {
        assert(q[i] == name[i - n]);
    }
    lemma_split_tail(q, n);
    lemma_split_nonempty(p, SLASH);
    let sp = split_on(p, SLASH);
    let stem = sp.drop_last();
    assert(sp == stem.push(Seq::empty()));
    lemma_kept_push(stem, name);
    lemma_kept_push(stem, Seq::empty());
    if n == 0 {
        assert(p == Seq::<u8>::empty());
        assert(q == name);
        assert(stem == Seq::<Seq<u8>>::empty());
        assert(comps(p) == Seq::<Seq<u8>>::empty());
        assert(comps(q) == seq![name]);
    } else {
        lemma_split_nonempty(p.drop_last(), SLASH);
        assert(sp == split_on(p.drop_last(), SLASH).push(Seq::empty()));
        assert(q[0] == p[0]);
        assert(split_on(q, SLASH)[0] == sp[0]);
        assert(comps(q) == comps(p).push(name));
    }
}

/// The pieces of a byte string between slashes.
fn split_slash(s: &Vec<u8>) -> (r: Vec<Vec<u8>>)
    ensures
        byte_lists(r@) == split_on(s@, SLASH),
        r@.len() > 0,
{
    let mut out: Vec<Vec<u8>> = Vec::new();
    let mut cur: Vec<u8> = Vec::new();
    let mut i: usize = 0;
    assert(s@.take(0) == Seq::<u8>::empty());
    assert(byte_lists(out@).push(cur@) == split_on(s@.take(0), SLASH));
    while i < s.len()
        invariant
            i <= s.len(),
            byte_lists(out@).push(cur@) == split_on(s@.take(i as int), SLASH),
        decreases s.len() - i,
    {
        let b: u8 = s[i];
        assert(s@.take(i + 1).drop_last() == s@.take(i as int));
        let ghost pieces = byte_lists(out@);
        if b == SLASH {
            let ghost last = cur@;
            out.push(cur);
            cur = Vec::new();
            assert(byte_lists(out@) == pieces.push(last));
        } else {
            assert(pieces.push(cur@).drop_last() == pieces);
            cur.push(b);
        }
        i = i + 1;
    }
    assert(s@.take(s@.len() as int) == s@);
    let ghost pieces = byte_lists(out@);
    let ghost last = cur@;
    out.push(cur);
    assert(byte_lists(out@) == pieces.push(last));
    out
}

/// A vector of the same bytes.
fn bytes_of(s: &[u8]) -> (r: Vec<u8>)
    ensures
        r@ == s@,
{
    let mut out: Vec<u8> = Vec::new();
    out.extend_from_slice(s);
    out
}

/// Whether `c` is the one byte `b`.
fn is_one(c: &Vec<u8>, b: u8) -> (r: bool)
    ensures
        r == (c@ == seq![b]),
{
    let r = c.len() == 1 && c[0] == b;
    assert(r ==> c@ == seq![b]);
    r
}

/// A path: a byte string whose meaning is its list of components.
#[derive(Debug)]
pub struct PathBuf {
    pub bytes: Vec<u8>,
}

impl View for PathBuf {
    type V = Seq<u8>;

    open spec fn view(&self) -> Seq<u8> {
        self.bytes@
    }
}

impl Clone for PathBuf {
    fn clone(&self) -> (r: Self)
        ensures
            r@ == self@,
    {
        PathBuf { bytes: self.bytes.clone() }
    }
}

/// Two paths are equal where their components are.
impl PartialEq for PathBuf {
    fn eq(&self, other: &PathBuf) -> (r: bool) {
        self.same_as(other)
    }
}

impl vstd::std_specs::cmp::PartialEqSpecImpl for PathBuf {
    open spec fn obeys_eq_spec() -> bool {
        true
    }

    open spec fn eq_spec(&self, other: &PathBuf) -> bool {
        same_path(self@, other@)
    }
}

impl Eq for PathBuf {

}

impl PathBuf {
    /// The path written as `text`.
    pub fn from(text: &str) -> (r: PathBuf)
        ensures
            r@ == encode_utf8(text@),
    {
        PathBuf { bytes: bytes_of(text.as_bytes()) }
    }

    /// The components of the path.
    pub fn components(&self) -> (r: Vec<Vec<u8>>)
        ensures
            byte_lists(r@) == comps(self@),
    {
        let pieces = split_slash(&self.bytes);
        let mut out: Vec<Vec<u8>> = Vec::new();
        let ghost all = byte_lists(pieces@);
        assert(all[0] == pieces@[0]@);
        if self.bytes.len() > 0 && self.bytes[0] == SLASH {
            out.push(vec![SLASH]);
            assert(byte_lists(out@) == lead_comps(self@)) by {
                assert(out@[0]@ == root_comp());
            }
        } else if is_one(&pieces[0], DOT) {
            out.push(vec![DOT]);
            assert(byte_lists(out@) == lead_comps(self@)) by {
                assert(out@[0]@ == dot_comp());
            }
        } else {
            assert(byte_lists(out@) == lead_comps(self@));
        }
        let ghost lead = lead_comps(self@);
        let mut i: usize = 0;
        assert(kept(all.take(0)) == Seq::<Seq<u8>>::empty());
        while i < pieces.len()
            invariant
                i <= pieces.len(),
                all == byte_lists(pieces@),
                byte_lists(out@) == lead + kept(all.take(i as int)),
            decreases pieces.len() - i,
        {
            let piece = &pieces[i];
            assert(all.take(i + 1) == all.take(i as int).push(all[i as int]));
            proof {
                lemma_kept_push(all.take(i as int), all[i as int]);
            }
            if piece.len() > 0 && !is_one(piece, DOT) {
                let ghost before = byte_lists(out@);
                out.push(piece.clone());
                assert(byte_lists(out@) == before.push(piece@));
            }
            i = i + 1;
        }
        assert(all.take(all.len() as int) == all);
        out
    }

    /// Whether two paths have the same components.
    pub fn same_as(&self, other: &PathBuf) -> (r: bool)
        ensures
            r == same_path(self@, other@),
    {
        let a = self.components();
        let b = other.components();
        let same = comps_prefix(&a, &b) && a.len() == b.len();
        assert(byte_lists(a@).len() == a@.len() && byte_lists(b@).len() == b@.len());
        assert(same ==> byte_lists(a@) == byte_lists(b@));
        same
    }

    /// Whether `base` is this path or lies above it.
    pub fn starts_with(&self, base: &PathBuf) -> (r: bool)
        ensures
            r == under(self@, base@),
    {
        let a = self.components();
        let b = base.components();
        comps_prefix(&b, &a)
    }

    /// This path with `tail` put behind it.
    pub fn join_bytes(&self, tail: &[u8]) -> (r: PathBuf)
        ensures
            r@ == joined(self@, tail@),
    {
        if tail.len() > 0 && tail[0] == SLASH {
            return PathBuf { bytes: bytes_of(tail) };
        }
        let mut bytes = self.bytes.clone();
        if bytes.len() > 0 && bytes[bytes.len() - 1] != SLASH {
            bytes.push(SLASH);
        }
        bytes.extend_from_slice(tail);
        assert(bytes@ == joined(self@, tail@));
        PathBuf { bytes }
    }

    /// This path with `tail` put behind it.
    pub fn join(&self, tail: &str) -> (r: PathBuf)
        ensures
            r@ == joined(self@, encode_utf8(tail@)),
    {
        self.join_bytes(tail.as_bytes())
    }

    /// The path without its last component.
    pub fn parent(&self) -> (r: Option<PathBuf>)
        ensures
            match r {
                Some(q) => parent_path(self@) == Some(q@),
                None => parent_path(self@) is None,
            },
    {
        let cs = self.components();
        assert(byte_lists(cs@).len() == cs@.len());
        if cs.len() == 0 {
            return None;
        }
        let last = &cs[cs.len() - 1];
        assert(comps(self@).last() == last@);
        if is_one(last, SLASH) {
            return None;
        }
        let n: usize = self.bytes.len();
        assert(self@.take(n as int) == self@);
        let end: usize = trimmed_len(&self.bytes, n);
        let mut stem: usize = end;
        let ghost q = trim_tail(self@);
        assert(q == self@.take(end as int));
        while stem > 0 && self.bytes[stem - 1] != SLASH
            invariant
                stem <= end <= self.bytes.len(),
                q == self@.take(end as int),
                stem_len(self@.take(stem as int), SLASH) == stem_len(q, SLASH),
            decreases stem,
        {
            assert(self@.take(stem as int).drop_last() == self@.take(stem - 1));
            stem = stem - 1;
        }
        assert(stem_len(q, SLASH) == stem);
        assert(q.take(stem as int) == self@.take(stem as int));
        let cut: usize = trimmed_len(&self.bytes, stem);
        let mut bytes = self.bytes.clone();
        bytes.truncate(cut);
        assert(bytes@ == self@.take(cut as int));
        Some(PathBuf { bytes })
    }

    /// The last component, where it is a plain name.
    pub fn file_name(&self) -> (r: Option<Vec<u8>>)
        ensures
            match r {
                Some(name) => base_name(self@) == Some(name@),
                None => base_name(self@) is None,
            },
    {
        let mut cs = self.components();
        let ghost all = byte_lists(cs@);
        match cs.pop() {
            None => None,
            Some(last) => {
                assert(all.last() == last@);
                let dots = last.len() == 2 && last[0] == DOT && last[1] == DOT;
                assert(dots ==> last@ == dots_comp());
                if is_one(&last, SLASH) || is_one(&last, DOT) || dots {
                    None
                } else {
                    Some(last)
                }
            },
        }
    }

    /// The text of the path.
    pub fn to_string_lossy(&self) -> (r: String)
        ensures
            r@ == lossy_text(self@),
            valid_utf8(self@) ==> r@ == decode_utf8(self@),
    {
        utf8_lossy(self.bytes.as_slice())
    }
}

/// The length to which [`trim_tail`] cuts the first `to` bytes.
fn trimmed_len(bytes: &Vec<u8>, to: usize) -> (r: usize)
    requires
        to <= bytes.len(),
    ensures
        r <= to,
        bytes@.take(r as int) == trim_tail(bytes@.take(to as int)),
{
    let mut n: usize = to;
    while n >= 2 && (bytes[n - 1] == SLASH || (bytes[n - 1] == DOT && bytes[n - 2] == SLASH))
        invariant
            n <= to <= bytes.len(),
            trim_tail(bytes@.take(n as int)) == trim_tail(bytes@.take(to as int)),
        decreases n,
    {
        assert(bytes@.take(n as int).drop_last() == bytes@.take(n - 1));
        n = n - 1;
    }
    n
}

/// Whether the components `a` are the first ones of `b`.
fn comps_prefix(a: &Vec<Vec<u8>>, b: &Vec<Vec<u8>>) -> (r: bool)
    ensures
        r == byte_lists(a@).is_prefix_of(byte_lists(b@)),
{
    let ghost sa = byte_lists(a@);
    let ghost sb = byte_lists(b@);
    if a.len() > b.len() {
        return false;
    }
    let mut i: usize = 0;
    while i < a.len()
        invariant
            i <= a.len() <= b.len(),
            sa == byte_lists(a@),
            sb == byte_lists(b@),
            forall|k: int| 0 <= k < i ==> sa[k] == sb[k],
        decreases a.len() - i,
    {
        if !bytes_eq(a[i].as_slice(), b[i].as_slice()) {
            assert(sa[i as int] != sb[i as int]);
            assert(sb.subrange(0, sa.len() as int)[i as int] == sb[i as int]);
            return false;
        }
        i = i + 1;
    }
    assert(sa == sb.subrange(0, sa.len() as int));
    true
}

/// The parent of a path with a plain name behind it is the path.
pub proof fn law_parent_of_joined(p: Seq<u8>, name: Seq<u8>)
    requires
        plain(name),
    ensures
        parent_path(joined(p, name)) matches Some(q) && same_path(q, p),
        name != dots_comp() ==> base_name(joined(p, name)) == Some(name),
        under(joined(p, name), p),
{
    lemma_joined_comps(p, name);
    lemma_parent_comps(joined(p, name));
    let cs = comps(p).push(name);
    assert(cs.last() == name);
    assert(name != root_comp()) by {
        assert(root_comp()[0] == SLASH);
    }
    assert(cs.drop_last() =~= comps(p));
    assert(cs.subrange(0, comps(p).len() as int) =~= comps(p));
}

} // verus!
