//! A map keyed by path.

use crate::path::{byte_lists, comps, lemma_comps_plain, plain, PathBuf};
use crate::path::{dot_comp, root_comp, SLASH};
use vstd::hash_map::StringHashMap;
use vstd::prelude::*;

verus! {

/// Whether a list of components is one that a path can have.
pub open spec fn valid_comps(cs: Seq<Seq<u8>>) -> bool {
    forall|k: int|
        0 <= k < cs.len() ==> plain(#[trigger] cs[k]) || (k == 0 && (cs[k] == root_comp() || cs[k]
            == dot_comp()))
}

/// The components of a path are valid.
pub proof fn lemma_comps_valid(p: Seq<u8>)
    ensures
        valid_comps(comps(p)),
{
    assert forall|k: int| 0 <= k < comps(p).len() implies plain(#[trigger] comps(p)[k]) || (k == 0
        && (comps(p)[k] == root_comp() || comps(p)[k] == dot_comp())) by {
        lemma_comps_plain(p, k);
    }
}

/// The text that stands for one component: a character for each byte, none
/// for the root.
spec fn chunk(c: Seq<u8>) -> Seq<char> {
    if c == root_comp() {
        Seq::empty()
    } else {
        Seq::new(c.len(), |i: int| c[i] as char)
    }
}

/// The text that stands for a list of components.
spec fn key_text(cs: Seq<Seq<u8>>) -> Seq<char>
    decreases cs.len(),
{
    if cs.len() == 0 {
        Seq::empty()
    } else {
        (key_text(cs.drop_last()) + chunk(cs.last())).push('/')
    }
}

proof fn lemma_chunk_injective(a: Seq<u8>, b: Seq<u8>)
    requires
        a == root_comp() || a == dot_comp() || plain(a),
        b == root_comp() || b == dot_comp() || plain(b),
        chunk(a) == chunk(b),
    ensures
        a == b,
{
    if a == root_comp() {
        if b != root_comp() {
            assert(chunk(b).len() == b.len());
            assert(false);
        }
    } else if b == root_comp() {
        assert(chunk(a).len() == a.len());
        assert(false);
    } else {
        assert(chunk(a).len() == a.len());
        assert(chunk(b).len() == b.len());
        assert forall|i: int| 0 <= i < a.len() implies a[i] == b[i] by {
            assert(chunk(a)[i] == a[i] as char);
            assert(chunk(b)[i] == b[i] as char);
        }
        assert(a == b);
    }
}

proof fn lemma_chunk_no_slash(c: Seq<u8>, i: int)
    requires
        c == root_comp() || c == dot_comp() || plain(c),
        0 <= i < chunk(c).len(),
    ensures
        chunk(c)[i] != '/',
{
    assert(chunk(c)[i] == c[i] as char);
    assert(c[i] != SLASH);
}

/// Different lists of components have different texts.
proof fn lemma_key_text_injective(a: Seq<Seq<u8>>, b: Seq<Seq<u8>>)
    requires
        valid_comps(a),
        valid_comps(b),
        key_text(a) == key_text(b),
    ensures
        a == b,
    decreases a.len(),
{
    if a.len() == 0 {
        if b.len() > 0 {
            assert(key_text(b).len() > 0);
        }
        assert(a == b);
    } else if b.len() == 0 {
        assert(key_text(a).len() > 0);
    } else {
        let a0 = key_text(a.drop_last());
        let b0 = key_text(b.drop_last());
        let ca = chunk(a.last());
        let cb = chunk(b.last());
        let sa = a0 + ca;
        let sb = b0 + cb;
        assert(sa.push('/').drop_last() == sa);
        assert(sb.push('/').drop_last() == sb);
        assert(sa == sb);
        assert(a.last() == a[a.len() - 1]);
        assert(b.last() == b[b.len() - 1]);
        if a0.len() > b0.len() {
            assert(a0.last() == '/');
            assert(sa[a0.len() - 1] == '/');
            lemma_chunk_no_slash(b.last(), a0.len() - 1 - b0.len());
            assert(sb[a0.len() - 1] == cb[a0.len() - 1 - b0.len()]);
        }
        if b0.len() > a0.len() {
            assert(b0.last() == '/');
            assert(sb[b0.len() - 1] == '/');
            lemma_chunk_no_slash(a.last(), b0.len() - 1 - a0.len());
            assert(sa[b0.len() - 1] == ca[b0.len() - 1 - a0.len()]);
        }
        assert(a0 == sa.take(a0.len() as int));
        assert(b0 == sb.take(b0.len() as int));
        assert(ca == sa.skip(a0.len() as int));
        assert(cb == sb.skip(b0.len() as int));
        assert(valid_comps(a.drop_last()));
        assert(valid_comps(b.drop_last()));
        lemma_key_text_injective(a.drop_last(), b.drop_last());
        lemma_chunk_injective(a.last(), b.last());
        assert(a == a.drop_last().push(a.last()));
        assert(b == b.drop_last().push(b.last()));
    }
}

/// The text under which a path is filed.
fn key_of(path: &PathBuf) -> (r: String)
    ensures
        r@ == key_text(comps(path@)),
{
    let cs = path.components();
    let ghost all = byte_lists(cs@);
    let mut out = String::new();
    let mut i: usize = 0;
    assert(all.take(0) == Seq::<Seq<u8>>::empty());
    while i < cs.len()
        invariant
            i <= cs.len(),
            all == byte_lists(cs@),
            out@ == key_text(all.take(i as int)),
        decreases cs.len() - i,
    {
        let c = &cs[i];
        let ghost before = out@;
        assert(all.take(i + 1).drop_last() == all.take(i as int));
        assert(all.take(i + 1).last() == c@);
        if !(c.len() == 1 && c[0] == SLASH) {
            assert(c@ != root_comp());
            let mut j: usize = 0;
            assert(before + chunk(c@).take(0) == before);
            while j < c.len()
                invariant
                    j <= c.len(),
                    c@ != root_comp(),
                    out@ == before + chunk(c@).take(j as int),
                decreases c.len() - j,
            {
                assert(chunk(c@)[j as int] == c@[j as int] as char);
                assert(chunk(c@).take(j + 1) == chunk(c@).take(j as int).push(c@[j as int] as char));
                out.push(c[j] as char);
                assert(out@ == before + chunk(c@).take(j + 1));
                j = j + 1;
            }
            assert(chunk(c@).take(c@.len() as int) == chunk(c@));
        } else {
            assert(c@ == root_comp());
            assert(before + chunk(c@) == before);
        }
        out.push('/');
        i = i + 1;
    }
    assert(all.take(all.len() as int) == all);
    out
}

/// A map from paths to values. Paths with the same components are one key.
#[verifier::reject_recursive_types(T)]
pub struct PathIndex<T> {
    map: StringHashMap<T>,
}

impl<T> View for PathIndex<T> {
    type V = Map<Seq<Seq<u8>>, T>;

    closed spec fn view(&self) -> Map<Seq<Seq<u8>>, T> {
        Map::new(
            |cs: Seq<Seq<u8>>| valid_comps(cs) && self.map@.dom().contains(key_text(cs)),
            |cs: Seq<Seq<u8>>| self.map@[key_text(cs)],
        )
    }
}

impl<T: Copy> PathIndex<T> {
    /// An index without entries.
    pub fn new() -> (r: PathIndex<T>)
        ensures
            r@ == Map::<Seq<Seq<u8>>, T>::empty(),
    {
        let r = PathIndex { map: StringHashMap::new() };
        assert(r@ == Map::<Seq<Seq<u8>>, T>::empty());
        r
    }

    /// Files `value` under `path`, in place of what stood there.
    pub fn insert(&mut self, path: &PathBuf, value: T)
        ensures
            final(self)@ == old(self)@.insert(comps(path@), value),
    {
        let ghost before = self@;
        let ghost texts = self.map@;
        let key = key_of(path);
        self.map.insert(key, value);
        proof {
            let k = comps(path@);
            lemma_comps_valid(path@);
            assert forall|cs: Seq<Seq<u8>>| self@.dom().contains(cs) <==> #[trigger] before.insert(
                k,
                value,
            ).dom().contains(cs) by {
                if valid_comps(cs) && key_text(cs) == key_text(k) {
                    lemma_key_text_injective(cs, k);
                }
            }
            assert forall|cs: Seq<Seq<u8>>| #[trigger] self@.dom().contains(cs) implies self@[cs]
                == before.insert(k, value)[cs] by {
                if key_text(cs) == key_text(k) {
                    lemma_key_text_injective(cs, k);
                }
            }
            assert(self@ =~= before.insert(k, value));
        }
    }

    /// Drops the entry of `path`, if there is one.
    pub fn remove(&mut self, path: &PathBuf)
        ensures
            final(self)@ == old(self)@.remove(comps(path@)),
    {
        let ghost before = self@;
        let key = key_of(path);
        self.map.remove(key.as_str());
        proof {
            let k = comps(path@);
            lemma_comps_valid(path@);
            assert forall|cs: Seq<Seq<u8>>| self@.dom().contains(cs) <==> #[trigger] before.remove(
                k,
            ).dom().contains(cs) by {
                if valid_comps(cs) && key_text(cs) == key_text(k) {
                    lemma_key_text_injective(cs, k);
                }
            }
            assert(self@ =~= before.remove(k));
        }
    }

    /// What is filed under `path`.
    pub fn get(&self, path: &PathBuf) -> (r: Option<T>)
        ensures
            r == if self@.dom().contains(comps(path@)) {
                Some(self@[comps(path@)])
            } else {
                None
            },
    {
        let key = key_of(path);
        proof {
            lemma_comps_valid(path@);
        }
        match self.map.get(key.as_str()) {
            Some(v) => Some(*v),
            None => None,
        }
    }
}

} // verus!
