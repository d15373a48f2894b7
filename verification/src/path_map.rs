//! A small map keyed by path that can be walked.

use crate::path::{same_path, under, PathBuf};
use vstd::prelude::*;

verus! {

/// A map from paths to values, in the order in which the keys came. Paths with
/// the same components are one key.
pub struct PathMap<T> {
    pub entries: Vec<(PathBuf, T)>,
}

impl<T: View> View for PathMap<T> {
    type V = Seq<(Seq<u8>, T::V)>;

    open spec fn view(&self) -> Seq<(Seq<u8>, T::V)> {
        Seq::new(self.entries@.len(), |i: int| (self.entries@[i].0@, self.entries@[i].1@))
    }
}

/// The place of a key among the first `n` entries.
pub open spec fn place_of<V>(s: Seq<(Seq<u8>, V)>, path: Seq<u8>, n: nat) -> Option<int>
    decreases n,
{
    if n == 0 {
        None
    } else if same_path(s[n - 1].0, path) {
        Some(n - 1)
    } else {
        place_of(s, path, (n - 1) as nat)
    }
}

/// The value that is filed under a path.
pub open spec fn filed_under<V>(s: Seq<(Seq<u8>, V)>, path: Seq<u8>) -> Option<V> {
    match place_of(s, path, s.len()) {
        Some(i) => Some(s[i].1),
        None => None,
    }
}

/// The entries with a value filed under a path, in place of what stood there.
pub open spec fn with_filed<V>(s: Seq<(Seq<u8>, V)>, path: Seq<u8>, value: V) -> Seq<
    (Seq<u8>, V),
> {
    match place_of(s, path, s.len()) {
        Some(i) => s.update(i, (s[i].0, value)),
        None => s.push((path, value)),
    }
}

/// The entries without the one of a path.
pub open spec fn without_filed<V>(s: Seq<(Seq<u8>, V)>, path: Seq<u8>) -> Seq<(Seq<u8>, V)> {
    match place_of(s, path, s.len()) {
        Some(i) => s.remove(i),
        None => s,
    }
}

/// The last of the longest keys among the first `n` entries that are `path`
/// or lie above it.
pub open spec fn longest_key<V>(s: Seq<(Seq<u8>, V)>, path: Seq<u8>, n: nat) -> Option<int>
    decreases n,
{
    if n == 0 {
        None
    } else {
        let best = longest_key(s, path, (n - 1) as nat);
        if under(path, s[n - 1].0) && (best is None || s[best.unwrap()].0.len() <= s[n
            - 1].0.len()) {
            Some(n - 1)
        } else {
            best
        }
    }
}

/// Whether no two entries have the same key.
pub open spec fn distinct_keys<V>(s: Seq<(Seq<u8>, V)>) -> bool {
    forall|i: int, j: int|
        0 <= i < j < s.len() ==> !same_path((#[trigger] s[i]).0, (#[trigger] s[j]).0)
}

/// A key is found where it stands.
pub proof fn lemma_place_of<V>(s: Seq<(Seq<u8>, V)>, path: Seq<u8>, n: nat)
    requires
        n <= s.len(),
    ensures
        match place_of(s, path, n) {
            Some(i) => 0 <= i < n && same_path(s[i].0, path),
            None => forall|j: int| 0 <= j < n ==> !same_path((#[trigger] s[j]).0, path),
        },
    decreases n,
{
    if n > 0 && !same_path(s[n - 1].0, path) {
        lemma_place_of(s, path, (n - 1) as nat);
    }
}

/// The longest key is one of the entries.
pub proof fn lemma_longest_key<V>(s: Seq<(Seq<u8>, V)>, path: Seq<u8>, n: nat)
    requires
        n <= s.len(),
    ensures
        longest_key(s, path, n) matches Some(i) ==> 0 <= i < n && under(path, s[i].0),
    decreases n,
{
    if n > 0 {
        lemma_longest_key(s, path, (n - 1) as nat);
    }
}

/// What is filed under a path is found there, and under no other path anything
/// changes.
pub proof fn law_filed<V>(s: Seq<(Seq<u8>, V)>, path: Seq<u8>, value: V, other: Seq<u8>)
    ensures
        filed_under(with_filed(s, path, value), path) == Some(value),
        !same_path(path, other) ==> filed_under(with_filed(s, path, value), other) == filed_under(
            s,
            other,
        ),
{
    let t = with_filed(s, path, value);
    lemma_place_of(s, path, s.len());
    match place_of(s, path, s.len()) {
        Some(i) => {
            lemma_place_same(s, t, path, s.len());
            if !same_path(path, other) {
                lemma_place_same(s, t, other, s.len());
                lemma_place_of(s, other, s.len());
            }
        },
        None => {
            if !same_path(path, other) {
                lemma_place_same(s, t, other, s.len());
                lemma_place_of(s, other, s.len());
            }
        },
    }
}

proof fn lemma_place_same<V>(s: Seq<(Seq<u8>, V)>, t: Seq<(Seq<u8>, V)>, path: Seq<u8>, n: nat)
    requires
        n <= s.len() <= t.len(),
        forall|i: int| 0 <= i < s.len() ==> (#[trigger] s[i]).0 == t[i].0,
    ensures
        place_of(s, path, n) == place_of(t, path, n),
    decreases n,
{
    if n > 0 {
        assert(s[n - 1].0 == t[n - 1].0);
        lemma_place_same(s, t, path, (n - 1) as nat);
    }
}

/// Keys stay distinct where a value is filed.
pub proof fn law_filed_distinct<V>(s: Seq<(Seq<u8>, V)>, path: Seq<u8>, value: V)
    requires
        distinct_keys(s),
    ensures
        distinct_keys(with_filed(s, path, value)),
{
    lemma_place_of(s, path, s.len());
    let t = with_filed(s, path, value);
    assert forall|i: int, j: int| 0 <= i < j < t.len() implies !same_path(
        (#[trigger] t[i]).0,
        (#[trigger] t[j]).0,
    ) by {
        if j < s.len() {
            assert(s[i].0 == t[i].0 && s[j].0 == t[j].0);
        } else {
            assert(s[i].0 == t[i].0);
        }
    }
}

/// Keys stay distinct where an entry is dropped, and the dropped one is not
/// found any more.
pub proof fn law_dropped<V>(s: Seq<(Seq<u8>, V)>, path: Seq<u8>)
    requires
        distinct_keys(s),
    ensures
        distinct_keys(without_filed(s, path)),
        filed_under(without_filed(s, path), path) is None,
{
    let t = without_filed(s, path);
    lemma_place_of(s, path, s.len());
    lemma_place_of(t, path, t.len());
    if let Some(k) = place_of(s, path, s.len()) {
        assert forall|i: int| 0 <= i < t.len() implies #[trigger] t[i] == s[if i < k {
            i
        } else {
            i + 1
        }] by {}
        if let Some(j) = place_of(t, path, t.len()) {
            if j < k {
                assert(!same_path(s[j].0, s[k].0));
            } else {
                assert(!same_path(s[k].0, s[j + 1].0));
            }
        }
    }
}

impl<T: View> PathMap<T> {
    /// A map without entries.
    pub fn new() -> (r: PathMap<T>)
        ensures
            r@ == Seq::<(Seq<u8>, T::V)>::empty(),
    {
        let r = PathMap { entries: Vec::new() };
        assert(r@ =~= Seq::<(Seq<u8>, T::V)>::empty());
        r
    }

    /// The place of a key.
    pub fn find(&self, path: &PathBuf) -> (r: Option<usize>)
        ensures
            match r {
                Some(i) => i < self@.len() && place_of(self@, path@, self@.len()) == Some(i as int),
                None => place_of(self@, path@, self@.len()) is None,
            },
    {
        let ghost all = self@;
        let mut n: usize = self.entries.len();
        while n > 0
            invariant
                n <= self.entries@.len(),
                all == self@,
                place_of(all, path@, all.len()) == place_of(all, path@, n as nat),
            decreases n,
        {
            assert(all[n - 1] == (self.entries@[n - 1].0@, self.entries@[n - 1].1@));
            if self.entries[n - 1].0.same_as(path) {
                return Some(n - 1);
            }
            n = n - 1;
        }
        None
    }

    /// The value that is filed under a path.
    pub fn get(&self, path: &PathBuf) -> (r: Option<&T>)
        ensures
            match r {
                Some(v) => filed_under(self@, path@) == Some(v@),
                None => filed_under(self@, path@) is None,
            },
            r matches Some(v) ==> exists|i: int|
                0 <= i < self.entries@.len() && (#[trigger] self.entries@[i]).1 == *v,
    {
        match self.find(path) {
            Some(i) => {
                assert(self.entries@[i as int].1 == self.entries@[i as int].1);
                Some(&self.entries[i].1)
            },
            None => None,
        }
    }

    /// Files a value under a path, in place of what stood there.
    pub fn insert(&mut self, path: PathBuf, value: T)
        ensures
            final(self)@ == with_filed(old(self)@, path@, value@),
            distinct_keys(old(self)@) ==> distinct_keys(final(self)@),
    {
        proof {
            if distinct_keys(self@) {
                law_filed_distinct(self@, path@, value@);
            }
        }
        let ghost before = self@;
        let ghost key = path@;
        let ghost model = value@;
        match self.find(&path) {
            Some(i) => {
                self.entries[i].1 = value;
                assert(self@ =~= before.update(i as int, (before[i as int].0, model)));
            },
            None => {
                self.entries.push((path, value));
                assert(self@ =~= before.push((key, model)));
            },
        }
    }

    /// Drops what is filed under a path.
    pub fn remove(&mut self, path: &PathBuf)
        ensures
            final(self)@ == without_filed(old(self)@, path@),
            distinct_keys(old(self)@) ==> distinct_keys(final(self)@),
    {
        proof {
            if distinct_keys(self@) {
                law_dropped(self@, path@);
            }
        }
        let ghost before = self@;
        if let Some(i) = self.find(path) {
            self.entries.remove(i);
            assert(self@ =~= before.remove(i as int));
        }
    }

    /// The longest key that is `path` or lies above it.
    pub fn longest_above(&self, path: &PathBuf) -> (r: Option<usize>)
        ensures
            match r {
                Some(i) => i < self@.len() && longest_key(self@, path@, self@.len()) == Some(
                    i as int,
                ),
                None => longest_key(self@, path@, self@.len()) is None,
            },
    {
        let ghost all = self@;
        let mut best: Option<usize> = None;
        let mut n: usize = 0;
        while n < self.entries.len()
            invariant
                n <= self.entries@.len(),
                all == self@,
                match best {
                    Some(b) => b < n && longest_key(all, path@, n as nat) == Some(b as int),
                    None => longest_key(all, path@, n as nat) is None,
                },
            decreases self.entries.len() - n,
        {
            assert(all[n as int] == (self.entries@[n as int].0@, self.entries@[n as int].1@));
            if path.starts_with(&self.entries[n].0) {
                match best {
                    Some(b) => {
                        assert(all[b as int] == (
                            self.entries@[b as int].0@,
                            self.entries@[b as int].1@,
                        ));
                        if self.entries[b].0.bytes.len() <= self.entries[n].0.bytes.len() {
                            best = Some(n);
                        }
                    },
                    None => {
                        best = Some(n);
                    },
                }
            }
            n = n + 1;
        }
        best
    }
}

} // verus!
