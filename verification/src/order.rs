//! The order of byte strings and of paths.

use crate::path::{byte_lists, comps, dot_comp, dots_comp, root_comp, PathBuf, DOT, SLASH};
use crate::sort::Ranked;
use vstd::prelude::*;

verus! {

/// Whether `a` comes before `b` in the lexicographic order of bytes.
pub open spec fn bytes_less(a: Seq<u8>, b: Seq<u8>) -> bool
    decreases a.len(),
{
    if b.len() == 0 {
        false
    } else if a.len() == 0 {
        true
    } else {
        a[0] < b[0] || (a[0] == b[0] && bytes_less(a.drop_first(), b.drop_first()))
    }
}

/// The class of a component: the root, the current directory, the parent
/// directory, a name.
pub open spec fn comp_rank(c: Seq<u8>) -> int {
    if c == root_comp() {
        0
    } else if c == dot_comp() {
        1
    } else if c == dots_comp() {
        2
    } else {
        3
    }
}

/// Whether one component comes before another: by class, names by their bytes.
pub open spec fn comp_less(a: Seq<u8>, b: Seq<u8>) -> bool {
    comp_rank(a) < comp_rank(b) || (comp_rank(a) == 3 && comp_rank(b) == 3 && bytes_less(a, b))
}

/// Whether `a` comes before `b` in the lexicographic order of components.
pub open spec fn comps_less(a: Seq<Seq<u8>>, b: Seq<Seq<u8>>) -> bool
    decreases a.len(),
{
    if b.len() == 0 {
        false
    } else if a.len() == 0 {
        true
    } else {
        comp_less(a[0], b[0]) || (a[0] == b[0] && comps_less(a.drop_first(), b.drop_first()))
    }
}

/// Whether the path `a` comes no later than `b`.
pub open spec fn path_at_most(a: Seq<u8>, b: Seq<u8>) -> bool {
    !comps_less(comps(b), comps(a))
}

/// Of two byte strings exactly one comes first, or they are equal.
pub proof fn lemma_bytes_order(a: Seq<u8>, b: Seq<u8>)
    ensures
        a == b ==> !bytes_less(a, b),
        a != b ==> bytes_less(a, b) != bytes_less(b, a),
    decreases a.len(),
{
    if a.len() == 0 || b.len() == 0 {
        if a.len() == b.len() {
            assert(a =~= b);
        }
    } else {
        lemma_bytes_order(a.drop_first(), b.drop_first());
        if a[0] == b[0] && a.drop_first() == b.drop_first() {
            assert(a =~= seq![a[0]] + a.drop_first());
            assert(b =~= seq![b[0]] + b.drop_first());
        }
    }
}

/// The order of byte strings is transitive.
pub proof fn lemma_bytes_transitive(a: Seq<u8>, b: Seq<u8>, c: Seq<u8>)
    requires
        bytes_less(a, b),
        bytes_less(b, c),
    ensures
        bytes_less(a, c),
    decreases a.len(),
{
    if a.len() > 0 && a[0] == b[0] && b[0] == c[0] {
        lemma_bytes_transitive(a.drop_first(), b.drop_first(), c.drop_first());
    }
}

proof fn lemma_comp_order(a: Seq<u8>, b: Seq<u8>)
    ensures
        a == b ==> !comp_less(a, b),
        a != b ==> comp_less(a, b) != comp_less(b, a),
{
    lemma_bytes_order(a, b);
}

proof fn lemma_comp_transitive(a: Seq<u8>, b: Seq<u8>, c: Seq<u8>)
    requires
        comp_less(a, b),
        comp_less(b, c),
    ensures
        comp_less(a, c),
{
    if comp_rank(a) == 3 && comp_rank(b) == 3 && comp_rank(c) == 3 {
        lemma_bytes_transitive(a, b, c);
    }
}

/// Of two lists of components exactly one comes first, or they are equal.
pub proof fn lemma_comps_order(a: Seq<Seq<u8>>, b: Seq<Seq<u8>>)
    ensures
        a == b ==> !comps_less(a, b),
        a != b ==> comps_less(a, b) != comps_less(b, a),
    decreases a.len(),
{
    if a.len() == 0 || b.len() == 0 {
        if a.len() == b.len() {
            assert(a =~= b);
        }
    } else {
        lemma_comp_order(a[0], b[0]);
        lemma_comps_order(a.drop_first(), b.drop_first());
        if a[0] == b[0] && a.drop_first() == b.drop_first() {
            assert(a =~= seq![a[0]] + a.drop_first());
            assert(b =~= seq![b[0]] + b.drop_first());
        }
    }
}

/// The order of components is transitive.
pub proof fn lemma_comps_transitive(a: Seq<Seq<u8>>, b: Seq<Seq<u8>>, c: Seq<Seq<u8>>)
    requires
        comps_less(a, b),
        comps_less(b, c),
    ensures
        comps_less(a, c),
    decreases a.len(),
{
    if a.len() > 0 {
        lemma_comp_order(a[0], a[0]);
        if a[0] == b[0] && b[0] == c[0] {
            lemma_comps_transitive(a.drop_first(), b.drop_first(), c.drop_first());
        } else if comp_less(a[0], b[0]) && comp_less(b[0], c[0]) {
            lemma_comp_transitive(a[0], b[0], c[0]);
        }
    }
}

/// Of two paths one comes no later than the other.
pub proof fn lemma_path_total(a: Seq<u8>, b: Seq<u8>)
    ensures
        path_at_most(a, b) || path_at_most(b, a),
{
    lemma_comps_order(comps(a), comps(b));
}

/// The order of paths is transitive.
pub proof fn lemma_path_transitive(a: Seq<u8>, b: Seq<u8>, c: Seq<u8>)
    requires
        path_at_most(a, b),
        path_at_most(b, c),
    ensures
        path_at_most(a, c),
{
    let (x, y, z) = (comps(a), comps(b), comps(c));
    lemma_comps_order(x, y);
    lemma_comps_order(y, z);
    lemma_comps_order(x, z);
    if x != y && y != z && comps_less(z, x) {
        lemma_comps_transitive(x, y, z);
    }
}

/// Whether `a` comes before `b` in the lexicographic order of bytes.
pub fn bytes_before(a: &[u8], b: &[u8]) -> (r: bool)
    ensures
        r == bytes_less(a@, b@),
{
    let mut i: usize = 0;
    assert(a@.skip(0) =~= a@);
    assert(b@.skip(0) =~= b@);
    while i < a.len() && i < b.len()
        invariant
            i <= a.len(),
            i <= b.len(),
            bytes_less(a@, b@) == bytes_less(a@.skip(i as int), b@.skip(i as int)),
        decreases a.len() - i,
    {
        assert(a@.skip(i as int)[0] == a@[i as int]);
        assert(b@.skip(i as int)[0] == b@[i as int]);
        assert(a@.skip(i as int).drop_first() =~= a@.skip(i + 1));
        assert(b@.skip(i as int).drop_first() =~= b@.skip(i + 1));
        if a[i] != b[i] {
            return a[i] < b[i];
        }
        i = i + 1;
    }
    i < b.len()
}

/// The class of a component.
fn rank_of(c: &Vec<u8>) -> (r: u8)
    ensures
        r == comp_rank(c@),
{
    if c.len() == 1 && c[0] == SLASH {
        assert(c@ =~= root_comp());
        0
    } else if c.len() == 1 && c[0] == DOT {
        assert(c@ =~= dot_comp());
        1
    } else if c.len() == 2 && c[0] == DOT && c[1] == DOT {
        assert(c@ =~= dots_comp());
        2
    } else {
        3
    }
}

/// Whether one component comes before another.
fn comp_before(a: &Vec<u8>, b: &Vec<u8>) -> (r: bool)
    ensures
        r == comp_less(a@, b@),
{
    let x: u8 = rank_of(a);
    let y: u8 = rank_of(b);
    x < y || (x == 3 && y == 3 && bytes_before(a.as_slice(), b.as_slice()))
}

impl PathBuf {
    /// Whether this path comes no later than `other`.
    pub fn at_most(&self, other: &PathBuf) -> (r: bool)
        ensures
            r == path_at_most(self@, other@),
    {
        let a = other.components();
        let b = self.components();
        let ghost x = byte_lists(a@);
        let ghost y = byte_lists(b@);
        let mut i: usize = 0;
        assert(x.skip(0) =~= x);
        assert(y.skip(0) =~= y);
        while i < a.len() && i < b.len()
            invariant
                i <= a.len(),
                i <= b.len(),
                x == byte_lists(a@),
                x == comps(other@),
                y == byte_lists(b@),
                y == comps(self@),
                comps_less(x, y) == comps_less(x.skip(i as int), y.skip(i as int)),
            decreases a.len() - i,
        {
            assert(x.skip(i as int)[0] == a@[i as int]@);
            assert(y.skip(i as int)[0] == b@[i as int]@);
            assert(x.skip(i as int).drop_first() =~= x.skip(i + 1));
            assert(y.skip(i as int).drop_first() =~= y.skip(i + 1));
            proof {
                lemma_comp_order(a@[i as int]@, b@[i as int]@);
            }
            if comp_before(&a[i], &b[i]) {
                return false;
            }
            if comp_before(&b[i], &a[i]) {
                return true;
            }
            i = i + 1;
        }
        !(i < b.len())
    }
}

/// Paths are ranked by their components.
impl Ranked for PathBuf {
    open spec fn before(a: Seq<u8>, b: Seq<u8>) -> bool {
        path_at_most(a, b)
    }

    proof fn before_total(a: Seq<u8>, b: Seq<u8>) {
        lemma_path_total(a, b);
    }

    proof fn before_transitive(a: Seq<u8>, b: Seq<u8>, c: Seq<u8>) {
        lemma_path_transitive(a, b, c);
    }

    fn is_before(&self, other: &PathBuf) -> (r: bool) {
        self.at_most(other)
    }
}

} // verus!
