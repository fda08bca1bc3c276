//! Keys and values of a state map, and the order in which keys are hashed.
//!
//! A key is identified and ordered by its bytes: two keys are the same key when their
//! bytes are equal, and keys are ordered lexicographically, a proper prefix first.
use vstd::prelude::*;
use vstd::relations::*;

verus! {

/// What a key of a [`crate::StateMap`] is: a byte string.
pub type StateMapKey = Vec<u8>;

/// What a value of a [`crate::StateMap`] is: a byte string.
pub type StateMapValue = Vec<u8>;

/// Lexicographic order on byte strings: the first differing byte decides, and a proper
/// prefix comes before the longer string.
pub open spec fn key_le(a: Seq<u8>, b: Seq<u8>) -> bool
    decreases a.len(),
{
    if a.len() == 0 {
        true
    } else if b.len() == 0 {
        false
    } else if a[0] != b[0] {
        a[0] < b[0]
    } else {
        key_le(a.drop_first(), b.drop_first())
    }
}

/// [`key_le`] as a relation.
pub open spec fn key_order() -> spec_fn(Seq<u8>, Seq<u8>) -> bool {
    |a: Seq<u8>, b: Seq<u8>| key_le(a, b)
}

/// The view of a sequence of byte vectors.
pub open spec fn keys_view(s: Seq<Vec<u8>>) -> Seq<Seq<u8>> {
    s.map_values(|k: Vec<u8>| k@)
}

proof fn lemma_key_le_reflexive(a: Seq<u8>)
    ensures
        key_le(a, a),
    decreases a.len(),
{
    if a.len() > 0 {
        lemma_key_le_reflexive(a.drop_first());
    }
}

proof fn lemma_key_le_antisymmetric(a: Seq<u8>, b: Seq<u8>)
    requires
        key_le(a, b),
        key_le(b, a),
    ensures
        a == b,
    decreases a.len(),
{
    if a.len() > 0 && b.len() > 0 {
        lemma_key_le_antisymmetric(a.drop_first(), b.drop_first());
        assert(a =~= seq![a[0]] + a.drop_first());
        assert(b =~= seq![b[0]] + b.drop_first());
    }
}

proof fn lemma_key_le_transitive(a: Seq<u8>, b: Seq<u8>, c: Seq<u8>)
    requires
        key_le(a, b),
        key_le(b, c),
    ensures
        key_le(a, c),
    decreases a.len(),
{
    if a.len() > 0 && b.len() > 0 && c.len() > 0 {
        if a[0] == b[0] && b[0] == c[0] {
            lemma_key_le_transitive(a.drop_first(), b.drop_first(), c.drop_first());
        }
    }
}

proof fn lemma_key_le_total(a: Seq<u8>, b: Seq<u8>)
    ensures
        key_le(a, b) || key_le(b, a),
    decreases a.len(),
{
    if a.len() > 0 && b.len() > 0 && a[0] == b[0] {
        lemma_key_le_total(a.drop_first(), b.drop_first());
    }
}

/// The key order is a total order.
pub proof fn lemma_key_order_total()
    ensures
        total_ordering(key_order()),
{
    assert forall|x: Seq<u8>| #[trigger] key_order()(x, x) by {
        lemma_key_le_reflexive(x);
    }
    assert forall|x: Seq<u8>, y: Seq<u8>|
        #[trigger] key_order()(x, y) && #[trigger] key_order()(y, x) implies x == y by {
        lemma_key_le_antisymmetric(x, y);
    }
    assert forall|x: Seq<u8>, y: Seq<u8>, z: Seq<u8>|
        #[trigger] key_order()(x, y) && #[trigger] key_order()(y, z) implies key_order()(x, z) by {
        lemma_key_le_transitive(x, y, z);
    }
    assert forall|x: Seq<u8>, y: Seq<u8>|
        #[trigger] key_order()(x, y) || #[trigger] key_order()(y, x) by {
        lemma_key_le_total(x, y);
    }
}

/// Whether two byte strings are equal.
pub fn bytes_equal(a: &[u8], b: &[u8]) -> (r: bool)
    ensures
        r == (a@ == b@),
{
    if a.len() != b.len() {
        return false;
    }
    let mut i: usize = 0;
    while i < a.len()
        invariant
            i <= a@.len(),
            a@.len() == b@.len(),
            forall|j: int| 0 <= j < i ==> a@[j] == b@[j],
        decreases a@.len() - i,
    {
        if a[i] != b[i] {
            return false;
        }
        i = i + 1;
    }
    assert(a@ =~= b@);
    true
}

/// Whether `a` comes before `b` or equals it in the key order.
pub fn key_le_exec(a: &[u8], b: &[u8]) -> (r: bool)
    ensures
        r == key_le(a@, b@),
{
    let mut i: usize = 0;
    assert(a@.skip(0) =~= a@);
    assert(b@.skip(0) =~= b@);
    while i < a.len() && i < b.len()
        invariant
            i <= a@.len(),
            i <= b@.len(),
            key_le(a@, b@) == key_le(a@.skip(i as int), b@.skip(i as int)),
        decreases a@.len() - i,
    {
        if a[i] != b[i] {
            return a[i] < b[i];
        }
        assert(a@.skip(i as int).drop_first() =~= a@.skip(i + 1));
        assert(b@.skip(i as int).drop_first() =~= b@.skip(i + 1));
        i = i + 1;
    }
    i == a.len()
}

/// A copy of a byte string.
pub fn copy_bytes(a: &[u8]) -> (r: Vec<u8>)
    ensures
        r@ == a@,
{
    vstd::slice::slice_to_vec(a)
}

/// The keys of `v`, sorted ascending in the key order (duplicates kept).
pub fn sort_keys(v: &Vec<Vec<u8>>) -> (r: Vec<Vec<u8>>)
    ensures
        keys_view(r@) == keys_view(v@).sort_by(key_order()),
{
    let mut r: Vec<Vec<u8>> = Vec::new();
    let mut i: usize = 0;
    proof {
        lemma_key_order_total();
        assert(keys_view(r@) =~= keys_view(v@).take(0));
    }
    while i < v.len()
        invariant
            i <= v@.len(),
            total_ordering(key_order()),
            sorted_by(keys_view(r@), key_order()),
            keys_view(r@).to_multiset() == keys_view(v@).take(i as int).to_multiset(),
        decreases v@.len() - i,
    {
        let x = copy_bytes(v[i].as_slice());
        // the first position whose key comes strictly after x
        let mut p: usize = 0;
        while p < r.len() && key_le_exec(r[p].as_slice(), x.as_slice())
            invariant
                p <= r@.len(),
                forall|q: int| 0 <= q < p ==> key_le(#[trigger] r@[q]@, x@),
            decreases r@.len() - p,
        {
            p = p + 1;
        }
        let ghost old_r = keys_view(r@);
        r.insert(p, x);
        proof {
            let nr = keys_view(r@);
            assert(nr =~= old_r.insert(p as int, x@));
            assert forall|a: int, b: int| 0 <= a < b < nr.len() implies #[trigger] key_order()(
                nr[a],
                nr[b],
            ) by {
                if b < p {
                    assert(key_order()(old_r[a], old_r[b]));
                } else if a < p && b == p {
                    assert(key_le(r@[a]@, x@));
                } else if a < p {
                    assert(key_le(old_r[a], x@));
                    assert(!key_le(old_r[p as int], x@));
                    lemma_key_le_total(old_r[p as int], x@);
                    if b - 1 > p {
                        assert(key_order()(old_r[p as int], old_r[b - 1]));
                    } else {
                        lemma_key_le_reflexive(old_r[p as int]);
                    }
                    lemma_key_le_transitive(x@, old_r[p as int], old_r[b - 1]);
                    lemma_key_le_transitive(old_r[a], x@, old_r[b - 1]);
                } else if a == p {
                    assert(!key_le(old_r[p as int], x@));
                    lemma_key_le_total(old_r[p as int], x@);
                    if b - 1 > p {
                        assert(key_order()(old_r[p as int], old_r[b - 1]));
                        lemma_key_le_transitive(x@, old_r[p as int], old_r[b - 1]);
                    }
                } else {
                    assert(key_order()(old_r[a - 1], old_r[b - 1]));
                }
            }
            assert(nr.remove(p as int) =~= old_r);
            vstd::seq_lib::to_multiset_remove(nr, p as int);
            assert(nr.to_multiset().count(x@) > 0) by {
                vstd::seq_lib::to_multiset_contains(nr, x@);
                assert(nr[p as int] == x@);
            }
            let vt = keys_view(v@).take(i as int);
            assert(keys_view(v@).take(i + 1) =~= vt.push(x@));
            vstd::seq_lib::to_multiset_build(vt, x@);
            assert(nr.to_multiset() =~= old_r.to_multiset().insert(x@));
        }
        i = i + 1;
    }
    proof {
        assert(keys_view(v@).take(v@.len() as int) =~= keys_view(v@));
        keys_view(v@).lemma_sort_by_ensures(key_order());
        vstd::seq_lib::lemma_sorted_unique(keys_view(r@), keys_view(v@).sort_by(key_order()), key_order());
    }
    r
}

} // verus!
