//! Ordered sets of integers: filling a `BTreeSet` with a run of consecutive
//! values and reading it out smallest first.

use std::collections::BTreeSet;
use vstd::laws_cmp::obeys_cmp;
use vstd::prelude::*;
use vstd::std_specs::btree::{increasing_seq, key_obeys_cmp_spec};
use vstd::std_specs::cmp::OrdSpec;
use vstd::std_specs::iter::IteratorSpec;

verus! {

/// The 16-bit values from `a` to `b`, both included.
pub open spec fn span_u16(a: u16, b: u16) -> Set<u16> {
    Set::new(|x: u16| a <= x <= b)
}

/// The 32-bit values from `a` to `b`, both included.
pub open spec fn span_u32(a: u32, b: u32) -> Set<u32> {
    Set::new(|x: u32| a <= x <= b)
}

/// The 128-bit values from `a` to `b`, both included.
pub open spec fn span_u128(a: u128, b: u128) -> Set<u128> {
    Set::new(|x: u128| a <= x <= b)
}

/// Adds every value from `a` to `b` to `set`; nothing where `a > b`.
pub fn insert_span_u16(set: &mut BTreeSet<u16>, a: u16, b: u16)
    ensures
        final(set)@ == old(set)@.union(span_u16(a, b)),
{
    let ghost before = set@;
    if a > b {
        assert(before.union(span_u16(a, b)) =~= before);
        return ;
    }
    let mut x: u16 = a;
    loop
        invariant_except_break
            a <= x <= b,
            set@ =~= before.union(Set::new(|y: u16| a <= y < x)),
        ensures
            set@ =~= before.union(span_u16(a, b)),
        decreases b - x,
    {
        assert(obeys_cmp::<u16>());
        set.insert(x);
        if x == b {
            break ;
        }
        x = x + 1;
    }
}

/// Adds every value from `a` to `b` to `set`; nothing where `a > b`.
pub fn insert_span_u32(set: &mut BTreeSet<u32>, a: u32, b: u32)
    ensures
        final(set)@ == old(set)@.union(span_u32(a, b)),
{
    let ghost before = set@;
    if a > b {
        assert(before.union(span_u32(a, b)) =~= before);
        return ;
    }
    let mut x: u32 = a;
    loop
        invariant_except_break
            a <= x <= b,
            set@ =~= before.union(Set::new(|y: u32| a <= y < x)),
        ensures
            set@ =~= before.union(span_u32(a, b)),
        decreases b - x,
    {
        assert(obeys_cmp::<u32>());
        set.insert(x);
        if x == b {
            break ;
        }
        x = x + 1;
    }
}

/// Adds every value from `a` to `b` to `set`; nothing where `a > b`.
pub fn insert_span_u128(set: &mut BTreeSet<u128>, a: u128, b: u128)
    ensures
        final(set)@ == old(set)@.union(span_u128(a, b)),
{
    let ghost before = set@;
    if a > b {
        assert(before.union(span_u128(a, b)) =~= before);
        return ;
    }
    let mut x: u128 = a;
    loop
        invariant_except_break
            a <= x <= b,
            set@ =~= before.union(Set::new(|y: u128| a <= y < x)),
        ensures
            set@ =~= before.union(span_u128(a, b)),
        decreases b - x,
    {
        assert(obeys_cmp::<u128>());
        set.insert(x);
        if x == b {
            break ;
        }
        x = x + 1;
    }
}

/// Two sequences that ascend in an order in which no two values precede
/// each other, and that hold the same values, are equal.
pub proof fn lemma_ascending_unique<T>(a: Seq<T>, b: Seq<T>, lt: spec_fn(T, T) -> bool)
    requires
        forall|x: T, y: T| !(#[trigger] lt(x, y) && lt(y, x)),
        forall|i: int, j: int| 0 <= i < j < a.len() ==> lt(a[i], a[j]),
        forall|i: int, j: int| 0 <= i < j < b.len() ==> lt(b[i], b[j]),
        forall|x: T| a.contains(x) <==> b.contains(x),
    ensures
        a == b,
    decreases a.len(),
{
    if a.len() == 0 {
        if b.len() > 0 {
            assert(b.contains(b[0]));
        }
        assert(a =~= b);
    } else {
        assert(a.contains(a[0]));
        let j = choose|j: int| 0 <= j < b.len() && b[j] == a[0];
        assert(b.contains(b[0]));
        let i = choose|i: int| 0 <= i < a.len() && a[i] == b[0];
        if i > 0 && j > 0 {
            assert(lt(a[0], a[i]) && lt(b[0], b[j]));
        }
        assert(a[0] == b[0]);
        let a1 = a.skip(1);
        let b1 = b.skip(1);
        assert forall|x: T| a1.contains(x) <==> b1.contains(x) by {
            if a1.contains(x) {
                let k = choose|k: int| 0 <= k < a1.len() && a1[k] == x;
                assert(a[k + 1] == x);
                assert(lt(a[0], a[k + 1]));
                assert(a.contains(x));
                let l = choose|l: int| 0 <= l < b.len() && b[l] == x;
                assert(b1[l - 1] == x);
            }
            if b1.contains(x) {
                let k = choose|k: int| 0 <= k < b1.len() && b1[k] == x;
                assert(b[k + 1] == x);
                assert(lt(b[0], b[k + 1]));
                assert(b.contains(x));
                let l = choose|l: int| 0 <= l < a.len() && a[l] == x;
                assert(a1[l - 1] == x);
            }
        }
        lemma_ascending_unique(a1, b1, lt);
        assert(a =~= b) by {
            assert forall|k: int| 0 <= k < a.len() implies a[k] == b[k] by {
                if k > 0 {
                    assert(a1[k - 1] == a[k]);
                    assert(b1[k - 1] == b[k]);
                }
            }
        }
    }
}

/// The elements of `set` in the order in which the set keeps them.
fn in_order<T: Copy + Ord>(set: &BTreeSet<T>) -> (v: Vec<T>)
    requires
        obeys_cmp::<T>(),
    ensures
        v@.to_set() == set@,
        forall|i: int, j: int|
            0 <= i < j < v@.len() ==> OrdSpec::cmp_spec(&v@[i], &v@[j]) is Less,
{
    assert(key_obeys_cmp_spec::<T>());
    let ghost keys = set.iter().remaining();
    let mut v: Vec<T> = Vec::new();
    for x in it: set.iter()
        invariant
            it.seq() == keys,
            v@ =~= keys.unref().take(it.index()),
    {
        v.push(*x);
    }
    proof {
        assert(v@ =~= keys.unref());
        assert(obeys_cmp::<&T>());
        assert(increasing_seq(keys));
        assert forall|i: int, j: int| 0 <= i < j < v@.len() implies OrdSpec::cmp_spec(
            &v@[i],
            &v@[j],
        ) is Less by {
            assert(OrdSpec::cmp_spec(&keys[i], &keys[j]) is Less);
        }
    }
    v
}

/// The elements of `set`, smallest first.
pub fn in_order_u16(set: &BTreeSet<u16>) -> (v: Vec<u16>)
    ensures
        v@.to_set() == set@,
        forall|i: int, j: int| 0 <= i < j < v@.len() ==> v@[i] < v@[j],
{
    assert(obeys_cmp::<u16>());
    let v = in_order(set);
    assert forall|i: int, j: int| 0 <= i < j < v@.len() implies v@[i] < v@[j] by {
        assert(OrdSpec::cmp_spec(&v@[i], &v@[j]) is Less);
    }
    v
}

/// The elements of `set`, smallest first.
pub fn in_order_u32(set: &BTreeSet<u32>) -> (v: Vec<u32>)
    ensures
        v@.to_set() == set@,
        forall|i: int, j: int| 0 <= i < j < v@.len() ==> v@[i] < v@[j],
{
    assert(obeys_cmp::<u32>());
    let v = in_order(set);
    assert forall|i: int, j: int| 0 <= i < j < v@.len() implies v@[i] < v@[j] by {
        assert(OrdSpec::cmp_spec(&v@[i], &v@[j]) is Less);
    }
    v
}

/// The elements of `set`, smallest first.
pub fn in_order_u128(set: &BTreeSet<u128>) -> (v: Vec<u128>)
    ensures
        v@.to_set() == set@,
        forall|i: int, j: int| 0 <= i < j < v@.len() ==> v@[i] < v@[j],
{
    assert(obeys_cmp::<u128>());
    let v = in_order(set);
    assert forall|i: int, j: int| 0 <= i < j < v@.len() implies v@[i] < v@[j] by {
        assert(OrdSpec::cmp_spec(&v@[i], &v@[j]) is Less);
    }
    v
}

} // verus!
