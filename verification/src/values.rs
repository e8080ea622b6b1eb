//! Sets of cell values and their enumeration in increasing order.

use vstd::prelude::*;

verus! {

/// The members of `s` among `1..=hi`, in increasing order.
pub open spec fn ascending(s: Set<nat>, hi: nat) -> Seq<nat>
    decreases hi,
{
    if hi == 0 {
        Seq::empty()
    } else if s.contains(hi) {
        ascending(s, (hi - 1) as nat).push(hi)
    } else {
        ascending(s, (hi - 1) as nat)
    }
}

/// `ascending(s, hi)` lists exactly the members of `s` in `1..=hi`, each
/// once, smaller before larger.
pub proof fn lemma_ascending(s: Set<nat>, hi: nat)
    ensures
        ascending(s, hi).len() <= hi,
        forall|i: int|
            0 <= i < ascending(s, hi).len() ==> 1 <= #[trigger] ascending(s, hi)[i] <= hi
                && s.contains(ascending(s, hi)[i]),
        forall|i: int, j: int|
            0 <= i < j < ascending(s, hi).len() ==> ascending(s, hi)[i] < ascending(s, hi)[j],
        forall|v: nat| 1 <= v <= hi && s.contains(v) ==> ascending(s, hi).contains(v),
        ascending(s, hi).no_duplicates(),
    decreases hi,
{
    if hi > 0 {
        let before = ascending(s, (hi - 1) as nat);
        lemma_ascending(s, (hi - 1) as nat);
        let now = ascending(s, hi);
        assert forall|v: nat| 1 <= v <= hi && s.contains(v) implies now.contains(v) by {
            if v < hi {
                assert(before.contains(v));
                let i = choose|i: int| 0 <= i < before.len() && before[i] == v;
                assert(now[i] == v);
            } else {
                assert(now[now.len() - 1] == v);
            }
        }
    }
}

/// A set of values within `1..=hi` is finite and as large as its enumeration.
pub proof fn lemma_ascending_len(s: Set<nat>, hi: nat)
    requires
        forall|v: nat| s.contains(v) ==> 1 <= v <= hi,
    ensures
        s.finite(),
        s.len() == ascending(s, hi).len(),
        s.len() <= hi,
        ascending(s, hi).to_set() == s,
{
    lemma_ascending(s, hi);
    let asc = ascending(s, hi);
    assert(asc.to_set() =~= s);
    vstd::seq_lib::seq_to_set_is_finite(asc);
    asc.unique_seq_to_set();
}

/// The enumeration of a set with one member is that member alone.
pub proof fn lemma_ascending_single(s: Set<nat>, hi: nat)
    requires
        forall|v: nat| s.contains(v) ==> 1 <= v <= hi,
        s.len() == 1,
    ensures
        ascending(s, hi) == seq![s.choose()],
        s.contains(s.choose()),
{
    lemma_ascending(s, hi);
    lemma_ascending_len(s, hi);
    let asc = ascending(s, hi);
    assert(s.contains(asc[0]));
    assert(s.contains(s.choose()));
    assert(asc.contains(s.choose()));
    assert(asc =~= seq![s.choose()]);
}

/// The values `1..=size`.
pub open spec fn all_values(size: nat) -> Set<nat> {
    Set::new(|v: nat| 1 <= v <= size)
}

/// The values `1..=size` that are not in `s`.
pub open spec fn complement_of(size: nat, s: Set<nat>) -> Set<nat> {
    Set::new(|v: nat| 1 <= v <= size && !s.contains(v))
}

/// There are `size` values.
pub proof fn lemma_all_values(size: nat)
    ensures
        all_values(size).finite(),
        all_values(size).len() == size,
    decreases size,
{
    if size == 0 {
        assert(all_values(0) =~= Set::<nat>::empty());
    } else {
        lemma_all_values((size - 1) as nat);
        assert(all_values(size) =~= all_values((size - 1) as nat).insert(size));
    }
}

/// Intersecting a set with itself gives the set.
pub proof fn lemma_intersect_idempotent(s: Set<nat>)
    ensures
        s.intersect(s) == s,
{
    assert(s.intersect(s) =~= s);
}

/// Intersection is commutative and associative, and no larger than either set.
pub proof fn lemma_intersect(a: Set<nat>, b: Set<nat>, c: Set<nat>)
    ensures
        a.intersect(b) == b.intersect(a),
        a.intersect(b).intersect(c) == a.intersect(b.intersect(c)),
        a.finite() ==> a.intersect(b).finite() && a.intersect(b).len() <= a.len(),
        b.finite() ==> a.intersect(b).finite() && a.intersect(b).len() <= b.len(),
{
    assert(a.intersect(b) =~= b.intersect(a));
    assert(a.intersect(b).intersect(c) =~= a.intersect(b.intersect(c)));
    if a.finite() {
        vstd::set_lib::lemma_len_intersect(a, b);
    }
    if b.finite() {
        vstd::set_lib::lemma_len_intersect(b, a);
    }
}

/// The complement of the complement of a set is the set, as far as it lies
/// within the values; and a set of values has nothing in common with its
/// complement.
pub proof fn lemma_complement_twice(size: nat, s: Set<nat>)
    ensures
        complement_of(size, complement_of(size, s)) == s.intersect(all_values(size)),
        (forall|v: nat| s.contains(v) ==> 1 <= v <= size) ==> complement_of(
            size,
            complement_of(size, s),
        ) == s,
        s.intersect(complement_of(size, s)) == Set::<nat>::empty(),
{
    assert(complement_of(size, complement_of(size, s)) =~= s.intersect(all_values(size)));
    if forall|v: nat| s.contains(v) ==> 1 <= v <= size {
        assert(s.intersect(all_values(size)) =~= s);
    }
    assert(s.intersect(complement_of(size, s)) =~= Set::<nat>::empty());
}

/// The character of a decimal digit.
pub open spec fn digit_char(d: nat) -> char {
    if d == 0 {
        '0'
    } else if d == 1 {
        '1'
    } else if d == 2 {
        '2'
    } else if d == 3 {
        '3'
    } else if d == 4 {
        '4'
    } else if d == 5 {
        '5'
    } else if d == 6 {
        '6'
    } else if d == 7 {
        '7'
    } else if d == 8 {
        '8'
    } else {
        '9'
    }
}

/// A number in decimal digits, without leading zeros.
pub open spec fn decimal_text(v: nat) -> Seq<char>
    decreases v,
{
    if v < 10 {
        seq![digit_char(v)]
    } else {
        decimal_text(v / 10).push(digit_char(v % 10))
    }
}

} // verus!
