use vstd::multiset::Multiset;
use vstd::prelude::*;

verus! {

/// `keys` lists every element of `bag` exactly once, and nothing else.
pub open spec fn enumerates<K>(keys: Seq<K>, bag: Multiset<K>) -> bool {
    &&& keys.no_duplicates()
    &&& forall|k: K|
        #![trigger keys.contains(k)]
        #![trigger bag.count(k)]
        keys.contains(k) <==> bag.count(k) > 0
}

/// The predicate that holds of the listed keys that satisfy `pred`.
pub open spec fn listed<K>(keys: Seq<K>, pred: spec_fn(K) -> bool) -> spec_fn(K) -> bool {
    |k: K| pred(k) && keys.contains(k)
}

/// The predicate that holds of every value but `k`.
pub open spec fn other_than<K>(k: K) -> spec_fn(K) -> bool {
    |x: K| x != k
}

/// The predicate that holds of the values occurring exactly `r` times in `bag`.
pub open spec fn occurs<K>(bag: Multiset<K>, r: nat) -> spec_fn(K) -> bool {
    |k: K| bag.count(k) == r
}

/// The total multiplicity in `bag` of the listed keys that satisfy `pred`.
pub open spec fn tally<K>(keys: Seq<K>, bag: Multiset<K>, pred: spec_fn(K) -> bool) -> nat
    decreases keys.len(),
{
    if keys.len() == 0 {
        0
    } else {
        tally(keys.drop_last(), bag, pred) + if pred(keys.last()) {
            bag.count(keys.last())
        } else {
            0
        }
    }
}

/// The sum of `f(k)` over the elements `k` of a finite set.
pub open spec fn sum_over<K>(s: Set<K>, f: spec_fn(K) -> nat) -> nat
    decreases s.len(),
    when s.finite()
{
    if s.len() == 0 {
        0
    } else {
        f(s.choose()) + sum_over(s.remove(s.choose()), f)
    }
}

/// Extending a list of keys by one extends its tally by that key's share.
pub proof fn lemma_tally_step<K>(keys: Seq<K>, bag: Multiset<K>, pred: spec_fn(K) -> bool, i: int)
    requires
        0 <= i < keys.len(),
    ensures
        tally(keys.take(i + 1), bag, pred) == tally(keys.take(i), bag, pred) + if pred(keys[i]) {
            bag.count(keys[i])
        } else {
            0
        },
{
    assert(keys.take(i + 1).drop_last() =~= keys.take(i));
}

/// A multiset holding copies of a single value is as large as that value's count.
pub proof fn lemma_single_key_len<K>(m: Multiset<K>, k: K)
    requires
        forall|x: K| x != k ==> m.count(x) == 0,
    ensures
        m.len() == m.count(k),
    decreases m.count(k),
{
    broadcast use vstd::multiset::group_multiset_axioms;

    if m.count(k) == 0 {
        assert(m =~= Multiset::empty());
    } else {
        let one = Multiset::singleton(k);
        assert(one.subset_of(m));
        lemma_single_key_len(m.sub(one), k);
    }
}

/// Two predicates that agree on the elements of a multiset filter it alike.
pub proof fn lemma_filter_agree<K>(m: Multiset<K>, p: spec_fn(K) -> bool, q: spec_fn(K) -> bool)
    requires
        forall|x: K| m.count(x) > 0 ==> p(x) == q(x),
    ensures
        m.filter(p) == m.filter(q),
{
    broadcast use vstd::multiset::group_multiset_axioms;

    assert(m.filter(p) =~= m.filter(q));
}

/// Setting one value aside splits a multiset's size into that value's count and the rest.
pub proof fn lemma_set_aside<K>(m: Multiset<K>, k: K)
    ensures
        m.len() == m.count(k) + m.filter(other_than(k)).len(),
        m.filter(other_than(k)).dom() == m.dom().remove(k),
{
    broadcast use vstd::multiset::group_multiset_axioms;

    let rest = m.filter(other_than(k));
    let only = m.filter(|x: K| x == k);
    assert(m =~= only.add(rest));
    lemma_single_key_len(only, k);
    assert(rest.dom() =~= m.dom().remove(k));
}

/// A filtered multiset is no larger than the whole, and its distinct values
/// are the distinct values of the whole that pass the filter.
pub proof fn lemma_filter_bounds<K>(m: Multiset<K>, p: spec_fn(K) -> bool)
    ensures
        m.filter(p).len() <= m.len(),
        m.filter(p).dom() == m.dom().filter(p),
{
    broadcast use vstd::multiset::group_multiset_axioms;

    let rest = m.filter(|x: K| !p(x));
    assert(m =~= m.filter(p).add(rest));
    assert(m.filter(p).dom() =~= m.dom().filter(p));
}

/// A multiset whose values each occur at least `lo` times holds at least
/// `lo` elements for every distinct value.
pub proof fn lemma_len_lower_bound<K>(m: Multiset<K>, lo: nat)
    requires
        forall|x: K| m.count(x) > 0 ==> m.count(x) >= lo,
    ensures
        lo * m.dom().len() <= m.len(),
    decreases m.dom().len(),
{
    broadcast use vstd::multiset::group_multiset_axioms;

    let d = m.dom();
    if d.len() == 0 {
        assert(lo * d.len() == 0) by (nonlinear_arith)
            requires
                d.len() == 0,
        ;
    } else {
        let k = d.choose();
        assert(d.contains(k));
        let rest = m.filter(other_than(k));
        lemma_set_aside(m, k);
        lemma_len_lower_bound(rest, lo);
        assert(lo * d.len() == lo * (d.len() - 1) + lo) by (nonlinear_arith)
            requires
                d.len() >= 1,
        ;
    }
}

/// A multiset has no more distinct values than elements.
pub proof fn lemma_distinct_within_len<K>(m: Multiset<K>)
    ensures
        m.dom().len() <= m.len(),
{
    lemma_len_lower_bound(m, 1);
    assert(1 * m.dom().len() == m.dom().len()) by (nonlinear_arith);
}

/// A multiset whose values each occur exactly `c` times holds `c` elements
/// for every distinct value.
pub proof fn lemma_len_uniform<K>(m: Multiset<K>, c: nat)
    requires
        forall|x: K| m.count(x) > 0 ==> m.count(x) == c,
    ensures
        m.len() == c * m.dom().len(),
    decreases m.dom().len(),
{
    broadcast use vstd::multiset::group_multiset_axioms;

    let d = m.dom();
    if d.len() == 0 {
        assert(d =~= Set::empty());
        assert forall|x: K| m.count(x) == 0 by {
            assert(!d.contains(x));
        }
        assert(m =~= Multiset::empty());
        assert(c * d.len() == 0) by (nonlinear_arith)
            requires
                d.len() == 0,
        ;
    } else {
        let k = d.choose();
        assert(d.contains(k));
        let rest = m.filter(other_than(k));
        lemma_set_aside(m, k);
        lemma_len_uniform(rest, c);
        assert(c * d.len() == c * (d.len() - 1) + c) by (nonlinear_arith)
            requires
                d.len() >= 1,
        ;
    }
}

/// The tally over a duplicate-free list is the size of the multiset
/// restricted to the listed keys that satisfy the predicate.
pub proof fn lemma_tally_listed<K>(keys: Seq<K>, bag: Multiset<K>, pred: spec_fn(K) -> bool)
    requires
        keys.no_duplicates(),
    ensures
        tally(keys, bag, pred) == bag.filter(listed(keys, pred)).len(),
    decreases keys.len(),
{
    broadcast use vstd::multiset::group_multiset_axioms;

    let whole = bag.filter(listed(keys, pred));
    if keys.len() == 0 {
        assert(whole =~= Multiset::empty());
    } else {
        let front = keys.drop_last();
        let k = keys.last();
        lemma_tally_listed(front, bag, pred);
        assert(!front.contains(k));
        let rest = whole.filter(other_than(k));
        let before = bag.filter(listed(front, pred));
        assert forall|x: K| #[trigger] rest.count(x) == before.count(x) by {
            if keys.contains(x) && x != k {
                let i = choose|i: int| 0 <= i < keys.len() && keys[i] == x;
                assert(front[i] == x);
            }
            if front.contains(x) {
                let i = choose|i: int| 0 <= i < front.len() && front[i] == x;
                assert(keys[i] == x);
            }
        }
        assert(keys[keys.len() - 1] == k);
        lemma_set_aside(whole, k);
        assert(rest =~= before);
    }
}

/// Over a list that enumerates the multiset, the tally is the size of the
/// filtered multiset.
pub proof fn lemma_tally_enumerated<K>(keys: Seq<K>, bag: Multiset<K>, pred: spec_fn(K) -> bool)
    requires
        enumerates(keys, bag),
    ensures
        tally(keys, bag, pred) == bag.filter(pred).len(),
{
    lemma_tally_listed(keys, bag, pred);
    lemma_filter_agree(bag, listed(keys, pred), pred);
}

/// A list that enumerates a multiset is as long as the multiset has distinct values.
pub proof fn lemma_enumerated_len<K>(keys: Seq<K>, bag: Multiset<K>)
    requires
        enumerates(keys, bag),
    ensures
        keys.len() == bag.dom().len(),
{
    keys.unique_seq_to_set();
    assert(keys.to_set() =~= bag.dom());
}

/// Filtering a duplicate-free list keeps as many keys as filtering the set
/// of its elements.
pub proof fn lemma_distinct_filter_len<K>(keys: Seq<K>, pred: spec_fn(K) -> bool)
    requires
        keys.no_duplicates(),
    ensures
        keys.filter(pred).len() == keys.to_set().filter(pred).len(),
    decreases keys.len(),
{
    broadcast use vstd::set::group_set_axioms;
    broadcast use vstd::seq_lib::group_seq_properties;

    if keys.len() == 0 {
        reveal(Seq::filter);
        assert(keys.to_set().filter(pred) =~= Set::empty());
    } else {
        let front = keys.drop_last();
        let k = keys.last();
        lemma_distinct_filter_len(front, pred);
        assert(keys =~= front.push(k));
        front.lemma_filter_len_push(pred, k);
        assert(!front.contains(k));
        vstd::seq_lib::seq_to_set_is_finite(front);
        front.to_set().lemma_len_filter(pred);
        if pred(k) {
            assert(keys.to_set().filter(pred) =~= front.to_set().filter(pred).insert(k));
        } else {
            assert(keys.to_set().filter(pred) =~= front.to_set().filter(pred));
        }
    }
}

/// Filtering a list that enumerates a multiset keeps as many keys as the
/// multiset has distinct values passing the filter.
pub proof fn lemma_enumerated_filter_len<K>(
    keys: Seq<K>,
    bag: Multiset<K>,
    pred: spec_fn(K) -> bool,
)
    requires
        enumerates(keys, bag),
    ensures
        keys.filter(pred).len() == bag.dom().filter(pred).len(),
{
    lemma_distinct_filter_len(keys, pred);
    assert(keys.to_set() =~= bag.dom());
}

} // verus!
