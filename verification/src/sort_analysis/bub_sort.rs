//! Bubble sort on a slice, in its plain form and in the form that shortens
//! each pass and stops at the first pass without an exchange.

use vstd::prelude::*;
use vstd::seq_lib::*;
use crate::datastruct::relation::{at_most, lawful_order, lemma_order_reflexive};

verus! {

/// `s` never falls from one element to a later one.
pub open spec fn ascending<T: PartialOrd>(s: Seq<T>) -> bool {
    forall|i: int, j: int| 0 <= i <= j < s.len() ==> at_most(s[i], s[j])
}

/// `r` holds the elements of `s`, each as often as `s` does, in ascending order.
pub open spec fn sorted_form<T: PartialOrd>(r: Seq<T>, s: Seq<T>) -> bool {
    ascending(r) && r.to_multiset() == s.to_multiset()
}

/// The last `k` elements of `s` are in their final places: each is at least
/// as large as every element before it.
pub open spec fn settled<T: PartialOrd>(s: Seq<T>, k: int) -> bool {
    forall|a: int, b: int| 0 <= a < b < s.len() && b >= s.len() - k ==> at_most(s[a], s[b])
}

/// Neighbours among the first `m` elements of `s` are in order.
pub open spec fn neighbours_ordered<T: PartialOrd>(s: Seq<T>, m: int) -> bool {
    forall|i: int| 0 <= i && i + 1 < m ==> at_most(s[i], #[trigger] s[i + 1])
}

/// A prefix with ordered neighbours never falls.
proof fn lemma_neighbours_ascend<T: PartialOrd>(s: Seq<T>, m: int, i: int, j: int)
    requires
        lawful_order::<T>(),
        neighbours_ordered(s, m),
        0 <= i <= j < m <= s.len(),
    ensures
        at_most(s[i], s[j]),
    decreases j - i,
{
    if i < j {
        lemma_neighbours_ascend(s, m, i, j - 1);
        assert(at_most(s[j - 1], s[(j - 1) + 1]));
    } else {
        lemma_order_reflexive(s[i]);
    }
}

/// An ordered prefix before a settled rest is an ascending sequence.
pub(crate) proof fn lemma_ordered_and_settled<T: PartialOrd>(s: Seq<T>, m: int)
    requires
        lawful_order::<T>(),
        0 <= m <= s.len(),
        neighbours_ordered(s, m),
        settled(s, s.len() - m),
    ensures
        ascending(s),
{
    assert forall|i: int, j: int| 0 <= i <= j < s.len() implies at_most(s[i], s[j]) by {
        if j < m {
            lemma_neighbours_ascend(s, m, i, j);
        } else if i == j {
            lemma_order_reflexive(s[i]);
        }
    }
}

/// Exchanging two elements keeps what the sequence holds.
proof fn lemma_exchange_keeps_elements<T>(s: Seq<T>, i: int, j: int)
    requires
        0 <= i < s.len(),
        0 <= j < s.len(),
    ensures
        s.update(i, s[j]).update(j, s[i]).to_multiset() == s.to_multiset(),
{
    broadcast use vstd::multiset::group_multiset_axioms;

    if i == j {
        assert(s.update(i, s[j]).update(j, s[i]) =~= s);
    } else {
        let t = s.update(i, s[j]);
        to_multiset_update(s, i, s[j]);
        to_multiset_update(t, j, s[i]);
        assert(t[j] == s[j]);
        s.to_multiset_ensures();
        assert(s.contains(s[i]));
        assert(s.contains(s[j]));
        assert(t.update(j, s[i]).to_multiset() =~= s.to_multiset());
    }
}

/// An ascending sequence ends in an element that nothing in it exceeds.
proof fn lemma_last_is_largest<T: PartialOrd>(a: Seq<T>, v: T)
    requires
        lawful_order::<T>(),
        ascending(a),
        a.to_multiset().count(v) > 0,
    ensures
        a.len() > 0,
        at_most(v, a.last()),
{
    a.to_multiset_ensures();
    assert(a.contains(v));
    let k = choose|k: int| 0 <= k < a.len() && a[k] == v;
    assert(at_most(a[k], a[a.len() - 1]));
}

/// There is one way to put given elements in ascending order: two sorted
/// forms of the same sequence are equal. So a sort whose result is a sorted
/// form of its input leaves equal elements in the order they came in, and any
/// two such sorts agree.
pub proof fn lemma_sorted_form_is_unique<T: PartialOrd>(a: Seq<T>, b: Seq<T>, s: Seq<T>)
    requires
        lawful_order::<T>(),
        sorted_form(a, s),
        sorted_form(b, s),
    ensures
        a == b,
    decreases a.len(),
{
    broadcast use vstd::multiset::group_multiset_axioms;

    a.to_multiset_ensures();
    b.to_multiset_ensures();
    assert(a.len() == b.len());
    if a.len() == 0 {
        assert(a =~= b);
    } else {
        assert(a.contains(a.last()));
        assert(b.contains(b.last()));
        lemma_last_is_largest(a, b.last());
        lemma_last_is_largest(b, a.last());
        assert(a.last() == b.last());
        let top = a.last();
        let a0 = a.drop_last();
        let b0 = b.drop_last();
        assert(a =~= a0.push(top));
        assert(b =~= b0.push(top));
        to_multiset_build(a0, top);
        to_multiset_build(b0, top);
        assert(a0.to_multiset() =~= a.to_multiset().remove(top));
        assert(b0.to_multiset() =~= b.to_multiset().remove(top));
        assert(ascending(a0)) by {
            assert forall|i: int, j: int| 0 <= i <= j < a0.len() implies at_most(a0[i], a0[j]) by {
                assert(a0[i] == a[i] && a0[j] == a[j]);
            }
        }
        assert(ascending(b0)) by {
            assert forall|i: int, j: int| 0 <= i <= j < b0.len() implies at_most(b0[i], b0[j]) by {
                assert(b0[i] == b[i] && b0[j] == b[j]);
            }
        }
        lemma_sorted_form_is_unique(a0, b0, a0);
    }
}

/// Exchanges the element at `i` with its successor.
fn exchange_neighbours<T>(v: &mut [T], i: usize)
    requires
        i + 1 < old(v)@.len(),
    ensures
        final(v)@ == old(v)@.update(i as int, old(v)@[i + 1]).update(i + 1, old(v)@[i as int]),
{
    let n: usize = v.len();
    assert(i + 1 < n);
    let (front, back) = v.split_at_mut(i + 1);
    match (front.last_mut(), back.first_mut()) {
        (Some(left), Some(right)) => {
            core::mem::swap(left, right);
        },
        _ => {},
    }
    assert(v@ =~= old(v)@.update(i as int, old(v)@[i + 1]).update(i + 1, old(v)@[i as int]));
}

/// One pass over the neighbours among the first `scan + 1` elements: a pair
/// that falls is exchanged. Says whether any pair was.
pub(crate) fn bubble_pass<T: PartialOrd>(v: &mut [T], scan: usize, done: usize) -> (exchanged:
    bool)
    requires
        lawful_order::<T>(),
        done <= old(v)@.len(),
        scan < old(v)@.len(),
        scan + done + 1 >= old(v)@.len(),
        settled(old(v)@, done as int),
    ensures
        final(v)@.len() == old(v)@.len(),
        final(v)@.to_multiset() == old(v)@.to_multiset(),
        settled(final(v)@, done + 1),
        !exchanged ==> final(v)@ == old(v)@ && neighbours_ordered(old(v)@, scan + 1),
{
    let n: usize = v.len();
    let mut exchanged = false;
    let mut i: usize = 0;
    while i < scan
        invariant
            lawful_order::<T>(),
            i <= scan < n,
            n == v@.len(),
            n == old(v)@.len(),
            done <= n,
            scan + done + 1 >= n,
            v@.to_multiset() == old(v)@.to_multiset(),
            settled(v@, done as int),
            forall|a: int| 0 <= a < i ==> at_most(#[trigger] v@[a], v@[i as int]),
            i + done + 1 >= n ==> settled(v@, done + 1),
            !exchanged ==> v@ == old(v)@ && neighbours_ordered(v@, i + 1),
        decreases scan - i,
    {
        let ghost before = v@;
        let falls: bool = v[i] > v[i + 1];
        assert(falls == !at_most(before[i as int], before[i + 1]));
        if falls {
            exchange_neighbours(v, i);
            exchanged = true;
            proof {
                lemma_exchange_keeps_elements(before, i as int, i + 1);
                assert(v@ =~= before.update(i as int, before[i + 1]).update(i + 1, before[i as int]));
                assert(i + 1 < n - done) by {
                    if i + 1 >= n - done {
                        assert(at_most(before[i as int], before[i + 1]));
                    }
                }
                assert(at_most(before[i + 1], before[i as int]));
                assert forall|a: int| 0 <= a < i + 1 implies at_most(
                    #[trigger] v@[a],
                    v@[i + 1],
                ) by {
                    if a < i {
                        assert(at_most(before[a], before[i as int]));
                    }
                }
                assert(settled(v@, done as int)) by {
                    assert forall|a: int, b: int|
                        0 <= a < b < v@.len() && b >= v@.len() - done implies at_most(
                        v@[a],
                        v@[b],
                    ) by {
                        assert(v@[b] == before[b]);
                        assert(at_most(before[i as int], before[b]));
                        assert(at_most(before[i + 1], before[b]));
                        if a != i && a != i + 1 {
                            assert(v@[a] == before[a]);
                        }
                    }
                }
            }
        }
        proof {
            if !falls {
                assert forall|a: int| 0 <= a < i + 1 implies at_most(
                    #[trigger] v@[a],
                    v@[i + 1],
                ) by {
                    if a < i {
                        assert(at_most(before[a], before[i as int]));
                    }
                }
            }
        }
        i += 1;
        proof {
            if i + done + 1 >= n && !(i - 1 + done + 1 >= n) {
                assert(settled(v@, done + 1)) by {
                    assert forall|a: int, b: int|
                        0 <= a < b < v@.len() && b >= v@.len() - (done + 1) implies at_most(
                        v@[a],
                        v@[b],
                    ) by {
                        if b == n - done - 1 {
                            assert(b == i);
                            assert(at_most(v@[a], v@[i as int]));
                        }
                    }
                }
            }
        }
    }
    proof {
        if scan + done + 1 == n {
        }
    }
    exchanged
}

/// Sorts `v` with one full pass for each element.
pub fn bubble_sort<T: PartialOrd>(v: &mut [T])
    requires
        lawful_order::<T>(),
    ensures
        final(v)@.len() == old(v)@.len(),
        sorted_form(final(v)@, old(v)@),
{
    let n: usize = v.len();
    let mut pass: usize = 0;
    while pass < n
        invariant
            lawful_order::<T>(),
            pass <= n,
            n == v@.len(),
            n == old(v)@.len(),
            v@.to_multiset() == old(v)@.to_multiset(),
            settled(v@, pass as int),
        decreases n - pass,
    {
        let _ = bubble_pass(v, n - 1, pass);
        pass += 1;
    }
    proof {
        lemma_ordered_and_settled(v@, 0);
    }
}

/// Sorts `v` with passes that leave the settled end alone, and stops after
/// the first pass that exchanges nothing.
pub fn bubble_sort_improved<T: PartialOrd>(v: &mut [T])
    requires
        lawful_order::<T>(),
    ensures
        final(v)@.len() == old(v)@.len(),
        sorted_form(final(v)@, old(v)@),
{
    let n: usize = v.len();
    let mut pass: usize = 0;
    while pass < n
        invariant
            lawful_order::<T>(),
            pass <= n,
            n == v@.len(),
            n == old(v)@.len(),
            v@.to_multiset() == old(v)@.to_multiset(),
            settled(v@, pass as int),
        decreases n - pass,
    {
        let exchanged = bubble_pass(v, (n - 1) - pass, pass);
        if !exchanged {
            proof {
                lemma_ordered_and_settled(v@, n - pass);
            }
            return;
        }
        pass += 1;
    }
    proof {
        lemma_ordered_and_settled(v@, 0);
    }
}

} // verus!
