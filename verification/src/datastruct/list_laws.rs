//! What holds of the sequence operations taken together.

use vstd::prelude::*;
use crate::datastruct::list_struct::{
    chain_len, first_match, lemma_chain_len, no_equal_neighbours, run_heads,
    strictly_ascending,
};
use crate::datastruct::relation::{at_most, lawful_order};
use crate::datastruct::text::{chain_text, decimals};
use crate::sort_analysis::bub_sort::ascending;

verus! {

/// A search for the element at position `i` succeeds, at `i` or before it;
/// in a sequence without repeats it succeeds at `i` itself, so the searches
/// for the elements of such a sequence find as many places as it is long.
pub proof fn lemma_search_reaches_every_element<T>(s: Seq<T>, i: int, r: Option<usize>)
    requires
        0 <= i < s.len(),
        first_match(s, s[i], r),
    ensures
        r.is_some(),
        r.unwrap() <= i,
        r.unwrap() < chain_len(s),
        s.no_duplicates() ==> r.unwrap() == i,
{
    lemma_chain_len(s);
}

/// Reversing twice gives the sequence back, and so its rendering.
pub proof fn lemma_reverse_twice<T>(s: Seq<T>)
    ensures
        s.reverse().reverse() == s,
{
    assert(s.reverse().reverse() =~= s);
}

/// The rendering after two reversals is the rendering before them.
pub proof fn lemma_reverse_twice_renders_alike(s: Seq<i32>)
    ensures
        chain_text(decimals(s.reverse().reverse())) == chain_text(decimals(s)),
{
    lemma_reverse_twice(s);
}

/// What is left of a sequence after its runs are reduced to their heads: no
/// more elements than before, the same last element, and no element equal to
/// its successor.
pub proof fn lemma_run_heads_shape<T>(s: Seq<T>)
    ensures
        run_heads(s).len() <= s.len(),
        s.len() > 0 ==> run_heads(s).len() > 0 && run_heads(s).last() == s.last() && run_heads(
            s,
        )[0] == s[0],
        no_equal_neighbours(run_heads(s)),
    decreases s.len(),
{
    if s.len() > 1 {
        let front = s.drop_last();
        lemma_run_heads_shape(front);
        if s[s.len() - 1] != s[s.len() - 2] {
            let kept = run_heads(front);
            let all = kept.push(s.last());
            assert forall|i: int| 0 <= i && i + 1 < all.len() implies all[i] != #[trigger] all[i
                + 1] by {
                if i + 1 < kept.len() {
                    assert(kept[i] != kept[i + 1]);
                } else {
                    assert(all[i] == kept.last());
                    assert(kept.last() == front.last());
                }
            }
        }
    }
}

/// A sequence in which no element equals its successor has runs of one
/// element each, and stays as it is.
pub proof fn lemma_run_heads_of_distinct_neighbours<T>(s: Seq<T>)
    requires
        no_equal_neighbours(s),
    ensures
        run_heads(s) == s,
    decreases s.len(),
{
    if s.len() > 1 {
        let front = s.drop_last();
        assert(no_equal_neighbours(front)) by {
            assert forall|i: int| 0 <= i && i + 1 < front.len() implies front[i]
                != #[trigger] front[i + 1] by {
                assert(s[i] != s[i + 1]);
            }
        }
        lemma_run_heads_of_distinct_neighbours(front);
        assert(s[(s.len() - 2) as int] != s[(s.len() - 2) + 1]);
        assert(front.push(s.last()) =~= s);
    }
}

/// Reducing the runs a second time changes nothing.
pub proof fn lemma_run_heads_idempotent<T>(s: Seq<T>)
    ensures
        run_heads(run_heads(s)) == run_heads(s),
{
    lemma_run_heads_shape(s);
    lemma_run_heads_of_distinct_neighbours(run_heads(s));
}

/// Reducing the runs loses no value and invents none.
pub proof fn lemma_run_heads_same_values<T>(s: Seq<T>, v: T)
    ensures
        run_heads(s).contains(v) <==> s.contains(v),
    decreases s.len(),
{
    if s.len() > 1 {
        let front = s.drop_last();
        let kept = run_heads(front);
        lemma_run_heads_same_values(front, v);
        assert(s =~= front.push(s.last()));
        if s.contains(v) {
            let k = choose|k: int| 0 <= k < s.len() && s[k] == v;
            if k < front.len() {
                assert(front[k] == v);
                assert(front.contains(v));
            } else {
                assert(v == s.last());
                if s[s.len() - 1] == s[s.len() - 2] {
                    assert(front[front.len() - 1] == v);
                    assert(front.contains(v));
                }
            }
        }
        if front.contains(v) {
            let k = choose|k: int| 0 <= k < front.len() && front[k] == v;
            assert(s[k] == v);
        }
        if s[s.len() - 1] != s[s.len() - 2] {
            let all = kept.push(s.last());
            assert(all[all.len() - 1] == s.last());
            if kept.contains(v) {
                let k = choose|k: int| 0 <= k < kept.len() && kept[k] == v;
                assert(all[k] == v);
            }
            if all.contains(v) {
                let k = choose|k: int| 0 <= k < all.len() && all[k] == v;
                if k < kept.len() {
                    assert(kept[k] == v);
                }
            }
            assert(s[s.len() - 1] == s.last());
        }
    }
}

/// Reducing the runs of an ascending sequence leaves an ascending sequence.
pub proof fn lemma_run_heads_keep_order<T: PartialOrd>(s: Seq<T>)
    requires
        lawful_order::<T>(),
        ascending(s),
    ensures
        ascending(run_heads(s)),
    decreases s.len(),
{
    if s.len() > 1 {
        let front = s.drop_last();
        assert(ascending(front)) by {
            assert forall|i: int, j: int| 0 <= i <= j < front.len() implies at_most(
                front[i],
                front[j],
            ) by {
                assert(front[i] == s[i] && front[j] == s[j]);
            }
        }
        lemma_run_heads_keep_order(front);
        lemma_run_heads_shape(front);
        if s[s.len() - 1] != s[s.len() - 2] {
            let kept = run_heads(front);
            let all = kept.push(s.last());
            assert forall|i: int, j: int| 0 <= i <= j < all.len() implies at_most(
                all[i],
                all[j],
            ) by {
                if j < kept.len() {
                    assert(at_most(kept[i], kept[j]));
                } else if i < kept.len() {
                    assert(at_most(kept[i], kept[kept.len() - 1]));
                    assert(kept.last() == front.last());
                    assert(front.last() == s[s.len() - 2]);
                    assert(at_most(s[s.len() - 2], s[s.len() - 1]));
                } else {
                    assert(at_most(s[s.len() - 1], s[s.len() - 1]));
                }
            }
        }
    }
}

/// Of an ascending sequence the run heads rise strictly: one element is left
/// of every run of equal values.
pub proof fn lemma_run_heads_rise_strictly<T: PartialOrd>(s: Seq<T>)
    requires
        lawful_order::<T>(),
        ascending(s),
    ensures
        strictly_ascending(run_heads(s)),
{
    lemma_run_heads_keep_order(s);
    lemma_run_heads_shape(s);
    let r = run_heads(s);
    assert forall|i: int, j: int| 0 <= i < j < r.len() implies at_most(r[i], r[j]) && r[i]
        != r[j] by {
        assert(at_most(r[i], r[j - 1]));
        assert(r[j - 1] != r[(j - 1) + 1]);
        assert(at_most(r[j - 1], r[j]));
        assert(at_most(r[i], r[j]));
        if r[i] == r[j] {
            assert(at_most(r[j], r[j - 1]));
        }
    }
}

} // verus!
