//! A singly linked sequence, `LinkedList<T>`: elements are reached from the
//! head one after another, and every operation is stated over the sequence of
//! payloads from head to tail.
//!
//! The nodes lie in flat storage in chain order: the node at position `i` is
//! the one reached after `i` links from the head, and the tail is the last
//! position, so that appending needs no walk. Payloads are moved from place
//! to place, never copied, which is why no operation asks for `Clone`.

use vstd::prelude::*;
use vstd::seq_lib::*;
use crate::datastruct::list_laws::lemma_run_heads_shape;
use crate::datastruct::relation::{
    at_most, lawful_eq, lawful_order, lemma_order_reflexive,
};
use crate::datastruct::text::{chain_text, decimal_texts, decimals, join_chain};
use crate::sort_analysis::bub_sort::{
    ascending, bubble_pass, lemma_ordered_and_settled, settled, sorted_form,
};

verus! {

/// The sequence. Its view is the payloads from head to tail.
pub struct LinkedList<T> {
    items: Vec<T>,
}

impl<T> View for LinkedList<T> {
    type V = Seq<T>;

    closed spec fn view(&self) -> Seq<T> {
        self.items@
    }
}

/// The number of links walked from the head of `s` to its end.
pub open spec fn chain_len<T>(s: Seq<T>) -> nat
    decreases s.len(),
{
    if s.len() == 0 {
        0
    } else {
        1 + chain_len(s.drop_first())
    }
}

/// The recursion over the chain and the walk from the head count the same
/// length: the number of elements.
pub proof fn lemma_chain_len<T>(s: Seq<T>)
    ensures
        chain_len(s) == s.len(),
    decreases s.len(),
{
    if s.len() > 0 {
        lemma_chain_len(s.drop_first());
    }
}

/// Where an insertion at `index` lands: at `index`, or behind the last
/// element where `index` lies beyond it.
pub open spec fn landing(len: nat, index: nat) -> int {
    if index <= len {
        index as int
    } else {
        len as int
    }
}

/// `s` without the element at `index`; `s` itself where there is none.
pub open spec fn without<T>(s: Seq<T>, index: nat) -> Seq<T> {
    if index < s.len() {
        s.remove(index as int)
    } else {
        s
    }
}

/// `s` with the elements at `i` and `j` exchanged.
pub open spec fn exchanged<T>(s: Seq<T>, i: int, j: int) -> Seq<T>
    recommends
        0 <= i < s.len(),
        0 <= j < s.len(),
{
    s.update(i, s[j]).update(j, s[i])
}

/// `s` with its last `n` elements moved to the front as a block; `s` itself
/// where it has fewer than `n`.
pub open spec fn rotated<T>(s: Seq<T>, n: nat) -> Seq<T> {
    if n <= s.len() {
        s.subrange(s.len() - n, s.len() as int) + s.subrange(0, s.len() - n)
    } else {
        s
    }
}

impl<T> LinkedList<T> {
    pub fn new() -> (r: Self)
        ensures
            r@ == Seq::<T>::empty(),
    {
        Self { items: Vec::new() }
    }

    /// Appends `element` behind the tail.
    pub fn add_node(&mut self, element: T)
        ensures
            final(self)@ == old(self)@.push(element),
    {
        self.push_back_node(element);
    }

    fn push_back_node(&mut self, element: T)
        ensures
            final(self)@ == old(self)@.push(element),
    {
        self.items.push(element);
    }

    /// The length, counted by a walk from the head.
    pub fn len(&self) -> (r: usize)
        ensures
            r == self@.len(),
    {
        let mut length: usize = 0;
        while length < self.items.len()
            invariant
                length <= self.items@.len(),
            decreases self.items@.len() - length,
        {
            length += 1;
        }
        length
    }

    /// The length, counted by recursion over the chain.
    pub fn rec_len(&self) -> (r: usize)
        ensures
            r == chain_len(self@),
            r == self@.len(),
    {
        proof {
            lemma_chain_len(self@);
            assert(self@.skip(0) =~= self@);
        }
        self.rec_len_util(0)
    }

    fn rec_len_util(&self, from: usize) -> (r: usize)
        requires
            from <= self@.len(),
        ensures
            r == chain_len(self@.skip(from as int)),
            r == self@.len() - from,
        decreases self@.len() - from,
    {
        proof {
            lemma_chain_len(self@.skip(from as int));
        }
        if from >= self.items.len() {
            0
        } else {
            proof {
                assert(self@.skip(from as int).drop_first() =~= self@.skip(from + 1));
            }
            1 + self.rec_len_util(from + 1)
        }
    }

    /// The element at `index`, or nothing where the walk ends before it.
    pub fn get_at(&self, index: usize) -> (r: Option<&T>)
        ensures
            index < self@.len() ==> r == Some(&self@[index as int]),
            index >= self@.len() ==> r.is_none(),
    {
        let mut at: usize = 0;
        while at < self.items.len()
            invariant
                at <= index,
            decreases self.items@.len() - at,
        {
            if at == index {
                return Some(&self.items[at]);
            }
            at += 1;
        }
        None
    }

    /// The element at the midpoint, position `len / 2`, found by a slow and a
    /// fast walker; nothing for an empty sequence.
    pub fn take_mid(&self) -> (r: Option<&T>)
        ensures
            self@.len() == 0 ==> r.is_none(),
            self@.len() > 0 ==> r == Some(&self@[(self@.len() / 2) as int]),
    {
        let n: usize = self.items.len();
        if n == 0 {
            return None;
        }
        let mut slow: usize = 0;
        let mut fast: usize = 0;
        while fast < n && fast + 1 < n
            invariant
                fast == 2 * slow,
                fast <= n,
                n == self.items@.len(),
            decreases n - fast,
        {
            slow += 1;
            fast += 2;
        }
        Some(&self.items[slow])
    }

    /// Puts `element` before the occupant of `index`, or behind the tail where
    /// `index` lies beyond it.
    pub fn insert_node_at(&mut self, index: usize, element: T)
        ensures
            final(self)@ == old(self)@.insert(landing(old(self)@.len(), index as nat), element),
    {
        let mut at: usize = 0;
        while at < index && at < self.items.len()
            invariant
                at <= index,
                at <= self.items@.len(),
                self.items@ == old(self).items@,
            decreases index - at,
        {
            at += 1;
        }
        self.items.insert(at, element);
    }

    /// As `insert_node_at`, by recursion over the chain.
    pub fn insert_node_at_rec(&mut self, index: usize, element: T)
        ensures
            final(self)@ == old(self)@.insert(landing(old(self)@.len(), index as nat), element),
    {
        self.insert_node_at_rec_help(index, 0, element);
    }

    fn insert_node_at_rec_help(&mut self, index: usize, head: usize, element: T)
        requires
            head <= old(self)@.len(),
            head <= index,
        ensures
            final(self)@ == old(self)@.insert(landing(old(self)@.len(), index as nat), element),
        decreases index - head,
    {
        if index == head || head == self.items.len() {
            self.items.insert(head, element);
        } else {
            self.insert_node_at_rec_help(index, head + 1, element);
        }
    }

    /// Removes the element at `index`; leaves the sequence alone where the
    /// walk ends before `index`.
    pub fn delete_node_at(&mut self, index: usize)
        ensures
            final(self)@ == without(old(self)@, index as nat),
    {
        let mut at: usize = 0;
        while at < index && at < self.items.len()
            invariant
                at <= index,
                at <= self.items@.len(),
                self.items@ == old(self).items@,
            decreases index - at,
        {
            at += 1;
        }
        if at < self.items.len() {
            let _ = self.items.remove(at);
        }
    }

    /// As `delete_node_at`, by recursion over the chain.
    pub fn delete_node_at_rec(&mut self, index: usize)
        ensures
            final(self)@ == without(old(self)@, index as nat),
    {
        self.delete_node_at_rec_help(index, 0);
    }

    fn delete_node_at_rec_help(&mut self, index: usize, head: usize)
        requires
            head <= old(self)@.len(),
            head <= index,
        ensures
            final(self)@ == without(old(self)@, index as nat),
        decreases index - head,
    {
        if head >= self.items.len() {
            return;
        }
        if index == head {
            let _ = self.items.remove(head);
        } else {
            self.delete_node_at_rec_help(index, head + 1);
        }
    }
}

impl<T> LinkedList<T> {
    /// Exchanges the elements at positions `i` and `j`, and says whether both
    /// positions exist. Where one does not, the sequence is left alone.
    pub fn swape_nodes(&mut self, i: usize, j: usize) -> (r: bool)
        ensures
            r == (i < old(self)@.len() && j < old(self)@.len()),
            r ==> final(self)@ == exchanged(old(self)@, i as int, j as int),
            !r ==> final(self)@ == old(self)@,
    {
        let n: usize = self.items.len();
        if i >= n || j >= n {
            return false;
        }
        if i == j {
            assert(exchanged(self@, i as int, j as int) =~= self@);
            return true;
        }
        let (lo, hi): (usize, usize) = if i < j {
            (i, j)
        } else {
            (j, i)
        };
        let second = self.items.remove(hi);
        let first = self.items.remove(lo);
        self.items.insert(lo, second);
        self.items.insert(hi, first);
        assert(self@ =~= exchanged(old(self)@, i as int, j as int));
        true
    }

    /// Reverses the sequence by a walk that turns every link round.
    pub fn reverse_iterative(&mut self)
        ensures
            final(self)@ == old(self)@.reverse(),
    {
        let mut chain: Vec<T> = Vec::new();
        core::mem::swap(&mut self.items, &mut chain);
        self.items = Self::reverse_list(chain);
    }

    /// Reverses the sequence by recursion over the chain.
    pub fn reverse_recursive(&mut self)
        ensures
            final(self)@ == old(self)@.reverse(),
    {
        let mut chain: Vec<T> = Vec::new();
        core::mem::swap(&mut self.items, &mut chain);
        self.items = Self::reverse_recursive_helper(chain, Vec::new());
    }

    fn reverse_list(chain: Vec<T>) -> (r: Vec<T>)
        ensures
            r@ == chain@.reverse(),
    {
        let mut cur: Vec<T> = chain;
        let mut prv: Vec<T> = Vec::new();
        while cur.len() > 0
            invariant
                cur@ == chain@.take(cur@.len() as int),
                cur@.len() + prv@.len() == chain@.len(),
                forall|k: int| 0 <= k < prv@.len() ==> prv@[k] == chain@[chain@.len() - 1 - k],
            decreases cur@.len(),
        {
            let node = cur.pop();
            match node {
                Some(x) => {
                    prv.push(x);
                },
                None => {},
            }
            assert(cur@ =~= chain@.take(cur@.len() as int));
        }
        assert(prv@ =~= chain@.reverse());
        prv
    }

    /// Puts the elements of `chain`, last first, behind those of `turned`.
    fn reverse_recursive_helper(chain: Vec<T>, turned: Vec<T>) -> (r: Vec<T>)
        ensures
            r@ == turned@ + chain@.reverse(),
        decreases chain@.len(),
    {
        let mut chain = chain;
        let mut turned = turned;
        let ghost whole = chain@;
        let ghost start = turned@;
        match chain.pop() {
            None => {
                assert(start + whole.reverse() =~= start);
                turned
            },
            Some(tail) => {
                turned.push(tail);
                let res = Self::reverse_recursive_helper(chain, turned);
                assert(res@ =~= start + whole.reverse());
                res
            },
        }
    }

    /// Moves the last `last_n` elements to the front, as a block. Nothing
    /// moves where `last_n` is zero or larger than the length.
    pub fn rotate_from_k(&mut self, last_n: usize)
        ensures
            final(self)@ == rotated(old(self)@, last_n as nat),
    {
        let size: usize = self.rec_len();
        if size < last_n {
            return;
        }
        let count: usize = size - last_n;
        if count == size {
            assert(rotated(self@, last_n as nat) =~= self@);
            return;
        }
        let mut block = self.items.split_off(count);
        block.append(&mut self.items);
        self.items = block;
    }
}

/// `r` is what a search for `v` in `s` answers: the position of the first
/// element equal to `v`, or nothing where there is none.
pub open spec fn first_match<T>(s: Seq<T>, v: T, r: Option<usize>) -> bool {
    match r {
        Some(at) => at < s.len() && s[at as int] == v && forall|k: int| 0 <= k < at ==> s[k] != v,
        None => forall|k: int| 0 <= k < s.len() ==> s[k] != v,
    }
}

/// The first element of each run of equal neighbours in `s`, in order.
pub open spec fn run_heads<T>(s: Seq<T>) -> Seq<T>
    decreases s.len(),
{
    if s.len() <= 1 {
        s
    } else if s[s.len() - 1] == s[s.len() - 2] {
        run_heads(s.drop_last())
    } else {
        run_heads(s.drop_last()).push(s.last())
    }
}

/// `s` rises from each element to the next.
pub open spec fn strictly_ascending<T: PartialOrd>(s: Seq<T>) -> bool {
    forall|i: int, j: int| 0 <= i < j < s.len() ==> at_most(s[i], s[j]) && s[i] != s[j]
}

/// No element of `s` equals its successor.
pub open spec fn no_equal_neighbours<T>(s: Seq<T>) -> bool {
    forall|i: int| 0 <= i && i + 1 < s.len() ==> s[i] != #[trigger] s[i + 1]
}

/// `v` leaves a remainder when divided by two.
pub open spec fn is_odd(v: i32) -> bool {
    v % 2 != 0
}

/// The odd elements of `s` (for `odd`), or the even ones, in their order.
pub open spec fn parity_run(s: Seq<i32>, odd: bool) -> Seq<i32>
    decreases s.len(),
{
    if s.len() == 0 {
        s
    } else if is_odd(s.last()) == odd {
        parity_run(s.drop_last(), odd).push(s.last())
    } else {
        parity_run(s.drop_last(), odd)
    }
}

impl<T: PartialEq> LinkedList<T> {
    /// The position of the first element equal to `element`.
    pub fn find_node(&self, element: T) -> (r: Option<usize>)
        requires
            lawful_eq::<T>(),
        ensures
            first_match(self@, element, r),
    {
        let mut index: usize = 0;
        while index < self.items.len()
            invariant
                lawful_eq::<T>(),
                index <= self.items@.len(),
                forall|k: int| 0 <= k < index ==> self.items@[k] != element,
            decreases self.items@.len() - index,
        {
            if self.items[index] == element {
                return Some(index);
            }
            index += 1;
        }
        None
    }

    /// As `find_node`, by recursion over the chain.
    pub fn recursive_find(&self, element: T) -> (r: Option<usize>)
        requires
            lawful_eq::<T>(),
        ensures
            first_match(self@, element, r),
    {
        self.recursive_find_helper(0, &element)
    }

    fn recursive_find_helper(&self, head: usize, element: &T) -> (r: Option<usize>)
        requires
            lawful_eq::<T>(),
            head <= self@.len(),
        ensures
            match r {
                Some(x) => head <= x < self@.len() && self@[x as int] == *element && forall|k: int|
                    head <= k < x ==> self@[k] != *element,
                None => forall|k: int| head <= k < self@.len() ==> self@[k] != *element,
            },
        decreases self@.len() - head,
    {
        if head >= self.items.len() {
            return None;
        }
        if self.items[head] == *element {
            return Some(head);
        }
        self.recursive_find_helper(head + 1, element)
    }

    /// Removes every element that equals its predecessor, so that one element
    /// is left of each run of equal neighbours.
    pub fn eliminate_dup(&mut self)
        requires
            lawful_eq::<T>(),
        ensures
            final(self)@ == run_heads(old(self)@),
    {
        let mut chain: Vec<T> = Vec::new();
        core::mem::swap(&mut self.items, &mut chain);
        let ghost whole = chain@;
        let mut rest: Vec<T> = Self::reverse_list(chain);
        let mut kept: Vec<T> = Vec::new();
        assert(whole.take(0) =~= kept@);
        while rest.len() > 0
            invariant
                lawful_eq::<T>(),
                rest@.len() <= whole.len(),
                forall|i: int| 0 <= i < rest@.len() ==> rest@[i] == whole[whole.len() - 1 - i],
                kept@ == run_heads(whole.take(whole.len() - rest@.len())),
            decreases rest@.len(),
        {
            let ghost at = whole.len() - rest@.len();
            proof {
                let seen = whole.take(at);
                let next = whole.take(at + 1);
                lemma_run_heads_shape(seen);
                assert(next.drop_last() =~= seen);
                assert(next[next.len() - 1] == whole[at]);
                if at > 0 {
                    assert(next[next.len() - 2] == whole[at - 1]);
                    assert(seen.last() == whole[at - 1]);
                } else {
                    assert(next =~= seq![whole[0]]);
                }
            }
            match rest.pop() {
                Some(node) => {
                    let fresh: bool = kept.len() == 0 || kept[kept.len() - 1] != node;
                    if fresh {
                        kept.push(node);
                    }
                },
                None => {},
            }
        }
        assert(whole.take(whole.len() as int) =~= whole);
        self.items = kept;
    }

    /// Whether the sequence reads the same from head to tail as from tail to
    /// head. The sequence is only read.
    pub fn is_palindrome(&self) -> (r: bool)
        requires
            lawful_eq::<T>(),
        ensures
            r == (self@ == self@.reverse()),
    {
        let n: usize = self.items.len();
        let mut front: usize = 0;
        while front < n / 2
            invariant
                lawful_eq::<T>(),
                front <= n / 2,
                n == self.items@.len(),
                forall|k: int| 0 <= k < front ==> #[trigger] self.items@[k] == self.items@[n - 1 - k],
            decreases n / 2 - front,
        {
            if self.items[front] != self.items[n - 1 - front] {
                assert(self@[front as int] != self@.reverse()[front as int]);
                return false;
            }
            front += 1;
        }
        proof {
            assert forall|k: int| 0 <= k < n implies self@[k] == self@.reverse()[k] by {
                if k >= n / 2 {
                    let m = n - 1 - k;
                    if m < n / 2 {
                        assert(self.items@[m] == self.items@[n - 1 - m]);
                    }
                }
            }
            assert(self@ =~= self@.reverse());
        }
        true
    }
}

impl<T: PartialOrd> LinkedList<T> {
    /// Sorts the sequence by passes that exchange neighbours out of order.
    pub fn bubble_sort(&mut self)
        requires
            lawful_order::<T>(),
        ensures
            sorted_form(final(self)@, old(self)@),
    {
        let n: usize = self.len();
        let mut pass: usize = 0;
        while pass < n
            invariant
                lawful_order::<T>(),
                pass <= n,
                n == self.items@.len(),
                self.items@.to_multiset() == old(self).items@.to_multiset(),
                settled(self.items@, pass as int),
            decreases n - pass,
        {
            let _ = bubble_pass(self.items.as_mut_slice(), n - 1, pass);
            pass += 1;
        }
        proof {
            lemma_ordered_and_settled(self.items@, 0);
        }
    }

    /// Sorts the sequence by halving it, sorting the halves and merging them.
    pub fn merge_sort(&mut self)
        requires
            lawful_order::<T>(),
        ensures
            sorted_form(final(self)@, old(self)@),
    {
        let mut chain: Vec<T> = Vec::new();
        core::mem::swap(&mut self.items, &mut chain);
        self.items = Self::merge_sort_helper(chain);
    }

    fn get_mid(chain: &Vec<T>) -> (r: usize)
        requires
            chain@.len() > 0,
        ensures
            r == (chain@.len() - 1) / 2,
    {
        let n: usize = chain.len();
        let mut slow: usize = 0;
        let mut fast: usize = 0;
        while fast + 1 < n && fast + 2 < n
            invariant
                fast == 2 * slow,
                fast < n,
                n == chain@.len(),
            decreases n - fast,
        {
            slow += 1;
            fast += 2;
        }
        slow
    }

    fn merge_sort_helper(chain: Vec<T>) -> (r: Vec<T>)
        requires
            lawful_order::<T>(),
        ensures
            sorted_form(r@, chain@),
        decreases chain@.len(),
    {
        let mut half1 = chain;
        if half1.len() <= 1 {
            assert(ascending(half1@)) by {
                assert forall|i: int, j: int| 0 <= i <= j < half1@.len() implies at_most(
                    half1@[i],
                    half1@[j],
                ) by {
                    lemma_order_reflexive(half1@[i]);
                }
            }
            return half1;
        }
        let mid = Self::get_mid(&half1);
        let half2 = half1.split_off(mid + 1);
        proof {
            assert(chain@ =~= half1@ + half2@);
            lemma_multiset_commutative(half1@, half2@);
        }
        let half1 = Self::merge_sort_helper(half1);
        let half2 = Self::merge_sort_helper(half2);
        Self::merge_member(half1, half2)
    }

    /// Merges two ascending chains into one; of two equal heads the left one
    /// goes first.
    fn merge_member(node1: Vec<T>, node2: Vec<T>) -> (r: Vec<T>)
        requires
            lawful_order::<T>(),
            ascending(node1@),
            ascending(node2@),
        ensures
            ascending(r@),
            r@.to_multiset() == node1@.to_multiset().add(node2@.to_multiset()),
    {
        let ghost a = node1@;
        let ghost b = node2@;
        let mut left: Vec<T> = Self::reverse_chain(node1);
        let mut right: Vec<T> = Self::reverse_chain(node2);
        let mut out: Vec<T> = Vec::new();
        proof {
            broadcast use vstd::multiset::group_multiset_axioms;

            assert(a.take(0) =~= Seq::<T>::empty());
            assert(b.take(0) =~= Seq::<T>::empty());
            out@.to_multiset_ensures();
            assert(out@.to_multiset() =~= a.take(0).to_multiset().add(b.take(0).to_multiset()));
        }
        while left.len() > 0 || right.len() > 0
            invariant
                lawful_order::<T>(),
                ascending(a),
                ascending(b),
                left@.len() <= a.len(),
                right@.len() <= b.len(),
                forall|k: int| 0 <= k < left@.len() ==> left@[k] == a[a.len() - 1 - k],
                forall|k: int| 0 <= k < right@.len() ==> right@[k] == b[b.len() - 1 - k],
                ascending(out@),
                out@.to_multiset() == a.take(a.len() - left@.len()).to_multiset().add(
                    b.take(b.len() - right@.len()).to_multiset(),
                ),
                forall|k: int|
                    0 <= k < out@.len() && left@.len() > 0 ==> at_most(
                        #[trigger] out@[k],
                        a[a.len() - left@.len()],
                    ),
                forall|k: int|
                    0 <= k < out@.len() && right@.len() > 0 ==> at_most(
                        #[trigger] out@[k],
                        b[b.len() - right@.len()],
                    ),
            decreases left@.len() + right@.len(),
        {
            let ghost i = a.len() - left@.len();
            let ghost j = b.len() - right@.len();
            let ghost before = out@;
            let left_first: bool = if right.len() == 0 {
                true
            } else if left.len() == 0 {
                false
            } else {
                left[left.len() - 1] <= right[right.len() - 1]
            };
            if left_first {
                assert(left@[left@.len() - 1] == a[i]);
                match left.pop() {
                    Some(x) => {
                        out.push(x);
                        proof {
                            broadcast use vstd::multiset::group_multiset_axioms;

                            to_multiset_build(before, x);
                            to_multiset_build(a.take(i), x);
                            assert(a.take(i + 1) =~= a.take(i).push(x));
                            assert(out@.to_multiset() =~= a.take(i + 1).to_multiset().add(
                                b.take(j).to_multiset(),
                            ));
                            lemma_order_reflexive(x);
                            assert forall|p: int, q: int| 0 <= p <= q < out@.len() implies at_most(
                                out@[p],
                                out@[q],
                            ) by {
                                if q < before.len() {
                                    assert(at_most(before[p], before[q]));
                                } else if p < before.len() {
                                    assert(at_most(before[p], a[i]));
                                }
                            }
                            assert forall|k: int|
                                0 <= k < out@.len() && left@.len() > 0 implies at_most(
                                #[trigger] out@[k],
                                a[a.len() - left@.len()],
                            ) by {
                                assert(at_most(a[i], a[i + 1]));
                                if k < before.len() {
                                    assert(at_most(before[k], a[i]));
                                }
                            }
                            assert forall|k: int|
                                0 <= k < out@.len() && right@.len() > 0 implies at_most(
                                #[trigger] out@[k],
                                b[b.len() - right@.len()],
                            ) by {
                                assert(at_most(a[i], b[j]));
                                if k < before.len() {
                                    assert(at_most(before[k], b[j]));
                                }
                            }
                        }
                    },
                    None => {},
                }
            } else {
                assert(right@[right@.len() - 1] == b[j]);
                match right.pop() {
                    Some(x) => {
                        out.push(x);
                        proof {
                            broadcast use vstd::multiset::group_multiset_axioms;

                            to_multiset_build(before, x);
                            to_multiset_build(b.take(j), x);
                            assert(b.take(j + 1) =~= b.take(j).push(x));
                            assert(out@.to_multiset() =~= a.take(i).to_multiset().add(
                                b.take(j + 1).to_multiset(),
                            ));
                            lemma_order_reflexive(x);
                            assert forall|p: int, q: int| 0 <= p <= q < out@.len() implies at_most(
                                out@[p],
                                out@[q],
                            ) by {
                                if q < before.len() {
                                    assert(at_most(before[p], before[q]));
                                } else if p < before.len() {
                                    assert(at_most(before[p], b[j]));
                                }
                            }
                            assert forall|k: int|
                                0 <= k < out@.len() && right@.len() > 0 implies at_most(
                                #[trigger] out@[k],
                                b[b.len() - right@.len()],
                            ) by {
                                assert(at_most(b[j], b[j + 1]));
                                if k < before.len() {
                                    assert(at_most(before[k], b[j]));
                                }
                            }
                            assert forall|k: int|
                                0 <= k < out@.len() && left@.len() > 0 implies at_most(
                                #[trigger] out@[k],
                                a[a.len() - left@.len()],
                            ) by {
                                assert(at_most(b[j], a[i]) || at_most(a[i], b[j]));
                                if k < before.len() {
                                    assert(at_most(before[k], a[i]));
                                }
                            }
                        }
                    },
                    None => {},
                }
            }
        }
        assert(a.take(a.len() as int) =~= a);
        assert(b.take(b.len() as int) =~= b);
        out
    }

    /// The chain with its last element first, for taking heads off its end.
    fn reverse_chain(chain: Vec<T>) -> (r: Vec<T>)
        ensures
            r@.len() == chain@.len(),
            forall|k: int| 0 <= k < r@.len() ==> r@[k] == chain@[chain@.len() - 1 - k],
    {
        let mut cur: Vec<T> = chain;
        let mut prv: Vec<T> = Vec::new();
        while cur.len() > 0
            invariant
                cur@ == chain@.take(cur@.len() as int),
                cur@.len() + prv@.len() == chain@.len(),
                forall|k: int| 0 <= k < prv@.len() ==> prv@[k] == chain@[chain@.len() - 1 - k],
            decreases cur@.len(),
        {
            match cur.pop() {
                Some(x) => {
                    prv.push(x);
                },
                None => {},
            }
            assert(cur@ =~= chain@.take(cur@.len() as int));
        }
        prv
    }
}

impl LinkedList<i32> {
    /// Moves the odd elements before the even ones; within each of the two
    /// runs the elements keep their order.
    pub fn activate_kejriwal(&mut self)
        ensures
            final(self)@ == parity_run(old(self)@, true) + parity_run(old(self)@, false),
    {
        let n: usize = self.items.len();
        let mut odd: Vec<i32> = Vec::new();
        let mut even: Vec<i32> = Vec::new();
        let mut c_node: usize = 0;
        while c_node < n
            invariant
                c_node <= n,
                n == self.items@.len(),
                self.items@ == old(self).items@,
                odd@ == parity_run(self.items@.take(c_node as int), true),
                even@ == parity_run(self.items@.take(c_node as int), false),
            decreases n - c_node,
        {
            proof {
                let next = self.items@.take(c_node + 1);
                assert(next.drop_last() =~= self.items@.take(c_node as int));
                assert(next.last() == self.items@[c_node as int]);
            }
            let data: i32 = self.items[c_node];
            if data % 2 == 0 {
                even.push(data);
            } else {
                odd.push(data);
            }
            c_node += 1;
        }
        assert(self.items@.take(n as int) =~= self.items@);
        odd.append(&mut even);
        self.items = odd;
    }

    /// The rendering: every element in decimal with an arrow behind it, then
    /// `x`.
    pub fn format(&self) -> (r: String)
        ensures
            r@ == chain_text(decimals(self@)),
    {
        let parts = decimal_texts(self.items.as_slice(), self.items.len());
        assert(self.items@.take(self.items@.len() as int) =~= self.items@);
        join_chain(&parts)
    }
}

} // verus!
