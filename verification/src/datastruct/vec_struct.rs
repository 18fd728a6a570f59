//! A contiguous growable array, `Vector<T>`, with an explicit growth policy:
//! nothing is reserved until the first push, which reserves four slots, and
//! every later growth doubles the reservation. Elements are appended and
//! read; none is removed one by one.

use vstd::prelude::*;
use vstd::arithmetic::power2::*;
use vstd::layout::size_of;
use crate::datastruct::text::{buffer_text, decimal_texts, decimals, join_buffer};

verus! {

/// Why a push was turned down.
#[derive(Clone, Copy, Debug, PartialEq, Eq, Structural)]
pub enum BufferError {
    /// The element type occupies no memory.
    ZeroSized,
    /// The reservation that the push needs is larger than `isize::MAX` bytes.
    CapacityOverflow,
}

/// `c` is one of the reservations 4, 8, 16, ...
pub open spec fn is_reservation(c: nat) -> bool {
    exists|k: nat| c == 4 * #[trigger] pow2(k)
}

/// `c` is the smallest reservation that holds `m` elements.
pub open spec fn is_smallest_reservation(c: nat, m: nat) -> bool {
    &&& is_reservation(c)
    &&& m <= c
    &&& forall|d: nat| is_reservation(d) && m <= d ==> c <= d
}

/// The capacity that a buffer of `m` elements has: zero while it is empty,
/// else the smallest reservation that holds them.
pub open spec fn fits(c: nat, m: nat) -> bool {
    if m == 0 {
        c == 0
    } else {
        is_smallest_reservation(c, m)
    }
}

/// The reservation that follows `c` when `c` is full.
pub open spec fn grown(c: nat) -> nat {
    if c == 0 {
        4
    } else {
        2 * c
    }
}

/// Reservations are at least four.
proof fn lemma_reservation_floor(c: nat)
    requires
        is_reservation(c),
    ensures
        c >= 4,
{
    let k = choose|k: nat| c == 4 * #[trigger] pow2(k);
    lemma_pow2_pos(k);
}

/// Four is the smallest reservation, and it holds one to four elements.
proof fn lemma_first_reservation(m: nat)
    requires
        1 <= m <= 4,
    ensures
        is_smallest_reservation(4, m),
{
    lemma2_to64();
    assert(4 == 4 * pow2(0));
    assert forall|d: nat| is_reservation(d) && m <= d implies 4 <= d by {
        lemma_reservation_floor(d);
    }
}

/// A full reservation that takes one more element doubles, and the doubled
/// value is again the smallest that holds them all.
proof fn lemma_doubling(c: nat)
    requires
        is_reservation(c),
    ensures
        is_smallest_reservation(2 * c, c + 1),
{
    let k = choose|k: nat| c == 4 * #[trigger] pow2(k);
    lemma_pow2_unfold(k + 1);
    assert(2 * c == 4 * pow2(k + 1));
    lemma_pow2_pos(k);
    assert forall|d: nat| is_reservation(d) && c + 1 <= d implies 2 * c <= d by {
        let j = choose|j: nat| d == 4 * #[trigger] pow2(j);
        if j <= k {
            if j < k {
                lemma_pow2_strictly_increases(j, k);
            }
            assert(pow2(j) <= pow2(k));
        } else {
            if k + 1 < j {
                lemma_pow2_strictly_increases(k + 1, j);
            }
            assert(pow2(k + 1) <= pow2(j));
        }
    }
}

/// The buffer. Its view is the elements pushed, oldest first.
pub struct Vector<T> {
    items: Vec<T>,
    capacity: usize,
}

impl<T> View for Vector<T> {
    type V = Seq<T>;

    closed spec fn view(&self) -> Seq<T> {
        self.items@
    }
}

impl<T> Vector<T> {
    /// The elements, oldest first, as one slice of memory.
    pub fn as_slice(&self) -> (r: &[T])
        ensures
            r@ == self@,
    {
        self.items.as_slice()
    }

    /// The number of slots reserved.
    pub closed spec fn spec_capacity(&self) -> nat {
        self.capacity as nat
    }

    /// The buffer's invariant: the elements have room in the reservation,
    /// which is none or one of 4, 8, 16, ... slots and fits in `isize::MAX`
    /// bytes.
    pub closed spec fn wf(&self) -> bool {
        &&& self.items@.len() <= self.capacity
        &&& self.capacity == 0 || is_reservation(self.capacity as nat)
        &&& self.capacity * size_of::<T>() <= isize::MAX
        &&& self.capacity > 0 ==> size_of::<T>() > 0
    }

    /// The capacity is the one that the growth policy gives a buffer of this
    /// length: none while it is empty, else the smallest reservation that
    /// holds its elements. A new buffer is tight, and a push and `clear` keep
    /// it so: after any number of pushes into an empty buffer the capacity is
    /// the smallest reservation that holds them.
    pub open spec fn tight(&self) -> bool {
        fits(self.spec_capacity(), self@.len())
    }

    /// What holds of every well-formed buffer.
    pub proof fn lemma_wf(&self)
        requires
            self.wf(),
        ensures
            self@.len() <= self.spec_capacity(),
            self.spec_capacity() == 0 || is_reservation(self.spec_capacity()),
            self.spec_capacity() * size_of::<T>() <= isize::MAX,
    {
    }

    /// Forgets the elements from position `len` on. The reservation stays.
    pub(crate) fn truncate(&mut self, len: usize)
        requires
            old(self).wf(),
            len <= old(self)@.len(),
        ensures
            final(self).wf(),
            final(self)@ == old(self)@.take(len as int),
            final(self).spec_capacity() == old(self).spec_capacity(),
    {
        self.items.truncate(len);
    }

    pub fn new() -> (r: Self)
        ensures
            r.wf(),
            r.tight(),
            r@ == Seq::<T>::empty(),
            r.spec_capacity() == 0,
    {
        Self { items: Vec::new(), capacity: 0 }
    }

    pub fn len(&self) -> (r: usize)
        ensures
            r == self@.len(),
    {
        self.items.len()
    }

    pub fn capacity(&self) -> (r: usize)
        ensures
            r == self.spec_capacity(),
    {
        self.capacity
    }

    /// The element at `index`, or nothing where `index` is not below the length.
    pub fn get(&self, index: usize) -> (r: Option<&T>)
        ensures
            index < self@.len() ==> r == Some(&self@[index as int]),
            index >= self@.len() ==> r.is_none(),
    {
        if index >= self.items.len() {
            return None;
        }
        Some(&self.items[index])
    }

    /// Gives the reservation back and leaves the buffer empty.
    pub fn clear(&mut self)
        ensures
            final(self).wf(),
            final(self).tight(),
            final(self)@ == Seq::<T>::empty(),
            final(self).spec_capacity() == 0,
    {
        self.items = Vec::new();
        self.capacity = 0;
    }

    /// Writes `item` behind the last element. The first push reserves four
    /// slots; a push into a full buffer doubles the reservation. A push is
    /// turned down, and the buffer left as it was, for an element type of size
    /// zero and where the reservation needed would pass `isize::MAX` bytes.
    pub fn push(&mut self, item: T) -> (r: Result<(), BufferError>)
        requires
            old(self).wf(),
        ensures
            final(self).wf(),
            push_plan(old(self)@.len(), old(self).spec_capacity(), size_of::<T>()) matches Ok(
                capacity,
            ) ==> (r.is_ok() && final(self)@ == old(self)@.push(item) && final(self).spec_capacity()
                == capacity),
            push_plan(old(self)@.len(), old(self).spec_capacity(), size_of::<T>()) matches Err(
                e,
            ) ==> (r == Err::<(), BufferError>(e) && *final(self) == *old(self)),
            r.is_ok() && old(self).tight() ==> final(self).tight(),
    {
        let ghost len0 = self.items@.len();
        let ghost cap0 = self.capacity as nat;
        match plan_push(self.items.len(), self.capacity, core::mem::size_of::<T>()) {
            Err(e) => Err(e),
            Ok(capacity) => {
                proof {
                    if len0 < cap0 {
                        if fits(cap0, len0) {
                            assert(is_smallest_reservation(cap0, len0 + 1));
                        }
                    } else if cap0 == 0 {
                        lemma_first_reservation(1);
                    } else {
                        lemma_doubling(cap0);
                    }
                }
                if capacity > self.capacity {
                    self.items.reserve(capacity - self.items.len());
                }
                self.items.push(item);
                self.capacity = capacity;
                Ok(())
            },
        }
    }
}

/// What the growth policy plans for a push into a buffer of `len` elements
/// and `capacity` slots of `width` bytes each: the capacity after the push,
/// or why the push is turned down.
pub open spec fn push_plan(len: nat, capacity: nat, width: nat) -> Result<nat, BufferError> {
    if width == 0 {
        Err(BufferError::ZeroSized)
    } else if len < capacity {
        Ok(capacity)
    } else if grown(capacity) * width > isize::MAX {
        Err(BufferError::CapacityOverflow)
    } else {
        Ok(grown(capacity))
    }
}

/// The growth policy: plans a push into a buffer of `len` elements and
/// `capacity` slots of `width` bytes each.
pub fn plan_push(len: usize, capacity: usize, width: usize) -> (r: Result<usize, BufferError>)
    ensures
        match push_plan(len as nat, capacity as nat, width as nat) {
            Ok(c) => r == Ok::<usize, BufferError>(c as usize) && c <= usize::MAX,
            Err(e) => r == Err::<usize, BufferError>(e),
        },
{
    if width == 0 {
        return Err(BufferError::ZeroSized);
    }
    if len < capacity {
        return Ok(capacity);
    }
    let wanted: Option<usize> = if capacity == 0 {
        Some(4)
    } else {
        capacity.checked_mul(2)
    };
    let bytes: Option<usize> = match wanted {
        Some(w) => w.checked_mul(width),
        None => None,
    };
    proof {
        assert(grown(capacity as nat) * width >= grown(capacity as nat)) by (nonlinear_arith)
            requires
                width >= 1,
        ;
    }
    match (wanted, bytes) {
        (Some(w), Some(b)) => {
            if b > isize::MAX as usize {
                Err(BufferError::CapacityOverflow)
            } else {
                Ok(w)
            }
        },
        _ => Err(BufferError::CapacityOverflow),
    }
}

impl Vector<i32> {
    /// The rendering: every slot between square brackets, the occupied ones
    /// with their element in decimal, the others with `x`; then `x`.
    pub fn format(&self) -> (r: String)
        requires
            self.wf(),
        ensures
            r@ == buffer_text(decimals(self@), self.spec_capacity()),
    {
        proof {
            self.lemma_wf();
        }
        let parts = decimal_texts(self.items.as_slice(), self.items.len());
        assert(self.items@.take(self.items@.len() as int) =~= self.items@);
        join_buffer(&parts, self.capacity)
    }
}

} // verus!
