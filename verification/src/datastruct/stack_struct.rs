//! A last-in, first-out adaptor, `VecStack<T>`, over the growable buffer: a
//! counter says how many of the buffer's elements, from the bottom, are on
//! the stack. A pop only lowers the counter, so that the element handed out
//! stays where it is while it is borrowed; the next push forgets what was
//! popped before it appends.

use vstd::prelude::*;
use crate::datastruct::text::{decimal_texts, decimals, join_stack, stack_text};
use vstd::layout::size_of;
use crate::datastruct::vec_struct::{push_plan, BufferError, Vector};

verus! {

/// The stack. Its view is the elements on it, bottom first.
pub struct VecStack<T> {
    sk_ptr: Vector<T>,
    sk_index: usize,
}

impl<T> View for VecStack<T> {
    type V = Seq<T>;

    /// The elements on the stack, bottom first.
    closed spec fn view(&self) -> Seq<T> {
        self.sk_ptr@.take(self.sk_index as int)
    }
}

impl<T> VecStack<T> {
    /// The number of slots the buffer has reserved.
    pub closed spec fn spec_capacity(&self) -> nat {
        self.sk_ptr.spec_capacity()
    }

    /// The stack's invariant: the buffer is well formed and holds at least
    /// the elements that are on the stack.
    pub closed spec fn wf(&self) -> bool {
        &&& self.sk_ptr.wf()
        &&& self.sk_index <= self.sk_ptr@.len()
    }

    /// What holds of every well-formed stack.
    pub proof fn lemma_wf(&self)
        requires
            self.wf(),
        ensures
            self@.len() <= self.spec_capacity(),
    {
        self.sk_ptr.lemma_wf();
    }

    pub fn new() -> (r: Self)
        ensures
            r.wf(),
            r@ == Seq::<T>::empty(),
            r.spec_capacity() == 0,
    {
        let r = Self { sk_ptr: Vector::new(), sk_index: 0 };
        assert(r@ =~= Seq::<T>::empty());
        r
    }

    pub fn size(&self) -> (r: usize)
        requires
            self.wf(),
        ensures
            r == self@.len(),
    {
        self.sk_index
    }

    pub fn capacity(&self) -> (r: usize)
        ensures
            r == self.spec_capacity(),
    {
        self.sk_ptr.capacity()
    }

    pub fn is_empty(&self) -> (r: bool)
        requires
            self.wf(),
        ensures
            r == (self@.len() == 0),
    {
        self.sk_index == 0
    }

    /// The elements on the stack, bottom first, as one slice of memory.
    pub fn as_slice(&self) -> (r: &[T])
        requires
            self.wf(),
        ensures
            r@ == self@,
    {
        let all = self.sk_ptr.as_slice();
        let r = &all[0..self.sk_index];
        assert(r@ =~= self@);
        r
    }

    /// The element pushed last of those on the stack; nothing on an empty
    /// stack.
    pub fn top(&self) -> (r: Option<&T>)
        requires
            self.wf(),
        ensures
            self@.len() == 0 ==> r.is_none(),
            self@.len() > 0 ==> r == Some(&self@.last()),
    {
        if self.is_empty() {
            return None;
        }
        self.sk_ptr.get(self.sk_index - 1)
    }

    /// Puts `element` on top: forgets what was popped, appends `element` to
    /// the buffer and counts one element more. The push is turned down where
    /// the buffer turns it down, and the stack stays as it was.
    pub fn push(&mut self, element: T) -> (r: Result<(), BufferError>)
        requires
            old(self).wf(),
        ensures
            final(self).wf(),
            push_plan(old(self)@.len(), old(self).spec_capacity(), size_of::<T>()) matches Ok(
                capacity,
            ) ==> (r.is_ok() && final(self)@ == old(self)@.push(element) && final(self).spec_capacity()
                == capacity),
            push_plan(old(self)@.len(), old(self).spec_capacity(), size_of::<T>()) matches Err(
                e,
            ) ==> (r == Err::<(), BufferError>(e) && final(self)@ == old(self)@ && final(
                self).spec_capacity() == old(self).spec_capacity()),
    {
        self.sk_ptr.truncate(self.sk_index);
        assert(self.sk_ptr@ =~= old(self)@);
        match self.sk_ptr.push(element) {
            Ok(()) => {
                let filled: usize = self.sk_ptr.len();
                self.sk_index = filled;
                assert(self@ =~= old(self)@.push(element));
                Ok(())
            },
            Err(e) => {
                assert(self@ =~= old(self)@);
                Err(e)
            },
        }
    }

    /// Takes the top element off the stack and hands it out; nothing on an
    /// empty stack. The buffer keeps the element until the next push.
    pub fn pop(&mut self) -> (r: Option<&T>)
        requires
            old(self).wf(),
        ensures
            final(self).wf(),
            final(self).spec_capacity() == old(self).spec_capacity(),
            old(self)@.len() == 0 ==> r.is_none() && final(self)@ == old(self)@,
            old(self)@.len() > 0 ==> r == Some(&old(self)@.last()) && final(self)@ == old(
                self,
            )@.drop_last(),
    {
        if self.is_empty() {
            return None;
        }
        self.sk_index -= 1;
        assert(self@ =~= old(self)@.drop_last());
        self.sk_ptr.get(self.sk_index)
    }
}

impl VecStack<i32> {
    /// The rendering of the elements on the stack, bottom first, in decimal.
    pub fn format(&self) -> (r: String)
        requires
            self.wf(),
        ensures
            r@ == stack_text(decimals(self@)),
    {
        let parts = decimal_texts(self.as_slice(), self.sk_index);
        assert(self@.take(self.sk_index as int) =~= self@);
        join_stack(&parts)
    }
}

} // verus!
