//! The typed buffer allocator.
//!
//! For every port type it keeps a fresh-index counter and a free stack.
//! `acquire` recycles the most recently released index of the requested
//! type, or hands out a fresh one; `release` returns an index to its
//! type's free stack; `clear` resets every type's pool.

use core::marker::PhantomData;

use vstd::prelude::*;

use crate::port::PortType;

verus! {

/// An abstract storage slot for intermediate values of one port type.
/// Indices are dense and unique within a type; buffers of different types
/// may share an index.
#[derive(Copy, Clone, Debug)]
pub struct Buffer<PT: PortType> {
    pub index: usize,
    pub type_: PT,
}

/// A per-type pool of buffer indices: `(next fresh index, free stack)`.
pub struct BufferAllocator<PT: PortType> {
    pub buffer_count_stacks: Vec<(usize, Vec<usize>)>,
    pub _phantom_port_type: PhantomData<PT>,
}

impl<PT: PortType> BufferAllocator<PT> {
    /// One pool per port type.
    pub open spec fn wf(self) -> bool {
        self.buffer_count_stacks@.len() == PT::type_count()
    }

    /// The pool of type `t`: its fresh counter and the view of its stack.
    pub open spec fn pool(self, t: int) -> (usize, Seq<usize>) {
        (self.buffer_count_stacks@[t].0, self.buffer_count_stacks@[t].1@)
    }

    /// Reset every type's pool: counter 0, empty free stack.
    pub fn clear(&mut self)
        ensures
            final(self).buffer_count_stacks@.len() == old(self).buffer_count_stacks@.len(),
            forall|t: int|
                0 <= t < old(self).buffer_count_stacks@.len() ==> #[trigger] final(self).pool(t)
                    == (0usize, Seq::<usize>::empty()),
    {
        let len = self.buffer_count_stacks.len();
        let mut t: usize = 0;
        while t < len
            invariant
                0 <= t <= len,
                self.buffer_count_stacks@.len() == len,
                forall|u: int| 0 <= u < t ==> #[trigger] self.pool(u) == (0usize, Seq::<usize>::empty()),
                forall|u: int|
                    t <= u < len ==> #[trigger] self.buffer_count_stacks@[u] == old(
                        self,
                    ).buffer_count_stacks@[u],
            decreases len - t,
        {
            let ghost prev = *self;
            self.buffer_count_stacks.set(t, (0, Vec::new()));
            proof {
                assert forall|u: int| 0 <= u < t + 1 implies #[trigger] self.pool(u) == (
                    0usize,
                    Seq::<usize>::empty(),
                ) by {
                    if u < t {
                        assert(prev.pool(u) == (0usize, Seq::<usize>::empty()));
                        assert(self.buffer_count_stacks@[u] == prev.buffer_count_stacks@[u]);
                    } else {
                        assert(self.buffer_count_stacks@[u].1@ =~= Seq::<usize>::empty());
                    }
                }
            }
            t = t + 1;
        }
    }

    /// Hand out a buffer of type `type_`: the most recently released index
    /// of that type if one is free, else a fresh one.
    pub fn acquire(&mut self, type_: PT) -> (r: Buffer<PT>)
        requires
            old(self).wf(),
            old(self).pool(type_.type_index()).1.len() == 0 ==> old(self).pool(
                type_.type_index(),
            ).0 < usize::MAX,
        ensures
            final(self).wf(),
            r.type_ == type_,
            ({
                let t = type_.type_index();
                let c = old(self).pool(t).0;
                let s = old(self).pool(t).1;
                &&& forall|u: int|
                    0 <= u < PT::type_count() && u != t ==> #[trigger] final(self).pool(u) == old(
                        self,
                    ).pool(u)
                &&& (s.len() > 0 ==> r.index == s.last() && final(self).pool(t).1 == s.drop_last()
                    && final(self).pool(t).0 == c)
                &&& (s.len() == 0 ==> r.index == c && final(self).pool(t).0 == c + 1
                    && final(self).pool(t).1 == s)
            }),
    {
        let type_index = type_.into_index();
        proof {
            type_.index_below_count();
        }
        let popped = self.buffer_count_stacks[type_index].1.pop();
        if let Some(index) = popped {
            Buffer { index, type_ }
        } else {
            let count = self.buffer_count_stacks[type_index].0;
            self.buffer_count_stacks[type_index].0 = count + 1;
            Buffer { index: count, type_ }
        }
    }

    /// Return a buffer's index to its type's free stack.
    pub fn release(&mut self, ref_: Buffer<PT>)
        requires
            old(self).wf(),
        ensures
            final(self).wf(),
            ({
                let t = ref_.type_.type_index();
                &&& forall|u: int|
                    0 <= u < PT::type_count() && u != t ==> #[trigger] final(self).pool(u) == old(
                        self,
                    ).pool(u)
                &&& final(self).pool(t).0 == old(self).pool(t).0
                &&& final(self).pool(t).1 == old(self).pool(t).1.push(ref_.index)
            }),
    {
        let type_index = ref_.type_.into_index();
        proof {
            ref_.type_.index_below_count();
        }
        self.buffer_count_stacks[type_index].1.push(ref_.index);
    }
}

impl<PT: PortType> Default for BufferAllocator<PT> {
    /// An allocator with one empty pool per port type.
    fn default() -> (r: Self)
        ensures
            r.wf(),
            forall|t: int|
                0 <= t < PT::type_count() ==> #[trigger] r.pool(t) == (
                    0usize,
                    Seq::<usize>::empty(),
                ),
    {
        let num_types = PT::num_types();
        let mut buffer_count_stacks: Vec<(usize, Vec<usize>)> = Vec::new();
        let mut t: usize = 0;
        while t < num_types
            invariant
                0 <= t <= num_types,
                buffer_count_stacks@.len() == t,
                forall|u: int|
                    0 <= u < t ==> #[trigger] buffer_count_stacks@[u].0 == 0
                        && buffer_count_stacks@[u].1@ == Seq::<usize>::empty(),
            decreases num_types - t,
        {
            buffer_count_stacks.push((0, Vec::new()));
            t = t + 1;
        }
        Self { buffer_count_stacks, _phantom_port_type: PhantomData }
    }
}

} // verus!
