//! The allocator: a buffer of `HEAP_SIZE` bytes and an atomic cursor that
//! only ever moves forward.

use crate::align::{is_power_of_two, lemma_power_of_two_positive};
use crate::bump::{after_exchange, lemma_block_in_heap, next_block};
use std::sync::atomic::{AtomicUsize, Ordering};
use vstd::prelude::*;

verus! {

/// A bump allocator over the `HEAP_SIZE` bytes that start at the address
/// given to `new`. The buffer itself belongs to whoever built the allocator;
/// the allocator only does the address arithmetic and never touches the
/// bytes. Shared between threads through `&self`: the cursor is the one
/// piece of state and it is only changed by compare-and-exchange.
pub struct BumpAllocator<const HEAP_SIZE: usize> {
    heap_start: usize,
    next_free: AtomicUsize,
}

impl<const HEAP_SIZE: usize> BumpAllocator<HEAP_SIZE> {
    /// The buffer starts above the null address and lies wholly in the
    /// address space.
    #[verifier::type_invariant]
    spec fn fits(self) -> bool {
        &&& self.heap_start > 0
        &&& self.heap_start + HEAP_SIZE <= usize::MAX
    }

    /// The address of the buffer's first byte.
    pub closed spec fn start(self) -> int {
        self.heap_start as int
    }

    /// An allocator over the `HEAP_SIZE` bytes from `heap_start` on, with
    /// nothing handed out yet.
    pub fn new(heap_start: usize) -> (r: Self)
        requires
            heap_start > 0,
            heap_start + HEAP_SIZE <= usize::MAX,
        ensures
            r.start() == heap_start,
    {
        BumpAllocator { heap_start, next_free: AtomicUsize::new(heap_start) }
    }

    /// The address of the buffer's first byte.
    pub fn heap_start(&self) -> (r: usize)
        ensures
            r == self.start(),
            r > 0,
            r + HEAP_SIZE <= usize::MAX,
    {
        proof {
            use_type_invariant(self);
        }
        self.heap_start
    }

    /// Hands out `size` bytes aligned to `align`, or `None` where what is
    /// left of the buffer cannot hold them. Where the block goes is
    /// `next_block`'s contract, applied to the cursor this call read: the
    /// block starts at the cursor rounded up to `align`, and the cursor moves
    /// to its end by compare-and-exchange; under contention the step is
    /// computed again from the cursor another thread left, as
    /// `after_exchange` states. That blocks of
    /// two calls do not overlap rests on the atomic cursor only moving
    /// forward, which the model of a run in `bump` states; the contract
    /// below speaks of one call.
    pub fn allocate(&self, size: usize, align: usize) -> (r: Option<usize>)
        requires
            is_power_of_two(align),
        ensures
            match r {
                Some(a) => {
                    &&& a as int % align as int == 0
                    &&& self.start() <= a
                    &&& a + size <= self.start() + HEAP_SIZE
                    &&& a > 0
                },
                None => true,
            },
            size > HEAP_SIZE ==> r is None,
    {
        proof {
            use_type_invariant(self);
            lemma_power_of_two_positive(align);
        }
        let heap_start: usize = self.heap_start;
        let mut seen: usize = self.next_free.load(Ordering::Acquire);
        loop
            invariant
                heap_start == self.start(),
                heap_start > 0,
                heap_start + HEAP_SIZE <= usize::MAX,
                is_power_of_two(align),
                align > 0,
            decreases usize::MAX - seen,
        {
            let found = next_block(seen, heap_start, HEAP_SIZE, size, align);
            match found {
                None => {
                    return None;
                },
                Some(start) => {
                    proof {
                        lemma_block_in_heap(
                            seen as int,
                            heap_start as int,
                            HEAP_SIZE as int,
                            size as int,
                            align as int,
                        );
                    }
                    let end: usize = start + size;
                    let swapped = self.next_free.compare_exchange(
                        seen,
                        end,
                        Ordering::AcqRel,
                        Ordering::Acquire,
                    );
                    match after_exchange(seen, start, swapped) {
                        Ok(done) => {
                            return done;
                        },
                        Err(now) => {
                            seen = now;
                        },
                    }
                },
            }
        }
    }

    /// Gives a block back. Blocks are never reused, so this does nothing, for
    /// any arguments and any number of calls.
    pub fn deallocate(&self, _address: usize, _size: usize, _align: usize) {
    }
}

} // verus!
