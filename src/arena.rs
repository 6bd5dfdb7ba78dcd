use vstd::prelude::*;

verus! {

/// Errors reported by the kernel instead of undefined behaviour.
#[derive(Clone, Copy, Debug, PartialEq, Eq, Structural)]
pub enum KernelError {
    /// A zero size, a dimension mismatch or another inconsistent argument.
    InvalidArgument,
    /// A view that would reach past a live allocation.
    OutOfBounds,
    /// A release whose offset or size matches no live allocation.
    InvalidRelease,
    /// The arena cannot grow to satisfy the request.
    OutOfMemory,
    /// An exact result does not fit in the element type.
    Overflow,
}

/// A bump allocator over a region of fixed capacity that keeps a table of its
/// live allocations, so that releases and views can be checked.
pub struct Arena {
    capacity: usize,
    cursor: usize,
    blocks: Vec<(usize, usize)>,
}

/// A non-owning window into an arena: `count` elements of `element_size` bytes
/// starting at byte `offset`.
#[derive(Clone, Copy, Debug, PartialEq, Eq, Structural)]
pub struct ArenaView {
    pub offset: usize,
    pub count: usize,
    pub element_size: usize,
}

pub open spec fn block_end(b: (usize, usize)) -> int {
    b.0 + b.1
}

impl ArenaView {
    pub open spec fn byte_len(self) -> int {
        self.count * self.element_size
    }

    /// The byte range of the view lies inside the allocation `b`.
    pub open spec fn within(self, b: (usize, usize)) -> bool {
        b.0 <= self.offset && self.offset + self.byte_len() <= block_end(b)
    }
}

/// The abstract state of an arena: its capacity, its high-water cursor and
/// its live allocations as (offset, size), in address order.
pub struct ArenaState {
    pub capacity: usize,
    pub cursor: usize,
    pub blocks: Seq<(usize, usize)>,
}

impl ArenaState {
    pub open spec fn wf(self) -> bool {
        &&& self.cursor <= self.capacity
        &&& forall|i: int|
            0 <= i < self.blocks.len() ==> #[trigger] self.blocks[i].1 > 0 && block_end(
                self.blocks[i],
            ) <= self.cursor
        &&& forall|i: int, j: int|
            0 <= i < j < self.blocks.len() ==> block_end(#[trigger] self.blocks[i]) <= (
            #[trigger] self.blocks[j]).0
    }

    /// An allocation of `size` bytes can be made without growing the arena.
    pub open spec fn can_allocate(self, size: usize) -> bool {
        size > 0 && size <= self.capacity - self.cursor
    }

    /// The state after allocating `size` bytes at the cursor.
    pub open spec fn allocated(self, size: usize) -> ArenaState {
        ArenaState {
            capacity: self.capacity,
            cursor: (self.cursor + size) as usize,
            blocks: self.blocks.push((self.cursor, size)),
        }
    }

    /// `(offset, size)` is a live allocation, at position `i` of the table.
    pub open spec fn live_at(self, i: int, offset: usize, size: usize) -> bool {
        0 <= i < self.blocks.len() && self.blocks[i] == (offset, size)
    }

    pub open spec fn is_live(self, offset: usize, size: usize) -> bool {
        exists|i: int| self.live_at(i, offset, size)
    }

    /// The state after releasing the live allocation `(offset, size)`: it
    /// leaves the table, and when it was the topmost one the cursor moves
    /// back to its offset.
    pub open spec fn released(self, offset: usize, size: usize) -> ArenaState {
        let i = choose|i: int| self.live_at(i, offset, size);
        ArenaState {
            capacity: self.capacity,
            cursor: if i == self.blocks.len() - 1 {
                offset
            } else {
                self.cursor
            },
            blocks: self.blocks.remove(i),
        }
    }

    /// The view lies inside one live allocation.
    pub open spec fn covers(self, v: ArenaView) -> bool {
        exists|i: int| 0 <= i < self.blocks.len() && v.within(#[trigger] self.blocks[i])
    }
}

impl View for Arena {
    type V = ArenaState;

    closed spec fn view(&self) -> ArenaState {
        ArenaState { capacity: self.capacity, cursor: self.cursor, blocks: self.blocks@ }
    }
}

impl Arena {
    pub open spec fn wf(&self) -> bool {
        self@.wf()
    }

    /// Creates an empty arena of `capacity` bytes.
    pub fn new(capacity: usize) -> (r: Arena)
        ensures
            r.wf(),
            r@.capacity == capacity,
            r@.cursor == 0,
            r@.blocks.len() == 0,
    {
        Arena { capacity, cursor: 0, blocks: Vec::new() }
    }

    pub fn capacity(&self) -> (r: usize)
        ensures
            r == self@.capacity,
    {
        self.capacity
    }

    /// The high-water mark: bytes below it have been handed out.
    pub fn cursor(&self) -> (r: usize)
        ensures
            r == self@.cursor,
    {
        self.cursor
    }

    pub fn live_count(&self) -> (r: usize)
        ensures
            r == self@.blocks.len(),
    {
        self.blocks.len()
    }

    /// Reserves `size` bytes at the cursor and returns their offset.
    pub fn allocate(&mut self, size: usize) -> (r: Result<usize, KernelError>)
        requires
            old(self).wf(),
        ensures
            final(self).wf(),
            size == 0 <==> r == Err::<usize, KernelError>(KernelError::InvalidArgument),
            (size > 0 && !old(self)@.can_allocate(size)) <==> r == Err::<usize, KernelError>(
                KernelError::OutOfMemory,
            ),
            old(self)@.can_allocate(size) <==> r is Ok,
            r is Ok ==> r->Ok_0 == old(self)@.cursor && final(self)@ == old(self)@.allocated(size),
            r is Err ==> final(self)@ == old(self)@,
    {
        if size == 0 {
            return Err(KernelError::InvalidArgument);
        }
        if size > self.capacity - self.cursor {
            return Err(KernelError::OutOfMemory);
        }
        let offset = self.cursor;
        self.blocks.push((offset, size));
        self.cursor = offset + size;
        assert forall|i: int, j: int|
            0 <= i < j < self.blocks@.len() implies block_end(#[trigger] self.blocks@[i])
                <= (#[trigger] self.blocks@[j]).0 by {
            assert(self.blocks@[i] == old(self)@.blocks[i]);
            if j < self.blocks@.len() - 1 {
                assert(self.blocks@[j] == old(self)@.blocks[j]);
            }
        }
        assert forall|i: int| 0 <= i < self.blocks@.len() implies #[trigger] self.blocks@[i].1 > 0
            && block_end(self.blocks@[i]) <= self.cursor by {
            if i < self.blocks@.len() - 1 {
                assert(self.blocks@[i] == old(self)@.blocks[i]);
            }
        }
        Ok(offset)
    }

    /// Releases the live allocation `(offset, size)`. When it is the topmost
    /// allocation the cursor moves back to its offset; freed ranges below the
    /// top are not reused.
    pub fn deallocate(&mut self, offset: usize, size: usize) -> (r: Result<(), KernelError>)
        requires
            old(self).wf(),
        ensures
            final(self).wf(),
            r is Ok <==> old(self)@.is_live(offset, size),
            r is Ok ==> final(self)@ == old(self)@.released(offset, size),
            r is Err ==> r == Err::<(), KernelError>(KernelError::InvalidRelease) && final(self)@
                == old(self)@,
    {
        let n = self.blocks.len();
        let mut i: usize = 0;
        while i < n
            invariant
                n == self.blocks@.len(),
                i <= n,
                self.wf(),
                self.capacity == old(self).capacity,
                self.cursor == old(self).cursor,
                self.blocks@ == old(self).blocks@,
                forall|k: int| 0 <= k < i ==> (#[trigger] self.blocks@[k]).0 != offset,
            decreases n - i,
        {
            if self.blocks[i].0 == offset {
                if self.blocks[i].1 != size {
                    proof {
                        // offsets of live blocks are distinct
                        assert forall|k: int| #![trigger self@.live_at(k, offset, size)]
                            !self@.live_at(k, offset, size) by {
                            if 0 <= k < n && k != i {
                                if k < i {
                                    assert(block_end(self@.blocks[k]) <= self@.blocks[i as int].0);
                                } else {
                                    assert(block_end(self@.blocks[i as int]) <= self@.blocks[k].0);
                                }
                            }
                        }
                    }
                    return Err(KernelError::InvalidRelease);
                }
                let ghost old_blocks = self.blocks@;
                assert(self@.live_at(i as int, offset, size));
                self.blocks.remove(i);
                if i == n - 1 {
                    self.cursor = offset;
                }
                assert(forall|k: int|
                    0 <= k < self.blocks@.len() ==> #[trigger] self.blocks@[k] == if k < i {
                        old_blocks[k]
                    } else {
                        old_blocks[k + 1]
                    });
                assert(old_blocks.remove(i as int) =~= self.blocks@);
                proof {
                    assert(old(self)@.live_at(i as int, offset, size));
                    let j = choose|j: int| old(self)@.live_at(j, offset, size);
                    lemma_live_unique(old(self)@, i as int, j, offset, size);
                    assert(self@ == old(self)@.released(offset, size));
                }
                return Ok(());
            }
            i += 1;
        }
        assert(!self@.is_live(offset, size)) by {
            assert forall|k: int| !#[trigger] self@.live_at(k, offset, size) by {
                if 0 <= k < n {
                    assert(self.blocks@[k].0 != offset);
                }
            }
        }
        Err(KernelError::InvalidRelease)
    }

    /// Builds a view of `count` elements of `element_size` bytes at `offset`,
    /// refused unless it lies inside one live allocation.
    pub fn view_at(&self, offset: usize, count: usize, element_size: usize) -> (r: Result<
        ArenaView,
        KernelError,
    >)
        requires
            self.wf(),
        ensures
            r is Ok <==> self@.covers(ArenaView { offset, count, element_size }),
            r is Ok ==> r->Ok_0 == (ArenaView { offset, count, element_size }),
            r is Err ==> r == Err::<ArenaView, KernelError>(KernelError::OutOfBounds),
    {
        let ghost v = ArenaView { offset, count, element_size };
        let len = match count.checked_mul(element_size) {
            Some(l) => l,
            None => {
                assert(!self@.covers(v)) by {
                    assert forall|k: int|
                        0 <= k < self.blocks@.len() implies !v.within(
                        #[trigger] self.blocks@[k],
                    ) by {
                        assert(count * element_size > usize::MAX);
                    }
                }
                return Err(KernelError::OutOfBounds);
            },
        };
        let mut i: usize = 0;
        while i < self.blocks.len()
            invariant
                i <= self.blocks@.len(),
                len == v.byte_len(),
                v == (ArenaView { offset, count, element_size }),
                forall|k: int| 0 <= k < i ==> !v.within(#[trigger] self.blocks@[k]),
            decreases self.blocks@.len() - i,
        {
            let b = self.blocks[i];
            if b.0 <= offset && offset - b.0 <= b.1 && len <= b.1 - (offset - b.0) {
                assert(v.within(self@.blocks[i as int]));
                return Ok(ArenaView { offset, count, element_size });
            }
            i += 1;
        }
        Err(KernelError::OutOfBounds)
    }
}

proof fn lemma_live_unique(st: ArenaState, i: int, j: int, offset: usize, size: usize)
    requires
        st.wf(),
        st.live_at(i, offset, size),
        st.live_at(j, offset, size),
    ensures
        i == j,
{
    if i < j {
        assert(block_end(st.blocks[i]) <= st.blocks[j].0);
    } else if j < i {
        assert(block_end(st.blocks[j]) <= st.blocks[i].0);
    }
}

/// Allocating `n` bytes and then releasing exactly that allocation returns the
/// arena to its previous state, so a further allocation of `n` bytes succeeds
/// again without growth.
pub proof fn lemma_allocation_round_trip(a: ArenaState, n: usize)
    requires
        a.wf(),
        a.can_allocate(n),
    ensures
        a.allocated(n).released(a.cursor, n) == a,
        a.allocated(n).released(a.cursor, n).can_allocate(n),
{
    let a1 = a.allocated(n);
    let last = a.blocks.len() as int;
    assert(a1.live_at(last, a.cursor, n));
    let i = choose|i: int| a1.live_at(i, a.cursor, n);
    if i != last {
        assert(a.blocks[i].1 > 0);
        assert(block_end(a.blocks[i]) <= a.cursor);
        assert(a1.blocks[i] == a.blocks[i]);
    }
    assert(a1.blocks.remove(last) =~= a.blocks);
}

} // verus!
