use super::memory::{Memory, MEMORY_BLOCK_LENGTH};
use vstd::prelude::*;

verus! {

/// The next byte value on the wrapping (modulo 256) cell counter.
pub open spec fn wrapping_inc(v: u8) -> u8 {
    if v == 255 {
        0
    } else {
        (v + 1) as u8
    }
}

/// The previous byte value on the wrapping (modulo 256) cell counter.
pub open spec fn wrapping_dec(v: u8) -> u8 {
    if v == 0 {
        255
    } else {
        (v - 1) as u8
    }
}

/// The single movable cursor into the tape: a current block plus an in-block
/// offset.  Logical left/right movement becomes an offset change within the
/// block, or a step to the neighbouring block — allocated on demand — when a
/// block edge is crossed.
pub struct Pointer {
    memory: Memory,
    current_block: usize,
    index: usize,
}

impl Pointer {
    /// Well-formedness: the storage is well-formed, the cursor's block is
    /// allocated and its offset is inside the block.
    pub closed spec fn wf(self) -> bool {
        &&& self.memory.wf()
        &&& (self.current_block as int) < self.memory.n_blocks()
        &&& self.index < MEMORY_BLOCK_LENGTH
    }

    /// The absolute tape address the cursor points at.
    pub closed spec fn addr(self) -> int {
        self.memory.pos_of(self.current_block as int) * (MEMORY_BLOCK_LENGTH as int)
            + self.index
    }

    /// The value of the tape cell at absolute address `a`.
    pub closed spec fn cell(self, a: int) -> u8 {
        self.memory.cell(a)
    }

    /// The value of the cell under the cursor.
    pub open spec fn value(self) -> u8 {
        self.cell(self.addr())
    }

    /// How a `right` move relates the new cursor to the old one: one step
    /// right, no cell changes value.
    pub open spec fn moved_right(pre: Pointer, post: Pointer) -> bool {
        &&& post.wf()
        &&& post.addr() == pre.addr() + 1
        &&& forall|a: int| post.cell(a) == pre.cell(a)
    }

    /// How a `left` move relates the new cursor to the old one: one step
    /// left, no cell changes value.
    pub open spec fn moved_left(pre: Pointer, post: Pointer) -> bool {
        &&& post.wf()
        &&& post.addr() == pre.addr() - 1
        &&& forall|a: int| post.cell(a) == pre.cell(a)
    }

    /// A cursor at the origin of the given storage.
    pub fn new(memory: Memory) -> (p: Pointer)
        requires
            memory.wf(),
        ensures
            p.wf(),
            p.addr() == 0,
            forall|a: int| p.cell(a) == memory.cell(a),
    {
        let current_block = memory.get_base_block();
        Pointer { memory, current_block, index: 0 }
    }

    /// Reads the cell under the cursor.
    pub fn get(&self) -> (v: u8)
        requires
            self.wf(),
        ensures
            v == self.value(),
    {
        self.memory.read_cell(self.current_block, self.index)
    }

    /// Overwrites the cell under the cursor; every other cell keeps its
    /// value and the cursor does not move.
    pub fn set(&mut self, value: u8)
        requires
            old(self).wf(),
        ensures
            final(self).wf(),
            final(self).addr() == old(self).addr(),
            final(self).value() == value,
            forall|a: int|
                a != old(self).addr() ==> final(self).cell(a) == old(self).cell(a),
    {
        self.memory.write_cell(self.current_block, self.index, value);
    }

    /// Adds one to the cell under the cursor, wrapping modulo 256.
    pub fn inc(&mut self)
        requires
            old(self).wf(),
        ensures
            final(self).wf(),
            final(self).addr() == old(self).addr(),
            final(self).value() == wrapping_inc(old(self).value()),
            forall|a: int|
                a != old(self).addr() ==> final(self).cell(a) == old(self).cell(a),
    {
        let v = self.get();
        if v == 255 {
            self.set(0);
        } else {
            self.set(v + 1);
        }
    }

    /// Subtracts one from the cell under the cursor, wrapping modulo 256.
    pub fn dec(&mut self)
        requires
            old(self).wf(),
        ensures
            final(self).wf(),
            final(self).addr() == old(self).addr(),
            final(self).value() == wrapping_dec(old(self).value()),
            forall|a: int|
                a != old(self).addr() ==> final(self).cell(a) == old(self).cell(a),
    {
        let v = self.get();
        if v == 0 {
            self.set(255);
        } else {
            self.set(v - 1);
        }
    }

    /// Moves the cursor one cell to the right, allocating the neighbouring
    /// block when the block edge is crossed.  No cell changes value.
    pub fn right(&mut self)
        requires
            old(self).wf(),
        ensures
            Pointer::moved_right(*old(self), *final(self)),
    {
        if self.index == MEMORY_BLOCK_LENGTH - 1 {
            self.index = 0;
            self.current_block = self.memory.get_next(self.current_block);
            proof {
                let pre = *old(self);
                let post = *self;
                assert(post.memory.pos_of(post.current_block as int) == pre.memory.pos_of(
                    pre.current_block as int,
                ) + 1);
                assert(post.addr() == pre.addr() + 1);
            }
        } else {
            self.index = self.index + 1;
        }
    }

    /// Moves the cursor one cell to the left, allocating the neighbouring
    /// block when the block edge is crossed.  No cell changes value.
    pub fn left(&mut self)
        requires
            old(self).wf(),
        ensures
            Pointer::moved_left(*old(self), *final(self)),
    {
        if self.index == 0 {
            self.index = MEMORY_BLOCK_LENGTH - 1;
            self.current_block = self.memory.get_prev(self.current_block);
            proof {
                let pre = *old(self);
                let post = *self;
                assert(post.memory.pos_of(post.current_block as int) == pre.memory.pos_of(
                    pre.current_block as int,
                ) - 1);
                assert(post.addr() == pre.addr() - 1);
            }
        } else {
            self.index = self.index - 1;
        }
    }
}

/// Moving right then left — or left then right — from any position returns
/// the cursor to a cell with the same value it held before the pair of
/// moves, and leaves every tape cell unchanged: crossing a block boundary
/// and back corrupts nothing.
pub proof fn lemma_move_round_trip(p0: Pointer, p1: Pointer, p2: Pointer)
    requires
        p0.wf(),
        Pointer::moved_right(p0, p1) && Pointer::moved_left(p1, p2) || Pointer::moved_left(
            p0,
            p1,
        ) && Pointer::moved_right(p1, p2),
    ensures
        p2.addr() == p0.addr(),
        p2.value() == p0.value(),
        forall|a: int| p2.cell(a) == p0.cell(a),
{
}

} // verus!
