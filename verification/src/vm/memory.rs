use super::append_array::AppendArray;
use vstd::arithmetic::div_mod::lemma_fundamental_div_mod_converse;
use vstd::prelude::*;

verus! {

/// Number of byte cells held by one tape block.
pub const MEMORY_BLOCK_LENGTH: usize = 128;

/// One fixed-size block of tape cells.
///
/// `next` and `prev` are arena indices of the neighbouring blocks, lazily
/// filled in when the tape grows; `None` means "not allocated yet", never
/// "does not exist" — the tape is conceptually infinite in both directions.
/// The ghost `pos` records the block's logical position on that infinite
/// tape: block `p` covers the cells `p * MEMORY_BLOCK_LENGTH ..
/// (p + 1) * MEMORY_BLOCK_LENGTH`.
#[derive(Clone, Copy)]
pub struct MemoryBlock {
    pub next: Option<usize>,
    pub prev: Option<usize>,
    pub data: [u8; MEMORY_BLOCK_LENGTH],
    pub pos: Ghost<int>,
}

impl MemoryBlock {
    /// A fresh, unlinked, all-zero block at logical position 0.
    pub fn new() -> (b: MemoryBlock)
        ensures
            b.next is None,
            b.prev is None,
            b.pos@ == 0,
            b.data@.len() == MEMORY_BLOCK_LENGTH,
            forall|j: int| 0 <= j < MEMORY_BLOCK_LENGTH ==> b.data@[j] == 0u8,
    {
        MemoryBlock { next: None, prev: None, data: [0u8; MEMORY_BLOCK_LENGTH], pos: Ghost(0) }
    }
}

/// The growable, bidirectional tape storage.
///
/// Blocks live in an append-only arena and are addressed by the index the
/// arena handed out; indices stay valid for the life of the storage, and
/// blocks are never freed or relocated.  The allocated blocks always cover a
/// contiguous range `lo ..= hi` of logical positions containing position 0,
/// and every cell of the conceptual tape that lies outside the allocated
/// blocks holds 0.
pub struct Memory {
    arena: AppendArray<MemoryBlock>,
    lo: Ghost<int>,
    hi: Ghost<int>,
}

impl Memory {
    /// Number of allocated blocks.
    pub closed spec fn n_blocks(self) -> int {
        self.arena@.len() as int
    }

    /// The block stored at arena index `i`.
    pub closed spec fn blk(self, i: int) -> MemoryBlock {
        self.arena@[i]
    }

    /// Logical position of the block at arena index `i`.
    pub closed spec fn pos_of(self, i: int) -> int {
        self.arena@[i].pos@
    }

    /// The lowest allocated logical position.
    pub closed spec fn spec_lo(self) -> int {
        self.lo@
    }

    /// The highest allocated logical position.
    pub closed spec fn spec_hi(self) -> int {
        self.hi@
    }

    /// Whether some allocated block sits at logical position `p`.
    pub open spec fn has_pos(self, p: int) -> bool {
        exists|i: int| 0 <= i < self.n_blocks() && self.pos_of(i) == p
    }

    /// The arena index of the block at logical position `p`.
    pub open spec fn idx_of_pos(self, p: int) -> int {
        choose|i: int| 0 <= i < self.n_blocks() && self.pos_of(i) == p
    }

    /// Well-formedness: positions are distinct and fill `lo ..= hi`
    /// contiguously, the origin block sits at position 0, and neighbour links
    /// are exactly the adjacencies of allocated positions.
    pub open spec fn wf(self) -> bool {
        &&& 1 <= self.n_blocks()
        &&& self.spec_lo() <= 0 <= self.spec_hi()
        &&& self.pos_of(0) == 0
        &&& forall|i: int|
            0 <= i < self.n_blocks() ==> self.spec_lo() <= #[trigger] self.pos_of(i) <= self.spec_hi()
        &&& forall|i: int, j: int|
            0 <= i < self.n_blocks() && 0 <= j < self.n_blocks() && i != j ==> #[trigger] self.pos_of(
                i,
            ) != #[trigger] self.pos_of(j)
        &&& forall|i: int|
            0 <= i < self.n_blocks() ==> (#[trigger] self.blk(i)).data@.len()
                == MEMORY_BLOCK_LENGTH
        &&& forall|i: int|
            0 <= i < self.n_blocks() ==> ((#[trigger] self.blk(i)).next is None <==> self.pos_of(i)
                == self.spec_hi())
        &&& forall|i: int|
            0 <= i < self.n_blocks() && self.blk(i).next is Some ==> {
                let j = (#[trigger] self.blk(i)).next->Some_0 as int;
                0 <= j < self.n_blocks() && self.pos_of(j) == self.pos_of(i) + 1
            }
        &&& forall|i: int|
            0 <= i < self.n_blocks() ==> ((#[trigger] self.blk(i)).prev is None <==> self.pos_of(i)
                == self.spec_lo())
        &&& forall|i: int|
            0 <= i < self.n_blocks() && self.blk(i).prev is Some ==> {
                let j = (#[trigger] self.blk(i)).prev->Some_0 as int;
                0 <= j < self.n_blocks() && self.pos_of(j) == self.pos_of(i) - 1
            }
    }

    /// The value of the conceptual tape cell at absolute address `a`:
    /// the stored byte if the covering block is allocated, 0 otherwise.
    pub open spec fn cell(self, a: int) -> u8 {
        let p = a / (MEMORY_BLOCK_LENGTH as int);
        let off = a % (MEMORY_BLOCK_LENGTH as int);
        if self.has_pos(p) {
            self.blk(self.idx_of_pos(p)).data@[off]
        } else {
            0u8
        }
    }

    /// In a well-formed storage, the block at position `pos_of(i)` is `i`
    /// itself: positions identify blocks uniquely.
    pub proof fn lemma_idx_of_pos(self, i: int)
        requires
            self.wf(),
            0 <= i < self.n_blocks(),
        ensures
            self.has_pos(self.pos_of(i)),
            self.idx_of_pos(self.pos_of(i)) == i,
    {
        assert(self.has_pos(self.pos_of(i)));
        let j = self.idx_of_pos(self.pos_of(i));
        assert(0 <= j < self.n_blocks() && self.pos_of(j) == self.pos_of(i));
    }

    /// The cell at offset `off` of block `i` has absolute address
    /// `pos_of(i) * MEMORY_BLOCK_LENGTH + off`.
    pub proof fn lemma_cell_of_block(self, i: int, off: int)
        requires
            self.wf(),
            0 <= i < self.n_blocks(),
            0 <= off < MEMORY_BLOCK_LENGTH,
        ensures
            self.cell(self.pos_of(i) * (MEMORY_BLOCK_LENGTH as int) + off) == self.blk(
                i,
            ).data@[off],
    {
        let a = self.pos_of(i) * (MEMORY_BLOCK_LENGTH as int) + off;
        lemma_fundamental_div_mod_converse(
            a,
            MEMORY_BLOCK_LENGTH as int,
            self.pos_of(i),
            off,
        );
        self.lemma_idx_of_pos(i);
    }

    /// Rebuilds `wf` from its individual conjuncts.
    proof fn lemma_wf_parts(m: Memory)
        requires
            1 <= m.n_blocks(),
            m.spec_lo() <= 0 <= m.spec_hi(),
            m.pos_of(0) == 0,
            forall|i: int|
                0 <= i < m.n_blocks() ==> m.spec_lo() <= #[trigger] m.pos_of(i) <= m.spec_hi(),
            forall|i: int, j: int|
                0 <= i < m.n_blocks() && 0 <= j < m.n_blocks() && i != j ==> #[trigger] m.pos_of(
                    i,
                ) != #[trigger] m.pos_of(j),
            forall|i: int|
                0 <= i < m.n_blocks() ==> (#[trigger] m.blk(i)).data@.len()
                    == MEMORY_BLOCK_LENGTH,
            forall|i: int|
                0 <= i < m.n_blocks() ==> ((#[trigger] m.blk(i)).next is None <==> m.pos_of(i)
                    == m.spec_hi()),
            forall|i: int|
                0 <= i < m.n_blocks() && m.blk(i).next is Some ==> {
                    let j = (#[trigger] m.blk(i)).next->Some_0 as int;
                    0 <= j < m.n_blocks() && m.pos_of(j) == m.pos_of(i) + 1
                },
            forall|i: int|
                0 <= i < m.n_blocks() ==> ((#[trigger] m.blk(i)).prev is None <==> m.pos_of(i)
                    == m.spec_lo()),
            forall|i: int|
                0 <= i < m.n_blocks() && m.blk(i).prev is Some ==> {
                    let j = (#[trigger] m.blk(i)).prev->Some_0 as int;
                    0 <= j < m.n_blocks() && m.pos_of(j) == m.pos_of(i) - 1
                },
        ensures
            m.wf(),
    {
    }

    /// A fresh storage: one all-zero origin block, every tape cell 0.
    pub fn new() -> (m: Memory)
        ensures
            m.wf(),
            m.n_blocks() == 1,
            forall|a: int| m.cell(a) == 0u8,
    {
        let mut arena = AppendArray::<MemoryBlock>::new();
        arena.append(MemoryBlock::new());
        let m = Memory { arena, lo: Ghost(0), hi: Ghost(0) };
        proof {
            assert forall|a: int| m.cell(a) == 0u8 by {
                let p = a / (MEMORY_BLOCK_LENGTH as int);
                if m.has_pos(p) {
                    let i = m.idx_of_pos(p);
                    assert(0 <= i < 1);
                    assert(m.blk(0).data@[a % (MEMORY_BLOCK_LENGTH as int)] == 0u8);
                }
            }
        }
        m
    }

    /// Arena index of the origin block, which sits at logical position 0.
    pub fn get_base_block(&self) -> (r: usize)
        requires
            self.wf(),
        ensures
            0 <= r < self.n_blocks(),
            self.pos_of(r as int) == 0,
    {
        0
    }

    /// Reads the cell at offset `off` of the block at arena index `block`.
    pub fn read_cell(&self, block: usize, off: usize) -> (v: u8)
        requires
            self.wf(),
            (block as int) < self.n_blocks(),
            off < MEMORY_BLOCK_LENGTH,
        ensures
            v == self.blk(block as int).data@[off as int],
            v == self.cell(self.pos_of(block as int) * (MEMORY_BLOCK_LENGTH as int) + off),
    {
        proof {
            self.lemma_cell_of_block(block as int, off as int);
        }
        let b = self.arena.get(block);
        b.data[off]
    }

    /// Overwrites the cell at offset `off` of the block at arena index
    /// `block`; every other tape cell keeps its value, and no block moves.
    pub fn write_cell(&mut self, block: usize, off: usize, value: u8)
        requires
            old(self).wf(),
            (block as int) < old(self).n_blocks(),
            off < MEMORY_BLOCK_LENGTH,
        ensures
            final(self).wf(),
            final(self).n_blocks() == old(self).n_blocks(),
            forall|i: int|
                0 <= i < old(self).n_blocks() ==> final(self).pos_of(i) == old(self).pos_of(i),
            final(self).cell(
                old(self).pos_of(block as int) * (MEMORY_BLOCK_LENGTH as int) + off,
            ) == value,
            forall|a: int|
                a != old(self).pos_of(block as int) * (MEMORY_BLOCK_LENGTH as int) + off
                    ==> final(self).cell(a) == old(self).cell(a),
    {
        let mut b = *self.arena.get(block);
        b.data[off] = value;
        self.arena.set(block, b);
        proof {
            let pre = *old(self);
            let post = *self;
            let w = pre.pos_of(block as int) * (MEMORY_BLOCK_LENGTH as int) + off;
            assert forall|i: int| 0 <= i < post.n_blocks() implies post.pos_of(i) == pre.pos_of(i)
                && post.blk(i).next == pre.blk(i).next && post.blk(i).prev == pre.blk(
                i,
            ).prev by {}
            assert forall|i: int|
                0 <= i < post.n_blocks() && post.blk(i).next is Some implies {
                    let j = post.blk(i).next->Some_0 as int;
                    0 <= j < post.n_blocks() && post.pos_of(j) == post.pos_of(i) + 1
                } by {
                let j = pre.blk(i).next->Some_0 as int;
                assert(0 <= j < pre.n_blocks() && pre.pos_of(j) == pre.pos_of(i) + 1);
                assert(post.pos_of(j) == pre.pos_of(j));
            }
            assert forall|i: int|
                0 <= i < post.n_blocks() && post.blk(i).prev is Some implies {
                    let j = post.blk(i).prev->Some_0 as int;
                    0 <= j < post.n_blocks() && post.pos_of(j) == post.pos_of(i) - 1
                } by {
                let j = pre.blk(i).prev->Some_0 as int;
                assert(0 <= j < pre.n_blocks() && pre.pos_of(j) == pre.pos_of(i) - 1);
                assert(post.pos_of(j) == pre.pos_of(j));
            }
            Memory::lemma_wf_parts(post);
            lemma_fundamental_div_mod_converse(
                w,
                MEMORY_BLOCK_LENGTH as int,
                pre.pos_of(block as int),
                off as int,
            );
            post.lemma_idx_of_pos(block as int);
            assert(post.cell(w) == value);
            assert forall|a: int| a != w implies post.cell(a) == pre.cell(a) by {
                let p = a / (MEMORY_BLOCK_LENGTH as int);
                let o = a % (MEMORY_BLOCK_LENGTH as int);
                vstd::arithmetic::div_mod::lemma_fundamental_div_mod(
                    a,
                    MEMORY_BLOCK_LENGTH as int,
                );
                if pre.has_pos(p) {
                    let i = pre.idx_of_pos(p);
                    assert(post.has_pos(p));
                    pre.lemma_idx_of_pos(i);
                    post.lemma_idx_of_pos(i);
                    assert(post.idx_of_pos(p) == i);
                    if i == block as int {
                        assert(p == pre.pos_of(block as int));
                        assert(o != off);
                        assert(post.blk(i).data@[o] == pre.blk(i).data@[o]);
                    }
                } else {
                    assert(!post.has_pos(p)) by {
                        if post.has_pos(p) {
                            let i = post.idx_of_pos(p);
                            assert(0 <= i < pre.n_blocks() && pre.pos_of(i) == p);
                        }
                    }
                }
            }
        }
    }

    /// Returns the arena index of the right neighbour of `block`, allocating
    /// and linking a fresh all-zero block first if it does not exist yet.
    /// No tape cell changes value, and no existing block moves.
    #[verifier::rlimit(60)]
    #[verifier::spinoff_prover]
    pub fn get_next(&mut self, block: usize) -> (r: usize)
        requires
            old(self).wf(),
            (block as int) < old(self).n_blocks(),
        ensures
            final(self).wf(),
            old(self).n_blocks() <= final(self).n_blocks(),
            (r as int) < final(self).n_blocks(),
            final(self).pos_of(r as int) == old(self).pos_of(block as int) + 1,
            final(self).blk(block as int).next == Some(r),
            final(self).blk(r as int).prev == Some(block),
            old(self).has_pos(old(self).pos_of(block as int) + 1) ==> *final(self) == *old(
                self,
            ),
            !old(self).has_pos(old(self).pos_of(block as int) + 1) ==> final(self).n_blocks()
                == old(self).n_blocks() + 1,
            forall|i: int|
                0 <= i < old(self).n_blocks() ==> final(self).pos_of(i) == old(self).pos_of(i),
            forall|a: int| final(self).cell(a) == old(self).cell(a),
    {
        let b = *self.arena.get(block);
        match b.next {
            Some(next) => {
                proof {
                    assert(b == old(self).blk(block as int));
                    assert(old(self).pos_of(next as int) == old(self).pos_of(block as int) + 1);
                    assert(old(self).has_pos(old(self).pos_of(block as int) + 1));
                    assert(old(self).blk(next as int).prev is Some);
                    let j = old(self).blk(next as int).prev->Some_0 as int;
                    assert(old(self).pos_of(j) == old(self).pos_of(block as int));
                    assert(j == block as int);
                }
                next
            },
            None => {
                let ghost new_pos = self.pos_of(block as int) + 1;
                let mut fresh = MemoryBlock::new();
                fresh.prev = Some(block);
                fresh.pos = Ghost(new_pos);
                let r = self.arena.append(fresh);
                let mut linked = b;
                linked.next = Some(r);
                self.arena.set(block, linked);
                self.hi = Ghost(new_pos);
                proof {
                    let pre = *old(self);
                    let post = *self;
                    assert(pre.pos_of(block as int) == pre.hi@);
                    assert(!pre.has_pos(pre.pos_of(block as int) + 1)) by {
                        if pre.has_pos(pre.pos_of(block as int) + 1) {
                            let j = pre.idx_of_pos(pre.pos_of(block as int) + 1);
                            assert(pre.pos_of(j) <= pre.spec_hi());
                        }
                    }
                    assert(post.n_blocks() == pre.n_blocks() + 1);
                    assert forall|i: int| 0 <= i < pre.n_blocks() implies post.pos_of(i)
                        == pre.pos_of(i) && post.blk(i).data == pre.blk(i).data by {}
                    let nb = pre.n_blocks();
                    assert(post.blk(block as int).next == Some(r));
                    assert(post.blk(block as int).prev == pre.blk(block as int).prev);
                    assert(post.pos_of(block as int) == pre.pos_of(block as int));
                    assert(post.blk(nb).prev == Some(block));
                    assert(post.blk(nb).next is None);
                    assert(post.pos_of(nb) == new_pos);
                    assert forall|i: int|
                        0 <= i < nb && i != block as int implies post.blk(i) == pre.blk(
                        i,
                    ) by {}
                    assert forall|i: int|
                        0 <= i < post.n_blocks() && post.blk(i).next is Some implies {
                            let j = post.blk(i).next->Some_0 as int;
                            0 <= j < post.n_blocks() && post.pos_of(j) == post.pos_of(i) + 1
                        } by {
                        if i == block as int {
                            assert(post.pos_of(r as int) == pre.pos_of(block as int) + 1);
                        } else if i < nb {
                            assert(post.blk(i) == pre.blk(i));
                            let j = pre.blk(i).next->Some_0 as int;
                            assert(0 <= j < nb && pre.pos_of(j) == pre.pos_of(i) + 1);
                            assert(post.pos_of(j) == pre.pos_of(j));
                        }
                    }
                    assert forall|i: int|
                        0 <= i < post.n_blocks() && post.blk(i).prev is Some implies {
                            let j = post.blk(i).prev->Some_0 as int;
                            0 <= j < post.n_blocks() && post.pos_of(j) == post.pos_of(i) - 1
                        } by {
                        if i == nb {
                            assert(post.pos_of(block as int) == new_pos - 1);
                        } else if i == block as int {
                            if pre.blk(i).prev is Some {
                                let j = pre.blk(i).prev->Some_0 as int;
                                assert(0 <= j < nb && pre.pos_of(j) == pre.pos_of(i) - 1);
                                assert(post.pos_of(j) == pre.pos_of(j));
                            }
                        } else {
                            assert(post.blk(i) == pre.blk(i));
                            let j = pre.blk(i).prev->Some_0 as int;
                            assert(0 <= j < nb && pre.pos_of(j) == pre.pos_of(i) - 1);
                            assert(post.pos_of(j) == pre.pos_of(j));
                        }
                    }
                    assert forall|i: int|
                        0 <= i < post.n_blocks() implies (post.blk(i).next is None
                            <==> post.pos_of(i) == post.spec_hi()) by {
                        if i < nb && i != block as int {
                            assert(post.blk(i) == pre.blk(i));
                            if pre.blk(i).next is None {
                                assert(pre.pos_of(i) == pre.spec_hi());
                                assert(false);
                            }
                        }
                    }
                    Memory::lemma_wf_parts(post);
                    assert forall|a: int| post.cell(a) == pre.cell(a) by {
                        let p = a / (MEMORY_BLOCK_LENGTH as int);
                        if pre.has_pos(p) {
                            let i = pre.idx_of_pos(p);
                            assert(post.has_pos(p));
                            pre.lemma_idx_of_pos(i);
                            post.lemma_idx_of_pos(i);
                            assert(post.idx_of_pos(p) == i);
                        } else if post.has_pos(p) {
                            let i = post.idx_of_pos(p);
                            assert(i == pre.n_blocks());
                            assert(post.blk(i).data@[a % (MEMORY_BLOCK_LENGTH as int)] == 0u8);
                        }
                    }
                }
                r
            },
        }
    }

    /// Returns the arena index of the left neighbour of `block`, allocating
    /// and linking a fresh all-zero block first if it does not exist yet.
    /// No tape cell changes value, and no existing block moves.
    #[verifier::rlimit(60)]
    #[verifier::spinoff_prover]
    pub fn get_prev(&mut self, block: usize) -> (r: usize)
        requires
            old(self).wf(),
            (block as int) < old(self).n_blocks(),
        ensures
            final(self).wf(),
            old(self).n_blocks() <= final(self).n_blocks(),
            (r as int) < final(self).n_blocks(),
            final(self).pos_of(r as int) == old(self).pos_of(block as int) - 1,
            final(self).blk(block as int).prev == Some(r),
            final(self).blk(r as int).next == Some(block),
            old(self).has_pos(old(self).pos_of(block as int) - 1) ==> *final(self) == *old(
                self,
            ),
            !old(self).has_pos(old(self).pos_of(block as int) - 1) ==> final(self).n_blocks()
                == old(self).n_blocks() + 1,
            forall|i: int|
                0 <= i < old(self).n_blocks() ==> final(self).pos_of(i) == old(self).pos_of(i),
            forall|a: int| final(self).cell(a) == old(self).cell(a),
    {
        let b = *self.arena.get(block);
        match b.prev {
            Some(prev) => {
                proof {
                    assert(b == old(self).blk(block as int));
                    assert(old(self).pos_of(prev as int) == old(self).pos_of(block as int) - 1);
                    assert(old(self).has_pos(old(self).pos_of(block as int) - 1));
                    assert(old(self).blk(prev as int).next is Some);
                    let j = old(self).blk(prev as int).next->Some_0 as int;
                    assert(old(self).pos_of(j) == old(self).pos_of(block as int));
                    assert(j == block as int);
                }
                prev
            },
            None => {
                let ghost new_pos = self.pos_of(block as int) - 1;
                let mut fresh = MemoryBlock::new();
                fresh.next = Some(block);
                fresh.pos = Ghost(new_pos);
                let r = self.arena.append(fresh);
                let mut linked = b;
                linked.prev = Some(r);
                self.arena.set(block, linked);
                self.lo = Ghost(new_pos);
                proof {
                    let pre = *old(self);
                    let post = *self;
                    assert(pre.pos_of(block as int) == pre.lo@);
                    assert(!pre.has_pos(pre.pos_of(block as int) - 1)) by {
                        if pre.has_pos(pre.pos_of(block as int) - 1) {
                            let j = pre.idx_of_pos(pre.pos_of(block as int) - 1);
                            assert(pre.pos_of(j) >= pre.spec_lo());
                        }
                    }
                    assert(post.n_blocks() == pre.n_blocks() + 1);
                    assert forall|i: int| 0 <= i < pre.n_blocks() implies post.pos_of(i)
                        == pre.pos_of(i) && post.blk(i).data == pre.blk(i).data by {}
                    let nb = pre.n_blocks();
                    assert(post.blk(block as int).prev == Some(r));
                    assert(post.blk(block as int).next == pre.blk(block as int).next);
                    assert(post.pos_of(block as int) == pre.pos_of(block as int));
                    assert(post.blk(nb).next == Some(block));
                    assert(post.blk(nb).prev is None);
                    assert(post.pos_of(nb) == new_pos);
                    assert forall|i: int|
                        0 <= i < nb && i != block as int implies post.blk(i) == pre.blk(
                        i,
                    ) by {}
                    assert forall|i: int|
                        0 <= i < post.n_blocks() && post.blk(i).prev is Some implies {
                            let j = post.blk(i).prev->Some_0 as int;
                            0 <= j < post.n_blocks() && post.pos_of(j) == post.pos_of(i) - 1
                        } by {
                        if i == block as int {
                            assert(post.pos_of(r as int) == pre.pos_of(block as int) - 1);
                        } else if i < nb {
                            assert(post.blk(i) == pre.blk(i));
                            let j = pre.blk(i).prev->Some_0 as int;
                            assert(0 <= j < nb && pre.pos_of(j) == pre.pos_of(i) - 1);
                            assert(post.pos_of(j) == pre.pos_of(j));
                        }
                    }
                    assert forall|i: int|
                        0 <= i < post.n_blocks() && post.blk(i).next is Some implies {
                            let j = post.blk(i).next->Some_0 as int;
                            0 <= j < post.n_blocks() && post.pos_of(j) == post.pos_of(i) + 1
                        } by {
                        if i == nb {
                            assert(post.pos_of(block as int) == new_pos + 1);
                        } else if i == block as int {
                            if pre.blk(i).next is Some {
                                let j = pre.blk(i).next->Some_0 as int;
                                assert(0 <= j < nb && pre.pos_of(j) == pre.pos_of(i) + 1);
                                assert(post.pos_of(j) == pre.pos_of(j));
                            }
                        } else {
                            assert(post.blk(i) == pre.blk(i));
                            let j = pre.blk(i).next->Some_0 as int;
                            assert(0 <= j < nb && pre.pos_of(j) == pre.pos_of(i) + 1);
                            assert(post.pos_of(j) == pre.pos_of(j));
                        }
                    }
                    assert forall|i: int|
                        0 <= i < post.n_blocks() implies (post.blk(i).prev is None
                            <==> post.pos_of(i) == post.spec_lo()) by {
                        if i < nb && i != block as int {
                            assert(post.blk(i) == pre.blk(i));
                            if pre.blk(i).prev is None {
                                assert(pre.pos_of(i) == pre.spec_lo());
                                assert(false);
                            }
                        }
                    }
                    Memory::lemma_wf_parts(post);
                    assert forall|a: int| post.cell(a) == pre.cell(a) by {
                        let p = a / (MEMORY_BLOCK_LENGTH as int);
                        if pre.has_pos(p) {
                            let i = pre.idx_of_pos(p);
                            assert(post.has_pos(p));
                            pre.lemma_idx_of_pos(i);
                            post.lemma_idx_of_pos(i);
                            assert(post.idx_of_pos(p) == i);
                        } else if post.has_pos(p) {
                            let i = post.idx_of_pos(p);
                            assert(i == pre.n_blocks());
                            assert(post.blk(i).data@[a % (MEMORY_BLOCK_LENGTH as int)] == 0u8);
                        }
                    }
                }
                r
            },
        }
    }
}

} // verus!
