use lbf::vm::append_array::AppendArray;
use lbf::vm::memory::{Memory, MemoryBlock, MEMORY_BLOCK_LENGTH};
use lbf::vm::pointer::Pointer;

#[test]
fn append_array_hands_out_consecutive_indices() {
    let mut arena: AppendArray<u32> = AppendArray::new();

    assert_eq!(arena.len(), 0);
    assert_eq!(arena.append(10), 0);
    assert_eq!(arena.append(20), 1);
    assert_eq!(arena.append(30), 2);
    assert_eq!(arena.len(), 3);
    assert_eq!(*arena.get(0), 10);
    assert_eq!(*arena.get(1), 20);
    assert_eq!(*arena.get(2), 30);
}

#[test]
fn append_array_indices_stay_valid_as_it_grows() {
    let mut arena: AppendArray<usize> = AppendArray::new();
    for k in 0usize..1000 {
        assert_eq!(arena.append(k * 7), k);
    }
    for k in 0usize..1000 {
        assert_eq!(*arena.get(k), k * 7);
    }
}

#[test]
fn append_array_set_overwrites_in_place() {
    let mut arena: AppendArray<u8> = AppendArray::new();
    arena.append(1);
    arena.append(2);
    arena.set(0, 9);

    assert_eq!(*arena.get(0), 9);
    assert_eq!(*arena.get(1), 2);
    assert_eq!(arena.len(), 2);
}

#[test]
fn memory_block_starts_unlinked_and_zeroed() {
    let block = MemoryBlock::new();

    assert!(block.next.is_none());
    assert!(block.prev.is_none());
    assert_eq!(block.data.len(), MEMORY_BLOCK_LENGTH);
    assert!(block.data.iter().all(|&b| b == 0));
}

#[test]
fn memory_neighbours_are_stable_once_allocated() {
    let mut memory = Memory::new();
    let base = memory.get_base_block();

    let right = memory.get_next(base);
    let right_again = memory.get_next(base);
    assert_eq!(right, right_again);

    let left = memory.get_prev(base);
    let left_again = memory.get_prev(base);
    assert_eq!(left, left_again);
    assert_ne!(left, right);

    assert_eq!(memory.get_prev(right), base);
    assert_eq!(memory.get_next(left), base);
}

#[test]
fn memory_cells_read_back_what_was_written() {
    let mut memory = Memory::new();
    let base = memory.get_base_block();

    assert_eq!(memory.read_cell(base, 5), 0);
    memory.write_cell(base, 5, 42);
    assert_eq!(memory.read_cell(base, 5), 42);
    assert_eq!(memory.read_cell(base, 4), 0);
}

#[test]
fn pointer_starts_on_a_zero_cell() {
    let memory = Memory::new();
    let pointer = Pointer::new(memory);

    assert_eq!(pointer.get(), 0);
}

#[test]
fn pointer_wraps_cell_arithmetic() {
    let memory = Memory::new();
    let mut pointer = Pointer::new(memory);

    pointer.dec();
    assert_eq!(pointer.get(), 255);
    pointer.inc();
    assert_eq!(pointer.get(), 0);
    pointer.set(254);
    pointer.inc();
    pointer.inc();
    assert_eq!(pointer.get(), 0);
}

#[test]
fn pointer_round_trip_preserves_the_cell() {
    let memory = Memory::new();
    let mut pointer = Pointer::new(memory);

    pointer.set(7);
    pointer.right();
    pointer.left();
    assert_eq!(pointer.get(), 7);

    pointer.left();
    pointer.right();
    assert_eq!(pointer.get(), 7);
}

#[test]
fn pointer_round_trip_across_block_boundaries() {
    let memory = Memory::new();
    let mut pointer = Pointer::new(memory);

    pointer.set(9);
    for _ in 0..(3 * MEMORY_BLOCK_LENGTH) {
        pointer.right();
    }
    pointer.set(11);
    for _ in 0..(3 * MEMORY_BLOCK_LENGTH) {
        pointer.left();
    }
    assert_eq!(pointer.get(), 9);

    for _ in 0..(2 * MEMORY_BLOCK_LENGTH) {
        pointer.left();
    }
    assert_eq!(pointer.get(), 0);
    for _ in 0..(5 * MEMORY_BLOCK_LENGTH) {
        pointer.right();
    }
    assert_eq!(pointer.get(), 11);
}
