//! Tests for the stated properties of the deque: length/capacity
//! consistency along arbitrary operation sequences, stack and queue behavior
//! at and across the two ends, capacity growth and shrink at block
//! boundaries, and the element count under interleaved operations.

use std::collections::VecDeque;

use linked_vec::deque::LinkedVec;

/// Length never exceeds capacity, capacity is a whole number of blocks, and
/// capacity never falls below one block, checked after every operation of a
/// mixed sequence.
#[test]
fn test_len_capacity_consistency() {
    let k: usize = 4;
    let mut lv: LinkedVec<u32> = LinkedVec::new(k);
    let check = |lv: &LinkedVec<u32>| {
        assert!(lv.len() <= lv.capacity());
        assert_eq!(lv.capacity() % k, 0);
        assert!(lv.capacity() >= k);
    };
    check(&lv);
    for i in 0..25u32 {
        if i % 3 == 0 {
            lv.push_front(i);
        } else {
            lv.push_back(i);
        }
        check(&lv);
    }
    for i in 0..30u32 {
        if i % 2 == 0 {
            lv.pop_front();
        } else {
            lv.pop_back();
        }
        check(&lv);
    }
}

/// Pushing a run of values at the front and popping them back off the front
/// returns them in reverse insertion order, at any count that crosses
/// several block boundaries.
#[test]
fn test_front_push_pop_reverses() {
    let mut lv: LinkedVec<u32> = LinkedVec::new(3);
    for i in 0..20u32 {
        lv.push_front(i);
    }
    for i in (0..20u32).rev() {
        assert_eq!(lv.pop_front(), Some(i));
    }
    assert_eq!(lv.pop_front(), None);
}

/// Pushing a run of values at the back and popping from the front returns
/// them in insertion order: the two ends together act as a FIFO queue.
#[test]
fn test_back_push_front_pop_fifo() {
    let mut lv: LinkedVec<u32> = LinkedVec::new(3);
    for i in 0..20u32 {
        lv.push_back(i);
    }
    for i in 0..20u32 {
        assert_eq!(lv.pop_front(), Some(i));
    }
    assert_eq!(lv.pop_front(), None);
}

/// Pushing at the front and popping from the back likewise acts as a FIFO
/// queue, and pushing and popping at the back alone acts as a stack.
#[test]
fn test_end_symmetry() {
    let mut lv: LinkedVec<u32> = LinkedVec::new(2);
    for i in 0..9u32 {
        lv.push_front(i);
    }
    for i in 0..9u32 {
        assert_eq!(lv.pop_back(), Some(i));
    }
    assert_eq!(lv.pop_back(), None);

    for i in 0..9u32 {
        lv.push_back(i);
    }
    for i in (0..9u32).rev() {
        assert_eq!(lv.pop_back(), Some(i));
    }
    assert_eq!(lv.pop_back(), None);
}

/// With block size k, the k+1-th push from one end grows the capacity by
/// exactly one block, and popping back below the boundary shrinks it again.
#[test]
fn test_capacity_growth_and_shrink() {
    let k: usize = 3;
    let mut lv: LinkedVec<u8> = LinkedVec::new(k);
    for i in 0..k as u8 {
        lv.push_back(i);
        assert_eq!(lv.capacity(), k);
    }
    lv.push_back(99);
    assert_eq!(lv.len(), k + 1);
    assert_eq!(lv.capacity(), 2 * k);
    assert_eq!(lv.pop_back(), Some(99));
    assert_eq!(lv.capacity(), k);
}

/// Alternating a push and a pop at opposite ends of a deque whose elements
/// fit one block neither allocates nor frees a block: capacity stays at the
/// single block it started with.
#[test]
fn test_single_block_alternation_keeps_capacity() {
    let k: usize = 4;
    let mut lv: LinkedVec<u8> = LinkedVec::new(k);
    lv.push_back(1);
    for _ in 0..10 {
        lv.push_front(2);
        assert_eq!(lv.capacity(), k);
        assert_eq!(lv.pop_back(), Some(1));
        assert_eq!(lv.capacity(), k);
        lv.push_back(1);
        assert_eq!(lv.capacity(), k);
        assert_eq!(lv.pop_front(), Some(2));
        assert_eq!(lv.capacity(), k);
    }
}

/// A deque with the smallest legal block size still behaves correctly: every
/// element sits in its own block.
#[test]
fn test_block_size_one() {
    let mut lv: LinkedVec<u16> = LinkedVec::new(1);
    assert_eq!(lv.capacity(), 1);
    lv.push_back(1);
    lv.push_back(2);
    lv.push_front(0);
    assert_eq!(lv.len(), 3);
    assert_eq!(lv.capacity(), 3);
    assert_eq!(lv.pop_front(), Some(0));
    assert_eq!(lv.pop_back(), Some(2));
    assert_eq!(lv.pop_back(), Some(1));
    assert_eq!(lv.pop_back(), None);
    assert_eq!(lv.len(), 0);
    assert_eq!(lv.capacity(), 1);
}

/// A pseudo-random interleaving of all four operations, mirrored against a
/// reference double-ended queue: the length always equals successful pushes
/// minus successful pops, and every popped value matches the reference.
#[test]
fn test_interleaving_matches_reference() {
    let mut lv: LinkedVec<u64> = LinkedVec::new(3);
    let mut reference: VecDeque<u64> = VecDeque::new();
    let mut state: u64 = 0x2545F4914F6CDD1D;
    for step in 0..500u64 {
        state = state.wrapping_mul(6364136223846793005).wrapping_add(1442695040888963407);
        match state >> 62 {
            0 => {
                lv.push_front(step);
                reference.push_front(step);
            }
            1 => {
                lv.push_back(step);
                reference.push_back(step);
            }
            2 => {
                assert_eq!(lv.pop_front(), reference.pop_front());
            }
            _ => {
                assert_eq!(lv.pop_back(), reference.pop_back());
            }
        }
        assert_eq!(lv.len(), reference.len());
        assert!(lv.len() <= lv.capacity());
    }
    while let Some(expected) = reference.pop_front() {
        assert_eq!(lv.pop_front(), Some(expected));
    }
    assert_eq!(lv.pop_front(), None);
    assert_eq!(lv.len(), 0);
}

/// Emptying the deque and refilling it works; pops on the empty deque keep
/// returning nothing without disturbing later pushes.
#[test]
fn test_refill_after_drain() {
    let mut lv: LinkedVec<i32> = LinkedVec::new(2);
    for i in 0..5 {
        lv.push_back(i);
    }
    while lv.pop_front().is_some() {}
    assert_eq!(lv.len(), 0);
    assert_eq!(lv.pop_back(), None);
    assert_eq!(lv.pop_front(), None);
    for i in 10..15 {
        lv.push_front(i);
    }
    assert_eq!(lv.len(), 5);
    assert_eq!(lv.pop_back(), Some(10));
    assert_eq!(lv.pop_front(), Some(14));
}
