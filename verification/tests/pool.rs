//! The slot pool.

use std::collections::{BTreeMap, HashSet};

use hyperlight::virtq::pool::slot::{SlotLayout, SlotPool};
use hyperlight::virtq::pool::{AllocError, Allocation};
use quickcheck::{Arbitrary, Gen, QuickCheck};

fn free_slots(pool: &SlotPool) -> Vec<(u64, u32)> {
    pool.for_each_free()
        .iter()
        .map(|allocation| (allocation.addr, allocation.len))
        .collect()
}

fn make_slot_pool(slot_count: usize, slot_size: usize) -> SlotPool {
    let layout = SlotLayout::new(0x80000, slot_size, slot_count).unwrap();
    SlotPool::new(layout).unwrap()
}

fn make_tiered_slot_pool(lower_count: usize, upper_count: usize) -> SlotPool {
    let lower = SlotLayout::new(0x80000, 256, lower_count).unwrap();
    let upper = SlotLayout::new(0x90000, 4096, upper_count).unwrap();
    SlotPool::new_tiered(lower, upper).unwrap()
}

#[test]
fn test_slot_pool_preserves_exact_base() {
    let layout = SlotLayout::new(0x80001, 4096, 2).unwrap();
    assert_eq!(layout.base_addr(), 0x80001);
    assert_eq!(layout.slot_size(), 4096);
    assert_eq!(layout.slot_count(), 2);
    assert_eq!(layout.byte_len(), 8192);
    assert_eq!(layout.end_addr(), 0x82001);

    let pool = SlotPool::new(layout).unwrap();

    assert_eq!(pool.base_addr(), 0x80001);
    assert_eq!(pool.count(), 2);
    assert_eq!(pool.slot_addr(0), Some(0x80001));
    assert_eq!(pool.slot_addr(1), Some(0x81001));
}

#[test]
fn test_tiered_slot_pool_reports_layouts() {
    let lower = SlotLayout::new(0x80001, 0x100, 2).unwrap();
    let upper = SlotLayout::new(0x90001, 0x1000, 2).unwrap();
    let pool = SlotPool::new_tiered(lower, upper).unwrap();

    let (lower, upper) = pool.layouts();
    assert_eq!(lower, Some(SlotLayout::new(0x80001, 0x100, 2).unwrap()));
    assert_eq!(upper, SlotLayout::new(0x90001, 0x1000, 2).unwrap());
    assert_eq!(pool.base_addr(), 0x80001);
    assert_eq!(pool.slot_size(), 0x1000);
    assert_eq!(pool.count(), 4);
    assert_eq!(pool.slot_addr(0), Some(0x80001));
    assert_eq!(pool.slot_addr(1), Some(0x80101));
    assert_eq!(pool.slot_addr(2), Some(0x90001));
    assert_eq!(pool.slot_addr(3), Some(0x91001));
    assert_eq!(pool.slot_addr(4), None);
}

#[test]
fn test_tiered_slot_pool_combines_contiguous_equal_sized_layouts() {
    let lower = SlotLayout::new(0x80000, 0x100, 2).unwrap();
    let upper = SlotLayout::new(0x80200, 0x100, 3).unwrap();
    let pool = SlotPool::new_tiered(lower, upper).unwrap();

    assert_eq!(
        pool.layouts(),
        (None, SlotLayout::new(0x80000, 0x100, 5).unwrap())
    );
    assert_eq!(pool.base_addr(), 0x80000);
    assert_eq!(pool.slot_size(), 0x100);
    assert_eq!(pool.count(), 5);
    assert_eq!(pool.num_free_lower(), 0);
    assert_eq!(pool.num_free_upper(), 5);
    assert_eq!(pool.slot_addr(4), Some(0x80400));
}

#[test]
fn test_tiered_slot_pool_rejects_invalid_layout() {
    let lower = SlotLayout::new(0x80000, 0x100, 32).unwrap();
    let overlapping_upper = SlotLayout::new(0x81000, 0x1000, 2).unwrap();
    let overlapping = SlotPool::new_tiered(lower, overlapping_upper);
    assert!(matches!(overlapping, Err(AllocError::InvalidArg)));

    let lower = SlotLayout::new(0x80000, 0x100, 2).unwrap();
    let separated_upper = SlotLayout::new(0x80300, 0x100, 2).unwrap();
    let separated = SlotPool::new_tiered(lower, separated_upper);
    assert!(matches!(separated, Err(AllocError::InvalidArg)));

    let lower = SlotLayout::new(0x80000, 0x1000, 2).unwrap();
    let smaller_upper = SlotLayout::new(0x90000, 0x100, 32).unwrap();
    let reversed_sizes = SlotPool::new_tiered(lower, smaller_upper);
    assert!(matches!(reversed_sizes, Err(AllocError::InvalidArg)));
}

#[test]
fn test_slot_layout_rejects_unrepresentable_slot_size() {
    assert!(matches!(
        SlotLayout::new(0x80000, u32::MAX as usize + 1, 1),
        Err(AllocError::InvalidArg)
    ));
}

#[test]
fn test_slot_layout_rejects_empty_geometry() {
    assert!(matches!(
        SlotLayout::new(0, 0, 1),
        Err(AllocError::InvalidArg)
    ));
    assert!(matches!(
        SlotLayout::new(0, 1, 0),
        Err(AllocError::EmptyRegion)
    ));
}

#[test]
fn test_slot_layout_accepts_maximum_descriptor_capacity() {
    let layout = SlotLayout::new(0, u32::MAX as usize, 1).unwrap();
    assert_eq!(layout.slot_size(), u32::MAX as usize);
    assert_eq!(layout.byte_len(), u32::MAX as usize);
    assert_eq!(layout.end_addr(), u64::from(u32::MAX));
}

#[test]
fn test_slot_layout_rejects_overflowing_ranges() {
    assert!(matches!(
        SlotLayout::new(0, u32::MAX as usize, usize::MAX),
        Err(AllocError::Overflow)
    ));
    assert!(matches!(
        SlotLayout::new(u64::MAX, 1, 1),
        Err(AllocError::Overflow)
    ));
    assert!(matches!(
        SlotLayout::new(u64::MAX - 7, 4, 2),
        Err(AllocError::Overflow)
    ));

    let layout = SlotLayout::new(u64::MAX - 8, 4, 2).unwrap();
    assert_eq!(layout.end_addr(), u64::MAX);
}

#[test]
fn test_slot_layout_bounds_free_list_capacity() {
    let max_slots = isize::MAX as usize / core::mem::size_of::<u64>();
    let layout = SlotLayout::new(0, 1, max_slots).unwrap();
    assert_eq!(layout.slot_count(), max_slots);

    assert!(matches!(
        SlotLayout::new(0, 1, max_slots + 1),
        Err(AllocError::Overflow)
    ));
}

#[test]
fn test_tiered_slot_pool_validates_merged_capacity_before_allocating() {
    let max_slots = isize::MAX as usize / core::mem::size_of::<u64>();
    let lower = SlotLayout::new(0, 1, max_slots).unwrap();
    let upper = SlotLayout::new(lower.end_addr(), 1, 1).unwrap();

    assert!(matches!(
        SlotPool::new_tiered(lower, upper),
        Err(AllocError::Overflow)
    ));
}

#[test]
fn test_tiered_slot_pool_routes_by_size() {
    let mut pool = make_tiered_slot_pool(2, 2);
    let lower = pool.allocate(128).unwrap();
    let upper = pool.allocate(257).unwrap();

    assert_eq!(lower.len, 256);
    assert!((0x80000..0x80200).contains(&lower.addr));
    assert_eq!(upper.len, 4096);
    assert!((0x90000..0x92000).contains(&upper.addr));
    assert_eq!(pool.allocation_len(lower.addr).unwrap(), 256);
    assert_eq!(pool.allocation_len(upper.addr).unwrap(), 4096);
}

#[test]
fn test_tiered_slot_pool_lower_falls_back_when_full() {
    let mut pool = make_tiered_slot_pool(1, 2);

    let lower = pool.allocate(128).unwrap();
    let fallback = pool.allocate(128).unwrap();

    assert_eq!(lower.len, 256);
    assert_eq!(fallback.len, 4096);
    assert!((0x90000..0x92000).contains(&fallback.addr));
}

#[test]
fn test_tiered_slot_pool_does_not_mask_lower_errors() {
    let mut pool = make_tiered_slot_pool(1, 1);

    assert!(matches!(pool.allocate(0), Err(AllocError::InvalidArg)));
    assert!(matches!(pool.allocate(4097), Err(AllocError::OutOfMemory)));
    assert_eq!(pool.num_free(), 2);
}

#[test]
fn test_tiered_slot_pool_reports_free_tier_counts() {
    let mut pool = make_tiered_slot_pool(2, 3);

    assert_eq!(pool.num_free_lower(), 2);
    assert_eq!(pool.num_free_upper(), 3);

    let lower = pool.allocate(128).unwrap();
    let upper = pool.allocate(4096).unwrap();
    assert_eq!(pool.num_free_lower(), 1);
    assert_eq!(pool.num_free_upper(), 2);

    pool.dealloc(lower.addr).unwrap();
    pool.dealloc(upper.addr).unwrap();
    assert_eq!(pool.num_free_lower(), 2);
    assert_eq!(pool.num_free_upper(), 3);
}

#[test]
fn test_tiered_slot_pool_dealloc_routes_by_region() {
    let mut pool = make_tiered_slot_pool(1, 1);
    let lower = pool.allocate(128).unwrap();
    let upper = pool.allocate(1024).unwrap();

    pool.dealloc(lower.addr).unwrap();
    pool.dealloc(upper.addr).unwrap();
    assert_eq!(pool.num_free(), 2);
    assert!(matches!(
        pool.dealloc(lower.addr),
        Err(AllocError::InvalidFree(_, _))
    ));
    assert!(matches!(
        pool.dealloc(0x88000),
        Err(AllocError::InvalidFree(_, _))
    ));
}

#[test]
fn test_tiered_slot_pool_live_addrs_are_deterministic() {
    let mut pool = make_tiered_slot_pool(2, 2);
    assert_eq!(pool.num_live(), 0);

    let lower_high = pool.allocate(128).unwrap();
    let upper_high = pool.allocate(1024).unwrap();
    let lower_low = pool.allocate(128).unwrap();

    assert_eq!(pool.num_live(), 3);
    assert_eq!(
        pool.live_addrs(),
        vec![lower_low.addr, lower_high.addr, upper_high.addr]
    );
}

#[test]
fn free_slots_include_full_capacities_and_preserve_allocation_order() {
    let mut pool = make_tiered_slot_pool(2, 2);
    let lower = pool.allocate(128).unwrap();
    let upper = pool.allocate(1024).unwrap();
    assert_eq!(free_slots(&pool), [(0x80000, 256), (0x90000, 4096)]);
    assert_eq!(pool.live_addrs(), [lower.addr, upper.addr]);

    pool.dealloc(lower.addr).unwrap();
    let repeated = pool.allocate(128).unwrap();
    assert_eq!(repeated.addr, lower.addr);
    pool.dealloc(repeated.addr).unwrap();
    pool.dealloc(upper.addr).unwrap();
    assert_eq!(
        free_slots(&pool),
        [
            (0x80000, 256),
            (0x80100, 256),
            (0x90000, 4096),
            (0x91000, 4096)
        ]
    );
}

#[test]
fn test_slot_pool_dealloc_out_of_range() {
    let mut pool = make_slot_pool(4, 4096);
    let _ = pool.allocate(4096).unwrap();

    assert!(matches!(
        pool.dealloc(0xDEAD),
        Err(AllocError::InvalidFree(0xDEAD, 0))
    ));
}

#[test]
fn test_slot_pool_dealloc_misaligned() {
    let mut pool = make_slot_pool(4, 4096);
    let _ = pool.allocate(4096).unwrap();

    assert!(matches!(
        pool.dealloc(0x80001),
        Err(AllocError::InvalidFree(0x80001, 0))
    ));
}

#[test]
fn test_slot_pool_dealloc_double_free() {
    let mut pool = make_slot_pool(4, 4096);
    let a = pool.allocate(4096).unwrap();
    pool.dealloc(a.addr).unwrap();

    // Second dealloc should fail - address is already in the free list
    assert!(matches!(
        pool.dealloc(a.addr),
        Err(AllocError::InvalidFree(_, _))
    ));
}

#[test]
fn test_slot_pool_dealloc_addr_and_allocation_len() {
    let mut pool = make_slot_pool(4, 4096);
    let alloc = pool.allocate(4096).unwrap();

    assert_eq!(pool.allocation_len(alloc.addr).unwrap(), 4096);
    pool.dealloc(alloc.addr).unwrap();
    assert!(matches!(
        pool.allocation_len(alloc.addr),
        Err(AllocError::InvalidFree(_, 0))
    ));
}

#[test]
fn test_slot_pool_random_order_dealloc() {
    let mut pool = make_slot_pool(8, 4096);

    let mut allocs: Vec<Allocation> = (0..8).map(|_| pool.allocate(4096).unwrap()).collect();
    assert_eq!(pool.num_free(), 0);

    // Dealloc in reverse order
    allocs.reverse();
    for a in &allocs {
        pool.dealloc(a.addr).unwrap();
    }
    assert_eq!(pool.num_free(), 8);

    // All slots should be re-allocatable
    let reallocs: Vec<Allocation> = (0..8).map(|_| pool.allocate(4096).unwrap()).collect();
    assert_eq!(pool.num_free(), 0);

    // Verify all addresses are distinct
    let mut addrs: Vec<u64> = reallocs.iter().map(|a| a.addr).collect();
    addrs.sort();
    addrs.dedup();
    assert_eq!(addrs.len(), 8);
}

#[test]
fn test_slot_pool_interleaved_alloc_dealloc_order() {
    let mut pool = make_slot_pool(4, 4096);

    let a0 = pool.allocate(4096).unwrap();
    let a1 = pool.allocate(4096).unwrap();
    let a2 = pool.allocate(4096).unwrap();
    let a3 = pool.allocate(4096).unwrap();
    assert_eq!(pool.num_free(), 0);

    // Free middle slots first (out of allocation order)
    pool.dealloc(a2.addr).unwrap();
    pool.dealloc(a0.addr).unwrap();
    assert_eq!(pool.num_free(), 2);

    // Re-alloc gets the out-of-order slots back (LIFO)
    let b0 = pool.allocate(4096).unwrap();
    assert_eq!(b0.addr, a0.addr);
    let b1 = pool.allocate(4096).unwrap();
    assert_eq!(b1.addr, a2.addr);

    // Free everything in yet another order
    pool.dealloc(a1.addr).unwrap();
    pool.dealloc(b0.addr).unwrap();
    pool.dealloc(b1.addr).unwrap();
    pool.dealloc(a3.addr).unwrap();
    assert_eq!(pool.num_free(), 4);

    // All 4 original addresses should be available
    let mut final_addrs: Vec<u64> = (0..4).map(|_| pool.allocate(4096).unwrap().addr).collect();
    final_addrs.sort();
    let expected: Vec<u64> = (0..4).map(|i| 0x80000 + i * 4096).collect();
    assert_eq!(final_addrs, expected);
}

#[test]
fn test_slot_pool_dealloc_order_independent_of_alloc_order() {
    let mut pool = make_slot_pool(6, 256);

    // Allocate all
    let allocs: Vec<Allocation> = (0..6).map(|_| pool.allocate(256).unwrap()).collect();

    // Dealloc in scattered order: 4, 1, 5, 0, 3, 2
    let order = [4, 1, 5, 0, 3, 2];
    for &i in &order {
        pool.dealloc(allocs[i].addr).unwrap();
    }
    assert_eq!(pool.num_free(), 6);

    // Re-allocate all and verify we get back the full set
    let mut realloc_addrs: Vec<u64> = (0..6).map(|_| pool.allocate(256).unwrap().addr).collect();
    realloc_addrs.sort();

    let mut orig_addrs: Vec<u64> = allocs.iter().map(|a| a.addr).collect();
    orig_addrs.sort();

    assert_eq!(realloc_addrs, orig_addrs);
}

const MAX_OPS: usize = 10;
const MAX_ALLOC_SIZE: usize = 8192;
const MAX_TIER_SLOTS: usize = 16;
const LOWER_BASE: u64 = 0x80000;
const UPPER_BASE: u64 = 0x90000;
const LOWER_SLOT_SIZE: usize = 256;
const UPPER_SLOT_SIZE: usize = 4096;

#[derive(Clone, Debug)]
enum Op {
    Alloc(usize),
    Dealloc(usize),
}

impl Arbitrary for Op {
    fn arbitrary(g: &mut Gen) -> Self {
        match u8::arbitrary(g) % 2 {
            0 => Op::Alloc(usize::arbitrary(g) % MAX_ALLOC_SIZE + 1),
            _ => Op::Dealloc(usize::arbitrary(g)),
        }
    }
}

#[derive(Clone, Debug)]
struct SlotScenario {
    tiered: bool,
    lower_count: usize,
    upper_count: usize,
    ops: Vec<Op>,
}

impl Arbitrary for SlotScenario {
    fn arbitrary(g: &mut Gen) -> Self {
        let tiered = bool::arbitrary(g);
        let lower_count = usize::arbitrary(g) % MAX_TIER_SLOTS + 1;
        let upper_count = usize::arbitrary(g) % MAX_TIER_SLOTS + 1;
        let num_ops = usize::arbitrary(g) % MAX_OPS + 1;
        let ops = (0..num_ops).map(|_| Op::arbitrary(g)).collect();

        Self {
            tiered,
            lower_count,
            upper_count,
            ops,
        }
    }
}

fn make_scenario_pool(scenario: &SlotScenario) -> SlotPool {
    if scenario.tiered {
        let lower = SlotLayout::new(LOWER_BASE, LOWER_SLOT_SIZE, scenario.lower_count).unwrap();
        let upper = SlotLayout::new(UPPER_BASE, UPPER_SLOT_SIZE, scenario.upper_count).unwrap();
        SlotPool::new_tiered(lower, upper).unwrap()
    } else {
        let layout = SlotLayout::new(UPPER_BASE, UPPER_SLOT_SIZE, scenario.upper_count).unwrap();
        SlotPool::new(layout).unwrap()
    }
}

fn run_slot_pool_scenario(scenario: SlotScenario) -> bool {
    let mut pool = make_scenario_pool(&scenario);
    let mut allocations: Vec<Allocation> = Vec::new();

    for op in &scenario.ops {
        match op {
            Op::Alloc(size) => match pool.allocate(*size) {
                Ok(allocation) => {
                    if (allocation.len as usize) < *size
                        || allocations
                            .iter()
                            .any(|existing| existing.addr == allocation.addr)
                    {
                        return false;
                    }
                    allocations.push(allocation);
                }
                Err(AllocError::NoSpace | AllocError::OutOfMemory) => {}
                Err(_) => return false,
            },
            Op::Dealloc(index) => {
                if !allocations.is_empty() {
                    let index = index % allocations.len();
                    if pool.dealloc(allocations[index].addr).is_err() {
                        return false;
                    }
                    allocations.swap_remove(index);
                }
            }
        }

        if check_slot_pool_invariants(&pool, &allocations).is_err() {
            return false;
        }
    }

    while let Some(alloc) = allocations.pop() {
        if pool.dealloc(alloc.addr).is_err() {
            return false;
        }
    }

    check_slot_pool_invariants(&pool, &allocations).is_ok()
}

fn layout_contains(layout: SlotLayout, addr: u64) -> bool {
    (layout.base_addr()..layout.end_addr()).contains(&addr)
}

fn slot_capacity(pool: &SlotPool, addr: u64) -> Option<usize> {
    let (lower, upper) = pool.layouts();
    if let Some(lower) = lower {
        if layout_contains(lower, addr) {
            return Some(lower.slot_size());
        }
    }
    layout_contains(upper, addr).then_some(upper.slot_size())
}

fn check_slot_pool_invariants(
    pool: &SlotPool,
    allocations: &[Allocation],
) -> Result<(), &'static str> {
    let mut expected_live = BTreeMap::new();
    for alloc in allocations {
        if expected_live.insert(alloc.addr, alloc.len).is_some() {
            return Err("duplicate allocation address in tracking");
        }
    }

    // Live addresses must match the order. Free plus live must cover every slot.
    let live = pool.live_addrs();
    let expected_addrs: Vec<u64> = expected_live.keys().copied().collect();
    if live != expected_addrs || live.windows(2).any(|pair| pair[0] >= pair[1]) {
        return Err("live addresses are not unique and deterministic");
    }
    if pool.num_free() + live.len() != pool.count() {
        return Err("free + live != total slots");
    }

    // Free-slot enumeration must match the reported count and be strictly ordered.
    let free = pool.for_each_free();

    if free.len() != pool.num_free() {
        return Err("free-slot visitation is inconsistent");
    }

    if free.windows(2).any(|pair| pair[0].addr >= pair[1].addr) {
        return Err("free-slot visitation is inconsistent");
    }

    // Free slots cannot also be live and must report their tier's full capacity.
    if free.iter().any(|allocation| {
        expected_live.contains_key(&allocation.addr)
            || slot_capacity(pool, allocation.addr) != Some(allocation.len as usize)
    }) {
        return Err("free-slot visitation is inconsistent");
    }

    // Reported geometry must agree with the stored tier layouts.
    let (lower, upper) = pool.layouts();
    let expected_base = lower.map_or(upper.base_addr(), SlotLayout::base_addr);
    if pool.base_addr() != expected_base || pool.slot_size() != upper.slot_size() {
        return Err("reported pool layout is inconsistent");
    }

    // Distinct tiers need increasing slot sizes and ordered, non-overlapping ranges.
    let mut expected_count = upper.slot_count();
    if let Some(lower) = lower {
        if lower.slot_size() >= upper.slot_size() || lower.end_addr() > upper.base_addr() {
            return Err("tier layout is invalid");
        }
        expected_count += lower.slot_count();
    }
    if pool.count() != expected_count || pool.slot_addr(pool.count()).is_some() {
        return Err("reported slot count is inconsistent");
    }

    // Indexed slots must be unique and inside a tier. Only live slots may report allocation lengths.
    let mut seen = HashSet::new();
    for index in 0..pool.count() {
        let Some(addr) = pool.slot_addr(index) else {
            return Err("missing slot address");
        };
        if !seen.insert(addr) {
            return Err("duplicate slot address");
        }
        let Some(capacity) = slot_capacity(pool, addr) else {
            return Err("slot address outside layout");
        };

        match expected_live.get(&addr) {
            Some(expected_capacity) => {
                if *expected_capacity as usize != capacity
                    || pool.allocation_len(addr).ok() != Some(capacity)
                {
                    return Err("live slot capacity is inconsistent");
                }
            }
            None if pool.allocation_len(addr).is_ok() => {
                return Err("free slot reported as live");
            }
            None => {}
        }
    }

    Ok(())
}

#[test]
fn prop_slot_pool_invariants() {
    QuickCheck::new()
        .tests(1000)
        .quickcheck(run_slot_pool_scenario as fn(SlotScenario) -> bool);
}

#[test]
fn every_slot_is_live_or_free() {
    let mut pool = make_tiered_slot_pool(3, 2);
    let a = pool.allocate(64).unwrap();
    let b = pool.allocate(1024).unwrap();
    let c = pool.allocate(200).unwrap();
    pool.dealloc(a.addr).unwrap();
    assert!(pool.dealloc(a.addr).is_err());

    let live = pool.live_addrs();
    let mut expected = vec![b.addr, c.addr];
    expected.sort();
    assert_eq!(live, expected);
    assert_eq!(live.len(), pool.num_live());
    assert_eq!(pool.num_live() + pool.num_free(), pool.count());
    let free: Vec<u64> = free_slots(&pool).into_iter().map(|(addr, _)| addr).collect();
    assert_eq!(free.len(), pool.num_free());
    for index in 0..pool.count() {
        let addr = pool.slot_addr(index).unwrap();
        assert_ne!(live.contains(&addr), free.contains(&addr));
    }
}

#[test]
fn a_pool_without_room_for_its_free_list_is_refused() {
    let lower = SlotLayout::new(0x80000, 256, 100).unwrap();
    let upper = SlotLayout::new(0x90000, 4096, 100).unwrap();
    assert!(matches!(
        SlotPool::new_in(upper, None),
        Err(AllocError::Bookkeeping)
    ));
    assert!(matches!(
        SlotPool::new_tiered_in(lower, upper, None, None),
        Err(AllocError::Bookkeeping)
    ));
    // Layouts that do not fit are refused first.
    assert!(matches!(
        SlotPool::new_tiered_in(upper, lower, None, None),
        Err(AllocError::InvalidArg)
    ));

    assert_eq!(SlotPool::new(upper).unwrap().num_free(), 100);
    assert_eq!(SlotPool::new_tiered(lower, upper).unwrap().num_free(), 200);
}
