use itertools::Itertools;
use subnet_garden::errors::{AllocateError, RenameError};
use subnet_garden::pool::SubnetPool;
use subnet_garden::util::{cidr_contains, host_length, max_bits};
use subnet_garden::{Cidr, Family};

fn cidr4(a: u8, b: u8, c: u8, d: u8, len: u8) -> Cidr {
    let address = ((a as u128) << 24) | ((b as u128) << 16) | ((c as u128) << 8) | (d as u128);
    Cidr { family: Family::V4, address, network_length: len }
}

fn test_cidr4() -> Cidr {
    cidr4(10, 20, 0, 0, 16)
}

fn test_cidr6() -> Cidr {
    let segs: [u128; 8] = [1, 2, 3, 4, 0xa, 0x14, 0, 0];
    let mut address: u128 = 0;
    for (i, s) in segs.iter().enumerate() {
        address |= s << (112 - 16 * i);
    }
    Cidr { family: Family::V6, address, network_length: 112 }
}

fn new_test_pool() -> SubnetPool {
    SubnetPool::new(test_cidr4())
}

fn new_test_pool6() -> SubnetPool {
    SubnetPool::new(test_cidr6())
}

// a sub-block of `cidr` with the given host bits, `d` steps from the start
fn get_nth_of(cidr: &Cidr, bits: u8, d: u128) -> Cidr {
    let size: u128 = 1u128 << bits;
    Cidr {
        family: cidr.family,
        address: cidr.address + d * size,
        network_length: max_bits(cidr) - bits,
    }
}

#[test]
fn max_bits_v6() {
    assert_eq!(max_bits(&test_cidr6()), 128);
}

#[test]
fn max_bits_v4() {
    assert_eq!(max_bits(&test_cidr4()), 32);
}

#[test]
fn available_bits_v6() {
    assert_eq!(host_length(&test_cidr6()), 16);
}

#[test]
fn available_bits_v4() {
    assert_eq!(host_length(&test_cidr4()), 16);
}

#[test]
fn contained_in() {
    assert!(!cidr_contains(&get_nth_of(&test_cidr4(), 12, 2), &test_cidr4()));
    assert!(!cidr_contains(&get_nth_of(&test_cidr6(), 12, 2), &test_cidr6()));
}

#[test]
fn contained_in_low_edge() {
    assert!(!cidr_contains(&get_nth_of(&test_cidr4(), 12, 0), &test_cidr4()));
}

#[test]
fn contained_in_high_edge() {
    assert!(!cidr_contains(&get_nth_of(&test_cidr4(), 12, 15), &test_cidr4()));
}

#[test]
fn entirely_outside() {
    assert!(!cidr_contains(
        &get_nth_of(&test_cidr4(), 12, 15),
        &get_nth_of(&test_cidr4(), 12, 0)
    ));
    assert!(!cidr_contains(
        &get_nth_of(&test_cidr6(), 12, 15),
        &get_nth_of(&test_cidr6(), 12, 0)
    ));
}

#[test]
fn equal() {
    assert!(cidr_contains(&test_cidr6(), &test_cidr6()));
}

#[test]
fn inner() {
    assert!(cidr_contains(&test_cidr4(), &get_nth_of(&test_cidr4(), 12, 2)));
}

#[test]
fn low_edge() {
    assert!(cidr_contains(&test_cidr4(), &get_nth_of(&test_cidr4(), 12, 0)));
}

#[test]
fn high_edge() {
    assert!(cidr_contains(&test_cidr4(), &get_nth_of(&test_cidr4(), 12, 15)));
}

#[test]
fn does_not_contain() {
    let mut pool = new_test_pool();
    pool.allocate(4, None).unwrap();
    for cidr in [
        cidr4(10, 10, 0, 0, 25),
        cidr4(10, 10, 1, 0, 25),
        cidr4(10, 10, 0, 0, 23),
        cidr4(20, 20, 0, 0, 24),
    ] {
        assert!(!pool.contains(&cidr));
    }
}

#[test]
fn contains() {
    let mut pool = new_test_pool();
    let allocated = pool.allocate(4, None).unwrap();
    assert!(pool.contains(&allocated));
}

#[test]
fn no_named() {
    let pool = new_test_pool();
    assert_eq!(pool.named_count(), 0);
}

#[test]
fn some_named() {
    let mut pool = new_test_pool();
    pool.allocate(4, Some("a-name")).unwrap();
    pool.allocate(4, Some("b-name")).unwrap();
    pool.allocate(4, None).unwrap();
    assert_eq!(pool.named_count(), 2);
}

#[test]
fn too_many_bits() {
    let mut pool = new_test_pool();
    let result = pool.allocate(17, None);
    assert_eq!(result.err(), Some(AllocateError::NoSpaceAvailable));
    assert_eq!(pool.allocated_count(), pool.cidrs().len());
}

#[test]
fn no_pool_available() {
    let mut pool = new_test_pool();
    pool.allocate(16, None).unwrap();
    let result = pool.allocate(16, None);
    assert_eq!(result.err(), Some(AllocateError::NoSpaceAvailable));
    assert_eq!(pool.allocated_count(), pool.cidrs().len());
}

#[test]
fn allocate_name_already_exists() {
    let mut pool = new_test_pool();
    pool.allocate(4, Some("a-name")).unwrap();
    let result = pool.allocate(4, Some("a-name"));
    assert_eq!(result.err(), Some(AllocateError::DuplicateName));
    assert_eq!(pool.allocated_count(), pool.cidrs().len());
    // the failed call must not have touched the tree
    assert_eq!(pool.allocated_count(), 1);
}

#[test]
fn name_is_not_cidr_record() {
    let mut pool = new_test_pool();
    pool.allocate(4, Some("10.20.0.16/28")).unwrap();
    let result = pool.allocate(4, None);
    assert_eq!(result.err(), None);
    assert_eq!(pool.allocated_count(), pool.cidrs().len());
}

#[test]
fn allocate_named() {
    let mut pool = new_test_pool();
    let result = pool.allocate(4, Some("a-name")).unwrap();
    let looked_up = pool.find_by_name("a-name").unwrap();
    assert_eq!(looked_up, result);
    assert_eq!(pool.allocated_count(), pool.cidrs().len());
}

#[test]
fn allocate_success_v4() {
    let mut pool = new_test_pool();
    let result = pool.allocate(4, None).unwrap();
    assert_eq!(result, cidr4(10, 20, 0, 0, 28));
    assert_eq!(pool.allocated_count(), pool.cidrs().len());
}

#[test]
fn allocate_success_v6() {
    let mut pool = new_test_pool6();
    let result = pool.allocate(4, None).unwrap();
    let mut expected = test_cidr6();
    expected.network_length = 124;
    assert_eq!(result, expected);
    assert_eq!(pool.allocated_count(), pool.cidrs().len());
}

#[test]
fn allocate_multi_sizes() {
    let mut pool = new_test_pool();
    let result1 = pool.allocate(4, None).unwrap();
    assert_eq!(result1, cidr4(10, 20, 0, 0, 28));
    let result2 = pool.allocate(8, None).unwrap();
    assert_eq!(result2, cidr4(10, 20, 1, 0, 24));
    assert_eq!(pool.allocated_count(), pool.cidrs().len());
}

#[test]
fn max_subnet_allocation() {
    let mut pool = new_test_pool();
    let result = pool.allocate(16, None).unwrap();
    assert_eq!(result, cidr4(10, 20, 0, 0, 16));
}

#[test]
fn max_available_bits() {
    let mut pool = new_test_pool();
    assert_eq!(pool.max_available_bits(), 16);

    // use up all the bits
    let result = pool.allocate(16, None).unwrap();
    assert_eq!(pool.max_available_bits(), 0);
    pool.free(&result);
    assert_eq!(pool.max_available_bits(), 16);

    let net1 = pool.allocate(14, None).unwrap();
    assert_eq!(pool.max_available_bits(), 15);
    let net2 = pool.allocate(15, None).unwrap();
    assert_eq!(pool.max_available_bits(), 14);
    let net3 = pool.allocate(13, None).unwrap();
    assert_eq!(pool.max_available_bits(), 13);
    pool.free(&net1);
    assert_eq!(pool.max_available_bits(), 14);
    pool.free(&net3);
    assert_eq!(pool.max_available_bits(), 15);
    pool.free(&net2);
    assert_eq!(pool.max_available_bits(), 16);
}

#[test]
fn out_of_range() {
    let mut pool = new_test_pool();
    assert!(!pool.free(&cidr4(20, 20, 0, 0, 16)));
    assert_eq!(pool.allocated_count(), pool.cidrs().len());
}

#[test]
fn free() {
    let index_list = [0usize, 1, 2, 3];
    for indices in index_list.iter().permutations(index_list.len()) {
        let mut pool = new_test_pool();
        let mut cidrs = vec![];
        for _ in 0..index_list.len() {
            cidrs.push(pool.allocate(14, None).unwrap());
        }
        fn free_test(pool: &mut SubnetPool, cidr: &Cidr) {
            assert!(pool.free(cidr));
            assert!(!pool.free(cidr));
            pool.claim(cidr, None).unwrap();
        }
        for index in indices {
            let cidr = cidrs[*index];
            free_test(&mut pool, &cidr);
        }
        assert_eq!(pool.allocated_count(), pool.cidrs().len());
    }
}

#[test]
fn claim_out_of_range() {
    let mut pool = new_test_pool();
    let cidr = cidr4(10, 21, 0, 0, 28);
    let result = pool.claim(&cidr, None);
    assert_eq!(result, Err(AllocateError::NoSpaceAvailable));
    assert_eq!(pool.allocated_count(), pool.cidrs().len());
}

#[test]
fn already_claimed() {
    let mut pool = new_test_pool();
    let cidr = cidr4(10, 20, 0, 0, 28);
    pool.claim(&cidr, None).unwrap();
    let result = pool.claim(&cidr, None);
    assert_eq!(result, Err(AllocateError::NoSpaceAvailable));
    assert_eq!(pool.allocated_count(), pool.cidrs().len());
}

#[test]
fn already_allocated() {
    let mut pool = new_test_pool();
    let cidr = cidr4(10, 20, 0, 0, 28);
    pool.allocate(16, None).unwrap();
    let result = pool.claim(&cidr, None);
    assert_eq!(result, Err(AllocateError::NoSpaceAvailable));
    assert_eq!(pool.allocated_count(), pool.cidrs().len());
}

#[test]
fn already_named() {
    let mut pool = new_test_pool();
    let cidr = cidr4(10, 20, 0, 16, 28);
    pool.allocate(4, Some("a-name")).unwrap();
    let result = pool.claim(&cidr, Some("a-name"));
    assert_eq!(result, Err(AllocateError::DuplicateName));
    assert_eq!(pool.allocated_count(), pool.cidrs().len());
}

#[test]
fn unnamed() {
    let mut pool = new_test_pool();
    let cidr = cidr4(10, 20, 0, 0, 28);
    let result = pool.claim(&cidr, None);
    assert_eq!(result, Ok(()));
    assert_eq!(pool.allocated_count(), pool.cidrs().len());
}

#[test]
fn named() {
    let mut pool = new_test_pool();
    let cidr = cidr4(10, 20, 0, 0, 28);
    let result = pool.claim(&cidr, Some("a-name"));
    assert_eq!(result, Ok(()));
    let looked_up = pool.find_by_name("a-name").unwrap();
    assert_eq!(looked_up, cidr);
    assert_eq!(pool.allocated_count(), pool.cidrs().len());
}

#[test]
fn not_found() {
    let mut pool = new_test_pool();
    let cidr = cidr4(10, 21, 0, 0, 28);
    let result = pool.rename(&cidr, Some("a-name"));
    assert_eq!(result, Err(RenameError::NoSuchObject));
    assert_eq!(pool.find_by_name("a-name"), None);
}

#[test]
fn already_not_set() {
    let mut pool = new_test_pool();
    let cidr = cidr4(10, 20, 0, 0, 28);
    pool.claim(&cidr, None).unwrap();
    let result = pool.rename(&cidr, None);
    assert_eq!(result, Ok(()));
}

#[test]
fn same_name() {
    let mut pool = new_test_pool();
    let cidr = cidr4(10, 20, 0, 0, 28);
    pool.claim(&cidr, Some("same-name")).unwrap();
    let result = pool.rename(&cidr, Some("same-name"));
    assert_eq!(result, Ok(()));
    assert_eq!(pool.find_by_name("same-name").unwrap(), cidr);
}

#[test]
fn already_exists() {
    let mut pool = new_test_pool();
    let cidr = cidr4(10, 20, 0, 16, 28);
    let existing_cidr = pool.allocate(4, Some("already-exists")).unwrap();
    pool.claim(&cidr, Some("old-name")).unwrap();
    let result = pool.rename(&cidr, Some("already-exists"));
    assert_eq!(result, Err(RenameError::DuplicateName));
    assert_eq!(pool.find_by_name("already-exists").unwrap(), existing_cidr);
    assert_eq!(pool.find_by_name("old-name").unwrap(), cidr);
}

#[test]
fn rename_success() {
    let mut pool = new_test_pool();
    let cidr = pool.allocate(4, Some("old-name")).unwrap();
    let result = pool.rename(&cidr, Some("new-name"));
    assert_eq!(result, Ok(()));
    assert_eq!(pool.find_by_name("new-name").unwrap(), cidr);
    assert_eq!(pool.find_by_name("old-name"), None);
}

#[test]
fn names_success() {
    let mut pool = new_test_pool();
    pool.allocate(4, Some("a-name")).unwrap();
    pool.allocate(4, Some("b-name")).unwrap();
    pool.allocate(4, None).unwrap();
    let mut names: Vec<String> = pool.names();
    names.sort();
    assert_eq!(names.len(), 2);
    assert_eq!(names[0], "a-name");
    assert_eq!(names[1], "b-name");
}

#[test]
fn no_cidrs() {
    let pool = new_test_pool();
    let cidrs = pool.cidrs();
    assert_eq!(cidrs.len(), 0);
}

#[test]
fn some() {
    let mut pool = new_test_pool();
    for bits in [4u8, 5, 5, 4, 4, 4].iter() {
        pool.allocate(*bits, None).unwrap();
    }
    let cidrs = pool.cidrs();
    assert_eq!(cidrs[0], cidr4(10, 20, 0, 0, 28));
    assert_eq!(cidrs[1], cidr4(10, 20, 0, 16, 28));
    assert_eq!(cidrs[2], cidr4(10, 20, 0, 32, 27));
    assert_eq!(cidrs[3], cidr4(10, 20, 0, 64, 27));
    assert_eq!(cidrs[4], cidr4(10, 20, 0, 96, 28));
    assert_eq!(cidrs[5], cidr4(10, 20, 0, 112, 28));
    assert_eq!(cidrs.len(), 6);
}

#[test]
fn records_success() {
    let mut pool = new_test_pool();
    pool.allocate(4, Some("a-name")).unwrap();
    pool.allocate(4, Some("b-name")).unwrap();
    pool.allocate(4, None).unwrap();
    let entries = pool.records();
    assert_eq!(entries.len(), 3);
    assert_eq!(
        entries[0],
        subnet_garden::CidrRecord::new(cidr4(10, 20, 0, 0, 28), Some("a-name"))
    );
    assert_eq!(
        entries[1],
        subnet_garden::CidrRecord::new(cidr4(10, 20, 0, 16, 28), Some("b-name"))
    );
    assert_eq!(
        entries[2],
        subnet_garden::CidrRecord::new(cidr4(10, 20, 0, 32, 28), None)
    );
}

// root = a block with 16 host bits; the lowest block of 4 host bits is
// handed out first and the count follows
#[test]
fn lowest_block_first() {
    let mut pool = SubnetPool::new(cidr4(10, 20, 0, 0, 16));
    let got = pool.allocate(4, None).unwrap();
    assert_eq!(got, cidr4(10, 20, 0, 0, 28));
    assert_eq!(pool.allocated_count(), 1);
}

// a duplicate name fails without touching the tree
#[test]
fn duplicate_name_leaves_count() {
    let mut pool = SubnetPool::new(cidr4(10, 20, 0, 0, 16));
    pool.allocate(4, Some("a")).unwrap();
    let second = pool.allocate(4, Some("a"));
    assert_eq!(second, Err(AllocateError::DuplicateName));
    assert_eq!(pool.allocated_count(), 1);
}

// consuming the whole root leaves nothing to allocate
#[test]
fn whole_root_then_nothing() {
    let mut pool = SubnetPool::new(cidr4(10, 20, 0, 0, 16));
    pool.allocate(16, None).unwrap();
    let next = pool.allocate(1, None);
    assert_eq!(next, Err(AllocateError::NoSpaceAvailable));
}

// claiming a block outside the root fails on the containment check
#[test]
fn claim_outside_root() {
    let mut pool = SubnetPool::new(cidr4(10, 20, 0, 0, 16));
    let outside = cidr4(192, 168, 0, 0, 28);
    assert_eq!(pool.claim(&outside, None), Err(AllocateError::NoSpaceAvailable));
}

// a freed block is reused before any new region is split
#[test]
fn freed_block_reused() {
    let mut pool = SubnetPool::new(cidr4(10, 20, 0, 0, 16));
    let first = pool.allocate(4, None).unwrap();
    let _second = pool.allocate(4, None).unwrap();
    assert!(pool.free(&first));
    let third = pool.allocate(4, None).unwrap();
    assert_eq!(third, first);
}

// renaming a block that is not allocated reports a missing object
#[test]
fn rename_unallocated() {
    let mut pool = SubnetPool::new(cidr4(10, 20, 0, 0, 16));
    let block = cidr4(10, 20, 0, 0, 28);
    assert_eq!(pool.rename(&block, Some("x")), Err(RenameError::NoSuchObject));
}

// freeing and re-claiming the same unnamed block restores the aggregates
#[test]
fn free_then_reclaim() {
    let mut pool = SubnetPool::new(cidr4(10, 20, 0, 0, 16));
    pool.allocate(4, Some("kept")).unwrap();
    let target = pool.allocate(6, None).unwrap();
    pool.allocate(4, None).unwrap();
    let count_before = pool.allocated_count();
    let max_before = pool.max_available_bits();
    let records_before = pool.records();
    assert!(pool.free(&target));
    pool.claim(&target, None).unwrap();
    assert_eq!(pool.allocated_count(), count_before);
    assert_eq!(pool.max_available_bits(), max_before);
    assert_eq!(pool.records(), records_before);
}

// the widest possible pool: every address of one family
#[test]
fn whole_v6_space() {
    let root = Cidr { family: Family::V6, address: 0, network_length: 0 };
    let mut pool = SubnetPool::new(root);
    assert_eq!(pool.max_available_bits(), 128);
    let got = pool.allocate(128, None).unwrap();
    assert_eq!(got, root);
    assert_eq!(pool.allocate(0, None), Err(AllocateError::NoSpaceAvailable));
    assert!(pool.free(&got));
    assert_eq!(pool.max_available_bits(), 128);
}

// the narrowest possible blocks: single addresses
#[test]
fn single_address_blocks() {
    let mut pool = new_test_pool();
    let first = pool.allocate(0, Some("one")).unwrap();
    assert_eq!(first, cidr4(10, 20, 0, 0, 32));
    let single = cidr4(10, 20, 0, 5, 32);
    pool.claim(&single, Some("five")).unwrap();
    assert!(pool.contains(&single));
    assert_eq!(pool.allocated_count(), 2);
    assert!(pool.free(&single));
    assert_eq!(pool.allocated_count(), 1);
}
