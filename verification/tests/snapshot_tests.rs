use subnet_garden::errors::{AllocateError, CreateError, DeleteError};
use subnet_garden::listing::{cidrs_listing, names_listing, resolve_identifier, right_pad, sort_names};
use subnet_garden::pool::SubnetPool;
use subnet_garden::snapshot::{from_records, load, save, SnapshotError};
use subnet_garden::{Cidr, CidrRecord, Family};

fn cidr4(a: u8, b: u8, c: u8, d: u8, len: u8) -> Cidr {
    let address = ((a as u128) << 24) | ((b as u128) << 16) | ((c as u128) << 8) | (d as u128);
    Cidr { family: Family::V4, address, network_length: len }
}

#[test]
fn display_create_error_duplicate_object() {
    assert_eq!(CreateError::DuplicateObject.message(), "Duplicate object");
}

#[test]
fn display_delete_error_no_such_object() {
    assert_eq!(DeleteError::NoSuchObject.message(), "No such object");
}

#[test]
fn test_right_pad() {
    let mut s = String::from("foo");
    right_pad(&mut s, 5);
    assert_eq!(s, "foo  ");
}

#[test]
fn test_right_pad_too_wide() {
    let mut s = String::from("foo-bar");
    right_pad(&mut s, 5);
    assert_eq!(s, "foo-bar");
}

#[test]
fn listing_no_cidrs() {
    let pool = SubnetPool::new(cidr4(10, 10, 0, 0, 16));
    let lines = cidrs_listing(&pool, None, false);
    assert_eq!(lines.len(), 0);
}

#[test]
fn no_names() {
    let pool = SubnetPool::new(cidr4(10, 10, 0, 0, 16));
    let lines = names_listing(&pool, false);
    assert_eq!(lines.len(), 0);
}

#[test]
fn subnet_no_subnets() {
    let pool = SubnetPool::new(cidr4(10, 10, 0, 0, 16));
    assert_eq!(pool.max_available_bits(), 16);
}

#[test]
fn cidrs_listing_plain() {
    let mut pool = SubnetPool::new(cidr4(10, 10, 0, 0, 16));
    pool.allocate(4, Some("test1")).unwrap();
    pool.allocate(6, Some("test2")).unwrap();
    let lines = cidrs_listing(&pool, None, false);
    assert_eq!(lines, vec!["10.10.0.0/28".to_string(), "10.10.0.64/26".to_string()]);
}

#[test]
fn cidrs_listing_long() {
    let mut pool = SubnetPool::new(cidr4(10, 10, 0, 0, 16));
    pool.allocate(4, Some("test1")).unwrap();
    pool.allocate(6, None).unwrap();
    pool.allocate(6, Some("test2")).unwrap();
    let lines = cidrs_listing(&pool, None, true);
    assert_eq!(
        lines,
        vec![
            "total 3".to_string(),
            "10.10.0.0/28    test1".to_string(),
            "10.10.0.64/26   -".to_string(),
            "10.10.0.128/26  test2".to_string(),
        ]
    );
}

#[test]
fn cidrs_listing_within() {
    let mut pool = SubnetPool::new(cidr4(10, 10, 0, 0, 16));
    pool.allocate(4, Some("test1")).unwrap();
    pool.allocate(4, Some("test2")).unwrap();
    pool.allocate(4, Some("test3")).unwrap();
    let within = cidr4(10, 10, 0, 0, 27);
    let lines = cidrs_listing(&pool, Some(&within), false);
    assert_eq!(lines, vec!["10.10.0.0/28".to_string(), "10.10.0.16/28".to_string()]);
}

#[test]
fn names_listing_long() {
    let mut pool = SubnetPool::new(cidr4(10, 10, 0, 0, 16));
    pool.allocate(4, Some("test1")).unwrap();
    pool.allocate(5, None).unwrap();
    pool.allocate(6, Some("test2")).unwrap();
    pool.allocate(4, Some("test-zero")).unwrap();
    let lines = names_listing(&pool, true);
    assert_eq!(
        lines,
        vec![
            "total 3 of 4".to_string(),
            "test-zero  10.10.0.16/28".to_string(),
            "test1      10.10.0.0/28".to_string(),
            "test2      10.10.0.64/26".to_string(),
        ]
    );
}

#[test]
fn sort_names_orders() {
    let sorted = sort_names(vec![
        "test1".to_string(),
        "test0".to_string(),
        "test2".to_string(),
    ]);
    assert_eq!(
        sorted,
        vec!["test0".to_string(), "test1".to_string(), "test2".to_string()]
    );
}

#[test]
fn resolve_by_name_first() {
    let mut pool = SubnetPool::new(cidr4(10, 10, 0, 0, 16));
    let block = pool.allocate(4, Some("test")).unwrap();
    assert_eq!(resolve_identifier(&pool, "test"), Some(block));
    assert_eq!(resolve_identifier(&pool, "10.10.0.0/28"), Some(block));
    assert_eq!(resolve_identifier(&pool, "not-there"), None);
}

#[test]
fn save_writes_canonical_texts() {
    let mut pool = SubnetPool::new(cidr4(10, 20, 0, 0, 16));
    pool.allocate(4, Some("a-name")).unwrap();
    pool.allocate(4, Some("b-name")).unwrap();
    pool.allocate(4, None).unwrap();
    let (root, subnets) = save(&pool);
    assert_eq!(root, "10.20.0.0/16");
    assert_eq!(
        subnets,
        vec![
            ("10.20.0.0/28".to_string(), Some("a-name".to_string())),
            ("10.20.0.16/28".to_string(), Some("b-name".to_string())),
            ("10.20.0.32/28".to_string(), None),
        ]
    );
}

// allocate blocks with distinct names, flatten, reload: the records set of
// the reloaded pool equals the original
#[test]
fn textual_round_trip() {
    let mut pool = SubnetPool::new(cidr4(10, 20, 0, 0, 16));
    pool.allocate(4, Some("a-name")).unwrap();
    pool.allocate(6, Some("b-name")).unwrap();
    pool.claim(&cidr4(10, 20, 3, 0, 24), Some("c-name")).unwrap();
    pool.allocate(4, None).unwrap();
    let (root, subnets) = save(&pool);
    let reloaded = load(root.as_str(), &subnets).unwrap();
    assert_eq!(reloaded.records(), pool.records());
    assert_eq!(reloaded.allocated_count(), pool.allocated_count());
    assert_eq!(reloaded.max_available_bits(), pool.max_available_bits());
    assert_eq!(reloaded.cidr(), pool.cidr());
}

#[test]
fn value_round_trip() {
    let mut pool = SubnetPool::new(cidr4(10, 20, 0, 0, 16));
    pool.allocate(4, Some("a-name")).unwrap();
    pool.allocate(4, None).unwrap();
    let reloaded = from_records(*pool.cidr(), &pool.records()).unwrap();
    assert_eq!(reloaded.records(), pool.records());
}

#[test]
fn load_bad_root() {
    let subnets: Vec<(String, Option<String>)> = Vec::new();
    assert_eq!(load("invalid", &subnets), Err(SnapshotError::InvalidCidr));
}

#[test]
fn load_bad_subnet() {
    let subnets = vec![("bogus".to_string(), None)];
    assert_eq!(load("10.10.0.0/24", &subnets), Err(SnapshotError::InvalidCidr));
}

// a record outside the root block aborts the load as a claim failure
#[test]
fn load_allocation_error() {
    let subnets = vec![
        ("10.20.0.0/24".to_string(), Some("a-name".to_string())),
        ("10.20.0.16/28".to_string(), Some("b-name".to_string())),
    ];
    assert_eq!(
        load("10.10.0.0/24", &subnets),
        Err(SnapshotError::Allocate(AllocateError::NoSpaceAvailable))
    );
}

// two records with the same name abort the load as a duplicate name
#[test]
fn load_duplicate_name() {
    let subnets = vec![
        ("10.10.0.0/28".to_string(), Some("a-name".to_string())),
        ("10.10.0.16/28".to_string(), Some("a-name".to_string())),
    ];
    assert_eq!(
        load("10.10.0.0/24", &subnets),
        Err(SnapshotError::Allocate(AllocateError::DuplicateName))
    );
}

// two records over the same addresses abort the load
#[test]
fn load_overlap() {
    let subnets = vec![
        ("10.10.0.0/26".to_string(), None),
        ("10.10.0.16/28".to_string(), None),
    ];
    assert_eq!(
        load("10.10.0.0/24", &subnets),
        Err(SnapshotError::Allocate(AllocateError::NoSpaceAvailable))
    );
}

#[test]
fn record_new() {
    let cidr = cidr4(10, 20, 30, 0, 24);
    let name = Some("foo");
    let record = CidrRecord::new(cidr, name);
    assert_eq!(record.cidr, cidr);
    assert_eq!(record.name.as_deref(), name);
}

#[test]
fn snapshot_error_messages() {
    assert_eq!(SnapshotError::InvalidCidr.message(), "Invalid CIDR");
    assert_eq!(
        SnapshotError::Allocate(AllocateError::NoSpaceAvailable).message(),
        "No space available"
    );
}
