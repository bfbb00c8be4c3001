use bottleneck::address::{format_ip, Address, IpValue};
use bottleneck::resolve::{BottleneckError, FindBottleneck};
use bottleneck::table::PathTable;
use std::collections::HashMap;

fn v4(octets: [u8; 4], mask: u8) -> Address {
    Address { ip: format_ip(&octets, true), mask }
}

fn setup_mrt_hm() -> PathTable {
    let mut mrt_hm = PathTable::new();
    let addr = v4([1, 0, 139, 0], 24);
    mrt_hm.insert_path(addr, vec![2497, 38040, 23969]);
    mrt_hm.insert_path(addr, vec![25152, 6939, 4766, 38040, 23969]);
    mrt_hm.insert_path(addr, vec![4777, 6939, 4766, 38040, 23969]);

    let addr = v4([1, 0, 204, 0], 22);
    mrt_hm.insert_path(addr, vec![2497, 38040, 23969]);
    mrt_hm.insert_path(addr, vec![4777, 6939, 4766, 38040, 23969]);
    mrt_hm.insert_path(addr, vec![25152, 2914, 38040, 23969]);

    let addr = v4([1, 0, 6, 0], 24);
    mrt_hm.insert_path(addr, vec![2497, 4826, 38803, 56203]);
    mrt_hm.insert_path(addr, vec![25152, 6939, 4826, 38803, 56203]);
    mrt_hm.insert_path(addr, vec![4777, 6939, 4826, 38803, 56203]);
    mrt_hm
}

fn bottlenecks_of(table: &PathTable) -> Result<HashMap<Address, u32>, BottleneckError> {
    let mut fb = FindBottleneck::new();
    fb.find_as_bottleneck(table)?;
    Ok(fb.prefix_asn.into_iter().collect())
}

#[test]
fn finds_common_suffix_from_mrt_hashmap() {
    let mut want: HashMap<Address, Vec<u32>> = HashMap::new();
    want.insert(v4([1, 0, 139, 0], 24), vec![23969, 38040]);
    want.insert(v4([1, 0, 204, 0], 22), vec![23969, 38040]);
    want.insert(v4([1, 0, 6, 0], 24), vec![56203, 38803, 4826]);

    let mrt_hm = setup_mrt_hm();
    let mut have: Vec<(Address, Vec<u32>)> = Vec::new();

    assert_eq!(FindBottleneck::find_common_suffix(&mrt_hm, &mut have), Ok(()));
    let have: HashMap<Address, Vec<u32>> = have.into_iter().collect();
    assert_eq!(have, want);
}

#[test]
fn finds_as_bottleneck_from_mrt_hashmap() {
    let mut want: HashMap<Address, u32> = HashMap::new();
    want.insert(v4([1, 0, 139, 0], 24), 38040);
    want.insert(v4([1, 0, 204, 0], 22), 38040);
    want.insert(v4([1, 0, 6, 0], 24), 4826);

    let have = bottlenecks_of(&setup_mrt_hm()).unwrap();
    assert_eq!(have, want);
}

#[test]
fn single_path_bottleneck_is_nearest_hop() {
    let mut t = PathTable::new();
    let addr = v4([10, 0, 0, 0], 8);
    t.insert_path(addr, vec![7, 8, 9]);
    let have = bottlenecks_of(&t).unwrap();
    assert_eq!(have.get(&addr), Some(&7));
}

#[test]
fn bottleneck_lies_on_every_path() {
    let t = setup_mrt_hm();
    let have = bottlenecks_of(&t).unwrap();
    for e in &t.entries {
        let asn = have[&e.addr];
        for p in &e.paths {
            assert!(p.contains(&asn));
        }
    }
}

#[test]
fn deepest_shared_not_subset_shared() {
    // 6939 and 4766 are shared by two of the three paths only.
    let mut t = PathTable::new();
    let addr = v4([1, 0, 139, 0], 24);
    t.insert_path(addr, vec![25152, 6939, 4766, 38040, 23969]);
    t.insert_path(addr, vec![4777, 6939, 4766, 38040, 23969]);
    t.insert_path(addr, vec![2497, 38040, 23969]);
    let have = bottlenecks_of(&t).unwrap();
    assert_eq!(have.get(&addr), Some(&38040));
}

#[test]
fn identical_paths_resolve_to_nearest_hop() {
    let mut t = PathTable::new();
    let addr = v4([5, 5, 0, 0], 16);
    t.insert_path(addr, vec![1, 2, 3]);
    t.insert_path(addr, vec![1, 2, 3]);
    assert_eq!(t.entries[0].paths.len(), 1);
    let have = bottlenecks_of(&t).unwrap();
    assert_eq!(have.get(&addr), Some(&1));
}

#[test]
fn mixed_origins_are_dropped() {
    let mut t = setup_mrt_hm();
    let odd = v4([1, 0, 7, 0], 24);
    t.insert_path(odd, vec![2497, 4826, 1111]);
    t.insert_path(odd, vec![2497, 4826, 2222]);
    let have = bottlenecks_of(&t).unwrap();
    assert_eq!(have.len(), 3);
    assert!(!have.contains_key(&odd));
    let mut suffixes: Vec<(Address, Vec<u32>)> = Vec::new();
    assert_eq!(FindBottleneck::find_common_suffix(&t, &mut suffixes), Ok(()));
    assert!(suffixes.iter().all(|(a, _)| *a != odd));
}

#[test]
fn empty_path_is_an_error() {
    let mut t = setup_mrt_hm();
    let bad = v4([2, 0, 0, 0], 8);
    t.insert_path(bad, vec![]);
    assert_eq!(bottlenecks_of(&t), Err(BottleneckError::EmptyPath(bad)));
    let mut suffixes: Vec<(Address, Vec<u32>)> = Vec::new();
    assert_eq!(FindBottleneck::find_common_suffix(&t, &mut suffixes), Err(BottleneckError::EmptyPath(bad)));
}

#[test]
fn masks_make_distinct_prefixes() {
    let mut t = PathTable::new();
    t.insert_path(v4([1, 0, 0, 0], 16), vec![1, 2]);
    t.insert_path(v4([1, 0, 0, 0], 24), vec![3, 2]);
    let have = bottlenecks_of(&t).unwrap();
    assert_eq!(have.get(&v4([1, 0, 0, 0], 16)), Some(&1));
    assert_eq!(have.get(&v4([1, 0, 0, 0], 24)), Some(&3));
    assert_eq!(have.len(), 2);
}

#[test]
fn write_bottleneck_hands_over_every_pair() {
    let mut fb = FindBottleneck::new();
    fb.find_as_bottleneck(&setup_mrt_hm()).unwrap();
    let mut out: Vec<(Address, u32)> = vec![(v4([9, 9, 9, 0], 24), 1)];
    fb.write_bottleneck(&mut out);
    assert_eq!(out.len(), 4);
    assert_eq!(out[0], (v4([9, 9, 9, 0], 24), 1));
    let rest: HashMap<Address, u32> = out[1..].iter().cloned().collect();
    assert_eq!(rest.get(&v4([1, 0, 6, 0], 24)), Some(&4826));
}

#[test]
fn ipv4_from_prefix_bytes() {
    assert_eq!(format_ip(&[1, 0, 139, 0], true), IpValue::V4(0x01008b00));
    assert_eq!(format_ip(&[10], true), IpValue::V4(0x0a000000));
    assert_eq!(format_ip(&[], true), IpValue::V4(0));
}

#[test]
fn shortest_path_wholly_shared() {
    let mut t = PathTable::new();
    let addr = v4([100, 64, 0, 0], 10);
    t.insert_path(addr, vec![3, 2, 1]);
    t.insert_path(addr, vec![2, 1]);
    t.insert_path(addr, vec![9, 4, 2, 1]);
    let mut suffixes: Vec<(Address, Vec<u32>)> = Vec::new();
    assert_eq!(FindBottleneck::find_common_suffix(&t, &mut suffixes), Ok(()));
    assert_eq!(suffixes, vec![(addr, vec![1, 2])]);
    let have = bottlenecks_of(&t).unwrap();
    assert_eq!(have.get(&addr), Some(&2));
}
