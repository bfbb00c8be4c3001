use bottleneck::address::{format_ip, Address};
use bottleneck::path::collapse_repeats;
use bottleneck::resolve::FindBottleneck;
use bottleneck::table::PathTable;
use bottleneck::window::{bin_ends, ingest_record, match_rib_entry, merge_unsorted};

fn v4(octets: [u8; 4], mask: u8) -> Address {
    Address { ip: format_ip(&octets, true), mask }
}

/// ORIGIN, then AS_PATH with one AS_SEQUENCE segment.
fn attrs(asns: &[u32]) -> Vec<u8> {
    let mut v = vec![0x40, 1, 1, 0, 0x40, 2, (2 + 4 * asns.len()) as u8, 2, asns.len() as u8];
    for a in asns {
        v.extend_from_slice(&a.to_be_bytes());
    }
    v
}

fn sorted_paths(t: &PathTable, a: &Address) -> Vec<Vec<u32>> {
    let mut ps = match t.find(a) {
        Some(k) => t.entries[k].paths.clone(),
        None => Vec::new(),
    };
    ps.sort();
    ps
}

#[test]
fn collapses_prepended_asns() {
    assert_eq!(collapse_repeats(&vec![1, 1, 2, 2, 2, 3, 1]), vec![1, 2, 3, 1]);
    assert_eq!(collapse_repeats(&vec![]), Vec::<u32>::new());
}

#[test]
fn prepended_and_plain_path_are_one() {
    let mut t = PathTable::new();
    let a = v4([1, 2, 3, 0], 24);
    match_rib_entry(vec![attrs(&[5, 5, 6]), attrs(&[5, 6]), vec![0x40, 1, 1, 0]], a.ip, a.mask, &mut t);
    assert_eq!(sorted_paths(&t, &a), vec![vec![5, 6]]);
}

#[test]
fn failed_extractions_add_nothing() {
    let mut t = PathTable::new();
    let a = v4([1, 2, 3, 0], 24);
    match_rib_entry(vec![vec![], vec![0x40, 2, 9, 2]], a.ip, a.mask, &mut t);
    assert!(t.entries.is_empty());
}

#[test]
fn record_past_bin_goes_to_carry() {
    let mut batch = PathTable::new();
    let mut carry = PathTable::new();
    let inside = v4([16, 0, 0, 0], 8);
    let past = v4([17, 0, 0, 0], 8);
    assert!(!ingest_record(&mut batch, &mut carry, inside.ip, inside.mask, vec![attrs(&[1, 2])], 16));
    assert!(ingest_record(&mut batch, &mut carry, past.ip, past.mask, vec![attrs(&[3, 4])], 16));
    assert_eq!(sorted_paths(&batch, &inside), vec![vec![1, 2]]);
    assert!(batch.find(&past).is_none());
    assert_eq!(sorted_paths(&carry, &past), vec![vec![3, 4]]);
}

#[test]
fn bins_cover_every_leading_byte() {
    let ends = bin_ends(16);
    assert_eq!(ends.len(), 16);
    assert_eq!(ends[0], 16);
    assert_eq!(ends[1], 32);
    assert_eq!(ends[15], 255);
    assert_eq!(bin_ends(1).len(), 255);
    assert_eq!(bin_ends(200), vec![200, 255]);
}

#[test]
fn unsorted_cache_merges_and_drains() {
    let a = v4([1, 0, 139, 0], 24);
    let b = v4([200, 0, 0, 0], 8);
    let mut batch = PathTable::new();
    batch.insert_path(a, vec![2497, 38040, 23969]);
    let mut cache = PathTable::new();
    cache.insert_path(a, vec![4777, 6939, 4766, 38040, 23969]);
    cache.insert_path(a, vec![2497, 38040, 23969]);
    cache.insert_path(b, vec![9, 8]);
    merge_unsorted(&mut batch, &mut cache);
    assert_eq!(
        sorted_paths(&batch, &a),
        vec![vec![2497, 38040, 23969], vec![4777, 6939, 4766, 38040, 23969]]
    );
    assert!(batch.find(&b).is_none());
    assert!(cache.find(&a).is_none());
    assert_eq!(sorted_paths(&cache, &b), vec![vec![9, 8]]);
}

#[test]
fn sorted_or_unsorted_source_resolves_alike() {
    let a = v4([1, 0, 6, 0], 24);
    let paths = vec![
        vec![2497, 4826, 38803, 56203],
        vec![25152, 6939, 4826, 38803, 56203],
        vec![4777, 6939, 4826, 38803, 56203],
    ];
    let mut all_sorted = PathTable::new();
    for p in &paths {
        all_sorted.insert_path(a, p.clone());
    }
    let mut batch = PathTable::new();
    batch.insert_path(a, paths[2].clone());
    let mut cache = PathTable::new();
    cache.insert_path(a, paths[1].clone());
    cache.insert_path(a, paths[0].clone());
    merge_unsorted(&mut batch, &mut cache);

    let mut one = FindBottleneck::new();
    one.find_as_bottleneck(&all_sorted).unwrap();
    let mut two = FindBottleneck::new();
    two.find_as_bottleneck(&batch).unwrap();
    assert_eq!(one.prefix_asn, vec![(a, 4826)]);
    assert_eq!(two.prefix_asn, vec![(a, 4826)]);
}
