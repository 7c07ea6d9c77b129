use parallel_ttor::codec::{has_sentinel_reference, reference_of, txid};
use parallel_ttor::exchange::{aggregate_results, collect_ptables};
use parallel_ttor::index::{build_index, ids_equal, PositionIndex};
use parallel_ttor::partition::setup_bounds;
use parallel_ttor::pipeline::validate_block;
use parallel_ttor::validate::{find_reference, validate_partition, Outcome};

const STRIDE: usize = 40;

/// A block of `n` records with sentinel references and distinct payloads.
fn sentinel_block(n: usize) -> Vec<u8> {
    let mut block = vec![0u8; n * STRIDE];
    for i in 0..n {
        block[i * STRIDE + 32] = i as u8 + 1;
        block[i * STRIDE + 39] = 0x5a;
    }
    block
}

/// Makes the reference of record `n` the identifier of record `dep`.
fn point(block: &mut Vec<u8>, n: usize, dep: usize) {
    let id = txid(dep, block, STRIDE);
    block[n * STRIDE..n * STRIDE + 32].copy_from_slice(&id);
}

fn build_all(block: &[u8], bounds: &[(usize, usize)]) -> Vec<PositionIndex> {
    bounds.iter().map(|b| build_index(block, STRIDE, *b)).collect()
}

#[test]
fn bounds_even_split() {
    assert_eq!(setup_bounds(2, 4), vec![(0, 2), (2, 4)]);
    assert_eq!(setup_bounds(3, 10), vec![(0, 3), (3, 6), (6, 10)]);
    assert_eq!(setup_bounds(1, 7), vec![(0, 7)]);
}

#[test]
fn bounds_more_parts_than_records() {
    assert_eq!(setup_bounds(5, 2), vec![(0, 0), (0, 0), (0, 1), (1, 1), (1, 2)]);
    assert_eq!(setup_bounds(3, 0), vec![(0, 0), (0, 0), (0, 0)]);
}

#[test]
fn bounds_cover_contiguously() {
    for parts in 1..9usize {
        for n in 0..20usize {
            let b = setup_bounds(parts, n);
            assert_eq!(b.len(), parts);
            assert_eq!(b[0].0, 0);
            assert_eq!(b[parts - 1].1, n);
            for t in 0..parts {
                assert!(b[t].0 <= b[t].1);
                if t + 1 < parts {
                    assert_eq!(b[t].1, b[t + 1].0);
                }
            }
        }
    }
}

#[test]
fn txid_is_double_sha256_of_record() {
    let block = vec![0u8; 2 * STRIDE];
    let expected: [u8; 32] = [
        117, 41, 152, 80, 108, 52, 151, 155, 92, 255, 185, 62, 81, 193, 224, 199, 110, 227, 95,
        203, 66, 14, 26, 102, 160, 50, 115, 11, 105, 16, 142, 50,
    ];
    assert_eq!(txid(0, &block, STRIDE), expected);
    assert_eq!(txid(1, &block, STRIDE), expected);
}

#[test]
fn txid_uses_the_whole_stride() {
    let mut block = vec![0u8; 72];
    for i in 0..36 {
        block[36 + i] = i as u8;
    }
    let expected: [u8; 32] = [
        112, 29, 229, 161, 8, 222, 224, 250, 192, 217, 242, 46, 72, 186, 208, 15, 157, 36, 250,
        187, 48, 237, 158, 112, 147, 69, 87, 94, 19, 226, 92, 232,
    ];
    assert_eq!(txid(1, &block, 36), expected);
    assert_ne!(txid(0, &block, 36), expected);
}

#[test]
fn sentinel_and_reference_fields() {
    let mut block = sentinel_block(3);
    assert!(has_sentinel_reference(1, &block, STRIDE));
    block[STRIDE + 31] = 7;
    assert!(!has_sentinel_reference(1, &block, STRIDE));
    let r = reference_of(1, &block, STRIDE);
    assert_eq!(r[31], 7);
    assert_eq!(r[0], 0);
    assert!(has_sentinel_reference(2, &block, STRIDE));
}

#[test]
fn ids_equal_compares_bytes() {
    let a = [3u8; 32];
    let mut b = [3u8; 32];
    assert!(ids_equal(&a, &b));
    b[17] = 4;
    assert!(!ids_equal(&a, &b));
}

#[test]
fn index_round_trip() {
    let block = sentinel_block(6);
    let bounds = setup_bounds(2, 6);
    let tables = build_all(&block, &bounds);
    for p in 0..6usize {
        let id = txid(p, &block, STRIDE);
        let owner = if p < 3 { 0 } else { 1 };
        assert_eq!(tables[owner].get(&id), Some(p));
        assert_eq!(tables[1 - owner].get(&id), None);
    }
}

#[test]
fn index_later_duplicate_wins() {
    let block = vec![0u8; 3 * STRIDE];
    let ix = build_index(&block, STRIDE, (0, 3));
    assert_eq!(ix.get(&txid(0, &block, STRIDE)), Some(2));
}

#[test]
fn find_reference_searches_earlier_partitions() {
    let block = sentinel_block(4);
    let bounds = setup_bounds(2, 4);
    let tables = build_all(&block, &bounds);
    let id1 = txid(1, &block, STRIDE);
    let id3 = txid(3, &block, STRIDE);
    assert_eq!(find_reference(&tables, 1, &id1), Some(1));
    assert_eq!(find_reference(&tables, 0, &id1), Some(1));
    assert_eq!(find_reference(&tables, 0, &id3), None);
    assert_eq!(find_reference(&tables, 1, &[9u8; 32]), None);
}

#[test]
fn scenario_trivial_valid() {
    let block = sentinel_block(4);
    assert!(validate_block(&block, STRIDE, 2));
}

#[test]
fn scenario_valid_dependency() {
    let mut block = sentinel_block(4);
    point(&mut block, 2, 0);
    let bounds = setup_bounds(2, 4);
    assert_eq!(bounds, vec![(0, 2), (2, 4)]);
    let tables = build_all(&block, &bounds);
    assert_eq!(validate_partition(0, &block, &bounds, &tables, STRIDE), Outcome::Valid);
    assert_eq!(validate_partition(1, &block, &bounds, &tables, STRIDE), Outcome::Valid);
    assert!(validate_block(&block, STRIDE, 2));
}

#[test]
fn scenario_ordering_violation() {
    let mut block = sentinel_block(4);
    point(&mut block, 0, 2);
    let bounds = setup_bounds(1, 4);
    let tables = build_all(&block, &bounds);
    assert_eq!(
        validate_partition(0, &block, &bounds, &tables, STRIDE),
        Outcome::OutOfOrder { position: 0, depends_on: 2 }
    );
    assert!(!validate_block(&block, STRIDE, 1));
}

#[test]
fn scenario_missing_dependency() {
    let mut block = sentinel_block(4);
    let stray: [u8; 32] = [
        0x9c, 0x11, 0x4e, 0xd2, 0x07, 0x6b, 0xa3, 0x55, 0x18, 0xf0, 0x2d, 0xc9, 0x71, 0x3a, 0x88,
        0x46, 0xbe, 0x19, 0x63, 0x0f, 0xd7, 0x2c, 0x95, 0x4a, 0xe1, 0x36, 0x7d, 0xb8, 0x52, 0x0c,
        0xaf, 0x64,
    ];
    block[0..32].copy_from_slice(&stray);
    let bounds = setup_bounds(2, 4);
    let tables = build_all(&block, &bounds);
    assert_eq!(
        validate_partition(0, &block, &bounds, &tables, STRIDE),
        Outcome::MissingInput { position: 0 }
    );
    assert_eq!(validate_partition(1, &block, &bounds, &tables, STRIDE), Outcome::Valid);
    assert!(!validate_block(&block, STRIDE, 2));
}

#[test]
fn scenario_partition_count_invariance() {
    let mut block = sentinel_block(4);
    point(&mut block, 3, 1);
    assert!(validate_block(&block, STRIDE, 1));
    assert!(validate_block(&block, STRIDE, 2));
    assert!(validate_block(&block, STRIDE, 4));
}

#[test]
fn violation_in_later_partition_is_found_under_any_split() {
    let mut block = sentinel_block(8);
    point(&mut block, 1, 6);
    for parts in 1..10usize {
        assert!(!validate_block(&block, STRIDE, parts));
    }
}

#[test]
fn dependency_on_later_partition_is_missing_from_earlier_one() {
    let mut block = sentinel_block(4);
    point(&mut block, 0, 3);
    let bounds = setup_bounds(2, 4);
    let tables = build_all(&block, &bounds);
    assert_eq!(
        validate_partition(0, &block, &bounds, &tables, STRIDE),
        Outcome::MissingInput { position: 0 }
    );
}

#[test]
fn well_ordered_chain_validates_for_all_counts() {
    let mut block = sentinel_block(10);
    for n in 1..10usize {
        point(&mut block, n, n - 1);
    }
    for parts in 1..13usize {
        assert!(validate_block(&block, STRIDE, parts));
    }
}

#[test]
fn rerun_gives_same_result() {
    let mut block = sentinel_block(6);
    point(&mut block, 4, 1);
    point(&mut block, 2, 5);
    let first = validate_block(&block, STRIDE, 3);
    for _ in 0..5 {
        assert_eq!(validate_block(&block, STRIDE, 3), first);
    }
    assert!(!first);
}

#[test]
fn empty_block_is_valid() {
    let block: Vec<u8> = Vec::new();
    assert!(validate_block(&block, STRIDE, 3));
}

#[test]
fn collect_orders_by_partition_id() {
    let block = sentinel_block(4);
    let bounds = setup_bounds(2, 4);
    let c = vec![
        (1usize, build_index(&block, STRIDE, bounds[1])),
        (0usize, build_index(&block, STRIDE, bounds[0])),
    ];
    let tables = collect_ptables(c, 2).unwrap();
    assert_eq!(tables.len(), 2);
    assert_eq!(tables[0].low, 0);
    assert_eq!(tables[1].low, 2);
    assert_eq!(tables[1].get(&txid(3, &block, STRIDE)), Some(3));
}

#[test]
fn collect_refuses_missing_contribution() {
    let block = sentinel_block(4);
    let c = vec![(0usize, build_index(&block, STRIDE, (0, 2)))];
    assert!(collect_ptables(c, 2).is_none());
}

#[test]
fn collect_refuses_duplicate_contribution() {
    let block = sentinel_block(4);
    let c = vec![
        (0usize, build_index(&block, STRIDE, (0, 2))),
        (0usize, build_index(&block, STRIDE, (0, 2))),
    ];
    assert!(collect_ptables(c, 2).is_none());
}

#[test]
fn collect_refuses_unknown_partition() {
    let block = sentinel_block(4);
    let c = vec![
        (0usize, build_index(&block, STRIDE, (0, 2))),
        (2usize, build_index(&block, STRIDE, (2, 4))),
    ];
    assert!(collect_ptables(c, 2).is_none());
}

#[test]
fn aggregate_is_conjunction() {
    assert!(aggregate_results(&[true, true, true]));
    assert!(!aggregate_results(&[true, false, true]));
    assert!(!aggregate_results(&[false]));
    assert!(aggregate_results(&[]));
}
