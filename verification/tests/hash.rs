use spectral_fingerprint::hash::key_from_signs;
use spectral_fingerprint::{LcgRng, SpectralHash, NUM_TABLES};

#[test]
fn test_insert_and_query() {
    let mut lsh = SpectralHash::new();
    let target: u128 = 0x0123_4567_89ab_cdef_fedc_ba98_7654_3210;
    lsh.insert(target, 0);
    let results = lsh.query(target);
    assert!(!results.is_empty());
    assert_eq!(results[0].index, 0);
}

#[test]
fn test_build_index() {
    let keys: Vec<u128> = (0..10u128).map(|i| i * 0x1_0001_0001).collect();
    let lsh = SpectralHash::build_index(&keys);
    assert_eq!(lsh.tables.len(), NUM_TABLES);
    // Each table should have 10 entries.
    for table in &lsh.tables {
        assert_eq!(table.len(), 10);
    }
}

#[test]
fn test_empty_query() {
    let lsh = SpectralHash::new();
    let results = lsh.query(1);
    assert!(results.is_empty());
}

#[test]
fn hash_test_default() {
    let lsh = SpectralHash::default();
    assert_eq!(lsh.tables.len(), NUM_TABLES);
}

#[test]
fn insert_files_one_band_per_table() {
    let mut lsh = SpectralHash::new();
    let key: u128 = 0x0007_0006_0005_0004_0003_0002_0001_ffff;
    lsh.insert(key, 3);
    let expected: [u128; 8] = [0xffff, 1, 2, 3, 4, 5, 6, 7];
    for t in 0..NUM_TABLES {
        assert_eq!(lsh.tables[t], vec![(expected[t], 3)]);
    }
}

#[test]
fn query_counts_hits_and_orders_them() {
    let mut lsh = SpectralHash::new();
    let a: u128 = 0x1111_2222_3333_4444_5555_6666_7777_8888;
    // Shares the three lowest bands with `a`.
    let b: u128 = 0xaaaa_bbbb_cccc_dddd_eeee_6666_7777_8888;
    let c: u128 = 0x0;
    lsh.insert(b, 1);
    lsh.insert(c, 2);
    lsh.insert(a, 0);
    let results = lsh.query(a);
    assert_eq!(results.len(), 2);
    assert_eq!((results[0].index, results[0].hit_count), (0, 8));
    assert_eq!((results[1].index, results[1].hit_count), (1, 3));
    assert!(lsh.query(0xffff_ffff_ffff_ffff_ffff_ffff_ffff_ffff).is_empty());
}

#[test]
fn key_bits_follow_signs() {
    let mut signs = vec![false; 128];
    signs[0] = true;
    signs[5] = true;
    signs[127] = true;
    assert_eq!(key_from_signs(&signs), 1 | (1 << 5) | (1 << 127));
    assert_eq!(key_from_signs(&vec![true, true, false]), 3);
    assert_eq!(key_from_signs(&vec![]), 0);
}

#[test]
fn lcg_sequence() {
    let mut rng = LcgRng::new(42);
    assert_eq!(rng.next_u64(), 10481999410520546993);
    assert_eq!(rng.next_u64(), 4159066171780167020);
    assert_eq!(rng.state, 4159066171780167020);
}

#[test]
fn built_index_lists_keys_sharing_a_band() {
    let a: u128 = 0x1111_2222_3333_4444_5555_6666_7777_8888;
    let b: u128 = 0xaaaa_bbbb_cccc_dddd_eeee_6666_7777_8888;
    let c: u128 = 0x1111_0000_0000_0000_0000_0000_0000_0000;
    let d: u128 = 0;
    let lsh = SpectralHash::build_index(&[a, b, c, d]);
    let results = lsh.query(a);
    let found: Vec<(usize, usize)> = results.iter().map(|r| (r.index, r.hit_count)).collect();
    assert_eq!(found, vec![(0, 8), (1, 3), (2, 1)]);
}
