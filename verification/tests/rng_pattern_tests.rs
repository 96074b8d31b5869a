use lifegrid::patterns::{pool_indices, pool_weight};
use lifegrid::rng::xorshift;
use lifegrid::{patterns, PatternEntry, Rng};

#[test]
fn xorshift_known_values() {
    assert_eq!(xorshift(1), 1082269761);
    assert_eq!(xorshift(1082269761), 1152992998833853505);
    assert_eq!(xorshift(0x123456789abcdef0), 18338672411873516365);
    assert_eq!(xorshift(0), 0);
}

#[test]
fn rng_draws_low_bits_of_the_state() {
    let mut rng = Rng::new(1);
    assert_eq!(rng.next_u32(), 1082269761);
    assert_eq!(rng.next_u32(), 201397313);
    assert_eq!(rng.next_u32(), 1854285353);
}

#[test]
fn zero_seed_is_replaced_by_one() {
    let mut a = Rng::new(0);
    let mut b = Rng::new(1);
    for _ in 0..10 {
        assert_eq!(a.next_u32(), b.next_u32());
    }
}

#[test]
fn pattern_table() {
    let t = patterns();
    assert_eq!(t.len(), 4);
    let names: Vec<&str> = t.iter().map(|p| p._name).collect();
    assert_eq!(names, vec!["glider", "10-cell infinite growth", "gourmet", "infinite hotel glider"]);
    let weights: Vec<u32> = t.iter().map(|p| p.weight).collect();
    assert_eq!(weights, vec![10, 2, 2, 10]);
    let easter: Vec<bool> = t.iter().map(|p| p.easter).collect();
    assert_eq!(easter, vec![false, false, false, true]);
    assert_eq!(t[0].rle, "bo$2bo$3o!");
}

#[test]
fn pools_split_by_easter_flag() {
    let t = patterns();
    let normal = pool_indices(&t, false);
    assert_eq!(normal, vec![0, 1, 2]);
    assert_eq!(pool_weight(&t, &normal), Some(14));
    let easter = pool_indices(&t, true);
    assert_eq!(easter, vec![3]);
    assert_eq!(pool_weight(&t, &easter), Some(10));
}

#[test]
fn empty_pool_weighs_nothing() {
    let t: Vec<PatternEntry> = Vec::new();
    let pool = pool_indices(&t, true);
    assert!(pool.is_empty());
    assert_eq!(pool_weight(&t, &pool), Some(0));
}

#[test]
fn pool_weight_overflow_is_none() {
    let big = PatternEntry { _name: "a", rle: "o!", weight: u32::MAX, easter: false };
    let t = vec![big, big];
    let pool = pool_indices(&t, false);
    assert_eq!(pool, vec![0, 1]);
    assert_eq!(pool_weight(&t, &pool), None);
    assert_eq!(pool_weight(&t, &vec![1]), Some(u32::MAX));
}
