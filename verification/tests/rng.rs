use flcommon::rng::{derive_seed, SplitMix64};

#[test]
fn same_seed_same_stream() {
    let mut a = SplitMix64::new(42);
    let mut b = SplitMix64::new(42);
    for _ in 0..100 {
        assert_eq!(a.next_u64(), b.next_u64());
    }
}

#[test]
fn derive_seed_differs_by_tag() {
    assert_ne!(derive_seed(1, "a"), derive_seed(1, "b"));
    assert_eq!(derive_seed(1, "a"), derive_seed(1, "a"));
}

#[test]
fn shuffle_is_permutation() {
    let mut r = SplitMix64::new(3);
    let mut v: Vec<usize> = (0..20).collect();
    r.shuffle(&mut v);
    let mut s = v.clone();
    s.sort();
    assert_eq!(s, (0..20).collect::<Vec<_>>());
}

#[test]
fn seed_zero_matches_reference_splitmix64() {
    let mut r = SplitMix64::new(0);
    assert_eq!(r.next_u64(), 0xe220_a839_7b1d_cdaf);
    assert_eq!(r.next_u64(), 0x6e78_9e6a_a1b9_65f4);
}

#[test]
fn seed_42_stream_values() {
    let mut r = SplitMix64::new(42);
    assert_eq!(r.next_u64(), 13679457532755275413);
    assert_eq!(r.next_u64(), 2949826092126892291);
    assert_eq!(r.next_u64(), 5139283748462763858);
}

#[test]
fn derive_seed_exact_values() {
    assert_eq!(derive_seed(1, "a"), 1704250071669194000);
    assert_eq!(derive_seed(1, "b"), 7997660450325504070);
    assert_eq!(derive_seed(0, ""), 14087677454934409008);
    assert_eq!(derive_seed(7, "n1"), 11416054335621976338);
    // non-ASCII tags are hashed by their UTF-8 bytes
    assert_eq!(derive_seed(1000, "h\u{e9}llo"), 4043368745387554049);
}

#[test]
fn gen_range_values_and_bounds() {
    let mut r = SplitMix64::new(7);
    let got: Vec<usize> = (0..5).map(|_| r.gen_range(10)).collect();
    assert_eq!(got, vec![7, 4, 6, 3, 4]);
    let mut r = SplitMix64::new(11);
    for n in 1..50 {
        assert!(r.gen_range(n) < n);
    }
}

#[test]
fn gen_range_redraws_above_the_acceptance_bound() {
    // for n = 2^63 + 1 nearly half of all draws lie at or above the largest
    // multiple of n, and are drawn again
    let n: usize = (1usize << 63) + 1;
    let mut r = SplitMix64::new(1);
    let got: Vec<usize> = (0..3).map(|_| r.gen_range(n)).collect();
    assert_eq!(got, vec![8196980753821780235, 8195237237126968761, 5266705631892356520]);
    let mut expected = SplitMix64::new(1);
    for _ in 0..9 {
        expected.next_u64();
    }
    assert_eq!(r.next_u64(), expected.next_u64());
    // here the bound is n itself: the first three draws lie above it
    let mut plain = SplitMix64::new(1);
    for _ in 0..3 {
        assert!(plain.next_u64() >= n as u64);
    }
}

#[test]
fn shuffle_exact_order_and_state() {
    let mut r = SplitMix64::new(3);
    let mut v: Vec<usize> = (0..20).collect();
    r.shuffle(&mut v);
    assert_eq!(v, vec![5, 9, 12, 11, 19, 7, 1, 4, 14, 0, 17, 2, 18, 8, 16, 6, 10, 3, 15, 13]);
    // nineteen draws were made
    let mut expected = SplitMix64::new(3);
    for _ in 0..19 {
        expected.next_u64();
    }
    assert_eq!(r.next_u64(), expected.next_u64());
}

#[test]
fn shuffle_of_short_slices_draws_nothing() {
    let mut r = SplitMix64::new(9);
    let mut empty: Vec<u8> = Vec::new();
    r.shuffle(&mut empty);
    let mut one = vec!["x".to_string()];
    r.shuffle(&mut one);
    assert_eq!(one, vec!["x".to_string()]);
    assert_eq!(r.next_u64(), SplitMix64::new(9).next_u64());
}

#[test]
fn state_after_n_draws_is_seed_plus_n_gamma() {
    for seed in [0u64, 42, u64::MAX] {
        let mut g = SplitMix64::new(seed);
        for n in 0..10u64 {
            let jump = SplitMix64::new(seed.wrapping_add(n.wrapping_mul(0x9E37_79B9_7F4A_7C15))).next_u64();
            assert_eq!(g.next_u64(), jump);
        }
    }
}

#[test]
fn first_draw_separates_seeds_and_bases() {
    let firsts: Vec<u64> = (0..200u64).map(|s| SplitMix64::new(s).next_u64()).collect();
    let mut sorted = firsts.clone();
    sorted.sort();
    sorted.dedup();
    assert_eq!(sorted.len(), firsts.len());
    let bases: Vec<u64> = (0..200u64).map(|b| derive_seed(b, "tag")).collect();
    let mut sb = bases.clone();
    sb.sort();
    sb.dedup();
    assert_eq!(sb.len(), bases.len());
    let tags: Vec<u64> = (32u8..127).map(|c| derive_seed(7, &(c as char).to_string())).collect();
    let mut st = tags.clone();
    st.sort();
    st.dedup();
    assert_eq!(st.len(), tags.len());
}
