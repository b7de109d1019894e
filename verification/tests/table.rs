use patzer::board::Move;
use patzer::shared::SharedTT;
use patzer::tt::{
    age_distance, pack, pack_data, unpack_data, Cluster, Slot, BOUND_EXACT, BOUND_LOWER, BOUND_UPPER, TT,
};

#[test]
fn table_uses_the_memory_it_was_given() {
    for mb in [16usize, 64, 256] {
        let tt = TT::new(mb);
        let bytes = tt.n_slots() * std::mem::size_of::<Slot>();
        assert_eq!(bytes, mb << 20, "Hash={mb} MB allocated {bytes} B");
    }
}

#[test]
fn non_power_of_two_rounds_down_not_up() {
    let tt = TT::new(100);
    let bytes = tt.n_slots() * std::mem::size_of::<Slot>();
    assert!(bytes <= 100 << 20, "overran the budget: {bytes} B");
    assert_eq!(bytes, 64 << 20);
}

#[test]
fn tiny_requests_still_give_a_usable_table() {
    let tt = TT::new(0);
    assert_eq!(tt.n_slots() * std::mem::size_of::<Slot>(), 1 << 20);
}

#[test]
fn a_cluster_is_one_cache_line() {
    assert_eq!(std::mem::size_of::<Cluster>(), 64);
    assert_eq!(std::mem::align_of::<Cluster>(), 64);
    let tt = TT::new(1);
    assert_eq!(tt.clusters.len() * std::mem::size_of::<Cluster>(), 1 << 20);
    for cluster in &tt.clusters {
        assert_eq!(cluster.slots.as_ptr() as usize % 64, 0);
    }
}

#[test]
fn a_deep_entry_survives_colliding_shallow_stores() {
    let mut tt = TT::new(1);
    let clusters = (tt.mask + 1) as u64;
    let deep_key = 0x1234_5678_9abc_def0u64;
    tt.store(deep_key, 42, 100, 30, BOUND_EXACT);
    for i in 1..=3u64 {
        tt.store(deep_key.wrapping_add(i * clusters), 7, 5, 1, BOUND_UPPER);
    }
    let e = tt.probe(deep_key).expect("the depth-30 entry was evicted by shallow stores");
    assert_eq!(e.depth, 30);
    assert_eq!(e.mv, 42);
}

#[test]
fn a_shallow_result_does_not_erase_a_deeper_one_for_the_same_key() {
    let mut tt = TT::new(1);
    let k = 0xdead_beef_0000_0001u64;
    tt.store(k, 11, 50, 20, BOUND_LOWER);
    tt.store(k, 22, 60, 3, BOUND_LOWER);
    let e = tt.probe(k).unwrap();
    assert_eq!(e.depth, 20, "a depth-3 store overwrote a depth-20 entry");
    assert_eq!(e.mv, 11);
}

#[test]
fn an_exact_result_takes_the_place_of_its_depth_and_of_no_deeper_one() {
    let mut tt = TT::new(1);
    let k = 0xdead_beef_0000_0001u64;
    tt.store(k, 11, 50, 20, BOUND_LOWER);
    tt.store(k, 22, 60, 3, BOUND_EXACT);
    assert_eq!(tt.probe(k).unwrap().mv, 11);
    tt.store(k, 33, 60, 20, BOUND_EXACT);
    assert_eq!(tt.probe(k).unwrap().mv, 33);
    tt.new_search();
    tt.store(k, 44, 60, 3, BOUND_UPPER);
    assert_eq!(tt.probe(k).unwrap().mv, 44);
}

#[test]
fn age_discounts_depth() {
    assert!(age_distance(5, 5) == 0);
    assert_eq!(age_distance(0, 255), 1, "age must wrap, not read 255 searches ago");
    assert_eq!(age_distance(3, 1), 2);
}

#[test]
fn what_is_stored_is_what_is_probed() {
    let mut tt = TT::new(1);
    assert!(tt.probe(77).is_none());
    tt.store(77, 1234, -321, 9, BOUND_UPPER);
    let e = tt.probe(77).unwrap();
    assert_eq!((e.mv, e.score, e.depth, e.bound), (1234, -321, 9, BOUND_UPPER));
    assert!(tt.probe(78).is_none());
    tt.clear();
    assert!(tt.probe(77).is_none());
}

#[test]
fn a_stale_deep_entry_gives_way() {
    let mut tt = TT::new(1);
    let clusters = (tt.mask + 1) as u64;
    for i in 0..4u64 {
        tt.store(5 + i * clusters, 1, 0, 10, BOUND_EXACT);
    }
    for _ in 0..3 {
        tt.new_search();
    }
    for i in 4..7u64 {
        tt.store(5 + i * clusters, 2, 0, 12, BOUND_EXACT);
    }
    tt.store(5 + 7 * clusters, 3, 0, 1, BOUND_EXACT);
    assert!(tt.probe(5 + 7 * clusters).is_some());
    for i in 4..7u64 {
        assert!(tt.probe(5 + i * clusters).is_some());
    }
}

#[test]
fn a_data_word_keeps_its_fields_apart() {
    for (mv, score, depth, bound, age) in
        [(0u16, 0i16, 0i8, 0u8, 0u8), (u16::MAX, i16::MIN, i8::MIN, 3, 255), (777, -1, -1, 2, 17), (1, 32000, 127, 1, 128)]
    {
        let e = unpack_data(pack_data(mv, score, depth, bound, age));
        assert_eq!(e, (mv, score, depth, bound, age));
    }
}

#[test]
fn moves_pack_by_origin_destination_and_promotion() {
    assert_eq!(pack(Move { from: 12, to: 28, promotion: None }), 12 + 64 * 28);
    let plain = pack(Move { from: 48, to: 56, promotion: None });
    let mut seen = vec![plain];
    for q in 1..5u8 {
        let x = pack(Move { from: 48, to: 56, promotion: Some(q) });
        assert!(!seen.contains(&x));
        seen.push(x);
    }
}

#[test]
fn a_shared_table_answers_like_one_of_ones_own() {
    let tt = SharedTT::new(1);
    assert!(tt.probe(9).is_none());
    tt.store(9, 5, 60, 7, BOUND_LOWER);
    let e = tt.probe(9).unwrap();
    assert_eq!((e.mv, e.score, e.depth, e.bound), (5, 60, 7, BOUND_LOWER));
    tt.store(9, 6, 61, 2, BOUND_LOWER);
    assert_eq!(tt.probe(9).unwrap().depth, 7);
    tt.new_search();
    tt.store(9, 6, 61, 2, BOUND_LOWER);
    assert_eq!(tt.probe(9).unwrap().depth, 2);
    tt.clear();
    assert!(tt.probe(9).is_none());
}

#[test]
fn the_least_valuable_of_four_gives_way() {
    let mut tt = TT::new(1);
    let clusters = (tt.mask + 1) as u64;
    let key = |i: u64| 0x1234_5678_9abc_def0u64.wrapping_add(i * clusters);
    for (i, depth) in [(0, 9), (1, 4), (2, 30), (3, 12)] {
        tt.store(key(i), 1 + i as u16, 10, depth, BOUND_EXACT);
        assert!((0..=i).all(|k| tt.probe(key(k)).is_some()));
    }
    tt.store(key(4), 5, 10, 1, BOUND_EXACT);
    assert!(tt.probe(key(1)).is_none());
    for (i, depth) in [(0, 9), (2, 30), (3, 12), (4, 1)] {
        let e = tt.probe(key(i)).unwrap();
        assert_eq!((e.mv, e.depth), (1 + i as u16, depth));
    }
}
