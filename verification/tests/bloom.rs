use bloom_cache::{BloomCache, Segment};

#[test]
fn segment_ops() {
    let mut segment = Segment::default();
    let setbits = segment.get_setbits();
    assert!(setbits.is_empty());

    for idx in 0..=65535 {
        assert!(!segment.get(idx));
        segment.set(idx);
        assert!(segment.get(idx));
    }
    let setbits = segment.get_setbits();
    assert!(!setbits.is_empty());
    assert_eq!(setbits, (0..=65535u16).into_iter().collect::<Vec<_>>());
}

#[test]
fn fresh_segment_and_set_round_trip() {
    let mut segment = Segment::empty();
    assert!(!segment.get(8000));
    segment.set(8000);
    assert!(segment.get(8000));
    segment.set(8000);
    assert!(segment.get(8000));
    assert!(!segment.get(7999));
    assert!(!segment.get(8001));
    assert_eq!(segment.get_setbits(), vec![8000u16]);
    segment.set(0);
    segment.set(65535);
    assert_eq!(segment.get_setbits(), vec![0u16, 8000, 65535]);
}

#[test]
fn cache_scenario_four_segments() {
    let mut cache = BloomCache::new(4);
    let zeros = vec![0u8; 8];
    let ones = vec![255u8; 8];
    cache.add(&zeros);
    cache.add(&ones);
    assert_eq!(cache.len(), 2);

    assert!(!cache.should_reject(&zeros, 0));
    assert!(!cache.should_reject(&ones, 0));

    let mut query = vec![0u8; 8];
    query[0] = 0x80;
    assert!(cache.should_reject(&query, 0));
    assert!(!cache.should_reject(&query, 1));
    assert!(!cache.should_reject(&query, 100));
}

#[test]
fn cache_scenario_zero_segments() {
    let mut cache = BloomCache::new(0);
    assert!(!cache.should_reject(&[], 0));
    assert!(!cache.should_reject(&[1u8, 2, 3, 4], 0));
    assert!(!cache.should_reject(&[1u8, 2, 3, 4], 5));
    cache.add(&[1u8, 2, 3, 4]);
    assert_eq!(cache.len(), 1);
    assert!(!cache.should_reject(&[1u8, 2, 3, 4], 0));
}

#[test]
fn monotonic_population_and_reset() {
    let mut cache = BloomCache::new(2);
    assert!(cache.is_empty());
    cache.add(&[0, 1, 0, 2]);
    cache.add(&[0, 3, 0, 4]);
    assert_eq!(cache.len(), 2);
    assert!(!cache.is_empty());
    {
        let segs = cache.iter_segments();
        assert_eq!(segs.len(), 2);
        assert!(segs[0].get(1));
        assert!(segs[0].get(3));
        assert!(segs[1].get(2));
        assert!(segs[1].get(4));
    }
    cache.reset();
    assert_eq!(cache.len(), 0);
    assert!(cache.is_empty());
    let segs = cache.iter_segments();
    assert_eq!(segs.len(), 2);
    for s in segs.iter() {
        assert!(s.get_setbits().is_empty());
    }
}

#[test]
fn cyclic_add_counts_once() {
    let mut cache = BloomCache::new(2);
    cache.add(&[0xAA, 0xBB, 0xCC, 0xDD, 0x11, 0x22, 0x33, 0x44]);
    assert_eq!(cache.len(), 1);
    assert!(!cache.should_reject(&[0xAA, 0xBB, 0xCC, 0xDD], 0));
    assert!(!cache.should_reject(&[0x11, 0x22, 0x33, 0x44], 0));
    assert!(!cache.should_reject(&[0xAA, 0xBB, 0x33, 0x44], 0));
}

#[test]
fn odd_trailing_byte_dropped() {
    let mut cache = BloomCache::new(1);
    cache.add(&[0x12, 0x34, 0x56]);
    let segs = cache.iter_segments();
    assert!(segs[0].get(0x1234));
    assert_eq!(segs[0].get_setbits(), vec![0x1234u16]);
}

#[test]
fn query_pairing_stops_at_shorter() {
    let mut cache = BloomCache::new(4);
    cache.add(&[0, 1, 0, 2, 0, 3, 0, 4]);
    assert!(!cache.should_reject(&[0, 1, 0, 2], 0));
    assert!(!cache.should_reject(&[0, 1, 0, 2, 0, 3, 0, 4, 9, 9, 9, 9], 0));
    assert!(cache.should_reject(&[0, 9, 0, 2], 0));
}

#[test]
fn negative_radius_never_rejects() {
    let cache = BloomCache::new(3);
    assert!(!cache.should_reject(&[1, 2, 3, 4, 5, 6], -1));
    assert!(!cache.should_reject(&[1, 2, 3, 4, 5, 6], i32::MIN));
}

#[test]
fn mutate_segments_directly() {
    let mut cache = BloomCache::new(1);
    {
        let segs = cache.iter_segments_mut();
        segs[0].set(7);
    }
    assert!(!cache.should_reject(&[0x00, 0x07], 0));
    assert!(cache.should_reject(&[0x00, 0x08], 0));
}

#[test]
fn near_queries_reject_by_corrupted_chunks() {
    let width: usize = 32;
    let mut cache = BloomCache::new(width / 2);
    let data: Vec<u8> = (0..width as u8).collect();
    cache.add(&data);

    for corrupt in (0..width).step_by(2) {
        let mut query = data.clone();
        for idx in (0..(corrupt + 1)).step_by(2) {
            query[idx] ^= 1 << 7;
        }
        for radius in 0..(corrupt / 2 + 1) {
            assert!(cache.should_reject(&query, radius as i32));
        }
        for radius in (corrupt / 2 + 1)..16 {
            assert!(!cache.should_reject(&query, radius as i32));
        }
    }
}
