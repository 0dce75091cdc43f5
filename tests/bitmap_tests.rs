use bitmap::Bitmap;

#[test]
fn test_push() {
    let mut bm = Bitmap::new();
    bm.push(false);
    bm.push(true);
    bm.push(false);
    assert_eq!(bm.dump(), "010");
}

#[test]
fn test_get_and_set() {
    let mut bm = Bitmap::with_size(24);
    bm.set(13, true);
    assert_eq!(bm.dump(), "000000000000010000000000");
    bm.set(13, false);
    assert_eq!(bm.dump(), "000000000000000000000000");
}

#[test]
fn new_is_empty() {
    let bm = Bitmap::new();
    assert_eq!(bm.size(), 0);
    assert_eq!(bm.dump(), "");
}

#[test]
fn with_size_sets_size_and_clears_bits() {
    for n in [0usize, 1, 7, 8, 9, 16, 17, 100] {
        let bm = Bitmap::with_size(n);
        assert_eq!(bm.size(), n);
        for i in 0..n {
            assert!(!bm.get(i));
        }
        assert_eq!(bm.dump(), "0".repeat(n));
    }
}

#[test]
fn push_count_gives_size() {
    let mut bm = Bitmap::new();
    for k in 0..40usize {
        assert_eq!(bm.size(), k);
        bm.push(k % 3 == 0);
    }
    assert_eq!(bm.size(), 40);
    for k in 0..40usize {
        assert_eq!(bm.get(k), k % 3 == 0);
    }
}

#[test]
fn push_sequence_reads_back() {
    let mut bm = Bitmap::new();
    bm.push(false);
    bm.push(true);
    bm.push(false);
    assert!(!bm.get(0));
    assert!(bm.get(1));
    assert!(!bm.get(2));
}

#[test]
fn ninth_push_keeps_first_byte() {
    let mut bm = Bitmap::new();
    let first = [true, false, true, true, false, false, true, false];
    for &v in first.iter() {
        bm.push(v);
    }
    assert_eq!(bm.dump(), "10110010");
    bm.push(true);
    assert_eq!(bm.size(), 9);
    for (i, &v) in first.iter().enumerate() {
        assert_eq!(bm.get(i), v);
    }
    assert!(bm.get(8));
    assert_eq!(bm.dump(), "101100101");
}

#[test]
fn set_round_trip_keeps_other_bits() {
    let mut bm = Bitmap::with_size(20);
    bm.set(3, true);
    bm.set(11, true);
    bm.set(19, true);
    bm.set(11, false);
    assert_eq!(bm.dump(), "00010000000000000001");
    bm.set(0, true);
    assert!(bm.get(0));
    assert!(bm.get(3));
    assert!(!bm.get(11));
    assert!(bm.get(19));
}

#[test]
fn set_twice_same_as_once() {
    let mut once = Bitmap::with_size(10);
    once.set(5, true);
    let mut twice = Bitmap::with_size(10);
    twice.set(5, true);
    twice.set(5, true);
    assert_eq!(once.dump(), twice.dump());
    twice.set(5, false);
    twice.set(5, false);
    assert_eq!(twice.dump(), "0000000000");
}

#[test]
fn set_on_sized_then_push_continues() {
    let mut bm = Bitmap::with_size(8);
    bm.set(7, true);
    bm.push(true);
    bm.push(false);
    assert_eq!(bm.size(), 10);
    assert_eq!(bm.dump(), "0000000110");
}

#[test]
fn pushed_bits_land_in_partly_used_byte() {
    let mut bm = Bitmap::with_size(3);
    bm.push(true);
    assert_eq!(bm.size(), 4);
    assert_eq!(bm.dump(), "0001");
    bm.set(3, false);
    bm.push(true);
    assert_eq!(bm.dump(), "00001");
}
