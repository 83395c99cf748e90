use microgpt::rng::Rng;

#[test]
fn seed_42_first_values() {
    let mut rng = Rng::new(42);
    assert_eq!(rng.next_u64(), 45454805674);
    assert_eq!(rng.next_u64(), 11532217803599905471);
    assert_eq!(rng.next_u64(), 10021416941527320954);
}

#[test]
fn same_seed_same_stream() {
    let mut a = Rng::new(12345);
    let mut b = Rng::new(12345);
    for _ in 0..1000 {
        assert_eq!(a.next_u64(), b.next_u64());
    }
}

#[test]
fn zero_seed_stays_zero() {
    let mut rng = Rng::new(0);
    for _ in 0..10 {
        assert_eq!(rng.next_u64(), 0);
    }
}

#[test]
fn nonzero_seed_never_reaches_zero() {
    let mut rng = Rng::new(1);
    let mut last = 0;
    for _ in 0..100000 {
        last = rng.next_u64();
        assert_ne!(last, 0);
    }
    assert_eq!(last, 2700328192655336907);
}

#[test]
fn shuffle_six_with_seed_42() {
    let mut rng = Rng::new(42);
    let mut v = vec![0, 1, 2, 3, 4, 5];
    rng.shuffle(&mut v);
    assert_eq!(v, vec![3, 0, 5, 2, 1, 4]);
    // five draws were made, so the next value follows the fifth state
    assert_eq!(rng.next_u64(), 10094803945545275427);
}

#[test]
fn shuffle_strings_with_seed_7() {
    let mut rng = Rng::new(7);
    let mut v: Vec<String> = "abcdefghij".chars().map(|c| c.to_string()).collect();
    rng.shuffle(&mut v);
    let joined: String = v.concat();
    assert_eq!(joined, "cdibaefjgh");
    assert_eq!(rng.next_u64(), 5664383074420226117);
}

#[test]
fn shuffle_keeps_the_elements() {
    let mut rng = Rng::new(99);
    let mut v: Vec<u32> = (0..50).collect();
    rng.shuffle(&mut v);
    let mut sorted = v.clone();
    sorted.sort();
    assert_eq!(sorted, (0..50).collect::<Vec<u32>>());
}

#[test]
fn shuffle_short_slices_draw_nothing() {
    let mut rng = Rng::new(42);
    let mut empty: Vec<u8> = vec![];
    rng.shuffle(&mut empty);
    let mut one = vec![9u8];
    rng.shuffle(&mut one);
    assert!(empty.is_empty());
    assert_eq!(one, vec![9]);
    assert_eq!(rng.next_u64(), 45454805674);
}
