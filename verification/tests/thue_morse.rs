use daily_challenges::thue_morse::{get_seq, is_odious};

#[test]
fn odious_numbers() {
    assert!(!is_odious(&0));
    assert!(is_odious(&1));
    assert!(is_odious(&2));
    assert!(!is_odious(&3));
    assert!(is_odious(&7));
    assert!(!is_odious(&u64::MAX));
    assert!(is_odious(&(u64::MAX >> 1)));
}

#[test]
fn sequence_of_order_zero_to_three() {
    assert_eq!(get_seq(0), vec![0]);
    assert_eq!(get_seq(1), vec![0, 1]);
    assert_eq!(get_seq(2), vec![0, 1, 1, 0]);
    assert_eq!(get_seq(3), vec![0, 1, 1, 0, 1, 0, 0, 1]);
}

#[test]
fn sequence_doubles_with_its_complement() {
    for k in 0..10u64 {
        let a = get_seq(k);
        let b = get_seq(k + 1);
        let mut expected = a.clone();
        expected.extend(a.iter().map(|x| 1 - x));
        assert_eq!(b, expected);
    }
}

#[test]
fn sequence_recurrence() {
    let s = get_seq(8);
    assert_eq!(s[0], 0);
    for n in 0..128usize {
        assert_eq!(s[2 * n], s[n]);
        assert_eq!(s[2 * n + 1], 1 - s[n]);
    }
}

#[test]
fn xor_adds_parities() {
    let samples = [0u64, 1, 2, 3, 5, 0xFF, 0x1234_5678, u64::MAX, 1 << 63];
    for &a in &samples {
        for &b in &samples {
            assert_eq!(is_odious(&(a ^ b)), is_odious(&a) != is_odious(&b));
        }
    }
    for k in 0..1000u64 {
        assert_eq!(is_odious(&(2 * k)), is_odious(&k));
        assert_eq!(is_odious(&(2 * k + 1)), !is_odious(&k));
    }
}
