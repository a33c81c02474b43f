use queens_ga::bb::{BBTrait, BB};

#[test]
fn set_then_get_bit() {
    let mut b: BB = 0;
    b.set_bit(0);
    b.set_bit(63);
    b.set_bit(17);
    assert!(b.get_bit(0));
    assert!(b.get_bit(17));
    assert!(b.get_bit(63));
    assert!(!b.get_bit(1));
    assert!(!b.get_bit(16));
    assert_eq!(b, 1u64 | (1u64 << 17) | (1u64 << 63));
}

#[test]
fn set_bit_twice_is_idempotent() {
    let mut b: BB = 0;
    b.set_bit(5);
    b.set_bit(5);
    assert_eq!(b, 1u64 << 5);
}

#[test]
fn pop_lsb_on_empty_board_gives_zero() {
    let mut b: BB = 0;
    assert_eq!(b.pop_lsb(), 0);
    assert_eq!(b, 0);
}

#[test]
fn pop_lsb_returns_lowest_and_clears_it() {
    let mut b: BB = 0b1011000;
    assert_eq!(b.pop_lsb(), 3);
    assert_eq!(b, 0b1010000);
}

#[test]
fn pop_lsb_highest_square() {
    let mut b: BB = 1u64 << 63;
    assert_eq!(b.pop_lsb(), 63);
    assert_eq!(b, 0);
}

#[test]
fn pop_lsb_drains_in_increasing_order() {
    let start: BB = (1u64 << 2) | (1u64 << 9) | (1u64 << 40) | (1u64 << 63) | 1;
    let k = start.count_ones();
    let mut b = start;
    let mut seen = Vec::new();
    for _ in 0..k {
        seen.push(b.pop_lsb());
    }
    assert_eq!(b, 0);
    assert_eq!(seen, vec![0, 2, 9, 40, 63]);
    for w in seen.windows(2) {
        assert!(w[0] < w[1]);
    }
}

#[test]
fn pop_lsb_drains_full_board() {
    let mut b: BB = u64::MAX;
    for i in 0..64 {
        assert_eq!(b.pop_lsb(), i as i8);
    }
    assert_eq!(b, 0);
}
