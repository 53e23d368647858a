use aeon_bdt::mass::Mass;

fn big(digits: &[u32]) -> Mass {
    Mass::from_digits(digits.to_vec())
}

#[test]
fn small_masses_are_their_numbers() {
    assert_eq!(Mass::zero().to_u128(), Some(0));
    assert!(Mass::zero().is_zero());
    assert_eq!(Mass::from_u64(0).to_u128(), Some(0));
    assert!(Mass::from_u64(0).is_zero());
    assert!(!Mass::from_u64(1).is_zero());
    assert_eq!(Mass::from_u64(1125).to_u128(), Some(1125));
    assert_eq!(Mass::from_u64(u64::MAX).to_u128(), Some(u64::MAX as u128));
    assert_eq!(Mass::from_u64(4294967296).digits()[..2], [0, 1]);
    assert_eq!(big(&[830850304, 26]).to_u128(), Some(112500000000));
    assert_eq!(big(&[7, 0, 0, 0, 0, 0]).to_u128(), Some(7));
    assert_eq!(big(&[]).to_u128(), Some(0));
}

#[test]
fn masses_beyond_128_bits_have_no_machine_integer() {
    assert_eq!(
        big(&[u32::MAX, u32::MAX, u32::MAX, u32::MAX]).to_u128(),
        Some(u128::MAX)
    );
    assert_eq!(big(&[0, 0, 0, 0, 1]).to_u128(), None);
    assert_eq!(big(&[5, 0, 0, 0, 0, 0, 3]).to_u128(), None);
    assert_eq!(
        big(&[u32::MAX, u32::MAX, u32::MAX, u32::MAX]).plus(&Mass::from_u64(1)).to_u128(),
        None
    );
}

#[test]
fn sums_carry_over() {
    assert_eq!(Mass::from_u64(6).plus(&Mass::from_u64(4)).to_u128(), Some(10));
    assert_eq!(
        Mass::from_u64(u64::MAX).plus(&Mass::from_u64(u64::MAX)).to_u128(),
        Some(2 * (u64::MAX as u128))
    );
    assert_eq!(
        big(&[u32::MAX, u32::MAX, u32::MAX]).plus(&Mass::from_u64(1)).to_u128(),
        Some(1u128 << 96)
    );
    assert_eq!(Mass::zero().plus(&Mass::zero()).to_u128(), Some(0));
    assert_eq!(big(&[1, 2, 3]).plus(&big(&[4])).to_u128(), big(&[5, 2, 3]).to_u128());
    let sum = big(&[u32::MAX; 6]).plus(&big(&[1]));
    assert!(sum.equals(&big(&[0, 0, 0, 0, 0, 0, 1])));
}

#[test]
fn products_carry_over() {
    assert_eq!(Mass::from_u64(6).times(10000).to_u128(), Some(60000));
    assert_eq!(Mass::from_u64(6).times(0).to_u128(), Some(0));
    assert_eq!(Mass::zero().times(77).to_u128(), Some(0));
    assert_eq!(
        Mass::from_u64(u64::MAX).times(u32::MAX).to_u128(),
        Some((u64::MAX as u128) * (u32::MAX as u128))
    );
    let product = big(&[u32::MAX; 5]).times(2);
    assert!(product.equals(&big(&[u32::MAX - 1, u32::MAX, u32::MAX, u32::MAX, u32::MAX, 1])));
}

#[test]
fn masses_are_ordered_by_their_numbers() {
    assert!(Mass::from_u64(7).at_least(&Mass::from_u64(7)));
    assert!(Mass::from_u64(8).at_least(&Mass::from_u64(7)));
    assert!(!Mass::from_u64(7).at_least(&Mass::from_u64(8)));
    assert!(big(&[0, 1]).at_least(&big(&[u32::MAX])));
    assert!(!big(&[u32::MAX]).at_least(&big(&[0, 1])));
    assert!(big(&[5, 0, 0]).at_least(&big(&[5])));
    assert!(big(&[5]).at_least(&big(&[5, 0, 0])));
    assert!(big(&[5, 0, 0]).equals(&big(&[5])));
    assert!(!big(&[5, 1]).equals(&big(&[5])));
    let below = big(&[u32::MAX, u32::MAX, u32::MAX, u32::MAX, u32::MAX, 1]);
    assert!(big(&[0, 0, 0, 0, 0, 2]).at_least(&below));
    assert!(!below.at_least(&big(&[0, 0, 0, 0, 0, 2])));
    assert!(Mass::zero().at_least(&big(&[0, 0])));
    assert!(big(&[9, 9]).duplicate().equals(&big(&[9, 9])));
}
