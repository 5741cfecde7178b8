use kitties::{combine, combine_dna, Kitty, KittyError, LinkedItem, Module};

fn genome(b: u8) -> [u8; 16] {
    [b; 16]
}

#[test]
fn combine_dna_selects_bits() {
    assert_eq!(combine_dna(0b1100_1010, 0b0101_0101, 0b1111_0000), 0b1100_0101);
    assert_eq!(combine_dna(0xAB, 0xCD, 0xFF), 0xAB);
    assert_eq!(combine_dna(0xAB, 0xCD, 0x00), 0xCD);
}

#[test]
fn combine_with_full_and_empty_masks() {
    let a: [u8; 16] = [1, 2, 3, 4, 5, 6, 7, 8, 9, 10, 11, 12, 13, 14, 15, 16];
    let b: [u8; 16] = [0xF0; 16];
    assert_eq!(combine(&a, &b, &[0xFF; 16]), a);
    assert_eq!(combine(&a, &b, &[0x00; 16]), b);
    assert_eq!(combine(&a, &b, &[0x0F; 16]), combine(&a, &b, &[0x0F; 16]));
    let mut expected = [0u8; 16];
    for i in 0..16 {
        expected[i] = (a[i] & 0x0F) | 0xF0;
    }
    assert_eq!(combine(&a, &b, &[0x0F; 16]), expected);
}

#[test]
fn create_hands_out_increasing_ids() {
    let mut m = Module::new();
    assert_eq!(m.kitties_count(), 0);
    assert_eq!(m.next_kitty_id(), Ok(0));
    assert_eq!(m.create(1, genome(7)), Ok(0));
    assert_eq!(m.create(1, genome(8)), Ok(1));
    assert_eq!(m.create(2, genome(9)), Ok(2));
    assert_eq!(m.kitties_count(), 3);
    assert_eq!(m.kitty(1), Some(Kitty(genome(8))));
    assert_eq!(m.kitty(3), None);
    assert_eq!(m.kitty_owner(2), Some(2));
    assert!(m.is_owned_by(1, 0));
    assert!(m.is_owned_by(1, 1));
    assert!(!m.is_owned_by(2, 1));
    assert_eq!(m.owned_kitties(1, None), Some(LinkedItem { prev: Some(1), next: Some(0) }));
}

#[test]
fn breed_identical_parents_is_refused() {
    let mut m = Module::new();
    m.create(1, genome(1)).unwrap();
    assert_eq!(m.breed(1, 0, 0, genome(0xFF)), Err(KittyError::IdenticalParents));
    assert_eq!(m.kitties_count(), 1);
    assert_eq!(m.kitty(1), None);
}

#[test]
fn breed_missing_parent_is_refused() {
    let mut m = Module::new();
    m.create(1, genome(1)).unwrap();
    assert_eq!(m.breed(1, 0, 5, genome(0)), Err(KittyError::NotFound));
    assert_eq!(m.breed(1, 5, 0, genome(0)), Err(KittyError::NotFound));
    assert_eq!(m.breed(1, 5, 5, genome(0)), Err(KittyError::NotFound));
    assert_eq!(m.kitties_count(), 1);
}

#[test]
fn breed_mixes_parents_under_the_selector() {
    let mut m = Module::new();
    m.create(1, genome(0b1010_1010)).unwrap();
    m.create(2, genome(0b0101_0101)).unwrap();
    assert_eq!(m.breed(3, 0, 1, genome(0b1111_0000)), Ok(2));
    assert_eq!(m.kitty(2), Some(Kitty(genome(0b1010_0101))));
    assert_eq!(m.kitty_owner(2), Some(3));
    assert!(m.is_owned_by(3, 2));
    assert_eq!(m.kitty(0), Some(Kitty(genome(0b1010_1010))));
    assert_eq!(m.kitty(1), Some(Kitty(genome(0b0101_0101))));
}

#[test]
fn transfer_moves_between_lists() {
    let mut m = Module::new();
    m.create(1, genome(1)).unwrap();
    m.create(1, genome(2)).unwrap();
    assert_eq!(m.transfer(1, 2, 0), Ok(()));
    assert_eq!(m.kitty_owner(0), Some(2));
    assert!(!m.is_owned_by(1, 0));
    assert!(m.is_owned_by(2, 0));
    assert_eq!(m.owned_kitties(1, None), Some(LinkedItem { prev: Some(1), next: Some(1) }));
    assert_eq!(m.owned_kitties(2, None), Some(LinkedItem { prev: Some(0), next: Some(0) }));
}

#[test]
fn transfer_errors() {
    let mut m = Module::new();
    m.create(1, genome(1)).unwrap();
    assert_eq!(m.transfer(1, 2, 4), Err(KittyError::NotFound));
    assert_eq!(m.transfer(2, 3, 0), Err(KittyError::NotOwner));
    assert_eq!(m.kitty_owner(0), Some(1));
    assert!(m.is_owned_by(1, 0));
}

#[test]
fn kitty_is_never_under_two_owners() {
    let mut m = Module::new();
    m.create(1, genome(1)).unwrap();
    m.transfer(1, 2, 0).unwrap();
    m.transfer(2, 3, 0).unwrap();
    m.transfer(3, 3, 0).unwrap();
    let holders: Vec<u64> = (0u64..5).filter(|a| m.is_owned_by(*a, 0)).collect();
    assert_eq!(holders, vec![3]);
}

#[test]
fn ask_by_non_owner_is_refused() {
    let mut m = Module::new();
    m.create(1, genome(1)).unwrap();
    assert_eq!(m.ask(1, 0, Some(50)), Ok(()));
    assert_eq!(m.ask(2, 0, Some(10)), Err(KittyError::NotOwner));
    assert_eq!(m.kitty_price(0), Some(50));
    assert_eq!(m.ask(2, 0, None), Err(KittyError::NotOwner));
    assert_eq!(m.kitty_price(0), Some(50));
}

#[test]
fn ask_sets_and_clears_price() {
    let mut m = Module::new();
    m.create(1, genome(1)).unwrap();
    assert_eq!(m.kitty_price(0), None);
    assert_eq!(m.ask(1, 0, Some(5)), Ok(()));
    assert_eq!(m.kitty_price(0), Some(5));
    assert_eq!(m.ask(1, 0, None), Ok(()));
    assert_eq!(m.kitty_price(0), None);
}

#[test]
fn buy_below_price_is_refused() {
    let mut m = Module::new();
    m.create(1, genome(1)).unwrap();
    m.ask(1, 0, Some(100)).unwrap();
    assert_eq!(m.buy_terms(0, 99), Err(KittyError::PriceTooLow));
    assert_eq!(m.buy(2, 0, 99, true), Err(KittyError::PriceTooLow));
    assert_eq!(m.kitty_owner(0), Some(1));
    assert!(m.is_owned_by(1, 0));
    assert_eq!(m.kitty_price(0), Some(100));
}

#[test]
fn buy_errors() {
    let mut m = Module::new();
    m.create(1, genome(1)).unwrap();
    assert_eq!(m.buy_terms(3, 10), Err(KittyError::NotFound));
    assert_eq!(m.buy(2, 3, 10, true), Err(KittyError::NotFound));
    assert_eq!(m.buy_terms(0, 10), Err(KittyError::NotForSale));
    assert_eq!(m.buy(2, 0, 10, true), Err(KittyError::NotForSale));
    m.ask(1, 0, Some(10)).unwrap();
    assert_eq!(m.buy(2, 0, 10, false), Err(KittyError::TransferFailed));
    assert_eq!(m.kitty_owner(0), Some(1));
    assert_eq!(m.kitty_price(0), Some(10));
}

#[test]
fn buy_charges_listed_price_and_moves_kitty() {
    let mut m = Module::new();
    m.create(1, genome(1)).unwrap();
    m.ask(1, 0, Some(10)).unwrap();
    assert_eq!(m.buy_terms(0, 15), Ok((1, 10)));
    assert_eq!(m.buy(2, 0, 15, true), Ok((1, 10)));
    assert_eq!(m.kitty_owner(0), Some(2));
    assert_eq!(m.kitty_price(0), None);
    assert!(m.is_owned_by(2, 0));
    assert!(!m.is_owned_by(1, 0));
}
