use kitties::currency::CurrencyLedger;
use kitties::dna::Gender;
use kitties::errors::Error;
use kitties::ledger::Ledger;

// Entropy with an even low byte gives a Male kitty, odd gives Female.
const MALE: u8 = 0;
const FEMALE: u8 = 1;

const ALICE: u64 = 1;
const BOB: u64 = 2;

fn sum_owned(l: &Ledger, accounts: &[u64]) -> u64 {
    let mut total: u64 = 0;
    for a in accounts {
        total += l.kitties_owned(*a).len() as u64;
    }
    total
}

#[test]
fn create_twice_counts() {
    let mut l = Ledger::new(2);
    let id1 = l.create_kitty(ALICE, MALE, 11, 1).unwrap();
    let id2 = l.create_kitty(ALICE, MALE, 22, 1).unwrap();
    assert_ne!(id1, id2);
    assert_eq!(l.all_kitties_count(), 2);
    let owned = l.kitties_owned(ALICE);
    assert_eq!(owned, vec![id1, id2]);
    assert_eq!(sum_owned(&l, &[ALICE, BOB]), 2);
}

#[test]
fn third_create_exceeds_bound() {
    let mut l = Ledger::new(2);
    let id1 = l.create_kitty(ALICE, MALE, 11, 1).unwrap();
    let id2 = l.create_kitty(ALICE, MALE, 22, 1).unwrap();
    let r = l.create_kitty(ALICE, MALE, 33, 1);
    assert_eq!(r, Err(Error::ExceedMaxOwned));
    assert_eq!(l.all_kitties_count(), 2);
    assert_eq!(l.kitties_owned(ALICE), vec![id1, id2]);
    assert!(l.kitties(id1).is_some());
    assert!(l.kitties(id2).is_some());
}

#[test]
fn mint_sets_fresh_record() {
    let mut l = Ledger::new(5);
    let id = l.create_kitty(ALICE, FEMALE, 7, 3).unwrap();
    let k = l.kitties(id).unwrap();
    assert_eq!(k.owner, ALICE);
    assert_eq!(k.price, None);
    assert_eq!(k.gender, Gender::Female);
}

#[test]
fn gender_follows_entropy_parity() {
    let mut l = Ledger::new(5);
    let idm = l.create_kitty(ALICE, 42, 7, 3).unwrap();
    let idf = l.create_kitty(ALICE, 43, 8, 3).unwrap();
    assert_eq!(l.kitties(idm).unwrap().gender, Gender::Male);
    assert_eq!(l.kitties(idf).unwrap().gender, Gender::Female);
}

#[test]
fn create_is_deterministic_in_its_inputs() {
    let mut l1 = Ledger::new(2);
    let mut l2 = Ledger::new(2);
    let id1 = l1.create_kitty(ALICE, MALE, 11, 1).unwrap();
    let id2 = l2.create_kitty(ALICE, MALE, 11, 1).unwrap();
    assert_eq!(id1, id2);
    let other = l2.create_kitty(BOB, MALE, 11, 1).unwrap();
    assert_ne!(id1, other);
}

#[test]
fn set_price_lists_and_delists() {
    let mut l = Ledger::new(2);
    let id = l.create_kitty(ALICE, MALE, 11, 1).unwrap();
    assert_eq!(l.set_price(ALICE, id, Some(100)), Ok(()));
    assert_eq!(l.kitties(id).unwrap().price, Some(100));
    assert_eq!(l.set_price(ALICE, id, None), Ok(()));
    assert_eq!(l.kitties(id).unwrap().price, None);
}

#[test]
fn set_price_rejects_non_owner() {
    let mut l = Ledger::new(2);
    let id = l.create_kitty(ALICE, MALE, 11, 1).unwrap();
    assert_eq!(l.set_price(BOB, id, Some(100)), Err(Error::NotOwner));
    assert_eq!(l.set_price(ALICE, 0xdead, Some(100)), Err(Error::NotOwner));
    assert_eq!(l.kitties(id).unwrap().price, None);
}

#[test]
fn transfer_moves_and_delists() {
    let mut l = Ledger::new(2);
    let id = l.create_kitty(ALICE, MALE, 11, 1).unwrap();
    l.set_price(ALICE, id, Some(50)).unwrap();
    assert_eq!(l.transfer(ALICE, BOB, id), Ok(()));
    let k = l.kitties(id).unwrap();
    assert_eq!(k.owner, BOB);
    assert_eq!(k.price, None);
    assert_eq!(l.kitties_owned(ALICE), Vec::<u128>::new());
    assert_eq!(l.kitties_owned(BOB), vec![id]);
    assert_eq!(l.all_kitties_count(), 1);
    assert_eq!(sum_owned(&l, &[ALICE, BOB]), 1);
}

#[test]
fn transfer_keeps_order_of_the_rest() {
    let mut l = Ledger::new(3);
    let id1 = l.create_kitty(ALICE, MALE, 11, 1).unwrap();
    let id2 = l.create_kitty(ALICE, MALE, 22, 1).unwrap();
    let id3 = l.create_kitty(ALICE, MALE, 33, 1).unwrap();
    assert_eq!(l.transfer(ALICE, BOB, id2), Ok(()));
    assert_eq!(l.kitties_owned(ALICE), vec![id1, id3]);
}

#[test]
fn transfer_rejections_change_nothing() {
    let mut l = Ledger::new(1);
    let ida = l.create_kitty(ALICE, MALE, 11, 1).unwrap();
    let idb = l.create_kitty(BOB, MALE, 22, 1).unwrap();
    assert_eq!(l.transfer(BOB, ALICE, ida), Err(Error::NotOwner));
    assert_eq!(l.transfer(ALICE, ALICE, ida), Err(Error::TransferToSelf));
    assert_eq!(l.transfer(ALICE, BOB, ida), Err(Error::ExceedMaxOwned));
    assert_eq!(l.transfer(ALICE, BOB, 0xdead), Err(Error::NotOwner));
    assert_eq!(l.kitties(ida).unwrap().owner, ALICE);
    assert_eq!(l.kitties(idb).unwrap().owner, BOB);
    assert_eq!(l.kitties_owned(ALICE), vec![ida]);
    assert_eq!(l.kitties_owned(BOB), vec![idb]);
    assert_eq!(l.all_kitties_count(), 2);
}

#[test]
fn buy_insufficient_funds_changes_nothing() {
    let mut l = Ledger::new(2);
    let mut bank = CurrencyLedger::new(0);
    let id1 = l.create_kitty(ALICE, MALE, 11, 1).unwrap();
    l.set_price(ALICE, id1, Some(100)).unwrap();
    bank.deposit(BOB, 50).unwrap();
    assert_eq!(l.buy_kitty(&mut bank, BOB, id1, 100), Err(Error::InsufficientFunds));
    assert_eq!(l.kitties(id1).unwrap().owner, ALICE);
    assert_eq!(l.kitties(id1).unwrap().price, Some(100));
    assert_eq!(bank.balance_of(BOB), 50);
    assert_eq!(bank.balance_of(ALICE), 0);
}

#[test]
fn buy_succeeds_and_settles() {
    let mut l = Ledger::new(2);
    let mut bank = CurrencyLedger::new(0);
    let id1 = l.create_kitty(ALICE, MALE, 11, 1).unwrap();
    l.set_price(ALICE, id1, Some(100)).unwrap();
    bank.deposit(BOB, 150).unwrap();
    assert_eq!(l.buy_kitty(&mut bank, BOB, id1, 100), Ok(()));
    assert_eq!(bank.balance_of(BOB), 50);
    assert_eq!(bank.balance_of(ALICE), 100);
    let k = l.kitties(id1).unwrap();
    assert_eq!(k.owner, BOB);
    assert_eq!(k.price, None);
    assert_eq!(l.kitties_owned(ALICE), Vec::<u128>::new());
    assert_eq!(l.kitties_owned(BOB), vec![id1]);
}

#[test]
fn buy_validation_errors() {
    let mut l = Ledger::new(2);
    let mut bank = CurrencyLedger::new(0);
    let id = l.create_kitty(ALICE, MALE, 11, 1).unwrap();
    bank.deposit(BOB, 1000).unwrap();
    assert_eq!(l.buy_kitty(&mut bank, BOB, 0xdead, 100), Err(Error::NotFound));
    assert_eq!(l.buy_kitty(&mut bank, BOB, id, 100), Err(Error::NotForSale));
    l.set_price(ALICE, id, Some(200)).unwrap();
    assert_eq!(l.buy_kitty(&mut bank, BOB, id, 100), Err(Error::PriceTooHigh));
    assert_eq!(l.buy_kitty(&mut bank, ALICE, id, 200), Err(Error::TransferToSelf));
    assert_eq!(l.kitties(id).unwrap().owner, ALICE);
    assert_eq!(bank.balance_of(BOB), 1000);
}

#[test]
fn buy_into_full_list_rolls_nothing() {
    let mut l = Ledger::new(1);
    let mut bank = CurrencyLedger::new(0);
    let ida = l.create_kitty(ALICE, MALE, 11, 1).unwrap();
    let idb = l.create_kitty(BOB, MALE, 22, 1).unwrap();
    l.set_price(ALICE, ida, Some(100)).unwrap();
    bank.deposit(BOB, 150).unwrap();
    assert_eq!(l.buy_kitty(&mut bank, BOB, ida, 100), Err(Error::ExceedMaxOwned));
    assert_eq!(bank.balance_of(BOB), 150);
    assert_eq!(bank.balance_of(ALICE), 0);
    assert_eq!(l.kitties(ida).unwrap().owner, ALICE);
    assert_eq!(l.kitties(ida).unwrap().price, Some(100));
    assert_eq!(l.kitties_owned(BOB), vec![idb]);
}

#[test]
fn buy_respects_existential_minimum() {
    let mut l = Ledger::new(2);
    let mut bank = CurrencyLedger::new(10);
    let id = l.create_kitty(ALICE, MALE, 11, 1).unwrap();
    l.set_price(ALICE, id, Some(100)).unwrap();
    bank.deposit(BOB, 105).unwrap();
    assert_eq!(l.buy_kitty(&mut bank, BOB, id, 100), Err(Error::InsufficientFunds));
    bank.deposit(BOB, 5).unwrap();
    assert_eq!(l.buy_kitty(&mut bank, BOB, id, 100), Ok(()));
    assert_eq!(bank.balance_of(BOB), 10);
}

#[test]
fn breed_success_mints_child() {
    let mut l = Ledger::new(3);
    let idm = l.create_kitty(ALICE, MALE, 11, 1).unwrap();
    let idf = l.create_kitty(ALICE, FEMALE, 22, 1).unwrap();
    let child = l.breed_kitty(ALICE, idm, idf, 0xf0f0, MALE, 2).unwrap();
    assert_ne!(child, idm);
    assert_ne!(child, idf);
    assert_eq!(l.all_kitties_count(), 3);
    assert_eq!(l.kitties_owned(ALICE), vec![idm, idf, child]);
    // The child's genetic material recombines the parents' under the selector.
    let dm = l.kitties(idm).unwrap().dna;
    let df = l.kitties(idf).unwrap().dna;
    let sel: u128 = 0xf0f0;
    assert_eq!(l.kitties(child).unwrap().dna, (sel & dm) | (!sel & df));
    // Parents are untouched.
    assert_eq!(l.kitties(idm).unwrap().owner, ALICE);
    assert_eq!(l.kitties(idf).unwrap().owner, ALICE);
}

#[test]
fn breed_into_full_list_fails() {
    let mut l = Ledger::new(2);
    let idm = l.create_kitty(ALICE, MALE, 11, 1).unwrap();
    let idf = l.create_kitty(ALICE, FEMALE, 22, 1).unwrap();
    let r = l.breed_kitty(ALICE, idm, idf, 0xf0f0, MALE, 2);
    assert_eq!(r, Err(Error::ExceedMaxOwned));
    assert_eq!(l.all_kitties_count(), 2);
    assert_eq!(l.kitties_owned(ALICE), vec![idm, idf]);
}

#[test]
fn breed_same_gender_fails() {
    let mut l = Ledger::new(3);
    let id1 = l.create_kitty(ALICE, MALE, 11, 1).unwrap();
    let id2 = l.create_kitty(ALICE, MALE, 22, 1).unwrap();
    assert_eq!(l.breed_kitty(ALICE, id1, id2, 7, MALE, 2), Err(Error::SameGender));
    assert_eq!(l.breed_kitty(ALICE, id1, id1, 7, MALE, 2), Err(Error::SameGender));
    assert_eq!(l.all_kitties_count(), 2);
    assert_eq!(l.kitties_owned(ALICE), vec![id1, id2]);
}

#[test]
fn breed_requires_owning_both() {
    let mut l = Ledger::new(3);
    let idm = l.create_kitty(ALICE, MALE, 11, 1).unwrap();
    let idf = l.create_kitty(BOB, FEMALE, 22, 1).unwrap();
    assert_eq!(l.breed_kitty(ALICE, idm, idf, 7, MALE, 2), Err(Error::NotOwner));
    assert_eq!(l.breed_kitty(BOB, idm, idf, 7, MALE, 2), Err(Error::NotOwner));
    assert_eq!(l.breed_kitty(ALICE, idm, 0xdead, 7, MALE, 2), Err(Error::NotOwner));
    assert_eq!(l.all_kitties_count(), 2);
}

#[test]
fn counter_matches_owned_totals_across_operations() {
    let mut l = Ledger::new(3);
    let mut bank = CurrencyLedger::new(0);
    let accounts = [ALICE, BOB];
    let idm = l.create_kitty(ALICE, MALE, 11, 1).unwrap();
    assert_eq!(sum_owned(&l, &accounts), l.all_kitties_count());
    let idf = l.create_kitty(ALICE, FEMALE, 22, 1).unwrap();
    assert_eq!(sum_owned(&l, &accounts), l.all_kitties_count());
    l.breed_kitty(ALICE, idm, idf, 3, FEMALE, 2).unwrap();
    assert_eq!(sum_owned(&l, &accounts), l.all_kitties_count());
    l.set_price(ALICE, idm, Some(10)).unwrap();
    bank.deposit(BOB, 10).unwrap();
    l.buy_kitty(&mut bank, BOB, idm, 10).unwrap();
    assert_eq!(sum_owned(&l, &accounts), l.all_kitties_count());
    l.transfer(ALICE, BOB, idf).unwrap();
    assert_eq!(sum_owned(&l, &accounts), l.all_kitties_count());
    assert_eq!(l.all_kitties_count(), 3);
}
