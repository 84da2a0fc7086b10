use kitties::currency::CurrencyLedger;
use kitties::dna::{gen_dna, gen_gender, recombine_dna, Gender};
use kitties::errors::Error;

#[test]
fn gen_gender_follows_parity() {
    assert_eq!(gen_gender(0), Gender::Male);
    assert_eq!(gen_gender(2), Gender::Male);
    assert_eq!(gen_gender(1), Gender::Female);
    assert_eq!(gen_gender(255), Gender::Female);
}

#[test]
fn recombine_selects_bits_per_parent() {
    // selector 0b0110 takes bits 1 and 2 from the first parent and the
    // rest from the second: (0110 & 1100) | (1001.. & 1010) = 0100 | 1000.
    assert_eq!(recombine_dna(0b1100, 0b1010, 0b0110), 0b1100);
    assert_eq!(recombine_dna(7, 9, u128::MAX), 7);
    assert_eq!(recombine_dna(7, 9, 0), 9);
}

#[test]
fn gen_dna_mixes_its_inputs() {
    // Deterministic in its inputs, and genuinely mixed: the digest is not
    // the entropy handed in, and either input changes it.
    assert_eq!(gen_dna(5, 1), gen_dna(5, 1));
    assert_ne!(gen_dna(5, 1), 5);
    assert_ne!(gen_dna(0, 0), 0);
    assert_ne!(gen_dna(5, 1), gen_dna(5, 2));
    assert_ne!(gen_dna(5, 1), gen_dna(6, 1));
}

#[test]
fn currency_transfer_settles_exactly() {
    let mut bank = CurrencyLedger::new(0);
    bank.deposit(1, 100).unwrap();
    assert_eq!(bank.transfer(1, 2, 30), Ok(()));
    assert_eq!(bank.balance_of(1), 70);
    assert_eq!(bank.balance_of(2), 30);
    assert_eq!(bank.balance_of(3), 0);
}

#[test]
fn currency_transfer_keeps_payer_above_minimum() {
    let mut bank = CurrencyLedger::new(10);
    bank.deposit(1, 100).unwrap();
    assert_eq!(bank.transfer(1, 2, 91), Err(Error::InsufficientFunds));
    assert_eq!(bank.balance_of(1), 100);
    assert_eq!(bank.balance_of(2), 0);
    assert_eq!(bank.transfer(1, 2, 90), Ok(()));
    assert_eq!(bank.balance_of(1), 10);
    assert_eq!(bank.balance_of(2), 90);
}

#[test]
fn currency_rejects_overflowing_credit() {
    let mut bank = CurrencyLedger::new(0);
    bank.deposit(1, 100).unwrap();
    bank.deposit(2, u64::MAX - 10).unwrap();
    assert_eq!(bank.transfer(1, 2, 20), Err(Error::Overflow));
    assert_eq!(bank.balance_of(1), 100);
    assert_eq!(bank.balance_of(2), u64::MAX - 10);
    assert_eq!(bank.deposit(2, 11), Err(Error::Overflow));
    assert_eq!(bank.deposit(2, 10), Ok(()));
    assert_eq!(bank.balance_of(2), u64::MAX);
}
