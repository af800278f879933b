use soroban_contracts::escrow::{
    check_time_bound, EscrowContract, Error, ReceiptConfig, StorageEntry, StorageKey, TimeBound,
    TimeBoundKind,
};

const ADMIN: &str = "GDADMINADMINADMINADMINADMINADMINADMINADMINADMINADMINADM";
const ALICE: &str = "GDALICEALICEALICEALICEALICEALICEALICEALICEALICEALICEAA";
const BOB: &str = "GDBOBBOBBOBBOBBOBBOBBOBBOBBOBBOBBOBBOBBOBBOBBOBBOBBOBB";
const TOKEN_A: &str = "CATOKENATOKENATOKENATOKENATOKENATOKENATOKENATOKENATOKEN";

fn addr(s: &str) -> String {
    s.to_string()
}

fn before(timestamp: u64) -> TimeBound {
    TimeBound { kind: TimeBoundKind::Before, timestamp }
}

fn after(timestamp: u64) -> TimeBound {
    TimeBound { kind: TimeBoundKind::After, timestamp }
}

#[test]
fn test_test() {
    let mut escrow = EscrowContract::__constructor(addr(ADMIN));
    let receipt = ReceiptConfig::new(100i128, addr(ALICE), addr(TOKEN_A), before(12344));
    assert_eq!(
        escrow.deposit(addr(ALICE), addr(BOB), addr(TOKEN_A), 100i128, before(12344), 0),
        Ok((receipt.clone(), 0u32))
    );
    assert_eq!(escrow.withdraw(addr(BOB), 1u32, 0, 0), Ok((receipt, 0)));
}

#[test]
fn constructor_sets_admin() {
    let escrow = EscrowContract::__constructor(addr(ADMIN));
    assert_eq!(escrow.admin(), ADMIN);
    assert!(matches!(escrow.get(&StorageKey::Admin), Some(StorageEntry::Admin(a)) if a == ADMIN));
    assert!(escrow.get(&StorageKey::ReceiptCount(addr(BOB))).is_none());
}

#[test]
fn set_admin_replaces_admin() {
    let mut escrow = EscrowContract::__constructor(addr(ADMIN));
    escrow.set_admin(addr(ALICE));
    assert_eq!(escrow.admin(), ALICE);
}

#[test]
fn deposit_refuses_non_positive_amounts() {
    let mut escrow = EscrowContract::__constructor(addr(ADMIN));
    assert_eq!(
        escrow.deposit(addr(ALICE), addr(BOB), addr(TOKEN_A), 0, before(10), 7),
        Err(Error::NegativeAmount)
    );
    assert_eq!(
        escrow.deposit(addr(ALICE), addr(BOB), addr(TOKEN_A), -5, before(10), 7),
        Err(Error::NegativeAmount)
    );
    assert!(escrow.get(&StorageKey::ReceiptCount(addr(BOB))).is_none());
    assert!(escrow.get(&StorageKey::Receipt(addr(BOB), 1)).is_none());
}

#[test]
fn deposits_are_numbered_per_recipient() {
    let mut escrow = EscrowContract::__constructor(addr(ADMIN));
    let first = ReceiptConfig::new(10, addr(ALICE), addr(TOKEN_A), after(5));
    let second = ReceiptConfig::new(20, addr(ALICE), addr(TOKEN_A), after(6));
    assert_eq!(escrow.deposit(addr(ALICE), addr(BOB), addr(TOKEN_A), 10, after(5), 3), Ok((first.clone(), 3)));
    assert_eq!(escrow.deposit(addr(ALICE), addr(BOB), addr(TOKEN_A), 20, after(6), 4), Ok((second.clone(), 4)));
    assert!(matches!(escrow.get(&StorageKey::ReceiptCount(addr(BOB))), Some(StorageEntry::ReceiptCount(_, 2))));
    assert!(matches!(escrow.get(&StorageKey::Receipt(addr(BOB), 1)), Some(StorageEntry::Receipt(_, 1, c)) if c == first));
    assert!(matches!(escrow.get(&StorageKey::Receipt(addr(BOB), 2)), Some(StorageEntry::Receipt(_, 2, c)) if c == second));
    // another recipient starts at one
    assert_eq!(escrow.deposit(addr(BOB), addr(ALICE), addr(TOKEN_A), 1, after(0), 4).map(|r| r.1), Ok(4));
    assert!(matches!(escrow.get(&StorageKey::ReceiptCount(addr(ALICE))), Some(StorageEntry::ReceiptCount(_, 1))));
}

#[test]
fn withdraw_without_receipt_fails() {
    let mut escrow = EscrowContract::__constructor(addr(ADMIN));
    assert_eq!(escrow.withdraw(addr(BOB), 1, 0, 0), Err(Error::NoReceiptsFound));
    escrow.deposit(addr(ALICE), addr(BOB), addr(TOKEN_A), 100, before(50), 0).unwrap();
    assert_eq!(escrow.withdraw(addr(BOB), 2, 0, 0), Err(Error::NoReceiptsFound));
    assert_eq!(escrow.withdraw(addr(ALICE), 1, 0, 0), Err(Error::NoReceiptsFound));
}

#[test]
fn withdraw_respects_time_lock() {
    let mut escrow = EscrowContract::__constructor(addr(ADMIN));
    escrow.deposit(addr(ALICE), addr(BOB), addr(TOKEN_A), 100, before(50), 0).unwrap();
    escrow.deposit(addr(ALICE), addr(BOB), addr(TOKEN_A), 200, after(50), 0).unwrap();
    // too late for the first, too early for the second
    assert_eq!(escrow.withdraw(addr(BOB), 1, 51, 9), Err(Error::TimePredicateUnfulfilled));
    assert_eq!(escrow.withdraw(addr(BOB), 2, 49, 9), Err(Error::TimePredicateUnfulfilled));
    // both still stored
    assert!(escrow.get(&StorageKey::Receipt(addr(BOB), 1)).is_some());
    assert!(escrow.get(&StorageKey::Receipt(addr(BOB), 2)).is_some());
    // at the bound itself both may be withdrawn
    let (r1, s1) = escrow.withdraw(addr(BOB), 1, 50, 9).unwrap();
    assert_eq!((r1.amount(), s1), (100, 9));
    let (r2, _) = escrow.withdraw(addr(BOB), 2, 50, 9).unwrap();
    assert_eq!(r2.amount(), 200);
    assert_eq!(r2.time_bound(), after(50));
    assert_eq!(r2.depositor(), ALICE);
    assert_eq!(r2.token(), TOKEN_A);
}

#[test]
fn receipt_is_paid_out_once() {
    let mut escrow = EscrowContract::__constructor(addr(ADMIN));
    escrow.deposit(addr(ALICE), addr(BOB), addr(TOKEN_A), 100, before(50), 0).unwrap();
    assert!(escrow.withdraw(addr(BOB), 1, 0, 0).is_ok());
    assert_eq!(escrow.withdraw(addr(BOB), 1, 0, 0), Err(Error::NoReceiptsFound));
    // the count stays, so the next deposit gets number two
    assert!(matches!(escrow.get(&StorageKey::ReceiptCount(addr(BOB))), Some(StorageEntry::ReceiptCount(_, 1))));
    escrow.deposit(addr(ALICE), addr(BOB), addr(TOKEN_A), 1, before(50), 0).unwrap();
    assert!(escrow.get(&StorageKey::Receipt(addr(BOB), 2)).is_some());
}

#[test]
fn time_bound_check() {
    assert!(check_time_bound(10, &before(10)));
    assert!(check_time_bound(9, &before(10)));
    assert!(!check_time_bound(11, &before(10)));
    assert!(check_time_bound(10, &after(10)));
    assert!(check_time_bound(11, &after(10)));
    assert!(!check_time_bound(9, &after(10)));
    assert!(check_time_bound(u64::MAX, &after(0)));
    assert!(!check_time_bound(u64::MAX, &before(u64::MAX - 1)));
}

#[test]
fn storage_reads_give_back_writes() {
    let mut storage = EscrowContract::new();
    assert!(storage.get(&StorageKey::Admin).is_none());
    storage.set(StorageEntry::ReceiptCount(addr(BOB), 4));
    storage.set(StorageEntry::ReceiptCount(addr(ALICE), 1));
    storage.set(StorageEntry::ReceiptCount(addr(BOB), 5));
    assert!(matches!(storage.get(&StorageKey::ReceiptCount(addr(BOB))), Some(StorageEntry::ReceiptCount(_, 5))));
    assert!(matches!(storage.get(&StorageKey::ReceiptCount(addr(ALICE))), Some(StorageEntry::ReceiptCount(_, 1))));
    assert_eq!(storage.entries().len(), 2);
    storage.remove(&StorageKey::ReceiptCount(addr(BOB)));
    assert!(storage.get(&StorageKey::ReceiptCount(addr(BOB))).is_none());
    assert_eq!(storage.entries().len(), 1);
    assert!(StorageEntry::Admin(addr(ADMIN)).has_key(&StorageKey::Admin));
    assert!(!StorageEntry::ReceiptCount(addr(BOB), 1).has_key(&StorageKey::ReceiptCount(addr(ALICE))));
    assert!(matches!(StorageEntry::ReceiptCount(addr(BOB), 1).key(), StorageKey::ReceiptCount(r) if r == BOB));
}

#[test]
fn receipts_survive_other_calls_and_pay_once() {
    let mut escrow = EscrowContract::__constructor(addr(ADMIN));
    let first = ReceiptConfig::new(10, addr(ALICE), addr(TOKEN_A), after(100));
    escrow.deposit(addr(ALICE), addr(BOB), addr(TOKEN_A), 10, after(100), 0).unwrap();
    escrow.deposit(addr(ALICE), addr(BOB), addr(TOKEN_A), 20, before(100), 0).unwrap();
    // an early withdrawal of the first fails and keeps it
    assert_eq!(escrow.withdraw(addr(BOB), 1, 99, 0), Err(Error::TimePredicateUnfulfilled));
    assert!(escrow.withdraw(addr(BOB), 2, 50, 0).is_ok());
    escrow.set_admin(addr(BOB));
    escrow.deposit(addr(BOB), addr(ALICE), addr(TOKEN_A), 5, after(0), 0).unwrap();
    assert_eq!(escrow.withdraw(addr(BOB), 1, 100, 8), Ok((first, 8)));
    // later deposits never bring a paid-out receipt back
    escrow.deposit(addr(ALICE), addr(BOB), addr(TOKEN_A), 30, after(0), 0).unwrap();
    escrow.deposit(addr(ALICE), addr(BOB), addr(TOKEN_A), 40, after(0), 0).unwrap();
    assert_eq!(escrow.withdraw(addr(BOB), 1, 100, 0), Err(Error::NoReceiptsFound));
    assert_eq!(escrow.withdraw(addr(BOB), 2, 100, 0), Err(Error::NoReceiptsFound));
    assert_eq!(escrow.withdraw(addr(BOB), 3, 100, 0).map(|r| r.0.amount()), Ok(30));
    assert_eq!(escrow.withdraw(addr(BOB), 4, 100, 0).map(|r| r.0.amount()), Ok(40));
}

#[test]
fn admin_is_the_last_one_set() {
    let mut escrow = EscrowContract::__constructor(addr(ADMIN));
    escrow.deposit(addr(ALICE), addr(BOB), addr(TOKEN_A), 10, after(0), 0).unwrap();
    assert_eq!(escrow.admin(), ADMIN);
    escrow.set_admin(addr(ALICE));
    escrow.withdraw(addr(BOB), 1, 0, 0).unwrap();
    escrow.set_admin(addr(BOB));
    escrow.deposit(addr(ALICE), addr(BOB), addr(TOKEN_A), 10, after(0), 0).unwrap();
    assert_eq!(escrow.admin(), BOB);
}
