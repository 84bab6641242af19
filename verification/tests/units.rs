use domain_registry::hashing::hash_of;
use domain_registry::ledger::{FixedClock, InMemoryLedger, Ledger};
use domain_registry::registry::Registry;
use domain_registry::types::{Error, Event};

fn setup() -> (Registry, FixedClock) {
    (Registry::new(16), FixedClock { timestamp: 9 })
}

#[test]
fn hash_is_deterministic_and_matches_known_values() {
    assert_eq!(hash_of(&Vec::new()), 0xcbf2_9ce4_8422_2325);
    assert_eq!(hash_of(&b"ab".to_vec()), 0x089c_4407_b545_986a);
    assert_eq!(hash_of(&b"alice.domain".to_vec()), 0x44bd_29b0_77b4_f75f);
    assert_eq!(
        hash_of(&b"alice.domain".to_vec()),
        hash_of(&b"alice.domain".to_vec())
    );
}

#[test]
fn minted_id_is_the_hash_of_the_name() {
    let (mut reg, clock) = setup();
    let id = reg.create_domain(&clock, 1, b"alice.domain".to_vec()).unwrap();
    assert_eq!(id, 0x44bd_29b0_77b4_f75f);
    assert!(reg.get_domain(id).is_some());
    assert!(reg.get_domain(id.wrapping_add(1)).is_none());
}

#[test]
fn ownership_queries_report_owner_and_existence() {
    let (mut reg, clock) = setup();
    let id = reg.create_domain(&clock, 1, b"alice.domain".to_vec()).unwrap();
    assert_eq!(reg.is_domain_owner(id, 1), Ok(true));
    assert_eq!(reg.is_domain_owner(id, 2), Ok(false));
    assert_eq!(reg.is_domain_owner(id.wrapping_add(1), 1), Err(Error::NotFound));
    assert_eq!(reg.is_domain_isset(id), Err(Error::AlreadyRegistered));
    assert_eq!(reg.is_domain_isset(id.wrapping_add(1)), Ok(true));
}

#[test]
fn owner_sets_wallet_and_event_is_emitted() {
    let (mut reg, clock) = setup();
    let id = reg.create_domain(&clock, 1, b"alice.domain".to_vec()).unwrap();
    assert!(reg.set_wallet(1, id, Some(b"payout".to_vec())).is_ok());
    assert_eq!(reg.get_domain(id).unwrap().wallet, Some(b"payout".to_vec()));
    assert_eq!(
        reg.events().last(),
        Some(&Event::WalletSet(1, id, Some(b"payout".to_vec())))
    );
    assert_eq!(reg.set_wallet(2, id, None), Err(Error::NotOwner));
    assert_eq!(reg.set_wallet(1, 7, None), Err(Error::NotFound));
    assert!(reg.set_wallet(1, id, None).is_ok());
    assert_eq!(reg.get_domain(id).unwrap().wallet, None);
}

#[test]
fn transfer_moves_id_between_ownership_lists() {
    let (mut reg, clock) = setup();
    let id = reg.create_domain(&clock, 1, b"alice.domain".to_vec()).unwrap();
    reg.set_price(1, id, Some(77)).unwrap();
    assert!(reg.transfer(1, 2, id).is_ok());
    let d = reg.get_domain(id).unwrap();
    assert_eq!(d.owner, 2);
    assert_eq!(d.price, None);
    assert_eq!(reg.owned_ids(1), Vec::<u64>::new());
    assert_eq!(reg.owned_ids(2), vec![id]);
    assert_eq!(reg.events().last(), Some(&Event::Transferred(1, 2, id)));
    assert_eq!(reg.get_domain_count(), 1);
}

#[test]
fn transfer_rejects_non_owner_self_and_missing() {
    let (mut reg, clock) = setup();
    let id = reg.create_domain(&clock, 1, b"alice.domain".to_vec()).unwrap();
    assert_eq!(reg.transfer(2, 3, id), Err(Error::NotOwner));
    assert_eq!(reg.transfer(1, 1, id), Err(Error::SelfTransfer));
    assert_eq!(reg.transfer(1, 2, id.wrapping_add(1)), Err(Error::NotFound));
    assert_eq!(reg.get_domain(id).unwrap().owner, 1);
}

#[test]
fn buy_rejects_missing_own_unpriced_and_poor() {
    let (mut reg, clock) = setup();
    let id = reg.create_domain(&clock, 1, b"alice.domain".to_vec()).unwrap();
    let mut ledger = InMemoryLedger::new();
    assert_eq!(
        reg.buy_domain(&mut ledger, 2, id.wrapping_add(1), 10),
        Err(Error::NotFound)
    );
    assert_eq!(reg.buy_domain(&mut ledger, 1, id, 10), Err(Error::BuyerIsOwner));
    assert_eq!(reg.buy_domain(&mut ledger, 2, id, 10), Err(Error::NotForSale));
    reg.set_price(1, id, Some(10)).unwrap();
    ledger.set_balance(2, 9);
    assert_eq!(
        reg.buy_domain(&mut ledger, 2, id, 10),
        Err(Error::InsufficientFunds)
    );
    assert_eq!(reg.get_domain(id).unwrap().owner, 1);
    assert_eq!(ledger.free_balance(2), 9);
}

#[test]
fn full_buyer_cannot_buy() {
    let (mut reg, clock) = (Registry::new(1), FixedClock { timestamp: 9 });
    let id1 = reg.create_domain(&clock, 1, b"alice.domain".to_vec()).unwrap();
    let id2 = reg.create_domain(&clock, 2, b"bob.domain".to_vec()).unwrap();
    reg.set_price(1, id1, Some(3)).unwrap();
    let mut ledger = InMemoryLedger::new();
    ledger.set_balance(2, 10);
    assert_eq!(
        reg.buy_domain(&mut ledger, 2, id1, 3),
        Err(Error::CapacityExceeded)
    );
    assert_eq!(reg.get_domain(id1).unwrap().owner, 1);
    assert_eq!(reg.owned_ids(2), vec![id2]);
    assert_eq!(ledger.free_balance(2), 10);
}

#[test]
fn buy_moves_the_ask_price_between_balances() {
    let (mut reg, clock) = setup();
    let id = reg.create_domain(&clock, 1, b"alice.domain".to_vec()).unwrap();
    reg.set_price(1, id, Some(30)).unwrap();
    let mut ledger = InMemoryLedger::new();
    ledger.set_balance(1, 5);
    ledger.set_balance(2, 100);
    assert!(reg.buy_domain(&mut ledger, 2, id, 50).is_ok());
    assert_eq!(ledger.free_balance(1), 35);
    assert_eq!(ledger.free_balance(2), 70);
    assert_eq!(reg.events().last(), Some(&Event::Bought(2, 1, id, 30)));
}

#[test]
fn counter_tracks_the_number_of_records() {
    let (mut reg, clock) = setup();
    assert_eq!(reg.get_domain_count(), 0);
    reg.create_domain(&clock, 1, b"a".to_vec()).unwrap();
    reg.create_domain(&clock, 1, b"b".to_vec()).unwrap();
    reg.create_domain(&clock, 2, b"c".to_vec()).unwrap();
    assert_eq!(reg.get_domain_count(), 3);
    assert_eq!(reg.owned_ids(1).len(), 2);
    assert_eq!(reg.owned_ids(2).len(), 1);
}

#[test]
fn ledger_transfers_are_atomic() {
    let mut ledger = InMemoryLedger::new();
    ledger.set_balance(1, 40);
    assert_eq!(ledger.transfer(1, 2, 50), Err(()));
    assert_eq!(ledger.free_balance(1), 40);
    assert_eq!(ledger.free_balance(2), 0);
    assert_eq!(ledger.transfer(1, 2, 15), Ok(()));
    assert_eq!(ledger.free_balance(1), 25);
    assert_eq!(ledger.free_balance(2), 15);
}
