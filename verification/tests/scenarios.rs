use domain_registry::ledger::{FixedClock, InMemoryLedger, Ledger};
use domain_registry::registry::Registry;
use domain_registry::types::{Error, Event};

const A1: u64 = 1;
const A2: u64 = 2;

fn setup() -> (Registry, FixedClock) {
    (Registry::new(16), FixedClock { timestamp: 42 })
}

#[test]
fn mint_creates_record_owned_by_sender() {
    let (mut reg, clock) = setup();
    let id = reg.create_domain(&clock, A1, b"alice.domain".to_vec()).unwrap();
    let d = reg.get_domain(id).unwrap();
    assert_eq!(d.owner, A1);
    assert_eq!(d.price, None);
    assert_eq!(d.name, b"alice.domain".to_vec());
    assert_eq!(d.created_at, 42);
    assert_eq!(reg.get_domain_count(), 1);
    assert_eq!(reg.owned_ids(A1), vec![id]);
    assert_eq!(reg.events().last(), Some(&Event::Created(A1, id)));
}

#[test]
fn owner_sets_price_and_event_is_emitted() {
    let (mut reg, clock) = setup();
    let id = reg.create_domain(&clock, A1, b"alice.domain".to_vec()).unwrap();
    assert!(reg.set_price(A1, id, Some(100)).is_ok());
    assert_eq!(reg.get_domain(id).unwrap().price, Some(100));
    assert_eq!(reg.events().last(), Some(&Event::PriceSet(A1, id, Some(100))));
}

#[test]
fn non_owner_cannot_set_price_and_state_is_unchanged() {
    let (mut reg, clock) = setup();
    let id = reg.create_domain(&clock, A1, b"alice.domain".to_vec()).unwrap();
    reg.set_price(A1, id, Some(100)).unwrap();
    let events_before = reg.events().len();
    assert_eq!(reg.set_price(A2, id, Some(7)), Err(Error::NotOwner));
    assert_eq!(reg.get_domain(id).unwrap().price, Some(100));
    assert_eq!(reg.get_domain(id).unwrap().owner, A1);
    assert_eq!(reg.events().len(), events_before);
}

#[test]
fn buying_at_price_zero_moves_ownership_and_resets_price() {
    let (mut reg, clock) = setup();
    let id = reg.create_domain(&clock, A1, b"alice.domain".to_vec()).unwrap();
    reg.set_price(A1, id, Some(0)).unwrap();
    let mut ledger = InMemoryLedger::new();
    ledger.set_balance(A1, 10);
    ledger.set_balance(A2, 10);
    assert!(reg.buy_domain(&mut ledger, A2, id, 0).is_ok());
    let d = reg.get_domain(id).unwrap();
    assert_eq!(d.owner, A2);
    assert_eq!(d.price, None);
    assert_eq!(ledger.free_balance(A1), 10);
    assert_eq!(ledger.free_balance(A2), 10);
    assert_eq!(reg.events().last(), Some(&Event::Bought(A2, A1, id, 0)));
    assert_eq!(reg.owned_ids(A1), Vec::<u64>::new());
    assert_eq!(reg.owned_ids(A2), vec![id]);
}

#[test]
fn bid_below_ask_fails_and_changes_nothing() {
    let (mut reg, clock) = setup();
    let id = reg.create_domain(&clock, A1, b"alice.domain".to_vec()).unwrap();
    reg.set_price(A1, id, Some(100)).unwrap();
    let mut ledger = InMemoryLedger::new();
    ledger.set_balance(A2, 500);
    assert_eq!(reg.buy_domain(&mut ledger, A2, id, 2), Err(Error::BidTooLow));
    assert_eq!(reg.get_domain(id).unwrap().owner, A1);
    assert_eq!(reg.get_domain(id).unwrap().price, Some(100));
    assert_eq!(ledger.free_balance(A1), 0);
    assert_eq!(ledger.free_balance(A2), 500);
}

#[test]
fn full_account_cannot_mint_or_receive() {
    let (mut reg, clock) = (Registry::new(1), FixedClock { timestamp: 42 });
    let id1 = reg.create_domain(&clock, A1, b"alice.domain".to_vec()).unwrap();
    let events_before = reg.events().len();
    assert_eq!(
        reg.create_domain(&clock, A1, b"bob.domain".to_vec()),
        Err(Error::CapacityExceeded)
    );
    assert_eq!(reg.get_domain_count(), 1);
    assert_eq!(reg.owned_ids(A1), vec![id1]);
    assert_eq!(reg.events().len(), events_before);

    let id2 = reg.create_domain(&clock, A2, b"bob.domain".to_vec()).unwrap();
    assert_eq!(reg.transfer(A2, A1, id2), Err(Error::CapacityExceeded));
    assert_eq!(reg.get_domain(id2).unwrap().owner, A2);
    assert_eq!(reg.owned_ids(A1), vec![id1]);
    assert_eq!(reg.owned_ids(A2), vec![id2]);
}

#[test]
fn payment_failure_rolls_back_everything() {
    let (mut reg, clock) = setup();
    let id = reg.create_domain(&clock, A1, b"alice.domain".to_vec()).unwrap();
    reg.set_price(A1, id, Some(5)).unwrap();
    let mut ledger = InMemoryLedger::new();
    ledger.set_balance(A1, u64::MAX);
    ledger.set_balance(A2, 100);
    let events_before = reg.events().len();
    assert_eq!(
        reg.buy_domain(&mut ledger, A2, id, 5),
        Err(Error::PaymentFailed)
    );
    assert_eq!(reg.get_domain(id).unwrap().owner, A1);
    assert_eq!(reg.get_domain(id).unwrap().price, Some(5));
    assert_eq!(ledger.free_balance(A1), u64::MAX);
    assert_eq!(ledger.free_balance(A2), 100);
    assert_eq!(reg.owned_ids(A1), vec![id]);
    assert_eq!(reg.owned_ids(A2), Vec::<u64>::new());
    assert_eq!(reg.events().len(), events_before);
}

#[test]
fn duplicate_mint_fails_and_changes_nothing() {
    let (mut reg, clock) = setup();
    let id = reg.create_domain(&clock, A1, b"alice.domain".to_vec()).unwrap();
    assert_eq!(
        reg.create_domain(&clock, A2, b"alice.domain".to_vec()),
        Err(Error::AlreadyRegistered)
    );
    assert_eq!(reg.get_domain_count(), 1);
    assert_eq!(reg.get_domain(id).unwrap().owner, A1);
    assert_eq!(reg.owned_ids(A2), Vec::<u64>::new());
}
