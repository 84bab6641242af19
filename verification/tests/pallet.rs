use domain_registry::ledger::{FixedClock, InMemoryLedger};
use domain_registry::registry::Registry;
use domain_registry::types::Error;

fn setup() -> (Registry, FixedClock) {
    (Registry::new(16), FixedClock { timestamp: 1 })
}

#[test]
fn should_working_create_kitty() {
    let (mut reg, clock) = setup();
    assert!(reg.create_domain(&clock, 1, b"alice.domain".to_vec()).is_ok());
}

#[test]
fn should_working_set_price() {
    let (mut reg, clock) = setup();
    reg.create_domain(&clock, 1, b"alice.domain".to_vec()).unwrap();
    let id = reg.owned_ids(1)[0];
    assert!(reg.set_price(1, id, Some(100)).is_ok());
}

#[test]
fn can_not_set_price() {
    let (mut reg, clock) = setup();
    reg.create_domain(&clock, 1, b"alice.domain".to_vec()).unwrap();
    let id = reg.owned_ids(1)[0];
    assert_eq!(reg.set_price(2, id, Some(100)), Err(Error::NotOwner));
}

#[test]
fn should_working_buy() {
    let (mut reg, clock) = setup();
    reg.create_domain(&clock, 1, b"alice.domain".to_vec()).unwrap();
    let id = reg.owned_ids(1)[0];
    reg.set_price(1, id, Some(0)).unwrap();
    let mut ledger = InMemoryLedger::new();
    assert!(reg.buy_domain(&mut ledger, 2, id, 0).is_ok());
}

#[test]
fn should_working_buy_to_low() {
    let (mut reg, clock) = setup();
    reg.create_domain(&clock, 1, b"alice.domain".to_vec()).unwrap();
    let id = reg.owned_ids(1)[0];
    reg.set_price(1, id, Some(100)).unwrap();
    let mut ledger = InMemoryLedger::new();
    assert_eq!(reg.buy_domain(&mut ledger, 2, id, 2), Err(Error::BidTooLow));
}
