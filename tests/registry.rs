use wallet_factory::error::Error;
use wallet_factory::factory::{Factory, LeaseExtension};
use wallet_factory::types::{Passkey, WalletAddress, PASSKEY_LEN};

fn key(first: u8) -> Passkey {
    let mut bytes = [0u8; 65];
    bytes[0] = 4;
    bytes[1] = first;
    bytes[64] = first.wrapping_mul(3);
    Passkey::new(bytes)
}

fn addr(s: &str) -> WalletAddress {
    WalletAddress::new(s.to_string())
}

const ADDR_A: &str = "CA3D5KRYM6CB7OWQ6TWYRR3Z4T7GNZLKERYNZGGA5SOAOPIFY6YQGAXE";
const ADDR_B: &str = "CDLZFC3SYJYDZT7K67VZ75HPJVIEUVNIXF47ZG2FB2RMQQVU2HHGCYSC";

#[test]
fn initialize_twice_fails_second_time() {
    let mut f = Factory::new();
    assert_eq!(f.initialize(), Ok(()));
    assert!(f.is_initialized());
    assert_eq!(f.initialize(), Err(Error::AlreadyInited));
    assert!(f.is_initialized());
}

#[test]
fn second_initialize_keeps_bindings() {
    let mut f = Factory::new();
    assert_eq!(f.initialize(), Ok(()));
    assert_eq!(f.register_wallet(key(1), addr(ADDR_A)), Ok(()));
    assert_eq!(f.initialize(), Err(Error::AlreadyInited));
    assert_eq!(f.get_wallet_by_pk(key(1)), Ok(addr(ADDR_A)));
}

#[test]
fn fresh_registry_is_not_initialized() {
    let f = Factory::new();
    assert!(!f.is_initialized());
}

#[test]
fn register_before_initialize_fails() {
    let mut f = Factory::new();
    assert_eq!(f.register_wallet(key(1), addr(ADDR_A)), Err(Error::NotInited));
    assert!(!f.is_initialized());
    assert_eq!(f.initialize(), Ok(()));
    assert_eq!(f.get_wallet_by_pk(key(1)), Err(Error::PasskeyNotRegistered));
}

#[test]
fn lookup_before_initialize_fails() {
    let f = Factory::new();
    assert_eq!(f.get_wallet_by_pk(key(1)), Err(Error::NotInited));
}

#[test]
fn register_then_lookup_returns_address() {
    let mut f = Factory::new();
    assert_eq!(f.initialize(), Ok(()));
    assert_eq!(f.register_wallet(key(7), addr(ADDR_B)), Ok(()));
    let got = f.get_wallet_by_pk(key(7)).unwrap();
    assert_eq!(got.strkey, ADDR_B);
}

#[test]
fn double_registration_keeps_first_address() {
    let mut f = Factory::new();
    assert_eq!(f.initialize(), Ok(()));
    assert_eq!(f.register_wallet(key(2), addr(ADDR_A)), Ok(()));
    assert_eq!(f.register_wallet(key(2), addr(ADDR_B)), Err(Error::PasskeyAlreadyRegistered));
    assert_eq!(f.get_wallet_by_pk(key(2)), Ok(addr(ADDR_A)));
}

#[test]
fn same_address_twice_is_still_refused() {
    let mut f = Factory::new();
    assert_eq!(f.initialize(), Ok(()));
    assert_eq!(f.register_wallet(key(2), addr(ADDR_A)), Ok(()));
    assert_eq!(f.register_wallet(key(2), addr(ADDR_A)), Err(Error::PasskeyAlreadyRegistered));
}

#[test]
fn lookup_miss_reports_not_registered() {
    let mut f = Factory::new();
    assert_eq!(f.initialize(), Ok(()));
    assert_eq!(f.get_wallet_by_pk(key(9)), Err(Error::PasskeyNotRegistered));
    assert_eq!(f.register_wallet(key(8), addr(ADDR_A)), Ok(()));
    assert_eq!(f.get_wallet_by_pk(key(9)), Err(Error::PasskeyNotRegistered));
}

#[test]
fn keys_differing_in_last_byte_are_distinct() {
    let mut f = Factory::new();
    assert_eq!(f.initialize(), Ok(()));
    let mut a = [4u8; 65];
    let mut b = [4u8; 65];
    a[64] = 1;
    b[64] = 2;
    assert_eq!(f.register_wallet(Passkey::new(a), addr(ADDR_A)), Ok(()));
    assert_eq!(f.register_wallet(Passkey::new(b), addr(ADDR_B)), Ok(()));
    assert_eq!(f.get_wallet_by_pk(Passkey::new(a)), Ok(addr(ADDR_A)));
    assert_eq!(f.get_wallet_by_pk(Passkey::new(b)), Ok(addr(ADDR_B)));
}

#[test]
fn many_bindings_resolve_independently() {
    let mut f = Factory::new();
    assert_eq!(f.initialize(), Ok(()));
    for i in 0..50u8 {
        let a = format!("C{:055}", i);
        assert_eq!(f.register_wallet(key(i), addr(&a)), Ok(()));
    }
    for i in 0..50u8 {
        let a = format!("C{:055}", i);
        assert_eq!(f.get_wallet_by_pk(key(i)), Ok(addr(&a)));
    }
    assert_eq!(f.get_wallet_by_pk(key(50)), Err(Error::PasskeyNotRegistered));
}

#[test]
fn same_as_compares_every_byte() {
    assert!(key(3).same_as(&key(3)));
    assert!(!key(3).same_as(&key(4)));
    assert_eq!(PASSKEY_LEN, 65);
}

#[test]
fn duplicate_keeps_the_address() {
    let a = addr(ADDR_A);
    assert_eq!(a.duplicate(), a);
}

#[test]
fn extend_ttl_requests_the_maximum() {
    assert_eq!(Factory::extend_ttl(3_110_400), LeaseExtension { threshold: 3_110_400, extend_to: 3_110_400 });
}

#[test]
fn extend_ttl_leaves_state_unchanged() {
    let mut f = Factory::new();
    let _ = Factory::extend_ttl(100);
    assert!(!f.is_initialized());
    assert_eq!(f.initialize(), Ok(()));
    assert_eq!(f.register_wallet(key(1), addr(ADDR_A)), Ok(()));
    let _ = Factory::extend_ttl(100);
    let _ = Factory::extend_ttl(535_679);
    assert!(f.is_initialized());
    assert_eq!(f.get_wallet_by_pk(key(1)), Ok(addr(ADDR_A)));
    assert_eq!(f.get_wallet_by_pk(key(2)), Err(Error::PasskeyNotRegistered));
}

#[test]
fn end_to_end_scenario() {
    let mut f = Factory::new();
    let k1 = key(11);
    let k2 = key(12);
    assert_eq!(f.initialize(), Ok(()));
    assert_eq!(f.register_wallet(k1, addr(ADDR_A)), Ok(()));
    assert_eq!(f.get_wallet_by_pk(k1), Ok(addr(ADDR_A)));
    assert_eq!(f.register_wallet(k1, addr(ADDR_B)), Err(Error::PasskeyAlreadyRegistered));
    assert_eq!(f.get_wallet_by_pk(k2), Err(Error::PasskeyNotRegistered));
}

#[test]
fn restore_rebuilds_bindings() {
    let entries = vec![(key(1), addr(ADDR_A)), (key(2), addr(ADDR_B))];
    let f = Factory::restore(true, entries).unwrap();
    assert!(f.is_initialized());
    assert_eq!(f.get_wallet_by_pk(key(1)), Ok(addr(ADDR_A)));
    assert_eq!(f.get_wallet_by_pk(key(2)), Ok(addr(ADDR_B)));
    assert_eq!(f.get_wallet_by_pk(key(3)), Err(Error::PasskeyNotRegistered));
}

#[test]
fn restore_uninitialized_empty() {
    let f = Factory::restore(false, Vec::new()).unwrap();
    assert!(!f.is_initialized());
}

#[test]
fn restore_rejects_bindings_without_initialization() {
    assert!(Factory::restore(false, vec![(key(1), addr(ADDR_A))]).is_none());
}

#[test]
fn restore_rejects_repeated_key() {
    let entries = vec![(key(1), addr(ADDR_A)), (key(2), addr(ADDR_B)), (key(1), addr(ADDR_B))];
    assert!(Factory::restore(true, entries).is_none());
}
