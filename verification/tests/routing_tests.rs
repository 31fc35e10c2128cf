use ilp_store::account::AccountDetails;
use ilp_store::errors::StoreError;
use ilp_store::keys::{account_details_key, balance_key};
use ilp_store::store::Store;
use ilp_store::sync::{poll_tick, TickAction, POLL_INTERVAL};

fn details(prefix: &str, asset: &str) -> AccountDetails {
    AccountDetails {
        ilp_address: prefix.as_bytes().to_vec(),
        asset_code: asset.to_string(),
        min_balance: None,
        max_balance: None,
        btp_incoming_authorization: None,
        http_incoming_authorization: None,
        xrp_address: None,
        send_routes: false,
    }
}

fn store_with_accounts(n: u64) -> Store {
    let mut store = Store::new();
    for i in 0..n {
        store
            .insert_account(details(&format!("g.acct{}", i), "USD"))
            .unwrap();
    }
    store
}

#[test]
fn static_route_to_missing_account_is_rejected() {
    let mut store = Store::new();
    let before = store.routing_table();
    let err = store
        .set_static_route("g.eu.bank".to_string(), 999)
        .unwrap_err();
    assert_eq!(err, StoreError::NotFound);
    // the static route table is unchanged
    let after = store.routing_table();
    assert!(after.get(&b"g.eu.bank".to_vec()).is_none());
    assert!(before.get(&b"g.eu.bank".to_vec()).is_none());
    let (_local, configured) = store.get_local_and_configured_routes();
    assert!(configured.is_empty());
}

#[test]
fn static_route_wins_over_dynamic_route() {
    let mut store = store_with_accounts(8);
    let three = store.account_at(3).unwrap();
    store.set_routes(vec![(b"g.eu".to_vec(), three)]);
    assert_eq!(store.routing_table().get(&b"g.eu".to_vec()), Some(3));

    store.set_static_route("g.eu".to_string(), 7).unwrap();
    assert_eq!(store.routing_table().get(&b"g.eu".to_vec()), Some(7));
}

#[test]
fn registration_adds_a_route_for_the_account_prefix() {
    let mut store = Store::new();
    let a = store.insert_account(details("g.mine", "USD")).unwrap();
    // visible without waiting for a poll tick: registration refreshes
    assert_eq!(store.routing_table().get(&b"g.mine".to_vec()), Some(a.id));
}

#[test]
fn set_routes_replaces_the_dynamic_table_wholesale() {
    let mut store = store_with_accounts(2);
    let zero = store.account_at(0).unwrap();
    let one = store.account_at(1).unwrap();
    store.set_routes(vec![(b"g.old".to_vec(), zero)]);
    assert!(store.routing_table().get(&b"g.old".to_vec()).is_some());
    store.set_routes(vec![(b"g.new".to_vec(), one)]);
    assert!(store.routing_table().get(&b"g.old".to_vec()).is_none());
    assert_eq!(store.routing_table().get(&b"g.new".to_vec()), Some(1));
}

#[test]
fn invalid_route_keys_are_silently_dropped() {
    let mut store = store_with_accounts(1);
    let zero = store.account_at(0).unwrap();
    let invalid = vec![0xffu8, 0xfe];
    store.set_routes(vec![
        (invalid.clone(), zero.duplicate()),
        (b"g.ok".to_vec(), zero),
    ]);
    let table = store.routing_table();
    assert!(table.get(&invalid).is_none());
    assert_eq!(table.get(&b"g.ok".to_vec()), Some(0));
}

#[test]
fn bulk_static_routes_check_every_target() {
    let mut store = store_with_accounts(2);
    let err = store
        .set_static_routes(vec![
            ("g.one".to_string(), 0),
            ("g.missing".to_string(), 42),
        ])
        .unwrap_err();
    assert_eq!(err, StoreError::NotFound);
    assert!(store.routing_table().get(&b"g.one".to_vec()).is_none());

    store
        .set_static_routes(vec![("g.one".to_string(), 0), ("g.two".to_string(), 1)])
        .unwrap();
    assert_eq!(store.routing_table().get(&b"g.one".to_vec()), Some(0));
    assert_eq!(store.routing_table().get(&b"g.two".to_vec()), Some(1));

    // the bulk form replaces the static table wholesale
    store
        .set_static_routes(vec![("g.two".to_string(), 1)])
        .unwrap();
    assert!(store.routing_table().get(&b"g.one".to_vec()).is_none());
}

#[test]
fn single_static_route_merges_into_the_table() {
    let mut store = store_with_accounts(2);
    store.set_static_route("g.one".to_string(), 0).unwrap();
    store.set_static_route("g.two".to_string(), 1).unwrap();
    // the single form merges instead of replacing
    assert_eq!(store.routing_table().get(&b"g.one".to_vec()), Some(0));
    assert_eq!(store.routing_table().get(&b"g.two".to_vec()), Some(1));
}

#[test]
fn routing_table_returns_a_stale_snapshot() {
    let mut store = store_with_accounts(1);
    let snapshot = store.routing_table();
    store.set_static_route("g.later".to_string(), 0).unwrap();
    assert!(snapshot.get(&b"g.later".to_vec()).is_none());
    assert!(store.routing_table().get(&b"g.later".to_vec()).is_some());
}

#[test]
fn local_and_configured_routes_list_owned_and_static_routes() {
    let mut store = Store::new();
    let a = store.insert_account(details("g.alpha", "USD")).unwrap();
    let b = store.insert_account(details("g.beta", "USD")).unwrap();
    store.set_static_route("g.cfg".to_string(), b.id).unwrap();

    let (local, configured) = store.get_local_and_configured_routes();
    assert_eq!(local.len(), 2);
    assert!(local
        .iter()
        .any(|(p, acct)| p == b"g.alpha" && acct.id == a.id));
    assert!(local
        .iter()
        .any(|(p, acct)| p == b"g.beta" && acct.id == b.id));
    assert_eq!(configured.len(), 1);
    assert_eq!(configured[0].0, b"g.cfg".to_vec());
    assert_eq!(configured[0].1.id, b.id);
}

#[test]
fn key_naming_follows_the_backend_layout() {
    assert_eq!(account_details_key(0), "accounts:0");
    assert_eq!(account_details_key(42), "accounts:42");
    assert_eq!(account_details_key(18_446_744_073_709_551_615), format!("accounts:{}", u64::MAX));
    assert_eq!(balance_key("USD"), "balances:usd");
    assert_eq!(balance_key("xrp"), "balances:xrp");
}

#[test]
fn poll_tick_refreshes_until_the_store_is_gone() {
    assert_eq!(poll_tick(true), TickAction::Refresh);
    assert_eq!(poll_tick(false), TickAction::Stop);
    assert_eq!(POLL_INTERVAL, 60_000);
}
