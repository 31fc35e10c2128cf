use ilp_store::account::AccountDetails;
use ilp_store::errors::{ConflictField, StoreError};
use ilp_store::store::Store;

fn details(prefix: &str, asset: &str) -> AccountDetails {
    AccountDetails {
        ilp_address: prefix.as_bytes().to_vec(),
        asset_code: asset.to_string(),
        min_balance: None,
        max_balance: None,
        btp_incoming_authorization: None,
        http_incoming_authorization: None,
        xrp_address: None,
        send_routes: false,
    }
}

#[test]
fn sequential_ids_strictly_increase() {
    let mut store = Store::new();
    let a = store.insert_account(details("g.one", "USD")).unwrap();
    let b = store.insert_account(details("g.two", "USD")).unwrap();
    let c = store.insert_account(details("g.three", "EUR")).unwrap();
    assert_eq!(a.id, 0);
    assert_eq!(b.id, 1);
    assert_eq!(c.id, 2);
    assert!(a.id < b.id && b.id < c.id);
}

#[test]
fn rejected_registration_burns_its_id() {
    let mut store = Store::new();
    let mut first = details("g.first", "USD");
    first.btp_incoming_authorization = Some("token-a".to_string());
    let a = store.insert_account(first).unwrap();
    assert_eq!(a.id, 0);

    let mut dup = details("g.dup", "USD");
    dup.btp_incoming_authorization = Some("token-a".to_string());
    let err = store.insert_account(dup).unwrap_err();
    assert_eq!(err, StoreError::Conflict(ConflictField::BtpAuth));

    // the burned id is never reused
    let c = store.insert_account(details("g.next", "USD")).unwrap();
    assert_eq!(c.id, 2);
    assert!(store.account_at(1).is_none());
}

#[test]
fn rejected_registration_leaves_no_trace() {
    let mut store = Store::new();
    let mut first = details("g.first", "USD");
    first.http_incoming_authorization = Some("secret".to_string());
    store.insert_account(first).unwrap();

    let mut dup = details("g.ghost", "USD");
    dup.http_incoming_authorization = Some("secret".to_string());
    dup.btp_incoming_authorization = Some("fresh-btp".to_string());
    dup.xrp_address = Some("rGhost".to_string());
    let err = store.insert_account(dup).unwrap_err();
    assert_eq!(err, StoreError::Conflict(ConflictField::HttpAuth));

    // no account record, no index entry, no route from the rejected one
    assert_eq!(store.get_all_accounts().len(), 1);
    assert!(store.account_at(1).is_none());
    assert!(store.get_account_from_btp_token("fresh-btp").is_err());
    let table = store.routing_table();
    assert!(table.get(&b"g.ghost".to_vec()).is_none());
    assert!(table.get(&b"g.first".to_vec()).is_some());
}

#[test]
fn conflict_precedence_names_btp_first() {
    let mut store = Store::new();
    let mut first = details("g.first", "USD");
    first.btp_incoming_authorization = Some("b".to_string());
    first.http_incoming_authorization = Some("h".to_string());
    first.xrp_address = Some("x".to_string());
    store.insert_account(first).unwrap();

    let mut dup = details("g.dup", "USD");
    dup.btp_incoming_authorization = Some("b".to_string());
    dup.http_incoming_authorization = Some("h".to_string());
    dup.xrp_address = Some("x".to_string());
    let err = store.insert_account(dup).unwrap_err();
    assert_eq!(err, StoreError::Conflict(ConflictField::BtpAuth));
}

#[test]
fn duplicate_settlement_address_is_rejected() {
    let mut store = Store::new();
    let mut first = details("g.first", "USD");
    first.xrp_address = Some("rSettle".to_string());
    store.insert_account(first).unwrap();

    let mut dup = details("g.dup", "USD");
    dup.xrp_address = Some("rSettle".to_string());
    let err = store.insert_account(dup).unwrap_err();
    assert_eq!(err, StoreError::Conflict(ConflictField::SettlementAddress));
}

#[test]
fn insufficient_balance_leaves_balances_unchanged() {
    let mut store = Store::new();
    let mut da = details("g.a", "USD");
    da.min_balance = Some(0);
    let a = store.insert_account(da).unwrap();
    let b = store.insert_account(details("g.b", "USD")).unwrap();

    // seed: debit b (no minimum configured) to credit a with 1000
    store.update_balances(&b, 1000, &a, 1000).unwrap();
    assert_eq!(store.get_balance(&a), 1000);
    assert_eq!(store.get_balance(&b), -1000);

    let err = store.update_balances(&a, 1500, &b, 1500).unwrap_err();
    assert_eq!(err, StoreError::InsufficientBalance);
    assert_eq!(store.get_balance(&a), 1000);
    assert_eq!(store.get_balance(&b), -1000);
}

#[test]
fn transfer_debits_and_credits_exactly() {
    let mut store = Store::new();
    let a = store.insert_account(details("g.a", "USD")).unwrap();
    let b = store.insert_account(details("g.b", "EUR")).unwrap();
    store.update_balances(&a, 250, &b, 240).unwrap();
    assert_eq!(store.get_balance(&a), -250);
    assert_eq!(store.get_balance(&b), 240);
}

#[test]
fn undo_restores_pre_transfer_balances() {
    let mut store = Store::new();
    let mut da = details("g.a", "USD");
    da.min_balance = Some(-500);
    let a = store.insert_account(da).unwrap();
    let b = store.insert_account(details("g.b", "USD")).unwrap();

    store.update_balances(&a, 200, &b, 200).unwrap();
    assert_eq!(store.get_balance(&a), -200);
    assert_eq!(store.get_balance(&b), 200);

    store.undo_balance_update(&a, 200, &b, 200);
    assert_eq!(store.get_balance(&a), 0);
    assert_eq!(store.get_balance(&b), 0);
}

#[test]
fn transfers_commute() {
    // the same two transfers, applied in either order, end in the same
    // balances
    let run = |first_then_second: bool| {
        let mut store = Store::new();
        let a = store.insert_account(details("g.a", "USD")).unwrap();
        let b = store.insert_account(details("g.b", "USD")).unwrap();
        let c = store.insert_account(details("g.c", "USD")).unwrap();
        if first_then_second {
            store.update_balances(&a, 100, &b, 100).unwrap();
            store.update_balances(&c, 50, &b, 40).unwrap();
        } else {
            store.update_balances(&c, 50, &b, 40).unwrap();
            store.update_balances(&a, 100, &b, 100).unwrap();
        }
        (
            store.get_balance(&a),
            store.get_balance(&b),
            store.get_balance(&c),
        )
    };
    assert_eq!(run(true), run(false));
    assert_eq!(run(true), (-100, 140, -50));
}

#[test]
fn balances_are_kept_per_canonicalized_asset() {
    let mut store = Store::new();
    let a = store.insert_account(details("g.a", "UsD")).unwrap();
    let b = store.insert_account(details("g.b", "usd")).unwrap();
    store.update_balances(&a, 10, &b, 10).unwrap();
    // both ledgers live under the lowercase asset code
    assert_eq!(store.get_balance(&a), -10);
    assert_eq!(store.get_balance(&b), 10);
}

#[test]
fn get_accounts_is_all_or_nothing() {
    let mut store = Store::new();
    let a = store.insert_account(details("g.a", "USD")).unwrap();
    let b = store.insert_account(details("g.b", "USD")).unwrap();

    let got = store.get_accounts(vec![b.id, a.id]).unwrap();
    assert_eq!(got.len(), 2);
    assert_eq!(got[0].id, b.id);
    assert_eq!(got[1].id, a.id);

    let err = store.get_accounts(vec![a.id, b.id, 99]).unwrap_err();
    assert_eq!(err, StoreError::CountMismatch);

    assert!(store.get_accounts(vec![]).unwrap().is_empty());
}

#[test]
fn get_all_accounts_returns_records_in_id_order() {
    let mut store = Store::new();
    let mut first = details("g.a", "USD");
    first.btp_incoming_authorization = Some("t".to_string());
    store.insert_account(first).unwrap();
    // burn an id
    let mut dup = details("g.dup", "USD");
    dup.btp_incoming_authorization = Some("t".to_string());
    assert!(store.insert_account(dup).is_err());
    store.insert_account(details("g.c", "USD")).unwrap();

    let all = store.get_all_accounts();
    assert_eq!(all.len(), 2);
    assert_eq!(all[0].id, 0);
    assert_eq!(all[1].id, 2);
}

#[test]
fn credential_lookup_finds_the_owning_account() {
    let mut store = Store::new();
    let mut da = details("g.a", "USD");
    da.btp_incoming_authorization = Some("btp-secret".to_string());
    da.http_incoming_authorization = Some("http-secret".to_string());
    let a = store.insert_account(da).unwrap();
    store.insert_account(details("g.b", "USD")).unwrap();

    let by_btp = store.get_account_from_btp_token("btp-secret").unwrap();
    assert_eq!(by_btp.id, a.id);
    let by_http = store.get_account_from_http_auth("http-secret").unwrap();
    assert_eq!(by_http.id, a.id);

    assert_eq!(
        store.get_account_from_btp_token("missing").unwrap_err(),
        StoreError::NotFound
    );
    assert_eq!(
        store.get_account_from_http_auth("btp-secret").unwrap_err(),
        StoreError::NotFound
    );
}

#[test]
fn broadcast_set_holds_only_flagged_accounts() {
    let mut store = Store::new();
    let mut da = details("g.a", "USD");
    da.send_routes = true;
    let a = store.insert_account(da).unwrap();
    store.insert_account(details("g.b", "USD")).unwrap();
    let mut dc = details("g.c", "USD");
    dc.send_routes = true;
    let c = store.insert_account(dc).unwrap();

    let flagged = store.get_accounts_to_send_routes_to();
    assert_eq!(flagged.len(), 2);
    assert_eq!(flagged[0].id, a.id);
    assert_eq!(flagged[1].id, c.id);
}

#[test]
fn exchange_rates_are_all_or_nothing() {
    let mut store = Store::new();
    store.set_rates(vec![
        ("USD".to_string(), 1.0f64.to_bits()),
        ("EUR".to_string(), 0.9f64.to_bits()),
    ]);
    let rates = store
        .get_exchange_rates(&vec!["USD".to_string(), "EUR".to_string()])
        .unwrap();
    assert_eq!(f64::from_bits(rates[0]), 1.0);
    assert_eq!(f64::from_bits(rates[1]), 0.9);

    let err = store
        .get_exchange_rates(&vec!["USD".to_string(), "GBP".to_string()])
        .unwrap_err();
    assert_eq!(err, StoreError::CountMismatch);
}

#[test]
fn set_rates_replaces_the_whole_table() {
    let mut store = Store::new();
    store.set_rates(vec![
        ("USD".to_string(), 1.0f64.to_bits()),
        ("GBP".to_string(), 1.3f64.to_bits()),
    ]);
    assert!(store.get_exchange_rates(&vec!["GBP".to_string()]).is_ok());
    store.set_rates(vec![("USD".to_string(), 1.0f64.to_bits())]);
    // the dropped rate disappears: no partial merge survives
    assert!(store.get_exchange_rates(&vec!["GBP".to_string()]).is_err());
}

#[test]
fn occupied_balance_slot_blocks_the_next_id() {
    let mut store = Store::new();
    // a transfer may touch an account id that was never registered; the
    // slot it writes then collides with the next registration
    let phantom = ilp_store::account::Account {
        id: 0,
        ilp_address: b"g.phantom".to_vec(),
        asset_code: "USD".to_string(),
        min_balance: None,
        max_balance: None,
        btp_incoming_authorization: None,
        http_incoming_authorization: None,
        xrp_address: None,
        send_routes: false,
    };
    let sink = ilp_store::account::Account {
        id: 7,
        ..phantom.duplicate()
    };
    store.update_balances(&phantom, 5, &sink, 5).unwrap();
    let err = store.insert_account(details("g.new", "USD")).unwrap_err();
    assert_eq!(err, StoreError::Conflict(ConflictField::IdSlot));
    // a different asset's ledger has no such slot, so that registration
    // goes through, under the next id
    let a = store.insert_account(details("g.eur", "EUR")).unwrap();
    assert_eq!(a.id, 1);
}

#[test]
fn overdraft_check_reads_the_registered_minimum() {
    let mut store = Store::new();
    let mut da = details("g.a", "USD");
    da.min_balance = Some(0);
    let a = store.insert_account(da).unwrap();
    let b = store.insert_account(details("g.b", "USD")).unwrap();

    // the caller cannot weaken the bound by editing its own copy of the
    // record: the registered minimum governs
    let mut forged = a.duplicate();
    forged.min_balance = None;
    let err = store.update_balances(&forged, 1, &b, 1).unwrap_err();
    assert_eq!(err, StoreError::InsufficientBalance);
    assert_eq!(store.get_balance(&a), 0);
    assert_eq!(store.get_balance(&b), 0);
}

#[test]
fn account_without_minimum_may_go_negative() {
    let mut store = Store::new();
    let a = store.insert_account(details("g.a", "USD")).unwrap();
    let b = store.insert_account(details("g.b", "USD")).unwrap();
    store.update_balances(&a, 1_000_000, &b, 999_000).unwrap();
    assert_eq!(store.get_balance(&a), -1_000_000);
    assert_eq!(store.get_balance(&b), 999_000);
}
