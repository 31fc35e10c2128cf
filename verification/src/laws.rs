//! Laws of the store: properties that relate several operations, proved
//! from the transition contracts alone.
use vstd::prelude::*;
use crate::account::{Account, AccountDetailsView, AccountView};
use crate::errors::StoreError;
use crate::ledger::{apply_delta, bal_of, lemma_bal_after_delta};
use crate::store::{
    StoreView, insert_account_transition, ledger_key, merged_routes, transfer_applied,
    transfer_fits, undo_applied, undo_balance_update_transition, undo_fits,
    update_balances_transition, view_wf,
};

verus! {

/// Sequentially registered accounts receive strictly increasing ids, and
/// an id issued by a later registration was never held by any earlier
/// account — ids are never reused, whether or not registrations in
/// between were rejected.
pub proof fn lemma_account_ids_strictly_increase(
    s0: StoreView,
    d1: AccountDetailsView,
    s1: StoreView,
    r1: Result<Account, StoreError>,
    d2: AccountDetailsView,
    s2: StoreView,
    r2: Result<Account, StoreError>,
)
    requires
        view_wf(s0),
        insert_account_transition(s0, d1, s1, r1),
        insert_account_transition(s1, d2, s2, r2),
        r2 is Ok,
    ensures
        r1 is Ok ==> (r2->Ok_0).id > (r1->Ok_0).id,
        !s0.accounts.contains_key((r2->Ok_0).id),
        !s1.accounts.contains_key((r2->Ok_0).id),
{
    let id2 = (r2->Ok_0).id;
    assert(id2 as nat == s1.next_account_id);
    assert(s1.next_account_id == s0.next_account_id + 1);
    if s0.accounts.contains_key(id2) {
        assert((id2 as nat) < s0.next_account_id);
    }
    if s1.accounts.contains_key(id2) {
        if r1 is Ok {
            assert(s1.accounts == s0.accounts.insert((r1->Ok_0).id, (r1->Ok_0)@));
            if id2 != (r1->Ok_0).id {
                assert(s0.accounts.contains_key(id2));
            }
        } else {
            assert(s1.accounts == s0.accounts);
        }
        assert(false);
    }
}

/// A rejected registration commits nothing: no account record, balance
/// slot, index entry or route attributable to it exists afterwards; only
/// the id allocation counter has moved, burning the id.
pub proof fn lemma_rejected_registration_leaves_no_trace(
    s0: StoreView,
    d: AccountDetailsView,
    s1: StoreView,
    r: Result<Account, StoreError>,
)
    requires
        insert_account_transition(s0, d, s1, r),
        r is Err,
    ensures
        s1.accounts == s0.accounts,
        s1.balances == s0.balances,
        s1.dynamic_routes == s0.dynamic_routes,
        s1.static_routes == s0.static_routes,
        s1.routes_cache == s0.routes_cache,
        s1.rates_backend == s0.rates_backend,
        s1.rates_cache == s0.rates_cache,
        s1.next_account_id == s0.next_account_id + 1,
{
}

/// A successful transfer moves each balance by exactly the signed sum of
/// the deltas aimed at it, whatever else the ledger holds.
pub proof fn lemma_transfer_applied_bal(
    m: Map<(Seq<char>, u64), i64>,
    from: AccountView,
    incoming_amount: u64,
    to: AccountView,
    outgoing_amount: u64,
    x: (Seq<char>, u64),
)
    requires
        i64::MIN <= bal_of(m, ledger_key(from)) - incoming_amount,
        bal_of(apply_delta(m, ledger_key(from), -(incoming_amount as int)), ledger_key(to))
            + outgoing_amount <= i64::MAX,
    ensures
        bal_of(transfer_applied(m, from, incoming_amount, to, outgoing_amount), x) == bal_of(m, x)
            + (if x == ledger_key(from) {
            -(incoming_amount as int)
        } else {
            0
        }) + (if x == ledger_key(to) {
            outgoing_amount as int
        } else {
            0
        }),
{
    let kf = ledger_key(from);
    let kt = ledger_key(to);
    let mid = apply_delta(m, kf, -(incoming_amount as int));
    lemma_bal_after_delta(m, kf, -(incoming_amount as int), x);
    lemma_bal_after_delta(m, kf, -(incoming_amount as int), kt);
    lemma_bal_after_delta(mid, kt, outgoing_amount as int, x);
}

/// As `lemma_transfer_applied_bal`, for the compensating rollback.
pub proof fn lemma_undo_applied_bal(
    m: Map<(Seq<char>, u64), i64>,
    from: AccountView,
    incoming_amount: u64,
    to: AccountView,
    outgoing_amount: u64,
    x: (Seq<char>, u64),
)
    requires
        bal_of(m, ledger_key(from)) + incoming_amount <= i64::MAX,
        i64::MIN <= bal_of(apply_delta(m, ledger_key(from), incoming_amount as int), ledger_key(to))
            - outgoing_amount,
    ensures
        bal_of(undo_applied(m, from, incoming_amount, to, outgoing_amount), x) == bal_of(m, x) + (
        if x == ledger_key(from) {
            incoming_amount as int
        } else {
            0
        }) + (if x == ledger_key(to) {
            -(outgoing_amount as int)
        } else {
            0
        }),
{
    let kf = ledger_key(from);
    let kt = ledger_key(to);
    let mid = apply_delta(m, kf, incoming_amount as int);
    lemma_bal_after_delta(m, kf, incoming_amount as int, x);
    lemma_bal_after_delta(m, kf, incoming_amount as int, kt);
    lemma_bal_after_delta(mid, kt, -(outgoing_amount as int), x);
}

/// Transfers commute: when two transfers both succeed in either order,
/// the two orders end in the same state — each balance is the starting
/// balance plus the signed sum of the deltas aimed at it, so the final
/// ledgers of any sequence of successful transfers do not depend on the
/// order the backend serialized them in.
pub proof fn lemma_transfers_commute(
    s0: StoreView,
    f1: AccountView,
    in1: u64,
    t1: AccountView,
    out1: u64,
    f2: AccountView,
    in2: u64,
    t2: AccountView,
    out2: u64,
    sa1: StoreView,
    sa2: StoreView,
    sb1: StoreView,
    sb2: StoreView,
)
    requires
        update_balances_transition(s0, f1, in1, t1, out1, sa1, Ok::<(), StoreError>(())),
        update_balances_transition(sa1, f2, in2, t2, out2, sa2, Ok::<(), StoreError>(())),
        update_balances_transition(s0, f2, in2, t2, out2, sb1, Ok::<(), StoreError>(())),
        update_balances_transition(sb1, f1, in1, t1, out1, sb2, Ok::<(), StoreError>(())),
        transfer_fits(s0, f1, in1, t1, out1),
        transfer_fits(sa1, f2, in2, t2, out2),
        transfer_fits(s0, f2, in2, t2, out2),
        transfer_fits(sb1, f1, in1, t1, out1),
    ensures
        sa2 == sb2,
{
    assert forall|x: (Seq<char>, u64)| #[trigger] bal_of(sa2.balances, x) == bal_of(
        sb2.balances,
        x,
    ) && (sa2.balances.contains_key(x) <==> sb2.balances.contains_key(x)) by {
        lemma_transfer_applied_bal(s0.balances, f1, in1, t1, out1, x);
        lemma_transfer_applied_bal(sa1.balances, f2, in2, t2, out2, x);
        lemma_transfer_applied_bal(s0.balances, f2, in2, t2, out2, x);
        lemma_transfer_applied_bal(sb1.balances, f1, in1, t1, out1, x);
    }
    assert forall|x: (Seq<char>, u64)|
        sa2.balances.contains_key(x) implies #[trigger] sa2.balances[x] == sb2.balances[x] by {
        assert(bal_of(sa2.balances, x) == bal_of(sb2.balances, x));
    }
    assert(sa2.balances =~= sb2.balances);
    assert(sa2 =~~= sb2);
}

/// A rollback issued right after the transfer it compensates restores
/// every balance to its pre-transfer value exactly, and touches nothing
/// else.
pub proof fn lemma_undo_restores_balances(
    s0: StoreView,
    from: AccountView,
    incoming_amount: u64,
    to: AccountView,
    outgoing_amount: u64,
    s1: StoreView,
    s2: StoreView,
)
    requires
        update_balances_transition(
            s0,
            from,
            incoming_amount,
            to,
            outgoing_amount,
            s1,
            Ok::<(), StoreError>(()),
        ),
        undo_balance_update_transition(s1, from, incoming_amount, to, outgoing_amount, s2),
        transfer_fits(s0, from, incoming_amount, to, outgoing_amount),
        undo_fits(s1, from, incoming_amount, to, outgoing_amount),
    ensures
        forall|k: (Seq<char>, u64)| #[trigger]
            bal_of(s2.balances, k) == bal_of(s0.balances, k),
        s2.accounts == s0.accounts,
        s2.next_account_id == s0.next_account_id,
        s2.dynamic_routes == s0.dynamic_routes,
        s2.static_routes == s0.static_routes,
        s2.routes_cache == s0.routes_cache,
        s2.rates_backend == s0.rates_backend,
        s2.rates_cache == s0.rates_cache,
{
    assert forall|k: (Seq<char>, u64)| #[trigger]
        bal_of(s2.balances, k) == bal_of(s0.balances, k) by {
        lemma_transfer_applied_bal(s0.balances, from, incoming_amount, to, outgoing_amount, k);
        lemma_undo_applied_bal(s1.balances, from, incoming_amount, to, outgoing_amount, k);
    }
}

/// Static precedence: where both the dynamic and the static table define
/// a prefix, the merged routing table resolves it to the static route's
/// account; a prefix only one table defines resolves through that table;
/// the merged table holds no other prefix.
pub proof fn lemma_static_route_precedence(
    dynamic: Map<Seq<u8>, u64>,
    statics: Map<Seq<u8>, u64>,
    prefix: Seq<u8>,
)
    ensures
        statics.contains_key(prefix) ==> merged_routes(dynamic, statics).contains_key(prefix)
            && merged_routes(dynamic, statics)[prefix] == statics[prefix],
        !statics.contains_key(prefix) && dynamic.contains_key(prefix) ==> merged_routes(
            dynamic,
            statics,
        ).contains_key(prefix) && merged_routes(dynamic, statics)[prefix] == dynamic[prefix],
        merged_routes(dynamic, statics).contains_key(prefix) <==> (dynamic.contains_key(prefix)
            || statics.contains_key(prefix)),
{
}

} // verus!
