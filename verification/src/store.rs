//! The store's consistency engine: account registration with uniqueness
//! enforcement, the atomic balance ledger with overdraft protection, and
//! the in-process exchange-rate and routing-table caches. Every operation
//! either commits all of its writes or none of them; the contract of each
//! says which, and when.
//!
//! The backend's contribution — executing a multi-step read/modify/write
//! as one indivisible unit — is an abstract capability; this engine
//! realizes those observable transitions on an owned state value, and
//! the surrounding process serializes access to it.
use vstd::prelude::*;
use crate::account::{Account, AccountDetails, AccountDetailsView, AccountView, account_of};
use crate::errors::{ConflictField, StoreError};
use crate::keys::{lower_of, lowercase};
use crate::keys::is_valid_route_key;
use crate::ledger::{Ledger, apply_delta, bal_of};
use crate::rate_table::{RateTable, rate_map_of, lemma_rate_map_snoc};
use crate::route_table::{RouteTable, clone_bytes, lemma_route_map_snoc};
use vstd::string::StringExecFns;
use vstd::string::StrSliceExecFns;
use vstd::utf8::{encode_utf8, valid_utf8};

verus! {

/// Mathematical image of the whole store: the backend's authoritative
/// tables and the two in-process caches.
#[verifier::ext_equal]
pub ghost struct StoreView {
    /// Value of the id allocation counter: the next id to be issued.
    pub next_account_id: nat,
    /// Registered account records, by id.
    pub accounts: Map<u64, AccountView>,
    /// The balance ledgers, keyed by (lowercase asset code, account id).
    pub balances: Map<(Seq<char>, u64), i64>,
    /// The dynamic routing table, replaced wholesale by `set_routes`.
    pub dynamic_routes: Map<Seq<u8>, u64>,
    /// The static routing table, administrator-configured.
    pub static_routes: Map<Seq<u8>, u64>,
    /// The authoritative exchange-rate table.
    pub rates_backend: Map<Seq<char>, u64>,
    /// The in-process rate cache.
    pub rates_cache: Map<Seq<char>, u64>,
    /// The in-process merged routing-table cache.
    pub routes_cache: Map<Seq<u8>, u64>,
}

/// The account map denoted by the id-indexed slot sequence: slot `i`
/// holds the record of account id `i`, or nothing if that id was
/// allocated but never bound.
pub open spec fn accounts_map_of(s: Seq<Option<Account>>) -> Map<u64, AccountView> {
    Map::new(
        |id: u64| (id as nat) < s.len() && s[id as int] is Some,
        |id: u64| s[id as int]->0@,
    )
}

/// The effective routing table: the dynamic table with every static
/// route laid over it — where both define a prefix, the static one wins.
pub open spec fn merged_routes(dynamic: Map<Seq<u8>, u64>, statics: Map<Seq<u8>, u64>) -> Map<
    Seq<u8>,
    u64,
> {
    dynamic.union_prefer_right(statics)
}

/// Well-formedness of a store state: ids were issued below the counter,
/// each record carries its own id, and each credential kind is globally
/// unique across accounts.
pub open spec fn view_wf(s: StoreView) -> bool {
    &&& forall|id: u64| #[trigger]
        s.accounts.contains_key(id) ==> (id as nat) < s.next_account_id && s.accounts[id].id == id
    &&& forall|i: u64, j: u64| #![auto]
        s.accounts.contains_key(i) && s.accounts.contains_key(j) && i != j ==> {
            &&& (s.accounts[i].btp_incoming_authorization is Some
                ==> s.accounts[i].btp_incoming_authorization
                != s.accounts[j].btp_incoming_authorization)
            &&& (s.accounts[i].http_incoming_authorization is Some
                ==> s.accounts[i].http_incoming_authorization
                != s.accounts[j].http_incoming_authorization)
            &&& (s.accounts[i].xrp_address is Some ==> s.accounts[i].xrp_address
                != s.accounts[j].xrp_address)
        }
}

/// The persistence and consistency engine of the connector node.
pub struct Store {
    accounts: Vec<Option<Account>>,
    balances: Ledger,
    dynamic_routes: RouteTable,
    static_routes: RouteTable,
    rates_backend: RateTable,
    rates_cache: RateTable,
    routes_cache: RouteTable,
}

impl View for Store {
    type V = StoreView;

    closed spec fn view(&self) -> StoreView {
        StoreView {
            next_account_id: self.accounts@.len(),
            accounts: accounts_map_of(self.accounts@),
            balances: self.balances@,
            dynamic_routes: self.dynamic_routes@,
            static_routes: self.static_routes@,
            rates_backend: self.rates_backend@,
            rates_cache: self.rates_cache@,
            routes_cache: self.routes_cache@,
        }
    }
}

impl Store {
    /// The representation keeps its tables well-formed and the state it
    /// denotes well-formed.
    pub closed spec fn wf(&self) -> bool {
        &&& self.balances.wf()
        &&& self.dynamic_routes.wf()
        &&& self.static_routes.wf()
        &&& self.rates_backend.wf()
        &&& self.rates_cache.wf()
        &&& self.routes_cache.wf()
        &&& forall|i: int|
            0 <= i < self.accounts@.len() && (#[trigger] self.accounts@[i]) is Some
                ==> self.accounts@[i]->0.id == i
        &&& view_wf(self.view())
    }

    /// An empty store: no accounts, no balances, no routes, no rates.
    pub fn new() -> (r: Store)
        ensures
            r.wf(),
            r@.next_account_id == 0,
            r@.accounts == Map::<u64, AccountView>::empty(),
            r@.balances == Map::<(Seq<char>, u64), i64>::empty(),
            r@.dynamic_routes == Map::<Seq<u8>, u64>::empty(),
            r@.static_routes == Map::<Seq<u8>, u64>::empty(),
            r@.rates_backend == Map::<Seq<char>, u64>::empty(),
            r@.rates_cache == Map::<Seq<char>, u64>::empty(),
            r@.routes_cache == Map::<Seq<u8>, u64>::empty(),
    {
        let r = Store {
            accounts: Vec::new(),
            balances: Ledger::new(),
            dynamic_routes: RouteTable::new(),
            static_routes: RouteTable::new(),
            rates_backend: RateTable::new(),
            rates_cache: RateTable::new(),
            routes_cache: RouteTable::new(),
        };
        proof {
            assert(accounts_map_of(r.accounts@) =~= Map::<u64, AccountView>::empty());
        }
        r
    }

    /// A well-formed store denotes a well-formed state.
    pub proof fn lemma_wf_view(&self)
        requires
            self.wf(),
        ensures
            view_wf(self@),
    {
    }

    /// Refreshes the in-process rate cache from the authoritative table:
    /// a whole-table replacement, never a partial merge.
    pub fn update_rates(&mut self)
        requires
            old(self).wf(),
        ensures
            final(self).wf(),
            final(self)@ == (StoreView { rates_cache: old(self)@.rates_backend, ..old(self)@ }),
    {
        self.rates_cache = self.rates_backend.snapshot();
        proof {
            assert(self@ =~~= StoreView {
                rates_cache: old(self)@.rates_backend,
                ..old(self)@
            });
        }
    }

    /// Refreshes the in-process routing cache: rebuilds the merged table
    /// from the dynamic and static tables, static routes taking
    /// precedence, and replaces the cache wholesale.
    pub fn update_routes(&mut self)
        requires
            old(self).wf(),
        ensures
            final(self).wf(),
            final(self)@ == (StoreView {
                routes_cache: merged_routes(old(self)@.dynamic_routes, old(self)@.static_routes),
                ..old(self)@
            }),
    {
        let mut merged = self.dynamic_routes.snapshot();
        let n = self.static_routes.len();
        let ghost st = self.static_routes.entries_view();
        let mut i: usize = 0;
        while i < n
            invariant
                self.wf(),
                n == st.len(),
                st == self.static_routes.entries_view(),
                i <= n,
                merged.wf(),
                merged@ == merged_routes(self@.dynamic_routes, crate::route_table::route_map_of(
                    st.take(i as int),
                )),
            decreases n - i,
        {
            let (prefix, account_id) = self.static_routes.entry_at(i);
            proof {
                lemma_route_map_snoc(st.take(i as int), st[i as int]);
                assert(st.take(i as int + 1) =~= st.take(i as int).push(st[i as int]));
                assert(merged@.insert(st[i as int].0@, st[i as int].1) =~= merged_routes(
                    self@.dynamic_routes,
                    crate::route_table::route_map_of(st.take(i as int + 1)),
                ));
            }
            merged.upsert(prefix, account_id);
            i += 1;
        }
        proof {
            assert(st.take(n as int) =~= st);
            self.static_routes.lemma_view_is_entries();
        }
        self.routes_cache = merged;
        proof {
            assert(self@ =~~= StoreView {
                routes_cache: merged_routes(old(self)@.dynamic_routes, old(self)@.static_routes),
                ..old(self)@
            });
        }
    }

    /// A snapshot copy of the merged routing-table cache. The snapshot
    /// does not stay current: it reflects the cache as of the last
    /// refresh.
    pub fn routing_table(&self) -> (r: RouteTable)
        requires
            self.wf(),
        ensures
            r.wf(),
            r@ == self@.routes_cache,
    {
        self.routes_cache.snapshot()
    }

    /// Rates for the requested asset codes, from the in-process cache
    /// alone, in request order. Succeeds if and only if every requested
    /// code has a cached rate; a partial result is never returned.
    pub fn get_exchange_rates(&self, asset_codes: &Vec<String>) -> (r: Result<
        Vec<u64>,
        StoreError,
    >)
        requires
            self.wf(),
        ensures
            r is Ok <==> (forall|i: int|
                0 <= i < asset_codes@.len() ==> self@.rates_cache.contains_key(
                    #[trigger] asset_codes@[i]@,
                )),
            r is Ok ==> r->Ok_0@.len() == asset_codes@.len() && (forall|i: int|
                0 <= i < asset_codes@.len() ==> r->Ok_0@[i] == self@.rates_cache[#[trigger]
                    asset_codes@[i]@]),
            r is Err ==> r == Err::<Vec<u64>, StoreError>(StoreError::CountMismatch),
    {
        let n = asset_codes.len();
        let mut out: Vec<u64> = Vec::new();
        let mut i: usize = 0;
        while i < n
            invariant
                self.wf(),
                n == asset_codes@.len(),
                i <= n,
                out@.len() == i,
                forall|j: int|
                    0 <= j < i ==> self@.rates_cache.contains_key(#[trigger] asset_codes@[j]@)
                        && out@[j] == self@.rates_cache[asset_codes@[j]@],
            decreases n - i,
        {
            match self.rates_cache.get(&asset_codes[i]) {
                Some(rate) => {
                    out.push(rate);
                },
                None => {
                    return Err(StoreError::CountMismatch);
                },
            }
            i += 1;
        }
        Ok(out)
    }

    /// Administrative write-through of the exchange-rate table: replaces
    /// the authoritative table wholesale with the given pairs (a later
    /// pair wins over an earlier one with the same code), then refreshes
    /// the cache synchronously, so the new rates are visible at once.
    pub fn set_rates(&mut self, rates: Vec<(String, u64)>)
        requires
            old(self).wf(),
        ensures
            final(self).wf(),
            final(self)@ == (StoreView {
                rates_backend: rate_map_of(rates@),
                rates_cache: rate_map_of(rates@),
                ..old(self)@
            }),
    {
        let n = rates.len();
        let mut table = RateTable::new();
        let mut i: usize = 0;
        while i < n
            invariant
                n == rates@.len(),
                i <= n,
                table.wf(),
                table@ == rate_map_of(rates@.take(i as int)),
            decreases n - i,
        {
            let (code, rate) = &rates[i];
            proof {
                lemma_rate_map_snoc(rates@.take(i as int), rates@[i as int]);
                assert(rates@.take(i as int + 1) =~= rates@.take(i as int).push(rates@[i as int]));
            }
            table.upsert(code.clone(), *rate);
            i += 1;
        }
        proof {
            assert(rates@.take(n as int) =~= rates@);
        }
        self.rates_backend = table;
        self.update_rates();
        proof {
            assert(self@ =~~= StoreView {
                rates_backend: rate_map_of(rates@),
                rates_cache: rate_map_of(rates@),
                ..old(self)@
            });
        }
    }
}

/// Which credential index a lookup goes against.
#[derive(Clone, Copy, Debug, PartialEq, Eq, Structural)]
pub enum CredentialKind {
    BtpAuth,
    HttpAuth,
}

/// The credential of the given kind an account carries, if any.
pub open spec fn credential_of(a: AccountView, kind: CredentialKind) -> Option<Seq<char>> {
    match kind {
        CredentialKind::BtpAuth => a.btp_incoming_authorization,
        CredentialKind::HttpAuth => a.http_incoming_authorization,
    }
}

/// Some registered account carries the given credential.
pub open spec fn has_credential(s: StoreView, kind: CredentialKind, t: Seq<char>) -> bool {
    exists|id: u64|
        #[trigger] s.accounts.contains_key(id) && credential_of(s.accounts[id], kind) == Some(t)
}

/// Some registered account carries the given settlement address.
pub open spec fn has_settlement_address(s: StoreView, t: Seq<char>) -> bool {
    exists|id: u64| #[trigger] s.accounts.contains_key(id) && s.accounts[id].xrp_address == Some(t)
}

/// The first uniqueness violation a registration would commit, in the
/// stable precedence order: the id-derived balance slot, then the BTP
/// token, then the HTTP token, then the settlement address.
pub open spec fn insert_conflict(s: StoreView, d: AccountDetailsView) -> Option<ConflictField> {
    let id = s.next_account_id as u64;
    if s.balances.contains_key((lower_of(d.asset_code), id)) {
        Some(ConflictField::IdSlot)
    } else if d.btp_incoming_authorization is Some && has_credential(
        s,
        CredentialKind::BtpAuth,
        d.btp_incoming_authorization->0,
    ) {
        Some(ConflictField::BtpAuth)
    } else if d.http_incoming_authorization is Some && has_credential(
        s,
        CredentialKind::HttpAuth,
        d.http_incoming_authorization->0,
    ) {
        Some(ConflictField::HttpAuth)
    } else if d.xrp_address is Some && has_settlement_address(s, d.xrp_address->0) {
        Some(ConflictField::SettlementAddress)
    } else {
        None
    }
}

/// How registering `d` takes the store from `pre` to `post` with result
/// `r`: the id allocation counter moves in either case (an id burnt on a
/// rejected registration is never reused), and on success — exactly when
/// no uniqueness constraint is violated — the record, its zeroed balance
/// slot and its route appear atomically, and the routing cache is
/// refreshed at once.
pub open spec fn insert_account_transition(
    pre: StoreView,
    d: AccountDetailsView,
    post: StoreView,
    r: Result<Account, StoreError>,
) -> bool {
    match insert_conflict(pre, d) {
        Some(f) => {
            &&& r == Err::<Account, StoreError>(StoreError::Conflict(f))
            &&& post == (StoreView { next_account_id: pre.next_account_id + 1, ..pre })
        },
        None => {
            &&& r is Ok
            &&& (r->Ok_0).id as nat == pre.next_account_id
            &&& (r->Ok_0)@ == account_of(d, (r->Ok_0).id)
            &&& post == (StoreView {
                next_account_id: pre.next_account_id + 1,
                accounts: pre.accounts.insert((r->Ok_0).id, (r->Ok_0)@),
                balances: pre.balances.insert((lower_of(d.asset_code), (r->Ok_0).id), 0i64),
                dynamic_routes: pre.dynamic_routes.insert(d.ilp_address, (r->Ok_0).id),
                routes_cache: merged_routes(
                    pre.dynamic_routes.insert(d.ilp_address, (r->Ok_0).id),
                    pre.static_routes,
                ),
                ..pre
            })
        },
    }
}

/// The ledger key an account's balance lives under.
pub open spec fn ledger_key(a: AccountView) -> (Seq<char>, u64) {
    (lower_of(a.asset_code), a.id)
}

/// The minimum-balance bound the transfer primitive enforces: the one on
/// the debited account's registered record; none when the account was
/// never registered.
pub open spec fn effective_min_balance(s: StoreView, from: AccountView) -> Option<i64> {
    if s.accounts.contains_key(from.id) {
        s.accounts[from.id].min_balance
    } else {
        None
    }
}

/// Whether the overdraft check blocks the transfer: the debited account
/// has a minimum and the debit would take its balance below it.
pub open spec fn transfer_blocked(s: StoreView, from: AccountView, incoming_amount: u64) -> bool {
    match effective_min_balance(s, from) {
        Some(m) => bal_of(s.balances, ledger_key(from)) < m + incoming_amount,
        None => false,
    }
}

/// The ledgers after the transfer: the debit applied, then the credit,
/// each against its account's own asset ledger.
pub open spec fn transfer_applied(
    balances: Map<(Seq<char>, u64), i64>,
    from: AccountView,
    incoming_amount: u64,
    to: AccountView,
    outgoing_amount: u64,
) -> Map<(Seq<char>, u64), i64> {
    apply_delta(
        apply_delta(balances, ledger_key(from), -(incoming_amount as int)),
        ledger_key(to),
        outgoing_amount as int,
    )
}

/// The machine limit on a transfer the overdraft check does not block:
/// both resulting balances fit the ledger's signed 64-bit slots.
pub open spec fn transfer_fits(
    s: StoreView,
    from: AccountView,
    incoming_amount: u64,
    to: AccountView,
    outgoing_amount: u64,
) -> bool {
    let mid = apply_delta(s.balances, ledger_key(from), -(incoming_amount as int));
    &&& i64::MIN <= bal_of(s.balances, ledger_key(from)) - incoming_amount
    &&& bal_of(mid, ledger_key(to)) + outgoing_amount <= i64::MAX
}

/// How a transfer takes the store from `pre` to `post` with result `r`:
/// blocked means nothing changes; otherwise exactly the two balances
/// move, by exactly the two amounts. Only the debited account's minimum
/// is checked; the credited account's maximum never is.
pub open spec fn update_balances_transition(
    pre: StoreView,
    from: AccountView,
    incoming_amount: u64,
    to: AccountView,
    outgoing_amount: u64,
    post: StoreView,
    r: Result<(), StoreError>,
) -> bool {
    if transfer_blocked(pre, from, incoming_amount) {
        &&& r == Err::<(), StoreError>(StoreError::InsufficientBalance)
        &&& post == pre
    } else {
        &&& r == Ok::<(), StoreError>(())
        &&& post == (StoreView {
            balances: transfer_applied(pre.balances, from, incoming_amount, to, outgoing_amount),
            ..pre
        })
    }
}

/// The ledgers after the compensating rollback: the exact inverse deltas,
/// with no minimum or maximum re-checked.
pub open spec fn undo_applied(
    balances: Map<(Seq<char>, u64), i64>,
    from: AccountView,
    incoming_amount: u64,
    to: AccountView,
    outgoing_amount: u64,
) -> Map<(Seq<char>, u64), i64> {
    apply_delta(
        apply_delta(balances, ledger_key(from), incoming_amount as int),
        ledger_key(to),
        -(outgoing_amount as int),
    )
}

/// How the compensating rollback takes the store from `pre` to `post`:
/// exactly the two balances move back, by exactly the two amounts, and
/// nothing else changes.
pub open spec fn undo_balance_update_transition(
    pre: StoreView,
    from: AccountView,
    incoming_amount: u64,
    to: AccountView,
    outgoing_amount: u64,
    post: StoreView,
) -> bool {
    post == (StoreView {
        balances: undo_applied(pre.balances, from, incoming_amount, to, outgoing_amount),
        ..pre
    })
}

/// The machine limit on a rollback: both resulting balances fit the
/// ledger's signed 64-bit slots.
pub open spec fn undo_fits(
    s: StoreView,
    from: AccountView,
    incoming_amount: u64,
    to: AccountView,
    outgoing_amount: u64,
) -> bool {
    let mid = apply_delta(s.balances, ledger_key(from), incoming_amount as int);
    &&& bal_of(s.balances, ledger_key(from)) + incoming_amount <= i64::MAX
    &&& i64::MIN <= bal_of(mid, ledger_key(to)) - outgoing_amount
}

impl Store {
    /// The registered record under the given id, if the id was ever
    /// bound.
    pub fn account_at(&self, account_id: u64) -> (r: Option<Account>)
        requires
            self.wf(),
        ensures
            r is Some <==> self@.accounts.contains_key(account_id),
            r is Some ==> (r->0)@ == self@.accounts[account_id] && (r->0).id == account_id,
    {
        if account_id < (self.accounts.len() as u64) {
            let idx = account_id as usize;
            proof {
                assert(idx as int == account_id as int);
            }
            match &self.accounts[idx] {
                Some(a) => Some(a.duplicate()),
                None => None,
            }
        } else {
            None
        }
    }

    /// The credential slot of the given kind on a record.
    fn credential_ref<'a>(a: &'a Account, kind: CredentialKind) -> (r: &'a Option<String>)
        ensures
            crate::account::opt_str_view(*r) == credential_of(a@, kind),
    {
        match kind {
            CredentialKind::BtpAuth => &a.btp_incoming_authorization,
            CredentialKind::HttpAuth => &a.http_incoming_authorization,
        }
    }

    /// Whether any registered account already carries the credential.
    fn credential_taken(&self, kind: CredentialKind, token: &String) -> (r: bool)
        requires
            self.wf(),
        ensures
            r == has_credential(self@, kind, token@),
    {
        let n = self.accounts.len();
        let mut i: usize = 0;
        while i < n
            invariant
                self.wf(),
                n == self.accounts@.len(),
                i <= n,
                forall|j: int|
                    0 <= j < i && (#[trigger] self.accounts@[j]) is Some ==> credential_of(
                        self.accounts@[j]->0@,
                        kind,
                    ) != Some(token@),
            decreases n - i,
        {
            if let Some(a) = &self.accounts[i] {
                if let Some(t) = Self::credential_ref(a, kind) {
                    if t.eq(token) {
                        proof {
                            let id = i as u64;
                            assert(self@.accounts.contains_key(id));
                            assert(credential_of(self@.accounts[id], kind) == Some(token@));
                        }
                        return true;
                    }
                }
            }
            i += 1;
        }
        proof {
            if has_credential(self@, kind, token@) {
                let id = choose|id: u64|
                    #[trigger] self@.accounts.contains_key(id) && credential_of(
                        self@.accounts[id],
                        kind,
                    ) == Some(token@);
                assert(self.accounts@[id as int] is Some);
            }
        }
        false
    }

    /// Whether any registered account already carries the settlement
    /// address.
    fn settlement_address_taken(&self, address: &String) -> (r: bool)
        requires
            self.wf(),
        ensures
            r == has_settlement_address(self@, address@),
    {
        let n = self.accounts.len();
        let mut i: usize = 0;
        while i < n
            invariant
                self.wf(),
                n == self.accounts@.len(),
                i <= n,
                forall|j: int|
                    0 <= j < i && (#[trigger] self.accounts@[j]) is Some ==> crate::account::opt_str_view(
                        self.accounts@[j]->0.xrp_address,
                    ) != Some(address@),
            decreases n - i,
        {
            if let Some(a) = &self.accounts[i] {
                if let Some(t) = &a.xrp_address {
                    if t.eq(address) {
                        proof {
                            let id = i as u64;
                            assert(self@.accounts.contains_key(id));
                            assert(self@.accounts[id].xrp_address == Some(address@));
                        }
                        return true;
                    }
                }
            }
            i += 1;
        }
        proof {
            if has_settlement_address(self@, address@) {
                let id = choose|id: u64|
                    #[trigger] self@.accounts.contains_key(id) && self@.accounts[id].xrp_address
                        == Some(address@);
                assert(self.accounts@[id as int] is Some);
            }
        }
        false
    }

    /// Registers an account. Allocates the next id unconditionally (a
    /// rejected registration burns its id), checks every uniqueness
    /// constraint against the current state, and only if all pass writes
    /// the zeroed balance slot, the route for the account's address
    /// prefix and the record itself, then refreshes the routing cache
    /// before returning the new record.
    pub fn insert_account(&mut self, details: AccountDetails) -> (r: Result<Account, StoreError>)
        requires
            old(self).wf(),
        ensures
            final(self).wf(),
            insert_account_transition(old(self)@, details@, final(self)@, r),
    {
        let id = self.accounts.len() as u64;
        proof {
            assert(id as nat == old(self)@.next_account_id);
        }
        let lowered = lowercase(details.asset_code.as_str());
        let conflict: Option<ConflictField> = if self.balances.contains(&lowered, id) {
            Some(ConflictField::IdSlot)
        } else if (match &details.btp_incoming_authorization {
            Some(t) => self.credential_taken(CredentialKind::BtpAuth, t),
            None => false,
        }) {
            Some(ConflictField::BtpAuth)
        } else if (match &details.http_incoming_authorization {
            Some(t) => self.credential_taken(CredentialKind::HttpAuth, t),
            None => false,
        }) {
            Some(ConflictField::HttpAuth)
        } else if (match &details.xrp_address {
            Some(t) => self.settlement_address_taken(t),
            None => false,
        }) {
            Some(ConflictField::SettlementAddress)
        } else {
            None
        };
        proof {
            assert(conflict == insert_conflict(old(self)@, details@));
        }
        match conflict {
            Some(f) => {
                self.accounts.push(None);
                proof {
                    assert(accounts_map_of(self.accounts@) =~= accounts_map_of(
                        old(self).accounts@,
                    ));
                    assert(self@ =~~= (StoreView {
                        next_account_id: old(self)@.next_account_id + 1,
                        ..old(self)@
                    }));
                }
                Err(StoreError::Conflict(f))
            },
            None => {
                let account = Account::from_details(id, &details);
                let result = account.duplicate();
                self.balances.upsert(lowered, id, 0);
                self.dynamic_routes.upsert(clone_bytes(&details.ilp_address), id);
                self.accounts.push(Some(account));
                proof {
                    let ghost pre = old(self)@;
                    let ghost av = account_of(details@, id);
                    assert(accounts_map_of(self.accounts@) =~= pre.accounts.insert(id, av));
                    assert forall|i: u64, j: u64| #![auto]
                        self@.accounts.contains_key(i) && self@.accounts.contains_key(j) && i != j
                            implies {
                            &&& (self@.accounts[i].btp_incoming_authorization is Some
                                ==> self@.accounts[i].btp_incoming_authorization
                                != self@.accounts[j].btp_incoming_authorization)
                            &&& (self@.accounts[i].http_incoming_authorization is Some
                                ==> self@.accounts[i].http_incoming_authorization
                                != self@.accounts[j].http_incoming_authorization)
                            &&& (self@.accounts[i].xrp_address is Some ==> self@.accounts[i].xrp_address
                                != self@.accounts[j].xrp_address)
                        } by {
                        if i == id || j == id {
                            let o = if i == id {
                                j
                            } else {
                                i
                            };
                            assert(pre.accounts.contains_key(o));
                            if av.btp_incoming_authorization is Some
                                && pre.accounts[o].btp_incoming_authorization
                                == av.btp_incoming_authorization {
                                assert(has_credential(
                                    pre,
                                    CredentialKind::BtpAuth,
                                    av.btp_incoming_authorization->0,
                                ));
                            }
                            if av.http_incoming_authorization is Some
                                && pre.accounts[o].http_incoming_authorization
                                == av.http_incoming_authorization {
                                assert(has_credential(
                                    pre,
                                    CredentialKind::HttpAuth,
                                    av.http_incoming_authorization->0,
                                ));
                            }
                            if av.xrp_address is Some && pre.accounts[o].xrp_address
                                == av.xrp_address {
                                assert(has_settlement_address(pre, av.xrp_address->0));
                            }
                        }
                    }
                    assert(self.wf());
                }
                self.update_routes();
                proof {
                    assert(self@ =~~= (StoreView {
                        next_account_id: old(self)@.next_account_id + 1,
                        accounts: old(self)@.accounts.insert(id, account_of(details@, id)),
                        balances: old(self)@.balances.insert(
                            (lower_of(details@.asset_code), id),
                            0i64,
                        ),
                        dynamic_routes: old(self)@.dynamic_routes.insert(details@.ilp_address, id),
                        routes_cache: merged_routes(
                            old(self)@.dynamic_routes.insert(details@.ilp_address, id),
                            old(self)@.static_routes,
                        ),
                        ..old(self)@
                    }));
                }
                Ok(result)
            },
        }
    }

    /// Bulk point lookup. Succeeds only if every requested id resolves to
    /// a record, in request order; a partial result is never returned.
    pub fn get_accounts(&self, account_ids: Vec<u64>) -> (r: Result<Vec<Account>, StoreError>)
        requires
            self.wf(),
        ensures
            r is Ok <==> (forall|i: int|
                0 <= i < account_ids@.len() ==> self@.accounts.contains_key(
                    #[trigger] account_ids@[i],
                )),
            r is Ok ==> r->Ok_0@.len() == account_ids@.len() && (forall|i: int|
                0 <= i < account_ids@.len() ==> (#[trigger] r->Ok_0@[i])@ == self@.accounts[
                    account_ids@[i]]),
            r is Err ==> r == Err::<Vec<Account>, StoreError>(StoreError::CountMismatch),
    {
        let n = account_ids.len();
        let mut out: Vec<Account> = Vec::new();
        let mut i: usize = 0;
        while i < n
            invariant
                self.wf(),
                n == account_ids@.len(),
                i <= n,
                out@.len() == i,
                forall|j: int|
                    0 <= j < i ==> self@.accounts.contains_key(#[trigger] account_ids@[j]),
                forall|j: int| 0 <= j < i ==> (#[trigger] out@[j])@ == self@.accounts[account_ids@[j]],
            decreases n - i,
        {
            match self.account_at(account_ids[i]) {
                Some(a) => {
                    out.push(a);
                },
                None => {
                    return Err(StoreError::CountMismatch);
                },
            }
            i += 1;
        }
        Ok(out)
    }

    /// Every record present under the allocation counter, in ascending id
    /// order. Slots of ids that were allocated but never bound are
    /// naturally absent.
    pub fn get_all_accounts(&self) -> (r: Vec<Account>)
        requires
            self.wf(),
        ensures
            forall|j: int|
                0 <= j < r@.len() ==> self@.accounts.contains_key((#[trigger] r@[j]).id) && r@[j]@
                    == self@.accounts[r@[j].id],
            forall|j: int, k: int| 0 <= j < k < r@.len() ==> r@[j].id < r@[k].id,
            forall|id: u64| #[trigger]
                self@.accounts.contains_key(id) ==> exists|j: int|
                    0 <= j < r@.len() && (#[trigger] r@[j]).id == id,
    {
        let n = self.accounts.len();
        let mut out: Vec<Account> = Vec::new();
        let mut i: usize = 0;
        while i < n
            invariant
                self.wf(),
                n == self.accounts@.len(),
                i <= n,
                forall|j: int|
                    0 <= j < out@.len() ==> self@.accounts.contains_key((#[trigger] out@[j]).id)
                        && out@[j]@ == self@.accounts[out@[j].id],
                forall|j: int| 0 <= j < out@.len() ==> (#[trigger] out@[j]).id < i,
                forall|j: int, k: int| 0 <= j < k < out@.len() ==> out@[j].id < out@[k].id,
                forall|id: u64| #[trigger]
                    self@.accounts.contains_key(id) && (id as int) < i ==> exists|j: int|
                        0 <= j < out@.len() && (#[trigger] out@[j]).id == id,
            decreases n - i,
        {
            if let Some(a) = &self.accounts[i] {
                let dup = a.duplicate();
                proof {
                    assert(dup.id == i as u64);
                    assert(self@.accounts.contains_key(i as u64));
                }
                let ghost pre_out = out@;
                out.push(dup);
                proof {
                    assert forall|id: u64| #[trigger]
                        self@.accounts.contains_key(id) && (id as int) < i + 1 implies exists|
                        j: int,
                    | 0 <= j < out@.len() && (#[trigger] out@[j]).id == id by {
                        if (id as int) < i {
                            let j = choose|j: int|
                                0 <= j < pre_out.len() && (#[trigger] pre_out[j]).id == id;
                            assert((out@[j]).id == id);
                        } else {
                            assert((out@[out@.len() - 1]).id == id);
                        }
                    }
                }
            }
            i += 1;
        }
        out
    }

    /// The records flagged for route broadcast, in ascending id order.
    pub fn get_accounts_to_send_routes_to(&self) -> (r: Vec<Account>)
        requires
            self.wf(),
        ensures
            forall|j: int|
                0 <= j < r@.len() ==> self@.accounts.contains_key((#[trigger] r@[j]).id) && r@[j]@
                    == self@.accounts[r@[j].id] && r@[j]@.send_routes,
            forall|j: int, k: int| 0 <= j < k < r@.len() ==> r@[j].id < r@[k].id,
            forall|id: u64| #[trigger]
                self@.accounts.contains_key(id) && self@.accounts[id].send_routes ==> exists|j: int|
                    0 <= j < r@.len() && (#[trigger] r@[j]).id == id,
    {
        let n = self.accounts.len();
        let mut out: Vec<Account> = Vec::new();
        let mut i: usize = 0;
        while i < n
            invariant
                self.wf(),
                n == self.accounts@.len(),
                i <= n,
                forall|j: int|
                    0 <= j < out@.len() ==> self@.accounts.contains_key((#[trigger] out@[j]).id)
                        && out@[j]@ == self@.accounts[out@[j].id] && out@[j]@.send_routes,
                forall|j: int| 0 <= j < out@.len() ==> (#[trigger] out@[j]).id < i,
                forall|j: int, k: int| 0 <= j < k < out@.len() ==> out@[j].id < out@[k].id,
                forall|id: u64| #[trigger]
                    self@.accounts.contains_key(id) && self@.accounts[id].send_routes && (id as int)
                        < i ==> exists|j: int| 0 <= j < out@.len() && (#[trigger] out@[j]).id == id,
            decreases n - i,
        {
            if let Some(a) = &self.accounts[i] {
                if a.send_routes {
                    let dup = a.duplicate();
                    proof {
                        assert(dup.id == i as u64);
                        assert(self@.accounts.contains_key(i as u64));
                    }
                    let ghost pre_out = out@;
                    out.push(dup);
                    proof {
                        assert forall|id: u64| #[trigger]
                            self@.accounts.contains_key(id) && self@.accounts[id].send_routes && (
                            id as int) < i + 1 implies exists|j: int|
                            0 <= j < out@.len() && (#[trigger] out@[j]).id == id by {
                            if (id as int) < i {
                                let j = choose|j: int|
                                    0 <= j < pre_out.len() && (#[trigger] pre_out[j]).id == id;
                                assert((out@[j]).id == id);
                            } else {
                                assert((out@[out@.len() - 1]).id == id);
                            }
                        }
                    }
                } else {
                    proof {
                        assert(self@.accounts.contains_key(i as u64)
                            && !self@.accounts[i as u64].send_routes);
                    }
                }
            } else {
                proof {
                    assert(!self@.accounts.contains_key(i as u64));
                }
            }
            i += 1;
        }
        out
    }

    /// Index lookup and record fetch in one step: the account that
    /// carries the given credential in the given index. Fails with
    /// `NotFound` exactly when no account carries it.
    pub fn get_account_from_credential(&self, kind: CredentialKind, token: &str) -> (r: Result<
        Account,
        StoreError,
    >)
        requires
            self.wf(),
        ensures
            r is Ok <==> has_credential(self@, kind, token@),
            r is Ok ==> self@.accounts.contains_key((r->Ok_0).id) && (r->Ok_0)@ == self@.accounts[(r->Ok_0).id] && credential_of((r->Ok_0)@, kind) == Some(token@),
            r is Err ==> r == Err::<Account, StoreError>(StoreError::NotFound),
    {
        let owned = String::from_str(token);
        let n = self.accounts.len();
        let mut i: usize = 0;
        while i < n
            invariant
                self.wf(),
                n == self.accounts@.len(),
                i <= n,
                owned@ == token@,
                forall|j: int|
                    0 <= j < i && (#[trigger] self.accounts@[j]) is Some ==> credential_of(
                        self.accounts@[j]->0@,
                        kind,
                    ) != Some(token@),
            decreases n - i,
        {
            if let Some(a) = &self.accounts[i] {
                if let Some(t) = Self::credential_ref(a, kind) {
                    if t.eq(&owned) {
                        proof {
                            let id = i as u64;
                            assert(self@.accounts.contains_key(id));
                            assert(credential_of(self@.accounts[id], kind) == Some(token@));
                        }
                        return Ok(a.duplicate());
                    }
                }
            }
            i += 1;
        }
        proof {
            if has_credential(self@, kind, token@) {
                let id = choose|id: u64|
                    #[trigger] self@.accounts.contains_key(id) && credential_of(
                        self@.accounts[id],
                        kind,
                    ) == Some(token@);
                assert(self.accounts@[id as int] is Some);
            }
        }
        Err(StoreError::NotFound)
    }

    /// The account registered with the given BTP token.
    pub fn get_account_from_btp_token(&self, token: &str) -> (r: Result<Account, StoreError>)
        requires
            self.wf(),
        ensures
            r is Ok <==> has_credential(self@, CredentialKind::BtpAuth, token@),
            r is Ok ==> self@.accounts.contains_key((r->Ok_0).id) && (r->Ok_0)@ == self@.accounts[(r->Ok_0).id] && (r->Ok_0)@.btp_incoming_authorization == Some(token@),
            r is Err ==> r == Err::<Account, StoreError>(StoreError::NotFound),
    {
        self.get_account_from_credential(CredentialKind::BtpAuth, token)
    }

    /// The account registered with the given HTTP credential.
    pub fn get_account_from_http_auth(&self, auth_header: &str) -> (r: Result<Account, StoreError>)
        requires
            self.wf(),
        ensures
            r is Ok <==> has_credential(self@, CredentialKind::HttpAuth, auth_header@),
            r is Ok ==> self@.accounts.contains_key((r->Ok_0).id) && (r->Ok_0)@ == self@.accounts[(r->Ok_0).id] && (r->Ok_0)@.http_incoming_authorization == Some(auth_header@),
            r is Err ==> r == Err::<Account, StoreError>(StoreError::NotFound),
    {
        self.get_account_from_credential(CredentialKind::HttpAuth, auth_header)
    }

    /// The balance in the account's own asset ledger; zero if no slot was
    /// ever written.
    pub fn get_balance(&self, account: &Account) -> (r: i64)
        requires
            self.wf(),
        ensures
            r as int == bal_of(self@.balances, ledger_key(account@)),
    {
        let lowered = lowercase(account.asset_code.as_str());
        self.balances.get(&lowered, account.id)
    }

    /// The atomic overdraft-checked transfer: reads the debited account's
    /// registered minimum balance; if one is configured and the debit
    /// would cross it, fails leaving every balance unchanged; otherwise
    /// debits the source and credits the destination, each in its own
    /// asset's ledger, as one indivisible state change.
    pub fn update_balances(
        &mut self,
        from_account: &Account,
        incoming_amount: u64,
        to_account: &Account,
        outgoing_amount: u64,
    ) -> (r: Result<(), StoreError>)
        requires
            old(self).wf(),
            !transfer_blocked(old(self)@, from_account@, incoming_amount) ==> transfer_fits(
                old(self)@,
                from_account@,
                incoming_amount,
                to_account@,
                outgoing_amount,
            ),
        ensures
            final(self).wf(),
            update_balances_transition(
                old(self)@,
                from_account@,
                incoming_amount,
                to_account@,
                outgoing_amount,
                final(self)@,
                r,
            ),
    {
        let from_asset = lowercase(from_account.asset_code.as_str());
        let min_balance: Option<i64> = if from_account.id < (self.accounts.len() as u64) {
            let idx = from_account.id as usize;
            proof {
                assert(idx as int == from_account.id as int);
            }
            match &self.accounts[idx] {
                Some(a) => a.min_balance,
                None => None,
            }
        } else {
            None
        };
        proof {
            assert(min_balance == effective_min_balance(old(self)@, from_account@));
        }
        if let Some(m) = min_balance {
            let current = self.balances.get(&from_asset, from_account.id);
            if (current as i128) < (m as i128) + (incoming_amount as i128) {
                return Err(StoreError::InsufficientBalance);
            }
        }
        let to_asset = lowercase(to_account.asset_code.as_str());
        let current_from = self.balances.get(&from_asset, from_account.id);
        let new_from = ((current_from as i128) - (incoming_amount as i128)) as i64;
        self.balances.upsert(from_asset, from_account.id, new_from);
        let current_to = self.balances.get(&to_asset, to_account.id);
        let new_to = ((current_to as i128) + (outgoing_amount as i128)) as i64;
        self.balances.upsert(to_asset, to_account.id, new_to);
        proof {
            assert(self@ =~~= (StoreView {
                balances: transfer_applied(
                    old(self)@.balances,
                    from_account@,
                    incoming_amount,
                    to_account@,
                    outgoing_amount,
                ),
                ..old(self)@
            }));
        }
        Ok(())
    }

    /// The compensating rollback of a previously applied transfer: the
    /// exact inverse deltas, as one indivisible state change, with no
    /// minimum or maximum balance re-checked.
    pub fn undo_balance_update(
        &mut self,
        from_account: &Account,
        incoming_amount: u64,
        to_account: &Account,
        outgoing_amount: u64,
    )
        requires
            old(self).wf(),
            undo_fits(old(self)@, from_account@, incoming_amount, to_account@, outgoing_amount),
        ensures
            final(self).wf(),
            undo_balance_update_transition(
                old(self)@,
                from_account@,
                incoming_amount,
                to_account@,
                outgoing_amount,
                final(self)@,
            ),
    {
        let from_asset = lowercase(from_account.asset_code.as_str());
        let to_asset = lowercase(to_account.asset_code.as_str());
        let current_from = self.balances.get(&from_asset, from_account.id);
        let new_from = ((current_from as i128) + (incoming_amount as i128)) as i64;
        self.balances.upsert(from_asset, from_account.id, new_from);
        let current_to = self.balances.get(&to_asset, to_account.id);
        let new_to = ((current_to as i128) - (outgoing_amount as i128)) as i64;
        self.balances.upsert(to_asset, to_account.id, new_to);
        proof {
            assert(self@ =~~= (StoreView {
                balances: undo_applied(
                    old(self)@.balances,
                    from_account@,
                    incoming_amount,
                    to_account@,
                    outgoing_amount,
                ),
                ..old(self)@
            }));
        }
    }
}

/// The dynamic table denoted by a batch of prefix/account pairs: a
/// prefix that is not a valid route key (well-formed UTF-8) is silently
/// dropped; a later pair wins over an earlier one with the same prefix.
pub open spec fn dynamic_routes_of(s: Seq<(Vec<u8>, Account)>) -> Map<Seq<u8>, u64>
    decreases s.len(),
{
    if s.len() == 0 {
        Map::empty()
    } else {
        let prev = dynamic_routes_of(s.drop_last());
        if valid_utf8(s.last().0@) {
            prev.insert(s.last().0@, s.last().1.id)
        } else {
            prev
        }
    }
}

pub proof fn lemma_dynamic_routes_snoc(s: Seq<(Vec<u8>, Account)>, e: (Vec<u8>, Account))
    ensures
        dynamic_routes_of(s.push(e)) == (if valid_utf8(e.0@) {
            dynamic_routes_of(s).insert(e.0@, e.1.id)
        } else {
            dynamic_routes_of(s)
        }),
{
    assert(s.push(e).drop_last() =~= s);
    assert(s.push(e).last() == e);
}

/// The static table denoted by a batch of prefix/account-id pairs; the
/// prefix strings are stored by their UTF-8 bytes, and a later pair wins
/// over an earlier one with the same prefix.
pub open spec fn static_routes_of(s: Seq<(String, u64)>) -> Map<Seq<u8>, u64>
    decreases s.len(),
{
    if s.len() == 0 {
        Map::empty()
    } else {
        static_routes_of(s.drop_last()).insert(encode_utf8(s.last().0@), s.last().1)
    }
}

pub proof fn lemma_static_routes_snoc(s: Seq<(String, u64)>, e: (String, u64))
    ensures
        static_routes_of(s.push(e)) == static_routes_of(s).insert(encode_utf8(e.0@), e.1),
{
    assert(s.push(e).drop_last() =~= s);
    assert(s.push(e).last() == e);
}

/// Every account id a batch of static routes references is registered.
pub open spec fn all_route_targets_exist(s: StoreView, routes: Seq<(String, u64)>) -> bool {
    forall|i: int| 0 <= i < routes.len() ==> s.accounts.contains_key(#[trigger] routes[i].1)
}

/// The local table advertised by the route-propagation protocol: every
/// registered account implicitly owns a route to itself; where two
/// accounts share a prefix, the younger (higher-id) registration wins.
pub open spec fn local_routes_of(accounts: Map<u64, AccountView>, n: nat) -> Map<Seq<u8>, u64>
    decreases n,
{
    if n == 0 {
        Map::empty()
    } else {
        let prev = local_routes_of(accounts, (n - 1) as nat);
        let id = (n - 1) as u64;
        if accounts.contains_key(id) {
            prev.insert(accounts[id].ilp_address, id)
        } else {
            prev
        }
    }
}

pub proof fn lemma_local_routes_registered(accounts: Map<u64, AccountView>, n: nat)
    ensures
        forall|p: Seq<u8>| #[trigger]
            local_routes_of(accounts, n).contains_key(p) ==> accounts.contains_key(
                local_routes_of(accounts, n)[p],
            ),
    decreases n,
{
    if n > 0 {
        lemma_local_routes_registered(accounts, (n - 1) as nat);
        let id = (n - 1) as u64;
        let m = local_routes_of(accounts, n);
        let prev = local_routes_of(accounts, (n - 1) as nat);
        assert forall|p: Seq<u8>| #[trigger] m.contains_key(p) implies accounts.contains_key(
            m[p],
        ) by {
            if accounts.contains_key(id) && p == accounts[id].ilp_address {
            } else {
                assert(prev.contains_key(p) && m[p] == prev[p]);
            }
        }
    }
}

impl Store {
    /// Whether an account is registered under the id.
    fn has_account(&self, account_id: u64) -> (r: bool)
        requires
            self.wf(),
        ensures
            r == self@.accounts.contains_key(account_id),
    {
        if account_id < (self.accounts.len() as u64) {
            let idx = account_id as usize;
            proof {
                assert(idx as int == account_id as int);
            }
            self.accounts[idx].is_some()
        } else {
            false
        }
    }

    /// Administrative bulk replacement of the dynamic route table:
    /// prefixes that are not valid route keys are silently dropped from
    /// the batch, the table is replaced wholesale, and the cache is
    /// refreshed synchronously.
    pub fn set_routes(&mut self, routes: Vec<(Vec<u8>, Account)>)
        requires
            old(self).wf(),
        ensures
            final(self).wf(),
            final(self)@ == (StoreView {
                dynamic_routes: dynamic_routes_of(routes@),
                routes_cache: merged_routes(dynamic_routes_of(routes@), old(self)@.static_routes),
                ..old(self)@
            }),
    {
        let n = routes.len();
        let mut table = RouteTable::new();
        let mut i: usize = 0;
        while i < n
            invariant
                n == routes@.len(),
                i <= n,
                table.wf(),
                table@ == dynamic_routes_of(routes@.take(i as int)),
            decreases n - i,
        {
            proof {
                lemma_dynamic_routes_snoc(routes@.take(i as int), routes@[i as int]);
                assert(routes@.take(i as int + 1) =~= routes@.take(i as int).push(
                    routes@[i as int],
                ));
            }
            let (prefix, account) = &routes[i];
            if is_valid_route_key(prefix) {
                table.upsert(clone_bytes(prefix), account.id);
            }
            i += 1;
        }
        proof {
            assert(routes@.take(n as int) =~= routes@);
        }
        self.dynamic_routes = table;
        self.update_routes();
        proof {
            assert(self@ =~~= (StoreView {
                dynamic_routes: dynamic_routes_of(routes@),
                routes_cache: merged_routes(dynamic_routes_of(routes@), old(self)@.static_routes),
                ..old(self)@
            }));
        }
    }

    /// Sets one static route, merging it into the static table, after
    /// verifying that the referenced account exists; fails with
    /// `NotFound`, changing nothing, when it does not. On success the
    /// cache is refreshed synchronously.
    pub fn set_static_route(&mut self, prefix: String, account_id: u64) -> (r: Result<
        (),
        StoreError,
    >)
        requires
            old(self).wf(),
        ensures
            final(self).wf(),
            !old(self)@.accounts.contains_key(account_id) ==> r == Err::<(), StoreError>(
                StoreError::NotFound,
            ) && final(self)@ == old(self)@,
            old(self)@.accounts.contains_key(account_id) ==> r == Ok::<(), StoreError>(())
                && final(self)@ == (StoreView {
                static_routes: old(self)@.static_routes.insert(encode_utf8(prefix@), account_id),
                routes_cache: merged_routes(
                    old(self)@.dynamic_routes,
                    old(self)@.static_routes.insert(encode_utf8(prefix@), account_id),
                ),
                ..old(self)@
            }),
    {
        if !self.has_account(account_id) {
            return Err(StoreError::NotFound);
        }
        let key = prefix.as_str().as_bytes_vec();
        proof {
            assert(key@ == encode_utf8(prefix@));
        }
        self.static_routes.upsert(key, account_id);
        self.update_routes();
        proof {
            assert(self@ =~~= (StoreView {
                static_routes: old(self)@.static_routes.insert(encode_utf8(prefix@), account_id),
                routes_cache: merged_routes(
                    old(self)@.dynamic_routes,
                    old(self)@.static_routes.insert(encode_utf8(prefix@), account_id),
                ),
                ..old(self)@
            }));
        }
        Ok(())
    }

    /// Administrative bulk replacement of the static route table: first
    /// verifies that every referenced account exists — if any is missing
    /// the whole call fails with `NotFound` and no route changes — then
    /// replaces the table wholesale and refreshes the cache
    /// synchronously.
    pub fn set_static_routes(&mut self, routes: Vec<(String, u64)>) -> (r: Result<(), StoreError>)
        requires
            old(self).wf(),
        ensures
            final(self).wf(),
            !all_route_targets_exist(old(self)@, routes@) ==> r == Err::<(), StoreError>(
                StoreError::NotFound,
            ) && final(self)@ == old(self)@,
            all_route_targets_exist(old(self)@, routes@) ==> r == Ok::<(), StoreError>(())
                && final(self)@ == (StoreView {
                static_routes: static_routes_of(routes@),
                routes_cache: merged_routes(old(self)@.dynamic_routes, static_routes_of(routes@)),
                ..old(self)@
            }),
    {
        let n = routes.len();
        let mut i: usize = 0;
        while i < n
            invariant
                self.wf(),
                self == old(self),
                n == routes@.len(),
                i <= n,
                forall|j: int| 0 <= j < i ==> self@.accounts.contains_key(#[trigger] routes@[j].1),
            decreases n - i,
        {
            if !self.has_account(routes[i].1) {
                return Err(StoreError::NotFound);
            }
            i += 1;
        }
        let mut table = RouteTable::new();
        let mut k: usize = 0;
        while k < n
            invariant
                n == routes@.len(),
                k <= n,
                table.wf(),
                table@ == static_routes_of(routes@.take(k as int)),
            decreases n - k,
        {
            proof {
                lemma_static_routes_snoc(routes@.take(k as int), routes@[k as int]);
                assert(routes@.take(k as int + 1) =~= routes@.take(k as int).push(
                    routes@[k as int],
                ));
            }
            let key = routes[k].0.as_str().as_bytes_vec();
            table.upsert(key, routes[k].1);
            k += 1;
        }
        proof {
            assert(routes@.take(n as int) =~= routes@);
        }
        self.static_routes = table;
        self.update_routes();
        proof {
            assert(self@ =~~= (StoreView {
                static_routes: static_routes_of(routes@),
                routes_cache: merged_routes(old(self)@.dynamic_routes, static_routes_of(routes@)),
                ..old(self)@
            }));
        }
        Ok(())
    }

    /// The pair the route-propagation protocol advertises from: the
    /// local table, mapping each registered account's own address prefix
    /// to that account (the youngest registration winning a shared
    /// prefix), and the configured table, mapping each static route's
    /// prefix to its referenced account, silently omitting any static
    /// route whose account no longer exists.
    pub fn get_local_and_configured_routes(&self) -> (r: (
        Vec<(Vec<u8>, Account)>,
        Vec<(Vec<u8>, Account)>,
    ))
        requires
            self.wf(),
        ensures
            forall|j: int|
                0 <= j < r.0@.len() ==> {
                    let l = local_routes_of(self@.accounts, self@.next_account_id);
                    &&& l.contains_key((#[trigger] r.0@[j]).0@)
                    &&& r.0@[j].1.id == l[r.0@[j].0@]
                    &&& self@.accounts.contains_key(r.0@[j].1.id)
                    &&& r.0@[j].1@ == self@.accounts[r.0@[j].1.id]
                },
            forall|j: int, k: int| 0 <= j < k < r.0@.len() ==> r.0@[j].0@ != r.0@[k].0@,
            forall|p: Seq<u8>| #[trigger]
                local_routes_of(self@.accounts, self@.next_account_id).contains_key(p)
                    ==> exists|j: int| 0 <= j < r.0@.len() && (#[trigger] r.0@[j]).0@ == p,
            forall|j: int|
                0 <= j < r.1@.len() ==> {
                    let st = self@.static_routes;
                    &&& st.contains_key((#[trigger] r.1@[j]).0@)
                    &&& r.1@[j].1.id == st[r.1@[j].0@]
                    &&& self@.accounts.contains_key(r.1@[j].1.id)
                    &&& r.1@[j].1@ == self@.accounts[r.1@[j].1.id]
                },
            forall|j: int, k: int| 0 <= j < k < r.1@.len() ==> r.1@[j].0@ != r.1@[k].0@,
            forall|p: Seq<u8>|
                #![auto]
                self@.static_routes.contains_key(p) && self@.accounts.contains_key(
                    self@.static_routes[p],
                ) ==> exists|j: int| 0 <= j < r.1@.len() && (#[trigger] r.1@[j]).0@ == p,
    {
        let ghost l = local_routes_of(self@.accounts, self@.next_account_id);
        let mut local_table = RouteTable::new();
        let n = self.accounts.len();
        let mut i: usize = 0;
        while i < n
            invariant
                self.wf(),
                n == self.accounts@.len(),
                i <= n,
                local_table.wf(),
                local_table@ == local_routes_of(self@.accounts, i as nat),
            decreases n - i,
        {
            proof {
                assert(local_routes_of(self@.accounts, (i + 1) as nat) == (if self@.accounts.contains_key(
                    i as u64,
                ) {
                    local_routes_of(self@.accounts, i as nat).insert(
                        self@.accounts[i as u64].ilp_address,
                        i as u64,
                    )
                } else {
                    local_routes_of(self@.accounts, i as nat)
                }));
            }
            if let Some(a) = &self.accounts[i] {
                proof {
                    assert(a.id == i as u64);
                    assert(self@.accounts.contains_key(i as u64));
                    assert(self@.accounts[i as u64] == a@);
                }
                local_table.upsert(clone_bytes(&a.ilp_address), a.id);
            }
            i += 1;
        }
        proof {
            assert(local_table@ == l);
            lemma_local_routes_registered(self@.accounts, self@.next_account_id);
            local_table.lemma_entries_distinct();
        }
        let m = local_table.len();
        let mut local_pairs: Vec<(Vec<u8>, Account)> = Vec::new();
        let mut j: usize = 0;
        while j < m
            invariant
                self.wf(),
                local_table.wf(),
                local_table@ == l,
                (forall|p: Seq<u8>| #[trigger]
                    l.contains_key(p) ==> self@.accounts.contains_key(l[p])),
                m == local_table.entries_view().len(),
                j <= m,
                local_pairs@.len() == j,
                forall|k: int|
                    0 <= k < j ==> (#[trigger] local_pairs@[k]).0@
                        == local_table.entries_view()[k].0@,
                forall|k: int|
                    0 <= k < j ==> {
                        &&& l.contains_key((#[trigger] local_pairs@[k]).0@)
                        &&& local_pairs@[k].1.id == l[local_pairs@[k].0@]
                        &&& self@.accounts.contains_key(local_pairs@[k].1.id)
                        &&& local_pairs@[k].1@ == self@.accounts[local_pairs@[k].1.id]
                    },
            decreases m - j,
        {
            let (p, id) = local_table.entry_at(j);
            proof {
                local_table.lemma_entry_in_view(j as int);
            }
            match self.account_at(id) {
                Some(acct) => {
                    local_pairs.push((p, acct));
                },
                None => {
                    proof {
                        assert(false);
                    }
                },
            }
            j += 1;
        }
        proof {
            local_table.lemma_entries_distinct();
            assert forall|p: Seq<u8>| #[trigger] l.contains_key(p) implies exists|q: int|
                0 <= q < local_pairs@.len() && (#[trigger] local_pairs@[q]).0@ == p by {
                local_table.lemma_view_key_has_entry(p);
                let e = choose|e: int|
                    0 <= e < local_table.entries_view().len()
                        && local_table.entries_view()[e].0@ == p;
                assert(local_pairs@[e].0@ == p);
            }
        }
        let sn = self.static_routes.len();
        let mut configured: Vec<(Vec<u8>, Account)> = Vec::new();
        let mut k: usize = 0;
        proof {
            self.static_routes.lemma_entries_distinct();
        }
        while k < sn
            invariant
                self.wf(),
                sn == self.static_routes.entries_view().len(),
                k <= sn,
                forall|a: int, b: int|
                    0 <= a < b < sn ==> self.static_routes.entries_view()[a].0@
                        != self.static_routes.entries_view()[b].0@,
                forall|q: int|
                    0 <= q < configured@.len() ==> exists|e: int|
                        0 <= e < k && (#[trigger] configured@[q]).0@
                            == self.static_routes.entries_view()[e].0@,
                forall|q: int|
                    0 <= q < configured@.len() ==> {
                        &&& self@.static_routes.contains_key((#[trigger] configured@[q]).0@)
                        &&& configured@[q].1.id == self@.static_routes[configured@[q].0@]
                        &&& self@.accounts.contains_key(configured@[q].1.id)
                        &&& configured@[q].1@ == self@.accounts[configured@[q].1.id]
                    },
                forall|q: int, q2: int|
                    0 <= q < q2 < configured@.len() ==> (#[trigger] configured@[q]).0@ != (
                    #[trigger] configured@[q2]).0@,
                forall|e: int|
                    #![auto]
                    0 <= e < k && self@.accounts.contains_key(
                        self.static_routes.entries_view()[e].1,
                    ) ==> exists|q: int|
                        0 <= q < configured@.len() && (#[trigger] configured@[q]).0@
                            == self.static_routes.entries_view()[e].0@,
            decreases sn - k,
        {
            let (p, id) = self.static_routes.entry_at(k);
            proof {
                self.static_routes.lemma_entry_in_view(k as int);
            }
            match self.account_at(id) {
                Some(acct) => {
                    let ghost pre_conf = configured@;
                    configured.push((p, acct));
                    proof {
                        assert forall|e: int|
                            #![auto]
                            0 <= e < k + 1 && self@.accounts.contains_key(
                                self.static_routes.entries_view()[e].1,
                            ) implies exists|q: int|
                            0 <= q < configured@.len() && (#[trigger] configured@[q]).0@
                                == self.static_routes.entries_view()[e].0@ by {
                            if e < k {
                                let q = choose|q: int|
                                    0 <= q < pre_conf.len() && (#[trigger] pre_conf[q]).0@
                                        == self.static_routes.entries_view()[e].0@;
                                assert((configured@[q]).0@
                                    == self.static_routes.entries_view()[e].0@);
                            } else {
                                assert((configured@[configured@.len() - 1]).0@
                                    == self.static_routes.entries_view()[k as int].0@);
                            }
                        }
                    }
                },
                None => {
                    proof {
                        assert(!self@.accounts.contains_key(
                            self.static_routes.entries_view()[k as int].1,
                        ));
                    }
                },
            }
            k += 1;
        }
        proof {
            assert forall|p: Seq<u8>|
                #![auto]
                self@.static_routes.contains_key(p) && self@.accounts.contains_key(
                    self@.static_routes[p],
                ) implies exists|q: int|
                0 <= q < configured@.len() && (#[trigger] configured@[q]).0@ == p by {
                self.static_routes.lemma_view_key_has_entry(p);
                let e = choose|e: int|
                    0 <= e < self.static_routes.entries_view().len()
                        && self.static_routes.entries_view()[e].0@ == p;
                self.static_routes.lemma_entry_in_view(e);
            }
        }
        (local_pairs, configured)
    }
}

} // verus!
