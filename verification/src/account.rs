//! Account records: the registration input and the immutable record the
//! store issues for it, together with their mathematical views.
use vstd::prelude::*;
use crate::route_table::clone_bytes;

verus! {

/// What a caller supplies to register an account; everything but the id.
#[derive(Debug)]
pub struct AccountDetails {
    /// Byte-string routing prefix the account owns.
    pub ilp_address: Vec<u8>,
    /// Asset the account's ledger is kept in, case-insensitive.
    pub asset_code: String,
    /// Lower bound the balance may never cross when debited.
    pub min_balance: Option<i64>,
    /// Upper bound; recorded but not enforced by the transfer primitive.
    pub max_balance: Option<i64>,
    /// Opaque BTP credential, globally unique when present.
    pub btp_incoming_authorization: Option<String>,
    /// Opaque HTTP credential, globally unique when present.
    pub http_incoming_authorization: Option<String>,
    /// Settlement address, globally unique when present.
    pub xrp_address: Option<String>,
    /// Whether the account receives route broadcasts.
    pub send_routes: bool,
}

/// A registered account: an immutable detail record plus its issued id.
#[derive(Debug)]
pub struct Account {
    pub id: u64,
    pub ilp_address: Vec<u8>,
    pub asset_code: String,
    pub min_balance: Option<i64>,
    pub max_balance: Option<i64>,
    pub btp_incoming_authorization: Option<String>,
    pub http_incoming_authorization: Option<String>,
    pub xrp_address: Option<String>,
    pub send_routes: bool,
}

/// The view of an optional credential string.
pub open spec fn opt_str_view(o: Option<String>) -> Option<Seq<char>> {
    match o {
        Some(s) => Some(s@),
        None => None,
    }
}

/// Mathematical image of an `Account`.
pub ghost struct AccountView {
    pub id: u64,
    pub ilp_address: Seq<u8>,
    pub asset_code: Seq<char>,
    pub min_balance: Option<i64>,
    pub max_balance: Option<i64>,
    pub btp_incoming_authorization: Option<Seq<char>>,
    pub http_incoming_authorization: Option<Seq<char>>,
    pub xrp_address: Option<Seq<char>>,
    pub send_routes: bool,
}

/// Mathematical image of an `AccountDetails`.
pub ghost struct AccountDetailsView {
    pub ilp_address: Seq<u8>,
    pub asset_code: Seq<char>,
    pub min_balance: Option<i64>,
    pub max_balance: Option<i64>,
    pub btp_incoming_authorization: Option<Seq<char>>,
    pub http_incoming_authorization: Option<Seq<char>>,
    pub xrp_address: Option<Seq<char>>,
    pub send_routes: bool,
}

impl View for Account {
    type V = AccountView;

    open spec fn view(&self) -> AccountView {
        AccountView {
            id: self.id,
            ilp_address: self.ilp_address@,
            asset_code: self.asset_code@,
            min_balance: self.min_balance,
            max_balance: self.max_balance,
            btp_incoming_authorization: opt_str_view(self.btp_incoming_authorization),
            http_incoming_authorization: opt_str_view(self.http_incoming_authorization),
            xrp_address: opt_str_view(self.xrp_address),
            send_routes: self.send_routes,
        }
    }
}

impl View for AccountDetails {
    type V = AccountDetailsView;

    open spec fn view(&self) -> AccountDetailsView {
        AccountDetailsView {
            ilp_address: self.ilp_address@,
            asset_code: self.asset_code@,
            min_balance: self.min_balance,
            max_balance: self.max_balance,
            btp_incoming_authorization: opt_str_view(self.btp_incoming_authorization),
            http_incoming_authorization: opt_str_view(self.http_incoming_authorization),
            xrp_address: opt_str_view(self.xrp_address),
            send_routes: self.send_routes,
        }
    }
}

/// The record that registering the given details under the given id issues.
pub open spec fn account_of(d: AccountDetailsView, id: u64) -> AccountView {
    AccountView {
        id,
        ilp_address: d.ilp_address,
        asset_code: d.asset_code,
        min_balance: d.min_balance,
        max_balance: d.max_balance,
        btp_incoming_authorization: d.btp_incoming_authorization,
        http_incoming_authorization: d.http_incoming_authorization,
        xrp_address: d.xrp_address,
        send_routes: d.send_routes,
    }
}

/// Copies an optional credential string.
pub fn clone_opt_string(o: &Option<String>) -> (r: Option<String>)
    ensures
        opt_str_view(r) == opt_str_view(*o),
{
    match o {
        Some(s) => Some(s.clone()),
        None => None,
    }
}

impl Account {
    /// Builds the record that registration under the given id issues.
    pub fn from_details(id: u64, details: &AccountDetails) -> (r: Account)
        ensures
            r@ == account_of(details@, id),
    {
        Account {
            id,
            ilp_address: clone_bytes(&details.ilp_address),
            asset_code: details.asset_code.clone(),
            min_balance: details.min_balance,
            max_balance: details.max_balance,
            btp_incoming_authorization: clone_opt_string(&details.btp_incoming_authorization),
            http_incoming_authorization: clone_opt_string(&details.http_incoming_authorization),
            xrp_address: clone_opt_string(&details.xrp_address),
            send_routes: details.send_routes,
        }
    }

    /// Copies the record.
    pub fn duplicate(&self) -> (r: Account)
        ensures
            r@ == self@,
    {
        Account {
            id: self.id,
            ilp_address: clone_bytes(&self.ilp_address),
            asset_code: self.asset_code.clone(),
            min_balance: self.min_balance,
            max_balance: self.max_balance,
            btp_incoming_authorization: clone_opt_string(&self.btp_incoming_authorization),
            http_incoming_authorization: clone_opt_string(&self.http_incoming_authorization),
            xrp_address: clone_opt_string(&self.xrp_address),
            send_routes: self.send_routes,
        }
    }
}

} // verus!
