//! Plain data carried through the invoice engine: identities, transfer
//! records, invoices and the error taxonomy.

use vstd::prelude::*;

verus! {

/// Nanosecond timestamp, also used to label a pricing epoch.
pub type Timestamp = u64;

/// Identifier of the shop an invoice belongs to.
pub type ShopId = u64;

/// USD amount in fixed-point e8s units.
pub type USD = u64;

/// Opaque 256-bit invoice identifier, derived by hashing.
pub type InvoiceId = [u8; 32];

/// Secondary address component routing a payment to one shop's balance.
pub type Subaccount = [u8; 32];

/// An identity on the ledger (a caller, this system, or a token's own id),
/// carried as an opaque fixed-width byte value.
#[derive(Clone, Copy, Debug)]
pub struct Principal {
    pub bytes: [u8; 32],
}

impl Principal {
    pub open spec fn view(self) -> Seq<u8> {
        self.bytes@
    }

    /// Byte-for-byte identity comparison.
    pub fn same_as(&self, other: &Principal) -> (r: bool)
        ensures
            r == (self@ == other@),
    {
        array_eq(&self.bytes, &other.bytes)
    }
}

/// Identifier of a supported token ledger.
pub type TokenId = Principal;

/// How far payment of an invoice has progressed.
#[derive(Clone, Copy, Debug)]
pub enum InvoiceStatus {
    /// Awaiting payment; `ttl` is a countdown that the expiry sweep decrements.
    Created { ttl: u8 },
    /// A verification attempt is in flight; acts as an exclusive lock token.
    VerifyPayment,
    /// Terminal; records what was actually received.
    Paid { timestamp: Timestamp, token_id: TokenId, qty: u64, exchange_rate: USD },
}

/// A payment request issued against the ledger.
#[derive(Clone, Copy, Debug)]
pub struct Invoice {
    pub id: InvoiceId,
    pub status: InvoiceStatus,
    pub creator: Principal,
    pub qty_usd: USD,
    pub created_at: Timestamp,
    /// The pricing epoch in effect at creation; fixes which exchange rate applies.
    pub exchange_rates_timestamp: Timestamp,
    pub shop_id: ShopId,
}

/// A decoded ledger transfer record, as handed in by the ledger client.
#[derive(Clone, Copy, Debug)]
pub struct TransferTxn {
    pub to_owner: Principal,
    pub to_subaccount: Option<Subaccount>,
    pub memo: [u8; 32],
    pub token_id: TokenId,
    pub qty: u64,
}

/// One specific failure of a public operation; never a generic error.
#[derive(Clone, Copy, Debug, PartialEq, Eq, Structural)]
pub enum InvoiceError {
    /// Unknown invoice identifier.
    NotFound,
    /// Caller is not the invoice's creator, or may not create for the shop.
    AccessDenied,
    /// The invoice is not in the state the operation demands.
    InvalidStatus,
    /// The transfer went to a foreign recipient address; the funds cannot be
    /// recovered by retrying.
    LostFundsWrongRecipient,
    /// The transfer reached this system but under a wrong sub-identifier;
    /// the funds cannot be recovered by retrying.
    LostFundsWrongSubaccount,
    /// The transfer reached this system but carries a wrong memo; the funds
    /// cannot be recovered by retrying.
    LostFundsWrongMemo,
    /// The transfer, priced at the applicable rate, underpays the invoice.
    InsufficientTransfer,
    /// The transferred token is unknown to the system.
    UnsupportedToken,
    /// A rate, ledger or archive collaborator failed or timed out.
    ExternalFailure,
}

/// Compares two 32-byte values.
pub fn array_eq(a: &[u8; 32], b: &[u8; 32]) -> (r: bool)
    ensures
        r == (a@ == b@),
{
    let mut i: usize = 0;
    while i < 32
        invariant
            0 <= i <= 32,
            forall|j: int| 0 <= j < i ==> a@[j] == b@[j],
        decreases 32 - i,
    {
        if a[i] != b[i] {
            assert(a@ != b@);
            return false;
        }
        i += 1;
    }
    assert(a@ =~= b@);
    true
}

} // verus!
