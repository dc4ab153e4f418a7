//! The lifecycle laws of the invoice engine, each proved from the
//! operations' contracts alone.

use vstd::prelude::*;
use crate::store::InvoicesState;
use crate::types::{Invoice, InvoiceError, InvoiceId, InvoiceStatus, Principal, ShopId, Timestamp, TransferTxn, USD};
use crate::{DEFAULT_TTL, RECYCLING_TTL};

verus! {

/// Immediately after creation, looking the new invoice up finds it
/// awaiting payment with the full default countdown and the recorded
/// request data.
pub proof fn law_created_invoice_reads_back(
    pre: InvoicesState,
    post: InvoicesState,
    qty_usd: USD,
    shop_id: ShopId,
    timestamp: Timestamp,
    epoch: Timestamp,
    caller: Principal,
    id: InvoiceId,
)
    requires
        InvoicesState::create_post(pre, post, qty_usd, shop_id, timestamp, epoch, caller, id),
    ensures
        post.has_invoice(id@),
        post.invoice_of(id@).status == (InvoiceStatus::Created { ttl: DEFAULT_TTL }),
        post.invoice_of(id@).qty_usd == qty_usd,
        post.invoice_of(id@).shop_id == shop_id,
        post.invoice_of(id@).creator == caller,
        post.invoice_of(id@).exchange_rates_timestamp == epoch,
{
}

/// Repeated expiry sweeps strictly decrease a live invoice's countdown;
/// once it reaches the floor, the next sweep deletes the invoice, so a
/// lookup no longer finds it.
pub proof fn law_repeated_sweeps_strictly_decrease(
    s0: InvoicesState,
    s1: InvoicesState,
    s2: InvoicesState,
    ev1: Seq<Timestamp>,
    ev2: Seq<Timestamp>,
    k: Seq<u8>,
    ttl: u8,
)
    requires
        InvoicesState::purge_post(s0, s1, ev1),
        InvoicesState::purge_post(s1, s2, ev2),
        s0.has_invoice(k),
        s0.invoice_of(k).status == (InvoiceStatus::Created { ttl }),
    ensures
        ttl > RECYCLING_TTL ==> s1.has_invoice(k) && s1.invoice_of(k).status == (
        InvoiceStatus::Created { ttl: (ttl - 1) as u8 }),
        ttl > RECYCLING_TTL + 1 ==> s2.has_invoice(k) && s2.invoice_of(k).status == (
        InvoiceStatus::Created { ttl: (ttl - 2) as u8 }),
        ttl == RECYCLING_TTL + 1 ==> s1.has_invoice(k) && !s2.has_invoice(k),
        ttl <= RECYCLING_TTL ==> !s1.has_invoice(k),
{
}

/// An invoice reserved for verification rejects a second concurrent
/// verification attempt by its creator with the invalid-status error,
/// whatever the first attempt will eventually conclude, and the store is
/// untouched.
pub proof fn law_reserved_invoice_rejects_second_attempt(
    s: InvoicesState,
    s2: InvoicesState,
    id: InvoiceId,
    caller: Principal,
    r: Result<(Timestamp, u8), InvoiceError>,
)
    requires
        s.has_invoice(id@),
        s.invoice_of(id@).status is VerifyPayment,
        s.invoice_of(id@).creator@ == caller@,
        InvoicesState::reserve_post(s, s2, id, caller, r),
    ensures
        r == Err::<(Timestamp, u8), InvoiceError>(InvoiceError::InvalidStatus),
        s2 == s,
{
}

/// A satisfying transfer pays an invoice exactly once: a successful
/// verification leaves the invoice `Paid`, and replaying the verification
/// call — or trying to reserve the invoice again — fails with the
/// invalid-status error and changes nothing.
pub proof fn law_payment_succeeds_exactly_once(
    s0: InvoicesState,
    s1: InvoicesState,
    s2: InvoicesState,
    s3: InvoicesState,
    id: InvoiceId,
    txn: TransferTxn,
    txn2: TransferTxn,
    rate: USD,
    rate2: USD,
    own: Principal,
    now: Timestamp,
    later: Timestamp,
    caller: Principal,
    r1: Result<(Invoice, bool), InvoiceError>,
    r2: Result<(Invoice, bool), InvoiceError>,
    r3: Result<(Timestamp, u8), InvoiceError>,
)
    requires
        InvoicesState::verify_post(s0, s1, id, txn, rate, own, now, r1),
        r1 is Ok,
        InvoicesState::verify_post(s1, s2, id, txn2, rate2, own, later, r2),
        InvoicesState::reserve_post(s1, s3, id, caller, r3),
        s1.has_invoice(id@) ==> s1.invoice_of(id@).creator@ == caller@,
    ensures
        s1.has_invoice(id@),
        s1.invoice_of(id@).status is Paid,
        r2 == Err::<(Invoice, bool), InvoiceError>(InvoiceError::InvalidStatus),
        s2 == s1,
        r3 == Err::<(Timestamp, u8), InvoiceError>(InvoiceError::InvalidStatus),
        s3 == s1,
{
}

/// A verification attempt that fails after reservation, followed by the
/// rollback with the captured countdown, leaves every invoice and every
/// index exactly as before the reservation: the invoice is payable again
/// with its pre-reservation countdown intact.
pub proof fn law_failed_verification_restores(
    s0: InvoicesState,
    s1: InvoicesState,
    s2: InvoicesState,
    s3: InvoicesState,
    id: InvoiceId,
    caller: Principal,
    epoch: Timestamp,
    ttl: u8,
    txn: TransferTxn,
    rate: USD,
    own: Principal,
    now: Timestamp,
    rv: Result<(Invoice, bool), InvoiceError>,
)
    requires
        InvoicesState::reserve_post(
            s0,
            s1,
            id,
            caller,
            Ok::<(Timestamp, u8), InvoiceError>((epoch, ttl)),
        ),
        InvoicesState::verify_post(s1, s2, id, txn, rate, own, now, rv),
        rv is Err,
        InvoicesState::restore_post(s2, s3, id, ttl),
    ensures
        s3.has_invoice(id@),
        s3.invoice_of(id@) == s0.invoice_of(id@),
        s3.invoice_of(id@).status == (InvoiceStatus::Created { ttl }),
        forall|k: Seq<u8>| #[trigger] s3.has_invoice(k) == s0.has_invoice(k),
        forall|k: Seq<u8>|
            k != id@ && s0.has_invoice(k) ==> #[trigger] s3.invoice_of(k) == s0.invoice_of(k),
        s3.active_invoices == s0.active_invoices,
        s3.inactive_invoices == s0.inactive_invoices,
        s3.total_processed_in_usd == s0.total_processed_in_usd,
{
    assert(s2 == s1);
    assert(s0.invoice_of(id@).status == (InvoiceStatus::Created { ttl }));
    assert(s3.invoice_of(id@) == InvoicesState::with_status(
        s1.invoice_of(id@),
        InvoiceStatus::Created { ttl },
    ));
    assert(s1.invoice_of(id@) == InvoicesState::with_status(
        s0.invoice_of(id@),
        InvoiceStatus::VerifyPayment,
    ));
}

/// Extracting an archive batch and immediately reapplying the same batch
/// restores the invoice map and the inactive set: no invoice is lost
/// unless the external handoff was confirmed.
pub proof fn law_archive_round_trip(
    s0: InvoicesState,
    s1: InvoicesState,
    s2: InvoicesState,
    size: int,
    batch: Seq<Invoice>,
)
    requires
        InvoicesState::prepare_post(s0, s1, size, batch),
        InvoicesState::reapply_post(s1, batch, s2),
    ensures
        forall|k: Seq<u8>| #[trigger] s2.has_invoice(k) == s0.has_invoice(k),
        forall|k: Seq<u8>|
            s0.has_invoice(k) ==> #[trigger] s2.invoice_of(k) == s0.invoice_of(k),
        forall|k: Seq<u8>| #[trigger] s2.in_inactive(k) == s0.in_inactive(k),
        s2.active_invoices == s0.active_invoices,
        s2.total_processed_in_usd == s0.total_processed_in_usd,
{
    assert forall|k: Seq<u8>| #[trigger] s2.has_invoice(k) == s0.has_invoice(k) by {
        if InvoicesState::batch_ids_contain(batch, k) {
            let i = choose|i: int| 0 <= i < batch.len() && (#[trigger] batch[i]).id@ == k;
            assert(s0.has_invoice(batch[i].id@));
        }
    }
    assert forall|k: Seq<u8>| s0.has_invoice(k) implies #[trigger] s2.invoice_of(k)
        == s0.invoice_of(k) by {
        if InvoicesState::batch_ids_contain(batch, k) {
            let i = choose|i: int| 0 <= i < batch.len() && (#[trigger] batch[i]).id@ == k;
            assert(s2.invoice_of(batch[i].id@) == batch[i]);
            assert(batch[i] == s0.invoice_of(batch[i].id@));
        } else {
            assert(s1.has_invoice(k));
            assert(s1.invoice_of(k) == s0.invoice_of(k));
            assert(s2.invoice_of(k) == s1.invoice_of(k));
        }
    }
    assert forall|k: Seq<u8>| #[trigger] s2.in_inactive(k) == s0.in_inactive(k) by {
        if InvoicesState::batch_ids_contain(batch, k) {
            let i = choose|i: int| 0 <= i < batch.len() && (#[trigger] batch[i]).id@ == k;
            assert(s0.in_inactive(k)) by {
                assert(s0.inactive_invoices@[i]@ == k);
            }
        }
    }
}

/// When a sweep removes the last invoice of an epoch's bucket, the bucket
/// disappears from the active index, and the sweep reports that epoch for
/// rate eviction exactly once; a bucket with a survivor stays and is not
/// reported.
pub proof fn law_eviction_reported_exactly_once(
    s0: InvoicesState,
    s1: InvoicesState,
    evicted: Seq<Timestamp>,
    e: Timestamp,
)
    requires
        InvoicesState::purge_post(s0, s1, evicted),
    ensures
        evicted.contains(e) == (s0.has_bucket(e) && !s1.has_bucket(e)),
        forall|x: int, y: int| 0 <= x < y < evicted.len() ==> evicted[x] != evicted[y],
{
}

} // verus!
