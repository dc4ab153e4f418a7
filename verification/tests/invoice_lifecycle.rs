use payment_hub::hashing::{calc_shop_subaccount, generate_invoice_id, make_invoice_memo};
use payment_hub::store::{garbage_collect_invoices, get_invoice, GetInvoiceRequest, InvoicesState};
use payment_hub::types::{Invoice, InvoiceError, InvoiceStatus, Principal, TransferTxn};
use payment_hub::{DEFAULT_TTL, RECYCLING_TTL};

fn principal(tag: u8) -> Principal {
    Principal { bytes: [tag; 32] }
}

fn good_txn(id: &[u8; 32], shop_id: u64, hub: Principal, qty: u64) -> TransferTxn {
    TransferTxn {
        to_owner: hub,
        to_subaccount: Some(calc_shop_subaccount(shop_id)),
        memo: make_invoice_memo(id),
        token_id: principal(9),
        qty,
    }
}

fn ttl_of(inv: &Invoice) -> u8 {
    match inv.status {
        InvoiceStatus::Created { ttl } => ttl,
        _ => panic!("invoice is not awaiting payment"),
    }
}

#[test]
fn create_reads_back_created_with_default_ttl() {
    let mut s = InvoicesState::default();
    let creator = principal(1);
    let id = s.create(1000, 7, 11, 500, creator);
    let got = s.get(&id).expect("created invoice must be found");
    assert_eq!(ttl_of(&got), DEFAULT_TTL);
    assert_eq!(got.qty_usd, 1000);
    assert_eq!(got.shop_id, 7);
    assert_eq!(got.created_at, 11);
    assert_eq!(got.exchange_rates_timestamp, 500);
    assert_eq!(got.creator.bytes, creator.bytes);
    assert_eq!(got.id, id);
    // the response wrapper hands out the same invoice
    let resp = get_invoice(&s, GetInvoiceRequest { invoice_id: id });
    assert_eq!(resp.invoice_opt.unwrap().id, id);
}

#[test]
fn sweeps_strictly_decrease_ttl_then_delete_and_evict_once() {
    let mut s = InvoicesState::default();
    let epoch = 500u64;
    let id = s.create(1000, 7, 11, epoch, principal(1));
    let mut prev = DEFAULT_TTL;
    // each sweep decrements by one until the floor is reached
    while prev > RECYCLING_TTL {
        let evicted = s.purge_expired();
        assert!(evicted.is_empty());
        let now = ttl_of(&s.get(&id).expect("invoice still live"));
        assert_eq!(now, prev - 1);
        prev = now;
        if prev == RECYCLING_TTL {
            break;
        }
    }
    assert_eq!(prev, RECYCLING_TTL);
    // at the floor, the next sweep deletes the invoice and evicts the epoch
    let evicted = garbage_collect_invoices(&mut s);
    assert!(s.get(&id).is_none());
    assert_eq!(evicted, vec![epoch]);
    assert!(!s.has_epoch_bucket(epoch));
    assert_eq!(s.active_bucket_count(), 0);
    // a sweep over an empty index is a no-op
    assert!(s.purge_expired().is_empty());
}

#[test]
fn reserved_invoice_rejects_second_attempt() {
    let mut s = InvoicesState::default();
    let creator = principal(1);
    let id = s.create(1000, 7, 11, 500, creator);
    let (epoch, ttl) = s
        .reserve_for_verification(&id, creator)
        .expect("first reservation succeeds");
    assert_eq!(epoch, 500);
    assert_eq!(ttl, DEFAULT_TTL);
    let second = s.reserve_for_verification(&id, creator);
    assert_eq!(second, Err(InvoiceError::InvalidStatus));
}

#[test]
fn reservation_checks_identity_and_existence() {
    let mut s = InvoicesState::default();
    let id = s.create(1000, 7, 11, 500, principal(1));
    assert_eq!(
        s.reserve_for_verification(&id, principal(2)),
        Err(InvoiceError::AccessDenied)
    );
    let unknown = [0xAAu8; 32];
    assert_eq!(
        s.reserve_for_verification(&unknown, principal(1)),
        Err(InvoiceError::NotFound)
    );
}

#[test]
fn successful_payment_happens_exactly_once() {
    let mut s = InvoicesState::default();
    let creator = principal(1);
    let hub = principal(3);
    let id = s.create(10, 7, 11, 500, creator);
    s.reserve_for_verification(&id, creator).unwrap();
    let txn = good_txn(&id, 7, hub, 2);
    let (paid, _) = s.verify_payment(&id, txn, 5, hub, 999).expect("payment verifies");
    assert!(matches!(paid.status, InvoiceStatus::Paid { .. }));
    // replaying the same verification fails: the invoice is terminal
    let replay = s.verify_payment(&id, txn, 5, hub, 1000);
    assert_eq!(replay.unwrap_err(), InvoiceError::InvalidStatus);
    // and it cannot be reserved again either
    assert_eq!(
        s.reserve_for_verification(&id, creator),
        Err(InvoiceError::InvalidStatus)
    );
}

#[test]
fn wrong_subaccount_is_lost_funds_and_ttl_is_restored() {
    let mut s = InvoicesState::default();
    let creator = principal(1);
    let hub = principal(3);
    let id = s.create(10, 7, 11, 500, creator);
    // age the invoice by one sweep so the restored ttl is distinguishable
    s.purge_expired();
    let (_, ttl) = s.reserve_for_verification(&id, creator).unwrap();
    assert_eq!(ttl, DEFAULT_TTL - 1);
    let mut txn = good_txn(&id, 7, hub, 2);
    txn.to_subaccount = Some(calc_shop_subaccount(8)); // another shop's routing
    let r = s.verify_payment(&id, txn, 5, hub, 999);
    assert_eq!(r.unwrap_err(), InvoiceError::LostFundsWrongSubaccount);
    s.restore_after_verification(&id, ttl);
    let got = s.get(&id).unwrap();
    assert_eq!(ttl_of(&got), DEFAULT_TTL - 1);
}

#[test]
fn wrong_memo_is_lost_funds() {
    let mut s = InvoicesState::default();
    let creator = principal(1);
    let hub = principal(3);
    let id = s.create(10, 7, 11, 500, creator);
    let (_, ttl) = s.reserve_for_verification(&id, creator).unwrap();
    let mut txn = good_txn(&id, 7, hub, 2);
    // a memo that skipped the derivation entirely does not match
    txn.memo = id;
    let r = s.verify_payment(&id, txn, 5, hub, 999);
    assert_eq!(r.unwrap_err(), InvoiceError::LostFundsWrongMemo);
    s.restore_after_verification(&id, ttl);
    assert_eq!(ttl_of(&s.get(&id).unwrap()), DEFAULT_TTL);
}

#[test]
fn wrong_recipient_is_lost_funds() {
    let mut s = InvoicesState::default();
    let creator = principal(1);
    let hub = principal(3);
    let id = s.create(10, 7, 11, 500, creator);
    let (_, ttl) = s.reserve_for_verification(&id, creator).unwrap();
    let mut txn = good_txn(&id, 7, hub, 2);
    txn.to_owner = principal(4);
    let r = s.verify_payment(&id, txn, 5, hub, 999);
    assert_eq!(r.unwrap_err(), InvoiceError::LostFundsWrongRecipient);
    s.restore_after_verification(&id, ttl);
}

#[test]
fn underpayment_is_rejected_and_overpayment_accepted() {
    let mut s = InvoicesState::default();
    let creator = principal(1);
    let hub = principal(3);
    let id = s.create(11, 7, 11, 500, creator);
    let (_, ttl) = s.reserve_for_verification(&id, creator).unwrap();
    // 5 * 2 = 10 < 11: underpays
    let txn = good_txn(&id, 7, hub, 2);
    let r = s.verify_payment(&id, txn, 5, hub, 999);
    assert_eq!(r.unwrap_err(), InvoiceError::InsufficientTransfer);
    s.restore_after_verification(&id, ttl);
    // 5 * 3 = 15 >= 11: overpayment is accepted
    s.reserve_for_verification(&id, creator).unwrap();
    let txn = good_txn(&id, 7, hub, 3);
    let (paid, _) = s.verify_payment(&id, txn, 5, hub, 999).expect("overpayment covers");
    match paid.status {
        InvoiceStatus::Paid { qty, exchange_rate, .. } => {
            assert_eq!(qty, 3);
            assert_eq!(exchange_rate, 5);
        }
        _ => panic!("expected a paid invoice"),
    }
}

#[test]
fn missing_subaccount_counts_as_all_zeroes() {
    let mut s = InvoicesState::default();
    let creator = principal(1);
    let hub = principal(3);
    let id = s.create(10, 7, 11, 500, creator);
    s.reserve_for_verification(&id, creator).unwrap();
    let mut txn = good_txn(&id, 7, hub, 2);
    txn.to_subaccount = None;
    let r = s.verify_payment(&id, txn, 5, hub, 999);
    assert_eq!(r.unwrap_err(), InvoiceError::LostFundsWrongSubaccount);
}

#[test]
fn archive_extraction_and_reapplication_round_trip() {
    let mut s = InvoicesState::default();
    let creator = principal(1);
    let hub = principal(3);
    let mut ids = Vec::new();
    for t in 0..3u64 {
        let id = s.create(10, 7, t, 500, creator);
        ids.push(id);
    }
    // pay two of the three
    for id in ids.iter().take(2) {
        s.reserve_for_verification(id, creator).unwrap();
        let txn = good_txn(id, 7, hub, 2);
        s.verify_payment(id, txn, 5, hub, 999).unwrap();
    }
    assert_eq!(s.inactive_count(), 2);
    let before: Vec<Invoice> = ids.iter().map(|id| s.get(id).unwrap()).collect();
    // extraction drains the inactive set and the map together
    let batch = s.prepare_archive_batch(10);
    assert_eq!(batch.len(), 2);
    assert_eq!(s.inactive_count(), 0);
    assert!(s.get(&ids[0]).is_none());
    assert!(s.get(&ids[1]).is_none());
    assert!(s.get(&ids[2]).is_some());
    // reapplication restores the exact pre-extraction picture
    s.reapply_archive_batch(batch);
    assert_eq!(s.inactive_count(), 2);
    for (id, old) in ids.iter().zip(before.iter()) {
        let now = s.get(id).unwrap();
        assert_eq!(now.id, old.id);
        assert_eq!(now.qty_usd, old.qty_usd);
        assert_eq!(now.created_at, old.created_at);
        match (now.status, old.status) {
            (InvoiceStatus::Paid { qty: a, .. }, InvoiceStatus::Paid { qty: b, .. }) => {
                assert_eq!(a, b)
            }
            (InvoiceStatus::Created { ttl: a }, InvoiceStatus::Created { ttl: b }) => {
                assert_eq!(a, b)
            }
            _ => panic!("status changed across the round trip"),
        }
    }
    assert!(s.is_inactive(&ids[0]));
    assert!(s.is_inactive(&ids[1]));
    assert!(!s.is_inactive(&ids[2]));
    // a bounded extraction takes no more than asked
    let one = s.prepare_archive_batch(1);
    assert_eq!(one.len(), 1);
    assert_eq!(s.inactive_count(), 1);
    s.reapply_archive_batch(one);
}

#[test]
fn payment_of_last_invoice_empties_bucket_and_flags_empty_index() {
    let mut s = InvoicesState::default();
    let creator = principal(1);
    let hub = principal(3);
    let a = s.create(10, 7, 1, 500, creator);
    let b = s.create(10, 7, 2, 600, creator);
    // paying the only invoice of epoch 500 removes that bucket,
    // but the index still holds epoch 600
    s.reserve_for_verification(&a, creator).unwrap();
    let (_, all_empty) = s
        .verify_payment(&a, good_txn(&a, 7, hub, 2), 5, hub, 999)
        .unwrap();
    assert!(!all_empty);
    assert!(!s.has_epoch_bucket(500));
    assert!(s.has_epoch_bucket(600));
    // paying the last invoice drains the whole index
    s.reserve_for_verification(&b, creator).unwrap();
    let (_, all_empty) = s
        .verify_payment(&b, good_txn(&b, 7, hub, 2), 5, hub, 999)
        .unwrap();
    assert!(all_empty);
    assert_eq!(s.active_bucket_count(), 0);
}

#[test]
fn example_scenario_two_tokens_at_rate_five_cover_ten_usd() {
    let mut s = InvoicesState::default();
    let creator = principal(1);
    let hub = principal(3);
    let shop = 42u64;
    let epoch = 7_000u64;
    let id = s.create(10, shop, 123, epoch, creator);
    assert_eq!(s.total_processed(), 0);
    s.reserve_for_verification(&id, creator).unwrap();
    let txn = good_txn(&id, shop, hub, 2);
    let (paid, _) = s.verify_payment(&id, txn, 5, hub, 999).unwrap();
    match paid.status {
        InvoiceStatus::Paid { qty, exchange_rate, timestamp, .. } => {
            assert_eq!(qty, 2);
            assert_eq!(exchange_rate, 5);
            assert_eq!(timestamp, 999);
        }
        _ => panic!("expected a paid invoice"),
    }
    assert_eq!(s.total_processed(), 10);
    assert!(s.is_inactive(&id));
}

#[test]
fn identifier_derivation_depends_on_seed_salt_and_domain() {
    let mut s = InvoicesState::default();
    s.init_id_seed(&[5u8; 32]);
    let mut s2 = InvoicesState::default();
    s2.init_id_seed(&[6u8; 32]);
    // different seeds give different identifiers for the same salt
    let a = s.create(10, 7, 11, 500, principal(1));
    let b = s2.create(10, 7, 11, 500, principal(1));
    assert_ne!(a, b);
    // different salts give different identifiers under one seed
    let c = s.create(10, 7, 12, 500, principal(1));
    assert_ne!(a, c);
    // the memo derivation transforms its input
    assert_ne!(make_invoice_memo(&a), a);
    assert_ne!(make_invoice_memo(&a), make_invoice_memo(&c));
    // the sub-identifier derivation distinguishes shops
    assert_ne!(calc_shop_subaccount(7), calc_shop_subaccount(8));
    // an identifier is a pure function of seed and salt
    assert_eq!(generate_invoice_id(&[5u8; 32], 11), a);
}

#[test]
fn checked_creation_reports_identifier_collisions() {
    let mut s = InvoicesState::default();
    let first = s.create_checked(10, 7, 11, 500, principal(1));
    assert!(first.is_some());
    // the same salt under the same seed derives the same identifier
    let again = s.create_checked(10, 7, 11, 500, principal(1));
    assert!(again.is_none());
    let other = s.create_checked(10, 7, 12, 500, principal(1));
    assert!(other.is_some());
    assert_eq!(s.invoice_count(), 2);
}
