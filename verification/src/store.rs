//! The authoritative keyed collection of invoices plus its two secondary
//! indices: an active index partitioned by pricing epoch, and an inactive
//! set of paid-but-unarchived invoices.

use vstd::prelude::*;
use crate::types::{Invoice, InvoiceError, InvoiceId, InvoiceStatus, Principal, ShopId, Timestamp, USD, array_eq};
use crate::hashing::{
    spec_generate_id, generate_invoice_id, spec_invoice_memo, make_invoice_memo,
    spec_shop_subaccount, calc_shop_subaccount,
};
use crate::types::TransferTxn;
use crate::{DEFAULT_TTL, RECYCLING_TTL};

verus! {

/// One partition of the active index: the invoices created under one
/// pricing epoch that are still awaiting payment or verification.
#[derive(Clone, Debug)]
pub struct EpochBucket {
    pub epoch: Timestamp,
    pub ids: Vec<InvoiceId>,
}

/// The aggregate state of the invoice engine.
#[derive(Clone, Debug)]
pub struct InvoicesState {
    /// Seed for identifier derivation, set once at first activation.
    pub invoice_id_generator: InvoiceId,
    /// The invoice map, keyed by the id each invoice carries.
    pub invoices: Vec<Invoice>,
    /// Active index: per pricing epoch, the ids still awaiting payment.
    pub active_invoices: Vec<EpochBucket>,
    /// Ids of paid invoices awaiting archival.
    pub inactive_invoices: Vec<InvoiceId>,
    /// Running total of processed USD volume.
    pub total_processed_in_usd: u128,
}

impl InvoicesState {
    // ----- the invoice map, seen as a keyed collection -----

    /// Whether an invoice with this id is present.
    pub open spec fn has_invoice(self, id: Seq<u8>) -> bool {
        exists|i: int| 0 <= i < self.invoices@.len() && (#[trigger] self.invoices@[i]).id@ == id
    }

    /// Index of the invoice with this id (meaningful when unique).
    pub open spec fn invoice_idx(self, id: Seq<u8>) -> int {
        choose|i: int| 0 <= i < self.invoices@.len() && (#[trigger] self.invoices@[i]).id@ == id
    }

    /// The invoice stored under this id.
    pub open spec fn invoice_of(self, id: Seq<u8>) -> Invoice {
        self.invoices@[self.invoice_idx(id)]
    }

    // ----- the active index -----

    /// Whether the active index holds a bucket for this epoch.
    pub open spec fn has_bucket(self, epoch: Timestamp) -> bool {
        exists|i: int|
            0 <= i < self.active_invoices@.len() && (#[trigger] self.active_invoices@[i]).epoch
                == epoch
    }

    /// Index of the bucket for this epoch (meaningful when unique).
    pub open spec fn bucket_idx(self, epoch: Timestamp) -> int {
        choose|i: int|
            0 <= i < self.active_invoices@.len() && (#[trigger] self.active_invoices@[i]).epoch
                == epoch
    }

    /// The ids in the bucket for this epoch.
    pub open spec fn bucket_ids(self, epoch: Timestamp) -> Seq<InvoiceId> {
        self.active_invoices@[self.bucket_idx(epoch)].ids@
    }

    /// Whether this id is listed in the active index under this epoch.
    pub open spec fn in_active(self, epoch: Timestamp, id: Seq<u8>) -> bool {
        self.has_bucket(epoch) && exists|j: int|
            0 <= j < self.bucket_ids(epoch).len() && (#[trigger] self.bucket_ids(epoch)[j])@ == id
    }

    // ----- the inactive set -----

    /// Whether this id is in the inactive (paid, unarchived) set.
    pub open spec fn in_inactive(self, id: Seq<u8>) -> bool {
        exists|i: int|
            0 <= i < self.inactive_invoices@.len() && (#[trigger] self.inactive_invoices@[i])@
                == id
    }

    // ----- well-formedness -----

    /// An invoice's placement: a paid invoice sits in the inactive set,
    /// any other sits in the active bucket of its own pricing epoch.
    pub open spec fn invoice_placed(self, inv: Invoice) -> bool {
        if inv.status is Paid {
            self.in_inactive(inv.id@)
        } else {
            self.in_active(inv.exchange_rates_timestamp, inv.id@)
        }
    }

    /// Internal consistency of the store: unique keys everywhere, no empty
    /// bucket, every indexed id backed by an invoice in a fitting status,
    /// and every invoice placed in exactly one index.
    pub open spec fn wf(self) -> bool {
        &&& forall|i: int, j: int|
            0 <= i < j < self.invoices@.len() ==> (#[trigger] self.invoices@[i]).id@ != (
            #[trigger] self.invoices@[j]).id@
        &&& forall|i: int, j: int|
            0 <= i < j < self.active_invoices@.len() ==> (
            #[trigger] self.active_invoices@[i]).epoch != (
            #[trigger] self.active_invoices@[j]).epoch
        &&& forall|b: int|
            0 <= b < self.active_invoices@.len() ==> (#[trigger] self.active_invoices@[b]).ids@.len()
                > 0
        &&& forall|b: int, p: int, q: int|
            #![trigger self.active_invoices@[b].ids@[p], self.active_invoices@[b].ids@[q]]
            0 <= b < self.active_invoices@.len() && 0 <= p < q
                < self.active_invoices@[b].ids@.len() ==> self.active_invoices@[b].ids@[p]@
                != self.active_invoices@[b].ids@[q]@
        &&& forall|b: int, p: int|
            #![trigger self.active_invoices@[b].ids@[p]]
            0 <= b < self.active_invoices@.len() && 0 <= p
                < self.active_invoices@[b].ids@.len() ==> {
                let id = self.active_invoices@[b].ids@[p]@;
                &&& self.has_invoice(id)
                &&& !(self.invoice_of(id).status is Paid)
                &&& self.invoice_of(id).exchange_rates_timestamp
                    == self.active_invoices@[b].epoch
            }
        &&& forall|i: int, j: int|
            0 <= i < j < self.inactive_invoices@.len() ==> (
            #[trigger] self.inactive_invoices@[i])@ != (#[trigger] self.inactive_invoices@[j])@
        &&& forall|i: int|
            0 <= i < self.inactive_invoices@.len() ==> {
                let id = (#[trigger] self.inactive_invoices@[i])@;
                &&& self.has_invoice(id)
                &&& self.invoice_of(id).status is Paid
            }
        &&& forall|i: int|
            0 <= i < self.invoices@.len() ==> self.invoice_placed(#[trigger] self.invoices@[i])
    }

    // ----- supporting lemmas -----

    /// With unique keys, any index holding the id is the index `invoice_of`
    /// reads from.
    pub proof fn lemma_invoice_at(self, i: int)
        requires
            forall|p: int, q: int|
                0 <= p < q < self.invoices@.len() ==> (#[trigger] self.invoices@[p]).id@ != (
                #[trigger] self.invoices@[q]).id@,
            0 <= i < self.invoices@.len(),
        ensures
            self.has_invoice(self.invoices@[i].id@),
            self.invoice_idx(self.invoices@[i].id@) == i,
            self.invoice_of(self.invoices@[i].id@) == self.invoices@[i],
    {
        let id = self.invoices@[i].id@;
        assert(self.has_invoice(id));
        let w = self.invoice_idx(id);
        if w != i {
            if w < i {
                assert(self.invoices@[w].id@ != self.invoices@[i].id@);
            } else {
                assert(self.invoices@[i].id@ != self.invoices@[w].id@);
            }
        }
    }

    /// With unique epochs, any index holding the epoch is the index
    /// `bucket_ids` reads from.
    pub proof fn lemma_bucket_at(self, b: int)
        requires
            forall|p: int, q: int|
                0 <= p < q < self.active_invoices@.len() ==> (
                #[trigger] self.active_invoices@[p]).epoch != (
                #[trigger] self.active_invoices@[q]).epoch,
            0 <= b < self.active_invoices@.len(),
        ensures
            self.has_bucket(self.active_invoices@[b].epoch),
            self.bucket_idx(self.active_invoices@[b].epoch) == b,
            self.bucket_ids(self.active_invoices@[b].epoch)
                == self.active_invoices@[b].ids@,
    {
        let e = self.active_invoices@[b].epoch;
        assert(self.has_bucket(e));
        let w = self.bucket_idx(e);
        if w != b {
            if w < b {
                assert(self.active_invoices@[w].epoch != self.active_invoices@[b].epoch);
            } else {
                assert(self.active_invoices@[b].epoch != self.active_invoices@[w].epoch);
            }
        }
    }

    /// Equal invoice sequences give equal lookup results, as long as keys
    /// are unique.
    pub proof fn lemma_invoices_transfer(a: Self, b: Self)
        requires
            b.invoices@ == a.invoices@,
            forall|p: int, q: int|
                0 <= p < q < a.invoices@.len() ==> (#[trigger] a.invoices@[p]).id@ != (
                #[trigger] a.invoices@[q]).id@,
        ensures
            forall|id: Seq<u8>| #[trigger] b.has_invoice(id) == a.has_invoice(id),
            forall|id: Seq<u8>|
                a.has_invoice(id) ==> #[trigger] b.invoice_of(id) == a.invoice_of(id),
    {
        assert forall|id: Seq<u8>| #[trigger] b.has_invoice(id) == a.has_invoice(id) by {
            if a.has_invoice(id) {
                let w = choose|i: int|
                    0 <= i < a.invoices@.len() && (#[trigger] a.invoices@[i]).id@ == id;
                assert(b.invoices@[w].id@ == id);
            }
            if b.has_invoice(id) {
                let w = choose|i: int|
                    0 <= i < b.invoices@.len() && (#[trigger] b.invoices@[i]).id@ == id;
                assert(a.invoices@[w].id@ == id);
            }
        }
        assert forall|id: Seq<u8>| a.has_invoice(id) implies #[trigger] b.invoice_of(id)
            == a.invoice_of(id) by {
            let wa = a.invoice_idx(id);
            assert(0 <= wa < a.invoices@.len() && a.invoices@[wa].id@ == id);
            assert(b.invoices@[wa].id@ == id);
            let wb = b.invoice_idx(id);
            assert(0 <= wb < b.invoices@.len() && b.invoices@[wb].id@ == id);
            if wa != wb {
                if wa < wb {
                    assert(a.invoices@[wa].id@ != a.invoices@[wb].id@);
                } else {
                    assert(a.invoices@[wb].id@ != a.invoices@[wa].id@);
                }
            }
        }
    }

    /// Equal active indices give equal bucket and membership views, as long
    /// as epochs are unique.
    pub proof fn lemma_active_transfer(a: Self, b: Self)
        requires
            b.active_invoices@ == a.active_invoices@,
            forall|p: int, q: int|
                0 <= p < q < a.active_invoices@.len() ==> (
                #[trigger] a.active_invoices@[p]).epoch != (
                #[trigger] a.active_invoices@[q]).epoch,
        ensures
            forall|e: Timestamp| #[trigger] b.has_bucket(e) == a.has_bucket(e),
            forall|e: Timestamp| a.has_bucket(e) ==> #[trigger] b.bucket_ids(e) == a.bucket_ids(e),
            forall|e: Timestamp, id: Seq<u8>| #[trigger] b.in_active(e, id) == a.in_active(e, id),
    {
        assert forall|e: Timestamp| #[trigger] b.has_bucket(e) == a.has_bucket(e) by {
            if a.has_bucket(e) {
                let w = choose|i: int|
                    0 <= i < a.active_invoices@.len() && (#[trigger] a.active_invoices@[i]).epoch
                        == e;
                assert(b.active_invoices@[w].epoch == e);
            }
            if b.has_bucket(e) {
                let w = choose|i: int|
                    0 <= i < b.active_invoices@.len() && (#[trigger] b.active_invoices@[i]).epoch
                        == e;
                assert(a.active_invoices@[w].epoch == e);
            }
        }
        assert forall|e: Timestamp| a.has_bucket(e) implies #[trigger] b.bucket_ids(e)
            == a.bucket_ids(e) by {
            let wa = a.bucket_idx(e);
            assert(0 <= wa < a.active_invoices@.len() && a.active_invoices@[wa].epoch == e);
            assert(b.active_invoices@[wa].epoch == e);
            let wb = b.bucket_idx(e);
            assert(0 <= wb < b.active_invoices@.len() && b.active_invoices@[wb].epoch == e);
            if wa != wb {
                if wa < wb {
                    assert(a.active_invoices@[wa].epoch != a.active_invoices@[wb].epoch);
                } else {
                    assert(a.active_invoices@[wb].epoch != a.active_invoices@[wa].epoch);
                }
            }
        }
        assert forall|e: Timestamp, id: Seq<u8>| #[trigger] b.in_active(e, id) == a.in_active(
            e,
            id,
        ) by {
            if a.in_active(e, id) {
                let j = choose|j: int|
                    0 <= j < a.bucket_ids(e).len() && (#[trigger] a.bucket_ids(e)[j])@ == id;
                assert(b.bucket_ids(e)[j]@ == id);
            }
            if b.in_active(e, id) {
                let j = choose|j: int|
                    0 <= j < b.bucket_ids(e).len() && (#[trigger] b.bucket_ids(e)[j])@ == id;
                assert(a.bucket_ids(e)[j]@ == id);
            }
        }
    }

    /// Equal inactive sequences give equal membership views.
    pub proof fn lemma_inactive_transfer(a: Self, b: Self)
        requires
            b.inactive_invoices@ == a.inactive_invoices@,
        ensures
            forall|id: Seq<u8>| #[trigger] b.in_inactive(id) == a.in_inactive(id),
    {
        assert forall|id: Seq<u8>| #[trigger] b.in_inactive(id) == a.in_inactive(id) by {
            if a.in_inactive(id) {
                let w = choose|i: int|
                    0 <= i < a.inactive_invoices@.len() && (#[trigger] a.inactive_invoices@[i])@
                        == id;
                assert(b.inactive_invoices@[w]@ == id);
            }
            if b.in_inactive(id) {
                let w = choose|i: int|
                    0 <= i < b.inactive_invoices@.len() && (#[trigger] b.inactive_invoices@[i])@
                        == id;
                assert(a.inactive_invoices@[w]@ == id);
            }
        }
    }

    /// Well-formedness reads only the three collections, not the seed or
    /// the running total.
    pub proof fn lemma_wf_same_collections(a: Self, b: Self)
        requires
            a.wf(),
            b.invoices@ == a.invoices@,
            b.active_invoices@ == a.active_invoices@,
            b.inactive_invoices@ == a.inactive_invoices@,
        ensures
            b.wf(),
    {
        Self::lemma_invoices_transfer(a, b);
        Self::lemma_active_transfer(a, b);
        Self::lemma_inactive_transfer(a, b);
        assert forall|i: int| 0 <= i < b.invoices@.len() implies b.invoice_placed(
            #[trigger] b.invoices@[i],
        ) by {
            assert(a.invoice_placed(a.invoices@[i]));
            assert(b.invoices@[i] == a.invoices@[i]);
        }
    }

    // ----- construction and seeding -----

    /// An engine with no invoices and a zeroed identifier seed.
    pub fn new() -> (r: Self)
        ensures
            r.wf(),
            r.invoices@.len() == 0,
            r.active_invoices@.len() == 0,
            r.inactive_invoices@.len() == 0,
            r.total_processed_in_usd == 0,
    {
        InvoicesState {
            invoice_id_generator: [0u8; 32],
            invoices: Vec::new(),
            active_invoices: Vec::new(),
            inactive_invoices: Vec::new(),
            total_processed_in_usd: 0,
        }
    }

    /// Installs the 256-bit identifier seed, once, at first activation.
    pub fn init_id_seed(&mut self, seed: &[u8])
        requires
            old(self).wf(),
            seed@.len() == 32,
        ensures
            final(self).wf(),
            final(self).invoice_id_generator@ == seed@,
            final(self).invoices == old(self).invoices,
            final(self).active_invoices == old(self).active_invoices,
            final(self).inactive_invoices == old(self).inactive_invoices,
            final(self).total_processed_in_usd == old(self).total_processed_in_usd,
    {
        let mut fresh: [u8; 32] = [0u8; 32];
        let mut i: usize = 0;
        while i < 32
            invariant
                0 <= i <= 32,
                seed@.len() == 32,
                forall|j: int| 0 <= j < i ==> fresh@[j] == seed@[j],
            decreases 32 - i,
        {
            fresh[i] = seed[i];
            i += 1;
        }
        assert(fresh@ =~= seed@);
        self.invoice_id_generator = fresh;
        proof {
            Self::lemma_wf_same_collections(*old(self), *self);
        }
    }

    // ----- creation -----

    /// The invoice that `create` builds from its arguments.
    pub open spec fn fresh_invoice(
        qty_usd: USD,
        shop_id: ShopId,
        timestamp: Timestamp,
        epoch: Timestamp,
        caller: Principal,
        id: InvoiceId,
    ) -> Invoice {
        Invoice {
            id,
            status: InvoiceStatus::Created { ttl: DEFAULT_TTL },
            creator: caller,
            qty_usd,
            created_at: timestamp,
            exchange_rates_timestamp: epoch,
            shop_id,
        }
    }

    /// What creation does: the new invoice enters the map and the active
    /// bucket of its epoch, and nothing else moves.
    pub open spec fn create_post(
        pre: Self,
        post: Self,
        qty_usd: USD,
        shop_id: ShopId,
        timestamp: Timestamp,
        epoch: Timestamp,
        caller: Principal,
        id: InvoiceId,
    ) -> bool {
        &&& post.invoices@ == pre.invoices@.push(
            Self::fresh_invoice(qty_usd, shop_id, timestamp, epoch, caller, id),
        )
        &&& post.has_invoice(id@)
        &&& post.invoice_of(id@) == Self::fresh_invoice(
            qty_usd,
            shop_id,
            timestamp,
            epoch,
            caller,
            id,
        )
        &&& forall|k: Seq<u8>|
            k != id@ ==> #[trigger] post.has_invoice(k) == pre.has_invoice(k)
        &&& forall|k: Seq<u8>|
            k != id@ && pre.has_invoice(k) ==> #[trigger] post.invoice_of(k) == pre.invoice_of(k)
        &&& post.in_active(epoch, id@)
        &&& forall|e: Timestamp, k: Seq<u8>|
            !(e == epoch && k == id@) ==> #[trigger] post.in_active(e, k) == pre.in_active(e, k)
        &&& post.has_bucket(epoch)
        &&& forall|e: Timestamp|
            e != epoch ==> #[trigger] post.has_bucket(e) == pre.has_bucket(e)
        &&& post.inactive_invoices@ == pre.inactive_invoices@
        &&& post.total_processed_in_usd == pre.total_processed_in_usd
        &&& post.invoice_id_generator == pre.invoice_id_generator
    }

    /// Allocates an identifier from the seed and the creation timestamp,
    /// builds an invoice awaiting payment, and files it under the epoch's
    /// active bucket (creating the bucket if absent).
    ///
    /// Identifier derivation is a pure function of seed and salt, so the
    /// caller must not reuse a timestamp whose identifier is already taken;
    /// `create_checked` performs that check.
    pub fn create(
        &mut self,
        qty_usd: USD,
        shop_id: ShopId,
        timestamp: Timestamp,
        exchange_rates_timestamp: Timestamp,
        caller: Principal,
    ) -> (id: InvoiceId)
        requires
            old(self).wf(),
            !old(self).has_invoice(
                spec_generate_id(old(self).invoice_id_generator@, timestamp),
            ),
        ensures
            final(self).wf(),
            id@ == spec_generate_id(old(self).invoice_id_generator@, timestamp),
            Self::create_post(
                *old(self),
                *final(self),
                qty_usd,
                shop_id,
                timestamp,
                exchange_rates_timestamp,
                caller,
                id,
            ),
    {
        let ghost pre = *self;
        let e = exchange_rates_timestamp;
        let id = generate_invoice_id(&self.invoice_id_generator, timestamp);
        let inv = Invoice {
            id,
            status: InvoiceStatus::Created { ttl: DEFAULT_TTL },
            creator: caller,
            qty_usd,
            created_at: timestamp,
            exchange_rates_timestamp: e,
            shop_id,
        };
        match find_bucket(&self.active_invoices, e) {
            Some(bi) => {
                self.active_invoices[bi].ids.push(id);
                proof {
                    assert(self.active_invoices@ == pre.active_invoices@.update(
                        bi as int,
                        self.active_invoices@[bi as int],
                    ));
                    assert(self.active_invoices@[bi as int].ids@ == pre.active_invoices@[bi as int].ids@.push(id));
                }
            },
            None => {
                let mut ids: Vec<InvoiceId> = Vec::new();
                ids.push(id);
                self.active_invoices.push(EpochBucket { epoch: e, ids });
            },
        }
        self.invoices.push(inv);
        proof {
            Self::lemma_create_establishes(pre, *self, qty_usd, shop_id, timestamp, e, caller, id);
        }
        id
    }

    /// The whole proof that creation preserves well-formedness and meets
    /// `create_post`, for both shapes the active index can take afterwards.
    proof fn lemma_create_establishes(
        pre: Self,
        post: Self,
        qty_usd: USD,
        shop_id: ShopId,
        timestamp: Timestamp,
        epoch: Timestamp,
        caller: Principal,
        id: InvoiceId,
    )
        requires
            pre.wf(),
            !pre.has_invoice(id@),
            post.invoices@ == pre.invoices@.push(
                Self::fresh_invoice(qty_usd, shop_id, timestamp, epoch, caller, id),
            ),
            post.inactive_invoices@ == pre.inactive_invoices@,
            post.total_processed_in_usd == pre.total_processed_in_usd,
            post.invoice_id_generator == pre.invoice_id_generator,
            ({
                ||| {
                    &&& pre.has_bucket(epoch)
                    &&& post.active_invoices@ == pre.active_invoices@.update(
                        pre.bucket_idx(epoch),
                        post.active_invoices@[pre.bucket_idx(epoch)],
                    )
                    &&& post.active_invoices@[pre.bucket_idx(epoch)].epoch == epoch
                    &&& post.active_invoices@[pre.bucket_idx(epoch)].ids@ == pre.active_invoices@[pre.bucket_idx(epoch)].ids@.push(id)
                }
                ||| {
                    &&& !pre.has_bucket(epoch)
                    &&& post.active_invoices@.len() == pre.active_invoices@.len() + 1
                    &&& forall|j: int|
                        0 <= j < pre.active_invoices@.len() ==> post.active_invoices@[j]
                            == pre.active_invoices@[j]
                    &&& post.active_invoices@.last().epoch == epoch
                    &&& post.active_invoices@.last().ids@ =~= seq![id]
                }
            }),
        ensures
            post.wf(),
            Self::create_post(pre, post, qty_usd, shop_id, timestamp, epoch, caller, id),
    {
        let inv = Self::fresh_invoice(qty_usd, shop_id, timestamp, epoch, caller, id);
        let n = pre.invoices@.len() as int;
        // --- the invoice map ---
        assert forall|i: int| 0 <= i < pre.invoices@.len() implies (#[trigger] pre.invoices@[i]).id@
            != id@ by {
            if pre.invoices@[i].id@ == id@ {
                assert(pre.has_invoice(id@));
            }
        }
        assert forall|i: int, j: int| 0 <= i < j < post.invoices@.len() implies (
        #[trigger] post.invoices@[i]).id@ != (#[trigger] post.invoices@[j]).id@ by {
            if j < n {
                assert(pre.invoices@[i].id@ != pre.invoices@[j].id@);
            } else {
                assert(post.invoices@[j] == inv);
                assert(pre.invoices@[i].id@ != id@);
            }
        }
        assert(post.invoices@[n] == inv);
        Self::lemma_invoice_at_for(post, n);
        assert(post.has_invoice(id@) && post.invoice_of(id@) == inv);
        assert forall|k: Seq<u8>| k != id@ implies #[trigger] post.has_invoice(k)
            == pre.has_invoice(k) by {
            if pre.has_invoice(k) {
                let w = pre.invoice_idx(k);
                assert(post.invoices@[w].id@ == k);
            }
            if post.has_invoice(k) {
                let w = post.invoice_idx(k);
                assert(w != n);
                assert(pre.invoices@[w].id@ == k);
            }
        }
        assert forall|k: Seq<u8>| k != id@ && pre.has_invoice(k) implies #[trigger] post.invoice_of(
            k,
        ) == pre.invoice_of(k) by {
            let w = pre.invoice_idx(k);
            Self::lemma_invoice_at_for(pre, w);
            Self::lemma_invoice_at_for(post, w);
        }
        // --- the active index ---
        if pre.has_bucket(epoch) {
            let bi = pre.bucket_idx(epoch);
            assert(0 <= bi < pre.active_invoices@.len() && pre.active_invoices@[bi].epoch
                == epoch);
            Self::lemma_create_active_updated(pre, post, bi, id, epoch);
        } else {
            Self::lemma_create_active_appended(pre, post, id, epoch);
        }
        // --- the inactive set and placement ---
        assert forall|k: Seq<u8>| #[trigger] post.in_inactive(k) == pre.in_inactive(k) by {
            if pre.in_inactive(k) {
                let w = choose|i: int|
                    0 <= i < pre.inactive_invoices@.len() && (
                    #[trigger] pre.inactive_invoices@[i])@ == k;
                assert(post.inactive_invoices@[w]@ == k);
            }
            if post.in_inactive(k) {
                let w = choose|i: int|
                    0 <= i < post.inactive_invoices@.len() && (
                    #[trigger] post.inactive_invoices@[i])@ == k;
                assert(pre.inactive_invoices@[w]@ == k);
            }
        }
        assert forall|i: int| 0 <= i < post.inactive_invoices@.len() implies {
            let k = (#[trigger] post.inactive_invoices@[i])@;
            &&& post.has_invoice(k)
            &&& post.invoice_of(k).status is Paid
        } by {
            let k = post.inactive_invoices@[i]@;
            assert(pre.inactive_invoices@[i]@ == k);
            assert(pre.has_invoice(k) && pre.invoice_of(k).status is Paid);
            assert(k != id@) by {
                if k == id@ {
                    assert(pre.has_invoice(id@));
                }
            }
        }
        assert forall|i: int| 0 <= i < post.invoices@.len() implies post.invoice_placed(
            #[trigger] post.invoices@[i],
        ) by {
            if i < n {
                let old_inv = pre.invoices@[i];
                assert(pre.invoice_placed(old_inv));
                assert(post.invoices@[i] == old_inv);
                if old_inv.status is Paid {
                    assert(post.in_inactive(old_inv.id@));
                } else {
                    assert(pre.in_active(old_inv.exchange_rates_timestamp, old_inv.id@));
                    assert(old_inv.id@ != id@) by {
                        Self::lemma_invoice_at_for(pre, i);
                    }
                    assert(post.in_active(old_inv.exchange_rates_timestamp, old_inv.id@));
                }
            } else {
                assert(post.invoices@[i] == inv);
                assert(post.in_active(epoch, id@));
            }
        }
    }

    /// `lemma_invoice_at` restated as an associated call on any state value.
    proof fn lemma_invoice_at_for(s: Self, i: int)
        requires
            forall|p: int, q: int|
                0 <= p < q < s.invoices@.len() ==> (#[trigger] s.invoices@[p]).id@ != (
                #[trigger] s.invoices@[q]).id@,
            0 <= i < s.invoices@.len(),
        ensures
            s.has_invoice(s.invoices@[i].id@),
            s.invoice_idx(s.invoices@[i].id@) == i,
            s.invoice_of(s.invoices@[i].id@) == s.invoices@[i],
    {
        s.lemma_invoice_at(i);
    }

    /// Active-index half of the creation proof when the epoch's bucket
    /// already existed and the id was pushed onto it.
    proof fn lemma_create_active_updated(pre: Self, post: Self, bi: int, id: InvoiceId, epoch: Timestamp)
        requires
            pre.wf(),
            !pre.has_invoice(id@),
            0 <= bi < pre.active_invoices@.len(),
            pre.active_invoices@[bi].epoch == epoch,
            pre.bucket_idx(epoch) == bi,
            post.active_invoices@ == pre.active_invoices@.update(
                bi,
                post.active_invoices@[bi],
            ),
            post.active_invoices@[bi].epoch == epoch,
            post.active_invoices@[bi].ids@ == pre.active_invoices@[bi].ids@.push(id),
            // the invoice map after the push
            post.invoices@ == pre.invoices@.push(post.invoice_of(id@)),
            post.has_invoice(id@),
            post.invoice_of(id@).exchange_rates_timestamp == epoch,
            !(post.invoice_of(id@).status is Paid),
            forall|k: Seq<u8>|
                k != id@ ==> #[trigger] post.has_invoice(k) == pre.has_invoice(k),
            forall|k: Seq<u8>|
                k != id@ && pre.has_invoice(k) ==> #[trigger] post.invoice_of(k)
                    == pre.invoice_of(k),
        ensures
            forall|i: int, j: int|
                0 <= i < j < post.active_invoices@.len() ==> (
                #[trigger] post.active_invoices@[i]).epoch != (
                #[trigger] post.active_invoices@[j]).epoch,
            forall|b: int|
                0 <= b < post.active_invoices@.len() ==> (
                #[trigger] post.active_invoices@[b]).ids@.len() > 0,
            forall|b: int, p: int, q: int|
                #![trigger post.active_invoices@[b].ids@[p], post.active_invoices@[b].ids@[q]]
                0 <= b < post.active_invoices@.len() && 0 <= p < q
                    < post.active_invoices@[b].ids@.len() ==> post.active_invoices@[b].ids@[p]@
                    != post.active_invoices@[b].ids@[q]@,
            forall|b: int, p: int|
                #![trigger post.active_invoices@[b].ids@[p]]
                0 <= b < post.active_invoices@.len() && 0 <= p
                    < post.active_invoices@[b].ids@.len() ==> {
                    let k = post.active_invoices@[b].ids@[p]@;
                    &&& post.has_invoice(k)
                    &&& !(post.invoice_of(k).status is Paid)
                    &&& post.invoice_of(k).exchange_rates_timestamp
                        == post.active_invoices@[b].epoch
                },
            post.in_active(epoch, id@),
            forall|e: Timestamp, k: Seq<u8>|
                !(e == epoch && k == id@) ==> #[trigger] post.in_active(e, k) == pre.in_active(
                    e,
                    k,
                ),
            post.has_bucket(epoch),
            forall|e: Timestamp|
                e != epoch ==> #[trigger] post.has_bucket(e) == pre.has_bucket(e),
    {
        let pb = pre.active_invoices@[bi];
        let nb = post.active_invoices@[bi];
        let m = pb.ids@.len() as int;
        // ids listed in any bucket belong to invoices, so the fresh id is new
        assert forall|p: int| 0 <= p < m implies (#[trigger] pb.ids@[p])@ != id@ by {
            assert(pre.active_invoices@[bi].ids@[p] == pb.ids@[p]);
            assert(pre.has_invoice(pre.active_invoices@[bi].ids@[p]@));
        }
        // epochs unchanged
        assert forall|i: int, j: int| 0 <= i < j < post.active_invoices@.len() implies (
        #[trigger] post.active_invoices@[i]).epoch != (#[trigger] post.active_invoices@[j]).epoch
            by {
            assert(pre.active_invoices@[i].epoch != pre.active_invoices@[j].epoch);
        }
        // buckets keep or gain members
        assert forall|b: int| 0 <= b < post.active_invoices@.len() implies (
        #[trigger] post.active_invoices@[b]).ids@.len() > 0 by {
            if b != bi {
                assert(post.active_invoices@[b] == pre.active_invoices@[b]);
            }
        }
        // uniqueness inside each bucket
        assert forall|b: int, p: int, q: int|
            0 <= b < post.active_invoices@.len() && 0 <= p < q
                < post.active_invoices@[b].ids@.len() implies (
        #[trigger] post.active_invoices@[b].ids@[p])@ != (
        #[trigger] post.active_invoices@[b].ids@[q])@ by {
            if b != bi {
                assert(post.active_invoices@[b] == pre.active_invoices@[b]);
                assert(pre.active_invoices@[b].ids@[p]@ != pre.active_invoices@[b].ids@[q]@);
            } else {
                if q < m {
                    assert(pre.active_invoices@[b].ids@[p]@ != pre.active_invoices@[b].ids@[q]@);
                } else {
                    assert(nb.ids@[q] == id);
                    assert(pb.ids@[p]@ != id@);
                }
            }
        }
        // every listed id is backed by a fitting invoice
        assert forall|b: int, p: int|
            0 <= b < post.active_invoices@.len() && 0 <= p
                < post.active_invoices@[b].ids@.len() implies {
            let k = (#[trigger] post.active_invoices@[b].ids@[p])@;
            &&& post.has_invoice(k)
            &&& !(post.invoice_of(k).status is Paid)
            &&& post.invoice_of(k).exchange_rates_timestamp == post.active_invoices@[b].epoch
        } by {
            let k = post.active_invoices@[b].ids@[p]@;
            if b == bi && p == m {
                assert(k == id@);
            } else {
                if b != bi {
                    assert(post.active_invoices@[b] == pre.active_invoices@[b]);
                }
                assert(pre.active_invoices@[b].ids@[p]@ == k);
                assert(pre.has_invoice(k));
                assert(k != id@) by {
                    if k == id@ {
                        assert(pre.has_invoice(id@));
                    }
                }
            }
        }
        // membership facts
        assert(post.has_bucket(epoch)) by {
            assert(post.active_invoices@[bi].epoch == epoch);
        }
        Self::lemma_bucket_at_for(post, bi);
        assert(post.in_active(epoch, id@)) by {
            assert(post.bucket_ids(epoch)[m]@ == id@);
        }
        assert forall|e: Timestamp| e != epoch implies #[trigger] post.has_bucket(e)
            == pre.has_bucket(e) by {
            if pre.has_bucket(e) {
                let w = pre.bucket_idx(e);
                assert(w != bi);
                assert(post.active_invoices@[w].epoch == e);
            }
            if post.has_bucket(e) {
                let w = post.bucket_idx(e);
                assert(w != bi);
                assert(pre.active_invoices@[w].epoch == e);
            }
        }
        assert forall|e: Timestamp, k: Seq<u8>| !(e == epoch && k == id@) implies (
        #[trigger] post.in_active(e, k)) == pre.in_active(e, k) by {
            if e == epoch {
                Self::lemma_bucket_at_for(pre, bi);
                if pre.in_active(e, k) {
                    let j = choose|j: int|
                        0 <= j < pre.bucket_ids(e).len() && (#[trigger] pre.bucket_ids(e)[j])@
                            == k;
                    assert(post.bucket_ids(e)[j]@ == k);
                    assert(post.in_active(e, k));
                }
                if post.in_active(e, k) {
                    let j = choose|j: int|
                        0 <= j < post.bucket_ids(e).len() && (#[trigger] post.bucket_ids(e)[j])@
                            == k;
                    assert(j != m);
                    assert(pre.bucket_ids(e)[j]@ == k);
                    assert(pre.in_active(e, k));
                }
            } else {
                if pre.in_active(e, k) {
                    let wb = pre.bucket_idx(e);
                    assert(wb != bi);
                    Self::lemma_bucket_at_for(pre, wb);
                    Self::lemma_bucket_at_for(post, wb);
                    let j = choose|j: int|
                        0 <= j < pre.bucket_ids(e).len() && (#[trigger] pre.bucket_ids(e)[j])@
                            == k;
                    assert(post.bucket_ids(e)[j]@ == k);
                    assert(post.in_active(e, k));
                }
                if post.in_active(e, k) {
                    let wb = post.bucket_idx(e);
                    assert(wb != bi);
                    Self::lemma_bucket_at_for(post, wb);
                    Self::lemma_bucket_at_for(pre, wb);
                    let j = choose|j: int|
                        0 <= j < post.bucket_ids(e).len() && (#[trigger] post.bucket_ids(e)[j])@
                            == k;
                    assert(pre.bucket_ids(e)[j]@ == k);
                    assert(pre.in_active(e, k));
                }
            }
        }
    }

    /// `lemma_bucket_at` restated as an associated call on any state value.
    proof fn lemma_bucket_at_for(s: Self, b: int)
        requires
            forall|p: int, q: int|
                0 <= p < q < s.active_invoices@.len() ==> (
                #[trigger] s.active_invoices@[p]).epoch != (
                #[trigger] s.active_invoices@[q]).epoch,
            0 <= b < s.active_invoices@.len(),
        ensures
            s.has_bucket(s.active_invoices@[b].epoch),
            s.bucket_idx(s.active_invoices@[b].epoch) == b,
            s.bucket_ids(s.active_invoices@[b].epoch) == s.active_invoices@[b].ids@,
    {
        s.lemma_bucket_at(b);
    }

    /// Active-index half of the creation proof when a fresh bucket was
    /// appended for the epoch.
    proof fn lemma_create_active_appended(pre: Self, post: Self, id: InvoiceId, epoch: Timestamp)
        requires
            pre.wf(),
            !pre.has_invoice(id@),
            !pre.has_bucket(epoch),
            post.active_invoices@.len() == pre.active_invoices@.len() + 1,
            forall|j: int|
                0 <= j < pre.active_invoices@.len() ==> #[trigger] post.active_invoices@[j]
                    == pre.active_invoices@[j],
            post.active_invoices@.last().epoch == epoch,
            post.active_invoices@.last().ids@ =~= seq![id],
            post.invoices@ == pre.invoices@.push(post.invoice_of(id@)),
            post.has_invoice(id@),
            post.invoice_of(id@).exchange_rates_timestamp == epoch,
            !(post.invoice_of(id@).status is Paid),
            forall|k: Seq<u8>|
                k != id@ ==> #[trigger] post.has_invoice(k) == pre.has_invoice(k),
            forall|k: Seq<u8>|
                k != id@ && pre.has_invoice(k) ==> #[trigger] post.invoice_of(k)
                    == pre.invoice_of(k),
        ensures
            forall|i: int, j: int|
                0 <= i < j < post.active_invoices@.len() ==> (
                #[trigger] post.active_invoices@[i]).epoch != (
                #[trigger] post.active_invoices@[j]).epoch,
            forall|b: int|
                0 <= b < post.active_invoices@.len() ==> (
                #[trigger] post.active_invoices@[b]).ids@.len() > 0,
            forall|b: int, p: int, q: int|
                #![trigger post.active_invoices@[b].ids@[p], post.active_invoices@[b].ids@[q]]
                0 <= b < post.active_invoices@.len() && 0 <= p < q
                    < post.active_invoices@[b].ids@.len() ==> post.active_invoices@[b].ids@[p]@
                    != post.active_invoices@[b].ids@[q]@,
            forall|b: int, p: int|
                #![trigger post.active_invoices@[b].ids@[p]]
                0 <= b < post.active_invoices@.len() && 0 <= p
                    < post.active_invoices@[b].ids@.len() ==> {
                    let k = post.active_invoices@[b].ids@[p]@;
                    &&& post.has_invoice(k)
                    &&& !(post.invoice_of(k).status is Paid)
                    &&& post.invoice_of(k).exchange_rates_timestamp
                        == post.active_invoices@[b].epoch
                },
            post.in_active(epoch, id@),
            forall|e: Timestamp, k: Seq<u8>|
                !(e == epoch && k == id@) ==> #[trigger] post.in_active(e, k) == pre.in_active(
                    e,
                    k,
                ),
            post.has_bucket(epoch),
            forall|e: Timestamp|
                e != epoch ==> #[trigger] post.has_bucket(e) == pre.has_bucket(e),
    {
        let n = pre.active_invoices@.len() as int;
        assert forall|i: int| 0 <= i < n implies (#[trigger] pre.active_invoices@[i]).epoch
            != epoch by {
            if pre.active_invoices@[i].epoch == epoch {
                assert(pre.has_bucket(epoch));
            }
        }
        assert forall|i: int, j: int| 0 <= i < j < post.active_invoices@.len() implies (
        #[trigger] post.active_invoices@[i]).epoch != (#[trigger] post.active_invoices@[j]).epoch
            by {
            if j < n {
                assert(pre.active_invoices@[i].epoch != pre.active_invoices@[j].epoch);
            } else {
                assert(post.active_invoices@[j].epoch == epoch);
                assert(pre.active_invoices@[i].epoch != epoch);
            }
        }
        assert forall|b: int| 0 <= b < post.active_invoices@.len() implies (
        #[trigger] post.active_invoices@[b]).ids@.len() > 0 by {
            if b < n {
                assert(post.active_invoices@[b] == pre.active_invoices@[b]);
            } else {
                assert(post.active_invoices@[b].ids@.len() == 1);
            }
        }
        assert forall|b: int, p: int, q: int|
            0 <= b < post.active_invoices@.len() && 0 <= p < q
                < post.active_invoices@[b].ids@.len() implies (
        #[trigger] post.active_invoices@[b].ids@[p])@ != (
        #[trigger] post.active_invoices@[b].ids@[q])@ by {
            if b < n {
                assert(post.active_invoices@[b] == pre.active_invoices@[b]);
                assert(pre.active_invoices@[b].ids@[p]@ != pre.active_invoices@[b].ids@[q]@);
            }
        }
        assert forall|b: int, p: int|
            0 <= b < post.active_invoices@.len() && 0 <= p
                < post.active_invoices@[b].ids@.len() implies {
            let k = (#[trigger] post.active_invoices@[b].ids@[p])@;
            &&& post.has_invoice(k)
            &&& !(post.invoice_of(k).status is Paid)
            &&& post.invoice_of(k).exchange_rates_timestamp == post.active_invoices@[b].epoch
        } by {
            let k = post.active_invoices@[b].ids@[p]@;
            if b == n {
                assert(post.active_invoices@[b].ids@[p] == id);
            } else {
                assert(post.active_invoices@[b] == pre.active_invoices@[b]);
                assert(pre.active_invoices@[b].ids@[p]@ == k);
                assert(pre.has_invoice(k));
                assert(k != id@) by {
                    if k == id@ {
                        assert(pre.has_invoice(id@));
                    }
                }
            }
        }
        assert(post.has_bucket(epoch)) by {
            assert(post.active_invoices@[n].epoch == epoch);
        }
        Self::lemma_bucket_at_for(post, n);
        assert(post.in_active(epoch, id@)) by {
            assert(post.bucket_ids(epoch)[0]@ == id@);
        }
        assert forall|e: Timestamp| e != epoch implies #[trigger] post.has_bucket(e)
            == pre.has_bucket(e) by {
            if pre.has_bucket(e) {
                let w = pre.bucket_idx(e);
                assert(post.active_invoices@[w].epoch == e);
            }
            if post.has_bucket(e) {
                let w = post.bucket_idx(e);
                assert(w != n);
                assert(pre.active_invoices@[w].epoch == e);
            }
        }
        assert forall|e: Timestamp, k: Seq<u8>| !(e == epoch && k == id@) implies (
        #[trigger] post.in_active(e, k)) == pre.in_active(e, k) by {
            if e == epoch {
                assert(!pre.in_active(e, k));
                if post.in_active(e, k) {
                    let j = choose|j: int|
                        0 <= j < post.bucket_ids(e).len() && (#[trigger] post.bucket_ids(e)[j])@
                            == k;
                    assert(post.bucket_ids(e) == post.active_invoices@[n].ids@);
                    assert(post.bucket_ids(e)[j] == id);
                    assert(false);
                }
            } else {
                if pre.in_active(e, k) {
                    let wb = pre.bucket_idx(e);
                    Self::lemma_bucket_at_for(pre, wb);
                    Self::lemma_bucket_at_for(post, wb);
                    let j = choose|j: int|
                        0 <= j < pre.bucket_ids(e).len() && (#[trigger] pre.bucket_ids(e)[j])@
                            == k;
                    assert(post.bucket_ids(e)[j]@ == k);
                    assert(post.in_active(e, k));
                }
                if post.in_active(e, k) {
                    let wb = post.bucket_idx(e);
                    assert(wb != n);
                    Self::lemma_bucket_at_for(post, wb);
                    Self::lemma_bucket_at_for(pre, wb);
                    let j = choose|j: int|
                        0 <= j < post.bucket_ids(e).len() && (#[trigger] post.bucket_ids(e)[j])@
                            == k;
                    assert(pre.bucket_ids(e)[j]@ == k);
                    assert(pre.in_active(e, k));
                }
            }
        }
    }

    /// Creation that first checks the derived identifier for a collision
    /// instead of demanding freshness from the caller; returns nothing and
    /// leaves the store untouched when the identifier is already taken.
    pub fn create_checked(
        &mut self,
        qty_usd: USD,
        shop_id: ShopId,
        timestamp: Timestamp,
        exchange_rates_timestamp: Timestamp,
        caller: Principal,
    ) -> (r: Option<InvoiceId>)
        requires
            old(self).wf(),
        ensures
            final(self).wf(),
            match r {
                Some(id) => {
                    &&& id@ == spec_generate_id(old(self).invoice_id_generator@, timestamp)
                    &&& Self::create_post(
                        *old(self),
                        *final(self),
                        qty_usd,
                        shop_id,
                        timestamp,
                        exchange_rates_timestamp,
                        caller,
                        id,
                    )
                },
                None => {
                    &&& old(self).has_invoice(
                        spec_generate_id(old(self).invoice_id_generator@, timestamp),
                    )
                    &&& *final(self) == *old(self)
                },
            },
    {
        let id = generate_invoice_id(&self.invoice_id_generator, timestamp);
        match find_invoice(&self.invoices, &id) {
            Some(i) => {
                proof {
                    self.lemma_invoice_at(i as int);
                }
                None
            },
            None => Some(
                self.create(qty_usd, shop_id, timestamp, exchange_rates_timestamp, caller),
            ),
        }
    }

    // ----- the verification lock -----

    /// The same invoice with another status.
    pub open spec fn with_status(inv: Invoice, st: InvoiceStatus) -> Invoice {
        Invoice { status: st, ..inv }
    }

    /// What a pure status change of one invoice does: only that invoice's
    /// status moves; every collection keeps its shape.
    pub open spec fn status_change_post(
        pre: Self,
        post: Self,
        id: Seq<u8>,
        st: InvoiceStatus,
    ) -> bool {
        &&& post.has_invoice(id)
        &&& post.invoice_of(id) == Self::with_status(pre.invoice_of(id), st)
        &&& forall|k: Seq<u8>| #[trigger] post.has_invoice(k) == pre.has_invoice(k)
        &&& forall|k: Seq<u8>|
            k != id && pre.has_invoice(k) ==> #[trigger] post.invoice_of(k) == pre.invoice_of(k)
        &&& post.active_invoices == pre.active_invoices
        &&& post.inactive_invoices == pre.inactive_invoices
        &&& post.total_processed_in_usd == pre.total_processed_in_usd
        &&& post.invoice_id_generator == pre.invoice_id_generator
    }

    /// A status change between two non-terminal statuses (or between two
    /// terminal ones) keeps the store well formed and meets
    /// `status_change_post`.
    proof fn lemma_status_change(pre: Self, post: Self, i: int, st: InvoiceStatus)
        requires
            pre.wf(),
            0 <= i < pre.invoices@.len(),
            (st is Paid) == (pre.invoices@[i].status is Paid),
            post.invoices@ == pre.invoices@.update(i, Self::with_status(pre.invoices@[i], st)),
            post.active_invoices == pre.active_invoices,
            post.inactive_invoices == pre.inactive_invoices,
            post.total_processed_in_usd == pre.total_processed_in_usd,
            post.invoice_id_generator == pre.invoice_id_generator,
        ensures
            post.wf(),
            Self::status_change_post(pre, post, pre.invoices@[i].id@, st),
    {
        let id = pre.invoices@[i].id@;
        let inv2 = Self::with_status(pre.invoices@[i], st);
        assert forall|p: int, q: int| 0 <= p < q < post.invoices@.len() implies (
        #[trigger] post.invoices@[p]).id@ != (#[trigger] post.invoices@[q]).id@ by {
            assert(pre.invoices@[p].id@ != pre.invoices@[q].id@);
        }
        Self::lemma_invoice_at_for(pre, i);
        Self::lemma_invoice_at_for(post, i);
        assert(post.invoice_of(id) == inv2);
        assert forall|k: Seq<u8>| #[trigger] post.has_invoice(k) == pre.has_invoice(k) by {
            if pre.has_invoice(k) {
                let w = pre.invoice_idx(k);
                assert(post.invoices@[w].id@ == k);
            }
            if post.has_invoice(k) {
                let w = post.invoice_idx(k);
                assert(pre.invoices@[w].id@ == k);
            }
        }
        assert forall|k: Seq<u8>| k != id && pre.has_invoice(k) implies #[trigger] post.invoice_of(
            k,
        ) == pre.invoice_of(k) by {
            let w = pre.invoice_idx(k);
            assert(w != i);
            Self::lemma_invoice_at_for(pre, w);
            Self::lemma_invoice_at_for(post, w);
        }
        Self::lemma_active_transfer(pre, post);
        Self::lemma_inactive_transfer(pre, post);
        // the indices still point at fitting invoices
        assert forall|b: int, p: int|
            0 <= b < post.active_invoices@.len() && 0 <= p
                < post.active_invoices@[b].ids@.len() implies {
            let k = (#[trigger] post.active_invoices@[b].ids@[p])@;
            &&& post.has_invoice(k)
            &&& !(post.invoice_of(k).status is Paid)
            &&& post.invoice_of(k).exchange_rates_timestamp == post.active_invoices@[b].epoch
        } by {
            let k = post.active_invoices@[b].ids@[p]@;
            assert(pre.active_invoices@[b].ids@[p]@ == k);
            assert(pre.has_invoice(k) && !(pre.invoice_of(k).status is Paid));
            if k == id {
                assert(post.invoice_of(k) == inv2);
            }
        }
        assert forall|j: int| 0 <= j < post.inactive_invoices@.len() implies {
            let k = (#[trigger] post.inactive_invoices@[j])@;
            &&& post.has_invoice(k)
            &&& post.invoice_of(k).status is Paid
        } by {
            let k = post.inactive_invoices@[j]@;
            assert(pre.inactive_invoices@[j]@ == k);
            assert(pre.has_invoice(k) && pre.invoice_of(k).status is Paid);
            if k == id {
                assert(post.invoice_of(k) == inv2);
            }
        }
        assert forall|j: int| 0 <= j < post.invoices@.len() implies post.invoice_placed(
            #[trigger] post.invoices@[j],
        ) by {
            assert(pre.invoice_placed(pre.invoices@[j]));
            let inv = post.invoices@[j];
            if j == i {
                assert(pre.in_active(inv.exchange_rates_timestamp, inv.id@) == post.in_active(
                    inv.exchange_rates_timestamp,
                    inv.id@,
                ));
                assert(pre.in_inactive(inv.id@) == post.in_inactive(inv.id@));
            } else {
                assert(inv == pre.invoices@[j]);
            }
        }
    }

    /// What reserving an invoice for verification does: the exclusivity
    /// lock is taken synchronously, before any suspending external call,
    /// and the pre-reservation countdown is handed back for the rollback
    /// path.
    pub open spec fn reserve_post(
        pre: Self,
        post: Self,
        id: InvoiceId,
        caller: Principal,
        r: Result<(Timestamp, u8), InvoiceError>,
    ) -> bool {
        if !pre.has_invoice(id@) {
            r == Err::<(Timestamp, u8), InvoiceError>(InvoiceError::NotFound) && post == pre
        } else if pre.invoice_of(id@).creator@ != caller@ {
            r == Err::<(Timestamp, u8), InvoiceError>(InvoiceError::AccessDenied) && post == pre
        } else if !(pre.invoice_of(id@).status is Created) {
            r == Err::<(Timestamp, u8), InvoiceError>(InvoiceError::InvalidStatus) && post == pre
        } else {
            &&& r == Ok::<(Timestamp, u8), InvoiceError>(
                (
                    pre.invoice_of(id@).exchange_rates_timestamp,
                    pre.invoice_of(id@).status->ttl,
                ),
            )
            &&& Self::status_change_post(pre, post, id@, InvoiceStatus::VerifyPayment)
        }
    }

    /// Reserves an invoice for a payment-verification attempt by moving it
    /// from `Created` to `VerifyPayment`, which acts as an exclusive lock:
    /// a second attempt finds `VerifyPayment` and fails fast with
    /// `InvalidStatus`. Returns the invoice's pricing epoch and its
    /// pre-reservation countdown, which the failure path must restore.
    pub fn reserve_for_verification(
        &mut self,
        invoice_id: &InvoiceId,
        caller: Principal,
    ) -> (r: Result<(Timestamp, u8), InvoiceError>)
        requires
            old(self).wf(),
        ensures
            final(self).wf(),
            Self::reserve_post(*old(self), *final(self), *invoice_id, caller, r),
    {
        let i = match find_invoice(&self.invoices, invoice_id) {
            Some(i) => i,
            None => {
                return Err(InvoiceError::NotFound);
            },
        };
        proof {
            self.lemma_invoice_at(i as int);
        }
        let inv = self.invoices[i];
        if !inv.creator.same_as(&caller) {
            return Err(InvoiceError::AccessDenied);
        }
        let ttl = match inv.status {
            InvoiceStatus::Created { ttl } => ttl,
            _ => {
                return Err(InvoiceError::InvalidStatus);
            },
        };
        let ghost pre = *self;
        self.invoices[i] = Invoice { status: InvoiceStatus::VerifyPayment, ..inv };
        proof {
            Self::lemma_status_change(pre, *self, i as int, InvoiceStatus::VerifyPayment);
        }
        Ok((inv.exchange_rates_timestamp, ttl))
    }

    /// What the rollback after a failed verification attempt does: the
    /// reserved invoice returns to `Created` with the countdown captured
    /// before reservation; nothing else moves.
    pub open spec fn restore_post(pre: Self, post: Self, id: InvoiceId, ttl: u8) -> bool {
        Self::status_change_post(pre, post, id@, InvoiceStatus::Created { ttl })
    }

    /// Restores a reserved invoice to `Created` with its pre-reservation
    /// countdown, so it stays payable after a failed verification attempt.
    pub fn restore_after_verification(&mut self, invoice_id: &InvoiceId, ttl: u8)
        requires
            old(self).wf(),
            old(self).has_invoice(invoice_id@),
            old(self).invoice_of(invoice_id@).status is VerifyPayment,
        ensures
            final(self).wf(),
            Self::restore_post(*old(self), *final(self), *invoice_id, ttl),
    {
        let i = match find_invoice(&self.invoices, invoice_id) {
            Some(i) => i,
            None => {
                proof {
                    assert(false);
                }
                return ;
            },
        };
        proof {
            self.lemma_invoice_at(i as int);
        }
        let inv = self.invoices[i];
        let ghost pre = *self;
        self.invoices[i] = Invoice { status: InvoiceStatus::Created { ttl }, ..inv };
        proof {
            Self::lemma_status_change(pre, *self, i as int, InvoiceStatus::Created { ttl });
        }
    }

    // ----- payment verification -----

    /// The sub-identifier a transfer actually targeted: an absent one
    /// counts as all zeroes.
    pub open spec fn txn_subaccount(txn: TransferTxn) -> Seq<u8> {
        match txn.to_subaccount {
            Some(s) => s@,
            None => Seq::new(32, |i: int| 0u8),
        }
    }

    /// The terminal status a successful verification records.
    pub open spec fn paid_status(
        txn: TransferTxn,
        exchange_rate: USD,
        now: Timestamp,
    ) -> InvoiceStatus {
        InvoiceStatus::Paid {
            timestamp: now,
            token_id: txn.token_id,
            qty: txn.qty,
            exchange_rate,
        }
    }

    /// What a successful verification does to the store: the invoice turns
    /// `Paid`, leaves its epoch's active bucket (which disappears exactly
    /// when it empties), enters the inactive set, and the processed volume
    /// grows by the requested amount.
    pub open spec fn paid_post(
        pre: Self,
        post: Self,
        id: InvoiceId,
        txn: TransferTxn,
        exchange_rate: USD,
        now: Timestamp,
    ) -> bool {
        let e = pre.invoice_of(id@).exchange_rates_timestamp;
        &&& post.has_invoice(id@)
        &&& post.invoice_of(id@) == Self::with_status(
            pre.invoice_of(id@),
            Self::paid_status(txn, exchange_rate, now),
        )
        &&& forall|k: Seq<u8>| #[trigger] post.has_invoice(k) == pre.has_invoice(k)
        &&& forall|k: Seq<u8>|
            k != id@ && pre.has_invoice(k) ==> #[trigger] post.invoice_of(k) == pre.invoice_of(k)
        &&& post.in_inactive(id@)
        &&& forall|k: Seq<u8>| k != id@ ==> #[trigger] post.in_inactive(k) == pre.in_inactive(k)
        &&& post.inactive_invoices@ == pre.inactive_invoices@.push(id)
        &&& post.has_bucket(e) == (pre.bucket_ids(e).len() > 1)
        &&& forall|k: Seq<u8>|
            #[trigger] post.in_active(e, k) == (pre.in_active(e, k) && k != id@)
        &&& forall|e2: Timestamp| e2 != e ==> #[trigger] post.has_bucket(e2) == pre.has_bucket(e2)
        &&& forall|e2: Timestamp, k: Seq<u8>|
            e2 != e ==> #[trigger] post.in_active(e2, k) == pre.in_active(e2, k)
        &&& post.total_processed_in_usd == pre.total_processed_in_usd + pre.invoice_of(
            id@,
        ).qty_usd
        &&& post.invoice_id_generator == pre.invoice_id_generator
    }

    /// What payment verification returns and does, for every input: each
    /// precondition of the protocol is checked in order and yields its own
    /// error without touching the store; only a transfer that went to this
    /// system, under the shop's sub-identifier, carrying the invoice's
    /// memo, and covering the requested amount at the supplied rate, turns
    /// the invoice `Paid`.
    pub open spec fn verify_post(
        pre: Self,
        post: Self,
        id: InvoiceId,
        txn: TransferTxn,
        exchange_rate: USD,
        own: Principal,
        now: Timestamp,
        r: Result<(Invoice, bool), InvoiceError>,
    ) -> bool {
        if !pre.has_invoice(id@) {
            r == Err::<(Invoice, bool), InvoiceError>(InvoiceError::NotFound) && post == pre
        } else if !(pre.invoice_of(id@).status is VerifyPayment) {
            r == Err::<(Invoice, bool), InvoiceError>(InvoiceError::InvalidStatus) && post == pre
        } else if txn.to_owner@ != own@ {
            r == Err::<(Invoice, bool), InvoiceError>(InvoiceError::LostFundsWrongRecipient)
                && post == pre
        } else if Self::txn_subaccount(txn) != spec_shop_subaccount(
            pre.invoice_of(id@).shop_id,
        ) {
            r == Err::<(Invoice, bool), InvoiceError>(InvoiceError::LostFundsWrongSubaccount)
                && post == pre
        } else if txn.memo@ != spec_invoice_memo(id@) {
            r == Err::<(Invoice, bool), InvoiceError>(InvoiceError::LostFundsWrongMemo) && post
                == pre
        } else if (exchange_rate as int) * (txn.qty as int) < pre.invoice_of(id@).qty_usd {
            r == Err::<(Invoice, bool), InvoiceError>(InvoiceError::InsufficientTransfer) && post
                == pre
        } else {
            &&& Self::paid_post(pre, post, id, txn, exchange_rate, now)
            &&& r == Ok::<(Invoice, bool), InvoiceError>(
                (post.invoice_of(id@), post.active_invoices@.len() == 0),
            )
        }
    }

    /// Validates a decoded transfer record against a reserved invoice's
    /// contract and performs the transition to `Paid`.
    ///
    /// The checks run in protocol order, each failure returning its own
    /// error and leaving the store untouched so the rollback path can
    /// restore the invoice. On success the updated invoice is returned
    /// together with a flag telling the caller that the whole active index
    /// is now empty (all epochs drained), upon which it may ask the rate
    /// oracle to evict every remaining cached rate.
    #[verifier::rlimit(100)]
    pub fn verify_payment(
        &mut self,
        invoice_id: &InvoiceId,
        transfer_txn: TransferTxn,
        exchange_rate: USD,
        this_canister_id: Principal,
        now: Timestamp,
    ) -> (r: Result<(Invoice, bool), InvoiceError>)
        requires
            old(self).wf(),
            old(self).total_processed_in_usd <= u128::MAX - u64::MAX,
        ensures
            final(self).wf(),
            Self::verify_post(
                *old(self),
                *final(self),
                *invoice_id,
                transfer_txn,
                exchange_rate,
                this_canister_id,
                now,
                r,
            ),
    {
        let i = match find_invoice(&self.invoices, invoice_id) {
            Some(i) => i,
            None => {
                return Err(InvoiceError::NotFound);
            },
        };
        proof {
            self.lemma_invoice_at(i as int);
        }
        let inv = self.invoices[i];
        match inv.status {
            InvoiceStatus::VerifyPayment => {},
            _ => {
                return Err(InvoiceError::InvalidStatus);
            },
        }
        // the transfer must have been sent to this system
        if !transfer_txn.to_owner.same_as(&this_canister_id) {
            return Err(InvoiceError::LostFundsWrongRecipient);
        }
        // under the sub-identifier derived from the invoice's shop
        let expected_subaccount = calc_shop_subaccount(inv.shop_id);
        let actual_subaccount = match transfer_txn.to_subaccount {
            Some(s) => s,
            None => [0u8; 32],
        };
        proof {
            if transfer_txn.to_subaccount is None {
                assert(actual_subaccount@ =~= Self::txn_subaccount(transfer_txn));
            }
        }
        if !array_eq(&actual_subaccount, &expected_subaccount) {
            return Err(InvoiceError::LostFundsWrongSubaccount);
        }
        // carrying the memo derived from the invoice id
        let expected_memo = make_invoice_memo(invoice_id);
        if !array_eq(&transfer_txn.memo, &expected_memo) {
            return Err(InvoiceError::LostFundsWrongMemo);
        }
        // and, priced at the supplied rate, it must cover the request
        proof {
            let a = exchange_rate as int;
            let b = transfer_txn.qty as int;
            assert(a * b <= u64::MAX as int * u64::MAX as int) by (nonlinear_arith)
                requires
                    0 <= a <= u64::MAX as int,
                    0 <= b <= u64::MAX as int,
            ;
        }
        if (exchange_rate as u128) * (transfer_txn.qty as u128) < (inv.qty_usd as u128) {
            return Err(InvoiceError::InsufficientTransfer);
        }
        proof {
            assert(*invoice_id =~= inv.id);
        }
        let (paid_inv, empty) = self.finish_payment(i, transfer_txn, exchange_rate, now);
        Ok((paid_inv, empty))
    }

    /// The successful tail of `verify_payment`: the transition to `Paid`
    /// and both index moves, one atomic step to any observer.
    fn finish_payment(
        &mut self,
        i: usize,
        transfer_txn: TransferTxn,
        exchange_rate: USD,
        now: Timestamp,
    ) -> (r: (Invoice, bool))
        requires
            old(self).wf(),
            i < old(self).invoices@.len(),
            old(self).invoices@[i as int].status is VerifyPayment,
            old(self).total_processed_in_usd <= u128::MAX - (u64::MAX as u128),
        ensures
            final(self).wf(),
            Self::paid_post(
                *old(self),
                *final(self),
                old(self).invoices@[i as int].id,
                transfer_txn,
                exchange_rate,
                now,
            ),
            r.0 == final(self).invoice_of(old(self).invoices@[i as int].id@),
            r.1 == (final(self).active_invoices@.len() == 0),
    {
        let ghost pre = *self;
        proof {
            pre.lemma_invoice_at(i as int);
        }
        let inv = self.invoices[i];
        let paid_inv = Invoice {
            status: InvoiceStatus::Paid {
                timestamp: now,
                token_id: transfer_txn.token_id,
                qty: transfer_txn.qty,
                exchange_rate,
            },
            ..inv
        };
        self.invoices[i] = paid_inv;
        proof {
            assert(pre.invoice_placed(pre.invoices@[i as int]));
        }
        let bi = match find_bucket(&self.active_invoices, inv.exchange_rates_timestamp) {
            Some(bi) => bi,
            None => {
                proof {
                    assert(false);
                }
                return (paid_inv, false);
            },
        };
        proof {
            pre.lemma_bucket_at(bi as int);
        }
        let j = match find_id(&self.active_invoices[bi].ids, &inv.id) {
            Some(j) => j,
            None => {
                proof {
                    assert(false);
                }
                return (paid_inv, false);
            },
        };
        let bucket_len = self.active_invoices[bi].ids.len();
        let _ = self.active_invoices[bi].ids.remove(j);
        if bucket_len == 1 {
            let _ = self.active_invoices.remove(bi);
            proof {
                assert(self.active_invoices@ =~= pre.active_invoices@.remove(bi as int));
            }
        } else {
            proof {
                assert(self.active_invoices@[bi as int].epoch
                    == pre.active_invoices@[bi as int].epoch);
                assert(self.active_invoices@[bi as int].ids@
                    == pre.active_invoices@[bi as int].ids@.remove(j as int));
            }
        }
        self.inactive_invoices.push(inv.id);
        self.total_processed_in_usd = self.total_processed_in_usd + (inv.qty_usd as u128);
        let empty = self.active_invoices.is_empty();
        proof {
            Self::lemma_paid_establishes(
                pre,
                *self,
                i as int,
                bi as int,
                j as int,
                Self::paid_status(transfer_txn, exchange_rate, now),
            );
        }
        (paid_inv, empty)
    }

    /// The whole proof that the transition to `Paid` — status update,
    /// bucket removal, bucket deletion when emptied, inactive insertion
    /// and volume update — preserves well-formedness and meets `paid_post`.
    proof fn lemma_paid_establishes(
        pre: Self,
        post: Self,
        i: int,
        bi: int,
        j: int,
        st: InvoiceStatus,
    )
        requires
            pre.wf(),
            0 <= i < pre.invoices@.len(),
            pre.invoices@[i].status is VerifyPayment,
            st is Paid,
            post.invoices@ == pre.invoices@.update(i, Self::with_status(pre.invoices@[i], st)),
            0 <= bi < pre.active_invoices@.len(),
            pre.active_invoices@[bi].epoch == pre.invoices@[i].exchange_rates_timestamp,
            0 <= j < pre.active_invoices@[bi].ids@.len(),
            pre.active_invoices@[bi].ids@[j]@ == pre.invoices@[i].id@,
            if pre.active_invoices@[bi].ids@.len() > 1 {
                &&& post.active_invoices@.len() == pre.active_invoices@.len()
                &&& post.active_invoices@[bi].epoch == pre.active_invoices@[bi].epoch
                &&& post.active_invoices@[bi].ids@ == pre.active_invoices@[bi].ids@.remove(j)
                &&& forall|w: int|
                    0 <= w < pre.active_invoices@.len() && w != bi
                        ==> #[trigger] post.active_invoices@[w] == pre.active_invoices@[w]
            } else {
                post.active_invoices@ == pre.active_invoices@.remove(bi)
            },
            post.inactive_invoices@ == pre.inactive_invoices@.push(pre.invoices@[i].id),
            post.total_processed_in_usd == pre.total_processed_in_usd + pre.invoices@[i].qty_usd,
            post.invoice_id_generator == pre.invoice_id_generator,
        ensures
            post.wf(),
            post.has_invoice(pre.invoices@[i].id@),
            post.invoice_of(pre.invoices@[i].id@) == Self::with_status(pre.invoices@[i], st),
            forall|k: Seq<u8>| #[trigger] post.has_invoice(k) == pre.has_invoice(k),
            forall|k: Seq<u8>|
                k != pre.invoices@[i].id@ && pre.has_invoice(k) ==> #[trigger] post.invoice_of(k)
                    == pre.invoice_of(k),
            post.in_inactive(pre.invoices@[i].id@),
            forall|k: Seq<u8>|
                k != pre.invoices@[i].id@ ==> #[trigger] post.in_inactive(k) == pre.in_inactive(
                    k,
                ),
            post.has_bucket(pre.invoices@[i].exchange_rates_timestamp) == (pre.bucket_ids(
                pre.invoices@[i].exchange_rates_timestamp,
            ).len() > 1),
            forall|k: Seq<u8>|
                #[trigger] post.in_active(pre.invoices@[i].exchange_rates_timestamp, k) == (
                pre.in_active(pre.invoices@[i].exchange_rates_timestamp, k) && k
                    != pre.invoices@[i].id@),
            forall|e2: Timestamp|
                e2 != pre.invoices@[i].exchange_rates_timestamp ==> #[trigger] post.has_bucket(e2)
                    == pre.has_bucket(e2),
            forall|e2: Timestamp, k: Seq<u8>|
                e2 != pre.invoices@[i].exchange_rates_timestamp ==> #[trigger] post.in_active(
                    e2,
                    k,
                ) == pre.in_active(e2, k),
    {
        let id = pre.invoices@[i].id@;
        let e = pre.invoices@[i].exchange_rates_timestamp;
        let inv2 = Self::with_status(pre.invoices@[i], st);
        let old_ids = pre.active_invoices@[bi].ids@;
        let emptied = !(old_ids.len() > 1);
        // --- the invoice map ---
        assert forall|p: int, q: int| 0 <= p < q < post.invoices@.len() implies (
        #[trigger] post.invoices@[p]).id@ != (#[trigger] post.invoices@[q]).id@ by {
            assert(pre.invoices@[p].id@ != pre.invoices@[q].id@);
        }
        Self::lemma_invoice_at_for(pre, i);
        Self::lemma_invoice_at_for(post, i);
        assert forall|k: Seq<u8>| #[trigger] post.has_invoice(k) == pre.has_invoice(k) by {
            if pre.has_invoice(k) {
                let w = pre.invoice_idx(k);
                assert(post.invoices@[w].id@ == k);
            }
            if post.has_invoice(k) {
                let w = post.invoice_idx(k);
                assert(pre.invoices@[w].id@ == k);
            }
        }
        assert forall|k: Seq<u8>| k != id && pre.has_invoice(k) implies #[trigger] post.invoice_of(
            k,
        ) == pre.invoice_of(k) by {
            let w = pre.invoice_idx(k);
            assert(w != i);
            Self::lemma_invoice_at_for(pre, w);
            Self::lemma_invoice_at_for(post, w);
        }
        // --- the id leaves the active index and was in no other bucket ---
        pre.lemma_bucket_at(bi);
        assert(pre.bucket_ids(e) == old_ids);
        assert forall|w: int, p: int|
            0 <= w < pre.active_invoices@.len() && 0 <= p < pre.active_invoices@[w].ids@.len()
                && (w != bi || p != j) implies (#[trigger] pre.active_invoices@[w].ids@[p])@
            != id by {
            let k = pre.active_invoices@[w].ids@[p]@;
            if k == id {
                assert(pre.has_invoice(k) && pre.invoice_of(k).exchange_rates_timestamp
                    == pre.active_invoices@[w].epoch);
                assert(pre.invoice_of(id) == pre.invoices@[i]);
                assert(pre.active_invoices@[w].epoch == e);
                if w != bi {
                    if w < bi {
                        assert(pre.active_invoices@[w].epoch != pre.active_invoices@[bi].epoch);
                    } else {
                        assert(pre.active_invoices@[bi].epoch != pre.active_invoices@[w].epoch);
                    }
                } else {
                    if p < j {
                        assert(pre.active_invoices@[bi].ids@[p]@
                            != pre.active_invoices@[bi].ids@[j]@);
                    } else {
                        assert(pre.active_invoices@[bi].ids@[j]@
                            != pre.active_invoices@[bi].ids@[p]@);
                    }
                }
            }
        }
        // --- the inactive set ---
        assert(!pre.in_inactive(id)) by {
            if pre.in_inactive(id) {
                let w = choose|w: int|
                    0 <= w < pre.inactive_invoices@.len() && (
                    #[trigger] pre.inactive_invoices@[w])@ == id;
                assert(pre.invoice_of(id).status is Paid);
            }
        }
        let ni = pre.inactive_invoices@.len() as int;
        assert(post.inactive_invoices@[ni]@ == id);
        assert(post.in_inactive(id));
        assert forall|w: int| 0 <= w < ni implies (#[trigger] pre.inactive_invoices@[w])@
            != id by {
            if pre.inactive_invoices@[w]@ == id {
                assert(pre.in_inactive(id));
            }
        }
        assert forall|p: int, q: int| 0 <= p < q < post.inactive_invoices@.len() implies (
        #[trigger] post.inactive_invoices@[p])@ != (#[trigger] post.inactive_invoices@[q])@ by {
            if q < ni {
                assert(pre.inactive_invoices@[p]@ != pre.inactive_invoices@[q]@);
            } else {
                assert(pre.inactive_invoices@[p]@ != id);
            }
        }
        assert forall|k: Seq<u8>| k != id implies #[trigger] post.in_inactive(k)
            == pre.in_inactive(k) by {
            if pre.in_inactive(k) {
                let w = choose|w: int|
                    0 <= w < pre.inactive_invoices@.len() && (
                    #[trigger] pre.inactive_invoices@[w])@ == k;
                assert(post.inactive_invoices@[w]@ == k);
            }
            if post.in_inactive(k) {
                let w = choose|w: int|
                    0 <= w < post.inactive_invoices@.len() && (
                    #[trigger] post.inactive_invoices@[w])@ == k;
                assert(w != ni);
                assert(pre.inactive_invoices@[w]@ == k);
            }
        }
        assert forall|w: int| 0 <= w < post.inactive_invoices@.len() implies {
            let k = (#[trigger] post.inactive_invoices@[w])@;
            &&& post.has_invoice(k)
            &&& post.invoice_of(k).status is Paid
        } by {
            let k = post.inactive_invoices@[w]@;
            if w < ni {
                assert(pre.inactive_invoices@[w]@ == k);
                assert(pre.has_invoice(k) && pre.invoice_of(k).status is Paid);
                assert(k != id);
            } else {
                assert(k == id);
                assert(post.invoice_of(id) == inv2);
            }
        }
        // --- the active index ---
        old_ids.remove_ensures(j);
        if !emptied {
            // the bucket survives with the id taken out
            assert forall|w: int|
                0 <= w < post.active_invoices@.len() implies #[trigger] post.active_invoices@[w].epoch
                == pre.active_invoices@[w].epoch by {
                if w != bi {
                    assert(post.active_invoices@[w] == pre.active_invoices@[w]);
                }
            }
            assert forall|p: int, q: int| 0 <= p < q < post.active_invoices@.len() implies (
            #[trigger] post.active_invoices@[p]).epoch != (
            #[trigger] post.active_invoices@[q]).epoch by {
                assert(pre.active_invoices@[p].epoch != pre.active_invoices@[q].epoch);
            }
            assert forall|b: int| 0 <= b < post.active_invoices@.len() implies (
            #[trigger] post.active_invoices@[b]).ids@.len() > 0 by {
                if b != bi {
                    assert(post.active_invoices@[b] == pre.active_invoices@[b]);
                }
            }
            assert forall|b: int, p: int, q: int|
                0 <= b < post.active_invoices@.len() && 0 <= p < q
                    < post.active_invoices@[b].ids@.len() implies (
            #[trigger] post.active_invoices@[b].ids@[p])@ != (
            #[trigger] post.active_invoices@[b].ids@[q])@ by {
                if b != bi {
                    assert(post.active_invoices@[b] == pre.active_invoices@[b]);
                    assert(pre.active_invoices@[b].ids@[p]@ != pre.active_invoices@[b].ids@[q]@);
                } else {
                    let p2: int = if p < j {
                        p
                    } else {
                        p + 1
                    };
                    let q2: int = if q < j {
                        q
                    } else {
                        q + 1
                    };
                    assert(post.active_invoices@[b].ids@[p] == old_ids[p2]);
                    assert(post.active_invoices@[b].ids@[q] == old_ids[q2]);
                    assert(old_ids[p2]@ != old_ids[q2]@);
                }
            }
            assert forall|b: int, p: int|
                0 <= b < post.active_invoices@.len() && 0 <= p
                    < post.active_invoices@[b].ids@.len() implies {
                let k = (#[trigger] post.active_invoices@[b].ids@[p])@;
                &&& post.has_invoice(k)
                &&& !(post.invoice_of(k).status is Paid)
                &&& post.invoice_of(k).exchange_rates_timestamp == post.active_invoices@[b].epoch
            } by {
                let k = post.active_invoices@[b].ids@[p]@;
                if b != bi {
                    assert(post.active_invoices@[b] == pre.active_invoices@[b]);
                    assert(pre.active_invoices@[b].ids@[p]@ == k);
                    assert(k != id);
                    assert(pre.has_invoice(k) && !(pre.invoice_of(k).status is Paid));
                } else {
                    let p2: int = if p < j {
                        p
                    } else {
                        p + 1
                    };
                    assert(post.active_invoices@[b].ids@[p] == old_ids[p2]);
                    assert(pre.active_invoices@[bi].ids@[p2]@ == k);
                    assert(k != id);
                    assert(pre.has_invoice(k) && !(pre.invoice_of(k).status is Paid));
                }
            }
            post.lemma_bucket_at(bi);
            assert(post.has_bucket(e));
            assert forall|k: Seq<u8>| #[trigger] post.in_active(e, k) == (pre.in_active(e, k) && k
                != id) by {
                if pre.in_active(e, k) && k != id {
                    let p2 = choose|p2: int|
                        0 <= p2 < pre.bucket_ids(e).len() && (#[trigger] pre.bucket_ids(e)[p2])@
                            == k;
                    assert(p2 != j);
                    let p: int = if p2 < j {
                        p2
                    } else {
                        p2 - 1
                    };
                    assert(post.bucket_ids(e)[p] == old_ids[p2]);
                    assert(post.in_active(e, k));
                }
                if post.in_active(e, k) {
                    let p = choose|p: int|
                        0 <= p < post.bucket_ids(e).len() && (#[trigger] post.bucket_ids(e)[p])@
                            == k;
                    let p2: int = if p < j {
                        p
                    } else {
                        p + 1
                    };
                    assert(post.bucket_ids(e)[p] == old_ids[p2]);
                    assert(pre.bucket_ids(e)[p2]@ == k);
                    assert(pre.in_active(e, k));
                    assert(k != id);
                }
            }
            assert forall|e2: Timestamp| e2 != e implies #[trigger] post.has_bucket(e2)
                == pre.has_bucket(e2) by {
                if pre.has_bucket(e2) {
                    let w = pre.bucket_idx(e2);
                    assert(w != bi);
                    assert(post.active_invoices@[w].epoch == e2);
                }
                if post.has_bucket(e2) {
                    let w = post.bucket_idx(e2);
                    assert(w != bi);
                    assert(pre.active_invoices@[w].epoch == e2);
                }
            }
            assert forall|e2: Timestamp, k: Seq<u8>| e2 != e implies #[trigger] post.in_active(
                e2,
                k,
            ) == pre.in_active(e2, k) by {
                if pre.in_active(e2, k) {
                    let w = pre.bucket_idx(e2);
                    assert(w != bi);
                    pre.lemma_bucket_at(w);
                    post.lemma_bucket_at(w);
                    let p = choose|p: int|
                        0 <= p < pre.bucket_ids(e2).len() && (#[trigger] pre.bucket_ids(e2)[p])@
                            == k;
                    assert(post.bucket_ids(e2)[p]@ == k);
                }
                if post.in_active(e2, k) {
                    let w = post.bucket_idx(e2);
                    assert(w != bi);
                    post.lemma_bucket_at(w);
                    pre.lemma_bucket_at(w);
                    let p = choose|p: int|
                        0 <= p < post.bucket_ids(e2).len() && (#[trigger] post.bucket_ids(e2)[p])@
                            == k;
                    assert(pre.bucket_ids(e2)[p]@ == k);
                }
            }
        } else {
            // the bucket held only this id and disappears
            assert(old_ids.len() == 1 && j == 0);
            pre.active_invoices@.remove_ensures(bi);
            assert forall|p: int, q: int| 0 <= p < q < post.active_invoices@.len() implies (
            #[trigger] post.active_invoices@[p]).epoch != (
            #[trigger] post.active_invoices@[q]).epoch by {
                let p2: int = if p < bi {
                    p
                } else {
                    p + 1
                };
                let q2: int = if q < bi {
                    q
                } else {
                    q + 1
                };
                assert(post.active_invoices@[p] == pre.active_invoices@[p2]);
                assert(post.active_invoices@[q] == pre.active_invoices@[q2]);
                assert(pre.active_invoices@[p2].epoch != pre.active_invoices@[q2].epoch);
            }
            assert forall|b: int| 0 <= b < post.active_invoices@.len() implies {
                let b2: int = if b < bi {
                    b
                } else {
                    b + 1
                };
                #[trigger] post.active_invoices@[b] == pre.active_invoices@[b2]
            } by {}
            assert forall|b: int| 0 <= b < post.active_invoices@.len() implies (
            #[trigger] post.active_invoices@[b]).ids@.len() > 0 by {
                let b2: int = if b < bi {
                    b
                } else {
                    b + 1
                };
                assert(post.active_invoices@[b] == pre.active_invoices@[b2]);
            }
            assert forall|b: int, p: int, q: int|
                0 <= b < post.active_invoices@.len() && 0 <= p < q
                    < post.active_invoices@[b].ids@.len() implies (
            #[trigger] post.active_invoices@[b].ids@[p])@ != (
            #[trigger] post.active_invoices@[b].ids@[q])@ by {
                let b2: int = if b < bi {
                    b
                } else {
                    b + 1
                };
                assert(post.active_invoices@[b] == pre.active_invoices@[b2]);
                assert(pre.active_invoices@[b2].ids@[p]@ != pre.active_invoices@[b2].ids@[q]@);
            }
            assert forall|b: int, p: int|
                0 <= b < post.active_invoices@.len() && 0 <= p
                    < post.active_invoices@[b].ids@.len() implies {
                let k = (#[trigger] post.active_invoices@[b].ids@[p])@;
                &&& post.has_invoice(k)
                &&& !(post.invoice_of(k).status is Paid)
                &&& post.invoice_of(k).exchange_rates_timestamp == post.active_invoices@[b].epoch
            } by {
                let b2: int = if b < bi {
                    b
                } else {
                    b + 1
                };
                assert(post.active_invoices@[b] == pre.active_invoices@[b2]);
                let k = pre.active_invoices@[b2].ids@[p]@;
                assert(b2 != bi);
                assert(k != id);
                assert(pre.has_invoice(k) && !(pre.invoice_of(k).status is Paid));
            }
            assert(!post.has_bucket(e)) by {
                if post.has_bucket(e) {
                    let w = post.bucket_idx(e);
                    let w2: int = if w < bi {
                        w
                    } else {
                        w + 1
                    };
                    assert(post.active_invoices@[w] == pre.active_invoices@[w2]);
                    assert(pre.active_invoices@[w2].epoch == e);
                    if w2 < bi {
                        assert(pre.active_invoices@[w2].epoch != pre.active_invoices@[bi].epoch);
                    } else {
                        assert(pre.active_invoices@[bi].epoch != pre.active_invoices@[w2].epoch);
                    }
                }
            }
            assert forall|k: Seq<u8>| #[trigger] post.in_active(e, k) == (pre.in_active(e, k) && k
                != id) by {
                if pre.in_active(e, k) {
                    let p2 = choose|p2: int|
                        0 <= p2 < pre.bucket_ids(e).len() && (#[trigger] pre.bucket_ids(e)[p2])@
                            == k;
                    assert(p2 == 0);
                    assert(k == id);
                }
                assert(!post.in_active(e, k));
            }
            assert forall|e2: Timestamp| e2 != e implies #[trigger] post.has_bucket(e2)
                == pre.has_bucket(e2) by {
                if pre.has_bucket(e2) {
                    let w2 = pre.bucket_idx(e2);
                    assert(w2 != bi);
                    let w: int = if w2 < bi {
                        w2
                    } else {
                        w2 - 1
                    };
                    assert(post.active_invoices@[w] == pre.active_invoices@[w2]);
                    assert(post.active_invoices@[w].epoch == e2);
                }
                if post.has_bucket(e2) {
                    let w = post.bucket_idx(e2);
                    let w2: int = if w < bi {
                        w
                    } else {
                        w + 1
                    };
                    assert(post.active_invoices@[w] == pre.active_invoices@[w2]);
                    assert(pre.active_invoices@[w2].epoch == e2);
                }
            }
            assert forall|e2: Timestamp, k: Seq<u8>| e2 != e implies #[trigger] post.in_active(
                e2,
                k,
            ) == pre.in_active(e2, k) by {
                if pre.in_active(e2, k) {
                    let w2 = pre.bucket_idx(e2);
                    assert(w2 != bi);
                    let w: int = if w2 < bi {
                        w2
                    } else {
                        w2 - 1
                    };
                    assert(post.active_invoices@[w] == pre.active_invoices@[w2]);
                    pre.lemma_bucket_at(w2);
                    post.lemma_bucket_at(w);
                    let p = choose|p: int|
                        0 <= p < pre.bucket_ids(e2).len() && (#[trigger] pre.bucket_ids(e2)[p])@
                            == k;
                    assert(post.bucket_ids(e2)[p]@ == k);
                }
                if post.in_active(e2, k) {
                    let w = post.bucket_idx(e2);
                    let w2: int = if w < bi {
                        w
                    } else {
                        w + 1
                    };
                    assert(post.active_invoices@[w] == pre.active_invoices@[w2]);
                    post.lemma_bucket_at(w);
                    pre.lemma_bucket_at(w2);
                    let p = choose|p: int|
                        0 <= p < post.bucket_ids(e2).len() && (#[trigger] post.bucket_ids(e2)[p])@
                            == k;
                    assert(pre.bucket_ids(e2)[p]@ == k);
                }
            }
        }
        // --- placement ---
        assert forall|w: int| 0 <= w < post.invoices@.len() implies post.invoice_placed(
            #[trigger] post.invoices@[w],
        ) by {
            let inv = post.invoices@[w];
            if w == i {
                assert(inv == inv2);
                assert(post.in_inactive(id));
            } else {
                assert(inv == pre.invoices@[w]);
                assert(pre.invoice_placed(inv));
                assert(inv.id@ != id) by {
                    if w < i {
                        assert(pre.invoices@[w].id@ != pre.invoices@[i].id@);
                    } else {
                        assert(pre.invoices@[i].id@ != pre.invoices@[w].id@);
                    }
                }
                if inv.status is Paid {
                    assert(post.in_inactive(inv.id@));
                } else {
                    assert(pre.in_active(inv.exchange_rates_timestamp, inv.id@));
                    if inv.exchange_rates_timestamp == e {
                        assert(post.in_active(e, inv.id@));
                    } else {
                        assert(post.in_active(inv.exchange_rates_timestamp, inv.id@));
                    }
                }
            }
        }
    }

    // ----- the expiry sweep -----

    /// Whether a sweep keeps this invoice: paid invoices are not touched,
    /// and a countdown above the floor is only decremented.
    pub open spec fn kept_after_sweep(pre: Self, k: Seq<u8>) -> bool {
        ||| pre.invoice_of(k).status is Paid
        ||| (pre.invoice_of(k).status matches InvoiceStatus::Created { ttl } && ttl
            > RECYCLING_TTL)
    }

    /// The invoice as one sweep leaves it: a countdown is decremented,
    /// anything else stays.
    pub open spec fn swept_invoice(inv: Invoice) -> Invoice {
        if inv.status matches InvoiceStatus::Created { ttl } {
            Self::with_status(
                inv,
                InvoiceStatus::Created { ttl: (inv.status->ttl - 1) as u8 },
            )
        } else {
            inv
        }
    }

    /// Whether the epoch's bucket holds an invoice that outlives a sweep.
    pub open spec fn bucket_has_survivor(pre: Self, e: Timestamp) -> bool {
        exists|k: Seq<u8>| #[trigger] pre.in_active(e, k) && Self::kept_after_sweep(pre, k)
    }

    /// Whether all invoices in the active index await payment; the sweep
    /// demands this, since meeting any other status there is a consistency
    /// violation.
    pub open spec fn all_active_created(self) -> bool {
        forall|e: Timestamp, k: Seq<u8>|
            #[trigger] self.in_active(e, k) ==> self.invoice_of(k).status is Created
    }

    /// What one expiry sweep does: every live countdown above the floor
    /// drops by one, every other live invoice is deleted together with its
    /// index entry, emptied buckets disappear, and exactly those epochs
    /// are reported for rate eviction, each once.
    pub open spec fn purge_post(pre: Self, post: Self, evicted: Seq<Timestamp>) -> bool {
        &&& forall|k: Seq<u8>|
            #[trigger] post.has_invoice(k) == (pre.has_invoice(k) && Self::kept_after_sweep(
                pre,
                k,
            ))
        &&& forall|k: Seq<u8>|
            pre.has_invoice(k) && Self::kept_after_sweep(pre, k)
                ==> #[trigger] post.invoice_of(k) == Self::swept_invoice(pre.invoice_of(k))
        &&& forall|e: Timestamp, k: Seq<u8>|
            #[trigger] post.in_active(e, k) == (pre.in_active(e, k) && Self::kept_after_sweep(
                pre,
                k,
            ))
        &&& forall|e: Timestamp|
            #[trigger] post.has_bucket(e) == (pre.has_bucket(e) && Self::bucket_has_survivor(
                pre,
                e,
            ))
        &&& forall|x: int, y: int| 0 <= x < y < evicted.len() ==> evicted[x] != evicted[y]
        &&& forall|e: Timestamp|
            #[trigger] evicted.contains(e) == (pre.has_bucket(e) && !post.has_bucket(e))
        &&& post.inactive_invoices@ == pre.inactive_invoices@
        &&& post.total_processed_in_usd == pre.total_processed_in_usd
        &&& post.invoice_id_generator == pre.invoice_id_generator
    }

    /// Whether some position of an id list up to (excluding) `p` holds
    /// this id.
    pub open spec fn prefix_contains(ids: Seq<InvoiceId>, p: int, k: Seq<u8>) -> bool {
        exists|q: int| 0 <= q < p && (#[trigger] ids[q])@ == k
    }

    /// Whether an id list holds this id.
    pub open spec fn ids_contain(ids: Seq<InvoiceId>, k: Seq<u8>) -> bool {
        Self::prefix_contains(ids, ids.len() as int, k)
    }

    /// Whether the sweep, standing before bucket `b` position `p`, has
    /// already handled this id.
    pub open spec fn sweep_processed(pre: Self, b: int, p: int, k: Seq<u8>) -> bool {
        exists|w: int, q: int|
            0 <= w < pre.active_invoices@.len() && 0 <= q
                < pre.active_invoices@[w].ids@.len() && (w < b || (w == b && q < p)) && (
            #[trigger] pre.active_invoices@[w].ids@[q])@ == k
    }

    /// In a well-formed store an id occupies exactly one position of the
    /// active index.
    proof fn lemma_active_position_unique(pre: Self, w1: int, q1: int, w2: int, q2: int)
        requires
            pre.wf(),
            0 <= w1 < pre.active_invoices@.len(),
            0 <= q1 < pre.active_invoices@[w1].ids@.len(),
            0 <= w2 < pre.active_invoices@.len(),
            0 <= q2 < pre.active_invoices@[w2].ids@.len(),
            pre.active_invoices@[w1].ids@[q1]@ == pre.active_invoices@[w2].ids@[q2]@,
        ensures
            w1 == w2,
            q1 == q2,
    {
        let k = pre.active_invoices@[w1].ids@[q1]@;
        assert(pre.has_invoice(k) && pre.invoice_of(k).exchange_rates_timestamp
            == pre.active_invoices@[w1].epoch);
        assert(pre.invoice_of(k).exchange_rates_timestamp == pre.active_invoices@[w2].epoch);
        if w1 != w2 {
            if w1 < w2 {
                assert(pre.active_invoices@[w1].epoch != pre.active_invoices@[w2].epoch);
            } else {
                assert(pre.active_invoices@[w2].epoch != pre.active_invoices@[w1].epoch);
            }
        }
        if q1 != q2 {
            if q1 < q2 {
                assert(pre.active_invoices@[w1].ids@[q1]@ != pre.active_invoices@[w1].ids@[q2]@);
            } else {
                assert(pre.active_invoices@[w1].ids@[q2]@ != pre.active_invoices@[w1].ids@[q1]@);
            }
        }
    }

    /// An update of one invoice in place changes exactly that key's value.
    proof fn lemma_map_update(pre: Self, post: Self, i: int)
        requires
            forall|p: int, q: int|
                0 <= p < q < pre.invoices@.len() ==> (#[trigger] pre.invoices@[p]).id@ != (
                #[trigger] pre.invoices@[q]).id@,
            0 <= i < pre.invoices@.len(),
            post.invoices@ == pre.invoices@.update(i, post.invoices@[i]),
            post.invoices@[i].id@ == pre.invoices@[i].id@,
        ensures
            forall|p: int, q: int|
                0 <= p < q < post.invoices@.len() ==> (#[trigger] post.invoices@[p]).id@ != (
                #[trigger] post.invoices@[q]).id@,
            post.has_invoice(pre.invoices@[i].id@),
            post.invoice_of(pre.invoices@[i].id@) == post.invoices@[i],
            forall|k: Seq<u8>| #[trigger] post.has_invoice(k) == pre.has_invoice(k),
            forall|k: Seq<u8>|
                k != pre.invoices@[i].id@ && pre.has_invoice(k) ==> #[trigger] post.invoice_of(k)
                    == pre.invoice_of(k),
    {
        assert forall|p: int, q: int| 0 <= p < q < post.invoices@.len() implies (
        #[trigger] post.invoices@[p]).id@ != (#[trigger] post.invoices@[q]).id@ by {
            assert(pre.invoices@[p].id@ != pre.invoices@[q].id@);
        }
        Self::lemma_invoice_at_for(post, i);
        assert forall|k: Seq<u8>| #[trigger] post.has_invoice(k) == pre.has_invoice(k) by {
            if pre.has_invoice(k) {
                let w = pre.invoice_idx(k);
                assert(post.invoices@[w].id@ == k);
            }
            if post.has_invoice(k) {
                let w = post.invoice_idx(k);
                assert(pre.invoices@[w].id@ == k);
            }
        }
        assert forall|k: Seq<u8>|
            k != pre.invoices@[i].id@ && pre.has_invoice(k) implies #[trigger] post.invoice_of(k)
            == pre.invoice_of(k) by {
            let w = pre.invoice_idx(k);
            assert(w != i);
            Self::lemma_invoice_at_for(pre, w);
            Self::lemma_invoice_at_for(post, w);
        }
    }

    /// A removal of one invoice deletes exactly that key.
    proof fn lemma_map_remove(pre: Self, post: Self, i: int)
        requires
            forall|p: int, q: int|
                0 <= p < q < pre.invoices@.len() ==> (#[trigger] pre.invoices@[p]).id@ != (
                #[trigger] pre.invoices@[q]).id@,
            0 <= i < pre.invoices@.len(),
            post.invoices@ == pre.invoices@.remove(i),
        ensures
            forall|p: int, q: int|
                0 <= p < q < post.invoices@.len() ==> (#[trigger] post.invoices@[p]).id@ != (
                #[trigger] post.invoices@[q]).id@,
            !post.has_invoice(pre.invoices@[i].id@),
            forall|k: Seq<u8>|
                k != pre.invoices@[i].id@ ==> #[trigger] post.has_invoice(k) == pre.has_invoice(
                    k,
                ),
            forall|k: Seq<u8>|
                k != pre.invoices@[i].id@ && pre.has_invoice(k) ==> #[trigger] post.invoice_of(k)
                    == pre.invoice_of(k),
            forall|k: Seq<u8>| #[trigger] post.has_invoice(k) ==> pre.has_invoice(k),
    {
        let id = pre.invoices@[i].id@;
        pre.invoices@.remove_ensures(i);
        assert forall|p: int, q: int| 0 <= p < q < post.invoices@.len() implies (
        #[trigger] post.invoices@[p]).id@ != (#[trigger] post.invoices@[q]).id@ by {
            let p2: int = if p < i {
                p
            } else {
                p + 1
            };
            let q2: int = if q < i {
                q
            } else {
                q + 1
            };
            assert(post.invoices@[p] == pre.invoices@[p2]);
            assert(post.invoices@[q] == pre.invoices@[q2]);
            assert(pre.invoices@[p2].id@ != pre.invoices@[q2].id@);
        }
        assert(!post.has_invoice(id)) by {
            if post.has_invoice(id) {
                let w = post.invoice_idx(id);
                let w2: int = if w < i {
                    w
                } else {
                    w + 1
                };
                assert(post.invoices@[w] == pre.invoices@[w2]);
                if w2 < i {
                    assert(pre.invoices@[w2].id@ != pre.invoices@[i].id@);
                } else {
                    assert(pre.invoices@[i].id@ != pre.invoices@[w2].id@);
                }
            }
        }
        assert forall|k: Seq<u8>| k != id implies #[trigger] post.has_invoice(k)
            == pre.has_invoice(k) by {
            if pre.has_invoice(k) {
                let w2 = pre.invoice_idx(k);
                assert(w2 != i);
                let w: int = if w2 < i {
                    w2
                } else {
                    w2 - 1
                };
                assert(post.invoices@[w] == pre.invoices@[w2]);
            }
            if post.has_invoice(k) {
                let w = post.invoice_idx(k);
                let w2: int = if w < i {
                    w
                } else {
                    w + 1
                };
                assert(post.invoices@[w] == pre.invoices@[w2]);
                assert(pre.invoices@[w2].id@ == k);
            }
        }
        assert forall|k: Seq<u8>| k != id && pre.has_invoice(k) implies #[trigger] post.invoice_of(
            k,
        ) == pre.invoice_of(k) by {
            let w2 = pre.invoice_idx(k);
            Self::lemma_invoice_at_for(pre, w2);
            assert(w2 != i);
            let w: int = if w2 < i {
                w2
            } else {
                w2 - 1
            };
            assert(post.invoices@[w] == pre.invoices@[w2]);
            Self::lemma_invoice_at_for(post, w);
        }
        assert forall|k: Seq<u8>| #[trigger] post.has_invoice(k) implies pre.has_invoice(k) by {
            let w = post.invoice_idx(k);
            let w2: int = if w < i {
                w
            } else {
                w + 1
            };
            assert(post.invoices@[w] == pre.invoices@[w2]);
            assert(pre.invoices@[w2].id@ == k);
        }
    }

    /// Handles one live invoice of a sweep: decrements its countdown, or
    /// deletes it from the map when the countdown sits at the floor.
    fn sweep_one(&mut self, id: &InvoiceId) -> (keep: bool)
        requires
            forall|p: int, q: int|
                0 <= p < q < old(self).invoices@.len() ==> (#[trigger] old(self).invoices@[p]).id@
                    != (#[trigger] old(self).invoices@[q]).id@,
            old(self).has_invoice(id@),
            old(self).invoice_of(id@).status is Created,
        ensures
            forall|p: int, q: int|
                0 <= p < q < final(self).invoices@.len() ==> (#[trigger] final(self).invoices@[p]).id@
                    != (#[trigger] final(self).invoices@[q]).id@,
            final(self).active_invoices == old(self).active_invoices,
            final(self).inactive_invoices == old(self).inactive_invoices,
            final(self).total_processed_in_usd == old(self).total_processed_in_usd,
            final(self).invoice_id_generator == old(self).invoice_id_generator,
            keep == (old(self).invoice_of(id@).status->ttl > RECYCLING_TTL),
            forall|k: Seq<u8>|
                k != id@ ==> #[trigger] final(self).has_invoice(k) == old(self).has_invoice(k),
            forall|k: Seq<u8>|
                k != id@ && old(self).has_invoice(k) ==> #[trigger] final(self).invoice_of(k)
                    == old(self).invoice_of(k),
            keep ==> final(self).has_invoice(id@) && final(self).invoice_of(id@)
                == Self::swept_invoice(old(self).invoice_of(id@)),
            !keep ==> !final(self).has_invoice(id@),
            forall|k: Seq<u8>| #[trigger] final(self).has_invoice(k) ==> old(self).has_invoice(k),
    {
        let ghost pre = *self;
        let i = match find_invoice(&self.invoices, id) {
            Some(i) => i,
            None => {
                proof {
                    assert(false);
                }
                return false;
            },
        };
        proof {
            self.lemma_invoice_at(i as int);
        }
        let inv = self.invoices[i];
        let ttl = match inv.status {
            InvoiceStatus::Created { ttl } => ttl,
            _ => {
                proof {
                    assert(false);
                }
                return false;
            },
        };
        if ttl > RECYCLING_TTL {
            self.invoices[i] = Invoice { status: InvoiceStatus::Created { ttl: ttl - 1 }, ..inv };
            proof {
                Self::lemma_map_update(pre, *self, i as int);
            }
            true
        } else {
            let _ = self.invoices.remove(i);
            proof {
                Self::lemma_map_remove(pre, *self, i as int);
            }
            false
        }
    }

    /// One expiry sweep over the whole active index: every live invoice's
    /// countdown is decremented, invoices at the floor are deleted, buckets
    /// that empty disappear, and the epochs whose buckets disappeared are
    /// returned so the caller can tell the rate oracle to evict their
    /// cached rates — each exactly once.
    ///
    /// Any status other than `Created` in the active index would be a
    /// consistency violation, so the sweep demands up front that none
    /// occurs.
    #[verifier::rlimit(100)]
    pub fn purge_expired(&mut self) -> (evicted: Vec<Timestamp>)
        requires
            old(self).wf(),
            old(self).all_active_created(),
        ensures
            final(self).wf(),
            Self::purge_post(*old(self), *final(self), evicted@),
    {
        let ghost pre = *self;
        let mut new_buckets: Vec<EpochBucket> = Vec::new();
        let mut evicted: Vec<Timestamp> = Vec::new();
        let mut b: usize = 0;
        while b < self.active_invoices.len()
            invariant
                pre.wf(),
                pre.all_active_created(),
                0 <= b <= pre.active_invoices@.len(),
                self.active_invoices == pre.active_invoices,
                self.inactive_invoices == pre.inactive_invoices,
                self.total_processed_in_usd == pre.total_processed_in_usd,
                self.invoice_id_generator == pre.invoice_id_generator,
                forall|p: int, q: int|
                    0 <= p < q < self.invoices@.len() ==> (#[trigger] self.invoices@[p]).id@ != (
                    #[trigger] self.invoices@[q]).id@,
                forall|k: Seq<u8>|
                    pre.has_invoice(k) && !Self::sweep_processed(pre, b as int, 0, k)
                        ==> #[trigger] self.has_invoice(k) && self.invoice_of(k)
                        == pre.invoice_of(k),
                forall|k: Seq<u8>|
                    pre.has_invoice(k) && Self::sweep_processed(pre, b as int, 0, k)
                        && Self::kept_after_sweep(pre, k) ==> #[trigger] self.has_invoice(k)
                        && self.invoice_of(k) == Self::swept_invoice(pre.invoice_of(k)),
                forall|k: Seq<u8>|
                    Self::sweep_processed(pre, b as int, 0, k) && !Self::kept_after_sweep(pre, k)
                        ==> !(#[trigger] self.has_invoice(k)),
                forall|k: Seq<u8>| #[trigger] self.has_invoice(k) ==> pre.has_invoice(k),
                forall|x: int, y: int|
                    0 <= x < y < new_buckets@.len() ==> (#[trigger] new_buckets@[x]).epoch != (
                    #[trigger] new_buckets@[y]).epoch,
                forall|x: int|
                    0 <= x < new_buckets@.len() ==> {
                        let e = (#[trigger] new_buckets@[x]).epoch;
                        &&& pre.has_bucket(e)
                        &&& pre.bucket_idx(e) < b
                        &&& new_buckets@[x].ids@.len() > 0
                    },
                forall|x: int, y1: int, y2: int|
                    #![trigger new_buckets@[x].ids@[y1], new_buckets@[x].ids@[y2]]
                    0 <= x < new_buckets@.len() && 0 <= y1 < y2 < new_buckets@[x].ids@.len()
                        ==> new_buckets@[x].ids@[y1]@ != new_buckets@[x].ids@[y2]@,
                forall|x: int, k: Seq<u8>|
                    0 <= x < new_buckets@.len() ==> #[trigger] Self::ids_contain(
                        new_buckets@[x].ids@,
                        k,
                    ) == (pre.in_active(new_buckets@[x].epoch, k) && Self::kept_after_sweep(
                        pre,
                        k,
                    )),
                forall|w: int|
                    0 <= w < b && Self::bucket_has_survivor(
                        pre,
                        (#[trigger] pre.active_invoices@[w]).epoch,
                    ) ==> exists|x: int|
                        0 <= x < new_buckets@.len() && (#[trigger] new_buckets@[x]).epoch
                            == pre.active_invoices@[w].epoch,
                forall|x: int, y: int|
                    0 <= x < y < evicted@.len() ==> evicted@[x] != evicted@[y],
                forall|y: int|
                    0 <= y < evicted@.len() ==> {
                        let e = #[trigger] evicted@[y];
                        &&& pre.has_bucket(e)
                        &&& pre.bucket_idx(e) < b
                        &&& !Self::bucket_has_survivor(pre, e)
                    },
                forall|w: int|
                    0 <= w < b && !Self::bucket_has_survivor(
                        pre,
                        (#[trigger] pre.active_invoices@[w]).epoch,
                    ) ==> evicted@.contains(pre.active_invoices@[w].epoch),
            decreases pre.active_invoices@.len() - b,
        {
            let epoch = self.active_invoices[b].epoch;
            proof {
                pre.lemma_bucket_at(b as int);
            }
            let ghost bucket = pre.active_invoices@[b as int].ids@;
            proof {
                assert forall|k: Seq<u8>|
                    pre.has_invoice(k) && !Self::sweep_processed(pre, b as int, 0, k)
                        implies self.has_invoice(k) && self.invoice_of(k) == pre.invoice_of(k) by {
                    assert(self.has_invoice(k));
                }
                assert forall|k: Seq<u8>|
                    pre.has_invoice(k) && Self::sweep_processed(pre, b as int, 0, k)
                        && Self::kept_after_sweep(pre, k) implies self.has_invoice(k)
                    && self.invoice_of(k) == Self::swept_invoice(pre.invoice_of(k)) by {
                    assert(self.has_invoice(k));
                }
                assert forall|k: Seq<u8>|
                    Self::sweep_processed(pre, b as int, 0, k) && !Self::kept_after_sweep(pre, k)
                        implies !self.has_invoice(k) by {
                    if self.has_invoice(k) {
                        assert(pre.has_invoice(k));
                    }
                }
            }
            let mut kept: Vec<InvoiceId> = Vec::new();
            let mut p: usize = 0;
            while p < self.active_invoices[b].ids.len()
                invariant
                    pre.wf(),
                    pre.all_active_created(),
                    0 <= b < pre.active_invoices@.len(),
                    epoch == pre.active_invoices@[b as int].epoch,
                    pre.bucket_idx(epoch) == b as int,
                    bucket == pre.active_invoices@[b as int].ids@,
                    0 <= p <= bucket.len(),
                    self.active_invoices == pre.active_invoices,
                    self.inactive_invoices == pre.inactive_invoices,
                    self.total_processed_in_usd == pre.total_processed_in_usd,
                    self.invoice_id_generator == pre.invoice_id_generator,
                    forall|p2: int, q2: int|
                        0 <= p2 < q2 < self.invoices@.len() ==> (
                        #[trigger] self.invoices@[p2]).id@ != (#[trigger] self.invoices@[q2]).id@,
                    forall|k: Seq<u8>|
                        pre.has_invoice(k) && !Self::sweep_processed(pre, b as int, p as int, k)
                            ==> #[trigger] self.has_invoice(k) && self.invoice_of(k)
                            == pre.invoice_of(k),
                    forall|k: Seq<u8>|
                        pre.has_invoice(k) && Self::sweep_processed(pre, b as int, p as int, k)
                            && Self::kept_after_sweep(pre, k) ==> #[trigger] self.has_invoice(k)
                            && self.invoice_of(k) == Self::swept_invoice(pre.invoice_of(k)),
                    forall|k: Seq<u8>|
                        Self::sweep_processed(pre, b as int, p as int, k)
                            && !Self::kept_after_sweep(pre, k) ==> !(#[trigger] self.has_invoice(
                            k,
                        )),
                    forall|k: Seq<u8>| #[trigger] self.has_invoice(k) ==> pre.has_invoice(k),
                    forall|y1: int, y2: int|
                        0 <= y1 < y2 < kept@.len() ==> (#[trigger] kept@[y1])@ != (
                        #[trigger] kept@[y2])@,
                    forall|k: Seq<u8>|
                        #[trigger] Self::ids_contain(kept@, k) == (Self::prefix_contains(
                            bucket,
                            p as int,
                            k,
                        ) && Self::kept_after_sweep(pre, k)),
                    forall|x: int, y: int|
                        0 <= x < y < new_buckets@.len() ==> (#[trigger] new_buckets@[x]).epoch
                            != (#[trigger] new_buckets@[y]).epoch,
                    forall|x: int|
                        0 <= x < new_buckets@.len() ==> {
                            let e = (#[trigger] new_buckets@[x]).epoch;
                            &&& pre.has_bucket(e)
                            &&& pre.bucket_idx(e) < b
                            &&& new_buckets@[x].ids@.len() > 0
                        },
                    forall|x: int, y1: int, y2: int|
                        #![trigger new_buckets@[x].ids@[y1], new_buckets@[x].ids@[y2]]
                        0 <= x < new_buckets@.len() && 0 <= y1 < y2 < new_buckets@[x].ids@.len()
                            ==> new_buckets@[x].ids@[y1]@ != new_buckets@[x].ids@[y2]@,
                    forall|x: int, k: Seq<u8>|
                        0 <= x < new_buckets@.len() ==> #[trigger] Self::ids_contain(
                            new_buckets@[x].ids@,
                            k,
                        ) == (pre.in_active(new_buckets@[x].epoch, k) && Self::kept_after_sweep(
                            pre,
                            k,
                        )),
                    forall|w: int|
                        0 <= w < b && Self::bucket_has_survivor(
                            pre,
                            (#[trigger] pre.active_invoices@[w]).epoch,
                        ) ==> exists|x: int|
                            0 <= x < new_buckets@.len() && (#[trigger] new_buckets@[x]).epoch
                                == pre.active_invoices@[w].epoch,
                    forall|x: int, y: int|
                        0 <= x < y < evicted@.len() ==> evicted@[x] != evicted@[y],
                    forall|y: int|
                        0 <= y < evicted@.len() ==> {
                            let e = #[trigger] evicted@[y];
                            &&& pre.has_bucket(e)
                            &&& pre.bucket_idx(e) < b
                            &&& !Self::bucket_has_survivor(pre, e)
                        },
                    forall|w: int|
                        0 <= w < b && !Self::bucket_has_survivor(
                            pre,
                            (#[trigger] pre.active_invoices@[w]).epoch,
                        ) ==> evicted@.contains(pre.active_invoices@[w].epoch),
                decreases bucket.len() - p,
            {
                let id = self.active_invoices[b].ids[p];
                proof {
                    assert(pre.in_active(epoch, id@)) by {
                        assert(pre.bucket_ids(epoch)[p as int]@ == id@);
                    }
                    assert(pre.has_invoice(id@) && pre.invoice_of(id@).status is Created);
                    assert(!Self::sweep_processed(pre, b as int, p as int, id@)) by {
                        if Self::sweep_processed(pre, b as int, p as int, id@) {
                            let (w, q): (int, int) = choose|w: int, q: int|
                                0 <= w < pre.active_invoices@.len() && 0 <= q
                                    < pre.active_invoices@[w].ids@.len() && (w < b as int || (w
                                    == b as int && q < p as int)) && (
                                #[trigger] pre.active_invoices@[w].ids@[q])@ == id@;
                            Self::lemma_active_position_unique(
                                pre,
                                w,
                                q,
                                b as int,
                                p as int,
                            );
                        }
                    }
                    assert(self.has_invoice(id@));
                    assert(self.invoice_of(id@) == pre.invoice_of(id@));
                }
                let ghost st0 = *self;
                let keep = self.sweep_one(&id);
                proof {
                    assert(keep == Self::kept_after_sweep(pre, id@));
                    assert(Self::sweep_processed(pre, b as int, (p + 1) as int, id@)) by {
                        assert((pre.active_invoices@[b as int].ids@[p as int])@ == id@);
                    }
                    assert forall|k: Seq<u8>| k != id@ implies Self::sweep_processed(
                        pre,
                        b as int,
                        (p + 1) as int,
                        k,
                    ) == Self::sweep_processed(pre, b as int, p as int, k) by {
                        if Self::sweep_processed(pre, b as int, p as int, k) {
                            let (w, q): (int, int) = choose|w: int, q: int|
                                0 <= w < pre.active_invoices@.len() && 0 <= q
                                    < pre.active_invoices@[w].ids@.len() && (w < b as int || (w
                                    == b as int && q < p as int)) && (
                                #[trigger] pre.active_invoices@[w].ids@[q])@ == k;
                            assert(Self::sweep_processed(pre, b as int, (p + 1) as int, k));
                        }
                        if Self::sweep_processed(pre, b as int, (p + 1) as int, k) {
                            let (w, q): (int, int) = choose|w: int, q: int|
                                0 <= w < pre.active_invoices@.len() && 0 <= q
                                    < pre.active_invoices@[w].ids@.len() && (w < b as int || (w
                                    == b as int && q < (p + 1) as int)) && (
                                #[trigger] pre.active_invoices@[w].ids@[q])@ == k;
                            assert(!(w == b as int && q == p as int));
                            assert(Self::sweep_processed(pre, b as int, p as int, k));
                        }
                    }
                    // carry the invoice-map picture one position forward
                    assert forall|k: Seq<u8>|
                        pre.has_invoice(k) && !Self::sweep_processed(
                            pre,
                            b as int,
                            (p + 1) as int,
                            k,
                        ) implies self.has_invoice(k) && self.invoice_of(k) == pre.invoice_of(
                        k,
                    ) by {
                        assert(k != id@);
                        assert(!Self::sweep_processed(pre, b as int, p as int, k));
                        assert(st0.has_invoice(k) && st0.invoice_of(k) == pre.invoice_of(k));
                        assert(self.has_invoice(k) == st0.has_invoice(k));
                        assert(self.invoice_of(k) == st0.invoice_of(k));
                    }
                    assert forall|k: Seq<u8>|
                        pre.has_invoice(k) && Self::sweep_processed(
                            pre,
                            b as int,
                            (p + 1) as int,
                            k,
                        ) && Self::kept_after_sweep(pre, k) implies self.has_invoice(k)
                        && self.invoice_of(k) == Self::swept_invoice(pre.invoice_of(k)) by {
                        if k == id@ {
                            assert(keep);
                            assert(self.has_invoice(id@));
                            assert(self.invoice_of(id@) == Self::swept_invoice(
                                st0.invoice_of(id@),
                            ));
                        } else {
                            assert(Self::sweep_processed(pre, b as int, p as int, k));
                            assert(st0.has_invoice(k));
                            assert(st0.invoice_of(k) == Self::swept_invoice(pre.invoice_of(k)));
                            assert(self.has_invoice(k) == st0.has_invoice(k));
                            assert(self.invoice_of(k) == st0.invoice_of(k));
                        }
                    }
                    assert forall|k: Seq<u8>|
                        Self::sweep_processed(pre, b as int, (p + 1) as int, k)
                            && !Self::kept_after_sweep(pre, k) implies !self.has_invoice(k) by {
                        if k == id@ {
                            assert(!keep);
                            assert(!self.has_invoice(id@));
                        } else {
                            assert(Self::sweep_processed(pre, b as int, p as int, k));
                            if st0.has_invoice(k) {
                                assert(pre.has_invoice(k));
                            }
                            assert(!st0.has_invoice(k));
                            assert(self.has_invoice(k) == st0.has_invoice(k));
                        }
                    }
                    assert forall|k: Seq<u8>| self.has_invoice(k) implies pre.has_invoice(k) by {
                        assert(st0.has_invoice(k));
                    }
                }
                if keep {
                    let ghost kept0 = kept@;
                    proof {
                        assert(!Self::ids_contain(kept0, id@)) by {
                            if Self::ids_contain(kept0, id@) {
                                assert(Self::prefix_contains(bucket, p as int, id@));
                                let q = choose|q: int|
                                    0 <= q < p as int && (#[trigger] bucket[q])@ == id@;
                                assert(pre.active_invoices@[b as int].ids@[q]@
                                    != pre.active_invoices@[b as int].ids@[p as int]@);
                            }
                        }
                    }
                    kept.push(id);
                    proof {
                        assert(kept@ == kept0.push(id));
                        assert forall|y1: int, y2: int|
                            0 <= y1 < y2 < kept@.len() implies (#[trigger] kept@[y1])@ != (
                        #[trigger] kept@[y2])@ by {
                            if y2 < kept0.len() {
                                assert(kept0[y1]@ != kept0[y2]@);
                            } else {
                                assert(kept@[y2]@ == id@);
                                assert(kept0[y1]@ == kept@[y1]@);
                                if kept@[y1]@ == id@ {
                                    assert(Self::ids_contain(kept0, id@)) by {
                                        assert(kept0[y1]@ == id@);
                                    }
                                }
                            }
                        }
                        assert forall|k: Seq<u8>| #[trigger] Self::ids_contain(kept@, k) == (
                        Self::prefix_contains(bucket, (p + 1) as int, k)
                            && Self::kept_after_sweep(pre, k)) by {
                            if Self::ids_contain(kept@, k) {
                                let y = choose|y: int|
                                    0 <= y < kept@.len() && (#[trigger] kept@[y])@ == k;
                                if y < kept0.len() {
                                    assert(kept0[y]@ == k);
                                    assert(Self::ids_contain(kept0, k)) by {
                                        assert(kept0[y]@ == k);
                                    }
                                    assert(Self::prefix_contains(bucket, p as int, k));
                                    let q = choose|q: int|
                                        0 <= q < p as int && (#[trigger] bucket[q])@ == k;
                                    assert(Self::prefix_contains(bucket, (p + 1) as int, k)) by {
                                        assert(bucket[q]@ == k);
                                    }
                                } else {
                                    assert(k == id@);
                                    assert(Self::prefix_contains(bucket, (p + 1) as int, k)) by {
                                        assert(bucket[p as int]@ == k);
                                    }
                                }
                            }
                            if Self::prefix_contains(bucket, (p + 1) as int, k)
                                && Self::kept_after_sweep(pre, k) {
                                let q = choose|q: int|
                                    0 <= q < (p + 1) as int && (#[trigger] bucket[q])@ == k;
                                if q < p as int {
                                    assert(Self::prefix_contains(bucket, p as int, k)) by {
                                        assert(bucket[q]@ == k);
                                    }
                                    assert(Self::ids_contain(kept0, k));
                                    let y = choose|y: int|
                                        0 <= y < kept0.len() && (#[trigger] kept0[y])@ == k;
                                    assert(Self::ids_contain(kept@, k)) by {
                                        assert(kept@[y]@ == k);
                                    }
                                } else {
                                    assert(k == id@);
                                    assert(Self::ids_contain(kept@, k)) by {
                                        assert(kept@[kept@.len() - 1]@ == k);
                                    }
                                }
                            }
                        }
                    }
                } else {
                    proof {
                        assert forall|k: Seq<u8>| #[trigger] Self::ids_contain(kept@, k) == (
                        Self::prefix_contains(bucket, (p + 1) as int, k)
                            && Self::kept_after_sweep(pre, k)) by {
                            if Self::prefix_contains(bucket, (p + 1) as int, k)
                                && Self::kept_after_sweep(pre, k) {
                                let q = choose|q: int|
                                    0 <= q < (p + 1) as int && (#[trigger] bucket[q])@ == k;
                                if q == p as int {
                                    assert(k == id@);
                                    assert(false);
                                } else {
                                    assert(Self::prefix_contains(bucket, p as int, k));
                                }
                            }
                        }
                    }
                }
                p += 1;
            }
            let ghost nb0 = new_buckets@;
            let ghost ev0 = evicted@;
            if kept.len() > 0 {
                proof {
                    assert(Self::bucket_has_survivor(pre, epoch)) by {
                        let y = 0int;
                        let k = kept@[y]@;
                        assert(Self::ids_contain(kept@, k));
                        assert(pre.in_active(epoch, k) && Self::kept_after_sweep(pre, k));
                    }
                    assert forall|x: int| 0 <= x < new_buckets@.len() implies (
                    #[trigger] new_buckets@[x]).epoch != epoch by {
                        if new_buckets@[x].epoch == epoch {
                            assert(pre.bucket_idx(epoch) < b);
                        }
                    }
                    assert forall|k: Seq<u8>| #[trigger] Self::ids_contain(kept@, k) == (
                    pre.in_active(epoch, k) && Self::kept_after_sweep(pre, k)) by {
                        if pre.in_active(epoch, k) {
                            let q = choose|q: int|
                                0 <= q < pre.bucket_ids(epoch).len() && (
                                #[trigger] pre.bucket_ids(epoch)[q])@ == k;
                            assert(bucket[q]@ == k);
                            assert(Self::prefix_contains(bucket, bucket.len() as int, k));
                        }
                        if Self::prefix_contains(bucket, bucket.len() as int, k) {
                            let q = choose|q: int|
                                0 <= q < bucket.len() as int && (#[trigger] bucket[q])@ == k;
                            assert(pre.bucket_ids(epoch)[q]@ == k);
                            assert(pre.in_active(epoch, k));
                        }
                    }
                }
                new_buckets.push(EpochBucket { epoch, ids: kept });
            } else {
                proof {
                    assert(!Self::bucket_has_survivor(pre, epoch)) by {
                        if Self::bucket_has_survivor(pre, epoch) {
                            let k = choose|k: Seq<u8>|
                                #[trigger] pre.in_active(epoch, k) && Self::kept_after_sweep(
                                    pre,
                                    k,
                                );
                            let q = choose|q: int|
                                0 <= q < pre.bucket_ids(epoch).len() && (
                                #[trigger] pre.bucket_ids(epoch)[q])@ == k;
                            assert(bucket[q]@ == k);
                            assert(Self::prefix_contains(bucket, bucket.len() as int, k));
                            assert(Self::ids_contain(kept@, k));
                        }
                    }
                    assert forall|y: int| 0 <= y < evicted@.len() implies #[trigger] evicted@[y]
                        != epoch by {
                        if evicted@[y] == epoch {
                            assert(pre.bucket_idx(epoch) < b);
                        }
                    }
                }
                evicted.push(epoch);
            }
            proof {
                assert forall|k: Seq<u8>| #[trigger] Self::sweep_processed(
                    pre,
                    (b + 1) as int,
                    0,
                    k,
                ) == Self::sweep_processed(pre, b as int, bucket.len() as int, k) by {
                    if Self::sweep_processed(pre, (b + 1) as int, 0, k) {
                        let (w, q): (int, int) = choose|w: int, q: int|
                            0 <= w < pre.active_invoices@.len() && 0 <= q
                                < pre.active_invoices@[w].ids@.len() && (w < (b + 1) as int || (w
                                == (b + 1) as int && q < 0)) && (
                            #[trigger] pre.active_invoices@[w].ids@[q])@ == k;
                        assert(w < b as int || (w == b as int && q < bucket.len() as int));
                        assert(Self::sweep_processed(pre, b as int, bucket.len() as int, k));
                    }
                    if Self::sweep_processed(pre, b as int, bucket.len() as int, k) {
                        let (w, q): (int, int) = choose|w: int, q: int|
                            0 <= w < pre.active_invoices@.len() && 0 <= q
                                < pre.active_invoices@[w].ids@.len() && (w < b as int || (w == b
                                as int && q < bucket.len() as int)) && (
                            #[trigger] pre.active_invoices@[w].ids@[q])@ == k;
                        assert(w < (b + 1) as int);
                        assert(Self::sweep_processed(pre, (b + 1) as int, 0, k));
                    }
                }
                assert forall|w: int|
                    0 <= w < (b + 1) as int && Self::bucket_has_survivor(
                        pre,
                        (#[trigger] pre.active_invoices@[w]).epoch,
                    ) implies exists|x: int|
                    0 <= x < new_buckets@.len() && (#[trigger] new_buckets@[x]).epoch
                        == pre.active_invoices@[w].epoch by {
                    if w == b as int {
                        assert(new_buckets@[new_buckets@.len() - 1].epoch == epoch);
                    } else {
                        let e2 = pre.active_invoices@[w].epoch;
                        let x0 = choose|x: int|
                            0 <= x < nb0.len() && (#[trigger] nb0[x]).epoch == e2;
                        assert(new_buckets@[x0].epoch == e2);
                    }
                }
                assert forall|w: int|
                    0 <= w < (b + 1) as int && !Self::bucket_has_survivor(
                        pre,
                        (#[trigger] pre.active_invoices@[w]).epoch,
                    ) implies evicted@.contains(pre.active_invoices@[w].epoch) by {
                    if w == b as int {
                        assert(evicted@[evicted@.len() - 1] == epoch);
                    } else {
                        let e2 = pre.active_invoices@[w].epoch;
                        assert(ev0.contains(e2));
                        let y0 = choose|y: int| 0 <= y < ev0.len() && ev0[y] == e2;
                        assert(evicted@[y0] == e2);
                    }
                }
                // the invoice-map picture at the next bucket boundary
                assert(p as int == bucket.len() as int);
                assert forall|k: Seq<u8>|
                    pre.has_invoice(k) && !Self::sweep_processed(pre, (b + 1) as int, 0, k)
                        implies self.has_invoice(k) && self.invoice_of(k) == pre.invoice_of(
                    k,
                ) by {
                    assert(!Self::sweep_processed(pre, b as int, bucket.len() as int, k));
                    assert(!Self::sweep_processed(pre, b as int, p as int, k));
                    assert(self.has_invoice(k));
                }
                assert forall|k: Seq<u8>|
                    pre.has_invoice(k) && Self::sweep_processed(pre, (b + 1) as int, 0, k)
                        && Self::kept_after_sweep(pre, k) implies self.has_invoice(k)
                    && self.invoice_of(k) == Self::swept_invoice(pre.invoice_of(k)) by {
                    assert(Self::sweep_processed(pre, b as int, bucket.len() as int, k));
                    assert(Self::sweep_processed(pre, b as int, p as int, k));
                    assert(self.has_invoice(k));
                }
                assert forall|k: Seq<u8>|
                    Self::sweep_processed(pre, (b + 1) as int, 0, k)
                        && !Self::kept_after_sweep(pre, k) implies !self.has_invoice(k) by {
                    assert(Self::sweep_processed(pre, b as int, bucket.len() as int, k));
                    assert(Self::sweep_processed(pre, b as int, p as int, k));
                    if self.has_invoice(k) {
                        assert(pre.has_invoice(k));
                    }
                }
            }
            b += 1;
        }
        let ghost mid = *self;
        let ghost nbv = new_buckets@;
        self.active_invoices = new_buckets;
        proof {
            let n = pre.active_invoices@.len() as int;
            assert(b as int == n);
            assert(self.active_invoices@ == nbv);
            assert forall|w: int|
                0 <= w < pre.active_invoices@.len() && Self::bucket_has_survivor(
                    pre,
                    (#[trigger] pre.active_invoices@[w]).epoch,
                ) implies exists|x: int|
                0 <= x < self.active_invoices@.len() && (
                #[trigger] self.active_invoices@[x]).epoch == pre.active_invoices@[w].epoch by {
                let e2 = pre.active_invoices@[w].epoch;
                let x0 = choose|x: int| 0 <= x < nbv.len() && (#[trigger] nbv[x]).epoch == e2;
                assert(self.active_invoices@[x0].epoch == e2);
            }
            Self::lemma_invoices_transfer(mid, *self);
            assert forall|k: Seq<u8>|
                pre.has_invoice(k) && !Self::sweep_processed(pre, n, 0, k)
                    implies self.has_invoice(k) && self.invoice_of(k) == pre.invoice_of(k) by {
                assert(!Self::sweep_processed(pre, b as int, 0, k));
                assert(mid.has_invoice(k));
                assert(mid.invoice_of(k) == pre.invoice_of(k));
                assert(self.has_invoice(k) == mid.has_invoice(k));
                assert(self.invoice_of(k) == mid.invoice_of(k));
            }
            assert forall|k: Seq<u8>|
                pre.has_invoice(k) && Self::sweep_processed(pre, n, 0, k)
                    && Self::kept_after_sweep(pre, k) implies self.has_invoice(k)
                && self.invoice_of(k) == Self::swept_invoice(pre.invoice_of(k)) by {
                assert(Self::sweep_processed(pre, b as int, 0, k));
                assert(mid.has_invoice(k));
                assert(mid.invoice_of(k) == Self::swept_invoice(pre.invoice_of(k)));
                assert(self.has_invoice(k) == mid.has_invoice(k));
                assert(self.invoice_of(k) == mid.invoice_of(k));
            }
            assert forall|k: Seq<u8>|
                Self::sweep_processed(pre, n, 0, k) && !Self::kept_after_sweep(pre, k)
                    implies !self.has_invoice(k) by {
                assert(Self::sweep_processed(pre, b as int, 0, k));
                assert(!mid.has_invoice(k));
                assert(self.has_invoice(k) == mid.has_invoice(k));
            }
            assert forall|k: Seq<u8>| self.has_invoice(k) implies pre.has_invoice(k) by {
                assert(self.has_invoice(k) == mid.has_invoice(k));
                assert(mid.has_invoice(k));
            }
            Self::lemma_purge_assemble(pre, *self, evicted@);
        }
        evicted
    }

    /// Tests the sweep's demand: whether every invoice listed in the
    /// active index awaits payment. An unverified caller checks this
    /// before sweeping instead of believing it.
    pub fn check_all_active_created(&self) -> (r: bool)
        requires
            self.wf(),
        ensures
            r == self.all_active_created(),
    {
        let mut b: usize = 0;
        while b < self.active_invoices.len()
            invariant
                self.wf(),
                0 <= b <= self.active_invoices@.len(),
                forall|w: int, q: int|
                    0 <= w < b && 0 <= q < self.active_invoices@[w].ids@.len() ==> self.invoice_of(
                        (#[trigger] self.active_invoices@[w].ids@[q])@,
                    ).status is Created,
            decreases self.active_invoices@.len() - b,
        {
            let mut p: usize = 0;
            while p < self.active_invoices[b].ids.len()
                invariant
                    self.wf(),
                    0 <= b < self.active_invoices@.len(),
                    0 <= p <= self.active_invoices@[b as int].ids@.len(),
                    forall|w: int, q: int|
                        0 <= w < b && 0 <= q < self.active_invoices@[w].ids@.len()
                            ==> self.invoice_of(
                            (#[trigger] self.active_invoices@[w].ids@[q])@,
                        ).status is Created,
                    forall|q: int|
                        0 <= q < p ==> self.invoice_of(
                            (#[trigger] self.active_invoices@[b as int].ids@[q])@,
                        ).status is Created,
                decreases self.active_invoices@[b as int].ids@.len() - p,
            {
                let id = self.active_invoices[b].ids[p];
                match self.get(&id) {
                    Some(inv) => {
                        match inv.status {
                            InvoiceStatus::Created { .. } => {},
                            _ => {
                                proof {
                                    self.lemma_bucket_at(b as int);
                                    assert(self.in_active(
                                        self.active_invoices@[b as int].epoch,
                                        id@,
                                    )) by {
                                        assert(self.bucket_ids(
                                            self.active_invoices@[b as int].epoch,
                                        )[p as int]@ == id@);
                                    }
                                }
                                return false;
                            },
                        }
                    },
                    None => {
                        proof {
                            assert(self.has_invoice(id@));
                        }
                        return false;
                    },
                }
                p += 1;
            }
            b += 1;
        }
        proof {
            assert forall|e: Timestamp, k: Seq<u8>| #[trigger] self.in_active(e, k)
                implies self.invoice_of(k).status is Created by {
                let w = self.bucket_idx(e);
                let q = choose|q: int|
                    0 <= q < self.bucket_ids(e).len() && (#[trigger] self.bucket_ids(e)[q])@ == k;
                assert(self.active_invoices@[w].ids@[q]@ == k);
            }
        }
        true
    }

    /// Assembles well-formedness and the sweep's contract from what the
    /// sweep's loops established bucket by bucket.
    #[verifier::rlimit(100)]
    proof fn lemma_purge_assemble(pre: Self, post: Self, evicted: Seq<Timestamp>)
        requires
            pre.wf(),
            pre.all_active_created(),
            forall|p: int, q: int|
                0 <= p < q < post.invoices@.len() ==> (#[trigger] post.invoices@[p]).id@ != (
                #[trigger] post.invoices@[q]).id@,
            forall|k: Seq<u8>|
                pre.has_invoice(k) && !Self::sweep_processed(
                    pre,
                    pre.active_invoices@.len() as int,
                    0,
                    k,
                ) ==> #[trigger] post.has_invoice(k) && post.invoice_of(k) == pre.invoice_of(k),
            forall|k: Seq<u8>|
                pre.has_invoice(k) && Self::sweep_processed(
                    pre,
                    pre.active_invoices@.len() as int,
                    0,
                    k,
                ) && Self::kept_after_sweep(pre, k) ==> #[trigger] post.has_invoice(k)
                    && post.invoice_of(k) == Self::swept_invoice(pre.invoice_of(k)),
            forall|k: Seq<u8>|
                Self::sweep_processed(pre, pre.active_invoices@.len() as int, 0, k)
                    && !Self::kept_after_sweep(pre, k) ==> !(#[trigger] post.has_invoice(k)),
            forall|k: Seq<u8>| #[trigger] post.has_invoice(k) ==> pre.has_invoice(k),
            forall|x: int, y: int|
                0 <= x < y < post.active_invoices@.len() ==> (
                #[trigger] post.active_invoices@[x]).epoch != (
                #[trigger] post.active_invoices@[y]).epoch,
            forall|x: int|
                0 <= x < post.active_invoices@.len() ==> {
                    let e = (#[trigger] post.active_invoices@[x]).epoch;
                    &&& pre.has_bucket(e)
                    &&& post.active_invoices@[x].ids@.len() > 0
                },
            forall|x: int, y1: int, y2: int|
                #![trigger post.active_invoices@[x].ids@[y1], post.active_invoices@[x].ids@[y2]]
                0 <= x < post.active_invoices@.len() && 0 <= y1 < y2
                    < post.active_invoices@[x].ids@.len() ==> post.active_invoices@[x].ids@[y1]@
                    != post.active_invoices@[x].ids@[y2]@,
            forall|x: int, k: Seq<u8>|
                0 <= x < post.active_invoices@.len() ==> #[trigger] Self::ids_contain(
                    post.active_invoices@[x].ids@,
                    k,
                ) == (pre.in_active(post.active_invoices@[x].epoch, k)
                    && Self::kept_after_sweep(pre, k)),
            forall|w: int|
                0 <= w < pre.active_invoices@.len() && Self::bucket_has_survivor(
                    pre,
                    (#[trigger] pre.active_invoices@[w]).epoch,
                ) ==> exists|x: int|
                    0 <= x < post.active_invoices@.len() && (
                    #[trigger] post.active_invoices@[x]).epoch == pre.active_invoices@[w].epoch,
            forall|x: int, y: int| 0 <= x < y < evicted.len() ==> evicted[x] != evicted[y],
            forall|y: int|
                0 <= y < evicted.len() ==> {
                    let e = #[trigger] evicted[y];
                    &&& pre.has_bucket(e)
                    &&& !Self::bucket_has_survivor(pre, e)
                },
            forall|w: int|
                0 <= w < pre.active_invoices@.len() && !Self::bucket_has_survivor(
                    pre,
                    (#[trigger] pre.active_invoices@[w]).epoch,
                ) ==> evicted.contains(pre.active_invoices@[w].epoch),
            post.inactive_invoices@ == pre.inactive_invoices@,
            post.total_processed_in_usd == pre.total_processed_in_usd,
            post.invoice_id_generator == pre.invoice_id_generator,
        ensures
            post.wf(),
            Self::purge_post(pre, post, evicted),
    {
        let n = pre.active_invoices@.len() as int;
        // an id is handled by the finished sweep exactly when it is listed
        // somewhere in the active index
        assert forall|k: Seq<u8>| #[trigger] Self::sweep_processed(pre, n, 0, k) == (exists|
            e: Timestamp,
        | #[trigger] pre.in_active(e, k)) by {
            if Self::sweep_processed(pre, n, 0, k) {
                let (w, q): (int, int) = choose|w: int, q: int|
                    0 <= w < pre.active_invoices@.len() && 0 <= q
                        < pre.active_invoices@[w].ids@.len() && (w < n || (w == n && q < 0)) && (
                    #[trigger] pre.active_invoices@[w].ids@[q])@ == k;
                pre.lemma_bucket_at(w);
                assert(pre.in_active(pre.active_invoices@[w].epoch, k)) by {
                    assert(pre.bucket_ids(pre.active_invoices@[w].epoch)[q]@ == k);
                }
            }
            if exists|e: Timestamp| #[trigger] pre.in_active(e, k) {
                let e = choose|e: Timestamp| #[trigger] pre.in_active(e, k);
                let w = pre.bucket_idx(e);
                let q = choose|q: int|
                    0 <= q < pre.bucket_ids(e).len() && (#[trigger] pre.bucket_ids(e)[q])@ == k;
                assert((pre.active_invoices@[w].ids@[q])@ == k);
                assert(Self::sweep_processed(pre, n, 0, k));
            }
        }
        // a live invoice is always listed, a paid one never
        assert forall|k: Seq<u8>| pre.has_invoice(k) implies (Self::sweep_processed(pre, n, 0, k)
            == !(pre.invoice_of(k).status is Paid)) by {
            let w = pre.invoice_idx(k);
            pre.lemma_invoice_at(w);
            assert(pre.invoice_placed(pre.invoices@[w]));
            if pre.invoice_of(k).status is Paid {
                if Self::sweep_processed(pre, n, 0, k) {
                    let e = choose|e: Timestamp| #[trigger] pre.in_active(e, k);
                    let q = choose|q: int|
                        0 <= q < pre.bucket_ids(e).len() && (#[trigger] pre.bucket_ids(e)[q])@
                            == k;
                    let bx = pre.bucket_idx(e);
                    assert(pre.active_invoices@[bx].ids@[q]@ == k);
                    assert(!(pre.invoice_of(k).status is Paid));
                }
            } else {
                assert(pre.in_active(pre.invoices@[w].exchange_rates_timestamp, k));
            }
        }
        // --- well-formedness of the post state ---
        assert forall|x: int, y1: int|
            0 <= x < post.active_invoices@.len() && 0 <= y1
                < post.active_invoices@[x].ids@.len() implies {
            let k = (#[trigger] post.active_invoices@[x].ids@[y1])@;
            &&& post.has_invoice(k)
            &&& !(post.invoice_of(k).status is Paid)
            &&& post.invoice_of(k).exchange_rates_timestamp == post.active_invoices@[x].epoch
        } by {
            let e = post.active_invoices@[x].epoch;
            let k = post.active_invoices@[x].ids@[y1]@;
            assert(Self::ids_contain(post.active_invoices@[x].ids@, k)) by {
                assert((post.active_invoices@[x].ids@[y1])@ == k);
            }
            assert(pre.in_active(e, k) && Self::kept_after_sweep(pre, k));
            let q = choose|q: int|
                0 <= q < pre.bucket_ids(e).len() && (#[trigger] pre.bucket_ids(e)[q])@ == k;
            let bx = pre.bucket_idx(e);
            assert(pre.active_invoices@[bx].ids@[q]@ == k);
            assert(pre.has_invoice(k) && pre.invoice_of(k).exchange_rates_timestamp == e);
            assert(Self::sweep_processed(pre, n, 0, k));
            assert(post.has_invoice(k) && post.invoice_of(k) == Self::swept_invoice(
                pre.invoice_of(k),
            ));
        }
        Self::lemma_inactive_transfer(pre, post);
        assert forall|y: int| 0 <= y < post.inactive_invoices@.len() implies {
            let k = (#[trigger] post.inactive_invoices@[y])@;
            &&& post.has_invoice(k)
            &&& post.invoice_of(k).status is Paid
        } by {
            let k = post.inactive_invoices@[y]@;
            assert(pre.inactive_invoices@[y]@ == k);
            assert(pre.has_invoice(k) && pre.invoice_of(k).status is Paid);
            assert(!Self::sweep_processed(pre, n, 0, k));
            assert(post.has_invoice(k));
            assert(post.invoice_of(k) == pre.invoice_of(k));
        }
        assert forall|w: int| 0 <= w < post.invoices@.len() implies post.invoice_placed(
            #[trigger] post.invoices@[w],
        ) by {
            let inv = post.invoices@[w];
            let k = inv.id@;
            Self::lemma_invoice_at_for(post, w);
            assert(post.has_invoice(k) && post.invoice_of(k) == inv);
            assert(pre.has_invoice(k));
            if pre.invoice_of(k).status is Paid {
                assert(!Self::sweep_processed(pre, n, 0, k));
                assert(post.invoice_of(k) == pre.invoice_of(k));
                let wp = pre.invoice_idx(k);
                pre.lemma_invoice_at(wp);
                assert(pre.invoice_placed(pre.invoices@[wp]));
                assert(post.in_inactive(k));
            } else {
                assert(Self::sweep_processed(pre, n, 0, k));
                assert(Self::kept_after_sweep(pre, k)) by {
                    if !Self::kept_after_sweep(pre, k) {
                        assert(!post.has_invoice(k));
                    }
                }
                assert(post.invoice_of(k) == Self::swept_invoice(pre.invoice_of(k)));
                let e = pre.invoice_of(k).exchange_rates_timestamp;
                let wp = pre.invoice_idx(k);
                pre.lemma_invoice_at(wp);
                assert(pre.invoice_placed(pre.invoices@[wp]));
                assert(pre.in_active(e, k));
                assert(Self::bucket_has_survivor(pre, e));
                let wb = pre.bucket_idx(e);
                assert(pre.active_invoices@[wb].epoch == e);
                let x = choose|x: int|
                    0 <= x < post.active_invoices@.len() && (
                    #[trigger] post.active_invoices@[x]).epoch == e;
                assert(Self::ids_contain(post.active_invoices@[x].ids@, k));
                post.lemma_bucket_at(x);
                let y = choose|y: int|
                    0 <= y < post.active_invoices@[x].ids@.len() && (
                    #[trigger] post.active_invoices@[x].ids@[y])@ == k;
                assert(post.in_active(e, k)) by {
                    assert(post.bucket_ids(e)[y]@ == k);
                }
                assert(inv.exchange_rates_timestamp == e);
            }
        }
        assert(post.wf());
        // --- the sweep's contract ---
        assert forall|k: Seq<u8>| #[trigger] post.has_invoice(k) == (pre.has_invoice(k)
            && Self::kept_after_sweep(pre, k)) by {
            if post.has_invoice(k) {
                assert(pre.has_invoice(k));
                if !(pre.invoice_of(k).status is Paid) {
                    assert(Self::sweep_processed(pre, n, 0, k));
                    if !Self::kept_after_sweep(pre, k) {
                        assert(!post.has_invoice(k));
                    }
                }
            }
            if pre.has_invoice(k) && Self::kept_after_sweep(pre, k) {
                if pre.invoice_of(k).status is Paid {
                    assert(!Self::sweep_processed(pre, n, 0, k));
                    assert(post.has_invoice(k));
                } else {
                    assert(Self::sweep_processed(pre, n, 0, k));
                    assert(post.has_invoice(k));
                }
            }
        }
        assert forall|k: Seq<u8>|
            pre.has_invoice(k) && Self::kept_after_sweep(pre, k) implies #[trigger] post.invoice_of(
            k,
        ) == Self::swept_invoice(pre.invoice_of(k)) by {
            if pre.invoice_of(k).status is Paid {
                assert(!Self::sweep_processed(pre, n, 0, k));
                assert(post.has_invoice(k));
                assert(post.invoice_of(k) == pre.invoice_of(k));
                assert(Self::swept_invoice(pre.invoice_of(k)) == pre.invoice_of(k));
            } else {
                assert(Self::sweep_processed(pre, n, 0, k));
                assert(post.has_invoice(k));
            }
        }
        assert forall|e: Timestamp| #[trigger] post.has_bucket(e) == (pre.has_bucket(e)
            && Self::bucket_has_survivor(pre, e)) by {
            if post.has_bucket(e) {
                let x = post.bucket_idx(e);
                assert(pre.has_bucket(e));
                let k = post.active_invoices@[x].ids@[0]@;
                assert(Self::ids_contain(post.active_invoices@[x].ids@, k)) by {
                    assert((post.active_invoices@[x].ids@[0])@ == k);
                }
                assert(pre.in_active(e, k) && Self::kept_after_sweep(pre, k));
                assert(Self::bucket_has_survivor(pre, e));
            }
            if pre.has_bucket(e) && Self::bucket_has_survivor(pre, e) {
                let w = pre.bucket_idx(e);
                assert(pre.active_invoices@[w].epoch == e);
                let x = choose|x: int|
                    0 <= x < post.active_invoices@.len() && (
                    #[trigger] post.active_invoices@[x]).epoch == e;
                assert(post.has_bucket(e));
            }
        }
        assert forall|e: Timestamp, k: Seq<u8>| #[trigger] post.in_active(e, k) == (pre.in_active(
            e,
            k,
        ) && Self::kept_after_sweep(pre, k)) by {
            if post.in_active(e, k) {
                let x = post.bucket_idx(e);
                let y = choose|y: int|
                    0 <= y < post.bucket_ids(e).len() && (#[trigger] post.bucket_ids(e)[y])@ == k;
                assert(Self::ids_contain(post.active_invoices@[x].ids@, k)) by {
                    assert((post.active_invoices@[x].ids@[y])@ == k);
                }
                assert(pre.in_active(e, k) && Self::kept_after_sweep(pre, k));
            }
            if pre.in_active(e, k) && Self::kept_after_sweep(pre, k) {
                assert(Self::bucket_has_survivor(pre, e));
                assert(pre.has_bucket(e));
                let w = pre.bucket_idx(e);
                assert(pre.active_invoices@[w].epoch == e);
                let x = choose|x: int|
                    0 <= x < post.active_invoices@.len() && (
                    #[trigger] post.active_invoices@[x]).epoch == e;
                assert(Self::ids_contain(post.active_invoices@[x].ids@, k));
                post.lemma_bucket_at(x);
                let y = choose|y: int|
                    0 <= y < post.active_invoices@[x].ids@.len() && (
                    #[trigger] post.active_invoices@[x].ids@[y])@ == k;
                assert(post.in_active(e, k)) by {
                    assert(post.bucket_ids(e)[y]@ == k);
                }
            }
        }
        assert forall|e: Timestamp| #[trigger] evicted.contains(e) == (pre.has_bucket(e)
            && !post.has_bucket(e)) by {
            if evicted.contains(e) {
                let y = choose|y: int| 0 <= y < evicted.len() && evicted[y] == e;
                assert(pre.has_bucket(e) && !Self::bucket_has_survivor(pre, e));
            }
            if pre.has_bucket(e) && !post.has_bucket(e) {
                assert(!Self::bucket_has_survivor(pre, e));
                let w = pre.bucket_idx(e);
                assert(pre.active_invoices@[w].epoch == e);
                assert(evicted.contains(e));
            }
        }
    }

    // ----- archival -----

    /// Whether the batch carries an invoice with this id.
    pub open spec fn batch_ids_contain(batch: Seq<Invoice>, k: Seq<u8>) -> bool {
        exists|i: int| 0 <= i < batch.len() && (#[trigger] batch[i]).id@ == k
    }

    /// What extracting an archive batch does: the oldest entries of the
    /// inactive set — up to the requested count — leave the inactive set
    /// and the invoice map together, and are returned unchanged.
    pub open spec fn prepare_post(pre: Self, post: Self, size: int, batch: Seq<Invoice>) -> bool {
        &&& batch.len() == if size < pre.inactive_invoices@.len() {
            size
        } else {
            pre.inactive_invoices@.len() as int
        }
        &&& forall|i: int|
            0 <= i < batch.len() ==> (#[trigger] batch[i]).id@ == pre.inactive_invoices@[i]@
        &&& forall|i: int|
            0 <= i < batch.len() ==> {
                &&& pre.has_invoice((#[trigger] batch[i]).id@)
                &&& batch[i] == pre.invoice_of(batch[i].id@)
                &&& batch[i].status is Paid
            }
        &&& forall|i: int, j: int| 0 <= i < j < batch.len() ==> batch[i].id@ != batch[j].id@
        &&& post.inactive_invoices@ == pre.inactive_invoices@.subrange(
            batch.len() as int,
            pre.inactive_invoices@.len() as int,
        )
        &&& forall|k: Seq<u8>|
            #[trigger] post.has_invoice(k) == (pre.has_invoice(k) && !Self::batch_ids_contain(
                batch,
                k,
            ))
        &&& forall|k: Seq<u8>|
            post.has_invoice(k) ==> #[trigger] post.invoice_of(k) == pre.invoice_of(k)
        &&& forall|k: Seq<u8>|
            #[trigger] post.in_inactive(k) == (pre.in_inactive(k) && !Self::batch_ids_contain(
                batch,
                k,
            ))
        &&& post.active_invoices == pre.active_invoices
        &&& post.total_processed_in_usd == pre.total_processed_in_usd
        &&& post.invoice_id_generator == pre.invoice_id_generator
    }

    /// Removes up to `size` paid invoices from the inactive set and the
    /// invoice map and returns them, for handoff to durable storage. The
    /// extraction can be undone exactly by `reapply_archive_batch`.
    #[verifier::rlimit(100)]
    pub fn prepare_archive_batch(&mut self, size: usize) -> (batch: Vec<Invoice>)
        requires
            old(self).wf(),
        ensures
            final(self).wf(),
            Self::prepare_post(*old(self), *final(self), size as int, batch@),
    {
        let ghost pre = *self;
        let ghost m = pre.inactive_invoices@.len() as int;
        let mut batch: Vec<Invoice> = Vec::new();
        while batch.len() < size && self.inactive_invoices.len() > 0
            invariant
                pre.wf(),
                0 <= batch@.len() <= size,
                batch@.len() <= m,
                m == pre.inactive_invoices@.len(),
                forall|i: int|
                    0 <= i < batch@.len() ==> (#[trigger] batch@[i]).id@
                        == pre.inactive_invoices@[i]@,
                forall|i: int|
                    0 <= i < batch@.len() ==> {
                        &&& pre.has_invoice((#[trigger] batch@[i]).id@)
                        &&& batch@[i] == pre.invoice_of(batch@[i].id@)
                        &&& batch@[i].status is Paid
                    },
                self.inactive_invoices@ == pre.inactive_invoices@.subrange(batch@.len() as int, m),
                forall|p: int, q: int|
                    0 <= p < q < self.invoices@.len() ==> (#[trigger] self.invoices@[p]).id@ != (
                    #[trigger] self.invoices@[q]).id@,
                forall|k: Seq<u8>|
                    #[trigger] self.has_invoice(k) == (pre.has_invoice(k)
                        && !Self::prefix_contains(
                        pre.inactive_invoices@,
                        batch@.len() as int,
                        k,
                    )),
                forall|k: Seq<u8>|
                    self.has_invoice(k) ==> #[trigger] self.invoice_of(k) == pre.invoice_of(k),
                self.active_invoices == pre.active_invoices,
                self.total_processed_in_usd == pre.total_processed_in_usd,
                self.invoice_id_generator == pre.invoice_id_generator,
            decreases size - batch@.len(),
        {
            let ghost j = batch@.len() as int;
            let ghost h0 = *self;
            let id = self.inactive_invoices.remove(0);
            proof {
                assert(id == pre.inactive_invoices@[j]);
                assert(self.inactive_invoices@ =~= pre.inactive_invoices@.subrange(j + 1, m));
                assert(pre.in_inactive(id@)) by {
                    assert(pre.inactive_invoices@[j]@ == id@);
                }
                assert(pre.has_invoice(id@) && pre.invoice_of(id@).status is Paid);
                assert(!Self::prefix_contains(pre.inactive_invoices@, j, id@)) by {
                    if Self::prefix_contains(pre.inactive_invoices@, j, id@) {
                        let q = choose|q: int|
                            0 <= q < j && (#[trigger] pre.inactive_invoices@[q])@ == id@;
                        assert(pre.inactive_invoices@[q]@ != pre.inactive_invoices@[j]@);
                    }
                }
                assert(h0.has_invoice(id@));
                assert(h0.invoice_of(id@) == pre.invoice_of(id@));
                Self::lemma_invoices_transfer(h0, *self);
                assert(self.has_invoice(id@));
            }
            let i = match find_invoice(&self.invoices, &id) {
                Some(i) => i,
                None => {
                    proof {
                        assert(false);
                    }
                    return batch;
                },
            };
            proof {
                self.lemma_invoice_at(i as int);
            }
            let ghost st0 = *self;
            let inv = self.invoices.remove(i);
            proof {
                Self::lemma_map_remove(st0, *self, i as int);
                Self::lemma_invoices_transfer(h0, st0);
                assert(inv == st0.invoice_of(id@));
                assert(st0.invoice_of(id@) == h0.invoice_of(id@));
                assert(inv == pre.invoice_of(id@));
                assert(inv.id@ == id@);
            }
            batch.push(inv);
            proof {
                assert(batch@.len() == j + 1);
                assert(batch@[j] == inv);
                assert(batch@[j].id@ == pre.inactive_invoices@[j]@) by {
                    assert(inv.id@ == id@);
                }
                assert forall|k: Seq<u8>| #[trigger] self.has_invoice(k) == (pre.has_invoice(k)
                    && !Self::prefix_contains(pre.inactive_invoices@, j + 1, k)) by {
                    if k == id@ {
                        assert(!self.has_invoice(k));
                        assert(Self::prefix_contains(pre.inactive_invoices@, j + 1, k)) by {
                            assert(pre.inactive_invoices@[j]@ == k);
                        }
                    } else {
                        assert(self.has_invoice(k) == st0.has_invoice(k));
                        assert(st0.has_invoice(k) == h0.has_invoice(k));
                        assert(h0.has_invoice(k) == (pre.has_invoice(k)
                            && !Self::prefix_contains(pre.inactive_invoices@, j, k)));
                        if Self::prefix_contains(pre.inactive_invoices@, j + 1, k) {
                            let q = choose|q: int|
                                0 <= q < j + 1 && (#[trigger] pre.inactive_invoices@[q])@ == k;
                            assert(q != j);
                            assert(Self::prefix_contains(pre.inactive_invoices@, j, k)) by {
                                assert(pre.inactive_invoices@[q]@ == k);
                            }
                        }
                        if Self::prefix_contains(pre.inactive_invoices@, j, k) {
                            let q = choose|q: int|
                                0 <= q < j && (#[trigger] pre.inactive_invoices@[q])@ == k;
                            assert(Self::prefix_contains(pre.inactive_invoices@, j + 1, k)) by {
                                assert(pre.inactive_invoices@[q]@ == k);
                            }
                        }
                    }
                }
                assert forall|k: Seq<u8>| self.has_invoice(k) implies #[trigger] self.invoice_of(
                    k,
                ) == pre.invoice_of(k) by {
                    assert(st0.has_invoice(k));
                    assert(h0.has_invoice(k));
                    assert(self.invoice_of(k) == st0.invoice_of(k));
                    assert(st0.invoice_of(k) == h0.invoice_of(k));
                    assert(h0.invoice_of(k) == pre.invoice_of(k));
                }
            }
        }
        proof {
            Self::lemma_prepare_assemble(pre, *self, size as int, batch@);
        }
        batch
    }

    /// Assembles well-formedness and the extraction contract from the
    /// loop's pointwise picture.
    proof fn lemma_prepare_assemble(pre: Self, post: Self, size: int, batch: Seq<Invoice>)
        requires
            pre.wf(),
            0 <= batch.len() <= size,
            batch.len() <= pre.inactive_invoices@.len(),
            batch.len() == size || batch.len() == pre.inactive_invoices@.len(),
            forall|i: int|
                0 <= i < batch.len() ==> (#[trigger] batch[i]).id@ == pre.inactive_invoices@[i]@,
            forall|i: int|
                0 <= i < batch.len() ==> {
                    &&& pre.has_invoice((#[trigger] batch[i]).id@)
                    &&& batch[i] == pre.invoice_of(batch[i].id@)
                    &&& batch[i].status is Paid
                },
            post.inactive_invoices@ == pre.inactive_invoices@.subrange(
                batch.len() as int,
                pre.inactive_invoices@.len() as int,
            ),
            forall|p: int, q: int|
                0 <= p < q < post.invoices@.len() ==> (#[trigger] post.invoices@[p]).id@ != (
                #[trigger] post.invoices@[q]).id@,
            forall|k: Seq<u8>|
                #[trigger] post.has_invoice(k) == (pre.has_invoice(k) && !Self::prefix_contains(
                    pre.inactive_invoices@,
                    batch.len() as int,
                    k,
                )),
            forall|k: Seq<u8>|
                post.has_invoice(k) ==> #[trigger] post.invoice_of(k) == pre.invoice_of(k),
            post.active_invoices == pre.active_invoices,
            post.total_processed_in_usd == pre.total_processed_in_usd,
            post.invoice_id_generator == pre.invoice_id_generator,
        ensures
            post.wf(),
            Self::prepare_post(pre, post, size, batch),
    {
        let j = batch.len() as int;
        let m = pre.inactive_invoices@.len() as int;
        // removed prefix and batch hold the same ids
        assert forall|k: Seq<u8>| #[trigger] Self::batch_ids_contain(batch, k)
            == Self::prefix_contains(pre.inactive_invoices@, j, k) by {
            if Self::batch_ids_contain(batch, k) {
                let i = choose|i: int| 0 <= i < batch.len() && (#[trigger] batch[i]).id@ == k;
                assert(Self::prefix_contains(pre.inactive_invoices@, j, k)) by {
                    assert(pre.inactive_invoices@[i]@ == k);
                }
            }
            if Self::prefix_contains(pre.inactive_invoices@, j, k) {
                let q = choose|q: int|
                    0 <= q < j && (#[trigger] pre.inactive_invoices@[q])@ == k;
                assert(Self::batch_ids_contain(batch, k)) by {
                    assert(batch[q].id@ == k);
                }
            }
        }
        // batch ids are pairwise distinct
        assert forall|i: int, i2: int| 0 <= i < i2 < batch.len() implies (
        #[trigger] batch[i]).id@ != (#[trigger] batch[i2]).id@ by {
            assert(pre.inactive_invoices@[i]@ != pre.inactive_invoices@[i2]@);
        }
        // membership in the shrunken inactive set
        assert forall|k: Seq<u8>| #[trigger] post.in_inactive(k) == (pre.in_inactive(k)
            && !Self::prefix_contains(pre.inactive_invoices@, j, k)) by {
            if post.in_inactive(k) {
                let y = choose|y: int|
                    0 <= y < post.inactive_invoices@.len() && (
                    #[trigger] post.inactive_invoices@[y])@ == k;
                assert(pre.inactive_invoices@[y + j]@ == k);
                assert(pre.in_inactive(k));
                if Self::prefix_contains(pre.inactive_invoices@, j, k) {
                    let q = choose|q: int|
                        0 <= q < j && (#[trigger] pre.inactive_invoices@[q])@ == k;
                    assert(pre.inactive_invoices@[q]@ != pre.inactive_invoices@[y + j]@);
                }
            }
            if pre.in_inactive(k) && !Self::prefix_contains(pre.inactive_invoices@, j, k) {
                let y = choose|y: int|
                    0 <= y < pre.inactive_invoices@.len() && (
                    #[trigger] pre.inactive_invoices@[y])@ == k;
                assert(y >= j) by {
                    if y < j {
                        assert(pre.inactive_invoices@[y]@ == k);
                    }
                }
                assert(post.inactive_invoices@[y - j]@ == k);
            }
        }
        // well-formedness
        Self::lemma_active_transfer(pre, post);
        assert forall|p: int, q: int| 0 <= p < q < post.inactive_invoices@.len() implies (
        #[trigger] post.inactive_invoices@[p])@ != (#[trigger] post.inactive_invoices@[q])@ by {
            assert(pre.inactive_invoices@[p + j]@ != pre.inactive_invoices@[q + j]@);
        }
        assert forall|y: int| 0 <= y < post.inactive_invoices@.len() implies {
            let k = (#[trigger] post.inactive_invoices@[y])@;
            &&& post.has_invoice(k)
            &&& post.invoice_of(k).status is Paid
        } by {
            let k = post.inactive_invoices@[y]@;
            assert(pre.inactive_invoices@[y + j]@ == k);
            assert(pre.in_inactive(k)) by {
                assert(pre.inactive_invoices@[y + j]@ == k);
            }
            assert(pre.has_invoice(k) && pre.invoice_of(k).status is Paid);
            assert(!Self::prefix_contains(pre.inactive_invoices@, j, k)) by {
                if Self::prefix_contains(pre.inactive_invoices@, j, k) {
                    let q = choose|q: int|
                        0 <= q < j && (#[trigger] pre.inactive_invoices@[q])@ == k;
                    assert(pre.inactive_invoices@[q]@ != pre.inactive_invoices@[y + j]@);
                }
            }
            assert(post.has_invoice(k));
        }
        assert forall|bx: int, px: int|
            0 <= bx < post.active_invoices@.len() && 0 <= px
                < post.active_invoices@[bx].ids@.len() implies {
            let k = (#[trigger] post.active_invoices@[bx].ids@[px])@;
            &&& post.has_invoice(k)
            &&& !(post.invoice_of(k).status is Paid)
            &&& post.invoice_of(k).exchange_rates_timestamp == post.active_invoices@[bx].epoch
        } by {
            let k = post.active_invoices@[bx].ids@[px]@;
            assert(pre.active_invoices@[bx].ids@[px]@ == k);
            assert(pre.has_invoice(k) && !(pre.invoice_of(k).status is Paid));
            assert(!Self::prefix_contains(pre.inactive_invoices@, j, k)) by {
                if Self::prefix_contains(pre.inactive_invoices@, j, k) {
                    let q = choose|q: int|
                        0 <= q < j && (#[trigger] pre.inactive_invoices@[q])@ == k;
                    assert(pre.in_inactive(k)) by {
                        assert(pre.inactive_invoices@[q]@ == k);
                    }
                    assert(pre.invoice_of(k).status is Paid);
                }
            }
            assert(post.has_invoice(k));
        }
        assert forall|w: int| 0 <= w < post.invoices@.len() implies post.invoice_placed(
            #[trigger] post.invoices@[w],
        ) by {
            let inv = post.invoices@[w];
            let k = inv.id@;
            Self::lemma_invoice_at_for(post, w);
            assert(post.has_invoice(k) && post.invoice_of(k) == inv);
            assert(pre.has_invoice(k) && !Self::prefix_contains(pre.inactive_invoices@, j, k));
            assert(post.invoice_of(k) == pre.invoice_of(k));
            let wp = pre.invoice_idx(k);
            pre.lemma_invoice_at(wp);
            assert(pre.invoice_placed(pre.invoices@[wp]));
            if inv.status is Paid {
                assert(pre.in_inactive(k));
                assert(post.in_inactive(k));
            } else {
                assert(pre.in_active(inv.exchange_rates_timestamp, k));
                assert(post.in_active(inv.exchange_rates_timestamp, k));
            }
        }
    }

    /// What reinserting a batch does: every invoice returns to the invoice
    /// map and the inactive set, and nothing else moves.
    pub open spec fn reapply_post(pre: Self, batch: Seq<Invoice>, post: Self) -> bool {
        &&& post.inactive_invoices@.len() == pre.inactive_invoices@.len() + batch.len()
        &&& forall|x: int|
            0 <= x < pre.inactive_invoices@.len() ==> #[trigger] post.inactive_invoices@[x]
                == pre.inactive_invoices@[x]
        &&& forall|x: int|
            0 <= x < batch.len() ==> post.inactive_invoices@[pre.inactive_invoices@.len() + x]
                == (#[trigger] batch[x]).id
        &&& forall|k: Seq<u8>|
            #[trigger] post.has_invoice(k) == (pre.has_invoice(k) || Self::batch_ids_contain(
                batch,
                k,
            ))
        &&& forall|k: Seq<u8>|
            pre.has_invoice(k) ==> #[trigger] post.invoice_of(k) == pre.invoice_of(k)
        &&& forall|i: int|
            0 <= i < batch.len() ==> post.invoice_of((#[trigger] batch[i]).id@) == batch[i]
        &&& forall|k: Seq<u8>|
            #[trigger] post.in_inactive(k) == (pre.in_inactive(k) || Self::batch_ids_contain(
                batch,
                k,
            ))
        &&& post.active_invoices == pre.active_invoices
        &&& post.total_processed_in_usd == pre.total_processed_in_usd
        &&& post.invoice_id_generator == pre.invoice_id_generator
    }

    /// Reinserts every invoice of `batch` into the invoice map and the
    /// inactive set: the undo of `prepare_archive_batch`, used when the
    /// external durable-storage handoff fails.
    #[verifier::rlimit(100)]
    pub fn reapply_archive_batch(&mut self, batch: Vec<Invoice>)
        requires
            old(self).wf(),
            forall|i: int, j: int|
                0 <= i < j < batch@.len() ==> (#[trigger] batch@[i]).id@ != (
                #[trigger] batch@[j]).id@,
            forall|i: int| 0 <= i < batch@.len() ==> !old(self).has_invoice((#[trigger] batch@[i]).id@),
            forall|i: int| 0 <= i < batch@.len() ==> (#[trigger] batch@[i]).status is Paid,
        ensures
            final(self).wf(),
            Self::reapply_post(*old(self), batch@, *final(self)),
    {
        let ghost pre = *self;
        let mut i: usize = 0;
        while i < batch.len()
            invariant
                pre.wf(),
                0 <= i <= batch@.len(),
                forall|x: int, y: int|
                    0 <= x < y < batch@.len() ==> (#[trigger] batch@[x]).id@ != (
                    #[trigger] batch@[y]).id@,
                forall|x: int|
                    0 <= x < batch@.len() ==> !pre.has_invoice((#[trigger] batch@[x]).id@),
                forall|x: int| 0 <= x < batch@.len() ==> (#[trigger] batch@[x]).status is Paid,
                self.invoices@ == pre.invoices@ + batch@.subrange(0, i as int),
                self.inactive_invoices@ == pre.inactive_invoices@ + batch@.subrange(
                    0,
                    i as int,
                ).map_values(|inv: Invoice| inv.id),
                self.active_invoices == pre.active_invoices,
                self.total_processed_in_usd == pre.total_processed_in_usd,
                self.invoice_id_generator == pre.invoice_id_generator,
            decreases batch@.len() - i,
        {
            let inv = batch[i];
            self.invoices.push(inv);
            self.inactive_invoices.push(inv.id);
            proof {
                assert(self.invoices@ =~= pre.invoices@ + batch@.subrange(0, (i + 1) as int));
                assert(self.inactive_invoices@ =~= pre.inactive_invoices@ + batch@.subrange(
                    0,
                    (i + 1) as int,
                ).map_values(|inv2: Invoice| inv2.id));
            }
            i += 1;
        }
        proof {
            assert(batch@.subrange(0, batch@.len() as int) =~= batch@);
            assert(self.invoices@ == pre.invoices@ + batch@);
            Self::lemma_reapply_assemble(pre, batch@, *self);
        }
    }

    /// Assembles well-formedness and the reinsertion contract from the
    /// loop's structural picture.
    #[verifier::rlimit(100)]
    proof fn lemma_reapply_assemble(pre: Self, batch: Seq<Invoice>, post: Self)
        requires
            pre.wf(),
            forall|x: int, y: int|
                0 <= x < y < batch.len() ==> (#[trigger] batch[x]).id@ != (
                #[trigger] batch[y]).id@,
            forall|x: int| 0 <= x < batch.len() ==> !pre.has_invoice((#[trigger] batch[x]).id@),
            forall|x: int| 0 <= x < batch.len() ==> (#[trigger] batch[x]).status is Paid,
            post.invoices@ == pre.invoices@ + batch,
            post.inactive_invoices@ == pre.inactive_invoices@ + batch.map_values(
                |inv: Invoice| inv.id,
            ),
            post.active_invoices == pre.active_invoices,
            post.total_processed_in_usd == pre.total_processed_in_usd,
            post.invoice_id_generator == pre.invoice_id_generator,
        ensures
            post.wf(),
            Self::reapply_post(pre, batch, post),
    {
        let n = pre.invoices@.len() as int;
        let m = pre.inactive_invoices@.len() as int;
        assert forall|p: int, q: int| 0 <= p < q < post.invoices@.len() implies (
        #[trigger] post.invoices@[p]).id@ != (#[trigger] post.invoices@[q]).id@ by {
            if q < n {
                assert(pre.invoices@[p].id@ != pre.invoices@[q].id@);
            } else if p < n {
                assert(post.invoices@[q] == batch[q - n]);
                if pre.invoices@[p].id@ == batch[q - n].id@ {
                    assert(pre.has_invoice(batch[q - n].id@)) by {
                        assert(pre.invoices@[p].id@ == batch[q - n].id@);
                    }
                }
            } else {
                assert(batch[p - n].id@ != batch[q - n].id@);
            }
        }
        assert forall|k: Seq<u8>| #[trigger] post.has_invoice(k) == (pre.has_invoice(k)
            || Self::batch_ids_contain(batch, k)) by {
            if pre.has_invoice(k) {
                let w = pre.invoice_idx(k);
                assert(post.invoices@[w].id@ == k);
            }
            if Self::batch_ids_contain(batch, k) {
                let x = choose|x: int| 0 <= x < batch.len() && (#[trigger] batch[x]).id@ == k;
                assert(post.invoices@[n + x].id@ == k);
            }
            if post.has_invoice(k) {
                let w = post.invoice_idx(k);
                if w < n {
                    assert(pre.invoices@[w].id@ == k);
                } else {
                    assert(Self::batch_ids_contain(batch, k)) by {
                        assert(batch[w - n].id@ == k);
                    }
                }
            }
        }
        assert forall|k: Seq<u8>| pre.has_invoice(k) implies #[trigger] post.invoice_of(k)
            == pre.invoice_of(k) by {
            let w = pre.invoice_idx(k);
            pre.lemma_invoice_at(w);
            Self::lemma_invoice_at_for(post, w);
        }
        assert forall|i: int| 0 <= i < batch.len() implies post.invoice_of(
            (#[trigger] batch[i]).id@,
        ) == batch[i] by {
            Self::lemma_invoice_at_for(post, n + i);
        }
        assert forall|k: Seq<u8>| #[trigger] post.in_inactive(k) == (pre.in_inactive(k)
            || Self::batch_ids_contain(batch, k)) by {
            if pre.in_inactive(k) {
                let y = choose|y: int|
                    0 <= y < pre.inactive_invoices@.len() && (
                    #[trigger] pre.inactive_invoices@[y])@ == k;
                assert(post.inactive_invoices@[y]@ == k);
            }
            if Self::batch_ids_contain(batch, k) {
                let x = choose|x: int| 0 <= x < batch.len() && (#[trigger] batch[x]).id@ == k;
                assert(post.inactive_invoices@[m + x]@ == k);
            }
            if post.in_inactive(k) {
                let y = choose|y: int|
                    0 <= y < post.inactive_invoices@.len() && (
                    #[trigger] post.inactive_invoices@[y])@ == k;
                if y < m {
                    assert(pre.inactive_invoices@[y]@ == k);
                } else {
                    assert(post.inactive_invoices@[y] == batch[y - m].id);
                    assert(Self::batch_ids_contain(batch, k)) by {
                        assert(batch[y - m].id@ == k);
                    }
                }
            }
        }
        // a batch id was absent from the map, hence from the inactive set
        assert forall|x: int| 0 <= x < batch.len() implies !pre.in_inactive(
            (#[trigger] batch[x]).id@,
        ) by {
            if pre.in_inactive(batch[x].id@) {
                let y = choose|y: int|
                    0 <= y < pre.inactive_invoices@.len() && (
                    #[trigger] pre.inactive_invoices@[y])@ == batch[x].id@;
                assert(pre.has_invoice(batch[x].id@));
            }
        }
        assert forall|p: int, q: int| 0 <= p < q < post.inactive_invoices@.len() implies (
        #[trigger] post.inactive_invoices@[p])@ != (#[trigger] post.inactive_invoices@[q])@ by {
            if q < m {
                assert(pre.inactive_invoices@[p]@ != pre.inactive_invoices@[q]@);
            } else if p < m {
                assert(post.inactive_invoices@[q] == batch[q - m].id);
                if pre.inactive_invoices@[p]@ == batch[q - m].id@ {
                    assert(pre.in_inactive(batch[q - m].id@)) by {
                        assert(pre.inactive_invoices@[p]@ == batch[q - m].id@);
                    }
                }
            } else {
                assert(post.inactive_invoices@[p] == batch[p - m].id);
                assert(post.inactive_invoices@[q] == batch[q - m].id);
                assert(batch[p - m].id@ != batch[q - m].id@);
            }
        }
        assert forall|y: int| 0 <= y < post.inactive_invoices@.len() implies {
            let k = (#[trigger] post.inactive_invoices@[y])@;
            &&& post.has_invoice(k)
            &&& post.invoice_of(k).status is Paid
        } by {
            let k = post.inactive_invoices@[y]@;
            if y < m {
                assert(pre.inactive_invoices@[y]@ == k);
                assert(pre.has_invoice(k) && pre.invoice_of(k).status is Paid);
            } else {
                assert(post.inactive_invoices@[y] == batch[y - m].id);
                assert(post.invoice_of(batch[y - m].id@) == batch[y - m]);
            }
        }
        Self::lemma_active_transfer(pre, post);
        assert forall|bx: int, px: int|
            0 <= bx < post.active_invoices@.len() && 0 <= px
                < post.active_invoices@[bx].ids@.len() implies {
            let k = (#[trigger] post.active_invoices@[bx].ids@[px])@;
            &&& post.has_invoice(k)
            &&& !(post.invoice_of(k).status is Paid)
            &&& post.invoice_of(k).exchange_rates_timestamp == post.active_invoices@[bx].epoch
        } by {
            let k = post.active_invoices@[bx].ids@[px]@;
            assert(pre.active_invoices@[bx].ids@[px]@ == k);
            assert(pre.has_invoice(k) && !(pre.invoice_of(k).status is Paid));
            assert(post.invoice_of(k) == pre.invoice_of(k));
        }
        assert forall|w: int| 0 <= w < post.invoices@.len() implies post.invoice_placed(
            #[trigger] post.invoices@[w],
        ) by {
            let inv = post.invoices@[w];
            let k = inv.id@;
            if w < n {
                assert(inv == pre.invoices@[w]);
                assert(pre.invoice_placed(inv));
                if inv.status is Paid {
                    assert(post.in_inactive(k));
                } else {
                    assert(post.in_active(inv.exchange_rates_timestamp, k));
                }
            } else {
                assert(inv == batch[w - n]);
                assert(Self::batch_ids_contain(batch, k)) by {
                    assert(batch[w - n].id@ == k);
                }
                assert(post.in_inactive(k));
            }
        }
    }

    /// Looks an invoice up by id.
    pub fn get(&self, invoice_id: &InvoiceId) -> (r: Option<Invoice>)
        requires
            self.wf(),
        ensures
            match r {
                Some(inv) => self.has_invoice(invoice_id@) && inv == self.invoice_of(invoice_id@),
                None => !self.has_invoice(invoice_id@),
            },
    {
        match find_invoice(&self.invoices, invoice_id) {
            Some(i) => {
                proof {
                    self.lemma_invoice_at(i as int);
                }
                Some(self.invoices[i])
            },
            None => None,
        }
    }
}

impl InvoicesState {
    // ----- observers -----

    /// How many invoices the store holds.
    pub fn invoice_count(&self) -> (r: usize)
        ensures
            r == self.invoices@.len(),
    {
        self.invoices.len()
    }

    /// How many paid invoices await archival.
    pub fn inactive_count(&self) -> (r: usize)
        ensures
            r == self.inactive_invoices@.len(),
    {
        self.inactive_invoices.len()
    }

    /// Whether this id sits in the inactive (paid, unarchived) set.
    pub fn is_inactive(&self, invoice_id: &InvoiceId) -> (r: bool)
        ensures
            r == self.in_inactive(invoice_id@),
    {
        match find_id(&self.inactive_invoices, invoice_id) {
            Some(i) => {
                proof {
                    assert(self.inactive_invoices@[i as int]@ == invoice_id@);
                }
                true
            },
            None => {
                proof {
                    if self.in_inactive(invoice_id@) {
                        let w = choose|w: int|
                            0 <= w < self.inactive_invoices@.len() && (
                            #[trigger] self.inactive_invoices@[w])@ == invoice_id@;
                        assert(self.inactive_invoices@[w]@ != invoice_id@);
                    }
                }
                false
            },
        }
    }

    /// Whether the active index still holds a bucket for this epoch.
    pub fn has_epoch_bucket(&self, epoch: Timestamp) -> (r: bool)
        ensures
            r == self.has_bucket(epoch),
    {
        match find_bucket(&self.active_invoices, epoch) {
            Some(i) => {
                proof {
                    assert(self.active_invoices@[i as int].epoch == epoch);
                }
                true
            },
            None => {
                proof {
                    if self.has_bucket(epoch) {
                        let w = choose|w: int|
                            0 <= w < self.active_invoices@.len() && (
                            #[trigger] self.active_invoices@[w]).epoch == epoch;
                        assert(self.active_invoices@[w].epoch != epoch);
                    }
                }
                false
            },
        }
    }

    /// How many epoch buckets the active index holds.
    pub fn active_bucket_count(&self) -> (r: usize)
        ensures
            r == self.active_invoices@.len(),
    {
        self.active_invoices.len()
    }

    /// The running total of processed USD volume.
    pub fn total_processed(&self) -> (r: u128)
        ensures
            r == self.total_processed_in_usd,
    {
        self.total_processed_in_usd
    }
}

impl Default for InvoicesState {
    /// An engine with no invoices and a zeroed identifier seed.
    fn default() -> (r: Self)
        ensures
            r.wf(),
            r.invoices@.len() == 0,
            r.active_invoices@.len() == 0,
            r.inactive_invoices@.len() == 0,
            r.total_processed_in_usd == 0,
    {
        InvoicesState::new()
    }
}

/// One on-demand expiry sweep over an invoice store; hands back the epochs
/// whose cached exchange rate may now be evicted.
pub fn garbage_collect_invoices(state: &mut InvoicesState) -> (evicted: Vec<Timestamp>)
    requires
        old(state).wf(),
        old(state).all_active_created(),
    ensures
        final(state).wf(),
        InvoicesState::purge_post(*old(state), *final(state), evicted@),
{
    state.purge_expired()
}

/// Serves an invoice lookup request.
pub fn get_invoice(state: &InvoicesState, req: GetInvoiceRequest) -> (resp: GetInvoiceResponse)
    requires
        state.wf(),
    ensures
        match resp.invoice_opt {
            Some(inv) => state.has_invoice(req.invoice_id@) && inv == state.invoice_of(
                req.invoice_id@,
            ),
            None => !state.has_invoice(req.invoice_id@),
        },
{
    GetInvoiceResponse { invoice_opt: state.get(&req.invoice_id) }
}

/// An invoice lookup request.
pub struct GetInvoiceRequest {
    pub invoice_id: InvoiceId,
}

/// The answer to an invoice lookup.
pub struct GetInvoiceResponse {
    pub invoice_opt: Option<Invoice>,
}

/// A request to create an invoice for a shop.
pub struct CreateInvoiceRequest {
    pub shop_id: ShopId,
    pub qty_usd: USD,
}

/// The answer to an invoice creation request.
pub struct CreateInvoiceResponse {
    pub invoice_id: InvoiceId,
}

/// A request to verify that a ledger transfer pays an invoice.
pub struct VerifyPaymentRequest {
    pub invoice_id: InvoiceId,
    pub asset_id: Principal,
    pub block_idx: u64,
}

/// The answer to a payment-verification request.
pub type VerifyPaymentResponse = Result<Invoice, InvoiceError>;

/// Finds the position of the invoice carrying this id.
fn find_invoice(v: &Vec<Invoice>, id: &InvoiceId) -> (r: Option<usize>)
    ensures
        match r {
            Some(i) => i < v@.len() && v@[i as int].id@ == id@,
            None => forall|i: int| 0 <= i < v@.len() ==> (#[trigger] v@[i]).id@ != id@,
        },
{
    let mut i: usize = 0;
    while i < v.len()
        invariant
            0 <= i <= v@.len(),
            forall|j: int| 0 <= j < i ==> (#[trigger] v@[j]).id@ != id@,
        decreases v@.len() - i,
    {
        if array_eq(&v[i].id, id) {
            return Some(i);
        }
        i += 1;
    }
    None
}

/// Finds the position of the bucket for this epoch.
fn find_bucket(v: &Vec<EpochBucket>, epoch: Timestamp) -> (r: Option<usize>)
    ensures
        match r {
            Some(i) => i < v@.len() && v@[i as int].epoch == epoch,
            None => forall|i: int| 0 <= i < v@.len() ==> (#[trigger] v@[i]).epoch != epoch,
        },
{
    let mut i: usize = 0;
    while i < v.len()
        invariant
            0 <= i <= v@.len(),
            forall|j: int| 0 <= j < i ==> (#[trigger] v@[j]).epoch != epoch,
        decreases v@.len() - i,
    {
        if v[i].epoch == epoch {
            return Some(i);
        }
        i += 1;
    }
    None
}

/// Finds the position of this id in a plain id list.
fn find_id(v: &Vec<InvoiceId>, id: &InvoiceId) -> (r: Option<usize>)
    ensures
        match r {
            Some(i) => i < v@.len() && v@[i as int]@ == id@,
            None => forall|i: int| 0 <= i < v@.len() ==> (#[trigger] v@[i])@ != id@,
        },
{
    let mut i: usize = 0;
    while i < v.len()
        invariant
            0 <= i <= v@.len(),
            forall|j: int| 0 <= j < i ==> (#[trigger] v@[j])@ != id@,
        decreases v@.len() - i,
    {
        if array_eq(&v[i], id) {
            return Some(i);
        }
        i += 1;
    }
    None
}

} // verus!
