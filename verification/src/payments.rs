//! Outgoing payment ordering and inbound payment vetting.
//!
//! Outbound payments are serialized per identity: at most one is in
//! flight, and further orders for the same peer wait, coalesced into
//! one sum that is submitted when the flight ends. Inbound payment
//! notifications pass only when the on-chain facts check out, and a
//! transaction hash is credited at most once. The RPC calls
//! themselves — submitting, polling confirmations — live outside.

use vstd::prelude::*;

use crate::identity::Identity;
use crate::int256::{in_range, I256};

verus! {

/// A transaction hash, as two 16-byte halves.
#[derive(Clone, Copy, PartialEq, Eq, Structural, Debug)]
pub struct TxHash {
    pub hi: u128,
    pub lo: u128,
}

/// One payment to submit through the RPC collaborator.
#[derive(Clone, Copy, PartialEq, Eq, Structural, Debug)]
pub struct PaymentRequest {
    pub identity: Identity,
    pub amount: I256,
}

/// A payment waiting or flying for one identity.
#[derive(Clone, Copy, PartialEq, Eq, Structural, Debug)]
pub struct PendingPayment {
    pub identity: Identity,
    pub amount: I256,
}

/// Raised when coalesced amounts would leave the 256-bit range.
#[derive(Clone, Copy, PartialEq, Eq, Structural, Debug)]
pub enum PaymentError {
    AmountOutOfRange,
}

pub open spec fn payments_unique(s: Seq<PendingPayment>) -> bool {
    forall|i: int, j: int| 0 <= i < j < s.len() ==> s[i].identity != s[j].identity
}

pub open spec fn spec_has_payment(s: Seq<PendingPayment>, id: Identity) -> bool {
    exists|i: int| 0 <= i < s.len() && s[i].identity == id
}

pub open spec fn spec_payment(s: Seq<PendingPayment>, id: Identity) -> PendingPayment {
    s[choose|i: int| 0 <= i < s.len() && s[i].identity == id]
}

pub open spec fn spec_tx_seen(s: Seq<TxHash>, tx: TxHash) -> bool {
    exists|i: int| 0 <= i < s.len() && s[i] == tx
}

/// Executes outgoing payments one per identity at a time and vets
/// inbound payment notifications.
pub struct PaymentController {
    /// The one submitted-and-unresolved payment per identity.
    pub in_flight: Vec<PendingPayment>,
    /// Amounts ordered while a flight was up, coalesced per identity.
    pub queued: Vec<PendingPayment>,
    /// Hashes already credited; a duplicate notification does nothing.
    pub seen_tx: Vec<TxHash>,
}

impl PaymentController {
    pub open spec fn wf(self) -> bool {
        &&& payments_unique(self.in_flight@)
        &&& payments_unique(self.queued@)
        &&& forall|i: int|
            0 <= i < self.in_flight@.len() ==> (#[trigger] self.in_flight@[i]).amount.wf()
        &&& forall|i: int| 0 <= i < self.queued@.len() ==> (#[trigger] self.queued@[i]).amount.wf()
        &&& forall|i: int|
            0 <= i < self.queued@.len() ==> spec_has_payment(
                self.in_flight@,
                (#[trigger] self.queued@[i]).identity,
            )
    }

    pub open spec fn flying(self, id: Identity) -> bool {
        spec_has_payment(self.in_flight@, id)
    }

    pub open spec fn queued_amount(self, id: Identity) -> int {
        if spec_has_payment(self.queued@, id) {
            spec_payment(self.queued@, id).amount.as_int()
        } else {
            0
        }
    }

    pub fn new() -> (r: PaymentController)
        ensures
            r.wf(),
            r.in_flight@.len() == 0,
            r.queued@.len() == 0,
            r.seen_tx@.len() == 0,
    {
        PaymentController { in_flight: Vec::new(), queued: Vec::new(), seen_tx: Vec::new() }
    }

    fn find_in(v: &Vec<PendingPayment>, id: &Identity) -> (r: Option<usize>)
        requires
            payments_unique(v@),
        ensures
            match r {
                Some(i) => i < v@.len() && v@[i as int].identity == *id && spec_payment(v@, *id)
                    == v@[i as int],
                None => !spec_has_payment(v@, *id),
            },
    {
        let n = v.len();
        let mut k: usize = 0;
        while k < n
            invariant
                payments_unique(v@),
                n == v@.len(),
                k <= n,
                forall|j: int| 0 <= j < k ==> #[trigger] v@[j].identity != *id,
            decreases n - k,
        {
            if v[k].identity == *id {
                proof {
                    let c = choose|c: int| 0 <= c < v@.len() && v@[c].identity == *id;
                    if c != k {
                        assert(false);
                    }
                }
                return Some(k);
            }
            k += 1;
        }
        None
    }

    /// Order a payment. With no flight up for the peer the request
    /// comes back for submission and the flight is marked; otherwise
    /// the amount joins the peer's coalesced waiting sum. An `Err`
    /// comes exactly when that sum would leave the 256-bit range, and
    /// changes nothing.
    pub fn make_payment(&mut self, identity: Identity, amount: I256) -> (r: Result<
        Option<PaymentRequest>,
        PaymentError,
    >)
        requires
            old(self).wf(),
            amount.wf(),
            amount.as_int() >= 0,
        ensures
            final(self).wf(),
            final(self).seen_tx@ == old(self).seen_tx@,
            match r {
                Ok(Some(req)) => !old(self).flying(identity) && req == (PaymentRequest {
                    identity,
                    amount,
                }) && final(self).flying(identity) && final(self).in_flight@ == old(
                    self,
                ).in_flight@.push(PendingPayment { identity, amount }) && final(self).queued@
                    == old(self).queued@,
                Ok(None) => old(self).flying(identity) && final(self).in_flight@ == old(
                    self,
                ).in_flight@ && final(self).queued_amount(identity) == old(self).queued_amount(
                    identity,
                ) + amount.as_int() && forall|id2: Identity|
                    id2 != identity ==> #[trigger] final(self).queued_amount(id2) == old(
                        self,
                    ).queued_amount(id2),
                Err(_) => old(self).flying(identity) && !in_range(
                    old(self).queued_amount(identity) + amount.as_int(),
                ) && *final(self) == *old(self),
            },
    {
        match Self::find_in(&self.in_flight, &identity) {
            None => {
                self.in_flight.push(PendingPayment { identity, amount });
                proof {
                    lemma_payments_push(old(self).in_flight@, PendingPayment { identity, amount });
                }
                Ok(Some(PaymentRequest { identity, amount }))
            },
            Some(_) => {
                match Self::find_in(&self.queued, &identity) {
                    Some(qi) => {
                        let e = self.queued[qi];
                        proof {
                            assert(self.queued@[qi as int].amount.wf());
                        }
                        let sum = match e.amount.checked_add(&amount) {
                            Some(v) => v,
                            None => {
                                return Err(PaymentError::AmountOutOfRange);
                            },
                        };
                        proof {
                            lemma_payments_update(
                                self.queued@,
                                qi as int,
                                PendingPayment { identity, amount: sum },
                            );
                        }
                        self.queued.set(qi, PendingPayment { identity, amount: sum });
                        Ok(None)
                    },
                    None => {
                        self.queued.push(PendingPayment { identity, amount });
                        proof {
                            lemma_payments_push(
                                old(self).queued@,
                                PendingPayment { identity, amount },
                            );
                        }
                        Ok(None)
                    },
                }
            },
        }
    }

    /// The flight for this identity ended — confirmed or failed, which
    /// the caller reports to the debt keeper separately. A waiting
    /// coalesced sum, if any, becomes the next request and the next
    /// flight, carrying exactly that sum. Every other identity's
    /// flight and waiting sum survive untouched.
    pub fn payment_finished(&mut self, identity: &Identity) -> (r: Option<PaymentRequest>)
        requires
            old(self).wf(),
        ensures
            final(self).wf(),
            final(self).seen_tx@ == old(self).seen_tx@,
            match r {
                Some(req) => old(self).flying(*identity) && spec_has_payment(
                    old(self).queued@,
                    *identity,
                ) && req == (PaymentRequest {
                    identity: *identity,
                    amount: spec_payment(old(self).queued@, *identity).amount,
                }) && req.amount.wf() && final(self).flying(*identity) && spec_payment(
                    final(self).in_flight@,
                    *identity,
                ) == (PendingPayment { identity: *identity, amount: req.amount })
                    && !spec_has_payment(final(self).queued@, *identity),
                None => !final(self).flying(*identity) && (old(self).flying(*identity)
                    ==> !spec_has_payment(old(self).queued@, *identity)) && (!old(self).flying(
                    *identity,
                ) ==> *final(self) == *old(self)),
            },
            forall|id2: Identity|
                id2 != *identity ==> #[trigger] final(self).flying(id2) == old(self).flying(id2),
            forall|id2: Identity|
                id2 != *identity && old(self).flying(id2) ==> #[trigger] spec_payment(
                    final(self).in_flight@,
                    id2,
                ) == spec_payment(old(self).in_flight@, id2),
            forall|id2: Identity|
                id2 != *identity ==> #[trigger] final(self).queued_amount(id2) == old(
                    self,
                ).queued_amount(id2),
    {
        match Self::find_in(&self.in_flight, identity) {
            None => None,
            Some(i) => {
                proof {
                    lemma_payments_remove(self.in_flight@, i as int);
                }
                self.in_flight.remove(i);
                match Self::find_in(&self.queued, identity) {
                    None => None,
                    Some(qi) => {
                        let e = self.queued[qi];
                        proof {
                            lemma_payments_remove(self.queued@, qi as int);
                        }
                        self.queued.remove(qi);
                        proof {
                            lemma_payments_push(self.in_flight@, e);
                            assert(e.amount.wf());
                        }
                        self.in_flight.push(e);
                        Some(PaymentRequest { identity: e.identity, amount: e.amount })
                    },
                }
            },
        }
    }

    /// Vet one inbound payment notification against the on-chain
    /// facts: it is credited exactly when the recipient and amount
    /// check out, the confirmations suffice, and the hash was not
    /// credited before. A passing hash is recorded, so a duplicate
    /// does nothing.
    pub fn accept_notification(
        &mut self,
        tx: TxHash,
        recipient_ok: bool,
        amount_ok: bool,
        confirmations: u64,
        min_confirmations: u64,
    ) -> (r: bool)
        requires
            old(self).wf(),
        ensures
            final(self).wf(),
            final(self).in_flight@ == old(self).in_flight@,
            final(self).queued@ == old(self).queued@,
            r == (recipient_ok && amount_ok && confirmations >= min_confirmations && !spec_tx_seen(
                old(self).seen_tx@,
                tx,
            )),
            r ==> final(self).seen_tx@ == old(self).seen_tx@.push(tx),
            !r ==> final(self).seen_tx@ == old(self).seen_tx@,
            spec_tx_seen(final(self).seen_tx@, tx) == (r || spec_tx_seen(old(self).seen_tx@, tx)),
    {
        if !recipient_ok || !amount_ok || confirmations < min_confirmations {
            return false;
        }
        let n = self.seen_tx.len();
        let mut k: usize = 0;
        while k < n
            invariant
                self.wf(),
                *self == *old(self),
                n == self.seen_tx@.len(),
                k <= n,
                forall|j: int| 0 <= j < k ==> #[trigger] self.seen_tx@[j] != tx,
            decreases n - k,
        {
            if self.seen_tx[k] == tx {
                return false;
            }
            k += 1;
        }
        self.seen_tx.push(tx);
        proof {
            assert(self.seen_tx@[self.seen_tx@.len() - 1] == tx);
        }
        true
    }
}

/// Appending a record for a fresh identity leaves the others alone.
proof fn lemma_payments_push(s: Seq<PendingPayment>, p: PendingPayment)
    requires
        payments_unique(s),
        !spec_has_payment(s, p.identity),
    ensures
        payments_unique(s.push(p)),
        spec_has_payment(s.push(p), p.identity),
        spec_payment(s.push(p), p.identity) == p,
        forall|id2: Identity|
            id2 != p.identity ==> #[trigger] spec_has_payment(s.push(p), id2) == spec_has_payment(
                s,
                id2,
            ),
        forall|id2: Identity|
            id2 != p.identity && spec_has_payment(s, id2) ==> #[trigger] spec_payment(
                s.push(p),
                id2,
            ) == spec_payment(s, id2),
{
    let t = s.push(p);
    assert(t[s.len() as int].identity == p.identity);
    let c = choose|c: int| 0 <= c < t.len() && t[c].identity == p.identity;
    if c != s.len() {
        assert(s[c].identity == p.identity);
        assert(false);
    }
    assert forall|id2: Identity| id2 != p.identity implies #[trigger] spec_has_payment(t, id2)
        == spec_has_payment(s, id2) by {
        if spec_has_payment(s, id2) {
            let j = choose|j: int| 0 <= j < s.len() && s[j].identity == id2;
            assert(t[j].identity == id2);
        }
        if spec_has_payment(t, id2) {
            let j = choose|j: int| 0 <= j < t.len() && t[j].identity == id2;
            assert(j < s.len());
            assert(s[j].identity == id2);
        }
    }
    assert forall|id2: Identity|
        id2 != p.identity && spec_has_payment(s, id2) implies #[trigger] spec_payment(t, id2)
        == spec_payment(s, id2) by {
        let j = choose|j: int| 0 <= j < s.len() && s[j].identity == id2;
        assert(0 <= j < s.len() && s[j].identity == id2);
        assert(t[j].identity == id2);
        let k = choose|k: int| 0 <= k < t.len() && t[k].identity == id2;
        assert(0 <= k < t.len() && t[k].identity == id2);
        assert(k < s.len());
        if j != k {
            assert(false);
        }
    }
}

/// Replacing a record in place, identity kept, leaves the others
/// alone.
proof fn lemma_payments_update(s: Seq<PendingPayment>, i: int, p: PendingPayment)
    requires
        payments_unique(s),
        0 <= i < s.len(),
        p.identity == s[i].identity,
    ensures
        payments_unique(s.update(i, p)),
        spec_has_payment(s.update(i, p), p.identity),
        spec_payment(s.update(i, p), p.identity) == p,
        forall|id2: Identity|
            id2 != p.identity ==> #[trigger] spec_has_payment(s.update(i, p), id2)
                == spec_has_payment(s, id2),
        forall|id2: Identity|
            id2 != p.identity && spec_has_payment(s, id2) ==> #[trigger] spec_payment(
                s.update(i, p),
                id2,
            ) == spec_payment(s, id2),
{
    let t = s.update(i, p);
    assert(t[i].identity == p.identity);
    let c = choose|c: int| 0 <= c < t.len() && t[c].identity == p.identity;
    if c != i {
        assert(s[c].identity == p.identity);
        assert(false);
    }
    assert forall|id2: Identity| id2 != p.identity implies #[trigger] spec_has_payment(t, id2)
        == spec_has_payment(s, id2) by {
        if spec_has_payment(s, id2) {
            let j = choose|j: int| 0 <= j < s.len() && s[j].identity == id2;
            assert(t[j].identity == id2);
        }
        if spec_has_payment(t, id2) {
            let j = choose|j: int| 0 <= j < t.len() && t[j].identity == id2;
            assert(s[j].identity == id2);
        }
    }
    assert forall|id2: Identity|
        id2 != p.identity && spec_has_payment(s, id2) implies #[trigger] spec_payment(t, id2)
        == spec_payment(s, id2) by {
        let j = choose|j: int| 0 <= j < s.len() && s[j].identity == id2;
        assert(0 <= j < s.len() && s[j].identity == id2);
        assert(t[j].identity == id2);
        let k = choose|k: int| 0 <= k < t.len() && t[k].identity == id2;
        assert(0 <= k < t.len() && t[k].identity == id2);
        assert(k != i);
        assert(s[k].identity == id2);
        if j != k {
            assert(false);
        }
    }
}

/// Removing a record by index leaves the others alone.
proof fn lemma_payments_remove(s: Seq<PendingPayment>, i: int)
    requires
        payments_unique(s),
        0 <= i < s.len(),
    ensures
        payments_unique(s.remove(i)),
        !spec_has_payment(s.remove(i), s[i].identity),
        forall|id2: Identity|
            id2 != s[i].identity ==> #[trigger] spec_has_payment(s.remove(i), id2)
                == spec_has_payment(s, id2),
        forall|id2: Identity|
            id2 != s[i].identity && spec_has_payment(s, id2) ==> #[trigger] spec_payment(
                s.remove(i),
                id2,
            ) == spec_payment(s, id2),
{
    let t = s.remove(i);
    if spec_has_payment(t, s[i].identity) {
        let j = choose|j: int| 0 <= j < t.len() && t[j].identity == s[i].identity;
        if j < i {
            assert(s[j].identity == s[i].identity);
            assert(false);
        } else {
            assert(s[j + 1].identity == s[i].identity);
            assert(false);
        }
    }
    assert forall|id2: Identity| id2 != s[i].identity implies #[trigger] spec_has_payment(t, id2)
        == spec_has_payment(s, id2) by {
        if spec_has_payment(s, id2) {
            let j = choose|j: int| 0 <= j < s.len() && s[j].identity == id2;
            if j < i {
                assert(t[j].identity == id2);
            } else {
                assert(t[j - 1].identity == id2);
            }
        }
        if spec_has_payment(t, id2) {
            let j = choose|j: int| 0 <= j < t.len() && t[j].identity == id2;
            if j < i {
                assert(s[j].identity == id2);
            } else {
                assert(s[j + 1].identity == id2);
            }
        }
    }
    assert forall|id2: Identity|
        id2 != s[i].identity && spec_has_payment(s, id2) implies #[trigger] spec_payment(t, id2)
        == spec_payment(s, id2) by {
        let j = choose|j: int| 0 <= j < s.len() && s[j].identity == id2;
        assert(0 <= j < s.len() && s[j].identity == id2);
        if j < i {
            assert(t[j].identity == id2);
        } else {
            assert(t[j - 1].identity == id2);
        }
        let k = choose|k: int| 0 <= k < t.len() && t[k].identity == id2;
        assert(0 <= k < t.len() && t[k].identity == id2);
        if k < i {
            assert(s[k].identity == id2);
            if j != k {
                assert(false);
            }
        } else {
            assert(s[k + 1].identity == id2);
            if j != k + 1 {
                assert(false);
            }
        }
    }
}

} // verus!
