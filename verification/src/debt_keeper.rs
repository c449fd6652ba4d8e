//! Signed running balances per peer identity, and the decisions taken
//! when a balance crosses a threshold.
//!
//! The keeper is the single writer of its state. A positive balance
//! means this node owes the peer; a negative one means the peer owes
//! this node. A charge moves the balance; when it reaches
//! `pay_threshold` a payment is ordered and the balance is reset
//! optimistically (a failed payment is rolled back later); when it
//! falls to `close_threshold` the peer's tunnel is ordered closed.
//! A tunnel closed over debt reopens only once repayment lifts the
//! balance above `close_threshold * close_fraction` — hysteresis, so
//! marginal payment flow cannot make the tunnel flap.

use vstd::prelude::*;

use crate::identity::{spec_identity_lt, Identity};
use crate::int256::{in_range, I256};

verus! {

/// The keeper's error: raised only when a balance or a bookkeeping
/// counter would leave the 256-bit range, which the engine treats as a
/// fatal invariant violation.
#[derive(Debug)]
pub enum Error {
    DebtKeeperError(String),
}

/// What the keeper asks the rest of the engine to do.
#[derive(Clone, Copy, PartialEq, Eq, Structural, Debug)]
pub enum DebtAction {
    /// Sever the peer's tunnel: it owes too much.
    CloseTunnel,
    /// Pay the peer the carried amount.
    MakePayment(I256),
    /// Re-admit a peer that was closed over debt and has now repaid.
    OpenTunnel,
}

/// One charge or credit headed for the keeper.
#[derive(Clone, Copy, PartialEq, Eq, Structural, Debug)]
pub struct DebtAdjustment {
    pub identity: Identity,
    pub amount: I256,
}

/// The per-peer record. Entries are created on first mention and never
/// destroyed while the process lives.
#[derive(Clone, Copy, PartialEq, Eq, Structural, Debug)]
pub struct DebtEntry {
    pub identity: Identity,
    pub balance: I256,
    pub total_paid: I256,
    pub total_received: I256,
    pub last_payment: I256,
    /// Set when a `CloseTunnel` was emitted over this entry's debt and
    /// no `OpenTunnel` has been emitted since.
    pub closed_by_debt: bool,
}

impl DebtEntry {
    pub open spec fn wf(self) -> bool {
        &&& self.balance.wf()
        &&& self.total_paid.wf()
        &&& self.total_received.wf()
        &&& self.last_payment.wf()
        &&& self.total_paid.as_int() >= 0
        &&& self.total_received.as_int() >= 0
    }
}

/// One row of the debts snapshot handed to the dashboard.
#[derive(Clone, Copy, PartialEq, Eq, Structural, Debug)]
pub struct GetDebtsResult {
    pub identity: Identity,
    pub balance: I256,
    pub total_paid: I256,
    pub total_received: I256,
}

/// Entries stand in strictly ascending identity order: deterministic
/// listings, and at most one entry per identity.
pub open spec fn entries_sorted(s: Seq<DebtEntry>) -> bool {
    forall|i: int, j: int|
        0 <= i < j < s.len() ==> spec_identity_lt(s[i].identity, s[j].identity)
}

pub open spec fn spec_has(s: Seq<DebtEntry>, id: Identity) -> bool {
    exists|i: int| 0 <= i < s.len() && s[i].identity == id
}

pub open spec fn spec_entry(s: Seq<DebtEntry>, id: Identity) -> DebtEntry {
    s[choose|i: int| 0 <= i < s.len() && s[i].identity == id]
}

/// The balance a charge leaves behind: reset to zero when the payment
/// threshold was reached (the payment is ordered at the same moment).
pub open spec fn spec_balance_after(nb: int, pay: int) -> int {
    if nb >= pay {
        0
    } else {
        nb
    }
}

/// May a tunnel closed over debt reopen at balance `b`? Exactly when
/// `b > close_threshold * close_fraction`, with the fraction written as
/// num / den.
pub open spec fn spec_reopen_ok(b: int, close: int, num: int, den: int) -> bool {
    b * den > close * num
}

/// Maintains signed balances per peer identity and applies actions when
/// balances cross the configured thresholds.
pub struct DebtKeeper {
    pub entries: Vec<DebtEntry>,
    /// Pay the peer once our debt to it reaches this (nonnegative) mark.
    pub pay_threshold: i64,
    /// Close the peer's tunnel once its debt to us reaches this
    /// (negative) mark.
    pub close_threshold: i64,
    /// Numerator of the reopen fraction.
    pub close_fraction_num: u64,
    /// Denominator of the reopen fraction; the fraction lies in [0, 1].
    pub close_fraction_den: u64,
}

impl DebtKeeper {
    pub open spec fn wf(self) -> bool {
        &&& entries_sorted(self.entries@)
        &&& forall|i: int| 0 <= i < self.entries@.len() ==> #[trigger] self.entries@[i].wf()
        &&& self.close_threshold < 0 <= self.pay_threshold
        &&& 0 < self.close_fraction_den
        &&& self.close_fraction_num <= self.close_fraction_den
    }

    pub open spec fn has_entry(self, id: Identity) -> bool {
        spec_has(self.entries@, id)
    }

    pub open spec fn balance_of(self, id: Identity) -> int {
        if self.has_entry(id) {
            spec_entry(self.entries@, id).balance.as_int()
        } else {
            0
        }
    }

    pub open spec fn closed_of(self, id: Identity) -> bool {
        self.has_entry(id) && spec_entry(self.entries@, id).closed_by_debt
    }

    pub open spec fn total_paid_of(self, id: Identity) -> int {
        if self.has_entry(id) {
            spec_entry(self.entries@, id).total_paid.as_int()
        } else {
            0
        }
    }

    pub open spec fn total_received_of(self, id: Identity) -> int {
        if self.has_entry(id) {
            spec_entry(self.entries@, id).total_received.as_int()
        } else {
            0
        }
    }

    /// The configuration fields never change after construction.
    pub open spec fn same_config(self, other: DebtKeeper) -> bool {
        &&& self.pay_threshold == other.pay_threshold
        &&& self.close_threshold == other.close_threshold
        &&& self.close_fraction_num == other.close_fraction_num
        &&& self.close_fraction_den == other.close_fraction_den
    }

    /// Everything recorded about `id` is the same in both states.
    pub open spec fn entry_unchanged(self, other: DebtKeeper, id: Identity) -> bool {
        &&& self.has_entry(id) == other.has_entry(id)
        &&& self.balance_of(id) == other.balance_of(id)
        &&& self.closed_of(id) == other.closed_of(id)
        &&& self.total_paid_of(id) == other.total_paid_of(id)
        &&& self.total_received_of(id) == other.total_received_of(id)
    }
}

/// In a sorted run of entries each identity appears at most once.
proof fn lemma_sorted_unique(s: Seq<DebtEntry>, i: int, j: int)
    requires
        entries_sorted(s),
        0 <= i < s.len(),
        0 <= j < s.len(),
        s[i].identity == s[j].identity,
    ensures
        i == j,
{
    if i < j {
        assert(spec_identity_lt(s[i].identity, s[j].identity));
    }
    if j < i {
        assert(spec_identity_lt(s[j].identity, s[i].identity));
    }
}

/// The entry found at an index is the entry of its identity.
proof fn lemma_entry_at(s: Seq<DebtEntry>, i: int)
    requires
        entries_sorted(s),
        0 <= i < s.len(),
    ensures
        spec_has(s, s[i].identity),
        spec_entry(s, s[i].identity) == s[i],
{
    assert(spec_has(s, s[i].identity));
    let j = choose|j: int| 0 <= j < s.len() && s[j].identity == s[i].identity;
    lemma_sorted_unique(s, i, j);
}

/// Replacing an entry in place, identity kept, touches no other
/// identity's record.
proof fn lemma_update_entry(s: Seq<DebtEntry>, i: int, e: DebtEntry)
    requires
        entries_sorted(s),
        0 <= i < s.len(),
        e.identity == s[i].identity,
    ensures
        entries_sorted(s.update(i, e)),
        spec_has(s.update(i, e), e.identity),
        spec_entry(s.update(i, e), e.identity) == e,
        forall|id2: Identity|
            id2 != e.identity ==> #[trigger] spec_has(s.update(i, e), id2) == spec_has(s, id2),
        forall|id2: Identity|
            id2 != e.identity && spec_has(s, id2) ==> #[trigger] spec_entry(s.update(i, e), id2)
                == spec_entry(s, id2),
{
    let t = s.update(i, e);
    lemma_entry_at(t, i);
    assert forall|id2: Identity| id2 != e.identity implies #[trigger] spec_has(t, id2) == spec_has(
        s,
        id2,
    ) by {
        if spec_has(s, id2) {
            let j = choose|j: int| 0 <= j < s.len() && s[j].identity == id2;
            assert(t[j].identity == id2);
        }
        if spec_has(t, id2) {
            let j = choose|j: int| 0 <= j < t.len() && t[j].identity == id2;
            assert(s[j].identity == id2);
        }
    }
    assert forall|id2: Identity| id2 != e.identity && spec_has(s, id2) implies #[trigger] spec_entry(
        t,
        id2,
    ) == spec_entry(s, id2) by {
        let j = choose|j: int| 0 <= j < s.len() && s[j].identity == id2;
        assert(t[j].identity == id2);
        let k = choose|k: int| 0 <= k < t.len() && t[k].identity == id2;
        assert(k != i);
        assert(s[k].identity == id2);
        lemma_sorted_unique(s, j, k);
    }
}

/// Inserting a fresh entry at its sorted place touches no other
/// identity's record.
proof fn lemma_insert_entry(s: Seq<DebtEntry>, i: int, e: DebtEntry)
    requires
        entries_sorted(s),
        0 <= i <= s.len(),
        forall|j: int| 0 <= j < i ==> spec_identity_lt(#[trigger] s[j].identity, e.identity),
        forall|j: int| i <= j < s.len() ==> spec_identity_lt(e.identity, #[trigger] s[j].identity),
    ensures
        entries_sorted(s.insert(i, e)),
        spec_has(s.insert(i, e), e.identity),
        spec_entry(s.insert(i, e), e.identity) == e,
        forall|id2: Identity|
            id2 != e.identity ==> #[trigger] spec_has(s.insert(i, e), id2) == spec_has(s, id2),
        forall|id2: Identity|
            id2 != e.identity && spec_has(s, id2) ==> #[trigger] spec_entry(s.insert(i, e), id2)
                == spec_entry(s, id2),
{
    let t = s.insert(i, e);
    assert(entries_sorted(t)) by {
        assert forall|a: int, b: int| 0 <= a < b < t.len() implies spec_identity_lt(
            t[a].identity,
            t[b].identity,
        ) by {
            if a < i && b == i {
            } else if a == i && b > i {
            } else if a < i && b > i {
                assert(spec_identity_lt(s[a].identity, e.identity));
                assert(spec_identity_lt(e.identity, s[b - 1].identity));
            }
        }
    }
    lemma_entry_at(t, i);
    assert forall|id2: Identity| id2 != e.identity implies #[trigger] spec_has(t, id2) == spec_has(
        s,
        id2,
    ) by {
        if spec_has(s, id2) {
            let j = choose|j: int| 0 <= j < s.len() && s[j].identity == id2;
            if j < i {
                assert(t[j].identity == id2);
            } else {
                assert(t[j + 1].identity == id2);
            }
        }
        if spec_has(t, id2) {
            let j = choose|j: int| 0 <= j < t.len() && t[j].identity == id2;
            if j < i {
                assert(s[j].identity == id2);
            } else {
                assert(s[j - 1].identity == id2);
            }
        }
    }
    assert forall|id2: Identity| id2 != e.identity && spec_has(s, id2) implies #[trigger] spec_entry(
        t,
        id2,
    ) == spec_entry(s, id2) by {
        let j = choose|j: int| 0 <= j < s.len() && s[j].identity == id2;
        assert(0 <= j < s.len() && s[j].identity == id2);
        if j < i {
            assert(t[j].identity == id2);
        } else {
            assert(t[j + 1].identity == id2);
        }
        let k = choose|k: int| 0 <= k < t.len() && t[k].identity == id2;
        assert(0 <= k < t.len() && t[k].identity == id2);
        assert(k != i);
        if k < i {
            assert(s[k].identity == id2);
            lemma_sorted_unique(s, j, k);
        } else {
            assert(s[k - 1].identity == id2);
            lemma_sorted_unique(s, j, k - 1);
        }
    }
}

impl DebtKeeper {
    /// A fresh keeper with the given thresholds and reopen fraction.
    /// `close_threshold` is strictly negative, `pay_threshold`
    /// nonnegative, and the fraction num/den lies in [0, 1].
    pub fn new(
        pay_threshold: i64,
        close_threshold: i64,
        close_fraction_num: u64,
        close_fraction_den: u64,
    ) -> (r: DebtKeeper)
        requires
            close_threshold < 0 <= pay_threshold,
            0 < close_fraction_den,
            close_fraction_num <= close_fraction_den,
        ensures
            r.wf(),
            r.pay_threshold == pay_threshold,
            r.close_threshold == close_threshold,
            r.close_fraction_num == close_fraction_num,
            r.close_fraction_den == close_fraction_den,
            forall|id: Identity| !(#[trigger] r.has_entry(id)),
    {
        DebtKeeper {
            entries: Vec::new(),
            pay_threshold,
            close_threshold,
            close_fraction_num,
            close_fraction_den,
        }
    }

    /// Index of the identity's entry, if one exists.
    fn find_index(&self, ident: &Identity) -> (r: Option<usize>)
        requires
            self.wf(),
        ensures
            match r {
                Some(i) => i < self.entries@.len() && self.entries@[i as int].identity == *ident
                    && spec_entry(self.entries@, *ident) == self.entries@[i as int],
                None => !self.has_entry(*ident),
            },
    {
        let n = self.entries.len();
        let mut k: usize = 0;
        while k < n
            invariant
                self.wf(),
                n == self.entries@.len(),
                k <= n,
                forall|j: int| 0 <= j < k ==> #[trigger] self.entries@[j].identity != *ident,
            decreases n - k,
        {
            if self.entries[k].identity == *ident {
                proof {
                    lemma_entry_at(self.entries@, k as int);
                }
                return Some(k);
            }
            k += 1;
        }
        None
    }

    /// Insert a record for an identity not yet present, keeping the
    /// order.
    fn insert_entry(&mut self, e: DebtEntry)
        requires
            old(self).wf(),
            !old(self).has_entry(e.identity),
            e.wf(),
        ensures
            final(self).wf(),
            final(self).same_config(*old(self)),
            final(self).has_entry(e.identity),
            spec_entry(final(self).entries@, e.identity) == e,
            forall|id2: Identity|
                id2 != e.identity ==> #[trigger] final(self).entry_unchanged(*old(self), id2),
    {
        let n = self.entries.len();
        let mut k: usize = 0;
        while k < n && !e.identity.lt(&self.entries[k].identity)
            invariant
                self.wf(),
                *self == *old(self),
                n == self.entries@.len(),
                k <= n,
                forall|j: int|
                    0 <= j < k ==> spec_identity_lt(
                        #[trigger] self.entries@[j].identity,
                        e.identity,
                    ),
                !self.has_entry(e.identity),
            decreases n - k,
        {
            proof {
                // Not equal (no entry yet) and not above: strictly below.
                assert(self.entries@[k as int].identity != e.identity);
                crate::identity::lemma_identity_order_total(
                    e.identity,
                    self.entries@[k as int].identity,
                );
            }
            k += 1;
        }
        proof {
            assert forall|j: int| k <= j < self.entries@.len() implies spec_identity_lt(
                e.identity,
                #[trigger] self.entries@[j].identity,
            ) by {
                crate::identity::lemma_identity_order_total(
                    e.identity,
                    self.entries@[k as int].identity,
                );
                if k < j {
                    crate::identity::lemma_identity_order_trans(
                        e.identity,
                        self.entries@[k as int].identity,
                        self.entries@[j].identity,
                    );
                }
            }
            lemma_insert_entry(self.entries@, k as int, e);
        }
        self.entries.insert(k, e);
    }
}

/// What one threshold evaluation leaves behind and orders: a payment
/// (and the optimistic reset) at or above `pay`, a close at or below
/// `close`, nothing in between.
fn check_thresholds(nb: I256, pay: i64, close: i64) -> (r: (Option<DebtAction>, I256))
    requires
        nb.wf(),
        close < 0 <= pay,
    ensures
        r.1.wf(),
        r.1.as_int() == spec_balance_after(nb.as_int(), pay as int),
        match r.0 {
            Some(DebtAction::MakePayment(p)) => p.wf() && nb.as_int() >= pay && p.as_int()
                == nb.as_int(),
            Some(DebtAction::CloseTunnel) => nb.as_int() <= close && nb.as_int() < pay,
            None => close < nb.as_int() < pay,
            Some(DebtAction::OpenTunnel) => false,
        },
{
    let pay_mark = I256::from_i64(pay);
    let close_mark = I256::from_i64(close);
    if !nb.lt(&pay_mark) {
        (Some(DebtAction::MakePayment(nb)), I256::zero())
    } else if nb.le(&close_mark) {
        (Some(DebtAction::CloseTunnel), nb)
    } else {
        (None, nb)
    }
}

/// Decides `balance * den > close * num` without wide multiplication:
/// a nonnegative balance settles it by sign; a debt of 2^63 or more can
/// never clear the bar, since |close| < 2^63 and num <= den; the rest
/// fits in 64-bit factors.
fn reopen_check(nb: &I256, close: i64, num: u64, den: u64) -> (r: bool)
    requires
        nb.wf(),
        close < 0,
        0 < den,
        num <= den,
    ensures
        r == spec_reopen_ok(nb.as_int(), close as int, num as int, den as int),
{
    let ghost b = nb.as_int();
    let mt: u64 = ((-(close + 1)) as u64) + 1;
    proof {
        assert(mt == -(close as int));
        assert(mt <= 0x8000000000000000u64);
    }
    if !nb.is_negative() {
        if nb.is_zero() {
            proof {
                if num > 0 {
                    assert(close * num <= -1 * (num as int)) by (nonlinear_arith)
                        requires close <= -1, num >= 1;
                } else {
                    assert(close * num == 0) by (nonlinear_arith)
                        requires num == 0;
                }
                assert(b * den == 0) by (nonlinear_arith)
                    requires b == 0;
            }
            num > 0
        } else {
            proof {
                assert(b * den >= 1 * (den as int)) by (nonlinear_arith)
                    requires b >= 1, den >= 1;
                assert(close * num <= 0) by (nonlinear_arith)
                    requires close < 0, num >= 0;
            }
            true
        }
    } else {
        // b < 0 with magnitude mb: the question is mb * den < mt * num.
        let ghost mb = -b;
        if nb.mag_hi > 0 || nb.mag_lo >= 0x8000000000000000u128 {
            proof {
                crate::int256::lemma_mag_bounds(nb.mag_hi, nb.mag_lo);
                assert(mb >= 0x8000000000000000int);
                assert(mb * den >= mt * num) by (nonlinear_arith)
                    requires mb >= mt >= 0, den >= num >= 0;
                assert(b * den <= close * num) by (nonlinear_arith)
                    requires b == -mb, close == -(mt as int), mb * den >= mt * num;
            }
            false
        } else {
            let mlo: u64 = nb.mag_lo as u64;
            proof {
                assert(mb == mlo);
                assert((mlo as int) * (den as int) < 0x100000000000000000000000000000000int)
                    by (nonlinear_arith)
                    requires mlo < 0x10000000000000000int, den < 0x10000000000000000int;
                assert((mt as int) * (num as int) < 0x100000000000000000000000000000000int)
                    by (nonlinear_arith)
                    requires mt < 0x10000000000000000int, num < 0x10000000000000000int;
                assert((b * den > close * num) == ((mlo as int) * (den as int) < (mt as int) * (
                num as int))) by (nonlinear_arith)
                    requires b == -(mlo as int), close == -(mt as int);
            }
            let lhs: u128 = (mlo as u128) * (den as u128);
            let rhs: u128 = (mt as u128) * (num as u128);
            lhs < rhs
        }
    }
}

/// The state a charge of `amount` leaves behind, and the action it
/// orders, relative to the state before it.
pub open spec fn apply_debt_post(
    old_dk: DebtKeeper,
    new_dk: DebtKeeper,
    ident: Identity,
    amount: int,
    action: Option<DebtAction>,
) -> bool {
    let nb = old_dk.balance_of(ident) + amount;
    &&& new_dk.has_entry(ident)
    &&& new_dk.balance_of(ident) == spec_balance_after(nb, old_dk.pay_threshold as int)
    &&& match action {
        Some(DebtAction::MakePayment(p)) => p.wf() && nb >= old_dk.pay_threshold && p.as_int()
            == nb,
        Some(DebtAction::CloseTunnel) => nb <= old_dk.close_threshold && nb
            < old_dk.pay_threshold,
        None => old_dk.close_threshold < nb < old_dk.pay_threshold,
        Some(DebtAction::OpenTunnel) => false,
    }
    &&& new_dk.closed_of(ident) == (old_dk.closed_of(ident) || (nb < old_dk.pay_threshold && nb
        <= old_dk.close_threshold))
    &&& new_dk.total_paid_of(ident) == old_dk.total_paid_of(ident)
    &&& new_dk.total_received_of(ident) == old_dk.total_received_of(ident)
    &&& forall|id2: Identity| id2 != ident ==> #[trigger] new_dk.entry_unchanged(old_dk, id2)
}

/// The state one received payment leaves behind. A tunnel closed over
/// debt is reopened exactly when the new balance clears the hysteresis
/// bar.
pub open spec fn payment_received_post(
    old_dk: DebtKeeper,
    new_dk: DebtKeeper,
    ident: Identity,
    amount: int,
    action: Option<DebtAction>,
) -> bool {
    let nb = old_dk.balance_of(ident) + amount;
    let reopen = old_dk.closed_of(ident) && spec_reopen_ok(
        nb,
        old_dk.close_threshold as int,
        old_dk.close_fraction_num as int,
        old_dk.close_fraction_den as int,
    );
    &&& new_dk.has_entry(ident)
    &&& new_dk.balance_of(ident) == nb
    &&& new_dk.total_received_of(ident) == old_dk.total_received_of(ident) + amount
    &&& new_dk.total_paid_of(ident) == old_dk.total_paid_of(ident)
    &&& action == (if reopen {
        Some(DebtAction::OpenTunnel)
    } else {
        None::<DebtAction>
    })
    &&& new_dk.closed_of(ident) == (old_dk.closed_of(ident) && !reopen)
    &&& forall|id2: Identity| id2 != ident ==> #[trigger] new_dk.entry_unchanged(old_dk, id2)
}

/// The state a successfully confirmed outgoing payment leaves behind:
/// only the bookkeeping counters of the one peer move.
pub open spec fn payment_sent_ok_post(
    old_dk: DebtKeeper,
    new_dk: DebtKeeper,
    ident: Identity,
    amount: int,
) -> bool {
    &&& new_dk.has_entry(ident)
    &&& new_dk.balance_of(ident) == old_dk.balance_of(ident)
    &&& new_dk.closed_of(ident) == old_dk.closed_of(ident)
    &&& new_dk.total_paid_of(ident) == old_dk.total_paid_of(ident) + amount
    &&& new_dk.total_received_of(ident) == old_dk.total_received_of(ident)
    &&& forall|id2: Identity| id2 != ident ==> #[trigger] new_dk.entry_unchanged(old_dk, id2)
}

impl DebtKeeper {
    /// Apply one charge. The balance moves by `debt.as_int()`; the
    /// thresholds are then checked on the updated balance. An `Err`
    /// comes exactly when the sum leaves the 256-bit range, and leaves
    /// the keeper untouched.
    pub fn apply_debt(&mut self, ident: Identity, debt: I256) -> (r: Result<
        Option<DebtAction>,
        Error,
    >)
        requires
            old(self).wf(),
            debt.wf(),
        ensures
            final(self).wf(),
            final(self).same_config(*old(self)),
            match r {
                Ok(action) => in_range(old(self).balance_of(ident) + debt.as_int())
                    && apply_debt_post(*old(self), *final(self), ident, debt.as_int(), action),
                Err(_) => !in_range(old(self).balance_of(ident) + debt.as_int()) && *final(self)
                    == *old(self),
            },
    {
        let pay = self.pay_threshold;
        let close = self.close_threshold;
        match self.find_index(&ident) {
            Some(i) => {
                let e = self.entries[i];
                proof {
                    assert(self.entries@[i as int].wf());
                }
                let nb = match e.balance.checked_add(&debt) {
                    Some(v) => v,
                    None => {
                        return Err(
                            Error::DebtKeeperError(String::from_str("balance out of range")),
                        );
                    },
                };
                let (action, left) = check_thresholds(nb, pay, close);
                let closed = match action {
                    Some(DebtAction::CloseTunnel) => true,
                    _ => e.closed_by_debt,
                };
                let e2 = DebtEntry { balance: left, closed_by_debt: closed, ..e };
                proof {
                    lemma_update_entry(self.entries@, i as int, e2);
                }
                self.entries.set(i, e2);
                Ok(action)
            },
            None => {
                // First mention: the entry starts at zero.
                let nb = debt;
                let (action, left) = check_thresholds(nb, pay, close);
                let closed = match action {
                    Some(DebtAction::CloseTunnel) => true,
                    _ => false,
                };
                let zero = I256::zero();
                let e2 = DebtEntry {
                    identity: ident,
                    balance: left,
                    total_paid: zero,
                    total_received: zero,
                    last_payment: zero,
                    closed_by_debt: closed,
                };
                self.insert_entry(e2);
                Ok(action)
            },
        }
    }

    /// Credit a payment the peer sent us: its debt to us shrinks, so
    /// the balance rises by `amount`. A tunnel closed over debt is
    /// reopened exactly when the new balance clears the hysteresis
    /// bar. An `Err` comes exactly
    /// when the balance or the received-total would leave the 256-bit
    /// range, and leaves the keeper untouched.
    pub fn payment_received(&mut self, ident: Identity, amount: I256) -> (r: Result<
        Option<DebtAction>,
        Error,
    >)
        requires
            old(self).wf(),
            amount.wf(),
            amount.as_int() >= 0,
        ensures
            final(self).wf(),
            final(self).same_config(*old(self)),
            match r {
                Ok(action) => in_range(old(self).balance_of(ident) + amount.as_int()) && in_range(
                    old(self).total_received_of(ident) + amount.as_int(),
                ) && payment_received_post(
                    *old(self),
                    *final(self),
                    ident,
                    amount.as_int(),
                    action,
                ),
                Err(_) => (!in_range(old(self).balance_of(ident) + amount.as_int()) || !in_range(
                    old(self).total_received_of(ident) + amount.as_int(),
                )) && *final(self) == *old(self),
            },
    {
        let close = self.close_threshold;
        let num = self.close_fraction_num;
        let den = self.close_fraction_den;
        match self.find_index(&ident) {
            Some(i) => {
                let e = self.entries[i];
                proof {
                    assert(self.entries@[i as int].wf());
                }
                let nb = match e.balance.checked_add(&amount) {
                    Some(v) => v,
                    None => {
                        return Err(
                            Error::DebtKeeperError(String::from_str("balance out of range")),
                        );
                    },
                };
                let received = match e.total_received.checked_add(&amount) {
                    Some(v) => v,
                    None => {
                        return Err(
                            Error::DebtKeeperError(
                                String::from_str("received total out of range"),
                            ),
                        );
                    },
                };
                let reopen = e.closed_by_debt && reopen_check(&nb, close, num, den);
                let action = if reopen {
                    Some(DebtAction::OpenTunnel)
                } else {
                    None
                };
                let e2 = DebtEntry {
                    balance: nb,
                    total_received: received,
                    closed_by_debt: e.closed_by_debt && !reopen,
                    ..e
                };
                proof {
                    lemma_update_entry(self.entries@, i as int, e2);
                }
                self.entries.set(i, e2);
                Ok(action)
            },
            None => {
                // First mention: the entry starts at zero and cannot be
                // in the closed-over-debt state.
                let nb = amount;
                let zero = I256::zero();
                let e2 = DebtEntry {
                    identity: ident,
                    balance: nb,
                    total_paid: zero,
                    total_received: amount,
                    last_payment: zero,
                    closed_by_debt: false,
                };
                self.insert_entry(e2);
                Ok(None)
            },
        }
    }

    /// Record the outcome of a payment we made. Success is a no-op on
    /// the balance (it was debited optimistically when the payment was
    /// ordered) and only moves the bookkeeping counters. Failure
    /// restores the amount to the balance and re-evaluates the
    /// thresholds, so the payment is ordered anew at once. An `Err`
    /// comes exactly when a sum leaves the 256-bit range, and leaves
    /// the keeper untouched.
    pub fn payment_sent(&mut self, ident: Identity, amount: I256, success: bool) -> (r: Result<
        Option<DebtAction>,
        Error,
    >)
        requires
            old(self).wf(),
            amount.wf(),
            amount.as_int() >= 0,
        ensures
            final(self).wf(),
            final(self).same_config(*old(self)),
            success ==> match r {
                Ok(action) => action == None::<DebtAction> && in_range(
                    old(self).total_paid_of(ident) + amount.as_int(),
                ) && payment_sent_ok_post(*old(self), *final(self), ident, amount.as_int()),
                Err(_) => !in_range(old(self).total_paid_of(ident) + amount.as_int())
                    && *final(self) == *old(self),
            },
            !success ==> match r {
                Ok(action) => in_range(old(self).balance_of(ident) + amount.as_int())
                    && apply_debt_post(*old(self), *final(self), ident, amount.as_int(), action),
                Err(_) => !in_range(old(self).balance_of(ident) + amount.as_int())
                    && *final(self) == *old(self),
            },
    {
        if !success {
            // The compensating action: the optimistic debit is undone.
            return self.apply_debt(ident, amount);
        }
        match self.find_index(&ident) {
            Some(i) => {
                let e = self.entries[i];
                proof {
                    assert(self.entries@[i as int].wf());
                }
                let paid = match e.total_paid.checked_add(&amount) {
                    Some(v) => v,
                    None => {
                        return Err(
                            Error::DebtKeeperError(String::from_str("paid total out of range")),
                        );
                    },
                };
                let e2 = DebtEntry { total_paid: paid, last_payment: amount, ..e };
                proof {
                    lemma_update_entry(self.entries@, i as int, e2);
                }
                self.entries.set(i, e2);
                Ok(None)
            },
            None => {
                let zero = I256::zero();
                let e2 = DebtEntry {
                    identity: ident,
                    balance: zero,
                    total_paid: amount,
                    total_received: zero,
                    last_payment: amount,
                    closed_by_debt: false,
                };
                self.insert_entry(e2);
                Ok(None)
            },
        }
    }

    /// A snapshot of every entry, in ascending identity order.
    pub fn get_debts_list(&self) -> (r: Vec<GetDebtsResult>)
        requires
            self.wf(),
        ensures
            r@.len() == self.entries@.len(),
            forall|i: int|
                0 <= i < r@.len() ==> #[trigger] r@[i] == (GetDebtsResult {
                    identity: self.entries@[i].identity,
                    balance: self.entries@[i].balance,
                    total_paid: self.entries@[i].total_paid,
                    total_received: self.entries@[i].total_received,
                }),
    {
        let n = self.entries.len();
        let mut out: Vec<GetDebtsResult> = Vec::new();
        let mut k: usize = 0;
        while k < n
            invariant
                n == self.entries@.len(),
                k <= n,
                out@.len() == k,
                forall|i: int|
                    0 <= i < k ==> #[trigger] out@[i] == (GetDebtsResult {
                        identity: self.entries@[i].identity,
                        balance: self.entries@[i].balance,
                        total_paid: self.entries@[i].total_paid,
                        total_received: self.entries@[i].total_received,
                    }),
            decreases n - k,
        {
            let e = self.entries[k];
            out.push(
                GetDebtsResult {
                    identity: e.identity,
                    balance: e.balance,
                    total_paid: e.total_paid,
                    total_received: e.total_received,
                },
            );
            k += 1;
        }
        out
    }
}

/// The sum of a run of charge amounts.
pub open spec fn sum_amounts(s: Seq<int>) -> int
    decreases s.len(),
{
    if s.len() == 0 {
        0
    } else {
        s[0] + sum_amounts(s.drop_first())
    }
}

/// The balance a run of charges leaves behind, starting from `b`, with
/// the optimistic reset applied whenever a charge lands the balance at
/// or above the payment threshold. This is exactly the balance clause
/// of `apply_debt_post`, folded over the run.
pub open spec fn run_charges(b: int, s: Seq<int>, pay: int) -> int
    decreases s.len(),
{
    if s.len() == 0 {
        b
    } else {
        run_charges(spec_balance_after(b + s[0], pay), s.drop_first(), pay)
    }
}

proof fn lemma_sum_take_shift(s: Seq<int>, m: int)
    requires
        1 <= m <= s.len(),
    ensures
        sum_amounts(s.take(m)) == s[0] + sum_amounts(s.drop_first().take(m - 1)),
{
    assert(s.take(m).drop_first() =~= s.drop_first().take(m - 1));
    assert(s.take(m)[0] == s[0]);
}

proof fn lemma_run_charges_no_reset(b: int, s: Seq<int>, pay: int)
    requires
        forall|k: int| 1 <= k <= s.len() ==> b + sum_amounts(#[trigger] s.take(k)) < pay,
    ensures
        run_charges(b, s, pay) == b + sum_amounts(s),
    decreases s.len(),
{
    if s.len() > 0 {
        lemma_sum_take_shift(s, 1);
        assert(s.drop_first().take(0) =~= Seq::<int>::empty());
        assert(b + sum_amounts(s.take(1)) < pay);
        let b2 = b + s[0];
        assert(spec_balance_after(b2, pay) == b2);
        assert forall|k: int| 1 <= k <= s.drop_first().len() implies b2 + sum_amounts(
            #[trigger] s.drop_first().take(k),
        ) < pay by {
            lemma_sum_take_shift(s, k + 1);
            assert(b + sum_amounts(s.take(k + 1)) < pay);
        }
        lemma_run_charges_no_reset(b2, s.drop_first(), pay);
    }
}

/// Law: debt is monotone under pure charges. Over any run of charges
/// none of which lifts the balance to the payment threshold (so no
/// payment and no optimistic reset happens; a close does not move the
/// balance), the final balance is exactly the sum of the amounts.
pub proof fn lemma_debt_monotone_under_charges(s: Seq<int>, pay: int)
    requires
        forall|k: int| 1 <= k <= s.len() ==> sum_amounts(#[trigger] s.take(k)) < pay,
    ensures
        run_charges(0, s, pay) == sum_amounts(s),
{
    lemma_run_charges_no_reset(0, s, pay);
}

/// Law: a charge and the matching received payment cancel in either
/// order: a charge of -x (the peer consumed x of our upstream) and a
/// payment of x received for it leave the balance where it began.
/// It holds whenever the balance stays below the payment threshold —
/// an optimistic reset in between would keep the paid amount off the
/// balance instead.
pub proof fn lemma_payment_commutes(b: int, x: int, pay: int)
    requires
        0 <= x,
        b < pay,
    ensures
        spec_balance_after(b - x, pay) + x == b,
        spec_balance_after((b + x) - x, pay) == b,
{
}

/// Law: close–pay hysteresis. An `OpenTunnel` can only follow a
/// received payment, only out of the closed-over-debt state, and only
/// once the new balance clears `close_threshold * close_fraction`.
pub proof fn lemma_close_pay_hysteresis(
    old_dk: DebtKeeper,
    new_dk: DebtKeeper,
    ident: Identity,
    amount: int,
    action: Option<DebtAction>,
)
    requires
        payment_received_post(old_dk, new_dk, ident, amount, action),
        action == Some(DebtAction::OpenTunnel),
    ensures
        old_dk.closed_of(ident),
        spec_reopen_ok(
            old_dk.balance_of(ident) + amount,
            old_dk.close_threshold as int,
            old_dk.close_fraction_num as int,
            old_dk.close_fraction_den as int,
        ),
{
}

/// Law: a charge never reopens a tunnel; reopening takes repayment.
pub proof fn lemma_charges_never_reopen(
    old_dk: DebtKeeper,
    new_dk: DebtKeeper,
    ident: Identity,
    amount: int,
    action: Option<DebtAction>,
)
    requires
        apply_debt_post(old_dk, new_dk, ident, amount, action),
    ensures
        action != Some(DebtAction::OpenTunnel),
{
}

/// Law: a charge that lands the balance exactly on the payment
/// threshold triggers a payment; one that lands it one below does not.
pub proof fn lemma_pay_threshold_boundary(
    old_dk: DebtKeeper,
    new_dk: DebtKeeper,
    ident: Identity,
    amount: int,
    action: Option<DebtAction>,
)
    requires
        apply_debt_post(old_dk, new_dk, ident, amount, action),
    ensures
        old_dk.balance_of(ident) + amount == old_dk.pay_threshold ==> (action matches Some(
            DebtAction::MakePayment(_),
        )),
        old_dk.balance_of(ident) + amount == old_dk.pay_threshold - 1 ==> !(action matches Some(
            DebtAction::MakePayment(_),
        )),
{
}

} // verus!
