//! Turns cumulative per-tunnel byte counters into per-peer charges.
//!
//! The watcher keeps the previous reading per identity and charges only
//! the positive delta: a counter that shrank (interface flap, counter
//! reset) contributes zero this tick and becomes the new baseline. A
//! reading from a fresher tunnel (a different version tag) also starts
//! from a zero baseline, so no traffic of a closed tunnel leaks into
//! the next one.

use vstd::prelude::*;

use crate::debt_keeper::DebtAdjustment;
use crate::identity::Identity;
use crate::int256::I256;

verus! {

/// One cumulative counter reading for a tunnel.
#[derive(Clone, Copy, PartialEq, Eq, Structural, Debug)]
pub struct CounterSample {
    pub identity: Identity,
    /// The version tag of the tunnel the reading came from.
    pub version: u64,
    /// Cumulative bytes received through the tunnel.
    pub ingress: u64,
    /// Cumulative bytes sent through the tunnel.
    pub egress: u64,
}

/// The stored previous reading for one identity.
#[derive(Clone, Copy, PartialEq, Eq, Structural, Debug)]
pub struct Baseline {
    pub identity: Identity,
    pub version: u64,
    pub prev_ingress: u64,
    pub prev_egress: u64,
}

pub open spec fn baselines_unique(s: Seq<Baseline>) -> bool {
    forall|i: int, j: int| 0 <= i < j < s.len() ==> s[i].identity != s[j].identity
}

pub open spec fn spec_has_baseline(s: Seq<Baseline>, id: Identity) -> bool {
    exists|i: int| 0 <= i < s.len() && s[i].identity == id
}

pub open spec fn spec_baseline(s: Seq<Baseline>, id: Identity) -> Baseline {
    s[choose|i: int| 0 <= i < s.len() && s[i].identity == id]
}

/// The positive delta of a cumulative counter: max(0, cur - prev).
pub open spec fn spec_delta(prev: int, cur: int) -> int {
    if cur >= prev {
        cur - prev
    } else {
        0
    }
}

/// The charge one tick's deltas earn:
/// ingress paid at the peer's route price, egress credited at our own.
/// Positive means our balance moves toward owing the peer.
pub open spec fn spec_charge(d_in: int, price_pay: int, d_out: int, price_charge: int) -> int {
    d_in * price_pay - d_out * price_charge
}

/// Law: counter deltas are never negative.
pub proof fn lemma_delta_nonneg(prev: int, cur: int)
    ensures
        spec_delta(prev, cur) >= 0,
{
}

/// Law: a wrapped-around counter (current below previous) charges
/// nothing this tick; the baseline becomes the current reading.
pub proof fn lemma_wraparound_charges_nothing(prev: int, cur: int, price_pay: int)
    requires
        cur < prev,
        price_pay >= 0,
    ensures
        spec_delta(prev, cur) * price_pay == 0,
{
}

/// Keeps the previous counter reading per identity and prices the
/// deltas.
pub struct TrafficWatcher {
    pub baselines: Vec<Baseline>,
}

impl TrafficWatcher {
    pub open spec fn wf(self) -> bool {
        baselines_unique(self.baselines@)
    }

    /// The reading the next sample of this identity and tunnel version
    /// is measured against: the stored one, or zero for an identity
    /// not seen yet or seen only through an older tunnel.
    pub open spec fn prev_ingress_of(self, id: Identity, version: u64) -> int {
        if spec_has_baseline(self.baselines@, id) && spec_baseline(self.baselines@, id).version
            == version {
            spec_baseline(self.baselines@, id).prev_ingress as int
        } else {
            0
        }
    }

    pub open spec fn prev_egress_of(self, id: Identity, version: u64) -> int {
        if spec_has_baseline(self.baselines@, id) && spec_baseline(self.baselines@, id).version
            == version {
            spec_baseline(self.baselines@, id).prev_egress as int
        } else {
            0
        }
    }

    /// Nothing recorded about `id` changed between the two states.
    pub open spec fn baseline_unchanged(self, other: TrafficWatcher, id: Identity) -> bool {
        &&& spec_has_baseline(self.baselines@, id) == spec_has_baseline(other.baselines@, id)
        &&& (spec_has_baseline(self.baselines@, id) ==> spec_baseline(self.baselines@, id)
            == spec_baseline(other.baselines@, id))
    }

    pub fn new() -> (r: TrafficWatcher)
        ensures
            r.wf(),
            r.baselines@.len() == 0,
    {
        TrafficWatcher { baselines: Vec::new() }
    }

    fn find_index(&self, id: &Identity) -> (r: Option<usize>)
        requires
            self.wf(),
        ensures
            match r {
                Some(i) => i < self.baselines@.len() && self.baselines@[i as int].identity == *id
                    && spec_baseline(self.baselines@, *id) == self.baselines@[i as int],
                None => !spec_has_baseline(self.baselines@, *id),
            },
    {
        let n = self.baselines.len();
        let mut k: usize = 0;
        while k < n
            invariant
                self.wf(),
                n == self.baselines@.len(),
                k <= n,
                forall|j: int| 0 <= j < k ==> #[trigger] self.baselines@[j].identity != *id,
            decreases n - k,
        {
            if self.baselines[k].identity == *id {
                proof {
                    let c = choose|c: int|
                        0 <= c < self.baselines@.len() && self.baselines@[c].identity == *id;
                    assert(self.baselines@[k as int].identity == *id);
                    if c != k {
                        assert(false);
                    }
                }
                return Some(k);
            }
            k += 1;
        }
        None
    }

    /// Take one reading: return the positive ingress and egress deltas
    /// against the stored baseline, and store the reading as the new
    /// baseline. A reading from a fresher tunnel version is measured
    /// against zero.
    pub fn sample(&mut self, s: CounterSample) -> (r: (u64, u64))
        requires
            old(self).wf(),
        ensures
            final(self).wf(),
            r.0 as int == spec_delta(
                old(self).prev_ingress_of(s.identity, s.version),
                s.ingress as int,
            ),
            r.1 as int == spec_delta(
                old(self).prev_egress_of(s.identity, s.version),
                s.egress as int,
            ),
            spec_has_baseline(final(self).baselines@, s.identity),
            spec_baseline(final(self).baselines@, s.identity) == (Baseline {
                identity: s.identity,
                version: s.version,
                prev_ingress: s.ingress,
                prev_egress: s.egress,
            }),
            forall|id2: Identity|
                id2 != s.identity ==> #[trigger] final(self).baseline_unchanged(*old(self), id2),
    {
        let fresh = Baseline {
            identity: s.identity,
            version: s.version,
            prev_ingress: s.ingress,
            prev_egress: s.egress,
        };
        match self.find_index(&s.identity) {
            Some(i) => {
                let b = self.baselines[i];
                let (prev_in, prev_out): (u64, u64) = if b.version == s.version {
                    (b.prev_ingress, b.prev_egress)
                } else {
                    (0, 0)
                };
                let d_in: u64 = if s.ingress >= prev_in {
                    s.ingress - prev_in
                } else {
                    0
                };
                let d_out: u64 = if s.egress >= prev_out {
                    s.egress - prev_out
                } else {
                    0
                };
                proof {
                    lemma_baseline_update(self.baselines@, i as int, fresh);
                }
                self.baselines.set(i, fresh);
                (d_in, d_out)
            },
            None => {
                proof {
                    lemma_baseline_push(self.baselines@, fresh);
                }
                self.baselines.push(fresh);
                (s.ingress, s.egress)
            },
        }
    }

    /// One watch tick: price every sample of the batch against the
    /// baselines and hand back the per-peer adjustments, in batch
    /// order. Each sample carries the route price we pay that peer;
    /// `price_we_charge` is our own. The batch holds at most one
    /// sample per identity.
    pub fn watch_tick(&mut self, samples: &Vec<(CounterSample, u64)>, price_we_charge: u64) -> (r:
        Vec<DebtAdjustment>)
        requires
            old(self).wf(),
            forall|i: int, j: int|
                0 <= i < j < samples@.len() ==> (#[trigger] samples@[i]).0.identity != (
                #[trigger] samples@[j]).0.identity,
        ensures
            final(self).wf(),
            r@.len() == samples@.len(),
            forall|i: int|
                0 <= i < r@.len() ==> (#[trigger] r@[i]).identity == samples@[i].0.identity,
            forall|i: int|
                0 <= i < r@.len() ==> (#[trigger] r@[i]).amount.wf() && r@[i].amount.as_int()
                    == spec_charge(
                    spec_delta(
                        old(self).prev_ingress_of(samples@[i].0.identity, samples@[i].0.version),
                        samples@[i].0.ingress as int,
                    ),
                    samples@[i].1 as int,
                    spec_delta(
                        old(self).prev_egress_of(samples@[i].0.identity, samples@[i].0.version),
                        samples@[i].0.egress as int,
                    ),
                    price_we_charge as int,
                ),
            forall|i: int|
                0 <= i < samples@.len() ==> spec_has_baseline(
                    final(self).baselines@,
                    (#[trigger] samples@[i]).0.identity,
                ) && spec_baseline(final(self).baselines@, samples@[i].0.identity) == (Baseline {
                    identity: samples@[i].0.identity,
                    version: samples@[i].0.version,
                    prev_ingress: samples@[i].0.ingress,
                    prev_egress: samples@[i].0.egress,
                }),
            forall|id2: Identity|
                (forall|i: int|
                    0 <= i < samples@.len() ==> (#[trigger] samples@[i]).0.identity != id2)
                    ==> #[trigger] final(self).baseline_unchanged(*old(self), id2),
    {
        let n = samples.len();
        let mut out: Vec<DebtAdjustment> = Vec::new();
        let mut k: usize = 0;
        while k < n
            invariant
                self.wf(),
                n == samples@.len(),
                k <= n,
                out@.len() == k,
                forall|i: int, j: int|
                    0 <= i < j < samples@.len() ==> (#[trigger] samples@[i]).0.identity != (
                    #[trigger] samples@[j]).0.identity,
                forall|i: int|
                    0 <= i < k ==> (#[trigger] out@[i]).identity == samples@[i].0.identity,
                forall|i: int|
                    0 <= i < k ==> (#[trigger] out@[i]).amount.wf() && out@[i].amount.as_int()
                        == spec_charge(
                        spec_delta(
                            old(self).prev_ingress_of(
                                samples@[i].0.identity,
                                samples@[i].0.version,
                            ),
                            samples@[i].0.ingress as int,
                        ),
                        samples@[i].1 as int,
                        spec_delta(
                            old(self).prev_egress_of(
                                samples@[i].0.identity,
                                samples@[i].0.version,
                            ),
                            samples@[i].0.egress as int,
                        ),
                        price_we_charge as int,
                    ),
                forall|i: int|
                    0 <= i < k ==> spec_has_baseline(
                        self.baselines@,
                        (#[trigger] samples@[i]).0.identity,
                    ) && spec_baseline(self.baselines@, samples@[i].0.identity) == (Baseline {
                        identity: samples@[i].0.identity,
                        version: samples@[i].0.version,
                        prev_ingress: samples@[i].0.ingress,
                        prev_egress: samples@[i].0.egress,
                    }),
                forall|id2: Identity|
                    (forall|i: int| 0 <= i < k ==> (#[trigger] samples@[i]).0.identity != id2)
                        ==> #[trigger] self.baseline_unchanged(*old(self), id2),
            decreases n - k,
        {
            let (s, price_we_pay) = samples[k];
            proof {
                assert forall|i: int| 0 <= i < k implies (#[trigger] samples@[i]).0.identity
                    != s.identity by {
                    assert(samples@[i].0.identity != samples@[k as int].0.identity);
                }
                // This identity was not touched yet this tick.
                assert(self.baseline_unchanged(*old(self), s.identity));
            }
            let ghost mid = *self;
            let (d_in, d_out) = self.sample(s);
            proof {
                assert(mid.prev_ingress_of(s.identity, s.version) == old(self).prev_ingress_of(
                    s.identity,
                    s.version,
                ));
                assert(mid.prev_egress_of(s.identity, s.version) == old(self).prev_egress_of(
                    s.identity,
                    s.version,
                ));
                assert forall|i: int| 0 <= i < k implies spec_has_baseline(
                    self.baselines@,
                    (#[trigger] samples@[i]).0.identity,
                ) && spec_baseline(self.baselines@, samples@[i].0.identity) == (Baseline {
                    identity: samples@[i].0.identity,
                    version: samples@[i].0.version,
                    prev_ingress: samples@[i].0.ingress,
                    prev_egress: samples@[i].0.egress,
                }) by {
                    assert(samples@[i].0.identity != s.identity);
                    assert(self.baseline_unchanged(mid, samples@[i].0.identity));
                }
                assert forall|id2: Identity|
                    (forall|i: int|
                        0 <= i < k + 1 ==> (#[trigger] samples@[i]).0.identity != id2) implies
                    #[trigger] self.baseline_unchanged(*old(self), id2) by {
                    assert(samples@[k as int].0.identity != id2);
                    assert(self.baseline_unchanged(mid, id2));
                    assert(mid.baseline_unchanged(*old(self), id2));
                }
            }
            let amount = compute_charge(d_in, price_we_pay, d_out, price_we_charge);
            out.push(DebtAdjustment { identity: s.identity, amount });
            k += 1;
        }
        out
    }
}

/// Replacing a baseline in place, identity kept, touches no other
/// identity's record.
proof fn lemma_baseline_update(s: Seq<Baseline>, i: int, b: Baseline)
    requires
        baselines_unique(s),
        0 <= i < s.len(),
        b.identity == s[i].identity,
    ensures
        baselines_unique(s.update(i, b)),
        spec_has_baseline(s.update(i, b), b.identity),
        spec_baseline(s.update(i, b), b.identity) == b,
        forall|id2: Identity|
            id2 != b.identity ==> #[trigger] spec_has_baseline(s.update(i, b), id2)
                == spec_has_baseline(s, id2),
        forall|id2: Identity|
            id2 != b.identity && spec_has_baseline(s, id2) ==> #[trigger] spec_baseline(
                s.update(i, b),
                id2,
            ) == spec_baseline(s, id2),
{
    let t = s.update(i, b);
    assert(t[i].identity == b.identity);
    assert forall|id2: Identity| id2 != b.identity implies #[trigger] spec_has_baseline(t, id2)
        == spec_has_baseline(s, id2) by {
        if spec_has_baseline(s, id2) {
            let j = choose|j: int| 0 <= j < s.len() && s[j].identity == id2;
            assert(t[j].identity == id2);
        }
        if spec_has_baseline(t, id2) {
            let j = choose|j: int| 0 <= j < t.len() && t[j].identity == id2;
            assert(s[j].identity == id2);
        }
    }
    assert forall|id2: Identity|
        id2 != b.identity && spec_has_baseline(s, id2) implies #[trigger] spec_baseline(t, id2)
        == spec_baseline(s, id2) by {
        let j = choose|j: int| 0 <= j < s.len() && s[j].identity == id2;
        assert(0 <= j < s.len() && s[j].identity == id2);
        assert(t[j].identity == id2);
        let k = choose|k: int| 0 <= k < t.len() && t[k].identity == id2;
        assert(0 <= k < t.len() && t[k].identity == id2);
        assert(k != i);
        assert(s[k].identity == id2);
        if j != k {
            assert(false);
        }
    }
    let c = choose|c: int| 0 <= c < t.len() && t[c].identity == b.identity;
    if c != i {
        assert(s[c].identity == b.identity);
        assert(false);
    }
}

/// Appending a record for a fresh identity touches no other identity's
/// record.
proof fn lemma_baseline_push(s: Seq<Baseline>, b: Baseline)
    requires
        baselines_unique(s),
        !spec_has_baseline(s, b.identity),
    ensures
        baselines_unique(s.push(b)),
        spec_has_baseline(s.push(b), b.identity),
        spec_baseline(s.push(b), b.identity) == b,
        forall|id2: Identity|
            id2 != b.identity ==> #[trigger] spec_has_baseline(s.push(b), id2)
                == spec_has_baseline(s, id2),
        forall|id2: Identity|
            id2 != b.identity && spec_has_baseline(s, id2) ==> #[trigger] spec_baseline(
                s.push(b),
                id2,
            ) == spec_baseline(s, id2),
{
    let t = s.push(b);
    assert(t[s.len() as int].identity == b.identity);
    assert forall|id2: Identity| id2 != b.identity implies #[trigger] spec_has_baseline(t, id2)
        == spec_has_baseline(s, id2) by {
        if spec_has_baseline(s, id2) {
            let j = choose|j: int| 0 <= j < s.len() && s[j].identity == id2;
            assert(t[j].identity == id2);
        }
        if spec_has_baseline(t, id2) {
            let j = choose|j: int| 0 <= j < t.len() && t[j].identity == id2;
            assert(j < s.len());
            assert(s[j].identity == id2);
        }
    }
    assert forall|id2: Identity|
        id2 != b.identity && spec_has_baseline(s, id2) implies #[trigger] spec_baseline(t, id2)
        == spec_baseline(s, id2) by {
        let j = choose|j: int| 0 <= j < s.len() && s[j].identity == id2;
        assert(0 <= j < s.len() && s[j].identity == id2);
        assert(t[j].identity == id2);
        let k = choose|k: int| 0 <= k < t.len() && t[k].identity == id2;
        assert(0 <= k < t.len() && t[k].identity == id2);
        assert(k < s.len());
        if j != k {
            assert(false);
        }
    }
    let c = choose|c: int| 0 <= c < t.len() && t[c].identity == b.identity;
    if c != s.len() {
        assert(s[c].identity == b.identity);
        assert(false);
    }
}

/// Price one tick's deltas. The products fit: both factors are 64-bit.
pub fn compute_charge(d_in: u64, price_we_pay: u64, d_out: u64, price_we_charge: u64) -> (r: I256)
    ensures
        r.wf(),
        r.as_int() == spec_charge(
            d_in as int,
            price_we_pay as int,
            d_out as int,
            price_we_charge as int,
        ),
{
    proof {
        assert((d_in as int) * (price_we_pay as int) < 0x100000000000000000000000000000000int)
            by (nonlinear_arith)
            requires d_in < 0x10000000000000000int, price_we_pay < 0x10000000000000000int;
        assert((d_out as int) * (price_we_charge as int) < 0x100000000000000000000000000000000int)
            by (nonlinear_arith)
            requires d_out < 0x10000000000000000int, price_we_charge < 0x10000000000000000int;
    }
    let paid: u128 = (d_in as u128) * (price_we_pay as u128);
    let earned: u128 = (d_out as u128) * (price_we_charge as u128);
    I256::from_diff_u128(paid, earned)
}

} // verus!
