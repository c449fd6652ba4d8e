//! Link-local peer discovery bookkeeping.
//!
//! The sockets live outside; this is the state they consult. An
//! interface is enrolled with `listen` (idempotent, and refused until
//! the link has a usable link-local address), leaves with `unlisten`,
//! and a freshly converted mesh interface waits out a settling delay
//! before its observations flow. Within one interval duplicate
//! observations of the same identity collapse to a single event, and a
//! peer not seen for the timeout expires from the cache.

use vstd::prelude::*;

use crate::identity::Identity;

verus! {

/// One peer seen on a link: the payload of a discovery hello together
/// with where it was heard.
#[derive(Clone, Debug, PartialEq)]
pub struct PeerObserved {
    pub identity: Identity,
    /// The peer's link-local address, as 16 bytes.
    pub link_local_addr: u128,
    /// The wireguard port the peer announced.
    pub wg_port: u16,
    /// The interface the hello arrived on.
    pub iface: String,
}

/// An enrolled interface.
#[derive(Clone, Debug)]
pub struct IfaceState {
    pub name: String,
    /// Observations on this interface are queued until this tick: a
    /// freshly converted mesh link needs time to settle.
    pub ready_at: u64,
}

/// A cached peer and when it was last heard.
#[derive(Clone, Copy, PartialEq, Eq, Structural, Debug)]
pub struct CachedPeer {
    pub identity: Identity,
    pub last_seen: u64,
}

/// Enrolling an interface can fail only one way.
#[derive(Clone, Copy, PartialEq, Eq, Structural, Debug)]
pub enum ListenError {
    /// The interface has no usable link-local address yet; the caller
    /// retries later.
    AddressNotReady,
}

pub open spec fn spec_enrolled(s: Seq<IfaceState>, name: Seq<char>) -> bool {
    exists|i: int| 0 <= i < s.len() && s[i].name@ == name
}

pub open spec fn spec_iface(s: Seq<IfaceState>, name: Seq<char>) -> IfaceState {
    s[choose|i: int| 0 <= i < s.len() && s[i].name@ == name]
}

pub open spec fn ifaces_unique(s: Seq<IfaceState>) -> bool {
    forall|i: int, j: int| 0 <= i < j < s.len() ==> s[i].name@ != s[j].name@
}

pub open spec fn spec_seen(s: Seq<Identity>, id: Identity) -> bool {
    exists|i: int| 0 <= i < s.len() && s[i] == id
}

/// Performs the bookkeeping of discovery: enrollment, settling delays,
/// per-interval deduplication and peer expiry.
pub struct PeerListener {
    pub ifaces: Vec<IfaceState>,
    /// Identities already emitted this interval.
    pub seen_this_interval: Vec<Identity>,
    /// Observations held back while their interface settles.
    pub queued: Vec<PeerObserved>,
    /// Every peer heard recently, for expiry.
    pub peers: Vec<CachedPeer>,
    /// Ticks between hello broadcasts; a peer expires after three of
    /// these without being heard.
    pub hello_interval: u64,
}

impl PeerListener {
    pub open spec fn wf(self) -> bool {
        &&& ifaces_unique(self.ifaces@)
        &&& self.hello_interval >= 1
        &&& self.hello_interval <= 0x1000000000000000
    }

    pub open spec fn enrolled(self, name: Seq<char>) -> bool {
        spec_enrolled(self.ifaces@, name)
    }

    pub open spec fn ready_at_of(self, name: Seq<char>) -> u64 {
        spec_iface(self.ifaces@, name).ready_at
    }

    pub fn new(hello_interval: u64) -> (r: PeerListener)
        requires
            1 <= hello_interval <= 0x1000000000000000,
        ensures
            r.wf(),
            r.ifaces@.len() == 0,
            r.queued@.len() == 0,
            r.seen_this_interval@.len() == 0,
            r.peers@.len() == 0,
            r.hello_interval == hello_interval,
    {
        PeerListener {
            ifaces: Vec::new(),
            seen_this_interval: Vec::new(),
            queued: Vec::new(),
            peers: Vec::new(),
            hello_interval,
        }
    }

    fn find_iface(&self, name: &String) -> (r: Option<usize>)
        requires
            self.wf(),
        ensures
            match r {
                Some(i) => i < self.ifaces@.len() && self.ifaces@[i as int].name@ == name@
                    && spec_iface(self.ifaces@, name@) == self.ifaces@[i as int],
                None => !self.enrolled(name@),
            },
    {
        let n = self.ifaces.len();
        let mut k: usize = 0;
        while k < n
            invariant
                self.wf(),
                n == self.ifaces@.len(),
                k <= n,
                forall|j: int| 0 <= j < k ==> #[trigger] self.ifaces@[j].name@ != name@,
            decreases n - k,
        {
            if self.ifaces[k].name == *name {
                proof {
                    let c = choose|c: int|
                        0 <= c < self.ifaces@.len() && self.ifaces@[c].name@ == name@;
                    if c != k {
                        assert(false);
                    }
                }
                return Some(k);
            }
            k += 1;
        }
        None
    }

    /// Enroll an interface. Idempotent: an already-enrolled interface
    /// keeps its state. Refused exactly when the link has no usable
    /// link-local address yet. Observations on the interface are held
    /// back until `ready_at`.
    pub fn listen(&mut self, name: String, has_link_local: bool, ready_at: u64) -> (r: Result<
        (),
        ListenError,
    >)
        requires
            old(self).wf(),
        ensures
            final(self).wf(),
            final(self).hello_interval == old(self).hello_interval,
            final(self).queued@ == old(self).queued@,
            final(self).seen_this_interval@ == old(self).seen_this_interval@,
            final(self).peers@ == old(self).peers@,
            match r {
                Ok(()) => has_link_local && final(self).enrolled(name@) && (if old(self).enrolled(
                    name@,
                ) {
                    final(self).ifaces@ == old(self).ifaces@
                } else {
                    final(self).ifaces@ == old(self).ifaces@.push(
                        IfaceState { name, ready_at },
                    )
                }),
                Err(ListenError::AddressNotReady) => !has_link_local && *final(self) == *old(self),
            },
    {
        if !has_link_local {
            return Err(ListenError::AddressNotReady);
        }
        match self.find_iface(&name) {
            Some(_) => Ok(()),
            None => {
                let ghost nv = name@;
                self.ifaces.push(IfaceState { name, ready_at });
                proof {
                    assert(self.ifaces@[self.ifaces@.len() - 1].name@ == nv);
                }
                Ok(())
            },
        }
    }

    /// Remove an enrollment and drop the cached observations that
    /// arrived on that interface. Reports whether the interface was
    /// enrolled.
    pub fn unlisten(&mut self, name: &String) -> (r: bool)
        requires
            old(self).wf(),
        ensures
            final(self).wf(),
            final(self).hello_interval == old(self).hello_interval,
            final(self).seen_this_interval@ == old(self).seen_this_interval@,
            final(self).peers@ == old(self).peers@,
            r == old(self).enrolled(name@),
            !final(self).enrolled(name@),
            forall|n2: Seq<char>|
                n2 != name@ ==> #[trigger] final(self).enrolled(n2) == old(self).enrolled(n2),
            final(self).queued@ == old(self).queued@.filter(
                |p: PeerObserved| p.iface@ != name@,
            ),
    {
        let r = match self.find_iface(name) {
            Some(i) => {
                proof {
                    lemma_ifaces_remove(self.ifaces@, i as int);
                }
                self.ifaces.remove(i);
                true
            },
            None => false,
        };
        let n = self.queued.len();
        let mut kept: Vec<PeerObserved> = Vec::new();
        let mut k: usize = 0;
        proof {
            assert(self.queued@.take(0) =~= Seq::<PeerObserved>::empty());
            Seq::<PeerObserved>::empty().lemma_filter_len(|p: PeerObserved| p.iface@ != name@);
        }
        while k < n
            invariant
                n == self.queued@.len(),
                k <= n,
                kept@ =~= self.queued@.take(k as int).filter(
                    |p: PeerObserved| p.iface@ != name@,
                ),
            decreases n - k,
        {
            let keep = !(self.queued[k].iface == *name);
            if keep {
                let p = PeerObserved {
                    identity: self.queued[k].identity,
                    link_local_addr: self.queued[k].link_local_addr,
                    wg_port: self.queued[k].wg_port,
                    iface: self.queued[k].iface.clone(),
                };
                proof {
                    assert(p == self.queued@[k as int]);
                }
                kept.push(p);
            }
            proof {
                let pred = |p: PeerObserved| p.iface@ != name@;
                assert(self.queued@.take(k + 1) =~= self.queued@.take(k as int).push(
                    self.queued@[k as int],
                ));
                self.queued@.take(k as int).lemma_filter_push(self.queued@[k as int], pred);
            }
            k += 1;
        }
        proof {
            assert(self.queued@.take(n as int) =~= self.queued@);
        }
        self.queued = kept;
        r
    }

    /// Record one received hello. The event comes back exactly when
    /// the interface is enrolled, its settling delay is over, and the
    /// identity was not already emitted this interval; an observation
    /// during the delay is queued for a later tick instead.
    pub fn observe(
        &mut self,
        identity: Identity,
        link_local_addr: u128,
        wg_port: u16,
        iface: &String,
        now: u64,
    ) -> (r: Option<PeerObserved>)
        requires
            old(self).wf(),
        ensures
            final(self).wf(),
            final(self).hello_interval == old(self).hello_interval,
            final(self).ifaces@ == old(self).ifaces@,
            match r {
                Some(ev) => old(self).enrolled(iface@) && old(self).ready_at_of(iface@) <= now
                    && !spec_seen(old(self).seen_this_interval@, identity) && ev
                    == (PeerObserved { identity, link_local_addr, wg_port, iface: *iface })
                    && final(self).seen_this_interval@ == old(self).seen_this_interval@.push(
                    identity,
                ) && final(self).queued@ == old(self).queued@ && final(self).peers@ == old(self).peers@.push(CachedPeer { identity, last_seen: now }),
                None => final(self).seen_this_interval@ == old(self).seen_this_interval@ && final(self).peers@ == old(self).peers@ && (if old(self).enrolled(iface@) && old(self).ready_at_of(iface@) > now {
                    final(self).queued@ == old(self).queued@.push(
                        PeerObserved { identity, link_local_addr, wg_port, iface: *iface },
                    )
                } else {
                    final(self).queued@ == old(self).queued@ && (old(self).enrolled(iface@)
                        ==> spec_seen(old(self).seen_this_interval@, identity))
                }),
            },
    {
        match self.find_iface(iface) {
            None => None,
            Some(i) => {
                let ready_at = self.ifaces[i].ready_at;
                let ev = PeerObserved {
                    identity,
                    link_local_addr,
                    wg_port,
                    iface: iface.clone(),
                };
                if ready_at > now {
                    // The link is still settling: hold the event back.
                    self.queued.push(ev);
                    None
                } else if self.seen_in_interval(&identity) {
                    // Duplicate within the interval: a single emission.
                    None
                } else {
                    self.seen_this_interval.push(identity);
                    self.peers.push(CachedPeer { identity, last_seen: now });
                    Some(ev)
                }
            },
        }
    }

    fn seen_in_interval(&self, id: &Identity) -> (r: bool)
        ensures
            r == spec_seen(self.seen_this_interval@, *id),
    {
        let n = self.seen_this_interval.len();
        let mut k: usize = 0;
        while k < n
            invariant
                n == self.seen_this_interval@.len(),
                k <= n,
                forall|j: int| 0 <= j < k ==> #[trigger] self.seen_this_interval@[j] != *id,
            decreases n - k,
        {
            if self.seen_this_interval[k] == *id {
                return true;
            }
            k += 1;
        }
        false
    }

    /// Start a new interval: the per-interval duplicate set empties,
    /// and peers unheard for three hello intervals expire from the
    /// cache. The queued observations stay until `flush_queued`.
    pub fn tick(&mut self, now: u64)
        requires
            old(self).wf(),
        ensures
            final(self).wf(),
            final(self).hello_interval == old(self).hello_interval,
            final(self).ifaces@ == old(self).ifaces@,
            final(self).queued@ == old(self).queued@,
            final(self).seen_this_interval@.len() == 0,
            final(self).peers@ == old(self).peers@.filter(
                |p: CachedPeer| p.last_seen + 3 * old(self).hello_interval > now,
            ),
    {
        self.seen_this_interval = Vec::new();
        let ghost hello = self.hello_interval;
        let timeout = 3 * self.hello_interval;
        let n = self.peers.len();
        let mut kept: Vec<CachedPeer> = Vec::new();
        let mut k: usize = 0;
        proof {
            Seq::<CachedPeer>::empty().lemma_filter_len(
                |p: CachedPeer| p.last_seen + 3 * hello > now,
            );
            assert(self.peers@.take(0) =~= Seq::<CachedPeer>::empty());
        }
        while k < n
            invariant
                n == self.peers@.len(),
                k <= n,
                timeout == 3 * hello,
                hello <= 0x1000000000000000,
                kept@ =~= self.peers@.take(k as int).filter(
                    |p: CachedPeer| p.last_seen + 3 * hello > now,
                ),
            decreases n - k,
        {
            let p = self.peers[k];
            // last_seen + timeout cannot overflow: both stay well below
            // the 64-bit range.
            let alive = if p.last_seen <= u64::MAX - timeout {
                p.last_seen + timeout > now
            } else {
                true
            };
            if alive {
                kept.push(p);
            }
            proof {
                let pred = |q: CachedPeer| q.last_seen + 3 * hello > now;
                assert(alive == pred(p));
                assert(self.peers@.take(k + 1) =~= self.peers@.take(k as int).push(
                    self.peers@[k as int],
                ));
                self.peers@.take(k as int).lemma_filter_push(p, pred);
            }
            k += 1;
        }
        proof {
            assert(self.peers@.take(n as int) =~= self.peers@);
        }
        self.peers = kept;
    }

    /// Hand out the queued observations whose interface has finished
    /// settling and is still enrolled, deduplicated against (and
    /// recorded in) the current interval; the rest stay queued.
    pub fn flush_queued(&mut self, now: u64) -> (r: Vec<PeerObserved>)
        requires
            old(self).wf(),
        ensures
            final(self).wf(),
            final(self).hello_interval == old(self).hello_interval,
            final(self).ifaces@ == old(self).ifaces@,
            // Emitted identities are pairwise distinct and none was
            // already emitted this interval: one emission per peer.
            forall|i: int, j: int| 0 <= i < j < r@.len() ==> r@[i].identity != r@[j].identity,
            forall|i: int|
                0 <= i < r@.len() ==> !spec_seen(
                    old(self).seen_this_interval@,
                    (#[trigger] r@[i]).identity,
                ),
            // Every emitted event was queued, on an interface that is
            // enrolled and done settling.
            forall|i: int|
                0 <= i < r@.len() ==> (exists|j: int|
                    0 <= j < old(self).queued@.len() && (#[trigger] r@[i]) == old(self).queued@[j])
                    && old(self).enrolled(r@[i].iface@) && old(self).ready_at_of(r@[i].iface@)
                    <= now,
            // What stays queued was queued before, on an interface
            // still settling.
            forall|i: int|
                0 <= i < final(self).queued@.len() ==> (exists|j: int|
                    0 <= j < old(self).queued@.len() && (#[trigger] final(self).queued@[i]) == old(self).queued@[j]) && old(self).enrolled(final(self).queued@[i].iface@) && old(self).ready_at_of(final(self).queued@[i].iface@) > now,
            // Every queued event whose interface is enrolled and done
            // settling gets its identity onto the interval: it or a
            // duplicate of it is emitted now (or was earlier).
            forall|j: int|
                0 <= j < old(self).queued@.len() && old(self).enrolled(
                    (#[trigger] old(self).queued@[j]).iface@,
                ) && old(self).ready_at_of(old(self).queued@[j].iface@) <= now ==> spec_seen(
                    final(self).seen_this_interval@,
                    old(self).queued@[j].identity,
                ),
            forall|id2: Identity|
                spec_seen(old(self).seen_this_interval@, id2) ==> spec_seen(
                    final(self).seen_this_interval@,
                    id2,
                ),
            // A queued hello that is deliverable now — enrolled, delay
            // over, identity not yet on the interval — is delivered:
            // the result carries its identity.
            forall|j: int|
                0 <= j < old(self).queued@.len() && old(self).enrolled(
                    (#[trigger] old(self).queued@[j]).iface@,
                ) && old(self).ready_at_of(old(self).queued@[j].iface@) <= now && !spec_seen(
                    old(self).seen_this_interval@,
                    old(self).queued@[j].identity,
                ) ==> exists|i: int|
                    0 <= i < r@.len() && r@[i].identity == old(self).queued@[j].identity,
    {
        let mut moved: Vec<PeerObserved> = Vec::new();
        core::mem::swap(&mut moved, &mut self.queued);
        let n = moved.len();
        let mut out: Vec<PeerObserved> = Vec::new();
        let mut k: usize = 0;
        while k < n
            invariant
                self.wf(),
                self.hello_interval == old(self).hello_interval,
                self.ifaces@ == old(self).ifaces@,
                n == moved@.len(),
                k <= n,
                forall|i: int|
                    0 <= i < out@.len() ==> spec_seen(
                        self.seen_this_interval@,
                        (#[trigger] out@[i]).identity,
                    ),
                forall|i: int, j: int|
                    0 <= i < j < out@.len() ==> out@[i].identity != out@[j].identity,
                forall|i: int|
                    0 <= i < out@.len() ==> !spec_seen(
                        old(self).seen_this_interval@,
                        (#[trigger] out@[i]).identity,
                    ),
                forall|i: int|
                    0 <= i < out@.len() ==> (exists|j: int|
                        0 <= j < moved@.len() && (#[trigger] out@[i]) == moved@[j]) && old(self).enrolled(out@[i].iface@) && old(self).ready_at_of(out@[i].iface@) <= now,
                forall|i: int|
                    0 <= i < self.queued@.len() ==> (exists|j: int|
                        0 <= j < moved@.len() && (#[trigger] self.queued@[i]) == moved@[j]) && old(self).enrolled(self.queued@[i].iface@) && old(self).ready_at_of(
                        self.queued@[i].iface@,
                    ) > now,
                forall|i: int|
                    spec_seen(old(self).seen_this_interval@, #[trigger] self.seen_this_interval@[i])
                        || spec_seen(out@.map_values(|p: PeerObserved| p.identity), self.seen_this_interval@[i])
                        || !(0 <= i < self.seen_this_interval@.len()),
                forall|id2: Identity|
                    spec_seen(old(self).seen_this_interval@, id2) ==> spec_seen(
                        self.seen_this_interval@,
                        id2,
                    ),
                forall|j: int|
                    0 <= j < k && old(self).enrolled((#[trigger] moved@[j]).iface@) && old(self).ready_at_of(moved@[j].iface@) <= now ==> spec_seen(
                        self.seen_this_interval@,
                        moved@[j].identity,
                    ),
                forall|j: int|
                    0 <= j < k && old(self).enrolled((#[trigger] moved@[j]).iface@) && old(self).ready_at_of(moved@[j].iface@) <= now && !spec_seen(
                        old(self).seen_this_interval@,
                        moved@[j].identity,
                    ) ==> exists|i: int|
                        0 <= i < out@.len() && out@[i].identity == moved@[j].identity,
            decreases n - k,
        {
            let ev = &moved[k];
            match self.find_iface(&ev.iface) {
                None => {
                    // The interface left while the event waited: drop it.
                },
                Some(i) => {
                    let ready_at = self.ifaces[i].ready_at;
                    let copy = PeerObserved {
                        identity: ev.identity,
                        link_local_addr: ev.link_local_addr,
                        wg_port: ev.wg_port,
                        iface: ev.iface.clone(),
                    };
                    proof {
                        assert(copy == moved@[k as int]);
                    }
                    if ready_at > now {
                        self.queued.push(copy);
                    } else if !self.seen_in_interval(&ev.identity) {
                        proof {
                            if spec_seen(old(self).seen_this_interval@, copy.identity) {
                                assert(spec_seen(self.seen_this_interval@, copy.identity));
                            }
                            assert forall|i2: int| 0 <= i2 < out@.len() implies (
                            #[trigger] out@[i2]).identity != copy.identity by {
                                assert(spec_seen(self.seen_this_interval@, out@[i2].identity));
                            }
                            lemma_seen_push(self.seen_this_interval@, copy.identity);
                        }
                        self.seen_this_interval.push(ev.identity);
                        proof {
                            let m2 = out@.push(copy).map_values(|p: PeerObserved| p.identity);
                            assert forall|i2: int|
                                0 <= i2 < self.seen_this_interval@.len() implies spec_seen(
                                old(self).seen_this_interval@,
                                #[trigger] self.seen_this_interval@[i2],
                            ) || spec_seen(m2, self.seen_this_interval@[i2]) by {
                                if i2 < self.seen_this_interval@.len() - 1 {
                                    let prev = out@.map_values(|p: PeerObserved| p.identity);
                                    if spec_seen(prev, self.seen_this_interval@[i2]) {
                                        let w = choose|w: int|
                                            0 <= w < prev.len() && prev[w]
                                                == self.seen_this_interval@[i2];
                                        assert(m2[w] == self.seen_this_interval@[i2]);
                                    }
                                } else {
                                    assert(m2[m2.len() - 1] == copy.identity);
                                }
                            }
                        }
                        let ghost out_pre = out@;
                        out.push(copy);
                        proof {
                            // The event just delivered, and every one
                            // delivered before, stands in the result.
                            assert(out@[out@.len() - 1].identity == moved@[k as int].identity);
                            assert forall|j: int|
                                0 <= j < k && old(self).enrolled(
                                    (#[trigger] moved@[j]).iface@,
                                ) && old(self).ready_at_of(moved@[j].iface@) <= now && !spec_seen(
                                    old(self).seen_this_interval@,
                                    moved@[j].identity,
                                ) implies exists|i2: int|
                                0 <= i2 < out@.len() && out@[i2].identity
                                    == moved@[j].identity by {
                                let wi = choose|wi: int|
                                    0 <= wi < out_pre.len() && out_pre[wi].identity
                                        == moved@[j].identity;
                                assert(out@[wi].identity == moved@[j].identity);
                            }
                        }
                    } else {
                        proof {
                            // A duplicate of an event delivered this
                            // interval: its identity already stands in
                            // the result or stood on the interval.
                            if !spec_seen(old(self).seen_this_interval@, copy.identity) {
                                let i2 = choose|i2: int|
                                    0 <= i2 < self.seen_this_interval@.len()
                                        && self.seen_this_interval@[i2] == copy.identity;
                                let prev = out@.map_values(|p: PeerObserved| p.identity);
                                assert(spec_seen(prev, self.seen_this_interval@[i2]));
                                let w = choose|w: int|
                                    0 <= w < prev.len() && prev[w] == copy.identity;
                                assert(out@[w].identity == copy.identity);
                            }
                        }
                    }
                },
            }
            k += 1;
        }
        out
    }
}


/// Recording one identity keeps every previously recorded one.
proof fn lemma_seen_push(s: Seq<Identity>, x: Identity)
    ensures
        forall|id: Identity| spec_seen(s, id) ==> spec_seen(s.push(x), id),
        spec_seen(s.push(x), x),
        forall|id: Identity| spec_seen(s.push(x), id) ==> spec_seen(s, id) || id == x,
{
    assert(s.push(x)[s.len() as int] == x);
    assert forall|id: Identity| spec_seen(s, id) implies spec_seen(s.push(x), id) by {
        let w = choose|w: int| 0 <= w < s.len() && s[w] == id;
        assert(s.push(x)[w] == id);
    }
    assert forall|id: Identity| spec_seen(s.push(x), id) implies spec_seen(s, id) || id == x by {
        let w = choose|w: int| 0 <= w < s.push(x).len() && s.push(x)[w] == id;
        if w < s.len() {
            assert(s[w] == id);
        }
    }
}

/// Removing an interface by index keeps the others enrolled.
proof fn lemma_ifaces_remove(s: Seq<IfaceState>, i: int)
    requires
        ifaces_unique(s),
        0 <= i < s.len(),
    ensures
        ifaces_unique(s.remove(i)),
        !spec_enrolled(s.remove(i), s[i].name@),
        forall|n2: Seq<char>|
            n2 != s[i].name@ ==> #[trigger] spec_enrolled(s.remove(i), n2) == spec_enrolled(s, n2),
{
    let t = s.remove(i);
    if spec_enrolled(t, s[i].name@) {
        let j = choose|j: int| 0 <= j < t.len() && t[j].name@ == s[i].name@;
        if j < i {
            assert(s[j].name@ == s[i].name@);
            assert(false);
        } else {
            assert(s[j + 1].name@ == s[i].name@);
            assert(false);
        }
    }
    assert forall|n2: Seq<char>| n2 != s[i].name@ implies #[trigger] spec_enrolled(t, n2)
        == spec_enrolled(s, n2) by {
        if spec_enrolled(s, n2) {
            let j = choose|j: int| 0 <= j < s.len() && s[j].name@ == n2;
            if j < i {
                assert(t[j].name@ == n2);
            } else {
                assert(t[j - 1].name@ == n2);
            }
        }
        if spec_enrolled(t, n2) {
            let j = choose|j: int| 0 <= j < t.len() && t[j].name@ == n2;
            if j < i {
                assert(s[j].name@ == n2);
            } else {
                assert(s[j + 1].name@ == n2);
            }
        }
    }
}

/// Law: within one interval, a duplicate observation of the same
/// identity is not emitted a second time: the first emission records
/// the identity, and a recorded identity comes back `None`.
pub proof fn lemma_duplicate_observation_single_emission(
    pl0: PeerListener,
    pl1: PeerListener,
    ev: PeerObserved,
    id: Identity,
)
    requires
        // After an emission for `id` ...
        ev.identity == id,
        pl1.seen_this_interval@ == pl0.seen_this_interval@.push(id),
    ensures
        // ... the interval set holds `id`, so a second `observe` of the
        // same identity in this interval cannot emit again.
        spec_seen(pl1.seen_this_interval@, id),
{
    assert(pl1.seen_this_interval@[pl1.seen_this_interval@.len() - 1] == id);
}

} // verus!
