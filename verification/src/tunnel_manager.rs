//! Owns the set of live encrypted tunnels and the pools they draw on.
//!
//! Every tunnel takes one local UDP port from the configured range and
//! one tunnel interface name (held here as the small integer in
//! `wg<n>`). The manager enforces the two structural rules of the
//! engine: at most one tunnel per identity — a fresher handshake from
//! the same identity supersedes the old tunnel — and pool
//! conservation: free and allocated ports (and interface numbers)
//! together always form exactly the initial pool. Installing a tunnel
//! in the kernel happens outside; the manager is the bookkeeping state
//! machine those steps consult.

use vstd::prelude::*;

use crate::identity::Identity;
use vstd::multiset::Multiset;

verus! {

broadcast use vstd::seq_lib::group_to_multiset_ensures;

/// One live (pending or active) tunnel.
#[derive(Clone, Debug)]
pub struct Tunnel {
    pub identity: Identity,
    /// The small integer in the local interface name `wg<n>`.
    pub ifindex: u64,
    /// The local UDP port the tunnel listens on.
    pub port: u16,
    /// The peer's link-local address, as 16 bytes.
    pub endpoint_addr: u128,
    /// The peer's wireguard port.
    pub endpoint_port: u16,
    /// The name of the underlying link the peer was discovered on.
    pub listen_iface: String,
    /// When the tunnel was installed, in ticks.
    pub created_at: u64,
    /// When the peer was last seen, in ticks.
    pub last_seen: u64,
    /// False while the handshake is pending, true once installed.
    pub active: bool,
    /// The version tag carried by counter samples, so a sample from a
    /// superseded tunnel is recognized as stale.
    pub version: u64,
}

pub open spec fn tunnels_unique(s: Seq<Tunnel>) -> bool {
    forall|i: int, j: int| 0 <= i < j < s.len() ==> s[i].identity != s[j].identity
}

pub open spec fn spec_has_tunnel(s: Seq<Tunnel>, id: Identity) -> bool {
    exists|i: int| 0 <= i < s.len() && s[i].identity == id
}

pub open spec fn spec_tunnel(s: Seq<Tunnel>, id: Identity) -> Tunnel {
    s[choose|i: int| 0 <= i < s.len() && s[i].identity == id]
}

/// The ports the live tunnels hold, with multiplicity.
pub open spec fn used_ports(s: Seq<Tunnel>) -> Multiset<u16> {
    s.map_values(|t: Tunnel| t.port).to_multiset()
}

/// The interface numbers the live tunnels hold, with multiplicity.
pub open spec fn used_ifaces(s: Seq<Tunnel>) -> Multiset<u64> {
    s.map_values(|t: Tunnel| t.ifindex).to_multiset()
}

/// The configured port range, one of each.
pub open spec fn spec_port_pool(lo: u16, hi: u16) -> Multiset<u16> {
    Seq::new((hi - lo + 1) as nat, |k: int| (lo + k) as u16).to_multiset()
}

/// The interface numbers 0 .. max_tunnels, one of each.
pub open spec fn spec_iface_pool(max_tunnels: u64) -> Multiset<u64> {
    Seq::new(max_tunnels as nat, |k: int| k as u64).to_multiset()
}

/// Why a tunnel could not be opened.
#[derive(Clone, Copy, PartialEq, Eq, Structural, Debug)]
pub enum TunnelError {
    /// The peer's mesh IP is already claimed by a different identity;
    /// the handshake is rejected.
    MeshIpCollision,
    /// No free port or interface name is left.
    PoolExhausted,
}

/// The bookkeeping state of all live tunnels.
pub struct TunnelManager {
    pub tunnels: Vec<Tunnel>,
    pub free_ports: Vec<u16>,
    pub free_ifaces: Vec<u64>,
    pub port_lo: u16,
    pub port_hi: u16,
    pub max_tunnels: u64,
    /// The next version tag to hand out.
    pub next_version: u64,
}

impl TunnelManager {
    pub open spec fn wf(self) -> bool {
        &&& tunnels_unique(self.tunnels@)
        &&& self.port_lo <= self.port_hi
        &&& self.free_ports@.to_multiset().add(used_ports(self.tunnels@)) == spec_port_pool(
            self.port_lo,
            self.port_hi,
        )
        &&& self.free_ifaces@.to_multiset().add(used_ifaces(self.tunnels@)) == spec_iface_pool(
            self.max_tunnels,
        )
    }

    pub open spec fn has_tunnel(self, id: Identity) -> bool {
        spec_has_tunnel(self.tunnels@, id)
    }

    pub open spec fn tunnel_of(self, id: Identity) -> Tunnel {
        spec_tunnel(self.tunnels@, id)
    }

    /// Nothing recorded about `id` changed between the two states.
    pub open spec fn tunnel_unchanged(self, other: TunnelManager, id: Identity) -> bool {
        &&& self.has_tunnel(id) == other.has_tunnel(id)
        &&& (self.has_tunnel(id) ==> self.tunnel_of(id) == other.tunnel_of(id))
    }

    /// Is some other identity already holding this mesh IP? Such a
    /// handshake is rejected.
    pub open spec fn spec_mesh_ip_collision(self, id: Identity) -> bool {
        exists|i: int|
            0 <= i < self.tunnels@.len() && (#[trigger] self.tunnels@[i]).identity != id
                && self.tunnels@[i].identity.mesh_ip == id.mesh_ip
    }
}

/// Law: at most one tunnel per identity, at every observation point.
pub proof fn lemma_one_tunnel_per_identity(tm: TunnelManager, i: int, j: int)
    requires
        tm.wf(),
        0 <= i < tm.tunnels@.len(),
        0 <= j < tm.tunnels@.len(),
        tm.tunnels@[i].identity == tm.tunnels@[j].identity,
    ensures
        i == j,
{
}

/// Law: pool conservation. Free and allocated ports together are
/// exactly the configured range, and likewise the interface numbers;
/// in particular nothing is ever allocated twice.
pub proof fn lemma_pool_conservation(tm: TunnelManager)
    requires
        tm.wf(),
    ensures
        tm.free_ports@.to_multiset().add(used_ports(tm.tunnels@)) == spec_port_pool(
            tm.port_lo,
            tm.port_hi,
        ),
        tm.free_ifaces@.to_multiset().add(used_ifaces(tm.tunnels@)) == spec_iface_pool(
            tm.max_tunnels,
        ),
{
}

/// Removing index i removes exactly one occurrence of its port.
proof fn lemma_used_ports_remove(s: Seq<Tunnel>, i: int)
    requires
        0 <= i < s.len(),
    ensures
        used_ports(s.remove(i)) =~= used_ports(s).remove(s[i].port),
        used_ports(s).count(s[i].port) >= 1,
        used_ifaces(s.remove(i)) =~= used_ifaces(s).remove(s[i].ifindex),
        used_ifaces(s).count(s[i].ifindex) >= 1,
{
    let mp = s.map_values(|t: Tunnel| t.port);
    let mi = s.map_values(|t: Tunnel| t.ifindex);
    assert(s.remove(i).map_values(|t: Tunnel| t.port) =~= mp.remove(i));
    assert(s.remove(i).map_values(|t: Tunnel| t.ifindex) =~= mi.remove(i));
    mp.to_multiset_ensures();
    mi.to_multiset_ensures();
    assert(mp[i] == s[i].port);
    assert(mi[i] == s[i].ifindex);
    assert(mp.contains(mp[i]));
    assert(mi.contains(mi[i]));
}

/// Appending a tunnel adds exactly one occurrence of its port.
proof fn lemma_used_ports_push(s: Seq<Tunnel>, t: Tunnel)
    ensures
        used_ports(s.push(t)) =~= used_ports(s).insert(t.port),
        used_ifaces(s.push(t)) =~= used_ifaces(s).insert(t.ifindex),
{
    let mp = s.map_values(|x: Tunnel| x.port);
    let mi = s.map_values(|x: Tunnel| x.ifindex);
    assert(s.push(t).map_values(|x: Tunnel| x.port) =~= mp.push(t.port));
    assert(s.push(t).map_values(|x: Tunnel| x.ifindex) =~= mi.push(t.ifindex));
    mp.to_multiset_ensures();
    mi.to_multiset_ensures();
}

impl TunnelManager {
    /// A fresh manager: every port in `[port_lo, port_hi]` and every
    /// interface number below `max_tunnels` is free.
    #[verifier::loop_isolation(false)]
    pub fn new(port_lo: u16, port_hi: u16, max_tunnels: u64) -> (r: TunnelManager)
        requires
            port_lo <= port_hi,
            max_tunnels <= 0x10000,
        ensures
            r.wf(),
            r.tunnels@.len() == 0,
            r.port_lo == port_lo,
            r.port_hi == port_hi,
            r.max_tunnels == max_tunnels,
            r.free_ports@.len() == port_hi - port_lo + 1,
            r.free_ifaces@.len() == max_tunnels,
            r.next_version == 0,
    {
        let ghost pseq = Seq::new((port_hi - port_lo + 1) as nat, |k: int| (port_lo + k) as u16);
        let mut free_ports: Vec<u16> = Vec::new();
        let mut p: u32 = port_lo as u32;
        while p <= port_hi as u32
            invariant
                port_lo <= p,
                p <= port_hi + 1,
                free_ports@ =~= pseq.take(p - port_lo),
            decreases port_hi + 1 - p,
        {
            free_ports.push(p as u16);
            proof {
                let m: int = p + 1 - port_lo;
                assert(free_ports@.len() == m);
                assert forall|j: int| 0 <= j < m implies free_ports@[j] == pseq.take(m)[j] by {
                    assert(pseq[j] == (port_lo + j) as u16);
                }
                assert(free_ports@ =~= pseq.take(m));
            }
            p += 1;
        }
        proof {
            assert(free_ports@ =~= pseq);
        }
        let ghost iseq = Seq::new(max_tunnels as nat, |k: int| k as u64);
        let mut free_ifaces: Vec<u64> = Vec::new();
        let mut n: u64 = 0;
        while n < max_tunnels
            invariant
                n <= max_tunnels,
                max_tunnels <= 0x10000,
                free_ifaces@ =~= iseq.take(n as int),
            decreases max_tunnels - n,
        {
            free_ifaces.push(n);
            proof {
                let m: int = n + 1;
                assert(free_ifaces@.len() == m);
                assert forall|j: int| 0 <= j < m implies free_ifaces@[j] == iseq.take(m)[j] by {
                    assert(iseq[j] == j as u64);
                }
                assert(free_ifaces@ =~= iseq.take(m));
            }
            n += 1;
        }
        proof {
            assert(free_ifaces@ =~= iseq);
        }
        let r = TunnelManager {
            tunnels: Vec::new(),
            free_ports,
            free_ifaces,
            port_lo,
            port_hi,
            max_tunnels,
            next_version: 0,
        };
        proof {
            assert(r.tunnels@.map_values(|t: Tunnel| t.port) =~= Seq::<u16>::empty());
            assert(r.tunnels@.map_values(|t: Tunnel| t.ifindex) =~= Seq::<u64>::empty());
            Seq::<u16>::empty().to_multiset_ensures();
            Seq::<u64>::empty().to_multiset_ensures();
            assert(r.free_ports@.to_multiset().add(used_ports(r.tunnels@)) =~= spec_port_pool(
                port_lo,
                port_hi,
            ));
            assert(r.free_ifaces@.to_multiset().add(used_ifaces(r.tunnels@)) =~= spec_iface_pool(
                max_tunnels,
            ));
        }
        r
    }

    /// Index of the identity's tunnel, if one is live.
    fn find_index(&self, id: &Identity) -> (r: Option<usize>)
        requires
            self.wf(),
        ensures
            match r {
                Some(i) => i < self.tunnels@.len() && self.tunnels@[i as int].identity == *id
                    && spec_tunnel(self.tunnels@, *id) == self.tunnels@[i as int],
                None => !spec_has_tunnel(self.tunnels@, *id),
            },
    {
        let n = self.tunnels.len();
        let mut k: usize = 0;
        while k < n
            invariant
                self.wf(),
                n == self.tunnels@.len(),
                k <= n,
                forall|j: int| 0 <= j < k ==> #[trigger] self.tunnels@[j].identity != *id,
            decreases n - k,
        {
            if self.tunnels[k].identity == *id {
                proof {
                    let c = choose|c: int|
                        0 <= c < self.tunnels@.len() && self.tunnels@[c].identity == *id;
                    if c != k {
                        assert(false);
                    }
                }
                return Some(k);
            }
            k += 1;
        }
        None
    }

    /// Close the identity's tunnel if one is live: its port and
    /// interface number return to the pools. Idempotent; reports
    /// whether there was one to close.
    pub fn close_tunnel(&mut self, id: &Identity) -> (r: bool)
        requires
            old(self).wf(),
        ensures
            final(self).wf(),
            r == old(self).has_tunnel(*id),
            !final(self).has_tunnel(*id),
            forall|id2: Identity|
                id2 != *id ==> #[trigger] final(self).tunnel_unchanged(*old(self), id2),
            final(self).port_lo == old(self).port_lo,
            final(self).port_hi == old(self).port_hi,
            final(self).max_tunnels == old(self).max_tunnels,
            final(self).next_version == old(self).next_version,
            r ==> final(self).free_ports@ == old(self).free_ports@.push(
                old(self).tunnel_of(*id).port,
            ) && final(self).free_ifaces@ == old(self).free_ifaces@.push(
                old(self).tunnel_of(*id).ifindex,
            ),
            !r ==> *final(self) == *old(self),
    {
        match self.find_index(id) {
            Some(i) => {
                proof {
                    lemma_used_ports_remove(self.tunnels@, i as int);
                    lemma_tunnels_remove(self.tunnels@, i as int);
                }
                let t = self.tunnels.remove(i);
                self.free_ports.push(t.port);
                self.free_ifaces.push(t.ifindex);
                proof {
                    let ghost fp0 = old(self).free_ports@;
                    let ghost u0 = used_ports(old(self).tunnels@);
                    fp0.to_multiset_ensures();
                    assert(self.free_ports@.to_multiset() =~= fp0.to_multiset().insert(t.port));
                    assert(self.free_ports@.to_multiset().add(used_ports(self.tunnels@)) =~= fp0
                        .to_multiset().add(u0)) by {
                        broadcast use vstd::multiset::group_multiset_axioms;

                        assert(used_ports(self.tunnels@) =~= u0.remove(t.port));
                        assert(u0.count(t.port) >= 1);
                    }
                    let ghost fi0 = old(self).free_ifaces@;
                    let ghost v0 = used_ifaces(old(self).tunnels@);
                    fi0.to_multiset_ensures();
                    assert(self.free_ifaces@.to_multiset() =~= fi0.to_multiset().insert(t.ifindex));
                    assert(self.free_ifaces@.to_multiset().add(used_ifaces(self.tunnels@)) =~= fi0
                        .to_multiset().add(v0)) by {
                        broadcast use vstd::multiset::group_multiset_axioms;

                        assert(used_ifaces(self.tunnels@) =~= v0.remove(t.ifindex));
                        assert(v0.count(t.ifindex) >= 1);
                    }
                }
                true
            },
            None => false,
        }
    }
}

/// Removing a tunnel by index keeps the rest untouched.
proof fn lemma_tunnels_remove(s: Seq<Tunnel>, i: int)
    requires
        tunnels_unique(s),
        0 <= i < s.len(),
    ensures
        tunnels_unique(s.remove(i)),
        !spec_has_tunnel(s.remove(i), s[i].identity),
        forall|id2: Identity|
            id2 != s[i].identity ==> #[trigger] spec_has_tunnel(s.remove(i), id2)
                == spec_has_tunnel(s, id2),
        forall|id2: Identity|
            id2 != s[i].identity && spec_has_tunnel(s, id2) ==> #[trigger] spec_tunnel(
                s.remove(i),
                id2,
            ) == spec_tunnel(s, id2),
{
    let t = s.remove(i);
    assert forall|id2: Identity| id2 != s[i].identity implies #[trigger] spec_has_tunnel(t, id2)
        == spec_has_tunnel(s, id2) by {
        if spec_has_tunnel(s, id2) {
            let j = choose|j: int| 0 <= j < s.len() && s[j].identity == id2;
            if j < i {
                assert(t[j].identity == id2);
            } else {
                assert(t[j - 1].identity == id2);
            }
        }
        if spec_has_tunnel(t, id2) {
            let j = choose|j: int| 0 <= j < t.len() && t[j].identity == id2;
            if j < i {
                assert(s[j].identity == id2);
            } else {
                assert(s[j + 1].identity == id2);
            }
        }
    }
    if spec_has_tunnel(t, s[i].identity) {
        let j = choose|j: int| 0 <= j < t.len() && t[j].identity == s[i].identity;
        if j < i {
            assert(s[j].identity == s[i].identity);
            assert(false);
        } else {
            assert(s[j + 1].identity == s[i].identity);
            assert(false);
        }
    }
    assert forall|id2: Identity|
        id2 != s[i].identity && spec_has_tunnel(s, id2) implies #[trigger] spec_tunnel(t, id2)
        == spec_tunnel(s, id2) by {
        let j = choose|j: int| 0 <= j < s.len() && s[j].identity == id2;
        assert(0 <= j < s.len() && s[j].identity == id2);
        if j < i {
            assert(t[j].identity == id2);
        } else {
            assert(t[j - 1].identity == id2);
        }
        let k = choose|k: int| 0 <= k < t.len() && t[k].identity == id2;
        assert(0 <= k < t.len() && t[k].identity == id2);
        if k < i {
            assert(s[k].identity == id2);
            if j != k {
                assert(false);
            }
        } else {
            assert(s[k + 1].identity == id2);
            if j != k + 1 {
                assert(false);
            }
        }
    }
}

/// Appending a tunnel with a fresh identity keeps the rest untouched.
proof fn lemma_tunnels_push(s: Seq<Tunnel>, t: Tunnel)
    requires
        tunnels_unique(s),
        !spec_has_tunnel(s, t.identity),
    ensures
        tunnels_unique(s.push(t)),
        spec_has_tunnel(s.push(t), t.identity),
        spec_tunnel(s.push(t), t.identity) == t,
        forall|id2: Identity|
            id2 != t.identity ==> #[trigger] spec_has_tunnel(s.push(t), id2) == spec_has_tunnel(
                s,
                id2,
            ),
        forall|id2: Identity|
            id2 != t.identity && spec_has_tunnel(s, id2) ==> #[trigger] spec_tunnel(
                s.push(t),
                id2,
            ) == spec_tunnel(s, id2),
{
    let u = s.push(t);
    assert(u[s.len() as int].identity == t.identity);
    let c = choose|c: int| 0 <= c < u.len() && u[c].identity == t.identity;
    if c != s.len() {
        assert(s[c].identity == t.identity);
        assert(false);
    }
    assert forall|id2: Identity| id2 != t.identity implies #[trigger] spec_has_tunnel(u, id2)
        == spec_has_tunnel(s, id2) by {
        if spec_has_tunnel(s, id2) {
            let j = choose|j: int| 0 <= j < s.len() && s[j].identity == id2;
            assert(u[j].identity == id2);
        }
        if spec_has_tunnel(u, id2) {
            let j = choose|j: int| 0 <= j < u.len() && u[j].identity == id2;
            assert(j < s.len());
            assert(s[j].identity == id2);
        }
    }
    assert forall|id2: Identity|
        id2 != t.identity && spec_has_tunnel(s, id2) implies #[trigger] spec_tunnel(u, id2)
        == spec_tunnel(s, id2) by {
        let j = choose|j: int| 0 <= j < s.len() && s[j].identity == id2;
        assert(0 <= j < s.len() && s[j].identity == id2);
        assert(u[j].identity == id2);
        let k = choose|k: int| 0 <= k < u.len() && u[k].identity == id2;
        assert(0 <= k < u.len() && u[k].identity == id2);
        assert(k < s.len());
        if j != k {
            assert(false);
        }
    }
}

/// Replacing a tunnel in place, identity kept, touches no other
/// identity's record.
proof fn lemma_tunnels_update(s: Seq<Tunnel>, i: int, t: Tunnel)
    requires
        tunnels_unique(s),
        0 <= i < s.len(),
        t.identity == s[i].identity,
    ensures
        tunnels_unique(s.update(i, t)),
        spec_has_tunnel(s.update(i, t), t.identity),
        spec_tunnel(s.update(i, t), t.identity) == t,
        forall|id2: Identity|
            id2 != t.identity ==> #[trigger] spec_has_tunnel(s.update(i, t), id2)
                == spec_has_tunnel(s, id2),
        forall|id2: Identity|
            id2 != t.identity && spec_has_tunnel(s, id2) ==> #[trigger] spec_tunnel(
                s.update(i, t),
                id2,
            ) == spec_tunnel(s, id2),
{
    let u = s.update(i, t);
    assert(u[i].identity == t.identity);
    let c = choose|c: int| 0 <= c < u.len() && u[c].identity == t.identity;
    if c != i {
        assert(s[c].identity == t.identity);
        assert(false);
    }
    assert forall|id2: Identity| id2 != t.identity implies #[trigger] spec_has_tunnel(u, id2)
        == spec_has_tunnel(s, id2) by {
        if spec_has_tunnel(s, id2) {
            let j = choose|j: int| 0 <= j < s.len() && s[j].identity == id2;
            assert(u[j].identity == id2);
        }
        if spec_has_tunnel(u, id2) {
            let j = choose|j: int| 0 <= j < u.len() && u[j].identity == id2;
            assert(s[j].identity == id2);
        }
    }
    assert forall|id2: Identity|
        id2 != t.identity && spec_has_tunnel(s, id2) implies #[trigger] spec_tunnel(u, id2)
        == spec_tunnel(s, id2) by {
        let j = choose|j: int| 0 <= j < s.len() && s[j].identity == id2;
        assert(0 <= j < s.len() && s[j].identity == id2);
        assert(u[j].identity == id2);
        let k = choose|k: int| 0 <= k < u.len() && u[k].identity == id2;
        assert(0 <= k < u.len() && u[k].identity == id2);
        assert(k != i);
        assert(s[k].identity == id2);
        if j != k {
            assert(false);
        }
    }
}

impl TunnelManager {
    /// Is the mesh IP of `id` already claimed by a different identity?
    fn mesh_ip_conflict(&self, id: &Identity) -> (r: bool)
        requires
            self.wf(),
        ensures
            r == self.spec_mesh_ip_collision(*id),
    {
        let n = self.tunnels.len();
        let mut k: usize = 0;
        while k < n
            invariant
                self.wf(),
                n == self.tunnels@.len(),
                k <= n,
                forall|j: int|
                    0 <= j < k ==> !((#[trigger] self.tunnels@[j]).identity != *id
                        && self.tunnels@[j].identity.mesh_ip == id.mesh_ip),
            decreases n - k,
        {
            if self.tunnels[k].identity.mesh_ip == id.mesh_ip && !(self.tunnels[k].identity
                == *id) {
                proof {
                    assert((self.tunnels@[k as int]).identity != *id && self.tunnels@[k as int]
                        .identity.mesh_ip == id.mesh_ip);
                }
                return true;
            }
            k += 1;
        }
        false
    }

    /// Open (or supersede) the tunnel for `identity`. A mesh-IP clash
    /// with a different identity rejects the handshake and changes
    /// nothing. Otherwise any existing tunnel for the identity is
    /// closed first — debts live elsewhere and persist — and a fresh
    /// port, interface number and version tag are drawn. With the
    /// pools dry (or the version space spent) the close stands but
    /// nothing is drawn, and the caller learns the pools are spent.
    /// On success the returned triple is (interface number, port,
    /// version) of the installed tunnel, which starts pending.
    pub fn open_tunnel(
        &mut self,
        identity: Identity,
        endpoint_addr: u128,
        endpoint_port: u16,
        listen_iface: String,
        now: u64,
    ) -> (r: Result<(u64, u16, u64), TunnelError>)
        requires
            old(self).wf(),
        ensures
            final(self).wf(),
            final(self).port_lo == old(self).port_lo,
            final(self).port_hi == old(self).port_hi,
            final(self).max_tunnels == old(self).max_tunnels,
            match r {
                Ok(alloc) => !old(self).spec_mesh_ip_collision(identity)
                    && final(self).has_tunnel(identity)
                    && final(self).tunnel_of(identity) == (Tunnel {
                    identity,
                    ifindex: alloc.0,
                    port: alloc.1,
                    endpoint_addr,
                    endpoint_port,
                    listen_iface,
                    created_at: now,
                    last_seen: now,
                    active: false,
                    version: alloc.2,
                }) && alloc.2 == old(self).next_version
                    && final(self).next_version == old(self).next_version + 1
                    && forall|id2: Identity|
                    id2 != identity ==> #[trigger] final(self).tunnel_unchanged(*old(self), id2),
                Err(TunnelError::MeshIpCollision) => old(self).spec_mesh_ip_collision(identity)
                    && *final(self) == *old(self),
                Err(TunnelError::PoolExhausted) => !old(self).spec_mesh_ip_collision(identity) && (
                old(self).free_ports@.len() + (if old(self).has_tunnel(identity) {
                    1int
                } else {
                    0int
                }) == 0 || old(self).free_ifaces@.len() + (if old(self).has_tunnel(identity) {
                    1int
                } else {
                    0int
                }) == 0 || old(self).next_version == u64::MAX) && !final(self).has_tunnel(
                    identity,
                ) && forall|id2: Identity|
                    id2 != identity ==> #[trigger] final(self).tunnel_unchanged(*old(self), id2),
            },
    {
        if self.mesh_ip_conflict(&identity) {
            return Err(TunnelError::MeshIpCollision);
        }
        // Supersession: the old tunnel goes down before the new one is
        // installed, returning its port and interface number.
        self.close_tunnel(&identity);
        if self.free_ports.len() == 0 || self.free_ifaces.len() == 0 || self.next_version
            == u64::MAX {
            return Err(TunnelError::PoolExhausted);
        }
        let ghost mid = *self;
        let port = match self.free_ports.pop() {
            Some(p) => p,
            None => {
                return Err(TunnelError::PoolExhausted);
            },
        };
        let ifindex = match self.free_ifaces.pop() {
            Some(x) => x,
            None => {
                return Err(TunnelError::PoolExhausted);
            },
        };
        let version = self.next_version;
        self.next_version = self.next_version + 1;
        let t = Tunnel {
            identity,
            ifindex,
            port,
            endpoint_addr,
            endpoint_port,
            listen_iface,
            created_at: now,
            last_seen: now,
            active: false,
            version,
        };
        proof {
            lemma_tunnels_push(self.tunnels@, t);
            lemma_used_ports_push(self.tunnels@, t);
        }
        self.tunnels.push(t);
        proof {
            let fp0 = mid.free_ports@;
            let fi0 = mid.free_ifaces@;
            fp0.to_multiset_ensures();
            fi0.to_multiset_ensures();
            assert(fp0 =~= self.free_ports@.push(port));
            assert(fi0 =~= self.free_ifaces@.push(ifindex));
            assert(self.free_ports@.to_multiset().add(used_ports(self.tunnels@)) =~= fp0
                .to_multiset().add(used_ports(mid.tunnels@))) by {
                broadcast use vstd::multiset::group_multiset_axioms;

                assert(fp0.to_multiset() =~= self.free_ports@.to_multiset().insert(port));
                assert(used_ports(self.tunnels@) =~= used_ports(mid.tunnels@).insert(port));
            }
            assert(self.free_ifaces@.to_multiset().add(used_ifaces(self.tunnels@)) =~= fi0
                .to_multiset().add(used_ifaces(mid.tunnels@))) by {
                broadcast use vstd::multiset::group_multiset_axioms;

                assert(fi0.to_multiset() =~= self.free_ifaces@.to_multiset().insert(ifindex));
                assert(used_ifaces(self.tunnels@) =~= used_ifaces(mid.tunnels@).insert(ifindex));
            }
            assert forall|id2: Identity| id2 != identity implies self.tunnel_unchanged(
                *old(self),
                id2,
            ) by {
                assert(self.tunnel_unchanged(mid, id2));
                assert(mid.tunnel_unchanged(*old(self), id2));
            }
        }
        Ok((ifindex, port, version))
    }

    /// Mark the identity's tunnel active: the handshake completed and
    /// both endpoints are installed. Reports whether there was a
    /// tunnel to mark.
    pub fn activate(&mut self, id: &Identity) -> (r: bool)
        requires
            old(self).wf(),
        ensures
            final(self).wf(),
            r == old(self).has_tunnel(*id),
            r ==> final(self).has_tunnel(*id) && final(self).tunnel_of(*id) == (Tunnel {
                active: true,
                ..old(self).tunnel_of(*id)
            }),
            !r ==> *final(self) == *old(self),
            forall|id2: Identity|
                id2 != *id ==> #[trigger] final(self).tunnel_unchanged(*old(self), id2),
            final(self).port_lo == old(self).port_lo,
            final(self).port_hi == old(self).port_hi,
            final(self).max_tunnels == old(self).max_tunnels,
            final(self).next_version == old(self).next_version,
    {
        match self.find_index(id) {
            Some(i) => {
                let t2 = Tunnel {
                    identity: self.tunnels[i].identity,
                    ifindex: self.tunnels[i].ifindex,
                    port: self.tunnels[i].port,
                    endpoint_addr: self.tunnels[i].endpoint_addr,
                    endpoint_port: self.tunnels[i].endpoint_port,
                    listen_iface: self.tunnels[i].listen_iface.clone(),
                    created_at: self.tunnels[i].created_at,
                    last_seen: self.tunnels[i].last_seen,
                    active: true,
                    version: self.tunnels[i].version,
                };
                proof {
                    lemma_tunnels_update(self.tunnels@, i as int, t2);
                }
                self.tunnels.set(i, t2);
                proof {
                    lemma_conservation_same_resources(
                        *old(self),
                        *self,
                        old(self).tunnels@[i as int],
                        t2,
                        i as int,
                    );
                }
                true
            },
            None => false,
        }
    }

    /// Refresh the last-seen mark of the identity's tunnel: the peer
    /// was observed again with a matching endpoint. Reports whether
    /// there was a tunnel to refresh.
    pub fn refresh(&mut self, id: &Identity, now: u64) -> (r: bool)
        requires
            old(self).wf(),
        ensures
            final(self).wf(),
            r == old(self).has_tunnel(*id),
            r ==> final(self).has_tunnel(*id) && final(self).tunnel_of(*id) == (Tunnel {
                last_seen: now,
                ..old(self).tunnel_of(*id)
            }),
            !r ==> *final(self) == *old(self),
            forall|id2: Identity|
                id2 != *id ==> #[trigger] final(self).tunnel_unchanged(*old(self), id2),
            final(self).port_lo == old(self).port_lo,
            final(self).port_hi == old(self).port_hi,
            final(self).max_tunnels == old(self).max_tunnels,
            final(self).next_version == old(self).next_version,
    {
        match self.find_index(id) {
            Some(i) => {
                let t2 = Tunnel {
                    identity: self.tunnels[i].identity,
                    ifindex: self.tunnels[i].ifindex,
                    port: self.tunnels[i].port,
                    endpoint_addr: self.tunnels[i].endpoint_addr,
                    endpoint_port: self.tunnels[i].endpoint_port,
                    listen_iface: self.tunnels[i].listen_iface.clone(),
                    created_at: self.tunnels[i].created_at,
                    last_seen: now,
                    active: self.tunnels[i].active,
                    version: self.tunnels[i].version,
                };
                proof {
                    lemma_tunnels_update(self.tunnels@, i as int, t2);
                }
                self.tunnels.set(i, t2);
                proof {
                    lemma_conservation_same_resources(
                        *old(self),
                        *self,
                        old(self).tunnels@[i as int],
                        t2,
                        i as int,
                    );
                }
                true
            },
            None => false,
        }
    }

    /// Does the live tunnel for `id` still point at this endpoint?
    /// When it does, an observation only refreshes the tunnel; when it
    /// does not, a new handshake supersedes it.
    pub fn endpoint_matches(&self, id: &Identity, addr: u128, port: u16) -> (r: bool)
        requires
            self.wf(),
        ensures
            r == (self.has_tunnel(*id) && self.tunnel_of(*id).endpoint_addr == addr
                && self.tunnel_of(*id).endpoint_port == port),
    {
        match self.find_index(id) {
            Some(i) => self.tunnels[i].endpoint_addr == addr && self.tunnels[i].endpoint_port
                == port,
            None => false,
        }
    }

    /// The live tunnels, for the dashboard listing.
    pub fn live_tunnels(&self) -> (r: &Vec<Tunnel>)
        ensures
            r@ == self.tunnels@,
    {
        &self.tunnels
    }
}

/// An in-place update that keeps port and interface number keeps the
/// conservation invariant.
proof fn lemma_conservation_same_resources(
    old_tm: TunnelManager,
    new_tm: TunnelManager,
    t_old: Tunnel,
    t_new: Tunnel,
    i: int,
)
    requires
        old_tm.wf(),
        0 <= i < old_tm.tunnels@.len(),
        old_tm.tunnels@[i] == t_old,
        t_new.port == t_old.port,
        t_new.ifindex == t_old.ifindex,
        new_tm.tunnels@ == old_tm.tunnels@.update(i, t_new),
        new_tm.free_ports@ == old_tm.free_ports@,
        new_tm.free_ifaces@ == old_tm.free_ifaces@,
        new_tm.port_lo == old_tm.port_lo,
        new_tm.port_hi == old_tm.port_hi,
        new_tm.max_tunnels == old_tm.max_tunnels,
    ensures
        new_tm.free_ports@.to_multiset().add(used_ports(new_tm.tunnels@)) == spec_port_pool(
            new_tm.port_lo,
            new_tm.port_hi,
        ),
        new_tm.free_ifaces@.to_multiset().add(used_ifaces(new_tm.tunnels@)) == spec_iface_pool(
            new_tm.max_tunnels,
        ),
{
    assert(new_tm.tunnels@.map_values(|x: Tunnel| x.port) =~= old_tm.tunnels@.map_values(
        |x: Tunnel| x.port,
    ));
    assert(new_tm.tunnels@.map_values(|x: Tunnel| x.ifindex) =~= old_tm.tunnels@.map_values(
        |x: Tunnel| x.ifindex,
    ));
}

/// The back-off before a peer whose install failed is tried again:
/// 30 s doubled per failure, capped at ten minutes.
pub open spec fn spec_pow2(n: int) -> int
    decreases n,
{
    if n <= 0 {
        1
    } else {
        2 * spec_pow2(n - 1)
    }
}

pub open spec fn spec_backoff(failures: int) -> int {
    if 30 * spec_pow2(failures) < 600 {
        30 * spec_pow2(failures)
    } else {
        600
    }
}

proof fn lemma_pow2_at_least(n: int)
    requires
        n >= 5,
    ensures
        spec_pow2(n) >= 32,
    decreases n,
{
    if n == 5 {
        assert(spec_pow2(0) == 1);
        assert(spec_pow2(1) == 2);
        assert(spec_pow2(2) == 4);
        assert(spec_pow2(3) == 8);
        assert(spec_pow2(4) == 16);
        assert(spec_pow2(5) == 32);
    } else {
        lemma_pow2_at_least(n - 1);
    }
}

/// Seconds to wait before retrying a peer after `failures` failed
/// installs.
pub fn backoff_secs(failures: u32) -> (r: u64)
    ensures
        r as int == spec_backoff(failures as int),
{
    proof {
        assert(spec_pow2(0) == 1);
        assert(spec_pow2(1) == 2);
        assert(spec_pow2(2) == 4);
        assert(spec_pow2(3) == 8);
        assert(spec_pow2(4) == 16);
        if failures >= 5 {
            lemma_pow2_at_least(failures as int);
        }
    }
    match failures {
        0 => 30,
        1 => 60,
        2 => 120,
        3 => 240,
        4 => 480,
        _ => 600,
    }
}

} // verus!
