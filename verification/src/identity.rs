//! The stable handle for a peer: mesh IP, blockchain address and tunnel
//! public key. Any mismatch in the triple means a different peer.
//!
//! The three fields also give a total order, used wherever the engine
//! must be deterministic (batch charge delivery, snapshot listings).

use vstd::prelude::*;

verus! {

/// A 20-byte public blockchain address, held as a 4-byte high part and a
/// 16-byte low part.
#[derive(Clone, Copy, PartialEq, Eq, Structural, Hash, Debug)]
pub struct EthAddress {
    pub hi: u32,
    pub lo: u128,
}

/// A 32-byte tunnel public key, held as two 16-byte halves.
#[derive(Clone, Copy, PartialEq, Eq, Structural, Hash, Debug)]
pub struct WgKey {
    pub hi: u128,
    pub lo: u128,
}

/// The identity triple. Equality uses all three fields.
#[derive(Clone, Copy, PartialEq, Eq, Structural, Hash, Debug)]
pub struct Identity {
    /// The peer's mesh address, a 16-byte IPv6 address in the designated
    /// ULA range.
    pub mesh_ip: u128,
    pub eth_address: EthAddress,
    pub wg_public_key: WgKey,
}

/// The total order on identities: lexicographic on
/// (mesh IP, blockchain address, tunnel key).
pub open spec fn spec_identity_lt(a: Identity, b: Identity) -> bool {
    if a.mesh_ip != b.mesh_ip {
        a.mesh_ip < b.mesh_ip
    } else if a.eth_address.hi != b.eth_address.hi {
        a.eth_address.hi < b.eth_address.hi
    } else if a.eth_address.lo != b.eth_address.lo {
        a.eth_address.lo < b.eth_address.lo
    } else if a.wg_public_key.hi != b.wg_public_key.hi {
        a.wg_public_key.hi < b.wg_public_key.hi
    } else {
        a.wg_public_key.lo < b.wg_public_key.lo
    }
}

impl Identity {
    /// Strict comparison in the total order.
    pub fn lt(&self, other: &Identity) -> (r: bool)
        ensures
            r == spec_identity_lt(*self, *other),
    {
        if self.mesh_ip != other.mesh_ip {
            self.mesh_ip < other.mesh_ip
        } else if self.eth_address.hi != other.eth_address.hi {
            self.eth_address.hi < other.eth_address.hi
        } else if self.eth_address.lo != other.eth_address.lo {
            self.eth_address.lo < other.eth_address.lo
        } else if self.wg_public_key.hi != other.wg_public_key.hi {
            self.wg_public_key.hi < other.wg_public_key.hi
        } else {
            self.wg_public_key.lo < other.wg_public_key.lo
        }
    }
}

/// The order is total: for distinct identities exactly one direction holds.
pub proof fn lemma_identity_order_total(a: Identity, b: Identity)
    ensures
        a == b <==> (!spec_identity_lt(a, b) && !spec_identity_lt(b, a)),
        !(spec_identity_lt(a, b) && spec_identity_lt(b, a)),
{
}

/// The order is transitive.
pub proof fn lemma_identity_order_trans(a: Identity, b: Identity, c: Identity)
    requires
        spec_identity_lt(a, b),
        spec_identity_lt(b, c),
    ensures
        spec_identity_lt(a, c),
{
}

} // verus!
