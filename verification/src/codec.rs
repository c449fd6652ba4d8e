//! The discovery wire format: a versioned, fixed-length binary frame
//! announcing this node's identity and wireguard port.
//!
//! Layout, big-endian: version (1 byte), mesh IP (16), blockchain
//! address (4 + 16), tunnel public key (16 + 16), wireguard port (2) —
//! 71 bytes. Decoding rejects a frame shorter than the length its
//! version demands, and drops unknown versions; decoding an encoded
//! frame gives back exactly what went in.

use vstd::prelude::*;

use crate::identity::{EthAddress, Identity, WgKey};

verus! {

/// The one frame version this engine speaks.
pub const FRAME_VERSION: u8 = 1;

/// The length a version-1 frame must have.
pub const FRAME_LEN: usize = 71;

/// The payload of one discovery hello.
#[derive(Clone, Copy, PartialEq, Eq, Structural, Debug)]
pub struct Hello {
    pub version: u8,
    pub identity: Identity,
    /// The wireguard port this node listens on.
    pub wg_port: u16,
}

/// Why a frame was dropped.
#[derive(Clone, Copy, PartialEq, Eq, Structural, Debug)]
pub enum FrameError {
    /// Shorter than the version-indicated length.
    TooShort,
    /// A version this engine does not speak.
    UnknownVersion,
}

/// 256^n.
pub open spec fn pow256(n: nat) -> int
    decreases n,
{
    if n == 0 {
        1
    } else {
        256 * pow256((n - 1) as nat)
    }
}

/// The big-endian bytes of `x`, `n` of them, least significant last.
pub open spec fn spec_be_bytes(x: int, n: nat) -> Seq<u8>
    decreases n,
{
    if n == 0 {
        Seq::empty()
    } else {
        spec_be_bytes(x / 256, (n - 1) as nat).push((x % 256) as u8)
    }
}

/// The value big-endian bytes spell.
pub open spec fn spec_be_val(s: Seq<u8>) -> int
    decreases s.len(),
{
    if s.len() == 0 {
        0
    } else {
        spec_be_val(s.drop_last()) * 256 + s.last()
    }
}

/// An encoded frame: the fields in order, each in big-endian bytes.
pub open spec fn spec_encode(h: Hello) -> Seq<u8> {
    seq![h.version] + spec_be_bytes(h.identity.mesh_ip as int, 16) + spec_be_bytes(
        h.identity.eth_address.hi as int,
        4,
    ) + spec_be_bytes(h.identity.eth_address.lo as int, 16) + spec_be_bytes(
        h.identity.wg_public_key.hi as int,
        16,
    ) + spec_be_bytes(h.identity.wg_public_key.lo as int, 16) + spec_be_bytes(h.wg_port as int, 2)
}

/// Is this byte run an acceptable frame?
pub open spec fn spec_decode_ok(s: Seq<u8>) -> bool {
    s.len() >= FRAME_LEN && s[0] == FRAME_VERSION
}

/// The hello an acceptable frame spells.
pub open spec fn spec_decoded(s: Seq<u8>) -> Hello {
    Hello {
        version: s[0],
        identity: Identity {
            mesh_ip: spec_be_val(s.subrange(1, 17)) as u128,
            eth_address: EthAddress {
                hi: spec_be_val(s.subrange(17, 21)) as u32,
                lo: spec_be_val(s.subrange(21, 37)) as u128,
            },
            wg_public_key: WgKey {
                hi: spec_be_val(s.subrange(37, 53)) as u128,
                lo: spec_be_val(s.subrange(53, 69)) as u128,
            },
        },
        wg_port: spec_be_val(s.subrange(69, 71)) as u16,
    }
}

proof fn lemma_pow256_pos(n: nat)
    ensures
        pow256(n) >= 1,
    decreases n,
{
    if n > 0 {
        lemma_pow256_pos((n - 1) as nat);
    }
}

/// 256^16 is the 128-bit range.
proof fn lemma_pow256_16()
    ensures
        pow256(2) == 0x10000,
        pow256(4) == 0x100000000,
        pow256(15) == 0x1000000000000000000000000000000,
        pow256(16) == 0x100000000000000000000000000000000,
{
    assert(pow256(0) == 1);
    assert(pow256(1) == 256);
    assert(pow256(2) == 0x10000);
    assert(pow256(3) == 0x1000000);
    assert(pow256(4) == 0x100000000);
    assert(pow256(5) == 0x10000000000);
    assert(pow256(6) == 0x1000000000000);
    assert(pow256(7) == 0x100000000000000);
    assert(pow256(8) == 0x10000000000000000);
    assert(pow256(9) == 0x1000000000000000000);
    assert(pow256(10) == 0x100000000000000000000);
    assert(pow256(11) == 0x10000000000000000000000);
    assert(pow256(12) == 0x1000000000000000000000000);
    assert(pow256(13) == 0x100000000000000000000000000);
    assert(pow256(14) == 0x10000000000000000000000000000);
    assert(pow256(15) == 0x1000000000000000000000000000000);
    assert(pow256(16) == 0x100000000000000000000000000000000);
}

/// Encoding then reading back gives the value, and the byte count is
/// as asked.
proof fn lemma_be_round_trip(x: int, n: nat)
    requires
        0 <= x < pow256(n),
    ensures
        spec_be_bytes(x, n).len() == n,
        spec_be_val(spec_be_bytes(x, n)) == x,
    decreases n,
{
    if n == 0 {
    } else {
        let q = x / 256;
        let r = x % 256;
        vstd::arithmetic::div_mod::lemma_fundamental_div_mod(x, 256);
        assert(0 <= r < 256) by {
            vstd::arithmetic::div_mod::lemma_mod_bound(x, 256);
        }
        assert(q < pow256((n - 1) as nat)) by {
            lemma_pow256_pos((n - 1) as nat);
            if q >= pow256((n - 1) as nat) {
                assert(256 * q >= 256 * pow256((n - 1) as nat)) by (nonlinear_arith)
                    requires q >= pow256((n - 1) as nat);
            }
        }
        assert(q >= 0) by {
            vstd::arithmetic::div_mod::lemma_div_pos_is_pos(x, 256);
        }
        lemma_be_round_trip(q, (n - 1) as nat);
        let b = spec_be_bytes(x, n);
        assert(b.drop_last() =~= spec_be_bytes(q, (n - 1) as nat));
        assert(b.last() == r as u8);
    }
}

/// A value read from n bytes lies below 256^n.
proof fn lemma_be_val_bound(s: Seq<u8>)
    ensures
        0 <= spec_be_val(s) < pow256(s.len()),
    decreases s.len(),
{
    if s.len() > 0 {
        lemma_be_val_bound(s.drop_last());
        let v = spec_be_val(s.drop_last());
        assert(256 * v + 256 <= 256 * pow256((s.len() - 1) as nat)) by (nonlinear_arith)
            requires v + 1 <= pow256((s.len() - 1) as nat);
        assert(v * 256 == 256 * v) by (nonlinear_arith);
        assert(v * 256 >= 0) by (nonlinear_arith)
            requires v >= 0;
    }
}

/// The big-endian bytes of `x`, `n` of them.
fn be_bytes_vec(x: u128, n: usize) -> (r: Vec<u8>)
    requires
        n <= 16,
    ensures
        r@ == spec_be_bytes(x as int, n as nat),
        r@.len() == n,
    decreases n,
{
    proof {
        lemma_pow256_16();
        lemma_pow256_pos(n as nat);
    }
    if n == 0 {
        Vec::new()
    } else {
        let mut v = be_bytes_vec(x / 256, n - 1);
        v.push((x % 256) as u8);
        proof {
            assert(spec_be_bytes(x as int, n as nat) == spec_be_bytes(
                x as int / 256,
                (n - 1) as nat,
            ).push((x as int % 256) as u8));
        }
        v
    }
}

/// Read `n` big-endian bytes starting at `start`.
fn read_be(bytes: &Vec<u8>, start: usize, n: usize) -> (r: u128)
    requires
        start + n <= bytes@.len(),
        n <= 16,
    ensures
        r as int == spec_be_val(bytes@.subrange(start as int, start + n)),
{
    proof {
        lemma_pow256_16();
    }
    let total = bytes.len();
    let mut acc: u128 = 0;
    let mut k: usize = 0;
    proof {
        assert(bytes@.subrange(start as int, start as int) =~= Seq::<u8>::empty());
    }
    while k < n
        invariant
            total == bytes@.len(),
            start + n <= bytes@.len(),
            n <= 16,
            k <= n,
            acc as int == spec_be_val(bytes@.subrange(start as int, start + k)),
            pow256(16) == 0x100000000000000000000000000000000,
        decreases n - k,
    {
        proof {
            let sub = bytes@.subrange(start as int, start + k);
            lemma_be_val_bound(sub);
            lemma_pow256_monotone(k as nat, 15);
            lemma_pow256_16();
            assert(acc < 0x1000000000000000000000000000000u128);
            assert(acc * 256 + 255 < 0x100000000000000000000000000000000int) by (nonlinear_arith)
                requires
                    acc < 0x1000000000000000000000000000000u128,
            ;
        }
        let b = bytes[start + k];
        acc = acc * 256 + (b as u128);
        proof {
            let sub2 = bytes@.subrange(start as int, start + k + 1);
            assert(sub2.drop_last() =~= bytes@.subrange(start as int, start + k));
            assert(sub2.last() == bytes@[start + k]);
        }
        k += 1;
    }
    acc
}

proof fn lemma_pow256_monotone(a: nat, b: nat)
    requires
        a <= b,
    ensures
        pow256(a) <= pow256(b),
    decreases b,
{
    if a < b {
        lemma_pow256_monotone(a, (b - 1) as nat);
        lemma_pow256_pos((b - 1) as nat);
    }
}

/// Encode one hello as its wire frame.
pub fn encode_hello(h: &Hello) -> (r: Vec<u8>)
    ensures
        r@ == spec_encode(*h),
        r@.len() == FRAME_LEN,
{
    proof {
        lemma_pow256_16();
    }
    let mut out: Vec<u8> = Vec::new();
    out.push(h.version);
    let mut part = be_bytes_vec(h.identity.mesh_ip, 16);
    out.append(&mut part);
    let mut part = be_bytes_vec(h.identity.eth_address.hi as u128, 4);
    out.append(&mut part);
    let mut part = be_bytes_vec(h.identity.eth_address.lo, 16);
    out.append(&mut part);
    let mut part = be_bytes_vec(h.identity.wg_public_key.hi, 16);
    out.append(&mut part);
    let mut part = be_bytes_vec(h.identity.wg_public_key.lo, 16);
    out.append(&mut part);
    let mut part = be_bytes_vec(h.wg_port as u128, 2);
    out.append(&mut part);
    proof {
        assert(seq![h.version] =~= Seq::<u8>::empty().push(h.version));
        assert(out@ =~= spec_encode(*h));
    }
    out
}

/// Decode one frame. Too short — under the 71 bytes version 1 takes —
/// is rejected, as is a version this engine does not speak; trailing
/// bytes beyond the frame are ignored.
pub fn decode_hello(bytes: &Vec<u8>) -> (r: Result<Hello, FrameError>)
    ensures
        match r {
            Ok(h) => spec_decode_ok(bytes@) && h == spec_decoded(bytes@),
            Err(FrameError::TooShort) => bytes@.len() < FRAME_LEN,
            Err(FrameError::UnknownVersion) => bytes@.len() >= FRAME_LEN && bytes@[0]
                != FRAME_VERSION,
        },
{
    if bytes.len() < FRAME_LEN {
        return Err(FrameError::TooShort);
    }
    if bytes[0] != FRAME_VERSION {
        return Err(FrameError::UnknownVersion);
    }
    proof {
        lemma_pow256_16();
        lemma_be_val_bound(bytes@.subrange(1, 17));
        lemma_be_val_bound(bytes@.subrange(17, 21));
        lemma_be_val_bound(bytes@.subrange(21, 37));
        lemma_be_val_bound(bytes@.subrange(37, 53));
        lemma_be_val_bound(bytes@.subrange(53, 69));
        lemma_be_val_bound(bytes@.subrange(69, 71));
    }
    let mesh_ip = read_be(bytes, 1, 16);
    let eth_hi = read_be(bytes, 17, 4) as u32;
    let eth_lo = read_be(bytes, 21, 16);
    let wg_hi = read_be(bytes, 37, 16);
    let wg_lo = read_be(bytes, 53, 16);
    let wg_port = read_be(bytes, 69, 2) as u16;
    Ok(
        Hello {
            version: FRAME_VERSION,
            identity: Identity {
                mesh_ip,
                eth_address: EthAddress { hi: eth_hi, lo: eth_lo },
                wg_public_key: WgKey { hi: wg_hi, lo: wg_lo },
            },
            wg_port,
        },
    )
}

/// Law: round trip. Encoding any hello of the spoken version and
/// decoding the frame gives back exactly the hello; in particular
/// decoding accepts it.
pub proof fn lemma_encode_decode_round_trip(h: Hello)
    requires
        h.version == FRAME_VERSION,
    ensures
        spec_encode(h).len() == FRAME_LEN,
        spec_decode_ok(spec_encode(h)),
        spec_decoded(spec_encode(h)) == h,
{
    lemma_pow256_16();
    let e = spec_encode(h);
    lemma_be_round_trip(h.identity.mesh_ip as int, 16);
    lemma_be_round_trip(h.identity.eth_address.hi as int, 4);
    lemma_be_round_trip(h.identity.eth_address.lo as int, 16);
    lemma_be_round_trip(h.identity.wg_public_key.hi as int, 16);
    lemma_be_round_trip(h.identity.wg_public_key.lo as int, 16);
    lemma_be_round_trip(h.wg_port as int, 2);
    assert(e[0] == h.version);
    assert(e.subrange(1, 17) =~= spec_be_bytes(h.identity.mesh_ip as int, 16));
    assert(e.subrange(17, 21) =~= spec_be_bytes(h.identity.eth_address.hi as int, 4));
    assert(e.subrange(21, 37) =~= spec_be_bytes(h.identity.eth_address.lo as int, 16));
    assert(e.subrange(37, 53) =~= spec_be_bytes(h.identity.wg_public_key.hi as int, 16));
    assert(e.subrange(53, 69) =~= spec_be_bytes(h.identity.wg_public_key.lo as int, 16));
    assert(e.subrange(69, 71) =~= spec_be_bytes(h.wg_port as int, 2));
}

} // verus!
