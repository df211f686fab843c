//! Cluster networking: the peer status, and the length-prefixed framing of
//! protocol messages (a 4-byte big-endian length, then the JSON body).

use vstd::prelude::*;
use crate::error::DeltaError;
use crate::numfmt::{decimal, push_decimal};

verus! {

/// Default port for cluster communication.
pub const DEFAULT_PORT: u16 = 7878;

/// Maximum message size (16 MB).
pub const MAX_MESSAGE_SIZE: usize = 16777216;

/// Status of a peer node.
#[derive(Debug, Clone, Copy, PartialEq, Eq, Structural)]
pub enum PeerStatus {
    /// Status unknown (not yet contacted).
    Unknown,
    /// Peer is healthy and responding.
    Healthy,
    /// Peer is currently synchronizing.
    Syncing,
    /// Peer is unreachable.
    Unreachable,
}

/// The number that four bytes write, most significant first.
pub open spec fn be_value(h: Seq<u8>) -> nat {
    (h[0] as nat) * 16777216 + (h[1] as nat) * 65536 + (h[2] as nat) * 256 + (h[3] as nat)
}

/// The message of the error for a message of `len` bytes.
pub open spec fn too_large_text(len: nat) -> Seq<char> {
    "Message too large: "@ + decimal(len) + " bytes (max: "@ + decimal(MAX_MESSAGE_SIZE as nat) + ")"@
}

/// Whether `e` is the error for a message of `len` bytes.
pub open spec fn is_too_large(e: DeltaError, len: nat) -> bool {
    match e {
        DeltaError::StorageError(m) => m@ == too_large_text(len),
        _ => false,
    }
}

/// The error for a message of `len` bytes.
fn too_large(len: u64) -> (e: DeltaError)
    ensures
        is_too_large(e, len as nat),
{
    let mut m = String::new();
    proof {
        reveal_strlit("Message too large: ");
        reveal_strlit(" bytes (max: ");
        reveal_strlit(")");
    }
    m.append("Message too large: ");
    push_decimal(&mut m, len);
    m.append(" bytes (max: ");
    push_decimal(&mut m, 16777216);
    m.append(")");
    proof {
        assert(m@ =~= too_large_text(len as nat));
    }
    DeltaError::StorageError(m)
}

/// The length header of a message body of `len` bytes: its four bytes, most
/// significant first; a body over the maximum size is refused.
pub fn frame_header(len: usize) -> (r: Result<[u8; 4], DeltaError>)
    ensures
        match r {
            Ok(h) => len <= MAX_MESSAGE_SIZE && be_value(h@) == len,
            Err(e) => len > MAX_MESSAGE_SIZE && is_too_large(e, len as nat),
        },
{
    if len > MAX_MESSAGE_SIZE {
        return Err(too_large(len as u64));
    }
    let n: u32 = len as u32;
    let h: [u8; 4] = [(n / 16777216) as u8, ((n / 65536) % 256) as u8, ((n / 256) % 256) as u8, (n % 256) as u8];
    proof {
        assert(be_value(h@) == len) by (nonlinear_arith)
            requires
                h@[0] == n / 16777216,
                h@[1] == (n / 65536) % 256,
                h@[2] == (n / 256) % 256,
                h@[3] == n % 256,
                n == len,
                len <= 16777216,
        {
        }
    }
    Ok(h)
}

/// The body length that a header announces; a length over the maximum size
/// is refused.
pub fn frame_length(header: [u8; 4]) -> (r: Result<usize, DeltaError>)
    ensures
        match r {
            Ok(n) => n == be_value(header@) && n <= MAX_MESSAGE_SIZE,
            Err(e) => be_value(header@) > MAX_MESSAGE_SIZE && is_too_large(e, be_value(header@)),
        },
{
    let len: u64 = (header[0] as u64) * 16777216 + (header[1] as u64) * 65536 + (header[2] as u64) * 256
        + (header[3] as u64);
    if len > 16777216 {
        return Err(too_large(len));
    }
    Ok(len as usize)
}

/// Framing reads back what it writes: two headers that announce the same length
/// are the same four bytes, so the header `frame_header` gives for a length is
/// the one header from which `frame_length` reads that length.
pub proof fn law_frame_round_trip(a: Seq<u8>, b: Seq<u8>)
    requires
        a.len() == 4,
        b.len() == 4,
        be_value(a) == be_value(b),
    ensures
        a == b,
{
    assert(a[0] == b[0] && a[1] == b[1] && a[2] == b[2] && a[3] == b[3]) by (nonlinear_arith)
        requires
            (a[0] as nat) * 16777216 + (a[1] as nat) * 65536 + (a[2] as nat) * 256 + (a[3] as nat)
                == (b[0] as nat) * 16777216 + (b[1] as nat) * 65536 + (b[2] as nat) * 256 + (b[3] as nat),
            a[0] < 256, a[1] < 256, a[2] < 256, a[3] < 256,
            b[0] < 256, b[1] < 256, b[2] < 256, b[3] < 256,
    {
    }
    assert(a =~= b);
}

} // verus!
