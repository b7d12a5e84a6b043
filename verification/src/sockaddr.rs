//! The endpoint encoder: from a parsed (mode, value) pair to a
//! fixed-capacity unix socket address record.
//!
//! The value's bytes are written at a start offset decided by the connection
//! mode (0 for a filesystem path, 1 for an abstract name, whose reserved
//! leading byte stays zero); every other buffer byte stays zero, including a
//! mandatory trailing zero byte. The length is checked before any byte is
//! written.

use crate::address::{has_unix_prefix, scan_segments, ConnectionMode, ParseError};
use vstd::prelude::*;
use vstd::string::StringSliceAdditionalSpecFns;
use vstd::utf8::encode_utf8;

verus! {

/// Capacity of the `sun_path` buffer of the native unix socket address
/// record, fixed at 108 bytes for portability.
pub const SUN_PATH_LEN: usize = 108;

/// The address family tag of a local (unix domain) socket address.
#[derive(Clone, Copy, Debug, PartialEq, Eq, Structural)]
pub enum AddressFamily {
    Unix,
}

/// A native unix socket address record: the family tag and the fixed-capacity
/// path buffer it is encoded into.
#[derive(Clone, Debug, PartialEq, Eq)]
pub struct SockaddrUn {
    pub sun_family: AddressFamily,
    pub sun_path: Vec<u8>,
}

impl SockaddrUn {
    /// The family tag is the unix one and the buffer holds exactly
    /// `SUN_PATH_LEN` bytes.
    pub open spec fn wf(&self) -> bool {
        &&& self.sun_family == AddressFamily::Unix
        &&& self.sun_path@.len() == SUN_PATH_LEN
    }
}

/// Byte offset at which a value is encoded for the given mode: abstract
/// namespace names sit behind the reserved leading zero byte.
pub open spec fn mode_start(m: ConnectionMode) -> int {
    match m {
        ConnectionMode::FilesystemPath => 0,
        ConnectionMode::AbstractNamespace => 1,
    }
}

/// The buffer contents after encoding `payload` at `start`: the payload
/// bytes there, zero everywhere else.
pub open spec fn encoded_path(start: int, payload: Seq<u8>) -> Seq<u8> {
    Seq::new(
        SUN_PATH_LEN as nat,
        |i: int|
            if start <= i < start + payload.len() {
                payload[i - start]
            } else {
                0u8
            },
    )
}

/// Encodes the bytes of `value` into a fresh descriptor starting at `start`,
/// every other buffer byte zero. Rejects the value when its bytes plus the
/// start offset plus the trailing zero byte would not fit strictly within
/// the buffer; nothing is written in that case.
pub fn make_sockaddr_un(start: usize, value: &str) -> (r: Result<SockaddrUn, ParseError>)
    requires
        start <= 1,
    ensures
        match r {
            Ok(d) => d.wf() && start + value.spec_bytes().len() + 1 < SUN_PATH_LEN
                && d.sun_path@ == encoded_path(start as int, value.spec_bytes()),
            Err(e) => e == ParseError::TooLong && start + value.spec_bytes().len() + 1
                >= SUN_PATH_LEN,
        },
{
    let bytes = value.as_bytes();
    let len = bytes.len();
    if len >= SUN_PATH_LEN - 1 - start {
        return Err(ParseError::TooLong);
    }
    let mut buf: Vec<u8> = Vec::new();
    let mut k: usize = 0;
    while k < SUN_PATH_LEN
        invariant
            buf@.len() == k,
            k <= SUN_PATH_LEN,
            forall|j: int| 0 <= j < k ==> buf@[j] == 0u8,
        decreases SUN_PATH_LEN - k,
    {
        buf.push(0u8);
        k += 1;
    }
    let mut i: usize = 0;
    while i < len
        invariant
            buf@.len() == SUN_PATH_LEN,
            i <= len,
            len == bytes@.len(),
            start + len + 1 < SUN_PATH_LEN,
            bytes@ == value.spec_bytes(),
            forall|j: int| 0 <= j < start ==> buf@[j] == 0u8,
            forall|j: int| start <= j < start + i ==> buf@[j] == bytes@[j - start],
            forall|j: int| start + i <= j < SUN_PATH_LEN ==> buf@[j] == 0u8,
        decreases len - i,
    {
        buf[start + i] = bytes[i];
        i += 1;
    }
    let d = SockaddrUn { sun_family: AddressFamily::Unix, sun_path: buf };
    proof {
        assert(d.sun_path@ =~= encoded_path(start as int, value.spec_bytes()));
    }
    Ok(d)
}

/// Encodes a parsed (mode, value) pair into a descriptor: a filesystem path
/// needs its byte length plus one, an abstract name its byte length plus
/// two; encoding fails with `TooLong` exactly when that requirement reaches
/// the buffer capacity, and otherwise leaves every non-payload byte zero.
pub fn encode(mode: ConnectionMode, value: &str) -> (r: Result<SockaddrUn, ParseError>)
    ensures
        match r {
            Ok(d) => d.wf() && mode_start(mode) + value.spec_bytes().len() + 1 < SUN_PATH_LEN
                && d.sun_path@ == encoded_path(mode_start(mode), value.spec_bytes()),
            Err(e) => e == ParseError::TooLong && mode_start(mode) + value.spec_bytes().len() + 1
                >= SUN_PATH_LEN,
        },
{
    let start: usize = match mode {
        ConnectionMode::FilesystemPath => 0,
        ConnectionMode::AbstractNamespace => 1,
    };
    make_sockaddr_un(start, value)
}

/// Parses an address text and encodes the result: the pipeline from text to
/// a connectable descriptor, stopping at the first failing stage.
pub fn address_to_sockaddr_un(s: &str) -> (r: Result<SockaddrUn, ParseError>)
    ensures
        !has_unix_prefix(s@) ==> r matches Err(ParseError::NotUnix),
        has_unix_prefix(s@) ==> match scan_segments(s@.skip(5)) {
            None => (r matches Err(ParseError::UnsupportedAddressType(t)) && t@ == s@),
            Some(mv) => {
                let start = mode_start(mv.0);
                let payload = encode_utf8(mv.1);
                if start + payload.len() + 1 < SUN_PATH_LEN {
                    (r matches Ok(d) && d.wf() && d.sun_path@ == encoded_path(start, payload))
                } else {
                    r matches Err(ParseError::TooLong)
                }
            },
        },
{
    match crate::address::parse(s) {
        Ok((mode, value)) => encode(mode, value.as_str()),
        Err(e) => Err(e),
    }
}

/// Law: reading the encoded buffer back from the start offset for the
/// payload's length reproduces the payload bytes exactly.
pub proof fn lemma_encode_round_trip(start: int, payload: Seq<u8>)
    requires
        0 <= start,
        start + payload.len() <= SUN_PATH_LEN,
    ensures
        encoded_path(start, payload).subrange(start, start + payload.len() as int) == payload,
{
    assert(encoded_path(start, payload).subrange(start, start + payload.len() as int) =~= payload);
}

} // verus!
