//! How values travel: the bytes of each datagram and of each stream message.
//!
//! Every integer is written at its full width, low byte first: a port in two
//! bytes, the kind of a message in four, a count, a clock or an identifier in
//! eight.  A message is its kind (zero for a request, one for a permission)
//! followed by its fields.  The integers themselves are written and read by
//! `bincode`; what is put together from them is decided here.

use crate::algorithm::Message;
use crate::ident::NodeId;
use vstd::bytes::{
    spec_u16_from_le_bytes, spec_u16_to_le_bytes, spec_u32_from_le_bytes, spec_u32_to_le_bytes,
    spec_u64_from_le_bytes, spec_u64_to_le_bytes,
};
use vstd::prelude::*;
use vstd::slice::slice_subrange;

verus! {

/// The error type of `bincode`.  Nothing is known of what it holds.
#[verifier::external_type_specification]
#[verifier::external_body]
pub struct ExErrorKind(bincode::ErrorKind);

/// Why bytes could not be read.
#[derive(Debug, Clone, Copy, PartialEq, Eq, Structural)]
pub enum WireError {
    /// There are fewer bytes than the value takes.
    Truncated,
    /// The kind of the message is neither request nor permission.
    UnknownKind(u32),
    /// The number does not fit this machine's `usize`.
    Oversized(u64),
}

/// The kind of a request.
pub const REQUEST_KIND: u32 = 0;

/// The kind of a permission.
pub const PERMISSION_KIND: u32 = 1;

/// `bincode::serialize` on a `u16`: with the fixed-width, little-endian
/// encoding that this function uses, the result is the two bytes of the
/// number, low byte first.  With no size limit and a vector to write to, it
/// does not fail.
#[verifier::external_body]
fn bincode_put_u16(v: u16) -> (r: Result<Vec<u8>, Box<bincode::ErrorKind>>)
    ensures
        r is Ok,
        r matches Ok(bytes) ==> bytes@ == spec_u16_to_le_bytes(v),
{
    bincode::serialize(&v)
}

/// `bincode::serialize` on a `u32`: the four bytes of the number, low byte
/// first.  It does not fail.
#[verifier::external_body]
fn bincode_put_u32(v: u32) -> (r: Result<Vec<u8>, Box<bincode::ErrorKind>>)
    ensures
        r is Ok,
        r matches Ok(bytes) ==> bytes@ == spec_u32_to_le_bytes(v),
{
    bincode::serialize(&v)
}

/// `bincode::serialize` on a `u64`: the eight bytes of the number, low byte
/// first.  It does not fail.
#[verifier::external_body]
fn bincode_put_u64(v: u64) -> (r: Result<Vec<u8>, Box<bincode::ErrorKind>>)
    ensures
        r is Ok,
        r matches Ok(bytes) ==> bytes@ == spec_u64_to_le_bytes(v),
{
    bincode::serialize(&v)
}

/// `bincode::deserialize` to a `u16`: it reads the first two bytes, low byte
/// first, and takes no notice of what follows them.  It fails exactly when
/// there are fewer than two bytes.
#[verifier::external_body]
fn bincode_get_u16(bytes: &[u8]) -> (r: Result<u16, Box<bincode::ErrorKind>>)
    ensures
        r is Ok <==> bytes@.len() >= 2,
        r matches Ok(v) ==> v == spec_u16_from_le_bytes(bytes@.subrange(0, 2)),
{
    bincode::deserialize::<u16>(bytes)
}

/// `bincode::deserialize` to a `u32`: it reads the first four bytes, low byte
/// first, and fails exactly when there are fewer than four.
#[verifier::external_body]
fn bincode_get_u32(bytes: &[u8]) -> (r: Result<u32, Box<bincode::ErrorKind>>)
    ensures
        r is Ok <==> bytes@.len() >= 4,
        r matches Ok(v) ==> v == spec_u32_from_le_bytes(bytes@.subrange(0, 4)),
{
    bincode::deserialize::<u32>(bytes)
}

/// `bincode::deserialize` to a `u64`: it reads the first eight bytes, low
/// byte first, and fails exactly when there are fewer than eight.
#[verifier::external_body]
fn bincode_get_u64(bytes: &[u8]) -> (r: Result<u64, Box<bincode::ErrorKind>>)
    ensures
        r is Ok <==> bytes@.len() >= 8,
        r matches Ok(v) ==> v == spec_u64_from_le_bytes(bytes@.subrange(0, 8)),
{
    bincode::deserialize::<u64>(bytes)
}

/// The bytes of a port.
pub open spec fn port_bytes(port: u16) -> Seq<u8> {
    spec_u16_to_le_bytes(port)
}

/// The bytes of a count, a clock or an identifier.
pub open spec fn count_bytes(n: usize) -> Seq<u8> {
    spec_u64_to_le_bytes(n as u64)
}

/// The bytes of the first datagram of a plan: the number of nodes, then the
/// identifier.
pub open spec fn identity_bytes(node_count: usize, id: NodeId) -> Seq<u8> {
    count_bytes(node_count) + count_bytes(id.0)
}

/// The bytes of a message.
pub open spec fn message_bytes(m: Message) -> Seq<u8> {
    match m {
        Message::Request { date, requester } => spec_u32_to_le_bytes(REQUEST_KIND) + count_bytes(
            date,
        ) + count_bytes(requester.0),
        Message::Permission { authorizer } => spec_u32_to_le_bytes(PERMISSION_KIND) + count_bytes(
            authorizer.0,
        ),
    }
}

/// The port that `bytes` begin with.
pub open spec fn read_port(bytes: Seq<u8>) -> Result<u16, WireError> {
    if bytes.len() < 2 {
        Err(WireError::Truncated)
    } else {
        Ok(spec_u16_from_le_bytes(bytes.subrange(0, 2)))
    }
}

/// The count that `bytes` begin with.
pub open spec fn read_count(bytes: Seq<u8>) -> Result<usize, WireError> {
    if bytes.len() < 8 {
        Err(WireError::Truncated)
    } else {
        let v = spec_u64_from_le_bytes(bytes.subrange(0, 8));
        if v > usize::MAX {
            Err(WireError::Oversized(v))
        } else {
            Ok(v as usize)
        }
    }
}

/// What is left of `bytes` after the first `n`; nothing if there are fewer.
pub open spec fn rest(bytes: Seq<u8>, n: int) -> Seq<u8> {
    if 0 <= n <= bytes.len() {
        bytes.subrange(n, bytes.len() as int)
    } else {
        Seq::empty()
    }
}

/// The number of nodes and the identifier that `bytes` begin with.
pub open spec fn read_identity(bytes: Seq<u8>) -> Result<(usize, NodeId), WireError> {
    match read_count(bytes) {
        Err(e) => Err(e),
        Ok(node_count) => match read_count(rest(bytes, 8)) {
            Err(e) => Err(e),
            Ok(id) => Ok((node_count, NodeId(id))),
        },
    }
}

/// How many bytes follow the kind of a message.
pub open spec fn body_len(kind: u32) -> Result<usize, WireError> {
    if kind == REQUEST_KIND {
        Ok(16usize)
    } else if kind == PERMISSION_KIND {
        Ok(8usize)
    } else {
        Err(WireError::UnknownKind(kind))
    }
}

/// The message that `bytes` begin with.
pub open spec fn read_message(bytes: Seq<u8>) -> Result<Message, WireError> {
    if bytes.len() < 4 {
        Err(WireError::Truncated)
    } else {
        let kind = spec_u32_from_le_bytes(bytes.subrange(0, 4));
        if kind == REQUEST_KIND {
            match read_count(rest(bytes, 4)) {
                Err(e) => Err(e),
                Ok(date) => match read_count(rest(bytes, 12)) {
                    Err(e) => Err(e),
                    Ok(requester) => Ok(Message::Request { date, requester: NodeId(requester) }),
                },
            }
        } else if kind == PERMISSION_KIND {
            match read_count(rest(bytes, 4)) {
                Err(e) => Err(e),
                Ok(authorizer) => Ok(Message::Permission { authorizer: NodeId(authorizer) }),
            }
        } else {
            Err(WireError::UnknownKind(kind))
        }
    }
}

/// Writes a port.
pub fn encode_port(port: u16) -> (bytes: Vec<u8>)
    ensures
        bytes@ == port_bytes(port),
{
    match bincode_put_u16(port) {
        Ok(bytes) => bytes,
        Err(_) => vstd::pervasive::unreached(),
    }
}

/// Reads a port from the front of `bytes`.
pub fn decode_port(bytes: &[u8]) -> (r: Result<u16, WireError>)
    ensures
        r == read_port(bytes@),
{
    match bincode_get_u16(bytes) {
        Ok(port) => Ok(port),
        Err(_) => Err(WireError::Truncated),
    }
}

/// Writes a count, a clock or the number of an identifier.
pub fn encode_count(n: usize) -> (bytes: Vec<u8>)
    ensures
        bytes@ == count_bytes(n),
{
    match bincode_put_u64(n as u64) {
        Ok(bytes) => bytes,
        Err(_) => vstd::pervasive::unreached(),
    }
}

/// Reads a count from the front of `bytes`.
pub fn decode_count(bytes: &[u8]) -> (r: Result<usize, WireError>)
    ensures
        r == read_count(bytes@),
{
    match bincode_get_u64(bytes) {
        Ok(v) => {
            if v > usize::MAX as u64 {
                Err(WireError::Oversized(v))
            } else {
                Ok(v as usize)
            }
        },
        Err(_) => Err(WireError::Truncated),
    }
}

/// What is left of `bytes` after the first `n`.
fn skip(bytes: &[u8], n: usize) -> (out: &[u8])
    ensures
        out@ == rest(bytes@, n as int),
{
    if n <= bytes.len() {
        slice_subrange(bytes, n, bytes.len())
    } else {
        slice_subrange(bytes, 0, 0)
    }
}

/// Writes the first datagram of a plan.
pub fn encode_identity(node_count: usize, id: NodeId) -> (bytes: Vec<u8>)
    ensures
        bytes@ == identity_bytes(node_count, id),
{
    let mut bytes = encode_count(node_count);
    let mut tail = encode_count(id.0);
    bytes.append(&mut tail);
    bytes
}

/// Reads the first datagram of a plan from the front of `bytes`.
pub fn decode_identity(bytes: &[u8]) -> (r: Result<(usize, NodeId), WireError>)
    ensures
        r == read_identity(bytes@),
{
    let node_count = match decode_count(bytes) {
        Ok(n) => n,
        Err(e) => {
            return Err(e);
        },
    };
    match decode_count(skip(bytes, 8)) {
        Ok(id) => Ok((node_count, NodeId(id))),
        Err(e) => Err(e),
    }
}

/// Reads the kind of a message from the front of `bytes` and says how many
/// bytes follow it.
pub fn decode_kind(bytes: &[u8]) -> (r: Result<usize, WireError>)
    ensures
        r == if bytes@.len() < 4 {
            Err::<usize, WireError>(WireError::Truncated)
        } else {
            body_len(spec_u32_from_le_bytes(bytes@.subrange(0, 4)))
        },
{
    match bincode_get_u32(bytes) {
        Err(_) => Err(WireError::Truncated),
        Ok(kind) => {
            if kind == REQUEST_KIND {
                Ok(16)
            } else if kind == PERMISSION_KIND {
                Ok(8)
            } else {
                Err(WireError::UnknownKind(kind))
            }
        },
    }
}

impl Message {
    /// Writes the message.
    pub fn encode(&self) -> (bytes: Vec<u8>)
        ensures
            bytes@ == message_bytes(*self),
    {
        match self {
            Message::Request { date, requester } => {
                let mut bytes = match bincode_put_u32(REQUEST_KIND) {
                    Ok(bytes) => bytes,
                    Err(_) => vstd::pervasive::unreached(),
                };
                let mut first = encode_count(*date);
                let mut second = encode_count(requester.0);
                bytes.append(&mut first);
                bytes.append(&mut second);
                bytes
            },
            Message::Permission { authorizer } => {
                let mut bytes = match bincode_put_u32(PERMISSION_KIND) {
                    Ok(bytes) => bytes,
                    Err(_) => vstd::pervasive::unreached(),
                };
                let mut first = encode_count(authorizer.0);
                bytes.append(&mut first);
                bytes
            },
        }
    }

    /// Reads a message from the front of `bytes`.
    pub fn decode(bytes: &[u8]) -> (r: Result<Message, WireError>)
        ensures
            r == read_message(bytes@),
    {
        let kind = match bincode_get_u32(bytes) {
            Ok(kind) => kind,
            Err(_) => {
                return Err(WireError::Truncated);
            },
        };
        if kind == REQUEST_KIND {
            let date = match decode_count(skip(bytes, 4)) {
                Ok(date) => date,
                Err(e) => {
                    return Err(e);
                },
            };
            match decode_count(skip(bytes, 12)) {
                Ok(requester) => Ok(Message::Request { date, requester: NodeId(requester) }),
                Err(e) => Err(e),
            }
        } else if kind == PERMISSION_KIND {
            match decode_count(skip(bytes, 4)) {
                Ok(authorizer) => Ok(Message::Permission { authorizer: NodeId(authorizer) }),
                Err(e) => Err(e),
            }
        } else {
            Err(WireError::UnknownKind(kind))
        }
    }
}

/// What is written is read back as it was: a count, an identity and a message
/// each survive the way over the wire, whatever follows them there.
pub proof fn lemma_round_trip(n: usize, id: NodeId, m: Message, port: u16, trailing: Seq<u8>)
    ensures
        read_port(port_bytes(port) + trailing) == Ok::<u16, WireError>(port),
        read_count(count_bytes(n) + trailing) == Ok::<usize, WireError>(n),
        read_identity(identity_bytes(n, id) + trailing) == Ok::<(usize, NodeId), WireError>(
            (n, id),
        ),
        read_message(message_bytes(m) + trailing) == Ok::<Message, WireError>(m),
{
    vstd::bytes::lemma_auto_spec_u16_to_from_le_bytes();
    vstd::bytes::lemma_auto_spec_u32_to_from_le_bytes();
    vstd::bytes::lemma_auto_spec_u64_to_from_le_bytes();
    lemma_count_round_trip(n, trailing);
    assert((port_bytes(port) + trailing).subrange(0, 2) =~= port_bytes(port));
    let after_n = count_bytes(id.0) + trailing;
    lemma_count_round_trip(n, after_n);
    lemma_count_round_trip(id.0, trailing);
    assert(identity_bytes(n, id) + trailing =~= count_bytes(n) + after_n);
    assert(rest(count_bytes(n) + after_n, 8) =~= after_n);
    match m {
        Message::Request { date, requester } => {
            let kind = spec_u32_to_le_bytes(REQUEST_KIND);
            let tail = count_bytes(requester.0) + trailing;
            let body = count_bytes(date) + tail;
            let all = message_bytes(m) + trailing;
            assert(all =~= kind + body);
            assert(all.subrange(0, 4) =~= kind);
            assert(rest(all, 4) =~= body);
            assert(rest(all, 12) =~= tail);
            lemma_count_round_trip(date, tail);
            lemma_count_round_trip(requester.0, trailing);
        },
        Message::Permission { authorizer } => {
            let kind = spec_u32_to_le_bytes(PERMISSION_KIND);
            let body = count_bytes(authorizer.0) + trailing;
            let all = message_bytes(m) + trailing;
            assert(all =~= kind + body);
            assert(all.subrange(0, 4) =~= kind);
            assert(rest(all, 4) =~= body);
            lemma_count_round_trip(authorizer.0, trailing);
        },
    }
}

/// A count is read back as it was written.
pub proof fn lemma_count_round_trip(n: usize, trailing: Seq<u8>)
    ensures
        count_bytes(n).len() == 8,
        read_count(count_bytes(n) + trailing) == Ok::<usize, WireError>(n),
{
    vstd::bytes::lemma_auto_spec_u64_to_from_le_bytes();
    assert((count_bytes(n) + trailing).subrange(0, 8) =~= count_bytes(n));
}

} // verus!
