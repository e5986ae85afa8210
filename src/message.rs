//! Protocol messages, their mathematical views and their canonical bytes.

use vstd::prelude::*;
use crate::codec::{append_bytes, length_prefixed, put_length_prefixed, put_varint, varint};

verus! {

/// A client operation, stamped by the client.
#[derive(Debug)]
pub struct Request {
    pub operation: Vec<u8>,
    pub timestamp: u64,
    pub client_id: u64,
}

/// What a [`Request`] holds.
pub struct RequestView {
    pub operation: Seq<u8>,
    pub timestamp: u64,
    pub client_id: u64,
}

impl View for Request {
    type V = RequestView;

    open spec fn view(&self) -> RequestView {
        RequestView {
            operation: self.operation@,
            timestamp: self.timestamp,
            client_id: self.client_id,
        }
    }
}

/// Copies a byte vector.
pub fn copy_bytes(v: &Vec<u8>) -> (r: Vec<u8>)
    ensures
        r@ == v@,
{
    let mut r: Vec<u8> = Vec::new();
    append_bytes(&mut r, v.as_slice());
    r
}

impl Clone for Request {
    fn clone(&self) -> (r: Self)
        ensures
            r@ == self@,
    {
        Request {
            operation: copy_bytes(&self.operation),
            timestamp: self.timestamp,
            client_id: self.client_id,
        }
    }
}

/// The primary's proposal binding a request to a sequence number in a view.
#[derive(Debug)]
pub struct PrePrepare {
    pub view: u64,
    pub seq_num: u64,
    pub digest: [u8; 32],
    pub request: Request,
}

/// What a [`PrePrepare`] holds.
pub struct PrePrepareView {
    pub view: u64,
    pub seq_num: u64,
    pub digest: Seq<u8>,
    pub request: RequestView,
}

impl View for PrePrepare {
    type V = PrePrepareView;

    open spec fn view(&self) -> PrePrepareView {
        PrePrepareView {
            view: self.view,
            seq_num: self.seq_num,
            digest: self.digest@,
            request: self.request@,
        }
    }
}

impl Clone for PrePrepare {
    fn clone(&self) -> (r: Self)
        ensures
            r@ == self@,
    {
        PrePrepare {
            view: self.view,
            seq_num: self.seq_num,
            digest: self.digest,
            request: self.request.clone(),
        }
    }
}

/// A replica's vote that it accepted the primary's proposal.
#[derive(Clone, Copy, Debug)]
pub struct Prepare {
    pub view: u64,
    pub seq_num: u64,
    pub digest: [u8; 32],
    pub replica_id: u32,
}

/// A replica's vote that it saw a prepared proposal.
#[derive(Clone, Copy, Debug)]
pub struct Commit {
    pub view: u64,
    pub seq_num: u64,
    pub digest: [u8; 32],
    pub replica_id: u32,
}

/// A replica's answer to a client.
#[derive(Debug)]
pub struct Reply {
    view: u64,
    timestamp: u64,
    client_id: u64,
    replica_id: u32,
    result: Vec<u8>,
}

impl Reply {
    pub fn new(view: u64, timestamp: u64, client_id: u64, replica_id: u32, result: Vec<u8>) -> (r: Reply)
        ensures
            r.canonical() == varint(view) + varint(timestamp) + varint(client_id) + varint(
                replica_id as u64,
            ) + length_prefixed(result@),
    {
        Reply { view, timestamp, client_id, replica_id, result }
    }
}

impl Reply {
    /// The fields: view, timestamp, client id, replica id and result.
    pub fn into_parts(self) -> (r: (u64, u64, u64, u32, Vec<u8>))
        ensures
            self.canonical() == varint(r.0) + varint(r.1) + varint(r.2) + varint(r.3 as u64)
                + length_prefixed(r.4@),
    {
        (self.view, self.timestamp, self.client_id, self.replica_id, self.result)
    }
}

impl Clone for Reply {
    fn clone(&self) -> (r: Self)
        ensures
            r.canonical() == self.canonical(),
    {
        Reply {
            view: self.view,
            timestamp: self.timestamp,
            client_id: self.client_id,
            replica_id: self.replica_id,
            result: copy_bytes(&self.result),
        }
    }
}

/// A message with the signature of its sender over the message's canonical bytes.
#[derive(Debug)]
pub struct SignedMessage<T> {
    pub message: T,
    pub signature: Vec<u8>,
    pub signer_id: u32,
}

impl<T: Clone> Clone for SignedMessage<T> {
    fn clone(&self) -> (r: Self) {
        SignedMessage {
            message: self.message.clone(),
            signature: copy_bytes(&self.signature),
            signer_id: self.signer_id,
        }
    }
}

/// Every message that travels between replicas and clients.
#[derive(Debug)]
pub enum PBFTMessage {
    Request(SignedMessage<Request>),
    PrePrepare(SignedMessage<PrePrepare>),
    Prepare(SignedMessage<Prepare>),
    Commit(SignedMessage<Commit>),
    Reply(SignedMessage<Reply>),
}

impl Clone for PBFTMessage {
    fn clone(&self) -> (r: Self) {
        match self {
            PBFTMessage::Request(m) => PBFTMessage::Request(m.clone()),
            PBFTMessage::PrePrepare(m) => PBFTMessage::PrePrepare(m.clone()),
            PBFTMessage::Prepare(m) => PBFTMessage::Prepare(m.clone()),
            PBFTMessage::Commit(m) => PBFTMessage::Commit(m.clone()),
            PBFTMessage::Reply(m) => PBFTMessage::Reply(m.clone()),
        }
    }
}

/// A message that has a canonical byte encoding, the bytes that are signed.
pub trait Canonical {
    spec fn canonical(&self) -> Seq<u8>;

    fn canonical_bytes(&self) -> (r: Vec<u8>)
        ensures
            r@ == self.canonical(),
    ;
}

/// The canonical bytes of a request with these fields.
pub open spec fn request_bytes(r: RequestView) -> Seq<u8> {
    length_prefixed(r.operation) + varint(r.timestamp) + varint(r.client_id)
}

/// The canonical bytes of a vote (a Prepare or a Commit) with these fields.
pub open spec fn vote_bytes(view: u64, seq_num: u64, digest: Seq<u8>, replica_id: u32) -> Seq<u8> {
    varint(view) + varint(seq_num) + digest + varint(replica_id as u64)
}

impl Canonical for Request {
    open spec fn canonical(&self) -> Seq<u8> {
        request_bytes(self@)
    }

    fn canonical_bytes(&self) -> (r: Vec<u8>) {
        let mut out: Vec<u8> = Vec::new();
        put_length_prefixed(&mut out, self.operation.as_slice());
        put_varint(&mut out, self.timestamp);
        put_varint(&mut out, self.client_id);
        out
    }
}

impl Canonical for PrePrepare {
    open spec fn canonical(&self) -> Seq<u8> {
        varint(self.view) + varint(self.seq_num) + self.digest@ + request_bytes(self.request@)
    }

    fn canonical_bytes(&self) -> (r: Vec<u8>) {
        let mut out: Vec<u8> = Vec::new();
        put_varint(&mut out, self.view);
        put_varint(&mut out, self.seq_num);
        append_bytes(&mut out, self.digest.as_slice());
        let req = self.request.canonical_bytes();
        append_bytes(&mut out, req.as_slice());
        out
    }
}

impl Canonical for Prepare {
    open spec fn canonical(&self) -> Seq<u8> {
        vote_bytes(self.view, self.seq_num, self.digest@, self.replica_id)
    }

    fn canonical_bytes(&self) -> (r: Vec<u8>) {
        let mut out: Vec<u8> = Vec::new();
        put_varint(&mut out, self.view);
        put_varint(&mut out, self.seq_num);
        append_bytes(&mut out, self.digest.as_slice());
        put_varint(&mut out, self.replica_id as u64);
        out
    }
}

impl Canonical for Commit {
    open spec fn canonical(&self) -> Seq<u8> {
        vote_bytes(self.view, self.seq_num, self.digest@, self.replica_id)
    }

    fn canonical_bytes(&self) -> (r: Vec<u8>) {
        let mut out: Vec<u8> = Vec::new();
        put_varint(&mut out, self.view);
        put_varint(&mut out, self.seq_num);
        append_bytes(&mut out, self.digest.as_slice());
        put_varint(&mut out, self.replica_id as u64);
        out
    }
}

impl Canonical for Reply {
    closed spec fn canonical(&self) -> Seq<u8> {
        varint(self.view) + varint(self.timestamp) + varint(self.client_id) + varint(
            self.replica_id as u64,
        ) + length_prefixed(self.result@)
    }

    fn canonical_bytes(&self) -> (r: Vec<u8>) {
        let mut out: Vec<u8> = Vec::new();
        put_varint(&mut out, self.view);
        put_varint(&mut out, self.timestamp);
        put_varint(&mut out, self.client_id);
        put_varint(&mut out, self.replica_id as u64);
        put_length_prefixed(&mut out, self.result.as_slice());
        out
    }
}

} // verus!
