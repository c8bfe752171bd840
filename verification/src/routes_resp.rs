//! The request and response shapes of the store, and the write-ahead-log
//! entry that records every accepted mutation.

use vstd::prelude::*;

verus! {

/// Whether a request succeeded.
#[derive(Clone, Copy, Debug, PartialEq, Eq, Structural)]
pub enum Status {
    Success,
    Error,
}

#[derive(Debug)]
pub struct SetResponse {
    pub status: Status,
    pub message: String,
}

#[derive(Debug)]
pub struct GetResponse {
    pub status: Status,
    pub value: String,
}

#[derive(Debug)]
pub struct DeleteResponse {
    pub status: Status,
    pub message: String,
}

#[derive(Debug)]
pub struct LoginResponse {
    pub status: Status,
    pub token: String,
}

#[derive(Debug)]
pub struct ErrorResponse {
    pub status: Status,
    pub error: String,
}

/// A mutation accepted by the store.
#[derive(Clone, Debug)]
pub enum WalOp {
    Put { key: String, value: String },
    Delete { key: String },
}

/// The mathematical shape of a `WalOp`.
pub enum WalOpView {
    Put { key: Seq<char>, value: Seq<char> },
    Delete { key: Seq<char> },
}

impl View for WalOp {
    type V = WalOpView;

    open spec fn view(&self) -> WalOpView {
        match self {
            WalOp::Put { key, value } => WalOpView::Put { key: key@, value: value@ },
            WalOp::Delete { key } => WalOpView::Delete { key: key@ },
        }
    }
}

/// The key a `WalOp` touches.
pub open spec fn op_key(op: WalOpView) -> Seq<char> {
    match op {
        WalOpView::Put { key, .. } => key,
        WalOpView::Delete { key } => key,
    }
}

/// A write-ahead-log entry: a globally unique sequence number assigned at
/// creation, the operation, and the creation timestamp; immutable thereafter.
#[derive(Clone, Debug)]
pub struct Wal {
    pub sequence_number: u64,
    pub operation: WalOp,
    pub timestamp: String,
}

pub struct IncomingSetRequest {
    pub key: String,
    pub value: String,
}

pub struct IncomingGetRequest {
    pub key: String,
}

pub struct IncomingDeleteRequest {
    pub key: String,
}

pub struct IncomingLoginRequest {
    pub email: String,
}

} // verus!
