use vstd::prelude::*;

use crate::types::NodeId;

verus! {

/// Why a transport operation failed.
#[derive(Debug)]
pub enum TransportError {
    ConnectionFailed(String),
    SendFailed(String),
    ReceiveFailed(String),
    Timeout,
    PeerUnreachable(NodeId),
}

} // verus!
