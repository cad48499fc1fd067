//! What the tasks of a download tell one another.
use crate::peer::message::{Message, MessageModel};
use vstd::prelude::*;

verus! {

/// A notice for a peer connection.
#[derive(Debug, Clone)]
pub enum Ipc {
    /// A message from the remote peer.
    Message(Message),
    /// A block of a piece is stored.
    BlockComplete(u32, u32),
    /// A piece is stored and verified.
    PieceComplete(u32),
    /// Every piece is stored.
    DownloadComplete,
    /// A block was sent to the remote peer.
    BlockUploaded,
}

/// The model of a notice.
pub enum IpcModel {
    Message(MessageModel),
    BlockComplete(u32, u32),
    PieceComplete(u32),
    DownloadComplete,
    BlockUploaded,
}

impl DeepView for Ipc {
    type V = IpcModel;

    open spec fn deep_view(&self) -> IpcModel {
        match self {
            Ipc::Message(m) => IpcModel::Message(m.deep_view()),
            Ipc::BlockComplete(p, b) => IpcModel::BlockComplete(*p, *b),
            Ipc::PieceComplete(p) => IpcModel::PieceComplete(*p),
            Ipc::DownloadComplete => IpcModel::DownloadComplete,
            Ipc::BlockUploaded => IpcModel::BlockUploaded,
        }
    }
}

} // verus!
