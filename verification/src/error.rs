//! Error handling

use crate::allocator::NodeId;
use crate::widget::WidgetId;
use vstd::prelude::*;

verus! {

/// What can go wrong in the layout engine and in the event loop around it.
#[derive(Debug, PartialEq, Eq)]
pub enum Error {
    /// A failure reported by a widget or by the terminal backend.
    External(String),
    /// The handle reaches no node.
    NodeNotFound(NodeId),
    /// The handle reaches no widget.
    WidgetNotFound(WidgetId),
    SignalSendFail,
    NodeReadLockError(NodeId),
    NodeWriteLockError(NodeId),
    WidgetWriteLockError(WidgetId),
    PollInputFailed,
    /// The operation is for leaves, and the node is a container.
    ExpectedLeaf(NodeId),
    /// The operation is for containers, and the node is none.
    ExpectedContainer(NodeId),
    /// The node cannot become a child there: it is the root or a floating
    /// window, it has a parent already, or it contains the container that was
    /// to take it.
    InvalidChild(NodeId),
    /// The container has no child at that place.
    NoSuchChild(NodeId),
    /// The root cannot be removed, split off or given a parent.
    RootIsFixed,
    /// The node has no parent, and the operation needs its place in one.
    Detached(NodeId),
    TerminalError,
    /// Nothing is focused.
    NoFocus,
}

impl Error {
    /// The error for a failure that is reported in words.
    pub fn external(msg: String) -> (e: Self)
        ensures
            e == Error::External(msg),
    {
        Self::External(msg)
    }
}

pub type Result<T> = std::result::Result<T, Error>;

} // verus!
