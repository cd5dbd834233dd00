//! The interactive two-click connection protocol: a small state machine that
//! turns an output-connector click followed by an input-connector click into
//! one `ConnectionStore` mutation. It is decoupled from pixel geometry and
//! never leaks into the persisted stores.

use vstd::prelude::*;
use crate::model::{add_transition, ConnectError, ConnectionStore};

verus! {

/// The protocol state: idle, or holding the clicked source node.
#[derive(Clone, Copy, Debug, PartialEq, Eq, Structural)]
pub enum LinkState {
    /// No link is being drawn; the initial and terminal state.
    Idle,
    /// An output connector was clicked; its node id is remembered until an
    /// input connector is clicked or the link is cancelled.
    PendingSource { source: u64 },
}

/// Ephemeral interaction state; only the produced connection (or the lack of
/// one) is observable outside the editor.
pub struct LinkEditor {
    state: LinkState,
}

impl LinkEditor {
    pub closed spec fn state_spec(self) -> LinkState {
        self.state
    }

    pub fn new() -> (r: LinkEditor)
        ensures
            r.state_spec() == LinkState::Idle,
    {
        LinkEditor { state: LinkState::Idle }
    }

    /// The pending source node id, if an output connector was clicked.
    pub fn pending_source(&self) -> (r: Option<u64>)
        ensures
            r == match self.state_spec() {
                LinkState::Idle => None::<u64>,
                LinkState::PendingSource { source } => Some(source),
            },
    {
        match self.state {
            LinkState::Idle => None,
            LinkState::PendingSource { source } => Some(source),
        }
    }

    /// Clicking an output connector records its node as the pending source;
    /// while already pending, the latest click wins.
    pub fn output_connector_clicked(&mut self, source: u64)
        ensures
            final(self).state_spec() == (LinkState::PendingSource { source }),
    {
        self.state = LinkState::PendingSource { source };
    }

    /// Cancelling discards the pending source without creating anything.
    pub fn cancel_pending_link(&mut self)
        ensures
            final(self).state_spec() == LinkState::Idle,
    {
        self.state = LinkState::Idle;
    }

    /// Clicking an input connector while a source is pending attempts to
    /// create the connection; whatever the store answers, the editor returns
    /// to idle. While idle the click is ignored and nothing changes.
    pub fn input_connector_clicked(&mut self, cs: &mut ConnectionStore, target: u64) -> (r: Option<
        Result<u64, ConnectError>,
    >)
        requires
            old(cs).wf(),
        ensures
            final(cs).wf(),
            final(self).state_spec() == LinkState::Idle,
            old(self).state_spec() == LinkState::Idle ==> r is None && *final(cs) == *old(cs),
            old(self).state_spec() matches LinkState::PendingSource { source } ==> (r matches Some(
                res,
            ) && add_transition(*old(cs), *final(cs), source, target, res)),
    {
        match self.state {
            LinkState::Idle => None,
            LinkState::PendingSource { source } => {
                let res = cs.add(source, target);
                self.state = LinkState::Idle;
                Some(res)
            },
        }
    }
}

} // verus!
