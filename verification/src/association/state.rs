//! The states of an association.

use vstd::prelude::*;

verus! {

/// The state of an association.
#[derive(Debug, Clone, Copy, PartialEq, Eq, Structural)]
pub enum AssociationState {
    Closed,
    CookieWait,
    CookieEchoed,
    Established,
    ShutdownAckSent,
    ShutdownPending,
    ShutdownReceived,
    ShutdownSent,
}

impl Default for AssociationState {
    fn default() -> (r: Self)
        ensures
            r == AssociationState::Closed,
    {
        AssociationState::Closed
    }
}

impl AssociationState {
    /// Whether there is no longer any need to keep the association.
    pub fn is_drained(&self) -> (r: bool)
        ensures
            r == (*self is Closed),
    {
        *self == AssociationState::Closed
    }
}

/// When acknowledgements are sent.
#[derive(Debug, Clone, Copy, PartialEq, Eq, Structural)]
pub enum AckMode {
    /// Delayed where nothing calls for an immediate one.
    Normal,
    /// Never delayed.
    NoDelay,
    /// Always delayed.
    AlwaysDelay,
}

impl Default for AckMode {
    fn default() -> (r: Self)
        ensures
            r == AckMode::Normal,
    {
        AckMode::Normal
    }
}

/// Whether an acknowledgement is owed.
#[derive(Debug, Clone, Copy, PartialEq, Eq, Structural)]
pub enum AckState {
    /// None is owed.
    Idle,
    /// One will be sent with the next packets.
    Immediate,
    /// One will be sent when the timer expires.
    Delay,
}

impl Default for AckState {
    fn default() -> (r: Self)
        ensures
            r == AckState::Idle,
    {
        AckState::Idle
    }
}

} // verus!
