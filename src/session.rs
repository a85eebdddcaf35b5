//! The decisions of a player's session, one inbound event at a time.
//!
//! Each tick the session drains its queue of actions without waiting: every
//! action is one event, the empty queue ends the tick, and a disconnected
//! queue ends the session. The session answers each event with what to do;
//! geometry and sending are left to the caller.
use vstd::prelude::*;
use crate::lag::{recorded, LagWindow};

verus! {

/// One thing read from the player's inbound queue.
pub enum Inbound<T> {
    /// A movement intent.
    ShipState { throttle_up: bool },
    /// A latency probe, with the lag sample that it gave, if any.
    Ping { sample: Option<T> },
    /// The queue holds nothing more for this tick.
    Empty,
    /// The producer of the queue is gone.
    Disconnected,
}

/// What to do in answer to an inbound event.
#[derive(Clone, Copy, PartialEq, Eq, Debug)]
pub enum Reaction {
    /// Take the action's direction, normalised, as this tick's movement.
    Steer,
    /// Nothing to do.
    Ignore,
    /// Send a pong with the average of the recorded samples.
    Pong,
    /// Finish the tick: move, send the player's state when `send_player`
    /// holds, then send the environment.
    EndTick { send_player: bool },
    /// Stop the session at once, sending nothing more.
    Stop,
}

/// The state that a player's session keeps from event to event.
pub struct Session<T> {
    /// The player's state has been sent at least once.
    pub first_state_sent: bool,
    /// The throttle is engaged in the current tick.
    pub throttle_up: bool,
    /// The recent lag samples.
    pub lag: LagWindow<T>,
}

/// `after` and `r` are how a session in state `before` answers `event`.
pub open spec fn reacts<T>(before: Session<T>, event: Inbound<T>, after: Session<T>, r: Reaction) -> bool {
    match event {
        Inbound::ShipState { throttle_up } => {
            &&& r == if throttle_up { Reaction::Steer } else { Reaction::Ignore }
            &&& after.throttle_up == (before.throttle_up || throttle_up)
            &&& after.first_state_sent == before.first_state_sent
            &&& after.lag@ == before.lag@
        },
        Inbound::Ping { sample } => {
            &&& r == Reaction::Pong
            &&& after.throttle_up == before.throttle_up
            &&& after.first_state_sent == before.first_state_sent
            &&& after.lag@ == match sample {
                Some(v) => recorded(before.lag@, v),
                None => before.lag@,
            }
        },
        Inbound::Empty => {
            &&& r == (Reaction::EndTick { send_player: before.throttle_up || !before.first_state_sent })
            &&& !after.throttle_up
            &&& after.first_state_sent
            &&& after.lag@ == before.lag@
        },
        Inbound::Disconnected => {
            &&& r == Reaction::Stop
            &&& after.throttle_up == before.throttle_up
            &&& after.first_state_sent == before.first_state_sent
            &&& after.lag@ == before.lag@
        },
    }
}

impl<T> Session<T> {
    /// The session's invariant: its lag window is within capacity.
    pub open spec fn wf(&self) -> bool {
        self.lag.wf()
    }

    /// A session that has sent nothing yet.
    pub open spec fn is_fresh(&self) -> bool {
        &&& !self.first_state_sent
        &&& !self.throttle_up
        &&& self.lag@.len() == 0
    }

    /// A new session: nothing sent, throttle off, no samples.
    pub fn new() -> (r: Self)
        ensures
            r.wf(),
            r.is_fresh(),
    {
        Session { first_state_sent: false, throttle_up: false, lag: LagWindow::new() }
    }

    /// Answers one inbound event.
    pub fn on_inbound(&mut self, event: Inbound<T>) -> (r: Reaction)
        requires
            old(self).wf(),
        ensures
            final(self).wf(),
            reacts(*old(self), event, *final(self), r),
    {
        match event {
            Inbound::ShipState { throttle_up } => {
                if throttle_up {
                    self.throttle_up = true;
                    Reaction::Steer
                } else {
                    Reaction::Ignore
                }
            },
            Inbound::Ping { sample } => {
                match sample {
                    Some(v) => self.lag.record(v),
                    None => {},
                }
                Reaction::Pong
            },
            Inbound::Empty => {
                let send_player = self.throttle_up || !self.first_state_sent;
                self.first_state_sent = true;
                self.throttle_up = false;
                Reaction::EndTick { send_player }
            },
            Inbound::Disconnected => Reaction::Stop,
        }
    }
}

/// A fresh session whose queue stays empty sends the player's state at the
/// end of its first tick, and not at the end of its second.
pub proof fn lemma_first_state_once<T>(
    s0: Session<T>,
    s1: Session<T>,
    r1: Reaction,
    s2: Session<T>,
    r2: Reaction,
)
    requires
        s0.is_fresh(),
        reacts(s0, Inbound::Empty, s1, r1),
        reacts(s1, Inbound::Empty, s2, r2),
    ensures
        r1 == (Reaction::EndTick { send_player: true }),
        r2 == (Reaction::EndTick { send_player: false }),
{
}

} // verus!
