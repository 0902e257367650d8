//! The server side of a local connection: what a client is told about refused commands,
//! and how real time is cut into fixed simulation steps.
use vstd::prelude::*;
use crate::protocol::CommandRejected;
use crate::world::{AttackError, CommandError, MoveError, SERVER_TICK_NANOS};

verus! {

/// What the client is told about a refused command.
pub open spec fn rejection_of(error: CommandError) -> CommandRejected {
    match error {
        CommandError::EmptyUnitSelection => CommandRejected::EmptyUnitSelection,
        CommandError::Move(MoveError::UnitNotFound(unit)) => CommandRejected::UnitNotFound { unit },
        CommandError::Move(MoveError::NoPath { start, goal }) => CommandRejected::NoPath { start, goal },
        CommandError::UnitNotOwned(unit) => CommandRejected::UnitNotOwned { unit },
        CommandError::Attack(AttackError::AttackerNotFound(unit)) => CommandRejected::UnitNotFound { unit },
        CommandError::Attack(AttackError::TargetNotFound(unit)) => CommandRejected::UnitNotFound { unit },
        CommandError::Attack(AttackError::FriendlyTarget(unit)) => CommandRejected::FriendlyTarger { unit },
    }
}

/// The rejection message for a command error.
pub fn command_rejection(error: CommandError) -> (rejection: CommandRejected)
    ensures
        rejection == rejection_of(error),
{
    match error {
        CommandError::EmptyUnitSelection => CommandRejected::EmptyUnitSelection,
        CommandError::Move(MoveError::UnitNotFound(unit)) => CommandRejected::UnitNotFound { unit },
        CommandError::Move(MoveError::NoPath { start, goal }) => CommandRejected::NoPath { start, goal },
        CommandError::UnitNotOwned(unit) => CommandRejected::UnitNotOwned { unit },
        CommandError::Attack(AttackError::AttackerNotFound(unit)) => CommandRejected::UnitNotFound { unit },
        CommandError::Attack(AttackError::TargetNotFound(unit)) => CommandRejected::UnitNotFound { unit },
        CommandError::Attack(AttackError::FriendlyTarget(unit)) => CommandRejected::FriendlyTarger { unit },
    }
}

/// Real time, in nanoseconds, received but not yet simulated; always less than one tick.
pub struct TickClock {
    accumulator: u64,
}

impl TickClock {
    pub closed spec fn spec_accumulated(&self) -> u64 {
        self.accumulator
    }

    pub closed spec fn wf(&self) -> bool {
        self.accumulator < SERVER_TICK_NANOS
    }

    /// A clock with nothing accumulated.
    pub fn new() -> (clock: Self)
        ensures
            clock.wf(),
            clock.accumulated() == 0,
    {
        TickClock { accumulator: 0 }
    }

    /// Time received but not yet simulated, in nanoseconds.
    #[verifier::when_used_as_spec(spec_accumulated)]
    pub fn accumulated(&self) -> (nanos: u64)
        ensures
            nanos == self.spec_accumulated(),
    {
        self.accumulator
    }

    /// Adds `delta` nanoseconds and returns how many whole ticks have become due; the
    /// rest stays accumulated. No time is lost or invented:
    /// `accumulated + delta == ticks * SERVER_TICK_NANOS + accumulated'`.
    pub fn advance(&mut self, delta: u64) -> (ticks: u64)
        requires
            old(self).wf(),
            old(self).accumulated() + delta <= u64::MAX,
        ensures
            final(self).wf(),
            old(self).accumulated() + delta == ticks * SERVER_TICK_NANOS + final(self).accumulated(),
            final(self).accumulated() < SERVER_TICK_NANOS,
    {
        self.accumulator = self.accumulator + delta;
        let ghost total = self.accumulator;
        let mut ticks: u64 = 0;
        while self.accumulator >= SERVER_TICK_NANOS
            invariant
                total == ticks * SERVER_TICK_NANOS + self.accumulator,
                total <= u64::MAX,
            decreases self.accumulator,
        {
            self.accumulator = self.accumulator - SERVER_TICK_NANOS;
            assert((ticks + 1) * SERVER_TICK_NANOS <= total) by (nonlinear_arith)
                requires
                    total == ticks * SERVER_TICK_NANOS + self.accumulator + SERVER_TICK_NANOS,
                    self.accumulator >= 0,
            ;
            assert(ticks + 1 <= u64::MAX) by (nonlinear_arith)
                requires
                    (ticks + 1) * SERVER_TICK_NANOS <= total,
                    total <= u64::MAX,
                    SERVER_TICK_NANOS >= 1,
            ;
            ticks = ticks + 1;
        }
        ticks
    }
}

} // verus!
