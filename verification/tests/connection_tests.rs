use game::{
    command_rejection, AttackError, CommandError, CommandRejected, GridPosition, MoveError,
    TickClock, UnitId, SERVER_TICK_NANOS,
};

#[test]
fn every_command_error_has_a_rejection() {
    let unit = UnitId(7);
    let start = GridPosition::new(0, 0);
    let goal = GridPosition::new(3, 1);

    assert_eq!(command_rejection(CommandError::EmptyUnitSelection), CommandRejected::EmptyUnitSelection);
    assert_eq!(
        command_rejection(CommandError::Move(MoveError::UnitNotFound(unit))),
        CommandRejected::UnitNotFound { unit }
    );
    assert_eq!(
        command_rejection(CommandError::Move(MoveError::NoPath { start, goal })),
        CommandRejected::NoPath { start, goal }
    );
    assert_eq!(command_rejection(CommandError::UnitNotOwned(unit)), CommandRejected::UnitNotOwned { unit });
    assert_eq!(
        command_rejection(CommandError::Attack(AttackError::AttackerNotFound(unit))),
        CommandRejected::UnitNotFound { unit }
    );
    assert_eq!(
        command_rejection(CommandError::Attack(AttackError::TargetNotFound(unit))),
        CommandRejected::UnitNotFound { unit }
    );
    assert_eq!(
        command_rejection(CommandError::Attack(AttackError::FriendlyTarget(unit))),
        CommandRejected::FriendlyTarger { unit }
    );
}

#[test]
fn command_errors_convert_from_their_parts() {
    let unit = UnitId(3);
    assert_eq!(CommandError::from(MoveError::UnitNotFound(unit)), CommandError::Move(MoveError::UnitNotFound(unit)));
    assert_eq!(
        CommandError::from(AttackError::FriendlyTarget(unit)),
        CommandError::Attack(AttackError::FriendlyTarget(unit))
    );
}

#[test]
fn half_ticks_add_up_to_one_tick() {
    let mut clock = TickClock::new();

    assert_eq!(clock.advance(25_000_000), 0);
    assert_eq!(clock.accumulated(), 25_000_000);
    assert_eq!(clock.advance(25_000_000), 1);
    assert_eq!(clock.accumulated(), 0);
}

#[test]
fn long_frames_run_every_due_tick_and_keep_the_rest() {
    let mut clock = TickClock::new();

    assert_eq!(clock.advance(2_000_000_000), 40);
    assert_eq!(clock.accumulated(), 0);
    assert_eq!(clock.advance(3 * SERVER_TICK_NANOS + 7), 3);
    assert_eq!(clock.accumulated(), 7);
}
