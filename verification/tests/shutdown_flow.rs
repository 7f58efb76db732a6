use crawler::shutdown::ShutdownCoordinator;
use crawler::shutdown::ShutdownPhase;
use crawler::shutdown::ShutdownReason;

#[test]
fn first_trigger_wins_the_race() {
    let mut c = ShutdownCoordinator::start();
    assert_eq!(c.phase, ShutdownPhase::Running);
    c.trigger(ShutdownReason::Interrupted);
    assert_eq!(c.phase, ShutdownPhase::ShuttingDown);
    assert_eq!(c.reason, Some(ShutdownReason::Interrupted));
    c.trigger(ShutdownReason::TimedOut);
    assert_eq!(c.reason, Some(ShutdownReason::Interrupted));
}

#[test]
fn coordinator_exits_after_the_checkpoint_is_written() {
    let mut c = ShutdownCoordinator::start();
    c.trigger(ShutdownReason::TimedOut);
    c.finish();
    assert_eq!(c.phase, ShutdownPhase::Exited);
    assert_eq!(c.reason, Some(ShutdownReason::TimedOut));
}

#[test]
fn finish_before_any_trigger_changes_nothing() {
    let mut c = ShutdownCoordinator::start();
    c.finish();
    assert_eq!(c.phase, ShutdownPhase::Running);
    assert_eq!(c.reason, None);
}

#[test]
fn each_reason_has_its_own_termination_message() {
    let mut a = ShutdownCoordinator::start();
    a.trigger(ShutdownReason::Interrupted);
    assert_eq!(a.termination_message(), "Received Ctrl-C, Exit successfully");
    let mut b = ShutdownCoordinator::start();
    b.trigger(ShutdownReason::TimedOut);
    assert_eq!(b.termination_message(), "Exiting..");
}
