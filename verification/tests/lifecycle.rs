use tiny_tokio_actor::actor::lifecycle::{ActorLifecycle, RunnerAction, RunnerEvent, RunnerPhase};

#[test]
fn runs_pre_start_first() {
    let lifecycle = ActorLifecycle::new(0);
    assert_eq!(lifecycle.action(), RunnerAction::PreStart);
    assert_eq!(lifecycle.current_phase(), RunnerPhase::Starting);
    assert_eq!(lifecycle.retries(), 0);
}

#[test]
fn full_run() {
    let mut lifecycle = ActorLifecycle::new(0);
    assert_eq!(lifecycle.step(RunnerEvent::PreStartDone), RunnerAction::NextMessage);
    assert_eq!(lifecycle.step(RunnerEvent::MessageHandled), RunnerAction::NextMessage);
    assert_eq!(lifecycle.step(RunnerEvent::MessageHandled), RunnerAction::NextMessage);
    assert_eq!(lifecycle.step(RunnerEvent::MailboxClosed), RunnerAction::PostStop);
    assert_eq!(lifecycle.step(RunnerEvent::PostStopDone), RunnerAction::Exit);
    assert_eq!(lifecycle.current_phase(), RunnerPhase::Stopped);
}

#[test]
fn out_of_order_events_change_nothing() {
    let mut lifecycle = ActorLifecycle::new(2);
    assert_eq!(lifecycle.step(RunnerEvent::MessageHandled), RunnerAction::PreStart);
    assert_eq!(lifecycle.step(RunnerEvent::MailboxClosed), RunnerAction::PreStart);
    assert_eq!(lifecycle.step(RunnerEvent::TimedOut), RunnerAction::PreStart);
    assert_eq!(lifecycle.step(RunnerEvent::PreStartDone), RunnerAction::NextMessage);
    assert_eq!(lifecycle.step(RunnerEvent::PreStartDone), RunnerAction::NextMessage);
    assert_eq!(lifecycle.step(RunnerEvent::PreStartFailed), RunnerAction::NextMessage);
    assert_eq!(lifecycle.step(RunnerEvent::PostStopDone), RunnerAction::NextMessage);
    assert_eq!(lifecycle.step(RunnerEvent::Unregistered), RunnerAction::NextMessage);
}

#[test]
fn stopped_stays_stopped() {
    let mut lifecycle = ActorLifecycle::new(0);
    lifecycle.step(RunnerEvent::PreStartDone);
    lifecycle.step(RunnerEvent::MailboxClosed);
    lifecycle.step(RunnerEvent::PostStopDone);
    for event in [
        RunnerEvent::PreStartDone,
        RunnerEvent::PreStartFailed,
        RunnerEvent::MessageHandled,
        RunnerEvent::MailboxClosed,
        RunnerEvent::TimedOut,
        RunnerEvent::PostStopDone,
        RunnerEvent::Unregistered,
    ] {
        assert_eq!(lifecycle.step(event), RunnerAction::Exit);
    }
}

#[test]
fn mailbox_closed_before_any_message() {
    let mut lifecycle = ActorLifecycle::new(0);
    lifecycle.step(RunnerEvent::PreStartDone);
    assert_eq!(lifecycle.step(RunnerEvent::MailboxClosed), RunnerAction::PostStop);
}

#[test]
fn failed_start_is_retried_five_times_then_given_up() {
    // a retry strategy of five restarts without interval
    let mut lifecycle = ActorLifecycle::new(5);
    for attempt in 1..=5usize {
        assert_eq!(lifecycle.step(RunnerEvent::PreStartFailed), RunnerAction::Restart);
        assert_eq!(lifecycle.retries(), attempt);
    }
    assert_eq!(lifecycle.step(RunnerEvent::PreStartFailed), RunnerAction::Unregister);
    assert_eq!(lifecycle.retries(), 5);
    assert_eq!(lifecycle.step(RunnerEvent::Unregistered), RunnerAction::Exit);
}

#[test]
fn restart_that_succeeds_runs_the_actor() {
    let mut lifecycle = ActorLifecycle::new(5);
    assert_eq!(lifecycle.step(RunnerEvent::PreStartFailed), RunnerAction::Restart);
    assert_eq!(lifecycle.step(RunnerEvent::PreStartFailed), RunnerAction::Restart);
    assert_eq!(lifecycle.step(RunnerEvent::PreStartDone), RunnerAction::NextMessage);
    assert_eq!(lifecycle.retries(), 2);
}

#[test]
fn stop_strategy_gives_up_at_once() {
    let mut lifecycle = ActorLifecycle::new(0);
    assert_eq!(lifecycle.step(RunnerEvent::PreStartFailed), RunnerAction::Unregister);
    assert_eq!(lifecycle.step(RunnerEvent::Unregistered), RunnerAction::Exit);
}

#[test]
fn timeout_stops_and_leaves_the_system() {
    let mut lifecycle = ActorLifecycle::new(0);
    lifecycle.step(RunnerEvent::PreStartDone);
    assert_eq!(lifecycle.step(RunnerEvent::MessageHandled), RunnerAction::NextMessage);
    assert_eq!(lifecycle.step(RunnerEvent::TimedOut), RunnerAction::PostStop);
    assert_eq!(lifecycle.step(RunnerEvent::PostStopDone), RunnerAction::Unregister);
    assert_eq!(lifecycle.step(RunnerEvent::Unregistered), RunnerAction::Exit);
    assert_eq!(lifecycle.current_phase(), RunnerPhase::Stopped);
}

#[test]
fn stop_request_runs_post_stop_then_exits() {
    let mut lifecycle = ActorLifecycle::new(0);
    lifecycle.step(RunnerEvent::PreStartDone);
    lifecycle.step(RunnerEvent::MessageHandled);
    assert_eq!(lifecycle.step(RunnerEvent::StopRequested), RunnerAction::PostStop);
    assert_eq!(lifecycle.step(RunnerEvent::PostStopDone), RunnerAction::Exit);
}

#[test]
fn stop_request_outside_running_changes_nothing() {
    let mut lifecycle = ActorLifecycle::new(1);
    assert_eq!(lifecycle.step(RunnerEvent::StopRequested), RunnerAction::PreStart);
    lifecycle.step(RunnerEvent::PreStartDone);
    lifecycle.step(RunnerEvent::MailboxClosed);
    assert_eq!(lifecycle.step(RunnerEvent::StopRequested), RunnerAction::PostStop);
    assert_eq!(lifecycle.step(RunnerEvent::PostStopDone), RunnerAction::Exit);
    assert_eq!(lifecycle.step(RunnerEvent::PostStopDone), RunnerAction::Exit);
}
