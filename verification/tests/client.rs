use hashring::client::{
    accumulated_write_ambiguity, command_failure, handle_retryable, jittered_poll_percent,
    judge_attempt, new_request_id, poll_for_topology_changes, poll_percent_for,
    refresh_after_unavailable, refresh_topology, refreshed_meanwhile, remaining, retry_delay,
    retry_delay_for, validate_key_size, validate_value_size, AttemptDecision, AttemptOutcome,
    BackgroundRefresh, ClientConfig, ClientError, Refresh, RefreshDecision, TopologyRefreshError,
};
use hashring::errors::{Code, ErrorCode, OperationError, Status};
use hashring::limits::{DEFAULT_MAX_KEY_BYTES, DEFAULT_MAX_VALUE_BYTES};
use hashring::records::RecordVersion;
use hashring::topology::{Member, TopologyError, TopologySnapshot};

const SECOND: u64 = 1_000_000_000;

fn test_topology(epoch: u64) -> TopologySnapshot {
    TopologySnapshot::new(
        epoch,
        1,
        1,
        vec![Member { node_id: "node-1".into(), endpoint: "http://127.0.0.1:1".into() }],
    )
    .unwrap()
}

fn operation_error(code: ErrorCode, current_epoch: u64, unknown: bool) -> OperationError {
    OperationError {
        code,
        message: String::new(),
        current_epoch,
        owner_endpoint: String::new(),
        retryable: true,
        unknown_write_outcome: unknown,
        retry_after_millis: 0,
    }
}

#[test]
fn write_ambiguity_is_sticky_across_later_permanent_errors() {
    let unavailable = Status::new(Code::Unavailable, "response was lost");
    let unimplemented = Status::new(Code::Unimplemented, "wrong endpoint");

    let unknown = accumulated_write_ambiguity(false, &unavailable);
    assert!(unknown);
    assert!(accumulated_write_ambiguity(unknown, &unimplemented));
    assert!(!accumulated_write_ambiguity(false, &unimplemented));
}

#[test]
fn topology_refresh_retries_only_transient_rpc_failures() {
    assert!(TopologyRefreshError::Rpc(Status::new(
        Code::Unavailable,
        "coordinator is restarting"
    ))
    .is_retryable());
    assert!(!TopologyRefreshError::Rpc(Status::new(Code::InvalidArgument, "malformed request"))
        .is_retryable());
    assert!(!TopologyRefreshError::InvalidTopology(TopologyError::NoMembers).is_retryable());
}

#[test]
fn idle_polling_fetches_topology_only_after_the_epoch_advances() {
    let mut cached = test_topology(1);
    assert_eq!(poll_for_topology_changes(cached.epoch, Some(1)), None);
    assert_eq!(poll_for_topology_changes(cached.epoch, None), None);
    let wanted = poll_for_topology_changes(cached.epoch, Some(2));
    assert_eq!(wanted, Some(2));
    assert!(matches!(
        refresh_topology(&mut cached, Some(Ok(test_topology(2))), wanted, false),
        RefreshDecision::Finish
    ));
    assert_eq!(cached.epoch, 2);

    assert!(matches!(
        refresh_topology(&mut cached, Some(Ok(test_topology(1))), None, false),
        RefreshDecision::Finish
    ));
    assert_eq!(cached.epoch, 2);
}

#[test]
fn background_refresh_triggers_are_task_and_network_single_flight() {
    let mut refresh = BackgroundRefresh::new();
    assert!(refresh.trigger_background_refresh(2));
    let handled = refresh.triggers;
    for _ in 0..1_000 {
        assert!(!refresh.trigger_background_refresh(3));
    }
    assert_eq!(refresh.minimum_epoch, 3);
    assert!(refresh.run_background_refresh(handled));
    assert!(!refresh.run_background_refresh(refresh.triggers));
    assert!(!refresh.running);
    assert!(refresh.trigger_background_refresh(1));
    assert_eq!(refresh.minimum_epoch, 3);
}

#[test]
fn unavailable_refresh_rejects_a_conflicting_equal_epoch() {
    let mut cached = test_topology(1);
    let other = TopologySnapshot::new(
        1,
        1,
        1,
        vec![Member { node_id: "node-2".into(), endpoint: "http://127.0.0.1:2".into() }],
    )
    .unwrap();

    assert!(matches!(
        refresh_after_unavailable(&mut cached, Some(Ok(other)), true),
        Err(ClientError::TopologyRefresh { unknown_write_outcome: true, .. })
    ));
    assert_eq!(cached, test_topology(1));
}

#[test]
fn permanent_moved_refresh_failure_preserves_unknown_write_outcome() {
    let mut cached = test_topology(1);
    let error = operation_error(ErrorCode::Moved, 2, false);
    let refresh = handle_retryable(&error, 1).unwrap();
    assert_eq!(refresh, Refresh::AtLeast(2));
    let failed = TopologyRefreshError::Rpc(Status::new(Code::InvalidArgument, "refused"));
    assert!(matches!(
        refresh_topology(&mut cached, Some(Err(failed)), Some(2), true),
        RefreshDecision::Fail(ClientError::TopologyRefresh { unknown_write_outcome: true, .. })
    ));
}

#[test]
fn moved_refresh_preserves_an_unknown_write_outcome_through_its_deadline() {
    let mut cached = test_topology(1);
    let error = operation_error(ErrorCode::Moved, 0, false);
    assert!(handle_retryable(&error, 1).is_some());
    assert!(matches!(
        refresh_topology(&mut cached, None, None, true),
        RefreshDecision::Fail(ClientError::DeadlineExceeded { unknown_write_outcome: true })
    ));
    assert!(matches!(
        remaining(SECOND, SECOND, true),
        Err(ClientError::DeadlineExceeded { unknown_write_outcome: true })
    ));
}

#[test]
fn degraded_and_unknown_write_errors_retry_without_forcing_same_epoch_refresh() {
    let mut attempt = 0;
    for (code, unknown) in
        [(ErrorCode::TemporarilyUnavailable, false), (ErrorCode::OutcomeUnknown, true)]
    {
        let error = operation_error(code, 1, unknown);
        assert_eq!(handle_retryable(&error, 1), Some(Refresh::Keep));
        attempt = retry_delay(attempt).1;
    }
    assert_eq!(attempt, 2);
}

#[test]
fn refused_calls_are_not_tried_again() {
    let mut error = operation_error(ErrorCode::TooLarge, 1, false);
    error.retryable = false;
    assert_eq!(handle_retryable(&error, 1), None);
    let decision = judge_attempt(AttemptOutcome::Refused(error), 1, true, true, true);
    match decision {
        AttemptDecision::Fail(ClientError::Operation(failure)) => {
            assert_eq!(failure.code, ErrorCode::TooLarge);
            assert!(failure.unknown_write_outcome);
        }
        _ => panic!("a permanent refusal ends the operation"),
    }
}

#[test]
fn each_outcome_of_a_try_has_its_consequence() {
    let judge = |outcome| judge_attempt(outcome, 5, true, true, false);
    assert!(matches!(
        judge(AttemptOutcome::ConnectTimedOut),
        AttemptDecision::Fail(ClientError::DeadlineExceeded { unknown_write_outcome: false })
    ));
    assert!(matches!(
        judge(AttemptOutcome::TimedOut),
        AttemptDecision::Fail(ClientError::DeadlineExceeded { unknown_write_outcome: true })
    ));
    assert!(matches!(
        judge(AttemptOutcome::NotConnected),
        AttemptDecision::Retry { refresh: Refresh::AfterUnavailable, unknown: false, .. }
    ));
    assert!(matches!(
        judge(AttemptOutcome::Failed(Status::new(Code::Unavailable, "gone"))),
        AttemptDecision::Retry { unknown: true, .. }
    ));
    assert!(matches!(
        judge(AttemptOutcome::Failed(Status::new(Code::InvalidArgument, "bad"))),
        AttemptDecision::Fail(ClientError::Rpc { code: Code::InvalidArgument, .. })
    ));
    let answered = |version| AttemptOutcome::Answered {
        value: b"v".to_vec(),
        version,
        current_epoch: 6,
    };
    assert!(matches!(
        judge(answered(None)),
        AttemptDecision::Fail(ClientError::MissingVersion)
    ));
    let version =
        RecordVersion { topology_epoch: 5, owner_sequence: 1, owner_node_id: "n".into() };
    assert!(matches!(
        judge(answered(Some(version))),
        AttemptDecision::Finish { stale: true, current_epoch: 6, .. }
    ));
}

#[test]
fn oversized_keys_and_values_fail_before_they_are_sent() {
    assert!(validate_key_size(&vec![0; DEFAULT_MAX_KEY_BYTES]).is_ok());
    let error = validate_key_size(&vec![0; DEFAULT_MAX_KEY_BYTES + 1]).unwrap_err();
    assert!(error.message().contains("65536"));
    assert!(validate_value_size(&vec![0; DEFAULT_MAX_VALUE_BYTES]).is_ok());
    assert!(validate_value_size(&vec![0; DEFAULT_MAX_VALUE_BYTES + 1]).is_err());
}

#[test]
fn request_ids_are_fresh() {
    let (first, second) = (new_request_id(), new_request_id());
    assert_eq!(first.len(), 36);
    assert_ne!(first, second);
}

#[test]
fn waits_grow_and_are_spread_at_random() {
    let waits: Vec<u64> = (0..20).map(|_| retry_delay(3).0).collect();
    let (low, _) = retry_delay_for(3, 0);
    assert!(waits.iter().all(|wait| *wait >= low));
    assert!(waits.iter().any(|wait| *wait != waits[0]));
    let percents: Vec<u32> = (0..60).map(|_| jittered_poll_percent()).collect();
    assert!(percents.iter().all(|percent| (80..=120).contains(percent)));
    assert!(percents.iter().any(|percent| *percent != percents[0]));
    assert_eq!(poll_percent_for(0), 80);
    assert_eq!(poll_percent_for(40), 120);
    assert_eq!(poll_percent_for(41), 80);
}

#[test]
fn a_refresh_by_somebody_else_is_enough() {
    assert!(refreshed_meanwhile(3, 2, 0, 0));
    assert!(refreshed_meanwhile(2, 2, 1, 0));
    assert!(!refreshed_meanwhile(2, 2, 1, 1));
}

#[test]
fn failed_fetches_after_an_outage_change_nothing() {
    let mut cached = test_topology(4);
    let failed = TopologyRefreshError::Transport("connection refused".into());
    assert_eq!(refresh_after_unavailable(&mut cached, Some(Err(failed)), true), Ok(false));
    assert_eq!(refresh_after_unavailable(&mut cached, Some(Ok(test_topology(5))), true), Ok(true));
    assert_eq!(cached, test_topology(5));
    assert_eq!(
        refresh_after_unavailable(&mut cached, None, false),
        Err(ClientError::DeadlineExceeded { unknown_write_outcome: false })
    );
}

#[test]
fn a_topology_that_is_too_old_is_asked_for_again() {
    let mut cached = test_topology(1);
    assert!(matches!(
        refresh_topology(&mut cached, Some(Ok(test_topology(2))), Some(3), false),
        RefreshDecision::Retry
    ));
    assert_eq!(cached.epoch, 2);
}

#[test]
fn settings_have_defaults() {
    let config = ClientConfig::new(7 * SECOND);
    assert_eq!(config.operation_timeout, 7 * SECOND);
    assert!(config.topology_poll_interval.is_some());
    assert_eq!(ClientConfig { topology_poll_interval: Some(0), ..config }.polls_every(), None);
}

#[test]
fn administrative_calls_fail_with_what_they_were_answered() {
    assert!(matches!(command_failure(None), ClientError::DeadlineExceeded { .. }));
    assert!(matches!(
        command_failure(Some(Status::new(Code::FailedPrecondition, "busy"))),
        ClientError::Rpc { code: Code::FailedPrecondition, .. }
    ));
}
