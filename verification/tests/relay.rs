use tempo_replay::evidence::{Completed, Dispatch};
use tempo_replay::relay::{
    advance, backoff, classify_response, disposition_name, judge, lanes, past_end, FailureStep, HeaderStep, Lane,
    Phase, Reader, RelayAction, RelayEvent, Reply, Step, Submission,
};
use tempo_replay::source::ReplayMetadata;
use tempo_replay::state::{BlockCursor, Disposition, OccurrenceId};
use tempo_replay::words::{Address, B256, U256};

fn queued(index: u32, sender: u8, expiring: bool) -> Dispatch {
    Dispatch {
        id: OccurrenceId { source_height: 1, source_index: index },
        transaction: ReplayMetadata {
            hash: B256::repeat_byte(index as u8),
            transaction_type: 2,
            sender: Address::repeat_byte(sender),
            nonce: u64::from(index),
            nonce_key: if expiring { U256 { hi: u128::MAX, lo: u128::MAX } } else { U256 { hi: 0, lo: 0 } },
            expiring,
            encoded_length: 1,
            gas_limit: 21_000,
            valid_before: None,
            valid_after: None,
        },
        raw: vec![index as u8],
        queued_at_ms: 0,
        target_observed: BlockCursor::default(),
        uncertain_delivery: false,
    }
}

fn indexes(lane: &[Dispatch]) -> Vec<u32> {
    lane.iter().map(|d| d.id.source_index).collect()
}

#[test]
fn rpc_classification_does_not_confuse_transport_or_nonce_ambiguity_with_rejection() {
    assert_eq!(classify_response(false, "nonce too low", false), Disposition::Ambiguous);
    assert_eq!(classify_response(true, "nonce too low", false), Disposition::Rejected);
    assert_eq!(classify_response(true, "nonce too low", true), Disposition::PossiblyIncluded);
    assert_eq!(classify_response(true, "already known", true), Disposition::AlreadyKnown);
    assert_eq!(classify_response(true, "expired", true), Disposition::Rejected);
}

#[test]
fn classification_ignores_case_and_finds_messages_inside_others() {
    assert_eq!(classify_response(true, "Transaction ALREADY KNOWN by pool", false), Disposition::AlreadyKnown);
    assert_eq!(classify_response(true, "tx Already Imported", true), Disposition::AlreadyKnown);
    assert_eq!(classify_response(true, "the NONCE is too LOW (5 < 6)", true), Disposition::PossiblyIncluded);
    assert_eq!(classify_response(true, "nonce too lo", true), Disposition::Rejected);
    assert_eq!(classify_response(true, "", true), Disposition::Rejected);
}

#[test]
fn dispositions_are_named() {
    assert_eq!(disposition_name(Disposition::Accepted), "accepted");
    assert_eq!(disposition_name(Disposition::AlreadyKnown), "already_known");
    assert_eq!(disposition_name(Disposition::Rejected), "rejected");
    assert_eq!(disposition_name(Disposition::PossiblyIncluded), "possibly_included");
    assert_eq!(disposition_name(Disposition::Ambiguous), "ambiguous");
}

#[test]
fn lanes_preserve_order_without_serializing_other_senders_or_expiring_nonces() {
    let parted = lanes(&vec![
        queued(0, 1, false),
        queued(1, 1, false),
        queued(2, 2, false),
        queued(3, 1, true),
        queued(4, 1, true),
    ]);
    let order: Vec<Vec<u32>> = parted.iter().map(|lane| indexes(lane)).collect();
    assert_eq!(order, vec![vec![0, 1], vec![3], vec![4], vec![2]]);
    // Every lane has its next request on its way before any of them is answered.
    let mut events = Vec::new();
    let mut running: Vec<Lane> = parted.into_iter().map(Lane::of).collect();
    while running.iter().any(|lane| lane.next(false).is_some()) {
        for lane in &running {
            events.extend(lane.next(false).map(|dispatch| (dispatch.id.source_index, "start")));
        }
        for lane in &mut running {
            if let Some(id) = lane.next(false).map(|dispatch| dispatch.id) {
                lane.record(Completed { id, attempts: Vec::new() });
                events.push((id.source_index, "finish"));
            }
        }
    }
    assert_eq!(running.into_iter().flat_map(Lane::finish).count(), 5);
    let position = |event| events.iter().position(|e| *e == event).unwrap();
    assert!(position((0, "finish")) < position((1, "start")));
    assert!(position((2, "start")) < position((0, "finish")));
    assert!(position((4, "start")) < position((3, "finish")));
}

#[test]
fn lanes_of_nothing_are_none() {
    assert!(lanes(&Vec::new()).is_empty());
    let mut other = queued(1, 1, false);
    other.transaction.nonce_key = U256 { hi: 0, lo: 7 };
    let parted = lanes(&vec![other, queued(0, 1, false)]);
    assert_eq!(indexes(&parted[0]), vec![0]);
    assert_eq!(indexes(&parted[1]), vec![1]);
}

#[test]
fn rpc_attempts_preserve_timing_and_structured_rejections_without_blind_retries() {
    let request = queued(1, 1, false);
    let mut submission = Submission::begin(&request, 2);
    assert_eq!(submission.answer(Reply::Hash(request.transaction.hash), 5, 9, false), Step::Finish);
    let completed = submission.finish();
    assert_eq!(completed.attempts.len(), 1);
    let attempt = &completed.attempts[0];
    assert_eq!(attempt.disposition, Disposition::Accepted);
    assert!(attempt.started_at_ms >= attempt.queued_at_ms && attempt.completed_at_ms >= attempt.started_at_ms);
    let mut submission = Submission::begin(&queued(2, 1, false), 2);
    let step = submission.answer(
        Reply::Response {
            code: -32003,
            message: "balance too low".into(),
            data: Some(r#"{"name":"InsufficientFeeTokenBalanceError","fee":"10","balance":"3"}"#.into()),
        },
        10,
        11,
        false,
    );
    assert_eq!(step, Step::Finish);
    let completed = submission.finish();
    assert_eq!(completed.attempts.len(), 1);
    assert_eq!(completed.attempts[0].disposition, Disposition::Rejected);
    let error = completed.attempts[0].failure.as_ref().unwrap();
    assert!(error.retry_after_head());
    assert_eq!(
        serde_json::from_str::<serde_json::Value>(error.data.as_ref().unwrap()).unwrap()["balance"],
        "3"
    );
}

#[test]
fn ambiguous_attempt_followed_by_nonce_too_low_is_not_a_fresh_rejection() {
    let mut submission = Submission::begin(&queued(1, 1, false), 2);
    assert_eq!(submission.answer(Reply::Hash(B256::repeat_byte(99)), 1, 2, false), Step::Retry { factor: 1 });
    let low = Reply::Response { code: -32000, message: "nonce too low".into(), data: None };
    assert_eq!(submission.answer(low, 3, 4, false), Step::Finish);
    let completed = submission.finish();
    assert_eq!(completed.attempts.len(), 2);
    assert_eq!(completed.attempts[0].disposition, Disposition::Ambiguous);
    assert_eq!(completed.attempts[1].disposition, Disposition::PossiblyIncluded);
}

#[test]
fn retries_are_bounded_and_end_on_shutdown() {
    let mut submission = Submission::begin(&queued(1, 1, false), 1);
    assert_eq!(submission.answer(Reply::Transport("reset".into()), 1, 2, false), Step::Retry { factor: 1 });
    assert_eq!(submission.answer(Reply::Transport("reset".into()), 3, 4, false), Step::Finish);
    assert_eq!(submission.finish().attempts.len(), 2);
    let mut stopped = Submission::begin(&queued(1, 1, false), 4);
    assert_eq!(stopped.answer(Reply::Transport("reset".into()), 1, 2, true), Step::Finish);
    assert_eq!(stopped.finish().attempts.len(), 1);
}

#[test]
fn pauses_double_up_to_a_limit() {
    assert_eq!((backoff(0), backoff(1), backoff(3), backoff(8), backoff(9), backoff(u32::MAX)), (1, 2, 8, 256, 256, 256));
}

#[test]
fn unexpected_hashes_are_shown_in_full() {
    let mut bytes = [0u8; 32];
    bytes[0] = 0xab;
    bytes[31] = 0x0f;
    let (disposition, failure) = judge(Reply::Hash(B256::from_bytes(&bytes)), B256::repeat_byte(1), false);
    assert_eq!(disposition, Disposition::Ambiguous);
    let failure = failure.unwrap();
    assert_eq!(
        failure.message,
        format!("target returned unexpected hash 0xab{}0f", "00".repeat(30))
    );
    assert_eq!((failure.code, failure.data), (None, None));
}

#[test]
fn transport_failures_keep_their_message() {
    let (disposition, failure) = judge(Reply::Transport("already known".into()), B256::repeat_byte(1), true);
    assert_eq!(disposition, Disposition::Ambiguous);
    assert_eq!(failure.unwrap().message, "already known");
}

#[test]
fn the_cursor_advances_only_with_every_outcome() {
    let cursor = BlockCursor { height: 5, hash: B256::repeat_byte(5) };
    assert_eq!(advance(cursor, 3, 3), Some(cursor));
    assert_eq!(advance(cursor, 3, 2), None);
    assert!(past_end(Some(5), 5) && !past_end(Some(6), 5) && !past_end(None, 5));
}

#[test]
fn the_reader_delivers_contiguous_blocks_and_reports_an_outage_once() {
    let start = BlockCursor { height: 5, hash: B256::repeat_byte(5) };
    let next = BlockCursor { height: 6, hash: B256::repeat_byte(6) };
    let mut reader = Reader::after(start, Some(6));
    assert!(!reader.finished());
    assert_eq!(reader.header(6, start.hash), HeaderStep::Fetch);
    assert_eq!(reader.header(6, next.hash), HeaderStep::NotContiguous);
    assert_eq!(reader.header(5, start.hash), HeaderStep::NotContiguous);
    assert_eq!(reader.header(7, start.hash), HeaderStep::Done);
    assert_eq!(reader.failure(false), FailureStep::ReportAndRetry);
    assert_eq!(reader.failure(false), FailureStep::Retry);
    assert_eq!(reader.failure(true), FailureStep::Fatal);
    assert!(reader.delivered(next));
    assert!(reader.finished());
    assert_eq!(reader.failure(false), FailureStep::ReportAndRetry);
}

#[test]
fn shutdown_finishes_issued_requests_but_starts_no_new_ones() {
    let mut parted = lanes(&vec![queued(0, 1, false), queued(1, 1, false), queued(2, 2, false)]).into_iter().map(Lane::of);
    let mut first = parted.next().unwrap();
    let second = parted.next().unwrap();
    let issued = first.next(false).unwrap().id;
    assert_eq!(issued.source_index, 0);
    // The stop comes while the request is on its way.
    first.record(Completed { id: issued, attempts: Vec::new() });
    assert!(first.next(true).is_none());
    assert!(second.next(true).is_none());
    let ids: Vec<u32> =
        first.finish().into_iter().chain(second.finish()).map(|completed| completed.id.source_index).collect();
    assert!(ids.contains(&0) && !ids.contains(&1));
}

#[test]
fn a_lane_submits_one_dispatch_after_the_other() {
    let mut lane = Lane::of(vec![queued(0, 1, false), queued(1, 1, false)]);
    for index in 0..2 {
        let id = lane.next(false).unwrap().id;
        assert_eq!(id.source_index, index);
        assert_eq!(lane.next(false).unwrap().id, id);
        lane.record(Completed { id, attempts: Vec::new() });
    }
    assert!(lane.next(false).is_none());
    assert_eq!(lane.finish().len(), 2);
}

#[test]
fn the_relay_ends_on_a_stop_and_recovers_after_its_reader() {
    assert_eq!(Phase::begin(Some(5), 5), Phase::Recovering);
    let mut phase = Phase::begin(Some(6), 5);
    assert_eq!(phase, Phase::Relaying);
    assert_eq!(phase.step(RelayEvent::Delivered), RelayAction::Submit);
    assert_eq!(phase.step(RelayEvent::Committed { complete: true, stopped: false }), RelayAction::Wait);
    assert_eq!(phase.step(RelayEvent::Tick), RelayAction::Recover);
    let mut stopped = phase;
    assert_eq!(stopped.step(RelayEvent::Stopped), RelayAction::AwaitReader { abort: true });
    assert_eq!(stopped.step(RelayEvent::Delivered), RelayAction::Wait);
    assert_eq!(stopped.step(RelayEvent::ReaderEnded { stopped: true, failure: Some(true) }), RelayAction::Finish);
    let mut cut = phase;
    let action = cut.step(RelayEvent::Committed { complete: false, stopped: true });
    assert_eq!((cut, action), (Phase::Closing, RelayAction::AwaitReader { abort: true }));
    let mut failed = phase;
    assert_eq!(failed.step(RelayEvent::Exhausted { stopped: false }), RelayAction::AwaitReader { abort: false });
    assert_eq!(
        failed.step(RelayEvent::ReaderEnded { stopped: false, failure: Some(true) }),
        RelayAction::Fail { history: true }
    );
    assert_eq!(phase.step(RelayEvent::Exhausted { stopped: false }), RelayAction::AwaitReader { abort: false });
    assert_eq!(phase.step(RelayEvent::ReaderEnded { stopped: false, failure: None }), RelayAction::Wait);
    assert_eq!(phase.step(RelayEvent::Tick), RelayAction::Recover);
    assert_eq!(phase.step(RelayEvent::Stopped), RelayAction::Finish);
    assert_eq!(phase, Phase::Ended);
}

#[test]
fn the_relay_recovers_before_it_takes_the_first_block() {
    assert_eq!(Phase::begin(None, 10).first(), RelayAction::Recover);
    assert_eq!(Phase::begin(Some(10), 10).first(), RelayAction::Wait);
    assert_eq!(Phase::Closing.first(), RelayAction::Wait);
    assert_eq!(Phase::Ended.first(), RelayAction::Finish);
}
