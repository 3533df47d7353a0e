use fsrs_binding::evaluate::{
    partition_for_initialization, prepare_evaluation_items, resolve_evaluate_options,
};
use fsrs_binding::model::{FSRSItem, FSRSReview};
use fsrs_binding::progress::{
    abort_requested, mark_finished, poll_once, request_abort, CallbackOutcome, PollStep,
    PollerMemory, ProgressState, ProgressStateTrait,
};
use fsrs_binding::task::{
    resolve_compute_options, ComputationTask, ComputeParametersOptions, TaskPhase,
    DEFAULT_TIMEOUT_MS,
};

fn item(reviews: &[(u32, u32)]) -> FSRSItem {
    FSRSItem::new(reviews.iter().map(|&(r, d)| FSRSReview::new(r, d)).collect())
}

#[test]
fn poller_reports_changed_progress_and_floors_zero_total() {
    let mut memory = PollerMemory::new();
    let mut state = ProgressState::default();
    // total of 0 is never reported as a denominator: it is floored to 1,
    // which equals the initial memory, so nothing is reported either.
    assert_eq!(poll_once(&mut memory, &state), PollStep::Sleep);
    state.current = 1;
    state.total = 0;
    match poll_once(&mut memory, &state) {
        PollStep::Report { current, total } => {
            assert_eq!(current, 1);
            assert_eq!(total, 1);
        }
        other => panic!("expected a report, got {:?}", other),
    }
    // Unchanged progress is not reported again.
    assert_eq!(poll_once(&mut memory, &state), PollStep::Sleep);
    state.current = 5;
    state.total = 20;
    assert_eq!(poll_once(&mut memory, &state), PollStep::Report { current: 5, total: 20 });
}

#[test]
fn poller_stops_once_finished() {
    let mut memory = PollerMemory::new();
    let mut state = ProgressState::default();
    state.current = 3;
    state.total = 9;
    assert_eq!(poll_once(&mut memory, &state), PollStep::Report { current: 3, total: 9 });
    mark_finished(&mut state);
    assert_eq!(poll_once(&mut memory, &state), PollStep::Stop);
}

#[test]
fn callback_refusal_aborts_within_one_interval() {
    // The first report comes back as an explicit refusal: the poller
    // requests an abort and its next sample stops, without any error
    // escaping the poller.
    let mut memory = PollerMemory::new();
    let mut state = ProgressState::default();
    state.current = 1;
    state.total = 4;
    assert_eq!(poll_once(&mut memory, &state), PollStep::Report { current: 1, total: 4 });
    let outcome = CallbackOutcome::Returned { value: Some(false) };
    assert!(abort_requested(&outcome));
    request_abort(&mut state);
    assert!(state.want_abort());
    assert_eq!(poll_once(&mut memory, &state), PollStep::Stop);
}

#[test]
fn callback_failure_requests_abort_but_other_values_do_not() {
    assert!(abort_requested(&CallbackOutcome::Failed));
    assert!(abort_requested(&CallbackOutcome::Returned { value: Some(false) }));
    assert!(!abort_requested(&CallbackOutcome::Returned { value: Some(true) }));
    assert!(!abort_requested(&CallbackOutcome::Returned { value: None }));
}

#[test]
fn failed_computation_still_joins_the_poller_and_surfaces_the_error() {
    let mut task = ComputationTask::new();
    assert_eq!(task.phase, TaskPhase::Created);
    task.start();
    assert_eq!(task.phase, TaskPhase::Running);
    task.computation_returned(false);
    assert_eq!(task.phase, TaskPhase::Finishing { ok: false });
    task.poller_joined();
    assert_eq!(task.phase, TaskPhase::Done { ok: false });
}

#[test]
fn successful_computation_takes_the_same_path() {
    let mut task = ComputationTask::new();
    task.start();
    task.computation_returned(true);
    assert_eq!(task.phase, TaskPhase::Finishing { ok: true });
    task.poller_joined();
    assert_eq!(task.phase, TaskPhase::Done { ok: true });
}

#[test]
fn absent_options_fall_back_to_defaults() {
    let config = resolve_compute_options(&None);
    assert!(config.enable_short_term);
    assert_eq!(config.num_relearning_steps, None);
    assert_eq!(config.timeout_ms, DEFAULT_TIMEOUT_MS);
    assert_eq!(config.timeout_ms, 500);
}

#[test]
fn present_options_are_kept() {
    let options = ComputeParametersOptions {
        enable_short_term: false,
        num_relearning_steps: Some(2),
        timeout: Some(50),
    };
    let config = resolve_compute_options(&Some(options));
    assert!(!config.enable_short_term);
    assert_eq!(config.num_relearning_steps, Some(2));
    assert_eq!(config.timeout_ms, 50);
}

#[test]
fn evaluate_options_default_short_term_to_enabled() {
    assert_eq!(resolve_evaluate_options(None, None), (true, None));
    assert_eq!(resolve_evaluate_options(Some(false), Some(3)), (false, Some(3)));
}

#[test]
fn partition_splits_by_long_term_review_count() {
    let one = item(&[(3, 0), (3, 5)]);
    let two = item(&[(3, 0), (3, 5), (3, 9)]);
    let another_one = item(&[(4, 0), (2, 7)]);
    let (init, train) = partition_for_initialization(vec![one, two, another_one]);
    assert_eq!(init.len(), 2);
    assert_eq!(train.len(), 1);
    assert_eq!(init[0].long_term_review_cnt(), 1);
    assert_eq!(init[1].long_term_review_cnt(), 1);
    assert_eq!(train[0].long_term_review_cnt(), 2);
}

#[test]
fn small_outlier_groups_are_filtered_out() {
    // Ten initialization items sharing one (first rating, second delta_t)
    // pair fall under the removal floor of twenty, so the outside filter
    // removes them all, and with them the training item whose first
    // long-term review matches the removed pair.
    let mut items: Vec<FSRSItem> = Vec::new();
    for _ in 0..10 {
        items.push(item(&[(3, 0), (3, 5)]));
    }
    items.push(item(&[(3, 0), (3, 5), (4, 9)]));
    let out = prepare_evaluation_items(items);
    assert_eq!(out.len(), 0);
}

#[test]
fn large_regular_groups_survive_the_outlier_filter() {
    // Twenty-five initialization items sharing one pair clear the removal
    // floor, form a group of at least six with a small delta_t, and are all
    // kept; the matching training item is kept too.
    let mut items: Vec<FSRSItem> = Vec::new();
    for _ in 0..25 {
        items.push(item(&[(3, 0), (3, 5)]));
    }
    items.push(item(&[(3, 0), (3, 5), (4, 9)]));
    let out = prepare_evaluation_items(items);
    assert_eq!(out.len(), 26);
}

#[test]
fn item_getters_report_their_fields() {
    let r = FSRSReview::new(3, 7);
    assert_eq!(r.rating(), 3);
    assert_eq!(r.delta_t(), 7);
    let it = item(&[(3, 0), (2, 4)]);
    assert_eq!(it.long_term_review_cnt(), 1);
    assert!(it.include_long_term_reviews());
    let current = it.current().unwrap();
    assert_eq!(current.rating(), 2);
    assert_eq!(current.delta_t(), 4);
    let empty = FSRSItem::new(Vec::new());
    assert!(empty.current().is_none());
    assert!(!empty.include_long_term_reviews());
    assert_eq!(empty.long_term_review_cnt(), 0);
}
