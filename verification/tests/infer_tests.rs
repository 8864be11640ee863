use indexer::infer::{
    ActiveInferStateStatus, InferState, InferStateStatus, TransitionStep, MAX_TOKENS,
    REPEAT_LAST_N,
};

fn active(tokens: Vec<u32>, index_pos: usize, generated: usize) -> InferState {
    InferState {
        status: InferStateStatus::Active(ActiveInferStateStatus {
            tokens,
            index_pos,
            tokens_generated: generated,
        }),
    }
}

#[test]
fn done_stream_stays_done() {
    let state = InferState { status: InferStateStatus::Done };
    assert!(matches!(state.transition_plan(Some(7), true), TransitionStep::Finish));
    assert!(state.emit_token().is_none());
}

#[test]
fn budget_exhaustion_finishes() {
    let state = active(vec![1, 2], 0, MAX_TOKENS);
    assert!(matches!(state.transition_plan(None, false), TransitionStep::Finish));
}

#[test]
fn eos_token_finishes() {
    let state = active(vec![1, 2, 7], 0, 3);
    assert!(matches!(state.transition_plan(Some(7), true), TransitionStep::Finish));
    let going = active(vec![1, 2, 7], 0, 3);
    assert!(matches!(going.transition_plan(Some(9), true), TransitionStep::Forward { .. }));
}

#[test]
fn cold_cache_feeds_whole_context() {
    let state = active(vec![1, 2, 3], 0, 0);
    match state.transition_plan(None, true) {
        TransitionStep::Forward { context_size, context_index } => {
            assert_eq!(context_size, 3);
            assert_eq!(context_index, 0);
        }
        TransitionStep::Finish => panic!("expected a forward step"),
    }
}

#[test]
fn warm_cache_feeds_single_token() {
    let state = active(vec![1, 2, 3, 4], 3, 1);
    match state.transition_plan(None, true) {
        TransitionStep::Forward { context_size, context_index } => {
            assert_eq!(context_size, 1);
            assert_eq!(context_index, 3);
        }
        TransitionStep::Finish => panic!("expected a forward step"),
    }
}

#[test]
fn disabled_cache_always_feeds_whole_context() {
    let state = active(vec![1, 2, 3, 4], 3, 1);
    match state.transition_plan(None, false) {
        TransitionStep::Forward { context_size, context_index } => {
            assert_eq!(context_size, 4);
            assert_eq!(context_index, 0);
        }
        TransitionStep::Finish => panic!("expected a forward step"),
    }
}

#[test]
fn apply_forward_advances_state() {
    let mut state = active(vec![1, 2, 3], 0, 0);
    state.apply_forward(42, 3);
    match &state.status {
        InferStateStatus::Active(a) => {
            assert_eq!(a.tokens, vec![1, 2, 3, 42]);
            assert_eq!(a.index_pos, 3);
            assert_eq!(a.tokens_generated, 1);
        }
        InferStateStatus::Done => panic!("expected an active stream"),
    }
    assert_eq!(state.emit_token(), Some(42));
    state.apply_forward(43, 1);
    match &state.status {
        InferStateStatus::Active(a) => {
            assert_eq!(a.tokens, vec![1, 2, 3, 42, 43]);
            assert_eq!(a.index_pos, 4);
            assert_eq!(a.tokens_generated, 2);
        }
        InferStateStatus::Done => panic!("expected an active stream"),
    }
}

#[test]
fn finish_ends_stream() {
    let mut state = InferState::new(vec![5]);
    assert_eq!(state.emit_token(), Some(5));
    state.finish();
    assert!(matches!(state.status, InferStateStatus::Done));
    assert!(state.emit_token().is_none());
}

#[test]
fn window_starts_saturate() {
    let short = ActiveInferStateStatus { tokens: vec![1, 2], index_pos: 0, tokens_generated: 0 };
    assert_eq!(short.context_start(5), 0);
    assert_eq!(short.context_start(1), 1);
    assert_eq!(short.penalty_window_start(), 0);
    let long = ActiveInferStateStatus {
        tokens: vec![0; REPEAT_LAST_N + 10],
        index_pos: 0,
        tokens_generated: 0,
    };
    assert_eq!(long.penalty_window_start(), 10);
}
