use semantic_tokens::excerpt::{Excerpt, ExcerptRange, RawToken};
use semantic_tokens::kind::SemanticToken;
use semantic_tokens::refresh::{
    shown_buffers, target_buffers, FetchOutcome, Highlights, RefreshState, SelectionBuffers,
};

fn raw(start: usize, end: usize, kind: &str) -> RawToken {
    RawToken { range: start..end, kind: kind.to_string() }
}

#[test]
fn selections_spanning_buffers_are_dropped() {
    let selections = vec![
        SelectionBuffers { start_buffer: Some(1), end_buffer: Some(1) },
        SelectionBuffers { start_buffer: Some(1), end_buffer: Some(2) },
        SelectionBuffers { start_buffer: None, end_buffer: None },
        SelectionBuffers { start_buffer: Some(3), end_buffer: Some(3) },
        SelectionBuffers { start_buffer: None, end_buffer: Some(4) },
    ];
    assert_eq!(target_buffers(&selections), vec![1, 3]);
    assert!(target_buffers(&vec![]).is_empty());
}

#[test]
fn debounce_coalesces_a_burst() {
    let mut state = RefreshState::new();
    let g0 = state.request(0, 10, vec![1]);
    let g1 = state.request(5, 10, vec![1, 2]);
    let g2 = state.request(8, 10, vec![3]);
    assert_eq!((g0, g1, g2), (1, 2, 3));
    assert_eq!(state.timer_fired(g0, 10), None);
    assert_eq!(state.timer_fired(g1, 15), None);
    assert_eq!(state.timer_fired(g2, 17), None);
    assert_eq!(state.timer_fired(g2, 18), Some(vec![3]));
    assert_eq!(state.timer_fired(g2, 19), None);
    assert!(state.is_current(g2));
    assert!(!state.is_current(g1));
}

#[test]
fn deadline_saturates() {
    let mut state = RefreshState::new();
    let g = state.request(u64::MAX - 1, 10, vec![5]);
    assert_eq!(state.deadline, u64::MAX);
    assert_eq!(state.timer_fired(g, u64::MAX), Some(vec![5]));
}

#[test]
fn failed_fetch_keeps_previous_highlights() {
    let excerpts = vec![
        Excerpt { id: 10, buffer_id: 1, context: 0..20 },
        Excerpt { id: 20, buffer_id: 2, context: 0..20 },
    ];
    let mut highlights = Highlights::new();
    highlights.apply_outcomes(
        &vec![
            FetchOutcome { buffer_id: 1, tokens: Some(vec![raw(0, 3, "function")]) },
            FetchOutcome { buffer_id: 2, tokens: Some(vec![raw(4, 6, "comment")]) },
        ],
        &excerpts,
    );
    highlights.apply_outcomes(
        &vec![
            FetchOutcome { buffer_id: 1, tokens: None },
            FetchOutcome { buffer_id: 2, tokens: Some(vec![raw(10, 14, "variable")]) },
        ],
        &excerpts,
    );
    assert_eq!(
        highlights.bucket(1, SemanticToken::Function),
        Some(&vec![ExcerptRange { excerpt_id: 10, range: 0..3 }])
    );
    assert_eq!(
        highlights.bucket(2, SemanticToken::Variable),
        Some(&vec![ExcerptRange { excerpt_id: 20, range: 10..14 }])
    );
    assert_eq!(highlights.bucket(2, SemanticToken::Comment), Some(&vec![]));
    assert_eq!(highlights.bucket(3, SemanticToken::Comment), None);
}

#[test]
fn last_successful_outcome_wins() {
    let excerpts = vec![Excerpt { id: 1, buffer_id: 7, context: 0..50 }];
    let mut highlights = Highlights::new();
    highlights.apply_outcomes(
        &vec![
            FetchOutcome { buffer_id: 7, tokens: Some(vec![raw(0, 3, "type")]) },
            FetchOutcome { buffer_id: 7, tokens: Some(vec![raw(5, 9, "type")]) },
            FetchOutcome { buffer_id: 7, tokens: None },
        ],
        &excerpts,
    );
    assert_eq!(
        highlights.bucket(7, SemanticToken::Type),
        Some(&vec![ExcerptRange { excerpt_id: 1, range: 5..9 }])
    );
}

#[test]
fn shown_buffers_are_listed_once_in_order() {
    let excerpts = vec![
        Excerpt { id: 1, buffer_id: 5, context: 0..10 },
        Excerpt { id: 2, buffer_id: 3, context: 0..10 },
        Excerpt { id: 3, buffer_id: 5, context: 20..30 },
        Excerpt { id: 4, buffer_id: 8, context: 0..10 },
    ];
    assert_eq!(shown_buffers(&excerpts), vec![5, 3, 8]);
    assert!(shown_buffers(&vec![]).is_empty());
}
