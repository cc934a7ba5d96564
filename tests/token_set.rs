use semantic_tokens::kind::SemanticToken;
use semantic_tokens::token_set::{SemanticTokenEntry, SemanticTokenSet, Summary};

fn entry(start: usize, end: usize, kind: SemanticToken) -> SemanticTokenEntry {
    SemanticTokenEntry::new(start..end, kind)
}

fn sample() -> Vec<SemanticTokenEntry> {
    vec![
        entry(0, 3, SemanticToken::Function),
        entry(3, 5, SemanticToken::Variable),
        entry(6, 6, SemanticToken::Comment),
        entry(8, 20, SemanticToken::Struct),
        entry(8, 12, SemanticToken::Property),
        entry(15, 18, SemanticToken::Type),
    ]
}

#[test]
fn round_trip_over_all_offsets() {
    let set = SemanticTokenSet::from_sorted_entries(sample());
    assert_eq!(set.range(0..usize::MAX, true, false), sample());
    assert_eq!(set.len(), 6);
}

#[test]
fn empty_set_has_no_entries() {
    let set = SemanticTokenSet::from_sorted_entries(vec![]);
    assert_eq!(set.len(), 0);
    assert!(set.range(0..usize::MAX, true, false).is_empty());
    assert!(set.range(0..usize::MAX, false, true).is_empty());
    assert_eq!(set.summary(), Summary::zero());
}

#[test]
fn inclusive_query_counts_touching_endpoints() {
    let set = SemanticTokenSet::from_sorted_entries(sample());
    assert_eq!(
        set.range(3..3, true, false),
        vec![entry(0, 3, SemanticToken::Function), entry(3, 5, SemanticToken::Variable)]
    );
    assert_eq!(
        set.range(5..6, true, false),
        vec![entry(3, 5, SemanticToken::Variable), entry(6, 6, SemanticToken::Comment)]
    );
}

#[test]
fn exclusive_query_needs_strict_overlap() {
    let set = SemanticTokenSet::from_sorted_entries(sample());
    assert!(set.range(3..3, false, false).is_empty());
    assert!(set.range(5..6, false, false).is_empty());
    assert_eq!(
        set.range(2..4, false, false),
        vec![entry(0, 3, SemanticToken::Function), entry(3, 5, SemanticToken::Variable)]
    );
    assert_eq!(
        set.range(12..15, false, false),
        vec![entry(8, 20, SemanticToken::Struct)]
    );
    assert_eq!(
        set.range(12..15, true, false),
        vec![
            entry(8, 20, SemanticToken::Struct),
            entry(8, 12, SemanticToken::Property),
            entry(15, 18, SemanticToken::Type),
        ]
    );
}

#[test]
fn zero_width_entry_is_kept() {
    let set = SemanticTokenSet::from_sorted_entries(sample());
    assert_eq!(set.range(6..6, true, false), vec![entry(6, 6, SemanticToken::Comment)]);
    assert!(set.range(6..6, false, false).is_empty());
}

#[test]
fn reversed_query_is_forward_query_reversed() {
    let set = SemanticTokenSet::from_sorted_entries(sample());
    for (start, end) in [(0, 100), (3, 9), (12, 15), (6, 6)] {
        for inclusive in [true, false] {
            let mut forward = set.range(start..end, inclusive, false);
            forward.reverse();
            assert_eq!(forward, set.range(start..end, inclusive, true));
        }
    }
    assert_eq!(
        set.range(0..4, true, true),
        vec![entry(3, 5, SemanticToken::Variable), entry(0, 3, SemanticToken::Function)]
    );
}

#[test]
fn new_orders_by_start_then_longest_first() {
    let set = SemanticTokenSet::new(vec![
        entry(8, 12, SemanticToken::Property),
        entry(15, 18, SemanticToken::Type),
        entry(0, 3, SemanticToken::Function),
        entry(8, 20, SemanticToken::Struct),
    ]);
    assert_eq!(
        set.range(0..usize::MAX, true, false),
        vec![
            entry(0, 3, SemanticToken::Function),
            entry(8, 20, SemanticToken::Struct),
            entry(8, 12, SemanticToken::Property),
            entry(15, 18, SemanticToken::Type),
        ]
    );
}

#[test]
fn summary_bounds_all_entries() {
    let set = SemanticTokenSet::from_sorted_entries(sample());
    let s = set.summary();
    assert_eq!(s.min_start, 0);
    assert_eq!(s.max_end, 20);
    assert_eq!(s.count, 6);
    assert_eq!(s.start, 15);
    assert_eq!(s.end, 18);
}

#[test]
fn add_summary_merges_bounds() {
    let mut a = entry(5, 9, SemanticToken::Method).summary();
    a.add_summary(&entry(2, 4, SemanticToken::Enum).summary());
    assert_eq!(
        a,
        Summary { start: 2, end: 4, min_start: 2, max_end: 9, count: 2 }
    );
    let mut z = Summary::default();
    z.add_summary(&entry(1, 7, SemanticToken::Macro).summary());
    assert_eq!(
        z,
        Summary { start: 1, end: 7, min_start: 1, max_end: 7, count: 1 }
    );
}

#[test]
fn order_key_puts_longer_first() {
    assert_eq!(entry(4, 10, SemanticToken::Class).order_key(), (4, usize::MAX - 10));
    assert!(entry(4, 10, SemanticToken::Class).order_key() < entry(4, 6, SemanticToken::Class).order_key());
}
