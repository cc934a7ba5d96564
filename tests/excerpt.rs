use semantic_tokens::excerpt::{
    bucket_for_kind, classify_tokens, clip, group_by_kind, Excerpt, ExcerptRange, RawToken,
};
use semantic_tokens::kind::{SemanticToken, KIND_COUNT};
use semantic_tokens::token_set::SemanticTokenEntry;

fn raw(start: usize, end: usize, kind: &str) -> RawToken {
    RawToken { range: start..end, kind: kind.to_string() }
}

fn excerpt(id: u64, buffer_id: u64, start: usize, end: usize) -> Excerpt {
    Excerpt { id, buffer_id, context: start..end }
}

fn scenario_tokens() -> Vec<RawToken> {
    vec![raw(0, 3, "function"), raw(10, 14, "variable")]
}

#[test]
fn clip_keeps_contained_range() {
    assert_eq!(clip(&(4..9), &(0..20)), Some(4..9));
    assert_eq!(clip(&(0..20), &(0..20)), Some(0..20));
}

#[test]
fn clip_drops_disjoint_range() {
    assert_eq!(clip(&(0..3), &(5..20)), None);
    assert_eq!(clip(&(20..25), &(5..20)), None);
    assert_eq!(clip(&(3..5), &(5..20)), None);
}

#[test]
fn clip_trims_partial_overlap() {
    assert_eq!(clip(&(2..8), &(5..20)), Some(5..8));
    assert_eq!(clip(&(18..30), &(5..20)), Some(18..20));
    assert_eq!(clip(&(0..30), &(5..20)), Some(5..20));
}

#[test]
fn classify_drops_unknown_kinds() {
    let tokens = vec![raw(0, 3, "function"), raw(4, 6, "keyword"), raw(7, 9, "comment")];
    assert_eq!(
        classify_tokens(&tokens),
        vec![
            SemanticTokenEntry::new(0..3, SemanticToken::Function),
            SemanticTokenEntry::new(7..9, SemanticToken::Comment),
        ]
    );
}

#[test]
fn one_excerpt_covering_all_tokens() {
    let entries = classify_tokens(&scenario_tokens());
    let excerpts = vec![excerpt(7, 1, 0, 20)];
    let buckets = group_by_kind(1, &entries, &excerpts);
    assert_eq!(buckets.len(), KIND_COUNT);
    assert_eq!(
        buckets[SemanticToken::Function.index()],
        vec![ExcerptRange { excerpt_id: 7, range: 0..3 }]
    );
    assert_eq!(
        buckets[SemanticToken::Variable.index()],
        vec![ExcerptRange { excerpt_id: 7, range: 10..14 }]
    );
    for (i, b) in buckets.iter().enumerate() {
        if i != SemanticToken::Function.index() && i != SemanticToken::Variable.index() {
            assert!(b.is_empty());
        }
    }
}

#[test]
fn excerpt_clips_token_away() {
    let entries = classify_tokens(&scenario_tokens());
    let excerpts = vec![excerpt(7, 1, 5, 20)];
    let buckets = group_by_kind(1, &entries, &excerpts);
    assert!(buckets[SemanticToken::Function.index()].is_empty());
    assert_eq!(
        buckets[SemanticToken::Variable.index()],
        vec![ExcerptRange { excerpt_id: 7, range: 10..14 }]
    );
}

#[test]
fn token_fans_out_over_excerpts() {
    let entries = vec![SemanticTokenEntry::new(2..12, SemanticToken::Type)];
    let excerpts = vec![
        excerpt(1, 4, 0, 5),
        excerpt(2, 9, 0, 50),
        excerpt(3, 4, 8, 30),
        excerpt(4, 4, 40, 50),
    ];
    assert_eq!(
        bucket_for_kind(SemanticToken::Type, 4, &entries, &excerpts),
        vec![
            ExcerptRange { excerpt_id: 1, range: 2..5 },
            ExcerptRange { excerpt_id: 3, range: 8..12 },
        ]
    );
    assert!(bucket_for_kind(SemanticToken::Enum, 4, &entries, &excerpts).is_empty());
}

#[test]
fn bucket_keeps_service_order() {
    let entries = vec![
        SemanticTokenEntry::new(10..12, SemanticToken::Method),
        SemanticTokenEntry::new(1..4, SemanticToken::Method),
        SemanticTokenEntry::new(5..6, SemanticToken::Macro),
    ];
    let excerpts = vec![excerpt(3, 2, 0, 100)];
    assert_eq!(
        bucket_for_kind(SemanticToken::Method, 2, &entries, &excerpts),
        vec![
            ExcerptRange { excerpt_id: 3, range: 10..12 },
            ExcerptRange { excerpt_id: 3, range: 1..4 },
        ]
    );
}
