use semantic_tokens::kind::SemanticToken;
use semantic_tokens::point::{LineIndex, Point, PointEntry};
use semantic_tokens::token_set::SemanticTokenEntry;

#[test]
fn offsets_resolve_to_rows_and_columns() {
    let lines = LineIndex::new(b"fn a() {\n    b\n}\n");
    assert_eq!(lines.point_at(0), Point { row: 0, column: 0 });
    assert_eq!(lines.point_at(3), Point { row: 0, column: 3 });
    assert_eq!(lines.point_at(8), Point { row: 0, column: 8 });
    assert_eq!(lines.point_at(9), Point { row: 1, column: 0 });
    assert_eq!(lines.point_at(13), Point { row: 1, column: 4 });
    assert_eq!(lines.point_at(15), Point { row: 2, column: 0 });
    assert_eq!(lines.point_at(17), Point { row: 3, column: 0 });
}

#[test]
fn empty_text_has_one_line() {
    let lines = LineIndex::new(b"");
    assert_eq!(lines.point_at(0), Point { row: 0, column: 0 });
    assert_eq!(lines.point_at(4), Point { row: 0, column: 4 });
}

#[test]
fn entry_resolves_both_bounds() {
    let lines = LineIndex::new(b"let x = 1;\nlet yy = x;\n");
    let e = SemanticTokenEntry::new(9..15, SemanticToken::Variable);
    assert_eq!(
        e.resolve(&lines),
        PointEntry {
            range: Point { row: 0, column: 9 }..Point { row: 1, column: 4 },
            kind: SemanticToken::Variable,
        }
    );
}
