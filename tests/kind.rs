use semantic_tokens::kind::{SemanticToken, KIND_COUNT};

#[test]
fn identifiers_map_to_kinds() {
    let cases = [
        ("function", SemanticToken::Function),
        ("method", SemanticToken::Method),
        ("variable", SemanticToken::Variable),
        ("property", SemanticToken::Property),
        ("parameter", SemanticToken::Parameter),
        ("macro", SemanticToken::Macro),
        ("enumMember", SemanticToken::EnumMember),
        ("enum", SemanticToken::Enum),
        ("class", SemanticToken::Class),
        ("struct", SemanticToken::Struct),
        ("type", SemanticToken::Type),
        ("typeParameter", SemanticToken::TypeParameter),
        ("comment", SemanticToken::Comment),
    ];
    for (id, kind) in cases {
        assert_eq!(SemanticToken::from_identifier(id), Some(kind));
    }
}

#[test]
fn unknown_identifiers_are_dropped() {
    assert_eq!(SemanticToken::from_identifier("keyword"), None);
    assert_eq!(SemanticToken::from_identifier(""), None);
    assert_eq!(SemanticToken::from_identifier("Function"), None);
}

#[test]
fn kind_indices_are_stable_and_distinct() {
    assert_eq!(SemanticToken::Function.index(), 0);
    assert_eq!(SemanticToken::Comment.index(), 12);
    for i in 0..KIND_COUNT {
        assert_eq!(SemanticToken::from_index(i).index(), i);
    }
}
