use vstd::prelude::*;

verus! {

/// The closed set of token classifications that the index and the highlight
/// layer know about.
#[derive(Clone, Copy, Debug, PartialEq, Eq, Hash, Structural)]
pub enum SemanticToken {
    Function,
    Method,
    Variable,
    Property,
    Parameter,
    Macro,
    EnumMember,
    Enum,
    Class,
    Struct,
    Type,
    TypeParameter,
    Comment,
}

/// Number of token kinds; each kind owns one highlight bucket.
pub const KIND_COUNT: usize = 13;

/// The external identifier under which the classification service reports `k`.
pub open spec fn identifier_of(k: SemanticToken) -> Seq<char> {
    match k {
        SemanticToken::Function => "function"@,
        SemanticToken::Method => "method"@,
        SemanticToken::Variable => "variable"@,
        SemanticToken::Property => "property"@,
        SemanticToken::Parameter => "parameter"@,
        SemanticToken::Macro => "macro"@,
        SemanticToken::EnumMember => "enumMember"@,
        SemanticToken::Enum => "enum"@,
        SemanticToken::Class => "class"@,
        SemanticToken::Struct => "struct"@,
        SemanticToken::Type => "type"@,
        SemanticToken::TypeParameter => "typeParameter"@,
        SemanticToken::Comment => "comment"@,
    }
}

/// The stable position of `k`'s bucket among the `KIND_COUNT` buckets.
pub open spec fn kind_index(k: SemanticToken) -> nat {
    match k {
        SemanticToken::Function => 0,
        SemanticToken::Method => 1,
        SemanticToken::Variable => 2,
        SemanticToken::Property => 3,
        SemanticToken::Parameter => 4,
        SemanticToken::Macro => 5,
        SemanticToken::EnumMember => 6,
        SemanticToken::Enum => 7,
        SemanticToken::Class => 8,
        SemanticToken::Struct => 9,
        SemanticToken::Type => 10,
        SemanticToken::TypeParameter => 11,
        SemanticToken::Comment => 12,
    }
}

/// The kind stored in bucket `i`; the inverse of `kind_index`.
pub open spec fn kind_at(i: nat) -> SemanticToken {
    if i == 0 {
        SemanticToken::Function
    } else if i == 1 {
        SemanticToken::Method
    } else if i == 2 {
        SemanticToken::Variable
    } else if i == 3 {
        SemanticToken::Property
    } else if i == 4 {
        SemanticToken::Parameter
    } else if i == 5 {
        SemanticToken::Macro
    } else if i == 6 {
        SemanticToken::EnumMember
    } else if i == 7 {
        SemanticToken::Enum
    } else if i == 8 {
        SemanticToken::Class
    } else if i == 9 {
        SemanticToken::Struct
    } else if i == 10 {
        SemanticToken::Type
    } else if i == 11 {
        SemanticToken::TypeParameter
    } else {
        SemanticToken::Comment
    }
}

/// The kind that an external identifier names, if any: the first kind, in
/// declaration order, whose identifier equals `s`.
pub open spec fn kind_of_identifier(s: Seq<char>) -> Option<SemanticToken> {
    if s == "function"@ {
        Some(SemanticToken::Function)
    } else if s == "method"@ {
        Some(SemanticToken::Method)
    } else if s == "variable"@ {
        Some(SemanticToken::Variable)
    } else if s == "property"@ {
        Some(SemanticToken::Property)
    } else if s == "parameter"@ {
        Some(SemanticToken::Parameter)
    } else if s == "macro"@ {
        Some(SemanticToken::Macro)
    } else if s == "enumMember"@ {
        Some(SemanticToken::EnumMember)
    } else if s == "enum"@ {
        Some(SemanticToken::Enum)
    } else if s == "class"@ {
        Some(SemanticToken::Class)
    } else if s == "struct"@ {
        Some(SemanticToken::Struct)
    } else if s == "type"@ {
        Some(SemanticToken::Type)
    } else if s == "typeParameter"@ {
        Some(SemanticToken::TypeParameter)
    } else if s == "comment"@ {
        Some(SemanticToken::Comment)
    } else {
        None
    }
}

impl SemanticToken {
    /// Maps an external identifier to its kind; an unknown identifier gives
    /// `None` and is meant to be dropped, not reported.
    pub fn from_identifier(id: &str) -> (r: Option<SemanticToken>)
        ensures
            r == kind_of_identifier(id@),
            r matches Some(k) ==> identifier_of(k) == id@,
    {
        let s = id.to_owned();
        if s == "function".to_owned() {
            Some(SemanticToken::Function)
        } else if s == "method".to_owned() {
            Some(SemanticToken::Method)
        } else if s == "variable".to_owned() {
            Some(SemanticToken::Variable)
        } else if s == "property".to_owned() {
            Some(SemanticToken::Property)
        } else if s == "parameter".to_owned() {
            Some(SemanticToken::Parameter)
        } else if s == "macro".to_owned() {
            Some(SemanticToken::Macro)
        } else if s == "enumMember".to_owned() {
            Some(SemanticToken::EnumMember)
        } else if s == "enum".to_owned() {
            Some(SemanticToken::Enum)
        } else if s == "class".to_owned() {
            Some(SemanticToken::Class)
        } else if s == "struct".to_owned() {
            Some(SemanticToken::Struct)
        } else if s == "type".to_owned() {
            Some(SemanticToken::Type)
        } else if s == "typeParameter".to_owned() {
            Some(SemanticToken::TypeParameter)
        } else if s == "comment".to_owned() {
            Some(SemanticToken::Comment)
        } else {
            None
        }
    }

    /// The fixed bucket position of this kind, stable across refresh cycles.
    pub fn index(&self) -> (r: usize)
        ensures
            r == kind_index(*self),
            r < KIND_COUNT,
            kind_at(r as nat) == *self,
    {
        match self {
            SemanticToken::Function => 0,
            SemanticToken::Method => 1,
            SemanticToken::Variable => 2,
            SemanticToken::Property => 3,
            SemanticToken::Parameter => 4,
            SemanticToken::Macro => 5,
            SemanticToken::EnumMember => 6,
            SemanticToken::Enum => 7,
            SemanticToken::Class => 8,
            SemanticToken::Struct => 9,
            SemanticToken::Type => 10,
            SemanticToken::TypeParameter => 11,
            SemanticToken::Comment => 12,
        }
    }

    /// The kind whose bucket stands at position `i`.
    pub fn from_index(i: usize) -> (r: SemanticToken)
        requires
            i < KIND_COUNT,
        ensures
            r == kind_at(i as nat),
            kind_index(r) == i,
    {
        if i == 0 {
            SemanticToken::Function
        } else if i == 1 {
            SemanticToken::Method
        } else if i == 2 {
            SemanticToken::Variable
        } else if i == 3 {
            SemanticToken::Property
        } else if i == 4 {
            SemanticToken::Parameter
        } else if i == 5 {
            SemanticToken::Macro
        } else if i == 6 {
            SemanticToken::EnumMember
        } else if i == 7 {
            SemanticToken::Enum
        } else if i == 8 {
            SemanticToken::Class
        } else if i == 9 {
            SemanticToken::Struct
        } else if i == 10 {
            SemanticToken::Type
        } else if i == 11 {
            SemanticToken::TypeParameter
        } else {
            SemanticToken::Comment
        }
    }
}

} // verus!
