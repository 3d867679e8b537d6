use vstd::prelude::*;

verus! {

/// A failure during character-to-token classification.
#[derive(Clone, Copy, Debug, PartialEq, Eq, Structural)]
pub enum LexicalError {
    /// A character that cannot begin any token.
    UnexpectedCharacter,
    /// A number with no integer digits, or a dot with no fractional digits.
    MalformedNumber,
    /// A string whose closing quote never arrives.
    UnterminatedString,
    /// A keyword other than `true`, `false` or `null`.
    UnknownKeyword,
}

/// A failure while matching the token sequence against the grammar.
#[derive(Clone, Copy, Debug, PartialEq, Eq, Structural)]
pub enum SyntaxError {
    /// A separator or closer standing where a value was expected.
    StrayToken,
    /// The token sequence ended while a production was still open.
    UnexpectedEndOfInput,
    /// An object member that does not begin with a string key.
    ExpectedStringKey,
    /// An object key that is not followed by a colon.
    ExpectedColon,
    /// An entry or element that is followed by neither a comma nor a closer.
    ExpectedCommaOrClose,
}

/// Any failure of the whole text-to-tree pipeline.
#[derive(Clone, Copy, Debug, PartialEq, Eq, Structural)]
pub enum JsonError {
    /// The scanner rejected the text.
    Lexical(LexicalError),
    /// The tree builder rejected the token sequence.
    Syntax(SyntaxError),
    /// A guard for conversions done outside this crate (for example a
    /// numeric literal that fails to convert to a machine float); the
    /// scanner and the builder themselves never produce it.
    Internal,
}

} // verus!
