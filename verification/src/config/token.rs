//! Token kinds and the character classes the lexical rules are made of.

use vstd::prelude::*;

verus! {

/// What a token is. The token's text is kept by the lexer that produced it.
#[derive(Debug, Clone, Copy, PartialEq, Eq, Structural)]
pub enum Token {
    /// `#` up to and including the end of the line.
    Comment,
    /// A single line break.
    Newline,
    /// The keyword `exec`.
    Exec,
    /// The keyword `exec_always`.
    ExecAlways,
    /// `--` followed by word characters or hyphens.
    CmdArg,
    /// `$` followed by at least one word character.
    Variable,
    /// Word characters and spaces between double quotes.
    String,
    /// Starts with `/`, `~` or `./`.
    Path,
    /// One or more word characters, other than a keyword.
    Identifier,
    CurlyOpen,
    CurlyClosed,
    Equals,
    SquareOpen,
    SquareClosed,
    /// A single character that no rule accepts.
    Error,
}

/// A set of characters that a lexical rule repeats.
#[derive(Debug, Clone, Copy, PartialEq, Eq, Structural)]
pub enum CharClass {
    /// Space, tab and form feed: skipped between tokens.
    Blank,
    /// ASCII letters, digits and underscore.
    Word,
    /// Word characters and `-`.
    Flag,
    /// Word characters and the space.
    Quoted,
    /// Word characters and `-`, `.`, `&`, `/`, `=`.
    PathPart,
    /// Everything but the line break.
    Line,
}

pub open spec fn is_word(c: char) -> bool {
    ('a' <= c && c <= 'z') || ('A' <= c && c <= 'Z') || ('0' <= c && c <= '9') || c == '_'
}

pub open spec fn is_blank(c: char) -> bool {
    c == ' ' || c == '\t' || c == '\x0c'
}

impl CharClass {
    pub open spec fn has(self, c: char) -> bool {
        match self {
            CharClass::Blank => is_blank(c),
            CharClass::Word => is_word(c),
            CharClass::Flag => is_word(c) || c == '-',
            CharClass::Quoted => is_word(c) || c == ' ',
            CharClass::PathPart => is_word(c) || c == '-' || c == '.' || c == '&' || c == '/' || c
                == '=',
            CharClass::Line => c != '\n',
        }
    }

    /// Whether `c` belongs to the class.
    pub fn contains(self, c: char) -> (b: bool)
        ensures
            b == self.has(c),
    {
        let word = ('a' <= c && c <= 'z') || ('A' <= c && c <= 'Z') || ('0' <= c && c <= '9') || c
            == '_';
        match self {
            CharClass::Blank => c == ' ' || c == '\t' || c == '\x0c',
            CharClass::Word => word,
            CharClass::Flag => word || c == '-',
            CharClass::Quoted => word || c == ' ',
            CharClass::PathPart => word || c == '-' || c == '.' || c == '&' || c == '/' || c == '=',
            CharClass::Line => c != '\n',
        }
    }
}

} // verus!
