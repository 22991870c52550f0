//! The tokenizer: which token starts at each position of a text, and a lexer
//! that hands the tokens out one by one.

use crate::config::token::{is_word, CharClass, Token};
use crate::text::{chars_of, string_of};
use vstd::prelude::*;

verus! {

/// The first index at or after `i` whose character is outside `class`, or the
/// length of `s` where there is none.
pub open spec fn run_end(s: Seq<char>, i: int, class: CharClass) -> int
    decreases s.len() - i,
{
    if 0 <= i < s.len() && class.has(s[i]) {
        run_end(s, i + 1, class)
    } else {
        i
    }
}

/// `run_end` stops at the end of the longest run of `class` that starts at `i`.
pub proof fn lemma_run_end(s: Seq<char>, i: int, class: CharClass)
    requires
        0 <= i <= s.len(),
    ensures
        i <= run_end(s, i, class) <= s.len(),
        forall|k: int| i <= k < run_end(s, i, class) ==> class.has(#[trigger] s[k]),
        run_end(s, i, class) < s.len() ==> !class.has(s[run_end(s, i, class)]),
    decreases s.len() - i,
{
    if i < s.len() && class.has(s[i]) {
        lemma_run_end(s, i + 1, class);
    }
}

/// The keyword `exec`, letter by letter.
pub open spec fn exec_word() -> Seq<char> {
    seq!['e', 'x', 'e', 'c']
}

/// The keyword `exec_always`, letter by letter.
pub open spec fn exec_always_word() -> Seq<char> {
    seq!['e', 'x', 'e', 'c', '_', 'a', 'l', 'w', 'a', 'y', 's']
}

/// The kind of a run of word characters: a keyword where the whole run spells
/// one, an identifier otherwise.
pub open spec fn word_kind(w: Seq<char>) -> Token {
    if w == exec_word() {
        Token::Exec
    } else if w == exec_always_word() {
        Token::ExecAlways
    } else {
        Token::Identifier
    }
}

/// The token that starts at index `i` of `s`, as its kind and the index just
/// past its last character. `s[i]` is not blank.
pub open spec fn lexeme_at(s: Seq<char>, i: int) -> (Token, int)
    recommends
        0 <= i < s.len(),
{
    let c = s[i];
    if c == '#' {
        let j = run_end(s, i + 1, CharClass::Line);
        if j < s.len() {
            (Token::Comment, j + 1)
        } else {
            (Token::Error, i + 1)
        }
    } else if c == '\n' {
        (Token::Newline, i + 1)
    } else if is_word(c) {
        let j = run_end(s, i, CharClass::Word);
        (word_kind(s.subrange(i, j)), j)
    } else if c == '-' {
        if i + 1 < s.len() && s[i + 1] == '-' {
            (Token::CmdArg, run_end(s, i + 2, CharClass::Flag))
        } else {
            (Token::Error, i + 1)
        }
    } else if c == '$' {
        let j = run_end(s, i + 1, CharClass::Word);
        if j > i + 1 {
            (Token::Variable, j)
        } else {
            (Token::Error, i + 1)
        }
    } else if c == '"' {
        let j = run_end(s, i + 1, CharClass::Quoted);
        if j < s.len() && s[j] == '"' {
            (Token::String, j + 1)
        } else {
            (Token::Error, i + 1)
        }
    } else if c == '/' || c == '~' {
        (Token::Path, run_end(s, i + 1, CharClass::PathPart))
    } else if c == '.' {
        if i + 1 < s.len() && s[i + 1] == '/' {
            (Token::Path, run_end(s, i + 2, CharClass::PathPart))
        } else {
            (Token::Error, i + 1)
        }
    } else if c == '{' {
        (Token::CurlyOpen, i + 1)
    } else if c == '}' {
        (Token::CurlyClosed, i + 1)
    } else if c == '=' {
        (Token::Equals, i + 1)
    } else if c == '[' {
        (Token::SquareOpen, i + 1)
    } else if c == ']' {
        (Token::SquareClosed, i + 1)
    } else {
        (Token::Error, i + 1)
    }
}

/// A token is never empty and never runs past the end of the text.
pub proof fn lemma_lexeme_bounds(s: Seq<char>, i: int)
    requires
        0 <= i < s.len(),
    ensures
        i < lexeme_at(s, i).1 <= s.len(),
{
    lemma_run_end(s, i + 1, CharClass::Line);
    lemma_run_end(s, i, CharClass::Word);
    lemma_run_end(s, i + 1, CharClass::Word);
    lemma_run_end(s, i + 1, CharClass::Quoted);
    lemma_run_end(s, i + 1, CharClass::PathPart);
    if i + 1 < s.len() {
        lemma_run_end(s, i + 2, CharClass::Flag);
        lemma_run_end(s, i + 2, CharClass::PathPart);
    }
}

/// A comment token starts with `#`, ends with the first line break after it
/// and holds no other line break.
pub proof fn lemma_comment_shape(s: Seq<char>, i: int)
    requires
        0 <= i < s.len(),
        lexeme_at(s, i).0 == Token::Comment,
    ensures
        s[i] == '#',
        i + 2 <= lexeme_at(s, i).1 <= s.len(),
        s[lexeme_at(s, i).1 - 1] == '\n',
        forall|k: int| i <= k < lexeme_at(s, i).1 - 1 ==> #[trigger] s[k] != '\n',
{
    lemma_run_end(s, i + 1, CharClass::Line);
    lemma_run_end(s, i, CharClass::Word);
    if i + 1 < s.len() {
        lemma_run_end(s, i + 2, CharClass::Flag);
        lemma_run_end(s, i + 2, CharClass::PathPart);
    }
    assert(forall|k: int| i + 1 <= k < run_end(s, i + 1, CharClass::Line) ==> CharClass::Line.has(
        #[trigger] s[k],
    ));
}

/// A token of a text: its kind and the half-open range of indices it covers.
pub struct Lexeme {
    pub kind: Token,
    pub start: int,
    pub end: int,
}

/// The tokens of `s` that start at or after `pos`, in order: blanks are
/// skipped, then one token is taken, as long as anything is left.
pub open spec fn lexemes_from(s: Seq<char>, pos: int) -> Seq<Lexeme>
    decreases s.len() - pos,
    when 0 <= pos
    via lexemes_from_decreases
{
    let start = run_end(s, pos, CharClass::Blank);
    if start >= s.len() {
        Seq::empty()
    } else {
        let end = lexeme_at(s, start).1;
        seq![Lexeme { kind: lexeme_at(s, start).0, start, end }] + lexemes_from(s, end)
    }
}

#[via_fn]
proof fn lexemes_from_decreases(s: Seq<char>, pos: int) {
    if pos <= s.len() {
        lemma_run_end(s, pos, CharClass::Blank);
        let start = run_end(s, pos, CharClass::Blank);
        if start < s.len() {
            lemma_lexeme_bounds(s, start);
        }
    }
}

/// A token as the parser sees it: its kind and the text it matched.
pub struct TokenText {
    pub kind: Token,
    pub text: Seq<char>,
}

/// The tokens of `s` from `pos` on, each with its text in place of its range.
pub open spec fn tokens_from(s: Seq<char>, pos: int) -> Seq<TokenText> {
    lexemes_from(s, pos).map_values(
        |l: Lexeme| TokenText { kind: l.kind, text: s.subrange(l.start, l.end) },
    )
}

/// All tokens of a text.
pub open spec fn tokens(s: Seq<char>) -> Seq<TokenText> {
    tokens_from(s, 0)
}

/// What `tokens_from` is at a position: nothing where only blanks are left,
/// else the token after the blanks, followed by the tokens after it.
pub proof fn lemma_tokens_step(s: Seq<char>, pos: int)
    requires
        0 <= pos <= s.len(),
    ensures
        run_end(s, pos, CharClass::Blank) >= s.len() ==> tokens_from(s, pos) == Seq::<
            TokenText,
        >::empty(),
        run_end(s, pos, CharClass::Blank) < s.len() ==> ({
            let start = run_end(s, pos, CharClass::Blank);
            let end = lexeme_at(s, start).1;
            &&& tokens_from(s, pos).len() > 0
            &&& tokens_from(s, pos)[0] == (TokenText {
                kind: lexeme_at(s, start).0,
                text: s.subrange(start, end),
            })
            &&& tokens_from(s, pos).skip(1) == tokens_from(s, end)
        }),
{
    let start = run_end(s, pos, CharClass::Blank);
    lemma_run_end(s, pos, CharClass::Blank);
    if start >= s.len() {
        assert(tokens_from(s, pos) =~= Seq::<TokenText>::empty());
    } else {
        lemma_lexeme_bounds(s, start);
        let end = lexeme_at(s, start).1;
        let first = Lexeme { kind: lexeme_at(s, start).0, start, end };
        let rest = lexemes_from(s, end);
        assert(lexemes_from(s, pos) == seq![first] + rest);
        assert(lexemes_from(s, pos).skip(1) =~= rest);
        assert(tokens_from(s, pos).skip(1) =~= tokens_from(s, end));
    }
}

/// Walks over the run of `class` that starts at `i`.
fn scan(src: &Vec<char>, i: usize, class: CharClass) -> (j: usize)
    requires
        i <= src.len(),
    ensures
        j == run_end(src@, i as int, class),
        i <= j <= src.len(),
{
    let mut j: usize = i;
    while j < src.len() && class.contains(src[j])
        invariant
            i <= j <= src.len(),
            run_end(src@, i as int, class) == run_end(src@, j as int, class),
        decreases src.len() - j,
    {
        j += 1;
    }
    proof {
        lemma_run_end(src@, i as int, class);
    }
    j
}

/// The kind of the word `src[from..to]`.
fn classify_word(src: &Vec<char>, from: usize, to: usize) -> (kind: Token)
    requires
        from <= to <= src.len(),
    ensures
        kind == word_kind(src@.subrange(from as int, to as int)),
{
    let ghost w = src@.subrange(from as int, to as int);
    if to - from == 4 && src[from] == 'e' && src[from + 1] == 'x' && src[from + 2] == 'e' && src[from
        + 3] == 'c' {
        assert(w =~= exec_word());
        Token::Exec
    } else if to - from == 11 && src[from] == 'e' && src[from + 1] == 'x' && src[from + 2] == 'e'
        && src[from + 3] == 'c' && src[from + 4] == '_' && src[from + 5] == 'a' && src[from + 6]
        == 'l' && src[from + 7] == 'w' && src[from + 8] == 'a' && src[from + 9] == 'y' && src[from
        + 10] == 's' {
        assert(w =~= exec_always_word());
        Token::ExecAlways
    } else {
        assert(w != exec_word()) by {
            if w == exec_word() {
                assert(w.len() == 4);
                assert(w[0] == 'e' && w[1] == 'x' && w[2] == 'e' && w[3] == 'c');
            }
        }
        assert(w != exec_always_word()) by {
            if w == exec_always_word() {
                assert(w.len() == 11);
                assert(w[0] == 'e' && w[1] == 'x' && w[2] == 'e' && w[3] == 'c' && w[4] == '_');
                assert(w[5] == 'a' && w[6] == 'l' && w[7] == 'w' && w[8] == 'a' && w[9] == 'y'
                    && w[10] == 's');
            }
        }
        Token::Identifier
    }
}

/// Reads the token that starts at `start`.
fn lexeme(src: &Vec<char>, start: usize) -> (r: (Token, usize))
    requires
        start < src.len(),
    ensures
        r.0 == lexeme_at(src@, start as int).0,
        r.1 == lexeme_at(src@, start as int).1,
        start < r.1 <= src.len(),
{
    proof {
        lemma_lexeme_bounds(src@, start as int);
    }
    let n = src.len();
    let c = src[start];
    if c == '#' {
        let j = scan(src, start + 1, CharClass::Line);
        if j < n {
            (Token::Comment, j + 1)
        } else {
            (Token::Error, start + 1)
        }
    } else if c == '\n' {
        (Token::Newline, start + 1)
    } else if CharClass::Word.contains(c) {
        let j = scan(src, start, CharClass::Word);
        (classify_word(src, start, j), j)
    } else if c == '-' {
        if start + 1 < n && src[start + 1] == '-' {
            (Token::CmdArg, scan(src, start + 2, CharClass::Flag))
        } else {
            (Token::Error, start + 1)
        }
    } else if c == '$' {
        let j = scan(src, start + 1, CharClass::Word);
        if j > start + 1 {
            (Token::Variable, j)
        } else {
            (Token::Error, start + 1)
        }
    } else if c == '"' {
        let j = scan(src, start + 1, CharClass::Quoted);
        if j < n && src[j] == '"' {
            (Token::String, j + 1)
        } else {
            (Token::Error, start + 1)
        }
    } else if c == '/' || c == '~' {
        (Token::Path, scan(src, start + 1, CharClass::PathPart))
    } else if c == '.' {
        if start + 1 < n && src[start + 1] == '/' {
            (Token::Path, scan(src, start + 2, CharClass::PathPart))
        } else {
            (Token::Error, start + 1)
        }
    } else if c == '{' {
        (Token::CurlyOpen, start + 1)
    } else if c == '}' {
        (Token::CurlyClosed, start + 1)
    } else if c == '=' {
        (Token::Equals, start + 1)
    } else if c == '[' {
        (Token::SquareOpen, start + 1)
    } else if c == ']' {
        (Token::SquareClosed, start + 1)
    } else {
        (Token::Error, start + 1)
    }
}

/// A one-pass reader of the tokens of a text. It remembers the text and the
/// range of the token it handed out last.
pub struct Lexer {
    source: Vec<char>,
    start: usize,
    end: usize,
}

impl Lexer {
    /// The text being read.
    pub closed spec fn source(&self) -> Seq<char> {
        self.source@
    }

    /// Where the token handed out last starts.
    pub closed spec fn token_start(&self) -> int {
        self.start as int
    }

    /// Where the token handed out last ends: reading goes on from here.
    pub closed spec fn token_end(&self) -> int {
        self.end as int
    }

    /// The range of the last token lies inside the text.
    pub open spec fn wf(&self) -> bool {
        0 <= self.token_start() <= self.token_end() <= self.source().len()
    }

    /// The text of the token handed out last; empty before the first token
    /// and after the last.
    pub open spec fn current(&self) -> Seq<char> {
        self.source().subrange(self.token_start(), self.token_end())
    }

    /// The tokens that are still to come.
    pub open spec fn pending(&self) -> Seq<TokenText> {
        tokens_from(self.source(), self.token_end())
    }

    /// A lexer at the start of `input`.
    pub fn new(input: &str) -> (lex: Lexer)
        ensures
            lex.wf(),
            lex.source() == input@,
            lex.token_start() == 0,
            lex.token_end() == 0,
            lex.pending() == tokens(input@),
    {
        Lexer { source: chars_of(input), start: 0, end: 0 }
    }

    /// Hands out the kind of the next token and moves onto it, or returns
    /// `None` once only blanks are left.
    pub fn next(&mut self) -> (r: Option<Token>)
        requires
            old(self).wf(),
        ensures
            final(self).wf(),
            final(self).source() == old(self).source(),
            old(self).pending().len() == 0 ==> r is None && final(self).pending().len() == 0
                && final(self).current().len() == 0,
            old(self).pending().len() > 0 ==> {
                &&& r == Some(old(self).pending()[0].kind)
                &&& final(self).current() == old(self).pending()[0].text
                &&& final(self).pending() == old(self).pending().skip(1)
            },
            r is Some ==> {
                &&& r == Some(lexeme_at(old(self).source(), final(self).token_start()).0)
                &&& final(self).token_start() < old(self).source().len()
                &&& final(self).token_start() == run_end(
                    old(self).source(),
                    old(self).token_end(),
                    CharClass::Blank,
                )
                &&& final(self).token_end() == lexeme_at(
                    old(self).source(),
                    final(self).token_start(),
                ).1
            },
    {
        proof {
            lemma_tokens_step(self.source@, self.end as int);
        }
        let n = self.source.len();
        let start = scan(&self.source, self.end, CharClass::Blank);
        if start >= n {
            self.start = n;
            self.end = n;
            proof {
                lemma_tokens_step(self.source@, n as int);
            }
            None
        } else {
            let (kind, end) = lexeme(&self.source, start);
            self.start = start;
            self.end = end;
            Some(kind)
        }
    }

    /// The text of the token handed out last.
    pub fn slice(&self) -> (s: String)
        requires
            self.wf(),
        ensures
            s@ == self.current(),
    {
        string_of(&self.source, self.start, self.end)
    }

    /// The text of the token handed out last, without its first `skip`
    /// characters.
    pub fn slice_from(&self, skip: usize) -> (s: String)
        requires
            self.wf(),
            skip <= self.current().len(),
        ensures
            s@ == self.current().skip(skip as int),
    {
        let s = string_of(&self.source, self.start + skip, self.end);
        assert(self.current().skip(skip as int) =~= self.source@.subrange(
            self.start + skip,
            self.end as int,
        ));
        s
    }
}

/// Starts reading the tokens of `input`.
pub fn tokenize(input: &str) -> (lex: Lexer)
    ensures
        lex.wf(),
        lex.source() == input@,
        lex.token_start() == 0,
        lex.token_end() == 0,
        lex.pending() == tokens(input@),
{
    Lexer::new(input)
}

} // verus!
