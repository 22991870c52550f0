//! What holds of every text: the tokens and the blanks between them make up
//! the whole text, each token has the shape of its rule, and the directives
//! account for the tokens.

use crate::config::lexer::{
    exec_always_word, exec_word, lemma_lexeme_bounds, lemma_run_end, lexeme_at, lexemes_from,
    run_end, tokens, tokens_from, Lexeme, TokenText,
};
use crate::config::parser::{
    command, directives, exec_operands, first_node, first_taken, flags, is_operand,
    lemma_operand_push, lemma_operand_run, lemma_operand_run_unique, operand_run, parse_tokens,
};
use crate::config::token::{is_blank, is_word, CharClass, Token};
use crate::config::tree::Node;
use vstd::prelude::*;

verus! {

/// Every character of `t` from index `from` on belongs to `class`.
pub open spec fn tail_in(t: Seq<char>, from: int, class: CharClass) -> bool {
    forall|k: int| from <= k < t.len() ==> class.has(#[trigger] t[k])
}

/// The text of a token has the shape that the rule of its kind asks for.
pub open spec fn fits(kind: Token, t: Seq<char>) -> bool {
    match kind {
        Token::Comment => {
            &&& t.len() >= 2
            &&& t[0] == '#'
            &&& t.last() == '\n'
            &&& forall|k: int| 0 <= k < t.len() - 1 ==> #[trigger] t[k] != '\n'
        },
        Token::Newline => t == seq!['\n'],
        Token::Exec => t == exec_word(),
        Token::ExecAlways => t == exec_always_word(),
        Token::CmdArg => t.len() >= 2 && t[0] == '-' && t[1] == '-' && tail_in(
            t,
            2,
            CharClass::Flag,
        ),
        Token::Variable => t.len() >= 2 && t[0] == '$' && tail_in(t, 1, CharClass::Word),
        Token::String => {
            &&& t.len() >= 2
            &&& t[0] == '"'
            &&& t.last() == '"'
            &&& forall|k: int| 1 <= k < t.len() - 1 ==> CharClass::Quoted.has(#[trigger] t[k])
        },
        Token::Path => {
            ||| t.len() >= 1 && (t[0] == '/' || t[0] == '~') && tail_in(t, 1, CharClass::PathPart)
            ||| t.len() >= 2 && t[0] == '.' && t[1] == '/' && tail_in(t, 2, CharClass::PathPart)
        },
        Token::Identifier => {
            &&& t.len() >= 1
            &&& tail_in(t, 0, CharClass::Word)
            &&& t != exec_word()
            &&& t != exec_always_word()
        },
        Token::CurlyOpen => t == seq!['{'],
        Token::CurlyClosed => t == seq!['}'],
        Token::Equals => t == seq!['='],
        Token::SquareOpen => t == seq!['['],
        Token::SquareClosed => t == seq![']'],
        Token::Error => t.len() == 1,
    }
}

/// The token that starts at a character that is not blank has the shape of
/// its rule, and a token never starts with a blank.
pub proof fn lemma_lexeme_fits(s: Seq<char>, i: int)
    requires
        0 <= i < s.len(),
        !is_blank(s[i]),
    ensures
        fits(lexeme_at(s, i).0, s.subrange(i, lexeme_at(s, i).1)),
{
    let kind = lexeme_at(s, i).0;
    let end = lexeme_at(s, i).1;
    let t = s.subrange(i, end);
    lemma_lexeme_bounds(s, i);
    lemma_run_end(s, i + 1, CharClass::Line);
    lemma_run_end(s, i, CharClass::Word);
    lemma_run_end(s, i + 1, CharClass::Word);
    lemma_run_end(s, i + 1, CharClass::Quoted);
    lemma_run_end(s, i + 1, CharClass::PathPart);
    if i + 1 < s.len() {
        lemma_run_end(s, i + 2, CharClass::Flag);
        lemma_run_end(s, i + 2, CharClass::PathPart);
    }
    assert(forall|k: int| 0 <= k < t.len() ==> t[k] == s[i + k]);
    let c = s[i];
    if c == '#' {
        if kind == Token::Comment {
            assert forall|k: int| 0 <= k < t.len() - 1 implies #[trigger] t[k] != '\n' by {
                if k > 0 {
                    assert(CharClass::Line.has(s[i + k]));
                }
            }
        }
    } else if c == '\n' {
        assert(t =~= seq!['\n']);
    } else if is_word(c) {
        assert forall|k: int| 0 <= k < t.len() implies CharClass::Word.has(#[trigger] t[k]) by {
            assert(CharClass::Word.has(s[i + k]));
        }
    } else if c == '-' {
        if kind == Token::CmdArg {
            assert forall|k: int| 2 <= k < t.len() implies CharClass::Flag.has(#[trigger] t[k]) by {
                assert(CharClass::Flag.has(s[i + k]));
            }
        }
    } else if c == '$' {
        if kind == Token::Variable {
            assert forall|k: int| 1 <= k < t.len() implies CharClass::Word.has(#[trigger] t[k]) by {
                assert(CharClass::Word.has(s[i + k]));
            }
        }
    } else if c == '"' {
        if kind == Token::String {
            assert forall|k: int| 1 <= k < t.len() - 1 implies CharClass::Quoted.has(
                #[trigger] t[k],
            ) by {
                assert(CharClass::Quoted.has(s[i + k]));
            }
        }
    } else if c == '/' || c == '~' {
        assert forall|k: int| 1 <= k < t.len() implies CharClass::PathPart.has(#[trigger] t[k]) by {
            assert(CharClass::PathPart.has(s[i + k]));
        }
    } else if c == '.' {
        if kind == Token::Path {
            assert forall|k: int| 2 <= k < t.len() implies CharClass::PathPart.has(
                #[trigger] t[k],
            ) by {
                assert(CharClass::PathPart.has(s[i + k]));
            }
        }
    } else if c == '{' {
        assert(t =~= seq!['{']);
    } else if c == '}' {
        assert(t =~= seq!['}']);
    } else if c == '=' {
        assert(t =~= seq!['=']);
    } else if c == '[' {
        assert(t =~= seq!['[']);
    } else if c == ']' {
        assert(t =~= seq![']']);
    }
}

/// The tokens `l` lie inside `s` at or after `pos`, and none is empty.
pub open spec fn within(s: Seq<char>, pos: int, l: Seq<Lexeme>) -> bool {
    forall|i: int| 0 <= i < l.len() ==> pos <= (#[trigger] l[i]).start < l[i].end <= s.len()
}

/// The tokens `l` follow one another without overlap.
pub open spec fn ordered(l: Seq<Lexeme>) -> bool {
    forall|i: int, j: int|
        0 <= i < j < l.len() ==> (#[trigger] l[i]).end <= (#[trigger] l[j]).start
}

/// Index `p` lies in one of the tokens `l`.
pub open spec fn held(l: Seq<Lexeme>, p: int) -> bool {
    exists|i: int| 0 <= i < l.len() && (#[trigger] l[i]).start <= p < l[i].end
}

/// Each of the tokens `l` starts at a character that is not blank and is the
/// token that the rules give there.
pub open spec fn by_rule(s: Seq<char>, l: Seq<Lexeme>) -> bool {
    forall|i: int|
        0 <= i < l.len() ==> {
            &&& 0 <= (#[trigger] l[i]).start < s.len()
            &&& !is_blank(s[l[i].start])
            &&& l[i].kind == lexeme_at(s, l[i].start).0
            &&& l[i].end == lexeme_at(s, l[i].start).1
        }
}

/// The tokens of a text from `pos` on lie inside the text, one after the
/// other without overlap, and each is the token that the rules give at its
/// start.
pub proof fn lemma_lexemes_in_order(s: Seq<char>, pos: int)
    requires
        0 <= pos <= s.len(),
    ensures
        within(s, pos, lexemes_from(s, pos)),
        ordered(lexemes_from(s, pos)),
        by_rule(s, lexemes_from(s, pos)),
    decreases s.len() - pos,
{
    let l = lexemes_from(s, pos);
    let start = run_end(s, pos, CharClass::Blank);
    lemma_run_end(s, pos, CharClass::Blank);
    if start < s.len() {
        lemma_lexeme_bounds(s, start);
        let end = lexeme_at(s, start).1;
        let first = Lexeme { kind: lexeme_at(s, start).0, start, end };
        let rest = lexemes_from(s, end);
        lemma_lexemes_in_order(s, end);
        assert(l == seq![first] + rest);
        assert(!is_blank(s[start])) by {
            assert(!CharClass::Blank.has(s[start]));
        }
        assert(within(s, pos, l)) by {
            assert forall|i: int| 0 <= i < l.len() implies pos <= (#[trigger] l[i]).start < l[i].end
                <= s.len() by {
                if i > 0 {
                    assert(l[i] == rest[i - 1]);
                }
            }
        }
        assert(ordered(l)) by {
            assert forall|i: int, j: int| 0 <= i < j < l.len() implies (#[trigger] l[i]).end <= (
            #[trigger] l[j]).start by {
                assert(l[j] == rest[j - 1]);
                if i > 0 {
                    assert(l[i] == rest[i - 1]);
                }
            }
        }
        assert(by_rule(s, l)) by {
            assert forall|i: int| 0 <= i < l.len() implies {
                &&& 0 <= (#[trigger] l[i]).start < s.len()
                &&& !is_blank(s[l[i].start])
                &&& l[i].kind == lexeme_at(s, l[i].start).0
                &&& l[i].end == lexeme_at(s, l[i].start).1
            } by {
                if i > 0 {
                    assert(l[i] == rest[i - 1]);
                }
            }
        }
    }
}

/// Every character of a text from `pos` on lies in a token or is blank: the
/// blanks between tokens are all that the tokens leave out.
pub proof fn lemma_lexemes_cover(s: Seq<char>, pos: int)
    requires
        0 <= pos <= s.len(),
    ensures
        forall|p: int|
            pos <= p < s.len() ==> is_blank(s[p]) || #[trigger] held(lexemes_from(s, pos), p),
    decreases s.len() - pos,
{
    let l = lexemes_from(s, pos);
    let start = run_end(s, pos, CharClass::Blank);
    lemma_run_end(s, pos, CharClass::Blank);
    if start < s.len() {
        lemma_lexeme_bounds(s, start);
        let end = lexeme_at(s, start).1;
        let first = Lexeme { kind: lexeme_at(s, start).0, start, end };
        let rest = lexemes_from(s, end);
        lemma_lexemes_cover(s, end);
        assert(l == seq![first] + rest);
        assert forall|p: int| pos <= p < s.len() implies is_blank(s[p]) || #[trigger] held(
            l,
            p,
        ) by {
            if p < start {
                assert(CharClass::Blank.has(s[p]));
            } else if p < end {
                assert(l[0].start <= p < l[0].end);
            } else if !is_blank(s[p]) {
                assert(held(rest, p));
                let i = choose|i: int|
                    0 <= i < rest.len() && (#[trigger] rest[i]).start <= p < rest[i].end;
                assert(l[i + 1] == rest[i]);
                assert(l[i + 1].start <= p < l[i + 1].end);
            }
        }
    } else {
        assert forall|p: int| pos <= p < s.len() implies is_blank(s[p]) by {
            assert(CharClass::Blank.has(s[p]));
        }
    }
}

/// Each token of a text carries the text of its range, which has the shape
/// of its rule.
pub proof fn lemma_tokens_fit(s: Seq<char>, pos: int)
    requires
        0 <= pos <= s.len(),
    ensures
        tokens_from(s, pos).len() == lexemes_from(s, pos).len(),
        forall|i: int|
            0 <= i < tokens_from(s, pos).len() ==> {
                &&& (#[trigger] tokens_from(s, pos)[i]).kind == lexemes_from(s, pos)[i].kind
                &&& tokens_from(s, pos)[i].text == s.subrange(
                    lexemes_from(s, pos)[i].start,
                    lexemes_from(s, pos)[i].end,
                )
                &&& fits(tokens_from(s, pos)[i].kind, tokens_from(s, pos)[i].text)
            },
{
    lemma_lexemes_in_order(s, pos);
    let l = lexemes_from(s, pos);
    assert forall|i: int| 0 <= i < l.len() implies fits(
        (#[trigger] tokens_from(s, pos)[i]).kind,
        tokens_from(s, pos)[i].text,
    ) by {
        lemma_lexeme_fits(s, l[i].start);
    }
}

/// Every token of `toks` has the shape of its rule.
pub open spec fn genuine(toks: Seq<TokenText>) -> bool {
    forall|i: int| 0 <= i < toks.len() ==> fits((#[trigger] toks[i]).kind, toks[i].text)
}

/// The tokens of a text are genuine.
pub proof fn lemma_tokens_genuine(s: Seq<char>)
    ensures
        genuine(tokens(s)),
{
    lemma_tokens_fit(s, 0);
}

/// There are never more directives than tokens.
pub proof fn lemma_node_count(toks: Seq<TokenText>)
    ensures
        parse_tokens(toks).len() <= toks.len(),
    decreases toks.len(),
{
    if toks.len() > 0 {
        lemma_operand_run(toks.skip(1));
        lemma_node_count(toks.skip(first_taken(toks) as int));
    }
}

/// A comment directive made from genuine tokens is a line without its `#`:
/// it ends with a line break and holds no other.
pub proof fn lemma_comment_nodes(toks: Seq<TokenText>)
    requires
        genuine(toks),
    ensures
        forall|i: int|
            0 <= i < parse_tokens(toks).len() ==> match #[trigger] parse_tokens(toks)[i] {
                Node::Comment(t) => {
                    &&& t.len() >= 1
                    &&& t.last() == '\n'
                    &&& forall|k: int| 0 <= k < t.len() - 1 ==> #[trigger] t[k] != '\n'
                },
                _ => true,
            },
    decreases toks.len(),
{
    if toks.len() > 0 {
        lemma_operand_run(toks.skip(1));
        let rest = toks.skip(first_taken(toks) as int);
        assert(genuine(rest)) by {
            assert forall|i: int| 0 <= i < rest.len() implies fits(
                (#[trigger] rest[i]).kind,
                rest[i].text,
            ) by {
                assert(rest[i] == toks[i + first_taken(toks)]);
            }
        }
        lemma_comment_nodes(rest);
        let all = parse_tokens(toks);
        assert(all == seq![first_node(toks)] + parse_tokens(rest));
        assert(fits(toks[0].kind, toks[0].text));
        assert forall|i: int| 0 <= i < all.len() implies match #[trigger] all[i] {
            Node::Comment(t) => {
                &&& t.len() >= 1
                &&& t.last() == '\n'
                &&& forall|k: int| 0 <= k < t.len() - 1 ==> #[trigger] t[k] != '\n'
            },
            _ => true,
        } by {
            if i > 0 {
                assert(all[i] == parse_tokens(rest)[i - 1]);
            } else if toks[0].kind == Token::Comment {
                let whole = toks[0].text;
                let t = whole.skip(1);
                assert(all[0] == Node::Comment(t));
                assert(forall|k: int| 0 <= k < t.len() ==> t[k] == whole[k + 1]);
            }
        }
    }
}

/// The text that a directive stands for in the configuration: what was
/// written, but for the blanks between its parts.
pub open spec fn node_text(n: Node) -> Seq<char> {
    match n {
        Node::Comment(t) => seq!['#'] + t,
        Node::Newline => seq!['\n'],
        Node::Exec(args, cmd) => exec_word() + args.flatten() + cmd,
        Node::ExecAlways(args, cmd) => exec_always_word() + args.flatten() + cmd,
        Node::Unknown(t) => t,
    }
}

/// The texts of the directives, one after the other.
pub open spec fn tree_text(tree: Seq<Node>) -> Seq<char> {
    tree.map_values(|n: Node| node_text(n)).flatten()
}

/// The texts of the tokens, one after the other: the text they were read
/// from, without the blanks between them.
pub open spec fn token_texts(toks: Seq<TokenText>) -> Seq<char> {
    toks.map_values(|t: TokenText| t.text).flatten()
}

/// No command directive loses a token: after a keyword there are only flags
/// and then at most one path or identifier, up to the end of the tokens.
pub open spec fn nothing_dropped(toks: Seq<TokenText>) -> bool {
    forall|i: int, j: int|
        0 <= i < j < toks.len() && ((#[trigger] toks[i]).kind == Token::Exec || toks[i].kind
            == Token::ExecAlways) ==> {
            &&& is_operand((#[trigger] toks[j]).kind)
            &&& j < toks.len() - 1 ==> toks[j].kind == Token::CmdArg
        }
}

proof fn lemma_token_texts_split(toks: Seq<TokenText>)
    requires
        toks.len() > 0,
    ensures
        token_texts(toks) == toks[0].text + token_texts(toks.skip(1)),
{
    let m = toks.map_values(|t: TokenText| t.text);
    assert(m.drop_first() =~= toks.skip(1).map_values(|t: TokenText| t.text));
}

proof fn lemma_token_texts_push(toks: Seq<TokenText>, t: TokenText)
    ensures
        token_texts(toks.push(t)) == token_texts(toks) + t.text,
{
    let m = toks.map_values(|t: TokenText| t.text);
    assert(toks.push(t).map_values(|t: TokenText| t.text) =~= m.push(t.text));
    m.lemma_flatten_push(t.text);
}

proof fn lemma_tree_text_split(n: Node, rest: Seq<Node>)
    ensures
        tree_text(seq![n] + rest) == node_text(n) + tree_text(rest),
{
    let m = (seq![n] + rest).map_values(|n: Node| node_text(n));
    assert(m.drop_first() =~= rest.map_values(|n: Node| node_text(n)));
}

/// Where every token is a flag, the flags are all the texts and there is no
/// command.
proof fn lemma_all_flags(r: Seq<TokenText>)
    requires
        forall|j: int| 0 <= j < r.len() ==> (#[trigger] r[j]).kind == Token::CmdArg,
    ensures
        flags(r) == r.map_values(|t: TokenText| t.text),
        command(r) == Seq::<char>::empty(),
    decreases r.len(),
{
    if r.len() == 0 {
        assert(flags(r) =~= r.map_values(|t: TokenText| t.text)) by {
            reveal(Seq::filter);
        }
    } else {
        let init = r.drop_last();
        lemma_all_flags(init);
        assert(r =~= init.push(r.last()));
        lemma_operand_push(init, r.last());
        assert(init.map_values(|t: TokenText| t.text).push(r.last().text) =~= r.map_values(
            |t: TokenText| t.text,
        ));
    }
}

/// Where flags are followed by at most one command, flags and command
/// together are all the texts.
proof fn lemma_tidy_operands(r: Seq<TokenText>)
    requires
        forall|j: int| 0 <= j < r.len() ==> is_operand((#[trigger] r[j]).kind),
        forall|j: int| 0 <= j < r.len() - 1 ==> (#[trigger] r[j]).kind == Token::CmdArg,
    ensures
        flags(r).flatten() + command(r) == token_texts(r),
{
    if r.len() == 0 || r.last().kind == Token::CmdArg {
        lemma_all_flags(r);
        assert(flags(r).flatten() + command(r) =~= token_texts(r));
    } else {
        let init = r.drop_last();
        lemma_all_flags(init);
        assert(r =~= init.push(r.last()));
        assert(is_operand(r[r.len() - 1].kind));
        lemma_operand_push(init, r.last());
        lemma_token_texts_push(init, r.last());
    }
}

/// Where no command directive loses a token, the texts of the directives
/// are the texts of the tokens: nothing of the tokens is missing, and
/// nothing is out of place.
proof fn lemma_cover_if(toks: Seq<TokenText>)
    requires
        genuine(toks),
        nothing_dropped(toks),
    ensures
        tree_text(parse_tokens(toks)) == token_texts(toks),
    decreases toks.len(),
{
    if toks.len() == 0 {
        assert(tree_text(parse_tokens(toks)) =~= token_texts(toks));
    } else {
        let first = toks[0];
        let rest = toks.skip(1);
        assert(fits(first.kind, first.text));
        lemma_token_texts_split(toks);
        lemma_operand_run(rest);
        let after = toks.skip(first_taken(toks) as int);
        lemma_tree_text_split(first_node(toks), parse_tokens(after));
        if first.kind == Token::Exec || first.kind == Token::ExecAlways {
            assert forall|j: int| 0 <= j < rest.len() implies is_operand(
                (#[trigger] rest[j]).kind,
            ) by {
                assert(rest[j] == toks[j + 1]);
            }
            assert forall|j: int| 0 <= j < rest.len() - 1 implies (#[trigger] rest[j]).kind
                == Token::CmdArg by {
                assert(rest[j] == toks[j + 1]);
            }
            lemma_operand_run_unique(rest, rest.len() as int);
            assert(exec_operands(rest) =~= rest);
            lemma_tidy_operands(rest);
            assert(after.len() == 0);
            assert(tree_text(parse_tokens(after)) =~= Seq::<char>::empty());
            assert(node_text(first_node(toks)) =~= first.text + token_texts(rest));
            assert(first.text + token_texts(rest) + Seq::<char>::empty() =~= first.text
                + token_texts(rest));
        } else {
            assert(after == rest);
            assert(genuine(rest)) by {
                assert forall|i: int| 0 <= i < rest.len() implies fits(
                    (#[trigger] rest[i]).kind,
                    rest[i].text,
                ) by {
                    assert(rest[i] == toks[i + 1]);
                }
            }
            assert(nothing_dropped(rest)) by {
                assert forall|i: int, j: int|
                    0 <= i < j < rest.len() && ((#[trigger] rest[i]).kind == Token::Exec
                        || rest[i].kind == Token::ExecAlways) implies {
                    &&& is_operand((#[trigger] rest[j]).kind)
                    &&& j < rest.len() - 1 ==> rest[j].kind == Token::CmdArg
                } by {
                    assert(rest[i] == toks[i + 1]);
                    assert(rest[j] == toks[j + 1]);
                }
            }
            lemma_cover_if(rest);
            assert(node_text(first_node(toks)) =~= first.text);
        }
    }
}

/// Some token of `x` is a path or an identifier.
pub open spec fn has_command(x: Seq<TokenText>) -> bool {
    exists|j: int|
        0 <= j < x.len() && ((#[trigger] x[j]).kind == Token::Path || x[j].kind
            == Token::Identifier)
}

proof fn lemma_cancel_prefix(a: Seq<char>, x: Seq<char>, y: Seq<char>)
    requires
        a + x == a + y,
    ensures
        x == y,
{
    assert((a + x).len() == a.len() + x.len());
    assert((a + y).len() == a.len() + y.len());
    assert forall|i: int| 0 <= i < x.len() implies x[i] == y[i] by {
        assert(x[i] == (a + x)[a.len() + i]);
        assert(y[i] == (a + y)[a.len() + i]);
    }
    assert(x =~= y);
}

proof fn lemma_token_texts_concat(x: Seq<TokenText>, y: Seq<TokenText>)
    ensures
        token_texts(x + y) == token_texts(x) + token_texts(y),
{
    let f = |t: TokenText| t.text;
    assert((x + y).map_values(f) =~= x.map_values(f) + y.map_values(f));
    vstd::seq_lib::lemma_flatten_concat(x.map_values(f), y.map_values(f));
}

proof fn lemma_flags_concat(x: Seq<TokenText>, y: Seq<TokenText>)
    ensures
        flags(x + y).flatten() == flags(x).flatten() + flags(y).flatten(),
{
    let is_flag = |t: TokenText| t.kind == Token::CmdArg;
    let f = |t: TokenText| t.text;
    Seq::filter_distributes_over_add(x, y, is_flag);
    assert((x.filter(is_flag) + y.filter(is_flag)).map_values(f) =~= x.filter(is_flag).map_values(
        f,
    ) + y.filter(is_flag).map_values(f));
    vstd::seq_lib::lemma_flatten_concat(flags(x), flags(y));
}

proof fn lemma_command_concat(x: Seq<TokenText>, y: Seq<TokenText>)
    ensures
        command(x + y) == if has_command(y) {
            command(y)
        } else {
            command(x)
        },
    decreases y.len(),
{
    if y.len() == 0 {
        assert(x + y =~= x);
    } else {
        let init = y.drop_last();
        let last = y.last();
        assert(x + y =~= (x + init).push(last));
        assert(y =~= init.push(last));
        lemma_operand_push(x + init, last);
        lemma_operand_push(init, last);
        lemma_command_concat(x, init);
        if last.kind == Token::Path || last.kind == Token::Identifier {
            assert(y[y.len() - 1] == last);
        } else {
            if has_command(init) {
                let j = choose|j: int|
                    0 <= j < init.len() && ((#[trigger] init[j]).kind == Token::Path
                        || init[j].kind == Token::Identifier);
                assert(y[j] == init[j]);
            }
            if has_command(y) {
                let j = choose|j: int|
                    0 <= j < y.len() && ((#[trigger] y[j]).kind == Token::Path || y[j].kind
                        == Token::Identifier);
                assert(init[j] == y[j]);
            }
        }
    }
}

/// What a single token gives as flags and as command.
proof fn lemma_single_operand(t: TokenText)
    ensures
        flags(seq![t]).flatten() == if t.kind == Token::CmdArg {
            t.text
        } else {
            Seq::<char>::empty()
        },
        command(seq![t]) == if t.kind == Token::Path || t.kind == Token::Identifier {
            t.text
        } else {
            Seq::<char>::empty()
        },
        token_texts(seq![t]) == t.text,
{
    let none = Seq::<TokenText>::empty();
    assert(seq![t] =~= none.push(t));
    lemma_operand_push(none, t);
    lemma_token_texts_push(none, t);
    assert(flags(none) =~= Seq::<Seq<char>>::empty()) by {
        reveal(Seq::filter);
    }
    assert(token_texts(none) =~= Seq::<char>::empty());
    assert(Seq::<Seq<char>>::empty().push(t.text).flatten() =~= t.text) by {
        Seq::<Seq<char>>::empty().lemma_flatten_push(t.text);
    }
    assert(Seq::<char>::empty() + t.text =~= t.text);
}

/// Flags and command never hold more than the tokens they come from.
proof fn lemma_operands_fit(x: Seq<TokenText>)
    ensures
        flags(x).flatten().len() + command(x).len() <= token_texts(x).len(),
    decreases x.len(),
{
    if x.len() == 0 {
        assert(flags(x) =~= Seq::<Seq<char>>::empty()) by {
            reveal(Seq::filter);
        }
    } else {
        let init = x.drop_last();
        let last = x.last();
        assert(x =~= init.push(last));
        lemma_operands_fit(init);
        lemma_operand_push(init, last);
        lemma_token_texts_push(init, last);
        flags(init).lemma_flatten_push(last.text);
    }
}

/// Operands whose flags and command together are all their texts are flags
/// followed by at most one command.
proof fn lemma_tidy_only(r: Seq<TokenText>)
    requires
        genuine(r),
        forall|j: int| 0 <= j < r.len() ==> is_operand((#[trigger] r[j]).kind),
        flags(r).flatten() + command(r) == token_texts(r),
    ensures
        forall|j: int| 0 <= j < r.len() - 1 ==> (#[trigger] r[j]).kind == Token::CmdArg,
    decreases r.len(),
{
    if r.len() >= 2 {
        let first = r[0];
        let tail = r.skip(1);
        assert(r =~= seq![first] + tail);
        assert(fits(first.kind, first.text));
        assert(fits(tail[0].kind, tail[0].text)) by {
            assert(tail[0] == r[1]);
        }
        assert(genuine(tail)) by {
            assert forall|i: int| 0 <= i < tail.len() implies fits(
                (#[trigger] tail[i]).kind,
                tail[i].text,
            ) by {
                assert(tail[i] == r[i + 1]);
            }
        }
        assert forall|j: int| 0 <= j < tail.len() implies is_operand((#[trigger] tail[j]).kind) by {
            assert(tail[j] == r[j + 1]);
        }
        lemma_single_operand(first);
        lemma_flags_concat(seq![first], tail);
        lemma_command_concat(seq![first], tail);
        lemma_token_texts_concat(seq![first], tail);
        lemma_operands_fit(tail);
        let ft = flags(tail).flatten();
        let tt = token_texts(tail);
        if first.kind == Token::CmdArg {
            assert(command(r) == command(tail)) by {
                if !has_command(tail) {
                    lemma_all_flags_of(tail);
                }
            }
            assert(first.text + ft + command(tail) =~= first.text + (ft + command(tail)));
            lemma_cancel_prefix(first.text, ft + command(tail), tt);
            lemma_tidy_only(tail);
            assert forall|j: int| 0 <= j < r.len() - 1 implies (#[trigger] r[j]).kind
                == Token::CmdArg by {
                if j > 0 {
                    assert(r[j] == tail[j - 1]);
                }
            }
        } else {
            assert(Seq::<char>::empty() + ft =~= ft);
            if has_command(tail) {
                assert((ft + command(tail)).len() < (first.text + tt).len());
                assert(false);
            } else {
                lemma_all_flags_of(tail);
                assert(ft + first.text == first.text + tt);
                assert(ft == tt);
                assert(tt.len() > 0) by {
                    lemma_token_texts_split(tail);
                }
                assert((ft + first.text)[0] == tt[0]);
                assert(tt[0] == tail[0].text[0]) by {
                    lemma_token_texts_split(tail);
                }
                assert((first.text + tt)[0] == first.text[0]);
                assert(tail[0].text[0] == '-');
                assert(first.text[0] != '-') by {
                    if first.kind == Token::Identifier {
                        assert(CharClass::Word.has(first.text[0]));
                    }
                }
                assert(false);
            }
        }
    }
}

/// Operands without a command are all flags.
proof fn lemma_all_flags_of(x: Seq<TokenText>)
    requires
        forall|j: int| 0 <= j < x.len() ==> is_operand((#[trigger] x[j]).kind),
        !has_command(x),
    ensures
        flags(x).flatten() == token_texts(x),
        command(x) == Seq::<char>::empty(),
{
    assert forall|j: int| 0 <= j < x.len() implies (#[trigger] x[j]).kind == Token::CmdArg by {
        assert(is_operand(x[j].kind));
    }
    lemma_all_flags(x);
}

/// The part of the tokens that the first directive uses up holds at least
/// the text of that directive, and more where a token ends a command.
proof fn lemma_first_node_fits(toks: Seq<TokenText>)
    requires
        genuine(toks),
        toks.len() > 0,
    ensures
        first_taken(toks) <= toks.len(),
        node_text(first_node(toks)).len() <= token_texts(
            toks.take(first_taken(toks) as int),
        ).len(),
        node_text(first_node(toks)).len() == token_texts(
            toks.take(first_taken(toks) as int),
        ).len() ==> {
            ||| toks[0].kind != Token::Exec && toks[0].kind != Token::ExecAlways
            ||| operand_run(toks.skip(1)) == toks.len() - 1
        },
{
    let first = toks[0];
    let rest = toks.skip(1);
    assert(fits(first.kind, first.text));
    lemma_operand_run(rest);
    lemma_single_operand(first);
    let used = toks.take(first_taken(toks) as int);
    if first.kind == Token::Exec || first.kind == Token::ExecAlways {
        let n = operand_run(rest) as int;
        let ops = rest.take(n);
        lemma_operands_fit(ops);
        if n < rest.len() {
            let stop = rest[n];
            assert(fits(stop.kind, stop.text)) by {
                assert(stop == toks[n + 1]);
            }
            assert(used =~= seq![first] + ops + seq![stop]);
            lemma_token_texts_concat(seq![first] + ops, seq![stop]);
            lemma_token_texts_concat(seq![first], ops);
            lemma_single_operand(stop);
            assert(stop.text.len() > 0);
        } else {
            assert(used =~= seq![first] + ops);
            lemma_token_texts_concat(seq![first], ops);
        }
    } else {
        assert(used =~= seq![first]);
        if first.kind == Token::Comment {
            assert(node_text(first_node(toks)).len() == first.text.len());
        }
    }
}

/// The directives never hold more text than the tokens they are made of.
pub proof fn lemma_tree_text_fits(toks: Seq<TokenText>)
    requires
        genuine(toks),
    ensures
        tree_text(parse_tokens(toks)).len() <= token_texts(toks).len(),
    decreases toks.len(),
{
    if toks.len() == 0 {
        assert(tree_text(parse_tokens(toks)) =~= Seq::<char>::empty());
    } else {
        lemma_first_node_fits(toks);
        let k = first_taken(toks) as int;
        let after = toks.skip(k);
        assert(genuine(after)) by {
            assert forall|i: int| 0 <= i < after.len() implies fits(
                (#[trigger] after[i]).kind,
                after[i].text,
            ) by {
                assert(after[i] == toks[i + k]);
            }
        }
        lemma_tree_text_fits(after);
        lemma_tree_text_split(first_node(toks), parse_tokens(after));
        assert(toks =~= toks.take(k) + after);
        lemma_token_texts_concat(toks.take(k), after);
    }
}

/// Where the texts of the directives are the texts of the tokens, no
/// command directive has lost a token.
proof fn lemma_cover_only_if(toks: Seq<TokenText>)
    requires
        genuine(toks),
        tree_text(parse_tokens(toks)) == token_texts(toks),
    ensures
        nothing_dropped(toks),
    decreases toks.len(),
{
    if toks.len() > 0 {
        let first = toks[0];
        let rest = toks.skip(1);
        let k = first_taken(toks) as int;
        let after = toks.skip(k);
        assert(fits(first.kind, first.text));
        lemma_first_node_fits(toks);
        lemma_operand_run(rest);
        assert(genuine(after)) by {
            assert forall|i: int| 0 <= i < after.len() implies fits(
                (#[trigger] after[i]).kind,
                after[i].text,
            ) by {
                assert(after[i] == toks[i + k]);
            }
        }
        lemma_tree_text_fits(after);
        lemma_tree_text_split(first_node(toks), parse_tokens(after));
        assert(toks =~= toks.take(k) + after);
        lemma_token_texts_concat(toks.take(k), after);
        let head = node_text(first_node(toks));
        let used = token_texts(toks.take(k));
        let tree_rest = tree_text(parse_tokens(after));
        assert(parse_tokens(toks) == seq![first_node(toks)] + parse_tokens(after));
        assert(tree_text(parse_tokens(toks)) == head + tree_rest);
        assert(token_texts(toks) == used + token_texts(after));
        assert((head + tree_rest).len() == head.len() + tree_rest.len());
        assert((used + token_texts(after)).len() == used.len() + token_texts(after).len());
        assert(head.len() == used.len());
        assert(tree_text(parse_tokens(after)).len() == token_texts(after).len());
        if first.kind == Token::Exec || first.kind == Token::ExecAlways {
            assert(operand_run(rest) == rest.len());
            assert(after.len() == 0);
            assert(exec_operands(rest) =~= rest);
            assert(genuine(rest)) by {
                assert forall|i: int| 0 <= i < rest.len() implies fits(
                    (#[trigger] rest[i]).kind,
                    rest[i].text,
                ) by {
                    assert(rest[i] == toks[i + 1]);
                }
            }
            lemma_token_texts_split(toks);
            assert(tree_text(parse_tokens(after)) =~= Seq::<char>::empty());
            assert(head + Seq::<char>::empty() =~= head);
            assert(head =~= first.text + (flags(rest).flatten() + command(rest)));
            lemma_cancel_prefix(first.text, flags(rest).flatten() + command(rest), token_texts(rest));
            lemma_tidy_only(rest);
            assert forall|i: int, j: int|
                0 <= i < j < toks.len() && ((#[trigger] toks[i]).kind == Token::Exec
                    || toks[i].kind == Token::ExecAlways) implies {
                &&& is_operand((#[trigger] toks[j]).kind)
                &&& j < toks.len() - 1 ==> toks[j].kind == Token::CmdArg
            } by {
                assert(toks[j] == rest[j - 1]);
                if i > 0 {
                    assert(toks[i] == rest[i - 1]);
                    assert(is_operand(rest[i - 1].kind));
                }
            }
        } else {
            assert(after == rest);
            lemma_single_operand(first);
            assert(toks.take(k) =~= seq![first]);
            assert(head =~= first.text);
            lemma_cancel_prefix(first.text, tree_text(parse_tokens(rest)), token_texts(rest));
            lemma_cover_only_if(rest);
            assert forall|i: int, j: int|
                0 <= i < j < toks.len() && ((#[trigger] toks[i]).kind == Token::Exec
                    || toks[i].kind == Token::ExecAlways) implies {
                &&& is_operand((#[trigger] toks[j]).kind)
                &&& j < toks.len() - 1 ==> toks[j].kind == Token::CmdArg
            } by {
                assert(toks[i] == rest[i - 1]);
                assert(toks[j] == rest[j - 1]);
            }
        }
    }
}

/// The texts of the directives are the texts of the tokens, nothing missing
/// and nothing out of place, exactly where no command directive loses a
/// token.
pub proof fn lemma_nodes_cover_tokens(toks: Seq<TokenText>)
    requires
        genuine(toks),
    ensures
        tree_text(parse_tokens(toks)) == token_texts(toks) <==> nothing_dropped(toks),
{
    if nothing_dropped(toks) {
        lemma_cover_if(toks);
    }
    if tree_text(parse_tokens(toks)) == token_texts(toks) {
        lemma_cover_only_if(toks);
    }
}

/// The directives of a text account for every character of it that is not
/// a blank between tokens, in order, exactly where no command directive
/// loses a token.
pub proof fn lemma_directives_cover_text(s: Seq<char>)
    ensures
        tree_text(directives(s)) == token_texts(tokens(s)) <==> nothing_dropped(tokens(s)),
{
    lemma_tokens_genuine(s);
    lemma_nodes_cover_tokens(tokens(s));
}

} // verus!
