//! The parser: folds the tokens of a text into directives.

use crate::config::lexer::{lemma_comment_shape, tokenize, tokens, Lexer, TokenText};
use crate::config::token::Token;
use crate::config::tree::{nodes, texts, Config, ConfigExecType, ConfigTree, Node};
use vstd::prelude::*;

verus! {

/// The kinds of token that a command directive takes in: flags, paths and
/// identifiers.
pub open spec fn is_operand(kind: Token) -> bool {
    kind == Token::CmdArg || kind == Token::Path || kind == Token::Identifier
}

/// How many operands stand at the front of `toks`.
pub open spec fn operand_run(toks: Seq<TokenText>) -> nat
    decreases toks.len(),
{
    if toks.len() > 0 && is_operand(toks[0].kind) {
        1 + operand_run(toks.skip(1))
    } else {
        0
    }
}

/// `operand_run` is the length of the longest front of operands.
pub proof fn lemma_operand_run(toks: Seq<TokenText>)
    ensures
        operand_run(toks) <= toks.len(),
        forall|k: int| 0 <= k < operand_run(toks) ==> is_operand(#[trigger] toks[k].kind),
        operand_run(toks) < toks.len() ==> !is_operand(toks[operand_run(toks) as int].kind),
    decreases toks.len(),
{
    if toks.len() > 0 && is_operand(toks[0].kind) {
        let rest = toks.skip(1);
        lemma_operand_run(rest);
        assert forall|k: int| 0 <= k < operand_run(toks) implies is_operand(
            #[trigger] toks[k].kind,
        ) by {
            if k > 0 {
                assert(toks[k] == rest[k - 1]);
            }
        }
        if operand_run(toks) < toks.len() {
            assert(toks[operand_run(toks) as int] == rest[operand_run(rest) as int]);
        }
    }
}

/// A front of operands that ends at the end or before another kind of token
/// is the one that `operand_run` measures.
pub proof fn lemma_operand_run_unique(toks: Seq<TokenText>, n: int)
    requires
        0 <= n <= toks.len(),
        forall|k: int| 0 <= k < n ==> is_operand(#[trigger] toks[k].kind),
        n < toks.len() ==> !is_operand(toks[n].kind),
    ensures
        operand_run(toks) == n,
    decreases n,
{
    if n > 0 {
        assert(is_operand(toks[0].kind));
        let rest = toks.skip(1);
        assert forall|k: int| 0 <= k < n - 1 implies is_operand(#[trigger] rest[k].kind) by {
            assert(rest[k] == toks[k + 1]);
        }
        if n - 1 < rest.len() {
            assert(rest[n - 1] == toks[n]);
        }
        lemma_operand_run_unique(rest, n - 1);
    }
}

/// The texts of the flags among `toks`, in order.
pub open spec fn flags(toks: Seq<TokenText>) -> Seq<Seq<char>> {
    toks.filter(|t: TokenText| t.kind == Token::CmdArg).map_values(|t: TokenText| t.text)
}

/// The text of the last path or identifier among `toks`; empty where there
/// is none.
pub open spec fn command(toks: Seq<TokenText>) -> Seq<char>
    decreases toks.len(),
{
    if toks.len() == 0 {
        Seq::empty()
    } else if toks.last().kind == Token::Path || toks.last().kind == Token::Identifier {
        toks.last().text
    } else {
        command(toks.drop_last())
    }
}

/// The operands that a command directive takes from the tokens after its
/// keyword.
pub open spec fn exec_operands(toks: Seq<TokenText>) -> Seq<TokenText> {
    toks.take(operand_run(toks) as int)
}

/// How many of the tokens after its keyword a command directive uses up: its
/// operands and, where the text goes on, the one token that ends them. That
/// token is read and then lost.
pub open spec fn exec_taken(toks: Seq<TokenText>) -> nat {
    if operand_run(toks) < toks.len() {
        operand_run(toks) + 1
    } else {
        operand_run(toks)
    }
}

/// The directive that starts with the first token of `toks`.
pub open spec fn first_node(toks: Seq<TokenText>) -> Node
    recommends
        toks.len() > 0,
{
    let rest = toks.skip(1);
    match toks[0].kind {
        Token::Comment => Node::Comment(toks[0].text.skip(1)),
        Token::Newline => Node::Newline,
        Token::Exec => Node::Exec(flags(exec_operands(rest)), command(exec_operands(rest))),
        Token::ExecAlways => Node::ExecAlways(
            flags(exec_operands(rest)),
            command(exec_operands(rest)),
        ),
        _ => Node::Unknown(toks[0].text),
    }
}

/// How many tokens the first directive of `toks` uses up.
pub open spec fn first_taken(toks: Seq<TokenText>) -> nat
    recommends
        toks.len() > 0,
{
    match toks[0].kind {
        Token::Exec | Token::ExecAlways => 1 + exec_taken(toks.skip(1)),
        _ => 1,
    }
}

/// The directives that a sequence of tokens folds into.
pub open spec fn parse_tokens(toks: Seq<TokenText>) -> Seq<Node>
    decreases toks.len(),
    via parse_tokens_decreases
{
    if toks.len() == 0 {
        Seq::empty()
    } else {
        seq![first_node(toks)] + parse_tokens(toks.skip(first_taken(toks) as int))
    }
}

#[via_fn]
proof fn parse_tokens_decreases(toks: Seq<TokenText>) {
    if toks.len() > 0 {
        lemma_operand_run(toks.skip(1));
    }
}

/// The directives of a text.
pub open spec fn directives(s: Seq<char>) -> Seq<Node> {
    parse_tokens(tokens(s))
}

/// What one more token at the end does to the flags and to the command.
pub proof fn lemma_operand_push(toks: Seq<TokenText>, t: TokenText)
    ensures
        flags(toks.push(t)) == if t.kind == Token::CmdArg {
            flags(toks).push(t.text)
        } else {
            flags(toks)
        },
        command(toks.push(t)) == if t.kind == Token::Path || t.kind == Token::Identifier {
            t.text
        } else {
            command(toks)
        },
{
    let is_flag = |t: TokenText| t.kind == Token::CmdArg;
    let text_of = |t: TokenText| t.text;
    toks.lemma_filter_push(t, is_flag);
    assert(toks.push(t).drop_last() =~= toks);
    if t.kind == Token::CmdArg {
        assert(toks.filter(is_flag).push(t).map_values(text_of) =~= toks.filter(is_flag).map_values(
            text_of,
        ).push(t.text));
    }
}

/// Reads the operands of a command directive, whose keyword was just read:
/// every flag is kept, in order, and the last path or identifier is the
/// command. The first token of another kind ends the directive; it is read
/// and not handed on.
pub fn exec(input: &mut Lexer) -> (params: ConfigExecType)
    requires
        old(input).wf(),
    ensures
        final(input).wf(),
        final(input).source() == old(input).source(),
        texts(params.0@) == flags(exec_operands(old(input).pending())),
        params.1@ == command(exec_operands(old(input).pending())),
        final(input).pending() == old(input).pending().skip(
            exec_taken(old(input).pending()) as int,
        ),
{
    let mut args: Vec<String> = Vec::new();
    let mut path = String::new();
    let ghost all = input.pending();
    let ghost mut n: int = 0;
    let mut done = false;
    proof {
        assert(all.take(0) =~= Seq::<TokenText>::empty());
        assert(all.skip(0) =~= all);
        assert(texts(args@) =~= Seq::<Seq<char>>::empty());
        assert(flags(all.take(0)) =~= Seq::<Seq<char>>::empty()) by {
            reveal(Seq::filter);
        }
    }
    while !done
        invariant
            input.wf(),
            input.source() == old(input).source(),
            all == old(input).pending(),
            0 <= n <= all.len(),
            forall|k: int| 0 <= k < n ==> is_operand(#[trigger] all[k].kind),
            texts(args@) == flags(all.take(n)),
            path@ == command(all.take(n)),
            !done ==> input.pending() == all.skip(n),
            done ==> operand_run(all) == n && input.pending() == all.skip(exec_taken(all) as int),
        decreases input.pending().len() + (if done { 0int } else { 1int }),
    {
        let ghost before = input.pending();
        let ghost old_args = args@;
        let token = input.next();
        proof {
            if before.len() > 0 {
                assert(before[0] == all[n]);
                assert(before.skip(1) =~= all.skip(n + 1));
                assert(all.take(n + 1) =~= all.take(n).push(all[n]));
                lemma_operand_push(all.take(n), all[n]);
            } else {
                assert(n == all.len());
            }
        }
        match token {
            Some(Token::CmdArg) => {
                args.push(input.slice());
                proof {
                    assert(texts(args@) =~= texts(old_args).push(all[n].text));
                    n = n + 1;
                }
            },
            Some(Token::Path) | Some(Token::Identifier) => {
                path = input.slice();
                proof {
                    n = n + 1;
                }
            },
            _ => {
                done = true;
                proof {
                    lemma_operand_run_unique(all, n);
                }
            },
        }
    }
    proof {
        assert(exec_operands(all) == all.take(n));
    }
    (args, path)
}

/// Folds the tokens that `input` has still to give into directives: a
/// comment loses its `#`, a line break stands for itself, a keyword takes its
/// operands with it, and every other token is kept as its text.
pub fn parse(input: Lexer) -> (tree: Config)
    requires
        input.wf(),
    ensures
        nodes(tree@) == parse_tokens(input.pending()),
{
    let mut input = input;
    let ghost all = input.pending();
    let mut config_tree: Vec<ConfigTree> = Vec::new();
    let mut done = false;
    proof {
        assert(nodes(config_tree@) + parse_tokens(all) =~= parse_tokens(all));
    }
    while !done
        invariant
            input.wf(),
            parse_tokens(all) == nodes(config_tree@) + parse_tokens(input.pending()),
            done ==> input.pending().len() == 0,
        decreases input.pending().len() + (if done { 0int } else { 1int }),
    {
        let ghost before = input.pending();
        let ghost source = input.source();
        let ghost built = config_tree@;
        match input.next() {
            Some(token) => {
                let ghost rest = input.pending();
                proof {
                    lemma_operand_run(rest);
                    if token == Token::Comment {
                        lemma_comment_shape(source, input.token_start());
                    }
                }
                let node = match token {
                    Token::Comment => ConfigTree::Comment(input.slice_from(1)),
                    Token::Newline => ConfigTree::Newline,
                    Token::Exec => ConfigTree::Exec(exec(&mut input)),
                    Token::ExecAlways => ConfigTree::ExecAlways(exec(&mut input)),
                    Token::CmdArg
                    | Token::Variable
                    | Token::String
                    | Token::Path
                    | Token::Identifier
                    | Token::CurlyOpen
                    | Token::CurlyClosed
                    | Token::Equals
                    | Token::SquareOpen
                    | Token::SquareClosed
                    | Token::Error => ConfigTree::Unknown(input.slice()),
                };
                config_tree.push(node);
                proof {
                    assert(node@ == first_node(before));
                    assert(input.pending() =~= before.skip(first_taken(before) as int));
                    assert(nodes(config_tree@) =~= nodes(built).push(node@));
                    assert(nodes(built).push(node@) + parse_tokens(input.pending()) =~= nodes(built)
                        + (seq![first_node(before)] + parse_tokens(input.pending())));
                }
            },
            None => {
                done = true;
            },
        }
    }
    proof {
        assert(nodes(config_tree@) + parse_tokens(input.pending()) =~= nodes(config_tree@));
    }
    config_tree
}

/// The directives of a configuration text.
pub fn compile(input: &str) -> (tree: Config)
    ensures
        nodes(tree@) == directives(input@),
{
    parse(tokenize(input))
}

} // verus!
