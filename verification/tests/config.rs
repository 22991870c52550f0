use d3_settings::config::{compile, exec, parse, tokenize, ConfigTree, Token};

fn s(text: &str) -> String {
    text.to_string()
}

fn kinds_and_texts(input: &str) -> Vec<(Token, String)> {
    let mut lex = tokenize(input);
    let mut out = Vec::new();
    while let Some(kind) = lex.next() {
        out.push((kind, lex.slice()));
    }
    out
}

#[test]
fn lexer() {
    let mut lex = tokenize("# TEST \n\nexec --no-startup-id /usr/lib/polkit-gnome/polkit-gnome-authentication-agent-1\nexec_always --no-startup-id fix_xcursor");

    assert_eq!(lex.next(), Some(Token::Comment));
    assert_eq!(lex.slice(), "# TEST \n");

    assert_eq!(lex.next(), Some(Token::Newline));

    assert_eq!(lex.next(), Some(Token::Exec));

    assert_eq!(lex.next(), Some(Token::CmdArg));
    assert_eq!(lex.slice(), "--no-startup-id");

    assert_eq!(lex.next(), Some(Token::Path));
    assert_eq!(
        lex.slice(),
        "/usr/lib/polkit-gnome/polkit-gnome-authentication-agent-1"
    );

    assert_eq!(lex.next(), Some(Token::Newline));

    assert_eq!(lex.next(), Some(Token::ExecAlways));

    assert_eq!(lex.next(), Some(Token::CmdArg));
    assert_eq!(lex.slice(), "--no-startup-id");

    assert_eq!(lex.next(), Some(Token::Identifier));
    assert_eq!(lex.slice(), "fix_xcursor");
}

#[test]
fn parser() {
    let lex = tokenize("# TEST \n\nexec --no-startup-id /usr/lib/polkit-gnome/polkit-gnome-authentication-agent-1\nexec_always --no-startup-id fix_xcursor");
    let parser_tree = parse(lex);

    assert_eq!(
        parser_tree,
        vec![
            ConfigTree::Comment(" TEST \n".to_string()),
            ConfigTree::Newline,
            ConfigTree::Exec((
                vec!["--no-startup-id".to_string()],
                "/usr/lib/polkit-gnome/polkit-gnome-authentication-agent-1".to_string()
            )),
            ConfigTree::ExecAlways((
                vec!["--no-startup-id".to_string()],
                "fix_xcursor".to_string()
            )),
        ]
    )
}

#[test]
fn lexer_ends_with_none_and_an_empty_slice() {
    let mut lex = tokenize("exec_always --no-startup-id fix_xcursor  ");
    assert_eq!(lex.next(), Some(Token::ExecAlways));
    assert_eq!(lex.slice(), "exec_always");
    assert_eq!(lex.next(), Some(Token::CmdArg));
    assert_eq!(lex.next(), Some(Token::Identifier));
    assert_eq!(lex.next(), None);
    assert_eq!(lex.slice(), "");
    assert_eq!(lex.next(), None);
}

#[test]
fn slice_is_empty_before_the_first_token() {
    let lex = tokenize("exec");
    assert_eq!(lex.slice(), "");
}

#[test]
fn slice_from_drops_leading_characters() {
    let mut lex = tokenize("  --flag");
    assert_eq!(lex.next(), Some(Token::CmdArg));
    assert_eq!(lex.slice_from(0), "--flag");
    assert_eq!(lex.slice_from(2), "flag");
    assert_eq!(lex.slice_from(6), "");
}

#[test]
fn empty_and_blank_inputs_have_no_tokens() {
    assert_eq!(kinds_and_texts(""), vec![]);
    assert_eq!(kinds_and_texts(" \t\x0c  "), vec![]);
    assert_eq!(compile(""), vec![]);
    assert_eq!(compile("   \t"), vec![]);
}

#[test]
fn blanks_between_tokens_are_dropped() {
    assert_eq!(
        kinds_and_texts(" a\t\tb \x0c c"),
        vec![
            (Token::Identifier, s("a")),
            (Token::Identifier, s("b")),
            (Token::Identifier, s("c")),
        ]
    );
}

#[test]
fn carriage_return_is_no_blank() {
    assert_eq!(
        kinds_and_texts("a\r\n"),
        vec![
            (Token::Identifier, s("a")),
            (Token::Error, s("\r")),
            (Token::Newline, s("\n")),
        ]
    );
}

#[test]
fn comment_runs_to_the_line_break() {
    assert_eq!(
        kinds_and_texts("# a # b \"x\" $y\nz"),
        vec![
            (Token::Comment, s("# a # b \"x\" $y\n")),
            (Token::Identifier, s("z")),
        ]
    );
    assert_eq!(kinds_and_texts("#\n"), vec![(Token::Comment, s("#\n"))]);
}

#[test]
fn comment_without_line_break_is_an_error_character() {
    assert_eq!(
        kinds_and_texts("# ab"),
        vec![(Token::Error, s("#")), (Token::Identifier, s("ab"))]
    );
    assert_eq!(kinds_and_texts("#"), vec![(Token::Error, s("#"))]);
}

#[test]
fn keywords_are_whole_words() {
    assert_eq!(kinds_and_texts("exec"), vec![(Token::Exec, s("exec"))]);
    assert_eq!(
        kinds_and_texts("exec_always"),
        vec![(Token::ExecAlways, s("exec_always"))]
    );
    assert_eq!(
        kinds_and_texts("execute exec_ exec_alway exec_always2 Exec"),
        vec![
            (Token::Identifier, s("execute")),
            (Token::Identifier, s("exec_")),
            (Token::Identifier, s("exec_alway")),
            (Token::Identifier, s("exec_always2")),
            (Token::Identifier, s("Exec")),
        ]
    );
    assert_eq!(
        kinds_and_texts("exec-x"),
        vec![
            (Token::Exec, s("exec")),
            (Token::Error, s("-")),
            (Token::Identifier, s("x")),
        ]
    );
}

#[test]
fn flags_start_with_two_hyphens() {
    assert_eq!(
        kinds_and_texts("--no-startup-id -- --a_b-9 -x"),
        vec![
            (Token::CmdArg, s("--no-startup-id")),
            (Token::CmdArg, s("--")),
            (Token::CmdArg, s("--a_b-9")),
            (Token::Error, s("-")),
            (Token::Identifier, s("x")),
        ]
    );
    assert_eq!(
        kinds_and_texts("--a=b"),
        vec![
            (Token::CmdArg, s("--a")),
            (Token::Equals, s("=")),
            (Token::Identifier, s("b")),
        ]
    );
}

#[test]
fn variables_need_a_name() {
    assert_eq!(
        kinds_and_texts("$mod $ $9_a $-"),
        vec![
            (Token::Variable, s("$mod")),
            (Token::Error, s("$")),
            (Token::Variable, s("$9_a")),
            (Token::Error, s("$")),
            (Token::Error, s("-")),
        ]
    );
}

#[test]
fn quoted_strings_hold_words_and_spaces() {
    assert_eq!(
        kinds_and_texts("\"hello world_1\" \"\""),
        vec![
            (Token::String, s("\"hello world_1\"")),
            (Token::String, s("\"\"")),
        ]
    );
}

#[test]
fn unterminated_or_odd_strings_fall_to_error_characters() {
    assert_eq!(
        kinds_and_texts("\"abc"),
        vec![(Token::Error, s("\"")), (Token::Identifier, s("abc"))]
    );
    assert_eq!(
        kinds_and_texts("\"a-b\""),
        vec![
            (Token::Error, s("\"")),
            (Token::Identifier, s("a")),
            (Token::Error, s("-")),
            (Token::Identifier, s("b")),
            (Token::Error, s("\"")),
        ]
    );
    assert_eq!(
        kinds_and_texts("\"a\tb\""),
        vec![
            (Token::Error, s("\"")),
            (Token::Identifier, s("a")),
            (Token::Identifier, s("b")),
            (Token::Error, s("\"")),
        ]
    );
}

#[test]
fn paths_start_with_slash_tilde_or_dot_slash() {
    assert_eq!(
        kinds_and_texts("/usr/bin/foo ~ ~/.config/i3 ./run.sh /a=b&c-d_e ~x"),
        vec![
            (Token::Path, s("/usr/bin/foo")),
            (Token::Path, s("~")),
            (Token::Path, s("~/.config/i3")),
            (Token::Path, s("./run.sh")),
            (Token::Path, s("/a=b&c-d_e")),
            (Token::Path, s("~x")),
        ]
    );
    assert_eq!(
        kinds_and_texts(". .x ../y"),
        vec![
            (Token::Error, s(".")),
            (Token::Error, s(".")),
            (Token::Identifier, s("x")),
            (Token::Error, s(".")),
            (Token::Path, s("./y")),
        ]
    );
}

#[test]
fn a_path_stops_at_a_character_outside_its_class() {
    assert_eq!(
        kinds_and_texts("/a/b{c"),
        vec![
            (Token::Path, s("/a/b")),
            (Token::CurlyOpen, s("{")),
            (Token::Identifier, s("c")),
        ]
    );
}

#[test]
fn structural_characters_have_their_own_kinds() {
    assert_eq!(
        kinds_and_texts("{}=[]"),
        vec![
            (Token::CurlyOpen, s("{")),
            (Token::CurlyClosed, s("}")),
            (Token::Equals, s("=")),
            (Token::SquareOpen, s("[")),
            (Token::SquareClosed, s("]")),
        ]
    );
}

#[test]
fn characters_outside_every_rule_are_error_tokens_one_by_one() {
    assert_eq!(
        kinds_and_texts("é%ü"),
        vec![
            (Token::Error, s("é")),
            (Token::Error, s("%")),
            (Token::Error, s("ü")),
        ]
    );
    assert_eq!(
        kinds_and_texts("añb"),
        vec![
            (Token::Identifier, s("a")),
            (Token::Error, s("ñ")),
            (Token::Identifier, s("b")),
        ]
    );
}

#[test]
fn comment_keeps_characters_beyond_ascii() {
    assert_eq!(
        compile("# grüße ✓\n"),
        vec![ConfigTree::Comment(s(" grüße ✓\n"))]
    );
}

#[test]
fn comment_extraction() {
    assert_eq!(compile("# hello\n"), vec![ConfigTree::Comment(s(" hello\n"))]);
}

#[test]
fn exec_with_one_flag_and_a_path() {
    assert_eq!(
        compile("exec --no-startup-id /usr/bin/foo"),
        vec![ConfigTree::Exec((vec![s("--no-startup-id")], s("/usr/bin/foo")))]
    );
}

#[test]
fn exec_always_with_identifier_command_and_no_flags() {
    assert_eq!(
        compile("exec_always fix_xcursor"),
        vec![ConfigTree::ExecAlways((vec![], s("fix_xcursor")))]
    );
}

#[test]
fn unknown_passthrough() {
    assert_eq!(compile("$foo"), vec![ConfigTree::Unknown(s("$foo"))]);
}

#[test]
fn sequencing_keeps_the_order_of_the_text() {
    assert_eq!(
        compile("# c\nexec --x /a\nexec_always --y b"),
        vec![
            ConfigTree::Comment(s(" c\n")),
            ConfigTree::Exec((vec![s("--x")], s("/a"))),
            ConfigTree::ExecAlways((vec![s("--y")], s("b"))),
        ]
    );
}

#[test]
fn structural_tokens_parse_to_single_unknown_nodes() {
    assert_eq!(compile("{"), vec![ConfigTree::Unknown(s("{"))]);
    assert_eq!(compile("}"), vec![ConfigTree::Unknown(s("}"))]);
    assert_eq!(compile("="), vec![ConfigTree::Unknown(s("="))]);
    assert_eq!(compile("["), vec![ConfigTree::Unknown(s("["))]);
    assert_eq!(compile("]"), vec![ConfigTree::Unknown(s("]"))]);
}

#[test]
fn every_other_token_kind_passes_through_as_unknown() {
    assert_eq!(
        compile("--flag $v \"a b\" /p name { } = [ ] %"),
        vec![
            ConfigTree::Unknown(s("--flag")),
            ConfigTree::Unknown(s("$v")),
            ConfigTree::Unknown(s("\"a b\"")),
            ConfigTree::Unknown(s("/p")),
            ConfigTree::Unknown(s("name")),
            ConfigTree::Unknown(s("{")),
            ConfigTree::Unknown(s("}")),
            ConfigTree::Unknown(s("=")),
            ConfigTree::Unknown(s("[")),
            ConfigTree::Unknown(s("]")),
            ConfigTree::Unknown(s("%")),
        ]
    );
}

#[test]
fn newline_alone_is_a_newline_node() {
    assert_eq!(
        compile("\n\n"),
        vec![ConfigTree::Newline, ConfigTree::Newline]
    );
}

#[test]
fn exec_without_operands_has_empty_defaults() {
    assert_eq!(compile("exec"), vec![ConfigTree::Exec((vec![], s("")))]);
    assert_eq!(
        compile("exec_always   "),
        vec![ConfigTree::ExecAlways((vec![], s("")))]
    );
}

#[test]
fn the_token_that_ends_an_exec_is_dropped() {
    // The line break after the command is read by the sub-parser and lost.
    assert_eq!(
        compile("exec /a\n"),
        vec![ConfigTree::Exec((vec![], s("/a")))]
    );
    // So is any other token: here the variable never shows up.
    assert_eq!(
        compile("exec --x /a $lost kept"),
        vec![
            ConfigTree::Exec((vec![s("--x")], s("/a"))),
            ConfigTree::Unknown(s("kept")),
        ]
    );
    // A second keyword right after the first is swallowed, and its operand
    // is left as a plain token.
    assert_eq!(
        compile("exec exec_always b"),
        vec![ConfigTree::Exec((vec![], s(""))), ConfigTree::Unknown(s("b"))]
    );
    // Only one token goes: the second line break is still there.
    assert_eq!(
        compile("exec a\n\n# c\n"),
        vec![
            ConfigTree::Exec((vec![], s("a"))),
            ConfigTree::Newline,
            ConfigTree::Comment(s(" c\n")),
        ]
    );
}

#[test]
fn the_last_command_wins_and_flags_keep_their_order() {
    assert_eq!(
        compile("exec /first --b second --a --b ./third"),
        vec![ConfigTree::Exec((
            vec![s("--b"), s("--a"), s("--b")],
            s("./third")
        ))]
    );
    assert_eq!(
        compile("exec name --late"),
        vec![ConfigTree::Exec((vec![s("--late")], s("name")))]
    );
}

#[test]
fn exec_sub_parser_reads_from_where_the_lexer_stands() {
    let mut lex = tokenize("--a /bin/x --b = after");
    let (args, command) = exec(&mut lex);
    assert_eq!(args, vec![s("--a"), s("--b")]);
    assert_eq!(command, "/bin/x");
    // The `=` ended the run and is gone.
    assert_eq!(lex.slice(), "=");
    assert_eq!(lex.next(), Some(Token::Identifier));
    assert_eq!(lex.slice(), "after");
    assert_eq!(lex.next(), None);
}

#[test]
fn exec_sub_parser_at_the_end_of_the_text() {
    let mut lex = tokenize("   ");
    let (args, command) = exec(&mut lex);
    assert_eq!(args, Vec::<String>::new());
    assert_eq!(command, "");
    assert_eq!(lex.next(), None);
}

#[test]
fn parse_goes_on_from_a_lexer_in_mid_stream() {
    let mut lex = tokenize("skipped # c\nrest");
    assert_eq!(lex.next(), Some(Token::Identifier));
    assert_eq!(
        parse(lex),
        vec![ConfigTree::Comment(s(" c\n")), ConfigTree::Unknown(s("rest"))]
    );
}

#[test]
fn node_count_never_exceeds_token_count() {
    let input = "# c\nexec --x /a\nexec_always --y b\n{ $v }";
    let tokens = kinds_and_texts(input);
    let tree = compile(input);
    assert_eq!(tokens.len(), 12);
    assert_eq!(tree.len(), 6);
    assert!(tree.len() <= tokens.len());
}

#[test]
fn tokens_and_blanks_account_for_the_whole_text() {
    let input = " # c \n\texec  --x /a \x0c { \"q q\" } é";
    let mut lex = tokenize(input);
    let mut rebuilt = String::new();
    let mut rest = input;
    while lex.next().is_some() {
        let text = lex.slice();
        let at = rest.find(text.as_str()).unwrap();
        assert!(rest[..at].chars().all(|c| c == ' ' || c == '\t' || c == '\x0c'));
        rebuilt.push_str(&rest[..at + text.len()]);
        rest = &rest[at + text.len()..];
    }
    assert!(rest.chars().all(|c| c == ' ' || c == '\t' || c == '\x0c'));
    rebuilt.push_str(rest);
    assert_eq!(rebuilt, input);
}

fn token_texts(input: &str) -> String {
    let mut from_tokens = String::new();
    for (_, text) in kinds_and_texts(input) {
        from_tokens.push_str(&text);
    }
    from_tokens
}

fn tree_text(input: &str) -> String {
    let mut from_nodes = String::new();
    for node in compile(input) {
        match node {
            ConfigTree::Comment(t) => {
                from_nodes.push('#');
                from_nodes.push_str(&t);
            }
            ConfigTree::Newline => from_nodes.push('\n'),
            ConfigTree::Exec((args, command)) => {
                from_nodes.push_str("exec");
                from_nodes.push_str(&args.concat());
                from_nodes.push_str(&command);
            }
            ConfigTree::ExecAlways((args, command)) => {
                from_nodes.push_str("exec_always");
                from_nodes.push_str(&args.concat());
                from_nodes.push_str(&command);
            }
            ConfigTree::Unknown(t) => from_nodes.push_str(&t),
        }
    }
    from_nodes
}

#[test]
fn node_texts_cover_the_tokens_where_nothing_is_dropped() {
    let input = "# c\n\n$v { exec --x --y /a";
    assert_eq!(tree_text(input), "# c\n\n$v{exec--x--y/a");
    assert_eq!(tree_text(input), token_texts(input));
    assert_eq!(tree_text("exec_always"), token_texts("exec_always"));
    assert_eq!(tree_text(" a = b "), "a=b");
    assert_eq!(token_texts(" a = b "), "a=b");
}

#[test]
fn node_texts_fall_short_where_a_command_loses_a_token() {
    // The line break that ends the command is lost.
    assert_eq!(token_texts("exec /a\n"), "exec/a\n");
    assert_eq!(tree_text("exec /a\n"), "exec/a");
    // The first of two commands is lost.
    assert_eq!(token_texts("exec a b"), "execab");
    assert_eq!(tree_text("exec a b"), "execb");
    // Nothing is lost here, but the flag has moved before the command.
    assert_eq!(token_texts("exec a --x"), "execa--x");
    assert_eq!(tree_text("exec a --x"), "exec--xa");
}

#[test]
fn every_comment_ends_with_its_line_break() {
    let tree = compile("# a # b\n#\nx # c\n# no line break");
    let mut comments = 0;
    for node in &tree {
        if let ConfigTree::Comment(text) = node {
            comments += 1;
            assert!(text.ends_with('\n'));
            assert_eq!(text.matches('\n').count(), 1);
        }
    }
    assert_eq!(comments, 3);
    assert_eq!(tree[0], ConfigTree::Comment(s(" a # b\n")));
    assert_eq!(tree[1], ConfigTree::Comment(s("\n")));
}

#[test]
fn compile_is_the_same_on_every_call() {
    let input = "exec --a b\n# c\n";
    assert_eq!(compile(input), compile(input));
}

#[test]
fn a_cloned_directive_equals_the_first() {
    let tree = compile("# c\n\nexec --x /a = exec_always b $v");
    let copy: Vec<ConfigTree> = tree.iter().map(|n| n.clone()).collect();
    assert_eq!(copy, tree);
    // The `=` and the `$v` each end a command and are dropped.
    assert_eq!(copy.len(), 4);
}
