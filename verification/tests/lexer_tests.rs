use dockerfile_parser::{lex, lex_with_escape, Lexer, SyntaxKind, Token};

#[test]
fn empty_input() {
    assert!(lex("").is_empty());
}

#[test]
fn covers_entire_source() {
    let src = "FROM rust:1.80 AS build
RUN cargo build
";
    let tokens = lex(src);
    let total: u32 = tokens.iter().map(|t| t.range.len()).sum();
    assert_eq!(usize::try_from(total).unwrap(), src.len());
    assert_eq!(tokens[0].range.start(), 0);
    assert_eq!(
        usize::try_from(tokens.last().unwrap().range.end()).unwrap(),
        src.len()
    );
}

#[test]
fn comment_only_at_line_start() {
    // The `#` after `FROM` must be part of the WORD, not a new comment.
    let src = "FROM repo#tag";
    let tokens = lex(src);
    let kinds: Vec<_> = tokens.iter().map(|t| t.kind).collect();
    assert_eq!(
        kinds,
        vec![SyntaxKind::WORD, SyntaxKind::WHITESPACE, SyntaxKind::WORD]
    );
    assert_eq!(tokens[2].text(src), "repo#tag");
}

#[test]
fn line_continuation_emitted_as_trivia() {
    let src = r"RUN echo \
foo";
    let tokens = lex(src);
    let kinds: Vec<_> = tokens.iter().map(|t| t.kind).collect();
    assert_eq!(
        kinds,
        vec![
            SyntaxKind::WORD,              // RUN
            SyntaxKind::WHITESPACE,        //
            SyntaxKind::WORD,              // echo
            SyntaxKind::WHITESPACE,        //
            SyntaxKind::LINE_CONTINUATION, // backslash + newline
            SyntaxKind::WORD,              // foo
        ]
    );
}

#[test]
fn custom_escape_char_backtick() {
    let src = "RUN echo `
foo";
    let tokens = lex_with_escape(src, '`');
    assert!(
        tokens
            .iter()
            .any(|t| t.kind == SyntaxKind::LINE_CONTINUATION)
    );
}

#[test]
fn unterminated_string_is_error() {
    let src = r#"LABEL key="unterminated"#;
    let tokens = lex(src);
    assert!(tokens.iter().any(|t| t.kind == SyntaxKind::ERROR));
}

#[test]
fn crlf_newlines_are_recognized() {
    let src = "FROM x\r\nRUN y\r\n";
    let tokens = lex(src);
    let newlines: Vec<&Token> = tokens
        .iter()
        .filter(|t| t.kind == SyntaxKind::NEWLINE)
        .collect();
    assert_eq!(newlines.len(), 2);
    assert_eq!(newlines[0].text(src), "\r\n");
}

#[test]
fn shell_body_consumes_to_end_of_logical_line() {
    let src = r"RUN echo a \
  echo b
";
    let mut lexer = Lexer::new(src);
    // Consume `RUN`.
    let run = lexer.next_token().unwrap();
    assert_eq!(run.kind, SyntaxKind::WORD);
    // Consume the whitespace after `RUN`.
    let ws = lexer.next_token().unwrap();
    assert_eq!(ws.kind, SyntaxKind::WHITESPACE);
    // Now lex the rest of the logical line as a shell body.
    let body = lexer.lex_shell_body().unwrap();
    assert_eq!(body.kind, SyntaxKind::SHELL_BODY);
    assert_eq!(
        body.text(src),
        r"echo a \
  echo b"
    );
    // The trailing newline must remain to be lexed as a NEWLINE trivia token.
    let nl = lexer.next_token().unwrap();
    assert_eq!(nl.kind, SyntaxKind::NEWLINE);
}

#[test]
fn shell_body_returns_none_at_eol() {
    let mut lexer = Lexer::new("\n");
    assert!(lexer.lex_shell_body().is_none());
}

#[test]
fn heredoc_body_terminates_on_delimiter_line() {
    let src = "cat <<EOF
hello
world
EOF
FROM x
";
    // Skip past the heredoc marker manually to set up the cursor.
    let prefix_len = "cat <<EOF\n".len();
    let mut lexer = Lexer {
        src,
        pos: prefix_len,
        escape: b'\\',
        at_line_start: true,
    };
    let body = lexer.lex_heredoc_body("EOF", false);
    assert_eq!(body.kind, SyntaxKind::HEREDOC_BODY);
    assert_eq!(
        body.text(src),
        "hello
world
EOF
"
    );
    // After the heredoc, the next token is `FROM`.
    let next = lexer.next_token().unwrap();
    assert_eq!(next.kind, SyntaxKind::WORD);
    assert_eq!(next.text(src), "FROM");
}

#[test]
fn heredoc_dash_form_tolerates_leading_tabs() {
    let src = "cat <<-EOF
\thello
\tEOF
";
    let prefix_len = "cat <<-EOF\n".len();
    let mut lexer = Lexer {
        src,
        pos: prefix_len,
        escape: b'\\',
        at_line_start: true,
    };
    let body = lexer.lex_heredoc_body("EOF", true);
    assert_eq!(
        body.text(src),
        "\thello
\tEOF
"
    );
}

/// The tokens tile the source: each starts where the previous one ended,
/// and together their texts are the source.
#[test]
fn tokens_are_contiguous() {
    let src = "# syntax=x\nFROM a:b AS c\nRUN [\"x\", 'y'] \\\n  && z\n\n";
    let tokens = lex(src);
    let mut at = 0;
    for t in &tokens {
        assert_eq!(t.range.start(), at);
        assert!(t.range.end() > t.range.start());
        at = t.range.end();
    }
    assert_eq!(at as usize, src.len());
    let joined: String = tokens.iter().map(|t| t.text(src)).collect();
    assert_eq!(joined, src);
}

#[test]
fn comment_at_line_start_and_quotes() {
    let src = "# hi\nENV A='b c' D=\"e\"\n";
    let tokens = lex(src);
    assert_eq!(tokens[0].kind, SyntaxKind::COMMENT);
    assert_eq!(tokens[0].text(src), "# hi");
    assert_eq!(tokens[1].kind, SyntaxKind::NEWLINE);
    let strings: Vec<&str> = tokens
        .iter()
        .filter(|t| t.kind == SyntaxKind::STRING)
        .map(|t| t.text(src))
        .collect();
    assert_eq!(strings, vec!["'b c'", "\"e\""]);
}

#[test]
fn lexer_position_and_eof() {
    let src = "RUN x";
    let mut lexer = Lexer::with_escape(src, '`');
    assert_eq!(lexer.source_len(), 5);
    assert_eq!(lexer.position(), 0);
    assert!(!lexer.is_eof());
    let first = lexer.next_token().unwrap();
    assert_eq!(first.text(src), "RUN");
    assert_eq!(lexer.position(), 3);
    while lexer.next_token().is_some() {}
    assert!(lexer.is_eof());
    assert_eq!(lexer.position(), 5);
    assert!(lexer.next_token().is_none());
}

#[test]
fn backtick_is_plain_with_default_escape() {
    let src = "RUN echo `\nfoo";
    let tokens = lex(src);
    assert!(tokens.iter().all(|t| t.kind != SyntaxKind::LINE_CONTINUATION));
    assert_eq!(
        tokens.iter().filter(|t| t.kind == SyntaxKind::NEWLINE).count(),
        1
    );
}

#[test]
fn heredoc_without_delimiter_runs_to_end() {
    let src = "a\nb\n";
    let mut lexer = Lexer {
        src,
        pos: 0,
        escape: b'\\',
        at_line_start: true,
    };
    let body = lexer.lex_heredoc_body("EOF", false);
    assert_eq!(body.kind, SyntaxKind::HEREDOC_BODY);
    assert_eq!(body.text(src), "a\nb\n");
    assert!(lexer.is_eof());
}

#[test]
fn non_ascii_escape_falls_back_to_backslash() {
    let src = "RUN a \\\nb";
    let with_accent = lex_with_escape(src, '\u{e9}');
    assert_eq!(with_accent, lex(src));
    assert!(with_accent
        .iter()
        .any(|t| t.kind == SyntaxKind::LINE_CONTINUATION && t.range.start() == 6 && t.range.end() == 8));
    let lexer = Lexer::with_escape(src, '\u{e9}');
    assert_eq!(lexer.escape, b'\\');
    assert_eq!(Lexer::with_escape(src, '\u{ff}').escape, b'\\');
    assert_eq!(Lexer::with_escape(src, '`').escape, b'`');
}
