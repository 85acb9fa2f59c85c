use dockerfile_parser::{
    assert_round_trips, parse, recognize_instruction, Severity, SyntaxElement, SyntaxKind, SyntaxNode,
};

fn child_of_kind(node: &SyntaxNode, kind: SyntaxKind) -> Option<&SyntaxNode> {
    node.children().into_iter().find(|c| c.kind() == kind)
}

#[test]
fn tests_empty_input() {
    let parse = parse("");
    assert!(parse.diagnostics().is_empty());
    assert_round_trips("");
}

#[test]
fn round_trip_preserves_source_exactly() {
    let cases: &[&str] = &[
        "",
        "FROM rust\n",
        "FROM rust:1.80-alpine AS builder
RUN cargo build
",
        "# syntax=docker/dockerfile:1
# escape=`
FROM debian
RUN apt-get update `
  && apt-get install -y curl
",
        r#"ENV A=1 B=2 C="three"
"#,
        "COPY --from=builder /app/target/release/x /usr/local/bin/x
",
        r#"RUN ["echo", "hello"]
"#,
        r#"LABEL maintainer="ada@example.com"
LABEL desc="a test"
"#,
        // Trailing blank lines and missing final newline.
        "FROM rust


",
        "FROM rust",
    ];
    for src in cases {
        assert_round_trips(src);
    }
}

#[test]
fn unknown_instruction_warns_but_recovers() {
    let src = "FOOBAR something
FROM rust
";
    let parse = parse(src);
    assert!(parse.diagnostics().iter().any(|d| d.code == Some("DF001")));
    assert_round_trips(src);
}

#[test]
fn lower_case_instructions_recognized() {
    let parse = parse(
        "from rust:1
run echo hi
",
    );
    assert!(parse.diagnostics().is_empty());
    let kinds: Vec<_> = parse.syntax().children().iter().map(|c| c.kind()).collect();
    assert!(kinds.contains(&SyntaxKind::FROM_INSTR));
    assert!(kinds.contains(&SyntaxKind::RUN_INSTR));
}

#[test]
fn from_with_as_clause_produces_stage_name() {
    let parse = parse("FROM rust:1.80 AS builder\n");
    let from = child_of_kind(parse.syntax(), SyntaxKind::FROM_INSTR).expect("FROM_INSTR present");
    let stage = child_of_kind(from, SyntaxKind::STAGE_NAME).expect("STAGE_NAME child");
    assert_eq!(stage.text(), "builder");
}

#[test]
fn from_with_platform_flag() {
    let parse = parse("FROM --platform=linux/amd64 rust:1.80\n");
    assert!(parse.diagnostics().is_empty());
    let from = child_of_kind(parse.syntax(), SyntaxKind::FROM_INSTR).unwrap();
    let flag = child_of_kind(from, SyntaxKind::FLAG).expect("FLAG child");
    assert!(flag.text().starts_with("--platform"));
}

#[test]
fn run_exec_form_wrapped_in_exec_form_node() {
    let parse = parse(
        r#"
RUN ["echo", "hello"]
"#,
    );
    let run = child_of_kind(parse.syntax(), SyntaxKind::RUN_INSTR).unwrap();
    assert!(
        run.children()
            .iter()
            .any(|c| c.kind() == SyntaxKind::EXEC_FORM)
    );
}

#[test]
fn run_shell_form_wrapped_in_shell_form_node() {
    let parse = parse("RUN echo hello && echo world\n");
    let run = child_of_kind(parse.syntax(), SyntaxKind::RUN_INSTR).unwrap();
    assert!(
        run.children()
            .iter()
            .any(|c| c.kind() == SyntaxKind::SHELL_FORM)
    );
}

#[test]
fn env_emits_key_value_node() {
    let parse = parse("ENV PATH=/usr/local/bin\n");
    let env = child_of_kind(parse.syntax(), SyntaxKind::ENV_INSTR).unwrap();
    let kv = child_of_kind(env, SyntaxKind::KEY_VALUE).expect("KEY_VALUE child");
    assert_eq!(kv.text(), "PATH=/usr/local/bin");
}

#[test]
fn parser_directive_node_emitted() {
    let parse = parse(
        "# syntax=docker/dockerfile:1
FROM rust
",
    );
    let directive =
        child_of_kind(parse.syntax(), SyntaxKind::PARSER_DIRECTIVE).expect("PARSER_DIRECTIVE child");
    assert_eq!(directive.text(), "# syntax=docker/dockerfile:1");
}

#[test]
fn escape_directive_propagates_to_lexer() {
    // With `escape=\``, the backtick before the newline is the line
    // continuation, not a literal character. The body should round-trip.
    let src = "# escape=`
RUN echo a `
  echo b
";
    assert_round_trips(src);
}

#[test]
fn label_with_quoted_value() {
    let src = r#"LABEL maintainer="ada@example.com"
"#;
    let parse = parse(src);
    assert!(parse.diagnostics().is_empty());
    assert_round_trips(src);
}

#[test]
fn copy_with_multiple_flags() {
    let src = "COPY --from=builder --chown=root:root /a /b\n";
    let parse = parse(src);
    assert!(parse.diagnostics().is_empty());
    let copy = child_of_kind(parse.syntax(), SyntaxKind::COPY_INSTR).unwrap();
    let flag_count = copy
        .children()
        .iter()
        .filter(|c| c.kind() == SyntaxKind::FLAG)
        .count();
    assert_eq!(flag_count, 2);
}

#[test]
fn line_continuations_keep_one_logical_line() {
    let src = r"RUN apt-get update \
    && apt-get install -y curl
";
    let parse = parse(src);
    assert!(parse.diagnostics().is_empty());
    let run_count = parse
        .syntax()
        .children()
        .iter()
        .filter(|c| c.kind() == SyntaxKind::RUN_INSTR)
        .count();
    assert_eq!(
        run_count, 1,
        "continuation must not start a new instruction"
    );
    assert_round_trips(src);
}

/// The tree's text, the green tree's text and the source agree.
#[test]
fn tree_and_green_text_equal_source() {
    let src = "# escape=`\nFROM --platform=x a:b AS c\nCOPY --from=c /x /y\nbogus\n\"odd\" line\nRUN\n";
    let parse = parse(src);
    assert_eq!(parse.syntax().kind(), SyntaxKind::DOCKERFILE);
    assert_eq!(parse.syntax().text(), src);
    assert_eq!(parse.green().to_string(), src);
}

#[test]
fn unknown_instruction_diagnostic_text_and_range() {
    let parse = parse("FOOBAR what\nFROM rust\n");
    let diags = parse.diagnostics();
    assert_eq!(diags.len(), 1);
    assert_eq!(diags[0].severity, Severity::Warning);
    assert_eq!(diags[0].code, Some("DF001"));
    assert_eq!(diags[0].message, "unknown Dockerfile instruction: \"FOOBAR\"");
    assert_eq!(diags[0].span(), 0..6);
    let unknown = child_of_kind(parse.syntax(), SyntaxKind::INSTRUCTION).unwrap();
    assert_eq!(unknown.text(), "FOOBAR what");
}

#[test]
fn unexpected_token_at_top_level() {
    let parse = parse("\"quoted\" x\nFROM rust\n");
    let diags = parse.diagnostics();
    assert_eq!(diags.len(), 1);
    assert_eq!(diags[0].severity, Severity::Error);
    assert_eq!(diags[0].code, Some("DF000"));
    assert_eq!(
        diags[0].message,
        "unexpected token at top level: \"\\\"quoted\\\"\""
    );
    assert_eq!(diags[0].span(), 0..8);
    assert!(child_of_kind(parse.syntax(), SyntaxKind::FROM_INSTR).is_some());
}

#[test]
fn missing_stage_name_is_an_error() {
    let parse = parse("FROM rust AS\n");
    let diags = parse.diagnostics();
    assert_eq!(diags.len(), 1);
    assert_eq!(diags[0].severity, Severity::Error);
    assert_eq!(diags[0].code, Some("DF010"));
    assert_eq!(diags[0].message, "expected stage name after `AS`");
    assert_eq!(parse.syntax().text(), "FROM rust AS\n");
}

#[test]
fn run_without_body_warns() {
    // The body is looked for on the instruction's own line only.
    let parse = parse("RUN\nCMD --x\n");
    let diags = parse.diagnostics();
    assert_eq!(diags.len(), 2);
    for d in diags {
        assert_eq!(d.severity, Severity::Warning);
        assert_eq!(d.code, Some("DF020"));
        assert_eq!(d.message, "instruction has no body");
    }
    assert_eq!(diags[0].span(), 3..4);
    assert_eq!(diags[1].span(), 11..12);
    let run = child_of_kind(parse.syntax(), SyntaxKind::RUN_INSTR).unwrap();
    assert!(child_of_kind(run, SyntaxKind::SHELL_FORM).is_none());
    assert!(child_of_kind(run, SyntaxKind::EXEC_FORM).is_none());
    assert_eq!(run.text(), "RUN");
}

#[test]
fn run_body_does_not_reach_the_next_line() {
    let run = parse("RUN\nFROM x\n");
    let diags = run.diagnostics();
    assert_eq!(diags.len(), 1);
    assert_eq!(diags[0].code, Some("DF020"));
    assert_eq!(diags[0].span(), 3..4);
    let kinds: Vec<_> = run.syntax().children().iter().map(|c| c.kind()).collect();
    assert_eq!(kinds, vec![SyntaxKind::RUN_INSTR, SyntaxKind::FROM_INSTR]);
    // COPY decides on the array form by the next significant token, even
    // on a later line; its form node then holds nothing of that line.
    let copy = parse("COPY --from=a\n[\"x\"]\n");
    let node = child_of_kind(copy.syntax(), SyntaxKind::COPY_INSTR).unwrap();
    let exec = child_of_kind(node, SyntaxKind::EXEC_FORM).expect("EXEC_FORM child");
    assert_eq!(exec.text(), "");
    assert_eq!(node.text(), "COPY --from=a");
}

#[test]
fn indented_directive_is_wrapped() {
    let src = "  # syntax=foo\nFROM x\n";
    let parse = parse(src);
    let directive =
        child_of_kind(parse.syntax(), SyntaxKind::PARSER_DIRECTIVE).expect("PARSER_DIRECTIVE child");
    assert_eq!(directive.text(), "# syntax=foo");
    assert_eq!(parse.syntax().text(), src);
}

#[test]
fn comments_and_blank_lines_between_instructions() {
    let src = "FROM a\n\n# note\n  RUN b\n";
    let parse = parse(src);
    assert!(parse.diagnostics().is_empty());
    let kinds: Vec<_> = parse.syntax().children().iter().map(|c| c.kind()).collect();
    assert_eq!(kinds, vec![SyntaxKind::FROM_INSTR, SyntaxKind::RUN_INSTR]);
    assert_round_trips(src);
}

#[test]
fn keywords_are_case_insensitive() {
    assert_eq!(recognize_instruction("FrOm"), Some(SyntaxKind::FROM_INSTR));
    assert_eq!(recognize_instruction("healthcheck"), Some(SyntaxKind::HEALTHCHECK_INSTR));
    assert_eq!(recognize_instruction("Entrypoint"), Some(SyntaxKind::ENTRYPOINT_INSTR));
    assert_eq!(recognize_instruction("fromx"), None);
    assert_eq!(recognize_instruction(""), None);
    assert_eq!(recognize_instruction("averyveryverylongword"), None);
}

#[test]
fn trivia_between_instructions_stays_at_document_level() {
    let src = "FROM a \\\n  AS b\n\n# note\n  RUN x\nbogus line\nCMD";
    let parse = parse(src);
    let root = parse.syntax();
    let n = root.children.len();
    for (i, child) in root.children.iter().enumerate() {
        match child {
            SyntaxElement::Token(t) => assert!(t.kind.is_trivia()),
            SyntaxElement::Node(node) => {
                assert!(!node.text().contains('\n') || node.text().contains("\\\n"));
                if i + 1 < n {
                    match &root.children[i + 1] {
                        SyntaxElement::Token(t) => assert_eq!(t.kind, SyntaxKind::NEWLINE),
                        SyntaxElement::Node(_) => panic!("node after node"),
                    }
                }
            }
        }
    }
    let kinds: Vec<_> = root.children().iter().map(|c| c.kind()).collect();
    assert_eq!(
        kinds,
        vec![
            SyntaxKind::FROM_INSTR,
            SyntaxKind::RUN_INSTR,
            SyntaxKind::INSTRUCTION,
            SyntaxKind::CMD_INSTR
        ]
    );
    assert_eq!(root.children()[0].text(), "FROM a \\\n  AS b");
}
