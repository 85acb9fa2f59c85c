use dockerfile_parser::ast::{AstNode, CommandForm, Dockerfile, Stmt};
use dockerfile_parser::parse;
use dockerfile_parser::words::unquote;

#[test]
fn iterates_statements_in_order() {
    let parse = parse(
        "
FROM rust
RUN cargo build
WORKDIR /app
",
    );
    let df = Dockerfile::cast(parse.syntax()).expect("DOCKERFILE root");
    let kinds: Vec<&'static str> = df
        .statements()
        .into_iter()
        .map(|s| match s {
            Stmt::From(_) => "from",
            Stmt::Run(_) => "run",
            Stmt::Workdir(_) => "workdir",
            _ => "other",
        })
        .collect();
    assert_eq!(kinds, vec!["from", "run", "workdir"]);
}

#[test]
fn from_image_ref_and_stage_name() {
    let parse = parse("FROM rust:1.80-alpine AS builder\n");
    let df = Dockerfile::cast(parse.syntax()).expect("DOCKERFILE root");
    let from = match df.statements()[0] {
        Stmt::From(f) => f,
        _ => unreachable!(),
    };
    let img = from.image_ref().unwrap();
    assert_eq!(img.full(), "rust:1.80-alpine");
    let parts = img.parts();
    assert_eq!(parts.name, "rust");
    assert_eq!(parts.tag.as_deref(), Some("1.80-alpine"));
    assert_eq!(parts.digest, None);
    assert_eq!(from.stage_name().as_deref(), Some("builder"));
}

#[test]
fn image_ref_with_digest() {
    let parse = parse("FROM rust@sha256:abc123\n");
    let df = Dockerfile::cast(parse.syntax()).expect("DOCKERFILE root");
    let from = match df.statements()[0] {
        Stmt::From(f) => f,
        _ => unreachable!(),
    };
    let parts = from.image_ref().unwrap().parts();
    assert_eq!(parts.name, "rust");
    assert_eq!(parts.tag, None);
    assert_eq!(parts.digest.as_deref(), Some("sha256:abc123"));
}

#[test]
fn image_ref_with_registry_port_does_not_confuse_tag_split() {
    let parse = parse("FROM registry.example.com:5000/myimage\n");
    let df = Dockerfile::cast(parse.syntax()).expect("DOCKERFILE root");
    let from = match df.statements()[0] {
        Stmt::From(f) => f,
        _ => unreachable!(),
    };
    let parts = from.image_ref().unwrap().parts();
    assert_eq!(parts.name, "registry.example.com:5000/myimage");
    assert_eq!(parts.tag, None);
}

#[test]
fn run_shell_form_body() {
    let parse = parse("RUN echo hello && echo world\n");
    let df = Dockerfile::cast(parse.syntax()).expect("DOCKERFILE root");
    let run = match df.statements()[0] {
        Stmt::Run(r) => r,
        _ => unreachable!(),
    };
    assert!(run.is_shell_form());
    match run.body() {
        CommandForm::Shell(s) => assert_eq!(s, "echo hello && echo world"),
        other => panic!("expected shell form, got {other:?}"),
    }
}

#[test]
fn run_exec_form_body() {
    let parse = parse(
        r#"RUN ["echo", "hello, world"]
"#,
    );
    let df = Dockerfile::cast(parse.syntax()).expect("DOCKERFILE root");
    let run = match df.statements()[0] {
        Stmt::Run(r) => r,
        _ => unreachable!(),
    };
    assert!(run.is_exec_form());
    match run.body() {
        CommandForm::Exec(args) => assert_eq!(args, vec!["echo", "hello, world"]),
        other => panic!("expected exec form, got {other:?}"),
    }
}

#[test]
fn env_pairs_split_by_kv() {
    let parse = parse(
        r#"ENV A=1 B="two" C=three
"#,
    );
    let df = Dockerfile::cast(parse.syntax()).expect("DOCKERFILE root");
    let env = match df.statements()[0] {
        Stmt::Env(e) => e,
        _ => unreachable!(),
    };
    let pairs: Vec<(String, Option<String>)> = env
        .pairs()
        .into_iter()
        .map(|p| (p.key().unwrap(), p.value()))
        .collect();
    assert_eq!(
        pairs,
        vec![
            ("A".to_string(), Some("1".to_string())),
            ("B".to_string(), Some("two".to_string())),
            ("C".to_string(), Some("three".to_string())),
        ]
    );
}

#[test]
fn label_pairs_with_quoted_values() {
    let parse = parse(
        r#"LABEL maintainer="ada@example.com" version="1.0"
"#,
    );
    let df = Dockerfile::cast(parse.syntax()).expect("DOCKERFILE root");
    let label = match df.statements()[0] {
        Stmt::Label(l) => l,
        _ => unreachable!(),
    };
    let pairs: Vec<_> = label
        .pairs()
        .into_iter()
        .map(|p| (p.key().unwrap(), p.value().unwrap()))
        .collect();
    assert_eq!(
        pairs,
        vec![
            ("maintainer".to_string(), "ada@example.com".to_string()),
            ("version".to_string(), "1.0".to_string()),
        ]
    );
}

#[test]
fn arg_with_default() {
    let parse = parse("ARG VERSION=1.0\n");
    let df = Dockerfile::cast(parse.syntax()).expect("DOCKERFILE root");
    let arg = match df.statements()[0] {
        Stmt::Arg(a) => a,
        _ => unreachable!(),
    };
    assert_eq!(arg.name().as_deref(), Some("VERSION"));
    assert_eq!(arg.default_value().as_deref(), Some("1.0"));
}

#[test]
fn arg_without_default() {
    let parse = parse("ARG VERSION\n");
    let df = Dockerfile::cast(parse.syntax()).expect("DOCKERFILE root");
    let arg = match df.statements()[0] {
        Stmt::Arg(a) => a,
        _ => unreachable!(),
    };
    assert_eq!(arg.name().as_deref(), Some("VERSION"));
    assert_eq!(arg.default_value(), None);
}

#[test]
fn copy_sources_and_dest() {
    let parse = parse("COPY --from=builder src1 src2 /dest\n");
    let df = Dockerfile::cast(parse.syntax()).expect("DOCKERFILE root");
    let copy = match df.statements()[0] {
        Stmt::Copy(c) => c,
        _ => unreachable!(),
    };
    assert_eq!(copy.from().as_deref(), Some("builder"));
    assert_eq!(copy.sources(), vec!["src1".to_string(), "src2".to_string()]);
    assert_eq!(copy.dest().as_deref(), Some("/dest"));
}

#[test]
fn workdir_path() {
    let parse = parse("WORKDIR /app\n");
    let df = Dockerfile::cast(parse.syntax()).expect("DOCKERFILE root");
    let wd = match df.statements()[0] {
        Stmt::Workdir(w) => w,
        _ => unreachable!(),
    };
    assert_eq!(wd.path().as_deref(), Some("/app"));
}

#[test]
fn expose_ports() {
    let parse = parse("EXPOSE 80 443/tcp 53/udp\n");
    let df = Dockerfile::cast(parse.syntax()).expect("DOCKERFILE root");
    let exp = match df.statements()[0] {
        Stmt::Expose(e) => e,
        _ => unreachable!(),
    };
    assert_eq!(
        exp.ports(),
        vec![
            "80".to_string(),
            "443/tcp".to_string(),
            "53/udp".to_string()
        ]
    );
}

#[test]
fn parser_directive_extraction() {
    let parse = parse(
        "# syntax=docker/dockerfile:1
# escape=`
FROM rust
",
    );
    let df = Dockerfile::cast(parse.syntax()).expect("DOCKERFILE root");
    let directives: Vec<_> = df
        .parser_directives()
        .into_iter()
        .map(|d| d.name_and_value().unwrap())
        .collect();
    assert_eq!(
        directives,
        vec![
            ("syntax".to_string(), "docker/dockerfile:1".to_string()),
            ("escape".to_string(), "`".to_string()),
        ]
    );
}

#[test]
fn flag_value_extraction() {
    let parse = parse("RUN --mount=type=cache,target=/root/.cargo cargo build\n");
    let df = Dockerfile::cast(parse.syntax()).expect("DOCKERFILE root");
    let run = match df.statements()[0] {
        Stmt::Run(r) => r,
        _ => unreachable!(),
    };
    let flag = run.flags().into_iter().next().expect("RUN has a flag");
    assert_eq!(flag.name().as_deref(), Some("mount"));
    assert_eq!(
        flag.value().as_deref(),
        Some("type=cache,target=/root/.cargo")
    );
}

#[test]
fn image_ref_with_tag_and_digest() {
    let parse = parse("FROM --platform=linux/amd64 localhost:5000/a/b:1.2@sha256:ff\n");
    let df = Dockerfile::cast(parse.syntax()).unwrap();
    let from = match df.statements()[0] {
        Stmt::From(f) => f,
        _ => unreachable!(),
    };
    let flags = from.flags();
    assert_eq!(flags.len(), 1);
    assert_eq!(flags[0].name().as_deref(), Some("platform"));
    assert_eq!(flags[0].value().as_deref(), Some("linux/amd64"));
    let parts = from.image_ref().unwrap().parts();
    assert_eq!(parts.name, "localhost:5000/a/b");
    assert_eq!(parts.tag.as_deref(), Some("1.2"));
    assert_eq!(parts.digest.as_deref(), Some("sha256:ff"));
    assert_eq!(from.stage_name(), None);
}

#[test]
fn cmd_and_entrypoint_forms() {
    let parse = parse("CMD [\"a\",\"b\\\"c\"]\nENTRYPOINT run it\nCMD\n");
    let df = Dockerfile::cast(parse.syntax()).unwrap();
    let stmts = df.statements();
    assert_eq!(stmts.len(), 3);
    match stmts[0] {
        Stmt::Cmd(c) => {
            assert!(c.is_exec_form());
            assert!(!c.is_shell_form());
            assert_eq!(c.body(), CommandForm::Exec(vec!["a".to_string(), "b\"c".to_string()]));
        }
        _ => unreachable!(),
    }
    match stmts[1] {
        Stmt::Entrypoint(e) => {
            assert_eq!(e.body(), CommandForm::Shell("run it".to_string()));
            assert!(e.flags().is_empty());
        }
        _ => unreachable!(),
    }
    match stmts[2] {
        Stmt::Cmd(c) => assert_eq!(c.body(), CommandForm::Empty),
        _ => unreachable!(),
    }
}

#[test]
fn add_without_destination_and_from_flag_rules() {
    let parse = parse("ADD only\nADD --from --from=x a b\nCOPY --chown=a:b x y\n");
    let df = Dockerfile::cast(parse.syntax()).unwrap();
    let stmts = df.statements();
    match stmts[0] {
        Stmt::Add(a) => {
            assert_eq!(a.sources(), Vec::<String>::new());
            assert_eq!(a.dest().as_deref(), Some("only"));
            assert_eq!(a.from(), None);
        }
        _ => unreachable!(),
    }
    match stmts[1] {
        Stmt::Add(a) => {
            // A `--from` without a value is passed over.
            assert_eq!(a.from().as_deref(), Some("x"));
            assert_eq!(a.flags().len(), 2);
            assert_eq!(a.sources(), vec!["a".to_string()]);
            assert_eq!(a.dest().as_deref(), Some("b"));
        }
        _ => unreachable!(),
    }
    match stmts[2] {
        Stmt::Copy(c) => assert_eq!(c.from(), None),
        _ => unreachable!(),
    }
}

#[test]
fn single_argument_instructions() {
    let parse = parse("USER app:app\nSTOPSIGNAL SIGTERM\nVOLUME /a /b\nWORKDIR\nMAINTAINER   Ada  Lovelace  \n");
    let df = Dockerfile::cast(parse.syntax()).unwrap();
    let stmts = df.statements();
    match stmts[0] {
        Stmt::User(u) => assert_eq!(u.user().as_deref(), Some("app:app")),
        _ => unreachable!(),
    }
    match stmts[1] {
        Stmt::Stopsignal(s) => assert_eq!(s.signal().as_deref(), Some("SIGTERM")),
        _ => unreachable!(),
    }
    match stmts[2] {
        Stmt::Volume(v) => assert_eq!(v.volumes(), vec!["/a".to_string(), "/b".to_string()]),
        _ => unreachable!(),
    }
    match stmts[3] {
        Stmt::Workdir(w) => assert_eq!(w.path(), None),
        _ => unreachable!(),
    }
    match stmts[4] {
        Stmt::Maintainer(m) => assert_eq!(m.name().as_deref(), Some("Ada  Lovelace")),
        _ => unreachable!(),
    }
}

#[test]
fn unknown_and_other_statements() {
    let parse = parse("FOO bar\nONBUILD RUN x\nHEALTHCHECK NONE\nSHELL [\"sh\"]\n");
    let df = Dockerfile::cast(parse.syntax()).unwrap();
    let stmts = df.statements();
    assert_eq!(stmts.len(), 4);
    assert!(matches!(stmts[0], Stmt::Unknown(_)));
    assert!(matches!(stmts[1], Stmt::Onbuild(_)));
    assert!(matches!(stmts[2], Stmt::Healthcheck(_)));
    assert!(matches!(stmts[3], Stmt::Shell(_)));
    assert_eq!(stmts[0].syntax().text(), "FOO bar");
    assert_eq!(stmts[1].syntax().text(), "ONBUILD RUN x");
}

#[test]
fn casting_checks_the_kind() {
    let parse = parse("FROM a\n");
    let root = parse.syntax();
    assert!(Dockerfile::can_cast(root.kind()));
    let df = Dockerfile::cast(root).unwrap();
    assert_eq!(df.text(), "FROM a\n");
    let from_node = root.children()[0];
    assert!(Dockerfile::cast(from_node).is_none());
    assert!(dockerfile_parser::ast::FromStmt::cast(from_node).is_some());
    assert!(df.parser_directives().is_empty());
}

#[test]
fn directive_name_and_value_parts() {
    let parse = parse("#  Check = skip=all \nFROM a\n");
    let df = Dockerfile::cast(parse.syntax()).unwrap();
    let d = df.parser_directives()[0];
    assert_eq!(d.name().as_deref(), Some("check"));
    assert_eq!(d.value().as_deref(), Some("skip=all"));
}

#[test]
fn unquote_rules() {
    assert_eq!(unquote("\"a\\\"b\\\\c\""), "a\"b\\c");
    assert_eq!(unquote("'a\\b'"), "a\\b");
    assert_eq!(unquote("\"abc"), "\"abc");
    assert_eq!(unquote("\""), "\"");
    assert_eq!(unquote("\"\""), "");
    assert_eq!(unquote("\"a\\\""), "a\\");
    assert_eq!(unquote("'x\""), "'x\"");
    assert_eq!(unquote("plain"), "plain");
}

#[test]
fn image_parts_rejoin_to_full_text() {
    for src in [
        "FROM a\n",
        "FROM a:b\n",
        "FROM a@d:e\n",
        "FROM h:5000/a:b@d\n",
        "FROM :x\n",
        "FROM a:b/c\n",
    ] {
        let parse = parse(src);
        let df = Dockerfile::cast(parse.syntax()).unwrap();
        let from = match df.statements()[0] {
            Stmt::From(f) => f,
            _ => unreachable!(),
        };
        let img = from.image_ref().unwrap();
        let parts = img.parts();
        let mut joined = parts.name.clone();
        if let Some(t) = &parts.tag {
            joined.push(':');
            joined.push_str(t);
        }
        if let Some(d) = &parts.digest {
            joined.push('@');
            joined.push_str(d);
        }
        assert_eq!(joined, img.full());
    }
    let parse = parse("FROM :x\n");
    let df = Dockerfile::cast(parse.syntax()).unwrap();
    match df.statements()[0] {
        Stmt::From(f) => {
            let parts = f.image_ref().unwrap().parts();
            assert_eq!(parts.name, ":x");
            assert_eq!(parts.tag, None);
        }
        _ => unreachable!(),
    }
}

#[test]
fn exec_form_parsed_args_skip_separators() {
    let parse = parse("ENTRYPOINT [\"a\", 'b c' , [x], \"\"]\n");
    let df = Dockerfile::cast(parse.syntax()).unwrap();
    let node = match df.statements()[0] {
        Stmt::Entrypoint(e) => e.syntax(),
        _ => unreachable!(),
    };
    let exec = node
        .children()
        .into_iter()
        .find_map(|c| dockerfile_parser::ast::ExecForm::cast(c))
        .expect("exec form");
    assert_eq!(exec.parsed_args(), vec!["a", "b c", "x", ""]);
}

#[test]
fn legacy_pairs_take_the_rest_of_the_line() {
    let parse = parse("ENV KEY hello\nENV K2 \"a b\" c  \nARG name\nLABEL x=1\n");
    let df = Dockerfile::cast(parse.syntax()).unwrap();
    let stmts = df.statements();
    match stmts[0] {
        Stmt::Env(e) => {
            let pairs = e.pairs();
            assert_eq!(pairs.len(), 1);
            assert_eq!(pairs[0].key().as_deref(), Some("KEY"));
            assert_eq!(pairs[0].value().as_deref(), Some("hello"));
        }
        _ => unreachable!(),
    }
    match stmts[1] {
        Stmt::Env(e) => assert_eq!(e.pairs()[0].value().as_deref(), Some("a b c")),
        _ => unreachable!(),
    }
    match stmts[2] {
        Stmt::Arg(a) => {
            assert_eq!(a.name().as_deref(), Some("name"));
            assert_eq!(a.default_value(), None);
        }
        _ => unreachable!(),
    }
    match stmts[3] {
        Stmt::Label(l) => assert_eq!(l.pairs()[0].value().as_deref(), Some("1")),
        _ => unreachable!(),
    }
}
