use dockerfile_parser::{scan_directives, DirectiveScan};

#[test]
fn no_directives() {
    let scan = scan_directives("FROM rust\n");
    assert!(scan.directives.is_empty());
    assert_eq!(scan.escape, '\\');
}

#[test]
fn single_syntax_directive() {
    let scan = scan_directives("# syntax=docker/dockerfile:1\nFROM rust\n");
    assert_eq!(scan.directives.len(), 1);
    assert_eq!(scan.directives[0].name, "syntax");
    assert_eq!(scan.directives[0].value, "docker/dockerfile:1");
}

#[test]
fn escape_directive_changes_escape_char() {
    let scan = scan_directives("# escape=`\nFROM rust\n");
    assert_eq!(scan.escape, '`');
}

#[test]
fn invalid_escape_value_is_ignored() {
    let scan = scan_directives("# escape=xyz\nFROM rust\n");
    assert_eq!(scan.escape, '\\');
}

#[test]
fn directive_block_ends_at_first_non_directive() {
    let scan = scan_directives(
        "# syntax=docker/dockerfile:1\n# regular comment\n# escape=`\nFROM rust\n",
    );
    // The "regular comment" lacks `=`, so the block ends there.
    assert_eq!(scan.directives.len(), 1);
    assert_eq!(scan.escape, '\\');
}

#[test]
fn directive_names_lowercased() {
    let scan = scan_directives("# Syntax=docker/dockerfile:1\n");
    assert_eq!(scan.directives[0].name, "syntax");
}

#[test]
fn whitespace_around_equals_tolerated() {
    let scan = scan_directives("#   syntax  =  foo \n");
    assert_eq!(scan.directives.len(), 1);
    assert_eq!(scan.directives[0].name, "syntax");
    assert_eq!(scan.directives[0].value, "foo");
}

#[test]
fn ranges_cover_directive_line() {
    let src = "# syntax=docker/dockerfile:1\nFROM rust\n";
    let scan = scan_directives(src);
    let r = scan.directives[0].range;
    assert_eq!(
        &src[r.start() as usize..r.end() as usize],
        "# syntax=docker/dockerfile:1"
    );
}

#[test]
fn escape_directive_with_backslash_and_crlf_lines() {
    let src = "  # escape=\\\r\n# check=skip=all\r\nFROM x\r\n";
    let scan = scan_directives(src);
    assert_eq!(scan.escape, '\\');
    assert_eq!(scan.escape_char(), '\\');
    assert_eq!(scan.directives.len(), 2);
    assert_eq!(scan.directives[0].name, "escape");
    assert_eq!(scan.directives[0].range.start(), 2);
    assert_eq!(scan.directives[1].name, "check");
    assert_eq!(scan.directives[1].value, "skip=all");
}

#[test]
fn invalid_names_and_empty_parts_end_the_block() {
    assert!(scan_directives("# 1abc=x\n").directives.is_empty());
    assert!(scan_directives("# a b=x\n").directives.is_empty());
    assert!(scan_directives("# =x\n").directives.is_empty());
    assert!(scan_directives("# name=\n").directives.is_empty());
    assert!(scan_directives("\n# syntax=x\n").directives.is_empty());
    let scan = scan_directives("# my_dir-1=v\n");
    assert_eq!(scan.directives[0].name, "my_dir-1");
}

#[test]
fn default_scan_is_empty() {
    let scan = DirectiveScan::default();
    assert!(scan.directives.is_empty());
    assert_eq!(scan.escape, '\0');
}

#[test]
fn indented_directive_range_starts_at_hash() {
    let src = "  # syntax=foo\nFROM x\n";
    let scan = scan_directives(src);
    assert_eq!(scan.directives.len(), 1);
    assert_eq!(scan.directives[0].name, "syntax");
    assert_eq!(scan.directives[0].value, "foo");
    let r = scan.directives[0].range;
    assert_eq!((r.start(), r.end()), (2, 14));
    assert_eq!(&src[r.start() as usize..r.end() as usize], "# syntax=foo");
}
