use dockerfile_parser::kind::all_kinds;
use dockerfile_parser::{DockerfileLanguage, SyntaxKind};

/// The lookup table must mirror the enum exactly, including order.
#[test]
fn all_kinds_table_matches_enum_layout() {
    let all = all_kinds();
    assert_eq!(all.len(), SyntaxKind::__LAST as usize);
    for (i, kind) in all.iter().enumerate() {
        assert_eq!(*kind as usize, i, "ALL_KINDS[{i}] is misordered");
    }
}

#[test]
fn round_trip_u16() {
    for kind in all_kinds() {
        assert_eq!(SyntaxKind::from_u16(kind as u16), Some(kind));
    }
    assert_eq!(SyntaxKind::from_u16(SyntaxKind::__LAST as u16), None);
}

#[test]
fn trivia_classification() {
    assert!(SyntaxKind::WHITESPACE.is_trivia());
    assert!(SyntaxKind::NEWLINE.is_trivia());
    assert!(SyntaxKind::COMMENT.is_trivia());
    assert!(SyntaxKind::LINE_CONTINUATION.is_trivia());
    assert!(!SyntaxKind::WORD.is_trivia());
    assert!(!SyntaxKind::FROM_INSTR.is_trivia());
}

#[test]
fn token_vs_node_classification() {
    assert!(SyntaxKind::WORD.is_token());
    assert!(!SyntaxKind::WORD.is_node());
    assert!(SyntaxKind::FROM_INSTR.is_node());
    assert!(!SyntaxKind::FROM_INSTR.is_token());
}

#[test]
fn raw_numbers_follow_declaration_order() {
    assert_eq!(SyntaxKind::WHITESPACE.to_u16(), 0);
    assert_eq!(SyntaxKind::ERROR.to_u16(), 20);
    assert_eq!(SyntaxKind::DOCKERFILE.to_u16(), 21);
    assert_eq!(SyntaxKind::STAGE_NAME.to_u16(), 48);
    assert_eq!(SyntaxKind::from_u16(4), Some(SyntaxKind::WORD));
    assert_eq!(SyntaxKind::from_u16(49), None);
    assert_eq!(SyntaxKind::from_u16(u16::MAX), None);
}

#[test]
fn last_token_and_first_node_kinds() {
    assert!(SyntaxKind::ERROR.is_token());
    assert!(!SyntaxKind::ERROR.is_node());
    assert!(SyntaxKind::DOCKERFILE.is_node());
    assert!(!SyntaxKind::ERROR.is_trivia());
}

#[test]
fn language_raw_round_trip() {
    for kind in all_kinds() {
        let raw = DockerfileLanguage::kind_to_raw(kind);
        assert_eq!(raw, kind as u16);
        assert_eq!(DockerfileLanguage::kind_from_raw(raw), kind);
    }
}
