//! The [`SyntaxKind`] enum: every kind of token (leaf) and node (interior)
//! that can appear in a Dockerfile syntax tree.

use vstd::prelude::*;

verus! {

/// Every kind of token (leaf) and node (interior) that can appear in a
/// Dockerfile syntax tree.
///
/// Each kind has a raw `u16` number ([`SyntaxKind::to_u16`]): its position in
/// the declaration below, so that the value can be round-tripped through a
/// `u16` (which is how `rowan` stores kinds).
#[allow(non_camel_case_types)]
#[derive(Debug, Clone, Copy, PartialEq, Eq, Structural, PartialOrd, Ord, Hash)]
pub enum SyntaxKind {
    // ------------------------------------------------------------------
    // Trivia tokens (whitespace, comments, continuations)
    // ------------------------------------------------------------------
    /// Spaces and tabs (no newlines).
    WHITESPACE,
    /// A single `\n` or `\r\n`.
    NEWLINE,
    /// A `# ...` comment that is *not* a parser directive.
    COMMENT,
    /// A backslash (or configured escape char) immediately followed by a
    /// newline. Joins logical lines while remaining trivia in the tree.
    LINE_CONTINUATION,

    // ------------------------------------------------------------------
    // Leaf tokens
    // ------------------------------------------------------------------
    /// A bareword: instruction name, image name, flag value fragment, etc.
    /// The lexer does not distinguish instruction keywords from other words at
    /// the token level — the parser interprets the first word of each logical
    /// line as the instruction name.
    WORD,
    /// A double- or single-quoted string, including the surrounding quotes.
    STRING,
    /// An integer literal (as it appears in EXPOSE, HEALTHCHECK, etc.).
    INT,
    /// `=`
    EQUALS,
    /// `:`
    COLON,
    /// `,`
    COMMA,
    /// `[`
    L_BRACKET,
    /// `]`
    R_BRACKET,
    /// `{`
    L_BRACE,
    /// `}`
    R_BRACE,
    /// `@` (used in image digests: `image@sha256:...`).
    AT,
    /// `--` introducing a flag (e.g. `--mount`, `--from`).
    DASH_DASH,
    /// `<<` or `<<-` introducing a heredoc.
    HEREDOC_START,
    /// The body of a heredoc, up to and including the closing delimiter line.
    HEREDOC_BODY,
    /// The opaque shell-form body of a `RUN`/`CMD`/`ENTRYPOINT`. Preserved as
    /// a single token so consumers (e.g. an `shfmt` integration) can treat it
    /// as raw shell.
    SHELL_BODY,
    /// A `${...}` or `$NAME` build-arg/environment expansion. (Tracked as a
    /// single token; structural parsing of the expansion is not yet done.)
    DOLLAR_EXPANSION,
    /// Lexical error token. Always accompanied by a diagnostic.
    ERROR,

    // ------------------------------------------------------------------
    // Node kinds
    // ------------------------------------------------------------------
    /// Top-level node: the whole Dockerfile.
    DOCKERFILE,

    /// A parser directive (`# directive=value`) appearing in the leading
    /// directive block.
    PARSER_DIRECTIVE,

    /// Wrapper for any single instruction; the first child indicates which
    /// concrete instruction node follows.
    INSTRUCTION,

    // -- one node kind per Dockerfile instruction --
    FROM_INSTR,
    RUN_INSTR,
    CMD_INSTR,
    LABEL_INSTR,
    MAINTAINER_INSTR,
    EXPOSE_INSTR,
    ENV_INSTR,
    ADD_INSTR,
    COPY_INSTR,
    ENTRYPOINT_INSTR,
    VOLUME_INSTR,
    USER_INSTR,
    WORKDIR_INSTR,
    ARG_INSTR,
    ONBUILD_INSTR,
    STOPSIGNAL_INSTR,
    HEALTHCHECK_INSTR,
    SHELL_INSTR,

    // -- structural sub-nodes used by multiple instructions --
    /// `--name` or `--name=value` flag.
    FLAG,
    /// `key=value` pair (used by ENV, LABEL, ARG, and flag values).
    KEY_VALUE,
    /// JSON-array exec form: `["a", "b"]`.
    EXEC_FORM,
    /// Shell-form body: free-form text up to end-of-(logical-)line.
    SHELL_FORM,
    /// A heredoc block (`<<EOF ... EOF`).
    HEREDOC,
    /// An image reference: `[registry/]name[:tag][@digest]`.
    IMAGE_REF,
    /// `AS <name>` clause on a `FROM`.
    STAGE_NAME,

    // ------------------------------------------------------------------
    // Sentinel — keep last.
    // ------------------------------------------------------------------
    /// Sentinel that counts the variants above; never produced by the lexer or parser.
    __LAST,
}

/// Number of real kinds (everything before the `__LAST` sentinel).
pub const KIND_COUNT: u16 = 49;

/// The kind whose raw number is `raw`, for `raw < KIND_COUNT`; the sentinel otherwise.
pub open spec fn kind_at(raw: u16) -> SyntaxKind {
    if raw == 0 { SyntaxKind::WHITESPACE }
    else if raw == 1 { SyntaxKind::NEWLINE }
    else if raw == 2 { SyntaxKind::COMMENT }
    else if raw == 3 { SyntaxKind::LINE_CONTINUATION }
    else if raw == 4 { SyntaxKind::WORD }
    else if raw == 5 { SyntaxKind::STRING }
    else if raw == 6 { SyntaxKind::INT }
    else if raw == 7 { SyntaxKind::EQUALS }
    else if raw == 8 { SyntaxKind::COLON }
    else if raw == 9 { SyntaxKind::COMMA }
    else if raw == 10 { SyntaxKind::L_BRACKET }
    else if raw == 11 { SyntaxKind::R_BRACKET }
    else if raw == 12 { SyntaxKind::L_BRACE }
    else if raw == 13 { SyntaxKind::R_BRACE }
    else if raw == 14 { SyntaxKind::AT }
    else if raw == 15 { SyntaxKind::DASH_DASH }
    else if raw == 16 { SyntaxKind::HEREDOC_START }
    else if raw == 17 { SyntaxKind::HEREDOC_BODY }
    else if raw == 18 { SyntaxKind::SHELL_BODY }
    else if raw == 19 { SyntaxKind::DOLLAR_EXPANSION }
    else if raw == 20 { SyntaxKind::ERROR }
    else if raw == 21 { SyntaxKind::DOCKERFILE }
    else if raw == 22 { SyntaxKind::PARSER_DIRECTIVE }
    else if raw == 23 { SyntaxKind::INSTRUCTION }
    else if raw == 24 { SyntaxKind::FROM_INSTR }
    else if raw == 25 { SyntaxKind::RUN_INSTR }
    else if raw == 26 { SyntaxKind::CMD_INSTR }
    else if raw == 27 { SyntaxKind::LABEL_INSTR }
    else if raw == 28 { SyntaxKind::MAINTAINER_INSTR }
    else if raw == 29 { SyntaxKind::EXPOSE_INSTR }
    else if raw == 30 { SyntaxKind::ENV_INSTR }
    else if raw == 31 { SyntaxKind::ADD_INSTR }
    else if raw == 32 { SyntaxKind::COPY_INSTR }
    else if raw == 33 { SyntaxKind::ENTRYPOINT_INSTR }
    else if raw == 34 { SyntaxKind::VOLUME_INSTR }
    else if raw == 35 { SyntaxKind::USER_INSTR }
    else if raw == 36 { SyntaxKind::WORKDIR_INSTR }
    else if raw == 37 { SyntaxKind::ARG_INSTR }
    else if raw == 38 { SyntaxKind::ONBUILD_INSTR }
    else if raw == 39 { SyntaxKind::STOPSIGNAL_INSTR }
    else if raw == 40 { SyntaxKind::HEALTHCHECK_INSTR }
    else if raw == 41 { SyntaxKind::SHELL_INSTR }
    else if raw == 42 { SyntaxKind::FLAG }
    else if raw == 43 { SyntaxKind::KEY_VALUE }
    else if raw == 44 { SyntaxKind::EXEC_FORM }
    else if raw == 45 { SyntaxKind::SHELL_FORM }
    else if raw == 46 { SyntaxKind::HEREDOC }
    else if raw == 47 { SyntaxKind::IMAGE_REF }
    else if raw == 48 { SyntaxKind::STAGE_NAME }
    else { SyntaxKind::__LAST }
}

impl SyntaxKind {
    /// The raw `u16` number of this kind: its position in the declaration.
    pub open spec fn raw(self) -> u16 {
        match self {
            SyntaxKind::WHITESPACE => 0,
            SyntaxKind::NEWLINE => 1,
            SyntaxKind::COMMENT => 2,
            SyntaxKind::LINE_CONTINUATION => 3,
            SyntaxKind::WORD => 4,
            SyntaxKind::STRING => 5,
            SyntaxKind::INT => 6,
            SyntaxKind::EQUALS => 7,
            SyntaxKind::COLON => 8,
            SyntaxKind::COMMA => 9,
            SyntaxKind::L_BRACKET => 10,
            SyntaxKind::R_BRACKET => 11,
            SyntaxKind::L_BRACE => 12,
            SyntaxKind::R_BRACE => 13,
            SyntaxKind::AT => 14,
            SyntaxKind::DASH_DASH => 15,
            SyntaxKind::HEREDOC_START => 16,
            SyntaxKind::HEREDOC_BODY => 17,
            SyntaxKind::SHELL_BODY => 18,
            SyntaxKind::DOLLAR_EXPANSION => 19,
            SyntaxKind::ERROR => 20,
            SyntaxKind::DOCKERFILE => 21,
            SyntaxKind::PARSER_DIRECTIVE => 22,
            SyntaxKind::INSTRUCTION => 23,
            SyntaxKind::FROM_INSTR => 24,
            SyntaxKind::RUN_INSTR => 25,
            SyntaxKind::CMD_INSTR => 26,
            SyntaxKind::LABEL_INSTR => 27,
            SyntaxKind::MAINTAINER_INSTR => 28,
            SyntaxKind::EXPOSE_INSTR => 29,
            SyntaxKind::ENV_INSTR => 30,
            SyntaxKind::ADD_INSTR => 31,
            SyntaxKind::COPY_INSTR => 32,
            SyntaxKind::ENTRYPOINT_INSTR => 33,
            SyntaxKind::VOLUME_INSTR => 34,
            SyntaxKind::USER_INSTR => 35,
            SyntaxKind::WORKDIR_INSTR => 36,
            SyntaxKind::ARG_INSTR => 37,
            SyntaxKind::ONBUILD_INSTR => 38,
            SyntaxKind::STOPSIGNAL_INSTR => 39,
            SyntaxKind::HEALTHCHECK_INSTR => 40,
            SyntaxKind::SHELL_INSTR => 41,
            SyntaxKind::FLAG => 42,
            SyntaxKind::KEY_VALUE => 43,
            SyntaxKind::EXEC_FORM => 44,
            SyntaxKind::SHELL_FORM => 45,
            SyntaxKind::HEREDOC => 46,
            SyntaxKind::IMAGE_REF => 47,
            SyntaxKind::STAGE_NAME => 48,
            SyntaxKind::__LAST => 49,
        }
    }

    /// The raw `u16` number of this kind (what `kind as u16` gives).
    #[verifier::when_used_as_spec(raw)]
    pub fn to_u16(self) -> (r: u16)
        ensures
            r == self.raw(),
    {
        match self {
            SyntaxKind::WHITESPACE => 0,
            SyntaxKind::NEWLINE => 1,
            SyntaxKind::COMMENT => 2,
            SyntaxKind::LINE_CONTINUATION => 3,
            SyntaxKind::WORD => 4,
            SyntaxKind::STRING => 5,
            SyntaxKind::INT => 6,
            SyntaxKind::EQUALS => 7,
            SyntaxKind::COLON => 8,
            SyntaxKind::COMMA => 9,
            SyntaxKind::L_BRACKET => 10,
            SyntaxKind::R_BRACKET => 11,
            SyntaxKind::L_BRACE => 12,
            SyntaxKind::R_BRACE => 13,
            SyntaxKind::AT => 14,
            SyntaxKind::DASH_DASH => 15,
            SyntaxKind::HEREDOC_START => 16,
            SyntaxKind::HEREDOC_BODY => 17,
            SyntaxKind::SHELL_BODY => 18,
            SyntaxKind::DOLLAR_EXPANSION => 19,
            SyntaxKind::ERROR => 20,
            SyntaxKind::DOCKERFILE => 21,
            SyntaxKind::PARSER_DIRECTIVE => 22,
            SyntaxKind::INSTRUCTION => 23,
            SyntaxKind::FROM_INSTR => 24,
            SyntaxKind::RUN_INSTR => 25,
            SyntaxKind::CMD_INSTR => 26,
            SyntaxKind::LABEL_INSTR => 27,
            SyntaxKind::MAINTAINER_INSTR => 28,
            SyntaxKind::EXPOSE_INSTR => 29,
            SyntaxKind::ENV_INSTR => 30,
            SyntaxKind::ADD_INSTR => 31,
            SyntaxKind::COPY_INSTR => 32,
            SyntaxKind::ENTRYPOINT_INSTR => 33,
            SyntaxKind::VOLUME_INSTR => 34,
            SyntaxKind::USER_INSTR => 35,
            SyntaxKind::WORKDIR_INSTR => 36,
            SyntaxKind::ARG_INSTR => 37,
            SyntaxKind::ONBUILD_INSTR => 38,
            SyntaxKind::STOPSIGNAL_INSTR => 39,
            SyntaxKind::HEALTHCHECK_INSTR => 40,
            SyntaxKind::SHELL_INSTR => 41,
            SyntaxKind::FLAG => 42,
            SyntaxKind::KEY_VALUE => 43,
            SyntaxKind::EXEC_FORM => 44,
            SyntaxKind::SHELL_FORM => 45,
            SyntaxKind::HEREDOC => 46,
            SyntaxKind::IMAGE_REF => 47,
            SyntaxKind::STAGE_NAME => 48,
            SyntaxKind::__LAST => 49,
        }
    }

    /// Round-trip from a raw `u16` number. Returns `None` for out-of-range
    /// values (the sentinel's number and above).
    pub fn from_u16(raw: u16) -> (r: Option<SyntaxKind>)
        ensures
            raw < KIND_COUNT ==> r == Some(kind_at(raw)),
            raw >= KIND_COUNT ==> r.is_none(),
            r matches Some(k) ==> k.raw() == raw,
    {
        if raw >= KIND_COUNT {
            return None;
        }
        let k = match raw {
            0 => SyntaxKind::WHITESPACE,
            1 => SyntaxKind::NEWLINE,
            2 => SyntaxKind::COMMENT,
            3 => SyntaxKind::LINE_CONTINUATION,
            4 => SyntaxKind::WORD,
            5 => SyntaxKind::STRING,
            6 => SyntaxKind::INT,
            7 => SyntaxKind::EQUALS,
            8 => SyntaxKind::COLON,
            9 => SyntaxKind::COMMA,
            10 => SyntaxKind::L_BRACKET,
            11 => SyntaxKind::R_BRACKET,
            12 => SyntaxKind::L_BRACE,
            13 => SyntaxKind::R_BRACE,
            14 => SyntaxKind::AT,
            15 => SyntaxKind::DASH_DASH,
            16 => SyntaxKind::HEREDOC_START,
            17 => SyntaxKind::HEREDOC_BODY,
            18 => SyntaxKind::SHELL_BODY,
            19 => SyntaxKind::DOLLAR_EXPANSION,
            20 => SyntaxKind::ERROR,
            21 => SyntaxKind::DOCKERFILE,
            22 => SyntaxKind::PARSER_DIRECTIVE,
            23 => SyntaxKind::INSTRUCTION,
            24 => SyntaxKind::FROM_INSTR,
            25 => SyntaxKind::RUN_INSTR,
            26 => SyntaxKind::CMD_INSTR,
            27 => SyntaxKind::LABEL_INSTR,
            28 => SyntaxKind::MAINTAINER_INSTR,
            29 => SyntaxKind::EXPOSE_INSTR,
            30 => SyntaxKind::ENV_INSTR,
            31 => SyntaxKind::ADD_INSTR,
            32 => SyntaxKind::COPY_INSTR,
            33 => SyntaxKind::ENTRYPOINT_INSTR,
            34 => SyntaxKind::VOLUME_INSTR,
            35 => SyntaxKind::USER_INSTR,
            36 => SyntaxKind::WORKDIR_INSTR,
            37 => SyntaxKind::ARG_INSTR,
            38 => SyntaxKind::ONBUILD_INSTR,
            39 => SyntaxKind::STOPSIGNAL_INSTR,
            40 => SyntaxKind::HEALTHCHECK_INSTR,
            41 => SyntaxKind::SHELL_INSTR,
            42 => SyntaxKind::FLAG,
            43 => SyntaxKind::KEY_VALUE,
            44 => SyntaxKind::EXEC_FORM,
            45 => SyntaxKind::SHELL_FORM,
            46 => SyntaxKind::HEREDOC,
            47 => SyntaxKind::IMAGE_REF,
            48 => SyntaxKind::STAGE_NAME,
            _ => SyntaxKind::__LAST,
        };
        Some(k)
    }

    /// Whether this kind is a *trivia* token (whitespace, newline, comment,
    /// line continuation). Trivia tokens are skipped by the parser when
    /// looking for the "next real token", but are preserved in the tree.
    pub open spec fn trivia(self) -> bool {
        self is WHITESPACE || self is NEWLINE || self is COMMENT || self is LINE_CONTINUATION
    }

    /// Whether this kind is a trivia token.
    #[verifier::when_used_as_spec(trivia)]
    pub fn is_trivia(self) -> (r: bool)
        ensures
            r == self.trivia(),
    {
        matches!(
            self,
            SyntaxKind::WHITESPACE | SyntaxKind::NEWLINE | SyntaxKind::COMMENT
                | SyntaxKind::LINE_CONTINUATION
        )
    }

    /// Whether this kind is a token (leaf), as opposed to a node (interior):
    /// tokens are exactly the kinds declared before `DOCKERFILE`.
    pub open spec fn token_kind(self) -> bool {
        self.raw() < SyntaxKind::DOCKERFILE.raw()
    }

    /// Whether this kind is a token (leaf).
    #[verifier::when_used_as_spec(token_kind)]
    pub fn is_token(self) -> (r: bool)
        ensures
            r == self.token_kind(),
    {
        self.to_u16() < SyntaxKind::DOCKERFILE.to_u16()
    }

    /// Whether this kind is a node (interior).
    pub fn is_node(self) -> (r: bool)
        ensures
            r == !self.token_kind(),
    {
        !self.is_token()
    }
}

/// Every raw number below [`KIND_COUNT`] names a kind, whose raw number it is,
/// and every kind but the sentinel has a raw number below [`KIND_COUNT`] from
/// which it is recovered.
pub proof fn lemma_raw_round_trip(k: SyntaxKind, raw: u16)
    ensures
        raw < KIND_COUNT ==> kind_at(raw).raw() == raw,
        k != SyntaxKind::__LAST ==> k.raw() < KIND_COUNT && kind_at(k.raw()) == k,
{
}

/// Every kind in declaration order (the sentinel excluded): entry `i` is the
/// kind whose raw number is `i`.
pub fn all_kinds() -> (v: Vec<SyntaxKind>)
    ensures
        v@.len() == KIND_COUNT,
        forall|i: int| 0 <= i < KIND_COUNT ==> #[trigger] v@[i] == kind_at(i as u16),
        forall|i: int| 0 <= i < KIND_COUNT ==> (#[trigger] v@[i]).raw() == i,
{
    let mut v: Vec<SyntaxKind> = Vec::new();
    let mut i: u16 = 0;
    while i < KIND_COUNT
        invariant
            i <= KIND_COUNT,
            v@.len() == i,
            forall|j: int| 0 <= j < i ==> #[trigger] v@[j] == kind_at(j as u16),
            forall|j: int| 0 <= j < i ==> (#[trigger] v@[j]).raw() == j,
        decreases KIND_COUNT - i,
    {
        let k = SyntaxKind::from_u16(i).unwrap();
        v.push(k);
        i = i + 1;
    }
    v
}


/// Marker type tying [`SyntaxKind`] into `rowan`'s generic tree machinery,
/// which stores a kind as its raw `u16` number. It carries no data.
#[derive(Debug, Clone, Copy, PartialEq, Eq, PartialOrd, Ord, Hash)]
pub struct DockerfileLanguage;

impl DockerfileLanguage {
    /// The kind stored as `raw` in a tree; only numbers of real kinds are
    /// ever stored.
    pub fn kind_from_raw(raw: u16) -> (r: SyntaxKind)
        requires
            raw < KIND_COUNT,
        ensures
            r == kind_at(raw),
            r.raw() == raw,
    {
        SyntaxKind::from_u16(raw).unwrap()
    }

    /// The raw number under which `kind` is stored.
    pub fn kind_to_raw(kind: SyntaxKind) -> (r: u16)
        ensures
            r == kind.raw(),
    {
        kind.to_u16()
    }
}

} // verus!
