//! Parsing a whole Dockerfile.
//!
//! 1. [`scan_directives`] runs a pre-pass over the source to identify any
//!    leading `# directive=value` lines and honor a `# escape=` directive
//!    that changes the line-continuation character.
//! 2. The lexer runs with that escape character.
//! 3. The parser walks the tokens and emits the tree's events, from which the
//!    syntax tree and the `rowan` green tree are built.
//!
//! The grammar is intentionally permissive: unknown instructions are still
//! captured as `INSTRUCTION` nodes with a diagnostic, and badly formed lines
//! are recovered by skipping to the next newline. Whatever the input, the
//! text of the tree is the source, byte for byte.

use vstd::prelude::*;
use vstd::utf8::*;

use rowan::GreenNode;

use crate::diagnostics::Diagnostic;
use crate::directive::{
    directive_at, directives_fit, directives_from, escape_of, lemma_directive_at, scan_directives,
    DirectiveView, ParserDirective,
};
use crate::grammar::{file_events, DiagView, Event};
use crate::green::{build_green, green_events, green_text};
use crate::lexer::{escape_byte, lex_from};
use crate::lossless::{lemma_file_events_cover, seg, source_ok};
use crate::parser::{diag_views, source_tokens, Parser};
use crate::placement::{children_placed, lemma_tree_placement};
use crate::text_range::TextRange;
use crate::tree::{
    build_tree, leaves_text, lemma_leaves_text_concat, lemma_node_text, lemma_seg_text, node_events,
    node_text, realize_all, SyntaxNode, TreeEvent,
};
use crate::utf8_text::{bytes_of, lemma_str_bytes};

verus! {

/// Result of parsing a Dockerfile source.
#[derive(Debug)]
pub struct Parse {
    pub(crate) green: GreenNode,
    pub(crate) tree: SyntaxNode,
    pub(crate) diagnostics: Vec<Diagnostic>,
}

/// The lines of the directives of the leading block of `b`.
pub open spec fn directive_lines(b: Seq<u8>) -> Seq<TextRange> {
    directives_from(b, 0).map_values(
        |v: DirectiveView| TextRange { start: v.2 as u32, end: v.3 as u32 },
    )
}

/// The tokens of `b`, lexed with the escape character that its directives
/// set.
pub open spec fn file_tokens(b: Seq<u8>) -> Seq<crate::lexer::Token> {
    lex_from(b, 0, escape_byte(escape_of(directives_from(b, 0))), true)
}

/// The events of the tree of the source bytes `b` and the diagnostics of
/// its parse.
pub open spec fn parse_events(b: Seq<u8>) -> (Seq<Event>, Seq<DiagView>) {
    file_events(b, file_tokens(b), directive_lines(b))
}

impl Parse {
    /// The syntax tree.
    pub closed spec fn tree(&self) -> SyntaxNode {
        self.tree
    }

    /// The `rowan` green tree.
    pub closed spec fn green_node(&self) -> GreenNode {
        self.green
    }

    /// The diagnostics.
    pub closed spec fn diagnostic_list(&self) -> Seq<Diagnostic> {
        self.diagnostics@
    }

    /// The lossless syntax tree.
    pub fn syntax(&self) -> (r: &SyntaxNode)
        ensures
            *r == self.tree(),
    {
        &self.tree
    }

    /// Diagnostics produced during parsing.
    pub fn diagnostics(&self) -> (r: &[Diagnostic])
        ensures
            r@ == self.diagnostic_list(),
    {
        self.diagnostics.as_slice()
    }

    /// The `rowan` green node, useful for sharing trees cheaply across
    /// analysis passes.
    pub fn green(&self) -> (r: &GreenNode)
        ensures
            *r == self.green_node(),
    {
        &self.green
    }
}

pub proof fn lemma_directives_in_bounds(b: Seq<u8>, pos: int)
    requires
        0 <= pos <= b.len(),
    ensures
        forall|i: int| 0 <= i < directives_from(b, pos).len() ==> {
            let d = #[trigger] directives_from(b, pos)[i];
            pos <= d.2 <= d.3 <= b.len()
        },
    decreases b.len() - pos,
{
    if pos < b.len() {
        lemma_directive_at(b, pos);
        if let Some((n, v, le)) = directive_at(b, pos) {
            let next = crate::lexer::newline_end(b, le);
            lemma_directives_in_bounds(b, next);
            let ds = directives_from(b, pos);
            assert forall|i: int| 0 <= i < ds.len() implies {
                let d = #[trigger] ds[i];
                pos <= d.2 <= d.3 <= b.len()
            } by {
                if i > 0 {
                    assert(ds[i] == directives_from(b, next)[i - 1]);
                }
            }
        }
    }
}

pub proof fn lemma_escape_of(ds: Seq<DirectiveView>)
    ensures
        escape_of(ds) == '\\' || escape_of(ds) == '`',
    decreases ds.len(),
{
    if ds.len() > 0 {
        lemma_escape_of(ds.drop_last());
    }
}

/// Whatever the source, the text of its tree — the texts of the leaves of the
/// tree's events, in order — is the source itself.
#[verifier::spinoff_prover]
#[verifier::rlimit(40)]
pub proof fn lemma_lossless(src: &str)
    requires
        bytes_of(src).len() <= u32::MAX,
    ensures
        leaves_text(realize_all(bytes_of(src), parse_events(bytes_of(src)).0)) == src@,
        ({
            let es = parse_events(bytes_of(src)).0;
            &&& es.len() >= 2
            &&& es[0] == Event::Start(crate::kind::SyntaxKind::DOCKERFILE)
            &&& es.last() is Finish
            &&& seg(bytes_of(src), es.subrange(1, es.len() - 1), 1, 0) == Some((1int, bytes_of(src).len() as int))
        }),
{
    let b = bytes_of(src);
    lemma_str_bytes(src);
    let ds = directives_from(b, 0);
    lemma_escape_of(ds);
    let esc = escape_byte(escape_of(ds));
    let toks = file_tokens(b);
    crate::lexer::lemma_lex_boundaries(b, 0, esc, true);
    crate::lexer::lemma_lex_tiles(b, 0, esc, true);
    assert(source_ok(b, toks));
    lemma_file_events_cover(b, toks, directive_lines(b));
    let es = parse_events(b).0;
    let inner = es.subrange(1, es.len() - 1);
    lemma_seg_text(b, inner, 1, 0);
    assert(b.subrange(0, b.len() as int) =~= b);
    let r = realize_all(b, es);
    assert(r =~= seq![TreeEvent::Open(crate::kind::SyntaxKind::DOCKERFILE)] + realize_all(b, inner)
        + seq![TreeEvent::Close]);
    lemma_leaves_text_concat(seq![TreeEvent::Open(crate::kind::SyntaxKind::DOCKERFILE)], realize_all(b, inner));
    lemma_leaves_text_concat(seq![TreeEvent::Open(crate::kind::SyntaxKind::DOCKERFILE)] + realize_all(b, inner), seq![TreeEvent::Close]);
    reveal_with_fuel(leaves_text, 2);
    assert(leaves_text(seq![TreeEvent::Open(crate::kind::SyntaxKind::DOCKERFILE)]) =~= Seq::<char>::empty());
    assert(leaves_text(seq![TreeEvent::Close]) =~= Seq::<char>::empty());
    assert(seq![TreeEvent::Open(crate::kind::SyntaxKind::DOCKERFILE)] + realize_all(b, inner) =~= seq![TreeEvent::Open(crate::kind::SyntaxKind::DOCKERFILE)] + realize_all(b, inner));
}

/// Parse a complete Dockerfile source string. Offsets are `u32`, so the
/// source must not be longer than `u32::MAX` bytes.
pub fn parse(src: &str) -> (p: Parse)
    requires
        bytes_of(src).len() <= u32::MAX,
    ensures
        node_events(p.tree()) == realize_all(bytes_of(src), parse_events(bytes_of(src)).0),
        green_events(p.green_node()) == realize_all(bytes_of(src), parse_events(bytes_of(src)).0),
        diag_views(p.diagnostic_list()) == parse_events(bytes_of(src)).1,
        node_text(p.tree()) == src@,
        leaves_text(green_events(p.green_node())) == src@,
        p.tree().kind == crate::kind::SyntaxKind::DOCKERFILE,
        children_placed(p.tree().children@),
{
    let ghost b = bytes_of(src);
    proof {
        lemma_directives_in_bounds(b, 0);
        lemma_escape_of(directives_from(b, 0));
        lemma_str_bytes(src);
    }
    let directives = scan_directives(src);
    let escape = directives.escape_char();
    let parser = Parser::new(src, escape, directives.directives);
    proof {
        assert(parser.directive_ranges() =~= directive_lines(b));
        reveal(source_tokens);
    }
    let (events, diagnostics) = parser.parse();
    proof {
        lemma_lossless(src);
    }
    let tree = build_tree(&events, src, Ghost(0));
    let green = build_green(&events, src, Ghost(0));
    proof {
        lemma_node_text(tree);
        assert(node_events(tree)[0] == TreeEvent::Open(tree.kind));
        assert(realize_all(b, parse_events(b).0)[0] == TreeEvent::Open(crate::kind::SyntaxKind::DOCKERFILE));
        lemma_tree_placement(b, tree);
    }
    Parse { green, tree, diagnostics }
}

/// Parse `src` and check that the text of its tree — read back from the
/// `rowan` green tree — equals the source. It always does.
pub fn assert_round_trips(src: &str)
    requires
        bytes_of(src).len() <= u32::MAX,
{
    let parse = parse(src);
    let text = green_text(parse.green());
    let expected = String::from_str(src);
    let same = text == expected;
    assert(same);
}

} // verus!
