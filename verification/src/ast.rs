//! Typed AST wrappers around the syntax tree.
//!
//! Each Dockerfile instruction has a corresponding `*Stmt` type whose methods
//! extract semantic information (image references, key-value pairs, flags,
//! exec/shell form, etc.) from the underlying syntax tree, which they borrow.
//!
//! Every method's result is stated by a spec function over the node it
//! wraps.

use vstd::prelude::*;

use crate::kind::SyntaxKind;
use crate::chars::{chars_of, find_char, lemma_find_from, string_of_range};
use crate::node_values::{
    exec_args, exec_form_args, first_of, first_positional, first_token, first_token_text,
    opt_view, pair_value, pair_value_of, positional, positional_args, value_after_eq,
    value_after_equals, word_texts, words,
};
use crate::tree::{derefs, kind_nodes, node_text, string_views, SyntaxElement, SyntaxNode};
use crate::words::{
    after_first_word, directive_name_value, lemma_index_of_first, lemma_index_of_none, lemma_rfind_before,
    last_index_of, rest_after_first_word, rfind_char, split_digest, split_directive, split_tag, trim_dashes,
    trim_leading_dashes,
};

verus! {

/// Implemented by every typed AST node: a node of one [`SyntaxKind`].
pub trait AstNode<'a>: Sized {
    /// The kind of the nodes this type wraps.
    spec fn kind_spec() -> SyntaxKind;

    /// The wrapped node.
    spec fn node(&self) -> SyntaxNode;

    /// Whether nodes of `kind` can be cast to this type.
    fn can_cast(kind: SyntaxKind) -> (r: bool)
        ensures
            r == (kind == Self::kind_spec()),
    ;

    /// The node as this type, when its kind matches.
    fn cast(node: &'a SyntaxNode) -> (r: Option<Self>)
        ensures
            (r is Some) == (node.kind == Self::kind_spec()),
            r matches Some(x) ==> x.node() == *node,
    ;

    /// The wrapped node.
    fn syntax(&self) -> (r: &'a SyntaxNode)
        ensures
            *r == self.node(),
    ;

    /// Source text covered by this node (round-trips exactly).
    fn text(&self) -> (r: String)
        ensures
            r@ == node_text(self.node()),
    {
        self.syntax().text()
    }
}

/// The nodes of some AST values.
pub open spec fn nodes_of<'a, T: AstNode<'a>>(s: Seq<T>) -> Seq<SyntaxNode> {
    s.map_values(|x: T| x.node())
}

/// Instruction node kinds: the known instructions and `INSTRUCTION`.
pub open spec fn is_stmt_kind(k: SyntaxKind) -> bool {
    SyntaxKind::INSTRUCTION.raw() <= k.raw() <= SyntaxKind::SHELL_INSTR.raw()
}

/// The instruction nodes among `s`, in order.
pub open spec fn stmt_nodes(s: Seq<SyntaxElement>) -> Seq<SyntaxNode>
    decreases s.len(),
{
    if s.len() == 0 {
        Seq::empty()
    } else {
        let rest = stmt_nodes(s.drop_first());
        match s[0] {
            SyntaxElement::Node(n) => if is_stmt_kind(n.kind) {
                seq![n] + rest
            } else {
                rest
            },
            SyntaxElement::Token(_) => rest,
        }
    }
}

pub proof fn lemma_stmt_nodes_push(s: Seq<SyntaxElement>, e: SyntaxElement)
    ensures
        stmt_nodes(s.push(e)) == stmt_nodes(s) + match e {
            SyntaxElement::Node(n) => if is_stmt_kind(n.kind) {
                seq![n]
            } else {
                Seq::<SyntaxNode>::empty()
            },
            SyntaxElement::Token(_) => Seq::<SyntaxNode>::empty(),
        },
    decreases s.len(),
{
    reveal_with_fuel(stmt_nodes, 2);
    if s.len() == 0 {
        assert(s.push(e).drop_first() =~= Seq::<SyntaxElement>::empty());
    } else {
        assert(s.push(e).drop_first() =~= s.drop_first().push(e));
        lemma_stmt_nodes_push(s.drop_first(), e);
    }
    assert(stmt_nodes(s.push(e)) =~= stmt_nodes(s) + match e {
        SyntaxElement::Node(n) => if is_stmt_kind(n.kind) {
            seq![n]
        } else {
            Seq::<SyntaxNode>::empty()
        },
        SyntaxElement::Token(_) => Seq::<SyntaxNode>::empty(),
    });
}

/// The whole Dockerfile.
#[derive(Debug, Clone, Copy, PartialEq, Eq, Hash)]
pub struct Dockerfile<'a>(&'a SyntaxNode);

impl<'a> AstNode<'a> for Dockerfile<'a> {
    open spec fn kind_spec() -> SyntaxKind {
        SyntaxKind::DOCKERFILE
    }

    closed spec fn node(&self) -> SyntaxNode {
        *self.0
    }

    fn can_cast(kind: SyntaxKind) -> (r: bool) {
        kind == SyntaxKind::DOCKERFILE
    }

    fn cast(node: &'a SyntaxNode) -> (r: Option<Self>) {
        if node.kind == SyntaxKind::DOCKERFILE {
            Some(Dockerfile(node))
        } else {
            None
        }
    }

    fn syntax(&self) -> (r: &'a SyntaxNode) {
        self.0
    }
}

/// A parser directive of the leading block.
#[derive(Debug, Clone, Copy, PartialEq, Eq, Hash)]
pub struct ParserDirective<'a>(&'a SyntaxNode);

impl<'a> AstNode<'a> for ParserDirective<'a> {
    open spec fn kind_spec() -> SyntaxKind {
        SyntaxKind::PARSER_DIRECTIVE
    }

    closed spec fn node(&self) -> SyntaxNode {
        *self.0
    }

    fn can_cast(kind: SyntaxKind) -> (r: bool) {
        kind == SyntaxKind::PARSER_DIRECTIVE
    }

    fn cast(node: &'a SyntaxNode) -> (r: Option<Self>) {
        if node.kind == SyntaxKind::PARSER_DIRECTIVE {
            Some(ParserDirective(node))
        } else {
            None
        }
    }

    fn syntax(&self) -> (r: &'a SyntaxNode) {
        self.0
    }
}

/// A `FROM` instruction.
#[derive(Debug, Clone, Copy, PartialEq, Eq, Hash)]
pub struct FromStmt<'a>(&'a SyntaxNode);

impl<'a> AstNode<'a> for FromStmt<'a> {
    open spec fn kind_spec() -> SyntaxKind {
        SyntaxKind::FROM_INSTR
    }

    closed spec fn node(&self) -> SyntaxNode {
        *self.0
    }

    fn can_cast(kind: SyntaxKind) -> (r: bool) {
        kind == SyntaxKind::FROM_INSTR
    }

    fn cast(node: &'a SyntaxNode) -> (r: Option<Self>) {
        if node.kind == SyntaxKind::FROM_INSTR {
            Some(FromStmt(node))
        } else {
            None
        }
    }

    fn syntax(&self) -> (r: &'a SyntaxNode) {
        self.0
    }
}

/// A `RUN` instruction.
#[derive(Debug, Clone, Copy, PartialEq, Eq, Hash)]
pub struct RunStmt<'a>(&'a SyntaxNode);

impl<'a> AstNode<'a> for RunStmt<'a> {
    open spec fn kind_spec() -> SyntaxKind {
        SyntaxKind::RUN_INSTR
    }

    closed spec fn node(&self) -> SyntaxNode {
        *self.0
    }

    fn can_cast(kind: SyntaxKind) -> (r: bool) {
        kind == SyntaxKind::RUN_INSTR
    }

    fn cast(node: &'a SyntaxNode) -> (r: Option<Self>) {
        if node.kind == SyntaxKind::RUN_INSTR {
            Some(RunStmt(node))
        } else {
            None
        }
    }

    fn syntax(&self) -> (r: &'a SyntaxNode) {
        self.0
    }
}

/// A `CMD` instruction.
#[derive(Debug, Clone, Copy, PartialEq, Eq, Hash)]
pub struct CmdStmt<'a>(&'a SyntaxNode);

impl<'a> AstNode<'a> for CmdStmt<'a> {
    open spec fn kind_spec() -> SyntaxKind {
        SyntaxKind::CMD_INSTR
    }

    closed spec fn node(&self) -> SyntaxNode {
        *self.0
    }

    fn can_cast(kind: SyntaxKind) -> (r: bool) {
        kind == SyntaxKind::CMD_INSTR
    }

    fn cast(node: &'a SyntaxNode) -> (r: Option<Self>) {
        if node.kind == SyntaxKind::CMD_INSTR {
            Some(CmdStmt(node))
        } else {
            None
        }
    }

    fn syntax(&self) -> (r: &'a SyntaxNode) {
        self.0
    }
}

/// A `LABEL` instruction.
#[derive(Debug, Clone, Copy, PartialEq, Eq, Hash)]
pub struct LabelStmt<'a>(&'a SyntaxNode);

impl<'a> AstNode<'a> for LabelStmt<'a> {
    open spec fn kind_spec() -> SyntaxKind {
        SyntaxKind::LABEL_INSTR
    }

    closed spec fn node(&self) -> SyntaxNode {
        *self.0
    }

    fn can_cast(kind: SyntaxKind) -> (r: bool) {
        kind == SyntaxKind::LABEL_INSTR
    }

    fn cast(node: &'a SyntaxNode) -> (r: Option<Self>) {
        if node.kind == SyntaxKind::LABEL_INSTR {
            Some(LabelStmt(node))
        } else {
            None
        }
    }

    fn syntax(&self) -> (r: &'a SyntaxNode) {
        self.0
    }
}

/// A `MAINTAINER` instruction.
#[derive(Debug, Clone, Copy, PartialEq, Eq, Hash)]
pub struct MaintainerStmt<'a>(&'a SyntaxNode);

impl<'a> AstNode<'a> for MaintainerStmt<'a> {
    open spec fn kind_spec() -> SyntaxKind {
        SyntaxKind::MAINTAINER_INSTR
    }

    closed spec fn node(&self) -> SyntaxNode {
        *self.0
    }

    fn can_cast(kind: SyntaxKind) -> (r: bool) {
        kind == SyntaxKind::MAINTAINER_INSTR
    }

    fn cast(node: &'a SyntaxNode) -> (r: Option<Self>) {
        if node.kind == SyntaxKind::MAINTAINER_INSTR {
            Some(MaintainerStmt(node))
        } else {
            None
        }
    }

    fn syntax(&self) -> (r: &'a SyntaxNode) {
        self.0
    }
}

/// A `EXPOSE` instruction.
#[derive(Debug, Clone, Copy, PartialEq, Eq, Hash)]
pub struct ExposeStmt<'a>(&'a SyntaxNode);

impl<'a> AstNode<'a> for ExposeStmt<'a> {
    open spec fn kind_spec() -> SyntaxKind {
        SyntaxKind::EXPOSE_INSTR
    }

    closed spec fn node(&self) -> SyntaxNode {
        *self.0
    }

    fn can_cast(kind: SyntaxKind) -> (r: bool) {
        kind == SyntaxKind::EXPOSE_INSTR
    }

    fn cast(node: &'a SyntaxNode) -> (r: Option<Self>) {
        if node.kind == SyntaxKind::EXPOSE_INSTR {
            Some(ExposeStmt(node))
        } else {
            None
        }
    }

    fn syntax(&self) -> (r: &'a SyntaxNode) {
        self.0
    }
}

/// A `ENV` instruction.
#[derive(Debug, Clone, Copy, PartialEq, Eq, Hash)]
pub struct EnvStmt<'a>(&'a SyntaxNode);

impl<'a> AstNode<'a> for EnvStmt<'a> {
    open spec fn kind_spec() -> SyntaxKind {
        SyntaxKind::ENV_INSTR
    }

    closed spec fn node(&self) -> SyntaxNode {
        *self.0
    }

    fn can_cast(kind: SyntaxKind) -> (r: bool) {
        kind == SyntaxKind::ENV_INSTR
    }

    fn cast(node: &'a SyntaxNode) -> (r: Option<Self>) {
        if node.kind == SyntaxKind::ENV_INSTR {
            Some(EnvStmt(node))
        } else {
            None
        }
    }

    fn syntax(&self) -> (r: &'a SyntaxNode) {
        self.0
    }
}

/// A `ADD` instruction.
#[derive(Debug, Clone, Copy, PartialEq, Eq, Hash)]
pub struct AddStmt<'a>(&'a SyntaxNode);

impl<'a> AstNode<'a> for AddStmt<'a> {
    open spec fn kind_spec() -> SyntaxKind {
        SyntaxKind::ADD_INSTR
    }

    closed spec fn node(&self) -> SyntaxNode {
        *self.0
    }

    fn can_cast(kind: SyntaxKind) -> (r: bool) {
        kind == SyntaxKind::ADD_INSTR
    }

    fn cast(node: &'a SyntaxNode) -> (r: Option<Self>) {
        if node.kind == SyntaxKind::ADD_INSTR {
            Some(AddStmt(node))
        } else {
            None
        }
    }

    fn syntax(&self) -> (r: &'a SyntaxNode) {
        self.0
    }
}

/// A `COPY` instruction.
#[derive(Debug, Clone, Copy, PartialEq, Eq, Hash)]
pub struct CopyStmt<'a>(&'a SyntaxNode);

impl<'a> AstNode<'a> for CopyStmt<'a> {
    open spec fn kind_spec() -> SyntaxKind {
        SyntaxKind::COPY_INSTR
    }

    closed spec fn node(&self) -> SyntaxNode {
        *self.0
    }

    fn can_cast(kind: SyntaxKind) -> (r: bool) {
        kind == SyntaxKind::COPY_INSTR
    }

    fn cast(node: &'a SyntaxNode) -> (r: Option<Self>) {
        if node.kind == SyntaxKind::COPY_INSTR {
            Some(CopyStmt(node))
        } else {
            None
        }
    }

    fn syntax(&self) -> (r: &'a SyntaxNode) {
        self.0
    }
}

/// A `ENTRYPOINT` instruction.
#[derive(Debug, Clone, Copy, PartialEq, Eq, Hash)]
pub struct EntrypointStmt<'a>(&'a SyntaxNode);

impl<'a> AstNode<'a> for EntrypointStmt<'a> {
    open spec fn kind_spec() -> SyntaxKind {
        SyntaxKind::ENTRYPOINT_INSTR
    }

    closed spec fn node(&self) -> SyntaxNode {
        *self.0
    }

    fn can_cast(kind: SyntaxKind) -> (r: bool) {
        kind == SyntaxKind::ENTRYPOINT_INSTR
    }

    fn cast(node: &'a SyntaxNode) -> (r: Option<Self>) {
        if node.kind == SyntaxKind::ENTRYPOINT_INSTR {
            Some(EntrypointStmt(node))
        } else {
            None
        }
    }

    fn syntax(&self) -> (r: &'a SyntaxNode) {
        self.0
    }
}

/// A `VOLUME` instruction.
#[derive(Debug, Clone, Copy, PartialEq, Eq, Hash)]
pub struct VolumeStmt<'a>(&'a SyntaxNode);

impl<'a> AstNode<'a> for VolumeStmt<'a> {
    open spec fn kind_spec() -> SyntaxKind {
        SyntaxKind::VOLUME_INSTR
    }

    closed spec fn node(&self) -> SyntaxNode {
        *self.0
    }

    fn can_cast(kind: SyntaxKind) -> (r: bool) {
        kind == SyntaxKind::VOLUME_INSTR
    }

    fn cast(node: &'a SyntaxNode) -> (r: Option<Self>) {
        if node.kind == SyntaxKind::VOLUME_INSTR {
            Some(VolumeStmt(node))
        } else {
            None
        }
    }

    fn syntax(&self) -> (r: &'a SyntaxNode) {
        self.0
    }
}

/// A `USER` instruction.
#[derive(Debug, Clone, Copy, PartialEq, Eq, Hash)]
pub struct UserStmt<'a>(&'a SyntaxNode);

impl<'a> AstNode<'a> for UserStmt<'a> {
    open spec fn kind_spec() -> SyntaxKind {
        SyntaxKind::USER_INSTR
    }

    closed spec fn node(&self) -> SyntaxNode {
        *self.0
    }

    fn can_cast(kind: SyntaxKind) -> (r: bool) {
        kind == SyntaxKind::USER_INSTR
    }

    fn cast(node: &'a SyntaxNode) -> (r: Option<Self>) {
        if node.kind == SyntaxKind::USER_INSTR {
            Some(UserStmt(node))
        } else {
            None
        }
    }

    fn syntax(&self) -> (r: &'a SyntaxNode) {
        self.0
    }
}

/// A `WORKDIR` instruction.
#[derive(Debug, Clone, Copy, PartialEq, Eq, Hash)]
pub struct WorkdirStmt<'a>(&'a SyntaxNode);

impl<'a> AstNode<'a> for WorkdirStmt<'a> {
    open spec fn kind_spec() -> SyntaxKind {
        SyntaxKind::WORKDIR_INSTR
    }

    closed spec fn node(&self) -> SyntaxNode {
        *self.0
    }

    fn can_cast(kind: SyntaxKind) -> (r: bool) {
        kind == SyntaxKind::WORKDIR_INSTR
    }

    fn cast(node: &'a SyntaxNode) -> (r: Option<Self>) {
        if node.kind == SyntaxKind::WORKDIR_INSTR {
            Some(WorkdirStmt(node))
        } else {
            None
        }
    }

    fn syntax(&self) -> (r: &'a SyntaxNode) {
        self.0
    }
}

/// A `ARG` instruction.
#[derive(Debug, Clone, Copy, PartialEq, Eq, Hash)]
pub struct ArgStmt<'a>(&'a SyntaxNode);

impl<'a> AstNode<'a> for ArgStmt<'a> {
    open spec fn kind_spec() -> SyntaxKind {
        SyntaxKind::ARG_INSTR
    }

    closed spec fn node(&self) -> SyntaxNode {
        *self.0
    }

    fn can_cast(kind: SyntaxKind) -> (r: bool) {
        kind == SyntaxKind::ARG_INSTR
    }

    fn cast(node: &'a SyntaxNode) -> (r: Option<Self>) {
        if node.kind == SyntaxKind::ARG_INSTR {
            Some(ArgStmt(node))
        } else {
            None
        }
    }

    fn syntax(&self) -> (r: &'a SyntaxNode) {
        self.0
    }
}

/// A `ONBUILD` instruction.
#[derive(Debug, Clone, Copy, PartialEq, Eq, Hash)]
pub struct OnbuildStmt<'a>(&'a SyntaxNode);

impl<'a> AstNode<'a> for OnbuildStmt<'a> {
    open spec fn kind_spec() -> SyntaxKind {
        SyntaxKind::ONBUILD_INSTR
    }

    closed spec fn node(&self) -> SyntaxNode {
        *self.0
    }

    fn can_cast(kind: SyntaxKind) -> (r: bool) {
        kind == SyntaxKind::ONBUILD_INSTR
    }

    fn cast(node: &'a SyntaxNode) -> (r: Option<Self>) {
        if node.kind == SyntaxKind::ONBUILD_INSTR {
            Some(OnbuildStmt(node))
        } else {
            None
        }
    }

    fn syntax(&self) -> (r: &'a SyntaxNode) {
        self.0
    }
}

/// A `STOPSIGNAL` instruction.
#[derive(Debug, Clone, Copy, PartialEq, Eq, Hash)]
pub struct StopsignalStmt<'a>(&'a SyntaxNode);

impl<'a> AstNode<'a> for StopsignalStmt<'a> {
    open spec fn kind_spec() -> SyntaxKind {
        SyntaxKind::STOPSIGNAL_INSTR
    }

    closed spec fn node(&self) -> SyntaxNode {
        *self.0
    }

    fn can_cast(kind: SyntaxKind) -> (r: bool) {
        kind == SyntaxKind::STOPSIGNAL_INSTR
    }

    fn cast(node: &'a SyntaxNode) -> (r: Option<Self>) {
        if node.kind == SyntaxKind::STOPSIGNAL_INSTR {
            Some(StopsignalStmt(node))
        } else {
            None
        }
    }

    fn syntax(&self) -> (r: &'a SyntaxNode) {
        self.0
    }
}

/// A `HEALTHCHECK` instruction.
#[derive(Debug, Clone, Copy, PartialEq, Eq, Hash)]
pub struct HealthcheckStmt<'a>(&'a SyntaxNode);

impl<'a> AstNode<'a> for HealthcheckStmt<'a> {
    open spec fn kind_spec() -> SyntaxKind {
        SyntaxKind::HEALTHCHECK_INSTR
    }

    closed spec fn node(&self) -> SyntaxNode {
        *self.0
    }

    fn can_cast(kind: SyntaxKind) -> (r: bool) {
        kind == SyntaxKind::HEALTHCHECK_INSTR
    }

    fn cast(node: &'a SyntaxNode) -> (r: Option<Self>) {
        if node.kind == SyntaxKind::HEALTHCHECK_INSTR {
            Some(HealthcheckStmt(node))
        } else {
            None
        }
    }

    fn syntax(&self) -> (r: &'a SyntaxNode) {
        self.0
    }
}

/// A `SHELL` instruction.
#[derive(Debug, Clone, Copy, PartialEq, Eq, Hash)]
pub struct ShellStmt<'a>(&'a SyntaxNode);

impl<'a> AstNode<'a> for ShellStmt<'a> {
    open spec fn kind_spec() -> SyntaxKind {
        SyntaxKind::SHELL_INSTR
    }

    closed spec fn node(&self) -> SyntaxNode {
        *self.0
    }

    fn can_cast(kind: SyntaxKind) -> (r: bool) {
        kind == SyntaxKind::SHELL_INSTR
    }

    fn cast(node: &'a SyntaxNode) -> (r: Option<Self>) {
        if node.kind == SyntaxKind::SHELL_INSTR {
            Some(ShellStmt(node))
        } else {
            None
        }
    }

    fn syntax(&self) -> (r: &'a SyntaxNode) {
        self.0
    }
}

/// An instruction whose keyword is not known.
#[derive(Debug, Clone, Copy, PartialEq, Eq, Hash)]
pub struct UnknownStmt<'a>(&'a SyntaxNode);

impl<'a> AstNode<'a> for UnknownStmt<'a> {
    open spec fn kind_spec() -> SyntaxKind {
        SyntaxKind::INSTRUCTION
    }

    closed spec fn node(&self) -> SyntaxNode {
        *self.0
    }

    fn can_cast(kind: SyntaxKind) -> (r: bool) {
        kind == SyntaxKind::INSTRUCTION
    }

    fn cast(node: &'a SyntaxNode) -> (r: Option<Self>) {
        if node.kind == SyntaxKind::INSTRUCTION {
            Some(UnknownStmt(node))
        } else {
            None
        }
    }

    fn syntax(&self) -> (r: &'a SyntaxNode) {
        self.0
    }
}

/// A `--name` or `--name=value` flag.
#[derive(Debug, Clone, Copy, PartialEq, Eq, Hash)]
pub struct Flag<'a>(&'a SyntaxNode);

impl<'a> AstNode<'a> for Flag<'a> {
    open spec fn kind_spec() -> SyntaxKind {
        SyntaxKind::FLAG
    }

    closed spec fn node(&self) -> SyntaxNode {
        *self.0
    }

    fn can_cast(kind: SyntaxKind) -> (r: bool) {
        kind == SyntaxKind::FLAG
    }

    fn cast(node: &'a SyntaxNode) -> (r: Option<Self>) {
        if node.kind == SyntaxKind::FLAG {
            Some(Flag(node))
        } else {
            None
        }
    }

    fn syntax(&self) -> (r: &'a SyntaxNode) {
        self.0
    }
}

/// A `key=value` pair.
#[derive(Debug, Clone, Copy, PartialEq, Eq, Hash)]
pub struct KeyValue<'a>(&'a SyntaxNode);

impl<'a> AstNode<'a> for KeyValue<'a> {
    open spec fn kind_spec() -> SyntaxKind {
        SyntaxKind::KEY_VALUE
    }

    closed spec fn node(&self) -> SyntaxNode {
        *self.0
    }

    fn can_cast(kind: SyntaxKind) -> (r: bool) {
        kind == SyntaxKind::KEY_VALUE
    }

    fn cast(node: &'a SyntaxNode) -> (r: Option<Self>) {
        if node.kind == SyntaxKind::KEY_VALUE {
            Some(KeyValue(node))
        } else {
            None
        }
    }

    fn syntax(&self) -> (r: &'a SyntaxNode) {
        self.0
    }
}

/// A JSON-array exec form.
#[derive(Debug, Clone, Copy, PartialEq, Eq, Hash)]
pub struct ExecForm<'a>(&'a SyntaxNode);

impl<'a> AstNode<'a> for ExecForm<'a> {
    open spec fn kind_spec() -> SyntaxKind {
        SyntaxKind::EXEC_FORM
    }

    closed spec fn node(&self) -> SyntaxNode {
        *self.0
    }

    fn can_cast(kind: SyntaxKind) -> (r: bool) {
        kind == SyntaxKind::EXEC_FORM
    }

    fn cast(node: &'a SyntaxNode) -> (r: Option<Self>) {
        if node.kind == SyntaxKind::EXEC_FORM {
            Some(ExecForm(node))
        } else {
            None
        }
    }

    fn syntax(&self) -> (r: &'a SyntaxNode) {
        self.0
    }
}

/// A shell-form body.
#[derive(Debug, Clone, Copy, PartialEq, Eq, Hash)]
pub struct ShellForm<'a>(&'a SyntaxNode);

impl<'a> AstNode<'a> for ShellForm<'a> {
    open spec fn kind_spec() -> SyntaxKind {
        SyntaxKind::SHELL_FORM
    }

    closed spec fn node(&self) -> SyntaxNode {
        *self.0
    }

    fn can_cast(kind: SyntaxKind) -> (r: bool) {
        kind == SyntaxKind::SHELL_FORM
    }

    fn cast(node: &'a SyntaxNode) -> (r: Option<Self>) {
        if node.kind == SyntaxKind::SHELL_FORM {
            Some(ShellForm(node))
        } else {
            None
        }
    }

    fn syntax(&self) -> (r: &'a SyntaxNode) {
        self.0
    }
}

/// An image reference.
#[derive(Debug, Clone, Copy, PartialEq, Eq, Hash)]
pub struct ImageRef<'a>(&'a SyntaxNode);

impl<'a> AstNode<'a> for ImageRef<'a> {
    open spec fn kind_spec() -> SyntaxKind {
        SyntaxKind::IMAGE_REF
    }

    closed spec fn node(&self) -> SyntaxNode {
        *self.0
    }

    fn can_cast(kind: SyntaxKind) -> (r: bool) {
        kind == SyntaxKind::IMAGE_REF
    }

    fn cast(node: &'a SyntaxNode) -> (r: Option<Self>) {
        if node.kind == SyntaxKind::IMAGE_REF {
            Some(ImageRef(node))
        } else {
            None
        }
    }

    fn syntax(&self) -> (r: &'a SyntaxNode) {
        self.0
    }
}

/// The name of an `AS <name>` clause.
#[derive(Debug, Clone, Copy, PartialEq, Eq, Hash)]
pub struct StageName<'a>(&'a SyntaxNode);

impl<'a> AstNode<'a> for StageName<'a> {
    open spec fn kind_spec() -> SyntaxKind {
        SyntaxKind::STAGE_NAME
    }

    closed spec fn node(&self) -> SyntaxNode {
        *self.0
    }

    fn can_cast(kind: SyntaxKind) -> (r: bool) {
        kind == SyntaxKind::STAGE_NAME
    }

    fn cast(node: &'a SyntaxNode) -> (r: Option<Self>) {
        if node.kind == SyntaxKind::STAGE_NAME {
            Some(StageName(node))
        } else {
            None
        }
    }

    fn syntax(&self) -> (r: &'a SyntaxNode) {
        self.0
    }
}

/// Sum type over every instruction.
#[derive(Debug, Clone, Copy, PartialEq, Eq, Hash)]
pub enum Stmt<'a> {
    From(FromStmt<'a>),
    Run(RunStmt<'a>),
    Cmd(CmdStmt<'a>),
    Label(LabelStmt<'a>),
    Maintainer(MaintainerStmt<'a>),
    Expose(ExposeStmt<'a>),
    Env(EnvStmt<'a>),
    Add(AddStmt<'a>),
    Copy(CopyStmt<'a>),
    Entrypoint(EntrypointStmt<'a>),
    Volume(VolumeStmt<'a>),
    User(UserStmt<'a>),
    Workdir(WorkdirStmt<'a>),
    Arg(ArgStmt<'a>),
    Onbuild(OnbuildStmt<'a>),
    Stopsignal(StopsignalStmt<'a>),
    Healthcheck(HealthcheckStmt<'a>),
    Shell(ShellStmt<'a>),
    /// An instruction that the parser couldn't recognize as a known keyword.
    Unknown(UnknownStmt<'a>),
}

impl<'a> Stmt<'a> {
    /// The node of the statement.
    pub closed spec fn node(self) -> SyntaxNode {
        match self {
            Stmt::From(s) => s.node(),
            Stmt::Run(s) => s.node(),
            Stmt::Cmd(s) => s.node(),
            Stmt::Label(s) => s.node(),
            Stmt::Maintainer(s) => s.node(),
            Stmt::Expose(s) => s.node(),
            Stmt::Env(s) => s.node(),
            Stmt::Add(s) => s.node(),
            Stmt::Copy(s) => s.node(),
            Stmt::Entrypoint(s) => s.node(),
            Stmt::Volume(s) => s.node(),
            Stmt::User(s) => s.node(),
            Stmt::Workdir(s) => s.node(),
            Stmt::Arg(s) => s.node(),
            Stmt::Onbuild(s) => s.node(),
            Stmt::Stopsignal(s) => s.node(),
            Stmt::Healthcheck(s) => s.node(),
            Stmt::Shell(s) => s.node(),
            Stmt::Unknown(s) => s.node(),
        }
    }

    /// The node kind that the variant stands for.
    pub open spec fn variant_kind(self) -> SyntaxKind {
        match self {
            Stmt::From(_) => SyntaxKind::FROM_INSTR,
            Stmt::Run(_) => SyntaxKind::RUN_INSTR,
            Stmt::Cmd(_) => SyntaxKind::CMD_INSTR,
            Stmt::Label(_) => SyntaxKind::LABEL_INSTR,
            Stmt::Maintainer(_) => SyntaxKind::MAINTAINER_INSTR,
            Stmt::Expose(_) => SyntaxKind::EXPOSE_INSTR,
            Stmt::Env(_) => SyntaxKind::ENV_INSTR,
            Stmt::Add(_) => SyntaxKind::ADD_INSTR,
            Stmt::Copy(_) => SyntaxKind::COPY_INSTR,
            Stmt::Entrypoint(_) => SyntaxKind::ENTRYPOINT_INSTR,
            Stmt::Volume(_) => SyntaxKind::VOLUME_INSTR,
            Stmt::User(_) => SyntaxKind::USER_INSTR,
            Stmt::Workdir(_) => SyntaxKind::WORKDIR_INSTR,
            Stmt::Arg(_) => SyntaxKind::ARG_INSTR,
            Stmt::Onbuild(_) => SyntaxKind::ONBUILD_INSTR,
            Stmt::Stopsignal(_) => SyntaxKind::STOPSIGNAL_INSTR,
            Stmt::Healthcheck(_) => SyntaxKind::HEALTHCHECK_INSTR,
            Stmt::Shell(_) => SyntaxKind::SHELL_INSTR,
            Stmt::Unknown(_) => SyntaxKind::INSTRUCTION,
        }
    }

    /// The statement for an instruction node: the variant for its kind;
    /// `None` for a node that is not an instruction.
    pub(crate) fn cast_node(node: &'a SyntaxNode) -> (r: Option<Stmt<'a>>)
        ensures
            (r is Some) == is_stmt_kind(node.kind),
            r matches Some(s) ==> s.node() == *node && s.variant_kind() == node.kind,
    {
        match node.kind {
            SyntaxKind::FROM_INSTR => Some(Stmt::From(FromStmt(node))),
            SyntaxKind::RUN_INSTR => Some(Stmt::Run(RunStmt(node))),
            SyntaxKind::CMD_INSTR => Some(Stmt::Cmd(CmdStmt(node))),
            SyntaxKind::LABEL_INSTR => Some(Stmt::Label(LabelStmt(node))),
            SyntaxKind::MAINTAINER_INSTR => Some(Stmt::Maintainer(MaintainerStmt(node))),
            SyntaxKind::EXPOSE_INSTR => Some(Stmt::Expose(ExposeStmt(node))),
            SyntaxKind::ENV_INSTR => Some(Stmt::Env(EnvStmt(node))),
            SyntaxKind::ADD_INSTR => Some(Stmt::Add(AddStmt(node))),
            SyntaxKind::COPY_INSTR => Some(Stmt::Copy(CopyStmt(node))),
            SyntaxKind::ENTRYPOINT_INSTR => Some(Stmt::Entrypoint(EntrypointStmt(node))),
            SyntaxKind::VOLUME_INSTR => Some(Stmt::Volume(VolumeStmt(node))),
            SyntaxKind::USER_INSTR => Some(Stmt::User(UserStmt(node))),
            SyntaxKind::WORKDIR_INSTR => Some(Stmt::Workdir(WorkdirStmt(node))),
            SyntaxKind::ARG_INSTR => Some(Stmt::Arg(ArgStmt(node))),
            SyntaxKind::ONBUILD_INSTR => Some(Stmt::Onbuild(OnbuildStmt(node))),
            SyntaxKind::STOPSIGNAL_INSTR => Some(Stmt::Stopsignal(StopsignalStmt(node))),
            SyntaxKind::HEALTHCHECK_INSTR => Some(Stmt::Healthcheck(HealthcheckStmt(node))),
            SyntaxKind::SHELL_INSTR => Some(Stmt::Shell(ShellStmt(node))),
            SyntaxKind::INSTRUCTION => Some(Stmt::Unknown(UnknownStmt(node))),
            _ => None,
        }
    }

    /// The node of the statement.
    pub fn syntax(&self) -> (r: &'a SyntaxNode)
        ensures
            *r == self.node(),
    {
        match self {
            Stmt::From(s) => s.syntax(),
            Stmt::Run(s) => s.syntax(),
            Stmt::Cmd(s) => s.syntax(),
            Stmt::Label(s) => s.syntax(),
            Stmt::Maintainer(s) => s.syntax(),
            Stmt::Expose(s) => s.syntax(),
            Stmt::Env(s) => s.syntax(),
            Stmt::Add(s) => s.syntax(),
            Stmt::Copy(s) => s.syntax(),
            Stmt::Entrypoint(s) => s.syntax(),
            Stmt::Volume(s) => s.syntax(),
            Stmt::User(s) => s.syntax(),
            Stmt::Workdir(s) => s.syntax(),
            Stmt::Arg(s) => s.syntax(),
            Stmt::Onbuild(s) => s.syntax(),
            Stmt::Stopsignal(s) => s.syntax(),
            Stmt::Healthcheck(s) => s.syntax(),
            Stmt::Shell(s) => s.syntax(),
            Stmt::Unknown(s) => s.syntax(),
        }
    }
}

impl<'a> Dockerfile<'a> {
    /// The parser directives at the top of the file.
    pub fn parser_directives(&self) -> (r: Vec<ParserDirective<'a>>)
        ensures
            nodes_of(r@) == kind_nodes(self.node().children@, SyntaxKind::PARSER_DIRECTIVE),
    {
        let nodes = self.0.children_of_kind(SyntaxKind::PARSER_DIRECTIVE);
        let mut r: Vec<ParserDirective<'a>> = Vec::new();
        let mut i: usize = 0;
        while i < nodes.len()
            invariant
                i <= nodes@.len(),
                nodes_of(r@) == derefs(nodes@).subrange(0, i as int),
            decreases nodes@.len() - i,
        {
            let ghost before = r@;
            let d = ParserDirective(nodes[i]);
            assert(d.node() == *nodes@[i as int]);
            r.push(d);
            assert(r@ == before.push(d));
            assert(nodes_of(r@) =~= nodes_of(before).push(d.node()));
            assert(nodes_of(r@) =~= derefs(nodes@).subrange(0, i + 1));
            i += 1;
        }
        assert(derefs(nodes@).subrange(0, nodes@.len() as int) =~= derefs(nodes@));
        r
    }

    /// The statements in the Dockerfile, in source order: one per instruction
    /// node, of the variant for its kind.
    pub fn statements(&self) -> (r: Vec<Stmt<'a>>)
        ensures
            r@.len() == stmt_nodes(self.node().children@).len(),
            forall|i: int|
                0 <= i < r@.len() ==> (#[trigger] r@[i]).node() == stmt_nodes(self.node().children@)[i]
                    && r@[i].variant_kind() == stmt_nodes(self.node().children@)[i].kind,
    {
        let node: &'a SyntaxNode = self.0;
        let mut r: Vec<Stmt<'a>> = Vec::new();
        let mut i: usize = 0;
        while i < node.children.len()
            invariant
                i <= node.children@.len(),
                r@.len() == stmt_nodes(node.children@.subrange(0, i as int)).len(),
                forall|j: int|
                    0 <= j < r@.len() ==> (#[trigger] r@[j]).node() == stmt_nodes(node.children@.subrange(0, i as int))[j]
                        && r@[j].variant_kind() == stmt_nodes(node.children@.subrange(0, i as int))[j].kind,
            decreases node.children@.len() - i,
        {
            proof {
                assert(node.children@.subrange(0, i + 1) =~= node.children@.subrange(0, i as int).push(node.children@[i as int]));
                lemma_stmt_nodes_push(node.children@.subrange(0, i as int), node.children@[i as int]);
            }
            match &node.children[i] {
                SyntaxElement::Node(child) => {
                    if let Some(s) = Stmt::cast_node(child) {
                        r.push(s);
                    }
                },
                SyntaxElement::Token(_) => {},
            }
            i += 1;
        }
        assert(node.children@.subrange(0, node.children@.len() as int) =~= node.children@);
        r
    }
}


/// The flag's name: its first word without leading dashes.
pub open spec fn flag_name(n: SyntaxNode) -> Option<Seq<char>> {
    match first_token_text(n.children@, SyntaxKind::WORD) {
        Some(w) => Some(trim_dashes(w)),
        None => None,
    }
}

/// The flag's value: what follows its `=`.
pub open spec fn flag_value(n: SyntaxNode) -> Option<Seq<char>> {
    value_after_equals(n.children@)
}

/// The value of the first of `fs` that is named `from` and has a value.
pub open spec fn from_flag(fs: Seq<SyntaxNode>) -> Option<Seq<char>>
    decreases fs.len(),
{
    if fs.len() == 0 {
        None
    } else if flag_name(fs[0]) == Some(seq!['f', 'r', 'o', 'm']) && flag_value(fs[0]) is Some {
        flag_value(fs[0])
    } else {
        from_flag(fs.drop_first())
    }
}

/// The name, tag and digest of an image reference's text.
pub open spec fn image_parts(raw: Seq<char>) -> (Seq<char>, Option<Seq<char>>, Option<Seq<char>>) {
    let (head, digest) = split_digest(raw);
    let (name, tag) = split_tag(head);
    (name, tag, digest)
}

/// `sep` and then `part`, when there is a part; nothing otherwise.
pub open spec fn joined(sep: char, part: Option<Seq<char>>) -> Seq<char> {
    match part {
        Some(t) => seq![sep] + t,
        None => Seq::empty(),
    }
}

/// An image reference is its parts put back together: the name, then `:`
/// and the tag if there is one, then `@` and the digest if there is one.
pub proof fn lemma_image_parts_rejoin(raw: Seq<char>)
    ensures
        ({
            let (name, tag, digest) = image_parts(raw);
            name + joined(':', tag) + joined('@', digest) == raw
        }),
{
    lemma_find_from(raw, '@', 0);
    let (head, digest) = split_digest(raw);
    assert(head + joined('@', digest) =~= raw);
    lemma_rfind_before(head, ':', head.len() as int);
    let (name, tag) = split_tag(head);
    assert(name + joined(':', tag) =~= head);
}

/// How an image reference splits, over all references: the part before
/// the digest holds no `@` (the digest follows the first `@`); a tag holds
/// neither `:` nor `/` and comes after a non-empty name; and when there is
/// no tag, every `:` of the name after its first character is followed by a
/// `/` somewhere later (it is a registry's port, as in `host:5000/img`) —
/// whatever characters the tag would have held.
pub proof fn lemma_image_parts_split(raw: Seq<char>)
    ensures
        ({
            let (name, tag, digest) = image_parts(raw);
            let head = name + joined(':', tag);
            &&& raw == head + joined('@', digest)
            &&& !head.contains('@')
            &&& (tag matches Some(t) ==> name.len() > 0 && !t.contains(':') && !t.contains('/'))
            &&& (tag is None ==> forall|j: int|
                1 <= j < name.len() && #[trigger] name[j] == ':' ==> exists|m: int|
                    j < m < name.len() && #[trigger] name[m] == '/')
        }),
{
    lemma_image_parts_rejoin(raw);
    lemma_find_from(raw, '@', 0);
    let (head, digest) = split_digest(raw);
    assert(!head.contains('@')) by {
        if head.contains('@') {
            let m = choose|m: int| 0 <= m < head.len() && head[m] == '@';
            assert(raw[m] == head[m]);
        }
    }
    lemma_rfind_before(head, ':', head.len() as int);
    let (name, tag) = split_tag(head);
    assert(name + joined(':', tag) =~= head);
    match last_index_of(head, ':') {
        Some(j0) => {
            let tail = head.subrange(j0 + 1, head.len() as int);
            if j0 > 0 && !tail.contains('/') {
                assert(!tail.contains(':')) by {
                    if tail.contains(':') {
                        let m = choose|m: int| 0 <= m < tail.len() && tail[m] == ':';
                        assert(head[j0 + 1 + m] == tail[m]);
                    }
                }
            } else if j0 > 0 {
                let m0 = choose|m: int| 0 <= m < tail.len() && tail[m] == '/';
                assert(head[j0 + 1 + m0] == '/');
                assert forall|j: int| 1 <= j < name.len() && #[trigger] name[j] == ':' implies exists|m: int|
                    j < m < name.len() && #[trigger] name[m] == '/' by {
                    assert(j <= j0);
                    assert(name[j0 + 1 + m0] == '/');
                }
            } else {
                assert forall|j: int| 1 <= j < name.len() && #[trigger] name[j] == ':' implies exists|m: int|
                    j < m < name.len() && #[trigger] name[m] == '/' by {
                    assert(head[j] != ':');
                }
            }
        },
        None => {
            assert forall|j: int| 1 <= j < name.len() && #[trigger] name[j] == ':' implies exists|m: int|
                j < m < name.len() && #[trigger] name[m] == '/' by {
                assert(head[j] != ':');
            }
        },
    }
}

/// The source paths of a `COPY`/`ADD`: the words between the keyword and the
/// last word; none when there are fewer than three words.
pub open spec fn copy_sources(s: Seq<SyntaxElement>) -> Seq<Seq<char>> {
    let w = words(s);
    if w.len() < 3 {
        Seq::empty()
    } else {
        w.subrange(1, w.len() - 1)
    }
}

/// The destination of a `COPY`/`ADD`: its last word, when there is one after
/// the keyword.
pub open spec fn copy_dest(s: Seq<SyntaxElement>) -> Option<Seq<char>> {
    let w = words(s);
    if w.len() < 2 {
        None
    } else {
        Some(w.last())
    }
}

/// Form of a `RUN`/`CMD`/`ENTRYPOINT` body.
#[derive(Debug, Clone, PartialEq, Eq)]
pub enum CommandForm {
    /// `["a", "b"]`. The vector contains the parsed string arguments.
    Exec(Vec<String>),
    /// Free-form shell text.
    Shell(String),
    /// No body present (or only flags) — diagnostic-worthy.
    Empty,
}

/// Parsed components of an [`ImageRef`].
#[derive(Debug, Clone, PartialEq, Eq)]
pub struct ImageRefParts {
    pub name: String,
    pub tag: Option<String>,
    pub digest: Option<String>,
}

/// The `FLAG` children of `node`.
fn flags_of<'a>(node: &'a SyntaxNode) -> (r: Vec<Flag<'a>>)
    ensures
        nodes_of(r@) == kind_nodes(node.children@, SyntaxKind::FLAG),
{
    let nodes = node.children_of_kind(SyntaxKind::FLAG);
    let mut r: Vec<Flag<'a>> = Vec::new();
    let mut i: usize = 0;
    while i < nodes.len()
        invariant
            i <= nodes@.len(),
            nodes_of(r@) == derefs(nodes@).subrange(0, i as int),
        decreases nodes@.len() - i,
    {
        let ghost before = r@;
        let f = Flag(nodes[i]);
        r.push(f);
        assert(nodes_of(r@) =~= nodes_of(before).push(f.node()));
        assert(nodes_of(r@) =~= derefs(nodes@).subrange(0, i + 1));
        i += 1;
    }
    assert(derefs(nodes@).subrange(0, nodes@.len() as int) =~= derefs(nodes@));
    r
}

/// The `KEY_VALUE` children of `node`.
fn pairs_of<'a>(node: &'a SyntaxNode) -> (r: Vec<KeyValue<'a>>)
    ensures
        nodes_of(r@) == kind_nodes(node.children@, SyntaxKind::KEY_VALUE),
{
    let nodes = node.children_of_kind(SyntaxKind::KEY_VALUE);
    let mut r: Vec<KeyValue<'a>> = Vec::new();
    let mut i: usize = 0;
    while i < nodes.len()
        invariant
            i <= nodes@.len(),
            nodes_of(r@) == derefs(nodes@).subrange(0, i as int),
        decreases nodes@.len() - i,
    {
        let ghost before = r@;
        let p = KeyValue(nodes[i]);
        r.push(p);
        assert(nodes_of(r@) =~= nodes_of(before).push(p.node()));
        assert(nodes_of(r@) =~= derefs(nodes@).subrange(0, i + 1));
        i += 1;
    }
    assert(derefs(nodes@).subrange(0, nodes@.len() as int) =~= derefs(nodes@));
    r
}

/// Whether `node` has a child node of kind `k`.
fn has_child(node: &SyntaxNode, k: SyntaxKind) -> (r: bool)
    ensures
        r == (kind_nodes(node.children@, k).len() > 0),
{
    node.first_child_of_kind(k).is_some()
}

/// The body of a `RUN`/`CMD`/`ENTRYPOINT` node: its exec form's arguments,
/// else its shell form's text, else nothing.
fn command_body(node: &SyntaxNode) -> (r: CommandForm)
    ensures
        match r {
            CommandForm::Exec(v) => kind_nodes(node.children@, SyntaxKind::EXEC_FORM).len() > 0
                && string_views(v@) == exec_args(
                kind_nodes(node.children@, SyntaxKind::EXEC_FORM)[0].children@,
            ),
            CommandForm::Shell(t) => kind_nodes(node.children@, SyntaxKind::EXEC_FORM).len() == 0
                && kind_nodes(node.children@, SyntaxKind::SHELL_FORM).len() > 0 && t@ == node_text(
                kind_nodes(node.children@, SyntaxKind::SHELL_FORM)[0],
            ),
            CommandForm::Empty => kind_nodes(node.children@, SyntaxKind::EXEC_FORM).len() == 0
                && kind_nodes(node.children@, SyntaxKind::SHELL_FORM).len() == 0,
        },
{
    match node.first_child_of_kind(SyntaxKind::EXEC_FORM) {
        Some(exec) => CommandForm::Exec(exec_form_args(exec)),
        None => match node.first_child_of_kind(SyntaxKind::SHELL_FORM) {
            Some(shell) => CommandForm::Shell(shell.text()),
            None => CommandForm::Empty,
        },
    }
}

/// The name of a flag node (see [`flag_name`]).
fn flag_name_of(node: &SyntaxNode) -> (r: Option<String>)
    ensures
        opt_view(r) == flag_name(*node),
{
    match first_token(node, SyntaxKind::WORD) {
        Some(w) => Some(trim_leading_dashes(w.as_str())),
        None => None,
    }
}

/// Whether `s` is `from`.
fn is_from_name(s: &String) -> (r: bool)
    ensures
        r == (s@ == seq!['f', 'r', 'o', 'm']),
{
    let v = chars_of(s.as_str());
    let r = v.len() == 4 && v[0] == 'f' && v[1] == 'r' && v[2] == 'o' && v[3] == 'm';
    proof {
        if r {
            assert(v@ =~= seq!['f', 'r', 'o', 'm']);
        } else if v@ == seq!['f', 'r', 'o', 'm'] {
            assert(v@[0] == 'f' && v@[1] == 'r' && v@[2] == 'o' && v@[3] == 'm');
        }
    }
    r
}

/// The value of the first flag of `node` named `from` that has a value.
fn from_flag_of(node: &SyntaxNode) -> (r: Option<String>)
    ensures
        opt_view(r) == from_flag(kind_nodes(node.children@, SyntaxKind::FLAG)),
{
    let fs = node.children_of_kind(SyntaxKind::FLAG);
    let ghost all = derefs(fs@);
    assert(all.subrange(0, all.len() as int) =~= all);
    let mut i: usize = 0;
    while i < fs.len()
        invariant
            i <= fs@.len(),
            all == derefs(fs@),
            all == kind_nodes(node.children@, SyntaxKind::FLAG),
            from_flag(all.subrange(i as int, all.len() as int)) == from_flag(all),
        decreases fs@.len() - i,
    {
        let f = fs[i];
        let ghost rest = all.subrange(i as int, all.len() as int);
        assert(rest[0] == *f);
        assert(rest.drop_first() =~= all.subrange(i + 1, all.len() as int));
        match flag_name_of(f) {
            Some(n) => {
                if is_from_name(&n) {
                    let v = value_after_eq(f);
                    if v.is_some() {
                        return v;
                    }
                }
            },
            None => {},
        }
        i += 1;
    }
    assert(all.subrange(i as int, all.len() as int) =~= Seq::<SyntaxNode>::empty());
    None
}

/// The words of a `COPY`/`ADD` node between the keyword and the last word.
fn copy_sources_of(node: &SyntaxNode) -> (r: Vec<String>)
    ensures
        string_views(r@) == copy_sources(node.children@),
{
    let w = word_texts(node);
    let mut r: Vec<String> = Vec::new();
    if w.len() < 3 {
        return r;
    }
    let mut i: usize = 1;
    while i < w.len() - 1
        invariant
            1 <= i <= w@.len() - 1,
            w@.len() >= 3,
            string_views(r@) == string_views(w@).subrange(1, i as int),
        decreases w@.len() - i,
    {
        let ghost before = r@;
        r.push(w[i].clone());
        assert(string_views(r@) =~= string_views(before).push(w@[i as int]@));
        assert(string_views(r@) =~= string_views(w@).subrange(1, i + 1));
        i += 1;
    }
    r
}

/// The last word of a `COPY`/`ADD` node, when it has one after the keyword.
fn copy_dest_of(node: &SyntaxNode) -> (r: Option<String>)
    ensures
        opt_view(r) == copy_dest(node.children@),
{
    let w = word_texts(node);
    if w.len() < 2 {
        None
    } else {
        assert(string_views(w@).last() == w@[w@.len() - 1]@);
        Some(w[w.len() - 1].clone())
    }
}

impl<'a> FromStmt<'a> {
    /// `--platform=<p>` etc.
    pub fn flags(&self) -> (r: Vec<Flag<'a>>)
        ensures
            nodes_of(r@) == kind_nodes(self.node().children@, SyntaxKind::FLAG),
    {
        flags_of(self.0)
    }

    /// The `<image>[:<tag>][@<digest>]` clause.
    pub fn image_ref(&self) -> (r: Option<ImageRef<'a>>)
        ensures
            match r {
                Some(i) => kind_nodes(self.node().children@, SyntaxKind::IMAGE_REF).len() > 0
                    && i.node() == kind_nodes(self.node().children@, SyntaxKind::IMAGE_REF)[0],
                None => kind_nodes(self.node().children@, SyntaxKind::IMAGE_REF).len() == 0,
            },
    {
        match self.0.first_child_of_kind(SyntaxKind::IMAGE_REF) {
            Some(n) => Some(ImageRef(n)),
            None => None,
        }
    }

    /// The `<name>` of an `AS <name>` clause, if any.
    pub fn stage_name(&self) -> (r: Option<String>)
        ensures
            match r {
                Some(t) => kind_nodes(self.node().children@, SyntaxKind::STAGE_NAME).len() > 0
                    && t@ == node_text(kind_nodes(self.node().children@, SyntaxKind::STAGE_NAME)[0]),
                None => kind_nodes(self.node().children@, SyntaxKind::STAGE_NAME).len() == 0,
            },
    {
        match self.0.first_child_of_kind(SyntaxKind::STAGE_NAME) {
            Some(n) => Some(n.text()),
            None => None,
        }
    }
}

impl<'a> ImageRef<'a> {
    /// The full text of the image reference, e.g. `rust:1.80-alpine`.
    pub fn full(&self) -> (r: String)
        ensures
            r@ == node_text(self.node()),
    {
        self.0.text()
    }

    /// Split the reference into name, tag and digest. The name is required;
    /// tag and digest are optional.
    pub fn parts(&self) -> (r: ImageRefParts)
        ensures
            (r.name@, opt_view(r.tag), opt_view(r.digest)) == image_parts(node_text(self.node())),
    {
        let raw = self.full();
        let v = chars_of(raw.as_str());
        let n = v.len();
        let (h, digest) = match find_char(&v, '@', 0, n) {
            Some(i) => {
                proof {
                    lemma_index_of_first(v@, '@', i as int);
                }
                (i, Some(string_of_range(&v, i + 1, n)))
            },
            None => {
                proof {
                    lemma_index_of_none(v@, '@');
                }
                (n, None)
            },
        };
        let ghost head = v@.subrange(0, h as int);
        assert(split_digest(v@).0 == head);
        assert(opt_view(digest) == split_digest(v@).1);
        let (name, tag) = match rfind_char(&v, ':', h) {
            Some(j) => {
                let ghost tail = head.subrange(j + 1, head.len() as int);
                if j > 0 {
                    match find_char(&v, '/', j + 1, h) {
                        None => {
                            assert(!tail.contains('/')) by {
                                assert forall|k: int| 0 <= k < tail.len() implies tail[k] != '/' by {
                                    assert(tail[k] == v@[j + 1 + k]);
                                }
                            }
                            assert(head.subrange(0, j as int) =~= v@.subrange(0, j as int));
                            assert(tail =~= v@.subrange(j + 1, h as int));
                            (string_of_range(&v, 0, j), Some(string_of_range(&v, j + 1, h)))
                        },
                        Some(k) => {
                            assert(tail[k - j - 1] == v@[k as int]);
                            assert(tail.contains('/'));
                            (string_of_range(&v, 0, h), None)
                        },
                    }
                } else {
                    (string_of_range(&v, 0, h), None)
                }
            },
            None => (string_of_range(&v, 0, h), None),
        };
        ImageRefParts { name, tag, digest }
    }
}

/// The shared interface of `RUN`, `CMD` and `ENTRYPOINT`.
impl<'a> RunStmt<'a> {
    /// All flags attached to the instruction (e.g. `--mount`).
    pub fn flags(&self) -> (r: Vec<Flag<'a>>)
        ensures
            nodes_of(r@) == kind_nodes(self.node().children@, SyntaxKind::FLAG),
    {
        flags_of(self.0)
    }

    /// Whether the body is in shell form.
    pub fn is_shell_form(&self) -> (r: bool)
        ensures
            r == (kind_nodes(self.node().children@, SyntaxKind::SHELL_FORM).len() > 0),
    {
        has_child(self.0, SyntaxKind::SHELL_FORM)
    }

    /// Whether the body is in exec form.
    pub fn is_exec_form(&self) -> (r: bool)
        ensures
            r == (kind_nodes(self.node().children@, SyntaxKind::EXEC_FORM).len() > 0),
    {
        has_child(self.0, SyntaxKind::EXEC_FORM)
    }

    /// The body as a [`CommandForm`]: the exec form's arguments, else the
    /// shell form's text, else `Empty`.
    pub fn body(&self) -> (r: CommandForm)
        ensures
            match r {
                CommandForm::Exec(v) => kind_nodes(self.node().children@, SyntaxKind::EXEC_FORM).len() > 0
                    && string_views(v@) == exec_args(
                    kind_nodes(self.node().children@, SyntaxKind::EXEC_FORM)[0].children@,
                ),
                CommandForm::Shell(t) => kind_nodes(self.node().children@, SyntaxKind::EXEC_FORM).len() == 0
                    && kind_nodes(self.node().children@, SyntaxKind::SHELL_FORM).len() > 0
                    && t@ == node_text(kind_nodes(self.node().children@, SyntaxKind::SHELL_FORM)[0]),
                CommandForm::Empty => kind_nodes(self.node().children@, SyntaxKind::EXEC_FORM).len() == 0
                    && kind_nodes(self.node().children@, SyntaxKind::SHELL_FORM).len() == 0,
            },
    {
        command_body(self.0)
    }
}

impl<'a> CmdStmt<'a> {
    /// All flags attached to the instruction (e.g. `--mount`).
    pub fn flags(&self) -> (r: Vec<Flag<'a>>)
        ensures
            nodes_of(r@) == kind_nodes(self.node().children@, SyntaxKind::FLAG),
    {
        flags_of(self.0)
    }

    /// Whether the body is in shell form.
    pub fn is_shell_form(&self) -> (r: bool)
        ensures
            r == (kind_nodes(self.node().children@, SyntaxKind::SHELL_FORM).len() > 0),
    {
        has_child(self.0, SyntaxKind::SHELL_FORM)
    }

    /// Whether the body is in exec form.
    pub fn is_exec_form(&self) -> (r: bool)
        ensures
            r == (kind_nodes(self.node().children@, SyntaxKind::EXEC_FORM).len() > 0),
    {
        has_child(self.0, SyntaxKind::EXEC_FORM)
    }

    /// The body as a [`CommandForm`]: the exec form's arguments, else the
    /// shell form's text, else `Empty`.
    pub fn body(&self) -> (r: CommandForm)
        ensures
            match r {
                CommandForm::Exec(v) => kind_nodes(self.node().children@, SyntaxKind::EXEC_FORM).len() > 0
                    && string_views(v@) == exec_args(
                    kind_nodes(self.node().children@, SyntaxKind::EXEC_FORM)[0].children@,
                ),
                CommandForm::Shell(t) => kind_nodes(self.node().children@, SyntaxKind::EXEC_FORM).len() == 0
                    && kind_nodes(self.node().children@, SyntaxKind::SHELL_FORM).len() > 0
                    && t@ == node_text(kind_nodes(self.node().children@, SyntaxKind::SHELL_FORM)[0]),
                CommandForm::Empty => kind_nodes(self.node().children@, SyntaxKind::EXEC_FORM).len() == 0
                    && kind_nodes(self.node().children@, SyntaxKind::SHELL_FORM).len() == 0,
            },
    {
        command_body(self.0)
    }
}

impl<'a> EntrypointStmt<'a> {
    /// All flags attached to the instruction (e.g. `--mount`).
    pub fn flags(&self) -> (r: Vec<Flag<'a>>)
        ensures
            nodes_of(r@) == kind_nodes(self.node().children@, SyntaxKind::FLAG),
    {
        flags_of(self.0)
    }

    /// Whether the body is in shell form.
    pub fn is_shell_form(&self) -> (r: bool)
        ensures
            r == (kind_nodes(self.node().children@, SyntaxKind::SHELL_FORM).len() > 0),
    {
        has_child(self.0, SyntaxKind::SHELL_FORM)
    }

    /// Whether the body is in exec form.
    pub fn is_exec_form(&self) -> (r: bool)
        ensures
            r == (kind_nodes(self.node().children@, SyntaxKind::EXEC_FORM).len() > 0),
    {
        has_child(self.0, SyntaxKind::EXEC_FORM)
    }

    /// The body as a [`CommandForm`]: the exec form's arguments, else the
    /// shell form's text, else `Empty`.
    pub fn body(&self) -> (r: CommandForm)
        ensures
            match r {
                CommandForm::Exec(v) => kind_nodes(self.node().children@, SyntaxKind::EXEC_FORM).len() > 0
                    && string_views(v@) == exec_args(
                    kind_nodes(self.node().children@, SyntaxKind::EXEC_FORM)[0].children@,
                ),
                CommandForm::Shell(t) => kind_nodes(self.node().children@, SyntaxKind::EXEC_FORM).len() == 0
                    && kind_nodes(self.node().children@, SyntaxKind::SHELL_FORM).len() > 0
                    && t@ == node_text(kind_nodes(self.node().children@, SyntaxKind::SHELL_FORM)[0]),
                CommandForm::Empty => kind_nodes(self.node().children@, SyntaxKind::EXEC_FORM).len() == 0
                    && kind_nodes(self.node().children@, SyntaxKind::SHELL_FORM).len() == 0,
            },
    {
        command_body(self.0)
    }
}

impl<'a> CopyStmt<'a> {
    /// All flags attached to the instruction (e.g. `--from`).
    pub fn flags(&self) -> (r: Vec<Flag<'a>>)
        ensures
            nodes_of(r@) == kind_nodes(self.node().children@, SyntaxKind::FLAG),
    {
        flags_of(self.0)
    }

    /// Source paths: the words between the keyword and the last word.
    pub fn sources(&self) -> (r: Vec<String>)
        ensures
            string_views(r@) == copy_sources(self.node().children@),
    {
        copy_sources_of(self.0)
    }

    /// Destination path: the last word after the keyword.
    pub fn dest(&self) -> (r: Option<String>)
        ensures
            opt_view(r) == copy_dest(self.node().children@),
    {
        copy_dest_of(self.0)
    }

    /// The value of the `--from=` flag, if present.
    pub fn from(&self) -> (r: Option<String>)
        ensures
            opt_view(r) == from_flag(kind_nodes(self.node().children@, SyntaxKind::FLAG)),
    {
        from_flag_of(self.0)
    }
}

impl<'a> AddStmt<'a> {
    /// All flags attached to the instruction (e.g. `--from`).
    pub fn flags(&self) -> (r: Vec<Flag<'a>>)
        ensures
            nodes_of(r@) == kind_nodes(self.node().children@, SyntaxKind::FLAG),
    {
        flags_of(self.0)
    }

    /// Source paths: the words between the keyword and the last word.
    pub fn sources(&self) -> (r: Vec<String>)
        ensures
            string_views(r@) == copy_sources(self.node().children@),
    {
        copy_sources_of(self.0)
    }

    /// Destination path: the last word after the keyword.
    pub fn dest(&self) -> (r: Option<String>)
        ensures
            opt_view(r) == copy_dest(self.node().children@),
    {
        copy_dest_of(self.0)
    }

    /// The value of the `--from=` flag, if present.
    pub fn from(&self) -> (r: Option<String>)
        ensures
            opt_view(r) == from_flag(kind_nodes(self.node().children@, SyntaxKind::FLAG)),
    {
        from_flag_of(self.0)
    }
}

impl<'a> ExecForm<'a> {
    /// The exec-form arguments: quoted strings unquoted, bare words as they
    /// are; `[`, `]` and `,` separators are skipped.
    pub fn parsed_args(&self) -> (r: Vec<String>)
        ensures
            string_views(r@) == exec_args(self.node().children@),
    {
        exec_form_args(self.0)
    }
}

impl<'a> KeyValue<'a> {
    /// The key portion of the pair: its first word.
    pub fn key(&self) -> (r: Option<String>)
        ensures
            opt_view(r) == first_token_text(self.node().children@, SyntaxKind::WORD),
    {
        first_token(self.0, SyntaxKind::WORD)
    }

    /// The value portion of the pair, with surrounding quotes stripped: what
    /// follows the `=`, or, in the legacy `KEY value` form, what follows the
    /// key. Returns `None` if the pair has no value (e.g. legacy `ARG name`).
    pub fn value(&self) -> (r: Option<String>)
        ensures
            opt_view(r) == pair_value(self.node().children@),
    {
        pair_value_of(self.0)
    }
}

impl<'a> EnvStmt<'a> {
    /// The `KEY=value` pairs, in order.
    pub fn pairs(&self) -> (r: Vec<KeyValue<'a>>)
        ensures
            nodes_of(r@) == kind_nodes(self.node().children@, SyntaxKind::KEY_VALUE),
    {
        pairs_of(self.0)
    }
}

impl<'a> LabelStmt<'a> {
    /// The `key=value` pairs, in order.
    pub fn pairs(&self) -> (r: Vec<KeyValue<'a>>)
        ensures
            nodes_of(r@) == kind_nodes(self.node().children@, SyntaxKind::KEY_VALUE),
    {
        pairs_of(self.0)
    }
}

impl<'a> ArgStmt<'a> {
    /// The argument's pair; `ARG` allows one per instruction.
    pub fn pair(&self) -> (r: Option<KeyValue<'a>>)
        ensures
            match r {
                Some(p) => kind_nodes(self.node().children@, SyntaxKind::KEY_VALUE).len() > 0
                    && p.node() == kind_nodes(self.node().children@, SyntaxKind::KEY_VALUE)[0],
                None => kind_nodes(self.node().children@, SyntaxKind::KEY_VALUE).len() == 0,
            },
    {
        match self.0.first_child_of_kind(SyntaxKind::KEY_VALUE) {
            Some(n) => Some(KeyValue(n)),
            None => None,
        }
    }

    /// The argument's name: the key of its pair.
    pub fn name(&self) -> (r: Option<String>)
        ensures
            opt_view(r) == match first_of(kind_nodes(self.node().children@, SyntaxKind::KEY_VALUE)) {
                Some(p) => first_token_text(p.children@, SyntaxKind::WORD),
                None => None,
            },
    {
        match self.pair() {
            Some(p) => p.key(),
            None => None,
        }
    }

    /// The argument's default: the value of its pair.
    pub fn default_value(&self) -> (r: Option<String>)
        ensures
            opt_view(r) == match first_of(kind_nodes(self.node().children@, SyntaxKind::KEY_VALUE)) {
                Some(p) => pair_value(p.children@),
                None => None,
            },
    {
        match self.pair() {
            Some(p) => p.value(),
            None => None,
        }
    }
}

impl<'a> Flag<'a> {
    /// `--mount` -> `"mount"`: the first word without its leading dashes.
    pub fn name(&self) -> (r: Option<String>)
        ensures
            opt_view(r) == flag_name(self.node()),
    {
        flag_name_of(self.0)
    }

    /// `--mount=type=cache,target=/foo` -> `"type=cache,target=/foo"`.
    /// Returns `None` for value-less flags.
    pub fn value(&self) -> (r: Option<String>)
        ensures
            opt_view(r) == flag_value(self.node()),
    {
        value_after_eq(self.0)
    }
}

impl<'a> WorkdirStmt<'a> {
    /// The working directory: the first argument.
    pub fn path(&self) -> (r: Option<String>)
        ensures
            opt_view(r) == first_of(positional(self.node().children@)),
    {
        first_positional(self.0)
    }
}

impl<'a> UserStmt<'a> {
    /// The user: the first argument.
    pub fn user(&self) -> (r: Option<String>)
        ensures
            opt_view(r) == first_of(positional(self.node().children@)),
    {
        first_positional(self.0)
    }
}

impl<'a> ExposeStmt<'a> {
    /// All ports listed in the `EXPOSE` instruction (e.g. `80/tcp`,
    /// `443/udp`, or just `8080`).
    pub fn ports(&self) -> (r: Vec<String>)
        ensures
            string_views(r@) == positional(self.node().children@),
    {
        positional_args(self.0)
    }
}

impl<'a> VolumeStmt<'a> {
    /// The volumes: all arguments.
    pub fn volumes(&self) -> (r: Vec<String>)
        ensures
            string_views(r@) == positional(self.node().children@),
    {
        positional_args(self.0)
    }
}

impl<'a> StopsignalStmt<'a> {
    /// The signal: the first argument.
    pub fn signal(&self) -> (r: Option<String>)
        ensures
            opt_view(r) == first_of(positional(self.node().children@)),
    {
        first_positional(self.0)
    }
}

impl<'a> MaintainerStmt<'a> {
    /// `MAINTAINER` takes free-form text: everything after the keyword,
    /// trimmed.
    pub fn name(&self) -> (r: Option<String>)
        ensures
            opt_view(r) == after_first_word(node_text(self.node())),
    {
        let text = self.0.text();
        rest_after_first_word(text.as_str())
    }
}

impl<'a> ParserDirective<'a> {
    /// Returns `(name, value)` parsed from the directive's comment text. The
    /// name is lower-cased to match the `BuildKit` convention.
    pub fn name_and_value(&self) -> (r: Option<(String, String)>)
        ensures
            match r {
                Some((n, v)) => directive_name_value(node_text(self.node())) == Some((n@, v@)),
                None => directive_name_value(node_text(self.node())) is None,
            },
    {
        let raw = self.0.text();
        split_directive(raw.as_str())
    }

    /// The directive's name (see [`ParserDirective::name_and_value`]).
    pub fn name(&self) -> (r: Option<String>)
        ensures
            opt_view(r) == match directive_name_value(node_text(self.node())) {
                Some((n, _)) => Some(n),
                None => None,
            },
    {
        match self.name_and_value() {
            Some((n, _)) => Some(n),
            None => None,
        }
    }

    /// The directive's value (see [`ParserDirective::name_and_value`]).
    pub fn value(&self) -> (r: Option<String>)
        ensures
            opt_view(r) == match directive_name_value(node_text(self.node())) {
                Some((_, v)) => Some(v),
                None => None,
            },
    {
        match self.name_and_value() {
            Some((_, v)) => Some(v),
            None => None,
        }
    }
}

} // verus!
