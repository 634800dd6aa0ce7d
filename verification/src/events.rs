//! Events emitted by the extractor, later assembled into a semantic model.

use vstd::prelude::*;
use crate::syntax::{NameToken, TextRange};

verus! {

/// One semantic event of the output stream.
#[derive(Clone, Copy, Debug, PartialEq, Eq, Structural)]
pub enum SemanticEvent {
    /// A new symbol declaration was found: variable declarations, import
    /// bindings, function parameters, type parameters. `scope_id` is the
    /// scope the binding node appears in; `hoisted_scope_id` is set when the
    /// declaration belongs to an enclosing scope instead.
    DeclarationFound { name_token: NameToken, scope_id: usize, hoisted_scope_id: Option<usize> },
    /// A symbol is read and its declaration stands textually before the
    /// reference.
    Read { range: TextRange, declared_at: TextRange, scope_id: usize },
    /// A symbol is read and its declaration was hoisted: the declaration
    /// stands textually after the reference.
    HoistedRead { range: TextRange, declared_at: TextRange, scope_id: usize },
    /// A symbol is written and its declaration stands textually before the
    /// reference.
    Write { range: TextRange, declared_at: TextRange, scope_id: usize },
    /// A symbol is written and its declaration was hoisted.
    HoistedWrite { range: TextRange, declared_at: TextRange, scope_id: usize },
    /// A reference with no matching binding anywhere up the scope stack.
    UnresolvedReference { is_read: bool, range: TextRange },
    /// A new scope starts: blocks, function bodies, and the other
    /// scope-introducing nodes.
    ScopeStarted {
        range: TextRange,
        scope_id: usize,
        parent_scope_id: Option<usize>,
        is_closure: bool,
    },
    /// A scope ends.
    ScopeEnded { range: TextRange, scope_id: usize },
    /// A symbol is exported. The range points to the binding that is being
    /// exported, or to the reference clause that triggered a re-export.
    Exported { range: TextRange },
}

impl SemanticEvent {
    /// The source range the event speaks about.
    pub open spec fn spec_range(self) -> TextRange {
        match self {
            SemanticEvent::DeclarationFound { name_token, .. } => name_token.range,
            SemanticEvent::Read { range, .. } => range,
            SemanticEvent::HoistedRead { range, .. } => range,
            SemanticEvent::Write { range, .. } => range,
            SemanticEvent::HoistedWrite { range, .. } => range,
            SemanticEvent::UnresolvedReference { range, .. } => range,
            SemanticEvent::ScopeStarted { range, .. } => range,
            SemanticEvent::ScopeEnded { range, .. } => range,
            SemanticEvent::Exported { range } => range,
        }
    }

    pub fn range(&self) -> (r: TextRange)
        ensures
            r == self.spec_range(),
    {
        match self {
            SemanticEvent::DeclarationFound { name_token, .. } => name_token.range,
            SemanticEvent::Read { range, .. } => *range,
            SemanticEvent::HoistedRead { range, .. } => *range,
            SemanticEvent::Write { range, .. } => *range,
            SemanticEvent::HoistedWrite { range, .. } => *range,
            SemanticEvent::UnresolvedReference { range, .. } => *range,
            SemanticEvent::ScopeStarted { range, .. } => *range,
            SemanticEvent::ScopeEnded { range, .. } => *range,
            SemanticEvent::Exported { range } => *range,
        }
    }
}

} // verus!
