//! The extractor's view of the syntax layer.
//!
//! The extractor consumes three things from the parser's tree: node kinds,
//! node text ranges, and a small set of node predicates (whether a variable
//! declarator is a `var`, whether an import clause carries a `type` marker,
//! whether a type node sits in the true branch of a conditional type, and so
//! on). The types of this module carry exactly those facts as plain values;
//! the caller computes them while walking its tree in pre-order and feeds
//! every node twice, once on enter and once on leave.
//!
//! Identifier text is interned by the caller: each distinct token text is
//! handed over as a symbol number, so that two tokens carry the same symbol
//! exactly when they carry the same text.

use vstd::prelude::*;

verus! {

/// A half-open range of source offsets.
#[derive(Clone, Copy, Debug, PartialEq, Eq, Hash, Structural)]
pub struct TextRange {
    pub start: u32,
    pub end: u32,
}

/// An identifier token: its interned text and its source range.
#[derive(Clone, Copy, Debug, PartialEq, Eq, Hash, Structural)]
pub struct NameToken {
    /// The token's text, interned to a symbol by the caller.
    pub sym: u32,
    /// The token's source range.
    pub range: TextRange,
}

/// The owning declaration of an identifier binding, reduced to the groups the
/// extractor distinguishes. Each group shares one hoisting rule and one
/// namespace rule.
#[derive(Clone, Copy, Debug, PartialEq, Eq, Structural)]
pub enum BindingDecl {
    /// A `var`/`let`/`const` declarator. `is_var` is `None` when the owning
    /// variable declaration is unavailable (a malformed subtree); the binding
    /// is then skipped.
    VariableDeclarator { is_var: Option<bool> },
    /// A function declaration, a default-exported function declaration, or
    /// either `declare function` form.
    FunctionDeclaration,
    /// A function expression or a class expression; the name is visible only
    /// inside the expression's own scope.
    FunctionOrClassExpression,
    /// A class declaration, a default-exported class declaration, or an enum
    /// declaration: a dual (value and type) binding hoisted to the parent of
    /// the declaration's own scope.
    ClassOrEnumDeclaration,
    /// An interface or type alias declaration: a type binding hoisted to the
    /// parent of the declaration's own scope.
    InterfaceOrTypeAlias,
    /// A TS module (namespace) declaration: a value binding hoisted to the
    /// parent of the declaration's own scope.
    ModuleDeclaration,
    /// A TS mapped type or TS type parameter: a type binding in the current
    /// scope.
    MappedTypeOrTypeParameter,
    /// An import default clause, import namespace clause, or TS import-equals
    /// declaration. `type_only` reports the clause's `type` marker.
    ImportClause { type_only: bool },
    /// A default or namespace import specifier. The `type` marker lives on
    /// the enclosing named import clause; `None` when that clause is
    /// unavailable, in which case the binding is skipped.
    DefaultOrNamespaceImportSpecifier { clause_type_only: Option<bool> },
    /// A named import specifier (shorthand, full, or bogus).
    NamedImportSpecifier { imports_only_types: bool },
    /// A function or arrow parameter, rest parameter, index-signature
    /// parameter, property parameter, or catch parameter.
    Parameter,
    /// An `infer T` type parameter: its declaration is deferred until the
    /// conditional-true scope opens.
    InferTypeParameter,
}

/// An identifier binding node, together with the facts the extractor reads
/// off it.
#[derive(Clone, Copy, Debug, PartialEq, Eq, Structural)]
pub struct BindingInfo {
    /// The name token, or `None` when it is unavailable; the binding is then
    /// silently skipped.
    pub name_token: Option<NameToken>,
    /// The owning declaration, or `None` for an identifier inside a bogus
    /// node.
    pub declaration: Option<BindingDecl>,
    /// Whether the owning declaration carries an `export` modifier.
    pub is_exported: bool,
}

/// Where a reference identifier stands in the tree, reduced to the cases the
/// extractor distinguishes.
#[derive(Clone, Copy, Debug, PartialEq, Eq, Structural)]
pub enum RefContext {
    /// The parent is a named export specifier.
    NamedExportSpecifier { exports_only_types: bool },
    /// The grandparent is a default-export expression clause or a TS export
    /// assignment clause.
    ExportDefaultOrAssignmentClause,
    /// The nearest ancestor that is not a TS qualified name is a TS reference
    /// type or a TS name with type arguments: the reference lives in the type
    /// namespace.
    TypeReference,
    /// The nearest such ancestor is a TS import-type qualifier: the reference
    /// is dropped.
    ImportTypeQualifier,
    /// Anything else: an ordinary value read.
    Plain,
}

/// A reference identifier node, together with the facts the extractor reads
/// off it.
#[derive(Clone, Copy, Debug, PartialEq, Eq, Structural)]
pub struct UsageInfo {
    /// The value token, or `None` when it is unavailable; the usage is then
    /// silently skipped.
    pub name_token: Option<NameToken>,
    /// Whether the token's text is the literal `this` (dropped in a plain
    /// read position, where it is a syntactic false positive of `typeof`).
    pub is_this: bool,
    /// Where the reference stands.
    pub context: RefContext,
}

/// A TS type node, with the two predicates the extractor consults.
#[derive(Clone, Copy, Debug, PartialEq, Eq, Structural)]
pub struct TypeInfo {
    /// Whether the node is the true branch of a conditional type.
    pub in_conditional_true_type: bool,
    /// Whether the node is a TS function type.
    pub is_function_type: bool,
}

/// The kinds of node the extractor reacts to. Every other kind is `Other`.
#[derive(Clone, Copy, Debug, PartialEq, Eq, Structural)]
pub enum NodeKind {
    Module,
    Script,
    FunctionDeclaration,
    FunctionExpression,
    ArrowFunctionExpression,
    ConstructorClassMember,
    MethodClassMember,
    GetterClassMember,
    SetterClassMember,
    MethodObjectMember,
    GetterObjectMember,
    SetterObjectMember,
    FunctionExportDefaultDeclaration,
    ClassDeclaration,
    ClassExportDefaultDeclaration,
    ClassExpression,
    FunctionBody,
    StaticInitializationBlockClassMember,
    TsModuleDeclaration,
    TsExternalModuleDeclaration,
    TsInterfaceDeclaration,
    TsEnumDeclaration,
    TsTypeAliasDeclaration,
    TsDeclareFunctionDeclaration,
    TsDeclareFunctionExportDefaultDeclaration,
    BlockStatement,
    ForStatement,
    ForOfStatement,
    ForInStatement,
    SwitchStatement,
    CatchClause,
    /// `JsIdentifierBinding`, `TsIdentifierBinding` or `TsTypeParameterName`.
    IdentifierBinding(BindingInfo),
    /// `JsReferenceIdentifier`.
    ReferenceIdentifier(UsageInfo),
    /// `JsxReferenceIdentifier`: always a value read.
    JsxReferenceIdentifier(Option<NameToken>),
    /// `JsIdentifierAssignment`: always a value write.
    IdentifierAssignment(Option<NameToken>),
    /// Any TS type node.
    TsType(TypeInfo),
    Other,
}

/// One node of the caller's tree as the extractor sees it.
#[derive(Clone, Copy, Debug, PartialEq, Eq, Structural)]
pub struct NodeInfo {
    pub kind: NodeKind,
    pub range: TextRange,
}

/// One step of a depth-first pre-order walk: each node is entered once and
/// left once, and the two steps of a node bracket the steps of its subtree.
#[derive(Clone, Copy, Debug, PartialEq, Eq, Structural)]
pub enum WalkStep {
    Enter(NodeInfo),
    Leave(NodeInfo),
}

} // verus!
