//! The mathematical model of the extractor.
//!
//! Every public operation of the extractor is specified as a function from
//! model state to model state; the executable code is proved to implement
//! these functions exactly, and the stream-level laws are proved about them.

use vstd::prelude::*;
use crate::binding::{BindingName, Reference, ScopeHoisting};
use crate::events::SemanticEvent;
use crate::syntax::{BindingDecl, BindingInfo, NameToken, NodeInfo, NodeKind, RefContext,
    TextRange, UsageInfo, WalkStep};

verus! {

/// One open scope.
#[verifier::ext_equal]
pub ghost struct ScopeModel {
    pub scope_id: usize,
    /// Names declared in this scope, in order of declaration.
    pub bindings: Seq<BindingName>,
    /// Pending references, grouped by name in first-use order; resolved when
    /// the scope closes.
    pub references: Seq<(BindingName, Seq<Reference>)>,
    /// Bindings this scope hid from an enclosing scope, restored on exit.
    pub shadowed: Seq<(BindingName, TextRange)>,
    /// Whether declarations made here belong to an enclosing scope.
    pub hoisting: ScopeHoisting,
}

/// The extractor's whole state: the event queue, the stack of open scopes,
/// the next scope id, the flat table of visible bindings, and the queue of
/// pending `infer` type parameters.
#[verifier::ext_equal]
pub ghost struct ExtractorModel {
    pub stash: Seq<SemanticEvent>,
    pub scopes: Seq<ScopeModel>,
    pub scope_count: usize,
    pub bindings: Map<BindingName, TextRange>,
    pub infers: Seq<NameToken>,
}

pub open spec fn init_model() -> ExtractorModel {
    ExtractorModel {
        stash: Seq::empty(),
        scopes: Seq::empty(),
        scope_count: 0,
        bindings: Map::empty(),
        infers: Seq::empty(),
    }
}

/// Scope ids strictly increase up the stack and stay below the counter.
pub open spec fn model_wf(m: ExtractorModel) -> bool {
    &&& forall|i: int, j: int|
        0 <= i < j < m.scopes.len() ==> m.scopes[i].scope_id < m.scopes[j].scope_id
    &&& forall|i: int| 0 <= i < m.scopes.len() ==> #[trigger] m.scopes[i].scope_id < m.scope_count
}

pub open spec fn current_scope_id(m: ExtractorModel) -> usize
    recommends
        m.scopes.len() > 0,
{
    m.scopes.last().scope_id
}

/// The id of the scope one below the top of the stack, if any: the scope a
/// declaration that opened its own scope is hoisted to.
pub open spec fn parent_scope_id(m: ExtractorModel) -> Option<usize> {
    if m.scopes.len() >= 2 {
        Some(m.scopes[m.scopes.len() - 2].scope_id)
    } else {
        None
    }
}

// ---------------------------------------------------------------------------
// Node classification
// ---------------------------------------------------------------------------

/// The scope a node opens, if it opens one: its hoisting policy and whether
/// it is a closure.
pub open spec fn scope_shape(node: NodeInfo) -> Option<(ScopeHoisting, bool)> {
    match node.kind {
        NodeKind::Module | NodeKind::Script => Some(
            (ScopeHoisting::DontHoistDeclarationsToParent, false),
        ),
        NodeKind::FunctionDeclaration
        | NodeKind::FunctionExpression
        | NodeKind::ArrowFunctionExpression
        | NodeKind::ConstructorClassMember
        | NodeKind::MethodClassMember
        | NodeKind::GetterClassMember
        | NodeKind::SetterClassMember
        | NodeKind::MethodObjectMember
        | NodeKind::GetterObjectMember
        | NodeKind::SetterObjectMember => Some(
            (ScopeHoisting::DontHoistDeclarationsToParent, true),
        ),
        NodeKind::FunctionExportDefaultDeclaration
        | NodeKind::ClassDeclaration
        | NodeKind::ClassExportDefaultDeclaration
        | NodeKind::ClassExpression
        | NodeKind::FunctionBody
        | NodeKind::StaticInitializationBlockClassMember
        | NodeKind::TsModuleDeclaration
        | NodeKind::TsExternalModuleDeclaration
        | NodeKind::TsInterfaceDeclaration
        | NodeKind::TsEnumDeclaration
        | NodeKind::TsTypeAliasDeclaration
        | NodeKind::TsDeclareFunctionDeclaration
        | NodeKind::TsDeclareFunctionExportDefaultDeclaration => Some(
            (ScopeHoisting::DontHoistDeclarationsToParent, false),
        ),
        NodeKind::BlockStatement
        | NodeKind::ForStatement
        | NodeKind::ForOfStatement
        | NodeKind::ForInStatement
        | NodeKind::SwitchStatement
        | NodeKind::CatchClause => Some((ScopeHoisting::HoistDeclarationsToParent, false)),
        NodeKind::TsType(t) => if t.in_conditional_true_type {
            Some((ScopeHoisting::DontHoistDeclarationsToParent, false))
        } else if t.is_function_type {
            Some((ScopeHoisting::DontHoistDeclarationsToParent, false))
        } else {
            None
        },
        _ => None,
    }
}

/// Whether an identifier binding reaches the current scope: bindings whose
/// facts are unavailable are skipped, and `infer` bindings are only queued.
pub open spec fn binding_needs_scope(info: BindingInfo) -> bool {
    info.name_token is Some && match info.declaration {
        Some(BindingDecl::VariableDeclarator { is_var: None }) => false,
        Some(BindingDecl::DefaultOrNamespaceImportSpecifier { clause_type_only: None }) => false,
        Some(BindingDecl::InferTypeParameter) => false,
        _ => true,
    }
}

/// Whether entering this node reads or extends the current scope, so that
/// the caller must have opened one.
pub open spec fn enter_needs_scope(node: NodeInfo) -> bool {
    match node.kind {
        NodeKind::IdentifierBinding(info) => binding_needs_scope(info),
        NodeKind::ReferenceIdentifier(info) => info.name_token is Some,
        NodeKind::JsxReferenceIdentifier(tok) => tok is Some,
        NodeKind::IdentifierAssignment(tok) => tok is Some,
        _ => false,
    }
}

// ---------------------------------------------------------------------------
// Scope opening
// ---------------------------------------------------------------------------

pub open spec fn model_push_scope(
    m: ExtractorModel,
    range: TextRange,
    hoisting: ScopeHoisting,
    is_closure: bool,
) -> ExtractorModel {
    let scope_id = m.scope_count;
    let parent = if m.scopes.len() > 0 {
        Some(current_scope_id(m))
    } else {
        None
    };
    ExtractorModel {
        stash: m.stash.push(
            SemanticEvent::ScopeStarted { range, scope_id, parent_scope_id: parent, is_closure },
        ),
        scopes: m.scopes.push(
            ScopeModel {
                scope_id,
                bindings: Seq::empty(),
                references: Seq::empty(),
                shadowed: Seq::empty(),
                hoisting,
            },
        ),
        scope_count: (m.scope_count + 1) as usize,
        ..m
    }
}

// ---------------------------------------------------------------------------
// Hoisting
// ---------------------------------------------------------------------------

/// The id of the topmost scope of the stack that does not hoist its
/// declarations to its parent.
pub open spec fn find_no_hoist(scopes: Seq<ScopeModel>) -> Option<usize>
    decreases scopes.len(),
{
    if scopes.len() == 0 {
        None
    } else if scopes.last().hoisting is DontHoistDeclarationsToParent {
        Some(scopes.last().scope_id)
    } else {
        find_no_hoist(scopes.drop_last())
    }
}

/// The scope a hoisted declaration belongs to: the nearest enclosing
/// non-hoisting scope, skipping `skip` scopes from the top, and `None` when
/// that search lands back on the current scope.
pub open spec fn hoist_target(scopes: Seq<ScopeModel>, skip: int) -> Option<usize> {
    let considered = if skip <= scopes.len() {
        scopes.take(scopes.len() - skip)
    } else {
        Seq::empty()
    };
    match find_no_hoist(considered) {
        Some(id) => if scopes.len() > 0 && scopes.last().scope_id == id {
            None
        } else {
            Some(id)
        },
        None => None,
    }
}

/// The position of the scope with the given id, scanning from the top;
/// `-1` when absent.
pub open spec fn scope_index_of(scopes: Seq<ScopeModel>, id: usize) -> int
    decreases scopes.len(),
{
    if scopes.len() == 0 {
        -1
    } else if scopes.last().scope_id == id {
        scopes.len() - 1
    } else {
        scope_index_of(scopes.drop_last(), id)
    }
}

// ---------------------------------------------------------------------------
// Binding declaration
// ---------------------------------------------------------------------------

/// Records a binding in the hoisted scope if one is given, else in the
/// current scope: the name is appended to that scope's binding list, the
/// flat table is updated, and a binding the new one hides is pushed onto
/// that scope's undo log.
pub open spec fn model_push_binding(
    m: ExtractorModel,
    hoisted_scope_id: Option<usize>,
    name: BindingName,
    name_range: TextRange,
) -> ExtractorModel {
    let target = match hoisted_scope_id {
        Some(id) => id,
        None => current_scope_id(m),
    };
    let idx = scope_index_of(m.scopes, target);
    if idx < 0 {
        m
    } else {
        let sc = m.scopes[idx];
        let shadowed = if m.bindings.contains_key(name) {
            sc.shadowed.push((name, m.bindings[name]))
        } else {
            sc.shadowed
        };
        let sc2 = ScopeModel { bindings: sc.bindings.push(name), shadowed, ..sc };
        ExtractorModel {
            scopes: m.scopes.update(idx, sc2),
            bindings: m.bindings.insert(name, name_range),
            ..m
        }
    }
}

/// Appends the `DeclarationFound` event for a binding, and the `Exported`
/// event after it when the declaration is exported.
pub open spec fn with_declaration_event(
    m: ExtractorModel,
    tok: NameToken,
    hoisted_scope_id: Option<usize>,
    is_exported: bool,
    node_range: TextRange,
) -> ExtractorModel {
    let stash = m.stash.push(
        SemanticEvent::DeclarationFound {
            name_token: tok,
            scope_id: current_scope_id(m),
            hoisted_scope_id,
        },
    );
    let stash = if is_exported {
        stash.push(SemanticEvent::Exported { range: node_range })
    } else {
        stash
    };
    ExtractorModel { stash, ..m }
}

/// A dual declaration: the same token binds the name in both namespaces.
pub open spec fn model_push_dual(
    m: ExtractorModel,
    hoisted_scope_id: Option<usize>,
    sym: u32,
    name_range: TextRange,
) -> ExtractorModel {
    let m2 = model_push_binding(m, hoisted_scope_id, BindingName::Value(sym), name_range);
    model_push_binding(m2, hoisted_scope_id, BindingName::Type(sym), name_range)
}

/// An import binding: type-only imports bind the type namespace alone,
/// value imports bind both namespaces.
pub open spec fn model_push_import(
    m: ExtractorModel,
    type_only: bool,
    sym: u32,
    name_range: TextRange,
) -> ExtractorModel {
    if type_only {
        model_push_binding(m, None, BindingName::Type(sym), name_range)
    } else {
        model_push_dual(m, None, sym, name_range)
    }
}

/// What entering an identifier binding does, by the group of its owning
/// declaration.
pub open spec fn model_enter_binding(
    m: ExtractorModel,
    info: BindingInfo,
    node_range: TextRange,
) -> ExtractorModel {
    match info.name_token {
        None => m,
        Some(tok) => {
            let sym = tok.sym;
            let name_range = tok.range;
            match info.declaration {
                None => with_declaration_event(
                    model_push_binding(m, None, BindingName::Value(sym), name_range),
                    tok,
                    None,
                    false,
                    node_range,
                ),
                Some(decl) => match decl {
                    BindingDecl::VariableDeclarator { is_var: None } => m,
                    BindingDecl::VariableDeclarator { is_var: Some(is_var) } => {
                        let hoisted = if is_var {
                            hoist_target(m.scopes, 0)
                        } else {
                            None
                        };
                        with_declaration_event(
                            model_push_binding(m, hoisted, BindingName::Value(sym), name_range),
                            tok,
                            hoisted,
                            info.is_exported,
                            node_range,
                        )
                    },
                    BindingDecl::FunctionDeclaration => {
                        let hoisted = hoist_target(m.scopes, 1);
                        with_declaration_event(
                            model_push_binding(m, hoisted, BindingName::Value(sym), name_range),
                            tok,
                            hoisted,
                            info.is_exported,
                            node_range,
                        )
                    },
                    BindingDecl::FunctionOrClassExpression => with_declaration_event(
                        model_push_dual(m, None, sym, name_range),
                        tok,
                        None,
                        info.is_exported,
                        node_range,
                    ),
                    BindingDecl::ClassOrEnumDeclaration => {
                        let hoisted = parent_scope_id(m);
                        with_declaration_event(
                            model_push_dual(m, hoisted, sym, name_range),
                            tok,
                            hoisted,
                            info.is_exported,
                            node_range,
                        )
                    },
                    BindingDecl::InterfaceOrTypeAlias => {
                        let hoisted = parent_scope_id(m);
                        with_declaration_event(
                            model_push_binding(m, hoisted, BindingName::Type(sym), name_range),
                            tok,
                            hoisted,
                            info.is_exported,
                            node_range,
                        )
                    },
                    BindingDecl::ModuleDeclaration => {
                        let hoisted = parent_scope_id(m);
                        with_declaration_event(
                            model_push_binding(m, hoisted, BindingName::Value(sym), name_range),
                            tok,
                            hoisted,
                            info.is_exported,
                            node_range,
                        )
                    },
                    BindingDecl::MappedTypeOrTypeParameter => with_declaration_event(
                        model_push_binding(m, None, BindingName::Type(sym), name_range),
                        tok,
                        None,
                        info.is_exported,
                        node_range,
                    ),
                    BindingDecl::ImportClause { type_only } => with_declaration_event(
                        model_push_import(m, type_only, sym, name_range),
                        tok,
                        None,
                        info.is_exported,
                        node_range,
                    ),
                    BindingDecl::DefaultOrNamespaceImportSpecifier { clause_type_only: None } => m,
                    BindingDecl::DefaultOrNamespaceImportSpecifier {
                        clause_type_only: Some(type_only),
                    } => with_declaration_event(
                        model_push_import(m, type_only, sym, name_range),
                        tok,
                        None,
                        info.is_exported,
                        node_range,
                    ),
                    BindingDecl::NamedImportSpecifier { imports_only_types } =>
                        with_declaration_event(
                        model_push_import(m, imports_only_types, sym, name_range),
                        tok,
                        None,
                        info.is_exported,
                        node_range,
                    ),
                    BindingDecl::Parameter => with_declaration_event(
                        model_push_binding(m, None, BindingName::Value(sym), name_range),
                        tok,
                        None,
                        info.is_exported,
                        node_range,
                    ),
                    BindingDecl::InferTypeParameter => ExtractorModel {
                        infers: m.infers.push(tok),
                        ..m
                    },
                },
            }
        },
    }
}

// ---------------------------------------------------------------------------
// References
// ---------------------------------------------------------------------------

/// Appends a reference to the entry of `name`, first use of the name opening
/// a new entry at the end.
pub open spec fn refs_push(
    s: Seq<(BindingName, Seq<Reference>)>,
    name: BindingName,
    r: Reference,
) -> Seq<(BindingName, Seq<Reference>)>
    decreases s.len(),
{
    if s.len() == 0 {
        seq![(name, seq![r])]
    } else if s[0].0 == name {
        seq![(s[0].0, s[0].1.push(r))] + s.skip(1)
    } else {
        seq![s[0]] + refs_push(s.skip(1), name, r)
    }
}

/// Appends a whole group of references to the entry of `name`, as promotion
/// from a closing scope does.
pub open spec fn refs_append(
    s: Seq<(BindingName, Seq<Reference>)>,
    name: BindingName,
    refs: Seq<Reference>,
) -> Seq<(BindingName, Seq<Reference>)>
    decreases s.len(),
{
    if s.len() == 0 {
        seq![(name, refs)]
    } else if s[0].0 == name {
        seq![(s[0].0, s[0].1 + refs)] + s.skip(1)
    } else {
        seq![s[0]] + refs_append(s.skip(1), name, refs)
    }
}

/// Records a pending reference in the current scope.
pub open spec fn model_push_reference(
    m: ExtractorModel,
    name: BindingName,
    r: Reference,
) -> ExtractorModel {
    if m.scopes.len() == 0 {
        m
    } else {
        let top = m.scopes.last();
        let top2 = ScopeModel { references: refs_push(top.references, name, r), ..top };
        ExtractorModel { scopes: m.scopes.update(m.scopes.len() - 1, top2), ..m }
    }
}

/// What entering a reference identifier does, by where the reference stands.
pub open spec fn model_enter_reference(
    m: ExtractorModel,
    info: UsageInfo,
    range: TextRange,
) -> ExtractorModel {
    match info.name_token {
        None => m,
        Some(tok) => {
            let sym = tok.sym;
            match info.context {
                RefContext::NamedExportSpecifier { exports_only_types } => if exports_only_types {
                    model_push_reference(m, BindingName::Type(sym), Reference::ExportType(range))
                } else {
                    model_push_reference(
                        model_push_reference(
                            m,
                            BindingName::Value(sym),
                            Reference::Export(range),
                        ),
                        BindingName::Type(sym),
                        Reference::Export(range),
                    )
                },
                RefContext::ExportDefaultOrAssignmentClause => model_push_reference(
                    model_push_reference(m, BindingName::Value(sym), Reference::Export(range)),
                    BindingName::Type(sym),
                    Reference::Export(range),
                ),
                _ => if info.is_this {
                    m
                } else {
                    match info.context {
                        RefContext::TypeReference => model_push_reference(
                            m,
                            BindingName::Type(sym),
                            Reference::Read(range),
                        ),
                        RefContext::ImportTypeQualifier => m,
                        _ => model_push_reference(
                            m,
                            BindingName::Value(sym),
                            Reference::Read(range),
                        ),
                    }
                },
            }
        },
    }
}

// ---------------------------------------------------------------------------
// Scope closing
// ---------------------------------------------------------------------------

/// The event a resolved reference becomes: a read or write, hoisted when the
/// declaration does not stand textually before the reference.
pub open spec fn resolution_event(
    r: Reference,
    declared_at: TextRange,
    scope_id: usize,
) -> SemanticEvent {
    let range = r.spec_range();
    let declaration_before_reference = declared_at.start < range.start;
    if r.spec_is_write() {
        if declaration_before_reference {
            SemanticEvent::Write { range, declared_at, scope_id }
        } else {
            SemanticEvent::HoistedWrite { range, declared_at, scope_id }
        }
    } else {
        if declaration_before_reference {
            SemanticEvent::Read { range, declared_at, scope_id }
        } else {
            SemanticEvent::HoistedRead { range, declared_at, scope_id }
        }
    }
}

/// The events one resolved reference contributes: export references are
/// preceded by their `Exported` event, whose range is the declaration.
pub open spec fn events_for_ref(
    r: Reference,
    declared_at: TextRange,
    scope_id: usize,
) -> Seq<SemanticEvent> {
    if r.spec_is_export() {
        seq![
            SemanticEvent::Exported { range: declared_at },
            resolution_event(r, declared_at, scope_id),
        ]
    } else {
        seq![resolution_event(r, declared_at, scope_id)]
    }
}

pub open spec fn events_for_refs(
    refs: Seq<Reference>,
    declared_at: TextRange,
    scope_id: usize,
) -> Seq<SemanticEvent>
    decreases refs.len(),
{
    if refs.len() == 0 {
        Seq::empty()
    } else {
        events_for_ref(refs[0], declared_at, scope_id) + events_for_refs(
            refs.skip(1),
            declared_at,
            scope_id,
        )
    }
}

/// Whether the opposite namespace of `name` is bound: an export reference
/// that fails to resolve is suppressed when its dual is bound, since the
/// export is covered by the dual binding.
pub open spec fn dual_bound(table: Map<BindingName, TextRange>, name: BindingName) -> bool {
    table.contains_key(name.spec_dual())
}

/// The unresolved-reference events of one name's pending references at the
/// outermost scope.
pub open spec fn unresolved_events(refs: Seq<Reference>, has_dual: bool) -> Seq<SemanticEvent>
    decreases refs.len(),
{
    if refs.len() == 0 {
        Seq::empty()
    } else {
        let rest = unresolved_events(refs.skip(1), has_dual);
        if has_dual && refs[0].spec_is_export() {
            rest
        } else {
            seq![
                SemanticEvent::UnresolvedReference {
                    is_read: !refs[0].spec_is_write(),
                    range: refs[0].spec_range(),
                },
            ] + rest
        }
    }
}

/// Resolves the pending references of a closing scope, entry by entry in
/// order. A name bound in the flat table resolves each of its references to
/// events; an unbound name is promoted to the enclosing scope; at the
/// outermost scope its references become unresolved-reference events, export
/// references with a bound dual excepted. Returns the remaining stack (the
/// enclosing scope may have gained promoted references) and the stash.
pub open spec fn close_entries(
    entries: Seq<(BindingName, Seq<Reference>)>,
    table: Map<BindingName, TextRange>,
    scope_id: usize,
    scopes: Seq<ScopeModel>,
    stash: Seq<SemanticEvent>,
) -> (Seq<ScopeModel>, Seq<SemanticEvent>)
    decreases entries.len(),
{
    if entries.len() == 0 {
        (scopes, stash)
    } else {
        let name = entries[0].0;
        let refs = entries[0].1;
        if table.contains_key(name) {
            close_entries(
                entries.skip(1),
                table,
                scope_id,
                scopes,
                stash + events_for_refs(refs, table[name], scope_id),
            )
        } else if scopes.len() > 0 {
            let parent = scopes.last();
            let parent2 = ScopeModel {
                references: refs_append(parent.references, name, refs),
                ..parent
            };
            close_entries(
                entries.skip(1),
                table,
                scope_id,
                scopes.update(scopes.len() - 1, parent2),
                stash,
            )
        } else {
            close_entries(
                entries.skip(1),
                table,
                scope_id,
                scopes,
                stash + unresolved_events(refs, dual_bound(table, name)),
            )
        }
    }
}

/// Unbinds every name a closing scope declared.
pub open spec fn remove_all(
    table: Map<BindingName, TextRange>,
    names: Seq<BindingName>,
) -> Map<BindingName, TextRange>
    decreases names.len(),
{
    if names.len() == 0 {
        table
    } else {
        remove_all(table.remove(names[0]), names.skip(1))
    }
}

/// Re-binds every entry of a closing scope's undo log, in order.
pub open spec fn restore_all(
    table: Map<BindingName, TextRange>,
    entries: Seq<(BindingName, TextRange)>,
) -> Map<BindingName, TextRange>
    decreases entries.len(),
{
    if entries.len() == 0 {
        table
    } else {
        restore_all(table.insert(entries[0].0, entries[0].1), entries.skip(1))
    }
}

/// What closing the innermost scope does: resolve or promote its pending
/// references, uninstall its bindings, restore what they shadowed, and end
/// the scope.
pub open spec fn model_pop_scope(m: ExtractorModel, range: TextRange) -> ExtractorModel {
    if m.scopes.len() == 0 {
        m
    } else {
        let scope = m.scopes.last();
        let rest = m.scopes.drop_last();
        let closed = close_entries(scope.references, m.bindings, scope.scope_id, rest, m.stash);
        let table = restore_all(remove_all(m.bindings, scope.bindings), scope.shadowed);
        ExtractorModel {
            stash: closed.1.push(
                SemanticEvent::ScopeEnded { range, scope_id: scope.scope_id },
            ),
            scopes: closed.0,
            bindings: table,
            ..m
        }
    }
}

// ---------------------------------------------------------------------------
// Conditional-true scopes and `infer` drainage
// ---------------------------------------------------------------------------

/// Declares the queued `infer T` type parameters in the just-opened
/// conditional-true scope, in queue order.
pub open spec fn drain_infers(m: ExtractorModel, infers: Seq<NameToken>) -> ExtractorModel
    decreases infers.len(),
{
    if infers.len() == 0 {
        m
    } else {
        let tok = infers[0];
        let m2 = model_push_binding(m, None, BindingName::Type(tok.sym), tok.range);
        let m3 = ExtractorModel {
            stash: m2.stash.push(
                SemanticEvent::DeclarationFound {
                    name_token: tok,
                    scope_id: current_scope_id(m2),
                    hoisted_scope_id: None,
                },
            ),
            ..m2
        };
        drain_infers(m3, infers.skip(1))
    }
}

/// Opening the true branch of a conditional type: a fresh non-hoisting scope
/// that then receives every pending `infer` declaration; the queue is then
/// empty.
pub open spec fn model_enter_conditional_true(m: ExtractorModel, range: TextRange)
    -> ExtractorModel {
    let m2 = model_push_scope(m, range, ScopeHoisting::DontHoistDeclarationsToParent, false);
    let m3 = drain_infers(m2, m.infers);
    ExtractorModel { infers: Seq::empty(), ..m3 }
}

// ---------------------------------------------------------------------------
// The two dispatchers and whole runs
// ---------------------------------------------------------------------------

/// What entering a node does.
pub open spec fn enter_spec(m: ExtractorModel, node: NodeInfo) -> ExtractorModel {
    match node.kind {
        NodeKind::IdentifierBinding(info) => model_enter_binding(m, info, node.range),
        NodeKind::ReferenceIdentifier(info) => model_enter_reference(m, info, node.range),
        NodeKind::JsxReferenceIdentifier(tok) => match tok {
            None => m,
            Some(t) => model_push_reference(
                m,
                BindingName::Value(t.sym),
                Reference::Read(node.range),
            ),
        },
        NodeKind::IdentifierAssignment(tok) => match tok {
            None => m,
            Some(t) => model_push_reference(
                m,
                BindingName::Value(t.sym),
                Reference::Write(node.range),
            ),
        },
        NodeKind::TsType(t) => if t.in_conditional_true_type {
            model_enter_conditional_true(m, node.range)
        } else if t.is_function_type {
            model_push_scope(m, node.range, ScopeHoisting::DontHoistDeclarationsToParent, false)
        } else {
            m
        },
        _ => match scope_shape(node) {
            Some(shape) => model_push_scope(m, node.range, shape.0, shape.1),
            None => m,
        },
    }
}

/// What leaving a node does: exactly the nodes that open a scope close one.
pub open spec fn leave_spec(m: ExtractorModel, node: NodeInfo) -> ExtractorModel {
    if scope_shape(node) is Some {
        model_pop_scope(m, node.range)
    } else {
        m
    }
}

pub open spec fn step_spec(m: ExtractorModel, step: WalkStep) -> ExtractorModel {
    match step {
        WalkStep::Enter(node) => enter_spec(m, node),
        WalkStep::Leave(node) => leave_spec(m, node),
    }
}

/// The conditions under which a step neither underflows the scope stack nor
/// overflows the scope counter: what a well-formed caller walk guarantees.
pub open spec fn step_ok(m: ExtractorModel, step: WalkStep) -> bool {
    match step {
        WalkStep::Enter(node) => {
            &&& enter_needs_scope(node) ==> m.scopes.len() > 0
            &&& scope_shape(node) is Some ==> m.scope_count < usize::MAX
        },
        WalkStep::Leave(node) => scope_shape(node) is Some ==> m.scopes.len() > 0,
    }
}

/// The state after feeding a whole walk.
pub open spec fn run_model(m: ExtractorModel, walk: Seq<WalkStep>) -> ExtractorModel
    decreases walk.len(),
{
    if walk.len() == 0 {
        m
    } else {
        run_model(step_spec(m, walk[0]), walk.skip(1))
    }
}

/// Every step of the walk meets its conditions when its turn comes.
pub open spec fn run_ok(m: ExtractorModel, walk: Seq<WalkStep>) -> bool
    decreases walk.len(),
{
    if walk.len() == 0 {
        true
    } else {
        step_ok(m, walk[0]) && run_ok(step_spec(m, walk[0]), walk.skip(1))
    }
}


// ---------------------------------------------------------------------------
// Lemmas aligning the recursive definitions with forward scans
// ---------------------------------------------------------------------------

/// `refs_push` with the key present updates the first entry carrying it.
pub proof fn lemma_refs_push_found(
    s: Seq<(BindingName, Seq<Reference>)>,
    name: BindingName,
    r: Reference,
    i: int,
)
    requires
        0 <= i < s.len(),
        s[i].0 == name,
        forall|j: int| 0 <= j < i ==> s[j].0 != name,
    ensures
        refs_push(s, name, r) =~= s.update(i, (s[i].0, s[i].1.push(r))),
    decreases i,
{
    if i == 0 {
        assert(refs_push(s, name, r) =~= s.update(0, (s[0].0, s[0].1.push(r))));
    } else {
        lemma_refs_push_found(s.skip(1), name, r, i - 1);
        assert(refs_push(s, name, r) =~= s.update(i, (s[i].0, s[i].1.push(r))));
    }
}

/// `refs_push` with the key absent opens a new entry at the end.
pub proof fn lemma_refs_push_absent(
    s: Seq<(BindingName, Seq<Reference>)>,
    name: BindingName,
    r: Reference,
)
    requires
        forall|j: int| 0 <= j < s.len() ==> s[j].0 != name,
    ensures
        refs_push(s, name, r) =~= s.push((name, seq![r])),
    decreases s.len(),
{
    if s.len() > 0 {
        lemma_refs_push_absent(s.skip(1), name, r);
        assert(refs_push(s, name, r) =~= s.push((name, seq![r])));
    }
}

/// `refs_append` with the key present extends the first entry carrying it.
pub proof fn lemma_refs_append_found(
    s: Seq<(BindingName, Seq<Reference>)>,
    name: BindingName,
    refs: Seq<Reference>,
    i: int,
)
    requires
        0 <= i < s.len(),
        s[i].0 == name,
        forall|j: int| 0 <= j < i ==> s[j].0 != name,
    ensures
        refs_append(s, name, refs) =~= s.update(i, (s[i].0, s[i].1 + refs)),
    decreases i,
{
    if i == 0 {
        assert(refs_append(s, name, refs) =~= s.update(0, (s[0].0, s[0].1 + refs)));
    } else {
        lemma_refs_append_found(s.skip(1), name, refs, i - 1);
        assert(refs_append(s, name, refs) =~= s.update(i, (s[i].0, s[i].1 + refs)));
    }
}

/// `refs_append` with the key absent opens a new entry at the end.
pub proof fn lemma_refs_append_absent(
    s: Seq<(BindingName, Seq<Reference>)>,
    name: BindingName,
    refs: Seq<Reference>,
)
    requires
        forall|j: int| 0 <= j < s.len() ==> s[j].0 != name,
    ensures
        refs_append(s, name, refs) =~= s.push((name, refs)),
    decreases s.len(),
{
    if s.len() > 0 {
        lemma_refs_append_absent(s.skip(1), name, refs);
        assert(refs_append(s, name, refs) =~= s.push((name, refs)));
    }
}

/// `scope_index_of` finds an index exactly when the id is on the stack, and
/// the index it reports carries the id.
pub proof fn lemma_scope_index_of(scopes: Seq<ScopeModel>, id: usize)
    ensures
        scope_index_of(scopes, id) >= 0 <==> exists|j: int|
            0 <= j < scopes.len() && scopes[j].scope_id == id,
        scope_index_of(scopes, id) < scopes.len(),
        scope_index_of(scopes, id) >= 0 ==> scopes[scope_index_of(scopes, id)].scope_id == id,
    decreases scopes.len(),
{
    if scopes.len() > 0 && scopes.last().scope_id != id {
        lemma_scope_index_of(scopes.drop_last(), id);
        if scope_index_of(scopes, id) >= 0 {
            let j = scope_index_of(scopes.drop_last(), id);
            assert(scopes[j].scope_id == id);
        } else if exists|j: int| 0 <= j < scopes.len() && scopes[j].scope_id == id {
            let j = choose|j: int| 0 <= j < scopes.len() && scopes[j].scope_id == id;
            assert(scopes.drop_last()[j].scope_id == id);
        }
    }
}

/// With pairwise distinct ids, the index found from the top is the only one.
pub proof fn lemma_scope_index_unique(scopes: Seq<ScopeModel>, i: int)
    requires
        forall|a: int, b: int|
            0 <= a < b < scopes.len() ==> scopes[a].scope_id != scopes[b].scope_id,
        0 <= i < scopes.len(),
    ensures
        scope_index_of(scopes, scopes[i].scope_id) == i,
    decreases scopes.len(),
{
    if i < scopes.len() - 1 {
        assert(scopes.last().scope_id != scopes[i].scope_id);
        assert(forall|a: int, b: int|
            0 <= a < b < scopes.drop_last().len() ==> scopes.drop_last()[a].scope_id
                != scopes.drop_last()[b].scope_id);
        lemma_scope_index_unique(scopes.drop_last(), i);
        assert(scopes.drop_last()[i] == scopes[i]);
    }
}

/// The id `find_no_hoist` reports belongs to a scope of the stack.
pub proof fn lemma_find_no_hoist_exists(scopes: Seq<ScopeModel>)
    ensures
        find_no_hoist(scopes) matches Some(id) ==> exists|j: int|
            0 <= j < scopes.len() && scopes[j].scope_id == id,
    decreases scopes.len(),
{
    if scopes.len() > 0 && !(scopes.last().hoisting is DontHoistDeclarationsToParent) {
        lemma_find_no_hoist_exists(scopes.drop_last());
        match find_no_hoist(scopes) {
            Some(id) => {
                let j = choose|j: int|
                    0 <= j < scopes.drop_last().len() && scopes.drop_last()[j].scope_id == id;
                assert(scopes[j].scope_id == id);
            },
            None => {},
        }
    }
}

/// Running one more step of a walk is one step on the state so far.
pub proof fn lemma_run_step(m: ExtractorModel, walk: Seq<WalkStep>, i: int)
    requires
        0 <= i < walk.len(),
    ensures
        run_model(m, walk.take(i + 1)) == step_spec(run_model(m, walk.take(i)), walk[i]),
    decreases i,
{
    if i == 0 {
        assert(walk.take(1).skip(1) =~= Seq::<WalkStep>::empty());
        assert(walk.take(0) =~= Seq::<WalkStep>::empty());
        assert(walk.take(1)[0] == walk[0]);
        assert(run_model(m, walk.take(1)) == run_model(
            step_spec(m, walk[0]),
            walk.take(1).skip(1),
        ));
        assert(run_model(m, walk.take(0)) == m);
    } else {
        let m2 = step_spec(m, walk[0]);
        lemma_run_step(m2, walk.skip(1), i - 1);
        assert(walk.take(i + 1)[0] == walk[0]);
        assert(walk.take(i)[0] == walk[0]);
        assert(walk.take(i + 1).skip(1) =~= walk.skip(1).take(i));
        assert(walk.take(i).skip(1) =~= walk.skip(1).take(i - 1));
        assert(walk.skip(1)[i - 1] == walk[i]);
        assert(run_model(m, walk.take(i + 1)) == run_model(m2, walk.take(i + 1).skip(1)));
        assert(run_model(m, walk.take(i)) == run_model(m2, walk.take(i).skip(1)));
        assert(run_model(m2, walk.skip(1).take(i)) == step_spec(
            run_model(m2, walk.skip(1).take(i - 1)),
            walk.skip(1)[i - 1],
        ));
    }
}

/// On a walk every step of which is in order, the step conditions hold at
/// each position of the run.
pub proof fn lemma_run_ok_step(m: ExtractorModel, walk: Seq<WalkStep>, i: int)
    requires
        run_ok(m, walk),
        0 <= i < walk.len(),
    ensures
        step_ok(run_model(m, walk.take(i)), walk[i]),
    decreases i,
{
    if i == 0 {
        assert(walk.take(0) =~= Seq::<WalkStep>::empty());
    } else {
        let m2 = step_spec(m, walk[0]);
        assert(step_ok(m, walk[0]) && run_ok(m2, walk.skip(1)));
        lemma_run_ok_step(m2, walk.skip(1), i - 1);
        assert(walk.skip(1)[i - 1] == walk[i]);
        assert(walk.skip(1).take(i - 1) =~= walk.take(i).skip(1));
        assert(walk.take(i)[0] == walk[0]);
        assert(run_model(m, walk.take(i)) == run_model(m2, walk.take(i).skip(1)));
    }
}


/// The id `hoist_target` reports belongs to a scope of the stack.
pub proof fn lemma_hoist_target_exists(scopes: Seq<ScopeModel>, skip: int)
    requires
        skip >= 0,
    ensures
        hoist_target(scopes, skip) matches Some(id) ==> scope_index_of(scopes, id) >= 0,
{
    let considered = if skip <= scopes.len() {
        scopes.take(scopes.len() - skip)
    } else {
        Seq::empty()
    };
    lemma_find_no_hoist_exists(considered);
    match find_no_hoist(considered) {
        Some(id) => {
            let j = choose|j: int| 0 <= j < considered.len() && considered[j].scope_id == id;
            assert(scopes[j].scope_id == id);
            lemma_scope_index_of(scopes, id);
        },
        None => {},
    }
}


/// Removing one more name at the end composes with `remove_all`.
pub proof fn lemma_remove_all_snoc(
    table: Map<BindingName, TextRange>,
    names: Seq<BindingName>,
    name: BindingName,
)
    ensures
        remove_all(table, names.push(name)) == remove_all(table, names).remove(name),
    decreases names.len(),
{
    if names.len() == 0 {
        assert(names.push(name)[0] == name);
        assert(names.push(name).skip(1) =~= Seq::<BindingName>::empty());
        assert(remove_all(table.remove(name), names.push(name).skip(1)) == table.remove(name));
        assert(remove_all(table, names.push(name)) == table.remove(name));
        assert(remove_all(table, names) == table);
    } else {
        assert(names.push(name)[0] == names[0]);
        assert(names.push(name).skip(1) =~= names.skip(1).push(name));
        lemma_remove_all_snoc(table.remove(names[0]), names.skip(1), name);
        assert(remove_all(table, names.push(name)) == remove_all(
            table.remove(names[0]),
            names.skip(1).push(name),
        ));
        assert(remove_all(table, names) == remove_all(table.remove(names[0]), names.skip(1)));
    }
}

/// Restoring one more entry at the end composes with `restore_all`.
pub proof fn lemma_restore_all_snoc(
    table: Map<BindingName, TextRange>,
    entries: Seq<(BindingName, TextRange)>,
    entry: (BindingName, TextRange),
)
    ensures
        restore_all(table, entries.push(entry)) == restore_all(table, entries).insert(
            entry.0,
            entry.1,
        ),
    decreases entries.len(),
{
    if entries.len() == 0 {
        assert(entries.push(entry)[0] == entry);
        assert(entries.push(entry).skip(1) =~= Seq::<(BindingName, TextRange)>::empty());
        assert(restore_all(table.insert(entry.0, entry.1), entries.push(entry).skip(1))
            == table.insert(entry.0, entry.1));
        assert(restore_all(table, entries.push(entry)) == table.insert(entry.0, entry.1));
        assert(restore_all(table, entries) == table);
    } else {
        assert(entries.push(entry)[0] == entries[0]);
        assert(entries.push(entry).skip(1) =~= entries.skip(1).push(entry));
        lemma_restore_all_snoc(
            table.insert(entries[0].0, entries[0].1),
            entries.skip(1),
            entry,
        );
        assert(restore_all(table, entries.push(entry)) == restore_all(
            table.insert(entries[0].0, entries[0].1),
            entries.skip(1).push(entry),
        ));
        assert(restore_all(table, entries) == restore_all(
            table.insert(entries[0].0, entries[0].1),
            entries.skip(1),
        ));
    }
}

/// Under `model_wf`, the scope ids of the stack are pairwise distinct.
pub proof fn lemma_wf_distinct_ids(m: ExtractorModel)
    requires
        model_wf(m),
    ensures
        forall|a: int, b: int|
            0 <= a < b < m.scopes.len() ==> m.scopes[a].scope_id != m.scopes[b].scope_id,
{
}

} // verus!
