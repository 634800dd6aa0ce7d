//! End-to-end scenarios: walks shaped like pre-order traversals of small
//! JavaScript/TypeScript trees, checked against the exact event streams.

use js_semantic::binding::BindingName;
use js_semantic::events::SemanticEvent;
use js_semantic::extractor::semantic_events;
use js_semantic::syntax::{BindingDecl, BindingInfo, NameToken, NodeInfo, NodeKind, RefContext,
    TextRange, TypeInfo, UsageInfo, WalkStep};

fn r(start: u32, end: u32) -> TextRange {
    TextRange { start, end }
}

fn t(sym: u32, start: u32, end: u32) -> NameToken {
    NameToken { sym, range: r(start, end) }
}

fn node(kind: NodeKind, start: u32, end: u32) -> NodeInfo {
    NodeInfo { kind, range: r(start, end) }
}

fn binding(decl: Option<BindingDecl>, tok: NameToken, exported: bool, start: u32, end: u32)
    -> NodeInfo {
    node(
        NodeKind::IdentifierBinding(
            BindingInfo { name_token: Some(tok), declaration: decl, is_exported: exported },
        ),
        start,
        end,
    )
}

fn reference(ctx: RefContext, tok: NameToken, start: u32, end: u32) -> NodeInfo {
    node(
        NodeKind::ReferenceIdentifier(
            UsageInfo { name_token: Some(tok), is_this: false, context: ctx },
        ),
        start,
        end,
    )
}

fn both(walk: &mut Vec<WalkStep>, n: NodeInfo) {
    walk.push(WalkStep::Enter(n));
    walk.push(WalkStep::Leave(n));
}

/// `function f(){ if (true) { var a; a = 1; } a; }`: the `var` declaration
/// hoists to the function body; the write resolves in the block, the read in
/// the body, both against the same declaration.
#[test]
fn var_hoisting() {
    let f = 1u32;
    let a = 2u32;
    let script = node(NodeKind::Script, 0, 50);
    let func = node(NodeKind::FunctionDeclaration, 0, 48);
    let f_bind = binding(Some(BindingDecl::FunctionDeclaration), t(f, 9, 10), false, 9, 10);
    let body = node(NodeKind::FunctionBody, 11, 48);
    let block = node(NodeKind::BlockStatement, 17, 38);
    let a_bind = binding(
        Some(BindingDecl::VariableDeclarator { is_var: Some(true) }),
        t(a, 25, 26),
        false,
        25,
        26,
    );
    let a_write = node(NodeKind::IdentifierAssignment(Some(t(a, 28, 29))), 28, 29);
    let a_read = reference(RefContext::Plain, t(a, 40, 41), 40, 41);

    let mut walk: Vec<WalkStep> = Vec::new();
    walk.push(WalkStep::Enter(script));
    walk.push(WalkStep::Enter(func));
    both(&mut walk, f_bind);
    walk.push(WalkStep::Enter(body));
    walk.push(WalkStep::Enter(block));
    both(&mut walk, a_bind);
    both(&mut walk, a_write);
    walk.push(WalkStep::Leave(block));
    both(&mut walk, a_read);
    walk.push(WalkStep::Leave(body));
    walk.push(WalkStep::Leave(func));
    walk.push(WalkStep::Leave(script));

    let events = semantic_events(&walk);
    let expected = vec![
        SemanticEvent::ScopeStarted {
            range: r(0, 50),
            scope_id: 0,
            parent_scope_id: None,
            is_closure: false,
        },
        SemanticEvent::ScopeStarted {
            range: r(0, 48),
            scope_id: 1,
            parent_scope_id: Some(0),
            is_closure: true,
        },
        SemanticEvent::DeclarationFound {
            name_token: t(f, 9, 10),
            scope_id: 1,
            hoisted_scope_id: Some(0),
        },
        SemanticEvent::ScopeStarted {
            range: r(11, 48),
            scope_id: 2,
            parent_scope_id: Some(1),
            is_closure: false,
        },
        SemanticEvent::ScopeStarted {
            range: r(17, 38),
            scope_id: 3,
            parent_scope_id: Some(2),
            is_closure: false,
        },
        SemanticEvent::DeclarationFound {
            name_token: t(a, 25, 26),
            scope_id: 3,
            hoisted_scope_id: Some(2),
        },
        SemanticEvent::Write { range: r(28, 29), declared_at: r(25, 26), scope_id: 3 },
        SemanticEvent::ScopeEnded { range: r(17, 38), scope_id: 3 },
        SemanticEvent::Read { range: r(40, 41), declared_at: r(25, 26), scope_id: 2 },
        SemanticEvent::ScopeEnded { range: r(11, 48), scope_id: 2 },
        SemanticEvent::ScopeEnded { range: r(0, 48), scope_id: 1 },
        SemanticEvent::ScopeEnded { range: r(0, 50), scope_id: 0 },
    ];
    assert_eq!(events, expected);
}

/// `{ b; let b = 2; }`: the read stands before the declaration, so it
/// resolves as a hoisted read when the block closes.
#[test]
fn forward_reference_let() {
    let b = 1u32;
    let script = node(NodeKind::Script, 0, 20);
    let block = node(NodeKind::BlockStatement, 0, 18);
    let b_read = reference(RefContext::Plain, t(b, 2, 3), 2, 3);
    let b_bind = binding(
        Some(BindingDecl::VariableDeclarator { is_var: Some(false) }),
        t(b, 8, 9),
        false,
        8,
        9,
    );

    let mut walk: Vec<WalkStep> = Vec::new();
    walk.push(WalkStep::Enter(script));
    walk.push(WalkStep::Enter(block));
    both(&mut walk, b_read);
    both(&mut walk, b_bind);
    walk.push(WalkStep::Leave(block));
    walk.push(WalkStep::Leave(script));

    let events = semantic_events(&walk);
    let expected = vec![
        SemanticEvent::ScopeStarted {
            range: r(0, 20),
            scope_id: 0,
            parent_scope_id: None,
            is_closure: false,
        },
        SemanticEvent::ScopeStarted {
            range: r(0, 18),
            scope_id: 1,
            parent_scope_id: Some(0),
            is_closure: false,
        },
        SemanticEvent::DeclarationFound {
            name_token: t(b, 8, 9),
            scope_id: 1,
            hoisted_scope_id: None,
        },
        SemanticEvent::HoistedRead { range: r(2, 3), declared_at: r(8, 9), scope_id: 1 },
        SemanticEvent::ScopeEnded { range: r(0, 18), scope_id: 1 },
        SemanticEvent::ScopeEnded { range: r(0, 20), scope_id: 0 },
    ];
    assert_eq!(events, expected);
}

/// `class C {} type T = C; new C();`: one declaration populates both
/// namespaces; the type alias reads `C` as a type, `new C()` reads it as a
/// value, and both resolve to the same declaration.
#[test]
fn dual_binding_class() {
    let c = 1u32;
    let ty = 2u32;
    let script = node(NodeKind::Script, 0, 40);
    let class = node(NodeKind::ClassDeclaration, 0, 10);
    let c_bind = binding(Some(BindingDecl::ClassOrEnumDeclaration), t(c, 6, 7), false, 6, 7);
    let alias = node(NodeKind::TsTypeAliasDeclaration, 11, 22);
    let t_bind = binding(Some(BindingDecl::InterfaceOrTypeAlias), t(ty, 16, 17), false, 16, 17);
    let c_type_read = reference(RefContext::TypeReference, t(c, 20, 21), 20, 21);
    let c_value_read = reference(RefContext::Plain, t(c, 27, 28), 27, 28);

    let mut walk: Vec<WalkStep> = Vec::new();
    walk.push(WalkStep::Enter(script));
    walk.push(WalkStep::Enter(class));
    both(&mut walk, c_bind);
    walk.push(WalkStep::Leave(class));
    walk.push(WalkStep::Enter(alias));
    both(&mut walk, t_bind);
    both(&mut walk, c_type_read);
    walk.push(WalkStep::Leave(alias));
    both(&mut walk, c_value_read);
    walk.push(WalkStep::Leave(script));

    let events = semantic_events(&walk);
    assert!(events.contains(&SemanticEvent::Read {
        range: r(20, 21),
        declared_at: r(6, 7),
        scope_id: 2,
    }));
    assert!(events.contains(&SemanticEvent::Read {
        range: r(27, 28),
        declared_at: r(6, 7),
        scope_id: 0,
    }));
    // One DeclarationFound for C, at the syntactic binding.
    let decls: Vec<&SemanticEvent> = events
        .iter()
        .filter(|e| {
            matches!(e, SemanticEvent::DeclarationFound { name_token, .. } if name_token.sym == c)
        })
        .collect();
    assert_eq!(decls.len(), 1);
    assert!(!events.iter().any(|e| matches!(e, SemanticEvent::UnresolvedReference { .. })));
}

/// `export type { Missing };`: the type-only export falls through at the
/// outermost scope as a single unresolved read; no `Exported` event.
#[test]
fn type_only_export_unresolved() {
    let missing = 1u32;
    let script = node(NodeKind::Script, 0, 25);
    let m_ref = reference(
        RefContext::NamedExportSpecifier { exports_only_types: true },
        t(missing, 14, 21),
        14,
        21,
    );

    let mut walk: Vec<WalkStep> = Vec::new();
    walk.push(WalkStep::Enter(script));
    both(&mut walk, m_ref);
    walk.push(WalkStep::Leave(script));

    let events = semantic_events(&walk);
    let expected = vec![
        SemanticEvent::ScopeStarted {
            range: r(0, 25),
            scope_id: 0,
            parent_scope_id: None,
            is_closure: false,
        },
        SemanticEvent::UnresolvedReference { is_read: true, range: r(14, 21) },
        SemanticEvent::ScopeEnded { range: r(0, 25), scope_id: 0 },
    ];
    assert_eq!(events, expected);
}

/// `class C {} export { C };`: the export reference is pushed into both
/// namespaces; both bind here, so each resolves to `Exported` followed by a
/// read of the class declaration, and nothing is unresolved.
#[test]
fn dual_binding_export() {
    let c = 1u32;
    let script = node(NodeKind::Script, 0, 30);
    let class = node(NodeKind::ClassDeclaration, 0, 10);
    let c_bind = binding(Some(BindingDecl::ClassOrEnumDeclaration), t(c, 6, 7), false, 6, 7);
    let c_export = reference(
        RefContext::NamedExportSpecifier { exports_only_types: false },
        t(c, 20, 21),
        20,
        21,
    );

    let mut walk: Vec<WalkStep> = Vec::new();
    walk.push(WalkStep::Enter(script));
    walk.push(WalkStep::Enter(class));
    both(&mut walk, c_bind);
    walk.push(WalkStep::Leave(class));
    both(&mut walk, c_export);
    walk.push(WalkStep::Leave(script));

    let events = semantic_events(&walk);
    let exported: Vec<&SemanticEvent> = events
        .iter()
        .filter(|e| matches!(e, SemanticEvent::Exported { .. }))
        .collect();
    assert_eq!(exported.len(), 2);
    assert!(exported.iter().all(|e| **e == SemanticEvent::Exported { range: r(6, 7) }));
    assert!(!events.iter().any(|e| matches!(e, SemanticEvent::UnresolvedReference { .. })));
    let reads: Vec<&SemanticEvent> = events
        .iter()
        .filter(|e| matches!(e, SemanticEvent::Read { .. }))
        .collect();
    assert_eq!(reads.len(), 2);
}

/// `type X<A> = A extends (infer U)[] ? U : never;`: no declaration is
/// emitted at the `infer U` position; it is deferred until the
/// conditional-true scope opens, where the read of `U` then resolves.
#[test]
fn infer_deferred_declaration() {
    let x = 1u32;
    let a = 2u32;
    let u = 3u32;
    let script = node(NodeKind::Script, 0, 46);
    let alias = node(NodeKind::TsTypeAliasDeclaration, 0, 46);
    let x_bind = binding(Some(BindingDecl::InterfaceOrTypeAlias), t(x, 5, 6), false, 5, 6);
    let a_bind = binding(Some(BindingDecl::MappedTypeOrTypeParameter), t(a, 7, 8), false, 7, 8);
    let a_read = reference(RefContext::TypeReference, t(a, 12, 13), 12, 13);
    let u_infer = binding(Some(BindingDecl::InferTypeParameter), t(u, 28, 29), false, 28, 29);
    let cond_true = node(
        NodeKind::TsType(TypeInfo { in_conditional_true_type: true, is_function_type: false }),
        34,
        35,
    );
    let u_read = reference(RefContext::TypeReference, t(u, 34, 35), 34, 35);

    let mut walk: Vec<WalkStep> = Vec::new();
    walk.push(WalkStep::Enter(script));
    walk.push(WalkStep::Enter(alias));
    both(&mut walk, x_bind);
    both(&mut walk, a_bind);
    both(&mut walk, a_read);
    both(&mut walk, u_infer);
    walk.push(WalkStep::Enter(cond_true));
    both(&mut walk, u_read);
    walk.push(WalkStep::Leave(cond_true));
    walk.push(WalkStep::Leave(alias));
    walk.push(WalkStep::Leave(script));

    let events = semantic_events(&walk);
    // The declaration of U appears right after the conditional-true scope
    // starts, not at the infer position.
    let started_2 = events
        .iter()
        .position(|e| matches!(e, SemanticEvent::ScopeStarted { scope_id: 2, .. }))
        .unwrap();
    let u_decl = events
        .iter()
        .position(|e| {
            matches!(e, SemanticEvent::DeclarationFound { name_token, .. } if name_token.sym == u)
        })
        .unwrap();
    assert!(u_decl == started_2 + 1);
    assert!(events.contains(&SemanticEvent::Read {
        range: r(34, 35),
        declared_at: r(28, 29),
        scope_id: 2,
    }));
    assert!(!events.iter().any(|e| matches!(e, SemanticEvent::UnresolvedReference { .. })));
}

/// `let x = 1; { let x = 2; x; } x;`: the inner read resolves to the inner
/// declaration; after the block closes, the shadowed outer binding is
/// restored and the outer read resolves to the outer declaration.
#[test]
fn shadowing_with_restoration() {
    let x = 1u32;
    let script = node(NodeKind::Script, 0, 34);
    let x1_bind = binding(
        Some(BindingDecl::VariableDeclarator { is_var: Some(false) }),
        t(x, 4, 5),
        false,
        4,
        5,
    );
    let block = node(NodeKind::BlockStatement, 11, 28);
    let x2_bind = binding(
        Some(BindingDecl::VariableDeclarator { is_var: Some(false) }),
        t(x, 17, 18),
        false,
        17,
        18,
    );
    let inner_read = reference(RefContext::Plain, t(x, 24, 25), 24, 25);
    let outer_read = reference(RefContext::Plain, t(x, 30, 31), 30, 31);

    let mut walk: Vec<WalkStep> = Vec::new();
    walk.push(WalkStep::Enter(script));
    both(&mut walk, x1_bind);
    walk.push(WalkStep::Enter(block));
    both(&mut walk, x2_bind);
    both(&mut walk, inner_read);
    walk.push(WalkStep::Leave(block));
    both(&mut walk, outer_read);
    walk.push(WalkStep::Leave(script));

    let events = semantic_events(&walk);
    assert!(events.contains(&SemanticEvent::Read {
        range: r(24, 25),
        declared_at: r(17, 18),
        scope_id: 1,
    }));
    assert!(events.contains(&SemanticEvent::Read {
        range: r(30, 31),
        declared_at: r(4, 5),
        scope_id: 0,
    }));
    assert!(!events.iter().any(|e| matches!(e, SemanticEvent::UnresolvedReference { .. })));
}

/// References promoted through several scopes keep their order, and resolve
/// as hoisted reads when the declaration stands after them:
/// `function g() { a; a; } var a;`.
#[test]
fn promotion_keeps_order() {
    let g = 1u32;
    let a = 2u32;
    let script = node(NodeKind::Script, 0, 40);
    let func = node(NodeKind::FunctionDeclaration, 0, 22);
    let g_bind = binding(Some(BindingDecl::FunctionDeclaration), t(g, 9, 10), false, 9, 10);
    let body = node(NodeKind::FunctionBody, 13, 22);
    let read1 = reference(RefContext::Plain, t(a, 15, 16), 15, 16);
    let read2 = reference(RefContext::Plain, t(a, 18, 19), 18, 19);
    let a_bind = binding(
        Some(BindingDecl::VariableDeclarator { is_var: Some(true) }),
        t(a, 27, 28),
        false,
        27,
        28,
    );

    let mut walk: Vec<WalkStep> = Vec::new();
    walk.push(WalkStep::Enter(script));
    walk.push(WalkStep::Enter(func));
    both(&mut walk, g_bind);
    walk.push(WalkStep::Enter(body));
    both(&mut walk, read1);
    both(&mut walk, read2);
    walk.push(WalkStep::Leave(body));
    walk.push(WalkStep::Leave(func));
    both(&mut walk, a_bind);
    walk.push(WalkStep::Leave(script));

    let events = semantic_events(&walk);
    let hoisted: Vec<&SemanticEvent> = events
        .iter()
        .filter(|e| matches!(e, SemanticEvent::HoistedRead { .. }))
        .collect();
    assert_eq!(hoisted.len(), 2);
    assert_eq!(
        *hoisted[0],
        SemanticEvent::HoistedRead { range: r(15, 16), declared_at: r(27, 28), scope_id: 0 },
    );
    assert_eq!(
        *hoisted[1],
        SemanticEvent::HoistedRead { range: r(18, 19), declared_at: r(27, 28), scope_id: 0 },
    );
}

/// `export default X` with `X` bound only as a value: the value export
/// resolves, and the failing type export is suppressed by its dual binding
/// instead of being reported unresolved.
#[test]
fn default_export_dual_suppression() {
    let x = 1u32;
    let script = node(NodeKind::Script, 0, 30);
    let x_bind = binding(
        Some(BindingDecl::VariableDeclarator { is_var: Some(false) }),
        t(x, 4, 5),
        false,
        4,
        5,
    );
    let x_export = reference(RefContext::ExportDefaultOrAssignmentClause, t(x, 26, 27), 26, 27);

    let mut walk: Vec<WalkStep> = Vec::new();
    walk.push(WalkStep::Enter(script));
    both(&mut walk, x_bind);
    both(&mut walk, x_export);
    walk.push(WalkStep::Leave(script));

    let events = semantic_events(&walk);
    assert!(events.contains(&SemanticEvent::Exported { range: r(4, 5) }));
    assert!(events.contains(&SemanticEvent::Read {
        range: r(26, 27),
        declared_at: r(4, 5),
        scope_id: 0,
    }));
    assert!(!events.iter().any(|e| matches!(e, SemanticEvent::UnresolvedReference { .. })));
}

/// `this` in a typeof position and import-type qualifiers produce no
/// reference at all; a JSX reference is always a value read; an unresolved
/// write is reported with `is_read: false`.
#[test]
fn dropped_and_write_references() {
    let this_sym = 1u32;
    let q = 2u32;
    let jsx = 3u32;
    let w = 4u32;
    let script = node(NodeKind::Script, 0, 50);
    let this_ref = node(
        NodeKind::ReferenceIdentifier(
            UsageInfo {
                name_token: Some(t(this_sym, 2, 6)),
                is_this: true,
                context: RefContext::Plain,
            },
        ),
        2,
        6,
    );
    let qual_ref = reference(RefContext::ImportTypeQualifier, t(q, 10, 11), 10, 11);
    let jsx_ref = node(NodeKind::JsxReferenceIdentifier(Some(t(jsx, 20, 23))), 20, 23);
    let write_ref = node(NodeKind::IdentifierAssignment(Some(t(w, 30, 31))), 30, 31);

    let mut walk: Vec<WalkStep> = Vec::new();
    walk.push(WalkStep::Enter(script));
    both(&mut walk, this_ref);
    both(&mut walk, qual_ref);
    both(&mut walk, jsx_ref);
    both(&mut walk, write_ref);
    walk.push(WalkStep::Leave(script));

    let events = semantic_events(&walk);
    let unresolved: Vec<&SemanticEvent> = events
        .iter()
        .filter(|e| matches!(e, SemanticEvent::UnresolvedReference { .. }))
        .collect();
    // Only the JSX read and the write remain; `this` and the qualifier are
    // dropped.
    assert_eq!(unresolved.len(), 2);
    assert!(unresolved.contains(&&SemanticEvent::UnresolvedReference {
        is_read: true,
        range: r(20, 23),
    }));
    assert!(unresolved.contains(&&SemanticEvent::UnresolvedReference {
        is_read: false,
        range: r(30, 31),
    }));
}

/// A type-only named import binds only the type namespace: a later value
/// read of the name stays unresolved while a type read resolves.
#[test]
fn type_only_import_namespaces() {
    let m = 1u32;
    let script = node(NodeKind::Script, 0, 60);
    let m_bind = binding(
        Some(BindingDecl::NamedImportSpecifier { imports_only_types: true }),
        t(m, 9, 10),
        false,
        9,
        10,
    );
    let type_read = reference(RefContext::TypeReference, t(m, 30, 31), 30, 31);
    let value_read = reference(RefContext::Plain, t(m, 40, 41), 40, 41);

    let mut walk: Vec<WalkStep> = Vec::new();
    walk.push(WalkStep::Enter(script));
    both(&mut walk, m_bind);
    both(&mut walk, type_read);
    both(&mut walk, value_read);
    walk.push(WalkStep::Leave(script));

    let events = semantic_events(&walk);
    assert!(events.contains(&SemanticEvent::Read {
        range: r(30, 31),
        declared_at: r(9, 10),
        scope_id: 0,
    }));
    assert!(events.contains(&SemanticEvent::UnresolvedReference {
        is_read: true,
        range: r(40, 41),
    }));
}

/// Emitting the events for a given walk is deterministic: two runs on the
/// same walk produce identical streams.
#[test]
fn deterministic_streams() {
    let a = 1u32;
    let script = node(NodeKind::Script, 0, 20);
    let a_bind = binding(
        Some(BindingDecl::VariableDeclarator { is_var: Some(false) }),
        t(a, 4, 5),
        false,
        4,
        5,
    );
    let a_read = reference(RefContext::Plain, t(a, 10, 11), 10, 11);

    let mut walk: Vec<WalkStep> = Vec::new();
    walk.push(WalkStep::Enter(script));
    both(&mut walk, a_bind);
    both(&mut walk, a_read);
    walk.push(WalkStep::Leave(script));

    let first = semantic_events(&walk);
    let second = semantic_events(&walk);
    assert_eq!(first, second);
}

/// Scope ids are assigned contiguously from zero in `ScopeStarted` order,
/// and every started scope is ended exactly once before the stream ends.
#[test]
fn scope_ids_contiguous_and_balanced() {
    let script = node(NodeKind::Script, 0, 40);
    let func = node(NodeKind::FunctionExpression, 2, 20);
    let body = node(NodeKind::FunctionBody, 5, 20);
    let block = node(NodeKind::BlockStatement, 25, 39);

    let mut walk: Vec<WalkStep> = Vec::new();
    walk.push(WalkStep::Enter(script));
    walk.push(WalkStep::Enter(func));
    walk.push(WalkStep::Enter(body));
    walk.push(WalkStep::Leave(body));
    walk.push(WalkStep::Leave(func));
    walk.push(WalkStep::Enter(block));
    walk.push(WalkStep::Leave(block));
    walk.push(WalkStep::Leave(script));

    let events = semantic_events(&walk);
    let mut started: Vec<usize> = Vec::new();
    let mut ended: Vec<usize> = Vec::new();
    let mut open: Vec<usize> = Vec::new();
    for e in &events {
        match e {
            SemanticEvent::ScopeStarted { scope_id, .. } => {
                started.push(*scope_id);
                open.push(*scope_id);
            }
            SemanticEvent::ScopeEnded { scope_id, .. } => {
                assert_eq!(open.pop(), Some(*scope_id));
                ended.push(*scope_id);
            }
            _ => {}
        }
    }
    assert_eq!(started, vec![0, 1, 2, 3]);
    assert!(open.is_empty());
    let mut ended_sorted = ended.clone();
    ended_sorted.sort();
    assert_eq!(ended_sorted, vec![0, 1, 2, 3]);
}

/// The two namespaces are distinct keys: the same text as a value and as a
/// type resolves independently.
#[test]
fn namespaces_are_independent() {
    assert_ne!(BindingName::Value(7), BindingName::Type(7));
}

/// `export { type T }` with `T` bound only as a value: the type-restricted
/// export fails to resolve at the outermost scope, but the dual (value)
/// binding covers the export, so nothing is reported unresolved.
#[test]
fn type_export_covered_by_value_dual() {
    let ty = 1u32;
    let script = node(NodeKind::Script, 0, 40);
    let t_bind = binding(
        Some(BindingDecl::VariableDeclarator { is_var: Some(false) }),
        t(ty, 4, 5),
        false,
        4,
        5,
    );
    let t_export = reference(
        RefContext::NamedExportSpecifier { exports_only_types: true },
        t(ty, 20, 21),
        20,
        21,
    );

    let mut walk: Vec<WalkStep> = Vec::new();
    walk.push(WalkStep::Enter(script));
    both(&mut walk, t_bind);
    both(&mut walk, t_export);
    walk.push(WalkStep::Leave(script));

    let events = semantic_events(&walk);
    assert!(!events.iter().any(|e| matches!(e, SemanticEvent::UnresolvedReference { .. })));
    assert!(!events.iter().any(|e| matches!(e, SemanticEvent::Exported { .. })));
}

/// A reference whose range starts exactly where its declaration starts
/// resolves to the hoisted variant: the declaration does not stand strictly
/// before the reference.
#[test]
fn equal_start_resolves_hoisted() {
    let a = 1u32;
    let script = node(NodeKind::Script, 0, 20);
    let a_bind = binding(
        Some(BindingDecl::VariableDeclarator { is_var: Some(false) }),
        t(a, 4, 5),
        false,
        4,
        5,
    );
    let a_read = reference(RefContext::Plain, t(a, 4, 5), 4, 5);

    let mut walk: Vec<WalkStep> = Vec::new();
    walk.push(WalkStep::Enter(script));
    both(&mut walk, a_bind);
    both(&mut walk, a_read);
    walk.push(WalkStep::Leave(script));

    let events = semantic_events(&walk);
    assert!(events.contains(&SemanticEvent::HoistedRead {
        range: r(4, 5),
        declared_at: r(4, 5),
        scope_id: 0,
    }));
}
