//! Stream-level laws of the extractor.
//!
//! These theorems are stated over the model of `crate::model`; because every
//! executable method is proved equal to its model transition, they hold of
//! the streams the extractor emits.

use vstd::prelude::*;
use crate::binding::Reference;
use crate::events::SemanticEvent;
use crate::model::{close_entries, dual_bound, events_for_ref, events_for_refs, drain_infers,
    init_model, model_enter_binding, model_enter_conditional_true, model_enter_reference,
    model_pop_scope, model_push_binding, model_push_import, model_push_dual,
    model_push_reference, model_push_scope, resolution_event, run_model, run_ok, scope_shape,
    step_ok, step_spec, unresolved_events, with_declaration_event, ExtractorModel, ScopeModel};
use crate::syntax::{BindingDecl, NameToken, NodeInfo, NodeKind, TextRange, WalkStep};

verus! {

/// Whether an event opens or closes a scope.
pub open spec fn is_scope_event(e: SemanticEvent) -> bool {
    e is ScopeStarted || e is ScopeEnded
}

/// The scope ids of the `ScopeStarted` events of a stream, in order.
pub open spec fn scope_starts(ev: Seq<SemanticEvent>) -> Seq<usize>
    decreases ev.len(),
{
    if ev.len() == 0 {
        Seq::empty()
    } else {
        scope_starts(ev.drop_last()) + (match ev.last() {
            SemanticEvent::ScopeStarted { scope_id, .. } => seq![scope_id],
            _ => Seq::empty(),
        })
    }
}

/// The scope ids of the `ScopeEnded` events of a stream, in order.
pub open spec fn scope_ends(ev: Seq<SemanticEvent>) -> Seq<usize>
    decreases ev.len(),
{
    if ev.len() == 0 {
        Seq::empty()
    } else {
        scope_ends(ev.drop_last()) + (match ev.last() {
            SemanticEvent::ScopeEnded { scope_id, .. } => seq![scope_id],
            _ => Seq::empty(),
        })
    }
}

/// Replays the scope events of a stream against a stack: the stack of ids
/// still open after the stream, or `None` if some `ScopeEnded` does not
/// match the innermost open scope.
pub open spec fn open_scopes(ev: Seq<SemanticEvent>) -> Option<Seq<usize>>
    decreases ev.len(),
{
    if ev.len() == 0 {
        Some(Seq::empty())
    } else {
        match open_scopes(ev.drop_last()) {
            None => None,
            Some(st) => match ev.last() {
                SemanticEvent::ScopeStarted { scope_id, .. } => Some(st.push(scope_id)),
                SemanticEvent::ScopeEnded { scope_id, .. } => if st.len() > 0 && st.last()
                    == scope_id {
                    Some(st.drop_last())
                } else {
                    None
                },
                _ => Some(st),
            },
        }
    }
}

/// The ids of a scope stack, bottom first.
pub open spec fn stack_ids(scopes: Seq<ScopeModel>) -> Seq<usize> {
    scopes.map_values(|s: ScopeModel| s.scope_id)
}

/// The direction every read or write event respects: a plain event's
/// declaration starts strictly before its reference, a hoisted event's
/// declaration does not.
pub open spec fn hoisting_direction_ok(e: SemanticEvent) -> bool {
    match e {
        SemanticEvent::Read { range, declared_at, .. } => declared_at.start < range.start,
        SemanticEvent::Write { range, declared_at, .. } => declared_at.start < range.start,
        SemanticEvent::HoistedRead { range, declared_at, .. } => declared_at.start
            >= range.start,
        SemanticEvent::HoistedWrite { range, declared_at, .. } => declared_at.start
            >= range.start,
        _ => true,
    }
}

/// The invariant tying a state's stream to its stack: replaying the stream's
/// scope events yields exactly the open stack, the started ids so far are
/// `0, 1, ..., scope_count - 1` in order, and every read or write event
/// respects the hoisting direction.
pub open spec fn stream_inv(m: ExtractorModel) -> bool {
    &&& open_scopes(m.stash) == Some(stack_ids(m.scopes))
    &&& scope_starts(m.stash) == Seq::new(m.scope_count as nat, |i: int| i as usize)
    &&& forall|x: int| 0 <= x < m.stash.len() ==> hoisting_direction_ok(#[trigger] m.stash[x])
}

// ---------------------------------------------------------------------------
// Plain events leave the scope structure alone
// ---------------------------------------------------------------------------

/// Appending events that neither open nor close scopes preserves the scope
/// replay, the started ids, and the hoisting directions.
proof fn lemma_append_plain(stash: Seq<SemanticEvent>, delta: Seq<SemanticEvent>)
    requires
        forall|x: int| 0 <= x < delta.len() ==> !is_scope_event(#[trigger] delta[x])
            && hoisting_direction_ok(delta[x]),
    ensures
        open_scopes(stash + delta) == open_scopes(stash),
        scope_starts(stash + delta) == scope_starts(stash),
        scope_ends(stash + delta) == scope_ends(stash),
        (forall|x: int| 0 <= x < stash.len() ==> hoisting_direction_ok(#[trigger] stash[x]))
            ==> forall|x: int|
            0 <= x < (stash + delta).len() ==> hoisting_direction_ok(#[trigger] (stash
                + delta)[x]),
    decreases delta.len(),
{
    if delta.len() == 0 {
        assert(stash + delta =~= stash);
    } else {
        lemma_append_plain(stash, delta.drop_last());
        assert(stash + delta =~= (stash + delta.drop_last()).push(delta.last()));
        assert((stash + delta).drop_last() =~= stash + delta.drop_last());
        assert(scope_starts(stash + delta) =~= scope_starts(stash + delta.drop_last()));
        assert(scope_ends(stash + delta) =~= scope_ends(stash + delta.drop_last()));
    }
}

/// The events a resolved entry contributes neither open nor close scopes and
/// respect the hoisting direction.
proof fn lemma_events_for_refs_plain(refs: Seq<Reference>, declared_at: TextRange,
    scope_id: usize)
    ensures
        forall|x: int|
            0 <= x < events_for_refs(refs, declared_at, scope_id).len()
                ==> !is_scope_event(#[trigger] events_for_refs(refs, declared_at, scope_id)[x])
                && hoisting_direction_ok(events_for_refs(refs, declared_at, scope_id)[x])
                && !(events_for_refs(refs, declared_at, scope_id)[x] is UnresolvedReference),
    decreases refs.len(),
{
    if refs.len() > 0 {
        lemma_events_for_refs_plain(refs.skip(1), declared_at, scope_id);
        assert(hoisting_direction_ok(resolution_event(refs[0], declared_at, scope_id)));
        assert(forall|x: int|
            0 <= x < events_for_refs(refs.skip(1), declared_at, scope_id).len()
                ==> events_for_refs(refs, declared_at, scope_id)[x + events_for_ref(
                refs[0],
                declared_at,
                scope_id,
            ).len()] == #[trigger] events_for_refs(refs.skip(1), declared_at, scope_id)[x]);
    }
}

/// Unresolved-reference events neither open nor close scopes.
proof fn lemma_unresolved_plain(refs: Seq<Reference>, has_dual: bool)
    ensures
        forall|x: int|
            0 <= x < unresolved_events(refs, has_dual).len() ==> !is_scope_event(
                #[trigger] unresolved_events(refs, has_dual)[x],
            ) && hoisting_direction_ok(unresolved_events(refs, has_dual)[x]),
    decreases refs.len(),
{
    if refs.len() > 0 {
        lemma_unresolved_plain(refs.skip(1), has_dual);
        let rest = unresolved_events(refs.skip(1), has_dual);
        if !(has_dual && refs[0].spec_is_export()) {
            assert(forall|x: int|
                0 <= x < rest.len() ==> unresolved_events(refs, has_dual)[x + 1]
                    == #[trigger] rest[x]);
        }
    }
}

/// Closing a scope's entries preserves the scope replay and the started ids
/// of the stream, the hoisting directions, and the ids of the remaining
/// stack.
proof fn lemma_close_plain(
    entries: Seq<(crate::binding::BindingName, Seq<Reference>)>,
    table: Map<crate::binding::BindingName, TextRange>,
    scope_id: usize,
    scopes: Seq<ScopeModel>,
    stash: Seq<SemanticEvent>,
)
    ensures
        open_scopes(close_entries(entries, table, scope_id, scopes, stash).1) == open_scopes(
            stash,
        ),
        scope_starts(close_entries(entries, table, scope_id, scopes, stash).1) == scope_starts(
            stash,
        ),
        scope_ends(close_entries(entries, table, scope_id, scopes, stash).1) == scope_ends(
            stash,
        ),
        (forall|x: int| 0 <= x < stash.len() ==> hoisting_direction_ok(#[trigger] stash[x]))
            ==> forall|x: int|
            0 <= x < close_entries(entries, table, scope_id, scopes, stash).1.len()
                ==> hoisting_direction_ok(
                #[trigger] close_entries(entries, table, scope_id, scopes, stash).1[x],
            ),
        stack_ids(close_entries(entries, table, scope_id, scopes, stash).0) == stack_ids(
            scopes,
        ),
        close_entries(entries, table, scope_id, scopes, stash).0.len() == scopes.len(),
    decreases entries.len(),
{
    if entries.len() > 0 {
        let name = entries[0].0;
        let refs = entries[0].1;
        if table.contains_key(name) {
            lemma_events_for_refs_plain(refs, table[name], scope_id);
            lemma_append_plain(stash, events_for_refs(refs, table[name], scope_id));
            lemma_close_plain(
                entries.skip(1),
                table,
                scope_id,
                scopes,
                stash + events_for_refs(refs, table[name], scope_id),
            );
        } else if scopes.len() > 0 {
            let parent = scopes.last();
            let parent2 = ScopeModel {
                references: crate::model::refs_append(parent.references, name, refs),
                ..parent
            };
            let scopes2 = scopes.update(scopes.len() - 1, parent2);
            assert(stack_ids(scopes2) =~= stack_ids(scopes));
            lemma_close_plain(entries.skip(1), table, scope_id, scopes2, stash);
        } else {
            lemma_unresolved_plain(refs, dual_bound(table, name));
            lemma_append_plain(stash, unresolved_events(refs, dual_bound(table, name)));
            lemma_close_plain(
                entries.skip(1),
                table,
                scope_id,
                scopes,
                stash + unresolved_events(refs, dual_bound(table, name)),
            );
        }
    }
}

// ---------------------------------------------------------------------------
// Each transition preserves the invariant
// ---------------------------------------------------------------------------

/// Recording a binding changes no event and no scope id.
proof fn lemma_push_binding_plain(
    m: ExtractorModel,
    hoisted: Option<usize>,
    name: crate::binding::BindingName,
    name_range: TextRange,
)
    ensures
        model_push_binding(m, hoisted, name, name_range).stash == m.stash,
        stack_ids(model_push_binding(m, hoisted, name, name_range).scopes) == stack_ids(
            m.scopes,
        ),
        model_push_binding(m, hoisted, name, name_range).scope_count == m.scope_count,
        model_push_binding(m, hoisted, name, name_range).scopes.len() == m.scopes.len(),
{
    let target = match hoisted {
        Some(id) => id,
        None => crate::model::current_scope_id(m),
    };
    crate::model::lemma_scope_index_of(m.scopes, target);
    let r = model_push_binding(m, hoisted, name, name_range);
    assert(stack_ids(r.scopes) =~= stack_ids(m.scopes));
}

/// Recording a pending reference changes no event and no scope id.
proof fn lemma_push_reference_plain(
    m: ExtractorModel,
    name: crate::binding::BindingName,
    r: Reference,
)
    ensures
        model_push_reference(m, name, r).stash == m.stash,
        stack_ids(model_push_reference(m, name, r).scopes) == stack_ids(m.scopes),
        model_push_reference(m, name, r).scope_count == m.scope_count,
        model_push_reference(m, name, r).scopes.len() == m.scopes.len(),
{
    assert(stack_ids(model_push_reference(m, name, r).scopes) =~= stack_ids(m.scopes));
}

/// The declaration events of a binding are plain events.
proof fn lemma_decl_event_plain(
    m: ExtractorModel,
    tok: NameToken,
    hoisted: Option<usize>,
    is_exported: bool,
    node_range: TextRange,
)
    requires
        stream_inv(m),
    ensures
        stream_inv(
            ExtractorModel { scope_count: m.scope_count, ..with_declaration_event(
                m,
                tok,
                hoisted,
                is_exported,
                node_range,
            ) },
        ),
        with_declaration_event(m, tok, hoisted, is_exported, node_range).scopes == m.scopes,
        with_declaration_event(m, tok, hoisted, is_exported, node_range).scope_count
            == m.scope_count,
{
    let ev = SemanticEvent::DeclarationFound {
        name_token: tok,
        scope_id: crate::model::current_scope_id(m),
        hoisted_scope_id: hoisted,
    };
    if is_exported {
        let delta = seq![ev, SemanticEvent::Exported { range: node_range }];
        assert(with_declaration_event(m, tok, hoisted, is_exported, node_range).stash
            =~= m.stash + delta);
        lemma_append_plain(m.stash, delta);
    } else {
        let delta = seq![ev];
        assert(with_declaration_event(m, tok, hoisted, is_exported, node_range).stash
            =~= m.stash + delta);
        lemma_append_plain(m.stash, delta);
    }
}

/// Entering an identifier binding preserves the invariant: it emits only
/// declaration events and never changes the scope stack's ids.
proof fn lemma_enter_binding_inv(m: ExtractorModel, info: crate::syntax::BindingInfo,
    node_range: TextRange)
    requires
        stream_inv(m),
    ensures
        stream_inv(model_enter_binding(m, info, node_range)),
        model_enter_binding(m, info, node_range).scope_count == m.scope_count,
        model_enter_binding(m, info, node_range).scopes.len() == m.scopes.len(),
        stack_ids(model_enter_binding(m, info, node_range).scopes) == stack_ids(m.scopes),
{
    match info.name_token {
        None => {},
        Some(tok) => {
            let sym = tok.sym;
            let name_range = tok.range;
            match info.declaration {
                None => {
                    let mb = model_push_binding(
                        m,
                        None,
                        crate::binding::BindingName::Value(sym),
                        name_range,
                    );
                    lemma_push_binding_plain(
                        m,
                        None,
                        crate::binding::BindingName::Value(sym),
                        name_range,
                    );
                    lemma_decl_event_plain(mb, tok, None, false, node_range);
                },
                Some(decl) => {
                    lemma_enter_binding_cases(m, info, decl, tok, node_range);
                },
            }
        },
    }
}

/// Case analysis shared by all declaration groups: one or two bindings are
/// recorded, then the declaration events are appended.
proof fn lemma_enter_binding_cases(
    m: ExtractorModel,
    info: crate::syntax::BindingInfo,
    decl: BindingDecl,
    tok: NameToken,
    node_range: TextRange,
)
    requires
        stream_inv(m),
        info.name_token == Some(tok),
        info.declaration == Some(decl),
    ensures
        stream_inv(model_enter_binding(m, info, node_range)),
        model_enter_binding(m, info, node_range).scope_count == m.scope_count,
        model_enter_binding(m, info, node_range).scopes.len() == m.scopes.len(),
        stack_ids(model_enter_binding(m, info, node_range).scopes) == stack_ids(m.scopes),
{
    let sym = tok.sym;
    let name_range = tok.range;
    let value = crate::binding::BindingName::Value(sym);
    let ty_name = crate::binding::BindingName::Type(sym);
    match decl {
        BindingDecl::VariableDeclarator { is_var } => {
            match is_var {
                None => {},
                Some(v) => {
                    let hoisted = if v {
                        crate::model::hoist_target(m.scopes, 0)
                    } else {
                        None
                    };
                    lemma_push_binding_plain(m, hoisted, value, name_range);
                    lemma_decl_event_plain(
                        model_push_binding(m, hoisted, value, name_range),
                        tok,
                        hoisted,
                        info.is_exported,
                        node_range,
                    );
                },
            }
        },
        BindingDecl::FunctionDeclaration => {
            let hoisted = crate::model::hoist_target(m.scopes, 1);
            lemma_push_binding_plain(m, hoisted, value, name_range);
            lemma_decl_event_plain(
                model_push_binding(m, hoisted, value, name_range),
                tok,
                hoisted,
                info.is_exported,
                node_range,
            );
        },
        BindingDecl::FunctionOrClassExpression => {
            lemma_dual_plain(m, None, sym, name_range);
            lemma_decl_event_plain(
                model_push_dual(m, None, sym, name_range),
                tok,
                None,
                info.is_exported,
                node_range,
            );
        },
        BindingDecl::ClassOrEnumDeclaration => {
            let hoisted = crate::model::parent_scope_id(m);
            lemma_dual_plain(m, hoisted, sym, name_range);
            lemma_decl_event_plain(
                model_push_dual(m, hoisted, sym, name_range),
                tok,
                hoisted,
                info.is_exported,
                node_range,
            );
        },
        BindingDecl::InterfaceOrTypeAlias => {
            let hoisted = crate::model::parent_scope_id(m);
            lemma_push_binding_plain(m, hoisted, ty_name, name_range);
            lemma_decl_event_plain(
                model_push_binding(m, hoisted, ty_name, name_range),
                tok,
                hoisted,
                info.is_exported,
                node_range,
            );
        },
        BindingDecl::ModuleDeclaration => {
            let hoisted = crate::model::parent_scope_id(m);
            lemma_push_binding_plain(m, hoisted, value, name_range);
            lemma_decl_event_plain(
                model_push_binding(m, hoisted, value, name_range),
                tok,
                hoisted,
                info.is_exported,
                node_range,
            );
        },
        BindingDecl::MappedTypeOrTypeParameter => {
            lemma_push_binding_plain(m, None, ty_name, name_range);
            lemma_decl_event_plain(
                model_push_binding(m, None, ty_name, name_range),
                tok,
                None,
                info.is_exported,
                node_range,
            );
        },
        BindingDecl::ImportClause { type_only } => {
            lemma_import_plain(m, type_only, sym, name_range);
            lemma_decl_event_plain(
                model_push_import(m, type_only, sym, name_range),
                tok,
                None,
                info.is_exported,
                node_range,
            );
        },
        BindingDecl::DefaultOrNamespaceImportSpecifier { clause_type_only } => {
            match clause_type_only {
                None => {},
                Some(type_only) => {
                    lemma_import_plain(m, type_only, sym, name_range);
                    lemma_decl_event_plain(
                        model_push_import(m, type_only, sym, name_range),
                        tok,
                        None,
                        info.is_exported,
                        node_range,
                    );
                },
            }
        },
        BindingDecl::NamedImportSpecifier { imports_only_types } => {
            lemma_import_plain(m, imports_only_types, sym, name_range);
            lemma_decl_event_plain(
                model_push_import(m, imports_only_types, sym, name_range),
                tok,
                None,
                info.is_exported,
                node_range,
            );
        },
        BindingDecl::Parameter => {
            lemma_push_binding_plain(m, None, value, name_range);
            lemma_decl_event_plain(
                model_push_binding(m, None, value, name_range),
                tok,
                None,
                info.is_exported,
                node_range,
            );
        },
        BindingDecl::InferTypeParameter => {},
    }
}

/// A dual declaration records two bindings and no event.
proof fn lemma_dual_plain(m: ExtractorModel, hoisted: Option<usize>, sym: u32,
    name_range: TextRange)
    ensures
        model_push_dual(m, hoisted, sym, name_range).stash == m.stash,
        stack_ids(model_push_dual(m, hoisted, sym, name_range).scopes) == stack_ids(m.scopes),
        model_push_dual(m, hoisted, sym, name_range).scope_count == m.scope_count,
        model_push_dual(m, hoisted, sym, name_range).scopes.len() == m.scopes.len(),
{
    let m2 = model_push_binding(m, hoisted, crate::binding::BindingName::Value(sym),
        name_range);
    lemma_push_binding_plain(m, hoisted, crate::binding::BindingName::Value(sym), name_range);
    lemma_push_binding_plain(m2, hoisted, crate::binding::BindingName::Type(sym), name_range);
}

/// An import declaration records one or two bindings and no event.
proof fn lemma_import_plain(m: ExtractorModel, type_only: bool, sym: u32,
    name_range: TextRange)
    ensures
        model_push_import(m, type_only, sym, name_range).stash == m.stash,
        stack_ids(model_push_import(m, type_only, sym, name_range).scopes) == stack_ids(
            m.scopes,
        ),
        model_push_import(m, type_only, sym, name_range).scope_count == m.scope_count,
        model_push_import(m, type_only, sym, name_range).scopes.len() == m.scopes.len(),
{
    if type_only {
        lemma_push_binding_plain(
            m,
            None,
            crate::binding::BindingName::Type(sym),
            name_range,
        );
    } else {
        lemma_dual_plain(m, None, sym, name_range);
    }
}

/// Entering a reference identifier emits nothing and keeps the stack's ids.
proof fn lemma_enter_reference_inv(m: ExtractorModel, info: crate::syntax::UsageInfo,
    range: TextRange)
    requires
        stream_inv(m),
    ensures
        stream_inv(model_enter_reference(m, info, range)),
        model_enter_reference(m, info, range).scope_count == m.scope_count,
        model_enter_reference(m, info, range).scopes.len() == m.scopes.len(),
        stack_ids(model_enter_reference(m, info, range).scopes) == stack_ids(m.scopes),
{
    match info.name_token {
        None => {},
        Some(tok) => {
            let sym = tok.sym;
            let value = crate::binding::BindingName::Value(sym);
            let ty_name = crate::binding::BindingName::Type(sym);
            lemma_push_reference_plain(m, value, Reference::Export(range));
            lemma_push_reference_plain(
                model_push_reference(m, value, Reference::Export(range)),
                ty_name,
                Reference::Export(range),
            );
            lemma_push_reference_plain(m, ty_name, Reference::ExportType(range));
            lemma_push_reference_plain(m, ty_name, Reference::Read(range));
            lemma_push_reference_plain(m, value, Reference::Read(range));
        },
    }
}

/// Opening a scope pushes its started id both on the replayed stack and at
/// the end of the started ids.
proof fn lemma_push_scope_inv(m: ExtractorModel, range: TextRange,
    hoisting: crate::binding::ScopeHoisting, is_closure: bool)
    requires
        stream_inv(m),
        m.scope_count < usize::MAX,
    ensures
        stream_inv(model_push_scope(m, range, hoisting, is_closure)),
        model_push_scope(m, range, hoisting, is_closure).scopes.len() == m.scopes.len() + 1,
{
    let r = model_push_scope(m, range, hoisting, is_closure);
    assert(r.stash.drop_last() =~= m.stash);
    assert(stack_ids(r.scopes) =~= stack_ids(m.scopes).push(m.scope_count));
    assert(scope_starts(r.stash) =~= scope_starts(m.stash).push(m.scope_count));
    assert(scope_starts(r.stash) =~= Seq::new(r.scope_count as nat, |i: int| i as usize));
}

/// Draining the queued `infer` declarations emits only declaration events.
proof fn lemma_drain_inv(m: ExtractorModel, infers: Seq<NameToken>)
    requires
        stream_inv(m),
    ensures
        stream_inv(drain_infers(m, infers)),
        drain_infers(m, infers).scope_count == m.scope_count,
        drain_infers(m, infers).scopes.len() == m.scopes.len(),
        stack_ids(drain_infers(m, infers).scopes) == stack_ids(m.scopes),
    decreases infers.len(),
{
    if infers.len() > 0 {
        let tok = infers[0];
        let m2 = model_push_binding(
            m,
            None,
            crate::binding::BindingName::Type(tok.sym),
            tok.range,
        );
        lemma_push_binding_plain(
            m,
            None,
            crate::binding::BindingName::Type(tok.sym),
            tok.range,
        );
        let ev = SemanticEvent::DeclarationFound {
            name_token: tok,
            scope_id: crate::model::current_scope_id(m2),
            hoisted_scope_id: None,
        };
        let m3 = ExtractorModel { stash: m2.stash.push(ev), ..m2 };
        assert(m3.stash =~= m2.stash + seq![ev]);
        lemma_append_plain(m2.stash, seq![ev]);
        lemma_drain_inv(m3, infers.skip(1));
    }
}

/// Closing the innermost scope pops exactly its id.
proof fn lemma_pop_scope_inv(m: ExtractorModel, range: TextRange)
    requires
        stream_inv(m),
        m.scopes.len() > 0,
    ensures
        stream_inv(model_pop_scope(m, range)),
        model_pop_scope(m, range).scope_count == m.scope_count,
        model_pop_scope(m, range).scopes.len() == m.scopes.len() - 1,
{
    let scope = m.scopes.last();
    let rest = m.scopes.drop_last();
    let closed = close_entries(scope.references, m.bindings, scope.scope_id, rest, m.stash);
    lemma_close_plain(scope.references, m.bindings, scope.scope_id, rest, m.stash);
    let r = model_pop_scope(m, range);
    assert(r.stash.drop_last() =~= closed.1);
    assert(stack_ids(m.scopes) =~= stack_ids(rest).push(scope.scope_id));
    assert(open_scopes(closed.1) == Some(stack_ids(rest).push(scope.scope_id)));
    assert(open_scopes(r.stash) == Some(stack_ids(rest)));
    assert(stack_ids(closed.0) == stack_ids(rest));
    assert(scope_starts(r.stash) =~= scope_starts(closed.1));
}

/// One step of a well-formed walk preserves the invariant.
proof fn lemma_step_inv(m: ExtractorModel, step: WalkStep)
    requires
        stream_inv(m),
        step_ok(m, step),
    ensures
        stream_inv(step_spec(m, step)),
{
    match step {
        WalkStep::Enter(node) => {
            match node.kind {
                NodeKind::IdentifierBinding(info) => {
                    lemma_enter_binding_inv(m, info, node.range);
                },
                NodeKind::ReferenceIdentifier(info) => {
                    lemma_enter_reference_inv(m, info, node.range);
                },
                NodeKind::JsxReferenceIdentifier(tok) => {
                    match tok {
                        None => {},
                        Some(t) => {
                            lemma_push_reference_plain(
                                m,
                                crate::binding::BindingName::Value(t.sym),
                                Reference::Read(node.range),
                            );
                        },
                    }
                },
                NodeKind::IdentifierAssignment(tok) => {
                    match tok {
                        None => {},
                        Some(t) => {
                            lemma_push_reference_plain(
                                m,
                                crate::binding::BindingName::Value(t.sym),
                                Reference::Write(node.range),
                            );
                        },
                    }
                },
                NodeKind::TsType(t) => {
                    if t.in_conditional_true_type {
                        let m2 = model_push_scope(
                            m,
                            node.range,
                            crate::binding::ScopeHoisting::DontHoistDeclarationsToParent,
                            false,
                        );
                        lemma_push_scope_inv(
                            m,
                            node.range,
                            crate::binding::ScopeHoisting::DontHoistDeclarationsToParent,
                            false,
                        );
                        lemma_drain_inv(m2, m.infers);
                        assert(stream_inv(model_enter_conditional_true(m, node.range)));
                    } else if t.is_function_type {
                        lemma_push_scope_inv(
                            m,
                            node.range,
                            crate::binding::ScopeHoisting::DontHoistDeclarationsToParent,
                            false,
                        );
                    }
                },
                NodeKind::Other => {},
                _ => {
                    match scope_shape(node) {
                        Some(shape) => {
                            lemma_push_scope_inv(m, node.range, shape.0, shape.1);
                        },
                        None => {},
                    }
                },
            }
        },
        WalkStep::Leave(node) => {
            if scope_shape(node) is Some {
                lemma_pop_scope_inv(m, node.range);
            }
        },
    }
}

/// A whole well-formed walk preserves the invariant.
proof fn lemma_run_inv(m: ExtractorModel, walk: Seq<WalkStep>)
    requires
        stream_inv(m),
        run_ok(m, walk),
    ensures
        stream_inv(run_model(m, walk)),
    decreases walk.len(),
{
    if walk.len() > 0 {
        lemma_step_inv(m, walk[0]);
        lemma_run_inv(step_spec(m, walk[0]), walk.skip(1));
    }
}

/// The empty state satisfies the invariant.
proof fn lemma_init_inv()
    ensures
        stream_inv(init_model()),
{
    assert(stack_ids(init_model().scopes) =~= Seq::<usize>::empty());
    assert(Seq::new(0, |i: int| i as usize) =~= Seq::<usize>::empty());
}

// ---------------------------------------------------------------------------
// The laws
// ---------------------------------------------------------------------------

/// Scope ids form the contiguous range `0, 1, ..., N - 1` across the event
/// stream, assigned in the order the `ScopeStarted` events are emitted.
pub proof fn lemma_scope_ids_contiguous(walk: Seq<WalkStep>)
    requires
        run_ok(init_model(), walk),
    ensures
        scope_starts(run_model(init_model(), walk).stash) == Seq::new(
            run_model(init_model(), walk).scope_count as nat,
            |i: int| i as usize,
        ),
{
    lemma_init_inv();
    lemma_run_inv(init_model(), walk);
}

/// Every `Read` and `Write` event's declaration starts strictly before its
/// reference; every `HoistedRead` and `HoistedWrite` event's declaration
/// does not start before its reference. A reference whose range starts
/// exactly at its declaration resolves to the hoisted variant.
pub proof fn lemma_hoisting_direction(walk: Seq<WalkStep>)
    requires
        run_ok(init_model(), walk),
    ensures
        forall|x: int|
            0 <= x < run_model(init_model(), walk).stash.len() ==> hoisting_direction_ok(
                #[trigger] run_model(init_model(), walk).stash[x],
            ),
{
    lemma_init_inv();
    lemma_run_inv(init_model(), walk);
}


// ---------------------------------------------------------------------------
// Balanced walks close every scope
// ---------------------------------------------------------------------------

/// Replays a walk against a stack of entered nodes: the nodes still open
/// after the walk, or `None` when some leave does not match the innermost
/// open node. A depth-first pre-order walk of a tree leaves the empty stack.
pub open spec fn walk_open(stack: Seq<NodeInfo>, walk: Seq<WalkStep>) -> Option<Seq<NodeInfo>>
    decreases walk.len(),
{
    if walk.len() == 0 {
        Some(stack)
    } else {
        match walk[0] {
            WalkStep::Enter(node) => walk_open(stack.push(node), walk.skip(1)),
            WalkStep::Leave(node) => if stack.len() > 0 && stack.last() == node {
                walk_open(stack.drop_last(), walk.skip(1))
            } else {
                None
            },
        }
    }
}

/// A walk is balanced when every entered node is left again, innermost
/// first.
pub open spec fn balanced_walk(walk: Seq<WalkStep>) -> bool {
    walk_open(Seq::empty(), walk) == Some(Seq::<NodeInfo>::empty())
}

/// How many of the open nodes open scopes.
pub open spec fn count_opens(stack: Seq<NodeInfo>) -> nat
    decreases stack.len(),
{
    if stack.len() == 0 {
        0
    } else {
        count_opens(stack.drop_last()) + (if scope_shape(stack.last()) is Some {
            1nat
        } else {
            0nat
        })
    }
}

/// Entering a node grows the scope stack exactly when the node opens a
/// scope; leaving one shrinks it exactly when the node does.
proof fn lemma_step_len(m: ExtractorModel, step: WalkStep)
    requires
        stream_inv(m),
        step_ok(m, step),
    ensures
        step matches WalkStep::Enter(node) ==> step_spec(m, step).scopes.len() == (
        if scope_shape(node) is Some {
            m.scopes.len() + 1
        } else {
            m.scopes.len() + 0
        }),
        step matches WalkStep::Leave(node) ==> step_spec(m, step).scopes.len() == (
        if scope_shape(node) is Some {
            m.scopes.len() - 1
        } else {
            m.scopes.len() - 0
        }),
{
    match step {
        WalkStep::Enter(node) => {
            match node.kind {
                NodeKind::IdentifierBinding(info) => {
                    lemma_enter_binding_inv(m, info, node.range);
                },
                NodeKind::ReferenceIdentifier(info) => {
                    lemma_enter_reference_inv(m, info, node.range);
                },
                NodeKind::JsxReferenceIdentifier(tok) => {
                    match tok {
                        None => {},
                        Some(t) => {
                            lemma_push_reference_plain(
                                m,
                                crate::binding::BindingName::Value(t.sym),
                                Reference::Read(node.range),
                            );
                        },
                    }
                },
                NodeKind::IdentifierAssignment(tok) => {
                    match tok {
                        None => {},
                        Some(t) => {
                            lemma_push_reference_plain(
                                m,
                                crate::binding::BindingName::Value(t.sym),
                                Reference::Write(node.range),
                            );
                        },
                    }
                },
                NodeKind::TsType(t) => {
                    if t.in_conditional_true_type {
                        let m2 = model_push_scope(
                            m,
                            node.range,
                            crate::binding::ScopeHoisting::DontHoistDeclarationsToParent,
                            false,
                        );
                        lemma_push_scope_inv(
                            m,
                            node.range,
                            crate::binding::ScopeHoisting::DontHoistDeclarationsToParent,
                            false,
                        );
                        lemma_drain_inv(m2, m.infers);
                    }
                },
                _ => {},
            }
        },
        WalkStep::Leave(node) => {
            if scope_shape(node) is Some {
                let scope = m.scopes.last();
                let rest = m.scopes.drop_last();
                lemma_close_plain(
                    scope.references,
                    m.bindings,
                    scope.scope_id,
                    rest,
                    m.stash,
                );
            }
        },
    }
}

/// Along a well-formed walk, the scope stack tracks the scope-opening nodes
/// of the walk's open-node stack.
proof fn lemma_run_balance(m: ExtractorModel, stack: Seq<NodeInfo>, walk: Seq<WalkStep>)
    requires
        stream_inv(m),
        run_ok(m, walk),
        m.scopes.len() == count_opens(stack),
    ensures
        walk_open(stack, walk) matches Some(st) ==> run_model(m, walk).scopes.len()
            == count_opens(st),
    decreases walk.len(),
{
    if walk.len() > 0 {
        lemma_step_len(m, walk[0]);
        lemma_step_inv(m, walk[0]);
        let m2 = step_spec(m, walk[0]);
        match walk[0] {
            WalkStep::Enter(node) => {
                assert(count_opens(stack.push(node)) == count_opens(stack) + (
                if scope_shape(node) is Some {
                    1nat
                } else {
                    0nat
                })) by {
                    assert(stack.push(node).drop_last() =~= stack);
                }
                lemma_run_balance(m2, stack.push(node), walk.skip(1));
            },
            WalkStep::Leave(node) => {
                if stack.len() > 0 && stack.last() == node {
                    assert(count_opens(stack) == count_opens(stack.drop_last()) + (
                    if scope_shape(node) is Some {
                        1nat
                    } else {
                        0nat
                    }));
                    lemma_run_balance(m2, stack.drop_last(), walk.skip(1));
                }
            },
        }
    }
}

/// Replaying a stream's scope events relates the started ids, the open
/// stack, and the ended ids: as multisets, started = open + ended.
proof fn lemma_open_multiset(ev: Seq<SemanticEvent>)
    ensures
        open_scopes(ev) matches Some(st) ==> scope_starts(ev).to_multiset()
            == st.to_multiset().add(scope_ends(ev).to_multiset()),
    decreases ev.len(),
{
    broadcast use vstd::seq_lib::group_to_multiset_ensures;

    if ev.len() == 0 {
        match open_scopes(ev) {
            Some(st) => {
                assert(scope_starts(ev).to_multiset() =~= st.to_multiset().add(
                    scope_ends(ev).to_multiset(),
                ));
            },
            None => {},
        }
    } else {
        lemma_open_multiset(ev.drop_last());
        match open_scopes(ev.drop_last()) {
            None => {},
            Some(st0) => {
                let starts0 = scope_starts(ev.drop_last());
                let ends0 = scope_ends(ev.drop_last());
                match ev.last() {
                    SemanticEvent::ScopeStarted { scope_id, .. } => {
                        assert(scope_starts(ev) =~= starts0.push(scope_id));
                        assert(scope_ends(ev) =~= ends0);
                        assert(scope_starts(ev).to_multiset() =~= st0.push(
                            scope_id,
                        ).to_multiset().add(ends0.to_multiset()));
                    },
                    SemanticEvent::ScopeEnded { scope_id, .. } => {
                        if st0.len() > 0 && st0.last() == scope_id {
                            assert(scope_starts(ev) =~= starts0);
                            assert(scope_ends(ev) =~= ends0.push(scope_id));
                            assert(st0 =~= st0.drop_last().push(scope_id));
                            assert(st0.to_multiset() =~= st0.drop_last().to_multiset().insert(
                                scope_id,
                            ));
                            assert(starts0.to_multiset() =~= st0.drop_last().to_multiset().add(
                                ends0.push(scope_id).to_multiset(),
                            ));
                        }
                    },
                    _ => {
                        assert(scope_starts(ev) =~= starts0);
                        assert(scope_ends(ev) =~= ends0);
                    },
                }
            },
        }
    }
}

/// Every scope started during a balanced walk is ended before the stream
/// finishes: the scope events replay to an empty stack, so the
/// `ScopeStarted` and `ScopeEnded` pairs are balanced and properly nested,
/// and, as multisets, the started ids equal the ended ids; with
/// `lemma_scope_ids_contiguous`, each started id is ended exactly once.
pub proof fn lemma_scopes_balanced(walk: Seq<WalkStep>)
    requires
        run_ok(init_model(), walk),
        balanced_walk(walk),
    ensures
        open_scopes(run_model(init_model(), walk).stash) == Some(Seq::<usize>::empty()),
        scope_starts(run_model(init_model(), walk).stash).to_multiset() == scope_ends(
            run_model(init_model(), walk).stash,
        ).to_multiset(),
{
    lemma_init_inv();
    lemma_run_inv(init_model(), walk);
    lemma_run_balance(init_model(), Seq::empty(), walk);
    let ev = run_model(init_model(), walk).stash;
    let scopes = run_model(init_model(), walk).scopes;
    assert(scopes.len() == 0);
    assert(stack_ids(scopes) =~= Seq::<usize>::empty());
    lemma_open_multiset(ev);
    broadcast use vstd::seq_lib::group_to_multiset_ensures;

    assert(Seq::<usize>::empty().to_multiset() =~= vstd::multiset::Multiset::<usize>::empty());
    assert(scope_starts(ev).to_multiset() =~= scope_ends(ev).to_multiset());
}

// ---------------------------------------------------------------------------
// Unresolved references
// ---------------------------------------------------------------------------

/// One stream extends another: the shorter is a prefix of the longer.
pub open spec fn extends(stash: Seq<SemanticEvent>, out: Seq<SemanticEvent>) -> bool {
    out.len() >= stash.len() && forall|x: int| 0 <= x < stash.len() ==> out[x] == #[trigger] stash[x]
}

/// No event appended beyond the prefix reports an unresolved reference.
pub open spec fn no_new_unresolved(stash: Seq<SemanticEvent>, out: Seq<SemanticEvent>) -> bool {
    forall|x: int|
        stash.len() <= x < out.len() ==> !(#[trigger] out[x] is UnresolvedReference)
}

proof fn lemma_extends_trans(a: Seq<SemanticEvent>, b: Seq<SemanticEvent>, c: Seq<SemanticEvent>)
    requires
        extends(a, b),
        extends(b, c),
    ensures
        extends(a, c),
{
}

proof fn lemma_no_new_compose(a: Seq<SemanticEvent>, b: Seq<SemanticEvent>, c: Seq<SemanticEvent>)
    requires
        extends(a, b),
        extends(b, c),
        no_new_unresolved(a, b),
        no_new_unresolved(b, c),
    ensures
        no_new_unresolved(a, c),
{
    assert forall|x: int| a.len() <= x < c.len() implies !(#[trigger] c[x]
        is UnresolvedReference) by {
        if x < b.len() {
            assert(c[x] == b[x]);
        }
    }
}

/// An unresolved-reference event arises only at the outermost scope, and
/// only from a pending entry whose name has no visible binding: when an
/// enclosing scope exists the entry is promoted instead, and when every
/// pending name is bound nothing is reported unresolved.
pub proof fn lemma_unresolved_only_unbound(
    entries: Seq<(crate::binding::BindingName, Seq<Reference>)>,
    table: Map<crate::binding::BindingName, TextRange>,
    scope_id: usize,
    scopes: Seq<ScopeModel>,
    stash: Seq<SemanticEvent>,
)
    ensures
        extends(stash, close_entries(entries, table, scope_id, scopes, stash).1),
        scopes.len() > 0 ==> no_new_unresolved(
            stash,
            close_entries(entries, table, scope_id, scopes, stash).1,
        ),
        (forall|e: int| 0 <= e < entries.len() ==> table.contains_key(#[trigger] entries[e].0))
            ==> no_new_unresolved(
            stash,
            close_entries(entries, table, scope_id, scopes, stash).1,
        ),
    decreases entries.len(),
{
    if entries.len() > 0 {
        let name = entries[0].0;
        let refs = entries[0].1;
        assert(forall|e: int|
            0 <= e < entries.skip(1).len() ==> #[trigger] entries.skip(1)[e] == entries[e + 1]);
        if table.contains_key(name) {
            let stash2 = stash + events_for_refs(refs, table[name], scope_id);
            lemma_events_for_refs_plain(refs, table[name], scope_id);
            lemma_unresolved_only_unbound(entries.skip(1), table, scope_id, scopes, stash2);
            let c = close_entries(entries.skip(1), table, scope_id, scopes, stash2);
            assert(close_entries(entries, table, scope_id, scopes, stash) == c);
            assert(extends(stash, stash2));
            assert(no_new_unresolved(stash, stash2)) by {
                assert(forall|x: int|
                    stash.len() <= x < stash2.len() ==> #[trigger] stash2[x]
                        == events_for_refs(refs, table[name], scope_id)[x - stash.len()]);
            }
            lemma_extends_trans(stash, stash2, c.1);
            if scopes.len() > 0 {
                lemma_no_new_compose(stash, stash2, c.1);
            }
            if forall|e: int| 0 <= e < entries.len() ==> table.contains_key(
                #[trigger] entries[e].0,
            ) {
                assert(forall|e: int|
                    0 <= e < entries.skip(1).len() ==> table.contains_key(
                        #[trigger] entries.skip(1)[e].0,
                    ));
                lemma_no_new_compose(stash, stash2, c.1);
            }
        } else if scopes.len() > 0 {
            let parent = scopes.last();
            let parent2 = ScopeModel {
                references: crate::model::refs_append(parent.references, name, refs),
                ..parent
            };
            let scopes2 = scopes.update(scopes.len() - 1, parent2);
            lemma_unresolved_only_unbound(entries.skip(1), table, scope_id, scopes2, stash);
            let c = close_entries(entries.skip(1), table, scope_id, scopes2, stash);
            assert(close_entries(entries, table, scope_id, scopes, stash) == c);
            lemma_extends_trans(stash, stash, c.1);
        } else {
            let stash2 = stash + unresolved_events(refs, dual_bound(table, name));
            lemma_unresolved_plain(refs, dual_bound(table, name));
            lemma_unresolved_only_unbound(entries.skip(1), table, scope_id, scopes, stash2);
            let c = close_entries(entries.skip(1), table, scope_id, scopes, stash2);
            assert(close_entries(entries, table, scope_id, scopes, stash) == c);
            assert(extends(stash, stash2));
            lemma_extends_trans(stash, stash2, c.1);
        }
    }
}

// ---------------------------------------------------------------------------
// Determinism
// ---------------------------------------------------------------------------

/// Emitting the events for a given walk is deterministic and reproducible:
/// the stream is a mathematical function of the walk alone, and the
/// executable extractor is proved to compute exactly that function.
pub proof fn lemma_deterministic(walk1: Seq<WalkStep>, walk2: Seq<WalkStep>)
    requires
        walk1 == walk2,
    ensures
        run_model(init_model(), walk1).stash == run_model(init_model(), walk2).stash,
{
}


// ---------------------------------------------------------------------------
// Resolved references point at emitted declarations
// ---------------------------------------------------------------------------

/// Whether the event declares a token with this range.
pub open spec fn declares_range(e: SemanticEvent, r: TextRange) -> bool {
    match e {
        SemanticEvent::DeclarationFound { name_token, .. } => name_token.range == r,
        _ => false,
    }
}

/// Some earlier event of the stream declared a token with this range.
pub open spec fn declared_in(ev: Seq<SemanticEvent>, r: TextRange) -> bool {
    exists|j: int| 0 <= j < ev.len() && declares_range(#[trigger] ev[j], r)
}

/// Whether an event reads or writes a resolved binding, and the range it
/// was resolved against.
pub open spec fn resolves_against(e: SemanticEvent) -> Option<TextRange> {
    match e {
        SemanticEvent::Read { declared_at, .. } => Some(declared_at),
        SemanticEvent::HoistedRead { declared_at, .. } => Some(declared_at),
        SemanticEvent::Write { declared_at, .. } => Some(declared_at),
        SemanticEvent::HoistedWrite { declared_at, .. } => Some(declared_at),
        _ => None,
    }
}

/// Every read or write event of the stream resolves against the name token
/// of a declaration emitted before it.
pub open spec fn resolutions_declared(ev: Seq<SemanticEvent>) -> bool {
    forall|x: int|
        0 <= x < ev.len() ==> match resolves_against(#[trigger] ev[x]) {
            Some(declared_at) => declared_in(ev.take(x), declared_at),
            None => true,
        }
}

/// Every range the flat table or an undo log holds was declared in the
/// stream.
pub open spec fn bookkeeping_declared(m: ExtractorModel) -> bool {
    &&& forall|k: crate::binding::BindingName|
        m.bindings.contains_key(k) ==> declared_in(m.stash, #[trigger] m.bindings[k])
    &&& forall|i: int, j: int|
        0 <= i < m.scopes.len() && 0 <= j < m.scopes[i].shadowed.len() ==> declared_in(
            m.stash,
            (#[trigger] m.scopes[i].shadowed[j]).1,
        )
}

pub open spec fn declarations_inv(m: ExtractorModel) -> bool {
    resolutions_declared(m.stash) && bookkeeping_declared(m)
}

/// A declared range stays declared as the stream grows.
proof fn lemma_declared_monotone(ev: Seq<SemanticEvent>, longer: Seq<SemanticEvent>,
    r: TextRange)
    requires
        declared_in(ev, r),
        ev.len() <= longer.len(),
        forall|x: int| 0 <= x < ev.len() ==> longer[x] == #[trigger] ev[x],
    ensures
        declared_in(longer, r),
{
    let j = choose|j: int| 0 <= j < ev.len() && declares_range(#[trigger] ev[j], r);
    assert(longer[j] == ev[j]);
}

/// Appending events whose resolved ranges are already declared preserves
/// `resolutions_declared`.
proof fn lemma_resolutions_append(ev: Seq<SemanticEvent>, delta: Seq<SemanticEvent>)
    requires
        resolutions_declared(ev),
        forall|x: int|
            0 <= x < delta.len() ==> match resolves_against(#[trigger] delta[x]) {
                Some(declared_at) => declared_in(ev, declared_at),
                None => true,
            },
    ensures
        resolutions_declared(ev + delta),
{
    let whole = ev + delta;
    assert forall|x: int| 0 <= x < whole.len() implies match resolves_against(
        #[trigger] whole[x],
    ) {
        Some(declared_at) => declared_in(whole.take(x), declared_at),
        None => true,
    } by {
        if x < ev.len() {
            assert(whole[x] == ev[x]);
            match resolves_against(ev[x]) {
                Some(declared_at) => {
                    assert(declared_in(ev.take(x), declared_at));
                    assert(whole.take(x) =~= ev.take(x));
                },
                None => {},
            }
        } else {
            assert(whole[x] == delta[x - ev.len()]);
            match resolves_against(delta[x - ev.len()]) {
                Some(declared_at) => {
                    assert(forall|y: int|
                        0 <= y < ev.len() ==> whole.take(x)[y] == #[trigger] ev[y]);
                    lemma_declared_monotone(ev, whole.take(x), declared_at);
                },
                None => {},
            }
        }
    }
}

/// The events of one resolved entry resolve against the entry's declaration
/// range only.
proof fn lemma_events_for_refs_declared(refs: Seq<Reference>, declared_at: TextRange,
    scope_id: usize)
    ensures
        forall|x: int|
            0 <= x < events_for_refs(refs, declared_at, scope_id).len() ==> match
                resolves_against(#[trigger] events_for_refs(refs, declared_at, scope_id)[x]) {
                Some(d) => d == declared_at,
                None => true,
            },
    decreases refs.len(),
{
    if refs.len() > 0 {
        lemma_events_for_refs_declared(refs.skip(1), declared_at, scope_id);
        assert(forall|x: int|
            0 <= x < events_for_refs(refs.skip(1), declared_at, scope_id).len()
                ==> events_for_refs(refs, declared_at, scope_id)[x + events_for_ref(
                refs[0],
                declared_at,
                scope_id,
            ).len()] == #[trigger] events_for_refs(refs.skip(1), declared_at, scope_id)[x]);
    }
}

/// Unresolved events resolve against nothing and declare nothing.
proof fn lemma_unresolved_declared(refs: Seq<Reference>, has_dual: bool)
    ensures
        forall|x: int|
            0 <= x < unresolved_events(refs, has_dual).len() ==> resolves_against(
                #[trigger] unresolved_events(refs, has_dual)[x],
            ) is None && unresolved_events(refs, has_dual)[x] is UnresolvedReference,
    decreases refs.len(),
{
    if refs.len() > 0 {
        lemma_unresolved_declared(refs.skip(1), has_dual);
        let rest = unresolved_events(refs.skip(1), has_dual);
        if !(has_dual && refs[0].spec_is_export()) {
            assert(forall|x: int|
                0 <= x < rest.len() ==> unresolved_events(refs, has_dual)[x + 1]
                    == #[trigger] rest[x]);
        }
    }
}

/// A state whose stream has not moved, and whose bookkeeping holds only
/// ranges that are declared or equal to the one range about to be declared.
pub open spec fn pending_declaration(m0: ExtractorModel, m: ExtractorModel, nr: TextRange)
    -> bool {
    &&& m.stash == m0.stash
    &&& forall|k: crate::binding::BindingName|
        m.bindings.contains_key(k) ==> (#[trigger] m.bindings[k] == nr || declared_in(
            m0.stash,
            m.bindings[k],
        ))
    &&& forall|i: int, j: int|
        0 <= i < m.scopes.len() && 0 <= j < m.scopes[i].shadowed.len() ==> ((
        #[trigger] m.scopes[i].shadowed[j]).1 == nr || declared_in(
            m0.stash,
            m.scopes[i].shadowed[j].1,
        ))
}

/// Recording a binding keeps every held range declared-or-pending.
proof fn lemma_push_binding_pending(
    m0: ExtractorModel,
    m: ExtractorModel,
    hoisted: Option<usize>,
    name: crate::binding::BindingName,
    nr: TextRange,
)
    requires
        pending_declaration(m0, m, nr),
    ensures
        pending_declaration(m0, model_push_binding(m, hoisted, name, nr), nr),
{
    let target = match hoisted {
        Some(id) => id,
        None => crate::model::current_scope_id(m),
    };
    crate::model::lemma_scope_index_of(m.scopes, target);
    let idx = crate::model::scope_index_of(m.scopes, target);
    let r = model_push_binding(m, hoisted, name, nr);
    if idx >= 0 {
        assert forall|i: int, j: int|
            0 <= i < r.scopes.len() && 0 <= j < r.scopes[i].shadowed.len() implies ((
        #[trigger] r.scopes[i].shadowed[j]).1 == nr || declared_in(
            m0.stash,
            r.scopes[i].shadowed[j].1,
        )) by {
            if i == idx {
                if j < m.scopes[idx].shadowed.len() {
                    assert(r.scopes[i].shadowed[j] == m.scopes[i].shadowed[j]);
                }
            } else {
                assert(r.scopes[i] == m.scopes[i]);
            }
        }
    }
}

/// Appending the declaration events establishes the invariant again: the
/// pending range is now declared.
proof fn lemma_declare_finishes(
    m0: ExtractorModel,
    m: ExtractorModel,
    tok: NameToken,
    hoisted: Option<usize>,
    is_exported: bool,
    node_range: TextRange,
)
    requires
        declarations_inv(m0),
        pending_declaration(m0, m, tok.range),
    ensures
        declarations_inv(with_declaration_event(m, tok, hoisted, is_exported, node_range)),
{
    let r = with_declaration_event(m, tok, hoisted, is_exported, node_range);
    let ev = SemanticEvent::DeclarationFound {
        name_token: tok,
        scope_id: crate::model::current_scope_id(m),
        hoisted_scope_id: hoisted,
    };
    let delta = if is_exported {
        seq![ev, SemanticEvent::Exported { range: node_range }]
    } else {
        seq![ev]
    };
    assert(r.stash =~= m0.stash + delta);
    lemma_resolutions_append(m0.stash, delta);
    assert(r.stash[m0.stash.len() as int] == ev);
    assert(declared_in(r.stash, tok.range));
    assert forall|k: crate::binding::BindingName| r.bindings.contains_key(k)
        implies declared_in(r.stash, #[trigger] r.bindings[k]) by {
        if r.bindings[k] == tok.range {
        } else {
            lemma_declared_monotone(m0.stash, r.stash, r.bindings[k]);
        }
    }
    assert forall|i: int, j: int|
        0 <= i < r.scopes.len() && 0 <= j < r.scopes[i].shadowed.len() implies declared_in(
        r.stash,
        (#[trigger] r.scopes[i].shadowed[j]).1,
    ) by {
        if r.scopes[i].shadowed[j].1 == tok.range {
        } else {
            lemma_declared_monotone(m0.stash, r.stash, r.scopes[i].shadowed[j].1);
        }
    }
}

/// Entering an identifier binding preserves the declaration invariant.
proof fn lemma_enter_binding_p2(m: ExtractorModel, info: crate::syntax::BindingInfo,
    node_range: TextRange)
    requires
        declarations_inv(m),
    ensures
        declarations_inv(model_enter_binding(m, info, node_range)),
{
    match info.name_token {
        None => {},
        Some(tok) => {
            let sym = tok.sym;
            let nr = tok.range;
            let value = crate::binding::BindingName::Value(sym);
            let ty_name = crate::binding::BindingName::Type(sym);
            assert(pending_declaration(m, m, nr));
            match info.declaration {
                None => {
                    lemma_push_binding_pending(m, m, None, value, nr);
                    lemma_declare_finishes(
                        m,
                        model_push_binding(m, None, value, nr),
                        tok,
                        None,
                        false,
                        node_range,
                    );
                },
                Some(decl) => {
                    match decl {
                        BindingDecl::VariableDeclarator { is_var } => {
                            match is_var {
                                None => {},
                                Some(v) => {
                                    let hoisted = if v {
                                        crate::model::hoist_target(m.scopes, 0)
                                    } else {
                                        None
                                    };
                                    lemma_push_binding_pending(m, m, hoisted, value, nr);
                                    lemma_declare_finishes(
                                        m,
                                        model_push_binding(m, hoisted, value, nr),
                                        tok,
                                        hoisted,
                                        info.is_exported,
                                        node_range,
                                    );
                                },
                            }
                        },
                        BindingDecl::FunctionDeclaration => {
                            let hoisted = crate::model::hoist_target(m.scopes, 1);
                            lemma_push_binding_pending(m, m, hoisted, value, nr);
                            lemma_declare_finishes(
                                m,
                                model_push_binding(m, hoisted, value, nr),
                                tok,
                                hoisted,
                                info.is_exported,
                                node_range,
                            );
                        },
                        BindingDecl::FunctionOrClassExpression => {
                            lemma_dual_pending(m, None, sym, nr);
                            lemma_declare_finishes(
                                m,
                                model_push_dual(m, None, sym, nr),
                                tok,
                                None,
                                info.is_exported,
                                node_range,
                            );
                        },
                        BindingDecl::ClassOrEnumDeclaration => {
                            let hoisted = crate::model::parent_scope_id(m);
                            lemma_dual_pending(m, hoisted, sym, nr);
                            lemma_declare_finishes(
                                m,
                                model_push_dual(m, hoisted, sym, nr),
                                tok,
                                hoisted,
                                info.is_exported,
                                node_range,
                            );
                        },
                        BindingDecl::InterfaceOrTypeAlias => {
                            let hoisted = crate::model::parent_scope_id(m);
                            lemma_push_binding_pending(m, m, hoisted, ty_name, nr);
                            lemma_declare_finishes(
                                m,
                                model_push_binding(m, hoisted, ty_name, nr),
                                tok,
                                hoisted,
                                info.is_exported,
                                node_range,
                            );
                        },
                        BindingDecl::ModuleDeclaration => {
                            let hoisted = crate::model::parent_scope_id(m);
                            lemma_push_binding_pending(m, m, hoisted, value, nr);
                            lemma_declare_finishes(
                                m,
                                model_push_binding(m, hoisted, value, nr),
                                tok,
                                hoisted,
                                info.is_exported,
                                node_range,
                            );
                        },
                        BindingDecl::MappedTypeOrTypeParameter => {
                            lemma_push_binding_pending(m, m, None, ty_name, nr);
                            lemma_declare_finishes(
                                m,
                                model_push_binding(m, None, ty_name, nr),
                                tok,
                                None,
                                info.is_exported,
                                node_range,
                            );
                        },
                        BindingDecl::ImportClause { type_only } => {
                            lemma_import_pending(m, type_only, sym, nr);
                            lemma_declare_finishes(
                                m,
                                model_push_import(m, type_only, sym, nr),
                                tok,
                                None,
                                info.is_exported,
                                node_range,
                            );
                        },
                        BindingDecl::DefaultOrNamespaceImportSpecifier { clause_type_only } => {
                            match clause_type_only {
                                None => {},
                                Some(type_only) => {
                                    lemma_import_pending(m, type_only, sym, nr);
                                    lemma_declare_finishes(
                                        m,
                                        model_push_import(m, type_only, sym, nr),
                                        tok,
                                        None,
                                        info.is_exported,
                                        node_range,
                                    );
                                },
                            }
                        },
                        BindingDecl::NamedImportSpecifier { imports_only_types } => {
                            lemma_import_pending(m, imports_only_types, sym, nr);
                            lemma_declare_finishes(
                                m,
                                model_push_import(m, imports_only_types, sym, nr),
                                tok,
                                None,
                                info.is_exported,
                                node_range,
                            );
                        },
                        BindingDecl::Parameter => {
                            lemma_push_binding_pending(m, m, None, value, nr);
                            lemma_declare_finishes(
                                m,
                                model_push_binding(m, None, value, nr),
                                tok,
                                None,
                                info.is_exported,
                                node_range,
                            );
                        },
                        BindingDecl::InferTypeParameter => {},
                    }
                },
            }
        },
    }
}

proof fn lemma_dual_pending(m: ExtractorModel, hoisted: Option<usize>, sym: u32, nr: TextRange)
    requires
        pending_declaration(m, m, nr),
    ensures
        pending_declaration(m, model_push_dual(m, hoisted, sym, nr), nr),
{
    let value = crate::binding::BindingName::Value(sym);
    let ty_name = crate::binding::BindingName::Type(sym);
    lemma_push_binding_pending(m, m, hoisted, value, nr);
    lemma_push_binding_pending(m, model_push_binding(m, hoisted, value, nr), hoisted, ty_name,
        nr);
}

proof fn lemma_import_pending(m: ExtractorModel, type_only: bool, sym: u32, nr: TextRange)
    requires
        pending_declaration(m, m, nr),
    ensures
        pending_declaration(m, model_push_import(m, type_only, sym, nr), nr),
{
    if type_only {
        lemma_push_binding_pending(m, m, None, crate::binding::BindingName::Type(sym), nr);
    } else {
        lemma_dual_pending(m, None, sym, nr);
    }
}

/// Closing a scope's entries preserves the invariant: the emitted events
/// resolve against table ranges, which are declared.
proof fn lemma_close_p2(
    entries: Seq<(crate::binding::BindingName, Seq<Reference>)>,
    table: Map<crate::binding::BindingName, TextRange>,
    scope_id: usize,
    scopes: Seq<ScopeModel>,
    stash: Seq<SemanticEvent>,
)
    requires
        resolutions_declared(stash),
        forall|k: crate::binding::BindingName|
            table.contains_key(k) ==> declared_in(stash, #[trigger] table[k]),
        forall|i: int, j: int|
            0 <= i < scopes.len() && 0 <= j < scopes[i].shadowed.len() ==> declared_in(
                stash,
                (#[trigger] scopes[i].shadowed[j]).1,
            ),
    ensures
        resolutions_declared(close_entries(entries, table, scope_id, scopes, stash).1),
        extends(stash, close_entries(entries, table, scope_id, scopes, stash).1),
        forall|i: int, j: int|
            0 <= i < close_entries(entries, table, scope_id, scopes, stash).0.len() && 0 <= j
                < close_entries(entries, table, scope_id, scopes, stash).0[i].shadowed.len()
                ==> declared_in(
                stash,
                (#[trigger] close_entries(entries, table, scope_id, scopes, stash).0[
                i].shadowed[j]).1,
            ),
    decreases entries.len(),
{
    if entries.len() > 0 {
        let name = entries[0].0;
        let refs = entries[0].1;
        if table.contains_key(name) {
            let delta = events_for_refs(refs, table[name], scope_id);
            let stash2 = stash + delta;
            lemma_events_for_refs_declared(refs, table[name], scope_id);
            lemma_resolutions_append(stash, delta);
            assert forall|k: crate::binding::BindingName| table.contains_key(k)
                implies declared_in(stash2, #[trigger] table[k]) by {
                lemma_declared_monotone(stash, stash2, table[k]);
            }
            assert forall|i: int, j: int|
                0 <= i < scopes.len() && 0 <= j < scopes[i].shadowed.len() implies declared_in(
                stash2,
                (#[trigger] scopes[i].shadowed[j]).1,
            ) by {
                lemma_declared_monotone(stash, stash2, scopes[i].shadowed[j].1);
            }
            lemma_close_p2(entries.skip(1), table, scope_id, scopes, stash2);
            let c = close_entries(entries.skip(1), table, scope_id, scopes, stash2);
            assert(close_entries(entries, table, scope_id, scopes, stash) == c);
            assert(extends(stash, stash2));
            lemma_extends_trans(stash, stash2, c.1);
            assert forall|i: int, j: int|
                0 <= i < c.0.len() && 0 <= j < c.0[i].shadowed.len() implies declared_in(
                stash,
                (#[trigger] c.0[i].shadowed[j]).1,
            ) by {
                assert(declared_in(stash2, c.0[i].shadowed[j].1));
                let w = choose|w: int|
                    0 <= w < stash2.len() && declares_range(
                        #[trigger] stash2[w],
                        c.0[i].shadowed[j].1,
                    );
                if w >= stash.len() {
                    assert(resolves_against(delta[w - stash.len()]) is None || true);
                    assert(stash2[w] == delta[w - stash.len()]);
                    lemma_events_for_refs_no_decl(refs, table[name], scope_id);
                } else {
                    assert(stash2[w] == stash[w]);
                }
            }
        } else if scopes.len() > 0 {
            let parent = scopes.last();
            let parent2 = ScopeModel {
                references: crate::model::refs_append(parent.references, name, refs),
                ..parent
            };
            let scopes2 = scopes.update(scopes.len() - 1, parent2);
            assert forall|i: int, j: int|
                0 <= i < scopes2.len() && 0 <= j < scopes2[i].shadowed.len()
                implies declared_in(stash, (#[trigger] scopes2[i].shadowed[j]).1) by {
                if i == scopes.len() - 1 {
                    assert(scopes2[i].shadowed == scopes[i].shadowed);
                } else {
                    assert(scopes2[i] == scopes[i]);
                }
            }
            lemma_close_p2(entries.skip(1), table, scope_id, scopes2, stash);
            assert(close_entries(entries, table, scope_id, scopes, stash) == close_entries(
                entries.skip(1),
                table,
                scope_id,
                scopes2,
                stash,
            ));
        } else {
            let delta = unresolved_events(refs, dual_bound(table, name));
            let stash2 = stash + delta;
            lemma_unresolved_declared(refs, dual_bound(table, name));
            lemma_resolutions_append(stash, delta);
            assert forall|k: crate::binding::BindingName| table.contains_key(k)
                implies declared_in(stash2, #[trigger] table[k]) by {
                lemma_declared_monotone(stash, stash2, table[k]);
            }
            lemma_close_p2(entries.skip(1), table, scope_id, scopes, stash2);
            let c = close_entries(entries.skip(1), table, scope_id, scopes, stash2);
            assert(close_entries(entries, table, scope_id, scopes, stash) == c);
            assert(extends(stash, stash2));
            lemma_extends_trans(stash, stash2, c.1);
            assert forall|i: int, j: int|
                0 <= i < c.0.len() && 0 <= j < c.0[i].shadowed.len() implies declared_in(
                stash,
                (#[trigger] c.0[i].shadowed[j]).1,
            ) by {
                assert(declared_in(stash2, c.0[i].shadowed[j].1));
                let w = choose|w: int|
                    0 <= w < stash2.len() && declares_range(
                        #[trigger] stash2[w],
                        c.0[i].shadowed[j].1,
                    );
                if w >= stash.len() {
                    assert(stash2[w] == delta[w - stash.len()]);
                    lemma_unresolved_declared(refs, dual_bound(table, name));
                } else {
                    assert(stash2[w] == stash[w]);
                }
            }
        }
    }
}

/// The events of a resolved entry contain no declaration.
proof fn lemma_events_for_refs_no_decl(refs: Seq<Reference>, declared_at: TextRange,
    scope_id: usize)
    ensures
        forall|x: int|
            0 <= x < events_for_refs(refs, declared_at, scope_id).len() ==> !(
            #[trigger] events_for_refs(refs, declared_at, scope_id)[x] is DeclarationFound),
    decreases refs.len(),
{
    if refs.len() > 0 {
        lemma_events_for_refs_no_decl(refs.skip(1), declared_at, scope_id);
        assert(forall|x: int|
            0 <= x < events_for_refs(refs.skip(1), declared_at, scope_id).len()
                ==> events_for_refs(refs, declared_at, scope_id)[x + events_for_ref(
                refs[0],
                declared_at,
                scope_id,
            ).len()] == #[trigger] events_for_refs(refs.skip(1), declared_at, scope_id)[x]);
    }
}

/// The ranges `remove_all` and `restore_all` leave in the table come from
/// the original table or from the restored undo log.
proof fn lemma_remove_all_values(table: Map<crate::binding::BindingName, TextRange>,
    names: Seq<crate::binding::BindingName>)
    ensures
        forall|k: crate::binding::BindingName|
            #[trigger] crate::model::remove_all(table, names).contains_key(k)
                ==> table.contains_key(k) && crate::model::remove_all(table, names)[k]
                == table[k],
    decreases names.len(),
{
    if names.len() == 0 {
        assert(crate::model::remove_all(table, names) == table);
    } else {
        lemma_remove_all_values(table.remove(names[0]), names.skip(1));
        assert(crate::model::remove_all(table, names) == crate::model::remove_all(
            table.remove(names[0]),
            names.skip(1),
        ));
        assert forall|k: crate::binding::BindingName|
            #[trigger] crate::model::remove_all(table, names).contains_key(k)
                implies table.contains_key(k) && crate::model::remove_all(table, names)[k]
                == table[k] by {
            let v = crate::model::remove_all(table.remove(names[0]), names.skip(1))[k];
            assert(crate::model::remove_all(table.remove(names[0]), names.skip(1)).contains_key(
                k,
            ));
            assert(table.remove(names[0]).contains_key(k) && v == table.remove(names[0])[k]);
        }
    }
}

proof fn lemma_restore_all_values(table: Map<crate::binding::BindingName, TextRange>,
    entries: Seq<(crate::binding::BindingName, TextRange)>)
    ensures
        forall|k: crate::binding::BindingName|
            crate::model::restore_all(table, entries).contains_key(k) ==> ((table.contains_key(
                k,
            ) && #[trigger] crate::model::restore_all(table, entries)[k] == table[k]) || exists|
                j: int,
            |
                0 <= j < entries.len() && (#[trigger] entries[j]).1 == crate::model::restore_all(
                    table,
                    entries,
                )[k]),
    decreases entries.len(),
{
    if entries.len() > 0 {
        let t2 = table.insert(entries[0].0, entries[0].1);
        lemma_restore_all_values(t2, entries.skip(1));
        assert(crate::model::restore_all(table, entries) == crate::model::restore_all(
            t2,
            entries.skip(1),
        ));
        assert forall|k: crate::binding::BindingName|
            crate::model::restore_all(table, entries).contains_key(k) implies ((
        table.contains_key(k) && #[trigger] crate::model::restore_all(table, entries)[k]
            == table[k]) || exists|j: int|
            0 <= j < entries.len() && (#[trigger] entries[j]).1 == crate::model::restore_all(
                table,
                entries,
            )[k]) by {
            let v = crate::model::restore_all(table, entries)[k];
            if t2.contains_key(k) && crate::model::restore_all(t2, entries.skip(1))[k]
                == t2[k] {
                if k == entries[0].0 {
                    assert((#[trigger] entries[0]).1 == v);
                }
            } else {
                let j = choose|j: int|
                    0 <= j < entries.skip(1).len() && (#[trigger] entries.skip(1)[j]).1
                        == crate::model::restore_all(t2, entries.skip(1))[k];
                assert(entries.skip(1)[j] == entries[j + 1]);
                assert((#[trigger] entries[j + 1]).1 == v);
            }
        }
    }
}

/// One step of a well-formed walk preserves the declaration invariant.
proof fn lemma_step_p2(m: ExtractorModel, step: WalkStep)
    requires
        declarations_inv(m),
        step_ok(m, step),
    ensures
        declarations_inv(step_spec(m, step)),
{
    match step {
        WalkStep::Enter(node) => {
            match node.kind {
                NodeKind::IdentifierBinding(info) => {
                    lemma_enter_binding_p2(m, info, node.range);
                },
                NodeKind::ReferenceIdentifier(info) => {
                    lemma_usage_p2(m, model_enter_reference(m, info, node.range));
                },
                NodeKind::JsxReferenceIdentifier(tok) => {
                    match tok {
                        None => {},
                        Some(t) => {
                            lemma_usage_p2(
                                m,
                                model_push_reference(
                                    m,
                                    crate::binding::BindingName::Value(t.sym),
                                    Reference::Read(node.range),
                                ),
                            );
                        },
                    }
                },
                NodeKind::IdentifierAssignment(tok) => {
                    match tok {
                        None => {},
                        Some(t) => {
                            lemma_usage_p2(
                                m,
                                model_push_reference(
                                    m,
                                    crate::binding::BindingName::Value(t.sym),
                                    Reference::Write(node.range),
                                ),
                            );
                        },
                    }
                },
                NodeKind::TsType(t) => {
                    if t.in_conditional_true_type {
                        let m2 = model_push_scope(
                            m,
                            node.range,
                            crate::binding::ScopeHoisting::DontHoistDeclarationsToParent,
                            false,
                        );
                        lemma_push_scope_p2(m, m2);
                        lemma_drain_p2(m2, m.infers);
                    } else if t.is_function_type {
                        lemma_push_scope_p2(
                            m,
                            model_push_scope(
                                m,
                                node.range,
                                crate::binding::ScopeHoisting::DontHoistDeclarationsToParent,
                                false,
                            ),
                        );
                    }
                },
                NodeKind::Other => {},
                _ => {
                    match scope_shape(node) {
                        Some(shape) => {
                            lemma_push_scope_p2(
                                m,
                                model_push_scope(m, node.range, shape.0, shape.1),
                            );
                        },
                        None => {},
                    }
                },
            }
        },
        WalkStep::Leave(node) => {
            if scope_shape(node) is Some && m.scopes.len() > 0 {
                let scope = m.scopes.last();
                let rest = m.scopes.drop_last();
                assert(forall|i: int, j: int|
                    0 <= i < rest.len() && 0 <= j < rest[i].shadowed.len() ==> declared_in(
                        m.stash,
                        (#[trigger] rest[i].shadowed[j]).1,
                    )) by {
                    assert(forall|i: int| 0 <= i < rest.len() ==> rest[i] == m.scopes[i]);
                }
                lemma_close_p2(scope.references, m.bindings, scope.scope_id, rest, m.stash);
                let closed = close_entries(
                    scope.references,
                    m.bindings,
                    scope.scope_id,
                    rest,
                    m.stash,
                );
                let r = model_pop_scope(m, node.range);
                assert(r.stash =~= closed.1 + seq![
                    SemanticEvent::ScopeEnded { range: node.range, scope_id: scope.scope_id },
                ]);
                lemma_resolutions_append(closed.1, seq![
                    SemanticEvent::ScopeEnded { range: node.range, scope_id: scope.scope_id },
                ]);
                let table2 = crate::model::remove_all(m.bindings, scope.bindings);
                lemma_remove_all_values(m.bindings, scope.bindings);
                lemma_restore_all_values(table2, scope.shadowed);
                assert forall|k: crate::binding::BindingName| r.bindings.contains_key(k)
                    implies declared_in(r.stash, #[trigger] r.bindings[k]) by {
                    if table2.contains_key(k) && r.bindings[k] == table2[k] {
                        lemma_declared_monotone(m.stash, r.stash, r.bindings[k]);
                    } else {
                        let j = choose|j: int|
                            0 <= j < scope.shadowed.len() && (#[trigger] scope.shadowed[j]).1
                                == r.bindings[k];
                        assert(declared_in(m.stash, scope.shadowed[j].1));
                        lemma_declared_monotone(m.stash, r.stash, r.bindings[k]);
                    }
                }
                assert forall|i: int, j: int|
                    0 <= i < r.scopes.len() && 0 <= j < r.scopes[i].shadowed.len()
                    implies declared_in(r.stash, (#[trigger] r.scopes[i].shadowed[j]).1) by {
                    assert(declared_in(m.stash, closed.0[i].shadowed[j].1));
                    lemma_declared_monotone(m.stash, r.stash, r.scopes[i].shadowed[j].1);
                }
            }
        },
    }
}

/// Recording a reference moves no range at all.
proof fn lemma_usage_p2(m: ExtractorModel, r: ExtractorModel)
    requires
        declarations_inv(m),
        r.stash == m.stash,
        r.bindings == m.bindings,
        r.scopes.len() == m.scopes.len(),
        forall|i: int|
            0 <= i < m.scopes.len() ==> #[trigger] r.scopes[i].shadowed
                == m.scopes[i].shadowed,
    ensures
        declarations_inv(r),
{
}

/// Opening a scope adds no range and an empty undo log.
proof fn lemma_push_scope_p2(m: ExtractorModel, r: ExtractorModel)
    requires
        declarations_inv(m),
        r.stash.len() == m.stash.len() + 1,
        forall|x: int| 0 <= x < m.stash.len() ==> r.stash[x] == #[trigger] m.stash[x],
        resolves_against(r.stash.last()) is None,
        r.bindings == m.bindings,
        r.scopes.len() == m.scopes.len() + 1,
        forall|i: int|
            0 <= i < m.scopes.len() ==> #[trigger] r.scopes[i].shadowed
                == m.scopes[i].shadowed,
        r.scopes.last().shadowed.len() == 0,
    ensures
        declarations_inv(r),
{
    assert(r.stash =~= m.stash + seq![r.stash.last()]);
    lemma_resolutions_append(m.stash, seq![r.stash.last()]);
    assert forall|k: crate::binding::BindingName| r.bindings.contains_key(k)
        implies declared_in(r.stash, #[trigger] r.bindings[k]) by {
        lemma_declared_monotone(m.stash, r.stash, r.bindings[k]);
    }
    assert forall|i: int, j: int|
        0 <= i < r.scopes.len() && 0 <= j < r.scopes[i].shadowed.len() implies declared_in(
        r.stash,
        (#[trigger] r.scopes[i].shadowed[j]).1,
    ) by {
        lemma_declared_monotone(m.stash, r.stash, r.scopes[i].shadowed[j].1);
    }
}

/// Draining the queued `infer` declarations preserves the invariant.
proof fn lemma_drain_p2(m: ExtractorModel, infers: Seq<NameToken>)
    requires
        declarations_inv(m),
    ensures
        declarations_inv(drain_infers(m, infers)),
    decreases infers.len(),
{
    if infers.len() > 0 {
        let tok = infers[0];
        let m2 = model_push_binding(
            m,
            None,
            crate::binding::BindingName::Type(tok.sym),
            tok.range,
        );
        assert(pending_declaration(m, m, tok.range));
        lemma_push_binding_pending(
            m,
            m,
            None,
            crate::binding::BindingName::Type(tok.sym),
            tok.range,
        );
        let ev = SemanticEvent::DeclarationFound {
            name_token: tok,
            scope_id: crate::model::current_scope_id(m2),
            hoisted_scope_id: None,
        };
        lemma_push_binding_plain(
            m,
            None,
            crate::binding::BindingName::Type(tok.sym),
            tok.range,
        );
        let m3 = ExtractorModel { stash: m2.stash.push(ev), ..m2 };
        assert(m3.stash =~= m.stash + seq![ev]);
        lemma_resolutions_append(m.stash, seq![ev]);
        assert(m3.stash[m.stash.len() as int] == ev);
        assert(declared_in(m3.stash, tok.range));
        assert forall|k: crate::binding::BindingName| m3.bindings.contains_key(k)
            implies declared_in(m3.stash, #[trigger] m3.bindings[k]) by {
            if m3.bindings[k] == tok.range {
            } else {
                lemma_declared_monotone(m.stash, m3.stash, m3.bindings[k]);
            }
        }
        assert forall|i: int, j: int|
            0 <= i < m3.scopes.len() && 0 <= j < m3.scopes[i].shadowed.len()
            implies declared_in(m3.stash, (#[trigger] m3.scopes[i].shadowed[j]).1) by {
            if m3.scopes[i].shadowed[j].1 == tok.range {
            } else {
                lemma_declared_monotone(m.stash, m3.stash, m3.scopes[i].shadowed[j].1);
            }
        }
        lemma_drain_p2(m3, infers.skip(1));
    }
}

proof fn lemma_run_p2(m: ExtractorModel, walk: Seq<WalkStep>)
    requires
        declarations_inv(m),
        run_ok(m, walk),
    ensures
        declarations_inv(run_model(m, walk)),
    decreases walk.len(),
{
    if walk.len() > 0 {
        lemma_step_p2(m, walk[0]);
        lemma_run_p2(step_spec(m, walk[0]), walk.skip(1));
    }
}

/// Every `Read`, `HoistedRead`, `Write` and `HoistedWrite` event resolves
/// against the name-token range of a `DeclarationFound` event emitted
/// before it.
pub proof fn lemma_references_resolve_to_declarations(walk: Seq<WalkStep>)
    requires
        run_ok(init_model(), walk),
    ensures
        resolutions_declared(run_model(init_model(), walk).stash),
{
    lemma_run_p2(init_model(), walk);
}

} // verus!
