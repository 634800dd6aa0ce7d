//! The semantic event extractor.
//!
//! The extraction is not entirely pull based, nor entirely push based: some
//! nodes generate multiple events, and a hoisted declaration resolves many
//! pending references at once. The caller pushes every node of its tree in
//! pre-order, through `enter` and `leave`, and pulls events with `pop` until
//! it returns `None`. `semantic_events` wraps the three for a whole walk.
//!
//! Every method is proved to implement the corresponding transition of the
//! model in `crate::model`, so the stream-level laws proved there hold of
//! this code.

use vstd::prelude::*;
use std::collections::VecDeque;
use crate::binding::{BindingName, Reference, ScopeHoisting};
use crate::binding_table::BindingTable;
use crate::events::SemanticEvent;
use crate::model::{
    binding_needs_scope, current_scope_id, drain_infers, enter_spec, hoist_target, init_model,
    leave_spec, lemma_hoist_target_exists, lemma_refs_append_absent, lemma_refs_append_found,
    lemma_refs_push_absent, lemma_refs_push_found, lemma_run_ok_step, lemma_run_step,
    lemma_remove_all_snoc, lemma_restore_all_snoc, lemma_scope_index_of, lemma_scope_index_unique,
    lemma_wf_distinct_ids, model_enter_binding,
    model_enter_conditional_true, model_enter_reference, model_pop_scope, model_push_binding,
    model_push_reference, model_push_scope, model_wf, parent_scope_id, run_model, run_ok,
    scope_index_of, step_ok, with_declaration_event, close_entries, events_for_ref,
    events_for_refs, find_no_hoist, refs_append, refs_push, remove_all, restore_all, step_spec,
    unresolved_events, ExtractorModel, ScopeModel,
};
use crate::syntax::{BindingDecl, BindingInfo, NameToken, NodeInfo, NodeKind, RefContext,
    TextRange, UsageInfo, WalkStep};

verus! {

/// The pending references of one name, in insertion order.
struct RefEntry {
    name: BindingName,
    refs: Vec<Reference>,
}

impl View for RefEntry {
    type V = (BindingName, Seq<Reference>);

    closed spec fn view(&self) -> (BindingName, Seq<Reference>) {
        (self.name, self.refs@)
    }
}

/// One open scope.
struct Scope {
    scope_id: usize,
    /// All bindings declared inside this scope.
    bindings: Vec<BindingName>,
    /// References that still need to be bound, solved at the end of the scope.
    references: Vec<RefEntry>,
    /// All bindings that were shadowed and will be restored after this scope
    /// ends.
    shadowed: Vec<(BindingName, TextRange)>,
    /// Whether this scope lets declarations be hoisted to the parent scope.
    hoisting: ScopeHoisting,
}

impl View for Scope {
    type V = ScopeModel;

    closed spec fn view(&self) -> ScopeModel {
        ScopeModel {
            scope_id: self.scope_id,
            bindings: self.bindings@,
            references: self.references@.map_values(|e: RefEntry| e@),
            shadowed: self.shadowed@,
            hoisting: self.hoisting,
        }
    }
}

/// Extracts semantic events from a pre-order walk of a syntax tree.
pub struct SemanticEventExtractor {
    /// Event queue.
    stash: VecDeque<SemanticEvent>,
    /// Stack of open scopes, outermost at the bottom.
    scopes: Vec<Scope>,
    /// Number of scopes generated so far; the next scope id.
    scope_count: usize,
    /// The bindings currently visible, and the range each was declared at.
    bindings: BindingTable,
    /// Type parameters bound in `infer T` clauses, waiting for their
    /// conditional-true scope to open.
    infers: Vec<NameToken>,
}

impl View for SemanticEventExtractor {
    type V = ExtractorModel;

    closed spec fn view(&self) -> ExtractorModel {
        ExtractorModel {
            stash: self.stash@,
            scopes: self.scopes@.map_values(|s: Scope| s@),
            scope_count: self.scope_count,
            bindings: self.bindings@,
            infers: self.infers@,
        }
    }
}

impl SemanticEventExtractor {
    /// The internal well-formedness every public call preserves.
    pub closed spec fn wf(self) -> bool {
        self.bindings.wf() && model_wf(self@)
    }

    pub fn new() -> (r: SemanticEventExtractor)
        ensures
            r.wf(),
            r@ == init_model(),
    {
        let r = SemanticEventExtractor {
            stash: VecDeque::new(),
            scopes: Vec::new(),
            scope_count: 0,
            bindings: BindingTable::new(),
            infers: Vec::new(),
        };
        proof {
            assert(r@ =~~= init_model());
        }
        r
    }

    /// Opens a fresh scope: emits its `ScopeStarted` event and pushes it.
    fn push_scope(&mut self, range: TextRange, hoisting: ScopeHoisting, is_closure: bool)
        requires
            old(self).wf(),
            old(self).scope_count < usize::MAX,
        ensures
            final(self).wf(),
            final(self)@ == model_push_scope(old(self)@, range, hoisting, is_closure),
    {
        let scope_id = self.scope_count;
        self.scope_count = self.scope_count + 1;
        let n = self.scopes.len();
        let parent_scope_id = if n > 0 {
            Some(self.scopes[n - 1].scope_id)
        } else {
            None
        };
        self.stash.push_back(
            SemanticEvent::ScopeStarted { range, scope_id, parent_scope_id, is_closure },
        );
        self.scopes.push(
            Scope {
                scope_id,
                bindings: Vec::new(),
                references: Vec::new(),
                shadowed: Vec::new(),
                hoisting,
            },
        );
        proof {
            assert(self@ =~~= model_push_scope(old(self)@, range, hoisting, is_closure));
        }
    }

    /// Appends the `DeclarationFound` event of a binding, and its `Exported`
    /// event when the declaration is exported.
    fn declaration_event(
        &mut self,
        name_token: NameToken,
        hoisted_scope_id: Option<usize>,
        is_exported: bool,
        node_range: TextRange,
    )
        requires
            old(self).wf(),
            old(self)@.scopes.len() > 0,
        ensures
            final(self).wf(),
            final(self)@ == with_declaration_event(
                old(self)@,
                name_token,
                hoisted_scope_id,
                is_exported,
                node_range,
            ),
    {
        let n = self.scopes.len();
        let scope_id = self.scopes[n - 1].scope_id;
        self.stash.push_back(
            SemanticEvent::DeclarationFound { name_token, scope_id, hoisted_scope_id },
        );
        if is_exported {
            self.stash.push_back(SemanticEvent::Exported { range: node_range });
        }
        proof {
            assert(self@ =~~= with_declaration_event(
                old(self)@,
                name_token,
                hoisted_scope_id,
                is_exported,
                node_range,
            ));
        }
    }

    /// Records a binding in the hoisted scope if one is given, else in the
    /// current scope, updating the flat table and the scope's undo log.
    #[verifier::loop_isolation(false)]
    fn push_binding(
        &mut self,
        hoisted_scope_id: Option<usize>,
        name: BindingName,
        name_range: TextRange,
    )
        requires
            old(self).wf(),
            old(self)@.scopes.len() > 0,
            hoisted_scope_id matches Some(id) ==> scope_index_of(old(self)@.scopes, id) >= 0,
        ensures
            final(self).wf(),
            final(self)@.scopes.len() == old(self)@.scopes.len(),
            forall|k: int|
                0 <= k < old(self)@.scopes.len() ==> #[trigger] final(self)@.scopes[k].scope_id
                    == old(self)@.scopes[k].scope_id,
            final(self)@ == model_push_binding(old(self)@, hoisted_scope_id, name, name_range),
    {
        let n = self.scopes.len();
        let target = match hoisted_scope_id {
            Some(id) => id,
            None => self.scopes[n - 1].scope_id,
        };
        proof {
            lemma_wf_distinct_ids(self@);
            if hoisted_scope_id is None {
                lemma_scope_index_unique(self@.scopes, n - 1);
            }
            lemma_scope_index_of(self@.scopes, target);
        }
        for i in 0..n
            invariant
                n == self.scopes.len(),
                self == old(self),
                scope_index_of(self@.scopes, target) >= 0,
                forall|j: int| 0 <= j < i ==> self@.scopes[j].scope_id != target,
        {
            if self.scopes[i].scope_id == target {
                proof {
                    lemma_wf_distinct_ids(self@);
                    lemma_scope_index_unique(self@.scopes, i as int);
                }
                let shadowed = self.bindings.insert(name, name_range);
                if let Some(prev) = shadowed {
                    self.scopes[i].shadowed.push((name, prev));
                }
                self.scopes[i].bindings.push(name);
                proof {
                    assert(forall|k: int|
                        0 <= k < self@.scopes.len() ==> self@.scopes[k].scope_id == old(
                            self,
                        )@.scopes[k].scope_id);
                    assert(self@ =~~= model_push_binding(
                        old(self)@,
                        hoisted_scope_id,
                        name,
                        name_range,
                    ));
                }
                return;
            }
        }
        proof {
            lemma_scope_index_of(self@.scopes, target);
            assert(false);
        }
    }

    /// Records a pending reference of `name` in the current scope.
    #[verifier::loop_isolation(false)]
    fn push_reference(&mut self, name: BindingName, reference: Reference)
        requires
            old(self).wf(),
            old(self)@.scopes.len() > 0,
        ensures
            final(self).wf(),
            final(self)@ == model_push_reference(old(self)@, name, reference),
    {
        let top = self.scopes.len() - 1;
        let n = self.scopes[top].references.len();
        for i in 0..n
            invariant
                self == old(self),
                top == self.scopes.len() - 1,
                n == self.scopes@[top as int].references.len(),
                forall|j: int|
                    0 <= j < i ==> self@.scopes[top as int].references[j].0 != name,
        {
            if self.scopes[top].references[i].name == name {
                self.scopes[top].references[i].refs.push(reference);
                proof {
                    lemma_refs_push_found(
                        old(self)@.scopes[top as int].references,
                        name,
                        reference,
                        i as int,
                    );
                    assert(self@ =~~= model_push_reference(old(self)@, name, reference));
                }
                return;
            }
        }
        let mut refs: Vec<Reference> = Vec::new();
        refs.push(reference);
        self.scopes[top].references.push(RefEntry { name, refs });
        proof {
            lemma_refs_push_absent(old(self)@.scopes[top as int].references, name, reference);
            assert(self@ =~~= model_push_reference(old(self)@, name, reference));
        }
    }

    /// Finds the scope that hoisted declarations belong to: the nearest
    /// enclosing scope that does not hoist its declarations, skipping `skip`
    /// scopes from the top. `None` when that scope is the current one.
    #[verifier::loop_isolation(false)]
    fn scope_index_to_hoist_declarations(&self, skip: usize) -> (r: Option<usize>)
        ensures
            r == hoist_target(self@.scopes, skip as int),
    {
        let n = self.scopes.len();
        let k0 = if skip <= n {
            n - skip
        } else {
            0
        };
        let mut j = k0;
        let mut found: Option<usize> = None;
        proof {
            assert(self@.scopes.take(k0 as int) =~= (if skip <= self@.scopes.len() {
                self@.scopes.take(self@.scopes.len() - skip)
            } else {
                Seq::<ScopeModel>::empty()
            }));
        }
        while j > 0 && found.is_none()
            invariant
                j <= k0 <= n == self.scopes.len(),
                found is None ==> find_no_hoist(self@.scopes.take(k0 as int)) == find_no_hoist(
                    self@.scopes.take(j as int),
                ),
                found matches Some(id) ==> find_no_hoist(self@.scopes.take(k0 as int)) == Some(
                    id,
                ),
            decreases j,
        {
            j = j - 1;
            proof {
                assert(self@.scopes.take(j + 1).drop_last() =~= self@.scopes.take(j as int));
                assert(self@.scopes.take(j + 1).last() == self@.scopes[j as int]);
            }
            if matches!(self.scopes[j].hoisting, ScopeHoisting::DontHoistDeclarationsToParent) {
                found = Some(self.scopes[j].scope_id);
            }
        }
        proof {
            if found is None {
                assert(j == 0);
                assert(self@.scopes.take(0) =~= Seq::<ScopeModel>::empty());
            }
        }
        match found {
            Some(id) => {
                if n > 0 && self.scopes[n - 1].scope_id == id {
                    None
                } else {
                    Some(id)
                }
            },
            None => None,
        }
    }

    /// Handles an identifier binding: consults the owning declaration's
    /// group, records the binding in the right scope and namespaces, and
    /// emits its declaration events.
    fn enter_identifier_binding(&mut self, info: BindingInfo, node_range: TextRange)
        requires
            old(self).wf(),
            binding_needs_scope(info) ==> old(self)@.scopes.len() > 0,
        ensures
            final(self).wf(),
            final(self)@ == model_enter_binding(old(self)@, info, node_range),
    {
        let name_token = match info.name_token {
            Some(t) => t,
            None => {
                return ;
            },
        };
        let sym = name_token.sym;
        let name_range = name_token.range;
        match info.declaration {
            None => {
                self.push_binding(None, BindingName::Value(sym), name_range);
                self.declaration_event(name_token, None, false, node_range);
            },
            Some(decl) => match decl {
                BindingDecl::VariableDeclarator { is_var } => {
                    let is_var = match is_var {
                        Some(v) => v,
                        None => {
                            return ;
                        },
                    };
                    let hoisted = if is_var {
                        self.scope_index_to_hoist_declarations(0)
                    } else {
                        None
                    };
                    proof {
                        lemma_hoist_target_exists(old(self)@.scopes, 0);
                    }
                    self.push_binding(hoisted, BindingName::Value(sym), name_range);
                    self.declaration_event(name_token, hoisted, info.is_exported, node_range);
                },
                BindingDecl::FunctionDeclaration => {
                    let hoisted = self.scope_index_to_hoist_declarations(1);
                    proof {
                        lemma_hoist_target_exists(old(self)@.scopes, 1);
                    }
                    self.push_binding(hoisted, BindingName::Value(sym), name_range);
                    self.declaration_event(name_token, hoisted, info.is_exported, node_range);
                },
                BindingDecl::FunctionOrClassExpression => {
                    self.push_binding(None, BindingName::Value(sym), name_range);
                    self.push_binding(None, BindingName::Type(sym), name_range);
                    self.declaration_event(name_token, None, info.is_exported, node_range);
                },
                BindingDecl::ClassOrEnumDeclaration => {
                    let hoisted = self.parent_scope_of_current();
                    self.push_binding(hoisted, BindingName::Value(sym), name_range);
                    proof {
                        self.lemma_hoisted_still_there(old(self)@, hoisted);
                    }
                    self.push_binding(hoisted, BindingName::Type(sym), name_range);
                    self.declaration_event(name_token, hoisted, info.is_exported, node_range);
                },
                BindingDecl::InterfaceOrTypeAlias => {
                    let hoisted = self.parent_scope_of_current();
                    self.push_binding(hoisted, BindingName::Type(sym), name_range);
                    self.declaration_event(name_token, hoisted, info.is_exported, node_range);
                },
                BindingDecl::ModuleDeclaration => {
                    let hoisted = self.parent_scope_of_current();
                    self.push_binding(hoisted, BindingName::Value(sym), name_range);
                    self.declaration_event(name_token, hoisted, info.is_exported, node_range);
                },
                BindingDecl::MappedTypeOrTypeParameter => {
                    self.push_binding(None, BindingName::Type(sym), name_range);
                    self.declaration_event(name_token, None, info.is_exported, node_range);
                },
                BindingDecl::ImportClause { type_only } => {
                    self.push_import(type_only, sym, name_range);
                    self.declaration_event(name_token, None, info.is_exported, node_range);
                },
                BindingDecl::DefaultOrNamespaceImportSpecifier { clause_type_only } => {
                    let type_only = match clause_type_only {
                        Some(t) => t,
                        None => {
                            return ;
                        },
                    };
                    self.push_import(type_only, sym, name_range);
                    self.declaration_event(name_token, None, info.is_exported, node_range);
                },
                BindingDecl::NamedImportSpecifier { imports_only_types } => {
                    self.push_import(imports_only_types, sym, name_range);
                    self.declaration_event(name_token, None, info.is_exported, node_range);
                },
                BindingDecl::Parameter => {
                    self.push_binding(None, BindingName::Value(sym), name_range);
                    self.declaration_event(name_token, None, info.is_exported, node_range);
                },
                BindingDecl::InferTypeParameter => {
                    // Delay the declaration: its scope is the true branch of
                    // the conditional type, which has not opened yet.
                    self.infers.push(name_token);
                    proof {
                        assert(self@ =~~= model_enter_binding(old(self)@, info, node_range));
                    }
                },
            },
        }
    }

    /// The id of the scope below the current one, if there is one: the scope
    /// a declaration that opened its own scope belongs to.
    fn parent_scope_of_current(&self) -> (r: Option<usize>)
        requires
            self.wf(),
        ensures
            r == parent_scope_id(self@),
            r matches Some(id) ==> scope_index_of(self@.scopes, id) >= 0,
    {
        let n = self.scopes.len();
        if n >= 2 {
            let id = self.scopes[n - 2].scope_id;
            proof {
                lemma_wf_distinct_ids(self@);
                lemma_scope_index_unique(self@.scopes, n - 2);
            }
            Some(id)
        } else {
            None
        }
    }

    /// After one `push_binding`, a hoisted target id is still on the stack.
    proof fn lemma_hoisted_still_there(self, prior: ExtractorModel, hoisted: Option<usize>)
        requires
            hoisted matches Some(id) ==> scope_index_of(prior.scopes, id) >= 0,
            self@.scopes.len() == prior.scopes.len(),
            forall|k: int|
                0 <= k < prior.scopes.len() ==> self@.scopes[k].scope_id
                    == prior.scopes[k].scope_id,
        ensures
            hoisted matches Some(id) ==> scope_index_of(self@.scopes, id) >= 0,
    {
        match hoisted {
            Some(id) => {
                lemma_scope_index_of(prior.scopes, id);
                let j = scope_index_of(prior.scopes, id);
                assert(self@.scopes[j].scope_id == id);
                lemma_scope_index_of(self@.scopes, id);
            },
            None => {},
        }
    }

    /// Records an import binding: a type-only import binds the type
    /// namespace alone, a value import binds both namespaces.
    fn push_import(&mut self, type_only: bool, sym: u32, name_range: TextRange)
        requires
            old(self).wf(),
            old(self)@.scopes.len() > 0,
        ensures
            final(self).wf(),
            final(self)@.scopes.len() == old(self)@.scopes.len(),
            final(self)@ == crate::model::model_push_import(old(self)@, type_only, sym, name_range),
    {
        if type_only {
            self.push_binding(None, BindingName::Type(sym), name_range);
        } else {
            self.push_binding(None, BindingName::Value(sym), name_range);
            self.push_binding(None, BindingName::Type(sym), name_range);
        }
    }

    /// Handles a reference identifier: classifies it by where it stands and
    /// records the pending references.
    fn enter_identifier_usage(&mut self, info: UsageInfo, range: TextRange)
        requires
            old(self).wf(),
            info.name_token is Some ==> old(self)@.scopes.len() > 0,
        ensures
            final(self).wf(),
            final(self)@ == model_enter_reference(old(self)@, info, range),
    {
        let name_token = match info.name_token {
            Some(t) => t,
            None => {
                return ;
            },
        };
        let sym = name_token.sym;
        match info.context {
            RefContext::NamedExportSpecifier { exports_only_types } => {
                if exports_only_types {
                    self.push_reference(BindingName::Type(sym), Reference::ExportType(range));
                } else {
                    self.push_reference(BindingName::Value(sym), Reference::Export(range));
                    self.push_reference(BindingName::Type(sym), Reference::Export(range));
                }
            },
            RefContext::ExportDefaultOrAssignmentClause => {
                self.push_reference(BindingName::Value(sym), Reference::Export(range));
                self.push_reference(BindingName::Type(sym), Reference::Export(range));
            },
            _ => {
                if info.is_this {
                    // `this` in a typeof position is a syntactic false
                    // positive, not a reference.
                    return ;
                }
                match info.context {
                    RefContext::TypeReference => {
                        self.push_reference(BindingName::Type(sym), Reference::Read(range));
                    },
                    RefContext::ImportTypeQualifier => {
                        // A binding `<X>` of `import().<X>` is not a
                        // reference.
                    },
                    _ => {
                        self.push_reference(BindingName::Value(sym), Reference::Read(range));
                    },
                }
            },
        }
    }

    /// Opens the scope of a conditional type's true branch, then declares
    /// every queued `infer T` type parameter in it.
    #[verifier::loop_isolation(false)]
    fn push_conditional_true_scope(&mut self, range: TextRange)
        requires
            old(self).wf(),
            old(self).scope_count < usize::MAX,
        ensures
            final(self).wf(),
            final(self)@ == model_enter_conditional_true(old(self)@, range),
    {
        self.push_scope(range, ScopeHoisting::DontHoistDeclarationsToParent, false);
        let ghost queued = old(self)@.infers;
        let ghost drained = drain_infers(self@, queued);
        proof {
            assert(queued.skip(0) =~= queued);
        }
        let n = self.infers.len();
        for j in 0..n
            invariant
                n == self.infers.len(),
                self.wf(),
                self@.scopes.len() > 0,
                self@.infers == queued,
                drain_infers(self@, queued.skip(j as int)) == drained,
        {
            let ghost at_head = self@;
            let tok = self.infers[j];
            proof {
                assert(queued.skip(j as int)[0] == queued[j as int]);
                assert(queued.skip(j as int).skip(1) =~= queued.skip(j + 1));
            }
            self.push_binding(None, BindingName::Type(tok.sym), tok.range);
            let top = self.scopes.len();
            let scope_id = self.scopes[top - 1].scope_id;
            self.stash.push_back(
                SemanticEvent::DeclarationFound {
                    name_token: tok,
                    scope_id,
                    hoisted_scope_id: None,
                },
            );
            proof {
                let m2 = model_push_binding(
                    at_head,
                    None,
                    BindingName::Type(tok.sym),
                    tok.range,
                );
                assert(self@ =~~= (ExtractorModel {
                    stash: m2.stash.push(
                        SemanticEvent::DeclarationFound {
                            name_token: tok,
                            scope_id: current_scope_id(m2),
                            hoisted_scope_id: None,
                        },
                    ),
                    ..m2
                }));
                assert(drain_infers(at_head, queued.skip(j as int)) == drain_infers(
                    self@,
                    queued.skip(j + 1),
                ));
            }
        }
        self.infers.clear();
        proof {
            assert(queued.skip(n as int) =~= Seq::<NameToken>::empty());
            assert(self@ =~~= model_enter_conditional_true(old(self)@, range));
        }
    }

    /// Feeds the pre-order entry of a node.
    pub fn enter(&mut self, node: &NodeInfo)
        requires
            old(self).wf(),
            step_ok(old(self)@, WalkStep::Enter(*node)),
        ensures
            final(self).wf(),
            final(self)@ == enter_spec(old(self)@, *node),
    {
        match node.kind {
            NodeKind::IdentifierBinding(info) => {
                self.enter_identifier_binding(info, node.range);
            },
            NodeKind::ReferenceIdentifier(info) => {
                self.enter_identifier_usage(info, node.range);
            },
            NodeKind::JsxReferenceIdentifier(tok) => {
                if let Some(t) = tok {
                    self.push_reference(BindingName::Value(t.sym), Reference::Read(node.range));
                }
            },
            NodeKind::IdentifierAssignment(tok) => {
                if let Some(t) = tok {
                    self.push_reference(BindingName::Value(t.sym), Reference::Write(node.range));
                }
            },
            NodeKind::Module | NodeKind::Script => {
                self.push_scope(node.range, ScopeHoisting::DontHoistDeclarationsToParent, false);
            },
            NodeKind::FunctionDeclaration
            | NodeKind::FunctionExpression
            | NodeKind::ArrowFunctionExpression
            | NodeKind::ConstructorClassMember
            | NodeKind::MethodClassMember
            | NodeKind::GetterClassMember
            | NodeKind::SetterClassMember
            | NodeKind::MethodObjectMember
            | NodeKind::GetterObjectMember
            | NodeKind::SetterObjectMember => {
                self.push_scope(node.range, ScopeHoisting::DontHoistDeclarationsToParent, true);
            },
            NodeKind::FunctionExportDefaultDeclaration
            | NodeKind::ClassDeclaration
            | NodeKind::ClassExportDefaultDeclaration
            | NodeKind::ClassExpression
            | NodeKind::FunctionBody
            | NodeKind::StaticInitializationBlockClassMember
            | NodeKind::TsModuleDeclaration
            | NodeKind::TsExternalModuleDeclaration
            | NodeKind::TsInterfaceDeclaration
            | NodeKind::TsEnumDeclaration
            | NodeKind::TsTypeAliasDeclaration
            | NodeKind::TsDeclareFunctionDeclaration
            | NodeKind::TsDeclareFunctionExportDefaultDeclaration => {
                self.push_scope(node.range, ScopeHoisting::DontHoistDeclarationsToParent, false);
            },
            NodeKind::BlockStatement
            | NodeKind::ForStatement
            | NodeKind::ForOfStatement
            | NodeKind::ForInStatement
            | NodeKind::SwitchStatement
            | NodeKind::CatchClause => {
                self.push_scope(node.range, ScopeHoisting::HoistDeclarationsToParent, false);
            },
            NodeKind::TsType(t) => {
                if t.in_conditional_true_type {
                    self.push_conditional_true_scope(node.range);
                } else if t.is_function_type {
                    self.push_scope(
                        node.range,
                        ScopeHoisting::DontHoistDeclarationsToParent,
                        false,
                    );
                }
            },
            NodeKind::Other => {},
        }
    }

    /// Feeds the pre-order exit of a node: exactly the nodes that opened a
    /// scope close one.
    pub fn leave(&mut self, node: &NodeInfo)
        requires
            old(self).wf(),
            step_ok(old(self)@, WalkStep::Leave(*node)),
        ensures
            final(self).wf(),
            final(self)@ == leave_spec(old(self)@, *node),
    {
        match node.kind {
            NodeKind::Module
            | NodeKind::Script
            | NodeKind::FunctionDeclaration
            | NodeKind::FunctionExportDefaultDeclaration
            | NodeKind::FunctionExpression
            | NodeKind::ArrowFunctionExpression
            | NodeKind::ClassDeclaration
            | NodeKind::ClassExportDefaultDeclaration
            | NodeKind::ClassExpression
            | NodeKind::ConstructorClassMember
            | NodeKind::MethodClassMember
            | NodeKind::GetterClassMember
            | NodeKind::SetterClassMember
            | NodeKind::MethodObjectMember
            | NodeKind::GetterObjectMember
            | NodeKind::SetterObjectMember
            | NodeKind::FunctionBody
            | NodeKind::BlockStatement
            | NodeKind::ForStatement
            | NodeKind::ForOfStatement
            | NodeKind::ForInStatement
            | NodeKind::SwitchStatement
            | NodeKind::CatchClause
            | NodeKind::StaticInitializationBlockClassMember
            | NodeKind::TsDeclareFunctionDeclaration
            | NodeKind::TsDeclareFunctionExportDefaultDeclaration
            | NodeKind::TsInterfaceDeclaration
            | NodeKind::TsEnumDeclaration
            | NodeKind::TsTypeAliasDeclaration
            | NodeKind::TsModuleDeclaration
            | NodeKind::TsExternalModuleDeclaration => {
                self.pop_scope(node.range);
            },
            NodeKind::TsType(t) => {
                if t.in_conditional_true_type {
                    self.pop_scope(node.range);
                } else if t.is_function_type {
                    self.pop_scope(node.range);
                }
            },
            _ => {},
        }
    }

    /// Returns the next extracted event, if any.
    pub fn pop(&mut self) -> (r: Option<SemanticEvent>)
        requires
            old(self).wf(),
        ensures
            final(self).wf(),
            old(self)@.stash.len() == 0 ==> r is None && final(self)@ == old(self)@,
            old(self)@.stash.len() > 0 ==> r == Some(old(self)@.stash[0]) && final(self)@
                == (ExtractorModel { stash: old(self)@.stash.skip(1), ..old(self)@ }),
    {
        let r = self.stash.pop_front();
        proof {
            if old(self)@.stash.len() > 0 {
                assert(self@.stash =~= old(self)@.stash.skip(1));
                assert(self@ =~~= (ExtractorModel {
                    stash: old(self)@.stash.skip(1),
                    ..old(self)@
                }));
            } else {
                assert(self@ =~~= old(self)@);
            }
        }
        r
    }

    /// Closes the innermost scope: resolves or promotes its pending
    /// references, removes its bindings from the flat table, restores the
    /// bindings it shadowed, and emits `ScopeEnded`.
    #[verifier::loop_isolation(false)]
    #[verifier::rlimit(50)]
    fn pop_scope(&mut self, range: TextRange)
        requires
            old(self).wf(),
            old(self)@.scopes.len() > 0,
        ensures
            final(self).wf(),
            final(self)@ == model_pop_scope(old(self)@, range),
    {
        let scope = self.scopes.pop().unwrap();
        let scope_id = scope.scope_id;
        let ghost entries = scope@.references;
        let ghost table = old(self)@.bindings;
        let ghost rest0 = old(self)@.scopes.drop_last();
        let ghost stash0 = old(self)@.stash;
        proof {
            assert(scope@ == old(self)@.scopes.last());
            assert(self@.scopes =~= rest0);
            assert(entries.skip(0) =~= entries);
        }
        let n = scope.references.len();
        for i in 0..n
            invariant
                n == scope.references.len(),
                entries == scope@.references,
                self.wf(),
                self@.bindings == table,
                self@.scope_count == old(self)@.scope_count,
                self@.infers == old(self)@.infers,
                self@.scopes.len() == rest0.len(),
                forall|k: int|
                    0 <= k < rest0.len() ==> #[trigger] self@.scopes[k].scope_id
                        == rest0[k].scope_id,
                close_entries(entries, table, scope_id, rest0, stash0) == close_entries(
                    entries.skip(i as int),
                    table,
                    scope_id,
                    self@.scopes,
                    self@.stash,
                ),
        {
            let ghost scopes_head = self@.scopes;
            let ghost stash_head = self@.stash;
            proof {
                assert(entries.skip(i as int)[0] == entries[i as int]);
                assert(entries.skip(i as int).skip(1) =~= entries.skip(i + 1));
                assert(scope@.references[i as int] == scope.references@[i as int]@);
            }
            let declared = self.bindings.get(scope.references[i].name);
            match declared {
                Some(declared_at) => {
                    self.resolve_entry(&scope, i, declared_at, scope_id);
                    proof {
                        assert(close_entries(
                            entries.skip(i as int),
                            table,
                            scope_id,
                            scopes_head,
                            stash_head,
                        ) == close_entries(
                            entries.skip(i + 1),
                            table,
                            scope_id,
                            self@.scopes,
                            self@.stash,
                        ));
                    }
                },
                None => {
                    let p = self.scopes.len();
                    if p > 0 {
                        self.promote_references(&scope, i);
                        proof {
                            assert(forall|k: int|
                                0 <= k < rest0.len() ==> #[trigger] self@.scopes[k].scope_id
                                    == rest0[k].scope_id);
                            assert(close_entries(
                                entries.skip(i as int),
                                table,
                                scope_id,
                                scopes_head,
                                stash_head,
                            ) == close_entries(
                                entries.skip(i + 1),
                                table,
                                scope_id,
                                self@.scopes,
                                self@.stash,
                            ));
                        }
                    } else {
                        self.unresolved_entry(&scope, i);
                        proof {
                            assert(close_entries(
                                entries.skip(i as int),
                                table,
                                scope_id,
                                scopes_head,
                                stash_head,
                            ) == close_entries(
                                entries.skip(i + 1),
                                table,
                                scope_id,
                                self@.scopes,
                                self@.stash,
                            ));
                        }
                    }
                },
            }
        }
        proof {
            assert(entries.skip(n as int) =~= Seq::<(BindingName, Seq<Reference>)>::empty());
        }
        // Remove all bindings declared in this scope.
        let ghost after_close = self@;
        let ghost table_after_close = self@.bindings;
        proof {
            assert(scope@.bindings.take(0) =~= Seq::<BindingName>::empty());
        }
        let b = scope.bindings.len();
        for i in 0..b
            invariant
                b == scope.bindings.len(),
                self.wf(),
                self@.bindings == remove_all(table_after_close, scope@.bindings.take(i as int)),
                unchanged_but_bindings(self@, after_close),
        {
            self.bindings.remove(scope.bindings[i]);
            proof {
                lemma_remove_all_snoc(
                    table_after_close,
                    scope@.bindings.take(i as int),
                    scope@.bindings[i as int],
                );
                assert(scope@.bindings.take(i + 1) =~= scope@.bindings.take(i as int).push(
                    scope@.bindings[i as int],
                ));
            }
        }
        // Restore shadowed bindings.
        proof {
            assert(scope@.bindings.take(b as int) =~= scope@.bindings);
            assert(scope@.shadowed.take(0) =~= Seq::<(BindingName, TextRange)>::empty());
        }
        let s = scope.shadowed.len();
        for i in 0..s
            invariant
                s == scope.shadowed.len(),
                self.wf(),
                self@.bindings == restore_all(
                    remove_all(table_after_close, scope@.bindings),
                    scope@.shadowed.take(i as int),
                ),
                unchanged_but_bindings(self@, after_close),
        {
            let pair = scope.shadowed[i];
            self.bindings.insert(pair.0, pair.1);
            proof {
                lemma_restore_all_snoc(
                    remove_all(table_after_close, scope@.bindings),
                    scope@.shadowed.take(i as int),
                    scope@.shadowed[i as int],
                );
                assert(scope@.shadowed.take(i + 1) =~= scope@.shadowed.take(i as int).push(
                    scope@.shadowed[i as int],
                ));
            }
        }
        self.stash.push_back(SemanticEvent::ScopeEnded { range, scope_id });
        proof {
            assert(scope@.shadowed.take(s as int) =~= scope@.shadowed);
            assert(close_entries(
                entries.skip(n as int),
                table,
                scope_id,
                after_close.scopes,
                after_close.stash,
            ) == (after_close.scopes, after_close.stash));
            assert(self@ =~~= model_pop_scope(old(self)@, range));
        }
    }

    /// Emits the events of one resolved entry of a closing scope: each
    /// pending reference of the name becomes a read or write event against
    /// the declaration, exports preceded by their `Exported` event.
    #[verifier::loop_isolation(false)]
    fn resolve_entry(&mut self, scope: &Scope, i: usize, declared_at: TextRange, scope_id: usize)
        requires
            old(self).wf(),
            i < scope@.references.len(),
        ensures
            final(self).wf(),
            final(self)@ == (ExtractorModel {
                stash: old(self)@.stash + events_for_refs(
                    scope@.references[i as int].1,
                    declared_at,
                    scope_id,
                ),
                ..old(self)@
            }),
    {
        let ghost refs = scope@.references[i as int].1;
        proof {
            assert(scope@.references[i as int] == scope.references@[i as int]@);
            assert(refs.skip(0) =~= refs);
        }
        let m = scope.references[i].refs.len();
        for k in 0..m
            invariant
                m == refs.len(),
                refs == scope.references@[i as int].refs@,
                i < scope.references@.len(),
                self.wf(),
                unchanged_but_stash(self@, old(self)@),
                old(self)@.stash + events_for_refs(refs, declared_at, scope_id) == self@.stash
                    + events_for_refs(refs.skip(k as int), declared_at, scope_id),
        {
            let ghost stash_k = self@.stash;
            proof {
                assert(refs.skip(k as int)[0] == refs[k as int]);
                assert(refs.skip(k as int).skip(1) =~= refs.skip(k + 1));
            }
            let r = scope.references[i].refs[k];
            if r.is_export() {
                self.stash.push_back(SemanticEvent::Exported { range: declared_at });
            }
            let r_range = r.range();
            let declaration_before_reference = declared_at.start < r_range.start;
            let event = if r.is_write() {
                if declaration_before_reference {
                    SemanticEvent::Write { range: r_range, declared_at, scope_id }
                } else {
                    SemanticEvent::HoistedWrite { range: r_range, declared_at, scope_id }
                }
            } else {
                if declaration_before_reference {
                    SemanticEvent::Read { range: r_range, declared_at, scope_id }
                } else {
                    SemanticEvent::HoistedRead { range: r_range, declared_at, scope_id }
                }
            };
            self.stash.push_back(event);
            proof {
                assert(event == crate::model::resolution_event(
                    refs[k as int],
                    declared_at,
                    scope_id,
                ));
                assert(self@.stash =~= stash_k + events_for_ref(
                    refs[k as int],
                    declared_at,
                    scope_id,
                ));
                assert((stash_k + events_for_ref(refs[k as int], declared_at, scope_id))
                    + events_for_refs(refs.skip(k + 1), declared_at, scope_id) =~= stash_k + (
                events_for_ref(refs[k as int], declared_at, scope_id) + events_for_refs(
                    refs.skip(k + 1),
                    declared_at,
                    scope_id,
                )));
            }
        }
        proof {
            assert(refs.skip(m as int) =~= Seq::<Reference>::empty());
            assert(self@ =~~= (ExtractorModel {
                stash: old(self)@.stash + events_for_refs(refs, declared_at, scope_id),
                ..old(self)@
            }));
        }
    }

    /// Emits the unresolved-reference events of one entry of the outermost
    /// scope: every pending reference of the unbound name is reported,
    /// except export references covered by a binding of the name's dual.
    #[verifier::loop_isolation(false)]
    fn unresolved_entry(&mut self, scope: &Scope, i: usize)
        requires
            old(self).wf(),
            i < scope@.references.len(),
        ensures
            final(self).wf(),
            final(self)@ == (ExtractorModel {
                stash: old(self)@.stash + unresolved_events(
                    scope@.references[i as int].1,
                    crate::model::dual_bound(old(self)@.bindings, scope@.references[i as int].0),
                ),
                ..old(self)@
            }),
    {
        let ghost refs = scope@.references[i as int].1;
        proof {
            assert(scope@.references[i as int] == scope.references@[i as int]@);
            assert(refs.skip(0) =~= refs);
        }
        let has_dual = self.bindings.contains(scope.references[i].name.dual());
        let m = scope.references[i].refs.len();
        for k in 0..m
            invariant
                m == refs.len(),
                refs == scope.references@[i as int].refs@,
                i < scope.references@.len(),
                has_dual == crate::model::dual_bound(
                    old(self)@.bindings,
                    scope@.references[i as int].0,
                ),
                self.wf(),
                unchanged_but_stash(self@, old(self)@),
                old(self)@.stash + unresolved_events(refs, has_dual) == self@.stash
                    + unresolved_events(refs.skip(k as int), has_dual),
        {
            let ghost stash_k = self@.stash;
            proof {
                assert(refs.skip(k as int)[0] == refs[k as int]);
                assert(refs.skip(k as int).skip(1) =~= refs.skip(k + 1));
            }
            let r = scope.references[i].refs[k];
            if has_dual && r.is_export() {
                // An export can export both a value and a type: when the
                // dual binding exists, the export is covered by it.
            } else {
                self.stash.push_back(
                    SemanticEvent::UnresolvedReference {
                        is_read: !r.is_write(),
                        range: r.range(),
                    },
                );
                proof {
                    assert(self@.stash =~= stash_k + seq![
                        SemanticEvent::UnresolvedReference {
                            is_read: !refs[k as int].spec_is_write(),
                            range: refs[k as int].spec_range(),
                        },
                    ]);
                    assert((stash_k + seq![
                        SemanticEvent::UnresolvedReference {
                            is_read: !refs[k as int].spec_is_write(),
                            range: refs[k as int].spec_range(),
                        },
                    ]) + unresolved_events(refs.skip(k + 1), has_dual) =~= stash_k + (seq![
                        SemanticEvent::UnresolvedReference {
                            is_read: !refs[k as int].spec_is_write(),
                            range: refs[k as int].spec_range(),
                        },
                    ] + unresolved_events(refs.skip(k + 1), has_dual)));
                }
            }
        }
        proof {
            assert(refs.skip(m as int) =~= Seq::<Reference>::empty());
            assert(self@ =~~= (ExtractorModel {
                stash: old(self)@.stash + unresolved_events(refs, crate::model::dual_bound(
                    old(self)@.bindings,
                    scope@.references[i as int].0,
                )),
                ..old(self)@
            }));
        }
    }

    /// Promotes the pending references of one entry of a closing scope to
    /// the enclosing scope, preserving their order.
    #[verifier::loop_isolation(false)]
    fn promote_references(&mut self, scope: &Scope, i: usize)
        requires
            old(self).wf(),
            old(self)@.scopes.len() > 0,
            i < scope@.references.len(),
        ensures
            final(self).wf(),
            final(self)@ == promote_spec(old(self)@, scope@.references[i as int]),
    {
        let name = scope.references[i].name;
        let p = self.scopes.len() - 1;
        let cnt = self.scopes[p].references.len();
        for j in 0..cnt
            invariant
                self == old(self),
                p == self.scopes.len() - 1,
                cnt == self@.scopes[p as int].references.len(),
                i < scope@.references.len(),
                name == scope@.references[i as int].0,
                forall|q: int|
                    0 <= q < j ==> self@.scopes[p as int].references[q].0 != name,
        {
            if self.scopes[p].references[j].name == name {
                let ghost parent_refs0 = self@.scopes[p as int].references[j as int].1;
                let ghost refs = scope@.references[i as int].1;
                proof {
                    assert(scope@.references[i as int] == scope.references@[i as int]@);
                    assert(refs.take(0) =~= Seq::<Reference>::empty());
                }
                let m = scope.references[i].refs.len();
                for k in 0..m
                    invariant
                        m == refs.len(),
                        refs == scope@.references[i as int].1,
                        refs == scope.references@[i as int].refs@,
                        p == self.scopes.len() - 1,
                        j < self@.scopes[p as int].references.len(),
                        self.wf(),
                        self@.bindings == old(self)@.bindings,
                        self@.scope_count == old(self)@.scope_count,
                        self@.infers == old(self)@.infers,
                        self@.stash == old(self)@.stash,
                        self@.scopes.len() == old(self)@.scopes.len(),
                        forall|q: int|
                            0 <= q < self@.scopes.len() && q != p ==> self@.scopes[q] == old(
                                self,
                            )@.scopes[q],
                        self@.scopes[p as int] == (ScopeModel {
                            references: old(self)@.scopes[p as int].references.update(
                                j as int,
                                (name, parent_refs0 + refs.take(k as int)),
                            ),
                            ..old(self)@.scopes[p as int]
                        }),
                        forall|q: int|
                            0 <= q < j ==> self@.scopes[p as int].references[q].0 != name,
                        self@.scopes[p as int].references[j as int].0 == name,
                {
                    let ghost head_scopes = self@.scopes;
                    let ghost head_p = self@.scopes[p as int];
                    let r = scope.references[i].refs[k];
                    self.scopes[p].references[j].refs.push(r);
                    proof {
                        assert(refs.take(k + 1).drop_last() =~= refs.take(k as int));
                        assert(parent_refs0 + refs.take(k + 1) =~= (parent_refs0 + refs.take(
                            k as int,
                        )).push(refs[k as int]));
                        assert(self@.scopes =~~= head_scopes.update(p as int, ScopeModel {
                            references: head_p.references.update(
                                j as int,
                                (name, head_p.references[j as int].1.push(refs[k as int])),
                            ),
                            ..head_p
                        }));
                        assert(head_p.references[j as int].1 == parent_refs0 + refs.take(
                            k as int,
                        ));
                        assert(self@.scopes[p as int].references =~~= old(self)@.scopes[
                            p as int].references.update(
                            j as int,
                            (name, parent_refs0 + refs.take(k + 1)),
                        ));
                        assert(self@.scopes[p as int] =~~= (ScopeModel {
                            references: old(self)@.scopes[p as int].references.update(
                                j as int,
                                (name, parent_refs0 + refs.take(k + 1)),
                            ),
                            ..old(self)@.scopes[p as int]
                        }));
                        assert(forall|q: int|
                            0 <= q < self@.scopes.len() ==> #[trigger] self@.scopes[
                                q].scope_id == old(self)@.scopes[q].scope_id);
                    }
                }
                proof {
                    assert(refs.take(m as int) =~= refs);
                    lemma_refs_append_found(
                        old(self)@.scopes[p as int].references,
                        name,
                        refs,
                        j as int,
                    );
                    assert(self@ =~~= promote_spec(old(self)@, scope@.references[i as int]));
                }
                return;
            }
        }
        // The name has no entry in the enclosing scope yet: open one holding
        // all the promoted references.
        let ghost refs = scope@.references[i as int].1;
        proof {
            assert(scope@.references[i as int] == scope.references@[i as int]@);
            assert(refs.take(0) =~= Seq::<Reference>::empty());
        }
        let mut moved: Vec<Reference> = Vec::new();
        let m = scope.references[i].refs.len();
        for k in 0..m
            invariant
                m == refs.len(),
                refs == scope@.references[i as int].1,
                refs == scope.references@[i as int].refs@,
                moved@ == refs.take(k as int),
        {
            moved.push(scope.references[i].refs[k]);
            proof {
                assert(refs.take(k + 1).drop_last() =~= refs.take(k as int));
            }
        }
        proof {
            assert(moved@ =~= refs);
        }
        self.scopes[p].references.push(RefEntry { name, refs: moved });
        proof {
            lemma_refs_append_absent(old(self)@.scopes[p as int].references, name, refs);
            assert(self@ =~~= promote_spec(old(self)@, scope@.references[i as int]));
        }
    }
}

/// The enclosing scope after one entry of a closing scope is promoted into
/// it: its reference list gains the entry's references.
pub open spec fn promote_spec(
    m: ExtractorModel,
    entry: (BindingName, Seq<Reference>),
) -> ExtractorModel
    recommends
        m.scopes.len() > 0,
{
    let parent = m.scopes.last();
    let parent2 = ScopeModel {
        references: refs_append(parent.references, entry.0, entry.1),
        ..parent
    };
    ExtractorModel { scopes: m.scopes.update(m.scopes.len() - 1, parent2), ..m }
}

/// Every part of the state but the binding table is unchanged.
pub open spec fn unchanged_but_bindings(a: ExtractorModel, b: ExtractorModel) -> bool {
    a.stash == b.stash && a.scopes == b.scopes && a.scope_count == b.scope_count && a.infers
        == b.infers
}

/// Every part of the state but the event queue is unchanged.
pub open spec fn unchanged_but_stash(a: ExtractorModel, b: ExtractorModel) -> bool {
    a.scopes == b.scopes && a.bindings == b.bindings && a.scope_count == b.scope_count
        && a.infers == b.infers
}


/// Extracts the semantic events of a whole pre-order walk, in emission
/// order: the stream the extractor produces when the walk is fed step by
/// step and drained.
pub fn semantic_events(walk: &Vec<WalkStep>) -> (events: Vec<SemanticEvent>)
    requires
        run_ok(init_model(), walk@),
    ensures
        events@ == run_model(init_model(), walk@).stash,
{
    let mut extractor = SemanticEventExtractor::new();
    let n = walk.len();
    for i in 0..n
        invariant
            n == walk.len(),
            run_ok(init_model(), walk@),
            extractor.wf(),
            extractor@ == run_model(init_model(), walk@.take(i as int)),
    {
        proof {
            lemma_run_ok_step(init_model(), walk@, i as int);
            lemma_run_step(init_model(), walk@, i as int);
        }
        match walk[i] {
            WalkStep::Enter(node) => extractor.enter(&node),
            WalkStep::Leave(node) => extractor.leave(&node),
        }
    }
    proof {
        assert(walk@.take(n as int) =~= walk@);
    }
    let mut events: Vec<SemanticEvent> = Vec::new();
    loop
        invariant
            extractor.wf(),
            events@ + extractor@.stash == run_model(init_model(), walk@).stash,
        ensures
            events@ == run_model(init_model(), walk@).stash,
        decreases extractor@.stash.len(),
    {
        match extractor.pop() {
            Some(e) => {
                events.push(e);
                proof {
                    assert(events@ + extractor@.stash =~= run_model(
                        init_model(),
                        walk@,
                    ).stash);
                }
            },
            None => {
                proof {
                    assert(events@ =~= run_model(init_model(), walk@).stash);
                }
                break;
            },
        }
    }
    events
}

} // verus!
