//! Binding names and pending references.

use vstd::prelude::*;
use crate::syntax::TextRange;

verus! {

/// A binding name is either a type or a value.
///
/// Two bindings (a type and a value binding) can be associated to the same
/// range. This represents a declaration that is both a type and a value: in
/// TypeScript a class and an enum are both. Allocating two bindings allows
/// properly detecting type and value shadowing in inner scopes.
#[derive(Clone, Copy, Debug, PartialEq, Eq, Hash, Structural)]
pub enum BindingName {
    Type(u32),
    Value(u32),
}

impl BindingName {
    /// The same name in the opposite namespace.
    pub open spec fn spec_dual(self) -> BindingName {
        match self {
            BindingName::Type(sym) => BindingName::Value(sym),
            BindingName::Value(sym) => BindingName::Type(sym),
        }
    }

    pub fn dual(self) -> (r: BindingName)
        ensures
            r == self.spec_dual(),
    {
        match self {
            BindingName::Type(sym) => BindingName::Value(sym),
            BindingName::Value(sym) => BindingName::Type(sym),
        }
    }
}

/// A reference waiting to be bound. The carried range is the range of the
/// referencing identifier; resolution happens when the scope that collected
/// the reference closes.
#[derive(Clone, Copy, Debug, PartialEq, Eq, Structural)]
pub enum Reference {
    /// Read and export a type, a value, or both: `export { A }`.
    Export(TextRange),
    /// Read and export only a type: `export type { T }`, `export { type T }`.
    ExportType(TextRange),
    /// Any read that is not an export.
    Read(TextRange),
    /// An assignment target.
    Write(TextRange),
}

impl Reference {
    /// Whether resolving this reference produces a write event.
    pub open spec fn spec_is_write(self) -> bool {
        self is Write
    }

    pub fn is_write(&self) -> (r: bool)
        ensures
            r == self.spec_is_write(),
    {
        matches!(self, Reference::Write(_))
    }

    /// Whether this reference also exports the binding it resolves to.
    pub open spec fn spec_is_export(self) -> bool {
        self is Export || self is ExportType
    }

    pub fn is_export(&self) -> (r: bool)
        ensures
            r == self.spec_is_export(),
    {
        matches!(self, Reference::Export(_) | Reference::ExportType(_))
    }

    /// The range of the referencing identifier.
    pub open spec fn spec_range(self) -> TextRange {
        match self {
            Reference::Export(range) => range,
            Reference::ExportType(range) => range,
            Reference::Read(range) => range,
            Reference::Write(range) => range,
        }
    }

    pub fn range(&self) -> (r: TextRange)
        ensures
            r == self.spec_range(),
    {
        match self {
            Reference::Export(range) => *range,
            Reference::ExportType(range) => *range,
            Reference::Read(range) => *range,
            Reference::Write(range) => *range,
        }
    }
}

/// Whether declarations made directly inside a scope belong to an enclosing
/// scope instead.
#[derive(Clone, Copy, Debug, PartialEq, Eq, Structural)]
pub enum ScopeHoisting {
    DontHoistDeclarationsToParent,
    HoistDeclarationsToParent,
}

} // verus!
