//! The records of a module's symbol stream.

use vstd::prelude::*;

verus! {

/// A section-relative code offset.
pub type Offset = u64;

/// The identifier under which an inlined function is catalogued.
pub type InlineeId = u32;

/// One entry of a module's symbol stream. Nesting is given by the order of
/// the records alone: a record that opens a scope is followed by the
/// records inside that scope, up to the record that closes it.
#[derive(Clone, Debug, PartialEq, Eq)]
pub enum SymbolRecord {
    /// A procedure of `length` bytes of code from `offset` on; opens its scope.
    ProcedureStart { name: String, offset: Offset, length: u64 },
    /// Closes the scope of a procedure.
    ProcedureEnd,
    /// Opens a lexical scope inside a procedure.
    ScopeBegin,
    /// Closes the innermost open scope.
    ScopeEnd,
    /// The place where the function `inlinee_id` was expanded; opens its scope.
    InlineSiteBegin { inlinee_id: InlineeId },
    /// Any record that address resolution does not act on, among them the
    /// records that could not be decoded.
    Other,
}

impl SymbolRecord {
    /// The record opens a scope, which holds the records after it.
    pub open spec fn opens_scope(&self) -> bool {
        self is ProcedureStart || self is ScopeBegin || self is InlineSiteBegin
    }

    /// The record closes the innermost open scope.
    pub open spec fn closes_scope(&self) -> bool {
        self is ProcedureEnd || self is ScopeEnd
    }

    /// The record that stands for a symbol which is neither a procedure
    /// nor an inline site, by what the symbol does to the scopes: one that
    /// closes a scope is a `ScopeEnd`, one that opens a scope a
    /// `ScopeBegin`, any other is `Other`.
    pub fn scope_marker(opens: bool, closes: bool) -> (record: SymbolRecord)
        ensures
            record == if closes {
                SymbolRecord::ScopeEnd
            } else if opens {
                SymbolRecord::ScopeBegin
            } else {
                SymbolRecord::Other
            },
    {
        if closes {
            SymbolRecord::ScopeEnd
        } else if opens {
            SymbolRecord::ScopeBegin
        } else {
            SymbolRecord::Other
        }
    }

    /// Whether the record opens a scope.
    pub fn starts_scope(&self) -> (opens: bool)
        ensures
            opens == self.opens_scope(),
    {
        match self {
            SymbolRecord::ProcedureStart { .. } => true,
            SymbolRecord::ScopeBegin => true,
            SymbolRecord::InlineSiteBegin { .. } => true,
            _ => false,
        }
    }

    /// Whether the record closes a scope.
    pub fn ends_scope(&self) -> (closes: bool)
        ensures
            closes == self.closes_scope(),
    {
        match self {
            SymbolRecord::ProcedureEnd => true,
            SymbolRecord::ScopeEnd => true,
            _ => false,
        }
    }
}

} // verus!
