use vstd::prelude::*;

verus! {

/// How much a finding matters to the reader of a report.
#[derive(Debug, Clone, Copy, PartialEq, Eq, Structural)]
pub enum Severity {
    Info,
    Low,
    Medium,
    High,
}

/// What the sanitizer does with a classified character.
#[derive(Debug, Clone, Copy, PartialEq, Eq, Structural)]
pub enum Action {
    RemoveSafe,
    RemoveStrict,
    RemoveMaximum,
    NormalizeStrict,
    NormalizeMaximum,
    ReportOnly,
}

/// A detection rule: its label, its category, how severe a hit is and what
/// the sanitizer does with it.
#[derive(Debug, Clone, Copy, PartialEq, Eq)]
pub struct Rule {
    pub name: &'static str,
    pub category: &'static str,
    pub severity: Severity,
    pub action: Action,
}

/// Sanitization strength. Each mode removes everything the previous one
/// removes, and more.
#[derive(Debug, Clone, Copy, PartialEq, Eq, Structural)]
pub enum Mode {
    Safe,
    Strict,
    Maximum,
}

/// The outcome of one sanitization pass.
#[derive(Debug, Clone, PartialEq, Eq)]
pub struct EngineResult {
    pub output: String,
    pub removed_count: usize,
    pub normalized_count: usize,
    pub change_count: usize,
    pub changes: Vec<EngineChange>,
}

/// One entry of the change ledger: which source character changed, where its
/// replacement begins in the output, and what it became.
#[derive(Debug, Clone, PartialEq, Eq)]
pub struct EngineChange {
    pub source_index: usize,
    pub output_index: usize,
    pub before: String,
    pub after: String,
    pub kind: &'static str,
}

/// The ledger kind of a deleted character.
pub const KIND_REMOVED: &'static str = "removed";

/// The ledger kind of a rewritten character.
pub const KIND_NORMALIZED: &'static str = "normalized";

/// The mathematical content of a ledger entry.
pub struct ChangeEntry {
    pub source_index: int,
    pub output_index: int,
    pub before: Seq<char>,
    pub after: Seq<char>,
    pub removed: bool,
}

impl EngineChange {
    /// The ledger entry this value records; `kind` is `KIND_REMOVED` or
    /// `KIND_NORMALIZED`.
    pub open spec fn records(self, e: ChangeEntry) -> bool {
        &&& self.source_index == e.source_index
        &&& self.output_index == e.output_index
        &&& self.before@ == e.before
        &&& self.after@ == e.after
        &&& self.kind == (if e.removed { KIND_REMOVED } else { KIND_NORMALIZED })
    }
}

} // verus!
