//! References before and after they are tied to a node.
use crate::chars::copy;
use crate::graph::{EdgeKind, Language};
use vstd::prelude::*;

verus! {

/// A reference recorded during extraction that has not yet been tied to a target node. Resolution
/// consumes these and, on success, emits an edge of `reference_kind` from `from_node_id` to the
/// resolved target.
#[derive(Debug)]
pub struct UnresolvedRef {
    pub from_node_id: String,
    pub reference_name: String,
    pub reference_kind: EdgeKind,
    pub line: u32,
    pub column: u32,
    pub file_path: String,
    pub language: Language,
    pub candidates: Vec<String>,
}

impl UnresolvedRef {
    /// An unresolved reference built with a 1-based source location.
    pub fn new(
        from_node_id: String,
        reference_name: &str,
        reference_kind: EdgeKind,
        line: u32,
        column: u32,
        file_path: &str,
        language: Language,
    ) -> (reference: UnresolvedRef)
        requires
            reference_name@.len() > 0,
            file_path@.len() > 0,
            line >= 1,
        ensures
            reference.from_node_id == from_node_id,
            reference.reference_name@ == reference_name@,
            reference.reference_kind == reference_kind,
            reference.line == line,
            reference.column == column,
            reference.file_path@ == file_path@,
            reference.language == language,
            reference.candidates@.len() == 0,
    {
        UnresolvedRef {
            from_node_id,
            reference_name: copy(reference_name),
            reference_kind,
            line,
            column,
            file_path: copy(file_path),
            language,
            candidates: Vec::new(),
        }
    }
}

/// The strategy a reference was resolved by, ordered roughly from most to least certain.
#[derive(Clone, Copy, Debug, PartialEq, Eq, Hash, Structural)]
pub enum ResolvedBy {
    ExactMatch,
    QualifiedName,
    Import,
    InstanceMethod,
    Framework,
    FilePath,
    Fuzzy,
}

impl ResolvedBy {
    /// The kebab-case label for this resolution strategy.
    pub open spec fn label(self) -> Seq<char> {
        match self {
            ResolvedBy::ExactMatch => "exact-match"@,
            ResolvedBy::QualifiedName => "qualified-name"@,
            ResolvedBy::Import => "import"@,
            ResolvedBy::InstanceMethod => "instance-method"@,
            ResolvedBy::Framework => "framework"@,
            ResolvedBy::FilePath => "file-path"@,
            ResolvedBy::Fuzzy => "fuzzy"@,
        }
    }

    /// The kebab-case label for this resolution strategy.
    pub fn as_str(self) -> (label: &'static str)
        ensures
            label@ == self.label(),
    {
        match self {
            ResolvedBy::ExactMatch => "exact-match",
            ResolvedBy::QualifiedName => "qualified-name",
            ResolvedBy::Import => "import",
            ResolvedBy::InstanceMethod => "instance-method",
            ResolvedBy::Framework => "framework",
            ResolvedBy::FilePath => "file-path",
            ResolvedBy::Fuzzy => "fuzzy",
        }
    }
}

/// No two strategies share a label.
pub proof fn law_strategy_labels_are_distinct(left: ResolvedBy, right: ResolvedBy)
    requires
        left.label() == right.label(),
    ensures
        left == right,
{
    reveal_strlit("exact-match");
    reveal_strlit("qualified-name");
    reveal_strlit("import");
    reveal_strlit("instance-method");
    reveal_strlit("framework");
    reveal_strlit("file-path");
    reveal_strlit("fuzzy");
    assert("exact-match"@.len() == 11);
    assert("qualified-name"@.len() == 14);
    assert("import"@.len() == 6);
    assert("instance-method"@.len() == 15);
    assert("framework"@.len() == 9);
    assert("file-path"@.len() == 9);
    assert("fuzzy"@.len() == 5);
    assert("framework"@[1] == 'r');
    assert("file-path"@[1] == 'i');
}

/// The most certain a match can be: confidences are counted in hundredths.
pub const CONFIDENCE_MAX: u32 = 100;

/// A reference successfully tied to a target node, with the confidence, in hundredths, and the
/// strategy behind the match. Carries only the originating fields the resulting edge needs.
#[derive(Debug)]
pub struct ResolvedRef {
    pub from_node_id: String,
    pub line: u32,
    pub column: u32,
    pub reference_kind: EdgeKind,
    pub target_node_id: String,
    pub confidence: u32,
    pub resolved_by: ResolvedBy,
}

/// The resolved reference carries the origin of the unresolved one and this binding.
pub open spec fn binds(
    resolved: ResolvedRef,
    reference: UnresolvedRef,
    target: Seq<char>,
    confidence: u32,
    resolved_by: ResolvedBy,
) -> bool {
    &&& resolved.from_node_id@ == reference.from_node_id@
    &&& resolved.line == reference.line
    &&& resolved.column == reference.column
    &&& resolved.reference_kind == reference.reference_kind
    &&& resolved.target_node_id@ == target
    &&& resolved.confidence == confidence
    &&& resolved.resolved_by == resolved_by
}

impl ResolvedRef {
    /// A resolved reference built from an unresolved one, binding the target and confidence.
    pub fn new(
        reference: &UnresolvedRef,
        target_node_id: &str,
        confidence: u32,
        resolved_by: ResolvedBy,
    ) -> (resolved: ResolvedRef)
        requires
            confidence <= CONFIDENCE_MAX,
        ensures
            binds(resolved, *reference, target_node_id@, confidence, resolved_by),
    {
        ResolvedRef {
            from_node_id: copy(reference.from_node_id.as_str()),
            line: reference.line,
            column: reference.column,
            reference_kind: reference.reference_kind,
            target_node_id: copy(target_node_id),
            confidence,
            resolved_by,
        }
    }
}

} // verus!
