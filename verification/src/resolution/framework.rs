//! Framework-aware resolvers.
use super::context::ResolutionContext;
use super::refs::{ResolvedRef, UnresolvedRef};
use super::resolver::{answers, Target};
use crate::graph::{Language, Node};
use vstd::prelude::*;

verus! {

/// The nodes and references a framework resolver synthesizes from a file beyond what generic
/// extraction sees (for a routing framework: route nodes and the references that link them to
/// their view handlers).
#[derive(Debug)]
pub struct FrameworkExtractionResult {
    pub nodes: Vec<Node>,
    pub references: Vec<UnresolvedRef>,
}

impl Default for FrameworkExtractionResult {
    /// An empty result.
    fn default() -> (result: FrameworkExtractionResult)
        ensures
            result.nodes@.len() == 0,
            result.references@.len() == 0,
    {
        FrameworkExtractionResult::empty()
    }
}

impl FrameworkExtractionResult {
    /// An empty result with no nodes or references.
    pub fn empty() -> (result: FrameworkExtractionResult)
        ensures
            result.nodes@.len() == 0,
            result.references@.len() == 0,
    {
        FrameworkExtractionResult { nodes: Vec::new(), references: Vec::new() }
    }
}

/// A framework-specific resolver. `detect` runs once per project; the remaining hooks participate
/// in extraction and resolution. Every hook past the first four has a no-op default, so a resolver
/// implements only what it needs. The resolver works on contexts of one type.
pub trait FrameworkResolver<C: ResolutionContext>: Sync {
    /// The resolver's stable identifier.
    spec fn label(&self) -> Seq<char>;

    /// The languages the resolver participates in.
    spec fn served(&self) -> Seq<Language>;

    /// The resolver applies to the project.
    spec fn applies(&self, context: C) -> bool;

    /// The target a reference resolves to.
    spec fn target(&self, reference: UnresolvedRef, context: C) -> Option<
        Target,
    >;

    /// The resolver's stable identifier, recorded in edge provenance.
    fn name(&self) -> (name: &str)
        ensures
            name@ == self.label(),
    ;

    /// The languages this resolver participates in; a reference in any other language skips it.
    fn languages(&self) -> (languages: Vec<Language>)
        ensures
            languages@ == self.served(),
    ;

    /// Whether this resolver applies to the project, decided once per project from marker files
    /// and layout.
    fn detect(&self, context: &C) -> (detected: bool)
        ensures
            detected == self.applies(*context),
    ;

    /// The target node one reference resolves to, or `None` when this resolver cannot confidently
    /// bind it.
    fn resolve(&self, reference: &UnresolvedRef, context: &C) -> (found:
        Option<ResolvedRef>)
        requires
            reference.reference_name@.len() > 0,
            self.served().contains(reference.language),
        ensures
            answers(found, *reference, self.target(*reference, *context)),
    ;

    /// Whether to opt a reference name past the name-exists pre-filter even when no symbol declares
    /// it, needed for dynamic dispatch where the target is an attribute rather than a declared
    /// node.
    fn claims_reference(&self, _name: &str) -> (claimed: bool)
        default_ensures
            !claimed,
    {
        false
    }

    /// The framework-specific nodes and references synthesized from one file.
    fn extract(&self, _project: &str, _file_path: &str, _content: &str) -> (result:
        FrameworkExtractionResult)
        default_ensures
            result.nodes@.len() == 0,
            result.references@.len() == 0,
    {
        FrameworkExtractionResult::empty()
    }

    /// The cross-file finalization run once after all per-file extraction completes, for symbols
    /// whose final form depends on a sibling file.
    fn post_extract(&self, _context: &C) -> (nodes: Vec<Node>)
        default_ensures
            nodes@.len() == 0,
    {
        Vec::new()
    }
}

} // verus!
