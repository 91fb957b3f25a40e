//! References turned into edges by matching each to the node it names.
use super::context::{
    chosen, import_views, lemma_chosen, lemma_chosen_holds, retain, ImportMapping, ImportView,
    ResolutionContext,
};
use super::paths::{
    base_name_spec, below, directory_basename, directory_basename_spec, file_stem, file_stem_spec,
    is_called, is_init_file, is_plain, js_module_stem, js_module_stem_spec,
    law_a_file_is_called_by_its_stem, module_file_path, module_file_spec,
    module_stem, module_stem_spec, parent_directory, parent_directory_spec, path_in_module,
    path_in_module_spec, shared_depth, shared_segments, top_owner, top_owner_spec,
};
use super::refs::{binds, ResolvedBy, ResolvedRef, UnresolvedRef, CONFIDENCE_MAX};
use crate::chars::{
    after_last, after_last_spec, cat2, cat3, cat4, chars_of, copy, ends_with, lemma_no_rsplit,
    lemma_rsplit_at, lowercase, lowercased, replace, replaced, same_text, starts_with, strip_prefix, views,
};
use crate::graph::{EdgeKind, Language, Node, NodeKind};
use std::sync::Arc;
use vstd::prelude::*;

verus! {

/// The sentinel candidate tagged onto a `Model.objects.method()` call, so resolution routes it
/// through queryset-method dispatch instead of the generic import-scoped path: the queryset class
/// is rarely imported by the caller, so the generic path would drop it.
pub const QUERYSET_DISPATCH: &'static str = "\u{1}queryset-dispatch";

/// The prefix every dispatch sentinel carries, the marker that tells a routing candidate apart
/// from a real class or model name in the same list.
pub const SENTINEL_PREFIX: char = '\u{1}';

/// The sentinel candidate tagged onto a `super().method()` call, with the enclosing class's
/// qualified name following it. `super()` is a lookup that skips the calling class, so this must
/// never bind to the class's own method: it is left to a pass that walks the base chain.
pub const SUPER_DISPATCH: &'static str = "\u{1}super-dispatch";

/// The sentinel candidate tagged onto a call whose receiver is a bare name that cannot be typed on
/// its own. The receiver's dotted text follows it.
pub const RECEIVER_ROOT: &'static str = "\u{1}receiver-root";

/// The sentinel candidate tagged onto a call whose receiver is a type-annotated parameter. The
/// annotated type name follows it in the candidate list, so resolution can bind the method to that
/// exact class.
pub const TYPED_RECEIVER: &'static str = "\u{1}typed-receiver";

/// The sentinel candidate tagged onto an `obj.services.method()` or `obj.services.<sub>.method()`
/// call. The service class is reached through a model attribute, not an import, so this routes it
/// to service-method dispatch. The receiving model's name follows it in the candidate list when
/// the receiver is written as a class.
pub const SERVICE_DISPATCH: &'static str = "\u{1}service-dispatch";

/// The sentinel candidate on a context-type reference whose variable is a collection of the model
/// rather than a single instance.
pub const COLLECTION_CONTEXT: &'static str = "\u{1}collection-context";

/// The base service method names dispatched on every model through the external base service.
/// Binding one by a sole local override would attribute every model's call to whichever service
/// happens to override it.
pub const SERVICE_BUILTINS: [&'static str; 2] = ["save_model_obj", "save_model_objs"];

/// The QuerySet and Manager builtin method names, dispatched dynamically with no project-local
/// definition to bind to.
pub const QUERYSET_BUILTINS: [&'static str; 37] = [
    "aggregate",
    "all",
    "annotate",
    "bulk_create",
    "bulk_update",
    "contains",
    "count",
    "create",
    "defer",
    "delete",
    "difference",
    "distinct",
    "earliest",
    "exclude",
    "exists",
    "filter",
    "first",
    "get",
    "get_or_create",
    "in_bulk",
    "intersection",
    "iterator",
    "last",
    "latest",
    "none",
    "only",
    "order_by",
    "prefetch_related",
    "raw",
    "reverse",
    "select_related",
    "union",
    "update",
    "update_or_create",
    "using",
    "values",
    "values_list",
];

/// The class-name suffixes appended to a model name to form its queryset or manager.
pub const MANAGER_SUFFIXES: [&'static str; 3] = ["Manager", "QuerySet", "QuerySetManager"];

/// The class-name suffixes appended to a model name to form its service classes. A model reaches
/// the plain `Service` directly and the rest through a named sub-service.
pub const SERVICE_SUFFIXES: [&'static str; 5] = [
    "FactoryService",
    "IntelligenceService",
    "ProcessorService",
    "Service",
    "TransformationService",
];

/// The most package initializers examined while chasing one re-export.
pub const REEXPORT_INITS_MAX: usize = 64;

/// The most package initializers one re-export chase follows, so a circular one ends.
pub const REEXPORT_HOPS_MAX: u32 = 8;

// ---------------------------------------------------------------------------
// Targets

/// The node a reference names, with the confidence, in hundredths, and the strategy behind the
/// match.
pub struct Target {
    pub node: Arc<Node>,
    pub confidence: u32,
    pub resolved_by: ResolvedBy,
}

/// The resolved reference binds the reference to the target; there is one where there is a target.
pub open spec fn answers(
    found: Option<ResolvedRef>,
    reference: UnresolvedRef,
    target: Option<Target>,
) -> bool {
    match (found, target) {
        (Some(resolved), Some(target)) => binds(
            resolved,
            reference,
            target.node.id@,
            target.confidence,
            target.resolved_by,
        ),
        (None, None) => true,
        _ => false,
    }
}

/// The first of the nodes as a target.
pub open spec fn first_as(
    nodes: Seq<Arc<Node>>,
    confidence: u32,
    resolved_by: ResolvedBy,
) -> Option<Target> {
    if nodes.len() > 0 {
        Some(Target { node: nodes[0], confidence, resolved_by })
    } else {
        None
    }
}

/// The one node as a target, where there is exactly one.
pub open spec fn sole_as(
    nodes: Seq<Arc<Node>>,
    confidence: u32,
    resolved_by: ResolvedBy,
) -> Option<Target> {
    if nodes.len() == 1 {
        Some(Target { node: nodes[0], confidence, resolved_by })
    } else {
        None
    }
}

fn bind_first(
    reference: &UnresolvedRef,
    nodes: &[Arc<Node>],
    confidence: u32,
    resolved_by: ResolvedBy,
) -> (found: Option<ResolvedRef>)
    requires
        confidence <= CONFIDENCE_MAX,
    ensures
        answers(found, *reference, first_as(nodes@, confidence, resolved_by)),
{
    if nodes.len() > 0 {
        Some(ResolvedRef::new(reference, nodes[0].id.as_str(), confidence, resolved_by))
    } else {
        None
    }
}

fn bind_sole(
    reference: &UnresolvedRef,
    nodes: &[Arc<Node>],
    confidence: u32,
    resolved_by: ResolvedBy,
) -> (found: Option<ResolvedRef>)
    requires
        confidence <= CONFIDENCE_MAX,
    ensures
        answers(found, *reference, sole_as(nodes@, confidence, resolved_by)),
{
    if nodes.len() == 1 {
        Some(ResolvedRef::new(reference, nodes[0].id.as_str(), confidence, resolved_by))
    } else {
        None
    }
}

// ---------------------------------------------------------------------------
// Kinds

/// The node kinds a reference of the given edge kind can plausibly resolve to.
pub open spec fn preferred_kinds_spec(kind: EdgeKind) -> Seq<NodeKind> {
    match kind {
        EdgeKind::Calls | EdgeKind::Handles | EdgeKind::UsesTag => seq![
            NodeKind::Function,
            NodeKind::Method,
        ],
        EdgeKind::Extends
        | EdgeKind::Instantiates
        | EdgeKind::Returns
        | EdgeKind::TypeOf => seq![NodeKind::Class, NodeKind::Model],
        EdgeKind::Decorates => seq![NodeKind::Function, NodeKind::Method, NodeKind::Class],
        EdgeKind::RelatesTo | EdgeKind::Receives | EdgeKind::AdminOf => seq![
            NodeKind::Model,
            NodeKind::Class,
        ],
        EdgeKind::Renders | EdgeKind::ExtendsTemplate | EdgeKind::IncludesTemplate => seq![
            NodeKind::Template,
        ],
        EdgeKind::Styles => seq![NodeKind::Selector],
        EdgeKind::Resolves => seq![NodeKind::Route],
        EdgeKind::RoutesTo => seq![
            NodeKind::View,
            NodeKind::Function,
            NodeKind::Method,
            NodeKind::Class,
        ],
        EdgeKind::Tests => seq![
            NodeKind::Class,
            NodeKind::Model,
            NodeKind::Function,
            NodeKind::View,
        ],
        EdgeKind::Reads => seq![NodeKind::Constant, NodeKind::Variable],
        _ => seq![
            NodeKind::Class,
            NodeKind::Function,
            NodeKind::Method,
            NodeKind::Model,
            NodeKind::Variable,
            NodeKind::View,
        ],
    }
}

/// The node kinds a reference of the given edge kind can plausibly resolve to.
pub fn preferred_kinds(kind: EdgeKind) -> (kinds: Vec<NodeKind>)
    ensures
        kinds@ == preferred_kinds_spec(kind),
{
    match kind {
        EdgeKind::Calls | EdgeKind::Handles | EdgeKind::UsesTag => vec![
            NodeKind::Function,
            NodeKind::Method,
        ],
        EdgeKind::Extends
        | EdgeKind::Instantiates
        | EdgeKind::Returns
        | EdgeKind::TypeOf => vec![NodeKind::Class, NodeKind::Model],
        EdgeKind::Decorates => vec![NodeKind::Function, NodeKind::Method, NodeKind::Class],
        EdgeKind::RelatesTo | EdgeKind::Receives | EdgeKind::AdminOf => vec![
            NodeKind::Model,
            NodeKind::Class,
        ],
        EdgeKind::Renders | EdgeKind::ExtendsTemplate | EdgeKind::IncludesTemplate => vec![
            NodeKind::Template,
        ],
        EdgeKind::Styles => vec![NodeKind::Selector],
        EdgeKind::Resolves => vec![NodeKind::Route],
        EdgeKind::RoutesTo => vec![
            NodeKind::View,
            NodeKind::Function,
            NodeKind::Method,
            NodeKind::Class,
        ],
        EdgeKind::Tests => vec![
            NodeKind::Class,
            NodeKind::Model,
            NodeKind::Function,
            NodeKind::View,
        ],
        EdgeKind::Reads => vec![NodeKind::Constant, NodeKind::Variable],
        _ => vec![
            NodeKind::Class,
            NodeKind::Function,
            NodeKind::Method,
            NodeKind::Model,
            NodeKind::Variable,
            NodeKind::View,
        ],
    }
}

pub(crate) fn is_kind_among(kind: NodeKind, kinds: &[NodeKind]) -> (found: bool)
    ensures
        found == kinds@.contains(kind),
{
    for i in 0..kinds.len()
        invariant
            forall|k: int| 0 <= k < i ==> kinds@[k] != kind,
    {
        if kinds[i] == kind {
            return true;
        }
    }
    false
}

/// An edge kind that may bind to a sole candidate of a non-preferred kind: a call, an
/// instantiation, a decoration can plausibly name a symbol of an unanticipated kind. The other
/// kinds name exactly one kind family, so a sole off-kind match is a same-name collision, not a resolution.
pub open spec fn is_loose(kind: EdgeKind) -> bool {
    match kind {
        EdgeKind::RelatesTo
        | EdgeKind::Receives
        | EdgeKind::Returns
        | EdgeKind::TypeOf
        | EdgeKind::Extends
        | EdgeKind::Renders
        | EdgeKind::ExtendsTemplate
        | EdgeKind::IncludesTemplate
        | EdgeKind::Styles
        | EdgeKind::Resolves
        | EdgeKind::AdminOf
        | EdgeKind::Tests
        | EdgeKind::Reads
        | EdgeKind::UsesTag => false,
        _ => true,
    }
}

/// Whether an edge kind may bind to a sole candidate of a non-preferred kind.
pub fn allows_loose_fallback(kind: EdgeKind) -> (allowed: bool)
    ensures
        allowed == is_loose(kind),
{
    match kind {
        EdgeKind::RelatesTo
        | EdgeKind::Receives
        | EdgeKind::Returns
        | EdgeKind::TypeOf
        | EdgeKind::Extends
        | EdgeKind::Renders
        | EdgeKind::ExtendsTemplate
        | EdgeKind::IncludesTemplate
        | EdgeKind::Styles
        | EdgeKind::Resolves
        | EdgeKind::AdminOf
        | EdgeKind::Tests
        | EdgeKind::Reads
        | EdgeKind::UsesTag => false,
        _ => true,
    }
}

/// A kind that the sole-candidate fallback may bind to: not a value, a member or an import.
pub open spec fn is_bindable(kind: NodeKind) -> bool {
    match kind {
        NodeKind::Field
        | NodeKind::Property
        | NodeKind::Variable
        | NodeKind::Constant
        | NodeKind::Parameter
        | NodeKind::Import => false,
        _ => true,
    }
}

/// Whether a node kind is a plausible target for the ambiguous sole-candidate fallback.
pub fn is_resolvable_target(kind: NodeKind) -> (resolvable: bool)
    ensures
        resolvable == is_bindable(kind),
{
    match kind {
        NodeKind::Field
        | NodeKind::Property
        | NodeKind::Variable
        | NodeKind::Constant
        | NodeKind::Parameter
        | NodeKind::Import => false,
        _ => true,
    }
}

/// A kind that defines something: an import names something defined elsewhere, and an external
/// node is a stub for a symbol that no indexed project defines.
pub open spec fn defines(kind: NodeKind) -> bool {
    kind != NodeKind::Import && kind != NodeKind::External
}

/// Whether a node kind is a definition resolution may bind a reference to.
pub fn is_definition(kind: NodeKind) -> (found: bool)
    ensures
        found == defines(kind),
{
    kind != NodeKind::Import && kind != NodeKind::External
}

/// A kind that can be a module-level name: a definition that is no class member or local.
pub open spec fn importable(kind: NodeKind) -> bool {
    defines(kind) && kind != NodeKind::Field && kind != NodeKind::Property && kind
        != NodeKind::Parameter
}

/// Whether a node kind can be a module-level importable name.
pub fn is_importable(kind: NodeKind) -> (found: bool)
    ensures
        found == importable(kind),
{
    is_definition(kind) && kind != NodeKind::Field && kind != NodeKind::Property && kind
        != NodeKind::Parameter
}

/// The language a reference of this kind must resolve into, when the kind pins one.
pub open spec fn target_language_spec(kind: EdgeKind) -> Option<Language> {
    match kind {
        EdgeKind::RoutesTo
        | EdgeKind::RelatesTo
        | EdgeKind::Receives
        | EdgeKind::AdminOf
        | EdgeKind::Tests
        | EdgeKind::Reads
        | EdgeKind::Returns
        | EdgeKind::TypeOf
        | EdgeKind::UsesTag => Some(Language::Python),
        EdgeKind::Handles => Some(Language::JavaScript),
        _ => None,
    }
}

/// The language a reference of this kind must resolve into, when the kind pins one. Keeps a route
/// from binding to a same-named script symbol, and a handler from binding to a same-named view.
pub fn target_language(kind: EdgeKind) -> (language: Option<Language>)
    ensures
        language == target_language_spec(kind),
{
    match kind {
        EdgeKind::RoutesTo
        | EdgeKind::RelatesTo
        | EdgeKind::Receives
        | EdgeKind::AdminOf
        | EdgeKind::Tests
        | EdgeKind::Reads
        | EdgeKind::Returns
        | EdgeKind::TypeOf
        | EdgeKind::UsesTag => Some(Language::Python),
        EdgeKind::Handles => Some(Language::JavaScript),
        _ => None,
    }
}

// ---------------------------------------------------------------------------
// Narrowing candidates

/// The candidates in the target language, or all of them where none is in it.
pub open spec fn in_language(nodes: Seq<Arc<Node>>, target: Option<Language>) -> Seq<Arc<Node>> {
    match target {
        Some(language) => {
            let kept = chosen(nodes, |node: Node| node.language == language);
            if kept.len() > 0 {
                kept
            } else {
                nodes
            }
        },
        None => nodes,
    }
}

/// The candidates kept in the target language, unless none match; then all are kept, so a missing
/// same-language definition still resolves best-effort.
pub fn filter_language(candidates: Vec<Arc<Node>>, target: Option<Language>) -> (kept: Vec<
    Arc<Node>,
>)
    ensures
        kept@ == in_language(candidates@, target),
{
    match target {
        Some(language) => {
            let keep = |node: &Node| -> (matching: bool)
                ensures
                    matching == (node.language == language),
            {
                node.language == language
            };
            let kept = retain(
                candidates.as_slice(),
                keep,
                Ghost(|node: Node| node.language == language),
            );
            if kept.len() > 0 {
                kept
            } else {
                candidates
            }
        },
        None => candidates,
    }
}

/// The test of a node for its file.
pub open spec fn located(file_path: Seq<char>) -> spec_fn(Node) -> bool {
    |node: Node| node.file_path@ == file_path
}

/// The candidates in the referencing file, or all of them where none is in it.
pub open spec fn handles_scope(nodes: Seq<Arc<Node>>, file_path: Seq<char>) -> Seq<Arc<Node>> {
    let local = chosen(nodes, located(file_path));
    if local.len() > 0 {
        local
    } else {
        nodes
    }
}

/// The restriction of a handler reference to a handler defined in the same template: two templates
/// that each define a same-named method must each resolve to their own. When no candidate shares
/// the template's file, every candidate is left.
pub fn scope_handles(candidates: Vec<Arc<Node>>, file_path: &str) -> (kept: Vec<Arc<Node>>)
    ensures
        kept@ == handles_scope(candidates@, file_path@),
{
    let keep = |node: &Node| -> (matching: bool)
        ensures
            matching == (node.file_path@ == file_path@),
    {
        same_text(node.file_path.as_str(), file_path)
    };
    let local = retain(candidates.as_slice(), keep, Ghost(located(file_path@)));
    if local.len() > 0 {
        local
    } else {
        candidates
    }
}

/// Some binding brings in this exported name.
pub open spec fn exports(imports: Seq<ImportView>, name: Seq<char>) -> bool {
    exists|i: int| 0 <= i < imports.len() && (#[trigger] imports[i]).exported_name == name
}

/// The node is defined in the referencing file, or its top-level owner is imported into it.
pub open spec fn in_scope(
    node: Node,
    file_path: Seq<char>,
    imports: Seq<ImportView>,
) -> bool {
    node.file_path@ == file_path || exports(imports, top_owner_spec(node.qualified_name@))
}

/// Whether a candidate is defined in the referencing file, or imported into it (its top-level
/// owner appears as an imported name).
pub fn imported_or_local(node: &Node, file_path: &str, imports: &[ImportMapping]) -> (found: bool)
    ensures
        found == in_scope(*node, file_path@, import_views(imports@)),
{
    if same_text(node.file_path.as_str(), file_path) {
        return true;
    }
    let owner = top_owner(node.qualified_name.as_str());
    for i in 0..imports.len()
        invariant
            owner@ == top_owner_spec(node.qualified_name@),
            forall|k: int|
                0 <= k < i ==> (#[trigger] import_views(imports@)[k]).exported_name != owner@,
    {
        assert(import_views(imports@)[i as int] == imports@[i as int]@);
        if same_text(imports[i].exported_name.as_str(), owner.as_str()) {
            return true;
        }
    }
    false
}

/// The candidates in scope of the referencing file.
pub open spec fn imports_scope(
    nodes: Seq<Arc<Node>>,
    file_path: Seq<char>,
    imports: Seq<ImportView>,
) -> Seq<Arc<Node>> {
    chosen(nodes, |node: Node| in_scope(node, file_path, imports))
}

fn keep_in_scope(candidates: Vec<Arc<Node>>, file_path: &str, imports: &[ImportMapping]) -> (kept:
    Vec<Arc<Node>>)
    ensures
        kept@ == imports_scope(candidates@, file_path@, import_views(imports@)),
{
    let keep = |node: &Node| -> (matching: bool)
        ensures
            matching == in_scope(*node, file_path@, import_views(imports@)),
    {
        imported_or_local(node, file_path, imports)
    };
    let ghost bindings = import_views(imports@);
    retain(
        candidates.as_slice(),
        keep,
        Ghost(|node: Node| in_scope(node, file_path@, bindings)),
    )
}

/// The restriction of candidates to those in scope of the referencing file: defined in that file,
/// or imported into it (the free function by name, or a method's owning class). A cross-file
/// reference to a symbol the file never imports is almost always a same-name collision, and a
/// dropped edge beats a confidently wrong one.
pub fn scope_to_imports<C: ResolutionContext>(
    candidates: Vec<Arc<Node>>,
    reference: &UnresolvedRef,
    context: &C,
) -> (kept: Vec<Arc<Node>>)
    ensures
        kept@ == imports_scope(
            candidates@,
            reference.file_path@,
            context.imports(reference.file_path@, reference.language),
        ),
{
    let imports = context.import_mappings(reference.file_path.as_str(), reference.language);
    keep_in_scope(candidates, reference.file_path.as_str(), imports.as_slice())
}

/// The first binding, from `from` on, of this local name.
pub open spec fn binding_of(imports: Seq<ImportView>, name: Seq<char>, from: int) -> Option<
    ImportView,
>
    decreases imports.len() - from,
{
    if from < 0 || from >= imports.len() {
        None
    } else if imports[from].local_name == name {
        Some(imports[from])
    } else {
        binding_of(imports, name, from + 1)
    }
}

fn find_binding(imports: &[ImportMapping], name: &str) -> (found: Option<usize>)
    ensures
        match found {
            Some(at) => at < imports@.len() && binding_of(import_views(imports@), name@, 0)
                == Some(imports@[at as int]@),
            None => binding_of(import_views(imports@), name@, 0) is None,
        },
{
    for i in 0..imports.len()
        invariant
            binding_of(import_views(imports@), name@, 0) == binding_of(
                import_views(imports@),
                name@,
                i as int,
            ),
    {
        assert(import_views(imports@)[i as int] == imports@[i as int]@);
        if same_text(imports[i].local_name.as_str(), name) {
            return Some(i);
        }
    }
    None
}

/// The binding that a route's receiver, its first candidate, has in the referencing file.
pub open spec fn receiver_binding(candidates: Seq<Seq<char>>, imports: Seq<ImportView>) -> Option<
    ImportView,
> {
    if candidates.len() > 0 {
        binding_of(imports, candidates[0], 0)
    } else {
        None
    }
}

/// The views a route may reach: those in the module its receiver is bound to, or those in scope
/// where it has no bound receiver.
pub open spec fn route_scope(
    nodes: Seq<Arc<Node>>,
    file_path: Seq<char>,
    candidates: Seq<Seq<char>>,
    imports: Seq<ImportView>,
) -> Seq<Arc<Node>> {
    match receiver_binding(candidates, imports) {
        Some(binding) => {
            let module_file = module_file_spec(binding.source, binding.exported_name, file_path);
            chosen(nodes, |node: Node| path_in_module_spec(node.file_path@, module_file))
        },
        None => imports_scope(nodes, file_path, imports),
    }
}

fn keep_in_module(candidates: &[Arc<Node>], module_file: &str) -> (kept: Vec<Arc<Node>>)
    ensures
        kept@ == chosen(
            candidates@,
            |node: Node| path_in_module_spec(node.file_path@, module_file@),
        ),
{
    let keep = |node: &Node| -> (matching: bool)
        ensures
            matching == path_in_module_spec(node.file_path@, module_file@),
    {
        path_in_module(node.file_path.as_str(), module_file)
    };
    retain(candidates, keep, Ghost(|node: Node| path_in_module_spec(node.file_path@, module_file@)))
}

/// The restriction of a route's view candidates by the URL file's import of the handler's receiver
/// module: a receiver bound by `from a.b.views import page_views` binds inside
/// `a/b/views/page_views.py`, never a sibling app's `page_views.py`. The receiver module is carried
/// as the route reference's first candidate. With no receiver it falls back to plain
/// import-scoping by the view's own name.
pub fn scope_route<C: ResolutionContext>(
    candidates: Vec<Arc<Node>>,
    reference: &UnresolvedRef,
    context: &C,
) -> (kept: Vec<Arc<Node>>)
    ensures
        kept@ == route_scope(
            candidates@,
            reference.file_path@,
            views(reference.candidates@),
            context.imports(reference.file_path@, reference.language),
        ),
{
    let imports = context.import_mappings(reference.file_path.as_str(), reference.language);
    if reference.candidates.len() > 0 {
        assert(views(reference.candidates@)[0] == reference.candidates@[0]@);
        if let Some(at) = find_binding(imports.as_slice(), reference.candidates[0].as_str()) {
            let module_file = module_file_path(
                imports[at].source.as_str(),
                imports[at].exported_name.as_str(),
                reference.file_path.as_str(),
            );
            return keep_in_module(candidates.as_slice(), module_file.as_str());
        }
    }
    keep_in_scope(candidates, reference.file_path.as_str(), imports.as_slice())
}

/// The candidates in scope of a reference, by its kind.
pub open spec fn scoped<C: ResolutionContext>(
    nodes: Seq<Arc<Node>>,
    reference: UnresolvedRef,
    context: C,
) -> Seq<Arc<Node>> {
    let imports = context.imports(reference.file_path@, reference.language);
    match reference.reference_kind {
        EdgeKind::Calls => imports_scope(nodes, reference.file_path@, imports),
        EdgeKind::RoutesTo => route_scope(
            nodes,
            reference.file_path@,
            views(reference.candidates@),
            imports,
        ),
        EdgeKind::Handles => handles_scope(nodes, reference.file_path@),
        _ => nodes,
    }
}

/// The import-scoping applied to a name-keyed reference whose target is collision-prone across
/// files: a call to a bare method, a route whose view is shadowed across nested apps, or a handler
/// scoped to its own template. Other kinds are unique enough to leave alone.
pub fn scope_target<C: ResolutionContext>(
    candidates: Vec<Arc<Node>>,
    reference: &UnresolvedRef,
    context: &C,
) -> (kept: Vec<Arc<Node>>)
    ensures
        kept@ == scoped(candidates@, *reference, *context),
{
    match reference.reference_kind {
        EdgeKind::Calls => scope_to_imports(candidates, reference, context),
        EdgeKind::RoutesTo => scope_route(candidates, reference, context),
        EdgeKind::Handles => scope_handles(candidates, reference.file_path.as_str()),
        _ => candidates,
    }
}

// ---------------------------------------------------------------------------
// Choosing among candidates

/// Where, among the first `count` candidates, the first of those of a preferred kind stands that
/// share the most directories with the source.
pub open spec fn nearest_upto(
    candidates: Seq<Arc<Node>>,
    preferred: Seq<NodeKind>,
    source: Seq<char>,
    count: int,
) -> Option<int>
    decreases count,
{
    if count <= 0 {
        None
    } else {
        let best = nearest_upto(candidates, preferred, source, count - 1);
        let node = candidates[count - 1];
        if !preferred.contains(node.kind) {
            best
        } else {
            match best {
                Some(at) => if shared_depth(source, node.file_path@) > shared_depth(
                    source,
                    candidates[at].file_path@,
                ) {
                    Some(count - 1)
                } else {
                    Some(at)
                },
                None => Some(count - 1),
            }
        }
    }
}

/// The candidate is the first of the nearest of a preferred kind.
pub open spec fn is_nearest(
    candidates: Seq<Arc<Node>>,
    preferred: Seq<NodeKind>,
    source: Seq<char>,
    count: int,
    at: int,
) -> bool {
    let depth = shared_depth(source, candidates[at].file_path@);
    &&& 0 <= at < count
    &&& preferred.contains(candidates[at].kind)
    &&& forall|j: int|
        0 <= j < count && preferred.contains((#[trigger] candidates[j]).kind) ==> shared_depth(
            source,
            candidates[j].file_path@,
        ) <= depth
    &&& forall|j: int|
        0 <= j < at && preferred.contains((#[trigger] candidates[j]).kind) ==> shared_depth(
            source,
            candidates[j].file_path@,
        ) < depth
}

/// The index, among `candidates`, of the preferred-kind node whose file shares the longest leading
/// directory path with `source_path` (the same app). A tie keeps the first. `None` when no
/// candidate is of a preferred kind.
pub fn preferred_by_locality(
    candidates: &[Arc<Node>],
    preferred: &[NodeKind],
    source_path: &str,
) -> (nearest: Option<usize>)
    ensures
        match nearest {
            Some(at) => nearest_upto(
                candidates@,
                preferred@,
                source_path@,
                candidates@.len() as int,
            ) == Some(at as int) && is_nearest(
                candidates@,
                preferred@,
                source_path@,
                candidates@.len() as int,
                at as int,
            ),
            None => nearest_upto(
                candidates@,
                preferred@,
                source_path@,
                candidates@.len() as int,
            ) is None && forall|j: int|
                0 <= j < candidates@.len() ==> !preferred@.contains(
                    (#[trigger] candidates@[j]).kind,
                ),
        },
{
    let mut best: Option<(usize, usize)> = None;
    for i in 0..candidates.len()
        invariant
            match best {
                Some((at, depth)) => at < i && nearest_upto(
                    candidates@,
                    preferred@,
                    source_path@,
                    i as int,
                ) == Some(at as int) && depth == shared_depth(
                    source_path@,
                    candidates@[at as int].file_path@,
                ),
                None => nearest_upto(candidates@, preferred@, source_path@, i as int) is None,
            },
    {
        let node = &candidates[i];
        if is_kind_among(node.kind, preferred) {
            let shared: usize = shared_segments(source_path, node.file_path.as_str());
            let improves: bool = match best {
                Some((_, depth)) => shared > depth,
                None => true,
            };
            if improves {
                best = Some((i, shared));
            }
        }
    }
    proof {
        law_nearest_shares_the_most(
            candidates@,
            preferred@,
            source_path@,
            candidates@.len() as int,
        );
    }
    match best {
        Some((at, _)) => Some(at),
        None => None,
    }
}

/// No candidate of a preferred kind shares more directories with the source than the one chosen,
/// and those before it share fewer. None is chosen only where none is of a preferred kind.
pub proof fn law_nearest_shares_the_most(
    candidates: Seq<Arc<Node>>,
    preferred: Seq<NodeKind>,
    source: Seq<char>,
    count: int,
)
    requires
        0 <= count <= candidates.len(),
    ensures
        match nearest_upto(candidates, preferred, source, count) {
            Some(at) => is_nearest(candidates, preferred, source, count, at),
            None => forall|j: int|
                0 <= j < count ==> !preferred.contains((#[trigger] candidates[j]).kind),
        },
    decreases count,
{
    if count > 0 {
        law_nearest_shares_the_most(candidates, preferred, source, count - 1);
    }
}

/// The target picked from name-match candidates: the nearest of a preferred kind, or a sole
/// candidate of another kind where the reference allows one.
pub open spec fn match_target(
    reference: UnresolvedRef,
    candidates: Seq<Arc<Node>>,
    resolved_by: ResolvedBy,
    confidence_unique: u32,
    confidence_ambiguous: u32,
) -> Option<Target> {
    let preferred = preferred_kinds_spec(reference.reference_kind);
    let definitions = chosen(candidates, |node: Node| defines(node.kind));
    let liked = chosen(definitions, |node: Node| preferred.contains(node.kind));
    match nearest_upto(
        definitions,
        preferred,
        reference.file_path@,
        definitions.len() as int,
    ) {
        Some(at) => Some(
            Target {
                node: definitions[at],
                confidence: if liked.len() == 1 {
                    confidence_unique
                } else {
                    confidence_ambiguous
                },
                resolved_by,
            },
        ),
        None => if definitions.len() == 1 && is_loose(reference.reference_kind) && is_bindable(
            definitions[0].kind,
        ) {
            Some(Target { node: definitions[0], confidence: confidence_ambiguous, resolved_by })
        } else {
            None
        },
    }
}

fn keep_definitions(nodes: &[Arc<Node>]) -> (kept: Vec<Arc<Node>>)
    ensures
        kept@ == chosen(nodes@, |node: Node| defines(node.kind)),
{
    let keep = |node: &Node| -> (matching: bool)
        ensures
            matching == defines(node.kind),
    {
        is_definition(node.kind)
    };
    retain(nodes, keep, Ghost(|node: Node| defines(node.kind)))
}

fn keep_kinds(nodes: &[Arc<Node>], kinds: &[NodeKind]) -> (kept: Vec<Arc<Node>>)
    ensures
        kept@ == chosen(nodes@, |node: Node| kinds@.contains(node.kind)),
{
    let keep = |node: &Node| -> (matching: bool)
        ensures
            matching == kinds@.contains(node.kind),
    {
        is_kind_among(node.kind, kinds)
    };
    retain(nodes, keep, Ghost(|node: Node| kinds@.contains(node.kind)))
}

/// The target picked from name-match candidates. A single preferred-kind hit is high confidence; a
/// sole candidate of any kind is taken at the lower confidence; multiple non-preferred candidates
/// are too ambiguous to resolve.
pub fn match_candidates(
    reference: &UnresolvedRef,
    candidates: &[Arc<Node>],
    resolved_by: ResolvedBy,
    confidence_unique: u32,
    confidence_ambiguous: u32,
) -> (found: Option<ResolvedRef>)
    requires
        confidence_unique <= CONFIDENCE_MAX,
        confidence_ambiguous <= CONFIDENCE_MAX,
    ensures
        answers(
            found,
            *reference,
            match_target(
                *reference,
                candidates@,
                resolved_by,
                confidence_unique,
                confidence_ambiguous,
            ),
        ),
{
    let preferred = preferred_kinds(reference.reference_kind);
    let definitions = keep_definitions(candidates);
    let liked = keep_kinds(definitions.as_slice(), preferred.as_slice());
    match preferred_by_locality(
        definitions.as_slice(),
        preferred.as_slice(),
        reference.file_path.as_str(),
    ) {
        Some(at) => {
            let confidence: u32 = if liked.len() == 1 {
                confidence_unique
            } else {
                confidence_ambiguous
            };
            Some(ResolvedRef::new(reference, definitions[at].id.as_str(), confidence, resolved_by))
        },
        None => if definitions.len() == 1 && allows_loose_fallback(reference.reference_kind)
            && is_resolvable_target(definitions[0].kind) {
            Some(
                ResolvedRef::new(
                    reference,
                    definitions[0].id.as_str(),
                    confidence_ambiguous,
                    resolved_by,
                ),
            )
        } else {
            None
        },
    }
}

// ---------------------------------------------------------------------------
// Re-exports

/// Those of the first `count` paths that are wanted.
pub open spec fn paths_upto(
    paths: Seq<Seq<char>>,
    wanted: spec_fn(Seq<char>) -> bool,
    count: int,
) -> Seq<Seq<char>>
    decreases count,
{
    if count <= 0 {
        Seq::empty()
    } else if wanted(paths[count - 1]) {
        paths_upto(paths, wanted, count - 1).push(paths[count - 1])
    } else {
        paths_upto(paths, wanted, count - 1)
    }
}

fn retain_paths<F: Fn(&str) -> bool>(
    paths: &[String],
    keep: F,
    Ghost(wanted): Ghost<spec_fn(Seq<char>) -> bool>,
) -> (kept: Vec<String>)
    requires
        forall|path: &str| #[trigger] keep.requires((path,)),
        forall|path: &str, answer: bool| #[trigger]
            keep.ensures((path,), answer) ==> answer == wanted(path@),
    ensures
        views(kept@) == paths_upto(views(paths@), wanted, paths@.len() as int),
{
    let mut kept: Vec<String> = Vec::new();
    assert(views(kept@) =~= Seq::empty());
    for i in 0..paths.len()
        invariant
            forall|path: &str| #[trigger] keep.requires((path,)),
            forall|path: &str, answer: bool| #[trigger]
                keep.ensures((path,), answer) ==> answer == wanted(path@),
            views(kept@) == paths_upto(views(paths@), wanted, i as int),
    {
        let ghost before = kept@;
        if keep(paths[i].as_str()) {
            kept.push(copy(paths[i].as_str()));
            assert(views(kept@) =~= views(before).push(views(paths@)[i as int]));
        }
    }
    kept
}

/// The package initializers directly in a directory.
pub open spec fn initializers_in(files: Seq<Seq<char>>, directory: Seq<char>) -> Seq<Seq<char>> {
    paths_upto(
        files,
        |path: Seq<char>|
            base_name_spec(path) == "__init__.py"@ && parent_directory_spec(path) == directory,
        files.len() as int,
    )
}

fn find_initializers_in(files: &[String], directory: &str) -> (found: Vec<String>)
    ensures
        views(found@) == initializers_in(views(files@), directory@),
{
    let keep = |path: &str| -> (matching: bool)
        ensures
            matching == (base_name_spec(path@) == "__init__.py"@ && parent_directory_spec(path@)
                == directory@),
    {
        is_init_file(path) && same_text(parent_directory(path).as_str(), directory)
    };
    retain_paths(
        files,
        keep,
        Ghost(
            |path: Seq<char>|
                base_name_spec(path) == "__init__.py"@ && parent_directory_spec(path)
                    == directory@,
        ),
    )
}

/// The initializers of every package of this name.
pub open spec fn initializers_of(files: Seq<Seq<char>>, package: Seq<char>) -> Seq<Seq<char>> {
    paths_upto(
        files,
        |path: Seq<char>|
            base_name_spec(path) == "__init__.py"@ && directory_basename_spec(path) == package,
        files.len() as int,
    )
}

fn find_initializers_of(files: &[String], package: &str) -> (found: Vec<String>)
    ensures
        views(found@) == initializers_of(views(files@), package@),
{
    let keep = |path: &str| -> (matching: bool)
        ensures
            matching == (base_name_spec(path@) == "__init__.py"@ && directory_basename_spec(path@)
                == package@),
    {
        is_init_file(path) && same_text(directory_basename(path).as_str(), package)
    };
    retain_paths(
        files,
        keep,
        Ghost(
            |path: Seq<char>|
                base_name_spec(path) == "__init__.py"@ && directory_basename_spec(path)
                    == package@,
        ),
    )
}

/// The text holds nothing but dots: it names the importing file's own package.
pub open spec fn is_own_package(source: Seq<char>) -> bool {
    forall|i: int| 0 <= i < source.len() ==> #[trigger] source[i] == '.'
}

fn only_dots(source: &str) -> (only: bool)
    ensures
        only == is_own_package(source@),
{
    let chars = chars_of(source);
    for i in 0..chars.len()
        invariant
            chars@ == source@,
            forall|k: int| 0 <= k < i ==> #[trigger] source@[k] == '.',
    {
        if chars[i] != '.' {
            assert(source@[i as int] != '.');
            return false;
        }
    }
    true
}

/// The initializers that could carry the re-export for a source module.
pub open spec fn package_initializers_spec(
    file_path: Seq<char>,
    source_module: Seq<char>,
    files: Seq<Seq<char>>,
) -> Seq<Seq<char>> {
    if is_own_package(source_module) {
        initializers_in(files, parent_directory_spec(file_path))
    } else if module_stem_spec(source_module).len() == 0 {
        Seq::empty()
    } else {
        initializers_of(files, module_stem_spec(source_module))
    }
}

fn no_texts() -> (none: Vec<String>)
    ensures
        views(none@) == Seq::<Seq<char>>::empty(),
{
    let none: Vec<String> = Vec::new();
    assert(views(none@) =~= Seq::empty());
    none
}

/// The `__init__.py` files that could carry the re-export for `source_module`, resolved relative
/// to the importing file. A relative (`.`) or empty source points at the importing file's own
/// package; a named source matches any package directory of that name.
pub fn package_initializers<C: ResolutionContext>(
    file_path: &str,
    source_module: &str,
    context: &C,
) -> (found: Vec<String>)
    ensures
        views(found@) == package_initializers_spec(file_path@, source_module@, context.files()),
{
    let files = context.all_files();
    if only_dots(source_module) {
        return find_initializers_in(files.as_slice(), parent_directory(file_path).as_str());
    }
    let package = module_stem(source_module);
    if package.as_str().is_empty() {
        return no_texts();
    }
    find_initializers_of(files.as_slice(), package.as_str())
}

/// The path below its package that a re-export's source names, where it names one: a source of one
/// leading dot, or of none.
pub open spec fn sub_package_path(source: Seq<char>) -> Seq<char> {
    let relative = if source.len() > 0 && source[0] == '.' {
        source.skip(1)
    } else {
        source
    };
    if relative.len() > 0 && relative[0] == '.' {
        Seq::empty()
    } else {
        replaced(relative, '.', '/')
    }
}

/// The initializers of the sub-package that a re-export's source names.
pub open spec fn sub_package_initializers_spec(
    directory: Seq<char>,
    source: Seq<char>,
    files: Seq<Seq<char>>,
) -> Seq<Seq<char>> {
    if sub_package_path(source).len() == 0 {
        Seq::empty()
    } else {
        initializers_in(files, below(directory, sub_package_path(source)))
    }
}

/// The `__init__.py` files of the sub-package a single-dot-relative re-export `source` names
/// relative to `init_directory`. Empty when `source` is a parent import (`..x`) or names no
/// package, at which point the chase stops.
pub fn sub_package_initializers<C: ResolutionContext>(
    init_directory: &str,
    source: &str,
    context: &C,
) -> (found: Vec<String>)
    ensures
        views(found@) == sub_package_initializers_spec(
            init_directory@,
            source@,
            context.files(),
        ),
{
    proof {
        reveal_strlit(".");
    }
    let relative = match strip_prefix(source, ".") {
        Some(rest) => rest,
        None => copy(source),
    };
    assert(relative@ =~= if source@.len() > 0 && source@[0] == '.' {
        source@.skip(1)
    } else {
        source@
    }) by {
        if source@.len() > 0 && source@[0] == '.' {
            assert("."@.is_prefix_of(source@));
        } else if "."@.is_prefix_of(source@) {
            assert(source@[0] == "."@[0]);
        }
    }
    if starts_with(relative.as_str(), ".") {
        assert(relative@[0] == "."@[0]);
        return no_texts();
    }
    assert(!(relative@.len() > 0 && relative@[0] == '.')) by {
        if relative@.len() > 0 && relative@[0] == '.' {
            assert("."@.is_prefix_of(relative@));
        }
    }
    if relative.as_str().is_empty() {
        return no_texts();
    }
    let sub_path = replace(relative.as_str(), '.', '/');
    let target = if init_directory.is_empty() {
        sub_path
    } else {
        cat3(init_directory, "/", sub_path.as_str())
    };
    let files = context.all_files();
    find_initializers_in(files.as_slice(), target.as_str())
}

/// A re-export: the module it takes the name from, the name it has there, and the directory of the
/// initializer that declares it.
pub struct ReexportView {
    pub source: Seq<char>,
    pub exported: Seq<char>,
    pub directory: Seq<char>,
}

/// The first re-export of a name among the initializers, from `from` on, those past the bound left
/// out.
pub open spec fn reexport_of<C: ResolutionContext>(
    initializers: Seq<Seq<char>>,
    name: Seq<char>,
    language: Language,
    context: C,
    from: int,
) -> Option<ReexportView>
    decreases initializers.len() - from,
{
    if from < 0 || from >= initializers.len() || from >= REEXPORT_INITS_MAX {
        None
    } else {
        match binding_of(context.imports(initializers[from], language), name, 0) {
            Some(binding) => Some(
                ReexportView {
                    source: binding.source,
                    exported: binding.exported_name,
                    directory: parent_directory_spec(initializers[from]),
                },
            ),
            None => reexport_of(initializers, name, language, context, from + 1),
        }
    }
}

/// The first `__init__.py` among `initializers` that re-exports `name`, with the re-export's
/// source module, its exported name, and the initializer's directory.
pub fn first_reexport<C: ResolutionContext>(
    initializers: &[String],
    name: &str,
    language: Language,
    context: &C,
) -> (found: Option<(String, String, String)>)
    ensures
        match found {
            Some((source, exported, directory)) => reexport_of(
                views(initializers@),
                name@,
                language,
                *context,
                0,
            ) == Some(
                (ReexportView { source: source@, exported: exported@, directory: directory@ }),
            ),
            None => reexport_of(views(initializers@), name@, language, *context, 0) is None,
        },
{
    let mut i: usize = 0;
    while i < initializers.len() && i < REEXPORT_INITS_MAX
        invariant
            i <= initializers@.len(),
            reexport_of(views(initializers@), name@, language, *context, 0) == reexport_of(
                views(initializers@),
                name@,
                language,
                *context,
                i as int,
            ),
        decreases initializers@.len() - i,
    {
        assert(views(initializers@)[i as int] == initializers@[i as int]@);
        let mappings = context.import_mappings(initializers[i].as_str(), language);
        if let Some(at) = find_binding(mappings.as_slice(), name) {
            return Some(
                (
                    copy(mappings[at].source.as_str()),
                    copy(mappings[at].exported_name.as_str()),
                    parent_directory(initializers[i].as_str()),
                ),
            );
        }
        i = i + 1;
    }
    None
}

/// The importable nodes in a file of this stem.
pub open spec fn importable_in(nodes: Seq<Arc<Node>>, stem: Seq<char>) -> Seq<Arc<Node>> {
    chosen(nodes, |node: Node| importable(node.kind) && file_stem_spec(node.file_path@) == stem)
}

fn keep_importable_in(nodes: &[Arc<Node>], stem: &str) -> (kept: Vec<Arc<Node>>)
    ensures
        kept@ == importable_in(nodes@, stem@),
{
    let keep = |node: &Node| -> (matching: bool)
        ensures
            matching == (importable(node.kind) && file_stem_spec(node.file_path@) == stem@),
    {
        is_importable(node.kind) && same_text(file_stem(node.file_path.as_str()).as_str(), stem)
    };
    retain(
        nodes,
        keep,
        Ghost(|node: Node| importable(node.kind) && file_stem_spec(node.file_path@) == stem@),
    )
}

/// The target of a name through at most this many package re-exports, from these initializers on.
pub open spec fn reexport_target<C: ResolutionContext>(
    initializers: Seq<Seq<char>>,
    name: Seq<char>,
    language: Language,
    context: C,
    hops: nat,
) -> Option<Target>
    decreases hops,
{
    if hops == 0 || initializers.len() == 0 {
        None
    } else {
        match reexport_of(initializers, name, language, context, 0) {
            Some(reexport) => {
                let found = importable_in(
                    context.named(reexport.exported),
                    module_stem_spec(reexport.source),
                );
                if found.len() > 0 {
                    first_as(found, 80, ResolvedBy::Import)
                } else {
                    reexport_target(
                        sub_package_initializers_spec(
                            reexport.directory,
                            reexport.source,
                            context.files(),
                        ),
                        reexport.exported,
                        language,
                        context,
                        (hops - 1) as nat,
                    )
                }
            },
            None => None,
        }
    }
}

/// The target of a name that a source module re-exports.
pub open spec fn reexported<C: ResolutionContext>(
    reference: UnresolvedRef,
    source_module: Seq<char>,
    exported_name: Seq<char>,
    context: C,
) -> Option<Target> {
    reexport_target(
        package_initializers_spec(reference.file_path@, source_module, context.files()),
        exported_name,
        reference.language,
        context,
        REEXPORT_HOPS_MAX as nat,
    )
}

/// The target a name resolves to through a chain of package `__init__.py` re-exports.
/// `from pkg import X` may name a symbol the package re-exports rather than defines. When the
/// source of that re-export is itself a package whose initializer re-exports `X` again, the chase
/// descends one level deeper, and so on, up to a bound, so a circular chain ends.
pub fn resolve_reexport<C: ResolutionContext>(
    reference: &UnresolvedRef,
    source_module: &str,
    exported_name: &str,
    context: &C,
) -> (found: Option<ResolvedRef>)
    ensures
        answers(found, *reference, reexported(*reference, source_module@, exported_name@, *context)),
{
    let mut name = copy(exported_name);
    let mut initializers = package_initializers(
        reference.file_path.as_str(),
        source_module,
        context,
    );
    let mut left: u32 = REEXPORT_HOPS_MAX;
    while left > 0 && initializers.len() > 0
        invariant
            reexported(*reference, source_module@, exported_name@, *context) == reexport_target(
                views(initializers@),
                name@,
                reference.language,
                *context,
                left as nat,
            ),
        decreases left,
    {
        left = left - 1;
        let (source, exported, directory) = match first_reexport(
            initializers.as_slice(),
            name.as_str(),
            reference.language,
            context,
        ) {
            Some(reexport) => reexport,
            None => return None,
        };
        let stem = module_stem(source.as_str());
        let nodes = context.nodes_by_name(exported.as_str());
        let candidates = keep_importable_in(nodes.as_slice(), stem.as_str());
        if candidates.len() > 0 {
            return bind_first(reference, candidates.as_slice(), 80, ResolvedBy::Import);
        }
        initializers = sub_package_initializers(directory.as_str(), source.as_str(), context);
        name = exported;
    }
    assert(views(initializers@).len() == initializers@.len());
    None
}

/// The first of the nodes in a file of this stem, or the one node where there is one only.
pub open spec fn in_stem_or_sole(
    nodes: Seq<Arc<Node>>,
    stem: Seq<char>,
) -> Option<Target> {
    let placed = chosen(nodes, |node: Node| file_stem_spec(node.file_path@) == stem);
    if placed.len() > 0 {
        first_as(placed, 90, ResolvedBy::Import)
    } else {
        sole_as(nodes, 70, ResolvedBy::Import)
    }
}

fn bind_in_stem_or_sole(reference: &UnresolvedRef, nodes: &[Arc<Node>], stem: &str) -> (found:
    Option<ResolvedRef>)
    ensures
        answers(found, *reference, in_stem_or_sole(nodes@, stem@)),
{
    let keep = |node: &Node| -> (matching: bool)
        ensures
            matching == (file_stem_spec(node.file_path@) == stem@),
    {
        same_text(file_stem(node.file_path.as_str()).as_str(), stem)
    };
    let placed = retain(nodes, keep, Ghost(|node: Node| file_stem_spec(node.file_path@) == stem@));
    if placed.len() > 0 {
        bind_first(reference, placed.as_slice(), 90, ResolvedBy::Import)
    } else {
        bind_sole(reference, nodes, 70, ResolvedBy::Import)
    }
}

/// The target of a local import alias: the exported name, in the import's source module where it
/// is defined there.
pub open spec fn aliased<C: ResolutionContext>(
    reference: UnresolvedRef,
    context: C,
) -> Option<Target> {
    match binding_of(
        context.imports(reference.file_path@, reference.language),
        reference.reference_name@,
        0,
    ) {
        Some(binding) => {
            let stem = if module_stem_spec(binding.source).len() > 0 {
                module_stem_spec(binding.source)
            } else {
                binding.source
            };
            let nodes = chosen(
                context.named(binding.exported_name),
                |node: Node| importable(node.kind),
            );
            if nodes.len() == 0 {
                None
            } else {
                match in_stem_or_sole(nodes, stem) {
                    Some(target) => Some(target),
                    None => reexported(reference, binding.source, binding.exported_name, context),
                }
            }
        },
        None => None,
    }
}

/// The target a reference whose name is a local import alias resolves to, rewriting it to the
/// exported name and binding it in the import's source module. Handles
/// `from m import f as g; g()` and `import m as n` (names that have no node of their own). Prefers
/// a definition in the source module's file.
pub fn resolve_via_import<C: ResolutionContext>(
    reference: &UnresolvedRef,
    context: &C,
) -> (found: Option<ResolvedRef>)
    ensures
        answers(found, *reference, aliased(*reference, *context)),
{
    let mappings = context.import_mappings(reference.file_path.as_str(), reference.language);
    let at: usize = match find_binding(mappings.as_slice(), reference.reference_name.as_str()) {
        Some(at) => at,
        None => return None,
    };
    let mapping = &mappings[at];
    let stem = module_stem(mapping.source.as_str());
    let stem = if stem.as_str().is_empty() {
        copy(mapping.source.as_str())
    } else {
        stem
    };
    let keep = |node: &Node| -> (matching: bool)
        ensures
            matching == importable(node.kind),
    {
        is_importable(node.kind)
    };
    let named = context.nodes_by_name(mapping.exported_name.as_str());
    let nodes = retain(named.as_slice(), keep, Ghost(|node: Node| importable(node.kind)));
    if nodes.len() == 0 {
        return None;
    }
    match bind_in_stem_or_sole(reference, nodes.as_slice(), stem.as_str()) {
        Some(resolved) => Some(resolved),
        None => resolve_reexport(
            reference,
            mapping.source.as_str(),
            mapping.exported_name.as_str(),
            context,
        ),
    }
}

// ---------------------------------------------------------------------------
// Dispatch through a model, a type or the enclosing class

/// The text is among those listed.
pub open spec fn lists(listed: Seq<&'static str>, text: Seq<char>) -> bool {
    exists|i: int| 0 <= i < listed.len() && (#[trigger] listed[i])@ == text
}

fn is_listed(listed: &[&'static str], text: &str) -> (found: bool)
    ensures
        found == lists(listed@, text@),
{
    for i in 0..listed.len()
        invariant
            forall|k: int| 0 <= k < i ==> (#[trigger] listed@[k])@ != text@,
    {
        if same_text(listed[i], text) {
            return true;
        }
    }
    false
}

fn has_candidate(candidates: &[String], wanted: &str) -> (found: bool)
    ensures
        found == views(candidates@).contains(wanted@),
{
    for i in 0..candidates.len()
        invariant
            forall|k: int| 0 <= k < i ==> (#[trigger] views(candidates@)[k]) != wanted@,
    {
        assert(views(candidates@)[i as int] == candidates@[i as int]@);
        if same_text(candidates[i].as_str(), wanted) {
            return true;
        }
    }
    assert(views(candidates@).len() == candidates@.len());
    false
}

/// The first candidate, from `from` on, that is neither the sentinel nor empty.
pub open spec fn carried(
    candidates: Seq<Seq<char>>,
    sentinel: Seq<char>,
    from: int,
) -> Option<Seq<char>>
    decreases candidates.len() - from,
{
    if from < 0 || from >= candidates.len() {
        None
    } else if candidates[from] != sentinel && candidates[from].len() > 0 {
        Some(candidates[from])
    } else {
        carried(candidates, sentinel, from + 1)
    }
}

fn find_carried(candidates: &[String], sentinel: &str) -> (found: Option<usize>)
    ensures
        match found {
            Some(at) => at < candidates@.len() && carried(views(candidates@), sentinel@, 0)
                == Some(candidates@[at as int]@),
            None => carried(views(candidates@), sentinel@, 0) is None,
        },
{
    for i in 0..candidates.len()
        invariant
            carried(views(candidates@), sentinel@, 0) == carried(
                views(candidates@),
                sentinel@,
                i as int,
            ),
    {
        assert(views(candidates@)[i as int] == candidates@[i as int]@);
        if !same_text(candidates[i].as_str(), sentinel) && !candidates[i].as_str().is_empty() {
            return Some(i);
        }
    }
    None
}

/// The owner of a qualified name is the model's name with one of the suffixes.
pub open spec fn is_companion(
    qualified_name: Seq<char>,
    model: Seq<char>,
    suffixes: Seq<&'static str>,
) -> bool {
    exists|i: int|
        0 <= i < suffixes.len() && top_owner_spec(qualified_name) == model + (
        #[trigger] suffixes[i])@
}

/// Whether a companion class owner belongs to `model`, by the naming convention that binds them:
/// `Order` owns `OrderQuerySet`, `OrderManager`, and `OrderQuerySetManager` under
/// [`MANAGER_SUFFIXES`], and `OrderService`, `OrderFactoryService`, and the rest under
/// [`SERVICE_SUFFIXES`]. The name past the model prefix must be exactly one of `suffixes`, not
/// merely start with the model, so one model's companion never stands in for another's.
pub fn owner_matches_model(qualified_name: &str, model: &str, suffixes: &[&'static str]) -> (owns:
    bool)
    ensures
        owns == is_companion(qualified_name@, model@, suffixes@),
{
    let owner = top_owner(qualified_name);
    for i in 0..suffixes.len()
        invariant
            owner@ == top_owner_spec(qualified_name@),
            forall|k: int| 0 <= k < i ==> owner@ != model@ + (#[trigger] suffixes@[k])@,
    {
        if same_text(owner.as_str(), cat2(model, suffixes[i]).as_str()) {
            return true;
        }
    }
    false
}

/// The owner of a qualified name is named like a queryset or a manager.
pub open spec fn is_managed(qualified_name: Seq<char>) -> bool {
    ||| "QuerySet"@.is_suffix_of(top_owner_spec(qualified_name))
    ||| "Manager"@.is_suffix_of(top_owner_spec(qualified_name))
}

/// Whether a method's top-level owning class names a queryset or manager (ends with `QuerySet` or
/// `Manager`).
pub fn owner_is_manager(qualified_name: &str) -> (managed: bool)
    ensures
        managed == is_managed(qualified_name@),
{
    let owner = top_owner(qualified_name);
    ends_with(owner.as_str(), "QuerySet") || ends_with(owner.as_str(), "Manager")
}

/// The owner of a qualified name is named like a service.
pub open spec fn is_served(qualified_name: Seq<char>) -> bool {
    "Service"@.is_suffix_of(top_owner_spec(qualified_name))
}

/// Whether a method's top-level owning class is a service (ends with `Service`). Excludes test
/// classes, which end `ServiceTestCase`.
pub fn owner_is_service(qualified_name: &str) -> (served: bool)
    ensures
        served == is_served(qualified_name@),
{
    ends_with(top_owner(qualified_name).as_str(), "Service")
}

/// The one method that may be meant, or the one that the model carried past the sentinel owns.
pub open spec fn dispatched(
    methods: Seq<Arc<Node>>,
    candidates: Seq<Seq<char>>,
    sentinel: Seq<char>,
    suffixes: Seq<&'static str>,
) -> Option<Target> {
    if methods.len() == 1 {
        sole_as(methods, 85, ResolvedBy::Framework)
    } else {
        match carried(candidates, sentinel, 0) {
            Some(model) => sole_as(
                chosen(
                    methods,
                    |node: Node| is_companion(node.qualified_name@, model, suffixes),
                ),
                80,
                ResolvedBy::Framework,
            ),
            None => None,
        }
    }
}

fn dispatch(
    reference: &UnresolvedRef,
    methods: &[Arc<Node>],
    sentinel: &str,
    suffixes: &[&'static str],
) -> (found: Option<ResolvedRef>)
    ensures
        answers(
            found,
            *reference,
            dispatched(methods@, views(reference.candidates@), sentinel@, suffixes@),
        ),
{
    if methods.len() == 1 {
        return bind_sole(reference, methods, 85, ResolvedBy::Framework);
    }
    let at: usize = match find_carried(reference.candidates.as_slice(), sentinel) {
        Some(at) => at,
        None => return None,
    };
    let model = reference.candidates[at].as_str();
    let keep = |node: &Node| -> (matching: bool)
        ensures
            matching == is_companion(node.qualified_name@, model@, suffixes@),
    {
        owner_matches_model(node.qualified_name.as_str(), model, suffixes)
    };
    let owned = retain(
        methods,
        keep,
        Ghost(|node: Node| is_companion(node.qualified_name@, model@, suffixes@)),
    );
    bind_sole(reference, owned.as_slice(), 80, ResolvedBy::Framework)
}

/// The target of a method dispatched through a model manager.
pub open spec fn queryset_target<C: ResolutionContext>(
    reference: UnresolvedRef,
    context: C,
) -> Option<Target> {
    if lists(QUERYSET_BUILTINS@, reference.reference_name@) {
        None
    } else {
        dispatched(
            chosen(
                context.named(reference.reference_name@),
                |node: Node| node.kind == NodeKind::Method && is_managed(node.qualified_name@),
            ),
            views(reference.candidates@),
            QUERYSET_DISPATCH@,
            MANAGER_SUFFIXES@,
        )
    }
}

/// The target a custom QuerySet or Manager method dispatched through a model manager resolves to
/// (`Article.objects.by_year()`). The `.objects.` indirection isn't statically followable, so this
/// binds by the method's (rare, custom) name to the sole `*QuerySet` or `*Manager`-owned method of
/// that name, and failing that to the one whose owner belongs to the model the chain started from.
/// Builtins never bind; a name that stays ambiguous resolves to nothing rather than guess.
pub fn resolve_queryset_method<C: ResolutionContext>(
    reference: &UnresolvedRef,
    context: &C,
) -> (found: Option<ResolvedRef>)
    ensures
        answers(found, *reference, queryset_target(*reference, *context)),
{
    let builtins: [&'static str; 37] = QUERYSET_BUILTINS;
    if is_listed(builtins.as_slice(), reference.reference_name.as_str()) {
        return None;
    }
    let keep = |node: &Node| -> (matching: bool)
        ensures
            matching == (node.kind == NodeKind::Method && is_managed(node.qualified_name@)),
    {
        node.kind == NodeKind::Method && owner_is_manager(node.qualified_name.as_str())
    };
    let nodes = context.nodes_by_name(reference.reference_name.as_str());
    let methods = retain(
        nodes.as_slice(),
        keep,
        Ghost(|node: Node| node.kind == NodeKind::Method && is_managed(node.qualified_name@)),
    );
    let suffixes: [&'static str; 3] = MANAGER_SUFFIXES;
    dispatch(reference, methods.as_slice(), QUERYSET_DISPATCH, suffixes.as_slice())
}

/// The target of a method dispatched through a model's services.
pub open spec fn service_target<C: ResolutionContext>(
    reference: UnresolvedRef,
    context: C,
) -> Option<Target> {
    if lists(SERVICE_BUILTINS@, reference.reference_name@) {
        None
    } else {
        dispatched(
            chosen(
                context.named(reference.reference_name@),
                |node: Node| node.kind == NodeKind::Method && is_served(node.qualified_name@),
            ),
            views(reference.candidates@),
            SERVICE_DISPATCH@,
            SERVICE_SUFFIXES@,
        )
    }
}

/// The target a custom service method dispatched through a model's `services` attribute resolves
/// to. The service object is reached through chained attributes, not statically followable, so
/// this binds the method's (rare, custom) name to the sole `*Service`-owned method of that name,
/// and failing that to the service the receiving model owns. Base methods are excluded; a name
/// that stays ambiguous under both tests resolves to nothing rather than guess.
pub fn resolve_service_method<C: ResolutionContext>(
    reference: &UnresolvedRef,
    context: &C,
) -> (found: Option<ResolvedRef>)
    ensures
        answers(found, *reference, service_target(*reference, *context)),
{
    let builtins: [&'static str; 2] = SERVICE_BUILTINS;
    if is_listed(builtins.as_slice(), reference.reference_name.as_str()) {
        return None;
    }
    let keep = |node: &Node| -> (matching: bool)
        ensures
            matching == (node.kind == NodeKind::Method && is_served(node.qualified_name@)),
    {
        node.kind == NodeKind::Method && owner_is_service(node.qualified_name.as_str())
    };
    let nodes = context.nodes_by_name(reference.reference_name.as_str());
    let methods = retain(
        nodes.as_slice(),
        keep,
        Ghost(|node: Node| node.kind == NodeKind::Method && is_served(node.qualified_name@)),
    );
    let suffixes: [&'static str; 5] = SERVICE_SUFFIXES;
    dispatch(reference, methods.as_slice(), SERVICE_DISPATCH, suffixes.as_slice())
}

/// A kind that a call runs.
pub open spec fn is_callable(kind: NodeKind) -> bool {
    kind == NodeKind::Method || kind == NodeKind::Function
}

/// The target of a call on a receiver of an annotated type.
pub open spec fn typed_target<C: ResolutionContext>(
    reference: UnresolvedRef,
    context: C,
) -> Option<Target> {
    match carried(views(reference.candidates@), TYPED_RECEIVER@, 0) {
        Some(annotated) => sole_as(
            chosen(
                context.named(reference.reference_name@),
                |node: Node|
                    is_callable(node.kind) && top_owner_spec(node.qualified_name@) == annotated,
            ),
            90,
            ResolvedBy::InstanceMethod,
        ),
        None => None,
    }
}

/// The method of the exact class a call on a type-annotated receiver resolves to
/// (`order.recalculate()` where `order: Order`). Binds only when a single method or function of
/// that name is owned by a class whose name equals the annotated type, so it never guesses across
/// same-named methods on other classes. The annotated type name is carried as the candidate
/// following the [`TYPED_RECEIVER`] sentinel.
pub fn resolve_typed_receiver<C: ResolutionContext>(
    reference: &UnresolvedRef,
    context: &C,
) -> (found: Option<ResolvedRef>)
    ensures
        answers(found, *reference, typed_target(*reference, *context)),
{
    let at: usize = match find_carried(reference.candidates.as_slice(), TYPED_RECEIVER) {
        Some(at) => at,
        None => return None,
    };
    let annotated = reference.candidates[at].as_str();
    let keep = |node: &Node| -> (matching: bool)
        ensures
            matching == (is_callable(node.kind) && top_owner_spec(node.qualified_name@)
                == annotated@),
    {
        (node.kind == NodeKind::Method || node.kind == NodeKind::Function) && same_text(
            top_owner(node.qualified_name.as_str()).as_str(),
            annotated,
        )
    };
    let nodes = context.nodes_by_name(reference.reference_name.as_str());
    let methods = retain(
        nodes.as_slice(),
        keep,
        Ghost(
            |node: Node|
                is_callable(node.kind) && top_owner_spec(node.qualified_name@) == annotated@,
        ),
    );
    bind_sole(reference, methods.as_slice(), 90, ResolvedBy::InstanceMethod)
}

/// The methods and functions among the nodes.
pub open spec fn callables(nodes: Seq<Arc<Node>>) -> Seq<Arc<Node>> {
    chosen(nodes, |node: Node| is_callable(node.kind))
}

/// The text is routing data: it begins with the sentinel prefix.
pub open spec fn is_routing(candidate: Seq<char>) -> bool {
    candidate.len() > 0 && candidate[0] == SENTINEL_PREFIX
}

/// The method of this name in the first of the candidate classes, from `from` on, that has one,
/// those past a sentinel left out.
pub open spec fn instance_target<C: ResolutionContext>(
    name: Seq<char>,
    candidates: Seq<Seq<char>>,
    context: C,
    from: int,
) -> Option<Target>
    decreases candidates.len() - from,
{
    if from < 0 || from >= candidates.len() || is_routing(candidates[from]) {
        None
    } else {
        let methods = callables(context.qualified(candidates[from] + "."@ + name));
        if methods.len() > 0 {
            first_as(methods, 95, ResolvedBy::InstanceMethod)
        } else {
            instance_target(name, candidates, context, from + 1)
        }
    }
}

fn is_sentinel(candidate: &str) -> (found: bool)
    ensures
        found == is_routing(candidate@),
{
    let chars = chars_of(candidate);
    chars.len() > 0 && chars[0] == SENTINEL_PREFIX
}

/// The method of the enclosing class a `self.x()` or `cls.x()` call resolves to, carried on the
/// reference's candidates as the class's qualified name. Matches the method by exact qualified
/// name, so it never binds to a same-named method on a different class.
pub fn resolve_instance_method<C: ResolutionContext>(
    reference: &UnresolvedRef,
    context: &C,
) -> (found: Option<ResolvedRef>)
    ensures
        answers(
            found,
            *reference,
            instance_target(
                reference.reference_name@,
                views(reference.candidates@),
                *context,
                0,
            ),
        ),
{
    let ghost classes = views(reference.candidates@);
    for i in 0..reference.candidates.len()
        invariant
            classes == views(reference.candidates@),
            instance_target(reference.reference_name@, classes, *context, 0) == instance_target(
                reference.reference_name@,
                classes,
                *context,
                i as int,
            ),
    {
        assert(classes[i as int] == reference.candidates@[i as int]@);
        if is_sentinel(reference.candidates[i].as_str()) {
            return None;
        }
        let qualified = cat3(
            reference.candidates[i].as_str(),
            ".",
            reference.reference_name.as_str(),
        );
        let nodes = context.nodes_by_qualified_name(qualified.as_str());
        let keep = |node: &Node| -> (matching: bool)
            ensures
                matching == is_callable(node.kind),
        {
            node.kind == NodeKind::Method || node.kind == NodeKind::Function
        };
        let methods = retain(nodes.as_slice(), keep, Ghost(|node: Node| is_callable(node.kind)));
        if methods.len() > 0 {
            return bind_first(reference, methods.as_slice(), 95, ResolvedBy::InstanceMethod);
        }
    }
    None
}

// ---------------------------------------------------------------------------
// Imports

/// The definition a named script import means: in the imported module's file when possible.
pub open spec fn script_symbol_target<C: ResolutionContext>(
    name: Seq<char>,
    module: Seq<char>,
    context: C,
) -> Option<Target> {
    if "."@.is_prefix_of(module) {
        in_stem_or_sole(
            chosen(
                context.named(name),
                |node: Node|
                    node.language == Language::JavaScript && defines(node.kind) && node.kind
                        != NodeKind::File,
            ),
            js_module_stem_spec(module),
        )
    } else {
        None
    }
}

/// The exported symbol a named or default script import names, in the imported module's file when
/// possible. Bare specifiers are external and stay pending.
pub fn resolve_js_symbol<C: ResolutionContext>(
    reference: &UnresolvedRef,
    module: &str,
    context: &C,
) -> (found: Option<ResolvedRef>)
    ensures
        answers(
            found,
            *reference,
            script_symbol_target(reference.reference_name@, module@, *context),
        ),
{
    if !starts_with(module, ".") {
        return None;
    }
    let stem = js_module_stem(module);
    let keep = |node: &Node| -> (matching: bool)
        ensures
            matching == (node.language == Language::JavaScript && defines(node.kind) && node.kind
                != NodeKind::File),
    {
        node.language == Language::JavaScript && is_definition(node.kind) && node.kind
            != NodeKind::File
    };
    let nodes = context.nodes_by_name(reference.reference_name.as_str());
    let candidates = retain(
        nodes.as_slice(),
        keep,
        Ghost(
            |node: Node|
                node.language == Language::JavaScript && defines(node.kind) && node.kind
                    != NodeKind::File,
        ),
    );
    bind_in_stem_or_sole(reference, candidates.as_slice(), stem.as_str())
}

/// The script file a module specifier means.
pub open spec fn script_module_target<C: ResolutionContext>(
    module: Seq<char>,
    context: C,
) -> Option<Target> {
    let stem = js_module_stem_spec(module);
    if "."@.is_prefix_of(module) && stem.len() > 0 {
        first_as(
            chosen(
                context.of_kind(NodeKind::File),
                |node: Node|
                    node.language == Language::JavaScript && file_stem_spec(node.file_path@)
                        == stem,
            ),
            85,
            ResolvedBy::Import,
        )
    } else {
        None
    }
}

/// The module's file a side-effect or namespace script import resolves to, by path stem.
pub fn resolve_js_module<C: ResolutionContext>(
    reference: &UnresolvedRef,
    module: &str,
    context: &C,
) -> (found: Option<ResolvedRef>)
    ensures
        answers(found, *reference, script_module_target(module@, *context)),
{
    if !starts_with(module, ".") {
        return None;
    }
    let stem = js_module_stem(module);
    if stem.as_str().is_empty() {
        return None;
    }
    let keep = |node: &Node| -> (matching: bool)
        ensures
            matching == (node.language == Language::JavaScript && file_stem_spec(node.file_path@)
                == stem@),
    {
        node.language == Language::JavaScript && same_text(
            file_stem(node.file_path.as_str()).as_str(),
            stem.as_str(),
        )
    };
    let nodes = context.nodes_by_kind(NodeKind::File);
    let files = retain(
        nodes.as_slice(),
        keep,
        Ghost(
            |node: Node|
                node.language == Language::JavaScript && file_stem_spec(node.file_path@) == stem@,
        ),
    );
    bind_first(reference, files.as_slice(), 85, ResolvedBy::Import)
}

/// The target of a script import: a symbol of the module carried first, or the module itself.
pub open spec fn script_import_target<C: ResolutionContext>(
    reference: UnresolvedRef,
    context: C,
) -> Option<Target> {
    if reference.candidates@.len() > 0 {
        script_symbol_target(reference.reference_name@, reference.candidates@[0]@, context)
    } else {
        script_module_target(reference.reference_name@, context)
    }
}

/// The target a script import resolves to. Only relative specifiers (intra-project) link; the
/// target is the script file whose name matches the specifier's final path segment. Bare
/// specifiers are external and stay pending.
pub fn resolve_js_import<C: ResolutionContext>(
    reference: &UnresolvedRef,
    context: &C,
) -> (found: Option<ResolvedRef>)
    ensures
        answers(found, *reference, script_import_target(*reference, *context)),
{
    if reference.candidates.len() > 0 {
        resolve_js_symbol(reference, reference.candidates[0].as_str(), context)
    } else {
        resolve_js_module(reference, reference.reference_name.as_str(), context)
    }
}

/// The definitions of a name in a file of this stem.
pub open spec fn defined_in(nodes: Seq<Arc<Node>>, stem: Seq<char>) -> Seq<Arc<Node>> {
    chosen(nodes, |node: Node| defines(node.kind) && file_stem_spec(node.file_path@) == stem)
}

fn keep_defined_in(nodes: &[Arc<Node>], stem: &str) -> (kept: Vec<Arc<Node>>)
    ensures
        kept@ == defined_in(nodes@, stem@),
{
    let keep = |node: &Node| -> (matching: bool)
        ensures
            matching == (defines(node.kind) && file_stem_spec(node.file_path@) == stem@),
    {
        is_definition(node.kind) && same_text(file_stem(node.file_path.as_str()).as_str(), stem)
    };
    retain(
        nodes,
        keep,
        Ghost(|node: Node| defines(node.kind) && file_stem_spec(node.file_path@) == stem@),
    )
}

/// What a relative import means that names no symbol of its module: a file of that name, or the
/// one definition of it.
pub open spec fn sibling_target<C: ResolutionContext>(name: Seq<char>, context: C) -> Option<
    Target,
> {
    let files = chosen(
        context.of_kind(NodeKind::File),
        |node: Node| file_stem_spec(node.file_path@) == name,
    );
    if files.len() > 0 {
        first_as(files, 85, ResolvedBy::Import)
    } else {
        sole_as(
            chosen(context.named(name), |node: Node| defines(node.kind)),
            80,
            ResolvedBy::Import,
        )
    }
}

fn resolve_sibling<C: ResolutionContext>(reference: &UnresolvedRef, context: &C) -> (found: Option<
    ResolvedRef,
>)
    ensures
        answers(found, *reference, sibling_target(reference.reference_name@, *context)),
{
    let name = reference.reference_name.as_str();
    let keep = |node: &Node| -> (matching: bool)
        ensures
            matching == (file_stem_spec(node.file_path@) == name@),
    {
        same_text(file_stem(node.file_path.as_str()).as_str(), name)
    };
    let nodes = context.nodes_by_kind(NodeKind::File);
    let files = retain(
        nodes.as_slice(),
        keep,
        Ghost(|node: Node| file_stem_spec(node.file_path@) == name@),
    );
    if files.len() > 0 {
        return bind_first(reference, files.as_slice(), 85, ResolvedBy::Import);
    }
    let named = context.nodes_by_name(name);
    let anywhere = keep_definitions(named.as_slice());
    bind_sole(reference, anywhere.as_slice(), 80, ResolvedBy::Import)
}

/// The module that an import reference carries first.
pub open spec fn carried_module(candidates: Seq<String>) -> Seq<char> {
    if candidates.len() > 0 {
        candidates[0]@
    } else {
        Seq::empty()
    }
}

/// The target of an import: the symbol in the module's file, then a re-export of it, then the
/// module file that an absolute import spells, or what a relative one names beside it.
pub open spec fn import_target<C: ResolutionContext>(
    reference: UnresolvedRef,
    context: C,
) -> Option<Target> {
    let name = reference.reference_name@;
    let module = carried_module(reference.candidates@);
    let stem = after_last_spec(module, "."@);
    let symbols = defined_in(context.named(name), stem);
    if reference.language == Language::JavaScript {
        script_import_target(reference, context)
    } else if stem.len() > 0 && symbols.len() > 0 {
        first_as(symbols, 90, ResolvedBy::Import)
    } else {
        match reexported(reference, module, name, context) {
            Some(target) => Some(target),
            None => if "."@.is_prefix_of(module) {
                sibling_target(name, context)
            } else {
                let spelled = replaced(module, '.', '/') + "/"@ + name + ".py"@;
                first_as(
                    chosen(
                        context.of_kind(NodeKind::File),
                        |node: Node| path_in_module_spec(node.file_path@, spelled),
                    ),
                    85,
                    ResolvedBy::Import,
                )
            },
        }
    }
}

/// The definition inside the same project an import resolves to. External imports (absolute,
/// non-first-party) have no target and stay pending for the cross-project linker.
pub fn resolve_import<C: ResolutionContext>(
    reference: &UnresolvedRef,
    context: &C,
) -> (found: Option<ResolvedRef>)
    ensures
        answers(found, *reference, import_target(*reference, *context)),
{
    if reference.language == Language::JavaScript {
        return resolve_js_import(reference, context);
    }
    let name = reference.reference_name.as_str();
    let module = if reference.candidates.len() > 0 {
        copy(reference.candidates[0].as_str())
    } else {
        String::new()
    };
    assert(module@ =~= carried_module(reference.candidates@));
    let stem = after_last(module.as_str(), ".");
    if !stem.as_str().is_empty() {
        let nodes = context.nodes_by_name(name);
        let symbols = keep_defined_in(nodes.as_slice(), stem.as_str());
        if symbols.len() > 0 {
            return bind_first(reference, symbols.as_slice(), 90, ResolvedBy::Import);
        }
    }
    if let Some(resolved) = resolve_reexport(reference, module.as_str(), name, context) {
        return Some(resolved);
    }
    if !starts_with(module.as_str(), ".") {
        let spelled = cat4(
            replace(module.as_str(), '.', '/').as_str(),
            "/",
            name,
            ".py",
        );
        let nodes = context.nodes_by_kind(NodeKind::File);
        let files = keep_in_module(nodes.as_slice(), spelled.as_str());
        return bind_first(reference, files.as_slice(), 85, ResolvedBy::Import);
    }
    resolve_sibling(reference, context)
}

// ---------------------------------------------------------------------------
// References

/// The target of a name: an exact match, then the meaning of an import alias, then a match that
/// ignores case.
pub open spec fn named_target<C: ResolutionContext>(
    reference: UnresolvedRef,
    context: C,
) -> Option<Target> {
    let language = target_language_spec(reference.reference_kind);
    let exact = scoped(
        in_language(context.named(reference.reference_name@), language),
        reference,
        context,
    );
    let fuzzy = scoped(
        in_language(context.lower_named(lowercased(reference.reference_name@)), language),
        reference,
        context,
    );
    match match_target(reference, exact, ResolvedBy::ExactMatch, 90, 60) {
        Some(target) => Some(target),
        None => match aliased(reference, context) {
            Some(target) => Some(target),
            None => match_target(reference, fuzzy, ResolvedBy::Fuzzy, 50, 40),
        },
    }
}

/// The target of a reference that is no import: a call may be routed by its candidates, and
/// everything else goes by name.
pub open spec fn reference_target<C: ResolutionContext>(
    reference: UnresolvedRef,
    context: C,
) -> Option<Target> {
    let candidates = views(reference.candidates@);
    let is_call = reference.reference_kind == EdgeKind::Calls;
    if candidates.contains(SUPER_DISPATCH@) {
        None
    } else if is_call && candidates.contains(QUERYSET_DISPATCH@) {
        queryset_target(reference, context)
    } else if is_call && candidates.contains(SERVICE_DISPATCH@) {
        service_target(reference, context)
    } else if is_call && candidates.contains(TYPED_RECEIVER@) {
        typed_target(reference, context)
    } else if is_call {
        match instance_target(reference.reference_name@, candidates, context, 0) {
            Some(target) => Some(target),
            None => named_target(reference, context),
        }
    } else {
        named_target(reference, context)
    }
}

fn resolve_named<C: ResolutionContext>(reference: &UnresolvedRef, context: &C) -> (found: Option<
    ResolvedRef,
>)
    ensures
        answers(found, *reference, named_target(*reference, *context)),
{
    let language = target_language(reference.reference_kind);
    let named = context.nodes_by_name(reference.reference_name.as_str());
    let exact = scope_target(filter_language(named, language), reference, context);
    if let Some(resolved) = match_candidates(
        reference,
        exact.as_slice(),
        ResolvedBy::ExactMatch,
        90,
        60,
    ) {
        return Some(resolved);
    }
    if let Some(resolved) = resolve_via_import(reference, context) {
        return Some(resolved);
    }
    let lowered = lowercase(reference.reference_name.as_str());
    let alike = context.nodes_by_lower_name(lowered.as_str());
    let fuzzy = scope_target(filter_language(alike, language), reference, context);
    match_candidates(reference, fuzzy.as_slice(), ResolvedBy::Fuzzy, 50, 40)
}

/// The target a non-import reference resolves to: exact name match first, then a lower-case fuzzy
/// match, each constrained to the kinds the reference can plausibly name. A `super()` call names a
/// method the enclosing class deliberately skips, so neither instance-method nor generic name
/// resolution may see it.
pub fn resolve_by_name<C: ResolutionContext>(
    reference: &UnresolvedRef,
    context: &C,
) -> (found: Option<ResolvedRef>)
    ensures
        answers(found, *reference, reference_target(*reference, *context)),
{
    let candidates = reference.candidates.as_slice();
    if has_candidate(candidates, SUPER_DISPATCH) {
        return None;
    }
    if reference.reference_kind == EdgeKind::Calls {
        if has_candidate(candidates, QUERYSET_DISPATCH) {
            return resolve_queryset_method(reference, context);
        }
        if has_candidate(candidates, SERVICE_DISPATCH) {
            return resolve_service_method(reference, context);
        }
        if has_candidate(candidates, TYPED_RECEIVER) {
            return resolve_typed_receiver(reference, context);
        }
        if let Some(resolved) = resolve_instance_method(reference, context) {
            return Some(resolved);
        }
    }
    resolve_named(reference, context)
}

/// A kind that the template member-access pipeline resolves on its own.
pub open spec fn is_pipelined(kind: EdgeKind) -> bool {
    match kind {
        EdgeKind::AccessesMember
        | EdgeKind::ContextType
        | EdgeKind::LoopBinding
        | EdgeKind::ReverseAccessor
        | EdgeKind::DerivedCollection => true,
        _ => false,
    }
}

/// The target of a reference, a node that refers to itself left out.
pub open spec fn resolution<C: ResolutionContext>(
    reference: UnresolvedRef,
    context: C,
) -> Option<Target> {
    let target = if reference.reference_kind == EdgeKind::Imports {
        import_target(reference, context)
    } else {
        reference_target(reference, context)
    };
    if is_pipelined(reference.reference_kind) {
        None
    } else {
        match target {
            Some(target) => if target.node.id@ == reference.from_node_id@ {
                None
            } else {
                Some(target)
            },
            None => None,
        }
    }
}

/// The target node one reference resolves to against a single project's graph, or `None` when no
/// confident target exists (an external symbol, or too ambiguous to pick). Import references route
/// through import-specific logic; everything else resolves by name with a kind preference. The
/// references of the template member-access pipeline stay pending.
pub fn resolve_reference<C: ResolutionContext>(
    reference: &UnresolvedRef,
    context: &C,
) -> (found: Option<ResolvedRef>)
    requires
        reference.reference_name@.len() > 0,
        reference.line >= 1,
    ensures
        answers(found, *reference, resolution(*reference, *context)),
{
    match reference.reference_kind {
        EdgeKind::AccessesMember
        | EdgeKind::ContextType
        | EdgeKind::LoopBinding
        | EdgeKind::ReverseAccessor
        | EdgeKind::DerivedCollection => {
            return None;
        },
        _ => {},
    }
    let found = match reference.reference_kind {
        EdgeKind::Imports => resolve_import(reference, context),
        _ => resolve_by_name(reference, context),
    };
    match found {
        Some(resolved) => if same_text(
            resolved.target_node_id.as_str(),
            reference.from_node_id.as_str(),
        ) {
            None
        } else {
            Some(resolved)
        },
        None => None,
    }
}

/// A directed relation between two nodes, with where it is written and what produced it.
#[derive(Debug)]
pub struct Edge {
    pub source: String,
    pub target: String,
    pub kind: EdgeKind,
    pub line: Option<u32>,
    pub column: Option<u32>,
    pub provenance: Option<String>,
}

/// The edge a resolved reference implies, tagged with the strategy that produced it.
pub fn edge_from_resolved(resolved: &ResolvedRef) -> (edge: Edge)
    requires
        resolved.confidence <= CONFIDENCE_MAX,
        resolved.line >= 1,
    ensures
        edge.source@ == resolved.from_node_id@,
        edge.target@ == resolved.target_node_id@,
        edge.kind == resolved.reference_kind,
        edge.line == Some(resolved.line),
        edge.column == Some(resolved.column),
        match edge.provenance {
            Some(text) => text@ == "resolution:"@ + resolved.resolved_by.label(),
            None => false,
        },
{
    Edge {
        source: copy(resolved.from_node_id.as_str()),
        target: copy(resolved.target_node_id.as_str()),
        kind: resolved.reference_kind,
        line: Some(resolved.line),
        column: Some(resolved.column),
        provenance: Some(cat2("resolution:", resolved.resolved_by.as_str())),
    }
}

// ---------------------------------------------------------------------------
// What holds of every resolution

/// A reference never resolves to the node it comes from.
pub proof fn law_nothing_refers_to_itself<C: ResolutionContext>(
    reference: UnresolvedRef,
    context: C,
)
    ensures
        resolution(reference, context) matches Some(target) ==> target.node.id@
            != reference.from_node_id@,
{
}

/// The references of the template member-access pipeline stay pending.
pub proof fn law_pipelined_kinds_stay_pending<C: ResolutionContext>(
    reference: UnresolvedRef,
    context: C,
)
    requires
        is_pipelined(reference.reference_kind),
    ensures
        resolution(reference, context) is None,
{
}

/// A reference tagged as a `super()` call stays pending, unless it is an import.
pub proof fn law_super_calls_stay_pending<C: ResolutionContext>(
    reference: UnresolvedRef,
    context: C,
)
    requires
        reference.reference_kind != EdgeKind::Imports,
        views(reference.candidates@).contains(SUPER_DISPATCH@),
    ensures
        resolution(reference, context) is None,
{
}

/// A queryset builtin called through a manager never binds, whatever overrides it.
pub proof fn law_queryset_builtins_never_bind<C: ResolutionContext>(
    reference: UnresolvedRef,
    context: C,
)
    requires
        reference.reference_kind == EdgeKind::Calls,
        views(reference.candidates@).contains(QUERYSET_DISPATCH@),
        lists(QUERYSET_BUILTINS@, reference.reference_name@),
    ensures
        resolution(reference, context) is None,
{
}

/// The chosen nodes are wanted and are among the nodes chosen from.
proof fn lemma_member(nodes: Seq<Arc<Node>>, wanted: spec_fn(Node) -> bool)
    ensures
        forall|i: int|
            0 <= i < chosen(nodes, wanted).len() ==> wanted(*#[trigger] chosen(nodes, wanted)[i])
                && nodes.contains(chosen(nodes, wanted)[i]),
{
    lemma_chosen(nodes, wanted, nodes.len() as int);
}

/// A match is of a definition among the candidates.
proof fn lemma_match(
    reference: UnresolvedRef,
    candidates: Seq<Arc<Node>>,
    resolved_by: ResolvedBy,
    unique: u32,
    ambiguous: u32,
)
    ensures
        match_target(reference, candidates, resolved_by, unique, ambiguous) matches Some(target)
            ==> defines(target.node.kind) && candidates.contains(target.node)
            && target.resolved_by == resolved_by,
{
    let preferred = preferred_kinds_spec(reference.reference_kind);
    let definitions = chosen(candidates, |node: Node| defines(node.kind));
    let count = definitions.len() as int;
    lemma_member(candidates, |node: Node| defines(node.kind));
    law_nearest_shares_the_most(definitions, preferred, reference.file_path@, count);
    if let Some(at) = nearest_upto(definitions, preferred, reference.file_path@, count) {
        assert(defines(definitions[at].kind));
    } else if definitions.len() == 1 {
        assert(defines(definitions[0].kind));
    }
}

proof fn lemma_handles_scope(nodes: Seq<Arc<Node>>, file_path: Seq<char>)
    ensures
        forall|i: int|
            0 <= i < handles_scope(nodes, file_path).len() ==> nodes.contains(
                #[trigger] handles_scope(nodes, file_path)[i],
            ),
{
    let local = chosen(nodes, located(file_path));
    lemma_member(nodes, located(file_path));
    assert forall|i: int| 0 <= i < handles_scope(nodes, file_path).len() implies nodes.contains(
        #[trigger] handles_scope(nodes, file_path)[i],
    ) by {
        if local.len() > 0 {
            assert(nodes.contains(local[i]));
        } else {
            assert(nodes[i] == handles_scope(nodes, file_path)[i]);
        }
    }
}

/// Narrowing adds no candidate.
proof fn lemma_narrowed<C: ResolutionContext>(
    nodes: Seq<Arc<Node>>,
    language: Option<Language>,
    reference: UnresolvedRef,
    context: C,
    node: Arc<Node>,
)
    requires
        scoped(in_language(nodes, language), reference, context).contains(node),
    ensures
        nodes.contains(node),
{
    let spoken = in_language(nodes, language);
    let file_path = reference.file_path@;
    let imports = context.imports(file_path, reference.language);
    lemma_member(spoken, |node: Node| in_scope(node, file_path, imports));
    if let Some(binding) = receiver_binding(views(reference.candidates@), imports) {
        let module_file = module_file_spec(binding.source, binding.exported_name, file_path);
        lemma_member(spoken, |node: Node| path_in_module_spec(node.file_path@, module_file));
    }
    let kept = scoped(spoken, reference, context);
    let place = choose|k: int| 0 <= k < kept.len() && kept[k] == node;
    assert(kept[place] == node);
    match reference.reference_kind {
        EdgeKind::Calls => {
            assert(spoken.contains(kept[place]));
        },
        EdgeKind::RoutesTo => {
            assert(spoken.contains(kept[place]));
        },
        EdgeKind::Handles => {
            lemma_handles_scope(spoken, reference.file_path@);
            assert(spoken.contains(kept[place]));
        },
        _ => {},
    }
    if let Some(wanted) = language {
        lemma_member(nodes, |node: Node| node.language == wanted);
        let place = choose|k: int| 0 <= k < spoken.len() && spoken[k] == node;
        assert(nodes.contains(spoken[place]));
    }
}

/// A re-export is of a definition.
proof fn lemma_reexport<C: ResolutionContext>(
    initializers: Seq<Seq<char>>,
    name: Seq<char>,
    language: Language,
    context: C,
    hops: nat,
)
    ensures
        reexport_target(initializers, name, language, context, hops) matches Some(target)
            ==> defines(target.node.kind) && target.resolved_by == ResolvedBy::Import,
    decreases hops,
{
    if hops > 0 && initializers.len() > 0 {
        if let Some(reexport) = reexport_of(initializers, name, language, context, 0) {
            let stem = module_stem_spec(reexport.source);
            let nodes = context.named(reexport.exported);
            lemma_member(
                nodes,
                |node: Node| importable(node.kind) && file_stem_spec(node.file_path@) == stem,
            );
            if importable_in(nodes, stem).len() > 0 {
                assert(importable(importable_in(nodes, stem)[0].kind));
            }
            lemma_reexport(
                sub_package_initializers_spec(
                    reexport.directory,
                    reexport.source,
                    context.files(),
                ),
                reexport.exported,
                language,
                context,
                (hops - 1) as nat,
            );
        }
    }
}

proof fn lemma_in_stem(nodes: Seq<Arc<Node>>, stem: Seq<char>)
    requires
        forall|i: int| 0 <= i < nodes.len() ==> defines((#[trigger] nodes[i]).kind),
    ensures
        in_stem_or_sole(nodes, stem) matches Some(target) ==> defines(target.node.kind)
            && target.resolved_by == ResolvedBy::Import,
{
    lemma_member(nodes, |node: Node| file_stem_spec(node.file_path@) == stem);
    let placed = chosen(nodes, |node: Node| file_stem_spec(node.file_path@) == stem);
    if placed.len() > 0 {
        assert(nodes.contains(placed[0]));
    }
}

proof fn lemma_aliased<C: ResolutionContext>(reference: UnresolvedRef, context: C)
    ensures
        aliased(reference, context) matches Some(target) ==> defines(target.node.kind)
            && target.resolved_by == ResolvedBy::Import,
{
    if let Some(binding) = binding_of(
        context.imports(reference.file_path@, reference.language),
        reference.reference_name@,
        0,
    ) {
        let named = context.named(binding.exported_name);
        lemma_member(named, |node: Node| importable(node.kind));
        let nodes = chosen(named, |node: Node| importable(node.kind));
        assert forall|i: int| 0 <= i < nodes.len() implies defines((#[trigger] nodes[i]).kind) by {
            assert(importable(nodes[i].kind));
        }
        let stem = if module_stem_spec(binding.source).len() > 0 {
            module_stem_spec(binding.source)
        } else {
            binding.source
        };
        lemma_in_stem(nodes, stem);
        lemma_reexport(
            package_initializers_spec(reference.file_path@, binding.source, context.files()),
            binding.exported_name,
            reference.language,
            context,
            REEXPORT_HOPS_MAX as nat,
        );
    }
}

proof fn lemma_dispatched(
    methods: Seq<Arc<Node>>,
    candidates: Seq<Seq<char>>,
    sentinel: Seq<char>,
    suffixes: Seq<&'static str>,
)
    requires
        forall|i: int| 0 <= i < methods.len() ==> (#[trigger] methods[i]).kind == NodeKind::Method,
    ensures
        dispatched(methods, candidates, sentinel, suffixes) matches Some(target)
            ==> target.node.kind == NodeKind::Method && target.resolved_by
            == ResolvedBy::Framework,
{
    if let Some(model) = carried(candidates, sentinel, 0) {
        lemma_member(methods, |node: Node| is_companion(node.qualified_name@, model, suffixes));
        let owned = chosen(
            methods,
            |node: Node| is_companion(node.qualified_name@, model, suffixes),
        );
        if owned.len() == 1 {
            assert(methods.contains(owned[0]));
        }
    }
}

proof fn lemma_instance<C: ResolutionContext>(
    name: Seq<char>,
    candidates: Seq<Seq<char>>,
    context: C,
    from: int,
)
    ensures
        instance_target(name, candidates, context, from) matches Some(target) ==> is_callable(
            target.node.kind,
        ) && target.resolved_by == ResolvedBy::InstanceMethod && exists|k: int|
            0 <= k < candidates.len() && target.node.qualified_name@ == (#[trigger] candidates[k])
                + "."@ + name,
    decreases candidates.len() - from,
{
    if !(from < 0 || from >= candidates.len() || is_routing(candidates[from])) {
        let qualified = candidates[from] + "."@ + name;
        let nodes = context.qualified(qualified);
        lemma_member(nodes, |node: Node| is_callable(node.kind));
        context.lemma_qualified(qualified);
        if callables(nodes).len() > 0 {
            assert(nodes.contains(callables(nodes)[0]));
            assert(callables(nodes)[0].qualified_name@ == candidates[from] + "."@ + name);
        }
        lemma_instance(name, candidates, context, from + 1);
    }
}

/// A `self` call binds to the method of that name in one of the classes it was found in, never to
/// a same-named method on another.
pub proof fn law_self_calls_stay_in_their_class<C: ResolutionContext>(
    name: Seq<char>,
    candidates: Seq<Seq<char>>,
    context: C,
)
    ensures
        instance_target(name, candidates, context, 0) matches Some(target) ==> exists|k: int|
            0 <= k < candidates.len() && target.node.qualified_name@ == (#[trigger] candidates[k])
                + "."@ + name,
{
    lemma_instance(name, candidates, context, 0);
}

proof fn lemma_named_target<C: ResolutionContext>(reference: UnresolvedRef, context: C)
    ensures
        named_target(reference, context) matches Some(target) ==> defines(target.node.kind) && (
        target.resolved_by == ResolvedBy::ExactMatch ==> target.node.name@
            == reference.reference_name@),
{
    let language = target_language_spec(reference.reference_kind);
    let named = context.named(reference.reference_name@);
    let exact = scoped(in_language(named, language), reference, context);
    let fuzzy = scoped(
        in_language(context.lower_named(lowercased(reference.reference_name@)), language),
        reference,
        context,
    );
    lemma_match(reference, exact, ResolvedBy::ExactMatch, 90, 60);
    lemma_match(reference, fuzzy, ResolvedBy::Fuzzy, 50, 40);
    lemma_aliased(reference, context);
    context.lemma_named(reference.reference_name@);
    if let Some(target) = match_target(reference, exact, ResolvedBy::ExactMatch, 90, 60) {
        lemma_narrowed(named, language, reference, context, target.node);
    }
}

proof fn lemma_import_target<C: ResolutionContext>(reference: UnresolvedRef, context: C)
    ensures
        import_target(reference, context) matches Some(target) ==> defines(target.node.kind)
            && target.resolved_by == ResolvedBy::Import,
{
    let name = reference.reference_name@;
    let module = carried_module(reference.candidates@);
    let stem = after_last_spec(module, "."@);
    let named = context.named(name);
    let files = context.of_kind(NodeKind::File);
    context.lemma_of_kind(NodeKind::File);
    lemma_member(
        named,
        |node: Node| defines(node.kind) && file_stem_spec(node.file_path@) == stem,
    );
    if defined_in(named, stem).len() > 0 {
        assert(defines(defined_in(named, stem)[0].kind));
    }
    lemma_reexport(
        package_initializers_spec(reference.file_path@, module, context.files()),
        name,
        reference.language,
        context,
        REEXPORT_HOPS_MAX as nat,
    );
    let spelled = replaced(module, '.', '/') + "/"@ + name + ".py"@;
    lemma_member(files, |node: Node| path_in_module_spec(node.file_path@, spelled));
    lemma_member(files, |node: Node| file_stem_spec(node.file_path@) == name);
    lemma_member(named, |node: Node| defines(node.kind));
    lemma_script_symbol(name, module, context);
    let script_stem = js_module_stem_spec(name);
    lemma_member(
        files,
        |node: Node|
            node.language == Language::JavaScript && file_stem_spec(node.file_path@)
                == script_stem,
    );
}

proof fn lemma_script_symbol<C: ResolutionContext>(name: Seq<char>, module: Seq<char>, context: C)
    ensures
        script_symbol_target(name, module, context) matches Some(target) ==> defines(
            target.node.kind,
        ) && target.resolved_by == ResolvedBy::Import,
{
    let wanted = |node: Node|
        node.language == Language::JavaScript && defines(node.kind) && node.kind != NodeKind::File;
    lemma_member(context.named(name), wanted);
    let nodes = chosen(context.named(name), wanted);
    assert forall|i: int| 0 <= i < nodes.len() implies defines((#[trigger] nodes[i]).kind) by {
        assert(wanted(*nodes[i]));
    }
    lemma_in_stem(nodes, js_module_stem_spec(module));
}

/// A reference only ever binds to a definition: never to an import, which names something defined
/// elsewhere, nor to the stub of a symbol that no project defines.
pub proof fn law_targets_are_definitions<C: ResolutionContext>(
    reference: UnresolvedRef,
    context: C,
)
    ensures
        resolution(reference, context) matches Some(target) ==> defines(target.node.kind),
{
    let name = reference.reference_name@;
    let candidates = views(reference.candidates@);
    let named = context.named(name);
    lemma_import_target(reference, context);
    lemma_named_target(reference, context);
    lemma_instance(name, candidates, context, 0);
    let managed = |node: Node| node.kind == NodeKind::Method && is_managed(node.qualified_name@);
    let served = |node: Node| node.kind == NodeKind::Method && is_served(node.qualified_name@);
    lemma_member(named, managed);
    lemma_member(named, served);
    assert forall|i: int| 0 <= i < chosen(named, managed).len() implies (
    #[trigger] chosen(named, managed)[i]).kind == NodeKind::Method by {
        assert(managed(*chosen(named, managed)[i]));
    }
    assert forall|i: int| 0 <= i < chosen(named, served).len() implies (
    #[trigger] chosen(named, served)[i]).kind == NodeKind::Method by {
        assert(served(*chosen(named, served)[i]));
    }
    lemma_dispatched(
        chosen(named, managed),
        candidates,
        QUERYSET_DISPATCH@,
        MANAGER_SUFFIXES@,
    );
    lemma_dispatched(chosen(named, served), candidates, SERVICE_DISPATCH@, SERVICE_SUFFIXES@);
    if let Some(annotated) = carried(candidates, TYPED_RECEIVER@, 0) {
        lemma_member(
            named,
            |node: Node|
                is_callable(node.kind) && top_owner_spec(node.qualified_name@) == annotated,
        );
    }
}

/// What resolved by an exact match has the name that was referred to.
pub proof fn law_exact_matches_have_the_name<C: ResolutionContext>(
    reference: UnresolvedRef,
    context: C,
)
    ensures
        resolution(reference, context) matches Some(target) ==> (target.resolved_by
            == ResolvedBy::ExactMatch ==> target.node.name@ == reference.reference_name@),
{
    let name = reference.reference_name@;
    let candidates = views(reference.candidates@);
    lemma_import_target(reference, context);
    lemma_named_target(reference, context);
    lemma_instance(name, candidates, context, 0);
}

/// A match of a strict kind is of a kind the reference names; a match of a loose kind may also be
/// of another kind that a name can refer to.
proof fn lemma_match_kind(
    reference: UnresolvedRef,
    candidates: Seq<Arc<Node>>,
    resolved_by: ResolvedBy,
    unique: u32,
    ambiguous: u32,
)
    ensures
        match_target(reference, candidates, resolved_by, unique, ambiguous) matches Some(target)
            ==> preferred_kinds_spec(reference.reference_kind).contains(target.node.kind) || (
        is_loose(reference.reference_kind) && is_bindable(target.node.kind)),
{
    let preferred = preferred_kinds_spec(reference.reference_kind);
    let definitions = chosen(candidates, |node: Node| defines(node.kind));
    law_nearest_shares_the_most(
        definitions,
        preferred,
        reference.file_path@,
        definitions.len() as int,
    );
}

/// No false edge by a shared name: what a reference of a strict kind is matched to by name is of
/// the kind it names, so a model relation never lands on a field that happens to have the model's
/// name. A loose kind may be matched to another kind, but never to a value, a member or an import.
pub proof fn law_name_matches_are_of_a_fitting_kind<C: ResolutionContext>(
    reference: UnresolvedRef,
    context: C,
)
    ensures
        resolution(reference, context) matches Some(target) ==> (target.resolved_by
            == ResolvedBy::ExactMatch || target.resolved_by == ResolvedBy::Fuzzy) ==> (
        preferred_kinds_spec(reference.reference_kind).contains(target.node.kind) || (is_loose(
            reference.reference_kind,
        ) && is_bindable(target.node.kind))),
{
    let language = target_language_spec(reference.reference_kind);
    let exact = scoped(
        in_language(context.named(reference.reference_name@), language),
        reference,
        context,
    );
    let fuzzy = scoped(
        in_language(context.lower_named(lowercased(reference.reference_name@)), language),
        reference,
        context,
    );
    lemma_match_kind(reference, exact, ResolvedBy::ExactMatch, 90, 60);
    lemma_match_kind(reference, fuzzy, ResolvedBy::Fuzzy, 50, 40);
    lemma_aliased(reference, context);
    lemma_import_target(reference, context);
    lemma_instance(reference.reference_name@, views(reference.candidates@), context, 0);
}

/// A call matched by name reaches only what its file defines or imports: a method of the same name
/// in a file that it never imports is a collision, not a target.
pub proof fn law_calls_reach_only_their_scope<C: ResolutionContext>(
    reference: UnresolvedRef,
    context: C,
)
    requires
        reference.reference_kind == EdgeKind::Calls,
    ensures
        resolution(reference, context) matches Some(target) ==> (target.resolved_by
            == ResolvedBy::ExactMatch || target.resolved_by == ResolvedBy::Fuzzy) ==> in_scope(
            *target.node,
            reference.file_path@,
            context.imports(reference.file_path@, reference.language),
        ),
{
    let language = target_language_spec(reference.reference_kind);
    let file_path = reference.file_path@;
    let imports = context.imports(file_path, reference.language);
    let named = in_language(context.named(reference.reference_name@), language);
    let alike = in_language(context.lower_named(lowercased(reference.reference_name@)), language);
    let exact = scoped(named, reference, context);
    let fuzzy = scoped(alike, reference, context);
    lemma_match(reference, exact, ResolvedBy::ExactMatch, 90, 60);
    lemma_match(reference, fuzzy, ResolvedBy::Fuzzy, 50, 40);
    lemma_aliased(reference, context);
    lemma_instance(reference.reference_name@, views(reference.candidates@), context, 0);
    lemma_member(named, |node: Node| in_scope(node, file_path, imports));
    lemma_member(alike, |node: Node| in_scope(node, file_path, imports));
    if let Some(target) = match_target(reference, exact, ResolvedBy::ExactMatch, 90, 60) {
        let place = choose|k: int| 0 <= k < exact.len() && exact[k] == target.node;
        assert(in_scope(*exact[place], file_path, imports));
    }
    if let Some(target) = match_target(reference, fuzzy, ResolvedBy::Fuzzy, 50, 40) {
        let place = choose|k: int| 0 <= k < fuzzy.len() && fuzzy[k] == target.node;
        assert(in_scope(*fuzzy[place], file_path, imports));
    }
}

/// A handler stays in its own template: where the template defines one of that name in the
/// handler's language, an exact match is of that file.
pub proof fn law_handlers_stay_in_their_template<C: ResolutionContext>(
    reference: UnresolvedRef,
    context: C,
    at: int,
)
    requires
        reference.reference_kind == EdgeKind::Handles,
        ({
            let named = in_language(
                context.named(reference.reference_name@),
                target_language_spec(reference.reference_kind),
            );
            0 <= at < named.len() && named[at].file_path@ == reference.file_path@
        }),
    ensures
        resolution(reference, context) matches Some(target) ==> target.resolved_by
            == ResolvedBy::ExactMatch ==> target.node.file_path@ == reference.file_path@,
{
    let named = in_language(
        context.named(reference.reference_name@),
        target_language_spec(reference.reference_kind),
    );
    let file_path = reference.file_path@;
    let exact = scoped(named, reference, context);
    let fuzzy = scoped(
        in_language(
            context.lower_named(lowercased(reference.reference_name@)),
            target_language_spec(reference.reference_kind),
        ),
        reference,
        context,
    );
    lemma_match(reference, exact, ResolvedBy::ExactMatch, 90, 60);
    lemma_match(reference, fuzzy, ResolvedBy::Fuzzy, 50, 40);
    lemma_aliased(reference, context);
    lemma_member(named, located(file_path));
    lemma_chosen_holds(named, located(file_path), named.len() as int, at);
    if let Some(target) = match_target(reference, exact, ResolvedBy::ExactMatch, 90, 60) {
        let place = choose|k: int| 0 <= k < exact.len() && exact[k] == target.node;
        assert(located(file_path)(*exact[place]));
    }
}

/// A dispatched method is one of those it was chosen from.
proof fn lemma_dispatched_member(
    methods: Seq<Arc<Node>>,
    candidates: Seq<Seq<char>>,
    sentinel: Seq<char>,
    suffixes: Seq<&'static str>,
)
    ensures
        dispatched(methods, candidates, sentinel, suffixes) matches Some(target)
            ==> methods.contains(target.node) && (methods.len() == 1 || (carried(
            candidates,
            sentinel,
            0,
        ) matches Some(model) && is_companion(
            target.node.qualified_name@,
            model,
            suffixes,
        ))),
{
    if methods.len() == 1 {
        assert(methods.contains(methods[0]));
    }
    if let Some(model) = carried(candidates, sentinel, 0) {
        let wanted = |node: Node| is_companion(node.qualified_name@, model, suffixes);
        lemma_member(methods, wanted);
        if chosen(methods, wanted).len() == 1 {
            assert(wanted(*chosen(methods, wanted)[0]));
        }
    }
}

/// A call through a manager binds only to a queryset's or manager's own method of that name: the
/// only one there is, or the one that belongs to the model it was called on. Anything more
/// ambiguous stays pending.
pub proof fn law_manager_calls_bind_to_managers<C: ResolutionContext>(
    reference: UnresolvedRef,
    context: C,
)
    requires
        reference.reference_kind == EdgeKind::Calls,
        views(reference.candidates@).contains(QUERYSET_DISPATCH@),
    ensures
        resolution(reference, context) matches Some(target) ==> {
            let candidates = views(reference.candidates@);
            &&& target.node.name@ == reference.reference_name@
            &&& target.node.kind == NodeKind::Method
            &&& is_managed(target.node.qualified_name@)
            &&& chosen(
                context.named(reference.reference_name@),
                |node: Node| node.kind == NodeKind::Method && is_managed(node.qualified_name@),
            ).len() == 1 || (carried(candidates, QUERYSET_DISPATCH@, 0) matches Some(model)
                && is_companion(target.node.qualified_name@, model, MANAGER_SUFFIXES@))
        },
{
    let name = reference.reference_name@;
    let named = context.named(name);
    let wanted = |node: Node| node.kind == NodeKind::Method && is_managed(node.qualified_name@);
    let methods = chosen(named, wanted);
    lemma_member(named, wanted);
    context.lemma_named(name);
    lemma_dispatched_member(
        methods,
        views(reference.candidates@),
        QUERYSET_DISPATCH@,
        MANAGER_SUFFIXES@,
    );
    if let Some(target) = queryset_target(reference, context) {
        let place = choose|k: int| 0 <= k < methods.len() && methods[k] == target.node;
        assert(wanted(*methods[place]));
        assert(named.contains(methods[place]));
    }
}

/// A call through a model's services binds only to a service's own method of that name: the only
/// one there is, or the one that belongs to the model it was called on. Anything more ambiguous
/// stays pending.
pub proof fn law_service_calls_bind_to_services<C: ResolutionContext>(
    reference: UnresolvedRef,
    context: C,
)
    requires
        reference.reference_kind == EdgeKind::Calls,
        views(reference.candidates@).contains(SERVICE_DISPATCH@),
        !views(reference.candidates@).contains(QUERYSET_DISPATCH@),
    ensures
        resolution(reference, context) matches Some(target) ==> {
            let candidates = views(reference.candidates@);
            &&& target.node.name@ == reference.reference_name@
            &&& target.node.kind == NodeKind::Method
            &&& is_served(target.node.qualified_name@)
            &&& chosen(
                context.named(reference.reference_name@),
                |node: Node| node.kind == NodeKind::Method && is_served(node.qualified_name@),
            ).len() == 1 || (carried(candidates, SERVICE_DISPATCH@, 0) matches Some(model)
                && is_companion(target.node.qualified_name@, model, SERVICE_SUFFIXES@))
        },
{
    let name = reference.reference_name@;
    let named = context.named(name);
    let wanted = |node: Node| node.kind == NodeKind::Method && is_served(node.qualified_name@);
    let methods = chosen(named, wanted);
    lemma_member(named, wanted);
    context.lemma_named(name);
    lemma_dispatched_member(
        methods,
        views(reference.candidates@),
        SERVICE_DISPATCH@,
        SERVICE_SUFFIXES@,
    );
    if let Some(target) = service_target(reference, context) {
        let place = choose|k: int| 0 <= k < methods.len() && methods[k] == target.node;
        assert(wanted(*methods[place]));
        assert(named.contains(methods[place]));
    }
}

/// A call on a receiver of an annotated type binds only to the method of that name that the type
/// itself owns, and never guesses across same-named methods on other classes.
pub proof fn law_typed_calls_stay_on_their_type<C: ResolutionContext>(
    reference: UnresolvedRef,
    context: C,
)
    requires
        reference.reference_kind == EdgeKind::Calls,
        views(reference.candidates@).contains(TYPED_RECEIVER@),
        !views(reference.candidates@).contains(QUERYSET_DISPATCH@),
        !views(reference.candidates@).contains(SERVICE_DISPATCH@),
    ensures
        resolution(reference, context) matches Some(target) ==> target.node.name@
            == reference.reference_name@ && is_callable(target.node.kind) && carried(
            views(reference.candidates@),
            TYPED_RECEIVER@,
            0,
        ) == Some(top_owner_spec(target.node.qualified_name@)),
{
    let name = reference.reference_name@;
    let named = context.named(name);
    context.lemma_named(name);
    if let Some(annotated) = carried(views(reference.candidates@), TYPED_RECEIVER@, 0) {
        let wanted = |node: Node|
            is_callable(node.kind) && top_owner_spec(node.qualified_name@) == annotated;
        lemma_member(named, wanted);
        if chosen(named, wanted).len() == 1 {
            assert(wanted(*chosen(named, wanted)[0]));
            assert(named.contains(chosen(named, wanted)[0]));
        }
    }
}

// ---------------------------------------------------------------------------
// What resolves

/// The module is this segment, or ends in it behind a dot.
pub open spec fn ends_in_segment(module: Seq<char>, segment: Seq<char>) -> bool {
    module == segment || exists|package: Seq<char>| module == #[trigger] (package + seq!['.']
        + segment)
}

pub(crate) proof fn lemma_last_segment(module: Seq<char>, segment: Seq<char>)
    requires
        is_plain(segment),
        ends_in_segment(module, segment),
    ensures
        after_last_spec(module, "."@) == segment,
{
    reveal_strlit(".");
    assert("."@ =~= seq!['.']);
    if module == segment {
        lemma_no_rsplit(module, '.', module.len() as int);
    } else {
        let package = choose|package: Seq<char>|
            module == #[trigger] (package + seq!['.'] + segment);
        lemma_rsplit_at(package, '.', segment);
    }
}

/// The node is a definition, and stands in a file called this.
pub open spec fn is_definition_called(node: Node, stem: Seq<char>) -> bool {
    node.kind != NodeKind::Import && node.kind != NodeKind::External && is_called(
        node.file_path@,
        stem,
    )
}

/// An import binds to the symbol it names in the module it names: where a definition of the imported
/// name stands in a file called as the last segment of the module, the import has a target, and
/// that is such a definition.
pub proof fn law_imports_bind_to_their_module<C: ResolutionContext>(
    reference: UnresolvedRef,
    context: C,
    segment: Seq<char>,
)
    requires
        reference.reference_kind == EdgeKind::Imports,
        reference.language != Language::JavaScript,
        reference.candidates@.len() > 0,
        ends_in_segment(reference.candidates@[0]@, segment),
        segment.len() > 0,
        is_plain(segment),
        exists|k: int|
            0 <= k < context.named(reference.reference_name@).len() && is_definition_called(
                *#[trigger] context.named(reference.reference_name@)[k],
                segment,
            ),
        forall|k: int|
            0 <= k < context.named(reference.reference_name@).len() ==> (
            #[trigger] context.named(reference.reference_name@)[k]).id@
                != reference.from_node_id@,
    ensures
        resolution(reference, context) matches Some(target) && target.node.name@
            == reference.reference_name@ && is_definition_called(*target.node, segment)
            && target.confidence == 90 && target.resolved_by == ResolvedBy::Import,
{
    let name = reference.reference_name@;
    let named = context.named(name);
    let wanted = |node: Node| defines(node.kind) && file_stem_spec(node.file_path@) == segment;
    lemma_last_segment(reference.candidates@[0]@, segment);
    let at = choose|k: int|
        0 <= k < named.len() && is_definition_called(*#[trigger] named[k], segment);
    law_a_file_is_called_by_its_stem(named[at].file_path@, segment);
    lemma_chosen_holds(named, wanted, named.len() as int, at);
    lemma_chosen(named, wanted, named.len() as int);
    let symbols = defined_in(named, segment);
    assert(symbols =~= chosen(named, wanted));
    assert(symbols.len() > 0);
    context.lemma_named(name);
    assert(named.contains(symbols[0]));
    law_a_file_is_called_by_its_stem(symbols[0].file_path@, segment);
}

/// What a template says of its context is left for a later pass: the members it reads, the types of
/// its context, its loops, and the collections reached backwards or derived bind to nothing here.
pub proof fn law_template_expressions_stay_pending<C: ResolutionContext>(
    reference: UnresolvedRef,
    context: C,
)
    requires
        reference.reference_kind is AccessesMember || reference.reference_kind is ContextType
            || reference.reference_kind is DerivedCollection || reference.reference_kind
            is LoopBinding || reference.reference_kind is ReverseAccessor,
    ensures
        resolution(reference, context) is None,
{
}

/// A relation that names one family of kinds is never bound by name to a symbol of another, however
/// alone it stands; a call, a decoration or an instantiation is bound to the only symbol of its name,
/// unless that is a value, a member or an import.
pub proof fn law_only_loose_relations_take_what_is_there(
    reference: UnresolvedRef,
    node: Arc<Node>,
    resolved_by: ResolvedBy,
    unique: u32,
    ambiguous: u32,
)
    requires
        !preferred_kinds_spec(reference.reference_kind).contains(node.kind),
    ensures
        ({
            let target = match_target(reference, seq![node], resolved_by, unique, ambiguous);
            let kind = reference.reference_kind;
            &&& kind is AdminOf || kind is Extends || kind is ExtendsTemplate || kind
                is IncludesTemplate || kind is Reads || kind is Receives || kind is RelatesTo
                || kind is Renders || kind is Resolves || kind is Returns || kind is Styles || kind
                is Tests || kind is TypeOf || kind is UsesTag ==> target is None
            &&& (kind is Calls || kind is Decorates || kind is Handles || kind is Instantiates || kind
                is Overrides || kind is References || kind is RoutesTo) && (node.kind is Class
                || node.kind is File || node.kind is Function || node.kind is Method || node.kind
                is Model || node.kind is Module || node.kind is Route || node.kind is Selector
                || node.kind is Template || node.kind is View) ==> target is Some && target->0.node
                == node && target->0.confidence == ambiguous
        }),
{
    let preferred = preferred_kinds_spec(reference.reference_kind);
    let candidates = seq![node];
    let wanted = |n: Node| defines(n.kind);
    reveal_with_fuel(crate::resolution::context::chosen_upto, 3);
    let definitions = chosen(candidates, wanted);
    if defines(node.kind) {
        assert(definitions =~= candidates);
    } else {
        assert(definitions =~= Seq::empty());
    }
    law_nearest_shares_the_most(
        definitions,
        preferred,
        reference.file_path@,
        definitions.len() as int,
    );
}

proof fn lemma_receiver(imports: Seq<ImportView>, name: Seq<char>, from: int)
    requires
        0 <= from <= imports.len(),
    ensures
        match binding_of(imports, name, from) {
            Some(binding) => binding.local_name == name && imports.contains(binding),
            None => forall|k: int|
                from <= k < imports.len() ==> (#[trigger] imports[k]).local_name != name,
        },
    decreases imports.len() - from,
{
    if from < imports.len() && imports[from].local_name != name {
        lemma_receiver(imports, name, from + 1);
    }
}

/// A route names its view in the module that its receiver was imported from: what it is matched to
/// by name lies in that module. Where the receiver is not imported, or there is none, the view is
/// defined in the same file or imported into it.
pub proof fn law_a_route_is_bound_in_its_module<C: ResolutionContext>(
    reference: UnresolvedRef,
    context: C,
)
    requires
        reference.reference_kind == EdgeKind::RoutesTo,
        resolution(reference, context) is Some,
        ({
            let by = resolution(reference, context)->0.resolved_by;
            by == ResolvedBy::ExactMatch || by == ResolvedBy::Fuzzy
        }),
    ensures
        ({
            let node = *resolution(reference, context)->0.node;
            let file_path = reference.file_path@;
            let imports = context.imports(file_path, reference.language);
            let candidates = views(reference.candidates@);
            let imported = candidates.len() > 0 && exists|i: int|
                0 <= i < imports.len() && (#[trigger] imports[i]).local_name == candidates[0];
            &&& !imported ==> node.file_path@ == file_path || exists|i: int|
                0 <= i < imports.len() && (#[trigger] imports[i]).exported_name == top_owner_spec(
                    node.qualified_name@,
                )
            &&& imported ==> exists|i: int|
                0 <= i < imports.len() && (#[trigger] imports[i]).local_name == candidates[0]
                    && path_in_module_spec(
                    node.file_path@,
                    module_file_spec(imports[i].source, imports[i].exported_name, file_path),
                )
        }),
{
    let language = target_language_spec(reference.reference_kind);
    let file_path = reference.file_path@;
    let imports = context.imports(file_path, reference.language);
    let candidates = views(reference.candidates@);
    let named = in_language(context.named(reference.reference_name@), language);
    let alike = in_language(context.lower_named(lowercased(reference.reference_name@)), language);
    let exact = scoped(named, reference, context);
    let fuzzy = scoped(alike, reference, context);
    lemma_match(reference, exact, ResolvedBy::ExactMatch, 90, 60);
    lemma_match(reference, fuzzy, ResolvedBy::Fuzzy, 50, 40);
    lemma_aliased(reference, context);
    lemma_instance(reference.reference_name@, candidates, context, 0);
    if candidates.len() > 0 {
        lemma_receiver(imports, candidates[0], 0);
    }
    let target = resolution(reference, context)->0;
    match receiver_binding(candidates, imports) {
        Some(binding) => {
            let module_file = module_file_spec(binding.source, binding.exported_name, file_path);
            lemma_member(named, |node: Node| path_in_module_spec(node.file_path@, module_file));
            lemma_member(alike, |node: Node| path_in_module_spec(node.file_path@, module_file));
            let i = choose|i: int| 0 <= i < imports.len() && imports[i] == binding;
            assert(imports[i].local_name == candidates[0]);
        },
        None => {
            lemma_member(named, |node: Node| in_scope(node, file_path, imports));
            lemma_member(alike, |node: Node| in_scope(node, file_path, imports));
        },
    }
    if let Some(found) = match_target(reference, exact, ResolvedBy::ExactMatch, 90, 60) {
        let place = choose|k: int| 0 <= k < exact.len() && exact[k] == found.node;
        assert(exact[place] == found.node);
    }
    if let Some(found) = match_target(reference, fuzzy, ResolvedBy::Fuzzy, 50, 40) {
        let place = choose|k: int| 0 <= k < fuzzy.len() && fuzzy[k] == found.node;
        assert(fuzzy[place] == found.node);
    }
}

} // verus!
