//! What a reference binds to, in terms of the project itself.
use crate::chars::{
    after_last_spec, lemma_after_last, lemma_before_first, lowercased, replaced, views,
};
use crate::graph::{EdgeKind, Language, Node, NodeKind};
use crate::resolution::context::{
    bears, bears_lower, bears_qualified, chosen, chosen_upto, file_at, import_views, imports_at,
    is_of, lemma_chosen, lemma_chosen_holds, stands_in, FileImports, ImportView, ProjectFile,
    ProjectGraph, ResolutionContext,
};
use crate::resolution::paths::{
    base_name_spec, directory_basename_spec, file_stem_spec, is_called, is_plain,
    js_module_stem_spec, law_a_file_is_called_by_its_stem, law_a_module_goes_by_its_last_segment,
    module_stem_spec, parent_directory_spec, path_in_module_spec, shared_depth, top_owner_spec,
};
use crate::resolution::refs::{ResolvedBy, UnresolvedRef};
use crate::resolution::resolver::{
    aliased, binding_of, callables, carried, defined_in, defines, ends_in_segment, importable,
    in_language, in_scope, initializers_of, instance_target, is_callable, is_companion,
    is_definition_called, is_managed, is_own_package, is_routing, is_served,
    law_name_matches_are_of_a_fitting_kind, law_nearest_shares_the_most, lemma_last_segment, lists,
    located, match_target, named_target, nearest_upto, paths_upto, preferred_kinds_spec,
    reexport_of, reexport_target, reexported, reference_target, resolution, scoped,
    target_language_spec, Target, MANAGER_SUFFIXES, QUERYSET_BUILTINS, QUERYSET_DISPATCH,
    REEXPORT_HOPS_MAX, SERVICE_BUILTINS, SERVICE_DISPATCH, SERVICE_SUFFIXES, SUPER_DISPATCH,
    TYPED_RECEIVER,
};
use crate::symbols::dispatch_method_name;
use std::sync::Arc;
use vstd::prelude::*;

verus! {

// ---------------------------------------------------------------------------
// What fits what

/// What a reference of one kind can name.
pub open spec fn fits(kind: EdgeKind, target: NodeKind) -> bool {
    match kind {
        EdgeKind::Calls | EdgeKind::Handles | EdgeKind::UsesTag => target is Function
            || target is Method,
        EdgeKind::Extends | EdgeKind::Instantiates | EdgeKind::Returns | EdgeKind::TypeOf =>
        target is Class || target is Model,
        EdgeKind::AdminOf | EdgeKind::Receives | EdgeKind::RelatesTo => target is Class
            || target is Model,
        EdgeKind::Decorates => target is Class || target is Function || target is Method,
        EdgeKind::ExtendsTemplate | EdgeKind::IncludesTemplate | EdgeKind::Renders => target
            is Template,
        EdgeKind::Styles => target is Selector,
        EdgeKind::Resolves => target is Route,
        EdgeKind::RoutesTo => target is Class || target is Function || target is Method
            || target is View,
        EdgeKind::Tests => target is Class || target is Function || target is Model
            || target is View,
        EdgeKind::Reads => target is Constant || target is Variable,
        _ => target is Class || target is Function || target is Method || target is Model
            || target is Variable || target is View,
    }
}

/// A reference of this kind can only name something of this language.
pub open spec fn speaks(kind: EdgeKind, language: Language) -> bool {
    match kind {
        EdgeKind::AdminOf
        | EdgeKind::Reads
        | EdgeKind::Receives
        | EdgeKind::RelatesTo
        | EdgeKind::Returns
        | EdgeKind::RoutesTo
        | EdgeKind::Tests
        | EdgeKind::TypeOf
        | EdgeKind::UsesTag => language is Python,
        EdgeKind::Handles => language is JavaScript,
        _ => true,
    }
}

/// The node is one that a reference of this kind can name.
pub open spec fn is_fitting(kind: EdgeKind, node: Node) -> bool {
    !(node.kind is Import) && !(node.kind is External) && fits(kind, node.kind) && speaks(
        kind,
        node.language,
    )
}

proof fn lemma_fits(kind: EdgeKind, target: NodeKind)
    ensures
        preferred_kinds_spec(kind).contains(target) == fits(kind, target),
{
    let kinds = preferred_kinds_spec(kind);
    assert(kinds.len() <= 6);
    assert(kinds.contains(target) == (exists|i: int|
        0 <= i < kinds.len() && kinds[i] == target));
    if fits(kind, target) {
        assert(kinds[0] == target || kinds[1] == target || kinds[2] == target || kinds[3] == target
            || kinds[4] == target || kinds[5] == target);
    }
}

// ---------------------------------------------------------------------------
// Choosing

proof fn lemma_chosen_none(nodes: Seq<Arc<Node>>, wanted: spec_fn(Node) -> bool, count: int)
    requires
        0 <= count <= nodes.len(),
        forall|k: int| 0 <= k < count ==> !wanted(*#[trigger] nodes[k]),
    ensures
        chosen_upto(nodes, wanted, count).len() == 0,
    decreases count,
{
    if count > 0 {
        lemma_chosen_none(nodes, wanted, count - 1);
    }
}

/// Where only one node is wanted, it alone is chosen.
pub(crate) proof fn lemma_chosen_sole(
    nodes: Seq<Arc<Node>>,
    wanted: spec_fn(Node) -> bool,
    count: int,
    at: int,
)
    requires
        0 <= at < count <= nodes.len(),
        wanted(*nodes[at]),
        forall|k: int| 0 <= k < count && k != at ==> !wanted(*#[trigger] nodes[k]),
    ensures
        chosen_upto(nodes, wanted, count) == seq![nodes[at]],
    decreases count,
{
    if at == count - 1 {
        lemma_chosen_none(nodes, wanted, count - 1);
        assert(chosen_upto(nodes, wanted, count) =~= seq![nodes[at]]);
    } else {
        lemma_chosen_sole(nodes, wanted, count - 1, at);
    }
}

/// Choosing twice is choosing what is wanted both times.
proof fn lemma_chosen_twice(
    nodes: Seq<Arc<Node>>,
    first: spec_fn(Node) -> bool,
    second: spec_fn(Node) -> bool,
    count: int,
)
    requires
        0 <= count <= nodes.len(),
    ensures
        chosen(chosen_upto(nodes, first, count), second) == chosen_upto(
            nodes,
            |node: Node| first(node) && second(node),
            count,
        ),
    decreases count,
{
    let both = |node: Node| first(node) && second(node);
    if count > 0 {
        lemma_chosen_twice(nodes, first, second, count - 1);
        let before = chosen_upto(nodes, first, count - 1);
        let after = chosen_upto(nodes, first, count);
        if first(*nodes[count - 1]) {
            lemma_chosen_prefix(before, after, second, before.len() as int);
        }
    }
}

proof fn lemma_chosen_prefix(
    left: Seq<Arc<Node>>,
    right: Seq<Arc<Node>>,
    wanted: spec_fn(Node) -> bool,
    count: int,
)
    requires
        0 <= count <= left.len(),
        count <= right.len(),
        forall|k: int| 0 <= k < count ==> #[trigger] left[k] == right[k],
    ensures
        chosen_upto(left, wanted, count) == chosen_upto(right, wanted, count),
    decreases count,
{
    if count > 0 {
        lemma_chosen_prefix(left, right, wanted, count - 1);
        assert(left[count - 1] == right[count - 1]);
    }
}

// ---------------------------------------------------------------------------
// A match by name

/// What a match by name settles on: where one of the candidates is a definition that fits the
/// reference, the target is one of them, and none of them shares more directories with the
/// referring file. A candidate that is the only such one is the target, with full confidence.
pub proof fn law_a_match_is_the_nearest_that_fits(
    reference: UnresolvedRef,
    candidates: Seq<Arc<Node>>,
    resolved_by: ResolvedBy,
    sole: u32,
    ambiguous: u32,
    at: int,
)
    requires
        0 <= at < candidates.len(),
        !(candidates[at].kind is Import),
        !(candidates[at].kind is External),
        fits(reference.reference_kind, candidates[at].kind),
    ensures
        match_target(reference, candidates, resolved_by, sole, ambiguous) matches Some(target) && {
            &&& target.resolved_by == resolved_by
            &&& candidates.contains(target.node)
            &&& !(target.node.kind is Import)
            &&& !(target.node.kind is External)
            &&& fits(reference.reference_kind, target.node.kind)
            &&& forall|j: int|
                0 <= j < candidates.len() && !((#[trigger] candidates[j]).kind is Import) && !(
                candidates[j].kind is External) && fits(
                    reference.reference_kind,
                    candidates[j].kind,
                ) ==> shared_depth(reference.file_path@, candidates[j].file_path@) <= shared_depth(
                    reference.file_path@,
                    target.node.file_path@,
                )
            &&& (forall|j: int|
                0 <= j < candidates.len() && j != at ==> (#[trigger] candidates[j]).kind is Import
                    || candidates[j].kind is External || !fits(
                    reference.reference_kind,
                    candidates[j].kind,
                )) ==> target.node == candidates[at] && target.confidence == sole
        },
{
    let kind = reference.reference_kind;
    let preferred = preferred_kinds_spec(kind);
    let wanted = |node: Node| defines(node.kind);
    let liking = |node: Node| preferred.contains(node.kind);
    let definitions = chosen(candidates, wanted);
    let liked = chosen(definitions, liking);
    assert forall|target: NodeKind| #[trigger] preferred.contains(target) == fits(kind, target) by {
        lemma_fits(kind, target);
    }
    lemma_chosen_holds(candidates, wanted, candidates.len() as int, at);
    lemma_chosen(candidates, wanted, candidates.len() as int);
    law_nearest_shares_the_most(
        definitions,
        preferred,
        reference.file_path@,
        definitions.len() as int,
    );
    let k = choose|k: int| 0 <= k < definitions.len() && definitions[k] == candidates[at];
    assert(preferred.contains(definitions[k].kind));
    let found = nearest_upto(
        definitions,
        preferred,
        reference.file_path@,
        definitions.len() as int,
    )->0;
    let target = match_target(reference, candidates, resolved_by, sole, ambiguous)->0;
    assert(target.node == definitions[found]);
    assert forall|j: int|
        0 <= j < candidates.len() && !((#[trigger] candidates[j]).kind is Import) && !(
        candidates[j].kind is External) && fits(kind, candidates[j].kind) implies shared_depth(
        reference.file_path@,
        candidates[j].file_path@,
    ) <= shared_depth(reference.file_path@, target.node.file_path@) by {
        lemma_chosen_holds(candidates, wanted, candidates.len() as int, j);
        let d = choose|d: int| 0 <= d < definitions.len() && definitions[d] == candidates[j];
        assert(preferred.contains(definitions[d].kind));
    }
    if forall|j: int|
        0 <= j < candidates.len() && j != at ==> (#[trigger] candidates[j]).kind is Import
            || candidates[j].kind is External || !fits(kind, candidates[j].kind) {
        let both = |node: Node| wanted(node) && liking(node);
        lemma_chosen_twice(candidates, wanted, liking, candidates.len() as int);
        lemma_chosen_sole(candidates, both, candidates.len() as int, at);
        assert(liked == seq![candidates[at]]);
        lemma_chosen_holds(definitions, liking, definitions.len() as int, found);
        assert(liked.contains(definitions[found]));
    }
}

proof fn lemma_in_language(nodes: Seq<Arc<Node>>, kind: EdgeKind, at: int)
    requires
        0 <= at < nodes.len(),
        speaks(kind, nodes[at].language),
    ensures
        ({
            let kept = in_language(nodes, target_language_spec(kind));
            &&& kept.contains(nodes[at])
            &&& forall|k: int|
                0 <= k < kept.len() ==> nodes.contains(#[trigger] kept[k]) && speaks(
                    kind,
                    kept[k].language,
                )
        }),
{
    match target_language_spec(kind) {
        Some(language) => {
            let wanted = |node: Node| node.language == language;
            lemma_chosen_holds(nodes, wanted, nodes.len() as int, at);
            lemma_chosen(nodes, wanted, nodes.len() as int);
        },
        None => {},
    }
}

/// A reference that is neither a call, a route, a handler nor an import binds to the nearest
/// definition of its name that it can name, wherever in the project that is; and never to one that
/// it cannot name where there is one that it can.
pub proof fn law_a_name_binds_to_the_nearest_it_can_name<C: ResolutionContext>(
    reference: UnresolvedRef,
    context: C,
    at: int,
)
    requires
        !(reference.reference_kind is AccessesMember || reference.reference_kind is ContextType
            || reference.reference_kind is DerivedCollection || reference.reference_kind
            is LoopBinding || reference.reference_kind is ReverseAccessor),
        !(reference.reference_kind is Calls || reference.reference_kind is Handles
            || reference.reference_kind is Imports || reference.reference_kind is RoutesTo),
        !views(reference.candidates@).contains(SUPER_DISPATCH@),
        0 <= at < context.named(reference.reference_name@).len(),
        is_fitting(reference.reference_kind, *context.named(reference.reference_name@)[at]),
        forall|k: int|
            0 <= k < context.named(reference.reference_name@).len() ==> (
            #[trigger] context.named(reference.reference_name@)[k]).id@
                != reference.from_node_id@,
    ensures
        resolution(reference, context) matches Some(target) && {
            &&& target.resolved_by == ResolvedBy::ExactMatch
            &&& target.node.name@ == reference.reference_name@
            &&& is_fitting(reference.reference_kind, *target.node)
            &&& forall|j: int|
                0 <= j < context.named(reference.reference_name@).len() && is_fitting(
                    reference.reference_kind,
                    *#[trigger] context.named(reference.reference_name@)[j],
                ) ==> shared_depth(
                    reference.file_path@,
                    context.named(reference.reference_name@)[j].file_path@,
                ) <= shared_depth(reference.file_path@, target.node.file_path@)
        },
{
    let kind = reference.reference_kind;
    let named = context.named(reference.reference_name@);
    let kept = in_language(named, target_language_spec(kind));
    context.lemma_named(reference.reference_name@);
    lemma_in_language(named, kind, at);
    let k = choose|k: int| 0 <= k < kept.len() && kept[k] == named[at];
    assert(scoped(kept, reference, context) == kept);
    law_a_match_is_the_nearest_that_fits(reference, kept, ResolvedBy::ExactMatch, 90, 60, k);
    let target = match_target(reference, kept, ResolvedBy::ExactMatch, 90, 60)->0;
    assert(named_target(reference, context) == Some(target));
    let t = choose|t: int| 0 <= t < kept.len() && kept[t] == target.node;
    assert(named.contains(kept[t]));
    let n = choose|n: int| 0 <= n < named.len() && named[n] == kept[t];
    assert(named[n].id@ != reference.from_node_id@);
    assert forall|j: int| 0 <= j < named.len() && is_fitting(kind, *#[trigger] named[j]) implies
        shared_depth(reference.file_path@, named[j].file_path@) <= shared_depth(
        reference.file_path@,
        target.node.file_path@,
    ) by {
        lemma_in_language(named, kind, j);
        let i = choose|i: int| 0 <= i < kept.len() && kept[i] == named[j];
        assert(kept[i].kind == named[j].kind);
    }
}

/// The call carries nothing that routes it: nothing that a class or a dispatch is told by.
pub open spec fn is_plain_call(reference: UnresolvedRef) -> bool {
    reference.reference_kind is Calls && reference.candidates@.len() == 0
}

/// A plain call binds to a function or method of its name that its own file defines, or whose
/// owner that file imports, wherever there is one: to the nearest.
pub proof fn law_a_call_binds_within_its_scope<C: ResolutionContext>(
    reference: UnresolvedRef,
    context: C,
    at: int,
)
    requires
        is_plain_call(reference),
        0 <= at < context.named(reference.reference_name@).len(),
        ({
            let node = *context.named(reference.reference_name@)[at];
            &&& node.kind is Function || node.kind is Method
            &&& node.file_path@ == reference.file_path@ || exists|i: int|
                0 <= i < context.imports(reference.file_path@, reference.language).len() && (
                #[trigger] context.imports(
                    reference.file_path@,
                    reference.language,
                )[i]).exported_name == top_owner_spec(node.qualified_name@)
        }),
        forall|k: int|
            0 <= k < context.named(reference.reference_name@).len() ==> (
            #[trigger] context.named(reference.reference_name@)[k]).id@
                != reference.from_node_id@,
    ensures
        resolution(reference, context) matches Some(target) && {
            &&& target.resolved_by == ResolvedBy::ExactMatch
            &&& target.node.name@ == reference.reference_name@
            &&& target.node.kind is Function || target.node.kind is Method
            &&& target.node.file_path@ == reference.file_path@ || exists|i: int|
                0 <= i < context.imports(reference.file_path@, reference.language).len() && (
                #[trigger] context.imports(
                    reference.file_path@,
                    reference.language,
                )[i]).exported_name == top_owner_spec(target.node.qualified_name@)
        },
{
    let named = context.named(reference.reference_name@);
    let imports = context.imports(reference.file_path@, reference.language);
    let wanted = |node: Node| in_scope(node, reference.file_path@, imports);
    let kept = chosen(named, wanted);
    context.lemma_named(reference.reference_name@);
    assert(in_language(named, target_language_spec(EdgeKind::Calls)) == named);
    assert(scoped(named, reference, context) == kept);
    lemma_chosen_holds(named, wanted, named.len() as int, at);
    lemma_chosen(named, wanted, named.len() as int);
    let k = choose|k: int| 0 <= k < kept.len() && kept[k] == named[at];
    law_a_match_is_the_nearest_that_fits(reference, kept, ResolvedBy::ExactMatch, 90, 60, k);
    let target = match_target(reference, kept, ResolvedBy::ExactMatch, 90, 60)->0;
    let candidates = views(reference.candidates@);
    assert(candidates.len() == 0);
    assert(instance_target(reference.reference_name@, candidates, context, 0) is None);
    assert(reference_target(reference, context) == Some(target));
    let t = choose|t: int| 0 <= t < kept.len() && kept[t] == target.node;
    assert(named.contains(kept[t]));
    let n = choose|n: int| 0 <= n < named.len() && named[n] == kept[t];
    assert(named[n].id@ != reference.from_node_id@);
}

/// A handler binds to the script function of its name in its own template, where there is one.
pub proof fn law_a_handler_binds_in_its_template<C: ResolutionContext>(
    reference: UnresolvedRef,
    context: C,
    at: int,
)
    requires
        reference.reference_kind is Handles,
        !views(reference.candidates@).contains(SUPER_DISPATCH@),
        0 <= at < context.named(reference.reference_name@).len(),
        is_fitting(EdgeKind::Handles, *context.named(reference.reference_name@)[at]),
        context.named(reference.reference_name@)[at].file_path@ == reference.file_path@,
        forall|k: int|
            0 <= k < context.named(reference.reference_name@).len() ==> (
            #[trigger] context.named(reference.reference_name@)[k]).id@
                != reference.from_node_id@,
    ensures
        resolution(reference, context) matches Some(target) && {
            &&& target.resolved_by == ResolvedBy::ExactMatch
            &&& target.node.name@ == reference.reference_name@
            &&& target.node.file_path@ == reference.file_path@
            &&& is_fitting(EdgeKind::Handles, *target.node)
        },
{
    let named = context.named(reference.reference_name@);
    let spoken = in_language(named, target_language_spec(EdgeKind::Handles));
    let wanted = located(reference.file_path@);
    context.lemma_named(reference.reference_name@);
    lemma_in_language(named, EdgeKind::Handles, at);
    let s = choose|s: int| 0 <= s < spoken.len() && spoken[s] == named[at];
    let kept = chosen(spoken, wanted);
    lemma_chosen_holds(spoken, wanted, spoken.len() as int, s);
    lemma_chosen(spoken, wanted, spoken.len() as int);
    let k = choose|k: int| 0 <= k < kept.len() && kept[k] == spoken[s];
    assert(scoped(spoken, reference, context) == kept);
    law_a_match_is_the_nearest_that_fits(reference, kept, ResolvedBy::ExactMatch, 90, 60, k);
    let target = match_target(reference, kept, ResolvedBy::ExactMatch, 90, 60)->0;
    assert(named_target(reference, context) == Some(target));
    let t = choose|t: int| 0 <= t < kept.len() && kept[t] == target.node;
    assert(spoken.contains(kept[t]));
    let p = choose|p: int| 0 <= p < spoken.len() && spoken[p] == kept[t];
    assert(named.contains(spoken[p]));
    let n = choose|n: int| 0 <= n < named.len() && named[n] == spoken[p];
    assert(named[n].id@ != reference.from_node_id@);
}

/// A name match never crosses kinds by accident: what a reference is matched to by name is what it
/// can name, unless it is the one definition of the name, the reference is of a kind that names
/// whatever bears the name, and that is no value, member or import.
pub proof fn law_a_match_by_name_is_of_a_kind_it_can_name<C: ResolutionContext>(
    reference: UnresolvedRef,
    context: C,
)
    ensures
        resolution(reference, context) matches Some(target) ==> (target.resolved_by
            == ResolvedBy::ExactMatch || target.resolved_by == ResolvedBy::Fuzzy) ==> fits(
            reference.reference_kind,
            target.node.kind,
        ) || ({
            let kind = reference.reference_kind;
            let node = target.node.kind;
            &&& !(kind is AdminOf || kind is Extends || kind is ExtendsTemplate || kind
                is IncludesTemplate || kind is Reads || kind is Receives || kind is RelatesTo
                || kind is Renders || kind is Resolves || kind is Returns || kind is Styles || kind
                is Tests || kind is TypeOf || kind is UsesTag)
            &&& !(node is Constant || node is Field || node is Import || node is Parameter || node
                is Property || node is Variable)
        }),
{
    law_name_matches_are_of_a_fitting_kind(reference, context);
    if resolution(reference, context) is Some {
        lemma_fits(
            reference.reference_kind,
            resolution(reference, context)->0.node.kind,
        );
    }
}

// ---------------------------------------------------------------------------
// Owners

/// The owner of a member is the class before the dot, and that of a top-level symbol the symbol.
pub proof fn law_a_member_belongs_to_its_owner(
    file: Seq<char>,
    owner: Seq<char>,
    member: Seq<char>,
)
    requires
        !owner.contains('.'),
        !owner.contains(':'),
        !member.contains(':'),
    ensures
        top_owner_spec(file + "::"@ + (owner + seq!['.'] + member)) == owner,
        top_owner_spec(file + "::"@ + owner) == owner,
{
    reveal_strlit("::");
    reveal_strlit(".");
    assert("."@ =~= seq!['.']);
    let behind = owner + seq!['.'] + member;
    if behind.contains(':') {
        let k = choose|k: int| 0 <= k < behind.len() && behind[k] == ':';
        if k < owner.len() {
            assert(owner.contains(owner[k]));
        } else if k > owner.len() {
            assert(behind[k] == member[k - owner.len() - 1]);
            assert(member.contains(':'));
        }
    }
    lemma_after_last(file, "::"@, behind);
    lemma_after_last(file, "::"@, owner);
    lemma_before_first(owner, '.', member);
}

/// A call on `self` binds to the method of that name in the class it stands in, where that has one.
pub proof fn law_a_self_call_binds_in_its_class<C: ResolutionContext>(
    reference: UnresolvedRef,
    context: C,
    at: int,
)
    requires
        reference.reference_kind is Calls,
        reference.candidates@.len() > 0,
        forall|k: int|
            0 <= k < reference.candidates@.len() ==> !is_routing((#[trigger] reference.candidates@[k])@),
        ({
            let class = reference.candidates@[0]@;
            let methods = context.qualified(class + "."@ + reference.reference_name@);
            &&& 0 <= at < methods.len()
            &&& methods[at].kind is Method || methods[at].kind is Function
            &&& forall|k: int|
                0 <= k < methods.len() ==> (#[trigger] methods[k]).id@ != reference.from_node_id@
        }),
    ensures
        resolution(reference, context) matches Some(target) && {
            &&& target.node.qualified_name@ == reference.candidates@[0]@ + "."@
                + reference.reference_name@
            &&& target.node.kind is Method || target.node.kind is Function
            &&& target.confidence == 95
            &&& target.resolved_by == ResolvedBy::InstanceMethod
        },
{
    let candidates = views(reference.candidates@);
    let class = candidates[0];
    let qualified = class + "."@ + reference.reference_name@;
    let methods = context.qualified(qualified);
    let wanted = |node: Node| is_callable(node.kind);
    let found = chosen(methods, wanted);
    context.lemma_qualified(qualified);
    lemma_chosen_holds(methods, wanted, methods.len() as int, at);
    lemma_chosen(methods, wanted, methods.len() as int);
    assert(found == callables(methods));
    assert(methods.contains(found[0]));
    let n = choose|n: int| 0 <= n < methods.len() && methods[n] == found[0];
    assert(methods[n].id@ != reference.from_node_id@);
    lemma_no_dispatch(reference);
    assert(instance_target(reference.reference_name@, candidates, context, 0) == Some(
        Target { node: found[0], confidence: 95, resolved_by: ResolvedBy::InstanceMethod },
    ));
}

/// What is no routing data is none of the dispatches.
proof fn lemma_no_dispatch(reference: UnresolvedRef)
    requires
        forall|k: int|
            0 <= k < reference.candidates@.len() ==> !is_routing((#[trigger] reference.candidates@[k])@),
    ensures
        ({
            let candidates = views(reference.candidates@);
            &&& !candidates.contains(SUPER_DISPATCH@)
            &&& !candidates.contains(QUERYSET_DISPATCH@)
            &&& !candidates.contains(SERVICE_DISPATCH@)
            &&& !candidates.contains(TYPED_RECEIVER@)
        }),
{
    let candidates = views(reference.candidates@);
    lemma_dispatches_route();
    assert forall|text: Seq<char>| is_routing(text) implies !#[trigger] candidates.contains(
        text,
    ) by {
        if candidates.contains(text) {
            let k = choose|k: int| 0 <= k < candidates.len() && candidates[k] == text;
            assert(!is_routing(reference.candidates@[k]@));
        }
    }
}

proof fn lemma_dispatches_route()
    ensures
        is_routing(SUPER_DISPATCH@),
        is_routing(QUERYSET_DISPATCH@),
        is_routing(SERVICE_DISPATCH@),
        is_routing(TYPED_RECEIVER@),
{
    reveal_strlit("\u{1}super-dispatch");
    reveal_strlit("\u{1}queryset-dispatch");
    reveal_strlit("\u{1}service-dispatch");
    reveal_strlit("\u{1}typed-receiver");
}

// ---------------------------------------------------------------------------
// Dispatched calls

/// A manager or queryset is told by the end of its name.
pub proof fn law_a_manager_is_told_by_its_name(
    file: Seq<char>,
    owner: Seq<char>,
    member: Seq<char>,
)
    requires
        !owner.contains('.'),
        !owner.contains(':'),
        !member.contains(':'),
    ensures
        is_managed(file + "::"@ + (owner + seq!['.'] + member)) <==> "QuerySet"@.is_suffix_of(owner)
            || "Manager"@.is_suffix_of(owner),
        is_served(file + "::"@ + (owner + seq!['.'] + member)) <==> "Service"@.is_suffix_of(owner),
{
    law_a_member_belongs_to_its_owner(file, owner, member);
}

/// What belongs to a model is told by its name: a manager, a queryset or both in one; a service,
/// plain or of one of the named kinds.
pub proof fn law_companions_are_told_by_the_model(
    file: Seq<char>,
    owner: Seq<char>,
    member: Seq<char>,
    model: Seq<char>,
)
    requires
        !owner.contains('.'),
        !owner.contains(':'),
        !member.contains(':'),
    ensures
        is_companion(file + "::"@ + (owner + seq!['.'] + member), model, MANAGER_SUFFIXES@) <==> (
        owner == model + "Manager"@ || owner == model + "QuerySet"@ || owner == model
            + "QuerySetManager"@),
        is_companion(file + "::"@ + (owner + seq!['.'] + member), model, SERVICE_SUFFIXES@) <==> (
        owner == model + "FactoryService"@ || owner == model + "IntelligenceService"@ || owner
            == model + "ProcessorService"@ || owner == model + "Service"@ || owner == model
            + "TransformationService"@),
{
    law_a_member_belongs_to_its_owner(file, owner, member);
    assert(MANAGER_SUFFIXES@[0]@ == "Manager"@);
    assert(MANAGER_SUFFIXES@[1]@ == "QuerySet"@);
    assert(MANAGER_SUFFIXES@[2]@ == "QuerySetManager"@);
    assert(SERVICE_SUFFIXES@[0]@ == "FactoryService"@);
    assert(SERVICE_SUFFIXES@[1]@ == "IntelligenceService"@);
    assert(SERVICE_SUFFIXES@[2]@ == "ProcessorService"@);
    assert(SERVICE_SUFFIXES@[3]@ == "Service"@);
    assert(SERVICE_SUFFIXES@[4]@ == "TransformationService"@);
}

/// The call was made through a manager, or through the services of a model, and carries the model
/// where one is known.
pub open spec fn is_dispatched(
    reference: UnresolvedRef,
    sentinel: Seq<char>,
    model: Seq<char>,
) -> bool {
    &&& reference.reference_kind is Calls
    &&& views(reference.candidates@) == seq![sentinel] || (views(reference.candidates@)
        == seq![sentinel, model] && model.len() > 0 && !is_routing(model))
}

proof fn lemma_dispatched(reference: UnresolvedRef, sentinel: Seq<char>, model: Seq<char>)
    requires
        is_dispatched(reference, sentinel, model),
        sentinel == QUERYSET_DISPATCH@ || sentinel == SERVICE_DISPATCH@ || sentinel
            == TYPED_RECEIVER@,
    ensures
        ({
            let candidates = views(reference.candidates@);
            &&& candidates.contains(sentinel)
            &&& forall|text: Seq<char>| #[trigger]
                candidates.contains(text) && is_routing(text) ==> text == sentinel
            &&& carried(candidates, sentinel, 0) == (if candidates.len() == 2 {
                Some(model)
            } else {
                None
            })
        }),
{
    let candidates = views(reference.candidates@);
    lemma_dispatches_route();
    lemma_dispatches_differ();
    assert(candidates[0] == sentinel);
    assert(candidates.contains(sentinel));
    reveal_with_fuel(carried, 3);
}

proof fn lemma_dispatches_differ()
    ensures
        SUPER_DISPATCH@ != QUERYSET_DISPATCH@,
        SUPER_DISPATCH@ != SERVICE_DISPATCH@,
        SUPER_DISPATCH@ != TYPED_RECEIVER@,
        QUERYSET_DISPATCH@ != SERVICE_DISPATCH@,
        QUERYSET_DISPATCH@ != TYPED_RECEIVER@,
        SERVICE_DISPATCH@ != TYPED_RECEIVER@,
{
    reveal_strlit("\u{1}super-dispatch");
    reveal_strlit("\u{1}queryset-dispatch");
    reveal_strlit("\u{1}service-dispatch");
    reveal_strlit("\u{1}typed-receiver");
    assert(SUPER_DISPATCH@[1] == 's' && SUPER_DISPATCH@[2] == 'u');
    assert(QUERYSET_DISPATCH@[1] == 'q');
    assert(SERVICE_DISPATCH@[1] == 's' && SERVICE_DISPATCH@[2] == 'e');
    assert(TYPED_RECEIVER@[1] == 't');
}

/// A call through a manager binds to the one method of that name that a manager or queryset has,
/// unless the name is one that every queryset has.
pub proof fn law_the_one_manager_method_is_bound<C: ResolutionContext>(
    reference: UnresolvedRef,
    context: C,
    model: Seq<char>,
    at: int,
)
    requires
        is_dispatched(reference, QUERYSET_DISPATCH@, model),
        !lists(QUERYSET_BUILTINS@, reference.reference_name@),
        0 <= at < context.named(reference.reference_name@).len(),
        context.named(reference.reference_name@)[at].kind is Method,
        is_managed(context.named(reference.reference_name@)[at].qualified_name@),
        context.named(reference.reference_name@)[at].id@ != reference.from_node_id@,
        forall|k: int|
            0 <= k < context.named(reference.reference_name@).len() && k != at ==> !((
            #[trigger] context.named(reference.reference_name@)[k]).kind is Method) || !is_managed(
                context.named(reference.reference_name@)[k].qualified_name@,
            ),
    ensures
        resolution(reference, context) == Some(
            (Target {
                node: context.named(reference.reference_name@)[at],
                confidence: 85,
                resolved_by: ResolvedBy::Framework,
            }),
        ),
{
    let named = context.named(reference.reference_name@);
    lemma_dispatched(reference, QUERYSET_DISPATCH@, model);
    lemma_dispatches_route();
    lemma_dispatches_differ();
    lemma_chosen_sole(
        named,
        |node: Node| node.kind == NodeKind::Method && is_managed(node.qualified_name@),
        named.len() as int,
        at,
    );
}

/// Where several managers have a method of that name, a call through the manager of a known model
/// binds to the one that belongs to the model.
pub proof fn law_the_method_of_the_model_is_bound<C: ResolutionContext>(
    reference: UnresolvedRef,
    context: C,
    model: Seq<char>,
    at: int,
    other: int,
)
    requires
        is_dispatched(reference, QUERYSET_DISPATCH@, model),
        reference.candidates@.len() == 2,
        !lists(QUERYSET_BUILTINS@, reference.reference_name@),
        0 <= at < context.named(reference.reference_name@).len(),
        0 <= other < context.named(reference.reference_name@).len(),
        at != other,
        context.named(reference.reference_name@)[at].kind is Method,
        context.named(reference.reference_name@)[other].kind is Method,
        is_managed(context.named(reference.reference_name@)[at].qualified_name@),
        is_managed(context.named(reference.reference_name@)[other].qualified_name@),
        context.named(reference.reference_name@)[at].id@ != reference.from_node_id@,
        is_companion(
            context.named(reference.reference_name@)[at].qualified_name@,
            model,
            MANAGER_SUFFIXES@,
        ),
        forall|k: int|
            0 <= k < context.named(reference.reference_name@).len() && k != at ==> !((
            #[trigger] context.named(reference.reference_name@)[k]).kind is Method) || !is_managed(
                context.named(reference.reference_name@)[k].qualified_name@,
            ) || !is_companion(
                context.named(reference.reference_name@)[k].qualified_name@,
                model,
                MANAGER_SUFFIXES@,
            ),
    ensures
        resolution(reference, context) == Some(
            (Target {
                node: context.named(reference.reference_name@)[at],
                confidence: 80,
                resolved_by: ResolvedBy::Framework,
            }),
        ),
{
    let named = context.named(reference.reference_name@);
    let managed = |node: Node| node.kind == NodeKind::Method && is_managed(node.qualified_name@);
    let kin = |node: Node| is_companion(node.qualified_name@, model, MANAGER_SUFFIXES@);
    lemma_dispatched(reference, QUERYSET_DISPATCH@, model);
    lemma_dispatches_route();
    lemma_dispatches_differ();
    assert(views(reference.candidates@).len() == 2);
    if at < other {
        lemma_chosen_several(named, managed, named.len() as int, at, other);
    } else {
        lemma_chosen_several(named, managed, named.len() as int, other, at);
    }
    lemma_chosen_twice(named, managed, kin, named.len() as int);
    lemma_chosen_sole(
        named,
        |node: Node| managed(node) && kin(node),
        named.len() as int,
        at,
    );
}

/// Where two are wanted, two at least are chosen.
proof fn lemma_chosen_several(
    nodes: Seq<Arc<Node>>,
    wanted: spec_fn(Node) -> bool,
    count: int,
    first: int,
    second: int,
)
    requires
        0 <= first < second < count <= nodes.len(),
        wanted(*nodes[first]),
        wanted(*nodes[second]),
    ensures
        chosen_upto(nodes, wanted, count).len() >= 2,
    decreases count,
{
    if second == count - 1 {
        lemma_chosen_holds(nodes, wanted, count - 1, first);
    } else {
        lemma_chosen_several(nodes, wanted, count - 1, first, second);
    }
}

/// A call through the services of a model binds to the one method of that name that a service has,
/// unless the name is one that every service has.
pub proof fn law_the_one_service_method_is_bound<C: ResolutionContext>(
    reference: UnresolvedRef,
    context: C,
    model: Seq<char>,
    at: int,
)
    requires
        is_dispatched(reference, SERVICE_DISPATCH@, model),
        reference.reference_name@ != "save_model_obj"@,
        reference.reference_name@ != "save_model_objs"@,
        0 <= at < context.named(reference.reference_name@).len(),
        context.named(reference.reference_name@)[at].kind is Method,
        is_served(context.named(reference.reference_name@)[at].qualified_name@),
        context.named(reference.reference_name@)[at].id@ != reference.from_node_id@,
        forall|k: int|
            0 <= k < context.named(reference.reference_name@).len() && k != at ==> !((
            #[trigger] context.named(reference.reference_name@)[k]).kind is Method) || !is_served(
                context.named(reference.reference_name@)[k].qualified_name@,
            ),
    ensures
        resolution(reference, context) == Some(
            (Target {
                node: context.named(reference.reference_name@)[at],
                confidence: 85,
                resolved_by: ResolvedBy::Framework,
            }),
        ),
{
    let named = context.named(reference.reference_name@);
    lemma_dispatched(reference, SERVICE_DISPATCH@, model);
    lemma_dispatches_route();
    lemma_dispatches_differ();
    assert(SERVICE_BUILTINS@[0]@ == "save_model_obj"@);
    assert(SERVICE_BUILTINS@[1]@ == "save_model_objs"@);
    assert(!lists(SERVICE_BUILTINS@, reference.reference_name@));
    lemma_chosen_sole(
        named,
        |node: Node| node.kind == NodeKind::Method && is_served(node.qualified_name@),
        named.len() as int,
        at,
    );
}

/// A call on a receiver of an annotated type binds to the one method of that name that the type
/// owns.
pub proof fn law_a_typed_call_is_bound<C: ResolutionContext>(
    reference: UnresolvedRef,
    context: C,
    annotated: Seq<char>,
    at: int,
)
    requires
        is_dispatched(reference, TYPED_RECEIVER@, annotated),
        reference.candidates@.len() == 2,
        0 <= at < context.named(reference.reference_name@).len(),
        ({
            let node = context.named(reference.reference_name@)[at];
            &&& node.kind is Method || node.kind is Function
            &&& top_owner_spec(node.qualified_name@) == annotated
            &&& node.id@ != reference.from_node_id@
        }),
        forall|k: int|
            0 <= k < context.named(reference.reference_name@).len() && k != at ==> !((
            #[trigger] context.named(reference.reference_name@)[k]).kind is Method
                || context.named(reference.reference_name@)[k].kind is Function) || top_owner_spec(
                context.named(reference.reference_name@)[k].qualified_name@,
            ) != annotated,
    ensures
        resolution(reference, context) == Some(
            (Target {
                node: context.named(reference.reference_name@)[at],
                confidence: 90,
                resolved_by: ResolvedBy::InstanceMethod,
            }),
        ),
{
    let named = context.named(reference.reference_name@);
    lemma_dispatched(reference, TYPED_RECEIVER@, annotated);
    lemma_dispatches_route();
    lemma_dispatches_differ();
    assert(views(reference.candidates@).len() == 2);
    lemma_chosen_sole(
        named,
        |node: Node|
            is_callable(node.kind) && top_owner_spec(node.qualified_name@) == annotated,
        named.len() as int,
        at,
    );
}

// ---------------------------------------------------------------------------
// Imports

/// The first binding of a local name among imports is the one at this place.
pub open spec fn is_binding(imports: Seq<ImportView>, name: Seq<char>, at: int) -> bool {
    0 <= at < imports.len() && imports[at].local_name == name && forall|k: int|
        0 <= k < at ==> (#[trigger] imports[k]).local_name != name
}

proof fn lemma_binding(imports: Seq<ImportView>, name: Seq<char>, at: int, from: int)
    requires
        is_binding(imports, name, at),
        0 <= from <= at,
    ensures
        binding_of(imports, name, from) == Some(imports[at]),
    decreases at - from,
{
    if from < at {
        lemma_binding(imports, name, at, from + 1);
    }
}

/// A kind of which an import can bring in a node.
pub open spec fn can_be_imported(kind: NodeKind) -> bool {
    !(kind is External || kind is Field || kind is Import || kind is Parameter || kind is Property)
}

/// A name that only an import brings in binds to what it was imported as: to a node of the exported
/// name in a file called as the last segment of the module it was imported from.
pub proof fn law_an_alias_binds_to_what_it_stands_for<C: ResolutionContext>(
    reference: UnresolvedRef,
    context: C,
    import: int,
    segment: Seq<char>,
    at: int,
)
    requires
        !(reference.reference_kind is AccessesMember || reference.reference_kind is ContextType
            || reference.reference_kind is DerivedCollection || reference.reference_kind
            is LoopBinding || reference.reference_kind is ReverseAccessor),
        !(reference.reference_kind is Imports),
        reference.candidates@.len() == 0,
        context.named(reference.reference_name@).len() == 0,
        is_binding(
            context.imports(reference.file_path@, reference.language),
            reference.reference_name@,
            import,
        ),
        segment.len() > 0,
        is_plain(segment),
        ends_in_segment(
            context.imports(reference.file_path@, reference.language)[import].source,
            segment,
        ),
        ({
            let named = context.named(
                context.imports(reference.file_path@, reference.language)[import].exported_name,
            );
            &&& 0 <= at < named.len()
            &&& can_be_imported(named[at].kind)
            &&& is_called(named[at].file_path@, segment)
            &&& forall|k: int|
                0 <= k < named.len() ==> (#[trigger] named[k]).id@ != reference.from_node_id@
        }),
    ensures
        resolution(reference, context) matches Some(target) && {
            &&& target.node.name@ == context.imports(
                reference.file_path@,
                reference.language,
            )[import].exported_name
            &&& can_be_imported(target.node.kind)
            &&& is_called(target.node.file_path@, segment)
            &&& target.confidence == 90
            &&& target.resolved_by == ResolvedBy::Import
        },
{
    let imports = context.imports(reference.file_path@, reference.language);
    let binding = imports[import];
    lemma_binding(imports, reference.reference_name@, import, 0);
    lemma_stem_of_module(binding.source, segment);
    let named = context.named(binding.exported_name);
    context.lemma_named(binding.exported_name);
    let wanted = |node: Node| importable(node.kind);
    let placed = |node: Node| file_stem_spec(node.file_path@) == segment;
    let nodes = chosen(named, wanted);
    let found = chosen(nodes, placed);
    assert forall|path: Seq<char>| #[trigger] is_called(path, segment) == (file_stem_spec(path)
        == segment) by {
        law_a_file_is_called_by_its_stem(path, segment);
    }
    lemma_chosen_holds(named, wanted, named.len() as int, at);
    lemma_chosen(named, wanted, named.len() as int);
    let n = choose|n: int| 0 <= n < nodes.len() && nodes[n] == named[at];
    assert(is_called(nodes[n].file_path@, segment));
    lemma_chosen_holds(nodes, placed, nodes.len() as int, n);
    lemma_chosen(nodes, placed, nodes.len() as int);
    assert(found.len() > 0);
    assert(nodes.contains(found[0]));
    let m = choose|m: int| 0 <= m < nodes.len() && nodes[m] == found[0];
    assert(named.contains(nodes[m]));
    let k = choose|k: int| 0 <= k < named.len() && named[k] == nodes[m];
    assert(named[k].id@ != reference.from_node_id@);
    let exact = context.named(reference.reference_name@);
    let language = target_language_spec(reference.reference_kind);
    lemma_empty_match(reference, context, exact);
    assert(is_called(found[0].file_path@, segment));
    assert(aliased(reference, context) == Some(
        Target { node: found[0], confidence: 90, resolved_by: ResolvedBy::Import },
    ));
    let candidates = views(reference.candidates@);
    assert(candidates.len() == 0);
    assert(instance_target(reference.reference_name@, candidates, context, 0) is None);
}

proof fn lemma_stem_of_module(module: Seq<char>, segment: Seq<char>)
    requires
        segment.len() > 0,
        is_plain(segment),
        ends_in_segment(module, segment),
    ensures
        module_stem_spec(module) == segment,
{
    if module == segment {
        law_a_module_goes_by_its_last_segment(Seq::empty(), '.', segment);
    } else {
        let package = choose|package: Seq<char>|
            module == #[trigger] (package + seq!['.'] + segment);
        law_a_module_goes_by_its_last_segment(package, '.', segment);
    }
}

proof fn lemma_empty_match<C: ResolutionContext>(
    reference: UnresolvedRef,
    context: C,
    exact: Seq<Arc<Node>>,
)
    requires
        exact.len() == 0,
    ensures
        match_target(
            reference,
            scoped(
                in_language(exact, target_language_spec(reference.reference_kind)),
                reference,
                context,
            ),
            ResolvedBy::ExactMatch,
            90,
            60,
        ) is None,
{
    let kept = scoped(
        in_language(exact, target_language_spec(reference.reference_kind)),
        reference,
        context,
    );
    assert(in_language(exact, target_language_spec(reference.reference_kind)) =~= exact);
    assert(kept.len() == 0) by {
        assert(forall|wanted: spec_fn(Node) -> bool| #[trigger] chosen(exact, wanted).len() == 0);
    }
    assert(chosen(kept, |node: Node| defines(node.kind)).len() == 0);
}

/// A script import from a relative module binds to a script definition of the name in the file that
/// the module is.
pub proof fn law_a_script_import_binds_in_its_module<C: ResolutionContext>(
    reference: UnresolvedRef,
    context: C,
    stem: Seq<char>,
    at: int,
)
    requires
        reference.reference_kind is Imports,
        reference.language is JavaScript,
        reference.candidates@.len() > 0,
        reference.candidates@[0]@.len() > 0,
        reference.candidates@[0]@[0] == '.',
        js_module_stem_spec(reference.candidates@[0]@) == stem,
        is_plain(stem),
        0 <= at < context.named(reference.reference_name@).len(),
        ({
            let node = context.named(reference.reference_name@)[at];
            &&& node.language is JavaScript
            &&& !(node.kind is External || node.kind is File || node.kind is Import)
            &&& is_called(node.file_path@, stem)
        }),
        forall|k: int|
            0 <= k < context.named(reference.reference_name@).len() ==> (
            #[trigger] context.named(reference.reference_name@)[k]).id@
                != reference.from_node_id@,
    ensures
        resolution(reference, context) matches Some(target) && {
            &&& target.node.name@ == reference.reference_name@
            &&& target.node.language is JavaScript
            &&& !(target.node.kind is External || target.node.kind is File || target.node.kind
                is Import)
            &&& is_called(target.node.file_path@, stem)
            &&& target.confidence == 90
            &&& target.resolved_by == ResolvedBy::Import
        },
{
    let module = reference.candidates@[0]@;
    reveal_strlit(".");
    assert("."@ =~= module.subrange(0, 1));
    assert("."@.is_prefix_of(module));
    let named = context.named(reference.reference_name@);
    context.lemma_named(reference.reference_name@);
    let wanted = |node: Node|
        node.language == Language::JavaScript && defines(node.kind) && node.kind != NodeKind::File;
    let placed = |node: Node| file_stem_spec(node.file_path@) == stem;
    let nodes = chosen(named, wanted);
    let found = chosen(nodes, placed);
    assert forall|path: Seq<char>| #[trigger] is_called(path, stem) == (file_stem_spec(path)
        == stem) by {
        law_a_file_is_called_by_its_stem(path, stem);
    }
    lemma_chosen_holds(named, wanted, named.len() as int, at);
    lemma_chosen(named, wanted, named.len() as int);
    let n = choose|n: int| 0 <= n < nodes.len() && nodes[n] == named[at];
    assert(is_called(nodes[n].file_path@, stem));
    lemma_chosen_holds(nodes, placed, nodes.len() as int, n);
    lemma_chosen(nodes, placed, nodes.len() as int);
    assert(nodes.contains(found[0]));
    let m = choose|m: int| 0 <= m < nodes.len() && nodes[m] == found[0];
    assert(named.contains(nodes[m]));
    let k = choose|k: int| 0 <= k < named.len() && named[k] == nodes[m];
    assert(named[k].id@ != reference.from_node_id@);
    assert(is_called(found[0].file_path@, stem));
}

/// A script import that names a relative module alone binds to the script file that the module is.
pub proof fn law_a_script_module_binds_to_its_file<C: ResolutionContext>(
    reference: UnresolvedRef,
    context: C,
    stem: Seq<char>,
    at: int,
)
    requires
        reference.reference_kind is Imports,
        reference.language is JavaScript,
        reference.candidates@.len() == 0,
        reference.reference_name@.len() > 0,
        reference.reference_name@[0] == '.',
        js_module_stem_spec(reference.reference_name@) == stem,
        stem.len() > 0,
        is_plain(stem),
        0 <= at < context.of_kind(NodeKind::File).len(),
        context.of_kind(NodeKind::File)[at].language is JavaScript,
        is_called(context.of_kind(NodeKind::File)[at].file_path@, stem),
        forall|k: int|
            0 <= k < context.of_kind(NodeKind::File).len() ==> (
            #[trigger] context.of_kind(NodeKind::File)[k]).id@ != reference.from_node_id@,
    ensures
        resolution(reference, context) matches Some(target) && {
            &&& target.node.kind is File
            &&& target.node.language is JavaScript
            &&& is_called(target.node.file_path@, stem)
            &&& target.confidence == 85
            &&& target.resolved_by == ResolvedBy::Import
        },
{
    let module = reference.reference_name@;
    reveal_strlit(".");
    assert("."@ =~= module.subrange(0, 1));
    assert("."@.is_prefix_of(module));
    let files = context.of_kind(NodeKind::File);
    context.lemma_of_kind(NodeKind::File);
    let wanted = |node: Node|
        node.language == Language::JavaScript && file_stem_spec(node.file_path@) == stem;
    let found = chosen(files, wanted);
    assert forall|path: Seq<char>| #[trigger] is_called(path, stem) == (file_stem_spec(path)
        == stem) by {
        law_a_file_is_called_by_its_stem(path, stem);
    }
    assert(is_called(files[at].file_path@, stem));
    lemma_chosen_holds(files, wanted, files.len() as int, at);
    lemma_chosen(files, wanted, files.len() as int);
    assert(files.contains(found[0]));
    let m = choose|m: int| 0 <= m < files.len() && files[m] == found[0];
    assert(files[m].id@ != reference.from_node_id@);
    assert(is_called(found[0].file_path@, stem));
}

/// No file of the project initializes a package.
pub open spec fn has_no_packages<C: ResolutionContext>(context: C) -> bool {
    forall|k: int|
        0 <= k < context.files().len() ==> base_name_spec(#[trigger] context.files()[k])
            != "__init__.py"@
}

proof fn lemma_no_paths(
    paths: Seq<Seq<char>>,
    wanted: spec_fn(Seq<char>) -> bool,
    count: int,
)
    requires
        0 <= count <= paths.len(),
        forall|k: int| 0 <= k < count ==> !wanted(#[trigger] paths[k]),
    ensures
        paths_upto(paths, wanted, count).len() == 0,
    decreases count,
{
    if count > 0 {
        lemma_no_paths(paths, wanted, count - 1);
    }
}

proof fn lemma_no_reexport<C: ResolutionContext>(
    reference: UnresolvedRef,
    module: Seq<char>,
    name: Seq<char>,
    context: C,
)
    requires
        has_no_packages(context),
    ensures
        reexported(reference, module, name, context) is None,
{
    let files = context.files();
    let directory = parent_directory_spec(reference.file_path@);
    let stem = module_stem_spec(module);
    lemma_no_paths(
        files,
        |path: Seq<char>|
            base_name_spec(path) == "__init__.py"@ && parent_directory_spec(path) == directory,
        files.len() as int,
    );
    lemma_no_paths(
        files,
        |path: Seq<char>|
            base_name_spec(path) == "__init__.py"@ && directory_basename_spec(path) == stem,
        files.len() as int,
    );
}

/// An absolute import that names no symbol of its module binds to the module file it spells.
pub proof fn law_a_module_import_binds_to_its_file<C: ResolutionContext>(
    reference: UnresolvedRef,
    context: C,
    at: int,
)
    requires
        reference.reference_kind is Imports,
        !(reference.language is JavaScript),
        reference.candidates@.len() > 0,
        !(reference.candidates@[0]@.len() > 0 && reference.candidates@[0]@[0] == '.'),
        context.named(reference.reference_name@).len() == 0,
        has_no_packages(context),
        0 <= at < context.of_kind(NodeKind::File).len(),
        context.of_kind(NodeKind::File)[at].file_path@ == replaced(
            reference.candidates@[0]@,
            '.',
            '/',
        ) + "/"@ + reference.reference_name@ + ".py"@,
        !context.of_kind(NodeKind::File)[at].file_path@.contains('\\'),
        forall|k: int|
            0 <= k < context.of_kind(NodeKind::File).len() ==> (
            #[trigger] context.of_kind(NodeKind::File)[k]).id@ != reference.from_node_id@,
    ensures
        resolution(reference, context) matches Some(target) && {
            &&& target.node.kind is File
            &&& target.confidence == 85
            &&& target.resolved_by == ResolvedBy::Import
            &&& path_in_module_spec(
                target.node.file_path@,
                replaced(reference.candidates@[0]@, '.', '/') + "/"@ + reference.reference_name@
                    + ".py"@,
            )
        },
{
    let module = reference.candidates@[0]@;
    let name = reference.reference_name@;
    let spelled = replaced(module, '.', '/') + "/"@ + name + ".py"@;
    reveal_strlit(".");
    if "."@.is_prefix_of(module) {
        assert(module.subrange(0, 1)[0] == module[0]);
    }
    lemma_no_reexport(reference, module, name, context);
    let files = context.of_kind(NodeKind::File);
    context.lemma_of_kind(NodeKind::File);
    let path = files[at].file_path@;
    assert(replaced(path, '\\', '/') =~= path) by {
        assert forall|k: int| 0 <= k < path.len() implies #[trigger] path[k] != '\\' by {
            assert(path.contains(path[k]));
        }
    }
    let wanted = |node: Node| path_in_module_spec(node.file_path@, spelled);
    let found = chosen(files, wanted);
    lemma_chosen_holds(files, wanted, files.len() as int, at);
    lemma_chosen(files, wanted, files.len() as int);
    assert(files.contains(found[0]));
    let m = choose|m: int| 0 <= m < files.len() && files[m] == found[0];
    assert(files[m].id@ != reference.from_node_id@);
    assert(context.named(name).len() == 0);
    assert(defined_in(context.named(name), after_last_spec(module, "."@)).len() == 0);
}

/// A relative import that names no symbol of its module binds to the file that bears the name.
pub proof fn law_a_relative_import_binds_to_the_file_beside<C: ResolutionContext>(
    reference: UnresolvedRef,
    context: C,
    at: int,
)
    requires
        reference.reference_kind is Imports,
        !(reference.language is JavaScript),
        reference.candidates@.len() > 0,
        reference.candidates@[0]@.len() > 0,
        reference.candidates@[0]@[0] == '.',
        is_plain(reference.reference_name@),
        context.named(reference.reference_name@).len() == 0,
        has_no_packages(context),
        0 <= at < context.of_kind(NodeKind::File).len(),
        is_called(context.of_kind(NodeKind::File)[at].file_path@, reference.reference_name@),
        forall|k: int|
            0 <= k < context.of_kind(NodeKind::File).len() ==> (
            #[trigger] context.of_kind(NodeKind::File)[k]).id@ != reference.from_node_id@,
    ensures
        resolution(reference, context) matches Some(target) && {
            &&& target.node.kind is File
            &&& is_called(target.node.file_path@, reference.reference_name@)
            &&& target.confidence == 85
            &&& target.resolved_by == ResolvedBy::Import
        },
{
    let module = reference.candidates@[0]@;
    let name = reference.reference_name@;
    reveal_strlit(".");
    assert("."@ =~= module.subrange(0, 1));
    assert("."@.is_prefix_of(module));
    lemma_no_reexport(reference, module, name, context);
    let files = context.of_kind(NodeKind::File);
    context.lemma_of_kind(NodeKind::File);
    let wanted = |node: Node| file_stem_spec(node.file_path@) == name;
    let found = chosen(files, wanted);
    assert forall|path: Seq<char>| #[trigger] is_called(path, name) == (file_stem_spec(path)
        == name) by {
        law_a_file_is_called_by_its_stem(path, name);
    }
    assert(is_called(files[at].file_path@, name));
    lemma_chosen_holds(files, wanted, files.len() as int, at);
    lemma_chosen(files, wanted, files.len() as int);
    assert(files.contains(found[0]));
    let m = choose|m: int| 0 <= m < files.len() && files[m] == found[0];
    assert(files[m].id@ != reference.from_node_id@);
    assert(defined_in(context.named(name), after_last_spec(module, "."@)).len() == 0);
    assert(is_called(found[0].file_path@, name));
}

proof fn lemma_sole_path(
    paths: Seq<Seq<char>>,
    wanted: spec_fn(Seq<char>) -> bool,
    count: int,
    at: int,
)
    requires
        0 <= at < count <= paths.len(),
        wanted(paths[at]),
        forall|k: int| 0 <= k < count && k != at ==> !wanted(#[trigger] paths[k]),
    ensures
        paths_upto(paths, wanted, count) == seq![paths[at]],
    decreases count,
{
    if at == count - 1 {
        lemma_no_paths(paths, wanted, count - 1);
        assert(paths_upto(paths, wanted, count) =~= seq![paths[at]]);
    } else {
        lemma_sole_path(paths, wanted, count - 1, at);
    }
}

/// An import from a package binds through the package's own initializer: where that brings the name
/// in from one of its modules, the target is the node of the exported name in that module.
pub proof fn law_an_import_follows_a_reexport<C: ResolutionContext>(
    reference: UnresolvedRef,
    context: C,
    package: Seq<char>,
    file: int,
    import: int,
    segment: Seq<char>,
    at: int,
)
    requires
        reference.reference_kind is Imports,
        !(reference.language is JavaScript),
        reference.candidates@.len() > 0,
        ends_in_segment(reference.candidates@[0]@, package),
        package.len() > 0,
        is_plain(package),
        forall|k: int|
            0 <= k < context.named(reference.reference_name@).len() ==> !is_definition_called(
                *#[trigger] context.named(reference.reference_name@)[k],
                package,
            ),
        0 <= file < context.files().len(),
        base_name_spec(context.files()[file]) == "__init__.py"@,
        base_name_spec(parent_directory_spec(context.files()[file])) == package,
        forall|k: int|
            0 <= k < context.files().len() && k != file ==> base_name_spec(
                #[trigger] context.files()[k],
            ) != "__init__.py"@ || base_name_spec(parent_directory_spec(context.files()[k]))
                != package,
        is_binding(
            context.imports(context.files()[file], reference.language),
            reference.reference_name@,
            import,
        ),
        segment.len() > 0,
        is_plain(segment),
        ends_in_segment(
            context.imports(context.files()[file], reference.language)[import].source,
            segment,
        ),
        ({
            let named = context.named(
                context.imports(
                    context.files()[file],
                    reference.language,
                )[import].exported_name,
            );
            &&& 0 <= at < named.len()
            &&& can_be_imported(named[at].kind)
            &&& is_called(named[at].file_path@, segment)
            &&& forall|k: int|
                0 <= k < named.len() ==> (#[trigger] named[k]).id@ != reference.from_node_id@
        }),
    ensures
        resolution(reference, context) matches Some(target) && {
            &&& target.node.name@ == context.imports(
                context.files()[file],
                reference.language,
            )[import].exported_name
            &&& can_be_imported(target.node.kind)
            &&& is_called(target.node.file_path@, segment)
            &&& target.confidence == 80
            &&& target.resolved_by == ResolvedBy::Import
        },
{
    let module = reference.candidates@[0]@;
    let name = reference.reference_name@;
    let files = context.files();
    let imports = context.imports(files[file], reference.language);
    let binding = imports[import];
    lemma_stem_of_module(module, package);
    lemma_last_segment(module, package);
    assert(!is_own_package(module)) by {
        assert(module.last() == package.last());
        assert(package.contains(package.last()));
    }
    let wanted = |path: Seq<char>|
        base_name_spec(path) == "__init__.py"@ && directory_basename_spec(path) == package;
    lemma_sole_path(files, wanted, files.len() as int, file);
    let initializers = initializers_of(files, package);
    assert(initializers == seq![files[file]]);
    lemma_binding(imports, name, import, 0);
    lemma_stem_of_module(binding.source, segment);
    let named = context.named(binding.exported_name);
    context.lemma_named(binding.exported_name);
    let importing = |node: Node| importable(node.kind) && file_stem_spec(node.file_path@) == segment;
    let found = chosen(named, importing);
    assert forall|path: Seq<char>| #[trigger] is_called(path, segment) == (file_stem_spec(path)
        == segment) by {
        law_a_file_is_called_by_its_stem(path, segment);
    }
    assert(is_called(named[at].file_path@, segment));
    lemma_chosen_holds(named, importing, named.len() as int, at);
    lemma_chosen(named, importing, named.len() as int);
    assert(named.contains(found[0]));
    let k = choose|k: int| 0 <= k < named.len() && named[k] == found[0];
    assert(named[k].id@ != reference.from_node_id@);
    assert(is_called(found[0].file_path@, segment));
    let reexport = reexport_of(initializers, name, reference.language, context, 0);
    assert(reexport is Some);
    assert(reexport->0.source == binding.source && reexport->0.exported == binding.exported_name);
    assert(reexport_target(
        initializers,
        name,
        reference.language,
        context,
        REEXPORT_HOPS_MAX as nat,
    ) == Some(Target { node: found[0], confidence: 80, resolved_by: ResolvedBy::Import }));
    let exact = context.named(name);
    assert forall|n: int| 0 <= n < exact.len() implies !(defines((#[trigger] exact[n]).kind)
        && file_stem_spec(exact[n].file_path@) == package) by {
        law_a_file_is_called_by_its_stem(exact[n].file_path@, package);
        assert(!is_definition_called(*exact[n], package));
    }
    lemma_chosen_none(
        exact,
        |node: Node| defines(node.kind) && file_stem_spec(node.file_path@) == package,
        exact.len() as int,
    );
}

// ---------------------------------------------------------------------------
// A project held in memory

/// A look-up by name in a project held in memory finds every node of that name, and no other.
pub proof fn law_a_look_up_by_name_is_exact(graph: ProjectGraph, name: Seq<char>, node: Arc<Node>)
    ensures
        graph.named(name).contains(node) <==> graph.nodes@.contains(node) && node.name@ == name,
        graph.lower_named(name).contains(node) <==> graph.nodes@.contains(node) && lowercased(
            node.name@,
        ) == name,
{
    lemma_look_up(graph.nodes@, bears(name), node);
    lemma_look_up(graph.nodes@, bears_lower(name), node);
}

/// A look-up by qualified name finds every node of that qualified name, and no other.
pub proof fn law_a_look_up_by_qualified_name_is_exact(
    graph: ProjectGraph,
    qualified_name: Seq<char>,
    node: Arc<Node>,
)
    ensures
        graph.qualified(qualified_name).contains(node) <==> graph.nodes@.contains(node)
            && node.qualified_name@ == qualified_name,
{
    lemma_look_up(graph.nodes@, bears_qualified(qualified_name), node);
}

/// A look-up by kind or by file finds every node of that kind or in that file, and no other.
pub proof fn law_a_look_up_by_kind_or_file_is_exact(
    graph: ProjectGraph,
    kind: NodeKind,
    file_path: Seq<char>,
    node: Arc<Node>,
)
    ensures
        graph.of_kind(kind).contains(node) <==> graph.nodes@.contains(node) && node.kind == kind,
        graph.in_file(file_path).contains(node) <==> graph.nodes@.contains(node) && node.file_path@
            == file_path,
{
    lemma_look_up(graph.nodes@, is_of(kind), node);
    lemma_look_up(graph.nodes@, stands_in(file_path), node);
}

proof fn lemma_look_up(nodes: Seq<Arc<Node>>, wanted: spec_fn(Node) -> bool, node: Arc<Node>)
    ensures
        chosen(nodes, wanted).contains(node) <==> nodes.contains(node) && wanted(*node),
{
    let found = chosen(nodes, wanted);
    lemma_chosen(nodes, wanted, nodes.len() as int);
    if found.contains(node) {
        let k = choose|k: int| 0 <= k < found.len() && found[k] == node;
        assert(nodes.contains(found[k]));
    }
    if nodes.contains(node) && wanted(*node) {
        let at = choose|at: int| 0 <= at < nodes.len() && nodes[at] == node;
        lemma_chosen_holds(nodes, wanted, nodes.len() as int, at);
    }
}

/// A file is there where it is listed, and reads as the first one listed at that path.
pub proof fn law_a_file_reads_as_it_is_listed(graph: ProjectGraph, path: Seq<char>, at: int)
    requires
        0 <= at < graph.files@.len(),
    ensures
        graph.files@[at].path@ == path ==> graph.has_file(path),
        graph.files@[at].path@ == path && (forall|k: int|
            0 <= k < at ==> (#[trigger] graph.files@[k]).path@ != path) ==> graph.source(path) == (
        match graph.files@[at].contents {
            Some(text) => Some(text@),
            None => None,
        }),
        (forall|k: int| 0 <= k < graph.files@.len() ==> (#[trigger] graph.files@[k]).path@ != path)
            ==> !graph.has_file(path) && graph.source(path) is None,
{
    lemma_file_at(graph.files@, path, 0);
}

proof fn lemma_file_at(files: Seq<ProjectFile>, path: Seq<char>, from: int)
    requires
        0 <= from,
    ensures
        match file_at(files, path, from) {
            Some(at) => from <= at < files.len() && files[at].path@ == path && forall|k: int|
                from <= k < at ==> (#[trigger] files[k]).path@ != path,
            None => forall|k: int| from <= k < files.len() ==> (#[trigger] files[k]).path@ != path,
        },
    decreases files.len() - from,
{
    if from < files.len() && files[from].path@ != path {
        lemma_file_at(files, path, from + 1);
    }
}

/// The bindings of a file are those of the first entry for that file and language.
pub proof fn law_imports_are_those_of_the_file(
    graph: ProjectGraph,
    path: Seq<char>,
    language: Language,
    at: int,
)
    requires
        0 <= at < graph.imports@.len(),
        graph.imports@[at].path@ == path,
        graph.imports@[at].language == language,
        forall|k: int|
            0 <= k < at ==> (#[trigger] graph.imports@[k]).path@ != path || graph.imports@[k].language
                != language,
    ensures
        graph.imports(path, language) == import_views(graph.imports@[at].mappings@),
{
    lemma_imports_at(graph.imports@, path, language, 0, at);
}

proof fn lemma_imports_at(
    imports: Seq<FileImports>,
    path: Seq<char>,
    language: Language,
    from: int,
    at: int,
)
    requires
        0 <= from <= at < imports.len(),
        imports[at].path@ == path,
        imports[at].language == language,
        forall|k: int|
            0 <= k < at ==> (#[trigger] imports[k]).path@ != path || imports[k].language != language,
    ensures
        imports_at(imports, path, language, from) == import_views(imports[at].mappings@),
    decreases at - from,
{
    if from < at {
        lemma_imports_at(imports, path, language, from + 1, at);
    }
}

/// What a query set provides is dispatched at run time: its methods are names that say nothing of
/// their receiver, but for those that seldom name anything else. Of the other such names some come
/// from the life of a model and the rest from lists and dictionaries.
pub proof fn law_query_set_methods_are_dispatched(name: Seq<char>)
    ensures
        lists(QUERYSET_BUILTINS@, name) ==> dispatch_method_name(name)
            || name == "contains"@
            || name == "difference"@
            || name == "earliest"@
            || name == "in_bulk"@
            || name == "intersection"@
            || name == "iterator"@
            || name == "raw"@
            || name == "reverse"@
            || name == "union"@
            || name == "using"@,
        dispatch_method_name(name) ==> lists(QUERYSET_BUILTINS@, name)
            || name == "add"@
            || name == "append"@
            || name == "clean"@
            || name == "clean_fields"@
            || name == "extend"@
            || name == "full_clean"@
            || name == "items"@
            || name == "keys"@
            || name == "pop"@
            || name == "refresh_from_db"@
            || name == "remove"@
            || name == "save"@
            || name == "setdefault"@,
{
    assert(QUERYSET_BUILTINS@[0]@ == "aggregate"@);
    assert(QUERYSET_BUILTINS@[1]@ == "all"@);
    assert(QUERYSET_BUILTINS@[2]@ == "annotate"@);
    assert(QUERYSET_BUILTINS@[3]@ == "bulk_create"@);
    assert(QUERYSET_BUILTINS@[4]@ == "bulk_update"@);
    assert(QUERYSET_BUILTINS@[5]@ == "contains"@);
    assert(QUERYSET_BUILTINS@[6]@ == "count"@);
    assert(QUERYSET_BUILTINS@[7]@ == "create"@);
    assert(QUERYSET_BUILTINS@[8]@ == "defer"@);
    assert(QUERYSET_BUILTINS@[9]@ == "delete"@);
    assert(QUERYSET_BUILTINS@[10]@ == "difference"@);
    assert(QUERYSET_BUILTINS@[11]@ == "distinct"@);
    assert(QUERYSET_BUILTINS@[12]@ == "earliest"@);
    assert(QUERYSET_BUILTINS@[13]@ == "exclude"@);
    assert(QUERYSET_BUILTINS@[14]@ == "exists"@);
    assert(QUERYSET_BUILTINS@[15]@ == "filter"@);
    assert(QUERYSET_BUILTINS@[16]@ == "first"@);
    assert(QUERYSET_BUILTINS@[17]@ == "get"@);
    assert(QUERYSET_BUILTINS@[18]@ == "get_or_create"@);
    assert(QUERYSET_BUILTINS@[19]@ == "in_bulk"@);
    assert(QUERYSET_BUILTINS@[20]@ == "intersection"@);
    assert(QUERYSET_BUILTINS@[21]@ == "iterator"@);
    assert(QUERYSET_BUILTINS@[22]@ == "last"@);
    assert(QUERYSET_BUILTINS@[23]@ == "latest"@);
    assert(QUERYSET_BUILTINS@[24]@ == "none"@);
    assert(QUERYSET_BUILTINS@[25]@ == "only"@);
    assert(QUERYSET_BUILTINS@[26]@ == "order_by"@);
    assert(QUERYSET_BUILTINS@[27]@ == "prefetch_related"@);
    assert(QUERYSET_BUILTINS@[28]@ == "raw"@);
    assert(QUERYSET_BUILTINS@[29]@ == "reverse"@);
    assert(QUERYSET_BUILTINS@[30]@ == "select_related"@);
    assert(QUERYSET_BUILTINS@[31]@ == "union"@);
    assert(QUERYSET_BUILTINS@[32]@ == "update"@);
    assert(QUERYSET_BUILTINS@[33]@ == "update_or_create"@);
    assert(QUERYSET_BUILTINS@[34]@ == "using"@);
    assert(QUERYSET_BUILTINS@[35]@ == "values"@);
    assert(QUERYSET_BUILTINS@[36]@ == "values_list"@);
    if lists(QUERYSET_BUILTINS@, name) {
        let k = choose|k: int|
            0 <= k < QUERYSET_BUILTINS@.len() && (#[trigger] QUERYSET_BUILTINS@[k])@ == name;
        assert(k == 0 ==> name == "aggregate"@);
        assert(k == 1 ==> name == "all"@);
        assert(k == 2 ==> name == "annotate"@);
        assert(k == 3 ==> name == "bulk_create"@);
        assert(k == 4 ==> name == "bulk_update"@);
        assert(k == 5 ==> name == "contains"@);
        assert(k == 6 ==> name == "count"@);
        assert(k == 7 ==> name == "create"@);
        assert(k == 8 ==> name == "defer"@);
        assert(k == 9 ==> name == "delete"@);
        assert(k == 10 ==> name == "difference"@);
        assert(k == 11 ==> name == "distinct"@);
        assert(k == 12 ==> name == "earliest"@);
        assert(k == 13 ==> name == "exclude"@);
        assert(k == 14 ==> name == "exists"@);
        assert(k == 15 ==> name == "filter"@);
        assert(k == 16 ==> name == "first"@);
        assert(k == 17 ==> name == "get"@);
        assert(k == 18 ==> name == "get_or_create"@);
        assert(k == 19 ==> name == "in_bulk"@);
        assert(k == 20 ==> name == "intersection"@);
        assert(k == 21 ==> name == "iterator"@);
        assert(k == 22 ==> name == "last"@);
        assert(k == 23 ==> name == "latest"@);
        assert(k == 24 ==> name == "none"@);
        assert(k == 25 ==> name == "only"@);
        assert(k == 26 ==> name == "order_by"@);
        assert(k == 27 ==> name == "prefetch_related"@);
        assert(k == 28 ==> name == "raw"@);
        assert(k == 29 ==> name == "reverse"@);
        assert(k == 30 ==> name == "select_related"@);
        assert(k == 31 ==> name == "union"@);
        assert(k == 32 ==> name == "update"@);
        assert(k == 33 ==> name == "update_or_create"@);
        assert(k == 34 ==> name == "using"@);
        assert(k == 35 ==> name == "values"@);
        assert(k == 36 ==> name == "values_list"@);
    }
}

} // verus!
