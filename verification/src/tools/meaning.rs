//! What the criteria of a search mean, in terms of the graph itself.
use crate::chars::{ascii_lower_spec, occurs, occurs_at, views};
use crate::explore::file_key_spec;
use crate::graph::{EdgeKind, Node};
use crate::keys::{key_at, last_at, lemma_key_at, lemma_last_at};
use crate::order::{law_arranging_sorts, lemma_not_after, sorted_order, text_less, PartView};
use crate::risk::Fraction;
use crate::tools::changed::count_u32;
use crate::tools::symbol::text_set;
use crate::tools::winnow::{
    any_covering, any_matches, any_target_matches, caller_names, churn_keys, column_result,
    derived_field, distinct_callers, facts_of, flow_names_at, highest,
    law_columns_keep_what_matches, law_results_satisfy_every_criterion, lemma_columns_shrink,
    matches_column_spec, matches_derived_spec, members_of, places_of, rank_key, ranked_places,
    references_at, sources_of, targets_of, BulkFacts, FactsView, FlowMembership, IncomingRef,
};
use crate::winnow::{
    cost_of, glob, glob_spec, string_matches_spec, Axis, Cost, CriterionView, Op, Rank, ValueView, GLOB_TEXT_CHARS_MAX, PATTERN_CHARS_MAX,
    WINNOW_CANDIDATES_MAX,
};
use vstd::prelude::*;

verus! {

// ---------------------------------------------------------------------------
// Texts and numbers

/// The needle stands somewhere within the text.
pub open spec fn holds_within(text: Seq<char>, needle: Seq<char>) -> bool {
    exists|before: Seq<char>, after: Seq<char>| text == #[trigger] (before + needle + after)
}

/// A text is one that was asked for, whatever the case of its letters.
pub open spec fn text_meets(op: Op, needles: Seq<Seq<char>>, text: Seq<char>) -> bool {
    let lower = ascii_lower_spec(text);
    ||| op is Contains && exists|k: int|
        0 <= k < needles.len() && holds_within(lower, #[trigger] needles[k])
    ||| (op is Equal || op is In) && exists|k: int|
        0 <= k < needles.len() && #[trigger] needles[k] == lower
    ||| op is Matches && lower.len() <= GLOB_TEXT_CHARS_MAX && exists|k: int|
        0 <= k < needles.len() && (#[trigger] needles[k]).len() <= PATTERN_CHARS_MAX && glob(
            needles[k],
            lower,
        )
}

/// A number stands to the threshold as was asked.
pub open spec fn number_meets(op: Op, threshold: int, actual: int) -> bool {
    ||| op is Equal && actual == threshold
    ||| op is GreaterOrEqual && actual >= threshold
    ||| op is GreaterThan && actual > threshold
    ||| op is LessOrEqual && actual <= threshold
    ||| op is LessThan && actual < threshold
}

proof fn lemma_text_meets(op: Op, needles: Seq<Seq<char>>, text: Seq<char>)
    ensures
        string_matches_spec(op, needles, text) == text_meets(op, needles, text),
{
    let lower = ascii_lower_spec(text);
    assert forall|needle: Seq<char>| #[trigger] occurs(lower, needle) == holds_within(
        lower,
        needle,
    ) by {
        if occurs(lower, needle) {
            let at = choose|at: int| occurs_at(lower, needle, at);
            let before = lower.take(at);
            let after = lower.skip(at + needle.len());
            assert(lower =~= before + lower.subrange(at, at + needle.len()) + after);
            assert(lower == before + needle + after);
        }
        if holds_within(lower, needle) {
            let (before, after) = choose|before: Seq<char>, after: Seq<char>|
                lower == #[trigger] (before + needle + after);
            let at = before.len() as int;
            assert(lower.subrange(at, at + needle.len()) =~= needle);
            assert(occurs_at(lower, needle, at));
        }
    }
    if op is Contains && text_meets(op, needles, text) {
        let k = choose|k: int|
            0 <= k < needles.len() && holds_within(lower, #[trigger] needles[k]);
        assert(occurs(lower, needles[k]));
    }
    if op is Matches && string_matches_spec(op, needles, text) {
        let k = choose|k: int| 0 <= k < needles.len() && glob_spec(#[trigger] needles[k], lower);
        assert(needles[k].len() <= PATTERN_CHARS_MAX);
    }
    if op is Matches && text_meets(op, needles, text) {
        let k = choose|k: int|
            0 <= k < needles.len() && (#[trigger] needles[k]).len() <= PATTERN_CHARS_MAX && glob(
                needles[k],
                lower,
            );
        assert(glob_spec(needles[k], lower));
    }
}

// ---------------------------------------------------------------------------
// Facts

/// A reference leads to the node, and comes from somebody other than its container.
pub open spec fn calls_it(node: Node, reference: IncomingRef) -> bool {
    reference.target_id@ == node.id@ && !(reference.kind is Contains)
}

/// The ids of whoever refers to the node, its container aside.
pub open spec fn callers_of(node: Node, bulk: BulkFacts) -> Set<Seq<char>> {
    Set::new(
        |id: Seq<char>|
            exists|r: int|
                0 <= r < bulk.incoming@.len() && calls_it(node, #[trigger] bulk.incoming@[r])
                    && bulk.incoming@[r].source_id@ == id,
    )
}

/// How many commits touched the file of the node: the last count that was read for that file, or
/// none.
pub open spec fn is_churn(node: Node, bulk: BulkFacts, commits: int) -> bool {
    let key = node.project_id@ + "::"@ + node.file_path@;
    ||| exists|r: int|
        0 <= r < bulk.churn@.len() && (#[trigger] bulk.churn@[r]).project_id@ + "::"@
            + bulk.churn@[r].path@ == key && bulk.churn@[r].count == commits && forall|later: int|
            r < later < bulk.churn@.len() ==> (#[trigger] bulk.churn@[later]).project_id@ + "::"@
                + bulk.churn@[later].path@ != key
    ||| commits == 0 && forall|r: int|
        0 <= r < bulk.churn@.len() ==> (#[trigger] bulk.churn@[r]).project_id@ + "::"@
            + bulk.churn@[r].path@ != key
}

/// The node refers, by an edge of this kind, to something whose name was asked for.
pub open spec fn refers(
    node: Node,
    bulk: BulkFacts,
    kind: EdgeKind,
    op: Op,
    names: Seq<Seq<char>>,
) -> bool {
    exists|r: int|
        0 <= r < bulk.outgoing@.len() && (#[trigger] bulk.outgoing@[r]).source_id@ == node.id@
            && bulk.outgoing@[r].kind == kind && text_meets(
            op,
            names,
            bulk.outgoing@[r].target_name@,
        )
}

/// The node is in a flow.
pub open spec fn is_in_flow(node: Node, bulk: BulkFacts) -> bool {
    exists|r: int| 0 <= r < bulk.flows@.len() && (#[trigger] bulk.flows@[r]).node_id@ == node.id@
}

/// The node is covered: a test that covers it refers to it, or it stands in a test file itself.
pub open spec fn is_covered(node: Node, bulk: BulkFacts) -> bool {
    node.in_test_file || exists|r: int|
        0 <= r < bulk.incoming@.len() && (#[trigger] bulk.incoming@[r]).target_id@ == node.id@
            && bulk.incoming@[r].covering
}

/// The lines from the first of a node to its last, both counted.
pub open spec fn span_lines(node: Node) -> int {
    if node.span.start_line <= node.span.end_line {
        node.span.end_line + 1 - node.span.start_line
    } else {
        1
    }
}

/// The node is one that the criterion asks for.
pub open spec fn meets(node: Node, bulk: BulkFacts, risk: int, criterion: CriterionView) -> bool {
    let op = criterion.op;
    match (criterion.axis, criterion.value) {
        (Axis::Kind, ValueView::Kinds(kinds)) => kinds.contains(node.kind),
        (Axis::Language, ValueView::Languages(languages)) => languages.contains(node.language),
        (Axis::Project, ValueView::Strings(names)) => text_meets(op, names, node.project_id@),
        (Axis::Name, ValueView::Strings(names)) => text_meets(op, names, node.name@),
        (Axis::File, ValueView::Strings(names)) => text_meets(op, names, node.file_path@),
        (Axis::Decorator, ValueView::Strings(names)) => exists|d: int|
            0 <= d < node.decorators@.len() && text_meets(
                op,
                names,
                (#[trigger] node.decorators@[d])@,
            ),
        (Axis::Lines, ValueView::Number(threshold)) => number_meets(
            op,
            threshold,
            span_lines(node),
        ),
        (Axis::Callers, ValueView::Number(threshold)) => number_meets(
            op,
            threshold,
            count_u32(callers_of(node, bulk).len() as int),
        ),
        (Axis::Churn, ValueView::Number(threshold)) => exists|commits: int| #[trigger]
            is_churn(node, bulk, commits) && number_meets(op, threshold, commits),
        (Axis::Risk, ValueView::Fraction(threshold, _)) => {
            ||| op is GreaterOrEqual && risk >= threshold
            ||| op is GreaterThan && risk > threshold
        },
        (Axis::Tested, ValueView::Truth(expected)) => is_covered(node, bulk) <==> expected,
        (Axis::ChangedSince, ValueView::Date(_)) => exists|r: int|
            0 <= r < bulk.changed@.len() && (#[trigger] bulk.changed@[r])@ == node.qualified_name@,
        (Axis::InFlow, ValueView::Truth(expected)) => is_in_flow(node, bulk) <==> expected,
        (Axis::InFlow, ValueView::Strings(names)) => exists|r: int|
            0 <= r < bulk.flows@.len() && (#[trigger] bulk.flows@[r]).node_id@ == node.id@
                && text_meets(op, names, bulk.flows@[r].name@),
        (Axis::CalledBy, ValueView::Strings(names)) => exists|r: int|
            0 <= r < bulk.incoming@.len() && calls_it(node, #[trigger] bulk.incoming@[r])
                && text_meets(op, names, bulk.incoming@[r].source_name@),
        (Axis::Calls, ValueView::Strings(names)) => refers(node, bulk, EdgeKind::Calls, op, names),
        (Axis::Extends, ValueView::Strings(names)) => refers(
            node,
            bulk,
            EdgeKind::Extends,
            op,
            names,
        ),
        (Axis::RelatesTo, ValueView::Strings(names)) => refers(
            node,
            bulk,
            EdgeKind::RelatesTo,
            op,
            names,
        ),
        (Axis::Renders, ValueView::Strings(names)) => refers(
            node,
            bulk,
            EdgeKind::Renders,
            op,
            names,
        ),
        _ => false,
    }
}

// ---------------------------------------------------------------------------
// From facts to meaning

proof fn lemma_places_of(texts: Seq<Seq<char>>, text: Seq<char>, count: int)
    requires
        0 <= count <= texts.len() <= usize::MAX,
    ensures
        forall|k: int|
            0 <= k < places_of(texts, text, count).len() ==> {
                let p = #[trigger] places_of(texts, text, count)[k];
                p < count && texts[p as int] == text
            },
        forall|p: int|
            0 <= p < count && #[trigger] texts[p] == text ==> places_of(
                texts,
                text,
                count,
            ).contains(p as usize),
    decreases count,
{
    if count > 0 {
        lemma_places_of(texts, text, count - 1);
        let before = places_of(texts, text, count - 1);
        let after = places_of(texts, text, count);
        assert forall|p: int| 0 <= p < count && #[trigger] texts[p] == text implies after.contains(
            p as usize,
        ) by {
            if p < count - 1 {
                assert(before.contains(p as usize));
                let k = choose|k: int| 0 <= k < before.len() && before[k] == p as usize;
                assert(after[k] == p as usize);
            } else {
                assert(after[after.len() - 1] == p as usize);
            }
        }
    }
}

proof fn lemma_distinct_callers(refs: Seq<IncomingRef>, places: Seq<usize>, count: int)
    requires
        0 <= count <= places.len(),
    ensures
        distinct_callers(refs, places, count).no_duplicates(),
        forall|id: Seq<char>| #[trigger]
            distinct_callers(refs, places, count).contains(id) <==> exists|k: int|
                0 <= k < count && refs[(#[trigger] places[k]) as int].source_id@ == id && !(
                refs[places[k] as int].kind is Contains),
    decreases count,
{
    if count > 0 {
        lemma_distinct_callers(refs, places, count - 1);
        let before = distinct_callers(refs, places, count - 1);
        let after = distinct_callers(refs, places, count);
        let last = refs[places[count - 1] as int];
        lemma_key_at(before, last.source_id@, 0);
        assert forall|id: Seq<char>| #[trigger] after.contains(id) <==> exists|k: int|
            0 <= k < count && refs[(#[trigger] places[k]) as int].source_id@ == id && !(
            refs[places[k] as int].kind is Contains) by {
            if after.contains(id) {
                let at = choose|at: int| 0 <= at < after.len() && after[at] == id;
                if at < before.len() {
                    assert(before[at] == id);
                    assert(before.contains(id));
                    let k = choose|k: int|
                        0 <= k < count - 1 && refs[(#[trigger] places[k]) as int].source_id@ == id
                            && !(refs[places[k] as int].kind is Contains);
                    assert(refs[places[k] as int].source_id@ == id);
                } else {
                    assert(refs[places[count - 1] as int].source_id@ == id);
                }
            }
            if exists|k: int|
                0 <= k < count && refs[(#[trigger] places[k]) as int].source_id@ == id && !(
                refs[places[k] as int].kind is Contains) {
                let k = choose|k: int|
                    0 <= k < count && refs[(#[trigger] places[k]) as int].source_id@ == id && !(
                    refs[places[k] as int].kind is Contains);
                if k < count - 1 {
                    assert(before.contains(id));
                    let at = choose|at: int| 0 <= at < before.len() && before[at] == id;
                    assert(after[at] == id);
                } else if key_at(before, id, 0) is Some {
                    assert(after[key_at(before, id, 0)->0] == id);
                } else {
                    assert(after[after.len() - 1] == id);
                }
            }
        }
    }
}

proof fn lemma_caller_names(
    refs: Seq<IncomingRef>,
    places: Seq<usize>,
    count: int,
    op: Op,
    names: Seq<Seq<char>>,
)
    requires
        0 <= count <= places.len(),
    ensures
        any_matches(op, names, caller_names(refs, places, count)) <==> exists|k: int|
            0 <= k < count && !(refs[(#[trigger] places[k]) as int].kind is Contains) && text_meets(
                op,
                names,
                refs[places[k] as int].source_name@,
            ),
    decreases count,
{
    if count > 0 {
        lemma_caller_names(refs, places, count - 1, op, names);
        let before = caller_names(refs, places, count - 1);
        let after = caller_names(refs, places, count);
        let last = refs[places[count - 1] as int];
        lemma_text_meets(op, names, last.source_name@);
        if any_matches(op, names, before) {
            let k = choose|k: int|
                0 <= k < before.len() && string_matches_spec(op, names, #[trigger] before[k]);
            assert(after[k] == before[k]);
        }
        if any_matches(op, names, after) {
            let k = choose|k: int|
                0 <= k < after.len() && string_matches_spec(op, names, #[trigger] after[k]);
            if k < before.len() {
                assert(after[k] == before[k]);
            } else {
                assert(refs[places[count - 1] as int].source_name@ == after[k]);
            }
        }
        if !(last.kind is Contains) && text_meets(op, names, last.source_name@) {
            assert(after[after.len() - 1] == last.source_name@);
        }
    }
}

proof fn lemma_text_set(texts: Seq<Seq<char>>, count: int, text: Seq<char>)
    requires
        0 <= count <= texts.len(),
    ensures
        text_set(texts, count).contains(text) <==> exists|r: int|
            0 <= r < count && #[trigger] texts[r] == text,
    decreases count,
{
    if count > 0 {
        lemma_text_set(texts, count - 1, text);
        if texts[count - 1] == text {
            assert(texts[count - 1] == text);
        }
    }
}

proof fn lemma_callers_meet(node: Node, bulk: BulkFacts)
    requires
        bulk.incoming@.len() <= usize::MAX,
    ensures
        facts_of(node, bulk).caller_count == count_u32(callers_of(node, bulk).len() as int),
        facts_of(node, bulk).covered == is_covered(node, bulk),
{
    let refs = bulk.incoming@;
    let texts = targets_of(refs);
    let places = places_of(texts, node.id@, refs.len() as int);
    lemma_places_of(texts, node.id@, refs.len() as int);
    lemma_distinct_callers(refs, places, places.len() as int);
    let callers = distinct_callers(refs, places, places.len() as int);
    assert forall|id: Seq<char>| #[trigger] callers.contains(id) == callers_of(
        node,
        bulk,
    ).contains(id) by {
        if callers.contains(id) {
            let k = choose|k: int|
                0 <= k < places.len() && refs[(#[trigger] places[k]) as int].source_id@ == id && !(
                refs[places[k] as int].kind is Contains);
            assert(texts[places[k] as int] == node.id@);
            assert(calls_it(node, refs[places[k] as int]));
        }
        if callers_of(node, bulk).contains(id) {
            let r = choose|r: int|
                0 <= r < refs.len() && calls_it(node, #[trigger] refs[r]) && refs[r].source_id@
                    == id;
            assert(texts[r] == node.id@);
            assert(places.contains(r as usize));
            let k = choose|k: int| 0 <= k < places.len() && places[k] == r as usize;
            assert(refs[places[k] as int].source_id@ == id);
        }
    }
    callers.unique_seq_to_set();
    assert(callers.to_set() =~= callers_of(node, bulk));
    if any_covering(refs, places) {
        let k = choose|k: int|
            0 <= k < places.len() && refs[(#[trigger] places[k]) as int].covering;
        assert(texts[places[k] as int] == node.id@);
        assert(refs[places[k] as int].target_id@ == node.id@);
    }
    if exists|r: int|
        0 <= r < refs.len() && (#[trigger] refs[r]).target_id@ == node.id@ && refs[r].covering {
        let r = choose|r: int|
            0 <= r < refs.len() && (#[trigger] refs[r]).target_id@ == node.id@ && refs[r].covering;
        assert(texts[r] == node.id@);
        assert(places.contains(r as usize));
        let k = choose|k: int| 0 <= k < places.len() && places[k] == r as usize;
        assert(refs[places[k] as int].covering);
    }
}

proof fn lemma_called_by_meets(node: Node, bulk: BulkFacts, op: Op, names: Seq<Seq<char>>)
    requires
        bulk.incoming@.len() <= usize::MAX,
    ensures
        any_matches(op, names, facts_of(node, bulk).caller_names) <==> exists|r: int|
            0 <= r < bulk.incoming@.len() && calls_it(node, #[trigger] bulk.incoming@[r])
                && text_meets(op, names, bulk.incoming@[r].source_name@),
{
    let refs = bulk.incoming@;
    let texts = targets_of(refs);
    let places = places_of(texts, node.id@, refs.len() as int);
    lemma_places_of(texts, node.id@, refs.len() as int);
    lemma_caller_names(refs, places, places.len() as int, op, names);
    if any_matches(op, names, facts_of(node, bulk).caller_names) {
        let k = choose|k: int|
            0 <= k < places.len() && !(refs[(#[trigger] places[k]) as int].kind is Contains)
                && text_meets(op, names, refs[places[k] as int].source_name@);
        assert(texts[places[k] as int] == node.id@);
        assert(calls_it(node, refs[places[k] as int]));
    }
    if exists|r: int|
        0 <= r < refs.len() && calls_it(node, #[trigger] refs[r]) && text_meets(
            op,
            names,
            refs[r].source_name@,
        ) {
        let r = choose|r: int|
            0 <= r < refs.len() && calls_it(node, #[trigger] refs[r]) && text_meets(
                op,
                names,
                refs[r].source_name@,
            );
        assert(texts[r] == node.id@);
        assert(places.contains(r as usize));
        let k = choose|k: int| 0 <= k < places.len() && places[k] == r as usize;
        assert(!(refs[places[k] as int].kind is Contains));
    }
}

proof fn lemma_refers(
    node: Node,
    bulk: BulkFacts,
    kind: EdgeKind,
    op: Op,
    names: Seq<Seq<char>>,
)
    requires
        bulk.outgoing@.len() <= usize::MAX,
    ensures
        any_target_matches(facts_of(node, bulk).outgoing, kind, op, names) == refers(
            node,
            bulk,
            kind,
            op,
            names,
        ),
{
    let refs = bulk.outgoing@;
    let texts = sources_of(refs);
    let places = places_of(texts, node.id@, refs.len() as int);
    lemma_places_of(texts, node.id@, refs.len() as int);
    let pairs = references_at(refs, places);
    if any_target_matches(pairs, kind, op, names) {
        let k = choose|k: int|
            0 <= k < pairs.len() && (#[trigger] pairs[k]).0 == kind && string_matches_spec(
                op,
                names,
                pairs[k].1,
            );
        let r = places[k] as int;
        assert(texts[r] == node.id@);
        lemma_text_meets(op, names, refs[r].target_name@);
        assert(refs[r].source_id@ == node.id@);
    }
    if refers(node, bulk, kind, op, names) {
        let r = choose|r: int|
            0 <= r < refs.len() && (#[trigger] refs[r]).source_id@ == node.id@ && refs[r].kind
                == kind && text_meets(op, names, refs[r].target_name@);
        assert(texts[r] == node.id@);
        assert(places.contains(r as usize));
        let k = choose|k: int| 0 <= k < places.len() && places[k] == r as usize;
        lemma_text_meets(op, names, refs[r].target_name@);
        assert(pairs[k].0 == kind);
    }
}

proof fn lemma_in_flow(node: Node, bulk: BulkFacts, op: Op, names: Seq<Seq<char>>)
    requires
        bulk.flows@.len() <= usize::MAX,
    ensures
        (facts_of(node, bulk).flow_names.len() > 0) == is_in_flow(node, bulk),
        any_matches(op, names, facts_of(node, bulk).flow_names) <==> exists|r: int|
            0 <= r < bulk.flows@.len() && (#[trigger] bulk.flows@[r]).node_id@ == node.id@
                && text_meets(op, names, bulk.flows@[r].name@),
{
    let flows = bulk.flows@;
    let texts = members_of(flows);
    let places = places_of(texts, node.id@, flows.len() as int);
    lemma_places_of(texts, node.id@, flows.len() as int);
    let found = flow_names_at(flows, places);
    if found.len() > 0 {
        assert(texts[places[0] as int] == node.id@);
        assert(flows[places[0] as int].node_id@ == node.id@);
    }
    if is_in_flow(node, bulk) {
        let r = choose|r: int|
            0 <= r < flows.len() && (#[trigger] flows[r]).node_id@ == node.id@;
        assert(texts[r] == node.id@);
        assert(places.contains(r as usize));
    }
    if any_matches(op, names, found) {
        let k = choose|k: int|
            0 <= k < found.len() && string_matches_spec(op, names, #[trigger] found[k]);
        let r = places[k] as int;
        assert(texts[r] == node.id@);
        lemma_text_meets(op, names, flows[r].name@);
        assert(flows[r].node_id@ == node.id@);
    }
    if exists|r: int|
        0 <= r < flows.len() && (#[trigger] flows[r]).node_id@ == node.id@ && text_meets(
            op,
            names,
            flows[r].name@,
        ) {
        let r = choose|r: int|
            0 <= r < flows.len() && (#[trigger] flows[r]).node_id@ == node.id@ && text_meets(
                op,
                names,
                flows[r].name@,
            );
        assert(texts[r] == node.id@);
        assert(places.contains(r as usize));
        let k = choose|k: int| 0 <= k < places.len() && places[k] == r as usize;
        lemma_text_meets(op, names, flows[r].name@);
        assert(found[k] == flows[r].name@);
    }
}

proof fn lemma_last_is_last(keys: Seq<Seq<char>>, key: Seq<char>, count: int)
    requires
        0 <= count <= keys.len(),
    ensures
        last_at(keys, key, count) is Some ==> forall|later: int|
            last_at(keys, key, count)->0 < later < count ==> #[trigger] keys[later] != key,
    decreases count,
{
    if count > 0 && keys[count - 1] != key {
        lemma_last_is_last(keys, key, count - 1);
    }
}

proof fn lemma_churn(node: Node, bulk: BulkFacts)
    ensures
        forall|commits: int| #[trigger]
            is_churn(node, bulk, commits) <==> commits == facts_of(node, bulk).churn,
{
    let rows = bulk.churn@;
    let keys = churn_keys(rows);
    let key = file_key_spec(node.project_id@, node.file_path@);
    lemma_last_at(keys, key, rows.len() as int);
    lemma_last_is_last(keys, key, rows.len() as int);
    assert(forall|r: int| 0 <= r < rows.len() ==> #[trigger] keys[r] == rows[r].project_id@ + "::"@
        + rows[r].path@);
    let found = last_at(keys, key, rows.len() as int);
    let commits = facts_of(node, bulk).churn;
    assert(is_churn(node, bulk, commits)) by {
        if found is Some {
            let r = found->0;
            assert(keys[r] == key);
            assert(rows[r].project_id@ + "::"@ + rows[r].path@ == key);
            assert forall|later: int| r < later < rows.len() implies (#[trigger] rows[later]).project_id@
                + "::"@ + rows[later].path@ != key by {
                assert(keys[later] != key);
            }
        } else {
            assert forall|r: int| 0 <= r < rows.len() implies (#[trigger] rows[r]).project_id@
                + "::"@ + rows[r].path@ != key by {
                assert(keys[r] != key);
            }
        }
    }
    assert forall|other: int| #[trigger] is_churn(node, bulk, other) implies other == commits by {
        if found is Some {
            let last = found->0;
            assert(keys[last] == key);
            assert(rows[last].project_id@ + "::"@ + rows[last].path@ == key);
            let r = choose|r: int|
                0 <= r < rows.len() && (#[trigger] rows[r]).project_id@ + "::"@ + rows[r].path@
                    == key && rows[r].count == other && forall|later: int|
                    r < later < rows.len() ==> (#[trigger] rows[later]).project_id@ + "::"@
                        + rows[later].path@ != key;
            assert(keys[r] == key);
        } else if exists|r: int|
            0 <= r < rows.len() && (#[trigger] rows[r]).project_id@ + "::"@ + rows[r].path@ == key {
            let r = choose|r: int|
                0 <= r < rows.len() && (#[trigger] rows[r]).project_id@ + "::"@ + rows[r].path@
                    == key;
            assert(keys[r] == key);
        }
    }
}

/// What was read in bulk fits in memory.
pub open spec fn bulk_fits(bulk: BulkFacts) -> bool {
    bulk.incoming@.len() <= usize::MAX && bulk.outgoing@.len() <= usize::MAX && bulk.flows@.len()
        <= usize::MAX
}

proof fn lemma_column_meets(node: Node, bulk: BulkFacts, risk: int, criterion: CriterionView)
    requires
        cost_of(criterion.axis) == Cost::Column,
    ensures
        matches_column_spec(node, criterion) == meets(node, bulk, risk, criterion),
{
    match (criterion.axis, criterion.value) {
        (Axis::Project, ValueView::Strings(names)) => {
            lemma_text_meets(criterion.op, names, node.project_id@);
        },
        (Axis::Name, ValueView::Strings(names)) => {
            lemma_text_meets(criterion.op, names, node.name@);
        },
        (Axis::File, ValueView::Strings(names)) => {
            lemma_text_meets(criterion.op, names, node.file_path@);
        },
        (Axis::Decorator, ValueView::Strings(names)) => {
            let texts = views(node.decorators@);
            if any_matches(criterion.op, names, texts) {
                let k = choose|k: int|
                    0 <= k < texts.len() && string_matches_spec(
                        criterion.op,
                        names,
                        #[trigger] texts[k],
                    );
                lemma_text_meets(criterion.op, names, texts[k]);
                assert(node.decorators@[k]@ == texts[k]);
            }
            if meets(node, bulk, risk, criterion) {
                let d = choose|d: int|
                    0 <= d < node.decorators@.len() && text_meets(
                        criterion.op,
                        names,
                        (#[trigger] node.decorators@[d])@,
                    );
                lemma_text_meets(criterion.op, names, node.decorators@[d]@);
                assert(texts[d] == node.decorators@[d]@);
            }
        },
        _ => {},
    }
}

proof fn lemma_derived_meets(node: Node, bulk: BulkFacts, risk: int, criterion: CriterionView)
    requires
        bulk_fits(bulk),
        cost_of(criterion.axis) != Cost::Column,
    ensures
        matches_derived_spec(facts_of(node, bulk), risk, criterion) == meets(
            node,
            bulk,
            risk,
            criterion,
        ),
{
    let op = criterion.op;
    match (criterion.axis, criterion.value) {
        (Axis::Callers, _) | (Axis::Tested, _) => {
            lemma_callers_meet(node, bulk);
        },
        (Axis::Churn, _) => {
            lemma_churn(node, bulk);
            assert(is_churn(node, bulk, facts_of(node, bulk).churn));
        },
        (Axis::ChangedSince, _) => {
            let names = views(bulk.changed@);
            lemma_text_set(names, bulk.changed@.len() as int, node.qualified_name@);
            assert(forall|r: int| 0 <= r < bulk.changed@.len() ==> #[trigger] names[r]
                == bulk.changed@[r]@);
            if exists|r: int|
                0 <= r < bulk.changed@.len() && (#[trigger] bulk.changed@[r])@
                    == node.qualified_name@ {
                let r = choose|r: int|
                    0 <= r < bulk.changed@.len() && (#[trigger] bulk.changed@[r])@
                        == node.qualified_name@;
                assert(names[r] == node.qualified_name@);
            }
        },
        (Axis::InFlow, ValueView::Strings(names)) => {
            lemma_in_flow(node, bulk, op, names);
        },
        (Axis::InFlow, _) => {
            lemma_in_flow(node, bulk, op, Seq::empty());
        },
        (Axis::CalledBy, ValueView::Strings(names)) => {
            lemma_called_by_meets(node, bulk, op, names);
        },
        (Axis::Calls, ValueView::Strings(names)) => {
            lemma_refers(node, bulk, EdgeKind::Calls, op, names);
        },
        (Axis::Extends, ValueView::Strings(names)) => {
            lemma_refers(node, bulk, EdgeKind::Extends, op, names);
        },
        (Axis::RelatesTo, ValueView::Strings(names)) => {
            lemma_refers(node, bulk, EdgeKind::RelatesTo, op, names);
        },
        (Axis::Renders, ValueView::Strings(names)) => {
            lemma_refers(node, bulk, EdgeKind::Renders, op, names);
        },
        _ => {},
    }
}

// ---------------------------------------------------------------------------
// Results

/// What was read of each candidate that the columns left, in order.
pub open spec fn facts_read(
    nodes: Seq<Node>,
    criteria: Seq<CriterionView>,
    bulk: BulkFacts,
) -> Seq<FactsView> {
    column_result(nodes, criteria).places.map_values(|p: usize| facts_of(nodes[p as int], bulk))
}

/// The nodes that a search returns, by their places.
pub open spec fn is_result(
    nodes: Seq<Node>,
    criteria: Seq<CriterionView>,
    bulk: BulkFacts,
    risks: Seq<Fraction>,
    place: int,
) -> bool {
    let columns = column_result(nodes, criteria);
    let results = derived_field(
        columns,
        facts_read(nodes, criteria, bulk),
        risks,
        criteria,
        criteria.len() as int,
    );
    exists|k: int|
        0 <= k < results.places.len() && columns.places[(#[trigger] results.places[k]) as int]
            == place
}

/// A search returns only what every criterion asks for: whatever stands among the results is a
/// scanned node that meets each of them.
pub proof fn law_every_result_was_asked_for(
    nodes: Seq<Node>,
    criteria: Seq<CriterionView>,
    bulk: BulkFacts,
    risks: Seq<Fraction>,
    place: int,
) -> (survivor: int)
    requires
        nodes.len() <= usize::MAX,
        bulk_fits(bulk),
        is_result(nodes, criteria, bulk, risks, place),
    ensures
        0 <= place < nodes.len(),
        place < WINNOW_CANDIDATES_MAX,
        0 <= survivor < column_result(nodes, criteria).places.len(),
        column_result(nodes, criteria).places[survivor] == place,
        forall|i: int|
            0 <= i < criteria.len() ==> meets(
                nodes[place],
                bulk,
                risks[survivor].order as int,
                #[trigger] criteria[i],
            ),
{
    let columns = column_result(nodes, criteria);
    let facts = facts_read(nodes, criteria, bulk);
    let results = derived_field(columns, facts, risks, criteria, criteria.len() as int);
    let k = choose|k: int|
        0 <= k < results.places.len() && columns.places[(#[trigger] results.places[k]) as int]
            == place;
    let survivor = results.places[k];
    assert(results.places.contains(survivor));
    law_results_satisfy_every_criterion(nodes, facts, risks, criteria, survivor);
    assert(columns.places.contains(columns.places[survivor as int]));
    law_columns_keep_what_matches(nodes, criteria, columns.places[survivor as int]);
    assert(facts[survivor as int] == facts_of(nodes[place], bulk));
    assert forall|i: int| 0 <= i < criteria.len() implies meets(
        nodes[place],
        bulk,
        risks[survivor as int].order as int,
        #[trigger] criteria[i],
    ) by {
        if cost_of(criteria[i].axis) == Cost::Column {
            lemma_column_meets(
                nodes[place],
                bulk,
                risks[survivor as int].order as int,
                criteria[i],
            );
        } else {
            lemma_derived_meets(
                nodes[place],
                bulk,
                risks[survivor as int].order as int,
                criteria[i],
            );
        }
    }
    survivor as int
}

/// A search returns all that every criterion asks for: a scanned node that meets each of them is
/// among the results, by the risk read of it.
pub proof fn law_whatever_was_asked_for_is_a_result(
    nodes: Seq<Node>,
    criteria: Seq<CriterionView>,
    bulk: BulkFacts,
    risks: Seq<Fraction>,
    place: int,
)
    requires
        nodes.len() <= usize::MAX,
        bulk_fits(bulk),
        0 <= place < nodes.len(),
        place < WINNOW_CANDIDATES_MAX,
        forall|i: int, survivor: int|
            0 <= i < criteria.len() && 0 <= survivor < column_result(nodes, criteria).places.len()
                && column_result(nodes, criteria).places[survivor] == place ==> meets(
                nodes[place],
                bulk,
                (#[trigger] risks[survivor]).order as int,
                #[trigger] criteria[i],
            ),
        forall|i: int|
            0 <= i < criteria.len() && !((#[trigger] criteria[i]).axis is Risk) ==> meets(
                nodes[place],
                bulk,
                0,
                criteria[i],
            ),
    ensures
        is_result(nodes, criteria, bulk, risks, place),
{
    let columns = column_result(nodes, criteria);
    let facts = facts_read(nodes, criteria, bulk);
    let results = derived_field(columns, facts, risks, criteria, criteria.len() as int);
    assert forall|i: int|
        0 <= i < criteria.len() && cost_of((#[trigger] criteria[i]).axis)
            == Cost::Column implies matches_column_spec(nodes[place], criteria[i]) by {
        lemma_column_meets(nodes[place], bulk, 0, criteria[i]);
    }
    law_columns_keep_what_matches(nodes, criteria, place as usize);
    assert(columns.places.contains(place as usize));
    let survivor = choose|survivor: int|
        0 <= survivor < columns.places.len() && columns.places[survivor] == place as usize;
    assert(facts[survivor] == facts_of(nodes[place], bulk));
    assert(columns.places.len() <= usize::MAX) by {
        lemma_columns_shrink(nodes, criteria, criteria.len() as int);
    }
    assert forall|i: int| 0 <= i < criteria.len() implies if cost_of((#[trigger] criteria[i]).axis)
        == Cost::Column {
        matches_column_spec(nodes[place], criteria[i])
    } else {
        matches_derived_spec(facts[survivor], risks[survivor].order as int, criteria[i])
    } by {
        if cost_of(criteria[i].axis) != Cost::Column {
            lemma_derived_meets(nodes[place], bulk, risks[survivor].order as int, criteria[i]);
        }
    }
    law_results_satisfy_every_criterion(nodes, facts, risks, criteria, survivor as usize);
    assert(results.places.contains(survivor as usize));
    let k = choose|k: int|
        0 <= k < results.places.len() && results.places[k] == survivor as usize;
    assert(columns.places[results.places[k] as int] == place);
}

proof fn lemma_highest(flows: Seq<FlowMembership>, places: Seq<usize>, count: int)
    requires
        0 <= count <= places.len(),
    ensures
        forall|k: int|
            0 <= k < count ==> flows[(#[trigger] places[k]) as int].criticality <= highest(
                flows,
                places,
                count,
            ),
        highest(flows, places, count) == 0 || exists|k: int|
            0 <= k < count && flows[(#[trigger] places[k]) as int].criticality == highest(
                flows,
                places,
                count,
            ),
    decreases count,
{
    if count > 0 {
        lemma_highest(flows, places, count - 1);
        if flows[places[count - 1] as int].criticality > highest(flows, places, count - 1) {
            assert(flows[places[count - 1] as int].criticality == highest(flows, places, count));
        }
    }
}

/// The criticality of a node is that of the most critical flow it is in, or nothing.
pub proof fn law_the_most_critical_flow_counts(node: Node, bulk: BulkFacts)
    requires
        bulk_fits(bulk),
    ensures
        forall|r: int|
            0 <= r < bulk.flows@.len() && (#[trigger] bulk.flows@[r]).node_id@ == node.id@
                ==> bulk.flows@[r].criticality <= facts_of(node, bulk).criticality,
        facts_of(node, bulk).criticality == 0 || exists|r: int|
            0 <= r < bulk.flows@.len() && (#[trigger] bulk.flows@[r]).node_id@ == node.id@
                && bulk.flows@[r].criticality == facts_of(node, bulk).criticality,
{
    let flows = bulk.flows@;
    let texts = members_of(flows);
    let places = places_of(texts, node.id@, flows.len() as int);
    lemma_places_of(texts, node.id@, flows.len() as int);
    lemma_highest(flows, places, places.len() as int);
    let top = highest(flows, places, places.len() as int);
    assert forall|r: int|
        0 <= r < flows.len() && (#[trigger] flows[r]).node_id@
            == node.id@ implies flows[r].criticality <= top by {
        assert(texts[r] == node.id@);
        assert(places.contains(r as usize));
        let k = choose|k: int| 0 <= k < places.len() && places[k] == r as usize;
        assert(flows[places[k] as int].criticality <= top);
    }
    if top != 0 {
        let k = choose|k: int|
            0 <= k < places.len() && flows[(#[trigger] places[k]) as int].criticality == top;
        assert(texts[places[k] as int] == node.id@);
        assert(flows[places[k] as int].node_id@ == node.id@);
    }
}

/// Of two results the earlier has no fewer callers, no fewer commits, no less critical a flow, no
/// fewer lines, no later a name or no lower a risk, by what was asked for; and of two that are equal
/// in this the earlier stands in no later a file, and in one file on no later a line.
pub proof fn law_results_come_in_the_order_asked_for(
    nodes: Seq<Node>,
    criteria: Seq<CriterionView>,
    bulk: BulkFacts,
    risks: Seq<Fraction>,
    places: Seq<usize>,
    rank: Rank,
    a: int,
    b: int,
)
    requires
        bulk_fits(bulk),
        0 <= a < b < places.len(),
        forall|k: int|
            0 <= k < places.len() ==> #[trigger] places[k] < column_result(
                nodes,
                criteria,
            ).places.len(),
    ensures
        ({
            let survivors = column_result(nodes, criteria).places;
            let ranked = ranked_places(
                nodes,
                survivors,
                facts_read(nodes, criteria, bulk),
                risks,
                places,
                rank,
            );
            let first = nodes[survivors[ranked[a] as int] as int];
            let second = nodes[survivors[ranked[b] as int] as int];
            let same = match rank {
                Rank::Callers => count_u32(callers_of(first, bulk).len() as int) == count_u32(
                    callers_of(second, bulk).len() as int,
                ),
                Rank::Churn => exists|commits: int| #[trigger]
                    is_churn(first, bulk, commits) && is_churn(second, bulk, commits),
                Rank::Criticality => facts_of(first, bulk).criticality == facts_of(
                    second,
                    bulk,
                ).criticality,
                Rank::Lines => span_lines(first) == span_lines(second),
                Rank::Name => first.name@ == second.name@,
                Rank::Risk => risks[ranked[a] as int].order == risks[ranked[b] as int].order,
            };
            &&& match rank {
                Rank::Callers => count_u32(callers_of(first, bulk).len() as int) >= count_u32(
                    callers_of(second, bulk).len() as int,
                ),
                Rank::Churn => forall|more: int, fewer: int| #[trigger]
                    is_churn(first, bulk, more) && #[trigger] is_churn(second, bulk, fewer) ==> more
                        >= fewer,
                Rank::Criticality => facts_of(first, bulk).criticality >= facts_of(
                    second,
                    bulk,
                ).criticality,
                Rank::Lines => span_lines(first) >= span_lines(second),
                Rank::Name => !text_less(second.name@, first.name@),
                Rank::Risk => risks[ranked[a] as int].order >= risks[ranked[b] as int].order,
            }
            &&& same ==> !text_less(second.file_path@, first.file_path@)
            &&& same && first.file_path@ == second.file_path@ ==> first.span.start_line
                <= second.span.start_line
        }),
{
    let survivors = column_result(nodes, criteria).places;
    let facts = facts_read(nodes, criteria, bulk);
    let ranked = ranked_places(nodes, survivors, facts, risks, places, rank);
    let keys = places.map_values(
        |p: usize|
            rank_key(
                nodes[survivors[p as int] as int],
                facts[p as int],
                risks[p as int],
                rank,
            ),
    );
    let (i, j) = (sorted_order(keys)[a], sorted_order(keys)[b]);
    law_arranging_sorts(keys, a, b);
    let (left, right) = (keys[i], keys[j]);
    lemma_not_after(left, right);
    if left[0] == right[0] {
        lemma_not_after(left.skip(1), right.skip(1));
        if left.skip(1)[0] == right.skip(1)[0] {
            lemma_not_after(left.skip(1).skip(1), right.skip(1).skip(1));
        }
    }
    assert(ranked[a] == places[i] && ranked[b] == places[j]);
    let first = nodes[survivors[places[i] as int] as int];
    let second = nodes[survivors[places[j] as int] as int];
    assert(facts[places[i] as int] == facts_of(first, bulk));
    assert(facts[places[j] as int] == facts_of(second, bulk));
    lemma_callers_meet(first, bulk);
    lemma_callers_meet(second, bulk);
    lemma_churn(first, bulk);
    lemma_churn(second, bulk);
    assert(is_churn(first, bulk, facts_of(first, bulk).churn));
    assert(is_churn(second, bulk, facts_of(second, bulk).churn));
    assert(left[1] == PartView::Text(first.file_path@));
    assert(right[1] == PartView::Text(second.file_path@));
    assert(left.skip(1)[0] == left[1] && right.skip(1)[0] == right[1]);
    assert(left.skip(1).skip(1)[0] == left[2] && right.skip(1).skip(1)[0] == right[2]);
}

} // verus!
