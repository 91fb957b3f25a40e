//! A multi-axis filter over the graph.
use crate::chars::{
    ascii_lower_spec, cat2, cat3, cat4, copy, join, join_spec, quote, quoted,
    same_ignoring_ascii_case, views,
};
use crate::cursor::{next_text, next_text_line, note_line, note_text, slice, slice_spec, Page};
use crate::explore::{file_key, file_key_spec};
use crate::fx::{texts_contains, texts_held, texts_insert, texts_new};
use crate::graph::{EdgeKind, Language, Node, NodeKind, Project};
use crate::keys::{
    distinct, key_at, last_at, lemma_distinct, lemma_key_at, KeyIndex, PlaceIndex,
};
use crate::limits::SECONDS_PER_DAY;
use crate::numbers::{decimal_i64, decimal_spec, decimal_u32, decimal_usize, signed_spec};
use crate::order::{
    arrange, arranged, key_view, keys_view, law_arranging_sorts, lemma_not_after, sorted_order,
    text_less, Part, PartView,
};
use crate::render::{node_line, node_line_spec};
use crate::risk::{Fraction, RiskInputs, TEST_SATURATION};
use crate::tools::changed::count_u32;
use crate::tools::symbol::{counting, text_set};
use crate::winnow::{
    cost_of, criteria_view, criterion_text, error_text, fraction_matches, fraction_matches_spec,
    number_matches, number_matches_spec, parse, parse_spec, rank_labels, string_matches,
    string_matches_spec, Axis, Cost, Criterion, CriterionView, ErrorView, Op, Rank, RawCriterion,
    Value, ValueView, CHURN_WINDOW_DAYS_DEFAULT, WINNOW_CANDIDATES_MAX,
};
use vstd::prelude::*;

verus! {

// ---------------------------------------------------------------------------
// Requests

/// A query that was accepted: its criteria, cheapest first, and the order of its results.
pub struct Request {
    pub criteria: Vec<Criterion>,
    pub rank: Rank,
}

/// Why a query is refused, where it is.
pub open spec fn refused(raw: Seq<RawCriterion<'_>>, rank: Option<&str>) -> Option<Seq<char>> {
    match parse_spec(raw) {
        Err(error) => Some("winnow: "@ + error_text(error)),
        Ok(_) => match rank {
            None => None,
            Some(label) => match Rank::named(label@) {
                Some(_) => None,
                None => Some(
                    "winnow: unknown rank "@ + quoted(label@) + ". Valid ranks: "@ + join_spec(
                        rank_labels(),
                        ", "@,
                    ),
                ),
            },
        },
    }
}

/// The rank that a query asks for, by risk where it names none.
pub open spec fn rank_asked(rank: Option<&str>) -> Option<Rank> {
    match rank {
        None => Some(Rank::Risk),
        Some(label) => Rank::named(label@),
    }
}

/// A query read: its criteria and its rank, or the text that refuses it.
pub fn read_request(raw: &[RawCriterion<'_>], rank: Option<&str>) -> (request: Result<
    Request,
    String,
>)
    ensures
        match request {
            Ok(request) => refused(raw@, rank) is None && parse_spec(raw@) == Ok::<
                Seq<CriterionView>,
                ErrorView,
            >(criteria_view(request.criteria@)) && rank_asked(rank) == Some(request.rank),
            Err(text) => refused(raw@, rank) == Some(text@),
        },
{
    let criteria = match parse(raw) {
        Ok(criteria) => criteria,
        Err(error) => {
            return Err(cat2("winnow: ", error.message().as_str()));
        },
    };
    let rank = match rank {
        None => Rank::Risk,
        Some(label) => match Rank::from_str_label(label) {
            Some(rank) => rank,
            None => {
                return Err(
                    cat4(
                        "winnow: unknown rank ",
                        quote(label).as_str(),
                        ". Valid ranks: ",
                        Rank::valid_labels().as_str(),
                    ),
                );
            },
        },
    };
    Ok(Request { criteria, rank })
}

/// The project that the criteria, from `from` on, name: that of the first project criterion with a
/// single value.
pub open spec fn project_asked(criteria: Seq<CriterionView>, from: int) -> Option<Seq<char>>
    decreases criteria.len() - from,
{
    if from < 0 || from >= criteria.len() {
        None
    } else {
        match (criteria[from].axis, criteria[from].value) {
            (Axis::Project, ValueView::Strings(values)) => if values.len() == 1 {
                Some(values[0])
            } else {
                project_asked(criteria, from + 1)
            },
            _ => project_asked(criteria, from + 1),
        }
    }
}

/// The first project, from `from` on, whose id or display name is this one but for case.
pub open spec fn project_alike(projects: Seq<Project>, name: Seq<char>, from: int) -> Option<int>
    decreases projects.len() - from,
{
    if from < 0 || from >= projects.len() {
        None
    } else if ascii_lower_spec(projects[from].id@) == ascii_lower_spec(name) || ascii_lower_spec(
        projects[from].name@,
    ) == ascii_lower_spec(name) {
        Some(from)
    } else {
        project_alike(projects, name, from + 1)
    }
}

/// The project to scan.
pub open spec fn project_scanned(criteria: Seq<CriterionView>, projects: Seq<Project>) -> Option<
    int,
> {
    match project_asked(criteria, 0) {
        Some(name) => project_alike(projects, name, 0),
        None => None,
    }
}

fn asked_project(criteria: &[Criterion]) -> (name: Option<&str>)
    ensures
        match name {
            Some(name) => project_asked(criteria_view(criteria@), 0) == Some(name@),
            None => project_asked(criteria_view(criteria@), 0) is None,
        },
{
    let ghost all = criteria_view(criteria@);
    for i in 0..criteria.len()
        invariant
            all == criteria_view(criteria@),
            project_asked(all, 0) == project_asked(all, i as int),
    {
        assert(all[i as int] == criteria@[i as int]@);
        if criteria[i].axis == Axis::Project {
            if let Value::Strings(values) = &criteria[i].value {
                assert(views(values@).len() == values@.len());
                if values.len() == 1 {
                    assert(views(values@)[0] == values@[0]@);
                    return Some(values[0].as_str());
                }
            }
        }
    }
    None
}

/// The project a project criterion names, so the candidate load reads one project rather than the
/// whole constellation. `None` when the query does not pin a project, or names one that does not
/// exist, which the criterion itself then eliminates everything for.
pub fn winnow_project(criteria: &[Criterion], projects: &[Project]) -> (found: Option<usize>)
    ensures
        match found {
            Some(at) => project_scanned(criteria_view(criteria@), projects@) == Some(at as int)
                && at < projects@.len(),
            None => project_scanned(criteria_view(criteria@), projects@) is None,
        },
{
    match asked_project(criteria) {
        None => None,
        Some(name) => {
            for i in 0..projects.len()
                invariant
                    project_asked(criteria_view(criteria@), 0) == Some(name@),
                    project_alike(projects@, name@, 0) == project_alike(
                        projects@,
                        name@,
                        i as int,
                    ),
            {
                if same_ignoring_ascii_case(projects[i].id.as_str(), name)
                    || same_ignoring_ascii_case(projects[i].name.as_str(), name) {
                    return Some(i);
                }
            }
            None
        },
    }
}

/// The churn window that the criteria, from `from` on, name.
pub open spec fn window_asked(criteria: Seq<CriterionView>, from: int) -> int
    decreases criteria.len() - from,
{
    if from < 0 || from >= criteria.len() {
        CHURN_WINDOW_DAYS_DEFAULT as int
    } else if criteria[from].axis == Axis::Churn {
        criteria[from].window_days
    } else {
        window_asked(criteria, from + 1)
    }
}

/// The days over which churn is counted: the window the churn criterion names, or the default when
/// there is none, since ranking by churn still needs a window.
pub fn churn_window(criteria: &[Criterion]) -> (days: u32)
    ensures
        days == window_asked(criteria_view(criteria@), 0),
{
    let ghost all = criteria_view(criteria@);
    for i in 0..criteria.len()
        invariant
            all == criteria_view(criteria@),
            window_asked(all, 0) == window_asked(all, i as int),
    {
        assert(all[i as int] == criteria@[i as int]@);
        if criteria[i].axis == Axis::Churn {
            return criteria[i].window_days;
        }
    }
    CHURN_WINDOW_DAYS_DEFAULT
}

/// The second that so many days before another began, as far back as seconds are counted.
pub fn window_start(now_secs: i64, days: u32) -> (since: i64)
    ensures
        since == (if now_secs - days * SECONDS_PER_DAY < i64::MIN {
            i64::MIN as int
        } else {
            now_secs - days * SECONDS_PER_DAY
        }),
{
    let wide: i128 = now_secs as i128 - days as i128 * SECONDS_PER_DAY as i128;
    if wide < i64::MIN as i128 {
        i64::MIN
    } else {
        wide as i64
    }
}

/// The date that a criterion asks for changes since.
pub open spec fn date_of(criterion: CriterionView) -> Option<int> {
    match (criterion.axis, criterion.value) {
        (Axis::ChangedSince, ValueView::Date(epoch)) => Some(epoch),
        _ => None,
    }
}

/// The latest date that the first `count` criteria ask for changes since: what changed since that
/// one changed since all of them.
pub open spec fn date_asked(criteria: Seq<CriterionView>, count: int) -> Option<int>
    decreases count,
{
    if count <= 0 {
        None
    } else {
        match (date_asked(criteria, count - 1), date_of(criteria[count - 1])) {
            (Some(known), Some(epoch)) => Some(
                if epoch > known {
                    epoch
                } else {
                    known
                },
            ),
            (known, None) => known,
            (None, asked) => asked,
        }
    }
}

/// The date since which changed names are asked for, where a criterion asks for one: the latest,
/// since criteria are ANDed.
pub fn changed_since(criteria: &[Criterion]) -> (since: Option<i64>)
    ensures
        match since {
            Some(epoch) => date_asked(criteria_view(criteria@), criteria@.len() as int) == Some(
                epoch as int,
            ),
            None => date_asked(criteria_view(criteria@), criteria@.len() as int) is None,
        },
{
    let ghost all = criteria_view(criteria@);
    let mut since: Option<i64> = None;
    for i in 0..criteria.len()
        invariant
            all == criteria_view(criteria@),
            match since {
                Some(epoch) => date_asked(all, i as int) == Some(epoch as int),
                None => date_asked(all, i as int) is None,
            },
    {
        assert(all[i as int] == criteria@[i as int]@);
        if criteria[i].axis == Axis::ChangedSince {
            if let Value::Date(epoch) = &criteria[i].value {
                since = match since {
                    Some(known) => if *epoch > known {
                        Some(*epoch)
                    } else {
                        Some(known)
                    },
                    None => Some(*epoch),
                };
            }
        }
    }
    since
}

// ---------------------------------------------------------------------------
// Columns

/// Whether an axis reads a node column already in memory, and so costs nothing.
pub fn is_column_axis(axis: Axis) -> (column: bool)
    ensures
        column == (cost_of(axis) == Cost::Column),
{
    axis.cost() == Cost::Column
}

/// The lines a symbol spans.
pub open spec fn lines_spec(node: Node) -> int {
    if node.span.end_line >= node.span.start_line {
        node.span.end_line - node.span.start_line + 1
    } else {
        1
    }
}

fn lines(node: &Node) -> (count: i64)
    ensures
        count == lines_spec(*node),
{
    if node.span.end_line >= node.span.start_line {
        (node.span.end_line - node.span.start_line) as i64 + 1
    } else {
        1
    }
}

/// Some of the texts satisfies a string-valued criterion.
pub open spec fn any_matches(op: Op, needles: Seq<Seq<char>>, texts: Seq<Seq<char>>) -> bool {
    exists|k: int| 0 <= k < texts.len() && string_matches_spec(op, needles, #[trigger] texts[k])
}

fn any_text_matches(op: Op, needles: &[String], texts: &[String]) -> (matched: bool)
    ensures
        matched == any_matches(op, views(needles@), views(texts@)),
{
    let ghost all = views(texts@);
    assert(all.len() == texts@.len());
    for i in 0..texts.len()
        invariant
            all == views(texts@),
            all.len() == texts@.len(),
            forall|k: int|
                0 <= k < i ==> !string_matches_spec(op, views(needles@), #[trigger] all[k]),
    {
        if string_matches(op, needles, texts[i].as_str()) {
            assert(string_matches_spec(op, views(needles@), all[i as int]));
            return true;
        }
    }
    false
}

/// A node satisfies a column criterion.
pub open spec fn matches_column_spec(node: Node, criterion: CriterionView) -> bool {
    match (criterion.axis, criterion.value) {
        (Axis::Kind, ValueView::Kinds(kinds)) => kinds.contains(node.kind),
        (Axis::Language, ValueView::Languages(languages)) => languages.contains(node.language),
        (Axis::Project, ValueView::Strings(values)) => string_matches_spec(
            criterion.op,
            values,
            node.project_id@,
        ),
        (Axis::Name, ValueView::Strings(values)) => string_matches_spec(
            criterion.op,
            values,
            node.name@,
        ),
        (Axis::File, ValueView::Strings(values)) => string_matches_spec(
            criterion.op,
            values,
            node.file_path@,
        ),
        (Axis::Decorator, ValueView::Strings(values)) => any_matches(
            criterion.op,
            values,
            views(node.decorators@),
        ),
        (Axis::Lines, ValueView::Number(threshold)) => number_matches_spec(
            criterion.op,
            threshold,
            lines_spec(node),
        ),
        _ => false,
    }
}

fn has_kind(kinds: &[NodeKind], kind: NodeKind) -> (found: bool)
    ensures
        found == kinds@.contains(kind),
{
    for i in 0..kinds.len()
        invariant
            forall|k: int| 0 <= k < i ==> #[trigger] kinds@[k] != kind,
    {
        if kinds[i] == kind {
            assert(kinds@[i as int] == kind);
            return true;
        }
    }
    false
}

fn has_language(languages: &[Language], language: Language) -> (found: bool)
    ensures
        found == languages@.contains(language),
{
    for i in 0..languages.len()
        invariant
            forall|k: int| 0 <= k < i ==> #[trigger] languages@[k] != language,
    {
        if languages[i] == language {
            assert(languages@[i as int] == language);
            return true;
        }
    }
    false
}

/// Whether a candidate satisfies a column criterion.
pub fn matches_column(node: &Node, criterion: &Criterion) -> (matched: bool)
    ensures
        matched == matches_column_spec(*node, criterion@),
{
    match (criterion.axis, &criterion.value) {
        (Axis::Kind, Value::Kinds(kinds)) => has_kind(kinds.as_slice(), node.kind),
        (Axis::Language, Value::Languages(languages)) => has_language(
            languages.as_slice(),
            node.language,
        ),
        (Axis::Project, Value::Strings(values)) => string_matches(
            criterion.op,
            values.as_slice(),
            node.project_id.as_str(),
        ),
        (Axis::Name, Value::Strings(values)) => string_matches(
            criterion.op,
            values.as_slice(),
            node.name.as_str(),
        ),
        (Axis::File, Value::Strings(values)) => string_matches(
            criterion.op,
            values.as_slice(),
            node.file_path.as_str(),
        ),
        (Axis::Decorator, Value::Strings(values)) => any_text_matches(
            criterion.op,
            values.as_slice(),
            node.decorators.as_slice(),
        ),
        (Axis::Lines, Value::Number(threshold)) => number_matches(
            criterion.op,
            *threshold,
            lines(node),
        ),
        _ => false,
    }
}

/// Candidates under evaluation: the places of those left, and how many survived each criterion.
#[verifier::ext_equal]
pub struct Field {
    pub places: Seq<usize>,
    pub cascade: Seq<(Seq<char>, int)>,
}

/// Those of the first `count` places whose node satisfies a column criterion.
pub open spec fn column_kept(
    nodes: Seq<Node>,
    places: Seq<usize>,
    criterion: CriterionView,
    count: int,
) -> Seq<usize>
    decreases count,
{
    if count <= 0 {
        Seq::empty()
    } else if matches_column_spec(nodes[places[count - 1] as int], criterion) {
        column_kept(nodes, places, criterion, count - 1).push(places[count - 1])
    } else {
        column_kept(nodes, places, criterion, count - 1)
    }
}

/// The candidates a scan starts from.
pub open spec fn scanned_places(nodes: Seq<Node>) -> Seq<usize> {
    counting(
        if nodes.len() > WINNOW_CANDIDATES_MAX {
            WINNOW_CANDIDATES_MAX as nat
        } else {
            nodes.len()
        },
    )
}

/// The candidates left after the column criteria among the first `count`.
pub open spec fn column_field(
    nodes: Seq<Node>,
    criteria: Seq<CriterionView>,
    count: int,
) -> Field
    decreases count,
{
    if count <= 0 {
        Field { places: scanned_places(nodes), cascade: Seq::empty() }
    } else {
        let before = column_field(nodes, criteria, count - 1);
        let criterion = criteria[count - 1];
        if cost_of(criterion.axis) == Cost::Column {
            let kept = column_kept(nodes, before.places, criterion, before.places.len() as int);
            Field {
                places: kept,
                cascade: before.cascade.push((criterion_text(criterion), kept.len() as int)),
            }
        } else {
            before
        }
    }
}

/// The candidates left after every column criterion.
pub open spec fn column_result(nodes: Seq<Node>, criteria: Seq<CriterionView>) -> Field {
    column_field(nodes, criteria, criteria.len() as int)
}

/// A criterion described, and how many candidates survived it.
pub struct CascadeRow {
    pub criterion: String,
    pub surviving: usize,
}

/// Cascade rows as values.
pub open spec fn cascade_view(cascade: Seq<CascadeRow>) -> Seq<(Seq<char>, int)> {
    cascade.map_values(|row: CascadeRow| (row.criterion@, row.surviving as int))
}

fn filter_columns(nodes: &[Node], criteria: &[Criterion]) -> (out: (Vec<usize>, Vec<CascadeRow>))
    ensures
        out.0@ == column_result(nodes@, criteria_view(criteria@)).places,
        cascade_view(out.1@) == column_result(nodes@, criteria_view(criteria@)).cascade,
        forall|k: int| 0 <= k < out.0@.len() ==> #[trigger] out.0@[k] < nodes@.len(),
{
    let ghost all = criteria_view(criteria@);
    let start: usize = if nodes.len() > WINNOW_CANDIDATES_MAX {
        WINNOW_CANDIDATES_MAX
    } else {
        nodes.len()
    };
    let mut places: Vec<usize> = Vec::new();
    for i in 0..start
        invariant
            start <= nodes@.len(),
            places@.len() == i,
            forall|k: int| 0 <= k < i ==> #[trigger] places@[k] == k,
    {
        places.push(i);
    }
    assert(places@ =~= scanned_places(nodes@));
    let mut cascade: Vec<CascadeRow> = Vec::new();
    assert(cascade_view(cascade@) =~= Seq::empty());
    for i in 0..criteria.len()
        invariant
            all == criteria_view(criteria@),
            places@ == column_field(nodes@, all, i as int).places,
            cascade_view(cascade@) == column_field(nodes@, all, i as int).cascade,
            forall|k: int| 0 <= k < places@.len() ==> #[trigger] places@[k] < nodes@.len(),
    {
        assert(all[i as int] == criteria@[i as int]@);
        let criterion = &criteria[i];
        if is_column_axis(criterion.axis) {
            let mut kept: Vec<usize> = Vec::new();
            for j in 0..places.len()
                invariant
                    forall|k: int| 0 <= k < places@.len() ==> #[trigger] places@[k] < nodes@.len(),
                    kept@ == column_kept(nodes@, places@, criterion@, j as int),
                    forall|k: int| 0 <= k < kept@.len() ==> #[trigger] kept@[k] < nodes@.len(),
            {
                assert(places@[j as int] < nodes@.len());
                if matches_column(&nodes[places[j]], criterion) {
                    kept.push(places[j]);
                }
            }
            places = kept;
            let ghost before = cascade@;
            let row = CascadeRow { criterion: criterion.describe(), surviving: places.len() };
            cascade.push(row);
            assert(cascade_view(cascade@) =~= cascade_view(before).push(
                (row.criterion@, row.surviving as int),
            ));
        }
    }
    (places, cascade)
}

/// The candidates that the indexed node columns leave, of the first [`WINNOW_CANDIDATES_MAX`]
/// nodes: what the derived facts are read for.
pub fn column_survivors(nodes: &[Node], criteria: &[Criterion]) -> (places: Vec<usize>)
    ensures
        places@ == column_result(nodes@, criteria_view(criteria@)).places,
        forall|k: int| 0 <= k < places@.len() ==> #[trigger] places@[k] < nodes@.len(),
{
    filter_columns(nodes, criteria).0
}

// ---------------------------------------------------------------------------
// Derived facts

/// A reference to a candidate, and whether it is a test that covers it.
pub struct IncomingRef {
    pub target_id: String,
    pub source_id: String,
    pub source_name: String,
    pub kind: EdgeKind,
    pub covering: bool,
}

/// A reference that a candidate makes.
pub struct OutgoingRef {
    pub source_id: String,
    pub kind: EdgeKind,
    pub target_name: String,
}

/// The membership of a candidate in a flow, with the place of the flow's criticality in its order.
pub struct FlowMembership {
    pub node_id: String,
    pub name: String,
    pub criticality: u64,
}

/// How many commits touched a file.
pub struct FileChurn {
    pub project_id: String,
    pub path: String,
    pub count: u32,
}

/// What was read in bulk for a set of candidates.
pub struct BulkFacts {
    pub incoming: Vec<IncomingRef>,
    pub outgoing: Vec<OutgoingRef>,
    pub flows: Vec<FlowMembership>,
    pub churn: Vec<FileChurn>,
    pub changed: Vec<String>,
}

/// The derived facts that a criterion may test of one candidate.
pub struct Facts {
    pub caller_count: u32,
    pub caller_names: Vec<String>,
    pub covered: bool,
    pub outgoing: Vec<(EdgeKind, String)>,
    pub criticality: u64,
    pub flow_names: Vec<String>,
    pub churn: u32,
    pub changed_since: bool,
}

/// The derived facts of one candidate as values.
#[verifier::ext_equal]
pub struct FactsView {
    pub caller_count: int,
    pub caller_names: Seq<Seq<char>>,
    pub covered: bool,
    pub outgoing: Seq<(EdgeKind, Seq<char>)>,
    pub criticality: int,
    pub flow_names: Seq<Seq<char>>,
    pub churn: int,
    pub changed_since: bool,
}

/// References as values.
pub open spec fn pairs_view(pairs: Seq<(EdgeKind, String)>) -> Seq<(EdgeKind, Seq<char>)> {
    pairs.map_values(|pair: (EdgeKind, String)| (pair.0, pair.1@))
}

impl View for Facts {
    type V = FactsView;

    open spec fn view(&self) -> FactsView {
        FactsView {
            caller_count: self.caller_count as int,
            caller_names: views(self.caller_names@),
            covered: self.covered,
            outgoing: pairs_view(self.outgoing@),
            criticality: self.criticality as int,
            flow_names: views(self.flow_names@),
            churn: self.churn as int,
            changed_since: self.changed_since,
        }
    }
}

/// The derived facts of candidates as values.
pub open spec fn facts_view(facts: Seq<Facts>) -> Seq<FactsView> {
    facts.map_values(|fact: Facts| fact@)
}

/// The places, among the first `count` texts, at which this one stands.
pub open spec fn places_of(texts: Seq<Seq<char>>, text: Seq<char>, count: int) -> Seq<usize>
    decreases count,
{
    if count <= 0 {
        Seq::empty()
    } else if texts[count - 1] == text {
        places_of(texts, text, count - 1).push((count - 1) as usize)
    } else {
        places_of(texts, text, count - 1)
    }
}

/// The ids that the incoming references lead to.
pub open spec fn targets_of(refs: Seq<IncomingRef>) -> Seq<Seq<char>> {
    refs.map_values(|reference: IncomingRef| reference.target_id@)
}

/// The ids that the outgoing references come from.
pub open spec fn sources_of(refs: Seq<OutgoingRef>) -> Seq<Seq<char>> {
    refs.map_values(|reference: OutgoingRef| reference.source_id@)
}

/// The ids of the members of flows.
pub open spec fn members_of(flows: Seq<FlowMembership>) -> Seq<Seq<char>> {
    flows.map_values(|flow: FlowMembership| flow.node_id@)
}

/// The distinct callers among the references at the first `count` places.
pub open spec fn distinct_callers(refs: Seq<IncomingRef>, places: Seq<usize>, count: int) -> Seq<
    Seq<char>,
>
    decreases count,
{
    if count <= 0 {
        Seq::empty()
    } else {
        let before = distinct_callers(refs, places, count - 1);
        let reference = refs[places[count - 1] as int];
        if reference.kind == EdgeKind::Contains || key_at(before, reference.source_id@, 0) is Some {
            before
        } else {
            before.push(reference.source_id@)
        }
    }
}

/// The names of the callers among the references at the first `count` places.
pub open spec fn caller_names(refs: Seq<IncomingRef>, places: Seq<usize>, count: int) -> Seq<
    Seq<char>,
>
    decreases count,
{
    if count <= 0 {
        Seq::empty()
    } else if refs[places[count - 1] as int].kind == EdgeKind::Contains {
        caller_names(refs, places, count - 1)
    } else {
        caller_names(refs, places, count - 1).push(refs[places[count - 1] as int].source_name@)
    }
}

/// Some reference at these places is a covering test.
pub open spec fn any_covering(refs: Seq<IncomingRef>, places: Seq<usize>) -> bool {
    exists|k: int| 0 <= k < places.len() && refs[(#[trigger] places[k]) as int].covering
}

/// The references at these places, by kind and name.
pub open spec fn references_at(refs: Seq<OutgoingRef>, places: Seq<usize>) -> Seq<
    (EdgeKind, Seq<char>),
> {
    places.map_values(|p: usize| (refs[p as int].kind, refs[p as int].target_name@))
}

/// The names of the flows at these places.
pub open spec fn flow_names_at(flows: Seq<FlowMembership>, places: Seq<usize>) -> Seq<Seq<char>> {
    places.map_values(|p: usize| flows[p as int].name@)
}

/// The highest criticality of the flows at the first `count` places.
pub open spec fn highest(flows: Seq<FlowMembership>, places: Seq<usize>, count: int) -> u64
    decreases count,
{
    if count <= 0 {
        0
    } else {
        let before = highest(flows, places, count - 1);
        let criticality = flows[places[count - 1] as int].criticality;
        if criticality > before {
            criticality
        } else {
            before
        }
    }
}

/// The commits that touched a file, by the last count for it.
pub open spec fn churn_for(churn: Seq<FileChurn>, key: Seq<char>) -> u32 {
    match last_at(churn_keys(churn), key, churn.len() as int) {
        Some(at) => churn[at].count,
        None => 0,
    }
}

/// The derived facts of a candidate, by its id, its file and its qualified name.
pub open spec fn facts_of(node: Node, bulk: BulkFacts) -> FactsView {
    let incoming = places_of(
        targets_of(bulk.incoming@),
        node.id@,
        bulk.incoming@.len() as int,
    );
    let outgoing = places_of(
        sources_of(bulk.outgoing@),
        node.id@,
        bulk.outgoing@.len() as int,
    );
    let flows = places_of(members_of(bulk.flows@), node.id@, bulk.flows@.len() as int);
    FactsView {
        caller_count: count_u32(
            distinct_callers(bulk.incoming@, incoming, incoming.len() as int).len() as int,
        ),
        caller_names: caller_names(bulk.incoming@, incoming, incoming.len() as int),
        covered: any_covering(bulk.incoming@, incoming) || node.in_test_file,
        outgoing: references_at(bulk.outgoing@, outgoing),
        criticality: highest(bulk.flows@, flows, flows.len() as int) as int,
        flow_names: flow_names_at(bulk.flows@, flows),
        churn: churn_for(bulk.churn@, file_key_spec(node.project_id@, node.file_path@)) as int,
        changed_since: text_set(views(bulk.changed@), bulk.changed@.len() as int).contains(
            node.qualified_name@,
        ),
    }
}

/// The places of each key among the first `count` texts.
spec fn buckets_hold(
    keys: Seq<Seq<char>>,
    texts: Seq<Seq<char>>,
    buckets: Seq<Vec<usize>>,
    count: int,
) -> bool {
    &&& buckets.len() == keys.len()
    &&& forall|k: int|
        0 <= k < keys.len() ==> (#[trigger] buckets[k])@ == places_of(texts, keys[k], count)
}

fn empty_buckets(count: usize) -> (buckets: Vec<Vec<usize>>)
    ensures
        buckets@.len() == count,
        forall|k: int| 0 <= k < count ==> (#[trigger] buckets@[k])@ == Seq::<usize>::empty(),
{
    let mut buckets: Vec<Vec<usize>> = Vec::new();
    for i in 0..count
        invariant
            buckets@.len() == i,
            forall|k: int| 0 <= k < i ==> (#[trigger] buckets@[k])@ == Seq::<usize>::empty(),
    {
        buckets.push(Vec::new());
    }
    buckets
}

spec fn keys_distinct(keys: Seq<Seq<char>>) -> bool {
    forall|i: int, j: int| 0 <= i < j < keys.len() ==> #[trigger] keys[i] != #[trigger] keys[j]
}

fn fill(
    index: &KeyIndex,
    text: &str,
    at: usize,
    buckets: &mut Vec<Vec<usize>>,
    Ghost(texts): Ghost<Seq<Seq<char>>>,
)
    requires
        index.wf(),
        keys_distinct(index@),
        at < texts.len(),
        texts[at as int] == text@,
        buckets_hold(index@, texts, old(buckets)@, at as int),
    ensures
        buckets_hold(index@, texts, final(buckets)@, at + 1),
{
    proof {
        lemma_key_at(index@, text@, 0);
    }
    if let Some(k) = index.find(text) {
        let ghost before = buckets@;
        let mut bucket: Vec<usize> = Vec::new();
        std::mem::swap(&mut bucket, &mut buckets[k]);
        bucket.push(at);
        buckets.set(k, bucket);
        assert forall|j: int| 0 <= j < index@.len() implies (#[trigger] buckets@[j])@ == places_of(
            texts,
            index@[j],
            at + 1,
        ) by {
            assert(before[j]@ == places_of(texts, index@[j], at as int));
            if j != k {
                assert(index@[j] != index@[k as int]);
            }
        }
    } else {
        assert forall|j: int| 0 <= j < index@.len() implies (#[trigger] buckets@[j])@ == places_of(
            texts,
            index@[j],
            at + 1,
        ) by {
            assert(index@[j] != text@);
        }
    }
}

/// The ids of the nodes at these places.
pub open spec fn ids_at(nodes: Seq<Node>, places: Seq<usize>) -> Seq<Seq<char>> {
    places.map_values(|p: usize| nodes[p as int].id@)
}

/// The keys of the files.
pub open spec fn churn_keys(churn: Seq<FileChurn>) -> Seq<Seq<char>> {
    churn.map_values(|row: FileChurn| file_key_spec(row.project_id@, row.path@))
}

fn index_churn(churn: &[FileChurn]) -> (places: PlaceIndex)
    ensures
        places.wf(),
        places@ == churn_keys(churn@),
{
    let ghost keys = churn_keys(churn@);
    let mut places = PlaceIndex::new();
    assert(places@ =~= keys.take(0));
    for i in 0..churn.len()
        invariant
            keys == churn_keys(churn@),
            places.wf(),
            places@ == keys.take(i as int),
    {
        assert(churn.len() == keys.len());
        let key = file_key(churn[i].project_id.as_str(), churn[i].path.as_str());
        places.push(key.as_str());
        assert(keys.take(i + 1) =~= keys.take(i as int).push(keys[i as int]));
    }
    assert(keys.take(churn@.len() as int) =~= keys);
    places
}

fn look_up_churn(places: &PlaceIndex, churn: &[FileChurn], node: &Node) -> (count: u32)
    requires
        places.wf(),
        places@ == churn_keys(churn@),
    ensures
        count == churn_for(churn@, file_key_spec(node.project_id@, node.file_path@)),
{
    let key = file_key(node.project_id.as_str(), node.file_path.as_str());
    match places.get(key.as_str()) {
        Some(at) => churn[at].count,
        None => 0,
    }
}

proof fn lemma_places_valid(texts: Seq<Seq<char>>, text: Seq<char>, count: int)
    requires
        0 <= count <= texts.len(),
        texts.len() <= usize::MAX,
    ensures
        forall|k: int|
            0 <= k < places_of(texts, text, count).len() ==> #[trigger] places_of(
                texts,
                text,
                count,
            )[k] < count,
        places_of(texts, text, count).len() <= count,
    decreases count,
{
    if count > 0 {
        lemma_places_valid(texts, text, count - 1);
    }
}

fn callers_at(refs: &[IncomingRef], places: &[usize]) -> (out: (u32, Vec<String>, bool))
    requires
        forall|k: int| 0 <= k < places@.len() ==> #[trigger] places@[k] < refs@.len(),
    ensures
        out.0 == count_u32(distinct_callers(refs@, places@, places@.len() as int).len() as int),
        views(out.1@) == caller_names(refs@, places@, places@.len() as int),
        out.2 == any_covering(refs@, places@),
{
    let mut callers = KeyIndex::new();
    let mut names: Vec<String> = Vec::new();
    let mut covered = false;
    assert(views(names@) =~= Seq::empty());
    for i in 0..places.len()
        invariant
            forall|k: int| 0 <= k < places@.len() ==> #[trigger] places@[k] < refs@.len(),
            callers.wf(),
            callers@ == distinct_callers(refs@, places@, i as int),
            callers@.len() <= i,
            views(names@) == caller_names(refs@, places@, i as int),
            covered == exists|k: int| 0 <= k < i && refs@[(#[trigger] places@[k]) as int].covering,
    {
        assert(places@[i as int] < refs@.len());
        let reference = &refs[places[i]];
        if reference.covering {
            covered = true;
        }
        if reference.kind != EdgeKind::Contains {
            let source = reference.source_id.as_str();
            if callers.find(source).is_none() {
                callers.add(source);
            }
            let ghost before = names@;
            names.push(copy(reference.source_name.as_str()));
            assert(views(names@) =~= views(before).push(reference.source_name@));
        }
    }
    let count: u32 = if callers.len() > u32::MAX as usize {
        u32::MAX
    } else {
        callers.len() as u32
    };
    (count, names, covered)
}

fn references(refs: &[OutgoingRef], places: &[usize]) -> (pairs: Vec<(EdgeKind, String)>)
    requires
        forall|k: int| 0 <= k < places@.len() ==> #[trigger] places@[k] < refs@.len(),
    ensures
        pairs_view(pairs@) == references_at(refs@, places@),
{
    let ghost wanted = references_at(refs@, places@);
    let mut pairs: Vec<(EdgeKind, String)> = Vec::new();
    assert(pairs_view(pairs@) =~= wanted.take(0));
    for i in 0..places.len()
        invariant
            forall|k: int| 0 <= k < places@.len() ==> #[trigger] places@[k] < refs@.len(),
            wanted == references_at(refs@, places@),
            pairs_view(pairs@) == wanted.take(i as int),
    {
        let ghost before = pairs@;
        assert(places@[i as int] < refs@.len());
        let reference = &refs[places[i]];
        pairs.push((reference.kind, copy(reference.target_name.as_str())));
        assert(pairs_view(pairs@) =~= pairs_view(before).push(wanted[i as int]));
        assert(wanted.take(i + 1) =~= wanted.take(i as int).push(wanted[i as int]));
    }
    assert(wanted.take(places@.len() as int) =~= wanted);
    pairs
}

fn memberships(flows: &[FlowMembership], places: &[usize]) -> (out: (Vec<String>, u64))
    requires
        forall|k: int| 0 <= k < places@.len() ==> #[trigger] places@[k] < flows@.len(),
    ensures
        views(out.0@) == flow_names_at(flows@, places@),
        out.1 == highest(flows@, places@, places@.len() as int),
{
    let ghost wanted = flow_names_at(flows@, places@);
    let mut names: Vec<String> = Vec::new();
    let mut top: u64 = 0;
    assert(views(names@) =~= wanted.take(0));
    for i in 0..places.len()
        invariant
            forall|k: int| 0 <= k < places@.len() ==> #[trigger] places@[k] < flows@.len(),
            wanted == flow_names_at(flows@, places@),
            views(names@) == wanted.take(i as int),
            top == highest(flows@, places@, i as int),
    {
        let ghost before = names@;
        assert(places@[i as int] < flows@.len());
        let flow = &flows[places[i]];
        names.push(copy(flow.name.as_str()));
        if flow.criticality > top {
            top = flow.criticality;
        }
        assert(views(names@) =~= views(before).push(wanted[i as int]));
        assert(wanted.take(i + 1) =~= wanted.take(i as int).push(wanted[i as int]));
    }
    assert(wanted.take(places@.len() as int) =~= wanted);
    (names, top)
}

/// The derived facts of the candidates that the columns left: one pass over what was read in bulk
/// rather than one look per candidate.
pub fn load_winnow_facts(nodes: &[Node], survivors: &[usize], bulk: &BulkFacts) -> (facts: Vec<
    Facts,
>)
    requires
        forall|k: int| 0 <= k < survivors@.len() ==> #[trigger] survivors@[k] < nodes@.len(),
    ensures
        facts@.len() == survivors@.len(),
        forall|i: int|
            0 <= i < facts@.len() ==> (#[trigger] facts@[i])@ == facts_of(
                nodes@[survivors@[i] as int],
                *bulk,
            ),
{
    let ghost ids = ids_at(nodes@, survivors@);
    let mut index = KeyIndex::new();
    let mut key_of: Vec<usize> = Vec::new();
    for i in 0..survivors.len()
        invariant
            forall|k: int| 0 <= k < survivors@.len() ==> #[trigger] survivors@[k] < nodes@.len(),
            ids == ids_at(nodes@, survivors@),
            index.wf(),
            index@ == distinct(ids, i as int),
            key_of@.len() == i,
            forall|k: int|
                0 <= k < i ==> #[trigger] key_of@[k] < index@.len() && index@[key_of@[k] as int]
                    == ids[k],
    {
        assert(survivors@[i as int] < nodes@.len());
        let id = nodes[survivors[i]].id.as_str();
        assert(ids[i as int] == id@);
        proof {
            lemma_distinct(ids, i as int);
            lemma_key_at(index@, id@, 0);
        }
        match index.find(id) {
            Some(at) => {
                key_of.push(at);
            },
            None => {
                let at: usize = index.len();
                index.add(id);
                key_of.push(at);
            },
        }
    }
    proof {
        lemma_distinct(ids, ids.len() as int);
    }
    assert(keys_distinct(index@));
    let ghost targets = targets_of(bulk.incoming@);
    let mut incoming = empty_buckets(index.len());
    for i in 0..bulk.incoming.len()
        invariant
            index.wf(),
            keys_distinct(index@),
            targets == targets_of(bulk.incoming@),
            buckets_hold(index@, targets, incoming@, i as int),
    {
        assert(targets[i as int] == bulk.incoming@[i as int].target_id@);
        fill(&index, bulk.incoming[i].target_id.as_str(), i, &mut incoming, Ghost(targets));
    }
    let ghost sources = sources_of(bulk.outgoing@);
    let mut outgoing = empty_buckets(index.len());
    for i in 0..bulk.outgoing.len()
        invariant
            index.wf(),
            keys_distinct(index@),
            sources == sources_of(bulk.outgoing@),
            buckets_hold(index@, sources, outgoing@, i as int),
    {
        assert(sources[i as int] == bulk.outgoing@[i as int].source_id@);
        fill(&index, bulk.outgoing[i].source_id.as_str(), i, &mut outgoing, Ghost(sources));
    }
    let ghost members = members_of(bulk.flows@);
    let mut flows = empty_buckets(index.len());
    for i in 0..bulk.flows.len()
        invariant
            index.wf(),
            keys_distinct(index@),
            members == members_of(bulk.flows@),
            buckets_hold(index@, members, flows@, i as int),
    {
        assert(members[i as int] == bulk.flows@[i as int].node_id@);
        fill(&index, bulk.flows[i].node_id.as_str(), i, &mut flows, Ghost(members));
    }
    let churn = index_churn(bulk.churn.as_slice());
    let mut changed = texts_new();
    for i in 0..bulk.changed.len()
        invariant
            texts_held(changed) == text_set(views(bulk.changed@), i as int),
    {
        texts_insert(&mut changed, bulk.changed[i].as_str());
    }
    let mut facts: Vec<Facts> = Vec::new();
    for i in 0..survivors.len()
        invariant
            forall|k: int| 0 <= k < survivors@.len() ==> #[trigger] survivors@[k] < nodes@.len(),
            ids == ids_at(nodes@, survivors@),
            key_of@.len() == survivors@.len(),
            forall|k: int|
                0 <= k < survivors@.len() ==> #[trigger] key_of@[k] < index@.len()
                    && index@[key_of@[k] as int] == ids[k],
            targets == targets_of(bulk.incoming@),
            sources == sources_of(bulk.outgoing@),
            members == members_of(bulk.flows@),
            buckets_hold(index@, targets, incoming@, bulk.incoming@.len() as int),
            buckets_hold(index@, sources, outgoing@, bulk.outgoing@.len() as int),
            buckets_hold(index@, members, flows@, bulk.flows@.len() as int),
            churn.wf(),
            churn@ == churn_keys(bulk.churn@),
            texts_held(changed) == text_set(views(bulk.changed@), bulk.changed@.len() as int),
            facts@.len() == i,
            forall|k: int|
                0 <= k < i ==> (#[trigger] facts@[k])@ == facts_of(
                    nodes@[survivors@[k] as int],
                    *bulk,
                ),
    {
        assert(survivors@[i as int] < nodes@.len());
        let node = &nodes[survivors[i]];
        let at: usize = key_of[i];
        assert(index@[at as int] == ids[i as int]);
        proof {
            assert(bulk.incoming.len() == targets.len());
            assert(bulk.outgoing.len() == sources.len());
            assert(bulk.flows.len() == members.len());
            lemma_places_valid(targets, node.id@, bulk.incoming@.len() as int);
            lemma_places_valid(sources, node.id@, bulk.outgoing@.len() as int);
            lemma_places_valid(members, node.id@, bulk.flows@.len() as int);
        }
        let (caller_count, caller_names, covering) = callers_at(
            bulk.incoming.as_slice(),
            incoming[at].as_slice(),
        );
        let outgoing_refs = references(bulk.outgoing.as_slice(), outgoing[at].as_slice());
        let (flow_names, criticality) = memberships(bulk.flows.as_slice(), flows[at].as_slice());
        let fact = Facts {
            caller_count,
            caller_names,
            covered: covering || node.in_test_file,
            outgoing: outgoing_refs,
            criticality,
            flow_names,
            churn: look_up_churn(&churn, bulk.churn.as_slice(), node),
            changed_since: texts_contains(&changed, node.qualified_name.as_str()),
        };
        assert(fact@ =~= facts_of(*node, *bulk));
        facts.push(fact);
    }
    facts
}

// ---------------------------------------------------------------------------
// Derived criteria

/// A reference of this kind has a name that satisfies a string-valued criterion.
pub open spec fn any_target_matches(
    outgoing: Seq<(EdgeKind, Seq<char>)>,
    kind: EdgeKind,
    op: Op,
    needles: Seq<Seq<char>>,
) -> bool {
    exists|k: int|
        0 <= k < outgoing.len() && (#[trigger] outgoing[k]).0 == kind && string_matches_spec(
            op,
            needles,
            outgoing[k].1,
        )
}

fn target_matches(
    outgoing: &[(EdgeKind, String)],
    kind: EdgeKind,
    op: Op,
    needles: &[String],
) -> (matched: bool)
    ensures
        matched == any_target_matches(pairs_view(outgoing@), kind, op, views(needles@)),
{
    let ghost all = pairs_view(outgoing@);
    for i in 0..outgoing.len()
        invariant
            all == pairs_view(outgoing@),
            forall|k: int|
                0 <= k < i ==> !((#[trigger] all[k]).0 == kind && string_matches_spec(
                    op,
                    views(needles@),
                    all[k].1,
                )),
    {
        assert(all[i as int] == (outgoing@[i as int].0, outgoing@[i as int].1@));
        if outgoing[i].0 == kind && string_matches(op, needles, outgoing[i].1.as_str()) {
            return true;
        }
    }
    false
}

/// A candidate satisfies a derived or edge criterion.
pub open spec fn matches_derived_spec(
    facts: FactsView,
    risk: int,
    criterion: CriterionView,
) -> bool {
    let op = criterion.op;
    match (criterion.axis, criterion.value) {
        (Axis::Callers, ValueView::Number(threshold)) => number_matches_spec(
            op,
            threshold,
            facts.caller_count,
        ),
        (Axis::Churn, ValueView::Number(threshold)) => number_matches_spec(
            op,
            threshold,
            facts.churn,
        ),
        (Axis::Risk, ValueView::Fraction(threshold, _)) => fraction_matches_spec(
            op,
            threshold,
            risk,
        ),
        (Axis::Tested, ValueView::Truth(expected)) => facts.covered == expected,
        (Axis::ChangedSince, ValueView::Date(_)) => facts.changed_since,
        (Axis::InFlow, ValueView::Truth(expected)) => (facts.flow_names.len() > 0) == expected,
        (Axis::InFlow, ValueView::Strings(values)) => any_matches(op, values, facts.flow_names),
        (Axis::CalledBy, ValueView::Strings(values)) => any_matches(
            op,
            values,
            facts.caller_names,
        ),
        (Axis::Calls, ValueView::Strings(values)) => any_target_matches(
            facts.outgoing,
            EdgeKind::Calls,
            op,
            values,
        ),
        (Axis::Extends, ValueView::Strings(values)) => any_target_matches(
            facts.outgoing,
            EdgeKind::Extends,
            op,
            values,
        ),
        (Axis::RelatesTo, ValueView::Strings(values)) => any_target_matches(
            facts.outgoing,
            EdgeKind::RelatesTo,
            op,
            values,
        ),
        (Axis::Renders, ValueView::Strings(values)) => any_target_matches(
            facts.outgoing,
            EdgeKind::Renders,
            op,
            values,
        ),
        _ => false,
    }
}

/// Whether a candidate satisfies a derived or edge criterion. `risk` is the place of its review
/// risk in the order of all fractions.
pub fn matches_derived(facts: &Facts, risk: u64, criterion: &Criterion) -> (matched: bool)
    ensures
        matched == matches_derived_spec(facts@, risk as int, criterion@),
{
    let op = criterion.op;
    match (criterion.axis, &criterion.value) {
        (Axis::Callers, Value::Number(threshold)) => number_matches(
            op,
            *threshold,
            facts.caller_count as i64,
        ),
        (Axis::Churn, Value::Number(threshold)) => number_matches(
            op,
            *threshold,
            facts.churn as i64,
        ),
        (Axis::Risk, Value::Fraction(threshold)) => fraction_matches(op, threshold.order, risk),
        (Axis::Tested, Value::Truth(expected)) => facts.covered == *expected,
        (Axis::ChangedSince, Value::Date(_)) => facts.changed_since,
        (Axis::InFlow, Value::Truth(expected)) => {
            assert(facts@.flow_names.len() == facts.flow_names@.len());
            (facts.flow_names.len() > 0) == *expected
        },
        (Axis::InFlow, Value::Strings(values)) => any_text_matches(
            op,
            values.as_slice(),
            facts.flow_names.as_slice(),
        ),
        (Axis::CalledBy, Value::Strings(values)) => any_text_matches(
            op,
            values.as_slice(),
            facts.caller_names.as_slice(),
        ),
        (Axis::Calls, Value::Strings(values)) => target_matches(
            facts.outgoing.as_slice(),
            EdgeKind::Calls,
            op,
            values.as_slice(),
        ),
        (Axis::Extends, Value::Strings(values)) => target_matches(
            facts.outgoing.as_slice(),
            EdgeKind::Extends,
            op,
            values.as_slice(),
        ),
        (Axis::RelatesTo, Value::Strings(values)) => target_matches(
            facts.outgoing.as_slice(),
            EdgeKind::RelatesTo,
            op,
            values.as_slice(),
        ),
        (Axis::Renders, Value::Strings(values)) => target_matches(
            facts.outgoing.as_slice(),
            EdgeKind::Renders,
            op,
            values.as_slice(),
        ),
        _ => false,
    }
}

/// Those of the first `count` places whose facts satisfy a derived criterion.
pub open spec fn derived_kept(
    facts: Seq<FactsView>,
    risks: Seq<Fraction>,
    places: Seq<usize>,
    criterion: CriterionView,
    count: int,
) -> Seq<usize>
    decreases count,
{
    if count <= 0 {
        Seq::empty()
    } else {
        let place = places[count - 1];
        let before = derived_kept(facts, risks, places, criterion, count - 1);
        if matches_derived_spec(facts[place as int], risks[place as int].order as int, criterion) {
            before.push(place)
        } else {
            before
        }
    }
}

/// The candidates left after the derived criteria among the first `count`, by their places among
/// those that the columns left.
pub open spec fn derived_field(
    columns: Field,
    facts: Seq<FactsView>,
    risks: Seq<Fraction>,
    criteria: Seq<CriterionView>,
    count: int,
) -> Field
    decreases count,
{
    if count <= 0 {
        Field { places: counting(columns.places.len()), cascade: columns.cascade }
    } else {
        let before = derived_field(columns, facts, risks, criteria, count - 1);
        let criterion = criteria[count - 1];
        if cost_of(criterion.axis) == Cost::Column {
            before
        } else {
            let kept = derived_kept(
                facts,
                risks,
                before.places,
                criterion,
                before.places.len() as int,
            );
            Field {
                places: kept,
                cascade: before.cascade.push((criterion_text(criterion), kept.len() as int)),
            }
        }
    }
}

/// The order of results: by the rank asked for, ties broken by the place in the source so two runs
/// over one index agree.
pub open spec fn rank_key(
    node: Node,
    facts: FactsView,
    risk: Fraction,
    rank: Rank,
) -> Seq<PartView> {
    seq![
        match rank {
            Rank::Callers => PartView::Number(-facts.caller_count),
            Rank::Churn => PartView::Number(-facts.churn),
            Rank::Criticality => PartView::Number(-facts.criticality),
            Rank::Lines => PartView::Number(-lines_spec(node)),
            Rank::Name => PartView::Text(node.name@),
            Rank::Risk => PartView::Number(-(risk.order as int)),
        },
        PartView::Text(node.file_path@),
        PartView::Number(node.span.start_line as int),
    ]
}

/// What a search ended with: the nodes, which of them the columns left, and what was read of those.
pub struct Evaluated<'a> {
    pub nodes: &'a [Node],
    pub facts: &'a [Facts],
    pub risks: &'a [Fraction],
}

/// The results in order, by their places among those that the columns left.
pub open spec fn ranked_places(
    nodes: Seq<Node>,
    survivors: Seq<usize>,
    facts: Seq<FactsView>,
    risks: Seq<Fraction>,
    places: Seq<usize>,
    rank: Rank,
) -> Seq<usize> {
    arranged(
        places,
        places.map_values(
            |p: usize|
                rank_key(
                    nodes[survivors[p as int] as int],
                    facts[p as int],
                    risks[p as int],
                    rank,
                ),
        ),
    )
}

/// How many candidates survived each of the first `count` criteria.
pub open spec fn cascade_lines(cascade: Seq<(Seq<char>, int)>, count: int) -> Seq<char>
    decreases count,
{
    if count <= 0 {
        ""@
    } else {
        cascade_lines(cascade, count - 1) + "  "@ + cascade[count - 1].0 + " -> "@ + decimal_spec(
            cascade[count - 1].1 as nat,
        ) + "\n"@
    }
}

/// What is said where nothing matches.
pub open spec fn empty_text(cascade: Seq<(Seq<char>, int)>) -> Seq<char> {
    if cascade.len() == 0 {
        "no symbols match (the constellation holds no candidates)"@
    } else {
        "no symbols match. Surviving candidates after each criterion, in evaluation order (cost-ordered, not the order passed):\n"@
            + cascade_lines(cascade, cascade.len() as int)
            + "drop or loosen the criterion whose row reaches 0.\n"@
    }
}

/// A result on a line, with the facts the query filtered on.
pub open spec fn result_line(node: Node, facts: FactsView, risk: Fraction) -> Seq<char> {
    "  "@ + node_line_spec(node) + "  risk "@ + risk.text@ + ", "@ + decimal_spec(
        facts.caller_count as nat,
    ) + " callers, "@ + signed_spec(lines_spec(node)) + " lines, churn "@ + decimal_spec(
        facts.churn as nat,
    ) + (if facts.covered {
        ""@
    } else {
        ", NO tests"@
    }) + (if facts.flow_names.len() > 0 {
        ", in "@ + quoted(facts.flow_names[0]) + " flow"@
    } else {
        ""@
    }) + "\n"@
}

/// The first `count` results at these places.
pub open spec fn result_lines(
    nodes: Seq<Node>,
    survivors: Seq<usize>,
    facts: Seq<FactsView>,
    risks: Seq<Fraction>,
    window: Seq<usize>,
    count: int,
) -> Seq<char>
    decreases count,
{
    if count <= 0 {
        ""@
    } else {
        let p = window[count - 1] as int;
        result_lines(nodes, survivors, facts, risks, window, count - 1) + result_line(
            nodes[survivors[p] as int],
            facts[p],
            risks[p],
        )
    }
}

/// The criteria, described.
pub open spec fn described(criteria: Seq<CriterionView>) -> Seq<Seq<char>> {
    criteria.map_values(|criterion: CriterionView| criterion_text(criterion))
}

/// The result of an accepted query.
pub open spec fn winnow_text_spec(
    criteria: Seq<CriterionView>,
    rank: Rank,
    nodes: Seq<Node>,
    facts: Seq<FactsView>,
    risks: Seq<Fraction>,
    limit: u32,
    page: Page,
    generation: u64,
) -> Seq<char> {
    let columns = column_result(nodes, criteria);
    let field = derived_field(columns, facts, risks, criteria, criteria.len() as int);
    let ranked = ranked_places(nodes, columns.places, facts, risks, field.places, rank);
    let window = slice_spec(ranked, page.offset as int, limit as int);
    if field.places.len() == 0 {
        empty_text(field.cascade)
    } else {
        note_text(page) + "winnow ["@ + join_spec(described(criteria), " AND "@) + "] ranked by "@
            + rank.label() + ": "@ + decimal_spec(window.len()) + " of "@ + decimal_spec(
            ranked.len(),
        ) + " matching\n"@ + result_lines(
            nodes,
            columns.places,
            facts,
            risks,
            window,
            window.len() as int,
        ) + next_text(page.offset as int, window.len() as int, ranked.len() as int, generation) + (
        if nodes.len() > WINNOW_CANDIDATES_MAX {
            "(scan capped at "@ + decimal_spec(WINNOW_CANDIDATES_MAX as nat) + " of "@
                + decimal_spec(nodes.len())
                + " symbols; narrow with project= or kind=)\n"@
        } else {
            ""@
        })
    }
}

fn filter_derived(
    columns: Vec<CascadeRow>,
    facts: &[Facts],
    risks: &[Fraction],
    criteria: &[Criterion],
    Ghost(field): Ghost<Field>,
) -> (out: (Vec<usize>, Vec<CascadeRow>))
    requires
        facts@.len() == field.places.len(),
        risks@.len() == field.places.len(),
        cascade_view(columns@) == field.cascade,
    ensures
        ({
            let left = derived_field(
                field,
                facts_view(facts@),
                risks@,
                criteria_view(criteria@),
                criteria@.len() as int,
            );
            out.0@ == left.places && cascade_view(out.1@) == left.cascade
        }),
        forall|k: int| 0 <= k < out.0@.len() ==> #[trigger] out.0@[k] < facts@.len(),
{
    let ghost all = criteria_view(criteria@);
    let ghost known = facts_view(facts@);
    let mut places: Vec<usize> = Vec::new();
    for i in 0..facts.len()
        invariant
            places@.len() == i,
            forall|k: int| 0 <= k < i ==> #[trigger] places@[k] == k,
    {
        places.push(i);
    }
    assert(places@ =~= counting(field.places.len()));
    let mut cascade = columns;
    for i in 0..criteria.len()
        invariant
            all == criteria_view(criteria@),
            known == facts_view(facts@),
            risks@.len() == facts@.len(),
            places@ == derived_field(field, known, risks@, all, i as int).places,
            cascade_view(cascade@) == derived_field(field, known, risks@, all, i as int).cascade,
            forall|k: int| 0 <= k < places@.len() ==> #[trigger] places@[k] < facts@.len(),
    {
        assert(all[i as int] == criteria@[i as int]@);
        let criterion = &criteria[i];
        if !is_column_axis(criterion.axis) {
            let mut kept: Vec<usize> = Vec::new();
            for j in 0..places.len()
                invariant
                    known == facts_view(facts@),
                    risks@.len() == facts@.len(),
                    forall|k: int| 0 <= k < places@.len() ==> #[trigger] places@[k] < facts@.len(),
                    kept@ == derived_kept(known, risks@, places@, criterion@, j as int),
                    forall|k: int| 0 <= k < kept@.len() ==> #[trigger] kept@[k] < facts@.len(),
            {
                assert(places@[j as int] < facts@.len());
                let p: usize = places[j];
                assert(known[p as int] == facts@[p as int]@);
                if matches_derived(&facts[p], risks[p].order, criterion) {
                    kept.push(p);
                }
            }
            places = kept;
            let ghost before = cascade@;
            let row = CascadeRow { criterion: criterion.describe(), surviving: places.len() };
            cascade.push(row);
            assert(cascade_view(cascade@) =~= cascade_view(before).push(
                (row.criterion@, row.surviving as int),
            ));
        }
    }
    (places, cascade)
}

fn empty_winnow_text(cascade: &[CascadeRow]) -> (text: String)
    ensures
        text@ == empty_text(cascade_view(cascade@)),
{
    let ghost all = cascade_view(cascade@);
    assert(all.len() == cascade@.len());
    if cascade.len() == 0 {
        return copy("no symbols match (the constellation holds no candidates)");
    }
    let mut listed = copy("");
    for i in 0..cascade.len()
        invariant
            all == cascade_view(cascade@),
            listed@ == cascade_lines(all, i as int),
    {
        assert(all[i as int] == (cascade@[i as int].criterion@, cascade@[i as int].surviving as int));
        listed.append("  ");
        listed.append(cascade[i].criterion.as_str());
        listed.append(" -> ");
        listed.append(decimal_usize(cascade[i].surviving).as_str());
        listed.append("\n");
    }
    cat3(
        "no symbols match. Surviving candidates after each criterion, in evaluation order (cost-ordered, not the order passed):\n",
        listed.as_str(),
        "drop or loosen the criterion whose row reaches 0.\n",
    )
}

fn sort_winnow(
    evaluated: &Evaluated<'_>,
    survivors: &[usize],
    places: &[usize],
    rank: Rank,
) -> (ranked: Vec<usize>)
    requires
        evaluated.facts@.len() == survivors@.len(),
        evaluated.risks@.len() == survivors@.len(),
        forall|k: int|
            0 <= k < survivors@.len() ==> #[trigger] survivors@[k] < evaluated.nodes@.len(),
        forall|k: int| 0 <= k < places@.len() ==> #[trigger] places@[k] < survivors@.len(),
    ensures
        ranked@ == ranked_places(
            evaluated.nodes@,
            survivors@,
            facts_view(evaluated.facts@),
            evaluated.risks@,
            places@,
            rank,
        ),
        ranked@.len() == places@.len(),
        forall|k: int| 0 <= k < ranked@.len() ==> #[trigger] ranked@[k] < survivors@.len(),
{
    let nodes = evaluated.nodes;
    let ghost known = facts_view(evaluated.facts@);
    let ghost risks = evaluated.risks@;
    let ghost wanted = places@.map_values(
        |p: usize|
            rank_key(
                nodes@[survivors@[p as int] as int],
                known[p as int],
                risks[p as int],
                rank,
            ),
    );
    let mut keys: Vec<Vec<Part>> = Vec::new();
    for i in 0..places.len()
        invariant
            nodes@ == evaluated.nodes@,
            known == facts_view(evaluated.facts@),
            risks == evaluated.risks@,
            evaluated.facts@.len() == survivors@.len(),
            evaluated.risks@.len() == survivors@.len(),
            forall|k: int| 0 <= k < survivors@.len() ==> #[trigger] survivors@[k] < nodes@.len(),
            forall|k: int| 0 <= k < places@.len() ==> #[trigger] places@[k] < survivors@.len(),
            wanted == places@.map_values(
                |p: usize|
                    rank_key(
                        nodes@[survivors@[p as int] as int],
                        known[p as int],
                        risks[p as int],
                        rank,
                    ),
            ),
            keys_view(keys@) == wanted.take(i as int),
    {
        let ghost before = keys@;
        assert(places@[i as int] < survivors@.len());
        let p: usize = places[i];
        assert(survivors@[p as int] < nodes@.len());
        let node = &nodes[survivors[p]];
        let facts = &evaluated.facts[p];
        assert(known[p as int] == facts@);
        let mut key: Vec<Part> = Vec::new();
        let primary = match rank {
            Rank::Callers => Part::Number(-(facts.caller_count as i128)),
            Rank::Churn => Part::Number(-(facts.churn as i128)),
            Rank::Criticality => Part::Number(-(facts.criticality as i128)),
            Rank::Lines => Part::Number(-(lines(node) as i128)),
            Rank::Name => Part::Text(node.name.clone()),
            Rank::Risk => Part::Number(-(evaluated.risks[p].order as i128)),
        };
        key.push(primary);
        key.push(Part::Text(node.file_path.clone()));
        key.push(Part::Number(node.span.start_line as i128));
        assert(key_view(key) =~= wanted[i as int]);
        keys.push(key);
        assert(keys_view(keys@) =~= keys_view(before).push(wanted[i as int]));
        assert(wanted.take(i + 1) =~= wanted.take(i as int).push(wanted[i as int]));
    }
    assert(wanted.take(places@.len() as int) =~= wanted);
    assert(keys@.len() == keys_view(keys@).len());
    let ranked = arrange(places, &keys);
    assert forall|k: int| 0 <= k < ranked@.len() implies #[trigger] ranked@[k]
        < survivors@.len() by {
        assert(places@.contains(ranked@[k]));
        let i = choose|i: int| 0 <= i < places@.len() && places@[i] == ranked@[k];
        assert(places@[i] < survivors@.len());
    }
    ranked
}

fn result_text(node: &Node, facts: &Facts, risk: &Fraction) -> (text: String)
    ensures
        text@ == result_line(*node, facts@, *risk),
{
    let mut text = cat4("  ", node_line(node).as_str(), "  risk ", risk.text.as_str());
    text.append(", ");
    text.append(decimal_u32(facts.caller_count).as_str());
    text.append(" callers, ");
    text.append(decimal_i64(lines(node)).as_str());
    text.append(" lines, churn ");
    text.append(decimal_u32(facts.churn).as_str());
    text.append(
        if facts.covered {
            ""
        } else {
            ", NO tests"
        },
    );
    assert(facts@.flow_names.len() == facts.flow_names@.len());
    let flow = if facts.flow_names.len() > 0 {
        assert(facts@.flow_names[0] == facts.flow_names@[0]@);
        cat3(", in ", quote(facts.flow_names[0].as_str()).as_str(), " flow")
    } else {
        copy("")
    };
    text.append(flow.as_str());
    text.append("\n");
    text
}

fn describe_all(criteria: &[Criterion]) -> (texts: Vec<String>)
    ensures
        views(texts@) == described(criteria_view(criteria@)),
{
    let ghost all = described(criteria_view(criteria@));
    let mut texts: Vec<String> = Vec::new();
    assert(views(texts@) =~= all.take(0));
    for i in 0..criteria.len()
        invariant
            all == described(criteria_view(criteria@)),
            views(texts@) == all.take(i as int),
    {
        let ghost before = texts@;
        let text = criteria[i].describe();
        assert(all[i as int] == criterion_text(criteria@[i as int]@));
        texts.push(text);
        assert(views(texts@) =~= views(before).push(all[i as int]));
        assert(all.take(i + 1) =~= all.take(i as int).push(all[i as int]));
    }
    assert(all.take(criteria@.len() as int) =~= all);
    texts
}

/// The composed, multi-axis filter over what was read: the criteria that produced the result, one
/// line per symbol with the facts the query filtered on, and the paging and truncation notes; where
/// nothing matches, how many candidates survived each criterion. `facts` and `risks` hold an entry
/// for each candidate that the columns left, in order.
pub fn winnow_text(
    request: &Request,
    evaluated: &Evaluated<'_>,
    limit: u32,
    page: &Page,
    generation: u64,
) -> (text: String)
    requires
        ({
            let left = column_result(
                evaluated.nodes@,
                criteria_view(request.criteria@),
            ).places.len();
            evaluated.facts@.len() == left && evaluated.risks@.len() == left
        }),
    ensures
        text@ == winnow_text_spec(
            criteria_view(request.criteria@),
            request.rank,
            evaluated.nodes@,
            facts_view(evaluated.facts@),
            evaluated.risks@,
            limit,
            *page,
            generation,
        ),
{
    let criteria = request.criteria.as_slice();
    let nodes = evaluated.nodes;
    let ghost columns = column_result(nodes@, criteria_view(criteria@));
    let (survivors, column_rows) = filter_columns(nodes, criteria);
    let (places, cascade) = filter_derived(
        column_rows,
        evaluated.facts,
        evaluated.risks,
        criteria,
        Ghost(columns),
    );
    if places.len() == 0 {
        return empty_winnow_text(cascade.as_slice());
    }
    let ranked = sort_winnow(evaluated, survivors.as_slice(), places.as_slice(), request.rank);
    let window = slice(ranked.as_slice(), page.offset, limit as usize);
    assert forall|k: int| 0 <= k < window@.len() implies #[trigger] window@[k]
        < survivors@.len() by {
        assert(window@[k] == ranked@[page.offset + k]);
    }
    let ghost known = facts_view(evaluated.facts@);
    let mut listed = copy("");
    for i in 0..window.len()
        invariant
            nodes@ == evaluated.nodes@,
            known == facts_view(evaluated.facts@),
            evaluated.facts@.len() == survivors@.len(),
            evaluated.risks@.len() == survivors@.len(),
            forall|k: int| 0 <= k < survivors@.len() ==> #[trigger] survivors@[k] < nodes@.len(),
            forall|k: int| 0 <= k < window@.len() ==> #[trigger] window@[k] < survivors@.len(),
            listed@ == result_lines(
                nodes@,
                survivors@,
                known,
                evaluated.risks@,
                window@,
                i as int,
            ),
    {
        assert(window@[i as int] < survivors@.len());
        let p: usize = window[i];
        assert(survivors@[p as int] < nodes@.len());
        assert(known[p as int] == evaluated.facts@[p as int]@);
        let line = result_text(&nodes[survivors[p]], &evaluated.facts[p], &evaluated.risks[p]);
        listed.append(line.as_str());
    }
    let mut text = note_line(page);
    text.append("winnow [");
    text.append(join(describe_all(criteria).as_slice(), " AND ").as_str());
    text.append("] ranked by ");
    text.append(request.rank.as_str());
    text.append(": ");
    text.append(decimal_usize(window.len()).as_str());
    text.append(" of ");
    text.append(decimal_usize(ranked.len()).as_str());
    text.append(" matching\n");
    text.append(listed.as_str());
    text.append(next_text_line(page.offset, window.len(), ranked.len(), generation).as_str());
    let capped = if nodes.len() > WINNOW_CANDIDATES_MAX {
        let mut capped = cat4(
            "(scan capped at ",
            decimal_usize(WINNOW_CANDIDATES_MAX).as_str(),
            " of ",
            decimal_usize(nodes.len()).as_str(),
        );
        capped.append(" symbols; narrow with project= or kind=)\n");
        capped
    } else {
        copy("")
    };
    text.append(capped.as_str());
    text
}

/// A candidate satisfies every criterion, each by what it reads.
pub open spec fn satisfies_all(
    node: Node,
    facts: FactsView,
    risk: Fraction,
    criteria: Seq<CriterionView>,
) -> bool {
    forall|i: int|
        0 <= i < criteria.len() ==> if cost_of((#[trigger] criteria[i]).axis) == Cost::Column {
            matches_column_spec(node, criteria[i])
        } else {
            matches_derived_spec(facts, risk.order as int, criteria[i])
        }
}

/// Criteria are ANDed: of the candidates that the columns left, exactly those that satisfy every
/// criterion are results.
pub proof fn law_results_satisfy_every_criterion(
    nodes: Seq<Node>,
    facts: Seq<FactsView>,
    risks: Seq<Fraction>,
    criteria: Seq<CriterionView>,
    place: usize,
)
    requires
        nodes.len() <= usize::MAX,
    ensures
        ({
            let columns = column_result(nodes, criteria);
            let results = derived_field(columns, facts, risks, criteria, criteria.len() as int);
            results.places.contains(place) <==> place < columns.places.len() && satisfies_all(
                nodes[columns.places[place as int] as int],
                facts[place as int],
                risks[place as int],
                criteria,
            )
        }),
{
    let columns = column_result(nodes, criteria);
    let count = criteria.len() as int;
    let results = derived_field(columns, facts, risks, criteria, count);
    lemma_columns_shrink(nodes, criteria, count);
    if results.places.contains(place) {
        lemma_derived_start(columns, facts, risks, criteria, count, place);
        let node = nodes[columns.places[place as int] as int];
        assert forall|i: int| 0 <= i < count implies if cost_of((#[trigger] criteria[i]).axis)
            == Cost::Column {
            matches_column_spec(node, criteria[i])
        } else {
            matches_derived_spec(facts[place as int], risks[place as int].order as int, criteria[i])
        } by {
            if cost_of(criteria[i].axis) == Cost::Column {
                assert(columns.places.contains(columns.places[place as int]));
                lemma_columns_satisfied(nodes, criteria, count, i, columns.places[place as int]);
            } else {
                lemma_derived_satisfied(columns, facts, risks, criteria, count, i, place);
            }
        }
    } else if place < columns.places.len() && satisfies_all(
        nodes[columns.places[place as int] as int],
        facts[place as int],
        risks[place as int],
        criteria,
    ) {
        lemma_derived_complete(columns, facts, risks, criteria, count, place);
    }
}

/// The columns leave exactly those of the scanned nodes that satisfy every column criterion.
pub proof fn law_columns_keep_what_matches(
    nodes: Seq<Node>,
    criteria: Seq<CriterionView>,
    place: usize,
)
    requires
        nodes.len() <= usize::MAX,
    ensures
        column_result(nodes, criteria).places.contains(place) <==> place < nodes.len() && place
            < WINNOW_CANDIDATES_MAX && forall|i: int|
            0 <= i < criteria.len() && cost_of((#[trigger] criteria[i]).axis) == Cost::Column
                ==> matches_column_spec(nodes[place as int], criteria[i]),
{
    let count = criteria.len() as int;
    if column_result(nodes, criteria).places.contains(place) {
        lemma_column_start(nodes, criteria, count, place);
        assert forall|i: int|
            0 <= i < count && cost_of((#[trigger] criteria[i]).axis)
                == Cost::Column implies matches_column_spec(nodes[place as int], criteria[i]) by {
            lemma_columns_satisfied(nodes, criteria, count, i, place);
        }
    } else if place < nodes.len() && place < WINNOW_CANDIDATES_MAX && forall|i: int|
        0 <= i < count && cost_of((#[trigger] criteria[i]).axis) == Cost::Column
            ==> matches_column_spec(nodes[place as int], criteria[i]) {
        lemma_column_complete(nodes, criteria, count, place);
    }
}

proof fn lemma_column_start(
    nodes: Seq<Node>,
    criteria: Seq<CriterionView>,
    count: int,
    place: usize,
)
    requires
        0 <= count <= criteria.len(),
        column_field(nodes, criteria, count).places.contains(place),
        nodes.len() <= usize::MAX,
    ensures
        place < nodes.len(),
        place < WINNOW_CANDIDATES_MAX,
    decreases count,
{
    if count > 0 {
        let before = column_field(nodes, criteria, count - 1);
        if cost_of(criteria[count - 1].axis) == Cost::Column {
            lemma_column_kept(
                nodes,
                before.places,
                criteria[count - 1],
                before.places.len() as int,
                place,
            );
        }
        lemma_column_start(nodes, criteria, count - 1, place);
    }
}

proof fn lemma_column_complete(
    nodes: Seq<Node>,
    criteria: Seq<CriterionView>,
    count: int,
    place: usize,
)
    requires
        0 <= count <= criteria.len(),
        place < nodes.len(),
        place < WINNOW_CANDIDATES_MAX,
        forall|i: int|
            0 <= i < count && cost_of((#[trigger] criteria[i]).axis) == Cost::Column
                ==> matches_column_spec(nodes[place as int], criteria[i]),
    ensures
        column_field(nodes, criteria, count).places.contains(place),
    decreases count,
{
    if count == 0 {
        assert(scanned_places(nodes)[place as int] == place);
    } else {
        lemma_column_complete(nodes, criteria, count - 1, place);
        let before = column_field(nodes, criteria, count - 1);
        if cost_of(criteria[count - 1].axis) == Cost::Column {
            assert(before.places.take(before.places.len() as int) =~= before.places);
            lemma_column_keeps(
                nodes,
                before.places,
                criteria[count - 1],
                before.places.len() as int,
                place,
            );
        }
    }
}

proof fn lemma_column_keeps(
    nodes: Seq<Node>,
    places: Seq<usize>,
    criterion: CriterionView,
    count: int,
    place: usize,
)
    requires
        0 <= count <= places.len(),
        places.take(count).contains(place),
        matches_column_spec(nodes[place as int], criterion),
    ensures
        column_kept(nodes, places, criterion, count).contains(place),
    decreases count,
{
    if count > 0 {
        let kept = column_kept(nodes, places, criterion, count);
        let before = column_kept(nodes, places, criterion, count - 1);
        let k = choose|k: int| 0 <= k < count && places.take(count)[k] == place;
        assert(places[k] == place);
        if k < count - 1 {
            assert(places.take(count - 1)[k] == place);
            lemma_column_keeps(nodes, places, criterion, count - 1, place);
            let j = choose|j: int| 0 <= j < before.len() && before[j] == place;
            assert(kept[j] == place);
        } else {
            assert(kept[kept.len() - 1] == place);
        }
    }
}

pub(crate) proof fn lemma_columns_shrink(nodes: Seq<Node>, criteria: Seq<CriterionView>, count: int)
    requires
        0 <= count,
    ensures
        column_field(nodes, criteria, count).places.len() <= WINNOW_CANDIDATES_MAX,
    decreases count,
{
    if count > 0 {
        lemma_columns_shrink(nodes, criteria, count - 1);
        let before = column_field(nodes, criteria, count - 1);
        lemma_column_kept_len(
            nodes,
            before.places,
            criteria[count - 1],
            before.places.len() as int,
        );
    }
}

proof fn lemma_column_kept_len(
    nodes: Seq<Node>,
    places: Seq<usize>,
    criterion: CriterionView,
    count: int,
)
    requires
        0 <= count,
    ensures
        column_kept(nodes, places, criterion, count).len() <= count,
    decreases count,
{
    if count > 0 {
        lemma_column_kept_len(nodes, places, criterion, count - 1);
    }
}

proof fn lemma_derived_start(
    columns: Field,
    facts: Seq<FactsView>,
    risks: Seq<Fraction>,
    criteria: Seq<CriterionView>,
    count: int,
    place: usize,
)
    requires
        0 <= count <= criteria.len(),
        columns.places.len() <= WINNOW_CANDIDATES_MAX,
        derived_field(columns, facts, risks, criteria, count).places.contains(place),
    ensures
        place < columns.places.len(),
    decreases count,
{
    if count > 0 {
        let before = derived_field(columns, facts, risks, criteria, count - 1);
        if cost_of(criteria[count - 1].axis) != Cost::Column {
            lemma_derived_kept(
                facts,
                risks,
                before.places,
                criteria[count - 1],
                before.places.len() as int,
                place,
            );
        }
        lemma_derived_start(columns, facts, risks, criteria, count - 1, place);
    }
}

proof fn lemma_derived_complete(
    columns: Field,
    facts: Seq<FactsView>,
    risks: Seq<Fraction>,
    criteria: Seq<CriterionView>,
    count: int,
    place: usize,
)
    requires
        0 <= count <= criteria.len(),
        place < columns.places.len(),
        forall|i: int|
            0 <= i < count && cost_of((#[trigger] criteria[i]).axis) != Cost::Column
                ==> matches_derived_spec(
                facts[place as int],
                risks[place as int].order as int,
                criteria[i],
            ),
    ensures
        derived_field(columns, facts, risks, criteria, count).places.contains(place),
    decreases count,
{
    if count == 0 {
        assert(counting(columns.places.len())[place as int] == place);
    } else {
        lemma_derived_complete(columns, facts, risks, criteria, count - 1, place);
        let before = derived_field(columns, facts, risks, criteria, count - 1);
        if cost_of(criteria[count - 1].axis) != Cost::Column {
            assert(before.places.take(before.places.len() as int) =~= before.places);
            lemma_derived_keeps(
                facts,
                risks,
                before.places,
                criteria[count - 1],
                before.places.len() as int,
                place,
            );
        }
    }
}

proof fn lemma_derived_keeps(
    facts: Seq<FactsView>,
    risks: Seq<Fraction>,
    places: Seq<usize>,
    criterion: CriterionView,
    count: int,
    place: usize,
)
    requires
        0 <= count <= places.len(),
        places.take(count).contains(place),
        matches_derived_spec(facts[place as int], risks[place as int].order as int, criterion),
    ensures
        derived_kept(facts, risks, places, criterion, count).contains(place),
    decreases count,
{
    if count > 0 {
        let kept = derived_kept(facts, risks, places, criterion, count);
        let before = derived_kept(facts, risks, places, criterion, count - 1);
        let k = choose|k: int| 0 <= k < count && places.take(count)[k] == place;
        assert(places[k] == place);
        if k < count - 1 {
            assert(places.take(count - 1)[k] == place);
            lemma_derived_keeps(facts, risks, places, criterion, count - 1, place);
            let j = choose|j: int| 0 <= j < before.len() && before[j] == place;
            assert(kept[j] == place);
        } else {
            assert(kept[kept.len() - 1] == place);
        }
    }
}

proof fn lemma_column_kept(
    nodes: Seq<Node>,
    places: Seq<usize>,
    criterion: CriterionView,
    count: int,
    place: usize,
)
    requires
        0 <= count <= places.len(),
        column_kept(nodes, places, criterion, count).contains(place),
    ensures
        places.contains(place),
        matches_column_spec(nodes[place as int], criterion),
    decreases count,
{
    if count > 0 {
        let kept = column_kept(nodes, places, criterion, count);
        let k = choose|k: int| 0 <= k < kept.len() && kept[k] == place;
        let before = column_kept(nodes, places, criterion, count - 1);
        if k < before.len() {
            assert(before[k] == place);
            lemma_column_kept(nodes, places, criterion, count - 1, place);
        } else {
            assert(places[count - 1] == place);
        }
    }
}

proof fn lemma_columns_satisfied(
    nodes: Seq<Node>,
    criteria: Seq<CriterionView>,
    count: int,
    at: int,
    place: usize,
)
    requires
        0 <= at < count <= criteria.len(),
        cost_of(criteria[at].axis) == Cost::Column,
        column_field(nodes, criteria, count).places.contains(place),
    ensures
        matches_column_spec(nodes[place as int], criteria[at]),
    decreases count,
{
    let before = column_field(nodes, criteria, count - 1);
    if cost_of(criteria[count - 1].axis) == Cost::Column {
        lemma_column_kept(
            nodes,
            before.places,
            criteria[count - 1],
            before.places.len() as int,
            place,
        );
    }
    if at < count - 1 {
        lemma_columns_satisfied(nodes, criteria, count - 1, at, place);
    }
}

proof fn lemma_derived_kept(
    facts: Seq<FactsView>,
    risks: Seq<Fraction>,
    places: Seq<usize>,
    criterion: CriterionView,
    count: int,
    place: usize,
)
    requires
        0 <= count <= places.len(),
        derived_kept(facts, risks, places, criterion, count).contains(place),
    ensures
        places.contains(place),
        matches_derived_spec(facts[place as int], risks[place as int].order as int, criterion),
    decreases count,
{
    if count > 0 {
        let kept = derived_kept(facts, risks, places, criterion, count);
        let k = choose|k: int| 0 <= k < kept.len() && kept[k] == place;
        let before = derived_kept(facts, risks, places, criterion, count - 1);
        if k < before.len() {
            assert(before[k] == place);
            lemma_derived_kept(facts, risks, places, criterion, count - 1, place);
        } else {
            assert(places[count - 1] == place);
        }
    }
}

proof fn lemma_derived_satisfied(
    columns: Field,
    facts: Seq<FactsView>,
    risks: Seq<Fraction>,
    criteria: Seq<CriterionView>,
    count: int,
    at: int,
    place: usize,
)
    requires
        0 <= at < count <= criteria.len(),
        cost_of(criteria[at].axis) != Cost::Column,
        derived_field(columns, facts, risks, criteria, count).places.contains(place),
    ensures
        matches_derived_spec(facts[place as int], risks[place as int].order as int, criteria[at]),
    decreases count,
{
    let before = derived_field(columns, facts, risks, criteria, count - 1);
    if cost_of(criteria[count - 1].axis) != Cost::Column {
        lemma_derived_kept(
            facts,
            risks,
            before.places,
            criteria[count - 1],
            before.places.len() as int,
            place,
        );
    }
    if at < count - 1 {
        lemma_derived_satisfied(columns, facts, risks, criteria, count - 1, at, place);
    }
}

/// What is measured of one winnow candidate for its review risk. Diff size is necessarily zero
/// here: a winnow query is not scoped to a diff, so the factor has nothing to measure and
/// contributes nothing rather than being invented.
pub fn risk_inputs(facts: &Facts, security_keyword: Option<String>) -> (inputs: RiskInputs)
    ensures
        inputs.caller_count == facts.caller_count,
        inputs.changed_lines == 0,
        inputs.churn_commits == facts.churn,
        inputs.covering_tests == (if facts.covered {
            TEST_SATURATION
        } else {
            0
        }),
        inputs.cross_app_callers == 0,
        inputs.cross_project_callers == 0,
        match inputs.flow_name_top {
            Some(name) => facts.flow_names@.len() > 0 && name@ == facts.flow_names@[0]@,
            None => facts.flow_names@.len() == 0,
        },
        inputs.security_keyword == security_keyword,
{
    RiskInputs {
        caller_count: facts.caller_count,
        changed_lines: 0,
        churn_commits: facts.churn,
        covering_tests: if facts.covered {
            TEST_SATURATION
        } else {
            0
        },
        cross_app_callers: 0,
        cross_project_callers: 0,
        flow_name_top: if facts.flow_names.len() > 0 {
            Some(copy(facts.flow_names[0].as_str()))
        } else {
            None
        },
        security_keyword,
    }
}

/// Results come back in the order asked for: of two results the earlier has no fewer callers, no
/// less churn, and so on by the rank that was asked for.
pub proof fn law_results_are_ranked(
    nodes: Seq<Node>,
    survivors: Seq<usize>,
    facts: Seq<FactsView>,
    risks: Seq<Fraction>,
    places: Seq<usize>,
    rank: Rank,
    a: int,
    b: int,
)
    requires
        0 <= a < b < places.len(),
    ensures
        ({
            let ranked = ranked_places(nodes, survivors, facts, risks, places, rank);
            let (first, second) = (ranked[a] as int, ranked[b] as int);
            match rank {
                Rank::Callers => facts[first].caller_count >= facts[second].caller_count,
                Rank::Churn => facts[first].churn >= facts[second].churn,
                Rank::Criticality => facts[first].criticality >= facts[second].criticality,
                Rank::Lines => lines_spec(nodes[survivors[first] as int]) >= lines_spec(
                    nodes[survivors[second] as int],
                ),
                Rank::Name => !text_less(
                    nodes[survivors[second] as int].name@,
                    nodes[survivors[first] as int].name@,
                ),
                Rank::Risk => risks[first].order >= risks[second].order,
            }
        }),
{
    let keys = places.map_values(
        |p: usize|
            rank_key(
                nodes[survivors[p as int] as int],
                facts[p as int],
                risks[p as int],
                rank,
            ),
    );
    law_arranging_sorts(keys, a, b);
    lemma_not_after(keys[sorted_order(keys)[a]], keys[sorted_order(keys)[b]]);
}

/// The places are in increasing order.
pub open spec fn increasing(places: Seq<usize>) -> bool {
    forall|i: int, j: int| 0 <= i < j < places.len() ==> #[trigger] places[i] < #[trigger] places[j]
}

proof fn lemma_increasing_unique(left: Seq<usize>, right: Seq<usize>)
    requires
        increasing(left),
        increasing(right),
        forall|place: usize| left.contains(place) <==> right.contains(place),
    ensures
        left == right,
    decreases left.len(),
{
    if left.len() == 0 {
        if right.len() > 0 {
            assert(right.contains(right[0]));
        }
        assert(left =~= right);
    } else {
        assert(left.contains(left.last()));
        assert(right.contains(left.last()));
        assert(right.contains(right.last()));
        assert(left.contains(right.last()));
        let l = choose|k: int| 0 <= k < right.len() && right[k] == left.last();
        let r = choose|k: int| 0 <= k < left.len() && left[k] == right.last();
        assert(left.last() == right.last());
        let (shorter, other) = (left.drop_last(), right.drop_last());
        assert forall|place: usize| shorter.contains(place) <==> other.contains(place) by {
            if shorter.contains(place) {
                let k = choose|k: int| 0 <= k < shorter.len() && shorter[k] == place;
                assert(left[k] == place);
                assert(left[k] < left[left.len() - 1]);
                assert(left.contains(place));
                let m = choose|m: int| 0 <= m < right.len() && right[m] == place;
                assert(m < right.len() - 1);
                assert(other[m] == place);
            }
            if other.contains(place) {
                let k = choose|k: int| 0 <= k < other.len() && other[k] == place;
                assert(right[k] == place);
                assert(right[k] < right[right.len() - 1]);
                assert(right.contains(place));
                let m = choose|m: int| 0 <= m < left.len() && left[m] == place;
                assert(m < left.len() - 1);
                assert(shorter[m] == place);
            }
        }
        lemma_increasing_unique(shorter, other);
        assert(left =~= shorter.push(left.last()));
        assert(right =~= other.push(right.last()));
    }
}

proof fn lemma_column_kept_increasing(
    nodes: Seq<Node>,
    places: Seq<usize>,
    criterion: CriterionView,
    count: int,
)
    requires
        0 <= count <= places.len(),
        increasing(places),
    ensures
        increasing(column_kept(nodes, places, criterion, count)),
        column_kept(nodes, places, criterion, count).len() <= count,
        forall|k: int|
            0 <= k < column_kept(nodes, places, criterion, count).len() ==> exists|p: int|
                0 <= p < count && places[p] == #[trigger] column_kept(
                    nodes,
                    places,
                    criterion,
                    count,
                )[k],
    decreases count,
{
    if count > 0 {
        lemma_column_kept_increasing(nodes, places, criterion, count - 1);
    }
}

proof fn lemma_columns_increasing(nodes: Seq<Node>, criteria: Seq<CriterionView>, count: int)
    requires
        0 <= count <= criteria.len(),
        nodes.len() <= usize::MAX,
    ensures
        increasing(column_field(nodes, criteria, count).places),
    decreases count,
{
    if count > 0 {
        lemma_columns_increasing(nodes, criteria, count - 1);
        let before = column_field(nodes, criteria, count - 1);
        lemma_column_kept_increasing(
            nodes,
            before.places,
            criteria[count - 1],
            before.places.len() as int,
        );
    }
}

proof fn lemma_derived_kept_increasing(
    facts: Seq<FactsView>,
    risks: Seq<Fraction>,
    places: Seq<usize>,
    criterion: CriterionView,
    count: int,
)
    requires
        0 <= count <= places.len(),
        increasing(places),
    ensures
        increasing(derived_kept(facts, risks, places, criterion, count)),
        derived_kept(facts, risks, places, criterion, count).len() <= count,
        forall|k: int|
            0 <= k < derived_kept(facts, risks, places, criterion, count).len() ==> exists|p: int|
                0 <= p < count && places[p] == #[trigger] derived_kept(
                    facts,
                    risks,
                    places,
                    criterion,
                    count,
                )[k],
    decreases count,
{
    if count > 0 {
        lemma_derived_kept_increasing(facts, risks, places, criterion, count - 1);
    }
}

proof fn lemma_derived_increasing(
    columns: Field,
    facts: Seq<FactsView>,
    risks: Seq<Fraction>,
    criteria: Seq<CriterionView>,
    count: int,
)
    requires
        0 <= count <= criteria.len(),
        columns.places.len() <= usize::MAX,
    ensures
        increasing(derived_field(columns, facts, risks, criteria, count).places),
    decreases count,
{
    if count > 0 {
        lemma_derived_increasing(columns, facts, risks, criteria, count - 1);
        let before = derived_field(columns, facts, risks, criteria, count - 1);
        lemma_derived_kept_increasing(
            facts,
            risks,
            before.places,
            criteria[count - 1],
            before.places.len() as int,
        );
    }
}

/// The order that criteria are passed in does not matter: the same criteria in any order leave the
/// same candidates and give the same results.
pub proof fn law_order_of_criteria_does_not_matter(
    nodes: Seq<Node>,
    facts: Seq<FactsView>,
    risks: Seq<Fraction>,
    left: Seq<CriterionView>,
    right: Seq<CriterionView>,
)
    requires
        nodes.len() <= usize::MAX,
        forall|criterion: CriterionView| left.contains(criterion) <==> right.contains(criterion),
    ensures
        column_result(nodes, left).places == column_result(nodes, right).places,
        derived_field(
            column_result(nodes, left),
            facts,
            risks,
            left,
            left.len() as int,
        ).places == derived_field(
            column_result(nodes, right),
            facts,
            risks,
            right,
            right.len() as int,
        ).places,
{
    let columns = column_result(nodes, left);
    let others = column_result(nodes, right);
    lemma_columns_increasing(nodes, left, left.len() as int);
    lemma_columns_increasing(nodes, right, right.len() as int);
    lemma_columns_shrink(nodes, left, left.len() as int);
    lemma_columns_shrink(nodes, right, right.len() as int);
    assert forall|place: usize| columns.places.contains(place) implies others.places.contains(
        place,
    ) by {
        lemma_columns_carry_over(nodes, left, right, place);
    }
    assert forall|place: usize| others.places.contains(place) implies columns.places.contains(
        place,
    ) by {
        lemma_columns_carry_over(nodes, right, left, place);
    }
    lemma_increasing_unique(columns.places, others.places);
    let results = derived_field(columns, facts, risks, left, left.len() as int);
    let other_results = derived_field(others, facts, risks, right, right.len() as int);
    lemma_derived_increasing(columns, facts, risks, left, left.len() as int);
    lemma_derived_increasing(others, facts, risks, right, right.len() as int);
    assert forall|place: usize| results.places.contains(place) implies other_results.places.contains(
        place,
    ) by {
        law_results_satisfy_every_criterion(nodes, facts, risks, left, place);
        law_results_satisfy_every_criterion(nodes, facts, risks, right, place);
        lemma_satisfaction_carries_over(
            nodes[columns.places[place as int] as int],
            facts[place as int],
            risks[place as int],
            left,
            right,
        );
    }
    assert forall|place: usize| other_results.places.contains(place) implies results.places.contains(
        place,
    ) by {
        law_results_satisfy_every_criterion(nodes, facts, risks, left, place);
        law_results_satisfy_every_criterion(nodes, facts, risks, right, place);
        lemma_satisfaction_carries_over(
            nodes[columns.places[place as int] as int],
            facts[place as int],
            risks[place as int],
            right,
            left,
        );
    }
    lemma_increasing_unique(results.places, other_results.places);
}

proof fn lemma_columns_carry_over(
    nodes: Seq<Node>,
    left: Seq<CriterionView>,
    right: Seq<CriterionView>,
    place: usize,
)
    requires
        nodes.len() <= usize::MAX,
        forall|criterion: CriterionView| left.contains(criterion) <==> right.contains(criterion),
        column_result(nodes, left).places.contains(place),
    ensures
        column_result(nodes, right).places.contains(place),
{
    law_columns_keep_what_matches(nodes, left, place);
    law_columns_keep_what_matches(nodes, right, place);
    assert forall|i: int|
        0 <= i < right.len() && cost_of((#[trigger] right[i]).axis)
            == Cost::Column implies matches_column_spec(nodes[place as int], right[i]) by {
        assert(left.contains(right[i]));
        let k = choose|k: int| 0 <= k < left.len() && left[k] == right[i];
        assert(cost_of(left[k].axis) == Cost::Column);
    }
}

proof fn lemma_satisfaction_carries_over(
    node: Node,
    facts: FactsView,
    risk: Fraction,
    left: Seq<CriterionView>,
    right: Seq<CriterionView>,
)
    requires
        forall|criterion: CriterionView| left.contains(criterion) <==> right.contains(criterion),
        satisfies_all(node, facts, risk, left),
    ensures
        satisfies_all(node, facts, risk, right),
{
    assert forall|i: int| 0 <= i < right.len() implies if cost_of((#[trigger] right[i]).axis)
        == Cost::Column {
        matches_column_spec(node, right[i])
    } else {
        matches_derived_spec(facts, risk.order as int, right[i])
    } by {
        assert(left.contains(right[i]));
        let k = choose|k: int| 0 <= k < left.len() && left[k] == right[i];
        assert(left[k] == right[i]);
    }
}

/// Each count of a cascade is no greater than those before it, and the last is what is left.
pub open spec fn cascade_sound(field: Field) -> bool {
    &&& forall|i: int, j: int|
        0 <= i < j < field.cascade.len() ==> (#[trigger] field.cascade[j]).1 <= (
        #[trigger] field.cascade[i]).1
    &&& field.cascade.len() > 0 ==> field.cascade.last().1 == field.places.len()
}

/// A cascade never grows: the columns leave no more with every criterion, and the last count is
/// how many they left.
pub proof fn law_columns_cascade_down(nodes: Seq<Node>, criteria: Seq<CriterionView>, count: int)
    requires
        0 <= count <= criteria.len(),
    ensures
        cascade_sound(column_field(nodes, criteria, count)),
    decreases count,
{
    if count > 0 {
        law_columns_cascade_down(nodes, criteria, count - 1);
        let before = column_field(nodes, criteria, count - 1);
        lemma_column_kept_len(
            nodes,
            before.places,
            criteria[count - 1],
            before.places.len() as int,
        );
    }
}

proof fn lemma_derived_kept_len(
    facts: Seq<FactsView>,
    risks: Seq<Fraction>,
    places: Seq<usize>,
    criterion: CriterionView,
    count: int,
)
    requires
        0 <= count,
    ensures
        derived_kept(facts, risks, places, criterion, count).len() <= count,
    decreases count,
{
    if count > 0 {
        lemma_derived_kept_len(facts, risks, places, criterion, count - 1);
    }
}

/// A cascade never grows over the derived criteria either, so the first count of zero is where
/// nothing was left.
pub proof fn law_results_cascade_down(
    columns: Field,
    facts: Seq<FactsView>,
    risks: Seq<Fraction>,
    criteria: Seq<CriterionView>,
    count: int,
)
    requires
        0 <= count <= criteria.len(),
        cascade_sound(columns),
    ensures
        cascade_sound(derived_field(columns, facts, risks, criteria, count)),
    decreases count,
{
    if count > 0 {
        law_results_cascade_down(columns, facts, risks, criteria, count - 1);
        let before = derived_field(columns, facts, risks, criteria, count - 1);
        lemma_derived_kept_len(
            facts,
            risks,
            before.places,
            criteria[count - 1],
            before.places.len() as int,
        );
    }
}

// ---------------------------------------------------------------------------
// What the criteria ask of the graph

/// A criterion that names one project.
pub open spec fn names_one_project(criterion: CriterionView) -> bool {
    criterion.axis is Project && criterion.value is Strings && criterion.value->Strings_0.len() == 1
}

proof fn lemma_project_asked(criteria: Seq<CriterionView>, from: int, at: int)
    requires
        0 <= from <= at <= criteria.len(),
        forall|k: int| from <= k < at ==> !names_one_project(#[trigger] criteria[k]),
        at < criteria.len() ==> names_one_project(criteria[at]),
    ensures
        project_asked(criteria, from) == if at < criteria.len() {
            Some(criteria[at].value->Strings_0[0])
        } else {
            None
        },
    decreases at - from,
{
    if from < at {
        assert(!names_one_project(criteria[from]));
        lemma_project_asked(criteria, from + 1, at);
    }
}

/// The scan is narrowed to the project that the first criterion of one project names, and not at
/// all where no criterion names one.
pub proof fn law_the_first_project_named_is_scanned(criteria: Seq<CriterionView>, at: int)
    requires
        0 <= at <= criteria.len(),
        forall|k: int| 0 <= k < at ==> !names_one_project(#[trigger] criteria[k]),
        at < criteria.len() ==> names_one_project(criteria[at]),
    ensures
        project_asked(criteria, 0) == if at < criteria.len() {
            Some(criteria[at].value->Strings_0[0])
        } else {
            None
        },
{
    lemma_project_asked(criteria, 0, at);
}

proof fn lemma_project_alike(projects: Seq<Project>, name: Seq<char>, from: int)
    requires
        0 <= from <= projects.len(),
    ensures
        match project_alike(projects, name, from) {
            Some(at) => from <= at < projects.len() && (ascii_lower_spec(projects[at].id@)
                == ascii_lower_spec(name) || ascii_lower_spec(projects[at].name@)
                == ascii_lower_spec(name)),
            None => forall|k: int|
                from <= k < projects.len() ==> ascii_lower_spec((#[trigger] projects[k]).id@)
                    != ascii_lower_spec(name) && ascii_lower_spec(projects[k].name@)
                    != ascii_lower_spec(name),
        },
    decreases projects.len() - from,
{
    if from < projects.len() {
        lemma_project_alike(projects, name, from + 1);
    }
}

/// A project is found by its id or its name, whatever the case, and only so.
pub proof fn law_a_project_is_found_whatever_the_case(projects: Seq<Project>, name: Seq<char>)
    ensures
        match project_alike(projects, name, 0) {
            Some(at) => 0 <= at < projects.len() && (ascii_lower_spec(projects[at].id@)
                == ascii_lower_spec(name) || ascii_lower_spec(projects[at].name@)
                == ascii_lower_spec(name)),
            None => forall|k: int|
                0 <= k < projects.len() ==> ascii_lower_spec((#[trigger] projects[k]).id@)
                    != ascii_lower_spec(name) && ascii_lower_spec(projects[k].name@)
                    != ascii_lower_spec(name),
        },
{
    lemma_project_alike(projects, name, 0);
}

proof fn lemma_window_asked(criteria: Seq<CriterionView>, from: int, at: int)
    requires
        0 <= from <= at <= criteria.len(),
        forall|k: int| from <= k < at ==> !((#[trigger] criteria[k]).axis is Churn),
        at < criteria.len() ==> criteria[at].axis is Churn,
    ensures
        window_asked(criteria, from) == if at < criteria.len() {
            criteria[at].window_days
        } else {
            90
        },
    decreases at - from,
{
    if from < at {
        assert(!(criteria[from].axis is Churn));
        lemma_window_asked(criteria, from + 1, at);
    }
}

/// Churn is counted over the window of the first criterion on churn, and over ninety days where
/// there is none.
pub proof fn law_churn_is_counted_over_the_window_asked(criteria: Seq<CriterionView>, at: int)
    requires
        0 <= at <= criteria.len(),
        forall|k: int| 0 <= k < at ==> !((#[trigger] criteria[k]).axis is Churn),
        at < criteria.len() ==> criteria[at].axis is Churn,
    ensures
        window_asked(criteria, 0) == if at < criteria.len() {
            criteria[at].window_days
        } else {
            90
        },
{
    lemma_window_asked(criteria, 0, at);
}

/// Changes are asked for since the latest of the dates that the criteria name.
pub proof fn law_changes_are_asked_for_since_the_latest_date(
    criteria: Seq<CriterionView>,
    count: int,
)
    requires
        0 <= count <= criteria.len(),
    ensures
        match date_asked(criteria, count) {
            Some(latest) => (exists|k: int|
                0 <= k < count && (#[trigger] criteria[k]).axis is ChangedSince && criteria[k].value
                    == ValueView::Date(latest)) && forall|k: int|
                0 <= k < count && (#[trigger] criteria[k]).axis is ChangedSince
                    && criteria[k].value is Date ==> criteria[k].value->Date_0 <= latest,
            None => forall|k: int|
                0 <= k < count && (#[trigger] criteria[k]).axis is ChangedSince ==> !(
                criteria[k].value is Date),
        },
    decreases count,
{
    if count > 0 {
        law_changes_are_asked_for_since_the_latest_date(criteria, count - 1);
        let last = criteria[count - 1];
        if last.axis is ChangedSince && last.value is Date {
            assert(last.value == ValueView::Date(last.value->Date_0));
        }
    }
}

} // verus!
