//! The symbols a branch touched, ranked by review risk rather than by diff order.
use crate::chars::{cat3, copy, ends_with, same_text, views};
use crate::cursor::{next_text, next_text_line, note_line, note_text, slice, slice_spec, Page};
use crate::explore::span_valid;
use crate::git::{covered_lines, overlapping_lines};
use crate::graph::{EdgeKind, Node};
use crate::keys::{key_at, lemma_key_at, KeyIndex};
use crate::limits::{CHANGED_REASONS_MAX, CHANGED_SCORED_MAX};
use crate::numbers::{decimal_spec, decimal_usize, indices, lemma_indices};
use crate::order::{
    arrange, arranged, key_view, keys_view, law_arranging_keeps_the_items, law_arranging_sorts,
    lemma_not_after, sorted_order, text_less, Part, PartView,
};
use crate::render::rows_view;
use crate::risk::{ranked_factors, reasons, RiskFactors, RiskInputs, TEST_SATURATION};
use crate::tools::symbol::{counting, related_rows, related_rows_spec, rows_valid};
use vstd::prelude::*;

verus! {

// ---------------------------------------------------------------------------
// Candidates

/// A file that a diff touched: the changed ranges, and the definitions that overlap them.
pub struct TouchedFile {
    pub ranges: Vec<(u32, u32)>,
    pub nodes: Vec<Node>,
}

/// A changed symbol: the file it was found in, its place there, and how many changed lines fall
/// inside it.
pub struct ChangedCandidate {
    pub file: usize,
    pub node: usize,
    pub changed_lines: u32,
}

/// What has been found among the touched files so far.
#[verifier::ext_equal]
pub struct FoundView {
    pub seen: Seq<Seq<char>>,
    pub candidates: Seq<ChangedCandidate>,
}

/// The candidates among the first `count` definitions of a file, each id once.
pub open spec fn found_in_file(
    before: FoundView,
    files: Seq<TouchedFile>,
    file: int,
    count: int,
) -> FoundView
    decreases count,
{
    if count <= 0 {
        before
    } else {
        let found = found_in_file(before, files, file, count - 1);
        let node = files[file].nodes@[count - 1];
        if key_at(found.seen, node.id@, 0) is Some {
            found
        } else {
            FoundView {
                seen: found.seen.push(node.id@),
                candidates: found.candidates.push(
                    ChangedCandidate {
                        file: file as usize,
                        node: (count - 1) as usize,
                        changed_lines: covered_lines(
                            files[file].ranges@,
                            node.span.start_line,
                            node.span.end_line,
                        ) as u32,
                    },
                ),
            }
        }
    }
}

/// The candidates among the first `count` files.
pub open spec fn found_upto(files: Seq<TouchedFile>, count: int) -> FoundView
    decreases count,
{
    if count <= 0 {
        FoundView { seen: Seq::empty(), candidates: Seq::empty() }
    } else {
        found_in_file(
            found_upto(files, count - 1),
            files,
            count - 1,
            files[count - 1].nodes@.len() as int,
        )
    }
}

/// Every definition of a file has a span of at least one line.
pub open spec fn spans_valid(file: TouchedFile) -> bool {
    forall|i: int| 0 <= i < file.nodes@.len() ==> span_valid(#[trigger] file.nodes@[i])
}

/// Every candidate is a definition of a touched file.
pub open spec fn candidate_valid(files: Seq<TouchedFile>, candidate: ChangedCandidate) -> bool {
    candidate.file < files.len() && candidate.node < files[candidate.file as int].nodes@.len()
}

/// The changed symbols of one project: every definition whose span overlaps a diff hunk, once,
/// each carrying the count of changed lines inside it.
pub fn changed_candidates(files: &[TouchedFile]) -> (candidates: Vec<ChangedCandidate>)
    requires
        forall|f: int| 0 <= f < files@.len() ==> spans_valid(#[trigger] files@[f]),
    ensures
        candidates@ == found_upto(files@, files@.len() as int).candidates,
        forall|i: int|
            0 <= i < candidates@.len() ==> candidate_valid(files@, #[trigger] candidates@[i]),
{
    let mut seen = KeyIndex::new();
    let mut candidates: Vec<ChangedCandidate> = Vec::new();
    for f in 0..files.len()
        invariant
            forall|f: int| 0 <= f < files@.len() ==> spans_valid(#[trigger] files@[f]),
            seen.wf(),
            seen@ == found_upto(files@, f as int).seen,
            candidates@ == found_upto(files@, f as int).candidates,
            forall|i: int|
                0 <= i < candidates@.len() ==> candidate_valid(files@, #[trigger] candidates@[i]),
    {
        let file = &files[f];
        let ghost before = found_upto(files@, f as int);
        for n in 0..file.nodes.len()
            invariant
                f < files@.len(),
                *file == files@[f as int],
                spans_valid(*file),
                seen.wf(),
                seen@ == found_in_file(before, files@, f as int, n as int).seen,
                candidates@ == found_in_file(before, files@, f as int, n as int).candidates,
                forall|i: int|
                    0 <= i < candidates@.len() ==> candidate_valid(
                        files@,
                        #[trigger] candidates@[i],
                    ),
        {
            let node = &file.nodes[n];
            assert(span_valid(file.nodes@[n as int]));
            let id = node.id.as_str();
            if seen.find(id).is_none() {
                seen.add(id);
                let changed_lines = overlapping_lines(
                    file.ranges.as_slice(),
                    node.span.start_line,
                    node.span.end_line,
                );
                candidates.push(ChangedCandidate { file: f, node: n, changed_lines });
            }
        }
    }
    candidates
}

/// How many of the changed symbols are scored: the first of them, up to a cap per call.
pub fn scored_count(discovered: usize) -> (count: usize)
    ensures
        count == (if discovered <= CHANGED_SCORED_MAX {
            discovered
        } else {
            CHANGED_SCORED_MAX
        }),
{
    if discovered <= CHANGED_SCORED_MAX {
        discovered
    } else {
        CHANGED_SCORED_MAX
    }
}

// ---------------------------------------------------------------------------
// Measurements

/// What is known of a caller beside its edge: whether it is a test that covers the symbol, and the
/// app its file belongs to.
pub struct CallerFacts {
    pub covering: bool,
    pub app: Option<String>,
}

/// An app, where there is one.
pub open spec fn app_view(app: Option<String>) -> Option<Seq<char>> {
    match app {
        Some(app) => Some(app@),
        None => None,
    }
}

/// How many of the first `count` callers are covering tests.
pub open spec fn covering_count(
    callers: Seq<(EdgeKind, Node)>,
    facts: Seq<CallerFacts>,
    count: int,
) -> int
    decreases count,
{
    if count <= 0 {
        0
    } else {
        covering_count(callers, facts, count - 1) + if callers[count - 1].0 != EdgeKind::Contains
            && facts[count - 1].covering {
            1int
        } else {
            0
        }
    }
}

/// How many of the first `count` distinct callers live in another app.
pub open spec fn cross_app_count(
    rows: Seq<(int, int)>,
    facts: Seq<CallerFacts>,
    home: Option<Seq<char>>,
    count: int,
) -> int
    decreases count,
{
    if count <= 0 {
        0
    } else {
        cross_app_count(rows, facts, home, count - 1) + if app_view(facts[rows[count - 1].0].app)
            != home {
            1int
        } else {
            0
        }
    }
}

/// How many of the first `count` distinct callers live in another project.
pub open spec fn cross_project_count(
    callers: Seq<(EdgeKind, Node)>,
    rows: Seq<(int, int)>,
    home: Seq<char>,
    count: int,
) -> int
    decreases count,
{
    if count <= 0 {
        0
    } else {
        cross_project_count(callers, rows, home, count - 1) + if callers[rows[count
            - 1].0].1.project_id@ != home {
            1int
        } else {
            0
        }
    }
}

/// A count as a `u32`, the largest one where it does not fit.
pub open spec fn count_u32(count: int) -> int {
    if count > u32::MAX {
        u32::MAX as int
    } else {
        count
    }
}

fn to_u32(count: usize) -> (out: u32)
    ensures
        out == count_u32(count as int),
{
    if count > u32::MAX as usize {
        u32::MAX
    } else {
        count as u32
    }
}

fn same_app(app: &Option<String>, home: &Option<String>) -> (same: bool)
    ensures
        same == (app_view(*app) == app_view(*home)),
{
    match (app, home) {
        (Some(app), Some(home)) => same_text(app.as_str(), home.as_str()),
        (None, None) => true,
        _ => false,
    }
}

/// What is known of a changed symbol beside its callers.
pub struct ChangeFacts {
    pub changed_lines: u32,
    pub churn_commits: u32,
    pub home_app: Option<String>,
    pub flow_name_top: Option<String>,
    pub security_keyword: Option<String>,
}

/// The measurements of one changed symbol, from its callers and what else is known of it: how many
/// tests cover it, how many distinct callers it has, and how many of those cross an app or a
/// project. A symbol in a test file is its own coverage, and a test about permissions is not a
/// permission change, so no security keyword applies there.
pub fn measure_change(
    node: &Node,
    callers: &[(EdgeKind, Node)],
    caller_facts: &[CallerFacts],
    facts: ChangeFacts,
) -> (inputs: RiskInputs)
    requires
        callers@.len() == caller_facts@.len(),
    ensures
        ({
            let rows = related_rows_spec(callers@);
            &&& inputs.caller_count == count_u32(rows.len() as int)
            &&& inputs.changed_lines == facts.changed_lines
            &&& inputs.churn_commits == facts.churn_commits
            &&& inputs.covering_tests == (if node.in_test_file {
                TEST_SATURATION as int
            } else {
                count_u32(covering_count(callers@, caller_facts@, callers@.len() as int))
            })
            &&& inputs.cross_app_callers == count_u32(
                cross_app_count(rows, caller_facts@, app_view(facts.home_app), rows.len() as int),
            )
            &&& inputs.cross_project_callers == count_u32(
                cross_project_count(callers@, rows, node.project_id@, rows.len() as int),
            )
            &&& inputs.flow_name_top == facts.flow_name_top
            &&& inputs.security_keyword == (if node.in_test_file {
                None
            } else {
                facts.security_keyword
            })
        }),
{
    let mut covering: usize = 0;
    for i in 0..callers.len()
        invariant
            callers@.len() == caller_facts@.len(),
            covering == covering_count(callers@, caller_facts@, i as int),
            covering <= i,
    {
        if callers[i].0 != EdgeKind::Contains && caller_facts[i].covering {
            covering = covering + 1;
        }
    }
    let rows = related_rows(callers);
    let ghost row_list = rows_view(rows@);
    assert(row_list.len() == rows@.len());
    let mut cross_app: usize = 0;
    let mut cross_project: usize = 0;
    for i in 0..rows.len()
        invariant
            callers@.len() == caller_facts@.len(),
            rows_valid(callers@, rows@),
            row_list == rows_view(rows@),
            cross_app == cross_app_count(
                row_list,
                caller_facts@,
                app_view(facts.home_app),
                i as int,
            ),
            cross_app <= i,
            cross_project == cross_project_count(
                callers@,
                row_list,
                node.project_id@,
                i as int,
            ),
            cross_project <= i,
    {
        assert(rows@[i as int].0 < callers@.len());
        assert(row_list[i as int].0 == rows@[i as int].0);
        let at: usize = rows[i].0;
        if !same_app(&caller_facts[at].app, &facts.home_app) {
            cross_app = cross_app + 1;
        }
        if !same_text(callers[at].1.project_id.as_str(), node.project_id.as_str()) {
            cross_project = cross_project + 1;
        }
    }
    RiskInputs {
        caller_count: to_u32(rows.len()),
        changed_lines: facts.changed_lines,
        churn_commits: facts.churn_commits,
        covering_tests: if node.in_test_file {
            TEST_SATURATION
        } else {
            to_u32(covering)
        },
        cross_app_callers: to_u32(cross_app),
        cross_project_callers: to_u32(cross_project),
        flow_name_top: facts.flow_name_top,
        security_keyword: if node.in_test_file {
            None
        } else {
            facts.security_keyword
        },
    }
}

// ---------------------------------------------------------------------------
// Listing

/// A scored changed symbol: the factors behind its risk, and its rendered location line.
pub struct ScoredChange {
    pub factors: RiskFactors,
    pub line: String,
}

/// A line ends in a working-tree marker.
pub open spec fn marked_line(line: Seq<char>) -> bool {
    "[M]"@.is_suffix_of(line) || "[A]"@.is_suffix_of(line) || "[D]"@.is_suffix_of(line)
        || "[?]"@.is_suffix_of(line)
}

/// Whether a rendered node line carries a working-tree marker, the trigger for printing the legend
/// that explains them.
pub fn has_working_tree_marker(line: &str) -> (found: bool)
    ensures
        found == marked_line(line@),
{
    ends_with(line, "[M]") || ends_with(line, "[A]") || ends_with(line, "[D]") || ends_with(
        line,
        "[?]",
    )
}

/// The order of changes: descending risk, then descending fan-in, then the rendered line, so two
/// runs over an unchanged working tree agree.
pub open spec fn change_key(change: ScoredChange) -> Seq<PartView> {
    seq![
        PartView::Number(-(change.factors.total.order as int)),
        PartView::Number(-(change.factors.inputs.caller_count as int)),
        PartView::Text(change.line@),
    ]
}

/// The places of the changes in the order they are listed.
pub open spec fn change_order(scored: Seq<ScoredChange>) -> Seq<usize> {
    arranged(
        counting(scored.len()),
        scored.map_values(|change: ScoredChange| change_key(change)),
    )
}

fn order_changes(scored: &[ScoredChange]) -> (order: Vec<usize>)
    ensures
        order@ == change_order(scored@),
        order@.len() == scored@.len(),
        forall|k: int| 0 <= k < order@.len() ==> #[trigger] order@[k] < scored@.len(),
{
    let ghost wanted = scored@.map_values(|change: ScoredChange| change_key(change));
    let mut keys: Vec<Vec<Part>> = Vec::new();
    let mut numbers: Vec<usize> = Vec::new();
    for i in 0..scored.len()
        invariant
            wanted == scored@.map_values(|change: ScoredChange| change_key(change)),
            keys_view(keys@) == wanted.take(i as int),
            numbers@.len() == i,
            forall|k: int| 0 <= k < i ==> #[trigger] numbers@[k] == k,
    {
        let ghost before = keys@;
        let mut key: Vec<Part> = Vec::new();
        key.push(Part::Number(-(scored[i].factors.total.order as i128)));
        key.push(Part::Number(-(scored[i].factors.inputs.caller_count as i128)));
        key.push(Part::Text(scored[i].line.clone()));
        assert(key_view(key) =~= wanted[i as int]);
        keys.push(key);
        numbers.push(i);
        assert(keys_view(keys@) =~= keys_view(before).push(wanted[i as int]));
        assert(wanted.take(i + 1) =~= wanted.take(i as int).push(wanted[i as int]));
    }
    assert(wanted.take(scored@.len() as int) =~= wanted);
    assert(keys@.len() == keys_view(keys@).len());
    assert(numbers@ =~= counting(scored@.len()));
    let order = arrange(numbers.as_slice(), &keys);
    assert forall|k: int| 0 <= k < order@.len() implies #[trigger] order@[k] < scored@.len() by {
        assert(numbers@.contains(order@[k]));
    }
    order
}

/// The reasons behind a score.
pub open spec fn change_reasons(factors: RiskFactors) -> Seq<char> {
    crate::chars::join_spec(
        reasons(
            factors.inputs,
            ranked_factors(factors.contributions@),
            CHANGED_REASONS_MAX as int,
            ranked_factors(factors.contributions@).len() as int,
        ),
        ", "@,
    )
}

/// The first `count` changes at these places, one per line, each with its score and the strongest
/// reasons behind it.
pub open spec fn change_lines(
    scored: Seq<ScoredChange>,
    window: Seq<usize>,
    count: int,
) -> Seq<char>
    decreases count,
{
    if count <= 0 {
        ""@
    } else {
        let change = scored[window[count - 1] as int];
        let reasons = change_reasons(change.factors);
        change_lines(scored, window, count - 1) + "  "@ + change.line@ + "  risk "@
            + change.factors.total.text@ + (if reasons.len() == 0 {
            ""@
        } else {
            " ("@ + reasons + ")"@
        }) + "\n"@
    }
}

/// Some shown change carries a working-tree marker.
pub open spec fn any_marked(scored: Seq<ScoredChange>, window: Seq<usize>) -> bool {
    exists|k: int| 0 <= k < window.len() && marked_line(scored[(#[trigger] window[k]) as int].line@)
}

/// The first `count` notes, one per line.
pub open spec fn note_lines(notes: Seq<Seq<char>>, count: int) -> Seq<char>
    decreases count,
{
    if count <= 0 {
        ""@
    } else {
        note_lines(notes, count - 1) + notes[count - 1] + "\n"@
    }
}

/// The changed symbols ranked by review risk.
pub open spec fn changed_text_spec(
    scored: Seq<ScoredChange>,
    notes: Seq<Seq<char>>,
    discovered: int,
    limit: u32,
    page: Page,
    generation: u64,
) -> Seq<char> {
    let window = slice_spec(change_order(scored), page.offset as int, limit as int);
    if discovered == 0 {
        "no changed symbols (nothing modified, staged, or untracked vs the diff base, or not a git repo)"@
    } else {
        note_text(page) + "changed symbols by review risk ("@ + decimal_spec(window.len())
            + " of "@ + decimal_spec(discovered as nat) + "):\n"@ + (if any_marked(
            scored,
            window,
        ) {
            "  ([M] modified, [A] added, [D] deleted, [?] untracked)\n"@
        } else {
            ""@
        }) + change_lines(scored, window, window.len() as int) + next_text(
            page.offset as int,
            window.len() as int,
            scored.len() as int,
            generation,
        ) + (if discovered > scored.len() {
            "(+"@ + decimal_spec((discovered - scored.len()) as nat)
                + " changed symbols not scored; narrow with base=)\n"@
        } else {
            ""@
        }) + note_lines(notes, notes.len() as int)
    }
}

/// The changed symbols ranked by review risk: one line per shown symbol with its score and the
/// strongest reasons behind it, then what was not scored and why a factor was dropped. Nothing is
/// ever truncated silently. `discovered` is how many symbols changed, of which up to
/// [`CHANGED_SCORED_MAX`] are scored.
pub fn changed_text(
    scored: &[ScoredChange],
    notes: &[String],
    discovered: usize,
    limit: u32,
    page: &Page,
    generation: u64,
) -> (text: String)
    requires
        scored@.len() <= CHANGED_SCORED_MAX,
    ensures
        text@ == changed_text_spec(
            scored@,
            views(notes@),
            discovered as int,
            limit,
            *page,
            generation,
        ),
{
    if discovered == 0 {
        return copy(
            "no changed symbols (nothing modified, staged, or untracked vs the diff base, or not a git repo)",
        );
    }
    let order = order_changes(scored);
    let window = slice(order.as_slice(), page.offset, limit as usize);
    assert forall|k: int| 0 <= k < window@.len() implies #[trigger] window@[k] < scored@.len() by {
        assert(window@[k] == order@[page.offset + k]);
    }
    let mut marked = false;
    let mut listed = copy("");
    for i in 0..window.len()
        invariant
            forall|k: int| 0 <= k < window@.len() ==> #[trigger] window@[k] < scored@.len(),
            marked == exists|k: int|
                0 <= k < i && marked_line(scored@[(#[trigger] window@[k]) as int].line@),
            listed@ == change_lines(scored@, window@, i as int),
    {
        assert(window@[i as int] < scored@.len());
        let change = &scored[window[i]];
        if has_working_tree_marker(change.line.as_str()) {
            marked = true;
        }
        let summary = change.factors.summary(CHANGED_REASONS_MAX);
        let reasons = if summary.as_str().is_empty() {
            copy("")
        } else {
            cat3(" (", summary.as_str(), ")")
        };
        listed.append("  ");
        listed.append(change.line.as_str());
        listed.append("  risk ");
        listed.append(change.factors.total.text.as_str());
        listed.append(reasons.as_str());
        listed.append("\n");
    }
    let mut noted = copy("");
    for i in 0..notes.len()
        invariant
            noted@ == note_lines(views(notes@), i as int),
    {
        noted.append(notes[i].as_str());
        noted.append("\n");
    }
    assert(views(notes@).len() == notes@.len());
    let mut text = note_line(page);
    text.append("changed symbols by review risk (");
    text.append(decimal_usize(window.len()).as_str());
    text.append(" of ");
    text.append(decimal_usize(discovered).as_str());
    text.append("):\n");
    text.append(
        if marked {
            "  ([M] modified, [A] added, [D] deleted, [?] untracked)\n"
        } else {
            ""
        },
    );
    text.append(listed.as_str());
    text.append(next_text_line(page.offset, window.len(), scored.len(), generation).as_str());
    let unscored = if discovered > scored.len() {
        cat3(
            "(+",
            decimal_usize(discovered - scored.len()).as_str(),
            " changed symbols not scored; narrow with base=)\n",
        )
    } else {
        copy("")
    };
    text.append(unscored.as_str());
    text.append(noted.as_str());
    text
}

/// The highest risk comes first: of two listed changes the earlier has no lower risk, at equal risk
/// no fewer callers, and at equal callers no later line.
pub proof fn law_changes_are_ranked_by_risk(scored: Seq<ScoredChange>, a: int, b: int)
    requires
        0 <= a < b < scored.len(),
        scored.len() <= usize::MAX,
    ensures
        ({
            let first = scored[change_order(scored)[a] as int];
            let second = scored[change_order(scored)[b] as int];
            &&& first.factors.total.order >= second.factors.total.order
            &&& first.factors.total.order == second.factors.total.order
                ==> first.factors.inputs.caller_count >= second.factors.inputs.caller_count
            &&& first.factors.total.order == second.factors.total.order
                && first.factors.inputs.caller_count == second.factors.inputs.caller_count
                ==> !text_less(second.line@, first.line@)
        }),
{
    let keys = scored.map_values(|change: ScoredChange| change_key(change));
    law_arranging_sorts(keys, a, b);
    let first = keys[sorted_order(keys)[a]];
    let second = keys[sorted_order(keys)[b]];
    lemma_not_after(first, second);
    if first[0] == second[0] {
        lemma_not_after(first.skip(1), second.skip(1));
        if first[1] == second[1] {
            lemma_not_after(first.skip(1).skip(1), second.skip(1).skip(1));
        }
    }
}

/// Every change is listed, and none twice.
pub proof fn law_every_change_is_listed(scored: Seq<ScoredChange>, place: usize)
    requires
        scored.len() <= usize::MAX,
        place < scored.len(),
    ensures
        change_order(scored).len() == scored.len(),
        change_order(scored).contains(place),
        change_order(scored).no_duplicates(),
{
    let keys = scored.map_values(|change: ScoredChange| change_key(change));
    let numbers = counting(scored.len());
    law_arranging_keeps_the_items(numbers, keys);
    assert(numbers[place as int] == place);
}

proof fn lemma_found_in_file(before: FoundView, files: Seq<TouchedFile>, file: int, count: int)
    requires
        0 <= count <= files[file].nodes@.len(),
        before.seen.no_duplicates(),
        before.seen.len() == before.candidates.len(),
    ensures
        ({
            let found = found_in_file(before, files, file, count);
            &&& found.seen.no_duplicates()
            &&& found.seen.len() == found.candidates.len()
            &&& before.seen.is_prefix_of(found.seen)
            &&& forall|n: int|
                0 <= n < count ==> found.seen.contains((#[trigger] files[file].nodes@[n]).id@)
        }),
    decreases count,
{
    if count > 0 {
        lemma_found_in_file(before, files, file, count - 1);
        let found = found_in_file(before, files, file, count - 1);
        let after = found_in_file(before, files, file, count);
        let id = files[file].nodes@[count - 1].id@;
        lemma_key_at(found.seen, id, 0);
        assert forall|n: int| 0 <= n < count implies after.seen.contains(
            (#[trigger] files[file].nodes@[n]).id@,
        ) by {
            if n < count - 1 {
                let k = choose|k: int|
                    0 <= k < found.seen.len() && found.seen[k] == files[file].nodes@[n].id@;
                assert(after.seen[k] == files[file].nodes@[n].id@);
            } else if after.seen.len() > found.seen.len() {
                assert(after.seen.last() == id);
            }
        }
    }
}

/// A changed symbol is a candidate once: every definition that the diff touches is seen, no id is
/// seen twice, and there are as many candidates as ids.
pub proof fn law_candidates_are_distinct(files: Seq<TouchedFile>, count: int)
    requires
        0 <= count <= files.len(),
    ensures
        found_upto(files, count).seen.no_duplicates(),
        found_upto(files, count).seen.len() == found_upto(files, count).candidates.len(),
        forall|f: int, n: int|
            0 <= f < count && 0 <= n < files[f].nodes@.len() ==> found_upto(
                files,
                count,
            ).seen.contains((#[trigger] files[f].nodes@[n]).id@),
    decreases count,
{
    if count > 0 {
        law_candidates_are_distinct(files, count - 1);
        let before = found_upto(files, count - 1);
        let after = found_upto(files, count);
        lemma_found_in_file(before, files, count - 1, files[count - 1].nodes@.len() as int);
        assert forall|f: int, n: int|
            0 <= f < count && 0 <= n < files[f].nodes@.len() implies after.seen.contains(
            (#[trigger] files[f].nodes@[n]).id@,
        ) by {
            if f < count - 1 {
                let k = choose|k: int|
                    0 <= k < before.seen.len() && before.seen[k] == files[f].nodes@[n].id@;
                assert(after.seen[k] == files[f].nodes@[n].id@);
            }
        }
    }
}

// ---------------------------------------------------------------------------
// What is measured

/// The tests that cover a symbol are counted one by one: the count is the number of places in the
/// list of callers at which the edge is no containment and the caller is a covering test. So it is
/// positive whenever one covering test calls the symbol, and zero when none does.
pub proof fn law_covering_tests_are_counted(
    callers: Seq<(EdgeKind, Node)>,
    facts: Seq<CallerFacts>,
)
    requires
        callers.len() == facts.len(),
    ensures
        covering_count(callers, facts, callers.len() as int) == indices(
            callers.len() as int,
            |i: int| callers[i].0 != EdgeKind::Contains && facts[i].covering,
        ).len(),
        covering_count(callers, facts, callers.len() as int) > 0 <==> exists|i: int|
            0 <= i < callers.len() && (#[trigger] callers[i]).0 != EdgeKind::Contains
                && facts[i].covering,
{
    lemma_covering_count(callers, facts, callers.len() as int);
}

proof fn lemma_covering_count(
    callers: Seq<(EdgeKind, Node)>,
    facts: Seq<CallerFacts>,
    count: int,
)
    requires
        0 <= count <= callers.len(),
        callers.len() == facts.len(),
    ensures
        covering_count(callers, facts, count) == indices(
            count,
            |i: int| callers[i].0 != EdgeKind::Contains && facts[i].covering,
        ).len(),
        covering_count(callers, facts, count) > 0 <==> exists|i: int|
            0 <= i < count && (#[trigger] callers[i]).0 != EdgeKind::Contains && facts[i].covering,
    decreases count,
{
    let holds = |i: int| callers[i].0 != EdgeKind::Contains && facts[i].covering;
    lemma_indices(count, holds);
    if count > 0 {
        lemma_covering_count(callers, facts, count - 1);
        lemma_indices(count - 1, holds);
        if callers[count - 1].0 != EdgeKind::Contains && facts[count - 1].covering {
            assert(callers[count - 1].0 != EdgeKind::Contains);
        } else if covering_count(callers, facts, count - 1) > 0 {
            let i = choose|i: int|
                0 <= i < count - 1 && (#[trigger] callers[i]).0 != EdgeKind::Contains
                    && facts[i].covering;
            assert(callers[i].0 != EdgeKind::Contains);
        }
    }
}

/// The callers that live in another app, and those that live in another project, are counted one
/// by one.
pub proof fn law_crossing_callers_are_counted(
    callers: Seq<(EdgeKind, Node)>,
    facts: Seq<CallerFacts>,
    rows: Seq<(int, int)>,
    app: Option<Seq<char>>,
    project: Seq<char>,
    count: int,
)
    requires
        0 <= count <= rows.len(),
    ensures
        cross_app_count(rows, facts, app, count) == indices(
            count,
            |k: int| app_view(facts[rows[k].0].app) != app,
        ).len(),
        cross_project_count(callers, rows, project, count) == indices(
            count,
            |k: int| callers[rows[k].0].1.project_id@ != project,
        ).len(),
    decreases count,
{
    lemma_indices(count, |k: int| app_view(facts[rows[k].0].app) != app);
    lemma_indices(count, |k: int| callers[rows[k].0].1.project_id@ != project);
    if count > 0 {
        law_crossing_callers_are_counted(callers, facts, rows, app, project, count - 1);
    }
}

/// Every definition that a diff touches is a candidate, once by its id.
pub proof fn law_every_touched_definition_is_a_candidate(
    files: Seq<TouchedFile>,
    file: int,
    node: int,
)
    requires
        0 <= file < files.len(),
        0 <= node < files[file].nodes@.len(),
    ensures
        found_upto(files, files.len() as int).seen.contains(files[file].nodes@[node].id@),
        found_upto(files, files.len() as int).seen.len() == found_upto(
            files,
            files.len() as int,
        ).candidates.len(),
{
    lemma_found_holds(files, files.len() as int, file, node);
}

proof fn lemma_found_here(
    before: FoundView,
    files: Seq<TouchedFile>,
    file: int,
    count: int,
    id: Seq<char>,
)
    requires
        0 <= count <= files[file].nodes@.len(),
        before.seen.len() == before.candidates.len(),
    ensures
        ({
            let after = found_in_file(before, files, file, count);
            &&& after.seen.len() == after.candidates.len()
            &&& before.seen.contains(id) ==> after.seen.contains(id)
            &&& (exists|k: int| 0 <= k < count && (#[trigger] files[file].nodes@[k]).id@ == id)
                ==> after.seen.contains(id)
        }),
    decreases count,
{
    if count > 0 {
        lemma_found_here(before, files, file, count - 1, id);
        let known = found_in_file(before, files, file, count - 1);
        let after = found_in_file(before, files, file, count);
        let last = files[file].nodes@[count - 1].id@;
        lemma_key_at(known.seen, last, 0);
        if known.seen.contains(id) {
            let k = choose|k: int| 0 <= k < known.seen.len() && known.seen[k] == id;
            assert(after.seen[k] == id);
        }
        if last == id {
            if key_at(known.seen, last, 0) is Some {
                assert(after.seen[key_at(known.seen, last, 0)->0] == id);
            } else {
                assert(after.seen[after.seen.len() - 1] == id);
            }
        }
    }
}

proof fn lemma_found_holds(files: Seq<TouchedFile>, count: int, file: int, node: int)
    requires
        0 <= count <= files.len(),
        0 <= file < files.len(),
        0 <= node < files[file].nodes@.len(),
    ensures
        file < count ==> found_upto(files, count).seen.contains(files[file].nodes@[node].id@),
        found_upto(files, count).seen.len() == found_upto(files, count).candidates.len(),
    decreases count,
{
    if count > 0 {
        lemma_found_holds(files, count - 1, file, node);
        lemma_found_here(
            found_upto(files, count - 1),
            files,
            count - 1,
            files[count - 1].nodes@.len() as int,
            files[file].nodes@[node].id@,
        );
        if file == count - 1 {
            assert(files[file].nodes@[node].id@ == files[file].nodes@[node].id@);
        }
    }
}

} // verus!
