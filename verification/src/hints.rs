//! A single trailing `next:` line suggesting the follow-up call.
//!
//! Three rules keep it from becoming noise:
//!
//! 1. One line, never two. A response with two suggestions has none.
//! 2. Never suggest a tool whose precondition is unmet. No `affected_flows` when no flows are
//!    computed, no `tests` when nothing was uncovered, no `impact` when no symbol was named.
//! 3. Silence at the byte budget. A response already at its cap gives up content to make room for
//!    a hint, which is a bad trade.
use crate::chars::{cat5, lemma_first_from, occurs_at, same_text, split_once, split_once_spec};
use crate::numbers::{self, lemma_indices};
use std::collections::VecDeque;
use vstd::prelude::*;

verus! {

/// The tool names a session's intent is inferred from.
pub const HINT_HISTORY_MAX: usize = 8;

/// The tool is part of a review sequence. A session dominated by these gets review follow-ups
/// suggested ahead of exploration ones.
pub open spec fn review_tool(tool: Seq<char>) -> bool {
    tool == "constellation_affected_flows"@ || tool == "constellation_changed"@ || tool
        == "constellation_impact"@ || tool == "constellation_symbol_history"@ || tool
        == "constellation_tests"@
}

fn is_review_tool(tool: &str) -> (found: bool)
    ensures
        found == review_tool(tool@),
{
    same_text(tool, "constellation_affected_flows") || same_text(tool, "constellation_changed")
        || same_text(tool, "constellation_impact") || same_text(tool, "constellation_symbol_history")
        || same_text(tool, "constellation_tests")
}

/// The facts about what a response contained, which decide whether a candidate follow-up's
/// precondition holds.
#[derive(Clone, Debug)]
pub struct HintFacts {
    /// Whether the response is already at its byte budget, in which case no hint is emitted.
    pub at_byte_budget: bool,
    /// Whether any flow has been computed, the precondition for suggesting the flow tools.
    pub flows_available: bool,
    /// Whether the response contained a symbol with no covering test.
    pub has_uncovered_symbol: bool,
    /// Whether the response contained a Django model.
    pub named_model: bool,
    /// A symbol the response named, which the follow-up would target.
    pub named_symbol: Option<String>,
}

impl Default for HintFacts {
    fn default() -> (facts: HintFacts)
        ensures
            !facts.at_byte_budget,
            !facts.flows_available,
            !facts.has_uncovered_symbol,
            !facts.named_model,
            facts.named_symbol is None,
    {
        HintFacts {
            at_byte_budget: false,
            flows_available: false,
            has_uncovered_symbol: false,
            named_model: false,
            named_symbol: None,
        }
    }
}

/// The last few tool names, as the session's inferred intent.
#[derive(Debug)]
pub struct SessionIntent {
    recent: VecDeque<&'static str>,
}

impl View for SessionIntent {
    type V = Seq<Seq<char>>;

    closed spec fn view(&self) -> Seq<Seq<char>> {
        self.recent@.map_values(|tool: &'static str| tool@)
    }
}

/// How many of the tools are review tools.
pub open spec fn review_count(tools: Seq<Seq<char>>) -> int
    decreases tools.len(),
{
    if tools.len() == 0 {
        0
    } else {
        review_count(tools.drop_last()) + if review_tool(tools.last()) {
            1int
        } else {
            0
        }
    }
}

/// At least half the remembered calls are review tools, and there is something to judge from.
pub open spec fn reviewing(tools: Seq<Seq<char>>) -> bool {
    tools.len() > 0 && review_count(tools) * 2 >= tools.len()
}

impl Default for SessionIntent {
    /// An empty intent.
    fn default() -> (intent: SessionIntent)
        ensures
            intent.wf(),
            intent@ == Seq::<Seq<char>>::empty(),
    {
        SessionIntent::new()
    }
}

impl SessionIntent {
    /// The window holds no more calls than it may.
    pub open spec fn wf(self) -> bool {
        self@.len() <= HINT_HISTORY_MAX
    }

    /// An empty intent, which reads as exploration until proven otherwise.
    pub fn new() -> (intent: SessionIntent)
        ensures
            intent.wf(),
            intent@ == Seq::<Seq<char>>::empty(),
    {
        let intent = SessionIntent { recent: VecDeque::new() };
        assert(intent@ =~= Seq::empty());
        intent
    }

    /// A tool call recorded, evicting the oldest past [`HINT_HISTORY_MAX`].
    pub fn record(&mut self, tool: &'static str)
        requires
            old(self).wf(),
        ensures
            final(self).wf(),
            final(self)@ == (if old(self)@.len() < HINT_HISTORY_MAX {
                old(self)@.push(tool@)
            } else {
                old(self)@.push(tool@).skip(1)
            }),
    {
        let ghost before = self@;
        assert(before.len() == self.recent@.len());
        self.recent.push_back(tool);
        assert(self@ =~= before.push(tool@));
        if self.recent.len() > HINT_HISTORY_MAX {
            let ghost full = self@;
            self.recent.pop_front();
            assert(self@ =~= full.skip(1));
        }
    }

    /// Whether the session is reviewing rather than exploring: at least half the remembered calls
    /// are review tools, and there is something to judge from.
    pub fn is_reviewing(&self) -> (found: bool)
        requires
            self.wf(),
        ensures
            found == reviewing(self@),
    {
        let count: usize = self.recent.len();
        assert(self@.len() == count);
        if count == 0 {
            return false;
        }
        let mut seen: usize = 0;
        for i in 0..count
            invariant
                count == self.recent@.len(),
                self@.len() == count,
                seen == review_count(self@.take(i as int)),
                seen <= i,
                count <= HINT_HISTORY_MAX,
        {
            assert(self@.take(i + 1).drop_last() =~= self@.take(i as int));
            assert(self@[i as int] == self.recent@[i as int]@);
            if is_review_tool(self.recent[i]) {
                seen += 1;
            }
        }
        assert(self@.take(count as int) =~= self@);
        seen * 2 >= count
    }

    /// The number of calls remembered.
    pub fn len(&self) -> (count: usize)
        ensures
            count == self@.len(),
    {
        assert(self@.len() == self.recent@.len());
        self.recent.len()
    }

    /// Whether nothing has been recorded yet.
    pub fn is_empty(&self) -> (empty: bool)
        ensures
            empty == (self@.len() == 0),
    {
        assert(self@.len() == self.recent@.len());
        self.recent.len() == 0
    }
}

/// The condition a response must satisfy for a candidate to be offered.
#[derive(Clone, Copy, Debug, PartialEq, Eq, Structural)]
pub enum Precondition {
    /// The precondition that always holds.
    Always,
    /// The precondition that flows have been computed.
    FlowsAvailable,
    /// The precondition that the response named a model.
    NamedModel,
    /// The precondition that the response named a symbol.
    NamedSymbol,
    /// The precondition that the response contained an uncovered symbol.
    Uncovered,
}

impl Precondition {
    /// The precondition holds for a given response.
    pub open spec fn met(self, facts: HintFacts) -> bool {
        match self {
            Precondition::Always => true,
            Precondition::FlowsAvailable => facts.flows_available,
            Precondition::NamedModel => facts.named_model,
            Precondition::NamedSymbol => facts.named_symbol is Some,
            Precondition::Uncovered => facts.has_uncovered_symbol,
        }
    }

    /// Whether this precondition holds for a given response.
    pub fn holds(self, facts: &HintFacts) -> (held: bool)
        ensures
            held == self.met(*facts),
    {
        match self {
            Precondition::Always => true,
            Precondition::FlowsAvailable => facts.flows_available,
            Precondition::NamedModel => facts.named_model,
            Precondition::NamedSymbol => facts.named_symbol.is_some(),
            Precondition::Uncovered => facts.has_uncovered_symbol,
        }
    }
}

/// A candidate follow-up: which tool, whether it belongs to a review sequence, and the phrasing
/// shown when it wins.
pub struct Candidate {
    pub phrasing: &'static str,
    pub precondition: Precondition,
    pub review: bool,
}

/// A candidate follow-up as a value.
pub struct CandidateView {
    pub phrasing: Seq<char>,
    pub precondition: Precondition,
    pub review: bool,
}

impl View for Candidate {
    type V = CandidateView;

    open spec fn view(&self) -> CandidateView {
        CandidateView {
            phrasing: self.phrasing@,
            precondition: self.precondition,
            review: self.review,
        }
    }
}

/// The follow-up candidates for one tool, in preference order before the session-intent
/// reordering.
pub open spec fn candidates_spec(tool: Seq<char>) -> Seq<CandidateView> {
    if tool == "constellation_changed"@ {
        seq![
            CandidateView { phrasing: "affected_flows to see which user-facing flows this diff touches"@, precondition: Precondition::FlowsAvailable, review: true },
            CandidateView { phrasing: "tests on the top-risk symbol to find what guards it"@, precondition: Precondition::Uncovered, review: true },
            CandidateView { phrasing: "impact on the top-risk symbol for its blast radius"@, precondition: Precondition::NamedSymbol, review: true },
        ]
    } else if tool == "constellation_explore"@ {
        seq![
            CandidateView { phrasing: "tests to check what covers the uncovered symbols above"@, precondition: Precondition::Uncovered, review: true },
            CandidateView { phrasing: "model for that model's effective schema across its bases"@, precondition: Precondition::NamedModel, review: false },
            CandidateView { phrasing: "impact to see what depends on this before changing it"@, precondition: Precondition::NamedSymbol, review: true },
        ]
    } else if tool == "constellation_search"@ {
        seq![
            CandidateView { phrasing: "explore with the same query to read the code, not just the locations"@, precondition: Precondition::Always, review: false },
        ]
    } else if tool == "constellation_node"@ {
        seq![
            CandidateView { phrasing: "callers to see how it is used, with each call site's source line"@, precondition: Precondition::NamedSymbol, review: false },
            CandidateView { phrasing: "impact for the transitive blast radius"@, precondition: Precondition::NamedSymbol, review: true },
        ]
    } else if tool == "constellation_callers"@ || tool == "constellation_callees"@ {
        seq![
            CandidateView { phrasing: "impact for the transitive picture, not just one hop"@, precondition: Precondition::NamedSymbol, review: true },
        ]
    } else if tool == "constellation_impact"@ {
        seq![
            CandidateView { phrasing: "tests to find what guards this before changing it"@, precondition: Precondition::Uncovered, review: true },
            CandidateView { phrasing: "affected_flows to see the user-facing paths involved"@, precondition: Precondition::FlowsAvailable, review: true },
        ]
    } else if tool == "constellation_tests"@ {
        seq![
            CandidateView { phrasing: "impact to see everything a change here would reach"@, precondition: Precondition::NamedSymbol, review: true },
        ]
    } else if tool == "constellation_model"@ {
        seq![
            CandidateView { phrasing: "subclasses to see every type inheriting these fields"@, precondition: Precondition::NamedModel, review: false },
            CandidateView { phrasing: "impact before changing a field or relation"@, precondition: Precondition::NamedSymbol, review: true },
        ]
    } else if tool == "constellation_overview"@ {
        seq![
            CandidateView { phrasing: "flows for the execution paths ranked by criticality"@, precondition: Precondition::FlowsAvailable, review: false },
            CandidateView { phrasing: "routes for the URL surface, then explore for the code"@, precondition: Precondition::Always, review: false },
        ]
    } else if tool == "constellation_routes"@ {
        seq![
            CandidateView { phrasing: "feature on a route name for its whole vertical slice"@, precondition: Precondition::Always, review: false },
        ]
    } else if tool == "constellation_flows"@ {
        seq![
            CandidateView { phrasing: "feature on a flow's entry point for its vertical slice"@, precondition: Precondition::Always, review: false },
        ]
    } else if tool == "constellation_affected_flows"@ {
        seq![
            CandidateView { phrasing: "impact on the symbols inside the most critical flow"@, precondition: Precondition::NamedSymbol, review: true },
        ]
    } else if tool == "constellation_at"@ {
        seq![
            CandidateView { phrasing: "callers on that symbol to see what reached it"@, precondition: Precondition::NamedSymbol, review: false },
        ]
    } else if tool == "constellation_files"@ {
        seq![
            CandidateView { phrasing: "explore with an identifier from that area to read the code"@, precondition: Precondition::Always, review: false },
        ]
    } else {
        Seq::empty()
    }
}

pub fn candidates(tool: &str) -> (found: Vec<Candidate>)
    ensures
        found@.map_values(|candidate: Candidate| candidate@) == candidates_spec(tool@),
{
    let mut found: Vec<Candidate> = Vec::new();
    if same_text(tool, "constellation_changed") {
        found.push(Candidate { phrasing: "affected_flows to see which user-facing flows this diff touches", precondition: Precondition::FlowsAvailable, review: true });
        found.push(Candidate { phrasing: "tests on the top-risk symbol to find what guards it", precondition: Precondition::Uncovered, review: true });
        found.push(Candidate { phrasing: "impact on the top-risk symbol for its blast radius", precondition: Precondition::NamedSymbol, review: true });
    } else if same_text(tool, "constellation_explore") {
        found.push(Candidate { phrasing: "tests to check what covers the uncovered symbols above", precondition: Precondition::Uncovered, review: true });
        found.push(Candidate { phrasing: "model for that model's effective schema across its bases", precondition: Precondition::NamedModel, review: false });
        found.push(Candidate { phrasing: "impact to see what depends on this before changing it", precondition: Precondition::NamedSymbol, review: true });
    } else if same_text(tool, "constellation_search") {
        found.push(Candidate { phrasing: "explore with the same query to read the code, not just the locations", precondition: Precondition::Always, review: false });
    } else if same_text(tool, "constellation_node") {
        found.push(Candidate { phrasing: "callers to see how it is used, with each call site's source line", precondition: Precondition::NamedSymbol, review: false });
        found.push(Candidate { phrasing: "impact for the transitive blast radius", precondition: Precondition::NamedSymbol, review: true });
    } else if same_text(tool, "constellation_callers") || same_text(tool, "constellation_callees") {
        found.push(Candidate { phrasing: "impact for the transitive picture, not just one hop", precondition: Precondition::NamedSymbol, review: true });
    } else if same_text(tool, "constellation_impact") {
        found.push(Candidate { phrasing: "tests to find what guards this before changing it", precondition: Precondition::Uncovered, review: true });
        found.push(Candidate { phrasing: "affected_flows to see the user-facing paths involved", precondition: Precondition::FlowsAvailable, review: true });
    } else if same_text(tool, "constellation_tests") {
        found.push(Candidate { phrasing: "impact to see everything a change here would reach", precondition: Precondition::NamedSymbol, review: true });
    } else if same_text(tool, "constellation_model") {
        found.push(Candidate { phrasing: "subclasses to see every type inheriting these fields", precondition: Precondition::NamedModel, review: false });
        found.push(Candidate { phrasing: "impact before changing a field or relation", precondition: Precondition::NamedSymbol, review: true });
    } else if same_text(tool, "constellation_overview") {
        found.push(Candidate { phrasing: "flows for the execution paths ranked by criticality", precondition: Precondition::FlowsAvailable, review: false });
        found.push(Candidate { phrasing: "routes for the URL surface, then explore for the code", precondition: Precondition::Always, review: false });
    } else if same_text(tool, "constellation_routes") {
        found.push(Candidate { phrasing: "feature on a route name for its whole vertical slice", precondition: Precondition::Always, review: false });
    } else if same_text(tool, "constellation_flows") {
        found.push(Candidate { phrasing: "feature on a flow's entry point for its vertical slice", precondition: Precondition::Always, review: false });
    } else if same_text(tool, "constellation_affected_flows") {
        found.push(Candidate { phrasing: "impact on the symbols inside the most critical flow", precondition: Precondition::NamedSymbol, review: true });
    } else if same_text(tool, "constellation_at") {
        found.push(Candidate { phrasing: "callers on that symbol to see what reached it", precondition: Precondition::NamedSymbol, review: false });
    } else if same_text(tool, "constellation_files") {
        found.push(Candidate { phrasing: "explore with an identifier from that area to read the code", precondition: Precondition::Always, review: false });
    }
    assert(found@.map_values(|candidate: Candidate| candidate@) =~= candidates_spec(tool@));
    found
}

/// The first candidate, from `from` on, whose precondition holds, and which is a review
/// follow-up or not as asked where that is asked.
pub open spec fn first_fit(
    candidates: Seq<CandidateView>,
    facts: HintFacts,
    review: Option<bool>,
    from: int,
) -> Option<int>
    decreases candidates.len() - from,
{
    if from < 0 || from >= candidates.len() {
        None
    } else if candidates[from].precondition.met(facts) && (review is Some ==> candidates[from].review
        == review->0) {
        Some(from)
    } else {
        first_fit(candidates, facts, review, from + 1)
    }
}

/// The candidate that is offered: the first that fits the session's intent, else the first whose
/// precondition holds.
pub open spec fn chosen_candidate(
    candidates: Seq<CandidateView>,
    facts: HintFacts,
    reviewing: bool,
) -> Option<int> {
    match first_fit(candidates, facts, Some(reviewing), 0) {
        Some(at) => Some(at),
        None => first_fit(candidates, facts, None, 0),
    }
}

/// The line that offers a follow-up: its tool in backticks, then the rest of its phrasing.
pub open spec fn hint_line(phrasing: Seq<char>) -> Seq<char> {
    match split_once_spec(phrasing, " "@) {
        Some((name, rest)) => "next: `"@ + name + "` "@ + rest + "\n"@,
        None => "next: `"@ + phrasing + "` "@ + ""@ + "\n"@,
    }
}

/// The follow-up line for one response.
pub open spec fn hint_spec(tool: Seq<char>, facts: HintFacts, reviewing: bool) -> Option<Seq<char>> {
    if facts.at_byte_budget {
        None
    } else {
        match chosen_candidate(candidates_spec(tool), facts, reviewing) {
            Some(at) => Some(hint_line(candidates_spec(tool)[at].phrasing)),
            None => None,
        }
    }
}

fn find_fit(candidates: &Vec<Candidate>, facts: &HintFacts, review: Option<bool>) -> (found: Option<usize>)
    ensures
        match found {
            Some(at) => at < candidates@.len() && first_fit(
                candidates@.map_values(|candidate: Candidate| candidate@),
                *facts,
                review,
                0,
            ) == Some(at as int),
            None => first_fit(
                candidates@.map_values(|candidate: Candidate| candidate@),
                *facts,
                review,
                0,
            ) is None,
        },
{
    let ghost all = candidates@.map_values(|candidate: Candidate| candidate@);
    let mut i: usize = 0;
    while i < candidates.len()
        invariant
            all == candidates@.map_values(|candidate: Candidate| candidate@),
            i <= candidates@.len(),
            first_fit(all, *facts, review, 0) == first_fit(all, *facts, review, i as int),
        decreases candidates@.len() - i,
    {
        assert(all[i as int] == candidates@[i as int]@);
        let wanted: bool = match review {
            Some(review) => candidates[i].review == review,
            None => true,
        };
        if candidates[i].precondition.holds(facts) && wanted {
            return Some(i);
        }
        i += 1;
    }
    None
}

/// A hint as a value.
pub open spec fn hint_view(line: Option<String>) -> Option<Seq<char>> {
    match line {
        Some(line) => Some(line@),
        None => None,
    }
}

/// The single follow-up line for one response, or `None` when nothing applies.
///
/// Deterministic for a given tool, facts and intent: the candidate order is fixed and the intent
/// reordering is a stable partition. The suggested tool is backticked, so it reads as the tool to
/// find in the client's own list rather than as a name to call.
pub fn hint(tool: &str, facts: &HintFacts, intent: &SessionIntent) -> (line: Option<String>)
    requires
        intent.wf(),
    ensures
        hint_view(line) == hint_spec(tool@, *facts, reviewing(intent@)),
{
    if facts.at_byte_budget {
        return None;
    }
    let candidates = candidates(tool);
    let reviewing = intent.is_reviewing();
    let chosen: Option<usize> = match find_fit(&candidates, facts, Some(reviewing)) {
        Some(at) => Some(at),
        None => find_fit(&candidates, facts, None),
    };
    match chosen {
        Some(at) => {
            assert(candidates_spec(tool@)[at as int] == candidates@[at as int]@);
            let phrasing = candidates[at].phrasing;
            match split_once(phrasing, " ") {
                Some((name, rest)) => Some(
                    cat5("next: `", name.as_str(), "` ", rest.as_str(), "\n"),
                ),
                None => Some(cat5("next: `", phrasing, "` ", "", "\n")),
            }
        },
        None => None,
    }
}

proof fn lemma_first_fit(
    candidates: Seq<CandidateView>,
    facts: HintFacts,
    review: Option<bool>,
    from: int,
)
    requires
        0 <= from,
    ensures
        match first_fit(candidates, facts, review, from) {
            Some(at) => from <= at < candidates.len() && candidates[at].precondition.met(facts) && (
            review is Some ==> candidates[at].review == review->0),
            None => forall|k: int|
                from <= k < candidates.len() ==> !((#[trigger] candidates[k]).precondition.met(facts)
                    && (review is Some ==> candidates[k].review == review->0)),
        },
    decreases candidates.len() - from,
{
    if from < candidates.len() {
        lemma_first_fit(candidates, facts, review, from + 1);
    }
}

/// A hint never offers a follow-up whose precondition is unmet, and it is silent exactly at the
/// byte budget or when no candidate's precondition holds.
pub proof fn law_hint_meets_its_precondition(tool: Seq<char>, facts: HintFacts, reviewing: bool)
    ensures
        match hint_spec(tool, facts, reviewing) {
            Some(line) => !facts.at_byte_budget && exists|i: int|
                0 <= i < candidates_spec(tool).len() && (#[trigger] candidates_spec(
                    tool,
                )[i]).precondition.met(facts) && line == hint_line(candidates_spec(tool)[i].phrasing),
            None => facts.at_byte_budget || forall|i: int|
                0 <= i < candidates_spec(tool).len() ==> !(#[trigger] candidates_spec(
                    tool,
                )[i]).precondition.met(facts),
        },
{
    lemma_first_fit(candidates_spec(tool), facts, Some(reviewing), 0);
    lemma_first_fit(candidates_spec(tool), facts, None, 0);
}

/// The text opens with these two characters.
spec fn opens(text: Seq<char>, first: char, second: char) -> bool {
    text.len() >= 2 && text[0] == first && text[1] == second
}

/// What stands in the way of each follow-up, told by how it opens.
spec fn guarded(candidate: CandidateView) -> bool {
    let phrasing = candidate.phrasing;
    &&& phrasing.len() >= 2
    &&& phrasing[0] != ' ' && phrasing[1] != ' '
    &&& opens(phrasing, 't', 'e') ==> candidate.precondition == Precondition::Uncovered
    &&& opens(phrasing, 'a', 'f') ==> candidate.precondition == Precondition::FlowsAvailable
    &&& opens(phrasing, 'f', 'l') ==> candidate.precondition == Precondition::FlowsAvailable
    &&& opens(phrasing, 'i', 'm') ==> candidate.precondition == Precondition::NamedSymbol
}

proof fn lemma_candidates_are_guarded(tool: Seq<char>)
    ensures
        forall|i: int|
            0 <= i < candidates_spec(tool).len() ==> guarded(#[trigger] candidates_spec(tool)[i]),
{
    assert(opens("affected_flows to see which user-facing flows this diff touches"@, 'a', 'f')) by {
        reveal_strlit("affected_flows to see which user-facing flows this diff touches");
    }
    assert(opens("tests on the top-risk symbol to find what guards it"@, 't', 'e')) by {
        reveal_strlit("tests on the top-risk symbol to find what guards it");
    }
    assert(opens("impact on the top-risk symbol for its blast radius"@, 'i', 'm')) by {
        reveal_strlit("impact on the top-risk symbol for its blast radius");
    }
    assert(opens("tests to check what covers the uncovered symbols above"@, 't', 'e')) by {
        reveal_strlit("tests to check what covers the uncovered symbols above");
    }
    assert(opens("model for that model's effective schema across its bases"@, 'm', 'o')) by {
        reveal_strlit("model for that model's effective schema across its bases");
    }
    assert(opens("impact to see what depends on this before changing it"@, 'i', 'm')) by {
        reveal_strlit("impact to see what depends on this before changing it");
    }
    assert(opens("explore with the same query to read the code, not just the locations"@, 'e', 'x')) by {
        reveal_strlit("explore with the same query to read the code, not just the locations");
    }
    assert(opens("callers to see how it is used, with each call site's source line"@, 'c', 'a')) by {
        reveal_strlit("callers to see how it is used, with each call site's source line");
    }
    assert(opens("impact for the transitive blast radius"@, 'i', 'm')) by {
        reveal_strlit("impact for the transitive blast radius");
    }
    assert(opens("impact for the transitive picture, not just one hop"@, 'i', 'm')) by {
        reveal_strlit("impact for the transitive picture, not just one hop");
    }
    assert(opens("tests to find what guards this before changing it"@, 't', 'e')) by {
        reveal_strlit("tests to find what guards this before changing it");
    }
    assert(opens("affected_flows to see the user-facing paths involved"@, 'a', 'f')) by {
        reveal_strlit("affected_flows to see the user-facing paths involved");
    }
    assert(opens("impact to see everything a change here would reach"@, 'i', 'm')) by {
        reveal_strlit("impact to see everything a change here would reach");
    }
    assert(opens("subclasses to see every type inheriting these fields"@, 's', 'u')) by {
        reveal_strlit("subclasses to see every type inheriting these fields");
    }
    assert(opens("impact before changing a field or relation"@, 'i', 'm')) by {
        reveal_strlit("impact before changing a field or relation");
    }
    assert(opens("flows for the execution paths ranked by criticality"@, 'f', 'l')) by {
        reveal_strlit("flows for the execution paths ranked by criticality");
    }
    assert(opens("routes for the URL surface, then explore for the code"@, 'r', 'o')) by {
        reveal_strlit("routes for the URL surface, then explore for the code");
    }
    assert(opens("feature on a route name for its whole vertical slice"@, 'f', 'e')) by {
        reveal_strlit("feature on a route name for its whole vertical slice");
    }
    assert(opens("feature on a flow's entry point for its vertical slice"@, 'f', 'e')) by {
        reveal_strlit("feature on a flow's entry point for its vertical slice");
    }
    assert(opens("impact on the symbols inside the most critical flow"@, 'i', 'm')) by {
        reveal_strlit("impact on the symbols inside the most critical flow");
    }
    assert(opens("callers on that symbol to see what reached it"@, 'c', 'a')) by {
        reveal_strlit("callers on that symbol to see what reached it");
    }
    assert(opens("explore with an identifier from that area to read the code"@, 'e', 'x')) by {
        reveal_strlit("explore with an identifier from that area to read the code");
    }
}

/// The line offers this tool.
pub open spec fn offers(line: Seq<char>, name: Seq<char>) -> bool {
    ("next: `"@ + name + "` "@).is_prefix_of(line)
}

proof fn lemma_offer_opens(line: Seq<char>, name: Seq<char>)
    requires
        name.len() >= 2,
        offers(line, name),
    ensures
        line.len() > 8,
        line[7] == name[0],
        line[8] == name[1],
{
    reveal_strlit("next: `");
    reveal_strlit("` ");
    let head = "next: `"@ + name + "` "@;
    assert(head[7] == name[0]);
    assert(head[8] == name[1]);
    assert(line.subrange(0, head.len() as int) =~= head);
    assert(line.subrange(0, head.len() as int)[7] == line[7]);
    assert(line.subrange(0, head.len() as int)[8] == line[8]);
}

/// No hint names a tool that would find nothing: `tests` only where something was uncovered, the
/// flow tools only where flows are computed, `impact` only where a symbol was named.
pub proof fn law_no_hint_names_an_unmet_tool(tool: Seq<char>, facts: HintFacts, reviewing: bool)
    ensures
        hint_spec(tool, facts, reviewing) matches Some(line) ==> {
            &&& offers(line, "tests"@) ==> facts.has_uncovered_symbol
            &&& offers(line, "flows"@) ==> facts.flows_available
            &&& offers(line, "affected_flows"@) ==> facts.flows_available
            &&& offers(line, "impact"@) ==> facts.named_symbol is Some
        },
{
    law_hint_meets_its_precondition(tool, facts, reviewing);
    lemma_candidates_are_guarded(tool);
    if let Some(line) = hint_spec(tool, facts, reviewing) {
        let candidates = candidates_spec(tool);
        let at = choose|i: int|
            0 <= i < candidates.len() && (#[trigger] candidates[i]).precondition.met(facts) && line
                == hint_line(candidates[i].phrasing);
        let phrasing = candidates[at].phrasing;
        assert(guarded(candidates[at]));
        reveal_strlit("next: `");
        reveal_strlit(" ");
        lemma_first_from(phrasing, " "@, 0);
        assert forall|k: int| 0 <= k < 2 implies !occurs_at(phrasing, " "@, k) by {
            if occurs_at(phrasing, " "@, k) {
                assert(phrasing.subrange(k, k + 1)[0] == phrasing[k]);
            }
        }
        assert(line[7] == phrasing[0] && line[8] == phrasing[1]);
        reveal_strlit("tests");
        reveal_strlit("flows");
        reveal_strlit("affected_flows");
        reveal_strlit("impact");
        if offers(line, "tests"@) {
            lemma_offer_opens(line, "tests"@);
        }
        if offers(line, "flows"@) {
            lemma_offer_opens(line, "flows"@);
        }
        if offers(line, "affected_flows"@) {
            lemma_offer_opens(line, "affected_flows"@);
        }
        if offers(line, "impact"@) {
            lemma_offer_opens(line, "impact"@);
        }
    }
}

/// Where a follow-up of the session's own sort applies, no other is offered.
pub proof fn law_hint_follows_the_intent(tool: Seq<char>, facts: HintFacts, reviewing: bool, k: int)
    requires
        0 <= k < candidates_spec(tool).len(),
        candidates_spec(tool)[k].precondition.met(facts),
        candidates_spec(tool)[k].review == reviewing,
    ensures
        match chosen_candidate(candidates_spec(tool), facts, reviewing) {
            Some(at) => candidates_spec(tool)[at].review == reviewing,
            None => false,
        },
{
    lemma_first_fit(candidates_spec(tool), facts, Some(reviewing), 0);
}

/// The text has no line break.
pub open spec fn unbroken(text: Seq<char>) -> bool {
    forall|i: int| 0 <= i < text.len() ==> #[trigger] text[i] != '\n'
}

proof fn lemma_phrasings_are_unbroken(tool: Seq<char>)
    ensures
        forall|i: int|
            0 <= i < candidates_spec(tool).len() ==> unbroken(
                (#[trigger] candidates_spec(tool)[i]).phrasing,
            ),
{
    assert(unbroken("affected_flows to see which user-facing flows this diff touches"@)) by {
        reveal_strlit("affected_flows to see which user-facing flows this diff touches");
    }
    assert(unbroken("tests on the top-risk symbol to find what guards it"@)) by {
        reveal_strlit("tests on the top-risk symbol to find what guards it");
    }
    assert(unbroken("impact on the top-risk symbol for its blast radius"@)) by {
        reveal_strlit("impact on the top-risk symbol for its blast radius");
    }
    assert(unbroken("tests to check what covers the uncovered symbols above"@)) by {
        reveal_strlit("tests to check what covers the uncovered symbols above");
    }
    assert(unbroken("model for that model's effective schema across its bases"@)) by {
        reveal_strlit("model for that model's effective schema across its bases");
    }
    assert(unbroken("impact to see what depends on this before changing it"@)) by {
        reveal_strlit("impact to see what depends on this before changing it");
    }
    assert(unbroken("explore with the same query to read the code, not just the locations"@)) by {
        reveal_strlit("explore with the same query to read the code, not just the locations");
    }
    assert(unbroken("callers to see how it is used, with each call site's source line"@)) by {
        reveal_strlit("callers to see how it is used, with each call site's source line");
    }
    assert(unbroken("impact for the transitive blast radius"@)) by {
        reveal_strlit("impact for the transitive blast radius");
    }
    assert(unbroken("impact for the transitive picture, not just one hop"@)) by {
        reveal_strlit("impact for the transitive picture, not just one hop");
    }
    assert(unbroken("tests to find what guards this before changing it"@)) by {
        reveal_strlit("tests to find what guards this before changing it");
    }
    assert(unbroken("affected_flows to see the user-facing paths involved"@)) by {
        reveal_strlit("affected_flows to see the user-facing paths involved");
    }
    assert(unbroken("impact to see everything a change here would reach"@)) by {
        reveal_strlit("impact to see everything a change here would reach");
    }
    assert(unbroken("subclasses to see every type inheriting these fields"@)) by {
        reveal_strlit("subclasses to see every type inheriting these fields");
    }
    assert(unbroken("impact before changing a field or relation"@)) by {
        reveal_strlit("impact before changing a field or relation");
    }
    assert(unbroken("flows for the execution paths ranked by criticality"@)) by {
        reveal_strlit("flows for the execution paths ranked by criticality");
    }
    assert(unbroken("routes for the URL surface, then explore for the code"@)) by {
        reveal_strlit("routes for the URL surface, then explore for the code");
    }
    assert(unbroken("feature on a route name for its whole vertical slice"@)) by {
        reveal_strlit("feature on a route name for its whole vertical slice");
    }
    assert(unbroken("feature on a flow's entry point for its vertical slice"@)) by {
        reveal_strlit("feature on a flow's entry point for its vertical slice");
    }
    assert(unbroken("impact on the symbols inside the most critical flow"@)) by {
        reveal_strlit("impact on the symbols inside the most critical flow");
    }
    assert(unbroken("callers on that symbol to see what reached it"@)) by {
        reveal_strlit("callers on that symbol to see what reached it");
    }
    assert(unbroken("explore with an identifier from that area to read the code"@)) by {
        reveal_strlit("explore with an identifier from that area to read the code");
    }
}

/// A hint is one line, never two: its only line break is its end.
pub proof fn law_a_hint_is_one_line(tool: Seq<char>, facts: HintFacts, reviewing: bool)
    ensures
        hint_spec(tool, facts, reviewing) matches Some(line) ==> line.len() > 0 && line.last()
            == '\n' && unbroken(line.drop_last()),
{
    let candidates = candidates_spec(tool);
    lemma_phrasings_are_unbroken(tool);
    law_hint_meets_its_precondition(tool, facts, reviewing);
    if let Some(line) = hint_spec(tool, facts, reviewing) {
        let at = choose|i: int|
            0 <= i < candidates.len() && (#[trigger] candidates[i]).precondition.met(facts)
                && line == hint_line(candidates[i].phrasing);
        let phrasing = candidates[at].phrasing;
        assert(unbroken(phrasing));
        reveal_strlit("next: `");
        reveal_strlit("` ");
        reveal_strlit("");
        reveal_strlit("\n");
        lemma_first_from(phrasing, " "@, 0);
        let (name, rest) = match split_once_spec(phrasing, " "@) {
            Some((name, rest)) => (name, rest),
            None => (phrasing, ""@),
        };
        assert(unbroken(name));
        assert(unbroken(rest));
        let body = "next: `"@ + name + "` "@ + rest;
        assert(unbroken("next: `"@));
        assert(unbroken("` "@));
        assert(unbroken(body));
        assert(line =~= body.push('\n'));
        assert(line.drop_last() =~= body);
    }
}

/// A session is reviewing where at least half of the calls it remembers are of the tools a review
/// is made of: what changed, what that affects, its impact, its tests and its history.
pub proof fn law_a_reviewing_session_is_told_by_its_calls(tools: Seq<Seq<char>>)
    ensures
        ({
            let reviews = numbers::indices(
                tools.len() as int,
                |i: int|
                    tools[i] == "constellation_affected_flows"@ || tools[i]
                        == "constellation_changed"@ || tools[i] == "constellation_impact"@
                        || tools[i] == "constellation_symbol_history"@ || tools[i]
                        == "constellation_tests"@,
            ).len();
            reviewing(tools) <==> tools.len() > 0 && 2 * reviews >= tools.len()
        }),
{
    lemma_review_count(tools, tools.len() as int);
    assert(tools.take(tools.len() as int) =~= tools);
}

proof fn lemma_review_count(tools: Seq<Seq<char>>, count: int)
    requires
        0 <= count <= tools.len(),
    ensures
        review_count(tools.take(count)) == numbers::indices(
            count,
            |i: int|
                tools[i] == "constellation_affected_flows"@ || tools[i] == "constellation_changed"@
                    || tools[i] == "constellation_impact"@ || tools[i]
                    == "constellation_symbol_history"@ || tools[i] == "constellation_tests"@,
        ).len(),
    decreases count,
{
    let holds = |i: int|
        tools[i] == "constellation_affected_flows"@ || tools[i] == "constellation_changed"@
            || tools[i] == "constellation_impact"@ || tools[i] == "constellation_symbol_history"@
            || tools[i] == "constellation_tests"@;
    lemma_indices(count, holds);
    if count > 0 {
        lemma_review_count(tools, count - 1);
        assert(tools.take(count).drop_last() =~= tools.take(count - 1));
    }
}

} // verus!
