//! Review risk for the symbols a diff touched.
//!
//! What was measured of a symbol, and how the reasons behind its score are told. The score itself
//! is a number between zero and one; here it is its place among all such numbers, and its text.
use crate::chars::{
    cat2, cat3, copy, join, join_spec, occurs, occurs_at, quote, quoted, views,
};
use crate::numbers::{decimal_spec, decimal_u32};
use crate::order::{
    arrange, arranged, comes_before, key_less, key_view, keys_view, lemma_sorted_order,
    sorted_order, Part, PartView,
};
use vstd::prelude::*;

verus! {

/// The covering-reference count at which the test-coverage gap closes entirely.
pub const TEST_SATURATION: u32 = 5;

/// The distinct-caller count at which raw fan-in stops adding risk.
pub const CALLER_SATURATION: u32 = 20;

/// The cross-app caller count at which app-boundary reach saturates.
pub const CROSS_APP_SATURATION: u32 = 5;

/// The cross-project caller count at which repository-boundary reach saturates. A caller in
/// another repository is a strong signal, so it saturates fast.
pub const CROSS_PROJECT_SATURATION: u32 = 2;

/// The window, in days, over which a file's commits count as churn.
pub const CHURN_WINDOW_DAYS: i64 = 90;

/// The commit count within [`CHURN_WINDOW_DAYS`] at which churn saturates.
pub const CHURN_SATURATION: u32 = 10;

/// The changed-line count at which diff size saturates.
pub const DIFF_LINES_SATURATION: u32 = 100;

/// A weighted component of a symbol's review risk.
#[derive(Clone, Copy, Debug, PartialEq, Eq, Structural)]
pub enum RiskFactor {
    CallerCount,
    Churn,
    CrossAppCallers,
    CrossProjectCallers,
    DiffSize,
    FlowParticipation,
    Security,
    TestGap,
}

impl RiskFactor {
    /// The factors, in a fixed order, so each traversal is statically bounded.
    pub const ALL: [RiskFactor; 8] = [
        RiskFactor::CallerCount,
        RiskFactor::Churn,
        RiskFactor::CrossAppCallers,
        RiskFactor::CrossProjectCallers,
        RiskFactor::DiffSize,
        RiskFactor::FlowParticipation,
        RiskFactor::Security,
        RiskFactor::TestGap,
    ];

    /// The snake_case label for this factor.
    pub open spec fn label(self) -> Seq<char> {
        match self {
            RiskFactor::CallerCount => "caller_count"@,
            RiskFactor::Churn => "churn"@,
            RiskFactor::CrossAppCallers => "cross_app_callers"@,
            RiskFactor::CrossProjectCallers => "cross_project_callers"@,
            RiskFactor::DiffSize => "diff_size"@,
            RiskFactor::FlowParticipation => "flow_participation"@,
            RiskFactor::Security => "security"@,
            RiskFactor::TestGap => "test_gap"@,
        }
    }

    pub fn as_str(self) -> (label: &'static str)
        ensures
            label@ == self.label(),
    {
        match self {
            RiskFactor::CallerCount => "caller_count",
            RiskFactor::Churn => "churn",
            RiskFactor::CrossAppCallers => "cross_app_callers",
            RiskFactor::CrossProjectCallers => "cross_project_callers",
            RiskFactor::DiffSize => "diff_size",
            RiskFactor::FlowParticipation => "flow_participation",
            RiskFactor::Security => "security",
            RiskFactor::TestGap => "test_gap",
        }
    }
}

/// The derived inputs an index actually carries. Churn needs ingested history; flow participation
/// needs computed flows. Both are honest booleans rather than a zero measurement, so an absent pass
/// drops its factor instead of scoring every symbol as unchurned and flowless.
#[derive(Clone, Copy, Debug, PartialEq, Eq, Structural)]
pub struct FactorAvailability {
    pub churn: bool,
    pub flow_participation: bool,
}

/// The raw measurements one changed symbol contributes.
#[derive(Clone, Debug)]
pub struct RiskInputs {
    pub caller_count: u32,
    pub changed_lines: u32,
    pub churn_commits: u32,
    pub covering_tests: u32,
    pub cross_app_callers: u32,
    pub cross_project_callers: u32,
    /// The name of the highest-criticality flow this symbol participates in, so the rendered
    /// reason can name it.
    pub flow_name_top: Option<String>,
    /// The security keyword the symbol's name or qualified name matched, if any.
    pub security_keyword: Option<String>,
}

impl Default for RiskInputs {
    /// Nothing measured.
    fn default() -> (inputs: RiskInputs)
        ensures
            inputs.caller_count == 0,
            inputs.changed_lines == 0,
            inputs.churn_commits == 0,
            inputs.covering_tests == 0,
            inputs.cross_app_callers == 0,
            inputs.cross_project_callers == 0,
            inputs.flow_name_top is None,
            inputs.security_keyword is None,
    {
        RiskInputs {
            caller_count: 0,
            changed_lines: 0,
            churn_commits: 0,
            covering_tests: 0,
            cross_app_callers: 0,
            cross_project_callers: 0,
            flow_name_top: None,
            security_keyword: None,
        }
    }
}

/// The place of one among the numbers of a [`Fraction`]: the bits of a double, which order the
/// numbers from zero up, with every negative one and whatever is no number above them all.
pub const FRACTION_ONE: u64 = 0x3ff0_0000_0000_0000;

/// A number between zero and one: its place in the order of all of them, and its text.
#[derive(Clone, Debug, PartialEq, Eq)]
pub struct Fraction {
    pub order: u64,
    pub text: String,
}

/// What a score was made of: the measurements, what each factor added to it, in the factors' fixed
/// order and each by its place in the order of all such numbers, and the blended total.
pub struct RiskFactors {
    pub inputs: RiskInputs,
    pub contributions: [u64; 8],
    pub total: Fraction,
}

/// How far one factor's measurement reaches, and where it stops counting; nothing of flow
/// participation, which is no count.
pub open spec fn measured(inputs: RiskInputs, factor: RiskFactor) -> Option<(int, int)> {
    match factor {
        RiskFactor::CallerCount => Some(capped(inputs.caller_count as int, CALLER_SATURATION as int)),
        RiskFactor::Churn => Some(capped(inputs.churn_commits as int, CHURN_SATURATION as int)),
        RiskFactor::CrossAppCallers => Some(
            capped(inputs.cross_app_callers as int, CROSS_APP_SATURATION as int),
        ),
        RiskFactor::CrossProjectCallers => Some(
            capped(inputs.cross_project_callers as int, CROSS_PROJECT_SATURATION as int),
        ),
        RiskFactor::DiffSize => Some(
            capped(inputs.changed_lines as int, DIFF_LINES_SATURATION as int),
        ),
        RiskFactor::FlowParticipation => None,
        RiskFactor::Security => Some(
            capped(
                if inputs.security_keyword is Some {
                    1
                } else {
                    0
                },
                1,
            ),
        ),
        RiskFactor::TestGap => Some(capped(inputs.covering_tests as int, TEST_SATURATION as int)),
    }
}

/// A count up to a bound, and the bound.
pub open spec fn capped(count: int, bound: int) -> (int, int) {
    (
        if count < bound {
            count
        } else {
            bound
        },
        bound,
    )
}

fn cap(count: u32, bound: u32) -> (measure: (u32, u32))
    ensures
        (measure.0 as int, measure.1 as int) == capped(count as int, bound as int),
{
    if count < bound {
        (count, bound)
    } else {
        (bound, bound)
    }
}

impl RiskInputs {
    /// How far one factor's measurement reaches, and where it stops counting. For the test gap
    /// this counts the tests there are, not those that are missing. `None` for flow participation,
    /// which is no count.
    pub fn measure(&self, factor: RiskFactor) -> (measure: Option<(u32, u32)>)
        ensures
            match measure {
                Some((count, bound)) => measured(*self, factor) == Some(
                    (count as int, bound as int),
                ),
                None => measured(*self, factor) is None,
            },
    {
        match factor {
            RiskFactor::CallerCount => Some(cap(self.caller_count, CALLER_SATURATION)),
            RiskFactor::Churn => Some(cap(self.churn_commits, CHURN_SATURATION)),
            RiskFactor::CrossAppCallers => Some(cap(self.cross_app_callers, CROSS_APP_SATURATION)),
            RiskFactor::CrossProjectCallers => Some(
                cap(self.cross_project_callers, CROSS_PROJECT_SATURATION),
            ),
            RiskFactor::DiffSize => Some(cap(self.changed_lines, DIFF_LINES_SATURATION)),
            RiskFactor::FlowParticipation => None,
            RiskFactor::Security => Some(
                cap(
                    if self.security_keyword.is_some() {
                        1
                    } else {
                        0
                    },
                    1,
                ),
            ),
            RiskFactor::TestGap => Some(cap(self.covering_tests, TEST_SATURATION)),
        }
    }
}

/// The places, below `count`, of the factors that added anything.
pub open spec fn contributing(contributions: Seq<u64>, count: int) -> Seq<usize>
    decreases count,
{
    if count <= 0 {
        Seq::empty()
    } else if contributions[count - 1] > 0 {
        contributing(contributions, count - 1).push((count - 1) as usize)
    } else {
        contributing(contributions, count - 1)
    }
}

/// What a place is ordered by: the greatest contribution first.
pub open spec fn contribution_key(contributions: Seq<u64>, place: usize) -> Seq<PartView> {
    seq![PartView::Number(-(contributions[place as int] as int))]
}

/// What the places are ordered by.
pub open spec fn contribution_keys(contributions: Seq<u64>, places: Seq<usize>) -> Seq<
    Seq<PartView>,
> {
    places.map_values(|place: usize| contribution_key(contributions, place))
}

/// The places of the factors that added anything, the greatest contribution first.
pub open spec fn ranked_factor_places(contributions: Seq<u64>) -> Seq<usize> {
    let places = contributing(contributions, contributions.len() as int);
    arranged(places, contribution_keys(contributions, places))
}

/// The factors that moved a score, the greatest contribution first.
pub open spec fn ranked_factors(contributions: Seq<u64>) -> Seq<RiskFactor> {
    ranked_factor_places(contributions).map_values(|place: usize| RiskFactor::ALL@[place as int])
}

proof fn lemma_contributing(contributions: Seq<u64>, count: int)
    requires
        0 <= count <= contributions.len() <= 8,
    ensures
        contributing(contributions, count).len() <= count,
        forall|k: int|
            0 <= k < contributing(contributions, count).len() ==> (#[trigger] contributing(
                contributions,
                count,
            )[k]) < count && contributions[contributing(contributions, count)[k] as int] > 0,
        forall|p: int|
            0 <= p < count && (#[trigger] contributions[p]) > 0 ==> contributing(
                contributions,
                count,
            ).contains(p as usize),
    decreases count,
{
    if count > 0 {
        lemma_contributing(contributions, count - 1);
        let before = contributing(contributions, count - 1);
        let after = contributing(contributions, count);
        assert forall|p: int| 0 <= p < count && (#[trigger] contributions[p])
            > 0 implies after.contains(p as usize) by {
            if p < count - 1 {
                assert(before.contains(p as usize));
                let k = choose|k: int| 0 <= k < before.len() && before[k] == p as usize;
                assert(after[k] == p as usize);
            } else {
                assert(after[before.len() as int] == p as usize);
            }
        }
        assert forall|k: int| 0 <= k < after.len() implies (#[trigger] after[k]) < count
            && contributions[after[k] as int] > 0 by {
            if k < before.len() {
                assert(after[k] == before[k]);
            }
        }
    }
}

/// The ranking names exactly the factors that added anything, a greater contribution before a
/// smaller one.
pub proof fn law_ranking_is_by_contribution(contributions: Seq<u64>)
    requires
        contributions.len() == 8,
    ensures
        forall|p: int|
            0 <= p < 8 && (#[trigger] contributions[p]) > 0 ==> ranked_factor_places(
                contributions,
            ).contains(p as usize),
        forall|k: int|
            0 <= k < ranked_factor_places(contributions).len() ==> (
            #[trigger] ranked_factor_places(contributions)[k]) < 8
                && contributions[ranked_factor_places(contributions)[k] as int] > 0,
        forall|a: int, b: int|
            0 <= a < b < ranked_factor_places(contributions).len()
                ==> contributions[(#[trigger] ranked_factor_places(contributions)[a]) as int]
                >= contributions[(#[trigger] ranked_factor_places(contributions)[b]) as int],
{
    let places = contributing(contributions, 8);
    let keys = contribution_keys(contributions, places);
    let order = sorted_order(keys);
    let ranked = ranked_factor_places(contributions);
    lemma_contributing(contributions, 8);
    lemma_sorted_order(keys);
    crate::order::law_arranging_keeps_the_items(places, keys);
    assert forall|p: int| 0 <= p < 8 && (#[trigger] contributions[p]) > 0 implies ranked.contains(
        p as usize,
    ) by {
        assert(places.contains(p as usize));
        let k = choose|k: int| 0 <= k < places.len() && places[k] == p as usize;
        assert(ranked.contains(places[k]));
    }
    assert forall|k: int| 0 <= k < ranked.len() implies (#[trigger] ranked[k]) < 8
        && contributions[ranked[k] as int] > 0 by {
        assert(places.contains(ranked[k]));
        let p = choose|p: int| 0 <= p < places.len() && places[p] == ranked[k];
        assert(places[p] < 8);
    }
    assert forall|a: int, b: int| 0 <= a < b < ranked.len() implies contributions[(
    #[trigger] ranked[a]) as int] >= contributions[(#[trigger] ranked[b]) as int] by {
        assert(comes_before(keys, order[a], order[b]));
        assert(ranked[a] == places[order[a]] && ranked[b] == places[order[b]]);
        let left = keys[order[a]];
        let right = keys[order[b]];
        assert(left == contribution_key(contributions, ranked[a]));
        assert(right == contribution_key(contributions, ranked[b]));
        if key_less(left, right) {
            if left[0] == right[0] {
                assert(left =~= right);
            }
        } else {
            assert(left[0] == right[0]);
        }
    }
}

/// The phrase for one factor, drawn from the raw measurement.
pub open spec fn phrase(inputs: RiskInputs, factor: RiskFactor) -> Option<Seq<char>> {
    match factor {
        RiskFactor::CallerCount => Some(decimal_spec(inputs.caller_count as nat) + " callers"@),
        RiskFactor::Churn => Some(decimal_spec(inputs.churn_commits as nat) + " commits/90d"@),
        RiskFactor::CrossAppCallers => Some(
            decimal_spec(inputs.cross_app_callers as nat) + " cross-app callers"@,
        ),
        RiskFactor::CrossProjectCallers => Some(
            decimal_spec(inputs.cross_project_callers as nat) + " cross-project callers"@,
        ),
        RiskFactor::DiffSize => Some(
            decimal_spec(inputs.changed_lines as nat) + " lines changed"@,
        ),
        RiskFactor::FlowParticipation => match inputs.flow_name_top {
            Some(name) => Some("in "@ + quoted(name@) + " flow"@),
            None => None,
        },
        RiskFactor::Security => match inputs.security_keyword {
            Some(keyword) => Some("security-sensitive ("@ + keyword@ + ")"@),
            None => None,
        },
        RiskFactor::TestGap => if inputs.covering_tests == 0 {
            Some("no tests"@)
        } else {
            Some(
                "only "@ + decimal_spec(inputs.covering_tests as nat) + " covering test(s)"@,
            )
        },
    }
}

/// The phrases of the first `count` factors that have one, up to a cap.
pub open spec fn reasons(
    inputs: RiskInputs,
    ranked: Seq<RiskFactor>,
    max: int,
    count: int,
) -> Seq<Seq<char>>
    decreases count,
{
    if count <= 0 {
        Seq::empty()
    } else {
        let before = reasons(inputs, ranked, max, count - 1);
        match phrase(inputs, ranked[count - 1]) {
            Some(phrase) => if before.len() < max {
                before.push(phrase)
            } else {
                before
            },
            None => before,
        }
    }
}

impl RiskFactors {
    /// A human phrase for one factor, drawn from the raw measurement rather than the normalized
    /// sub-score, because "9 commits/90d" is actionable where "0.9" is not. `None` when the
    /// measurement has nothing to say.
    pub fn describe(&self, factor: RiskFactor) -> (text: Option<String>)
        ensures
            match text {
                Some(text) => phrase(self.inputs, factor) == Some(text@),
                None => phrase(self.inputs, factor) is None,
            },
    {
        let inputs = &self.inputs;
        match factor {
            RiskFactor::CallerCount => Some(
                cat2(decimal_u32(inputs.caller_count).as_str(), " callers"),
            ),
            RiskFactor::Churn => Some(
                cat2(decimal_u32(inputs.churn_commits).as_str(), " commits/90d"),
            ),
            RiskFactor::CrossAppCallers => Some(
                cat2(decimal_u32(inputs.cross_app_callers).as_str(), " cross-app callers"),
            ),
            RiskFactor::CrossProjectCallers => Some(
                cat2(decimal_u32(inputs.cross_project_callers).as_str(), " cross-project callers"),
            ),
            RiskFactor::DiffSize => Some(
                cat2(decimal_u32(inputs.changed_lines).as_str(), " lines changed"),
            ),
            RiskFactor::FlowParticipation => match &inputs.flow_name_top {
                Some(name) => Some(cat3("in ", quote(name.as_str()).as_str(), " flow")),
                None => None,
            },
            RiskFactor::Security => match &inputs.security_keyword {
                Some(keyword) => Some(cat3("security-sensitive (", keyword.as_str(), ")")),
                None => None,
            },
            RiskFactor::TestGap => if inputs.covering_tests == 0 {
                Some(copy("no tests"))
            } else {
                Some(
                    cat3(
                        "only ",
                        decimal_u32(inputs.covering_tests).as_str(),
                        " covering test(s)",
                    ),
                )
            },
        }
    }

    /// The factors that actually moved this score, highest contribution first, dropping any that
    /// contributed nothing. Ties break on the factors' fixed order, so two identical inputs always
    /// render identically.
    pub fn ranked_contributions(&self) -> (ranked: Vec<RiskFactor>)
        ensures
            ranked@ == ranked_factors(self.contributions@),
    {
        let mut places: Vec<usize> = Vec::new();
        let mut keys: Vec<Vec<Part>> = Vec::new();
        assert(keys_view(keys@) =~= contribution_keys(self.contributions@, places@));
        for i in 0..8
            invariant
                self.contributions@.len() == 8,
                places@ == contributing(self.contributions@, i as int),
                keys_view(keys@) == contribution_keys(self.contributions@, places@),
                forall|k: int| 0 <= k < places@.len() ==> #[trigger] places@[k] < 8,
        {
            if self.contributions[i] > 0 {
                let ghost keys_before = keys@;
                let ghost places_before = places@;
                let mut key: Vec<Part> = Vec::new();
                key.push(Part::Number(-(self.contributions[i] as i128)));
                assert(key_view(key) =~= contribution_key(self.contributions@, i));
                keys.push(key);
                places.push(i);
                assert(keys_view(keys@) =~= keys_view(keys_before).push(
                    contribution_key(self.contributions@, i),
                ));
                assert(contribution_keys(self.contributions@, places@) =~= contribution_keys(
                    self.contributions@,
                    places_before,
                ).push(contribution_key(self.contributions@, i)));
            }
        }
        assert(keys@.len() == keys_view(keys@).len());
        let order = arrange(places.as_slice(), &keys);
        let factors: [RiskFactor; 8] = RiskFactor::ALL;
        let ghost wanted = ranked_factors(self.contributions@);
        let mut ranked: Vec<RiskFactor> = Vec::new();
        for i in 0..order.len()
            invariant
                factors@ == RiskFactor::ALL@,
                factors@.len() == 8,
                wanted == order@.map_values(|place: usize| RiskFactor::ALL@[place as int]),
                forall|k: int| 0 <= k < places@.len() ==> #[trigger] places@[k] < 8,
                forall|k: int| 0 <= k < order@.len() ==> places@.contains(#[trigger] order@[k]),
                ranked@ == wanted.take(i as int),
        {
            assert(places@.contains(order@[i as int]));
            ranked.push(factors[order[i]]);
            assert(wanted.take(i + 1) =~= wanted.take(i as int).push(wanted[i as int]));
        }
        assert(wanted.take(order@.len() as int) =~= wanted);
        ranked
    }

    /// The strongest reasons this symbol scored what it did, as one comma-joined phrase, or
    /// nothing when nothing contributed. A bare number is not actionable, so every rendered score
    /// carries this.
    pub fn summary(&self, reasons_max: usize) -> (text: String)
        requires
            reasons_max >= 1,
        ensures
            text@ == join_spec(
                reasons(
                    self.inputs,
                    ranked_factors(self.contributions@),
                    reasons_max as int,
                    ranked_factors(self.contributions@).len() as int,
                ),
                ", "@,
            ),
    {
        let ranked = self.ranked_contributions();
        let mut phrases: Vec<String> = Vec::new();
        assert(views(phrases@) =~= Seq::empty());
        for i in 0..ranked.len()
            invariant
                views(phrases@) == reasons(
                    self.inputs,
                    ranked@,
                    reasons_max as int,
                    i as int,
                ),
        {
            let ghost before = phrases@;
            assert(views(before).len() == before.len());
            if let Some(text) = self.describe(ranked[i]) {
                if phrases.len() < reasons_max {
                    phrases.push(text);
                    assert(views(phrases@) =~= views(before).push(text@));
                }
            }
        }
        join(phrases.as_slice(), ", ")
    }
}

/// A summary never tells more reasons than it may.
pub proof fn law_summary_respects_its_cap(
    inputs: RiskInputs,
    ranked: Seq<RiskFactor>,
    max: int,
    count: int,
)
    requires
        0 <= max,
    ensures
        reasons(inputs, ranked, max, count).len() <= max,
    decreases count,
{
    if count > 0 {
        law_summary_respects_its_cap(inputs, ranked, max, count - 1);
    }
}

/// What the factors that an index cannot supply are called, with the pass that would supply them.
pub open spec fn missing_factors(availability: FactorAvailability) -> Seq<char> {
    if !availability.churn && !availability.flow_participation {
        "churn (run `constellation history`) and flow participation (run `constellation flows`)"@
    } else if !availability.churn {
        "churn (run `constellation history`)"@
    } else {
        "flow participation (run `constellation flows`)"@
    }
}

/// The note on a project whose index cannot supply every factor: a renormalized score is
/// comparable but blind to whatever is missing, and a reader must be told which.
pub fn missing_note(project_id: &str, availability: FactorAvailability) -> (note: Option<String>)
    ensures
        match note {
            Some(note) => !(availability.churn && availability.flow_participation) && note@
                == "note: "@ + project_id@ + " scored without "@ + missing_factors(availability)
                + "; remaining weights renormalized"@,
            None => availability.churn && availability.flow_participation,
        },
{
    if availability.churn && availability.flow_participation {
        return None;
    }
    let missing: &str = if !availability.churn && !availability.flow_participation {
        "churn (run `constellation history`) and flow participation (run `constellation flows`)"
    } else if !availability.churn {
        "churn (run `constellation history`)"
    } else {
        "flow participation (run `constellation flows`)"
    };
    let mut note = cat3("note: ", project_id, " scored without ");
    note.append(missing);
    note.append("; remaining weights renormalized");
    Some(note)
}

/// A dropped factor is always named, with the command that would supply it.
pub proof fn law_a_dropped_factor_names_its_command(availability: FactorAvailability)
    ensures
        !availability.churn ==> occurs(
            missing_factors(availability),
            "churn (run `constellation history`)"@,
        ),
        !availability.flow_participation ==> occurs(
            missing_factors(availability),
            "flow participation (run `constellation flows`)"@,
        ),
{
    let both =
        "churn (run `constellation history`) and flow participation (run `constellation flows`)"@;
    let churn = "churn (run `constellation history`)"@;
    let flows = "flow participation (run `constellation flows`)"@;
    reveal_strlit(
        "churn (run `constellation history`) and flow participation (run `constellation flows`)",
    );
    reveal_strlit("churn (run `constellation history`)");
    reveal_strlit("flow participation (run `constellation flows`)");
    assert(both.subrange(0, churn.len() as int) =~= churn);
    assert(occurs_at(both, churn, 0));
    assert(churn.subrange(0, churn.len() as int) =~= churn);
    assert(occurs_at(churn, churn, 0));
    let at = churn.len() as int + 5;
    assert(both.subrange(at, at + flows.len()) =~= flows);
    assert(occurs_at(both, flows, at));
    assert(flows.subrange(0, flows.len() as int) =~= flows);
    assert(occurs_at(flows, flows, 0));
}

/// Every factor measures its own count: it rises with that count up to where the factor stops
/// counting, and with nothing else.
pub proof fn law_a_factor_measures_its_own_count(inputs: RiskInputs, factor: RiskFactor)
    ensures
        ({
            let count = match factor {
                RiskFactor::CallerCount => inputs.caller_count as int,
                RiskFactor::Churn => inputs.churn_commits as int,
                RiskFactor::CrossAppCallers => inputs.cross_app_callers as int,
                RiskFactor::CrossProjectCallers => inputs.cross_project_callers as int,
                RiskFactor::DiffSize => inputs.changed_lines as int,
                RiskFactor::FlowParticipation => 0,
                RiskFactor::Security => if inputs.security_keyword is Some {
                    1
                } else {
                    0
                },
                RiskFactor::TestGap => inputs.covering_tests as int,
            };
            &&& factor is FlowParticipation <==> measured(inputs, factor) is None
            &&& measured(inputs, factor) matches Some((reach, bound)) ==> reach <= bound && reach
                <= count && (reach == count || reach == bound) && bound >= 1
        }),
{
}

/// What is said of a factor carries the number that was measured.
pub proof fn law_a_phrase_carries_its_number(inputs: RiskInputs)
    ensures
        phrase(inputs, RiskFactor::CallerCount) matches Some(text) && decimal_spec(
            inputs.caller_count as nat,
        ).is_prefix_of(text),
        phrase(inputs, RiskFactor::Churn) matches Some(text) && decimal_spec(
            inputs.churn_commits as nat,
        ).is_prefix_of(text),
        phrase(inputs, RiskFactor::CrossAppCallers) matches Some(text) && decimal_spec(
            inputs.cross_app_callers as nat,
        ).is_prefix_of(text),
        phrase(inputs, RiskFactor::CrossProjectCallers) matches Some(text) && decimal_spec(
            inputs.cross_project_callers as nat,
        ).is_prefix_of(text),
        phrase(inputs, RiskFactor::DiffSize) matches Some(text) && decimal_spec(
            inputs.changed_lines as nat,
        ).is_prefix_of(text),
        phrase(inputs, RiskFactor::FlowParticipation) is Some <==> inputs.flow_name_top is Some,
        phrase(inputs, RiskFactor::Security) is Some <==> inputs.security_keyword is Some,
        phrase(inputs, RiskFactor::TestGap) == Some("no tests"@) <==> inputs.covering_tests == 0,
{
    lemma_leads_text(decimal_spec(inputs.caller_count as nat), " callers"@);
    lemma_leads_text(decimal_spec(inputs.churn_commits as nat), " commits/90d"@);
    lemma_leads_text(decimal_spec(inputs.cross_app_callers as nat), " cross-app callers"@);
    lemma_leads_text(decimal_spec(inputs.cross_project_callers as nat), " cross-project callers"@);
    lemma_leads_text(decimal_spec(inputs.changed_lines as nat), " lines changed"@);
    reveal_strlit("no tests");
    reveal_strlit("only ");
    if inputs.covering_tests != 0 {
        let text = phrase(inputs, RiskFactor::TestGap)->0;
        assert(text[0] == 'o');
    }
}

proof fn lemma_leads_text(head: Seq<char>, tail: Seq<char>)
    ensures
        head.is_prefix_of(head + tail),
{
    assert((head + tail).subrange(0, head.len() as int) =~= head);
}

} // verus!
