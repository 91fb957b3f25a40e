//! Multi-axis symbol filtering.
//!
//! Criteria are ANDed, and the order they arrive in is semantic only: the evaluator reorders them
//! by cost, cheapest first, regardless of what the caller passed.
//!
//! `matches` is a glob (`*` and `?`), not a regular expression. `lines` is the honest, free proxy
//! for how much a symbol does; complexity is not computed.
use crate::chars::{
    ascii_lower, ascii_lower_spec, cat2, cat4, cat5, chars_of, contains, copy, join, join_spec,
    occurs, quote, quoted, same_text, split, split_spec, trim, trim_spec, views,
};
use crate::dates::{parse_ymd_to_epoch, ymd_epoch};
use crate::graph::{Language, NodeKind};
use crate::numbers::{
    decimal_i64, decimal_spec, decimal_usize, parse_i64, signed_spec, signed_value,
};
use crate::risk::{Fraction, FRACTION_ONE};
use vstd::prelude::*;

verus! {

/// The most criteria one call may carry. Past a dozen the query is better expressed as two calls
/// with the intersection done by the caller.
pub const WINNOW_CRITERIA_MAX: usize = 12;

/// The most candidate symbols one call scans before reporting truncation.
pub const WINNOW_CANDIDATES_MAX: usize = 50_000;

/// The result count a call that names none comes back with.
pub const WINNOW_RESULTS_DEFAULT: u32 = 25;

/// The most results one call may ask for, whatever it passes.
pub const WINNOW_RESULTS_MAX: u32 = 200;

/// The cap on a glob pattern's length, so a pathological pattern cannot make matching expensive
/// per candidate.
pub const PATTERN_CHARS_MAX: usize = 256;

/// The longest haystack glob matching will walk. A symbol name or file path past this is reported
/// as no match rather than matched expensively.
pub const GLOB_TEXT_CHARS_MAX: usize = 4_096;

/// The default churn window when a `churn` criterion names none.
pub const CHURN_WINDOW_DAYS_DEFAULT: u32 = 90;

// ---------------------------------------------------------------------------
// Vocabulary

/// A filterable property of a symbol.
#[derive(Clone, Copy, Debug, PartialEq, Eq, Structural)]
pub enum Axis {
    CalledBy,
    Callers,
    Calls,
    ChangedSince,
    Churn,
    Decorator,
    Extends,
    File,
    InFlow,
    Kind,
    Language,
    Lines,
    Name,
    Project,
    RelatesTo,
    Renders,
    Risk,
    Tested,
}

impl Axis {
    /// Every value, for the message that lists the valid ones.
    pub const ALL: [Axis; 18] = [
        Axis::CalledBy,
        Axis::Callers,
        Axis::Calls,
        Axis::ChangedSince,
        Axis::Churn,
        Axis::Decorator,
        Axis::Extends,
        Axis::File,
        Axis::InFlow,
        Axis::Kind,
        Axis::Language,
        Axis::Lines,
        Axis::Name,
        Axis::Project,
        Axis::RelatesTo,
        Axis::Renders,
        Axis::Risk,
        Axis::Tested,
    ];

    /// The snake_case label a caller passes.
    pub open spec fn label(self) -> Seq<char> {
        match self {
            Axis::CalledBy => "called_by"@,
            Axis::Callers => "callers"@,
            Axis::Calls => "calls"@,
            Axis::ChangedSince => "changed_since"@,
            Axis::Churn => "churn"@,
            Axis::Decorator => "decorator"@,
            Axis::Extends => "extends"@,
            Axis::File => "file"@,
            Axis::InFlow => "in_flow"@,
            Axis::Kind => "kind"@,
            Axis::Language => "language"@,
            Axis::Lines => "lines"@,
            Axis::Name => "name"@,
            Axis::Project => "project"@,
            Axis::RelatesTo => "relates_to"@,
            Axis::Renders => "renders"@,
            Axis::Risk => "risk"@,
            Axis::Tested => "tested"@,
        }
    }

    /// The snake_case label a caller passes.
    pub fn as_str(self) -> (label: &'static str)
        ensures
            label@ == self.label(),
    {
        match self {
            Axis::CalledBy => "called_by",
            Axis::Callers => "callers",
            Axis::Calls => "calls",
            Axis::ChangedSince => "changed_since",
            Axis::Churn => "churn",
            Axis::Decorator => "decorator",
            Axis::Extends => "extends",
            Axis::File => "file",
            Axis::InFlow => "in_flow",
            Axis::Kind => "kind",
            Axis::Language => "language",
            Axis::Lines => "lines",
            Axis::Name => "name",
            Axis::Project => "project",
            Axis::RelatesTo => "relates_to",
            Axis::Renders => "renders",
            Axis::Risk => "risk",
            Axis::Tested => "tested",
        }
    }

    /// The value that a label names, if any.
    pub open spec fn named(text: Seq<char>) -> Option<Axis> {
        if text == "called_by"@ {
            Some(Axis::CalledBy)
        } else if text == "callers"@ {
            Some(Axis::Callers)
        } else if text == "calls"@ {
            Some(Axis::Calls)
        } else if text == "changed_since"@ {
            Some(Axis::ChangedSince)
        } else if text == "churn"@ {
            Some(Axis::Churn)
        } else if text == "decorator"@ {
            Some(Axis::Decorator)
        } else if text == "extends"@ {
            Some(Axis::Extends)
        } else if text == "file"@ {
            Some(Axis::File)
        } else if text == "in_flow"@ {
            Some(Axis::InFlow)
        } else if text == "kind"@ {
            Some(Axis::Kind)
        } else if text == "language"@ {
            Some(Axis::Language)
        } else if text == "lines"@ {
            Some(Axis::Lines)
        } else if text == "name"@ {
            Some(Axis::Name)
        } else if text == "project"@ {
            Some(Axis::Project)
        } else if text == "relates_to"@ {
            Some(Axis::RelatesTo)
        } else if text == "renders"@ {
            Some(Axis::Renders)
        } else if text == "risk"@ {
            Some(Axis::Risk)
        } else if text == "tested"@ {
            Some(Axis::Tested)
        } else {
            None
        }
    }

    /// The value parsed from its label, or `None` when unknown.
    pub fn from_str_label(text: &str) -> (found: Option<Axis>)
        ensures
            found == Axis::named(text@),
    {
        if same_text(text, "called_by") {
            Some(Axis::CalledBy)
        } else if same_text(text, "callers") {
            Some(Axis::Callers)
        } else if same_text(text, "calls") {
            Some(Axis::Calls)
        } else if same_text(text, "changed_since") {
            Some(Axis::ChangedSince)
        } else if same_text(text, "churn") {
            Some(Axis::Churn)
        } else if same_text(text, "decorator") {
            Some(Axis::Decorator)
        } else if same_text(text, "extends") {
            Some(Axis::Extends)
        } else if same_text(text, "file") {
            Some(Axis::File)
        } else if same_text(text, "in_flow") {
            Some(Axis::InFlow)
        } else if same_text(text, "kind") {
            Some(Axis::Kind)
        } else if same_text(text, "language") {
            Some(Axis::Language)
        } else if same_text(text, "lines") {
            Some(Axis::Lines)
        } else if same_text(text, "name") {
            Some(Axis::Name)
        } else if same_text(text, "project") {
            Some(Axis::Project)
        } else if same_text(text, "relates_to") {
            Some(Axis::RelatesTo)
        } else if same_text(text, "renders") {
            Some(Axis::Renders)
        } else if same_text(text, "risk") {
            Some(Axis::Risk)
        } else if same_text(text, "tested") {
            Some(Axis::Tested)
        } else {
            None
        }
    }
}

/// The label of an axis reads back as that axis, so no label is declared twice.
pub proof fn law_axis_labels_read_back(axis: Axis)
    ensures
        Axis::named(axis.label()) == Some(axis),
{
    reveal_strlit("called_by");
    reveal_strlit("callers");
    reveal_strlit("calls");
    reveal_strlit("changed_since");
    reveal_strlit("churn");
    reveal_strlit("decorator");
    reveal_strlit("extends");
    reveal_strlit("file");
    reveal_strlit("in_flow");
    reveal_strlit("kind");
    reveal_strlit("language");
    reveal_strlit("lines");
    reveal_strlit("name");
    reveal_strlit("project");
    reveal_strlit("relates_to");
    reveal_strlit("renders");
    reveal_strlit("risk");
    reveal_strlit("tested");
    assert("called_by"@.len() == 9);
    assert("callers"@.len() == 7);
    assert("calls"@.len() == 5);
    assert("changed_since"@.len() == 13);
    assert("churn"@.len() == 5);
    assert("decorator"@.len() == 9);
    assert("extends"@.len() == 7);
    assert("file"@.len() == 4);
    assert("in_flow"@.len() == 7);
    assert("kind"@.len() == 4);
    assert("language"@.len() == 8);
    assert("lines"@.len() == 5);
    assert("name"@.len() == 4);
    assert("project"@.len() == 7);
    assert("relates_to"@.len() == 10);
    assert("renders"@.len() == 7);
    assert("risk"@.len() == 4);
    assert("tested"@.len() == 6);
    assert("called_by"@[0] == 'c');
    assert("callers"@[0] == 'c');
    assert("calls"@[0] == 'c');
    assert("calls"@[1] == 'a');
    assert("churn"@[0] == 'c');
    assert("churn"@[1] == 'h');
    assert("decorator"@[0] == 'd');
    assert("extends"@[0] == 'e');
    assert("file"@[0] == 'f');
    assert("in_flow"@[0] == 'i');
    assert("kind"@[0] == 'k');
    assert("lines"@[0] == 'l');
    assert("name"@[0] == 'n');
    assert("project"@[0] == 'p');
    assert("renders"@[0] == 'r');
    assert("risk"@[0] == 'r');
}


/// The comparison a criterion applies to its value.
#[derive(Clone, Copy, Debug, PartialEq, Eq, Structural)]
pub enum Op {
    Contains,
    Equal,
    GreaterOrEqual,
    GreaterThan,
    In,
    LessOrEqual,
    LessThan,
    Matches,
}

impl Op {
    /// Every value, for the message that lists the valid ones.
    pub const ALL: [Op; 8] = [
        Op::Contains,
        Op::Equal,
        Op::GreaterOrEqual,
        Op::GreaterThan,
        Op::In,
        Op::LessOrEqual,
        Op::LessThan,
        Op::Matches,
    ];

    /// The label a caller passes. The comparisons have a symbolic and a word form.
    pub open spec fn label(self) -> Seq<char> {
        match self {
            Op::Contains => "contains"@,
            Op::Equal => "eq"@,
            Op::GreaterOrEqual => ">="@,
            Op::GreaterThan => ">"@,
            Op::In => "in"@,
            Op::LessOrEqual => "<="@,
            Op::LessThan => "<"@,
            Op::Matches => "matches"@,
        }
    }

    /// The label a caller passes. The comparisons have a symbolic and a word form.
    pub fn as_str(self) -> (label: &'static str)
        ensures
            label@ == self.label(),
    {
        match self {
            Op::Contains => "contains",
            Op::Equal => "eq",
            Op::GreaterOrEqual => ">=",
            Op::GreaterThan => ">",
            Op::In => "in",
            Op::LessOrEqual => "<=",
            Op::LessThan => "<",
            Op::Matches => "matches",
        }
    }

    /// The value that a label names, if any.
    pub open spec fn named(text: Seq<char>) -> Option<Op> {
        if text == "contains"@ {
            Some(Op::Contains)
        } else if text == "=="@ || text == "eq"@ {
            Some(Op::Equal)
        } else if text == ">="@ || text == "gte"@ {
            Some(Op::GreaterOrEqual)
        } else if text == ">"@ || text == "gt"@ {
            Some(Op::GreaterThan)
        } else if text == "in"@ {
            Some(Op::In)
        } else if text == "<="@ || text == "lte"@ {
            Some(Op::LessOrEqual)
        } else if text == "<"@ || text == "lt"@ {
            Some(Op::LessThan)
        } else if text == "matches"@ {
            Some(Op::Matches)
        } else {
            None
        }
    }

    /// The value parsed from its label, or `None` when unknown.
    pub fn from_str_label(text: &str) -> (found: Option<Op>)
        ensures
            found == Op::named(text@),
    {
        if same_text(text, "contains") {
            Some(Op::Contains)
        } else if same_text(text, "==") || same_text(text, "eq") {
            Some(Op::Equal)
        } else if same_text(text, ">=") || same_text(text, "gte") {
            Some(Op::GreaterOrEqual)
        } else if same_text(text, ">") || same_text(text, "gt") {
            Some(Op::GreaterThan)
        } else if same_text(text, "in") {
            Some(Op::In)
        } else if same_text(text, "<=") || same_text(text, "lte") {
            Some(Op::LessOrEqual)
        } else if same_text(text, "<") || same_text(text, "lt") {
            Some(Op::LessThan)
        } else if same_text(text, "matches") {
            Some(Op::Matches)
        } else {
            None
        }
    }
}

/// The label of an op reads back as that op, so no label is declared twice.
pub proof fn law_op_labels_read_back(op: Op)
    ensures
        Op::named(op.label()) == Some(op),
{
    reveal_strlit("contains");
    reveal_strlit("==");
    reveal_strlit("eq");
    reveal_strlit(">=");
    reveal_strlit("gte");
    reveal_strlit(">");
    reveal_strlit("gt");
    reveal_strlit("in");
    reveal_strlit("<=");
    reveal_strlit("lte");
    reveal_strlit("<");
    reveal_strlit("lt");
    reveal_strlit("matches");
    assert("contains"@.len() == 8);
    assert("=="@.len() == 2);
    assert("eq"@.len() == 2);
    assert(">="@.len() == 2);
    assert("gte"@.len() == 3);
    assert(">"@.len() == 1);
    assert("gt"@.len() == 2);
    assert("in"@.len() == 2);
    assert("<="@.len() == 2);
    assert("lte"@.len() == 3);
    assert("<"@.len() == 1);
    assert("lt"@.len() == 2);
    assert("matches"@.len() == 7);
    assert("=="@[0] == '=');
    assert("eq"@[0] == 'e');
    assert(">="@[0] == '>');
    assert("gte"@[0] == 'g');
    assert(">"@[0] == '>');
    assert("gt"@[0] == 'g');
    assert("in"@[0] == 'i');
    assert("<="@[0] == '<');
    assert("lte"@[0] == 'l');
    assert("<"@[0] == '<');
    assert("lt"@[0] == 'l');
}


/// The order a result set comes back in.
#[derive(Clone, Copy, Debug, PartialEq, Eq, Structural)]
pub enum Rank {
    Callers,
    Churn,
    Criticality,
    Lines,
    Name,
    Risk,
}

impl Rank {
    /// Every value, for the message that lists the valid ones.
    pub const ALL: [Rank; 6] = [
        Rank::Callers,
        Rank::Churn,
        Rank::Criticality,
        Rank::Lines,
        Rank::Name,
        Rank::Risk,
    ];

    /// The label a caller passes.
    pub open spec fn label(self) -> Seq<char> {
        match self {
            Rank::Callers => "callers"@,
            Rank::Churn => "churn"@,
            Rank::Criticality => "criticality"@,
            Rank::Lines => "lines"@,
            Rank::Name => "name"@,
            Rank::Risk => "risk"@,
        }
    }

    /// The label a caller passes.
    pub fn as_str(self) -> (label: &'static str)
        ensures
            label@ == self.label(),
    {
        match self {
            Rank::Callers => "callers",
            Rank::Churn => "churn",
            Rank::Criticality => "criticality",
            Rank::Lines => "lines",
            Rank::Name => "name",
            Rank::Risk => "risk",
        }
    }

    /// The value that a label names, if any.
    pub open spec fn named(text: Seq<char>) -> Option<Rank> {
        if text == "callers"@ {
            Some(Rank::Callers)
        } else if text == "churn"@ {
            Some(Rank::Churn)
        } else if text == "criticality"@ {
            Some(Rank::Criticality)
        } else if text == "lines"@ {
            Some(Rank::Lines)
        } else if text == "name"@ {
            Some(Rank::Name)
        } else if text == "risk"@ {
            Some(Rank::Risk)
        } else {
            None
        }
    }

    /// The value parsed from its label, or `None` when unknown.
    pub fn from_str_label(text: &str) -> (found: Option<Rank>)
        ensures
            found == Rank::named(text@),
    {
        if same_text(text, "callers") {
            Some(Rank::Callers)
        } else if same_text(text, "churn") {
            Some(Rank::Churn)
        } else if same_text(text, "criticality") {
            Some(Rank::Criticality)
        } else if same_text(text, "lines") {
            Some(Rank::Lines)
        } else if same_text(text, "name") {
            Some(Rank::Name)
        } else if same_text(text, "risk") {
            Some(Rank::Risk)
        } else {
            None
        }
    }
}

/// The label of a rank reads back as that rank, so no label is declared twice.
pub proof fn law_rank_labels_read_back(rank: Rank)
    ensures
        Rank::named(rank.label()) == Some(rank),
{
    reveal_strlit("callers");
    reveal_strlit("churn");
    reveal_strlit("criticality");
    reveal_strlit("lines");
    reveal_strlit("name");
    reveal_strlit("risk");
    assert("callers"@.len() == 7);
    assert("churn"@.len() == 5);
    assert("criticality"@.len() == 11);
    assert("lines"@.len() == 5);
    assert("name"@.len() == 4);
    assert("risk"@.len() == 4);
    assert("churn"@[0] == 'c');
    assert("lines"@[0] == 'l');
    assert("name"@[0] == 'n');
    assert("risk"@[0] == 'r');
}


/// The cost of evaluating an axis, which decides the evaluation order.
#[derive(Clone, Copy, Debug, PartialEq, Eq, Structural)]
pub enum Cost {
    /// An indexed column already loaded with the node. Free.
    Column,
    /// A derived scalar needing one bulk read for the whole candidate set.
    Derived,
    /// An edge join, the most expensive, run last against the narrowed set.
    Edge,
}

/// The ops an axis accepts.
pub open spec fn ops_of(axis: Axis) -> Seq<Op> {
    match axis {
        Axis::Kind | Axis::Language | Axis::Project => seq![Op::Equal, Op::In],
        Axis::Name => seq![Op::Contains, Op::Equal, Op::Matches],
        Axis::File => seq![Op::Contains, Op::Matches],
        Axis::Decorator
        | Axis::Calls
        | Axis::CalledBy
        | Axis::Extends
        | Axis::RelatesTo
        | Axis::Renders => seq![Op::Contains],
        Axis::Lines | Axis::Callers | Axis::Churn => seq![
            Op::Equal,
            Op::GreaterOrEqual,
            Op::GreaterThan,
            Op::LessOrEqual,
            Op::LessThan,
        ],
        Axis::ChangedSince => seq![Op::GreaterOrEqual],
        Axis::Tested => seq![Op::Equal],
        Axis::InFlow => seq![Op::Contains, Op::Equal],
        Axis::Risk => seq![Op::GreaterOrEqual, Op::GreaterThan],
    }
}

/// Every axis accepts at least one op.
pub proof fn law_every_axis_accepts_an_op(axis: Axis)
    ensures
        ops_of(axis).len() >= 1,
{
}

/// The cost of an axis, which fixes its evaluation position.
pub open spec fn cost_of(axis: Axis) -> Cost {
    match axis {
        Axis::Decorator
        | Axis::File
        | Axis::Kind
        | Axis::Language
        | Axis::Lines
        | Axis::Name
        | Axis::Project => Cost::Column,
        Axis::CalledBy
        | Axis::Callers
        | Axis::ChangedSince
        | Axis::Churn
        | Axis::InFlow
        | Axis::Risk
        | Axis::Tested => Cost::Derived,
        Axis::Calls | Axis::Extends | Axis::RelatesTo | Axis::Renders => Cost::Edge,
    }
}

impl Axis {
    /// The ops this axis accepts.
    pub fn allowed_ops(self) -> (ops: Vec<Op>)
        ensures
            ops@ == ops_of(self),
    {
        match self {
            Axis::Kind | Axis::Language | Axis::Project => vec![Op::Equal, Op::In],
            Axis::Name => vec![Op::Contains, Op::Equal, Op::Matches],
            Axis::File => vec![Op::Contains, Op::Matches],
            Axis::Decorator
            | Axis::Calls
            | Axis::CalledBy
            | Axis::Extends
            | Axis::RelatesTo
            | Axis::Renders => vec![Op::Contains],
            Axis::Lines | Axis::Callers | Axis::Churn => vec![
                Op::Equal,
                Op::GreaterOrEqual,
                Op::GreaterThan,
                Op::LessOrEqual,
                Op::LessThan,
            ],
            Axis::ChangedSince => vec![Op::GreaterOrEqual],
            Axis::Tested => vec![Op::Equal],
            Axis::InFlow => vec![Op::Contains, Op::Equal],
            Axis::Risk => vec![Op::GreaterOrEqual, Op::GreaterThan],
        }
    }

    /// The cost of this axis, which fixes its evaluation position.
    pub fn cost(self) -> (cost: Cost)
        ensures
            cost == cost_of(self),
    {
        match self {
            Axis::Decorator
            | Axis::File
            | Axis::Kind
            | Axis::Language
            | Axis::Lines
            | Axis::Name
            | Axis::Project => Cost::Column,
            Axis::CalledBy
            | Axis::Callers
            | Axis::ChangedSince
            | Axis::Churn
            | Axis::InFlow
            | Axis::Risk
            | Axis::Tested => Cost::Derived,
            Axis::Calls | Axis::Extends | Axis::RelatesTo | Axis::Renders => Cost::Edge,
        }
    }
}

/// The labels of the ops.
pub open spec fn op_labels(ops: Seq<Op>) -> Seq<Seq<char>> {
    ops.map_values(|op: Op| op.label())
}

fn labels_of_ops(ops: &[Op]) -> (text: String)
    ensures
        text@ == join_spec(op_labels(ops@), ", "@),
{
    let mut labels: Vec<String> = Vec::new();
    assert(views(labels@) =~= op_labels(ops@).take(0));
    for i in 0..ops.len()
        invariant
            views(labels@) == op_labels(ops@).take(i as int),
    {
        let ghost before = labels@;
        labels.push(copy(ops[i].as_str()));
        assert(views(labels@) =~= views(before).push(ops@[i as int].label()));
        assert(op_labels(ops@).take(i + 1) =~= op_labels(ops@).take(i as int).push(
            ops@[i as int].label(),
        ));
    }
    assert(op_labels(ops@).take(ops@.len() as int) =~= op_labels(ops@));
    join(labels.as_slice(), ", ")
}

/// The labels of all axes.
pub open spec fn axis_labels() -> Seq<Seq<char>> {
    Axis::ALL@.map_values(|axis: Axis| axis.label())
}

fn labels_of_axes() -> (text: String)
    ensures
        text@ == join_spec(axis_labels(), ", "@),
{
    let axes = Axis::ALL;
    let mut labels: Vec<String> = Vec::new();
    assert(views(labels@) =~= axis_labels().take(0));
    for i in 0..axes.len()
        invariant
            axes@ == Axis::ALL@,
            views(labels@) == axis_labels().take(i as int),
    {
        let ghost before = labels@;
        labels.push(copy(axes[i].as_str()));
        assert(views(labels@) =~= views(before).push(axes@[i as int].label()));
        assert(axis_labels().take(i + 1) =~= axis_labels().take(i as int).push(
            axes@[i as int].label(),
        ));
    }
    assert(axis_labels().take(axes@.len() as int) =~= axis_labels());
    join(labels.as_slice(), ", ")
}

/// The labels of all ranks.
pub open spec fn rank_labels() -> Seq<Seq<char>> {
    Rank::ALL@.map_values(|rank: Rank| rank.label())
}

impl Rank {
    /// The comma-joined list of valid rank labels.
    pub fn valid_labels() -> (text: String)
        ensures
            text@ == join_spec(rank_labels(), ", "@),
    {
        let ranks = Rank::ALL;
        let mut labels: Vec<String> = Vec::new();
        assert(views(labels@) =~= rank_labels().take(0));
        for i in 0..ranks.len()
            invariant
                ranks@ == Rank::ALL@,
                views(labels@) == rank_labels().take(i as int),
        {
            let ghost before = labels@;
            labels.push(copy(ranks[i].as_str()));
            assert(views(labels@) =~= views(before).push(ranks@[i as int].label()));
            assert(rank_labels().take(i + 1) =~= rank_labels().take(i as int).push(
                ranks@[i as int].label(),
            ));
        }
        assert(rank_labels().take(ranks@.len() as int) =~= rank_labels());
        join(labels.as_slice(), ", ")
    }
}

// ---------------------------------------------------------------------------
// Refusals

/// The reasons a criterion could not be accepted. Every message names the valid values, because a
/// caller cannot discover them otherwise, and silently ignoring a criterion would return a superset
/// the caller believes is filtered.
#[derive(Clone, Debug, PartialEq, Eq)]
pub enum WinnowError {
    /// The refusal of more criteria than [`WINNOW_CRITERIA_MAX`].
    TooManyCriteria(usize),
    /// A pattern longer than [`PATTERN_CHARS_MAX`].
    PatternTooLong(usize),
    /// An axis label that names no axis.
    UnknownAxis(String),
    /// An op label that names no op.
    UnknownOp(String),
    /// An op this axis does not accept.
    UnsupportedOp { axis: Axis, op: Op },
    /// A value that is not the shape the axis needs.
    UnusableValue { axis: Axis, value: String },
}

/// A refusal as a value.
pub enum ErrorView {
    TooManyCriteria(int),
    PatternTooLong(int),
    UnknownAxis(Seq<char>),
    UnknownOp(Seq<char>),
    UnsupportedOp { axis: Axis, op: Op },
    UnusableValue { axis: Axis, value: Seq<char> },
}

impl View for WinnowError {
    type V = ErrorView;

    open spec fn view(&self) -> ErrorView {
        match *self {
            WinnowError::TooManyCriteria(count) => ErrorView::TooManyCriteria(count as int),
            WinnowError::PatternTooLong(length) => ErrorView::PatternTooLong(length as int),
            WinnowError::UnknownAxis(axis) => ErrorView::UnknownAxis(axis@),
            WinnowError::UnknownOp(op) => ErrorView::UnknownOp(op@),
            WinnowError::UnsupportedOp { axis, op } => ErrorView::UnsupportedOp { axis, op },
            WinnowError::UnusableValue { axis, value } => ErrorView::UnusableValue {
                axis,
                value: value@,
            },
        }
    }
}

/// The shape of value an axis needs.
pub open spec fn value_hint_spec(axis: Axis) -> Seq<char> {
    match axis {
        Axis::Callers | Axis::Churn | Axis::Lines => "it expects an integer"@,
        Axis::ChangedSince => "it expects a date as YYYY-MM-DD"@,
        Axis::Kind =>
            "it expects a node kind, e.g. model, view, route, class, function, method"@,
        Axis::Language => "it expects a language: python, htmldjango, javascript, css"@,
        Axis::Risk => "it expects a number between 0.0 and 1.0"@,
        Axis::Tested => "it expects true or false"@,
        _ => "it expects a non-empty string"@,
    }
}

fn value_hint(axis: Axis) -> (hint: &'static str)
    ensures
        hint@ == value_hint_spec(axis),
{
    match axis {
        Axis::Callers | Axis::Churn | Axis::Lines => "it expects an integer",
        Axis::ChangedSince => "it expects a date as YYYY-MM-DD",
        Axis::Kind => "it expects a node kind, e.g. model, view, route, class, function, method",
        Axis::Language => "it expects a language: python, htmldjango, javascript, css",
        Axis::Risk => "it expects a number between 0.0 and 1.0",
        Axis::Tested => "it expects true or false",
        _ => "it expects a non-empty string",
    }
}

/// What a refusal says.
pub open spec fn error_text(error: ErrorView) -> Seq<char> {
    match error {
        ErrorView::TooManyCriteria(count) => decimal_spec(count as nat)
            + " criteria passed; at most "@ + decimal_spec(WINNOW_CRITERIA_MAX as nat)
            + " are accepted. Split the query and intersect the results."@,
        ErrorView::PatternTooLong(length) => "a pattern of "@ + decimal_spec(length as nat)
            + " characters was passed; at most "@ + decimal_spec(PATTERN_CHARS_MAX as nat)
            + " are accepted"@,
        ErrorView::UnknownAxis(axis) => "unknown axis "@ + quoted(axis) + ". Valid axes: "@
            + join_spec(axis_labels(), ", "@),
        ErrorView::UnknownOp(op) => "unknown op "@ + quoted(op) + ". Valid ops: "@ + join_spec(
            op_labels(Op::ALL@),
            ", "@,
        ) + " (and the word forms gt, gte, lt, lte, ==)"@,
        ErrorView::UnsupportedOp { axis, op } => "axis "@ + quoted(axis.label())
            + " does not accept op "@ + quoted(op.label()) + ". It accepts: "@ + join_spec(
            op_labels(ops_of(axis)),
            ", "@,
        ),
        ErrorView::UnusableValue { axis, value } => "axis "@ + quoted(axis.label())
            + " cannot use value "@ + quoted(value) + "; "@ + value_hint_spec(axis),
    }
}

impl WinnowError {
    /// What the refusal says to the caller.
    pub fn message(&self) -> (text: String)
        ensures
            text@ == error_text(self@),
    {
        match self {
            WinnowError::TooManyCriteria(count) => cat4(
                decimal_usize(*count).as_str(),
                " criteria passed; at most ",
                decimal_usize(WINNOW_CRITERIA_MAX).as_str(),
                " are accepted. Split the query and intersect the results.",
            ),
            WinnowError::PatternTooLong(length) => cat5(
                "a pattern of ",
                decimal_usize(*length).as_str(),
                " characters was passed; at most ",
                decimal_usize(PATTERN_CHARS_MAX).as_str(),
                " are accepted",
            ),
            WinnowError::UnknownAxis(axis) => cat4(
                "unknown axis ",
                quote(axis.as_str()).as_str(),
                ". Valid axes: ",
                labels_of_axes().as_str(),
            ),
            WinnowError::UnknownOp(op) => {
                let ops = Op::ALL;
                let mut text = cat4(
                    "unknown op ",
                    quote(op.as_str()).as_str(),
                    ". Valid ops: ",
                    labels_of_ops(ops.as_slice()).as_str(),
                );
                text.append(" (and the word forms gt, gte, lt, lte, ==)");
                text
            },
            WinnowError::UnsupportedOp { axis, op } => {
                let mut text = cat4(
                    "axis ",
                    quote(axis.as_str()).as_str(),
                    " does not accept op ",
                    quote(op.as_str()).as_str(),
                );
                text.append(". It accepts: ");
                text.append(labels_of_ops(axis.allowed_ops().as_slice()).as_str());
                text
            },
            WinnowError::UnusableValue { axis, value } => {
                let mut text = cat4(
                    "axis ",
                    quote(axis.as_str()).as_str(),
                    " cannot use value ",
                    quote(value.as_str()).as_str(),
                );
                text.append("; ");
                text.append(value_hint(*axis));
                text
            },
        }
    }
}

// ---------------------------------------------------------------------------
// Criteria

/// The parsed, validated value of one criterion.
#[derive(Clone, Debug, PartialEq, Eq)]
pub enum Value {
    /// A date as epoch seconds.
    Date(i64),
    /// A threshold between zero and one.
    Fraction(Fraction),
    /// A set of node kinds.
    Kinds(Vec<NodeKind>),
    /// A set of languages.
    Languages(Vec<Language>),
    /// An integer threshold.
    Number(i64),
    /// A list of one or more strings, lowercased.
    Strings(Vec<String>),
    /// A boolean.
    Truth(bool),
}

/// A parsed value as a value.
pub enum ValueView {
    Date(int),
    Fraction(int, Seq<char>),
    Kinds(Seq<NodeKind>),
    Languages(Seq<Language>),
    Number(int),
    Strings(Seq<Seq<char>>),
    Truth(bool),
}

impl View for Value {
    type V = ValueView;

    open spec fn view(&self) -> ValueView {
        match *self {
            Value::Date(epoch) => ValueView::Date(epoch as int),
            Value::Fraction(fraction) => ValueView::Fraction(
                fraction.order as int,
                fraction.text@,
            ),
            Value::Kinds(kinds) => ValueView::Kinds(kinds@),
            Value::Languages(languages) => ValueView::Languages(languages@),
            Value::Number(number) => ValueView::Number(number as int),
            Value::Strings(strings) => ValueView::Strings(views(strings@)),
            Value::Truth(truth) => ValueView::Truth(truth),
        }
    }
}

/// A parsed criterion, ready to evaluate.
#[derive(Clone, Debug)]
pub struct Criterion {
    pub axis: Axis,
    pub op: Op,
    pub value: Value,
    /// The churn window in days, meaningful only for [`Axis::Churn`].
    pub window_days: u32,
}

/// A parsed criterion as a value.
pub struct CriterionView {
    pub axis: Axis,
    pub op: Op,
    pub value: ValueView,
    pub window_days: int,
}

impl View for Criterion {
    type V = CriterionView;

    open spec fn view(&self) -> CriterionView {
        CriterionView {
            axis: self.axis,
            op: self.op,
            value: self.value@,
            window_days: self.window_days as int,
        }
    }
}

/// Parsed criteria as values.
pub open spec fn criteria_view(criteria: Seq<Criterion>) -> Seq<CriterionView> {
    criteria.map_values(|criterion: Criterion| criterion@)
}

/// A value rendered back the way a caller would have written it.
pub open spec fn value_text(value: ValueView) -> Seq<char> {
    match value {
        ValueView::Date(epoch) => "epoch "@ + signed_spec(epoch),
        ValueView::Fraction(order, text) => text,
        ValueView::Kinds(kinds) => join_spec(
            kinds.map_values(|kind: NodeKind| kind.label()),
            ","@,
        ),
        ValueView::Languages(languages) => join_spec(
            languages.map_values(|language: Language| language.label()),
            ","@,
        ),
        ValueView::Number(number) => signed_spec(number),
        ValueView::Strings(strings) => join_spec(strings, ","@),
        ValueView::Truth(truth) => if truth {
            "true"@
        } else {
            "false"@
        },
    }
}

fn describe_value(value: &Value) -> (text: String)
    ensures
        text@ == value_text(value@),
{
    match value {
        Value::Date(epoch) => cat2("epoch ", decimal_i64(*epoch).as_str()),
        Value::Fraction(fraction) => copy(fraction.text.as_str()),
        Value::Kinds(kinds) => {
            let ghost all = kinds@.map_values(|kind: NodeKind| kind.label());
            let mut labels: Vec<String> = Vec::new();
            assert(views(labels@) =~= all.take(0));
            for i in 0..kinds.len()
                invariant
                    all == kinds@.map_values(|kind: NodeKind| kind.label()),
                    views(labels@) == all.take(i as int),
            {
                let ghost before = labels@;
                labels.push(copy(kinds[i].as_str()));
                assert(views(labels@) =~= views(before).push(all[i as int]));
                assert(all.take(i + 1) =~= all.take(i as int).push(all[i as int]));
            }
            assert(all.take(kinds@.len() as int) =~= all);
            join(labels.as_slice(), ",")
        },
        Value::Languages(languages) => {
            let ghost all = languages@.map_values(|language: Language| language.label());
            let mut labels: Vec<String> = Vec::new();
            assert(views(labels@) =~= all.take(0));
            for i in 0..languages.len()
                invariant
                    all == languages@.map_values(|language: Language| language.label()),
                    views(labels@) == all.take(i as int),
            {
                let ghost before = labels@;
                labels.push(copy(languages[i].as_str()));
                assert(views(labels@) =~= views(before).push(all[i as int]));
                assert(all.take(i + 1) =~= all.take(i as int).push(all[i as int]));
            }
            assert(all.take(languages@.len() as int) =~= all);
            join(labels.as_slice(), ",")
        },
        Value::Number(number) => decimal_i64(*number),
        Value::Strings(strings) => join(strings.as_slice(), ","),
        Value::Truth(truth) => copy(
            if *truth {
                "true"
            } else {
                "false"
            },
        ),
    }
}

/// A one-line rendering of a criterion.
pub open spec fn criterion_text(criterion: CriterionView) -> Seq<char> {
    criterion.axis.label() + " "@ + criterion.op.label() + " "@ + value_text(criterion.value)
}

impl Criterion {
    /// A one-line rendering of the criterion, for the "which criterion emptied the set" message.
    pub fn describe(&self) -> (text: String)
        ensures
            text@ == criterion_text(self@),
    {
        cat5(
            self.axis.as_str(),
            " ",
            self.op.as_str(),
            " ",
            describe_value(&self.value).as_str(),
        )
    }
}

/// The raw criterion as it arrives from the tool call. `fraction` is the number that the value
/// reads as, where it is one, of whatever size.
pub struct RawCriterion<'a> {
    pub axis: &'a str,
    pub op: &'a str,
    pub value: &'a str,
    pub window_days: Option<u32>,
    pub fraction: Option<&'a Fraction>,
}

/// The lowercased, non-empty parts of the first `count` pieces.
pub open spec fn listed_upto(pieces: Seq<Seq<char>>, count: int) -> Seq<Seq<char>>
    decreases count,
{
    if count <= 0 {
        Seq::empty()
    } else {
        let part = ascii_lower_spec(trim_spec(pieces[count - 1]));
        if part.len() == 0 {
            listed_upto(pieces, count - 1)
        } else {
            listed_upto(pieces, count - 1).push(part)
        }
    }
}

/// A comma-separated value split into lowercased, non-empty parts.
pub open spec fn split_list_spec(raw: Seq<char>) -> Seq<Seq<char>> {
    let pieces = split_spec(raw, ","@);
    listed_upto(pieces, pieces.len() as int)
}

fn split_list(raw: &str) -> (parts: Vec<String>)
    ensures
        views(parts@) == split_list_spec(raw@),
{
    proof {
        reveal_strlit(",");
    }
    let pieces = split(raw, ",");
    let ghost all = views(pieces@);
    assert(all.len() == pieces@.len());
    let mut parts: Vec<String> = Vec::new();
    assert(views(parts@) =~= Seq::empty());
    for i in 0..pieces.len()
        invariant
            all == views(pieces@),
            views(parts@) == listed_upto(all, i as int),
    {
        let ghost before = parts@;
        assert(all[i as int] == pieces@[i as int]@);
        let part = ascii_lower(trim(pieces[i].as_str()).as_str());
        if !part.as_str().is_empty() {
            parts.push(part);
            assert(views(parts@) =~= views(before).push(part@));
        }
    }
    parts
}

/// The kinds that the first `count` parts name; `None` where one names none.
pub open spec fn kinds_upto(parts: Seq<Seq<char>>, count: int) -> Option<Seq<NodeKind>>
    decreases count,
{
    if count <= 0 {
        Some(Seq::empty())
    } else {
        match (kinds_upto(parts, count - 1), NodeKind::named(parts[count - 1])) {
            (Some(kinds), Some(kind)) => Some(kinds.push(kind)),
            _ => None,
        }
    }
}

/// The languages that the first `count` parts name; `None` where one names none.
pub open spec fn languages_upto(parts: Seq<Seq<char>>, count: int) -> Option<Seq<Language>>
    decreases count,
{
    if count <= 0 {
        Some(Seq::empty())
    } else {
        match (languages_upto(parts, count - 1), Language::named(parts[count - 1])) {
            (Some(languages), Some(language)) => Some(languages.push(language)),
            _ => None,
        }
    }
}

proof fn lemma_kinds_stay_none(parts: Seq<Seq<char>>, fewer: int, more: int)
    requires
        fewer <= more,
        kinds_upto(parts, fewer) is None,
    ensures
        kinds_upto(parts, more) is None,
    decreases more - fewer,
{
    if fewer < more {
        lemma_kinds_stay_none(parts, fewer, more - 1);
    }
}

proof fn lemma_languages_stay_none(parts: Seq<Seq<char>>, fewer: int, more: int)
    requires
        fewer <= more,
        languages_upto(parts, fewer) is None,
    ensures
        languages_upto(parts, more) is None,
    decreases more - fewer,
{
    if fewer < more {
        lemma_languages_stay_none(parts, fewer, more - 1);
    }
}

fn parse_kinds(parts: &[String]) -> (kinds: Option<Vec<NodeKind>>)
    ensures
        match kinds {
            Some(kinds) => kinds_upto(views(parts@), parts@.len() as int) == Some(kinds@),
            None => kinds_upto(views(parts@), parts@.len() as int) is None,
        },
{
    let mut kinds: Vec<NodeKind> = Vec::new();
    for i in 0..parts.len()
        invariant
            kinds_upto(views(parts@), i as int) == Some(kinds@),
    {
        match NodeKind::from_str_label(parts[i].as_str()) {
            Some(kind) => {
                kinds.push(kind);
            },
            None => {
                proof {
                    lemma_kinds_stay_none(views(parts@), i + 1, parts@.len() as int);
                }
                return None;
            },
        }
    }
    Some(kinds)
}

fn parse_languages(parts: &[String]) -> (languages: Option<Vec<Language>>)
    ensures
        match languages {
            Some(languages) => languages_upto(views(parts@), parts@.len() as int) == Some(
                languages@,
            ),
            None => languages_upto(views(parts@), parts@.len() as int) is None,
        },
{
    let mut languages: Vec<Language> = Vec::new();
    for i in 0..parts.len()
        invariant
            languages_upto(views(parts@), i as int) == Some(languages@),
    {
        match Language::from_str_label(parts[i].as_str()) {
            Some(language) => {
                languages.push(language);
            },
            None => {
                proof {
                    lemma_languages_stay_none(views(parts@), i + 1, parts@.len() as int);
                }
                return None;
            },
        }
    }
    Some(languages)
}

/// The truth that a lowercased value stands for, where it stands for one.
pub open spec fn truth_of(text: Seq<char>) -> Option<bool> {
    if text == "true"@ || text == "yes"@ || text == "1"@ {
        Some(true)
    } else if text == "false"@ || text == "no"@ || text == "0"@ {
        Some(false)
    } else {
        None
    }
}

fn parse_truth(text: &str) -> (truth: Option<bool>)
    ensures
        truth == truth_of(text@),
{
    if same_text(text, "true") || same_text(text, "yes") || same_text(text, "1") {
        Some(true)
    } else if same_text(text, "false") || same_text(text, "no") || same_text(text, "0") {
        Some(false)
    } else {
        None
    }
}

/// The parts as a list of one or more strings; `None` where there are none.
pub open spec fn strings_of(parts: Seq<Seq<char>>) -> Option<ValueView> {
    if parts.len() > 0 {
        Some(ValueView::Strings(parts))
    } else {
        None
    }
}

/// The value in the shape its axis needs; `None` where it has not that shape.
pub open spec fn value_of(axis: Axis, raw: Seq<char>, fraction: Option<&Fraction>) -> Option<
    ValueView,
> {
    let trimmed = trim_spec(raw);
    let parts = split_list_spec(trimmed);
    if trimmed.len() == 0 {
        None
    } else {
        match axis {
            Axis::Kind => match kinds_upto(parts, parts.len() as int) {
                Some(kinds) => if parts.len() > 0 {
                    Some(ValueView::Kinds(kinds))
                } else {
                    None
                },
                None => None,
            },
            Axis::Language => match languages_upto(parts, parts.len() as int) {
                Some(languages) => if parts.len() > 0 {
                    Some(ValueView::Languages(languages))
                } else {
                    None
                },
                None => None,
            },
            Axis::Callers | Axis::Churn | Axis::Lines => match signed_value(trimmed) {
                Some(number) => Some(ValueView::Number(number)),
                None => None,
            },
            Axis::Risk => match fraction {
                Some(fraction) => if fraction.order <= FRACTION_ONE {
                    Some(ValueView::Fraction(fraction.order as int, fraction.text@))
                } else {
                    None
                },
                None => None,
            },
            Axis::ChangedSince => match ymd_epoch(trimmed) {
                Some(epoch) => Some(ValueView::Date(epoch)),
                None => None,
            },
            Axis::Tested => match truth_of(ascii_lower_spec(trimmed)) {
                Some(truth) => Some(ValueView::Truth(truth)),
                None => None,
            },
            Axis::InFlow => match truth_of(ascii_lower_spec(trimmed)) {
                Some(truth) => Some(ValueView::Truth(truth)),
                None => strings_of(parts),
            },
            _ => strings_of(parts),
        }
    }
}

/// The epoch seconds at midnight of a `YYYY-MM-DD` date, or `None`.
pub fn parse_date(text: &str) -> (secs: Option<i64>)
    ensures
        match secs {
            Some(secs) => ymd_epoch(text@) == Some(secs as int),
            None => ymd_epoch(text@) is None,
        },
{
    parse_ymd_to_epoch(text)
}

fn parse_strings(text: &str, unusable: WinnowError) -> (value: Result<Value, WinnowError>)
    ensures
        match value {
            Ok(value) => strings_of(split_list_spec(text@)) == Some(value@),
            Err(error) => strings_of(split_list_spec(text@)) is None && error == unusable,
        },
{
    let parts = split_list(text);
    assert(views(parts@).len() == parts@.len());
    if parts.len() == 0 {
        Err(unusable)
    } else {
        Ok(Value::Strings(parts))
    }
}

fn parse_value(axis: Axis, raw: &str, fraction: Option<&Fraction>) -> (value: Result<
    Value,
    WinnowError,
>)
    ensures
        match value {
            Ok(value) => value_of(axis, raw@, fraction) == Some(value@),
            Err(error) => value_of(axis, raw@, fraction) is None && error@
                == (ErrorView::UnusableValue { axis, value: raw@ }),
        },
{
    let unusable = WinnowError::UnusableValue { axis, value: copy(raw) };
    let trimmed = trim(raw);
    if trimmed.as_str().is_empty() {
        return Err(unusable);
    }
    match axis {
        Axis::Kind => {
            let parts = split_list(trimmed.as_str());
            assert(views(parts@).len() == parts@.len());
            if parts.len() == 0 {
                return Err(unusable);
            }
            match parse_kinds(parts.as_slice()) {
                Some(kinds) => Ok(Value::Kinds(kinds)),
                None => Err(unusable),
            }
        },
        Axis::Language => {
            let parts = split_list(trimmed.as_str());
            assert(views(parts@).len() == parts@.len());
            if parts.len() == 0 {
                return Err(unusable);
            }
            match parse_languages(parts.as_slice()) {
                Some(languages) => Ok(Value::Languages(languages)),
                None => Err(unusable),
            }
        },
        Axis::Callers | Axis::Churn | Axis::Lines => match parse_i64(trimmed.as_str()) {
            Some(number) => Ok(Value::Number(number)),
            None => Err(unusable),
        },
        Axis::Risk => match fraction {
            Some(fraction) => if fraction.order <= FRACTION_ONE {
                Ok(
                    Value::Fraction(
                        Fraction { order: fraction.order, text: copy(fraction.text.as_str()) },
                    ),
                )
            } else {
                Err(unusable)
            },
            None => Err(unusable),
        },
        Axis::ChangedSince => match parse_date(trimmed.as_str()) {
            Some(epoch) => Ok(Value::Date(epoch)),
            None => Err(unusable),
        },
        Axis::Tested => match parse_truth(ascii_lower(trimmed.as_str()).as_str()) {
            Some(truth) => Ok(Value::Truth(truth)),
            None => Err(unusable),
        },
        Axis::InFlow => match parse_truth(ascii_lower(trimmed.as_str()).as_str()) {
            Some(truth) => Ok(Value::Truth(truth)),
            None => parse_strings(trimmed.as_str(), unusable),
        },
        _ => parse_strings(trimmed.as_str(), unusable),
    }
}

/// The churn window of a criterion: the default where none is given, and at least a day.
pub open spec fn window_of(window_days: Option<u32>) -> int {
    match window_days {
        Some(days) => if days >= 1 {
            days as int
        } else {
            1
        },
        None => CHURN_WINDOW_DAYS_DEFAULT as int,
    }
}

/// One raw criterion parsed and validated.
pub open spec fn parse_one_spec(raw: RawCriterion<'_>) -> Result<CriterionView, ErrorView> {
    match Axis::named(trim_spec(raw.axis@)) {
        None => Err(ErrorView::UnknownAxis(raw.axis@)),
        Some(axis) => match Op::named(trim_spec(raw.op@)) {
            None => Err(ErrorView::UnknownOp(raw.op@)),
            Some(op) => if !ops_of(axis).contains(op) {
                Err(ErrorView::UnsupportedOp { axis, op })
            } else if raw.value@.len() > PATTERN_CHARS_MAX {
                Err(ErrorView::PatternTooLong(raw.value@.len() as int))
            } else {
                match value_of(axis, raw.value@, raw.fraction) {
                    None => Err(ErrorView::UnusableValue { axis, value: raw.value@ }),
                    Some(value) => Ok(
                        CriterionView { axis, op, value, window_days: window_of(raw.window_days) },
                    ),
                }
            },
        },
    }
}

fn parse_one(raw: &RawCriterion<'_>) -> (parsed: Result<Criterion, WinnowError>)
    ensures
        match parsed {
            Ok(criterion) => parse_one_spec(*raw) == Ok::<CriterionView, ErrorView>(criterion@),
            Err(error) => parse_one_spec(*raw) == Err::<CriterionView, ErrorView>(error@),
        },
{
    let axis = match Axis::from_str_label(trim(raw.axis).as_str()) {
        Some(axis) => axis,
        None => {
            return Err(WinnowError::UnknownAxis(copy(raw.axis)));
        },
    };
    let op = match Op::from_str_label(trim(raw.op).as_str()) {
        Some(op) => op,
        None => {
            return Err(WinnowError::UnknownOp(copy(raw.op)));
        },
    };
    let allowed = axis.allowed_ops();
    let mut accepted = false;
    for i in 0..allowed.len()
        invariant
            allowed@ == ops_of(axis),
            accepted == exists|k: int| 0 <= k < i && #[trigger] allowed@[k] == op,
    {
        if allowed[i] == op {
            accepted = true;
        }
    }
    assert(accepted == ops_of(axis).contains(op));
    if !accepted {
        return Err(WinnowError::UnsupportedOp { axis, op });
    }
    let length: usize = chars_of(raw.value).len();
    if length > PATTERN_CHARS_MAX {
        return Err(WinnowError::PatternTooLong(length));
    }
    let value = match parse_value(axis, raw.value, raw.fraction) {
        Ok(value) => value,
        Err(error) => {
            return Err(error);
        },
    };
    let window_days: u32 = match raw.window_days {
        Some(days) => if days >= 1 {
            days
        } else {
            1
        },
        None => CHURN_WINDOW_DAYS_DEFAULT,
    };
    Ok(Criterion { axis, op, value, window_days })
}

/// The first `count` raw criteria parsed, up to the first that is refused.
pub open spec fn parsed_upto(raw: Seq<RawCriterion<'_>>, count: int) -> Result<
    Seq<CriterionView>,
    ErrorView,
>
    decreases count,
{
    if count <= 0 {
        Ok(Seq::empty())
    } else {
        match parsed_upto(raw, count - 1) {
            Err(error) => Err(error),
            Ok(before) => match parse_one_spec(raw[count - 1]) {
                Err(error) => Err(error),
                Ok(criterion) => Ok(before.push(criterion)),
            },
        }
    }
}

/// Those of the first `count` criteria whose axis has this cost, in order.
pub open spec fn of_cost(criteria: Seq<CriterionView>, cost: Cost, count: int) -> Seq<
    CriterionView,
>
    decreases count,
{
    if count <= 0 {
        Seq::empty()
    } else if cost_of(criteria[count - 1].axis) == cost {
        of_cost(criteria, cost, count - 1).push(criteria[count - 1])
    } else {
        of_cost(criteria, cost, count - 1)
    }
}

/// The criteria cheapest first, those of equal cost in the order given.
pub open spec fn by_cost(criteria: Seq<CriterionView>) -> Seq<CriterionView> {
    let count = criteria.len() as int;
    of_cost(criteria, Cost::Column, count) + of_cost(criteria, Cost::Derived, count) + of_cost(
        criteria,
        Cost::Edge,
        count,
    )
}

/// The raw criteria parsed and validated, cheapest first.
pub open spec fn parse_spec(raw: Seq<RawCriterion<'_>>) -> Result<Seq<CriterionView>, ErrorView> {
    if raw.len() > WINNOW_CRITERIA_MAX {
        Err(ErrorView::TooManyCriteria(raw.len() as int))
    } else {
        match parsed_upto(raw, raw.len() as int) {
            Err(error) => Err(error),
            Ok(criteria) => Ok(by_cost(criteria)),
        }
    }
}

proof fn lemma_parsed_stays_refused(raw: Seq<RawCriterion<'_>>, fewer: int, more: int)
    requires
        fewer <= more,
        parsed_upto(raw, fewer) is Err,
    ensures
        parsed_upto(raw, more) == parsed_upto(raw, fewer),
    decreases more - fewer,
{
    if fewer < more {
        lemma_parsed_stays_refused(raw, fewer, more - 1);
    }
}

proof fn lemma_parsed_count(raw: Seq<RawCriterion<'_>>, count: int)
    requires
        0 <= count,
    ensures
        match parsed_upto(raw, count) {
            Ok(criteria) => criteria.len() == count,
            Err(_) => true,
        },
    decreases count,
{
    if count > 0 {
        lemma_parsed_count(raw, count - 1);
    }
}

proof fn lemma_of_cost_prefix(
    criteria: Seq<CriterionView>,
    longer: Seq<CriterionView>,
    cost: Cost,
    count: int,
)
    requires
        0 <= count <= criteria.len() <= longer.len(),
        forall|i: int| 0 <= i < count ==> criteria[i] == longer[i],
    ensures
        of_cost(criteria, cost, count) == of_cost(longer, cost, count),
    decreases count,
{
    if count > 0 {
        lemma_of_cost_prefix(criteria, longer, cost, count - 1);
    }
}

/// The raw criteria parsed and validated, then reordered cheapest-first.
///
/// Validation is total: an unknown axis, an unknown op, an op the axis does not accept, or an
/// unusable value is an error naming the valid alternatives. A criterion is never silently dropped,
/// because that would return a superset the caller believes is filtered.
pub fn parse(raw: &[RawCriterion<'_>]) -> (parsed: Result<Vec<Criterion>, WinnowError>)
    ensures
        match parsed {
            Ok(criteria) => parse_spec(raw@) == Ok::<Seq<CriterionView>, ErrorView>(
                criteria_view(criteria@),
            ),
            Err(error) => parse_spec(raw@) == Err::<Seq<CriterionView>, ErrorView>(error@),
        },
{
    if raw.len() > WINNOW_CRITERIA_MAX {
        return Err(WinnowError::TooManyCriteria(raw.len()));
    }
    let mut columns: Vec<Criterion> = Vec::new();
    let mut derived: Vec<Criterion> = Vec::new();
    let mut edges: Vec<Criterion> = Vec::new();
    let ghost mut seen: Seq<CriterionView> = Seq::empty();
    assert(criteria_view(columns@) =~= Seq::empty());
    assert(criteria_view(derived@) =~= Seq::empty());
    assert(criteria_view(edges@) =~= Seq::empty());
    for i in 0..raw.len()
        invariant
            raw@.len() <= WINNOW_CRITERIA_MAX,
            seen.len() == i,
            parsed_upto(raw@, i as int) == Ok::<Seq<CriterionView>, ErrorView>(seen),
            criteria_view(columns@) == of_cost(seen, Cost::Column, i as int),
            criteria_view(derived@) == of_cost(seen, Cost::Derived, i as int),
            criteria_view(edges@) == of_cost(seen, Cost::Edge, i as int),
    {
        let criterion = match parse_one(&raw[i]) {
            Ok(criterion) => criterion,
            Err(error) => {
                proof {
                    lemma_parsed_stays_refused(raw@, i + 1, raw@.len() as int);
                }
                return Err(error);
            },
        };
        let ghost before = seen;
        let ghost view = criterion@;
        proof {
            seen = seen.push(view);
            lemma_of_cost_prefix(before, seen, Cost::Column, i as int);
            lemma_of_cost_prefix(before, seen, Cost::Derived, i as int);
            lemma_of_cost_prefix(before, seen, Cost::Edge, i as int);
        }
        let ghost columns_before = columns@;
        let ghost derived_before = derived@;
        let ghost edges_before = edges@;
        match criterion.axis.cost() {
            Cost::Column => {
                columns.push(criterion);
                assert(criteria_view(columns@) =~= criteria_view(columns_before).push(view));
            },
            Cost::Derived => {
                derived.push(criterion);
                assert(criteria_view(derived@) =~= criteria_view(derived_before).push(view));
            },
            Cost::Edge => {
                edges.push(criterion);
                assert(criteria_view(edges@) =~= criteria_view(edges_before).push(view));
            },
        }
    }
    let ghost first = columns@;
    let ghost second = derived@;
    let ghost third = edges@;
    columns.append(&mut derived);
    columns.append(&mut edges);
    assert(criteria_view(columns@) =~= criteria_view(first) + criteria_view(second)
        + criteria_view(third));
    Ok(columns)
}

/// The place of a cost in the evaluation order.
pub open spec fn cost_rank(cost: Cost) -> int {
    match cost {
        Cost::Column => 0,
        Cost::Derived => 1,
        Cost::Edge => 2,
    }
}

/// Parsing keeps every criterion, drops none and repeats none: what comes back has as many as were
/// passed, each of which is one of those passed, and the cheapest come first.
pub proof fn law_parsing_keeps_every_criterion(raw: Seq<RawCriterion<'_>>)
    requires
        parse_spec(raw) is Ok,
    ensures
        ({
            let criteria = parse_spec(raw)->Ok_0;
            &&& criteria.len() == raw.len()
            &&& forall|i: int|
                0 <= i < raw.len() ==> (#[trigger] parse_one_spec(raw[i])) is Ok
                    && criteria.contains(parse_one_spec(raw[i])->Ok_0)
            &&& forall|i: int, j: int|
                0 <= i <= j < criteria.len() ==> cost_rank(cost_of((#[trigger] criteria[i]).axis))
                    <= cost_rank(cost_of((#[trigger] criteria[j]).axis))
        }),
{
    let parsed = parsed_upto(raw, raw.len() as int)->Ok_0;
    let criteria = parse_spec(raw)->Ok_0;
    let count = parsed.len() as int;
    lemma_parsed_count(raw, raw.len() as int);
    lemma_of_cost_len(parsed, count);
    lemma_of_cost_members(parsed, Cost::Column, count);
    lemma_of_cost_members(parsed, Cost::Derived, count);
    lemma_of_cost_members(parsed, Cost::Edge, count);
    let first = of_cost(parsed, Cost::Column, count);
    let second = of_cost(parsed, Cost::Derived, count);
    let third = of_cost(parsed, Cost::Edge, count);
    assert forall|i: int| 0 <= i < raw.len() implies (#[trigger] parse_one_spec(raw[i])) is Ok
        && criteria.contains(parse_one_spec(raw[i])->Ok_0) by {
        lemma_parsed_each(raw, raw.len() as int, i);
        let criterion = parsed[i];
        match cost_of(criterion.axis) {
            Cost::Column => {
                let k = choose|k: int| 0 <= k < first.len() && first[k] == criterion;
                assert(criteria[k] == criterion);
            },
            Cost::Derived => {
                let k = choose|k: int| 0 <= k < second.len() && second[k] == criterion;
                assert(criteria[first.len() + k] == criterion);
            },
            Cost::Edge => {
                let k = choose|k: int| 0 <= k < third.len() && third[k] == criterion;
                assert(criteria[first.len() + second.len() + k] == criterion);
            },
        }
    }
    assert forall|i: int| 0 <= i < criteria.len() implies cost_rank(
        cost_of((#[trigger] criteria[i]).axis),
    ) == (if i < first.len() {
        0int
    } else if i < first.len() + second.len() {
        1
    } else {
        2
    }) by {
        if i < first.len() {
            assert(criteria[i] == first[i]);
        } else if i < first.len() + second.len() {
            assert(criteria[i] == second[i - first.len()]);
        } else {
            assert(criteria[i] == third[i - first.len() - second.len()]);
        }
    }
}

proof fn lemma_of_cost_len(criteria: Seq<CriterionView>, count: int)
    requires
        0 <= count <= criteria.len(),
    ensures
        of_cost(criteria, Cost::Column, count).len() + of_cost(
            criteria,
            Cost::Derived,
            count,
        ).len() + of_cost(criteria, Cost::Edge, count).len() == count,
    decreases count,
{
    if count > 0 {
        lemma_of_cost_len(criteria, count - 1);
    }
}

proof fn lemma_of_cost_members(criteria: Seq<CriterionView>, cost: Cost, count: int)
    requires
        0 <= count <= criteria.len(),
    ensures
        forall|k: int|
            0 <= k < of_cost(criteria, cost, count).len() ==> cost_of(
                (#[trigger] of_cost(criteria, cost, count)[k]).axis,
            ) == cost,
        forall|i: int|
            0 <= i < count && cost_of((#[trigger] criteria[i]).axis) == cost ==> of_cost(
                criteria,
                cost,
                count,
            ).contains(criteria[i]),
    decreases count,
{
    if count > 0 {
        lemma_of_cost_members(criteria, cost, count - 1);
        let before = of_cost(criteria, cost, count - 1);
        let after = of_cost(criteria, cost, count);
        assert forall|i: int| 0 <= i < count && cost_of((#[trigger] criteria[i]).axis)
            == cost implies after.contains(criteria[i]) by {
            if i < count - 1 {
                assert(before.contains(criteria[i]));
                let k = choose|k: int| 0 <= k < before.len() && before[k] == criteria[i];
                assert(after[k] == criteria[i]);
            } else {
                assert(after[after.len() - 1] == criteria[i]);
            }
        }
    }
}

proof fn lemma_parsed_each(raw: Seq<RawCriterion<'_>>, count: int, at: int)
    requires
        0 <= at < count <= raw.len(),
        parsed_upto(raw, count) is Ok,
    ensures
        parsed_upto(raw, count)->Ok_0.len() == count,
        parse_one_spec(raw[at]) == Ok::<CriterionView, ErrorView>(
            parsed_upto(raw, count)->Ok_0[at],
        ),
    decreases count,
{
    lemma_parsed_count(raw, count);
    lemma_parsed_count(raw, count - 1);
    if at < count - 1 {
        lemma_parsed_each(raw, count - 1, at);
    }
}

/// A refusal is of the first criterion that cannot be accepted: every one before it parses.
pub proof fn law_refusal_is_of_the_first(raw: Seq<RawCriterion<'_>>) -> (at: int)
    requires
        raw.len() <= WINNOW_CRITERIA_MAX,
        parse_spec(raw) is Err,
    ensures
        0 <= at < raw.len(),
        parse_one_spec(raw[at]) is Err,
        parse_spec(raw)->Err_0 == parse_one_spec(raw[at])->Err_0,
        forall|i: int| 0 <= i < at ==> (#[trigger] parse_one_spec(raw[i])) is Ok,
{
    let at = lemma_first_refusal(raw, raw.len() as int);
    at
}

proof fn lemma_first_refusal(raw: Seq<RawCriterion<'_>>, count: int) -> (at: int)
    requires
        0 <= count <= raw.len(),
        parsed_upto(raw, count) is Err,
    ensures
        0 <= at < count,
        parse_one_spec(raw[at]) is Err,
        parsed_upto(raw, count)->Err_0 == parse_one_spec(raw[at])->Err_0,
        forall|i: int| 0 <= i < at ==> (#[trigger] parse_one_spec(raw[i])) is Ok,
    decreases count,
{
    if parsed_upto(raw, count - 1) is Err {
        lemma_first_refusal(raw, count - 1)
    } else {
        assert forall|i: int| 0 <= i < count - 1 implies (#[trigger] parse_one_spec(
            raw[i],
        )) is Ok by {
            lemma_parsed_each(raw, count - 1, i);
        }
        count - 1
    }
}

// ---------------------------------------------------------------------------
// Matching

/// The text matches the pattern, in which `*` stands for any run of characters and `?` for exactly
/// one.
pub open spec fn glob(pattern: Seq<char>, text: Seq<char>) -> bool
    decreases pattern.len() + text.len(),
{
    if pattern.len() == 0 {
        text.len() == 0
    } else if pattern[0] == '*' {
        glob(pattern.skip(1), text) || (text.len() > 0 && glob(pattern, text.skip(1)))
    } else {
        text.len() > 0 && (pattern[0] == '?' || pattern[0] == text[0]) && glob(
            pattern.skip(1),
            text.skip(1),
        )
    }
}

/// The rest of the pattern from one place matches the rest of the text from another.
spec fn glob_from(pattern: Seq<char>, text: Seq<char>, at: int, from: int) -> bool {
    glob(pattern.skip(at), text.skip(from))
}

/// No star stands in the pattern from `from` up to `to`.
spec fn starless(pattern: Seq<char>, from: int, to: int) -> bool {
    forall|k: int| from <= k < to ==> #[trigger] pattern[k] != '*'
}

proof fn lemma_glob_step(pattern: Seq<char>, text: Seq<char>, at: int, from: int)
    requires
        0 <= at <= pattern.len(),
        0 <= from <= text.len(),
    ensures
        at == pattern.len() ==> glob_from(pattern, text, at, from) == (from == text.len()),
        at < pattern.len() && pattern[at] == '*' ==> glob_from(pattern, text, at, from) == (
        glob_from(pattern, text, at + 1, from) || (from < text.len() && glob_from(
            pattern,
            text,
            at,
            from + 1,
        ))),
        at < pattern.len() && pattern[at] != '*' ==> glob_from(pattern, text, at, from) == (from
            < text.len() && (pattern[at] == '?' || pattern[at] == text[from]) && glob_from(
            pattern,
            text,
            at + 1,
            from + 1,
        )),
{
    let p = pattern.skip(at);
    let t = text.skip(from);
    if at < pattern.len() {
        assert(p[0] == pattern[at]);
        assert(p.skip(1) =~= pattern.skip(at + 1));
    }
    if from < text.len() {
        assert(t[0] == text[from]);
        assert(t.skip(1) =~= text.skip(from + 1));
    }
}

/// A run of the pattern without stars takes as many characters as it has.
proof fn lemma_glob_run(pattern: Seq<char>, text: Seq<char>, at: int, to: int, from: int)
    requires
        0 <= at <= to <= pattern.len(),
        0 <= from <= text.len(),
        starless(pattern, at, to),
        glob_from(pattern, text, at, from),
    ensures
        from + (to - at) <= text.len(),
        glob_from(pattern, text, to, from + (to - at)),
    decreases to - at,
{
    lemma_glob_step(pattern, text, at, from);
    if at < to {
        assert(pattern[at] != '*');
        lemma_glob_run(pattern, text, at + 1, to, from + 1);
    }
}

/// What a star can leave to the rest of the pattern.
proof fn lemma_glob_star(pattern: Seq<char>, text: Seq<char>, at: int, from: int) -> (left: int)
    requires
        0 <= at < pattern.len(),
        pattern[at] == '*',
        0 <= from <= text.len(),
        glob_from(pattern, text, at, from),
    ensures
        from <= left <= text.len(),
        glob_from(pattern, text, at + 1, left),
    decreases text.len() - from,
{
    lemma_glob_step(pattern, text, at, from);
    if glob_from(pattern, text, at + 1, from) {
        from
    } else {
        lemma_glob_star(pattern, text, at, from + 1)
    }
}

/// A star that matches from one place on also matches from any place before.
proof fn lemma_glob_earlier(pattern: Seq<char>, text: Seq<char>, at: int, from: int, later: int)
    requires
        0 <= at < pattern.len(),
        pattern[at] == '*',
        0 <= from <= later <= text.len(),
        glob_from(pattern, text, at, later),
    ensures
        glob_from(pattern, text, at, from),
    decreases later - from,
{
    if from < later {
        lemma_glob_earlier(pattern, text, at, from + 1, later);
        lemma_glob_step(pattern, text, at, from);
    }
}

/// An earlier star need not be tried again once a later one is met: the later one can take
/// whatever the earlier would have taken more.
proof fn lemma_later_star(
    pattern: Seq<char>,
    text: Seq<char>,
    star: int,
    star_from: int,
    at: int,
    from: int,
)
    requires
        0 <= star < at < pattern.len(),
        pattern[star] == '*',
        pattern[at] == '*',
        starless(pattern, star + 1, at),
        0 <= star_from < text.len(),
        from - star_from == at - (star + 1),
        from <= text.len(),
        glob_from(pattern, text, star, star_from + 1),
    ensures
        glob_from(pattern, text, at, from),
{
    let left = lemma_glob_star(pattern, text, star, star_from + 1);
    lemma_glob_run(pattern, text, star + 1, at, left);
    lemma_glob_earlier(pattern, text, at, from, left + (at - (star + 1)));
}

/// At the end of the text an earlier star cannot help: it could only leave less.
proof fn lemma_star_at_the_end(
    pattern: Seq<char>,
    text: Seq<char>,
    star: int,
    star_from: int,
    at: int,
)
    requires
        0 <= star < at <= pattern.len(),
        pattern[star] == '*',
        starless(pattern, star + 1, at),
        0 <= star_from < text.len(),
        text.len() - star_from == at - (star + 1),
    ensures
        !glob_from(pattern, text, star, star_from + 1),
{
    if glob_from(pattern, text, star, star_from + 1) {
        let left = lemma_glob_star(pattern, text, star, star_from + 1);
        lemma_glob_run(pattern, text, star + 1, at, left);
    }
}

/// The text matches the pattern, and both are short enough to try.
pub open spec fn glob_spec(pattern: Seq<char>, text: Seq<char>) -> bool {
    pattern.len() <= PATTERN_CHARS_MAX && text.len() <= GLOB_TEXT_CHARS_MAX && glob(pattern, text)
}

/// Whether `text` matches a glob `pattern`, where `*` matches any run of characters and `?` matches
/// exactly one. Both are lowercased by the caller.
///
/// Iterative with a single backtrack point, never recursive. Both lengths are capped on entry: this
/// is a filter a caller supplies input to, and past the cap the answer is no.
pub fn glob_matches(pattern: &str, text: &str) -> (matched: bool)
    ensures
        matched == glob_spec(pattern@, text@),
{
    let glyphs = chars_of(pattern);
    let chars = chars_of(text);
    if glyphs.len() > PATTERN_CHARS_MAX || chars.len() > GLOB_TEXT_CHARS_MAX {
        return false;
    }
    let ghost p = pattern@;
    let ghost t = text@;
    let mut pattern_at: usize = 0;
    let mut text_at: usize = 0;
    let mut star: Option<usize> = None;
    let mut star_text_at: usize = 0;
    assert(p.skip(0) =~= p);
    assert(t.skip(0) =~= t);
    while text_at < chars.len()
        invariant
            glyphs@ == p,
            chars@ == t,
            p == pattern@,
            t == text@,
            p.len() <= PATTERN_CHARS_MAX,
            t.len() <= GLOB_TEXT_CHARS_MAX,
            pattern_at <= p.len(),
            star_text_at <= text_at <= t.len(),
            match star {
                None => glob(p, t) == glob_from(p, t, pattern_at as int, text_at as int),
                Some(at) => {
                    &&& at < pattern_at
                    &&& p[at as int] == '*'
                    &&& starless(p, at + 1, pattern_at as int)
                    &&& text_at - star_text_at == pattern_at - (at + 1)
                    &&& glob(p, t) == (glob_from(p, t, pattern_at as int, text_at as int) || (
                    star_text_at < t.len() && glob_from(p, t, at as int, star_text_at + 1)))
                },
            },
        decreases t.len() - star_text_at, (p.len() - pattern_at) + (t.len() - text_at),
    {
        proof {
            lemma_glob_step(p, t, pattern_at as int, text_at as int);
        }
        if pattern_at < glyphs.len() && glyphs[pattern_at] == '*' {
            proof {
                if let Some(at) = star {
                    if glob_from(p, t, at as int, star_text_at + 1) {
                        lemma_later_star(
                            p,
                            t,
                            at as int,
                            star_text_at as int,
                            pattern_at as int,
                            text_at as int,
                        );
                    }
                }
            }
            star = Some(pattern_at);
            star_text_at = text_at;
            pattern_at += 1;
        } else if pattern_at < glyphs.len() && (glyphs[pattern_at] == '?' || glyphs[pattern_at]
            == chars[text_at]) {
            pattern_at += 1;
            text_at += 1;
        } else {
            match star {
                None => {
                    return false;
                },
                Some(at) => {
                    pattern_at = at + 1;
                    star_text_at = star_text_at + 1;
                    text_at = star_text_at;
                    proof {
                        lemma_glob_step(p, t, at as int, star_text_at as int);
                    }
                },
            }
        }
    }
    proof {
        if let Some(at) = star {
            if star_text_at < t.len() {
                lemma_star_at_the_end(p, t, at as int, star_text_at as int, pattern_at as int);
            }
        }
    }
    assert(glob(p, t) == glob_from(p, t, pattern_at as int, t.len() as int));
    while pattern_at < glyphs.len() && glyphs[pattern_at] == '*'
        invariant
            glyphs@ == p,
            pattern_at <= p.len(),
            glob(p, t) == glob_from(p, t, pattern_at as int, t.len() as int),
        decreases p.len() - pattern_at,
    {
        proof {
            lemma_glob_step(p, t, pattern_at as int, t.len() as int);
        }
        pattern_at += 1;
    }
    proof {
        lemma_glob_step(p, t, pattern_at as int, t.len() as int);
    }
    pattern_at == glyphs.len()
}

/// A pattern without `*` and `?` matches itself and nothing else.
pub proof fn law_plain_pattern_matches_itself(pattern: Seq<char>, text: Seq<char>)
    requires
        forall|k: int| 0 <= k < pattern.len() ==> #[trigger] pattern[k] != '*' && pattern[k] != '?',
    ensures
        glob(pattern, text) == (pattern == text),
    decreases pattern.len(),
{
    if pattern.len() == 0 {
        assert(text.len() == 0 ==> text =~= pattern);
    } else {
        assert(pattern[0] != '*' && pattern[0] != '?');
        if text.len() > 0 {
            let rest = pattern.skip(1);
            assert forall|k: int| 0 <= k < rest.len() implies #[trigger] rest[k] != '*' && rest[k]
                != '?' by {
                assert(pattern[k + 1] != '*' && pattern[k + 1] != '?');
            }
            law_plain_pattern_matches_itself(rest, text.skip(1));
            if pattern[0] == text[0] && rest == text.skip(1) {
                assert(pattern =~= seq![pattern[0]] + rest);
                assert(text =~= seq![text[0]] + text.skip(1));
            }
        }
    }
}

/// A bare star matches everything.
pub proof fn law_star_matches_everything(text: Seq<char>)
    ensures
        glob(seq!['*'], text),
    decreases text.len(),
{
    assert(seq!['*'].skip(1) =~= Seq::<char>::empty());
    assert(glob(Seq::<char>::empty(), text) == (text.len() == 0));
    if text.len() > 0 {
        law_star_matches_everything(text.skip(1));
    }
}

/// A string satisfies a string-valued criterion.
pub open spec fn string_matches_spec(
    op: Op,
    needles: Seq<Seq<char>>,
    haystack: Seq<char>,
) -> bool {
    let lower = ascii_lower_spec(haystack);
    match op {
        Op::Contains => exists|k: int| 0 <= k < needles.len() && occurs(lower, #[trigger] needles[k]),
        Op::Equal | Op::In => needles.contains(lower),
        Op::Matches => exists|k: int|
            0 <= k < needles.len() && glob_spec(#[trigger] needles[k], lower),
        _ => false,
    }
}

/// Whether a string satisfies a string-valued criterion.
pub fn string_matches(op: Op, needles: &[String], haystack: &str) -> (matched: bool)
    ensures
        matched == string_matches_spec(op, views(needles@), haystack@),
{
    let lower = ascii_lower(haystack);
    let ghost all = views(needles@);
    assert(all.len() == needles@.len());
    match op {
        Op::Contains => {
            for i in 0..needles.len()
                invariant
                    all == views(needles@),
                    all.len() == needles@.len(),
                    op is Contains,
                    lower@ == ascii_lower_spec(haystack@),
                    forall|k: int| 0 <= k < i ==> !occurs(lower@, #[trigger] all[k]),
            {
                if contains(lower.as_str(), needles[i].as_str()) {
                    assert(occurs(lower@, all[i as int]));
                    return true;
                }
            }
            false
        },
        Op::Equal | Op::In => {
            for i in 0..needles.len()
                invariant
                    all == views(needles@),
                    all.len() == needles@.len(),
                    op is Equal || op is In,
                    lower@ == ascii_lower_spec(haystack@),
                    forall|k: int| 0 <= k < i ==> #[trigger] all[k] != lower@,
            {
                if same_text(needles[i].as_str(), lower.as_str()) {
                    assert(all[i as int] == lower@);
                    return true;
                }
            }
            false
        },
        Op::Matches => {
            for i in 0..needles.len()
                invariant
                    all == views(needles@),
                    all.len() == needles@.len(),
                    op is Matches,
                    lower@ == ascii_lower_spec(haystack@),
                    forall|k: int| 0 <= k < i ==> !glob_spec(#[trigger] all[k], lower@),
            {
                if glob_matches(needles[i].as_str(), lower.as_str()) {
                    assert(glob_spec(all[i as int], lower@));
                    return true;
                }
            }
            false
        },
        _ => false,
    }
}

/// A number satisfies a numeric criterion.
pub open spec fn number_matches_spec(op: Op, threshold: int, actual: int) -> bool {
    match op {
        Op::Equal => actual == threshold,
        Op::GreaterOrEqual => actual >= threshold,
        Op::GreaterThan => actual > threshold,
        Op::LessOrEqual => actual <= threshold,
        Op::LessThan => actual < threshold,
        _ => false,
    }
}

/// Whether a number satisfies a numeric criterion.
pub fn number_matches(op: Op, threshold: i64, actual: i64) -> (matched: bool)
    ensures
        matched == number_matches_spec(op, threshold as int, actual as int),
{
    match op {
        Op::Equal => actual == threshold,
        Op::GreaterOrEqual => actual >= threshold,
        Op::GreaterThan => actual > threshold,
        Op::LessOrEqual => actual <= threshold,
        Op::LessThan => actual < threshold,
        _ => false,
    }
}

/// A fraction satisfies a fractional criterion.
pub open spec fn fraction_matches_spec(op: Op, threshold: int, actual: int) -> bool {
    match op {
        Op::GreaterOrEqual => actual >= threshold,
        Op::GreaterThan => actual > threshold,
        _ => false,
    }
}

/// Whether a fraction satisfies a fractional criterion, by the places of both in their order.
pub fn fraction_matches(op: Op, threshold: u64, actual: u64) -> (matched: bool)
    ensures
        matched == fraction_matches_spec(op, threshold as int, actual as int),
{
    match op {
        Op::GreaterOrEqual => actual >= threshold,
        Op::GreaterThan => actual > threshold,
        _ => false,
    }
}

// ---------------------------------------------------------------------------
// What a criterion may say

/// Each op goes with the axes whose values it can be applied to: an order with what is counted or
/// dated, a part of a text with what is written out, a choice among several with what is one of a
/// fixed set, and a pattern with a name or a path.
pub proof fn law_an_op_goes_with_the_values_it_applies_to(axis: Axis, op: Op)
    ensures
        ops_of(axis).contains(op) <==> match op {
            Op::Contains => axis is CalledBy || axis is Calls || axis is Decorator || axis is Extends
                || axis is File || axis is InFlow || axis is Name || axis is RelatesTo
                || axis is Renders,
            Op::Equal => axis is Callers || axis is Churn || axis is InFlow || axis is Kind
                || axis is Language || axis is Lines || axis is Name || axis is Project
                || axis is Tested,
            Op::In => axis is Kind || axis is Language || axis is Project,
            Op::Matches => axis is File || axis is Name,
            Op::GreaterOrEqual => axis is Callers || axis is ChangedSince || axis is Churn
                || axis is Lines || axis is Risk,
            Op::GreaterThan => axis is Callers || axis is Churn || axis is Lines || axis is Risk,
            Op::LessOrEqual | Op::LessThan => axis is Callers || axis is Churn || axis is Lines,
        },
{
    let ops = ops_of(axis);
    if ops.len() > 0 && ops[0] == op {
        assert(ops.contains(op));
    }
    if ops.len() > 1 && ops[1] == op {
        assert(ops.contains(op));
    }
    if ops.len() > 2 && ops[2] == op {
        assert(ops.contains(op));
    }
    if ops.len() > 3 && ops[3] == op {
        assert(ops.contains(op));
    }
    if ops.len() > 4 && ops[4] == op {
        assert(ops.contains(op));
    }
}

proof fn lemma_listed_upto(pieces: Seq<Seq<char>>, count: int, part: Seq<char>)
    requires
        0 <= count <= pieces.len(),
    ensures
        listed_upto(pieces, count).contains(part) <==> part.len() > 0 && exists|k: int|
            0 <= k < count && part == ascii_lower_spec(trim_spec(#[trigger] pieces[k])),
    decreases count,
{
    let listed = listed_upto(pieces, count);
    if count <= 0 {
        assert(!listed.contains(part));
    } else {
        lemma_listed_upto(pieces, count - 1, part);
        let before = listed_upto(pieces, count - 1);
        if before.contains(part) {
            let k = choose|k: int| 0 <= k < before.len() && before[k] == part;
            assert(listed[k] == part);
        }
        if part == ascii_lower_spec(trim_spec(pieces[count - 1])) && part.len() > 0 {
            assert(listed[listed.len() - 1] == part);
        }
        if listed.contains(part) && !before.contains(part) {
            let k = choose|k: int| 0 <= k < listed.len() && listed[k] == part;
            if k < before.len() {
                assert(before[k] == part);
            }
            assert(part == ascii_lower_spec(trim_spec(pieces[count - 1])));
        }
    }
}

/// A list holds what stands between its commas, without the space around it and in lower case, and
/// nothing where there is only space.
pub proof fn law_a_list_holds_what_stands_between_its_commas(raw: Seq<char>, part: Seq<char>)
    ensures
        split_list_spec(raw).contains(part) <==> part.len() > 0 && exists|k: int|
            0 <= k < split_spec(raw, ","@).len() && part == ascii_lower_spec(
                trim_spec(#[trigger] split_spec(raw, ","@)[k]),
            ),
{
    let pieces = split_spec(raw, ","@);
    lemma_listed_upto(pieces, pieces.len() as int, part);
}

proof fn lemma_kinds_named(parts: Seq<Seq<char>>, count: int)
    requires
        0 <= count <= parts.len(),
    ensures
        match kinds_upto(parts, count) {
            Some(kinds) => kinds.len() == count && forall|k: int|
                0 <= k < count ==> NodeKind::named(#[trigger] parts[k]) == Some(kinds[k]),
            None => exists|k: int| 0 <= k < count && NodeKind::named(#[trigger] parts[k]) is None,
        },
    decreases count,
{
    if count > 0 {
        lemma_kinds_named(parts, count - 1);
        if NodeKind::named(parts[count - 1]) is None {
            assert(kinds_upto(parts, count) is None);
        }
    }
}

proof fn lemma_languages_named(parts: Seq<Seq<char>>, count: int)
    requires
        0 <= count <= parts.len(),
    ensures
        match languages_upto(parts, count) {
            Some(languages) => languages.len() == count && forall|k: int|
                0 <= k < count ==> Language::named(#[trigger] parts[k]) == Some(languages[k]),
            None => exists|k: int| 0 <= k < count && Language::named(#[trigger] parts[k]) is None,
        },
    decreases count,
{
    if count > 0 {
        lemma_languages_named(parts, count - 1);
        if Language::named(parts[count - 1]) is None {
            assert(languages_upto(parts, count) is None);
        }
    }
}

/// A list of kinds or languages is read one for one, and refused where one of its parts names none.
pub proof fn law_kinds_and_languages_are_read_one_for_one(parts: Seq<Seq<char>>)
    ensures
        match kinds_upto(parts, parts.len() as int) {
            Some(kinds) => kinds.len() == parts.len() && forall|k: int|
                0 <= k < parts.len() ==> NodeKind::named(#[trigger] parts[k]) == Some(kinds[k]),
            None => exists|k: int|
                0 <= k < parts.len() && NodeKind::named(#[trigger] parts[k]) is None,
        },
        match languages_upto(parts, parts.len() as int) {
            Some(languages) => languages.len() == parts.len() && forall|k: int|
                0 <= k < parts.len() ==> Language::named(#[trigger] parts[k]) == Some(
                    languages[k],
                ),
            None => exists|k: int|
                0 <= k < parts.len() && Language::named(#[trigger] parts[k]) is None,
        },
{
    lemma_kinds_named(parts, parts.len() as int);
    lemma_languages_named(parts, parts.len() as int);
}

/// What a criterion asks is taken from what was written: its axis and its op by their labels, an op
/// that its axis accepts, and a window of at least a day, which is as long as was asked.
pub proof fn law_a_criterion_says_what_was_written(raw: RawCriterion<'_>)
    requires
        parse_one_spec(raw) is Ok,
    ensures
        ({
            let criterion = parse_one_spec(raw)->Ok_0;
            &&& criterion.axis.label() == trim_spec(raw.axis@)
            &&& Op::named(trim_spec(raw.op@)) == Some(criterion.op)
            &&& ops_of(criterion.axis).contains(criterion.op)
            &&& raw.value@.len() <= PATTERN_CHARS_MAX
            &&& trim_spec(raw.value@).len() > 0
            &&& criterion.window_days >= 1
            &&& match raw.window_days {
                Some(days) => days >= 1 ==> criterion.window_days == days,
                None => criterion.window_days == 90,
            }
        }),
{
}

/// The kind of value that a criterion carries is that of its axis: a number for what is counted, a
/// date for when it changed, a truth for whether it is tested, and texts for what is written out.
pub proof fn law_a_value_is_of_the_kind_of_its_axis(
    axis: Axis,
    raw: Seq<char>,
    fraction: Option<&Fraction>,
)
    requires
        value_of(axis, raw, fraction) is Some,
    ensures
        match value_of(axis, raw, fraction)->0 {
            ValueView::Kinds(kinds) => axis is Kind && kinds.len() > 0,
            ValueView::Languages(languages) => axis is Language && languages.len() > 0,
            ValueView::Number(number) => (axis is Callers || axis is Churn || axis is Lines)
                && signed_value(trim_spec(raw)) == Some(number),
            ValueView::Fraction(order, _) => axis is Risk && fraction is Some && order
                == fraction->0.order && order <= FRACTION_ONE,
            ValueView::Date(epoch) => axis is ChangedSince && ymd_epoch(trim_spec(raw)) == Some(
                epoch,
            ),
            ValueView::Truth(truth) => (axis is Tested || axis is InFlow) && ({
                let word = ascii_lower_spec(trim_spec(raw));
                if truth {
                    word == "true"@ || word == "yes"@ || word == "1"@
                } else {
                    word == "false"@ || word == "no"@ || word == "0"@
                }
            }),
            ValueView::Strings(texts) => texts.len() > 0 && texts == split_list_spec(
                trim_spec(raw),
            ) && !(axis is Kind || axis is Language || axis is Callers || axis is Churn
                || axis is Lines || axis is Risk || axis is ChangedSince || axis is Tested),
        },
{
    let parts = split_list_spec(trim_spec(raw));
    lemma_kinds_named(parts, parts.len() as int);
    lemma_languages_named(parts, parts.len() as int);
}

proof fn lemma_glob_appends(pattern: Seq<char>, more: Seq<char>, text: Seq<char>, rest: Seq<char>)
    requires
        glob(pattern, text),
        glob(more, rest),
    ensures
        glob(pattern + more, text + rest),
    decreases pattern.len() + text.len(),
{
    let (whole, all) = (pattern + more, text + rest);
    if pattern.len() == 0 {
        assert(whole =~= more);
        assert(all =~= rest);
    } else if pattern[0] == '*' {
        assert(whole[0] == '*');
        if glob(pattern.skip(1), text) {
            lemma_glob_appends(pattern.skip(1), more, text, rest);
            assert(whole.skip(1) =~= pattern.skip(1) + more);
        } else {
            lemma_glob_appends(pattern, more, text.skip(1), rest);
            assert(all.skip(1) =~= text.skip(1) + rest);
        }
    } else {
        lemma_glob_appends(pattern.skip(1), more, text.skip(1), rest);
        assert(whole.skip(1) =~= pattern.skip(1) + more);
        assert(all.skip(1) =~= text.skip(1) + rest);
        assert(whole[0] == pattern[0] && all[0] == text[0]);
    }
}

/// A pattern made of two matches a text made of two that they match, and with a star between them
/// anything may stand between the texts.
pub proof fn law_patterns_match_one_behind_another(
    pattern: Seq<char>,
    more: Seq<char>,
    text: Seq<char>,
    between: Seq<char>,
    rest: Seq<char>,
)
    requires
        glob(pattern, text),
        glob(more, rest),
    ensures
        glob(pattern + more, text + rest),
        glob(pattern + seq!['*'] + more, text + between + rest),
{
    lemma_glob_appends(pattern, more, text, rest);
    law_star_matches_everything(between);
    lemma_glob_appends(pattern, seq!['*'], text, between);
    lemma_glob_appends(pattern + seq!['*'], more, text + between, rest);
}

/// A question mark matches one character, whichever it is, and never none.
pub proof fn law_a_question_mark_matches_one_character(pattern: Seq<char>, text: Seq<char>)
    ensures
        glob(seq!['?'] + pattern, text) <==> text.len() > 0 && glob(pattern, text.skip(1)),
{
    assert((seq!['?'] + pattern).skip(1) =~= pattern);
}

/// A pattern without a star matches only texts of its own length, with its own characters wherever
/// it does not leave them open.
pub proof fn law_a_starless_pattern_fixes_the_length(pattern: Seq<char>, text: Seq<char>)
    requires
        forall|k: int| 0 <= k < pattern.len() ==> #[trigger] pattern[k] != '*',
        glob(pattern, text),
    ensures
        text.len() == pattern.len(),
        forall|k: int| 0 <= k < pattern.len() ==> #[trigger] pattern[k] == '?' || pattern[k] == text[k],
    decreases pattern.len(),
{
    if pattern.len() > 0 {
        let (rest, behind) = (pattern.skip(1), text.skip(1));
        assert forall|k: int| 0 <= k < rest.len() implies #[trigger] rest[k] != '*' by {
            assert(pattern[k + 1] != '*');
        }
        assert(pattern[0] != '*');
        law_a_starless_pattern_fixes_the_length(rest, behind);
        assert forall|k: int| 0 <= k < pattern.len() implies #[trigger] pattern[k] == '?'
            || pattern[k] == text[k] by {
            if k > 0 {
                assert(rest[k - 1] == pattern[k] && behind[k - 1] == text[k]);
            }
        }
    }
}

} // verus!
