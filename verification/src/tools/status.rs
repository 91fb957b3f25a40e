//! Index health and staleness.
use crate::chars::{cat2, cat5, copy};
use crate::graph::Project;
use crate::numbers::{decimal, decimal_spec, decimal_u32, decimal_usize};
use vstd::prelude::*;

verus! {

/// How many files changed or were removed on disk since the last index.
pub struct StaleFiles {
    pub changed: u64,
    pub removed: u64,
}

/// One indexed project and its counts. The stale files are missing where the root is gone or they
/// could not be counted.
pub struct ProjectStatus {
    pub project: Project,
    pub nodes: u32,
    pub history_commits: u32,
    pub symbol_revisions: u32,
    pub flows: u32,
    pub stale: Option<StaleFiles>,
}

/// The sum where it fits, and the largest number where it does not.
pub open spec fn saturated(sum: int) -> int {
    if sum > u32::MAX {
        u32::MAX as int
    } else {
        sum
    }
}

/// The sums of the counts of the first `count` projects: nodes, commits, revisions, and flows.
pub open spec fn totals(rows: Seq<ProjectStatus>, count: int) -> (int, int, int, int)
    decreases count,
{
    if count <= 0 {
        (0, 0, 0, 0)
    } else {
        let before = totals(rows, count - 1);
        (
            saturated(before.0 + rows[count - 1].nodes),
            saturated(before.1 + rows[count - 1].history_commits),
            saturated(before.2 + rows[count - 1].symbol_revisions),
            saturated(before.3 + rows[count - 1].flows),
        )
    }
}

/// A working-tree staleness suffix, where there is something to say.
pub open spec fn stale_text(stale: Option<StaleFiles>) -> Seq<char> {
    match stale {
        Some(stale) => if stale.changed > 0 || stale.removed > 0 {
            " ("@ + decimal_spec(stale.changed as nat) + " changed, "@ + decimal_spec(
                stale.removed as nat,
            ) + " removed on disk since)"@
        } else {
            ""@
        },
        None => ""@,
    }
}

/// A working-tree staleness suffix for a project's status line: how many files changed or were
/// removed on disk since the last index, or nothing when the index is current, the root is gone,
/// or the count is unavailable.
pub fn stale_hint(stale: &Option<StaleFiles>) -> (text: String)
    ensures
        text@ == stale_text(*stale),
{
    match stale {
        Some(stale) => if stale.changed > 0 || stale.removed > 0 {
            cat5(
                " (",
                decimal(stale.changed).as_str(),
                " changed, ",
                decimal(stale.removed).as_str(),
                " removed on disk since)",
            )
        } else {
            copy("")
        },
        None => copy(""),
    }
}

/// The time since the last index, in its largest whole unit. A clock behind the index counts as
/// no time at all.
pub open spec fn age_text(now_ms: int, indexed_at_ms: int) -> Seq<char> {
    let seconds = if now_ms > indexed_at_ms {
        (now_ms - indexed_at_ms) / 1000
    } else {
        0
    };
    if seconds < 60 {
        decimal_spec(seconds as nat) + "s ago"@
    } else if seconds < 3_600 {
        decimal_spec((seconds / 60) as nat) + "m ago"@
    } else if seconds < 86_400 {
        decimal_spec((seconds / 3_600) as nat) + "h ago"@
    } else {
        decimal_spec((seconds / 86_400) as nat) + "d ago"@
    }
}

/// A human-readable time since the last index.
pub fn indexed_age(now_ms: i64, indexed_at_ms: i64) -> (text: String)
    ensures
        text@ == age_text(now_ms as int, indexed_at_ms as int),
{
    let seconds: u64 = if now_ms > indexed_at_ms {
        ((now_ms as i128 - indexed_at_ms as i128) / 1000) as u64
    } else {
        0
    };
    if seconds < 60 {
        cat2(decimal(seconds).as_str(), "s ago")
    } else if seconds < 3_600 {
        cat2(decimal(seconds / 60).as_str(), "m ago")
    } else if seconds < 86_400 {
        cat2(decimal(seconds / 3_600).as_str(), "h ago")
    } else {
        cat2(decimal(seconds / 86_400).as_str(), "d ago")
    }
}

/// The first `count` projects, one per line.
pub open spec fn status_lines(rows: Seq<ProjectStatus>, now_ms: i64, count: int) -> Seq<char>
    decreases count,
{
    if count <= 0 {
        ""@
    } else {
        let row = rows[count - 1];
        status_lines(rows, now_ms, count - 1) + "  - "@ + row.project.id@ + " ("@
            + row.project.name@ + "): "@ + decimal_spec(row.nodes as nat) + " nodes, indexed "@
            + age_text(now_ms as int, row.project.indexed_at as int) + stale_text(row.stale)
            + "\n"@
    }
}

/// The health of the index.
pub open spec fn status_text_spec(
    rows: Seq<ProjectStatus>,
    edges: u64,
    links: u64,
    now_ms: i64,
) -> Seq<char> {
    let sums = totals(rows, rows.len() as int);
    "projects: "@ + decimal_spec(rows.len()) + "\nnodes: "@ + decimal_spec(sums.0 as nat)
        + "\nedges: "@ + decimal_spec(edges as nat) + "\ncross-project links: "@ + decimal_spec(
        links as nat,
    ) + "\nhistory commits: "@ + decimal_spec(sums.1 as nat) + "\nsymbol revisions: "@
        + decimal_spec(sums.2 as nat) + "\nexecution flows: "@ + decimal_spec(sums.3 as nat) + (
    if sums.3 == 0 {
        " (run `constellation flows`)"@
    } else {
        ""@
    }) + "\n"@ + status_lines(rows, now_ms, rows.len() as int)
}

/// The health of the index: every indexed project with its counts, plus the constellation-wide
/// edge and cross-project link totals. The answer to "is the graph built, and how stale".
pub fn status_text(rows: &[ProjectStatus], edges: u64, links: u64, now_ms: i64) -> (text: String)
    ensures
        text@ == status_text_spec(rows@, edges, links, now_ms),
{
    let mut node_total: u32 = 0;
    let mut history_total: u32 = 0;
    let mut symbol_total: u32 = 0;
    let mut flow_total: u32 = 0;
    let mut lines = copy("");
    for i in 0..rows.len()
        invariant
            totals(rows@, i as int) == (
                node_total as int,
                history_total as int,
                symbol_total as int,
                flow_total as int,
            ),
            lines@ == status_lines(rows@, now_ms, i as int),
    {
        let row = &rows[i];
        node_total = node_total.saturating_add(row.nodes);
        history_total = history_total.saturating_add(row.history_commits);
        symbol_total = symbol_total.saturating_add(row.symbol_revisions);
        flow_total = flow_total.saturating_add(row.flows);
        lines.append("  - ");
        lines.append(row.project.id.as_str());
        lines.append(" (");
        lines.append(row.project.name.as_str());
        lines.append("): ");
        lines.append(decimal_u32(row.nodes).as_str());
        lines.append(" nodes, indexed ");
        lines.append(indexed_age(now_ms, row.project.indexed_at).as_str());
        lines.append(stale_hint(&row.stale).as_str());
        lines.append("\n");
    }
    let mut text = cat5(
        "projects: ",
        decimal_usize(rows.len()).as_str(),
        "\nnodes: ",
        decimal_u32(node_total).as_str(),
        "\nedges: ",
    );
    text.append(decimal(edges).as_str());
    text.append("\ncross-project links: ");
    text.append(decimal(links).as_str());
    text.append("\nhistory commits: ");
    text.append(decimal_u32(history_total).as_str());
    text.append("\nsymbol revisions: ");
    text.append(decimal_u32(symbol_total).as_str());
    text.append("\nexecution flows: ");
    text.append(decimal_u32(flow_total).as_str());
    text.append(
        if flow_total == 0 {
            " (run `constellation flows`)"
        } else {
            ""
        },
    );
    text.append("\n");
    text.append(lines.as_str());
    text
}

/// The counts of the projects added up.
pub open spec fn added(counts: spec_fn(int) -> int, count: int) -> int
    decreases count,
{
    if count <= 0 {
        0
    } else {
        added(counts, count - 1) + counts(count - 1)
    }
}

/// A count that is no larger than the largest that a total can hold.
pub open spec fn within_range(count: int) -> int {
    if count <= 0xffff_ffff {
        count
    } else {
        0xffff_ffff
    }
}

/// The totals are the sums over all projects, each of its own count, as far as they can be counted.
pub proof fn law_totals_are_sums(rows: Seq<ProjectStatus>, count: int)
    requires
        0 <= count <= rows.len(),
    ensures
        totals(rows, count).0 == within_range(added(|i: int| rows[i].nodes as int, count)),
        totals(rows, count).1 == within_range(added(|i: int| rows[i].history_commits as int, count)),
        totals(rows, count).2 == within_range(added(|i: int| rows[i].symbol_revisions as int, count)),
        totals(rows, count).3 == within_range(added(|i: int| rows[i].flows as int, count)),
        0 <= added(|i: int| rows[i].nodes as int, count),
        0 <= added(|i: int| rows[i].history_commits as int, count),
        0 <= added(|i: int| rows[i].symbol_revisions as int, count),
        0 <= added(|i: int| rows[i].flows as int, count),
    decreases count,
{
    if count > 0 {
        law_totals_are_sums(rows, count - 1);
    }
}

/// An age is told in whole units of the largest that fits: seconds up to a minute, minutes up to an
/// hour, hours up to a day, and days from then on. What lies in the future is told as just now.
pub proof fn law_an_age_is_told_in_its_largest_unit(
    now_ms: int,
    indexed_at_ms: int,
    units: int,
    seconds: int,
    rest_ms: int,
)
    requires
        0 <= seconds,
        0 <= rest_ms < 1000,
        0 <= units,
    ensures
        now_ms <= indexed_at_ms ==> age_text(now_ms, indexed_at_ms) == decimal_spec(0) + "s ago"@,
        now_ms - indexed_at_ms == 1000 * units + rest_ms && units < 60 ==> age_text(
            now_ms,
            indexed_at_ms,
        ) == decimal_spec(units as nat) + "s ago"@,
        now_ms - indexed_at_ms == 1000 * (60 * units + seconds) + rest_ms && 1 <= units < 60
            && seconds < 60 ==> age_text(now_ms, indexed_at_ms) == decimal_spec(units as nat)
            + "m ago"@,
        now_ms - indexed_at_ms == 1000 * (3_600 * units + seconds) + rest_ms && 1 <= units < 24
            && seconds < 3_600 ==> age_text(now_ms, indexed_at_ms) == decimal_spec(units as nat)
            + "h ago"@,
        now_ms - indexed_at_ms == 1000 * (86_400 * units + seconds) + rest_ms && 1 <= units
            && seconds < 86_400 ==> age_text(now_ms, indexed_at_ms) == decimal_spec(units as nat)
            + "d ago"@,
{
}

/// Whatever changed or went missing on disk is said, and nothing where neither did.
pub proof fn law_stale_files_are_told(stale: StaleFiles)
    ensures
        stale_text(Some(stale)).len() == 0 <==> stale.changed == 0 && stale.removed == 0,
        stale_text(None).len() == 0,
{
    reveal_strlit("");
    reveal_strlit(" (");
    reveal_strlit(" changed, ");
    reveal_strlit(" removed on disk since)");
}

} // verus!
