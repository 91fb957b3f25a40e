//! The graph read over time.
use crate::chars::{
    byte_len, bytes, cat2, cat3, cat4, cat5, copy, lemma_occurs_within, occurs, occurs_at, quote,
    quoted, same_text, views,
};
use crate::cursor::{next_text, next_text_line, note_line, note_text, slice, slice_spec, Page};
use crate::dates::{
    date_text, date_text_spec, parse_ymd_to_epoch, ymd_epoch,
};
use crate::graph::{find_project, project_named, Project};
use crate::limits::PAGED_FETCH_MAX;
use crate::numbers::{decimal, decimal_spec, decimal_usize};
use crate::order::{group_order, grouped_order, indices, law_grouping_brings_equals_together};
use crate::text::{chars_within, head_within};
use vstd::prelude::*;

verus! {

// ---------------------------------------------------------------------------
// Requests

/// The text where it is given and holds something.
pub open spec fn given(text: Option<&str>) -> Option<Seq<char>> {
    match text {
        Some(text) => if text@.len() == 0 {
            None
        } else {
            Some(text@)
        },
        None => None,
    }
}

fn filled(text: Option<&str>) -> (out: Option<&str>)
    ensures
        match out {
            Some(text_given) => given(text) == Some(text_given@),
            None => given(text) is None,
        },
{
    match text {
        Some(text) => if text.is_empty() {
            None
        } else {
            Some(text)
        },
        None => None,
    }
}

/// The pattern that the paths of a history query match: those that hold the target, or all.
pub fn history_pattern(target: Option<&str>) -> (pattern: String)
    ensures
        pattern@ == (match given(target) {
            Some(target) => "%"@ + target + "%"@,
            None => "%"@,
        }),
{
    match filled(target) {
        Some(target) => cat3("%", target, "%"),
        None => copy("%"),
    }
}

/// The pattern that the paths of an as-of query match, where it names one.
pub fn path_pattern(path: Option<&str>) -> (pattern: Option<String>)
    ensures
        match pattern {
            Some(pattern) => given(path) is Some && pattern@ == "%"@ + given(path)->0 + "%"@,
            None => given(path) is None,
        },
{
    match filled(path) {
        Some(path) => Some(cat3("%", path, "%")),
        None => None,
    }
}

/// How many rows a page fetches: one past its end, within a hard cap.
pub open spec fn paged_fetch_spec(offset: int, limit: int) -> int {
    if offset + limit + 1 > PAGED_FETCH_MAX {
        PAGED_FETCH_MAX as int
    } else {
        offset + limit + 1
    }
}

/// How many rows a page fetches: one past its end, so that the tail is detectable and a cursor is
/// offered, within a hard cap.
pub fn paged_fetch(offset: usize, limit: u32) -> (count: u32)
    ensures
        count == paged_fetch_spec(offset as int, limit as int),
{
    let wanted: u128 = offset as u128 + limit as u128 + 1;
    if wanted > PAGED_FETCH_MAX as u128 {
        PAGED_FETCH_MAX
    } else {
        wanted as u32
    }
}

/// What is said of a project that is named and not there.
pub open spec fn unknown_project(projects: Seq<Project>, project: Option<&str>) -> Option<
    Seq<char>,
> {
    match project {
        Some(name) => if project_named(projects, name@, 0) is None {
            Some("no project named "@ + quoted(name@))
        } else {
            None
        },
        None => None,
    }
}

fn refuse_project(projects: &[Project], project: Option<&str>) -> (refusal: Option<String>)
    ensures
        match refusal {
            Some(text) => unknown_project(projects@, project) == Some(text@),
            None => unknown_project(projects@, project) is None,
        },
{
    match project {
        Some(name) => if find_project(projects, name).is_none() {
            Some(cat2("no project named ", quote(name).as_str()))
        } else {
            None
        },
        None => None,
    }
}

// ---------------------------------------------------------------------------
// Commits

/// How many bytes of a commit's hash are shown.
pub const SHORT_HASH_BYTES: usize = 8;

/// A hash can be cut to its short form without splitting a character.
pub open spec fn cuts_short(hash: Seq<char>) -> bool {
    bytes(hash) <= SHORT_HASH_BYTES || bytes(short_hash(hash)) == SHORT_HASH_BYTES
}

/// The short form of a commit's hash.
pub open spec fn short_hash(hash: Seq<char>) -> Seq<char> {
    hash.take(chars_within(hash, SHORT_HASH_BYTES as int))
}

/// Whether a hash can be cut to its short form without splitting a character.
pub fn hash_cuts_short(hash: &str) -> (cuts: bool)
    ensures
        cuts == cuts_short(hash@),
{
    byte_len(hash) <= SHORT_HASH_BYTES || byte_len(head_within(hash, SHORT_HASH_BYTES).as_str())
        == SHORT_HASH_BYTES
}

/// A commit that touched a path.
pub struct CommitHit {
    pub committed_at: i64,
    pub commit_hash: String,
    pub insertions: u64,
    pub deletions: u64,
    pub files_changed: u64,
    pub author: String,
    pub summary: String,
}

/// A commit on a line: its date, short hash, churn, and author.
pub open spec fn commit_line(hit: CommitHit) -> Seq<char> {
    "  "@ + date_text_spec(hit.committed_at as int) + " "@ + short_hash(hit.commit_hash@) + " +"@
        + decimal_spec(hit.insertions as nat) + "/-"@ + decimal_spec(hit.deletions as nat) + " ("@
        + decimal_spec(hit.files_changed as nat) + "f) "@ + hit.author@ + ": "@ + hit.summary@
        + "\n"@
}

/// The first `count` commits, one per line.
pub open spec fn commit_lines(hits: Seq<CommitHit>, count: int) -> Seq<char>
    decreases count,
{
    if count <= 0 {
        ""@
    } else {
        commit_lines(hits, count - 1) + commit_line(hits[count - 1])
    }
}

/// The reply when a history query matches nothing.
pub open spec fn empty_history(target: Option<&str>) -> Seq<char> {
    match given(target) {
        Some(target) => "no commits touching "@ + quoted(target)
            + " in the indexed history (run `constellation history` to populate it)"@,
        None => "no git history indexed (run `constellation history` to populate it)"@,
    }
}

/// The reply when a history query matches nothing, distinguishing "no history ingested yet" from
/// "history exists but nothing touched this path".
pub fn history_empty_message(target: Option<&str>) -> (text: String)
    ensures
        text@ == empty_history(target),
{
    match filled(target) {
        Some(target) => cat3(
            "no commits touching ",
            quote(target).as_str(),
            " in the indexed history (run `constellation history` to populate it)",
        ),
        None => copy("no git history indexed (run `constellation history` to populate it)"),
    }
}

/// The timeline of a history query.
pub open spec fn history_text_spec(
    projects: Seq<Project>,
    target: Option<&str>,
    project: Option<&str>,
    hits: Seq<CommitHit>,
    limit: u32,
    page: Page,
    generation: u64,
) -> Seq<char> {
    let window = slice_spec(hits, page.offset as int, limit as int);
    match unknown_project(projects, project) {
        Some(refusal) => refusal,
        None => if hits.len() == 0 {
            empty_history(target)
        } else {
            note_text(page) + "history of "@ + (match given(target) {
                Some(target) => target,
                None => "the constellation"@,
            }) + ": "@ + decimal_spec(window.len()) + " commits, newest first\n"@ + commit_lines(
                window,
                window.len() as int,
            ) + next_text(
                page.offset as int,
                window.len() as int,
                hits.len() as int,
                generation,
            )
        },
    }
}

/// A timeline for one history query: the commits touching `target`, newest first, each stamped
/// with an absolute date, short hash, churn, and author. `hits` is what the query fetched.
pub fn history_text(
    projects: &[Project],
    target: Option<&str>,
    project: Option<&str>,
    hits: &[CommitHit],
    limit: u32,
    page: &Page,
    generation: u64,
) -> (text: String)
    requires
        hits@.len() <= paged_fetch_spec(page.offset as int, limit as int),
        forall|i: int| 0 <= i < hits@.len() ==> cuts_short((#[trigger] hits@[i]).commit_hash@),
    ensures
        text@ == history_text_spec(projects@, target, project, hits@, limit, *page, generation),
{
    if let Some(refusal) = refuse_project(projects, project) {
        return refusal;
    }
    if hits.len() == 0 {
        return history_empty_message(target);
    }
    let label: &str = match filled(target) {
        Some(target) => target,
        None => "the constellation",
    };
    let window = slice(hits, page.offset, limit as usize);
    let mut listed = copy("");
    for i in 0..window.len()
        invariant
            listed@ == commit_lines(window@, i as int),
    {
        listed.append(commit_text(&window[i]).as_str());
    }
    let mut text = note_line(page);
    text.append("history of ");
    text.append(label);
    text.append(": ");
    text.append(decimal_usize(window.len()).as_str());
    text.append(" commits, newest first\n");
    text.append(listed.as_str());
    text.append(next_text_line(page.offset, window.len(), hits.len(), generation).as_str());
    text
}

fn commit_text(hit: &CommitHit) -> (text: String)
    ensures
        text@ == commit_line(*hit),
{
    let mut text = cat4(
        "  ",
        date_text(hit.committed_at).as_str(),
        " ",
        head_within(hit.commit_hash.as_str(), SHORT_HASH_BYTES).as_str(),
    );
    text.append(" +");
    text.append(decimal(hit.insertions).as_str());
    text.append("/-");
    text.append(decimal(hit.deletions).as_str());
    text.append(" (");
    text.append(decimal(hit.files_changed).as_str());
    text.append("f) ");
    text.append(hit.author.as_str());
    text.append(": ");
    text.append(hit.summary.as_str());
    text.append("\n");
    text
}

// ---------------------------------------------------------------------------
// Symbol changes

/// A commit where a definition was added, modified, or removed.
pub struct SymbolHit {
    pub committed_at: i64,
    pub commit_hash: String,
    pub change: String,
    pub kind: String,
    pub qualified_name: String,
    pub signature: Option<String>,
}

/// A signature behind these characters and in brackets, where there is one.
pub open spec fn bracketed(before: Seq<char>, signature: Option<String>) -> Seq<char> {
    match signature {
        Some(signature) => if signature@.len() == 0 {
            ""@
        } else {
            before + signature@ + "]"@
        },
        None => ""@,
    }
}

fn bracket(before: &str, signature: &Option<String>) -> (text: String)
    ensures
        text@ == bracketed(before@, *signature),
{
    match signature {
        Some(signature) => if signature.as_str().is_empty() {
            copy("")
        } else {
            cat3(before, signature.as_str(), "]")
        },
        None => copy(""),
    }
}

/// A change of a symbol on a line.
pub open spec fn change_line(hit: SymbolHit) -> Seq<char> {
    "  "@ + date_text_spec(hit.committed_at as int) + " "@ + short_hash(hit.commit_hash@) + " "@
        + hit.change@ + " "@ + hit.kind@ + " "@ + hit.qualified_name@ + bracketed(
        "  ["@,
        hit.signature,
    ) + "\n"@
}

/// The first `count` changes, one per line.
pub open spec fn change_lines(hits: Seq<SymbolHit>, count: int) -> Seq<char>
    decreases count,
{
    if count <= 0 {
        ""@
    } else {
        change_lines(hits, count - 1) + change_line(hits[count - 1])
    }
}

/// The timeline of a symbol.
pub open spec fn symbol_history_spec(
    projects: Seq<Project>,
    symbol: Seq<char>,
    project: Option<&str>,
    hits: Seq<SymbolHit>,
    populated: bool,
) -> Seq<char> {
    match unknown_project(projects, project) {
        Some(refusal) => refusal,
        None => if hits.len() == 0 {
            "no recorded changes for "@ + quoted(symbol) + if populated {
                " (symbol history is populated, but nothing matches; try the bare name, or an exact Owner.member like \"OrderLineItem.quantity\")"@
            } else {
                " (run `constellation history --symbols` to populate symbol history)"@
            }
        } else {
            "history of "@ + symbol + ": "@ + decimal_spec(hits.len())
                + " changes, newest first\n"@ + change_lines(hits, hits.len() as int)
        },
    }
}

/// A timeline for one symbol: the commits where a definition matching it was added, modified, or
/// removed, newest first. `populated` is whether any symbol history has been ingested.
pub fn symbol_history_text(
    projects: &[Project],
    symbol: &str,
    project: Option<&str>,
    hits: &[SymbolHit],
    populated: bool,
    limit: u32,
) -> (text: String)
    requires
        hits@.len() <= limit,
        forall|i: int| 0 <= i < hits@.len() ==> cuts_short((#[trigger] hits@[i]).commit_hash@),
    ensures
        text@ == symbol_history_spec(projects@, symbol@, project, hits@, populated),
{
    if let Some(refusal) = refuse_project(projects, project) {
        return refusal;
    }
    if hits.len() == 0 {
        let reason: &str = if populated {
            " (symbol history is populated, but nothing matches; try the bare name, or an exact Owner.member like \"OrderLineItem.quantity\")"
        } else {
            " (run `constellation history --symbols` to populate symbol history)"
        };
        return cat3("no recorded changes for ", quote(symbol).as_str(), reason);
    }
    let mut listed = copy("");
    for i in 0..hits.len()
        invariant
            listed@ == change_lines(hits@, i as int),
    {
        listed.append(change_text(&hits[i]).as_str());
    }
    let mut text = cat5(
        "history of ",
        symbol,
        ": ",
        decimal_usize(hits.len()).as_str(),
        " changes, newest first\n",
    );
    text.append(listed.as_str());
    text
}

fn change_text(hit: &SymbolHit) -> (text: String)
    ensures
        text@ == change_line(*hit),
{
    let mut text = cat4(
        "  ",
        date_text(hit.committed_at).as_str(),
        " ",
        head_within(hit.commit_hash.as_str(), SHORT_HASH_BYTES).as_str(),
    );
    text.append(" ");
    text.append(hit.change.as_str());
    text.append(" ");
    text.append(hit.kind.as_str());
    text.append(" ");
    text.append(hit.qualified_name.as_str());
    text.append(bracket("  [", &hit.signature).as_str());
    text.append("\n");
    text
}

// ---------------------------------------------------------------------------
// A point in time

/// A symbol that was alive at a point in time.
pub struct AliveSymbol {
    pub file_path: String,
    pub kind: String,
    pub qualified_name: String,
    pub signature: Option<String>,
}

/// The second an as-of point stands for: the date, or else the time of the commit.
pub open spec fn as_of_point(at: Seq<char>, committed_at: Option<i64>) -> Option<int> {
    match ymd_epoch(at) {
        Some(epoch) => Some(epoch),
        None => match committed_at {
            Some(secs) => Some(secs as int),
            None => None,
        },
    }
}

/// The epoch-second threshold an as-of point resolves to: a `YYYY-MM-DD` date, or else the
/// committer time of the commit whose hash matches. `None` when it is neither a date nor a known
/// commit.
pub fn resolve_as_of(at: &str, committed_at: Option<i64>) -> (threshold: Option<i64>)
    ensures
        match threshold {
            Some(secs) => as_of_point(at@, committed_at) == Some(secs as int),
            None => as_of_point(at@, committed_at) is None,
        },
{
    match parse_ymd_to_epoch(at) {
        Some(epoch) => Some(epoch),
        None => committed_at,
    }
}

/// The positions of symbols with those of one file brought together, the files in first-seen order.
pub open spec fn by_file(symbols: Seq<AliveSymbol>) -> Seq<int> {
    grouped_order(symbols.map_values(|symbol: AliveSymbol| symbol.file_path@))
}

/// The symbols at the first `count` of these positions, each file's under its path.
pub open spec fn alive_lines(symbols: Seq<AliveSymbol>, order: Seq<int>, count: int) -> Seq<char>
    decreases count,
{
    if count <= 0 {
        ""@
    } else {
        let symbol = symbols[order[count - 1]];
        let before = if count == 1 {
            ""@
        } else {
            symbols[order[count - 2]].file_path@
        };
        alive_lines(symbols, order, count - 1) + (if symbol.file_path@ != before {
            symbol.file_path@ + ":\n"@
        } else {
            ""@
        }) + "  "@ + symbol.kind@ + " "@ + symbol.qualified_name@ + bracketed(
            " ["@,
            symbol.signature,
        ) + "\n"@
    }
}

/// The symbols alive at one point in time.
pub open spec fn as_of_text_spec(
    projects: Seq<Project>,
    at: Seq<char>,
    project: Option<&str>,
    committed_at: Option<i64>,
    symbols: Seq<AliveSymbol>,
    limit: u32,
    page: Page,
    generation: u64,
) -> Seq<char> {
    let window = slice_spec(symbols, page.offset as int, limit as int);
    match unknown_project(projects, project) {
        Some(refusal) => refusal,
        None => match as_of_point(at, committed_at) {
            None => "could not resolve "@ + quoted(at)
                + " to a commit or date (pass a commit hash or YYYY-MM-DD)"@,
            Some(threshold) => if symbols.len() == 0 {
                "no symbols recorded as of "@ + at
                    + " (run `constellation history --symbols`, widen the scope, or pick a later point)"@
            } else {
                note_text(page) + "symbols as of "@ + at + " ("@ + date_text_spec(threshold)
                    + "): "@ + decimal_spec(window.len()) + " alive\n"@ + alive_lines(
                    window,
                    by_file(window),
                    window.len() as int,
                ) + next_text(
                    page.offset as int,
                    window.len() as int,
                    symbols.len() as int,
                    generation,
                )
            },
        },
    }
}

/// The symbols alive at one point in time, grouped by file, each with its kind and the signature
/// in effect then. `committed_at` is the time of the commit that `at` names, where there is one;
/// `symbols` is what the query fetched.
pub fn as_of_text(
    projects: &[Project],
    at: &str,
    project: Option<&str>,
    committed_at: Option<i64>,
    symbols: &[AliveSymbol],
    limit: u32,
    page: &Page,
    generation: u64,
) -> (text: String)
    ensures
        text@ == as_of_text_spec(
            projects@,
            at@,
            project,
            committed_at,
            symbols@,
            limit,
            *page,
            generation,
        ),
{
    if let Some(refusal) = refuse_project(projects, project) {
        return refusal;
    }
    let threshold: i64 = match resolve_as_of(at, committed_at) {
        Some(threshold) => threshold,
        None => {
            return cat3(
                "could not resolve ",
                quote(at).as_str(),
                " to a commit or date (pass a commit hash or YYYY-MM-DD)",
            );
        },
    };
    if symbols.len() == 0 {
        return cat3(
            "no symbols recorded as of ",
            at,
            " (run `constellation history --symbols`, widen the scope, or pick a later point)",
        );
    }
    let window = slice(symbols, page.offset, limit as usize);
    let ghost paths = window@.map_values(|symbol: AliveSymbol| symbol.file_path@);
    let mut files: Vec<String> = Vec::new();
    assert(views(files@) =~= Seq::empty());
    for i in 0..window.len()
        invariant
            paths == window@.map_values(|symbol: AliveSymbol| symbol.file_path@),
            views(files@) == paths.take(i as int),
    {
        let ghost known = files@;
        files.push(copy(window[i].file_path.as_str()));
        assert(views(files@) =~= views(known).push(paths[i as int]));
        assert(paths.take(i + 1) =~= paths.take(i as int).push(paths[i as int]));
    }
    assert(paths.take(window@.len() as int) =~= paths);
    assert(files@.len() == views(files@).len());
    let order = group_order(&files);
    let mut listed = copy("");
    for i in 0..order.len()
        invariant
            indices(order@) == by_file(window@),
            order@.len() == window@.len(),
            forall|k: int| 0 <= k < order@.len() ==> #[trigger] order@[k] < window@.len(),
            listed@ == alive_lines(window@, by_file(window@), i as int),
    {
        assert(order@[i as int] < window@.len());
        assert(indices(order@)[i as int] == order@[i as int]);
        let symbol = &window[order[i]];
        let before: &str = if i == 0 {
            ""
        } else {
            assert(order@[i - 1] < window@.len());
            assert(indices(order@)[i - 1] == order@[i - 1]);
            window[order[i - 1]].file_path.as_str()
        };
        let heading = if same_text(symbol.file_path.as_str(), before) {
            copy("")
        } else {
            cat2(symbol.file_path.as_str(), ":\n")
        };
        listed.append(heading.as_str());
        listed.append("  ");
        listed.append(symbol.kind.as_str());
        listed.append(" ");
        listed.append(symbol.qualified_name.as_str());
        listed.append(bracket(" [", &symbol.signature).as_str());
        listed.append("\n");
    }
    let mut text = note_line(page);
    text.append("symbols as of ");
    text.append(at);
    text.append(" (");
    text.append(date_text(threshold).as_str());
    text.append("): ");
    text.append(decimal_usize(window.len()).as_str());
    text.append(" alive\n");
    text.append(listed.as_str());
    text.append(next_text_line(page.offset, window.len(), symbols.len(), generation).as_str());
    text
}

/// Where nothing is recorded, the answer names the command that records it.
pub proof fn law_missing_history_names_its_command(
    projects: Seq<Project>,
    target: Option<&str>,
    symbol: Seq<char>,
    at: Seq<char>,
    committed_at: Option<i64>,
    limit: u32,
    page: Page,
    generation: u64,
)
    requires
        as_of_point(at, committed_at) is Some,
    ensures
        occurs(
            history_text_spec(projects, target, None, Seq::empty(), limit, page, generation),
            "`constellation history`"@,
        ),
        occurs(
            symbol_history_spec(projects, symbol, None, Seq::empty(), false),
            "`constellation history --symbols`"@,
        ),
        occurs(
            as_of_text_spec(
                projects,
                at,
                None,
                committed_at,
                Seq::empty(),
                limit,
                page,
                generation,
            ),
            "`constellation history --symbols`"@,
        ),
{
    let command = "`constellation history`"@;
    let symbols = "`constellation history --symbols`"@;
    reveal_strlit("`constellation history`");
    reveal_strlit("`constellation history --symbols`");
    reveal_strlit(" in the indexed history (run `constellation history` to populate it)");
    reveal_strlit("no git history indexed (run `constellation history` to populate it)");
    reveal_strlit(" (run `constellation history --symbols` to populate symbol history)");
    reveal_strlit(
        " (run `constellation history --symbols`, widen the scope, or pick a later point)",
    );
    match given(target) {
        Some(target) => {
            let tail = " in the indexed history (run `constellation history` to populate it)"@;
            assert(tail.subrange(29, 52) =~= command);
            lemma_occurs_within(
                "no commits touching "@ + quoted(target),
                tail,
                Seq::empty(),
                command,
                29,
            );
            assert("no commits touching "@ + quoted(target) + tail + Seq::empty()
                =~= "no commits touching "@ + quoted(target) + tail);
        },
        None => {
            let text = "no git history indexed (run `constellation history` to populate it)"@;
            assert(text.subrange(28, 51) =~= command);
            assert(occurs_at(text, command, 28));
        },
    }
    let changes = " (run `constellation history --symbols` to populate symbol history)"@;
    let head = "no recorded changes for "@ + quoted(symbol);
    assert(changes.subrange(6, 39) =~= symbols);
    lemma_occurs_within(head, changes, Seq::empty(), symbols, 6);
    assert(head + changes + Seq::empty() =~= head + changes);
    let alive = " (run `constellation history --symbols`, widen the scope, or pick a later point)"@;
    assert(alive.subrange(6, 39) =~= symbols);
    lemma_occurs_within("no symbols recorded as of "@ + at, alive, Seq::empty(), symbols, 6);
    assert("no symbols recorded as of "@ + at + alive + Seq::empty()
        =~= "no symbols recorded as of "@ + at + alive);
}

// ---------------------------------------------------------------------------
// Points in time

/// A date stands for itself whatever commit is known by it, and what is no date stands for the time
/// of its commit.
pub proof fn law_a_date_stands_for_itself(
    at: Seq<char>,
    committed_at: Option<i64>,
    other: Option<i64>,
)
    ensures
        ymd_epoch(at) is Some ==> as_of_point(at, committed_at) == as_of_point(at, other)
            && as_of_point(at, committed_at) == ymd_epoch(at),
        ymd_epoch(at) is None ==> match as_of_point(at, committed_at) {
            Some(secs) => committed_at is Some && secs == committed_at->0,
            None => committed_at is None,
        },
{
}

/// A page reads one row more than it shows, so that it can tell whether there are more, unless that
/// would be more than may be read.
pub proof fn law_a_page_reads_one_row_more(offset: int, limit: int)
    requires
        0 <= offset,
        0 <= limit,
    ensures
        paged_fetch_spec(offset, limit) <= PAGED_FETCH_MAX,
        offset + limit < PAGED_FETCH_MAX ==> paged_fetch_spec(offset, limit) == offset + limit + 1,
        offset + limit >= PAGED_FETCH_MAX ==> paged_fetch_spec(offset, limit) == PAGED_FETCH_MAX,
{
}

proof fn lemma_alive_lines(symbols: Seq<AliveSymbol>, order: Seq<int>, count: int, k: int)
    requires
        0 <= k < count <= order.len(),
    ensures
        occurs(
            alive_lines(symbols, order, count),
            "  "@ + symbols[order[k]].kind@ + " "@ + symbols[order[k]].qualified_name@,
        ),
    decreases count,
{
    let text = alive_lines(symbols, order, count);
    let symbol = symbols[order[count - 1]];
    let before = if count == 1 {
        ""@
    } else {
        symbols[order[count - 2]].file_path@
    };
    let head = alive_lines(symbols, order, count - 1);
    let path = if symbol.file_path@ != before {
        symbol.file_path@ + ":\n"@
    } else {
        ""@
    };
    let row = "  "@ + symbol.kind@ + " "@ + symbol.qualified_name@;
    let rest = bracketed(" ["@, symbol.signature) + "\n"@;
    if k < count - 1 {
        lemma_alive_lines(symbols, order, count - 1, k);
        let wanted = "  "@ + symbols[order[k]].kind@ + " "@ + symbols[order[k]].qualified_name@;
        let at = choose|at: int| occurs_at(head, wanted, at);
        assert(text =~= head + (path + row + rest));
        assert(text.subrange(at, at + wanted.len()) =~= head.subrange(at, at + wanted.len()));
        assert(occurs_at(text, wanted, at));
    } else {
        let at: int = head.len() as int + path.len();
        assert(text =~= head + path + row + rest);
        assert(text.subrange(at, at + row.len()) =~= row);
        assert(occurs_at(text, row, at));
    }
}

/// Every symbol that was alive is listed, with its kind and its qualified name.
pub proof fn law_every_symbol_alive_is_listed(symbols: Seq<AliveSymbol>, at: int)
    requires
        0 <= at < symbols.len(),
    ensures
        occurs(
            alive_lines(symbols, by_file(symbols), symbols.len() as int),
            "  "@ + symbols[at].kind@ + " "@ + symbols[at].qualified_name@,
        ),
{
    let names = symbols.map_values(|symbol: AliveSymbol| symbol.file_path@);
    law_grouping_brings_equals_together(names);
    let order = by_file(symbols);
    assert(order.contains(at));
    let k = choose|k: int| 0 <= k < order.len() && order[k] == at;
    lemma_alive_lines(symbols, order, symbols.len() as int, k);
}

} // verus!
