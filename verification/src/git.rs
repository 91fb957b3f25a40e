//! Reading the working tree's diff, for the tools that answer about change.
use crate::chars::{
    byte_len, bytes, chars_of, copy, is_control, is_space, lines, lines_spec, same_text, space, split,
    split_spec, starts_with, strip_prefix, views,
};
use crate::fx::{hunks_get, hunks_held, hunks_insert, hunks_new, hunks_remove};
use crate::numbers::{
    self, all_digits, is_digit, lemma_indices, parse_u32, unsigned_value, without_plus,
};
use rustc_hash::FxHashMap;
use vstd::prelude::*;

verus! {

/// A bound on the untracked files folded into one diff, so a working tree full of unignored
/// scratch output cannot turn a review listing unbounded.
pub const UNTRACKED_FILES_MAX: usize = 512;

/// A bound on a caller-supplied revision's length. Any real branch name, tag, hash, or
/// `HEAD~n` expression is far shorter.
pub const REVISION_CHARS_MAX: usize = 256;

/// The reasons a caller-supplied git base was refused.
#[derive(Clone, Copy, Debug, PartialEq, Eq, Structural)]
pub enum RevisionError {
    Empty,
    LooksLikeAnOption,
    TooLong,
    HasWhitespace,
}

impl RevisionError {
    /// What the reason says.
    pub open spec fn text(self) -> Seq<char> {
        match self {
            RevisionError::Empty => "it is empty"@,
            RevisionError::LooksLikeAnOption => "it begins with '-', which git reads as an option rather than a revision"@,
            RevisionError::TooLong => "it is longer than any real revision"@,
            RevisionError::HasWhitespace => "it contains whitespace or a control character"@,
        }
    }

    /// The reason in words.
    pub fn message(self) -> (message: &'static str)
        ensures
            message@ == self.text(),
    {
        match self {
            RevisionError::Empty => "it is empty",
            RevisionError::LooksLikeAnOption => "it begins with '-', which git reads as an option rather than a revision",
            RevisionError::TooLong => "it is longer than any real revision",
            RevisionError::HasWhitespace => "it contains whitespace or a control character",
        }
    }
}

/// Some character of the text is white space or a control character.
pub open spec fn has_blank(text: Seq<char>) -> bool {
    exists|i: int| 0 <= i < text.len() && (is_space(#[trigger] text[i]) || is_control(text[i]))
}

/// Why a revision is refused, if it is.
pub open spec fn refusal(base: Seq<char>) -> Option<RevisionError> {
    if base.len() == 0 {
        Some(RevisionError::Empty)
    } else if bytes(base) > REVISION_CHARS_MAX {
        Some(RevisionError::TooLong)
    } else if base[0] == '-' {
        Some(RevisionError::LooksLikeAnOption)
    } else if has_blank(base) {
        Some(RevisionError::HasWhitespace)
    } else {
        None
    }
}

/// A caller-supplied git base checked for shape before it is handed to git, which reads any
/// value beginning with a dash as an option rather than a revision.
pub fn check_revision(base: &str) -> (checked: Result<&str, RevisionError>)
    ensures
        match checked {
            Ok(revision) => refusal(base@) is None && revision@ == base@,
            Err(error) => refusal(base@) == Some(error),
        },
{
    if base.is_empty() {
        return Err(RevisionError::Empty);
    }
    if byte_len(base) > REVISION_CHARS_MAX {
        return Err(RevisionError::TooLong);
    }
    let chars = chars_of(base);
    if chars[0] == '-' {
        return Err(RevisionError::LooksLikeAnOption);
    }
    for i in 0..chars.len()
        invariant
            chars@ == base@,
            forall|k: int| 0 <= k < i ==> !is_space(#[trigger] base@[k]) && !is_control(base@[k]),
            base@.len() > 0,
            bytes(base@) <= REVISION_CHARS_MAX,
            base@[0] != '-',
    {
        let c = chars[i];
        let code: u32 = c as u32;
        if space(c) || code < 0x20 || (0x7f <= code && code <= 0x9f) {
            assert(is_space(base@[i as int]) || is_control(base@[i as int]));
            return Err(RevisionError::HasWhitespace);
        }
    }
    Ok(base)
}

/// A revision that is accepted never begins with a dash, and holds no white space and no
/// control character.
pub proof fn law_accepted_revision_is_no_option(base: Seq<char>)
    requires
        refusal(base) is None,
    ensures
        base.len() > 0,
        base[0] != '-',
        forall|i: int| 0 <= i < base.len() ==> !is_space(#[trigger] base[i]) && !is_control(base[i]),
{
}

/// The arguments of the diff against a base, which defaults to `HEAD`; `None` where the base is
/// refused, so a refused revision never reaches git.
pub fn diff_arguments(base: Option<&str>) -> (arguments: Option<Vec<String>>)
    ensures
        ({
            let wanted = match base {
                Some(base) => base@,
                None => "HEAD"@,
            };
            match arguments {
                Some(arguments) => refusal(wanted) is None && views(arguments@) == seq![
                    "diff"@,
                    "--unified=0"@,
                    "--no-color"@,
                    wanted,
                ],
                None => refusal(wanted) is Some,
            }
        }),
{
    let wanted: &str = match base {
        Some(base) => base,
        None => "HEAD",
    };
    match check_revision(wanted) {
        Ok(revision) => {
            let mut arguments: Vec<String> = Vec::new();
            arguments.push(copy("diff"));
            arguments.push(copy("--unified=0"));
            arguments.push(copy("--no-color"));
            arguments.push(copy(revision));
            assert(views(arguments@) =~= seq![
                "diff"@,
                "--unified=0"@,
                "--no-color"@,
                wanted@,
            ]);
            Some(arguments)
        },
        Err(_) => None,
    }
}

/// The lines two ranges share.
pub open spec fn shared_lines(range: (u32, u32), start: u32, end: u32) -> int {
    let low = if range.0 >= start { range.0 } else { start };
    let high = if range.1 <= end { range.1 } else { end };
    if low <= high {
        high - low + 1
    } else {
        0
    }
}

/// The lines each range shares with the span, summed.
pub open spec fn touched_lines(ranges: Seq<(u32, u32)>, start: u32, end: u32) -> int
    decreases ranges.len(),
{
    if ranges.len() == 0 {
        0
    } else {
        touched_lines(ranges.drop_last(), start, end) + shared_lines(ranges.last(), start, end)
    }
}

/// The lines of a span that the ranges touch, at most as many as it has.
pub open spec fn covered_lines(ranges: Seq<(u32, u32)>, start: u32, end: u32) -> int {
    if touched_lines(ranges, start, end) <= end - start + 1 {
        touched_lines(ranges, start, end)
    } else {
        end - start + 1
    }
}

/// The count of lines inside the 1-based span from `start` to `end` that any diff hunk touched,
/// saturating at the span's own length so overlapping hunks cannot report more changed lines
/// than the symbol has.
pub fn overlapping_lines(ranges: &[(u32, u32)], start: u32, end: u32) -> (covered: u32)
    requires
        1 <= start <= end,
    ensures
        covered == covered_lines(ranges@, start, end),
        covered <= end - start + 1,
{
    let span: u32 = end - start + 1;
    let mut covered: u32 = 0;
    for i in 0..ranges.len()
        invariant
            1 <= start <= end,
            span == end - start + 1,
            covered <= span,
            covered == (if touched_lines(ranges@.take(i as int), start, end) <= span {
                touched_lines(ranges@.take(i as int), start, end)
            } else {
                span as int
            }),
    {
        assert(ranges@.take(i + 1).drop_last() =~= ranges@.take(i as int));
        let (hunk_start, hunk_end) = ranges[i];
        let low: u32 = if hunk_start >= start { hunk_start } else { start };
        let high: u32 = if hunk_end <= end { hunk_end } else { end };
        if low <= high {
            let more: u32 = high - low + 1;
            covered = if more <= span - covered { covered + more } else { span };
        }
    }
    assert(ranges@.take(ranges@.len() as int) =~= ranges@);
    covered
}

/// The lines that are not empty, at most `max` of them.
pub open spec fn nonempty_lines(lines: Seq<Seq<char>>, max: int) -> Seq<Seq<char>>
    decreases lines.len(),
{
    if lines.len() == 0 {
        Seq::empty()
    } else {
        let rest = nonempty_lines(lines.drop_last(), max);
        if lines.last().len() > 0 && rest.len() < max {
            rest.push(lines.last())
        } else {
            rest
        }
    }
}

/// The files git neither tracks nor ignores, from the output of its listing, bounded by
/// [`UNTRACKED_FILES_MAX`]. A new file never appears in a diff, so without these a branch whose
/// work sits in files not yet added reads as a clean tree.
pub fn untracked_files(listing: &str) -> (files: Vec<String>)
    ensures
        views(files@) == nonempty_lines(lines_spec(listing@), UNTRACKED_FILES_MAX as int),
        files@.len() <= UNTRACKED_FILES_MAX,
{
    let all = lines(listing);
    let ghost line_list = lines_spec(listing@);
    let mut files: Vec<String> = Vec::new();
    assert(views(files@) =~= nonempty_lines(line_list.take(0), UNTRACKED_FILES_MAX as int));
    for i in 0..all.len()
        invariant
            views(all@) == line_list,
            files@.len() <= UNTRACKED_FILES_MAX,
            views(files@) == nonempty_lines(
                line_list.take(i as int),
                UNTRACKED_FILES_MAX as int,
            ),
    {
        assert(line_list.take(i + 1).drop_last() =~= line_list.take(i as int));
        assert(line_list[i as int] == all@[i as int]@);
        assert(files@.len() == views(files@).len());
        if !all[i].as_str().is_empty() && files.len() < UNTRACKED_FILES_MAX {
            let ghost before = files@;
            files.push(copy(all[i].as_str()));
            assert(views(files@) =~= views(before).push(all@[i as int]@));
        }
    }
    assert(line_list.take(all@.len() as int) =~= line_list);
    files
}

/// The start and length of one side of a hunk header: `5,4` gives 5 and 4, and `5`, which leaves
/// the length out, gives 5 and 1.
pub open spec fn side_range(side: Seq<char>) -> Option<(nat, nat)> {
    let parts = split_spec(side, ","@);
    match line_number(parts[0]) {
        Some(start) => if parts.len() == 1 {
            Some((start, 1))
        } else if parts.len() == 2 {
            match line_number(parts[1]) {
                Some(length) => Some((start, length)),
                None => None,
            }
        } else {
            None
        },
        None => None,
    }
}

/// The number, in 32 bits, that a run of digits stands for.
pub open spec fn line_number(text: Seq<char>) -> Option<nat> {
    if all_digits(text) {
        unsigned_value(text, u32::MAX as nat)
    } else {
        None
    }
}

/// The new-side start and length of a hunk header: `@@ -3,2 +5,4 @@` gives 5 and 4, and
/// `@@ -3 +5 @@` gives 5 and 1. `None` where the text has not that form.
pub open spec fn hunk_range(hunk: Seq<char>) -> Option<(nat, nat)> {
    let pieces = split_spec(hunk, " "@);
    if pieces.len() >= 4 && pieces[0] == "@@"@ && pieces[3] == "@@"@ && "-"@.is_prefix_of(pieces[1])
        && "+"@.is_prefix_of(pieces[2]) && side_range(pieces[1].skip(1)) is Some {
        side_range(pieces[2].skip(1))
    } else {
        None
    }
}

fn parse_line_number(text: &str) -> (number: Option<u32>)
    ensures
        match number {
            Some(number) => line_number(text@) == Some(number as nat),
            None => line_number(text@) is None,
        },
{
    if starts_with(text, "+") {
        proof {
            reveal_strlit("+");
            assert(text@[0] == "+"@[0]);
            assert(!is_digit(text@[0]));
        }
        return None;
    }
    proof {
        reveal_strlit("+");
        if text@.len() > 0 && text@[0] == '+' {
            assert("+"@ =~= text@.subrange(0, 1));
        }
        assert(without_plus(text@) == text@);
    }
    parse_u32(text)
}

fn parse_side(side: &str) -> (range: Option<(u32, u32)>)
    ensures
        match range {
            Some((start, length)) => side_range(side@) == Some((start as nat, length as nat)),
            None => side_range(side@) is None,
        },
{
    proof {
        reveal_strlit(",");
    }
    let parts = split(side, ",");
    assert(parts@.len() == views(parts@).len());
    assert(views(parts@)[0] == parts@[0]@);
    let start: u32 = match parse_line_number(parts[0].as_str()) {
        Some(start) => start,
        None => {
            return None;
        },
    };
    if parts.len() == 1 {
        Some((start, 1))
    } else if parts.len() == 2 {
        assert(views(parts@)[1] == parts@[1]@);
        match parse_line_number(parts[1].as_str()) {
            Some(length) => Some((start, length)),
            None => None,
        }
    } else {
        None
    }
}

/// The new-side start and length of a hunk header. `None` when the header is malformed.
pub fn parse_hunk_new_range(hunk: &str) -> (range: Option<(u32, u32)>)
    ensures
        match range {
            Some((start, length)) => hunk_range(hunk@) == Some((start as nat, length as nat)),
            None => hunk_range(hunk@) is None,
        },
{
    proof {
        reveal_strlit(" ");
        reveal_strlit("-");
        reveal_strlit("+");
    }
    let pieces = split(hunk, " ");
    assert(pieces@.len() == views(pieces@).len());
    if pieces.len() < 4 {
        return None;
    }
    assert(views(pieces@)[0] == pieces@[0]@);
    assert(views(pieces@)[1] == pieces@[1]@);
    assert(views(pieces@)[2] == pieces@[2]@);
    assert(views(pieces@)[3] == pieces@[3]@);
    if !same_text(pieces[0].as_str(), "@@") || !same_text(pieces[3].as_str(), "@@") {
        return None;
    }
    match (strip_prefix(pieces[1].as_str(), "-"), strip_prefix(pieces[2].as_str(), "+")) {
        (Some(former), Some(new)) => if parse_side(former.as_str()).is_some() {
            parse_side(new.as_str())
        } else {
            None
        },
        _ => None,
    }
}

/// The lines a hunk covers, counted from one: a hunk of no lines, a pure deletion, covers the
/// line it is anchored at.
pub open spec fn hunk_lines(start: nat, length: nat) -> (int, int) {
    let first = if start >= 1 { start as int } else { 1 };
    (first, if length == 0 { first } else { first + length - 1 })
}

/// What has been read of a diff: the file its hunks are of, and the ranges of each file.
pub struct DiffState {
    pub file: Option<Seq<char>>,
    pub ranges: Map<Seq<char>, Seq<(u32, u32)>>,
}

/// The ranges with one more for a file.
pub open spec fn with_range(
    ranges: Map<Seq<char>, Seq<(u32, u32)>>,
    file: Seq<char>,
    range: (u32, u32),
) -> Map<Seq<char>, Seq<(u32, u32)>> {
    ranges.insert(
        file,
        (if ranges.contains_key(file) {
            ranges[file]
        } else {
            Seq::empty()
        }).push(range),
    )
}

/// One line of a diff read: a `+++ b/` line sets the file, a hunk header of a known file adds
/// its lines.
pub open spec fn diff_step(state: DiffState, line: Seq<char>) -> DiffState {
    if "+++ b/"@.is_prefix_of(line) {
        let path = line.skip("+++ b/"@.len() as int);
        DiffState {
            file: if path == "/dev/null"@ {
                None
            } else {
                Some(path)
            },
            ranges: state.ranges,
        }
    } else {
        match (state.file, hunk_range(line)) {
            (Some(file), Some((start, length))) => if "@@"@.is_prefix_of(line) {
                let (first, last) = hunk_lines(start, length);
                DiffState {
                    file: state.file,
                    ranges: with_range(state.ranges, file, (first as u32, last as u32)),
                }
            } else {
                state
            },
            _ => state,
        }
    }
}

/// The first `count` lines of a diff read.
pub open spec fn diff_upto(lines: Seq<Seq<char>>, count: int) -> DiffState
    decreases count,
{
    if count <= 0 {
        DiffState { file: None, ranges: Map::empty() }
    } else {
        diff_step(diff_upto(lines, count - 1), lines[count - 1])
    }
}

/// The line, where it is a hunk header of a known file, names lines that can be counted in 32
/// bits.
pub open spec fn header_fits(file: Option<Seq<char>>, line: Seq<char>) -> bool {
    match (file, hunk_range(line)) {
        (Some(_), Some((start, length))) => "+++ b/"@.is_prefix_of(line) || !"@@"@.is_prefix_of(line)
            || (start + length <= u32::MAX && 1 + length <= u32::MAX),
        _ => true,
    }
}

/// The line at this place of a diff fits.
pub open spec fn line_fits(lines: Seq<Seq<char>>, at: int) -> bool {
    header_fits(diff_upto(lines, at).file, lines[at])
}

/// Every hunk header of the diff names lines that can be counted in 32 bits.
pub open spec fn hunks_fit(diff: Seq<char>) -> bool {
    forall|i: int| 0 <= i < lines_spec(diff).len() ==> #[trigger] line_fits(lines_spec(diff), i)
}

/// Whether every hunk header of the diff names lines that can be counted in 32 bits.
pub fn diff_fits(diff: &str) -> (fits: bool)
    ensures
        fits == hunks_fit(diff@),
{
    let all = lines(diff);
    let ghost line_list = lines_spec(diff@);
    let mut known: bool = false;
    for i in 0..all.len()
        invariant
            views(all@) == line_list,
            line_list == lines_spec(diff@),
            known == (diff_upto(line_list, i as int).file is Some),
            forall|k: int| 0 <= k < i ==> #[trigger] line_fits(line_list, k),
    {
        assert(line_list[i as int] == all@[i as int]@);
        let line = all[i].as_str();
        match strip_prefix(line, "+++ b/") {
            Some(path) => {
                known = !same_text(path.as_str(), "/dev/null");
            },
            None => {
                if known && starts_with(line, "@@") {
                    match parse_hunk_new_range(line) {
                        Some((start, length)) => {
                            if length > u32::MAX - 1 || length > u32::MAX - start {
                                assert(!line_fits(line_list, i as int));
                                return false;
                            }
                        },
                        None => {},
                    }
                }
            },
        }
    }
    assert(all@.len() == line_list.len());
    true
}

fn add_range(ranges: &mut FxHashMap<String, Vec<(u32, u32)>>, file: &str, range: (u32, u32))
    ensures
        hunks_held(*final(ranges)) == with_range(hunks_held(*old(ranges)), file@, range),
{
    let ghost before = hunks_held(*ranges);
    let mut held: Vec<(u32, u32)> = match hunks_remove(ranges, file) {
        Some(held) => held,
        None => Vec::new(),
    };
    held.push(range);
    hunks_insert(ranges, file, held);
    assert(hunks_held(*ranges) =~= with_range(before, file@, range));
}

/// The new-side line ranges parsed from a unified diff, grouped by file: each `+++ b/<path>`
/// sets the current file, each `@@ -a,b +c,d @@` yields the lines from `c` to `c+d-1`. Ranges
/// keep the order git emitted them, which is ascending per file.
pub fn parse_diff_hunks(diff: &str) -> (ranges: FxHashMap<String, Vec<(u32, u32)>>)
    requires
        hunks_fit(diff@),
    ensures
        hunks_held(ranges) == diff_upto(
            lines_spec(diff@),
            lines_spec(diff@).len() as int,
        ).ranges,
{
    let all = lines(diff);
    let ghost line_list = lines_spec(diff@);
    let mut ranges: FxHashMap<String, Vec<(u32, u32)>> = hunks_new();
    let mut current: Option<String> = None;
    assert(hunks_held(ranges) =~= Map::empty());
    for i in 0..all.len()
        invariant
            views(all@) == line_list,
            line_list == lines_spec(diff@),
            hunks_fit(diff@),
            hunks_held(ranges) == diff_upto(line_list, i as int).ranges,
            match current {
                Some(file) => diff_upto(line_list, i as int).file == Some(file@),
                None => diff_upto(line_list, i as int).file is None,
            },
    {
        assert(line_list[i as int] == all@[i as int]@);
        assert(line_fits(line_list, i as int));
        let line = all[i].as_str();
        match strip_prefix(line, "+++ b/") {
            Some(path) => {
                current = if same_text(path.as_str(), "/dev/null") {
                    None
                } else {
                    Some(path)
                };
            },
            None => {
                if starts_with(line, "@@") {
                    match &current {
                        Some(file) => match parse_hunk_new_range(line) {
                            Some((start, length)) => {
                                let first: u32 = if start >= 1 { start } else { 1 };
                                let last: u32 = if length == 0 {
                                    first
                                } else {
                                    first + length - 1
                                };
                                add_range(&mut ranges, file.as_str(), (first, last));
                            },
                            None => {},
                        },
                        None => {},
                    }
                }
            },
        }
    }
    assert(all@.len() == line_list.len());
    ranges
}

/// The ranges a diff gives a file, in order; none where it gives none.
pub fn hunks_of<'a>(
    ranges: &'a FxHashMap<String, Vec<(u32, u32)>>,
    file: &str,
) -> (found: Option<&'a Vec<(u32, u32)>>)
    ensures
        match found {
            Some(found) => hunks_held(*ranges).contains_key(file@) && hunks_held(*ranges)[file@]
                == found@,
            None => !hunks_held(*ranges).contains_key(file@),
        },
{
    hunks_get(ranges, file)
}

/// The range of a file that is entirely new: every line in it.
pub open spec fn whole_file() -> Seq<(u32, u32)> {
    seq![(1u32, u32::MAX)]
}

/// The ranges with the first `count` of these files added, each with every line in it, but for
/// those that have ranges already.
pub open spec fn with_whole_files(
    ranges: Map<Seq<char>, Seq<(u32, u32)>>,
    files: Seq<Seq<char>>,
    count: int,
) -> Map<Seq<char>, Seq<(u32, u32)>>
    decreases count,
{
    if count <= 0 {
        ranges
    } else {
        let before = with_whole_files(ranges, files, count - 1);
        if before.contains_key(files[count - 1]) {
            before
        } else {
            before.insert(files[count - 1], whole_file())
        }
    }
}

/// Untracked files added to the ranges of a diff. An untracked file is entirely new, so every line
/// in it is a changed line.
pub fn add_untracked(ranges: &mut FxHashMap<String, Vec<(u32, u32)>>, files: &[String])
    ensures
        hunks_held(*final(ranges)) == with_whole_files(
            hunks_held(*old(ranges)),
            views(files@),
            files@.len() as int,
        ),
{
    let ghost start = hunks_held(*ranges);
    for i in 0..files.len()
        invariant
            hunks_held(*ranges) == with_whole_files(start, views(files@), i as int),
    {
        assert(views(files@)[i as int] == files@[i as int]@);
        if hunks_get(ranges, files[i].as_str()).is_none() {
            let mut whole: Vec<(u32, u32)> = Vec::new();
            whole.push((1, u32::MAX));
            assert(whole@ =~= whole_file());
            hunks_insert(ranges, files[i].as_str(), whole);
        }
    }
}

/// The range of an untracked file costs a symbol exactly its length.
pub proof fn law_an_untracked_symbol_is_changed_whole(start: u32, end: u32)
    requires
        1 <= start <= end,
    ensures
        covered_lines(whole_file(), start, end) == end - start + 1,
{
    assert(whole_file().drop_last() =~= Seq::empty());
    assert(touched_lines(whole_file().drop_last(), start, end) == 0);
}

// ---------------------------------------------------------------------------
// What a diff says

/// The lines that a range shares with a span are counted one by one.
pub proof fn law_shared_lines_are_counted(range: (u32, u32), start: u32, end: u32)
    requires
        start <= end,
    ensures
        shared_lines(range, start, end) == numbers::indices(
            end + 1,
            |line: int| start <= line && range.0 <= line <= range.1,
        ).len(),
{
    lemma_shared_upto(range, start, end + 1);
}

proof fn lemma_shared_upto(range: (u32, u32), start: u32, count: int)
    requires
        0 <= count,
    ensures
        numbers::indices(
            count,
            |line: int| start <= line && range.0 <= line <= range.1,
        ).len() == ({
            let low = if range.0 >= start {
                range.0 as int
            } else {
                start as int
            };
            let high = if range.1 <= count - 1 {
                range.1 as int
            } else {
                count - 1
            };
            if low <= high {
                high - low + 1
            } else {
                0
            }
        }),
    decreases count,
{
    lemma_indices(count, |line: int| start <= line && range.0 <= line <= range.1);
    if count > 0 {
        lemma_shared_upto(range, start, count - 1);
    }
}

/// The line is one of the range.
pub open spec fn touches(range: (u32, u32), line: int) -> bool {
    range.0 <= line <= range.1
}

/// A symbol has changed lines exactly where some range of the diff touches one of its lines, and
/// never more than it has; ranges that share no line with it do not count.
pub proof fn law_a_touched_symbol_has_changed_lines(
    ranges: Seq<(u32, u32)>,
    start: u32,
    end: u32,
)
    requires
        start <= end,
    ensures
        covered_lines(ranges, start, end) > 0 <==> exists|r: int, line: int|
            0 <= r < ranges.len() && start <= line <= end && #[trigger] touches(ranges[r], line),
        0 <= covered_lines(ranges, start, end) <= end - start + 1,
        ranges.len() == 1 ==> covered_lines(ranges, start, end) == shared_lines(
            ranges[0],
            start,
            end,
        ),
{
    lemma_touched(ranges, start, end);
    if ranges.len() == 1 {
        assert(ranges.drop_last().len() == 0);
        assert(touched_lines(ranges.drop_last(), start, end) == 0);
    }
}

proof fn lemma_touched(ranges: Seq<(u32, u32)>, start: u32, end: u32)
    requires
        start <= end,
    ensures
        touched_lines(ranges, start, end) >= 0,
        touched_lines(ranges, start, end) > 0 <==> exists|r: int, line: int|
            0 <= r < ranges.len() && start <= line <= end && #[trigger] touches(ranges[r], line),
    decreases ranges.len(),
{
    if ranges.len() > 0 {
        let rest = ranges.drop_last();
        lemma_touched(rest, start, end);
        let last = ranges.last();
        assert(forall|r: int| 0 <= r < rest.len() ==> #[trigger] rest[r] == ranges[r]);
        if shared_lines(last, start, end) > 0 {
            let low = if last.0 >= start {
                last.0 as int
            } else {
                start as int
            };
            assert(touches(ranges[ranges.len() - 1], low));
        } else if touched_lines(rest, start, end) > 0 {
            let (r, line) = choose|r: int, line: int|
                0 <= r < rest.len() && start <= line <= end && #[trigger] touches(rest[r], line);
            assert(touches(ranges[r], line));
        }
        if exists|r: int, line: int|
            0 <= r < ranges.len() && start <= line <= end && #[trigger] touches(ranges[r], line) {
            let (r, line) = choose|r: int, line: int|
                0 <= r < ranges.len() && start <= line <= end && #[trigger] touches(ranges[r], line);
            if r < rest.len() {
                assert(touches(rest[r], line));
            }
        }
    }
}

/// A revision is refused where it is empty, too long, begins with a dash, or holds white space or a
/// control character, and is accepted everywhere else.
pub proof fn law_a_sound_revision_is_accepted(base: Seq<char>)
    ensures
        refusal(base) is None <==> 0 < base.len() && bytes(base) <= REVISION_CHARS_MAX && base[0]
            != '-' && forall|i: int|
            0 <= i < base.len() ==> !is_space(#[trigger] base[i]) && !is_control(base[i]),
        base.len() == 0 <==> refusal(base) == Some(RevisionError::Empty),
        refusal(base) == Some(RevisionError::LooksLikeAnOption) ==> base[0] == '-',
        base.len() > 0 && base[0] == '-' && bytes(base) <= REVISION_CHARS_MAX ==> refusal(base)
            == Some(RevisionError::LooksLikeAnOption),
        base.len() > 0 && bytes(base) > REVISION_CHARS_MAX ==> refusal(base) == Some(
            RevisionError::TooLong,
        ),
{
}

/// A hunk covers as many lines as it says, counted from its first; one of no lines covers the line
/// it is anchored at.
pub proof fn law_a_hunk_covers_its_lines(start: nat, length: nat)
    ensures
        ({
            let (first, last) = hunk_lines(start, length);
            &&& first >= 1
            &&& start >= 1 ==> first == start
            &&& length >= 1 ==> last - first + 1 == length
            &&& length == 0 ==> last == first
        }),
{
}

proof fn lemma_file_stays(lines: Seq<Seq<char>>, set: int, at: int, path: Seq<char>)
    requires
        0 <= set < at <= lines.len(),
        lines[set] == "+++ b/"@ + path,
        path != "/dev/null"@,
        forall|k: int| set < k < at ==> !"+++ b/"@.is_prefix_of(#[trigger] lines[k]),
    ensures
        diff_upto(lines, at).file == Some(path),
    decreases at,
{
    if at == set + 1 {
        let line = lines[set];
        let mark = "+++ b/"@;
        assert(line.subrange(0, mark.len() as int) =~= mark);
        assert(line.skip(mark.len() as int) =~= path);
    } else {
        lemma_file_stays(lines, set, at - 1, path);
        assert(!"+++ b/"@.is_prefix_of(lines[at - 1]));
    }
}

proof fn lemma_range_stays(
    lines: Seq<Seq<char>>,
    at: int,
    count: int,
    path: Seq<char>,
    range: (u32, u32),
)
    requires
        0 <= at <= count <= lines.len(),
        diff_upto(lines, at).ranges.contains_key(path),
        diff_upto(lines, at).ranges[path].contains(range),
    ensures
        diff_upto(lines, count).ranges.contains_key(path),
        diff_upto(lines, count).ranges[path].contains(range),
    decreases count,
{
    if at < count {
        lemma_range_stays(lines, at, count - 1, path, range);
        let before = diff_upto(lines, count - 1).ranges[path];
        let after = diff_upto(lines, count).ranges[path];
        let k = choose|k: int| 0 <= k < before.len() && before[k] == range;
        assert(after[k] == range);
    }
}

/// Every hunk of a diff is a range of the file it stands under: the last file that was named before
/// it.
pub proof fn law_a_hunk_belongs_to_its_file(
    lines: Seq<Seq<char>>,
    named: int,
    hunk: int,
    path: Seq<char>,
    start: nat,
    length: nat,
)
    requires
        0 <= named < hunk < lines.len(),
        lines[named] == "+++ b/"@ + path,
        path != "/dev/null"@,
        forall|k: int| named < k <= hunk ==> !"+++ b/"@.is_prefix_of(#[trigger] lines[k]),
        "@@"@.is_prefix_of(lines[hunk]),
        hunk_range(lines[hunk]) == Some((start, length)),
    ensures
        ({
            let ranges = diff_upto(lines, lines.len() as int).ranges;
            let (first, last) = hunk_lines(start, length);
            ranges.contains_key(path) && ranges[path].contains((first as u32, last as u32))
        }),
{
    lemma_file_stays(lines, named, hunk, path);
    assert(!"+++ b/"@.is_prefix_of(lines[hunk]));
    let (first, last) = hunk_lines(start, length);
    let range = (first as u32, last as u32);
    let after = diff_upto(lines, hunk + 1).ranges;
    assert(after.contains_key(path));
    assert(after[path][after[path].len() - 1] == range);
    lemma_range_stays(lines, hunk + 1, lines.len() as int, path, range);
}

/// Every untracked file counts as changed, whole where the diff said nothing of it; what the diff
/// said stays.
pub proof fn law_untracked_files_count_whole(
    ranges: Map<Seq<char>, Seq<(u32, u32)>>,
    files: Seq<Seq<char>>,
    count: int,
    at: int,
)
    requires
        0 <= at < count <= files.len(),
    ensures
        ({
            let after = with_whole_files(ranges, files, count);
            &&& after.contains_key(files[at])
            &&& !ranges.contains_key(files[at]) ==> after[files[at]] == seq![(1u32, u32::MAX)]
            &&& forall|file: Seq<char>| #[trigger]
                ranges.contains_key(file) ==> after.contains_key(file) && after[file]
                    == ranges[file]
            &&& forall|file: Seq<char>| #[trigger]
                after.contains_key(file) ==> ranges.contains_key(file) || files.contains(file)
        }),
{
    lemma_whole_files(ranges, files, count);
}

proof fn lemma_whole_files(
    ranges: Map<Seq<char>, Seq<(u32, u32)>>,
    files: Seq<Seq<char>>,
    count: int,
)
    requires
        0 <= count <= files.len(),
    ensures
        ({
            let after = with_whole_files(ranges, files, count);
            &&& forall|k: int| 0 <= k < count ==> after.contains_key(#[trigger] files[k])
            &&& forall|file: Seq<char>| #[trigger]
                after.contains_key(file) && !ranges.contains_key(file) ==> after[file] == seq![
                    (1u32, u32::MAX),
                ] && files.contains(file)
            &&& forall|file: Seq<char>| #[trigger]
                ranges.contains_key(file) ==> after.contains_key(file) && after[file]
                    == ranges[file]
        }),
    decreases count,
{
    if count > 0 {
        lemma_whole_files(ranges, files, count - 1);
        let before = with_whole_files(ranges, files, count - 1);
        let after = with_whole_files(ranges, files, count);
        let last = files[count - 1];
        assert(files.contains(last));
        assert forall|file: Seq<char>| #[trigger] after.contains_key(file) && !ranges.contains_key(
            file,
        ) implies after[file] == seq![(1u32, u32::MAX)] && files.contains(file) by {
            if file != last {
                assert(before.contains_key(file));
            } else if before.contains_key(file) {
                assert(after[file] == before[file]);
            } else {
                assert(after[file] == whole_file());
            }
        }
        assert forall|k: int| 0 <= k < count implies after.contains_key(#[trigger] files[k]) by {
            if k < count - 1 {
                assert(before.contains_key(files[k]));
            }
        }
    }
}

/// Every file that git lists as untracked is read, up to the cap, and no empty line is.
pub proof fn law_every_listed_file_is_read(lines: Seq<Seq<char>>, max: int, at: int)
    requires
        0 <= at < lines.len(),
    ensures
        lines[at].len() > 0 && nonempty_lines(lines, max).len() < max ==> nonempty_lines(
            lines,
            max,
        ).contains(lines[at]),
        forall|k: int|
            0 <= k < nonempty_lines(lines, max).len() ==> (#[trigger] nonempty_lines(
                lines,
                max,
            )[k]).len() > 0 && lines.contains(nonempty_lines(lines, max)[k]),
    decreases lines.len(),
{
    let shorter = lines.drop_last();
    let read = nonempty_lines(lines, max);
    let before = nonempty_lines(shorter, max);
    lemma_read_lines(lines, max);
    if at < shorter.len() {
        law_every_listed_file_is_read(shorter, max, at);
        if lines[at].len() > 0 && read.len() < max {
            assert(shorter[at] == lines[at]);
            let k = choose|k: int| 0 <= k < before.len() && before[k] == lines[at];
            assert(read[k] == lines[at]);
        }
    } else if lines[at].len() > 0 && read.len() < max {
        assert(read[read.len() - 1] == lines[at]);
    }
}

proof fn lemma_read_lines(lines: Seq<Seq<char>>, max: int)
    ensures
        forall|k: int|
            0 <= k < nonempty_lines(lines, max).len() ==> (#[trigger] nonempty_lines(
                lines,
                max,
            )[k]).len() > 0 && lines.contains(nonempty_lines(lines, max)[k]),
    decreases lines.len(),
{
    if lines.len() > 0 {
        let shorter = lines.drop_last();
        lemma_read_lines(shorter, max);
        let before = nonempty_lines(shorter, max);
        let read = nonempty_lines(lines, max);
        assert forall|k: int| 0 <= k < read.len() implies (#[trigger] read[k]).len() > 0
            && lines.contains(read[k]) by {
            if k < before.len() {
                assert(read[k] == before[k]);
                let i = choose|i: int| 0 <= i < shorter.len() && shorter[i] == before[k];
                assert(lines[i] == read[k]);
            } else {
                assert(lines[lines.len() - 1] == read[k]);
            }
        }
    }
}

/// A hunk's range is that of its new side, and only a header that names both sides has one.
pub proof fn law_a_hunk_has_the_range_of_its_new_side(hunk: Seq<char>)
    ensures
        ({
            let pieces = split_spec(hunk, " "@);
            &&& pieces.len() < 4 ==> hunk_range(hunk) is None
            &&& hunk_range(hunk) is Some ==> pieces[0] == "@@"@ && pieces[3] == "@@"@
                && pieces[1].len() > 0 && pieces[1][0] == '-' && side_range(pieces[1].skip(1)) is Some
                && pieces[2].len() > 0 && pieces[2][0] == '+' && hunk_range(hunk) == side_range(
                pieces[2].skip(1),
            )
        }),
{
    reveal_strlit("-");
    reveal_strlit("+");
    let pieces = split_spec(hunk, " "@);
    if hunk_range(hunk) is Some {
        assert("-"@[0] == pieces[1].subrange(0, 1)[0]);
        assert("+"@[0] == pieces[2].subrange(0, 1)[0]);
    }
}

} // verus!
