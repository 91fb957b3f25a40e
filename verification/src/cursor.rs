//! Opaque page cursors for the listing tools.
//!
//! The cursor is stateless and carries the server's generation counter, so a page taken before
//! a re-index cannot be silently continued against a shifted result set. When the generation
//! has moved on, the cursor is reported expired and the first page is returned instead. The
//! encoding is `<offset>.<generation>`, which a human debugging a paging bug can read.
use crate::chars::{
    cat3, cat5, contains, copy, first_from, lemma_first_from, occurs, occurs_at, quote, quoted,
    split_once, split_once_spec, trim, trim_spec, trim_start_spec,
};
use crate::numbers::{
    all_digits, decimal, decimal_spec, decimal_usize, is_digit, is_number,
    lemma_decimal_reads_back, parse_u64, parse_usize, unsigned_value, without_plus,
};
use vstd::prelude::*;

verus! {

/// The fail-fast bound on a decoded offset. Every paginated tool caps its own result set far
/// below this; the bound exists so a hand-written or corrupted cursor cannot ask for an absurd
/// skip.
pub const CURSOR_OFFSET_MAX: usize = 1_000_000;

/// A decoded page cursor: where to resume, and the index generation it was issued against.
#[derive(Clone, Copy, Debug, PartialEq, Eq, Structural)]
pub struct Cursor {
    pub generation: u64,
    pub offset: usize,
}

/// The reasons a cursor could not be decoded.
#[derive(Clone, Copy, Debug, PartialEq, Eq, Structural)]
pub enum CursorError {
    /// The offset was not a number, or the generation not one that a server counts to.
    Malformed,
    /// The offset exceeded [`CURSOR_OFFSET_MAX`].
    OffsetTooLarge,
    /// The two fields were not separated by a single separator.
    WrongShape,
}

impl CursorError {
    /// What the reason says.
    pub open spec fn text(self) -> Seq<char> {
        match self {
            CursorError::Malformed => "its offset or generation is not a number"@,
            CursorError::OffsetTooLarge => "its offset is implausibly large"@,
            CursorError::WrongShape => "it is not of the form <offset>.<generation>"@,
        }
    }

    /// The reason in words.
    pub fn message(self) -> (message: &'static str)
        ensures
            message@ == self.text(),
    {
        match self {
            CursorError::Malformed => "its offset or generation is not a number",
            CursorError::OffsetTooLarge => "its offset is implausibly large",
            CursorError::WrongShape => "it is not of the form <offset>.<generation>",
        }
    }
}

/// A cursor as the agent passes it back.
pub open spec fn encode_spec(offset: nat, generation: nat) -> Seq<char> {
    decimal_spec(offset) + "."@ + decimal_spec(generation)
}

/// The cursor encoded for the agent to pass back.
pub fn encode(offset: usize, generation: u64) -> (text: String)
    requires
        offset <= CURSOR_OFFSET_MAX,
    ensures
        text@ == encode_spec(offset as nat, generation as nat),
{
    cat3(decimal_usize(offset).as_str(), ".", decimal(generation).as_str())
}

/// What a cursor text decodes to: the offset and the generation on the two sides of its only
/// separator, or the reason it does not decode.
pub open spec fn decode_spec(text: Seq<char>) -> Result<(nat, nat), CursorError> {
    match split_once_spec(trim_spec(text), "."@) {
        None => Err(CursorError::WrongShape),
        Some((offset, generation)) => if occurs(generation, "."@) {
            Err(CursorError::WrongShape)
        } else {
            match unsigned_value(generation, u64::MAX as nat) {
                None => Err(CursorError::Malformed),
                Some(generation) => if !all_digits(without_plus(offset)) {
                    Err(CursorError::Malformed)
                } else {
                    match unsigned_value(offset, CURSOR_OFFSET_MAX as nat) {
                        None => Err(CursorError::OffsetTooLarge),
                        Some(offset) => Ok((offset, generation)),
                    }
                },
            }
        },
    }
}

/// The cursor decoded, or the reason it could not be.
pub fn decode(text: &str) -> (decoded: Result<Cursor, CursorError>)
    ensures
        match decoded {
            Ok(cursor) => decode_spec(text@) == Ok::<(nat, nat), CursorError>(
                (cursor.offset as nat, cursor.generation as nat),
            ),
            Err(error) => decode_spec(text@) == Err::<(nat, nat), CursorError>(error),
        },
{
    let trimmed = trim(text);
    let (offset, generation) = match split_once(trimmed.as_str(), ".") {
        Some(pair) => pair,
        None => {
            return Err(CursorError::WrongShape);
        },
    };
    if contains(generation.as_str(), ".") {
        return Err(CursorError::WrongShape);
    }
    if !is_number(offset.as_str()) {
        return Err(CursorError::Malformed);
    }
    let generation: u64 = match parse_u64(generation.as_str()) {
        Some(generation) => generation,
        None => {
            return Err(CursorError::Malformed);
        },
    };
    match parse_usize(offset.as_str()) {
        Some(offset) => if offset > CURSOR_OFFSET_MAX {
            Err(CursorError::OffsetTooLarge)
        } else {
            Ok(Cursor { generation, offset })
        },
        None => Err(CursorError::OffsetTooLarge),
    }
}

/// A cursor that was issued decodes to the offset and generation it was issued for.
pub proof fn law_cursor_round_trips(offset: nat, generation: nat)
    requires
        offset <= CURSOR_OFFSET_MAX,
        generation <= u64::MAX,
    ensures
        decode_spec(encode_spec(offset, generation)) == Ok::<(nat, nat), CursorError>(
            (offset, generation),
        ),
{
    reveal_strlit(".");
    let head = decimal_spec(offset);
    let tail = decimal_spec(generation);
    let text = encode_spec(offset, generation);
    lemma_decimal_reads_back(offset);
    lemma_decimal_reads_back(generation);
    assert(is_digit(head[0]));
    assert(is_digit(tail[tail.len() - 1]));
    assert(text[0] == head[0]);
    assert(text.last() == tail.last());
    assert(trim_start_spec(text) == text);
    assert(trim_spec(text) == text);
    let at = head.len() as int;
    assert(occurs_at(text, "."@, at)) by {
        assert(text.subrange(at, at + 1) =~= "."@);
    }
    lemma_first_from(text, "."@, 0);
    assert forall|k: int| 0 <= k < at implies !occurs_at(text, "."@, k) by {
        if occurs_at(text, "."@, k) {
            assert(text.subrange(k, k + 1)[0] == '.');
            assert(is_digit(head[k]));
        }
    }
    assert(first_from(text, "."@, 0) == Some(at));
    assert(text.subrange(0, at) =~= head);
    assert(text.skip(at + 1) =~= tail);
    assert forall|k: int| !occurs_at(tail, "."@, k) by {
        if occurs_at(tail, "."@, k) {
            assert(tail.subrange(k, k + 1)[0] == '.');
            assert(is_digit(tail[k]));
        }
    }
    assert(!occurs(tail, "."@));
    assert(without_plus(head) == head);
    assert(without_plus(tail) == tail);
}

/// The offset one tool call should start at, and what to tell the agent when the requested
/// cursor could not be honoured.
#[derive(Clone, Debug, PartialEq, Eq)]
pub struct Page {
    /// A note to prepend to the response, or `None` when the cursor was honoured (or none was
    /// passed).
    pub note: Option<String>,
    /// The zero-based offset into the full result set.
    pub offset: usize,
}

impl Default for Page {
    fn default() -> (page: Page)
        ensures
            page.note is None,
            page.offset == 0,
    {
        Page { note: None, offset: 0 }
    }
}

/// What the agent is told of a cursor from before the index changed.
pub open spec fn expired_note() -> Seq<char> {
    "cursor expired (the index changed since it was issued); showing the first page, re-run without cursor to page again"@
}

/// The note and offset a cursor argument resolves to.
pub open spec fn resolve_spec(cursor: Option<&str>, generation: u64) -> (Option<Seq<char>>, int) {
    match cursor {
        None => (None, 0),
        Some(cursor) => if trim_spec(cursor@).len() == 0 {
            (None, 0)
        } else {
            match decode_spec(cursor@) {
                Ok((offset, issued)) => if issued == generation {
                    (None, offset as int)
                } else {
                    (Some(expired_note()), 0)
                },
                Err(error) => (
                    Some(
                        "cursor "@ + quoted(cursor@) + " rejected: "@ + error.text()
                            + "; showing the first page"@,
                    ),
                    0,
                ),
            }
        },
    }
}

/// A note as a value.
pub open spec fn note_view(note: Option<String>) -> Option<Seq<char>> {
    match note {
        Some(note) => Some(note@),
        None => None,
    }
}

/// The page a cursor argument resolves to against the current generation. Every failure path
/// restarts from the first page and says so.
pub fn resolve(cursor: Option<&str>, generation: u64) -> (page: Page)
    ensures
        (note_view(page.note), page.offset as int) == resolve_spec(cursor, generation),
        page.offset <= CURSOR_OFFSET_MAX,
{
    let cursor: &str = match cursor {
        Some(cursor) => cursor,
        None => {
            return Page { note: None, offset: 0 };
        },
    };
    if trim(cursor).as_str().is_empty() {
        return Page { note: None, offset: 0 };
    }
    match decode(cursor) {
        Ok(decoded) => if decoded.generation == generation {
            Page { note: None, offset: decoded.offset }
        } else {
            Page {
                note: Some(
                    copy(
                        "cursor expired (the index changed since it was issued); showing the first page, re-run without cursor to page again",
                    ),
                ),
                offset: 0,
            }
        },
        Err(error) => Page {
            note: Some(
                cat5(
                    "cursor ",
                    quote(cursor).as_str(),
                    " rejected: ",
                    error.message(),
                    "; showing the first page",
                ),
            ),
            offset: 0,
        },
    }
}

/// A cursor that is not honoured restarts from the first page, and always with a note.
pub proof fn law_a_refused_cursor_says_so(cursor: &str, generation: u64)
    requires
        trim_spec(cursor@).len() > 0,
    ensures
        resolve_spec(Some(cursor), generation).0 is None ==> decode_spec(cursor@) is Ok
            && decode_spec(cursor@)->Ok_0.1 == generation && resolve_spec(Some(cursor), generation).1
            == decode_spec(cursor@)->Ok_0.0,
        resolve_spec(Some(cursor), generation).0 is Some ==> resolve_spec(
            Some(cursor),
            generation,
        ).1 == 0,
{
}

/// The line that offers the next page, where there is one.
pub open spec fn next_line_spec(offset: int, shown: int, total: int, generation: u64) -> Option<
    Seq<char>,
> {
    let consumed = offset + shown;
    if consumed >= total || consumed > CURSOR_OFFSET_MAX {
        None
    } else {
        Some(
            "next: cursor="@ + encode_spec(consumed as nat, generation as nat) + " ("@
                + decimal_spec(consumed as nat) + " of "@ + decimal_spec(total as nat) + " shown)"@,
        )
    }
}

/// The `next: cursor=<value>` line for a truncated response, or `None` when the page reached
/// the end of the result set.
pub fn next_line(offset: usize, shown: usize, total: usize, generation: u64) -> (line: Option<String>)
    ensures
        note_view(line) == next_line_spec(
            offset as int,
            shown as int,
            total as int,
            generation,
        ),
{
    let consumed: usize = offset.saturating_add(shown);
    if consumed >= total || consumed > CURSOR_OFFSET_MAX {
        return None;
    }
    let cursor = encode(consumed, generation);
    let count = decimal_usize(consumed);
    let mut line = cat5("next: cursor=", cursor.as_str(), " (", count.as_str(), " of ");
    line.append(decimal_usize(total).as_str());
    line.append(" shown)");
    Some(line)
}

/// The lines a listing ends with: the offer of a next page, where there is one.
pub open spec fn next_text(offset: int, shown: int, total: int, generation: u64) -> Seq<char> {
    match next_line_spec(offset, shown, total, generation) {
        Some(line) => line + "\n"@,
        None => ""@,
    }
}

pub fn next_text_line(offset: usize, shown: usize, total: usize, generation: u64) -> (text: String)
    ensures
        text@ == next_text(offset as int, shown as int, total as int, generation),
{
    match next_line(offset, shown, total, generation) {
        Some(line) => {
            let mut text = line;
            text.append("\n");
            text
        },
        None => copy(""),
    }
}

/// The line a page's note stands on, where it has one.
pub open spec fn note_text(page: Page) -> Seq<char> {
    match page.note {
        Some(note) => note@ + "\n"@,
        None => ""@,
    }
}

pub fn note_line(page: &Page) -> (text: String)
    ensures
        text@ == note_text(*page),
{
    match &page.note {
        Some(note) => {
            let mut text = copy(note.as_str());
            text.append("\n");
            text
        },
        None => copy(""),
    }
}

/// The items one page covers.
pub open spec fn slice_spec<T>(items: Seq<T>, offset: int, limit: int) -> Seq<T> {
    if offset >= items.len() {
        Seq::empty()
    } else if offset + limit < items.len() {
        items.subrange(offset, offset + limit)
    } else {
        items.skip(offset)
    }
}

/// The slice of `items` this page covers, empty when the offset runs past the end (which a
/// stale-but-parsable cursor can produce).
pub fn slice<T>(items: &[T], offset: usize, limit: usize) -> (page: &[T])
    ensures
        page@ == slice_spec(items@, offset as int, limit as int),
{
    if offset >= items.len() {
        let none = vstd::slice::slice_subrange(items, 0, 0);
        assert(none@ =~= Seq::empty());
        return none;
    }
    let end: usize = if limit < items.len() - offset {
        offset + limit
    } else {
        items.len()
    };
    assert(items@.subrange(offset as int, end as int) =~= slice_spec(
        items@,
        offset as int,
        limit as int,
    ));
    vstd::slice::slice_subrange(items, offset, end)
}

/// The pages from this offset on, one after another.
pub open spec fn pages_from<T>(items: Seq<T>, offset: int, limit: int) -> Seq<T>
    decreases items.len() - offset,
{
    let page = slice_spec(items, offset, limit);
    if offset < 0 || limit <= 0 || page.len() == 0 {
        Seq::empty()
    } else {
        page + pages_from(items, offset + page.len(), limit)
    }
}

/// Paging from an offset shows every item from there on, each once and in order.
pub proof fn law_pages_cover_every_item<T>(items: Seq<T>, offset: int, limit: int)
    requires
        0 <= offset <= items.len(),
        limit > 0,
    ensures
        pages_from(items, offset, limit) == items.skip(offset),
    decreases items.len() - offset,
{
    if offset < items.len() {
        let page = slice_spec(items, offset, limit);
        law_pages_cover_every_item(items, offset + page.len(), limit);
        assert(items.skip(offset) =~= page + items.skip(offset + page.len()));
    } else {
        assert(items.skip(offset) =~= Seq::empty());
    }
}

/// A next page is offered exactly when something is left, within the offset bound, and its
/// cursor resumes right behind what was shown.
pub proof fn law_the_next_page_advances(offset: int, shown: int, total: int, generation: u64)
    requires
        0 <= offset,
        0 < shown,
        offset + shown <= CURSOR_OFFSET_MAX,
    ensures
        next_line_spec(offset, shown, total, generation) is Some <==> offset + shown < total,
        decode_spec(encode_spec((offset + shown) as nat, generation as nat)) == Ok::<
            (nat, nat),
            CursorError,
        >(((offset + shown) as nat, generation as nat)),
{
    law_cursor_round_trips((offset + shown) as nat, generation as nat);
}

/// A page holds what stands from its offset on, in order, as many as its limit where there are as
/// many left.
pub proof fn law_a_page_holds_what_stands_from_its_offset<T>(
    items: Seq<T>,
    offset: int,
    limit: int,
    at: int,
)
    requires
        0 <= offset,
        0 <= limit,
    ensures
        slice_spec(items, offset, limit).len() <= limit,
        offset + limit <= items.len() ==> slice_spec(items, offset, limit).len() == limit,
        offset <= items.len() < offset + limit ==> slice_spec(items, offset, limit).len()
            == items.len() - offset,
        offset > items.len() ==> slice_spec(items, offset, limit).len() == 0,
        0 <= at < slice_spec(items, offset, limit).len() ==> slice_spec(items, offset, limit)[at]
            == items[offset + at],
{
}

} // verus!
