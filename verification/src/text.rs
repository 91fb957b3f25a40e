//! Fitting text to a byte budget.
//!
//! Every response is charged against a budget, so text is cut to a byte count without
//! splitting a character in half.
use crate::chars::{byte_len, bytes, char_bytes, char_len, chars_of, lemma_bytes_add, text_between};
use std::borrow::Cow;
use vstd::prelude::*;

verus! {

/// The ellipsis appended to text that was cut, so a reader can tell a truncated
/// value from a short one.
pub const ELLIPSIS: char = '\u{2026}';

/// The number of leading characters that take at most `room` bytes together.
pub open spec fn chars_within(text: Seq<char>, room: int) -> int
    decreases text.len(),
{
    if text.len() == 0 || char_bytes(text[0]) > room {
        0
    } else {
        1 + chars_within(text.skip(1), room - char_bytes(text[0]))
    }
}

/// The text as it is where it fits the budget; else its longest beginning that leaves
/// room for the ellipsis, with the ellipsis behind it; else, where not even the ellipsis
/// fits, nothing.
pub open spec fn fitted(text: Seq<char>, budget: int) -> Seq<char> {
    if bytes(text) <= budget {
        text
    } else if budget < char_bytes(ELLIPSIS) {
        Seq::empty()
    } else {
        text.take(chars_within(text, budget - char_bytes(ELLIPSIS))).push(ELLIPSIS)
    }
}

pub proof fn lemma_chars_within(text: Seq<char>, room: int)
    requires
        room >= 0,
    ensures
        0 <= chars_within(text, room) <= text.len(),
        bytes(text.take(chars_within(text, room))) <= room,
    decreases text.len(),
{
    if text.len() > 0 && char_bytes(text[0]) <= room {
        let rest = text.skip(1);
        let count = chars_within(rest, room - char_bytes(text[0]));
        lemma_chars_within(rest, room - char_bytes(text[0]));
        assert(text.take(1 + count) =~= text.take(1) + rest.take(count));
        lemma_bytes_add(text.take(1), rest.take(count));
        assert(text.take(1).drop_last() =~= Seq::empty());
        assert(bytes(text.take(1).drop_last()) == 0);
    } else {
        assert(text.take(0) =~= Seq::empty());
    }
}

/// A fitted text never takes more bytes than its budget, and what it keeps of the text is a
/// beginning of it.
pub proof fn law_fitted_within_budget(text: Seq<char>, budget: int)
    requires
        budget >= 0,
    ensures
        bytes(fitted(text, budget)) <= budget,
        fitted(text, budget) == text || fitted(text, budget).len() == 0 || (fitted(
            text,
            budget,
        ).last() == ELLIPSIS && fitted(text, budget).drop_last().is_prefix_of(text)),
{
    let marked = fitted(text, budget);
    if bytes(text) > budget && budget >= char_bytes(ELLIPSIS) {
        let room = budget - char_bytes(ELLIPSIS);
        let count = chars_within(text, room);
        lemma_chars_within(text, room);
        assert(marked.drop_last() =~= text.take(count));
        assert(marked.last() == ELLIPSIS);
    }
}

/// `text` fitted to at most `budget` bytes, cut on a character boundary and marked with an
/// ellipsis when anything was dropped. The budget covers the result, marker included.
/// Borrows when the text already fits.
pub fn truncate_at_boundary(text: &str, budget: usize) -> (out: Cow<'_, str>)
    ensures
        out@ == fitted(text@, budget as int),
        bytes(text@) <= budget <==> out matches Cow::Borrowed(_),
{
    if byte_len(text) <= budget {
        return Cow::Borrowed(text);
    }
    if budget < 3 {
        return Cow::Owned(String::new());
    }
    let mut cut = head_within(text, budget - 3);
    cut.push(ELLIPSIS);
    Cow::Owned(cut)
}

/// The longest beginning of the text that takes at most `room` bytes.
pub fn head_within(text: &str, room: usize) -> (head: String)
    ensures
        head@ == text@.take(chars_within(text@, room as int)),
        bytes(head@) <= room,
{
    let chars = chars_of(text);
    let mut kept: usize = 0;
    let mut used: usize = 0;
    assert(text@.skip(0) =~= text@);
    while kept < chars.len() && char_len(chars[kept]) <= room - used
        invariant
            chars@ == text@,
            kept <= chars@.len(),
            used <= room,
            chars_within(text@, room as int) == kept + chars_within(
                text@.skip(kept as int),
                room - used,
            ),
        decreases chars@.len() - kept,
    {
        assert(text@.skip(kept as int).skip(1) =~= text@.skip(kept + 1));
        used += char_len(chars[kept]);
        kept += 1;
    }
    assert(chars_within(text@, room as int) == kept);
    assert(text@.subrange(0, kept as int) =~= text@.take(kept as int));
    proof {
        lemma_chars_within(text@, room as int);
    }
    text_between(chars.as_slice(), 0, kept)
}

/// The characters that are kept are as many as there is room for: those kept fit, and with the next
/// one they would not.
pub proof fn law_as_much_is_kept_as_fits(text: Seq<char>, room: int)
    requires
        room >= 0,
    ensures
        0 <= chars_within(text, room) <= text.len(),
        bytes(text.take(chars_within(text, room))) <= room,
        chars_within(text, room) < text.len() ==> bytes(text.take(chars_within(text, room)))
            + char_bytes(text[chars_within(text, room)]) > room,
    decreases text.len(),
{
    lemma_chars_within(text, room);
    if text.len() > 0 && char_bytes(text[0]) <= room {
        let rest = text.skip(1);
        law_as_much_is_kept_as_fits(rest, room - char_bytes(text[0]));
        let count = chars_within(rest, room - char_bytes(text[0]));
        assert(text.take(1 + count) =~= text.take(1) + rest.take(count));
        lemma_bytes_add(text.take(1), rest.take(count));
        assert(text.take(1).drop_last() =~= Seq::empty());
        assert(bytes(text.take(1).drop_last()) == 0);
    } else {
        assert(text.take(0) =~= Seq::empty());
    }
}

} // verus!
