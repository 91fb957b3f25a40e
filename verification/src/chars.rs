//! Text as a sequence of characters.
use vstd::prelude::*;

verus! {

broadcast use vstd::string::group_string_axioms;

/// `String::push` appends one character.
pub assume_specification[ String::push ](text: &mut String, c: char)
    ensures
        final(text)@ == old(text)@.push(c),
;

/// The characters of a text.
pub fn chars_of(text: &str) -> (chars: Vec<char>)
    ensures
        chars@ == text@,
{
    let mut chars: Vec<char> = Vec::new();
    for c in it: text.chars()
        invariant
            chars@ == it.seq().subrange(0, it.index()),
            it.seq() == text@,
    {
        chars.push(c);
    }
    chars
}

/// A text of its own with the characters of the one given.
pub fn copy(text: &str) -> (out: String)
    ensures
        out@ == text@,
{
    text.to_owned()
}

/// Whether two texts hold the same characters.
pub fn same_text(left: &str, right: &str) -> (same: bool)
    ensures
        same == (left@ == right@),
{
    broadcast use vstd::utf8::encode_utf8_decode_utf8;
    let a = left.as_bytes();
    let b = right.as_bytes();
    if a.len() != b.len() {
        return false;
    }
    for i in 0..a.len()
        invariant
            a@.len() == b@.len(),
            a@ == vstd::utf8::encode_utf8(left@),
            b@ == vstd::utf8::encode_utf8(right@),
            forall|j: int| 0 <= j < i ==> a@[j] == b@[j],
    {
        if a[i] != b[i] {
            assert(a@ != b@);
            return false;
        }
    }
    assert(a@ =~= b@);
    assert(vstd::utf8::decode_utf8(vstd::utf8::encode_utf8(left@)) == left@);
    assert(vstd::utf8::decode_utf8(vstd::utf8::encode_utf8(right@)) == right@);
    true
}

// ---------------------------------------------------------------------------
// Finding one text inside another

/// The pattern stands in the text at this position.
pub open spec fn occurs_at(text: Seq<char>, pattern: Seq<char>, at: int) -> bool {
    0 <= at && at + pattern.len() <= text.len() && text.subrange(at, at + pattern.len()) == pattern
}

/// The pattern stands somewhere in the text.
pub open spec fn occurs(text: Seq<char>, pattern: Seq<char>) -> bool {
    exists|at: int| occurs_at(text, pattern, at)
}

/// The first position, from `from` on, at which the pattern stands.
pub open spec fn first_from(text: Seq<char>, pattern: Seq<char>, from: int) -> Option<int>
    decreases text.len() + 1 - from,
{
    if from < 0 || from > text.len() {
        None
    } else if occurs_at(text, pattern, from) {
        Some(from)
    } else {
        first_from(text, pattern, from + 1)
    }
}

/// The last position, at or before `to`, at which the pattern stands.
pub open spec fn last_to(text: Seq<char>, pattern: Seq<char>, to: int) -> Option<int>
    decreases to + 1,
{
    if to < 0 {
        None
    } else if occurs_at(text, pattern, to) {
        Some(to)
    } else {
        last_to(text, pattern, to - 1)
    }
}

pub proof fn lemma_first_from(text: Seq<char>, pattern: Seq<char>, from: int)
    requires
        0 <= from,
    ensures
        match first_from(text, pattern, from) {
            Some(at) => from <= at && occurs_at(text, pattern, at) && forall|k: int|
                from <= k < at ==> !occurs_at(text, pattern, k),
            None => forall|k: int| from <= k ==> !occurs_at(text, pattern, k),
        },
    decreases text.len() + 1 - from,
{
    if from <= text.len() && !occurs_at(text, pattern, from) {
        lemma_first_from(text, pattern, from + 1);
    }
}

pub proof fn lemma_last_to(text: Seq<char>, pattern: Seq<char>, to: int)
    ensures
        match last_to(text, pattern, to) {
            Some(at) => 0 <= at <= to && occurs_at(text, pattern, at) && forall|k: int|
                at < k <= to ==> !occurs_at(text, pattern, k),
            None => forall|k: int| k <= to ==> !occurs_at(text, pattern, k),
        },
    decreases to + 1,
{
    if to >= 0 && !occurs_at(text, pattern, to) {
        lemma_last_to(text, pattern, to - 1);
    }
}

/// Whether the pattern stands in the characters at this position.
pub fn stands_at(text: &[char], pattern: &[char], at: usize) -> (found: bool)
    ensures
        found == occurs_at(text@, pattern@, at as int),
{
    if at > text.len() || pattern.len() > text.len() - at {
        return false;
    }
    let end: usize = at + pattern.len();
    for i in 0..pattern.len()
        invariant
            end == at + pattern@.len(),
            end <= text@.len(),
            forall|j: int| 0 <= j < i ==> text@[at + j] == pattern@[j],
    {
        if text[at + i] != pattern[i] {
            assert(text@.subrange(at as int, at + pattern@.len())[i as int] != pattern@[i as int]);
            return false;
        }
    }
    assert(text@.subrange(at as int, at + pattern@.len()) =~= pattern@);
    true
}

/// The first position, from `from` on, at which the pattern stands in the characters.
pub fn find_from(text: &[char], pattern: &[char], from: usize) -> (found: Option<usize>)
    ensures
        match found {
            Some(at) => first_from(text@, pattern@, from as int) == Some(at as int),
            None => first_from(text@, pattern@, from as int) is None,
        },
{
    let mut at: usize = from;
    while at <= text.len()
        invariant
            from <= at,
            at <= text@.len() + 1 || at == from,
            first_from(text@, pattern@, from as int) == first_from(text@, pattern@, at as int),
        decreases text@.len() + 1 - at,
    {
        if stands_at(text, pattern, at) {
            return Some(at);
        }
        if at == text.len() {
            assert(first_from(text@, pattern@, at + 1) is None);
            return None;
        }
        at += 1;
    }
    None
}

/// The last position at which the pattern stands in the characters.
pub fn find_last(text: &[char], pattern: &[char]) -> (found: Option<usize>)
    ensures
        match found {
            Some(at) => last_to(text@, pattern@, text@.len() as int) == Some(at as int),
            None => last_to(text@, pattern@, text@.len() as int) is None,
        },
{
    let mut at: usize = text.len();
    loop
        invariant
            at <= text@.len(),
            last_to(text@, pattern@, text@.len() as int) == last_to(text@, pattern@, at as int),
        decreases at,
    {
        if stands_at(text, pattern, at) {
            return Some(at);
        }
        if at == 0 {
            assert(last_to(text@, pattern@, -1) is None);
            return None;
        }
        at -= 1;
    }
}

/// Whether the pattern stands somewhere in the text.
pub fn contains(text: &str, pattern: &str) -> (found: bool)
    ensures
        found == occurs(text@, pattern@),
{
    proof {
        lemma_first_from(text@, pattern@, 0);
    }
    let chars = chars_of(text);
    let wanted = chars_of(pattern);
    match find_from(chars.as_slice(), wanted.as_slice(), 0) {
        Some(at) => true,
        None => {
            assert(forall|at: int| occurs_at(text@, pattern@, at) ==> 0 <= at);
            false
        },
    }
}

/// Whether the text begins with the pattern.
pub fn starts_with(text: &str, pattern: &str) -> (found: bool)
    ensures
        found == pattern@.is_prefix_of(text@),
{
    let chars = chars_of(text);
    let wanted = chars_of(pattern);
    stands_at(chars.as_slice(), wanted.as_slice(), 0)
}

/// Whether the text ends with the pattern.
pub fn ends_with(text: &str, pattern: &str) -> (found: bool)
    ensures
        found == pattern@.is_suffix_of(text@),
{
    let chars = chars_of(text);
    let wanted = chars_of(pattern);
    if wanted.len() > chars.len() {
        return false;
    }
    stands_at(chars.as_slice(), wanted.as_slice(), chars.len() - wanted.len())
}

/// What stands before and after the first place of the pattern in the text.
pub open spec fn split_once_spec(text: Seq<char>, pattern: Seq<char>) -> Option<
    (Seq<char>, Seq<char>),
> {
    match first_from(text, pattern, 0) {
        Some(at) => Some((text.subrange(0, at), text.skip(at + pattern.len()))),
        None => None,
    }
}

/// What stands before and after the last place of the pattern in the text.
pub open spec fn rsplit_once_spec(text: Seq<char>, pattern: Seq<char>) -> Option<
    (Seq<char>, Seq<char>),
> {
    match last_to(text, pattern, text.len() as int) {
        Some(at) => Some((text.subrange(0, at), text.skip(at + pattern.len()))),
        None => None,
    }
}

/// The two halves as texts, read as sequences.
pub open spec fn halves(pair: Option<(String, String)>) -> Option<(Seq<char>, Seq<char>)> {
    match pair {
        Some((head, tail)) => Some((head@, tail@)),
        None => None,
    }
}

/// The characters from `from` up to `to`, as a text.
pub fn text_between(chars: &[char], from: usize, to: usize) -> (text: String)
    requires
        from <= to <= chars@.len(),
    ensures
        text@ == chars@.subrange(from as int, to as int),
{
    let mut text = String::new();
    let mut i: usize = from;
    while i < to
        invariant
            from <= i <= to <= chars@.len(),
            text@ == chars@.subrange(from as int, i as int),
        decreases to - i,
    {
        text.push(chars[i]);
        assert(text@ =~= chars@.subrange(from as int, i + 1));
        i += 1;
    }
    text
}

pub fn split_once(text: &str, pattern: &str) -> (pair: Option<(String, String)>)
    ensures
        halves(pair) == split_once_spec(text@, pattern@),
{
    let chars = chars_of(text);
    let wanted = chars_of(pattern);
    let count: usize = chars.len();
    proof {
        lemma_first_from(text@, pattern@, 0);
    }
    match find_from(chars.as_slice(), wanted.as_slice(), 0) {
        Some(at) => Some(
            (
                text_between(chars.as_slice(), 0, at),
                text_between(chars.as_slice(), at + wanted.len(), count),
            ),
        ),
        None => None,
    }
}

pub fn rsplit_once(text: &str, pattern: &str) -> (pair: Option<(String, String)>)
    ensures
        halves(pair) == rsplit_once_spec(text@, pattern@),
{
    let chars = chars_of(text);
    let wanted = chars_of(pattern);
    let count: usize = chars.len();
    proof {
        lemma_last_to(text@, pattern@, text@.len() as int);
    }
    match find_last(chars.as_slice(), wanted.as_slice()) {
        Some(at) => Some(
            (
                text_between(chars.as_slice(), 0, at),
                text_between(chars.as_slice(), at + wanted.len(), count),
            ),
        ),
        None => None,
    }
}

/// The text after a leading pattern, if it begins with it.
pub fn strip_prefix(text: &str, pattern: &str) -> (rest: Option<String>)
    ensures
        match rest {
            Some(rest) => pattern@.is_prefix_of(text@) && rest@ == text@.skip(
                pattern@.len() as int,
            ),
            None => !pattern@.is_prefix_of(text@),
        },
{
    let chars = chars_of(text);
    let wanted = chars_of(pattern);
    if stands_at(chars.as_slice(), wanted.as_slice(), 0) {
        Some(text_between(chars.as_slice(), wanted.len(), chars.len()))
    } else {
        None
    }
}

/// The text before a trailing pattern, if it ends with it.
pub fn strip_suffix(text: &str, pattern: &str) -> (rest: Option<String>)
    ensures
        match rest {
            Some(rest) => pattern@.is_suffix_of(text@) && rest@ == text@.take(
                text@.len() - pattern@.len(),
            ),
            None => !pattern@.is_suffix_of(text@),
        },
{
    let chars = chars_of(text);
    let wanted = chars_of(pattern);
    if wanted.len() > chars.len() {
        return None;
    }
    let at: usize = chars.len() - wanted.len();
    if stands_at(chars.as_slice(), wanted.as_slice(), at) {
        Some(text_between(chars.as_slice(), 0, at))
    } else {
        None
    }
}

// ---------------------------------------------------------------------------
// Splitting and joining

/// The contents of a run of texts.
pub open spec fn views(texts: Seq<String>) -> Seq<Seq<char>> {
    texts.map_values(|text: String| text@)
}

/// The pieces between the places of the pattern, from `from` on.
pub open spec fn split_from(text: Seq<char>, pattern: Seq<char>, from: int) -> Seq<Seq<char>>
    decreases text.len() + 1 - from,
{
    match first_from(text, pattern, from) {
        Some(at) => if pattern.len() > 0 && from <= at && at + pattern.len() <= text.len() {
            seq![text.subrange(from, at)] + split_from(text, pattern, at + pattern.len())
        } else {
            seq![text.skip(from)]
        },
        None => seq![text.skip(from)],
    }
}

/// The pieces of a text between the places of a pattern.
pub open spec fn split_spec(text: Seq<char>, pattern: Seq<char>) -> Seq<Seq<char>> {
    split_from(text, pattern, 0)
}

pub fn split(text: &str, pattern: &str) -> (pieces: Vec<String>)
    requires
        pattern@.len() > 0,
    ensures
        views(pieces@) == split_spec(text@, pattern@),
        pieces@.len() > 0,
{
    let chars = chars_of(text);
    let wanted = chars_of(pattern);
    let mut pieces: Vec<String> = Vec::new();
    let mut from: usize = 0;
    let count: usize = chars.len();
    loop
        invariant
            count == chars@.len(),
            chars@ == text@,
            wanted@ == pattern@,
            pattern@.len() > 0,
            from <= chars@.len(),
            split_spec(text@, pattern@) == views(pieces@) + split_from(
                text@,
                pattern@,
                from as int,
            ),
        decreases chars@.len() - from,
    {
        proof {
            lemma_first_from(text@, pattern@, from as int);
        }
        let ghost before = pieces@;
        match find_from(chars.as_slice(), wanted.as_slice(), from) {
            Some(at) => {
                pieces.push(text_between(chars.as_slice(), from, at));
                assert(views(pieces@) =~= views(before).push(
                    text@.subrange(from as int, at as int),
                ));
                assert(split_spec(text@, pattern@) =~= views(pieces@) + split_from(
                    text@,
                    pattern@,
                    at + pattern@.len(),
                ));
                from = at + wanted.len();
            },
            None => {
                pieces.push(text_between(chars.as_slice(), from, chars.len()));
                assert(views(pieces@) =~= views(before) + seq![text@.skip(from as int)]);
                return pieces;
            },
        }
    }
}

/// The texts one after another with a separator between each two.
pub open spec fn join_spec(texts: Seq<Seq<char>>, separator: Seq<char>) -> Seq<char>
    decreases texts.len(),
{
    if texts.len() == 0 {
        Seq::empty()
    } else if texts.len() == 1 {
        texts[0]
    } else {
        join_spec(texts.drop_last(), separator) + separator + texts.last()
    }
}

pub fn join(texts: &[String], separator: &str) -> (out: String)
    ensures
        out@ == join_spec(views(texts@), separator@),
{
    let mut out = String::new();
    for i in 0..texts.len()
        invariant
            out@ == join_spec(views(texts@).take(i as int), separator@),
    {
        let ghost upto = views(texts@).take(i + 1);
        assert(upto.drop_last() =~= views(texts@).take(i as int));
        if i > 0 {
            out.append(separator);
            out.append(texts[i].as_str());
        } else {
            out.append(texts[i].as_str());
            assert(out@ =~= texts@[0]@);
        }
    }
    assert(views(texts@).take(texts@.len() as int) =~= views(texts@));
    out
}

/// The lines of a text: the pieces between line feeds, without a trailing carriage return,
/// and without an empty piece after a final line feed.
pub open spec fn lines_spec(text: Seq<char>) -> Seq<Seq<char>> {
    let pieces = split_spec(text, seq!['\n']);
    let whole = if pieces.len() > 0 && pieces.last().len() == 0 {
        pieces.drop_last()
    } else {
        pieces
    };
    Seq::new(
        whole.len(),
        |i: int| if i + 1 < pieces.len() { without_return(whole[i]) } else { whole[i] },
    )
}

/// The line without one trailing carriage return.
pub open spec fn without_return(line: Seq<char>) -> Seq<char> {
    if line.len() > 0 && line.last() == '\r' {
        line.drop_last()
    } else {
        line
    }
}

pub fn lines(text: &str) -> (lines: Vec<String>)
    ensures
        views(lines@) == lines_spec(text@),
{
    proof {
        reveal_strlit("\n");
        assert("\n"@ =~= seq!['\n']);
    }
    let pieces = split(text, "\n");
    let mut lines: Vec<String> = Vec::new();
    let count: usize = pieces.len();
    let ghost split_views = split_spec(text@, seq!['\n']);
    assert(split_views.last() == views(pieces@)[count - 1]);
    let whole: usize = if pieces[count - 1].as_str().is_empty() { count - 1 } else { count };
    for i in 0..whole
        invariant
            whole <= count,
            count == pieces@.len(),
            views(pieces@) == split_views,
            lines@.len() == i,
            forall|j: int|
                0 <= j < i ==> (#[trigger] lines@[j])@ == if j + 1 < count {
                    without_return(split_views[j])
                } else {
                    split_views[j]
                },
    {
        assert(split_views[i as int] == pieces@[i as int]@);
        if i + 1 < count {
            let chars = chars_of(pieces[i].as_str());
            if chars.len() > 0 && chars[chars.len() - 1] == '\r' {
                lines.push(text_between(chars.as_slice(), 0, chars.len() - 1));
            } else {
                lines.push(copy(pieces[i].as_str()));
            }
        } else {
            lines.push(copy(pieces[i].as_str()));
        }
    }
    assert(views(lines@) =~= lines_spec(text@));
    lines
}

// ---------------------------------------------------------------------------
// Characters and case

/// The character is white space in Unicode's sense.
pub open spec fn is_space(c: char) -> bool {
    let code = c as u32;
    0x09 <= code <= 0x0d || code == 0x20 || code == 0x85 || code == 0xa0 || code == 0x1680 || 0x2000
        <= code <= 0x200a || code == 0x2028 || code == 0x2029 || code == 0x202f || code == 0x205f
        || code == 0x3000
}

/// Whether the character is white space in Unicode's sense.
pub fn space(c: char) -> (found: bool)
    ensures
        found == is_space(c),
{
    let code: u32 = c as u32;
    (0x09 <= code && code <= 0x0d) || code == 0x20 || code == 0x85 || code == 0xa0 || code == 0x1680
        || (0x2000 <= code && code <= 0x200a) || code == 0x2028 || code == 0x2029 || code == 0x202f
        || code == 0x205f || code == 0x3000
}

/// The character is a control character: one of the first 32 code points, or one from 127 up
/// to 159.
pub open spec fn is_control(c: char) -> bool {
    (c as u32) < 0x20 || 0x7f <= (c as u32) <= 0x9f
}

/// `char::is_alphanumeric`, which goes by the Unicode tables of letters and numbers.
pub uninterp spec fn is_word_char(c: char) -> bool;

/// `char::is_alphanumeric`.
#[verifier::external_body]
pub(crate) fn word_char(c: char) -> (found: bool)
    ensures
        found == is_word_char(c),
{
    c.is_alphanumeric()
}

/// `str::to_lowercase`, which goes by the Unicode table of lower case.
pub uninterp spec fn lowercased(text: Seq<char>) -> Seq<char>;

/// `str::to_lowercase`.
#[verifier::external_body]
pub(crate) fn lowercase(text: &str) -> (out: String)
    ensures
        out@ == lowercased(text@),
{
    text.to_lowercase()
}

/// The text in double quotes as `{:?}` writes it, with the characters that need it escaped.
pub uninterp spec fn quoted(text: Seq<char>) -> Seq<char>;

/// The `{:?}` form of a `str`.
#[verifier::external_body]
pub(crate) fn quote(text: &str) -> (out: String)
    ensures
        out@ == quoted(text@),
{
    format!("{:?}", text)
}

/// The lower-case letter of an ASCII capital, any other character unchanged.
pub open spec fn ascii_lower_char(c: char) -> char {
    if 'A' <= c <= 'Z' {
        (c as u8 + 32) as u8 as char
    } else {
        c
    }
}

/// The text with every ASCII capital in lower case.
pub open spec fn ascii_lower_spec(text: Seq<char>) -> Seq<char> {
    text.map_values(|c: char| ascii_lower_char(c))
}

pub fn ascii_lower_one(c: char) -> (out: char)
    ensures
        out == ascii_lower_char(c),
{
    if 'A' <= c && c <= 'Z' {
        (c as u8 + 32) as char
    } else {
        c
    }
}

pub fn ascii_lower(text: &str) -> (out: String)
    ensures
        out@ == ascii_lower_spec(text@),
{
    let chars = chars_of(text);
    let mut out = String::new();
    for i in 0..chars.len()
        invariant
            out@ == ascii_lower_spec(chars@.take(i as int)),
    {
        out.push(ascii_lower_one(chars[i]));
        assert(ascii_lower_spec(chars@.take(i + 1)) =~= ascii_lower_spec(
            chars@.take(i as int),
        ).push(ascii_lower_char(chars@[i as int])));
    }
    assert(chars@.take(chars@.len() as int) =~= chars@);
    out
}

/// Whether two texts agree but for the case of ASCII letters.
pub fn same_ignoring_ascii_case(left: &str, right: &str) -> (same: bool)
    ensures
        same == (ascii_lower_spec(left@) == ascii_lower_spec(right@)),
{
    let a = ascii_lower(left);
    let b = ascii_lower(right);
    same_text(a.as_str(), b.as_str())
}

// ---------------------------------------------------------------------------
// Trimming

/// The text without the white space it begins with.
pub open spec fn trim_start_spec(text: Seq<char>) -> Seq<char>
    decreases text.len(),
{
    if text.len() > 0 && is_space(text[0]) {
        trim_start_spec(text.skip(1))
    } else {
        text
    }
}

/// The text without the white space it ends with.
pub open spec fn trim_end_spec(text: Seq<char>) -> Seq<char>
    decreases text.len(),
{
    if text.len() > 0 && is_space(text.last()) {
        trim_end_spec(text.drop_last())
    } else {
        text
    }
}

/// The text without the white space at its two ends.
pub open spec fn trim_spec(text: Seq<char>) -> Seq<char> {
    trim_end_spec(trim_start_spec(text))
}

pub fn trim(text: &str) -> (out: String)
    ensures
        out@ == trim_spec(text@),
{
    let chars = chars_of(text);
    let mut from: usize = 0;
    assert(text@.skip(0) =~= text@);
    while from < chars.len() && space(chars[from])
        invariant
            from <= chars@.len(),
            chars@ == text@,
            trim_start_spec(text@) == trim_start_spec(text@.skip(from as int)),
        decreases chars@.len() - from,
    {
        assert(text@.skip(from as int).skip(1) =~= text@.skip(from + 1));
        from += 1;
    }
    assert(trim_start_spec(text@) == text@.skip(from as int));
    let mut to: usize = chars.len();
    assert(text@.subrange(from as int, to as int) =~= text@.skip(from as int));
    while from < to && space(chars[to - 1])
        invariant
            from <= to <= chars@.len(),
            chars@ == text@,
            trim_spec(text@) == trim_end_spec(text@.subrange(from as int, to as int)),
        decreases to - from,
    {
        assert(text@.subrange(from as int, to as int).drop_last() =~= text@.subrange(
            from as int,
            to - 1,
        ));
        to -= 1;
    }
    text_between(chars.as_slice(), from, to)
}

/// The text without the run of one character that it ends with.
pub open spec fn trim_end_char(text: Seq<char>, c: char) -> Seq<char>
    decreases text.len(),
{
    if text.len() > 0 && text.last() == c {
        trim_end_char(text.drop_last(), c)
    } else {
        text
    }
}

/// The text without the run of one character that it begins with.
pub open spec fn trim_start_char(text: Seq<char>, c: char) -> Seq<char>
    decreases text.len(),
{
    if text.len() > 0 && text[0] == c {
        trim_start_char(text.skip(1), c)
    } else {
        text
    }
}

pub fn trim_end_of(text: &str, c: char) -> (out: String)
    ensures
        out@ == trim_end_char(text@, c),
{
    let chars = chars_of(text);
    let mut to: usize = chars.len();
    assert(text@.take(to as int) =~= text@);
    while 0 < to && chars[to - 1] == c
        invariant
            to <= chars@.len(),
            chars@ == text@,
            trim_end_char(text@, c) == trim_end_char(text@.take(to as int), c),
        decreases to,
    {
        assert(text@.take(to as int).drop_last() =~= text@.take(to - 1));
        to -= 1;
    }
    text_between(chars.as_slice(), 0, to)
}

pub fn trim_start_of(text: &str, c: char) -> (out: String)
    ensures
        out@ == trim_start_char(text@, c),
{
    let chars = chars_of(text);
    let mut from: usize = 0;
    assert(text@.skip(0) =~= text@);
    while from < chars.len() && chars[from] == c
        invariant
            from <= chars@.len(),
            chars@ == text@,
            trim_start_char(text@, c) == trim_start_char(text@.skip(from as int), c),
        decreases chars@.len() - from,
    {
        assert(text@.skip(from as int).skip(1) =~= text@.skip(from + 1));
        from += 1;
    }
    text_between(chars.as_slice(), from, chars.len())
}

/// The text with every place of one character taken by another.
pub open spec fn replaced(text: Seq<char>, from: char, to: char) -> Seq<char> {
    text.map_values(|c: char| if c == from { to } else { c })
}

pub fn replace(text: &str, from: char, to: char) -> (out: String)
    ensures
        out@ == replaced(text@, from, to),
{
    let chars = chars_of(text);
    let mut out = String::new();
    for i in 0..chars.len()
        invariant
            out@ == replaced(chars@.take(i as int), from, to),
    {
        let c = chars[i];
        out.push(if c == from { to } else { c });
        assert(replaced(chars@.take(i + 1), from, to) =~= replaced(
            chars@.take(i as int),
            from,
            to,
        ).push(if c == from { to } else { c }));
    }
    assert(chars@.take(chars@.len() as int) =~= chars@);
    out
}

/// What stands after the last place of the pattern, or the whole text where it has none.
pub open spec fn after_last_spec(text: Seq<char>, pattern: Seq<char>) -> Seq<char> {
    match rsplit_once_spec(text, pattern) {
        Some((_, tail)) => tail,
        None => text,
    }
}

pub fn after_last(text: &str, pattern: &str) -> (out: String)
    ensures
        out@ == after_last_spec(text@, pattern@),
{
    match rsplit_once(text, pattern) {
        Some((_, tail)) => tail,
        None => copy(text),
    }
}

/// What stands before the first place of the pattern, or the whole text where it has none.
pub open spec fn before_first_spec(text: Seq<char>, pattern: Seq<char>) -> Seq<char> {
    match split_once_spec(text, pattern) {
        Some((head, _)) => head,
        None => text,
    }
}

pub fn before_first(text: &str, pattern: &str) -> (out: String)
    ensures
        out@ == before_first_spec(text@, pattern@),
{
    match split_once(text, pattern) {
        Some((head, _)) => head,
        None => copy(text),
    }
}

/// The words of the first `count` characters: those already ended by white space, and the
/// one still open.
pub open spec fn words_upto(text: Seq<char>, count: int) -> (Seq<Seq<char>>, Seq<char>)
    decreases count,
{
    if count <= 0 {
        (Seq::empty(), Seq::empty())
    } else {
        let (done, open) = words_upto(text, count - 1);
        let c = text[count - 1];
        if !is_space(c) {
            (done, open.push(c))
        } else if open.len() > 0 {
            (done.push(open), Seq::empty())
        } else {
            (done, open)
        }
    }
}

/// The runs of characters between white space.
pub open spec fn words_spec(text: Seq<char>) -> Seq<Seq<char>> {
    let (done, open) = words_upto(text, text.len() as int);
    if open.len() > 0 {
        done.push(open)
    } else {
        done
    }
}

pub fn words(text: &str) -> (words: Vec<String>)
    ensures
        views(words@) == words_spec(text@),
{
    let chars = chars_of(text);
    let mut done: Vec<String> = Vec::new();
    let mut open = String::new();
    assert(views(done@) =~= Seq::empty());
    for i in 0..chars.len()
        invariant
            chars@ == text@,
            views(done@) == words_upto(text@, i as int).0,
            open@ == words_upto(text@, i as int).1,
    {
        let c = chars[i];
        if !space(c) {
            open.push(c);
        } else if !open.as_str().is_empty() {
            let ghost before = done@;
            done.push(open);
            assert(views(done@) =~= views(before).push(done@.last()@));
            open = String::new();
        }
    }
    if !open.as_str().is_empty() {
        let ghost before = done@;
        done.push(open);
        assert(views(done@) =~= views(before).push(done@.last()@));
    }
    done
}

// ---------------------------------------------------------------------------
// Putting texts together

pub fn cat2(a: &str, b: &str) -> (out: String)
    ensures
        out@ == a@ + b@,
{
    let mut out = copy(a);
    out.append(b);
    out
}

pub fn cat3(a: &str, b: &str, c: &str) -> (out: String)
    ensures
        out@ == a@ + b@ + c@,
{
    let mut out = cat2(a, b);
    out.append(c);
    out
}

pub fn cat4(a: &str, b: &str, c: &str, d: &str) -> (out: String)
    ensures
        out@ == a@ + b@ + c@ + d@,
{
    let mut out = cat3(a, b, c);
    out.append(d);
    out
}

pub fn cat5(a: &str, b: &str, c: &str, d: &str, e: &str) -> (out: String)
    ensures
        out@ == a@ + b@ + c@ + d@ + e@,
{
    let mut out = cat4(a, b, c, d);
    out.append(e);
    out
}

// ---------------------------------------------------------------------------
// Size in bytes

/// The bytes a character takes in UTF-8.
pub open spec fn char_bytes(c: char) -> nat {
    if (c as u32) < 0x80 {
        1
    } else if (c as u32) < 0x800 {
        2
    } else if (c as u32) < 0x10000 {
        3
    } else {
        4
    }
}

/// The bytes a text takes in UTF-8.
pub open spec fn bytes(text: Seq<char>) -> nat
    decreases text.len(),
{
    if text.len() == 0 {
        0
    } else {
        bytes(text.drop_last()) + char_bytes(text.last())
    }
}

pub proof fn lemma_bytes_add(left: Seq<char>, right: Seq<char>)
    ensures
        bytes(left + right) == bytes(left) + bytes(right),
    decreases right.len(),
{
    if right.len() == 0 {
        assert(left + right =~= left);
    } else {
        assert((left + right).drop_last() =~= left + right.drop_last());
        lemma_bytes_add(left, right.drop_last());
    }
}

pub proof fn lemma_bytes_encode(text: Seq<char>)
    ensures
        vstd::utf8::encode_utf8(text).len() == bytes(text),
    decreases text.len(),
{
    if text.len() > 0 {
        let first = text.take(1);
        let rest = text.drop_first();
        lemma_bytes_encode(rest);
        assert(text =~= first + rest);
        lemma_bytes_add(first, rest);
        assert(first.drop_last() =~= Seq::empty());
        assert(bytes(first.drop_last()) == 0);
        assert(bytes(first) == char_bytes(text[0]));
        let c: char = text[0];
        vstd::utf8::char_is_scalar(c);
        assert(vstd::utf8::encode_scalar(c as u32).len() == char_bytes(c));
    }
}

/// The bytes a text takes in UTF-8.
pub fn byte_len(text: &str) -> (count: usize)
    ensures
        count == bytes(text@),
{
    proof {
        lemma_bytes_encode(text@);
    }
    let encoded = text.as_bytes();
    encoded.len()
}

/// The bytes a character takes in UTF-8.
pub fn char_len(c: char) -> (count: usize)
    ensures
        count == char_bytes(c),
{
    let code: u32 = c as u32;
    if code < 0x80 {
        1
    } else if code < 0x800 {
        2
    } else if code < 0x10000 {
        3
    } else {
        4
    }
}

/// A text has no more characters than bytes.
pub proof fn lemma_len_within_bytes(text: Seq<char>)
    ensures
        text.len() <= bytes(text),
    decreases text.len(),
{
    if text.len() > 0 {
        lemma_len_within_bytes(text.drop_last());
    }
}

/// A text has at most one more piece than it has characters left.
pub proof fn lemma_split_count(text: Seq<char>, pattern: Seq<char>, from: int)
    requires
        0 <= from <= text.len(),
    ensures
        1 <= split_from(text, pattern, from).len() <= text.len() - from + 1,
    decreases text.len() + 1 - from,
{
    lemma_first_from(text, pattern, from);
    if let Some(at) = first_from(text, pattern, from) {
        if pattern.len() > 0 && from <= at && at + pattern.len() <= text.len() {
            lemma_split_count(text, pattern, at + pattern.len());
        }
    }
}

/// A text has at most one more line than it has bytes.
pub proof fn lemma_line_count(text: Seq<char>)
    ensures
        lines_spec(text).len() <= bytes(text) + 1,
{
    lemma_len_within_bytes(text);
    lemma_split_count(text, seq!['\n'], 0);
}

/// What occurs in a part of a text occurs in the text.
pub proof fn lemma_occurs_within(
    before: Seq<char>,
    middle: Seq<char>,
    after: Seq<char>,
    pattern: Seq<char>,
    at: int,
)
    requires
        occurs_at(middle, pattern, at),
        0 <= at,
    ensures
        occurs(before + middle + after, pattern),
{
    let whole = before + middle + after;
    assert(whole.subrange(before.len() + at, before.len() + at + pattern.len())
        =~= middle.subrange(at, at + pattern.len()));
    assert(occurs_at(whole, pattern, before.len() + at));
}

/// A text is split at the last of a character where none stands behind it.
pub proof fn lemma_rsplit_at(head: Seq<char>, mark: char, tail: Seq<char>)
    requires
        !tail.contains(mark),
    ensures
        rsplit_once_spec(head + seq![mark] + tail, seq![mark]) == Some((head, tail)),
{
    let text = head + seq![mark] + tail;
    let pattern = seq![mark];
    let at = head.len() as int;
    assert(text.subrange(at, at + 1) =~= pattern);
    lemma_last_mark(head, mark, tail, text.len() as int);
    assert(text.subrange(0, at) =~= head);
    assert(text.skip(at + 1) =~= tail);
}

proof fn lemma_last_mark(head: Seq<char>, mark: char, tail: Seq<char>, to: int)
    requires
        !tail.contains(mark),
        head.len() <= to <= head.len() + 1 + tail.len(),
        occurs_at(head + seq![mark] + tail, seq![mark], head.len() as int),
    ensures
        last_to(head + seq![mark] + tail, seq![mark], to) == Some(head.len() as int),
    decreases to,
{
    let text = head + seq![mark] + tail;
    if to > head.len() {
        if occurs_at(text, seq![mark], to) {
            assert(text.subrange(to, to + 1)[0] == text[to]);
            assert(text[to] == tail[to - head.len() - 1]);
            assert(tail.contains(mark));
        }
        lemma_last_mark(head, mark, tail, to - 1);
    }
}

/// A text without the character is not split at it.
pub proof fn lemma_no_rsplit(text: Seq<char>, mark: char, to: int)
    requires
        !text.contains(mark),
    ensures
        last_to(text, seq![mark], to) is None,
    decreases to + 1,
{
    if to >= 0 {
        if occurs_at(text, seq![mark], to) {
            assert(text.subrange(to, to + 1)[0] == text[to]);
            assert(text.contains(mark));
        }
        lemma_no_rsplit(text, mark, to - 1);
    }
}

// ---------------------------------------------------------------------------
// What the parts of a text are

/// A text is cut at the first place where the pattern stands: what stands before and behind the
/// cut, with the pattern between, is the text; and no cut leaves less before it. Where there is no
/// cut, the pattern stands nowhere.
pub proof fn law_a_text_is_cut_at_the_first(
    text: Seq<char>,
    pattern: Seq<char>,
    before: Seq<char>,
    after: Seq<char>,
)
    ensures
        match split_once_spec(text, pattern) {
            Some((head, rest)) => text == head + pattern + rest && (text == before + pattern + after
                ==> head.len() <= before.len()),
            None => text != before + pattern + after,
        },
{
    lemma_first_from(text, pattern, 0);
    if text == before + pattern + after {
        let at = before.len() as int;
        assert(text.subrange(at, at + pattern.len()) =~= pattern);
        assert(occurs_at(text, pattern, at));
    }
    match first_from(text, pattern, 0) {
        Some(at) => {
            assert(text =~= text.subrange(0, at) + text.subrange(at, at + pattern.len())
                + text.skip(at + pattern.len()));
        },
        None => {},
    }
}

/// A text is cut from behind at the last place where the pattern stands: no cut leaves more before
/// it.
pub proof fn law_a_text_is_cut_at_the_last(
    text: Seq<char>,
    pattern: Seq<char>,
    before: Seq<char>,
    after: Seq<char>,
)
    ensures
        match rsplit_once_spec(text, pattern) {
            Some((head, rest)) => text == head + pattern + rest && (text == before + pattern + after
                ==> before.len() <= head.len()),
            None => text != before + pattern + after,
        },
{
    lemma_last_to(text, pattern, text.len() as int);
    if text == before + pattern + after {
        let at = before.len() as int;
        assert(text.subrange(at, at + pattern.len()) =~= pattern);
        assert(occurs_at(text, pattern, at));
    }
    match last_to(text, pattern, text.len() as int) {
        Some(at) => {
            assert(text =~= text.subrange(0, at) + text.subrange(at, at + pattern.len())
                + text.skip(at + pattern.len()));
        },
        None => {},
    }
}

/// What stands behind the last mark is what holds no further mark.
pub proof fn lemma_after_last(head: Seq<char>, mark: Seq<char>, tail: Seq<char>)
    requires
        mark.len() > 0,
        !tail.contains(mark.last()),
    ensures
        after_last_spec(head + mark + tail, mark) == tail,
        rsplit_once_spec(head + mark + tail, mark) == Some((head, tail)),
{
    let text = head + mark + tail;
    law_a_text_is_cut_at_the_last(text, mark, head, tail);
    lemma_last_to(text, mark, text.len() as int);
    let at = last_to(text, mark, text.len() as int)->0;
    if at > head.len() {
        let end = at + mark.len() - 1;
        assert(text.subrange(at, at + mark.len())[mark.len() - 1] == text[end]);
        assert(text[end] == tail[end - head.len() - mark.len()]);
        assert(tail.contains(mark.last()));
    }
    assert(text.subrange(0, at) =~= head);
    assert(text.skip(at + mark.len()) =~= tail);
}

/// What stands before the first mark is what holds no mark.
pub proof fn lemma_before_first(head: Seq<char>, mark: char, tail: Seq<char>)
    requires
        !head.contains(mark),
    ensures
        before_first_spec(head, seq![mark]) == head,
        before_first_spec(head + seq![mark] + tail, seq![mark]) == head,
        !occurs(head, seq![mark]),
        occurs(head + seq![mark] + tail, seq![mark]),
{
    let pattern = seq![mark];
    let text = head + pattern + tail;
    lemma_first_from(head, pattern, 0);
    lemma_first_from(text, pattern, 0);
    assert forall|k: int| !occurs_at(head, pattern, k) by {
        if occurs_at(head, pattern, k) {
            assert(head.subrange(k, k + 1)[0] == head[k]);
            assert(head.contains(mark));
        }
    }
    let at = head.len() as int;
    assert(text.subrange(at, at + 1) =~= pattern);
    assert(occurs_at(text, pattern, at));
    let found = first_from(text, pattern, 0)->0;
    if found < at {
        assert(text.subrange(found, found + 1)[0] == text[found]);
        assert(head[found] == mark);
        assert(head.contains(mark));
    }
    assert(text.subrange(0, at) =~= head);
}

/// Splitting loses nothing: the pieces, joined again, are the text, and no piece holds the pattern.
pub proof fn law_pieces_join_back(text: Seq<char>, pattern: Seq<char>)
    requires
        pattern.len() > 0,
    ensures
        join_spec(split_spec(text, pattern), pattern) == text,
        split_spec(text, pattern).len() >= 1,
        forall|k: int|
            0 <= k < split_spec(text, pattern).len() ==> !occurs(
                #[trigger] split_spec(text, pattern)[k],
                pattern,
            ),
{
    lemma_pieces_join_back(text, pattern, 0);
    assert(text.skip(0) =~= text);
}

proof fn lemma_pieces_join_back(text: Seq<char>, pattern: Seq<char>, from: int)
    requires
        pattern.len() > 0,
        0 <= from <= text.len(),
    ensures
        join_spec(split_from(text, pattern, from), pattern) == text.skip(from),
        split_from(text, pattern, from).len() >= 1,
        forall|k: int|
            0 <= k < split_from(text, pattern, from).len() ==> !occurs(
                #[trigger] split_from(text, pattern, from)[k],
                pattern,
            ),
    decreases text.len() - from,
{
    lemma_first_from(text, pattern, from);
    let pieces = split_from(text, pattern, from);
    match first_from(text, pattern, from) {
        Some(at) => {
            let piece = text.subrange(from, at);
            let next = at + pattern.len();
            lemma_pieces_join_back(text, pattern, next);
            let rest = split_from(text, pattern, next);
            assert(pieces =~= seq![piece] + rest);
            lemma_join_first(piece, rest, pattern);
            assert(text.subrange(at, next) == pattern);
            assert(text.skip(from) =~= piece + text.subrange(at, next) + text.skip(next));
            assert forall|k: int| 0 <= k < pieces.len() implies !occurs(
                #[trigger] pieces[k],
                pattern,
            ) by {
                if k == 0 {
                    if occurs(piece, pattern) {
                        let p = choose|p: int| occurs_at(piece, pattern, p);
                        assert(text.subrange(from + p, from + p + pattern.len()) =~= piece.subrange(
                            p,
                            p + pattern.len(),
                        ));
                        assert(occurs_at(text, pattern, from + p));
                    }
                } else {
                    assert(pieces[k] == rest[k - 1]);
                }
            }
        },
        None => {
            let piece = text.skip(from);
            assert(pieces =~= seq![piece]);
            assert(pieces.drop_last() =~= Seq::empty());
            if occurs(piece, pattern) {
                let p = choose|p: int| occurs_at(piece, pattern, p);
                assert(text.subrange(from + p, from + p + pattern.len()) =~= piece.subrange(
                    p,
                    p + pattern.len(),
                ));
                assert(occurs_at(text, pattern, from + p));
            }
        },
    }
}

proof fn lemma_join_first(piece: Seq<char>, rest: Seq<Seq<char>>, pattern: Seq<char>)
    requires
        rest.len() >= 1,
    ensures
        join_spec(seq![piece] + rest, pattern) == piece + pattern + join_spec(rest, pattern),
    decreases rest.len(),
{
    let all = seq![piece] + rest;
    assert(all.last() == rest.last());
    assert(all.drop_last() =~= seq![piece] + rest.drop_last());
    if rest.len() == 1 {
        assert(all.drop_last() =~= seq![piece]);
        assert(join_spec(all.drop_last(), pattern) == piece);
        assert(join_spec(all, pattern) =~= piece + pattern + rest[0]);
    } else {
        lemma_join_first(piece, rest.drop_last(), pattern);
        assert(join_spec(all, pattern) =~= piece + pattern + join_spec(rest, pattern));
    }
}

/// Every character of the text is a space.
pub open spec fn all_space(text: Seq<char>) -> bool {
    forall|k: int| 0 <= k < text.len() ==> is_space(#[trigger] text[k])
}

proof fn lemma_trim_start(text: Seq<char>) -> (before: Seq<char>)
    ensures
        text == before + trim_start_spec(text),
        all_space(before),
        trim_start_spec(text).len() > 0 ==> !is_space(trim_start_spec(text)[0]),
    decreases text.len(),
{
    if text.len() > 0 && is_space(text[0]) {
        let before = lemma_trim_start(text.skip(1));
        let all = seq![text[0]] + before;
        assert(text =~= seq![text[0]] + text.skip(1));
        assert(text =~= all + trim_start_spec(text));
        all
    } else {
        assert(text =~= Seq::<char>::empty() + text);
        Seq::empty()
    }
}

proof fn lemma_trim_end(text: Seq<char>) -> (after: Seq<char>)
    ensures
        text == trim_end_spec(text) + after,
        all_space(after),
        trim_end_spec(text).len() > 0 ==> !is_space(trim_end_spec(text).last()),
    decreases text.len(),
{
    if text.len() > 0 && is_space(text.last()) {
        let after = lemma_trim_end(text.drop_last());
        let all = after.push(text.last());
        assert(text =~= text.drop_last().push(text.last()));
        assert(text =~= trim_end_spec(text) + all);
        all
    } else {
        assert(text =~= text + Seq::<char>::empty());
        Seq::empty()
    }
}

/// Trimming takes the spaces off both ends and nothing else.
pub proof fn law_trimming_takes_off_spaces(text: Seq<char>) -> (ends: (Seq<char>, Seq<char>))
    ensures
        text == ends.0 + trim_spec(text) + ends.1,
        all_space(ends.0),
        all_space(ends.1),
        trim_spec(text).len() > 0 ==> !is_space(trim_spec(text)[0]) && !is_space(
            trim_spec(text).last(),
        ),
{
    let before = lemma_trim_start(text);
    let open = trim_start_spec(text);
    let after = lemma_trim_end(open);
    assert(trim_spec(text) == trim_end_spec(open));
    assert(text =~= before + trim_spec(text) + after);
    if trim_spec(text).len() > 0 {
        assert(trim_spec(text)[0] == open[0]);
    }
    (before, after)
}

/// Lowering the case touches ASCII capitals and nothing else: every other character is kept, a
/// capital becomes a letter that is no capital, and two capitals never become one letter.
pub proof fn law_lowering_touches_only_capitals(a: char, b: char)
    ensures
        !('A' <= a <= 'Z') ==> ascii_lower_char(a) == a,
        'A' <= a <= 'Z' ==> 'a' <= ascii_lower_char(a) <= 'z' && ascii_lower_char(a) as int - 'a' as int
            == a as int - 'A' as int,
        'A' <= a <= 'Z' && 'A' <= b <= 'Z' && ascii_lower_char(a) == ascii_lower_char(b) ==> a == b,
{
}

proof fn lemma_open_word(text: Seq<char>, start: int, count: int)
    requires
        0 <= start <= count <= text.len(),
        start > 0 ==> is_space(text[start - 1]),
        forall|k: int| start <= k < count ==> !is_space(#[trigger] text[k]),
    ensures
        words_upto(text, count).1 == text.subrange(start, count),
    decreases count,
{
    if count > start {
        assert(!is_space(text[count - 1]));
        lemma_open_word(text, start, count - 1);
        assert(text.subrange(start, count) =~= text.subrange(start, count - 1).push(
            text[count - 1],
        ));
    } else {
        assert(text.subrange(start, count) =~= Seq::empty());
        if count > 0 {
            assert(words_upto(text, count).1.len() == 0);
        }
    }
}

proof fn lemma_words_stay(text: Seq<char>, fewer: int, more: int, word: Seq<char>)
    requires
        0 <= fewer <= more <= text.len(),
        words_upto(text, fewer).0.contains(word),
    ensures
        words_upto(text, more).0.contains(word),
    decreases more - fewer,
{
    if fewer < more {
        lemma_words_stay(text, fewer, more - 1, word);
        let before = words_upto(text, more - 1).0;
        let k = choose|k: int| 0 <= k < before.len() && before[k] == word;
        assert(words_upto(text, more).0[k] == word);
    }
}

/// Whatever stands between white space is a word.
pub proof fn law_every_word_is_found(text: Seq<char>, start: int, end: int)
    requires
        0 <= start < end <= text.len(),
        start > 0 ==> is_space(text[start - 1]),
        end < text.len() ==> is_space(text[end]),
        forall|k: int| start <= k < end ==> !is_space(#[trigger] text[k]),
    ensures
        words_spec(text).contains(text.subrange(start, end)),
{
    let word = text.subrange(start, end);
    lemma_open_word(text, start, end);
    let words = words_spec(text);
    if end < text.len() {
        let done = words_upto(text, end + 1).0;
        assert(done[done.len() - 1] == word);
        lemma_words_stay(text, end + 1, text.len() as int, word);
        let all = words_upto(text, text.len() as int).0;
        let k = choose|k: int| 0 <= k < all.len() && all[k] == word;
        assert(words[k] == word);
    } else {
        assert(words[words.len() - 1] == word);
    }
}

/// What occurs in a text still occurs where more is written before or behind it, and every text
/// occurs in itself.
pub proof fn lemma_occurs_grows()
    ensures
        forall|left: Seq<char>, right: Seq<char>, pattern: Seq<char>|
            occurs(left, pattern) || occurs(right, pattern) ==> #[trigger] occurs(
                left + right,
                pattern,
            ),
        forall|pattern: Seq<char>| #[trigger] occurs(pattern, pattern),
{
    assert forall|left: Seq<char>, right: Seq<char>, pattern: Seq<char>|
        occurs(left, pattern) || occurs(right, pattern) implies #[trigger] occurs(
        left + right,
        pattern,
    ) by {
        if occurs(left, pattern) {
            let at = choose|at: int| occurs_at(left, pattern, at);
            lemma_occurs_within(Seq::empty(), left, right, pattern, at);
            assert(Seq::empty() + left + right =~= left + right);
        } else {
            let at = choose|at: int| occurs_at(right, pattern, at);
            lemma_occurs_within(left, right, Seq::empty(), pattern, at);
            assert(left + right + Seq::empty() =~= left + right);
        }
    }
    assert forall|pattern: Seq<char>| #[trigger] occurs(pattern, pattern) by {
        assert(pattern.subrange(0, pattern.len() as int) =~= pattern);
        assert(occurs_at(pattern, pattern, 0));
    }
}

} // verus!
