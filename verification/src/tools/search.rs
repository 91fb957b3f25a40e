//! Searching for symbols, and the seeds behind explore.
use crate::chars::{
    ascii_lower_spec, byte_len, bytes, cat3, chars_of, contains, copy, join, join_spec, lowercase,
    lowercased, lemma_no_rsplit, lemma_rsplit_at, occurs, occurs_at, quote, quoted, rsplit_once,
    rsplit_once_spec, same_ignoring_ascii_case, same_text, starts_with, trim, trim_spec, views,
};
use crate::cursor::{
    next_text, next_text_line, note_line, note_text, slice, slice_spec, Page,
};
use crate::fx::{texts_held, texts_insert, texts_new};
use crate::graph::Node;
use crate::limits::{
    CONTENT_SEED_NODES_MAX, EXPLORE_COVERAGE_CHECK_MAX, SEARCH_FETCH_MAX, SEARCH_FETCH_MIN,
    SEARCH_FUZZY_SLACK_MAX, SEARCH_OVERFETCH,
};
use crate::numbers::{self, lemma_indices};
use crate::order::{
    arrange, arranged, indices, key_view, keys_view, law_arranging_keeps_the_items,
    law_arranging_sorts, lemma_not_after, sorted_order, Part, PartView,
};
use crate::rank::{
    defines, kind_rank, kind_rank_spec, law_what_leads_is_listed_first, leads, listing_key_spec,
    on_a_par, path_penalty, path_penalty_spec, positions_valid, push_listing_key,
};
use crate::render::{node_lines, node_lines_spec};
use crate::symbols::{
    coverage_checkable, definition_kind, ends_at_boundary, is_coverage_checkable,
    is_definition_kind, qualified_name_ends_with,
};
use rustc_hash::FxHashSet;
use vstd::prelude::*;

verus! {

// ---------------------------------------------------------------------------
// Listing order

/// The positions in the order a listing shows their nodes.
pub open spec fn listing_sorted(nodes: Seq<Node>, positions: Seq<usize>) -> Seq<usize> {
    arranged(positions, positions.map_values(|p: usize| listing_key_spec(nodes[p as int])))
}

/// The positions sorted so that definitions lead references, hand-written source leads tests and
/// generated files, and ties are broken by where each node is defined.
pub fn sort_listing(nodes: &[Node], positions: &[usize]) -> (sorted: Vec<usize>)
    requires
        positions_valid(nodes@, positions@),
    ensures
        sorted@ == listing_sorted(nodes@, positions@),
        sorted@.len() == positions@.len(),
        positions_valid(nodes@, sorted@),
{
    let ghost wanted = positions@.map_values(|p: usize| listing_key_spec(nodes@[p as int]));
    let mut keys: Vec<Vec<Part>> = Vec::new();
    for i in 0..positions.len()
        invariant
            positions_valid(nodes@, positions@),
            wanted == positions@.map_values(|p: usize| listing_key_spec(nodes@[p as int])),
            keys_view(keys@) == wanted.take(i as int),
    {
        let ghost before = keys@;
        assert(positions@[i as int] < nodes@.len());
        let mut key: Vec<Part> = Vec::new();
        push_listing_key(&mut key, &nodes[positions[i]]);
        assert(key_view(key) =~= wanted[i as int]);
        keys.push(key);
        assert(keys_view(keys@) =~= keys_view(before).push(wanted[i as int]));
        assert(wanted.take(i + 1) =~= wanted.take(i as int).push(wanted[i as int]));
    }
    assert(wanted.take(positions@.len() as int) =~= wanted);
    assert(keys@.len() == keys_view(keys@).len());
    let sorted = arrange(positions, &keys);
    proof {
        lemma_members_valid(nodes@, positions@, sorted@);
    }
    sorted
}

/// Positions drawn from valid ones are valid.
pub proof fn lemma_members_valid(nodes: Seq<Node>, positions: Seq<usize>, drawn: Seq<usize>)
    requires
        positions_valid(nodes, positions),
        forall|k: int| 0 <= k < drawn.len() ==> positions.contains(#[trigger] drawn[k]),
    ensures
        positions_valid(nodes, drawn),
{
    assert forall|k: int| 0 <= k < drawn.len() implies #[trigger] drawn[k] < nodes.len() by {
        assert(positions.contains(drawn[k]));
        let i = choose|i: int| 0 <= i < positions.len() && positions[i] == drawn[k];
        assert(positions[i] < nodes.len());
    }
}

// ---------------------------------------------------------------------------
// Search

/// How many rows a search fetches.
pub open spec fn search_fetch_spec(limit: int) -> int {
    let wide = limit * SEARCH_OVERFETCH;
    let clamped = if wide < SEARCH_FETCH_MIN {
        SEARCH_FETCH_MIN as int
    } else if wide > SEARCH_FETCH_MAX {
        SEARCH_FETCH_MAX as int
    } else {
        wide
    };
    if clamped >= limit {
        clamped
    } else {
        limit
    }
}

/// How many rows a search fetches: past the limit, so ranking sees more than the window it
/// fills, but never fewer than asked for.
pub fn search_fetch(limit: u32) -> (count: u32)
    ensures
        count == search_fetch_spec(limit as int),
        count >= limit,
{
    let clamped: u32 = if limit < 16 {
        SEARCH_FETCH_MIN
    } else if limit > 50 {
        SEARCH_FETCH_MAX
    } else {
        limit * SEARCH_OVERFETCH
    };
    if clamped >= limit {
        clamped
    } else {
        limit
    }
}

/// Some node before `count` has this id.
pub open spec fn id_before(nodes: Seq<Node>, id: Seq<char>, count: int) -> bool {
    exists|k: int| 0 <= k < count && (#[trigger] nodes[k]).id@ == id
}

/// The first `found` nodes, then those of the rest whose id has not come before, up to `count`.
pub open spec fn merged(nodes: Seq<Node>, found: int, count: int) -> Seq<usize>
    decreases count,
{
    if count <= 0 {
        Seq::empty()
    } else if count <= found || !id_before(nodes, nodes[count - 1].id@, count - 1) {
        merged(nodes, found, count - 1).push((count - 1) as usize)
    } else {
        merged(nodes, found, count - 1)
    }
}

/// The positions of a result followed by additions to it: the first `found` nodes, then those of
/// the rest that were not seen before.
pub fn merge_by_id(nodes: &[Node], found: usize) -> (positions: Vec<usize>)
    requires
        found <= nodes@.len(),
    ensures
        positions@ == merged(nodes@, found as int, nodes@.len() as int),
        positions_valid(nodes@, positions@),
{
    let mut seen: FxHashSet<String> = texts_new();
    let mut positions: Vec<usize> = Vec::new();
    for i in 0..nodes.len()
        invariant
            found <= nodes@.len(),
            positions@ == merged(nodes@, found as int, i as int),
            positions_valid(nodes@, positions@),
            forall|id: Seq<char>|
                #[trigger] texts_held(seen).contains(id) <==> id_before(nodes@, id, i as int),
    {
        let ghost held = texts_held(seen);
        let fresh = texts_insert(&mut seen, nodes[i].id.as_str());
        proof {
            assert forall|id: Seq<char>|
                #[trigger] texts_held(seen).contains(id) <==> id_before(nodes@, id, i + 1) by {
                if id_before(nodes@, id, i + 1) && id != nodes@[i as int].id@ {
                    let k = choose|k: int| 0 <= k < i + 1 && (#[trigger] nodes@[k]).id@ == id;
                    assert(id_before(nodes@, id, i as int));
                    assert(held.contains(id));
                }
                if id == nodes@[i as int].id@ {
                    assert(nodes@[i as int].id@ == id);
                } else if held.contains(id) {
                    let k = choose|k: int| 0 <= k < i && (#[trigger] nodes@[k]).id@ == id;
                    assert(nodes@[k].id@ == id);
                }
            }
        }
        if i < found || fresh {
            positions.push(i);
        }
    }
    positions
}

/// The characters of the needle stand in the haystack in order.
pub open spec fn subsequence(needle: Seq<char>, haystack: Seq<char>) -> bool
    decreases haystack.len(),
{
    if needle.len() == 0 {
        true
    } else if haystack.len() == 0 {
        false
    } else if needle[0] == haystack[0] {
        subsequence(needle.skip(1), haystack.skip(1))
    } else {
        subsequence(needle, haystack.skip(1))
    }
}

/// Whether every character of `needle` appears in `haystack` in order.
pub fn is_subsequence(needle: &str, haystack: &str) -> (found: bool)
    ensures
        found == subsequence(needle@, haystack@),
{
    let wanted = chars_of(needle);
    let available = chars_of(haystack);
    let mut i: usize = 0;
    let mut j: usize = 0;
    assert(needle@.skip(0) =~= needle@);
    assert(haystack@.skip(0) =~= haystack@);
    while i < wanted.len() && j < available.len()
        invariant
            wanted@ == needle@,
            available@ == haystack@,
            i <= wanted@.len(),
            j <= available@.len(),
            subsequence(needle@, haystack@) == subsequence(
                needle@.skip(i as int),
                haystack@.skip(j as int),
            ),
        decreases available@.len() - j,
    {
        assert(needle@.skip(i as int).skip(1) =~= needle@.skip(i + 1));
        assert(haystack@.skip(j as int).skip(1) =~= haystack@.skip(j + 1));
        if wanted[i] == available[j] {
            i += 1;
        }
        j += 1;
    }
    i == wanted.len()
}

/// The witnesses of a subsequence: increasing places of the haystack that spell the needle.
pub open spec fn spells(needle: Seq<char>, haystack: Seq<char>, places: Seq<int>) -> bool {
    &&& places.len() == needle.len()
    &&& forall|i: int|
        0 <= i < places.len() ==> 0 <= #[trigger] places[i] < haystack.len() && haystack[places[i]]
            == needle[i]
    &&& forall|i: int, j: int| 0 <= i < j < places.len() ==> places[i] < places[j]
}

/// A needle that is found stands in the haystack at increasing places.
pub proof fn law_subsequence_has_places(needle: Seq<char>, haystack: Seq<char>) -> (places: Seq<int>)
    requires
        subsequence(needle, haystack),
    ensures
        spells(needle, haystack, places),
    decreases haystack.len(),
{
    if needle.len() == 0 {
        Seq::empty()
    } else if needle[0] == haystack[0] {
        let rest = law_subsequence_has_places(needle.skip(1), haystack.skip(1));
        let places = Seq::new(needle.len(), |i: int| if i == 0 { 0int } else { rest[i - 1] + 1 });
        assert forall|i: int| 0 <= i < places.len() implies 0 <= #[trigger] places[i]
            < haystack.len() && haystack[places[i]] == needle[i] by {
            if i > 0 {
                assert(haystack.skip(1)[rest[i - 1]] == needle.skip(1)[i - 1]);
            }
        }
        places
    } else {
        let rest = law_subsequence_has_places(needle, haystack.skip(1));
        let places = rest.map_values(|p: int| p + 1);
        assert forall|i: int| 0 <= i < places.len() implies 0 <= #[trigger] places[i]
            < haystack.len() && haystack[places[i]] == needle[i] by {
            assert(haystack.skip(1)[rest[i]] == needle[i]);
        }
        places
    }
}

/// A definition whose name reads as a misspelling of the needle.
pub open spec fn near_miss(node: Node, needle: Seq<char>) -> bool {
    let wanted = lowercased(needle);
    let name = lowercased(node.name@);
    definition_kind(node.kind) && bytes(name) <= bytes(wanted) + SEARCH_FUZZY_SLACK_MAX
        && subsequence(wanted, name)
}

/// The positions, below `count`, of the definitions that read as a misspelling of the needle.
pub open spec fn near_misses(nodes: Seq<Node>, needle: Seq<char>, count: int) -> Seq<usize>
    decreases count,
{
    if count <= 0 {
        Seq::empty()
    } else if near_miss(nodes[count - 1], needle) {
        near_misses(nodes, needle, count - 1).push((count - 1) as usize)
    } else {
        near_misses(nodes, needle, count - 1)
    }
}

/// The sort key of a near miss: the shortest name first, then as a listing.
pub open spec fn near_miss_key(node: Node) -> Seq<PartView> {
    seq![
        PartView::Number(bytes(node.name@) as int),
        PartView::Number(path_penalty_spec(node.in_generated_file, node.in_test_file)),
    ] + listing_key_spec(node)
}

/// The near misses, closest first.
pub open spec fn fuzzy_spec(nodes: Seq<Node>, needle: Seq<char>) -> Seq<usize> {
    let found = near_misses(nodes, needle, nodes.len() as int);
    if needle.len() == 0 {
        Seq::empty()
    } else {
        arranged(found, found.map_values(|p: usize| near_miss_key(nodes[p as int])))
    }
}

/// The definitions whose names read as a misspelling of `needle`: every query character appears
/// in the name in order, and the name is not much longer than the query. Closest by length
/// first.
pub fn fuzzy_nodes(nodes: &[Node], needle: &str) -> (found: Vec<usize>)
    ensures
        found@ == fuzzy_spec(nodes@, needle@),
        positions_valid(nodes@, found@),
{
    if needle.is_empty() {
        return Vec::new();
    }
    let wanted = lowercase(needle);
    let size: usize = byte_len(wanted.as_str());
    let mut found: Vec<usize> = Vec::new();
    for i in 0..nodes.len()
        invariant
            wanted@ == lowercased(needle@),
            size == bytes(wanted@),
            found@ == near_misses(nodes@, needle@, i as int),
            positions_valid(nodes@, found@),
    {
        if is_definition_kind(nodes[i].kind) {
            let name = lowercase(nodes[i].name.as_str());
            let length: usize = byte_len(name.as_str());
            if (length <= size || length - size <= SEARCH_FUZZY_SLACK_MAX) && is_subsequence(
                wanted.as_str(),
                name.as_str(),
            ) {
                found.push(i);
            }
        }
    }
    let ghost key_list = found@.map_values(|p: usize| near_miss_key(nodes@[p as int]));
    let mut keys: Vec<Vec<Part>> = Vec::new();
    for i in 0..found.len()
        invariant
            positions_valid(nodes@, found@),
            key_list == found@.map_values(|p: usize| near_miss_key(nodes@[p as int])),
            keys_view(keys@) == key_list.take(i as int),
    {
        let ghost before = keys@;
        assert(found@[i as int] < nodes@.len());
        let node = &nodes[found[i]];
        let mut key: Vec<Part> = Vec::new();
        key.push(Part::Number(byte_len(node.name.as_str()) as i128));
        key.push(
            Part::Number(path_penalty(node.in_generated_file, node.in_test_file) as i128),
        );
        push_listing_key(&mut key, node);
        assert(key_view(key) =~= key_list[i as int]);
        keys.push(key);
        assert(keys_view(keys@) =~= keys_view(before).push(key_list[i as int]));
        assert(key_list.take(i + 1) =~= key_list.take(i as int).push(key_list[i as int]));
    }
    assert(key_list.take(found@.len() as int) =~= key_list);
    assert(keys@.len() == keys_view(keys@).len());
    let sorted = arrange(found.as_slice(), &keys);
    proof {
        lemma_members_valid(nodes@, found@, sorted@);
    }
    sorted
}

/// The sort key of a match: source before tests, definitions before references, an exact name
/// before a prefix before the rest, then as a listing.
pub open spec fn match_key(node: Node, needle: Seq<char>) -> Seq<PartView> {
    seq![
        PartView::Number(path_penalty_spec(node.in_generated_file, node.in_test_file)),
        PartView::Number(kind_rank_spec(node.kind)),
        PartView::Number(
            if ascii_lower_spec(node.name@) == ascii_lower_spec(needle) {
                0int
            } else {
                1
            },
        ),
        PartView::Number(
            if lowercased(needle).is_prefix_of(lowercased(node.name@)) {
                0int
            } else {
                1
            },
        ),
    ] + listing_key_spec(node)
}

/// The matches in the order a search lists them.
pub open spec fn match_sorted(nodes: Seq<Node>, positions: Seq<usize>, needle: Seq<char>) -> Seq<
    usize,
> {
    arranged(positions, positions.map_values(|p: usize| match_key(nodes[p as int], needle)))
}

fn sort_matches(nodes: &[Node], positions: &[usize], needle: &str) -> (sorted: Vec<usize>)
    requires
        positions_valid(nodes@, positions@),
    ensures
        sorted@ == match_sorted(nodes@, positions@, needle@),
        sorted@.len() == positions@.len(),
        positions_valid(nodes@, sorted@),
{
    let lower = lowercase(needle);
    let ghost wanted = positions@.map_values(|p: usize| match_key(nodes@[p as int], needle@));
    let mut keys: Vec<Vec<Part>> = Vec::new();
    for i in 0..positions.len()
        invariant
            positions_valid(nodes@, positions@),
            lower@ == lowercased(needle@),
            wanted == positions@.map_values(|p: usize| match_key(nodes@[p as int], needle@)),
            keys_view(keys@) == wanted.take(i as int),
    {
        let ghost before = keys@;
        assert(positions@[i as int] < nodes@.len());
        let node = &nodes[positions[i]];
        let name = lowercase(node.name.as_str());
        let mut key: Vec<Part> = Vec::new();
        key.push(
            Part::Number(path_penalty(node.in_generated_file, node.in_test_file) as i128),
        );
        key.push(Part::Number(kind_rank(node.kind) as i128));
        key.push(
            Part::Number(
                if same_ignoring_ascii_case(node.name.as_str(), needle) {
                    0
                } else {
                    1
                },
            ),
        );
        key.push(
            Part::Number(
                if starts_with(name.as_str(), lower.as_str()) {
                    0
                } else {
                    1
                },
            ),
        );
        push_listing_key(&mut key, node);
        assert(key_view(key) =~= wanted[i as int]);
        keys.push(key);
        assert(keys_view(keys@) =~= keys_view(before).push(wanted[i as int]));
        assert(wanted.take(i + 1) =~= wanted.take(i as int).push(wanted[i as int]));
    }
    assert(wanted.take(positions@.len() as int) =~= wanted);
    assert(keys@.len() == keys_view(keys@).len());
    let sorted = arrange(positions, &keys);
    proof {
        lemma_members_valid(nodes@, positions@, sorted@);
    }
    sorted
}

/// One page of a search.
pub open spec fn search_page(
    nodes: Seq<Node>,
    positions: Seq<usize>,
    misspelled: bool,
    query: Seq<char>,
    limit: u32,
    page: Page,
    generation: u64,
) -> Seq<char> {
    let sorted = match_sorted(nodes, positions, trim_spec(query));
    let window = slice_spec(sorted, page.offset as int, limit as int);
    let head = if misspelled {
        "no exact match for "@ + quoted(query) + "; closest names:\n"@
    } else {
        ""@
    };
    note_text(page) + head + node_lines_spec(nodes, indices(window), window.len() as int)
        + next_text(
        page.offset as int,
        window.len() as int,
        positions.len() as int,
        generation,
    )
}

/// The answer to a search: over the matches where there are any, else over the near misses of
/// the names that were scanned.
pub open spec fn search_text_spec(
    nodes: Seq<Node>,
    found: int,
    scanned: Seq<Node>,
    query: Seq<char>,
    limit: u32,
    page: Page,
    generation: u64,
) -> Seq<char> {
    let matches = merged(nodes, found, nodes.len() as int);
    let near = fuzzy_spec(scanned, trim_spec(query));
    if matches.len() > 0 {
        search_page(nodes, matches, false, query, limit, page, generation)
    } else if near.len() > 0 {
        search_page(scanned, near, true, query, limit, page, generation)
    } else {
        "no symbols matching "@ + quoted(query) + "\n"@
    }
}

fn render_search(
    nodes: &[Node],
    positions: &[usize],
    misspelled: bool,
    query: &str,
    limit: u32,
    page: &Page,
    generation: u64,
) -> (text: String)
    requires
        positions_valid(nodes@, positions@),
    ensures
        text@ == search_page(nodes@, positions@, misspelled, query@, limit, *page, generation),
{
    let needle = trim(query);
    let sorted = sort_matches(nodes, positions, needle.as_str());
    let window = slice(sorted.as_slice(), page.offset, limit as usize);
    assert(positions_valid(nodes@, window@)) by {
        assert forall|i: int| 0 <= i < window@.len() implies #[trigger] window@[i]
            < nodes@.len() by {
            assert(window@[i] == sorted@[page.offset + i]);
        }
    }
    let mut text = note_line(page);
    let head = if misspelled {
        cat3("no exact match for ", quote(query).as_str(), "; closest names:\n")
    } else {
        copy("")
    };
    text.append(head.as_str());
    text.append(node_lines(nodes, window).as_str());
    text.append(
        next_text_line(page.offset, window.len(), positions.len(), generation).as_str(),
    );
    text
}

/// The symbols matching `query`, ranked and rendered, one page at a time. `nodes` holds the
/// `found` hits of the full-text index followed by those named exactly as asked, so a symbol is
/// never missing from its own search; `scanned` holds the names to look for a misspelling in,
/// read only where nothing matched.
pub fn search_text(
    nodes: &[Node],
    found: usize,
    scanned: &[Node],
    query: &str,
    limit: u32,
    page: &Page,
    generation: u64,
) -> (text: String)
    requires
        found <= nodes@.len(),
    ensures
        text@ == search_text_spec(
            nodes@,
            found as int,
            scanned@,
            query@,
            limit,
            *page,
            generation,
        ),
{
    let matches = merge_by_id(nodes, found);
    if matches.len() > 0 {
        return render_search(nodes, matches.as_slice(), false, query, limit, page, generation);
    }
    let needle = trim(query);
    let near = fuzzy_nodes(scanned, needle.as_str());
    if near.len() > 0 {
        return render_search(scanned, near.as_slice(), true, query, limit, page, generation);
    }
    cat3("no symbols matching ", quote(query).as_str(), "\n")
}

// ---------------------------------------------------------------------------
// Seeds

/// What a lookup of a symbol has asked the store for so far.
#[derive(Clone, Copy, Debug, PartialEq, Eq, Structural)]
pub enum SeedStage {
    /// Nothing yet.
    Start,
    /// The nodes with this qualified name.
    Qualified,
    /// The routes with this reverse name.
    Reverse,
    /// The nodes named like the last part of the dotted name.
    Member,
    /// The nodes with this name.
    Named,
    /// The nodes whose name ends in this path.
    Suffix,
}

/// What a lookup does next: ask for nodes by a text, or answer with some of those it was handed.
pub enum SeedStep {
    Ask(SeedStage, String),
    Answer(Vec<usize>),
}

/// The next step of a lookup, as a value.
pub enum SeedView {
    Ask(SeedStage, Seq<char>),
    Answer(Seq<usize>),
}

impl View for SeedStep {
    type V = SeedView;

    open spec fn view(&self) -> SeedView {
        match self {
            SeedStep::Ask(stage, text) => SeedView::Ask(*stage, text@),
            SeedStep::Answer(positions) => SeedView::Answer(positions@),
        }
    }
}

/// Asking by name: a dotted name by its last part, any other as it is.
pub open spec fn ask_by_name(symbol: Seq<char>) -> SeedView {
    match rsplit_once_spec(symbol, "."@) {
        Some((_, member)) => if member.len() > 0 {
            SeedView::Ask(SeedStage::Member, member)
        } else {
            SeedView::Ask(SeedStage::Named, symbol)
        },
        None => SeedView::Ask(SeedStage::Named, symbol),
    }
}

/// Asking by reverse name where the symbol carries single colons, else by name.
pub open spec fn ask_by_reverse(symbol: Seq<char>) -> SeedView {
    if occurs(symbol, ":"@) && !occurs(symbol, "::"@) {
        SeedView::Ask(SeedStage::Reverse, symbol)
    } else {
        ask_by_name(symbol)
    }
}

/// The first `count` positions.
pub open spec fn every_position(count: int) -> Seq<usize>
    decreases count,
{
    if count <= 0 {
        Seq::empty()
    } else {
        every_position(count - 1).push((count - 1) as usize)
    }
}

/// The positions, below `count`, of the nodes whose qualified name ends in the symbol.
pub open spec fn owned_positions(nodes: Seq<Node>, symbol: Seq<char>, count: int) -> Seq<usize>
    decreases count,
{
    if count <= 0 {
        Seq::empty()
    } else if ends_at_boundary(nodes[count - 1].qualified_name@, symbol) {
        owned_positions(nodes, symbol, count - 1).push((count - 1) as usize)
    } else {
        owned_positions(nodes, symbol, count - 1)
    }
}

/// The next step of a lookup, given what the last question brought.
pub open spec fn seed_step_spec(symbol: Seq<char>, stage: SeedStage, found: Seq<Node>) -> SeedView {
    let everything = SeedView::Answer(
        listing_sorted(found, every_position(found.len() as int)),
    );
    match stage {
        SeedStage::Start => if occurs(symbol, "::"@) {
            SeedView::Ask(SeedStage::Qualified, symbol)
        } else {
            ask_by_reverse(symbol)
        },
        SeedStage::Qualified => if found.len() > 0 {
            everything
        } else {
            ask_by_reverse(symbol)
        },
        SeedStage::Reverse => if found.len() > 0 {
            everything
        } else {
            ask_by_name(symbol)
        },
        SeedStage::Member => {
            let owned = owned_positions(found, symbol, found.len() as int);
            if owned.len() > 0 {
                SeedView::Answer(listing_sorted(found, owned))
            } else {
                SeedView::Ask(SeedStage::Named, symbol)
            }
        },
        SeedStage::Named => if found.len() > 0 {
            everything
        } else {
            SeedView::Ask(SeedStage::Suffix, symbol)
        },
        SeedStage::Suffix => everything,
    }
}

fn all_positions(count: usize) -> (positions: Vec<usize>)
    ensures
        positions@ == every_position(count as int),
        positions@.len() == count,
        forall|i: int| 0 <= i < positions@.len() ==> #[trigger] positions@[i] == i,
{
    let mut positions: Vec<usize> = Vec::new();
    for i in 0..count
        invariant
            positions@ == every_position(i as int),
            positions@.len() == i,
            forall|k: int| 0 <= k < i ==> #[trigger] positions@[k] == k,
    {
        positions.push(i);
    }
    positions
}

fn step_by_name(symbol: &str) -> (step: SeedStep)
    ensures
        step@ == ask_by_name(symbol@),
{
    match rsplit_once(symbol, ".") {
        Some((_, member)) => if !member.as_str().is_empty() {
            SeedStep::Ask(SeedStage::Member, member)
        } else {
            SeedStep::Ask(SeedStage::Named, copy(symbol))
        },
        None => SeedStep::Ask(SeedStage::Named, copy(symbol)),
    }
}

fn step_by_reverse(symbol: &str) -> (step: SeedStep)
    ensures
        step@ == ask_by_reverse(symbol@),
{
    if contains(symbol, ":") && !contains(symbol, "::") {
        SeedStep::Ask(SeedStage::Reverse, copy(symbol))
    } else {
        step_by_name(symbol)
    }
}

fn answer_all(found: &[Node]) -> (step: SeedStep)
    ensures
        step@ == SeedView::Answer(listing_sorted(found@, every_position(found@.len() as int))),
{
    let positions = all_positions(found.len());
    SeedStep::Answer(sort_listing(found, positions.as_slice()))
}

/// The lookup of the nodes a tool's `symbol` argument names, one question to the store at a time:
/// by qualified name, by reverse name, by name, and last by file name. A dotted argument
/// (`Class.method`) targets one overload: the member name fetches candidates and the dotted tail
/// filters them to the owner the caller meant. The answer lists definitions ahead of references.
pub fn seed_nodes(symbol: &str, stage: SeedStage, found: &[Node]) -> (step: SeedStep)
    requires
        symbol@.len() > 0,
    ensures
        step@ == seed_step_spec(symbol@, stage, found@),
{
    match stage {
        SeedStage::Start => if contains(symbol, "::") {
            SeedStep::Ask(SeedStage::Qualified, copy(symbol))
        } else {
            step_by_reverse(symbol)
        },
        SeedStage::Qualified => if found.len() > 0 {
            answer_all(found)
        } else {
            step_by_reverse(symbol)
        },
        SeedStage::Reverse => if found.len() > 0 {
            answer_all(found)
        } else {
            step_by_name(symbol)
        },
        SeedStage::Member => {
            let mut owned: Vec<usize> = Vec::new();
            for i in 0..found.len()
                invariant
                    symbol@.len() > 0,
                    owned@ == owned_positions(found@, symbol@, i as int),
                    positions_valid(found@, owned@),
            {
                if qualified_name_ends_with(found[i].qualified_name.as_str(), symbol) {
                    owned.push(i);
                }
            }
            if owned.len() > 0 {
                SeedStep::Answer(sort_listing(found, owned.as_slice()))
            } else {
                SeedStep::Ask(SeedStage::Named, copy(symbol))
            }
        },
        SeedStage::Named => if found.len() > 0 {
            answer_all(found)
        } else {
            SeedStep::Ask(SeedStage::Suffix, copy(symbol))
        },
        SeedStage::Suffix => answer_all(found),
    }
}

/// How far a lookup has come: each question is asked at most once.
pub open spec fn seed_rank(stage: SeedStage) -> int {
    match stage {
        SeedStage::Start => 0,
        SeedStage::Qualified => 1,
        SeedStage::Reverse => 2,
        SeedStage::Member => 3,
        SeedStage::Named => 4,
        SeedStage::Suffix => 5,
    }
}

/// A lookup always moves on, so it ends after at most five questions.
pub proof fn law_lookup_ends(symbol: Seq<char>, stage: SeedStage, found: Seq<Node>)
    ensures
        match seed_step_spec(symbol, stage, found) {
            SeedView::Ask(next, _) => seed_rank(next) > seed_rank(stage),
            SeedView::Answer(_) => true,
        },
        seed_step_spec(symbol, SeedStage::Suffix, found) is Answer,
{
}

/// The positions, below `count`, of the definitions, at most so many.
pub open spec fn definitions_upto(nodes: Seq<Node>, count: int, max: int) -> Seq<usize>
    decreases count,
{
    if count <= 0 {
        Seq::empty()
    } else {
        let rest = definitions_upto(nodes, count - 1, max);
        if definition_kind(nodes[count - 1].kind) && rest.len() < max {
            rest.push((count - 1) as usize)
        } else {
            rest
        }
    }
}

/// The definition nodes among those of the files whose body content matches a query, to seed
/// explore's structural ranking. Only behavior-defining kinds are seeded, a bounded number of
/// them.
pub fn content_seed_nodes(nodes: &[Node]) -> (seeds: Vec<usize>)
    ensures
        seeds@ == definitions_upto(
            nodes@,
            nodes@.len() as int,
            CONTENT_SEED_NODES_MAX as int,
        ),
        positions_valid(nodes@, seeds@),
        seeds@.len() <= CONTENT_SEED_NODES_MAX,
{
    let mut seeds: Vec<usize> = Vec::new();
    for i in 0..nodes.len()
        invariant
            seeds@ == definitions_upto(nodes@, i as int, CONTENT_SEED_NODES_MAX as int),
            positions_valid(nodes@, seeds@),
            seeds@.len() <= CONTENT_SEED_NODES_MAX,
    {
        if is_definition_kind(nodes[i].kind) && seeds.len() < CONTENT_SEED_NODES_MAX {
            seeds.push(i);
        }
    }
    seeds
}

/// How many of the first `count` nodes a reader would test directly.
pub open spec fn checkable_before(nodes: Seq<Node>, count: int) -> int
    decreases count,
{
    if count <= 0 {
        0
    } else {
        checkable_before(nodes, count - 1) + if coverage_checkable(nodes[count - 1]) {
            1int
        } else {
            0
        }
    }
}

/// The seeds whose coverage is checked: the first few a reader would test directly, without
/// those that are tests themselves.
pub open spec fn coverage_seeds(nodes: Seq<Node>, count: int) -> Seq<usize>
    decreases count,
{
    if count <= 0 {
        Seq::empty()
    } else {
        let rest = coverage_seeds(nodes, count - 1);
        let node = nodes[count - 1];
        if coverage_checkable(node) && checkable_before(nodes, count - 1)
            < EXPLORE_COVERAGE_CHECK_MAX && !node.in_test_file {
            rest.push((count - 1) as usize)
        } else {
            rest
        }
    }
}

/// The definition seeds an explore checks for test coverage: a handful, so the note stays cheap.
pub fn coverage_candidates(seeds: &[Node]) -> (candidates: Vec<usize>)
    ensures
        candidates@ == coverage_seeds(seeds@, seeds@.len() as int),
        positions_valid(seeds@, candidates@),
{
    let mut candidates: Vec<usize> = Vec::new();
    let mut checked: usize = 0;
    for i in 0..seeds.len()
        invariant
            candidates@ == coverage_seeds(seeds@, i as int),
            positions_valid(seeds@, candidates@),
            checked == (if checkable_before(seeds@, i as int) < EXPLORE_COVERAGE_CHECK_MAX {
                checkable_before(seeds@, i as int)
            } else {
                EXPLORE_COVERAGE_CHECK_MAX as int
            }),
    {
        if is_coverage_checkable(&seeds[i]) {
            if checked < EXPLORE_COVERAGE_CHECK_MAX {
                checked += 1;
                if !seeds[i].in_test_file {
                    candidates.push(i);
                }
            }
        }
    }
    candidates
}

/// The names of the uncovered symbols that the answer shows, without one that repeats the one
/// before it.
pub open spec fn uncovered_names(
    uncovered: Seq<(String, String)>,
    emitted: Seq<Seq<char>>,
) -> Seq<Seq<char>>
    decreases uncovered.len(),
{
    if uncovered.len() == 0 {
        Seq::empty()
    } else {
        let rest = uncovered_names(uncovered.drop_last(), emitted);
        let (id, name) = uncovered.last();
        if emitted.contains(id@) && !(rest.len() > 0 && rest.last() == name@) {
            rest.push(name@)
        } else {
            rest
        }
    }
}

/// The note on the uncovered symbols that the answer shows.
pub open spec fn coverage_note_spec(
    uncovered: Seq<(String, String)>,
    emitted: Seq<Seq<char>>,
) -> Seq<char> {
    let names = uncovered_names(uncovered, emitted);
    if names.len() == 0 {
        ""@
    } else {
        "note: no covering tests for: "@ + join_spec(names, ", "@)
            + " (verify before editing)\n\n"@
    }
}

fn holds_text(texts: &[String], wanted: &str) -> (found: bool)
    ensures
        found == views(texts@).contains(wanted@),
{
    for i in 0..texts.len()
        invariant
            forall|k: int| 0 <= k < i ==> views(texts@)[k] != wanted@,
    {
        if same_text(texts[i].as_str(), wanted) {
            assert(views(texts@)[i as int] == wanted@);
            return true;
        }
    }
    assert(texts@.len() == views(texts@).len());
    false
}

/// A one-line "no covering tests" flag naming only the uncovered seeds, given by id and name,
/// that the render actually emitted, so the note and the body talk about the same symbols.
pub fn explore_coverage_note(uncovered: &[(String, String)], emitted: &[String]) -> (note: String)
    ensures
        note@ == coverage_note_spec(uncovered@, views(emitted@)),
{
    let mut names: Vec<String> = Vec::new();
    assert(views(names@) =~= uncovered_names(uncovered@.take(0), views(emitted@)));
    for i in 0..uncovered.len()
        invariant
            views(names@) == uncovered_names(uncovered@.take(i as int), views(emitted@)),
    {
        assert(uncovered@.take(i + 1).drop_last() =~= uncovered@.take(i as int));
        assert(names@.len() == views(names@).len());
        let count: usize = names.len();
        let repeated: bool = if count > 0 {
            assert(views(names@).last() == names@[count - 1]@);
            same_text(names[count - 1].as_str(), uncovered[i].1.as_str())
        } else {
            false
        };
        if holds_text(emitted, uncovered[i].0.as_str()) && !repeated {
            let ghost before = names@;
            names.push(copy(uncovered[i].1.as_str()));
            assert(views(names@) =~= views(before).push(uncovered@[i as int].1@));
        }
    }
    assert(uncovered@.take(uncovered@.len() as int) =~= uncovered@);
    assert(names@.len() == views(names@).len());
    if names.len() == 0 {
        return copy("");
    }
    cat3(
        "note: no covering tests for: ",
        join(names.as_slice(), ", ").as_str(),
        " (verify before editing)\n\n",
    )
}

/// The ids and names of those of the first `count` candidates that no test covers.
pub open spec fn uncovered_upto(
    seeds: Seq<Node>,
    candidates: Seq<usize>,
    covered: Seq<bool>,
    count: int,
) -> Seq<(Seq<char>, Seq<char>)>
    decreases count,
{
    if count <= 0 {
        Seq::empty()
    } else {
        let rest = uncovered_upto(seeds, candidates, covered, count - 1);
        let node = seeds[candidates[count - 1] as int];
        if covered[count - 1] {
            rest
        } else {
            rest.push((node.id@, node.name@))
        }
    }
}

/// Pairs of texts as values.
pub open spec fn text_pairs(pairs: Seq<(String, String)>) -> Seq<(Seq<char>, Seq<char>)> {
    pairs.map_values(|pair: (String, String)| (pair.0@, pair.1@))
}

/// The seeds of an explore that no test covers, by id and name. `covered` says of each seed checked
/// whether some test covers it.
pub fn explore_uncovered_seeds(seeds: &[Node], covered: &[bool]) -> (uncovered: Vec<
    (String, String),
>)
    requires
        covered@.len() >= coverage_seeds(seeds@, seeds@.len() as int).len(),
    ensures
        text_pairs(uncovered@) == uncovered_upto(
            seeds@,
            coverage_seeds(seeds@, seeds@.len() as int),
            covered@,
            coverage_seeds(seeds@, seeds@.len() as int).len() as int,
        ),
{
    let candidates = coverage_candidates(seeds);
    let mut uncovered: Vec<(String, String)> = Vec::new();
    assert(text_pairs(uncovered@) =~= Seq::empty());
    for i in 0..candidates.len()
        invariant
            positions_valid(seeds@, candidates@),
            candidates@.len() <= covered@.len(),
            text_pairs(uncovered@) == uncovered_upto(seeds@, candidates@, covered@, i as int),
    {
        let ghost before = uncovered@;
        assert(candidates@[i as int] < seeds@.len());
        let node = &seeds[candidates[i]];
        if !covered[i] {
            uncovered.push((copy(node.id.as_str()), copy(node.name.as_str())));
            assert(text_pairs(uncovered@) =~= text_pairs(before).push((node.id@, node.name@)));
        }
    }
    uncovered
}

/// A symbol that was found, by the index or by its exact name, is never missing from the search:
/// its id stands among the merged results.
pub proof fn law_nothing_found_is_missing(nodes: Seq<Node>, found: int, count: int, at: int)
    requires
        0 <= at < count <= nodes.len(),
        nodes.len() <= usize::MAX,
    ensures
        exists|k: int|
            0 <= k < merged(nodes, found, count).len() && nodes[(#[trigger] merged(
                nodes,
                found,
                count,
            )[k]) as int].id@ == nodes[at].id@,
    decreases count,
{
    let before = merged(nodes, found, count - 1);
    let after = merged(nodes, found, count);
    if at < count - 1 {
        law_nothing_found_is_missing(nodes, found, count - 1, at);
        let k = choose|k: int|
            0 <= k < before.len() && nodes[(#[trigger] before[k]) as int].id@ == nodes[at].id@;
        assert(after[k] == before[k]);
    } else if after.len() > before.len() {
        assert(after[before.len() as int] == at);
    } else {
        assert(id_before(nodes, nodes[at].id@, at));
        let earlier = choose|k: int| 0 <= k < at && (#[trigger] nodes[k]).id@ == nodes[at].id@;
        law_nothing_found_is_missing(nodes, found, count - 1, earlier);
        let k = choose|k: int|
            0 <= k < before.len() && nodes[(#[trigger] before[k]) as int].id@
                == nodes[earlier].id@;
        assert(after[k] == before[k]);
    }
}

/// The coverage note names only symbols that the answer shows.
pub proof fn law_note_names_only_what_is_shown(
    uncovered: Seq<(String, String)>,
    emitted: Seq<Seq<char>>,
    at: int,
)
    requires
        0 <= at < uncovered_names(uncovered, emitted).len(),
    ensures
        exists|k: int|
            0 <= k < uncovered.len() && emitted.contains((#[trigger] uncovered[k]).0@)
                && uncovered[k].1@ == uncovered_names(uncovered, emitted)[at],
    decreases uncovered.len(),
{
    let rest = uncovered_names(uncovered.drop_last(), emitted);
    if at < rest.len() {
        law_note_names_only_what_is_shown(uncovered.drop_last(), emitted, at);
        let k = choose|k: int|
            0 <= k < uncovered.drop_last().len() && emitted.contains(
                (#[trigger] uncovered.drop_last()[k]).0@,
            ) && uncovered.drop_last()[k].1@ == rest[at];
        assert(uncovered[k] == uncovered.drop_last()[k]);
    } else {
        assert(uncovered[uncovered.len() - 1] == uncovered.last());
    }
}

// ---------------------------------------------------------------------------
// What a search finds, and in which order

/// A listing never shows a node behind one that it leads.
pub proof fn law_a_listing_is_in_order(nodes: Seq<Node>, positions: Seq<usize>, a: int, b: int)
    requires
        0 <= a < b < positions.len(),
    ensures
        ({
            let sorted = listing_sorted(nodes, positions);
            !leads(nodes[sorted[b] as int], nodes[sorted[a] as int])
        }),
{
    let keys = positions.map_values(|p: usize| listing_key_spec(nodes[p as int]));
    law_arranging_sorts(keys, a, b);
    let sorted = listing_sorted(nodes, positions);
    let (i, j) = (sorted_order(keys)[a], sorted_order(keys)[b]);
    assert(sorted[a] == positions[i] && sorted[b] == positions[j]);
    if leads(nodes[sorted[b] as int], nodes[sorted[a] as int]) {
        law_what_leads_is_listed_first(nodes[sorted[b] as int], nodes[sorted[a] as int]);
    }
}

/// One match is to be shown before another: hand-written source before tests, and both before
/// generated files; then what defines something before what does not; then the very name that was
/// asked for, and then a name that begins with it.
pub open spec fn shown_before(left: Node, right: Node, needle: Seq<char>) -> bool {
    let exact = |node: Node| ascii_lower_spec(node.name@) == ascii_lower_spec(needle);
    let begins = |node: Node| lowercased(needle).is_prefix_of(lowercased(node.name@));
    let same = left.in_generated_file == right.in_generated_file && (left.in_generated_file
        || left.in_test_file == right.in_test_file);
    let par = same && on_a_par(left.kind, right.kind);
    ||| !left.in_generated_file && right.in_generated_file
    ||| !left.in_generated_file && !left.in_test_file && right.in_test_file
    ||| same && defines(left.kind) && !defines(right.kind)
    ||| par && exact(left) && !exact(right)
    ||| par && exact(left) == exact(right) && begins(left) && !begins(right)
}

/// A search never shows a match behind one that is to be shown after it.
pub proof fn law_matches_are_in_order(
    nodes: Seq<Node>,
    positions: Seq<usize>,
    needle: Seq<char>,
    a: int,
    b: int,
)
    requires
        0 <= a < b < positions.len(),
    ensures
        ({
            let sorted = match_sorted(nodes, positions, needle);
            !shown_before(nodes[sorted[b] as int], nodes[sorted[a] as int], needle)
        }),
{
    let keys = positions.map_values(|p: usize| match_key(nodes[p as int], needle));
    law_arranging_sorts(keys, a, b);
    let sorted = match_sorted(nodes, positions, needle);
    let (i, j) = (sorted_order(keys)[a], sorted_order(keys)[b]);
    assert(sorted[a] == positions[i] && sorted[b] == positions[j]);
    let (left, right) = (keys[i], keys[j]);
    lemma_not_after(left, right);
    if left[0] == right[0] {
        lemma_not_after(left.skip(1), right.skip(1));
        assert(left.skip(1)[0] == left[1] && right.skip(1)[0] == right[1]);
        if left[1] == right[1] {
            lemma_not_after(left.skip(1).skip(1), right.skip(1).skip(1));
            assert(left.skip(1).skip(1)[0] == left[2] && right.skip(1).skip(1)[0] == right[2]);
            if left[2] == right[2] {
                lemma_not_after(left.skip(1).skip(1).skip(1), right.skip(1).skip(1).skip(1));
                assert(left.skip(1).skip(1).skip(1)[0] == left[3]);
                assert(right.skip(1).skip(1).skip(1)[0] == right[3]);
            }
        }
    }
}

/// What was added to the matches is something new: no node before it has its id. And the matches
/// themselves are all there.
pub proof fn law_additions_are_new(nodes: Seq<Node>, found: int, at: int)
    requires
        0 <= at < nodes.len() <= usize::MAX,
    ensures
        merged(nodes, found, nodes.len() as int).contains(at as usize) <==> at < found || forall|
            k: int,
        |
            0 <= k < at ==> (#[trigger] nodes[k]).id@ != nodes[at].id@,
{
    lemma_merged_holds(nodes, found, nodes.len() as int, at);
    if id_before(nodes, nodes[at].id@, at) {
        let k = choose|k: int| 0 <= k < at && (#[trigger] nodes[k]).id@ == nodes[at].id@;
        assert(nodes[k].id@ == nodes[at].id@);
    }
}

/// A needle whose characters stand in the haystack at increasing places is found.
pub proof fn law_increasing_places_are_found(
    needle: Seq<char>,
    haystack: Seq<char>,
    places: Seq<int>,
)
    requires
        spells(needle, haystack, places),
    ensures
        subsequence(needle, haystack),
    decreases haystack.len(),
{
    if needle.len() > 0 {
        assert(0 <= places[0] < haystack.len());
        if needle[0] == haystack[0] {
            let rest = Seq::new((needle.len() - 1) as nat, |i: int| places[i + 1] - 1);
            assert forall|i: int| 0 <= i < rest.len() implies 0 <= #[trigger] rest[i]
                < haystack.skip(1).len() && haystack.skip(1)[rest[i]] == needle.skip(1)[i] by {
                assert(places[0] < places[i + 1]);
                assert(haystack[places[i + 1]] == needle[i + 1]);
            }
            assert forall|i: int, j: int| 0 <= i < j < rest.len() implies rest[i] < rest[j] by {
                assert(places[i + 1] < places[j + 1]);
            }
            law_increasing_places_are_found(needle.skip(1), haystack.skip(1), rest);
        } else {
            assert(places[0] != 0);
            let rest = places.map_values(|p: int| p - 1);
            assert forall|i: int| 0 <= i < rest.len() implies 0 <= #[trigger] rest[i]
                < haystack.skip(1).len() && haystack.skip(1)[rest[i]] == needle[i] by {
                if i > 0 {
                    assert(places[0] < places[i]);
                }
                assert(haystack[places[i]] == needle[i]);
            }
            law_increasing_places_are_found(needle, haystack.skip(1), rest);
        }
    }
}

/// The near misses are the definitions whose name spells the needle out, in order and whatever the
/// case, and is not much longer; all of them, and nothing else.
pub proof fn law_near_misses_spell_the_needle(nodes: Seq<Node>, needle: Seq<char>, at: int)
    requires
        0 <= at < nodes.len() <= usize::MAX,
    ensures
        near_misses(nodes, needle, nodes.len() as int).contains(at as usize) <==> {
            let node = nodes[at];
            &&& node.kind is Class || node.kind is Function || node.kind is Method || node.kind
                is Model || node.kind is Route || node.kind is View
            &&& bytes(lowercased(node.name@)) <= bytes(lowercased(needle)) + SEARCH_FUZZY_SLACK_MAX
            &&& exists|places: Seq<int>|
                spells(lowercased(needle), lowercased(node.name@), places)
        },
{
    lemma_near_misses(nodes, needle, nodes.len() as int, at);
    let (wanted, name) = (lowercased(needle), lowercased(nodes[at].name@));
    if subsequence(wanted, name) {
        let places = law_subsequence_has_places(wanted, name);
        assert(spells(wanted, name, places));
    }
    if exists|places: Seq<int>| spells(wanted, name, places) {
        let places = choose|places: Seq<int>| spells(wanted, name, places);
        law_increasing_places_are_found(wanted, name, places);
    }
}

/// A search reads at least what was asked for and enough to rank, and no more than its cap unless
/// more was asked for; in between, the same multiple of what was asked for.
pub proof fn law_a_search_reads_enough(limit: int)
    requires
        0 <= limit,
    ensures
        search_fetch_spec(limit) >= limit,
        search_fetch_spec(limit) >= SEARCH_FETCH_MIN,
        search_fetch_spec(limit) <= SEARCH_FETCH_MAX || search_fetch_spec(limit) == limit,
        SEARCH_FETCH_MIN <= SEARCH_OVERFETCH * limit <= SEARCH_FETCH_MAX ==> search_fetch_spec(limit)
            == SEARCH_OVERFETCH * limit,
{
}

// ---------------------------------------------------------------------------
// What a symbol argument names

proof fn lemma_every_position(count: int)
    requires
        0 <= count <= usize::MAX,
    ensures
        every_position(count).len() == count,
        forall|k: int| 0 <= k < count ==> #[trigger] every_position(count)[k] == k,
    decreases count,
{
    if count > 0 {
        lemma_every_position(count - 1);
    }
}

/// A plain name is looked up by that name, and everything of the name is the answer.
pub proof fn law_a_plain_name_is_looked_up_as_it_is(symbol: Seq<char>, found: Seq<Node>, at: int)
    requires
        !symbol.contains('.'),
        !symbol.contains(':'),
        0 <= at < found.len() <= usize::MAX,
    ensures
        seed_step_spec(symbol, SeedStage::Start, Seq::empty()) == SeedView::Ask(
            SeedStage::Named,
            symbol,
        ),
        seed_step_spec(symbol, SeedStage::Named, found) matches SeedView::Answer(positions)
            && positions.contains(at as usize) && positions.len() == found.len(),
        seed_step_spec(symbol, SeedStage::Named, Seq::empty()) == SeedView::Ask(
            SeedStage::Suffix,
            symbol,
        ),
        seed_step_spec(symbol, SeedStage::Suffix, found) matches SeedView::Answer(positions)
            && positions.contains(at as usize) && positions.len() == found.len(),
{
    reveal_strlit(".");
    reveal_strlit(":");
    reveal_strlit("::");
    assert("."@ =~= seq!['.']);
    lemma_no_rsplit(symbol, '.', symbol.len() as int);
    assert forall|k: int| !occurs_at(symbol, ":"@, k) by {
        if occurs_at(symbol, ":"@, k) {
            assert(symbol.subrange(k, k + 1)[0] == symbol[k]);
            assert(symbol.contains(':'));
        }
    }
    assert forall|k: int| !occurs_at(symbol, "::"@, k) by {
        if occurs_at(symbol, "::"@, k) {
            assert(symbol.subrange(k, k + 2)[0] == symbol[k]);
            assert(symbol.contains(':'));
        }
    }
    lemma_everything_is_listed(found, at);
}

proof fn lemma_everything_is_listed(found: Seq<Node>, at: int)
    requires
        0 <= at < found.len() <= usize::MAX,
    ensures
        listing_sorted(found, every_position(found.len() as int)).contains(at as usize),
        listing_sorted(found, every_position(found.len() as int)).len() == found.len(),
{
    let positions = every_position(found.len() as int);
    lemma_every_position(found.len() as int);
    law_arranging_keeps_the_items(
        positions,
        positions.map_values(|p: usize| listing_key_spec(found[p as int])),
    );
    assert(positions[at] == at as usize);
}

/// A dotted name is looked up by its last part, and of what that finds exactly the symbols whose
/// qualified name ends in the whole of it, at a boundary between names, are the answer.
pub proof fn law_a_dotted_name_means_its_owner(
    owner: Seq<char>,
    member: Seq<char>,
    found: Seq<Node>,
    at: int,
)
    requires
        !owner.contains(':'),
        member.len() > 0,
        !member.contains('.'),
        !member.contains(':'),
        0 <= at < found.len() <= usize::MAX,
    ensures
        ({
            let symbol = owner + seq!['.'] + member;
            let qualified = found[at].qualified_name@;
            &&& seed_step_spec(symbol, SeedStage::Start, Seq::empty()) == SeedView::Ask(
                SeedStage::Member,
                member,
            )
            &&& seed_step_spec(symbol, SeedStage::Member, found) matches SeedView::Answer(positions)
                ==> (positions.contains(at as usize) <==> qualified == symbol || exists|
                head: Seq<char>,
            |
                qualified == #[trigger] (head + symbol) && head.len() > 0 && (head.last() == '.' || (
                head.len() > 1 && head.last() == ':' && head[head.len() - 2] == ':')))
            &&& qualified == symbol || (exists|head: Seq<char>|
                qualified == #[trigger] (head + symbol) && head.len() > 0 && head.last() == '.')
                ==> seed_step_spec(symbol, SeedStage::Member, found) is Answer
        }),
{
    reveal_strlit(".");
    reveal_strlit(":");
    reveal_strlit("::");
    assert("."@ =~= seq!['.']);
    let symbol = owner + seq!['.'] + member;
    let qualified = found[at].qualified_name@;
    lemma_rsplit_at(owner, '.', member);
    assert forall|k: int| 0 <= k < symbol.len() implies #[trigger] symbol[k] != ':' by {
        if k < owner.len() {
            assert(owner.contains(owner[k]));
        } else if k > owner.len() {
            assert(symbol[k] == member[k - owner.len() - 1]);
            assert(member.contains(symbol[k]));
        }
    }
    assert forall|k: int| !occurs_at(symbol, ":"@, k) by {
        if occurs_at(symbol, ":"@, k) {
            assert(symbol.subrange(k, k + 1)[0] == symbol[k]);
        }
    }
    assert forall|k: int| !occurs_at(symbol, "::"@, k) by {
        if occurs_at(symbol, "::"@, k) {
            assert(symbol.subrange(k, k + 2)[0] == symbol[k]);
        }
    }
    lemma_boundary(qualified, symbol);
    lemma_owned(found, symbol, found.len() as int, at);
    let owned = owned_positions(found, symbol, found.len() as int);
    let keys = owned.map_values(|p: usize| listing_key_spec(found[p as int]));
    law_arranging_keeps_the_items(owned, keys);
    let listed = listing_sorted(found, owned);
    if owned.contains(at as usize) {
        let k = choose|k: int| 0 <= k < owned.len() && owned[k] == at as usize;
        assert(listed.contains(owned[k]));
    }
    if listed.contains(at as usize) {
        let k = choose|k: int| 0 <= k < listed.len() && listed[k] == at as usize;
        assert(owned.contains(listed[k]));
    }
}

/// A qualified name ends in a path at a boundary where it is the path, or the path stands behind a
/// dot or a double colon.
proof fn lemma_boundary(qualified: Seq<char>, path: Seq<char>)
    ensures
        ends_at_boundary(qualified, path) <==> qualified == path || exists|head: Seq<char>|
            qualified == #[trigger] (head + path) && head.len() > 0 && (head.last() == '.' || (
            head.len() > 1 && head.last() == ':' && head[head.len() - 2] == ':')),
{
    reveal_strlit(".");
    reveal_strlit("::");
    if ends_at_boundary(qualified, path) && qualified != path {
        let head = qualified.take(qualified.len() - path.len());
        assert(qualified =~= head + path);
        if "."@.is_suffix_of(head) {
            assert(head.subrange(head.len() - 1, head.len() as int)[0] == head.last());
        } else {
            assert(head.subrange(head.len() - 2, head.len() as int)[1] == head.last());
            assert(head.subrange(head.len() - 2, head.len() as int)[0] == head[head.len() - 2]);
        }
    }
    if exists|head: Seq<char>|
        qualified == #[trigger] (head + path) && head.len() > 0 && (head.last() == '.' || (head.len()
            > 1 && head.last() == ':' && head[head.len() - 2] == ':')) {
        let head = choose|head: Seq<char>|
            qualified == #[trigger] (head + path) && head.len() > 0 && (head.last() == '.' || (
            head.len() > 1 && head.last() == ':' && head[head.len() - 2] == ':'));
        assert(qualified.take(qualified.len() - path.len()) =~= head);
        assert(qualified.subrange(qualified.len() - path.len(), qualified.len() as int) =~= path);
        if head.last() == '.' {
            assert(head.subrange(head.len() - 1, head.len() as int) =~= "."@);
        } else {
            assert(head.subrange(head.len() - 2, head.len() as int) =~= "::"@);
        }
    }
}

/// A symbol with a double colon is looked up as a qualified name first.
pub proof fn law_a_qualified_name_is_looked_up_first(
    file: Seq<char>,
    name: Seq<char>,
    found: Seq<Node>,
    at: int,
)
    requires
        0 <= at < found.len() <= usize::MAX,
    ensures
        ({
            let symbol = file + "::"@ + name;
            &&& seed_step_spec(symbol, SeedStage::Start, Seq::empty()) == SeedView::Ask(
                SeedStage::Qualified,
                symbol,
            )
            &&& seed_step_spec(symbol, SeedStage::Qualified, found) matches SeedView::Answer(
                positions,
            ) && positions.contains(at as usize) && positions.len() == found.len()
        }),
{
    let symbol = file + "::"@ + name;
    let at_mark = file.len() as int;
    assert(symbol.subrange(at_mark, at_mark + "::"@.len()) =~= "::"@);
    assert(occurs_at(symbol, "::"@, at_mark));
    lemma_everything_is_listed(found, at);
}

// ---------------------------------------------------------------------------
// What explore is seeded from, and what it checks

/// The symbols of the files that match by content are seeds where they define behavior: a function,
/// a method, a class, a model, a view or a route. All of them are, as long as they are within the
/// cap, and nothing else is.
pub proof fn law_content_seeds_define_behavior(nodes: Seq<Node>, max: int, at: int)
    requires
        0 <= at < nodes.len() <= usize::MAX,
    ensures
        ({
            let seeds = definitions_upto(nodes, nodes.len() as int, max);
            let kind = nodes[at].kind;
            let defining = kind is Class || kind is Function || kind is Method || kind is Model
                || kind is Route || kind is View;
            &&& seeds.contains(at as usize) ==> defining
            &&& defining && seeds.len() < max ==> seeds.contains(at as usize)
        }),
{
    lemma_definitions_upto(nodes, nodes.len() as int, max, at);
}

proof fn lemma_definitions_upto(nodes: Seq<Node>, count: int, max: int, at: int)
    requires
        0 <= count <= nodes.len() <= usize::MAX,
        0 <= at < nodes.len(),
    ensures
        definitions_upto(nodes, count, max).contains(at as usize) ==> at < count && definition_kind(
            nodes[at].kind,
        ),
        at < count && definition_kind(nodes[at].kind) && definitions_upto(nodes, count, max).len()
            < max ==> definitions_upto(nodes, count, max).contains(at as usize),
    decreases count,
{
    if count > 0 {
        lemma_definitions_upto(nodes, count - 1, max, at);
        let before = definitions_upto(nodes, count - 1, max);
        let after = definitions_upto(nodes, count, max);
        if before.contains(at as usize) {
            let k = choose|k: int| 0 <= k < before.len() && before[k] == at as usize;
            assert(after[k] == at as usize);
        }
        if after.contains(at as usize) {
            let k = choose|k: int| 0 <= k < after.len() && after[k] == at as usize;
            if k < before.len() {
                assert(before[k] == at as usize);
            }
        }
        if at == count - 1 && definition_kind(nodes[at].kind) && before.len() < max {
            assert(after[after.len() - 1] == at as usize);
        }
    }
}

/// Coverage is checked of the first few seeds that a reader would test directly: of each of them
/// that is no test itself, and of nothing else.
pub proof fn law_the_first_checkable_seeds_are_checked(nodes: Seq<Node>, at: int)
    requires
        0 <= at < nodes.len() <= usize::MAX,
    ensures
        coverage_seeds(nodes, nodes.len() as int).contains(at as usize) <==> coverage_checkable(
            nodes[at],
        ) && !nodes[at].in_test_file && numbers::indices(
            at,
            |i: int| coverage_checkable(nodes[i]),
        ).len() < EXPLORE_COVERAGE_CHECK_MAX,
{
    lemma_coverage_seeds(nodes, nodes.len() as int, at);
    lemma_checkable_before(nodes, at);
}

proof fn lemma_checkable_before(nodes: Seq<Node>, count: int)
    ensures
        count >= 0 ==> checkable_before(nodes, count) == numbers::indices(
            count,
            |i: int| coverage_checkable(nodes[i]),
        ).len(),
    decreases count,
{
    lemma_indices(count, |i: int| coverage_checkable(nodes[i]));
    if count > 0 {
        lemma_checkable_before(nodes, count - 1);
    }
}

/// A seed whose coverage was checked is named as uncovered exactly where no test covers it.
pub proof fn law_only_the_uncovered_are_named(
    seeds: Seq<Node>,
    candidates: Seq<usize>,
    covered: Seq<bool>,
    count: int,
)
    requires
        0 <= count <= candidates.len(),
        count <= covered.len(),
    ensures
        forall|i: int|
            0 <= i < count && !#[trigger] covered[i] ==> uncovered_upto(
                seeds,
                candidates,
                covered,
                count,
            ).contains((seeds[candidates[i] as int].id@, seeds[candidates[i] as int].name@)),
        forall|k: int|
            0 <= k < uncovered_upto(seeds, candidates, covered, count).len() ==> exists|i: int|
                0 <= i < count && !#[trigger] covered[i] && #[trigger] uncovered_upto(
                    seeds,
                    candidates,
                    covered,
                    count,
                )[k] == (seeds[candidates[i] as int].id@, seeds[candidates[i] as int].name@),
        uncovered_upto(seeds, candidates, covered, count).len() == numbers::indices(
            count,
            |i: int| !covered[i],
        ).len(),
    decreases count,
{
    lemma_indices(count, |i: int| !covered[i]);
    if count > 0 {
        law_only_the_uncovered_are_named(seeds, candidates, covered, count - 1);
        let before = uncovered_upto(seeds, candidates, covered, count - 1);
        let after = uncovered_upto(seeds, candidates, covered, count);
        assert forall|i: int| 0 <= i < count && !#[trigger] covered[i] implies after.contains(
            (seeds[candidates[i] as int].id@, seeds[candidates[i] as int].name@),
        ) by {
            let pair = (seeds[candidates[i] as int].id@, seeds[candidates[i] as int].name@);
            if i < count - 1 {
                assert(before.contains(pair));
                let k = choose|k: int| 0 <= k < before.len() && before[k] == pair;
                assert(after[k] == pair);
            } else {
                assert(after[after.len() - 1] == pair);
            }
        }
        assert forall|k: int| 0 <= k < after.len() implies exists|i: int|
            0 <= i < count && !#[trigger] covered[i] && #[trigger] after[k] == (
            seeds[candidates[i] as int].id@, seeds[candidates[i] as int].name@) by {
            if k < before.len() {
                assert(after[k] == before[k]);
            } else {
                assert(!covered[count - 1]);
            }
        }
    }
}

proof fn lemma_near_misses(nodes: Seq<Node>, needle: Seq<char>, count: int, at: int)
    requires
        0 <= count <= nodes.len() <= usize::MAX,
        0 <= at < nodes.len(),
    ensures
        near_misses(nodes, needle, count).contains(at as usize) <==> at < count && near_miss(nodes[at], needle),
    decreases count,
{
    if count > 0 {
        lemma_near_misses(nodes, needle, count - 1, at);
        let before = near_misses(nodes, needle, count - 1);
        let after = near_misses(nodes, needle, count);
        if before.contains(at as usize) {
            let k = choose|k: int| 0 <= k < before.len() && before[k] == at as usize;
            assert(after[k] == at as usize);
        }
        if after.contains(at as usize) {
            let k = choose|k: int| 0 <= k < after.len() && after[k] == at as usize;
            if k < before.len() {
                assert(before[k] == at as usize);
            }
        }
        if at == count - 1 && near_miss(nodes[at], needle) {
            assert(after[after.len() - 1] == at as usize);
        }
    }
}

proof fn lemma_owned(nodes: Seq<Node>, symbol: Seq<char>, count: int, at: int)
    requires
        0 <= count <= nodes.len() <= usize::MAX,
        0 <= at < nodes.len(),
    ensures
        owned_positions(nodes, symbol, count).contains(at as usize) <==> at < count && ends_at_boundary(
            nodes[at].qualified_name@,
            symbol,
        ),
    decreases count,
{
    if count > 0 {
        lemma_owned(nodes, symbol, count - 1, at);
        let before = owned_positions(nodes, symbol, count - 1);
        let after = owned_positions(nodes, symbol, count);
        if before.contains(at as usize) {
            let k = choose|k: int| 0 <= k < before.len() && before[k] == at as usize;
            assert(after[k] == at as usize);
        }
        if after.contains(at as usize) {
            let k = choose|k: int| 0 <= k < after.len() && after[k] == at as usize;
            if k < before.len() {
                assert(before[k] == at as usize);
            }
        }
        if at == count - 1 && ends_at_boundary(
            nodes[at].qualified_name@,
            symbol,
        ) {
            assert(after[after.len() - 1] == at as usize);
        }
    }
}

proof fn lemma_coverage_seeds(nodes: Seq<Node>, count: int, at: int)
    requires
        0 <= count <= nodes.len() <= usize::MAX,
        0 <= at < nodes.len(),
    ensures
        coverage_seeds(nodes, count).contains(at as usize) <==> at < count && coverage_checkable(
            nodes[at],
        ) && checkable_before(nodes, at) < EXPLORE_COVERAGE_CHECK_MAX && !nodes[at].in_test_file,
    decreases count,
{
    if count > 0 {
        lemma_coverage_seeds(nodes, count - 1, at);
        let before = coverage_seeds(nodes, count - 1);
        let after = coverage_seeds(nodes, count);
        if before.contains(at as usize) {
            let k = choose|k: int| 0 <= k < before.len() && before[k] == at as usize;
            assert(after[k] == at as usize);
        }
        if after.contains(at as usize) {
            let k = choose|k: int| 0 <= k < after.len() && after[k] == at as usize;
            if k < before.len() {
                assert(before[k] == at as usize);
            }
        }
        if at == count - 1 && coverage_checkable(
            nodes[at],
        ) && checkable_before(nodes, at) < EXPLORE_COVERAGE_CHECK_MAX && !nodes[at].in_test_file {
            assert(after[after.len() - 1] == at as usize);
        }
    }
}

proof fn lemma_merged_holds(nodes: Seq<Node>, found: int, count: int, at: int)
    requires
        0 <= count <= nodes.len() <= usize::MAX,
        0 <= at < nodes.len(),
    ensures
        merged(nodes, found, count).contains(at as usize) <==> at < count && (at < found || !id_before(
            nodes,
            nodes[at].id@,
            at,
        )),
    decreases count,
{
    if count > 0 {
        lemma_merged_holds(nodes, found, count - 1, at);
        let before = merged(nodes, found, count - 1);
        let after = merged(nodes, found, count);
        if before.contains(at as usize) {
            let k = choose|k: int| 0 <= k < before.len() && before[k] == at as usize;
            assert(after[k] == at as usize);
        }
        if after.contains(at as usize) {
            let k = choose|k: int| 0 <= k < after.len() && after[k] == at as usize;
            if k < before.len() {
                assert(before[k] == at as usize);
            }
        }
        if at == count - 1 && (at < found || !id_before(
            nodes,
            nodes[at].id@,
            at,
        )) {
            assert(after[after.len() - 1] == at as usize);
        }
    }
}

} // verus!
