//! Ordering results, which is most of what makes a response useful.
//!
//! Every tool can return more than fits in a response, so the question is never what
//! matches but what to show first. Structural ranking answers it for explore; the cheaper
//! per-node ranks answer it for listings.
use crate::chars::{
    after_last, after_last_spec, ascii_lower_spec, chars_of, contains, is_word_char,
    lemma_after_last, lowercase, lowercased, occurs, occurs_at, replace, replaced, same_ignoring_ascii_case, same_text, views,
    word_char,
};
use crate::graph::{EdgeKind, Node, NodeKind};
use crate::limits::{
    EXPLORE_BYTES_BASE, EXPLORE_BYTES_MAX, EXPLORE_BYTES_PER_NODE, EXPLORE_RANKED_MAX,
};
use crate::numbers::{self, lemma_indices};
use crate::order::{
    comes_before, indices, key_less, keys_view, law_arranging_sorts, lemma_before_total,
    lemma_not_after, lemma_sorted_order, lemma_text_order, sort_order, sorted_order, text_less, Part,
    PartView,
};
use vstd::arithmetic::div_mod::{
    lemma_div_basics_2, lemma_div_is_ordered_by_denominator, lemma_fundamental_div_mod,
};
use vstd::prelude::*;

verus! {

/// An English function word or generic code verb that carries no ranking signal.
pub open spec fn stop_word(token: Seq<char>) -> bool {
    token == "add"@
        || token == "all"@
        || token == "also"@
        || token == "and"@
        || token == "any"@
        || token == "are"@
        || token == "back"@
        || token == "been"@
        || token == "being"@
        || token == "but"@
        || token == "can"@
        || token == "could"@
        || token == "did"@
        || token == "does"@
        || token == "for"@
        || token == "from"@
        || token == "get"@
        || token == "gets"@
        || token == "got"@
        || token == "has"@
        || token == "have"@
        || token == "how"@
        || token == "into"@
        || token == "its"@
        || token == "make"@
        || token == "new"@
        || token == "nor"@
        || token == "not"@
        || token == "onto"@
        || token == "set"@
        || token == "should"@
        || token == "that"@
        || token == "the"@
        || token == "these"@
        || token == "this"@
        || token == "those"@
        || token == "use"@
        || token == "used"@
        || token == "uses"@
        || token == "via"@
        || token == "was"@
        || token == "were"@
        || token == "what"@
        || token == "when"@
        || token == "where"@
        || token == "which"@
        || token == "who"@
        || token == "why"@
        || token == "will"@
        || token == "with"@
        || token == "would"@
        || token == "yet"@
}

fn is_stop_word(token: &str) -> (found: bool)
    ensures
        found == stop_word(token@),
{
    same_text(token, "add")
        || same_text(token, "all")
        || same_text(token, "also")
        || same_text(token, "and")
        || same_text(token, "any")
        || same_text(token, "are")
        || same_text(token, "back")
        || same_text(token, "been")
        || same_text(token, "being")
        || same_text(token, "but")
        || same_text(token, "can")
        || same_text(token, "could")
        || same_text(token, "did")
        || same_text(token, "does")
        || same_text(token, "for")
        || same_text(token, "from")
        || same_text(token, "get")
        || same_text(token, "gets")
        || same_text(token, "got")
        || same_text(token, "has")
        || same_text(token, "have")
        || same_text(token, "how")
        || same_text(token, "into")
        || same_text(token, "its")
        || same_text(token, "make")
        || same_text(token, "new")
        || same_text(token, "nor")
        || same_text(token, "not")
        || same_text(token, "onto")
        || same_text(token, "set")
        || same_text(token, "should")
        || same_text(token, "that")
        || same_text(token, "the")
        || same_text(token, "these")
        || same_text(token, "this")
        || same_text(token, "those")
        || same_text(token, "use")
        || same_text(token, "used")
        || same_text(token, "uses")
        || same_text(token, "via")
        || same_text(token, "was")
        || same_text(token, "were")
        || same_text(token, "what")
        || same_text(token, "when")
        || same_text(token, "where")
        || same_text(token, "which")
        || same_text(token, "who")
        || same_text(token, "why")
        || same_text(token, "will")
        || same_text(token, "with")
        || same_text(token, "would")
        || same_text(token, "yet")
}

/// The output byte budget for a graph of this many nodes.
pub open spec fn explore_budget_spec(node_count: int) -> int {
    let grown = EXPLORE_BYTES_BASE + node_count * EXPLORE_BYTES_PER_NODE;
    if grown <= EXPLORE_BYTES_MAX {
        grown
    } else {
        EXPLORE_BYTES_MAX as int
    }
}

/// The explore output byte budget for a graph of `node_count` nodes: a floor for small
/// projects, growing with size to a hard cap.
pub fn explore_budget(node_count: usize) -> (budget: usize)
    ensures
        budget == explore_budget_spec(node_count as int),
        EXPLORE_BYTES_BASE <= budget <= EXPLORE_BYTES_MAX,
{
    if node_count >= 2_000 {
        return EXPLORE_BYTES_MAX;
    }
    let grown: usize = EXPLORE_BYTES_BASE + node_count * EXPLORE_BYTES_PER_NODE;
    if grown <= EXPLORE_BYTES_MAX {
        grown
    } else {
        EXPLORE_BYTES_MAX
    }
}

/// A larger graph never gets a smaller budget.
pub proof fn law_budget_grows(fewer: int, more: int)
    requires
        0 <= fewer <= more,
    ensures
        explore_budget_spec(fewer) <= explore_budget_spec(more),
{
}

/// The sort key of a node in the structural ranking: seeds first, then descending score.
pub open spec fn relevance_key(is_seed: bool, score: u64) -> Seq<PartView> {
    seq![PartView::Number(if is_seed { 0int } else { 1 }), PartView::Number(-(score as int))]
}

/// The positions, below `count`, whose score is above zero, in ascending order.
pub open spec fn scored(scores: Seq<u64>, count: int) -> Seq<int>
    decreases count,
{
    if count <= 0 {
        Seq::empty()
    } else if scores[count - 1] > 0 {
        scored(scores, count - 1).push(count - 1)
    } else {
        scored(scores, count - 1)
    }
}

/// The scored positions, seeds first, then by descending score, then by position, cut to
/// what a response reads.
pub open spec fn structure_order(seeds: Seq<usize>, scores: Seq<u64>) -> Seq<int> {
    let kept = scored(scores, scores.len() as int);
    let keys = kept.map_values(
        |node: int| relevance_key(seeds.contains(node as usize), scores[node]),
    );
    let order = sorted_order(keys).map_values(|k: int| kept[k]);
    if seeds.len() == 0 {
        Seq::empty()
    } else if order.len() > EXPLORE_RANKED_MAX {
        order.take(EXPLORE_RANKED_MAX as int)
    } else {
        order
    }
}

/// In the structural ranking every seed stands ahead of every other node.
pub proof fn law_seeds_come_first(seeds: Seq<usize>, scores: Seq<u64>, i: int, j: int)
    requires
        0 <= i < structure_order(seeds, scores).len(),
        0 <= j < structure_order(seeds, scores).len(),
        seeds.contains(structure_order(seeds, scores)[i] as usize),
        !seeds.contains(structure_order(seeds, scores)[j] as usize),
    ensures
        i < j,
{
    let kept = scored(scores, scores.len() as int);
    let keys = kept.map_values(
        |node: int| relevance_key(seeds.contains(node as usize), scores[node]),
    );
    let order = sorted_order(keys);
    lemma_sorted_order(keys);
    assert(structure_order(seeds, scores)[i] == kept[order[i]]);
    assert(structure_order(seeds, scores)[j] == kept[order[j]]);
    if j < i {
        assert(comes_before(keys, order[j], order[i]));
        let seed = keys[order[i]];
        let other = keys[order[j]];
        assert(seed[0] == PartView::Number(0));
        assert(other[0] == PartView::Number(1));
        assert(!key_less(other, seed));
    }
}

/// The order in which the seeds are given does not matter to the structural ranking: seeds that are
/// the same as a set rank the nodes alike.
pub proof fn law_order_of_seeds_does_not_matter(
    seeds: Seq<usize>,
    others: Seq<usize>,
    scores: Seq<u64>,
)
    requires
        forall|node: usize| seeds.contains(node) <==> others.contains(node),
    ensures
        structure_order(seeds, scores) == structure_order(others, scores),
{
    let kept = scored(scores, scores.len() as int);
    let keys = kept.map_values(
        |node: int| relevance_key(seeds.contains(node as usize), scores[node]),
    );
    let other_keys = kept.map_values(
        |node: int| relevance_key(others.contains(node as usize), scores[node]),
    );
    assert(keys =~= other_keys);
    if seeds.len() > 0 {
        assert(seeds.contains(seeds[0]));
    }
    if others.len() > 0 {
        assert(others.contains(others[0]));
    }
}

/// The nodes ranked by the score that a random walk with restart from the seeds gave each.
/// A score is the walk's mass as an order-preserving integer, zero where the walk never
/// arrived. Returns node positions in descending relevance.
pub fn rank_by_structure(seeds: &[usize], scores: &[u64]) -> (order: Vec<usize>)
    requires
        forall|i: int| 0 <= i < seeds@.len() ==> #[trigger] seeds@[i] < scores@.len(),
    ensures
        indices(order@) == structure_order(seeds@, scores@),
{
    if seeds.len() == 0 {
        let order: Vec<usize> = Vec::new();
        assert(indices(order@) =~= Seq::empty());
        return order;
    }
    let count: usize = scores.len();
    let mut is_seed: Vec<bool> = Vec::new();
    for i in 0..count
        invariant
            is_seed@.len() == i,
            forall|k: int| 0 <= k < i ==> !(#[trigger] is_seed@[k]),
    {
        is_seed.push(false);
    }
    for i in 0..seeds.len()
        invariant
            is_seed@.len() == count,
            count == scores@.len(),
            forall|k: int| 0 <= k < seeds@.len() ==> #[trigger] seeds@[k] < scores@.len(),
            forall|k: int|
                0 <= k < count ==> (#[trigger] is_seed@[k] <==> seeds@.take(i as int).contains(
                    k as usize,
                )),
    {
        let ghost before = is_seed@;
        let seed: usize = seeds[i];
        is_seed.set(seed, true);
        proof {
            let shorter = seeds@.take(i as int);
            let longer = seeds@.take(i + 1);
            assert(longer =~= shorter.push(seed));
            assert forall|k: int| 0 <= k < count implies (#[trigger] is_seed@[k]
                <==> longer.contains(k as usize)) by {
                if k == seed {
                    assert(longer[i as int] == seed);
                } else if before[k] {
                    let p = choose|p: int| 0 <= p < shorter.len() && shorter[p] == k as usize;
                    assert(longer[p] == k as usize);
                } else if longer.contains(k as usize) {
                    let p = choose|p: int| 0 <= p < longer.len() && longer[p] == k as usize;
                    assert(shorter[p] == k as usize);
                }
            }
        }
    }
    assert(seeds@.take(seeds@.len() as int) =~= seeds@);
    let mut kept: Vec<usize> = Vec::new();
    let mut keys: Vec<Vec<Part>> = Vec::new();
    let ghost key_of = |node: int| relevance_key(seeds@.contains(node as usize), scores@[node]);
    assert(indices(kept@) =~= Seq::empty());
    assert(keys_view(keys@) =~= indices(kept@).map_values(key_of));
    for node in 0..count
        invariant
            is_seed@.len() == count,
            count == scores@.len(),
            key_of == (|node: int|
                relevance_key(seeds@.contains(node as usize), scores@[node])),
            forall|k: int|
                0 <= k < count ==> (#[trigger] is_seed@[k] <==> seeds@.contains(k as usize)),
            indices(kept@) == scored(scores@, node as int),
            keys_view(keys@) == indices(kept@).map_values(key_of),
            forall|k: int| 0 <= k < kept@.len() ==> #[trigger] kept@[k] < count,
    {
        let ghost kept_before = kept@;
        let ghost keys_before = keys@;
        if scores[node] > 0 {
            let mut key: Vec<Part> = Vec::new();
            key.push(Part::Number(if is_seed[node] { 0 } else { 1 }));
            key.push(Part::Number(-(scores[node] as i128)));
            keys.push(key);
            kept.push(node);
            proof {
                assert(indices(kept@) =~= indices(kept_before).push(node as int));
                assert(crate::order::key_view(keys@.last()) =~= key_of(node as int));
                assert(keys_view(keys@) =~= keys_view(keys_before).push(key_of(node as int)));
                assert(indices(kept@).map_values(key_of) =~= indices(kept_before).map_values(
                    key_of,
                ).push(key_of(node as int)));
            }
        }
    }
    assert(keys@.len() == keys_view(keys@).len());
    assert(kept@.len() == indices(kept@).len());
    let sorted = sort_order(&keys);
    let limit: usize = if sorted.len() > EXPLORE_RANKED_MAX {
        EXPLORE_RANKED_MAX
    } else {
        sorted.len()
    };
    let ghost all = sorted_order(keys_view(keys@)).map_values(|k: int| indices(kept@)[k]);
    let mut order: Vec<usize> = Vec::new();
    for i in 0..limit
        invariant
            limit <= sorted@.len(),
            sorted@.len() == kept@.len(),
            indices(sorted@) == sorted_order(keys_view(keys@)),
            all == sorted_order(keys_view(keys@)).map_values(|k: int| indices(kept@)[k]),
            forall|k: int| 0 <= k < sorted@.len() ==> #[trigger] sorted@[k] < kept@.len(),
            indices(order@) == all.take(i as int),
            all.len() == sorted@.len(),
    {
        let ghost before = order@;
        order.push(kept[sorted[i]]);
        assert(indices(sorted@)[i as int] == sorted@[i as int]);
        assert(indices(order@) =~= indices(before).push(all[i as int]));
        assert(all.take(i + 1) =~= all.take(i as int).push(all[i as int]));
    }
    proof {
        assert(kept@.len() == scored(scores@, scores@.len() as int).len());
        if sorted@.len() <= EXPLORE_RANKED_MAX {
            assert(all.take(limit as int) =~= all);
        }
    }
    order
}

/// Whether a query names a symbol outright.
pub open spec fn query_names_spec(query: Seq<char>, name: Seq<char>) -> bool {
    exists|i: int|
        0 <= i < query_tokens_spec(query).len() && ascii_lower_spec(
            #[trigger] query_tokens_spec(query)[i],
        ) == ascii_lower_spec(name)
}

pub fn query_names(query: &str, name: &str) -> (found: bool)
    ensures
        found == query_names_spec(query@, name@),
{
    let tokens = query_tokens(query);
    for i in 0..tokens.len()
        invariant
            views(tokens@) == query_tokens_spec(query@),
            forall|k: int|
                0 <= k < i ==> ascii_lower_spec(#[trigger] query_tokens_spec(query@)[k])
                    != ascii_lower_spec(name@),
    {
        assert(tokens@[i as int]@ == query_tokens_spec(query@)[i as int]);
        if same_ignoring_ascii_case(tokens[i].as_str(), name) {
            return true;
        }
    }
    assert(tokens@.len() == query_tokens_spec(query@).len());
    false
}

/// A character that stands inside a query token.
pub open spec fn token_char(c: char) -> bool {
    is_word_char(c) || c == '_'
}

/// The pieces of the first `count` characters of a query: those already ended by a
/// character that is no part of a token, and the one still open.
pub open spec fn pieces_upto(query: Seq<char>, count: int) -> (Seq<Seq<char>>, Seq<char>)
    decreases count,
{
    if count <= 0 {
        (Seq::empty(), Seq::empty())
    } else {
        let (done, open) = pieces_upto(query, count - 1);
        if token_char(query[count - 1]) {
            (done, open.push(query[count - 1]))
        } else {
            (done.push(open), Seq::empty())
        }
    }
}

/// The pieces of a query between the characters that are no part of a token.
pub open spec fn query_pieces(query: Seq<char>) -> Seq<Seq<char>> {
    let (done, open) = pieces_upto(query, query.len() as int);
    done.push(open)
}

/// The pieces of three characters or more, in lower case, without the stop words.
pub open spec fn content_tokens(pieces: Seq<Seq<char>>) -> Seq<Seq<char>>
    decreases pieces.len(),
{
    if pieces.len() == 0 {
        Seq::empty()
    } else {
        let rest = content_tokens(pieces.drop_last());
        let token = lowercased(pieces.last());
        if pieces.last().len() >= 3 && !stop_word(token) {
            rest.push(token)
        } else {
            rest
        }
    }
}

/// The query's content tokens for ranking.
pub open spec fn query_tokens_spec(query: Seq<char>) -> Seq<Seq<char>> {
    content_tokens(query_pieces(query))
}

fn split_query(query: &str) -> (pieces: Vec<String>)
    ensures
        views(pieces@) == query_pieces(query@),
{
    let chars = chars_of(query);
    let mut done: Vec<String> = Vec::new();
    let mut open = String::new();
    assert(views(done@) =~= Seq::empty());
    for i in 0..chars.len()
        invariant
            chars@ == query@,
            views(done@) == pieces_upto(query@, i as int).0,
            open@ == pieces_upto(query@, i as int).1,
    {
        let c = chars[i];
        if word_char(c) || c == '_' {
            open.push(c);
        } else {
            let ghost before = done@;
            done.push(open);
            assert(views(done@) =~= views(before).push(done@.last()@));
            open = String::new();
        }
    }
    let ghost before = done@;
    done.push(open);
    assert(views(done@) =~= views(before).push(done@.last()@));
    done
}

/// The query's content tokens for ranking: lowercased, three or more characters long, snake_case
/// kept whole, with stop words dropped so common prose does not dilute the signal.
pub fn query_tokens(query: &str) -> (tokens: Vec<String>)
    ensures
        views(tokens@) == query_tokens_spec(query@),
{
    let pieces = split_query(query);
    let ghost all = query_pieces(query@);
    let mut tokens: Vec<String> = Vec::new();
    assert(views(tokens@) =~= content_tokens(all.take(0)));
    for i in 0..pieces.len()
        invariant
            views(pieces@) == all,
            views(tokens@) == content_tokens(all.take(i as int)),
    {
        assert(pieces@[i as int]@ == all[i as int]);
        assert(all.take(i + 1).drop_last() =~= all.take(i as int));
        if chars_of(pieces[i].as_str()).len() >= 3 {
            let token = lowercase(pieces[i].as_str());
            if !is_stop_word(token.as_str()) {
                let ghost before = tokens@;
                tokens.push(token);
                assert(views(tokens@) =~= views(before).push(tokens@.last()@));
            }
        }
    }
    assert(all.take(pieces@.len() as int) =~= all);
    tokens
}

/// How many of the tokens stand in the text.
pub open spec fn tokens_in(text: Seq<char>, tokens: Seq<Seq<char>>) -> nat
    decreases tokens.len(),
{
    if tokens.len() == 0 {
        0
    } else {
        tokens_in(text, tokens.drop_last()) + if occurs(text, tokens.last()) {
            1nat
        } else {
            0nat
        }
    }
}

fn count_tokens_in(text: &str, tokens: &[String]) -> (count: usize)
    ensures
        count == tokens_in(text@, views(tokens@)),
        count <= tokens@.len(),
{
    let ghost all = views(tokens@);
    let mut count: usize = 0;
    for i in 0..tokens.len()
        invariant
            all == views(tokens@),
            count == tokens_in(text@, all.take(i as int)),
            count <= i,
    {
        assert(all.take(i + 1).drop_last() =~= all.take(i as int));
        assert(all.take(i + 1).last() == tokens@[i as int]@);
        if contains(text, tokens[i].as_str()) {
            count += 1;
        }
    }
    assert(all.take(tokens@.len() as int) =~= all);
    count
}

/// The positions all name a node.
pub open spec fn positions_valid(nodes: Seq<Node>, positions: Seq<usize>) -> bool {
    forall|i: int| 0 <= i < positions.len() ==> #[trigger] positions[i] < nodes.len()
}

/// The most tokens that the name of any one of the nodes holds.
pub open spec fn name_coverage(
    nodes: Seq<Node>,
    positions: Seq<usize>,
    tokens: Seq<Seq<char>>,
) -> nat
    decreases positions.len(),
{
    if positions.len() == 0 {
        0
    } else {
        let rest = name_coverage(nodes, positions.drop_last(), tokens);
        let here = tokens_in(lowercased(nodes[positions.last() as int].name@), tokens);
        if here >= rest {
            here
        } else {
            rest
        }
    }
}

/// The most query tokens any single symbol in the file matches as a substring of its name:
/// the file's best "this symbol is what you asked for" signal.
pub fn name_token_coverage(nodes: &[Node], positions: &[usize], tokens: &[String]) -> (best: usize)
    requires
        positions_valid(nodes@, positions@),
    ensures
        best == name_coverage(nodes@, positions@, views(tokens@)),
{
    let mut best: usize = 0;
    for i in 0..positions.len()
        invariant
            positions_valid(nodes@, positions@),
            best == name_coverage(nodes@, positions@.take(i as int), views(tokens@)),
    {
        assert(positions@.take(i + 1).drop_last() =~= positions@.take(i as int));
        assert(positions@[i as int] < nodes@.len());
        let name = lowercase(nodes[positions[i]].name.as_str());
        let here = count_tokens_in(name.as_str(), tokens);
        if here >= best {
            best = here;
        }
    }
    assert(positions@.take(positions@.len() as int) =~= positions@);
    best
}

/// How many of the tokens that carry an underscore stand in the path.
pub open spec fn compound_tokens_in(path: Seq<char>, tokens: Seq<Seq<char>>) -> nat
    decreases tokens.len(),
{
    if tokens.len() == 0 {
        0
    } else {
        compound_tokens_in(path, tokens.drop_last()) + if occurs(tokens.last(), "_"@) && occurs(
            path,
            tokens.last(),
        ) {
            1nat
        } else {
            0nat
        }
    }
}

/// The count of compound tokens in the path of the file the positions belong to.
pub open spec fn path_coverage(
    nodes: Seq<Node>,
    positions: Seq<usize>,
    tokens: Seq<Seq<char>>,
) -> nat {
    if positions.len() == 0 {
        0
    } else {
        compound_tokens_in(lowercased(nodes[positions[0] as int].file_path@), tokens)
    }
}

/// The count of compound query tokens (those carrying a `_`, so a deliberate multi-word
/// identifier) that appear in the file's full path. Zero for every ordinary query.
pub fn path_token_coverage(nodes: &[Node], positions: &[usize], tokens: &[String]) -> (count: usize)
    requires
        positions_valid(nodes@, positions@),
    ensures
        count == path_coverage(nodes@, positions@, views(tokens@)),
{
    if positions.len() == 0 {
        return 0;
    }
    assert(positions@[0] < nodes@.len());
    let path = lowercase(nodes[positions[0]].file_path.as_str());
    let ghost all = views(tokens@);
    let mut count: usize = 0;
    for i in 0..tokens.len()
        invariant
            all == views(tokens@),
            count == compound_tokens_in(path@, all.take(i as int)),
            count <= i,
    {
        assert(all.take(i + 1).drop_last() =~= all.take(i as int));
        assert(all.take(i + 1).last() == tokens@[i as int]@);
        let token = tokens[i].as_str();
        if contains(token, "_") && contains(path.as_str(), token) {
            count += 1;
        }
    }
    assert(all.take(tokens@.len() as int) =~= all);
    count
}

/// One of the nodes has the token for its name, but for the case of ASCII letters.
pub open spec fn names_it(nodes: Seq<Node>, positions: Seq<usize>, token: Seq<char>) -> bool {
    exists|i: int|
        0 <= i < positions.len() && ascii_lower_spec(
            nodes[#[trigger] positions[i] as int].name@,
        ) == ascii_lower_spec(token)
}

/// How many of the tokens name one of the nodes exactly.
pub open spec fn exact_names(
    nodes: Seq<Node>,
    positions: Seq<usize>,
    tokens: Seq<Seq<char>>,
) -> nat
    decreases tokens.len(),
{
    if tokens.len() == 0 {
        0
    } else {
        exact_names(nodes, positions, tokens.drop_last()) + if names_it(
            nodes,
            positions,
            tokens.last(),
        ) {
            1nat
        } else {
            0nat
        }
    }
}

fn is_named(nodes: &[Node], positions: &[usize], token: &str) -> (found: bool)
    requires
        positions_valid(nodes@, positions@),
    ensures
        found == names_it(nodes@, positions@, token@),
{
    for i in 0..positions.len()
        invariant
            positions_valid(nodes@, positions@),
            forall|k: int|
                0 <= k < i ==> ascii_lower_spec(nodes@[#[trigger] positions@[k] as int].name@)
                    != ascii_lower_spec(token@),
    {
        assert(positions@[i as int] < nodes@.len());
        if same_ignoring_ascii_case(nodes[positions[i]].name.as_str(), token) {
            return true;
        }
    }
    false
}

/// The number of query tokens that exactly equal a symbol name defined in the file: the
/// strongest relevance signal.
pub fn exact_name_hits(nodes: &[Node], positions: &[usize], tokens: &[String]) -> (count: usize)
    requires
        positions_valid(nodes@, positions@),
    ensures
        count == exact_names(nodes@, positions@, views(tokens@)),
{
    let ghost all = views(tokens@);
    let mut count: usize = 0;
    for i in 0..tokens.len()
        invariant
            positions_valid(nodes@, positions@),
            all == views(tokens@),
            count == exact_names(nodes@, positions@, all.take(i as int)),
            count <= i,
    {
        assert(all.take(i + 1).drop_last() =~= all.take(i as int));
        assert(all.take(i + 1).last() == tokens@[i as int]@);
        if is_named(nodes, positions, tokens[i].as_str()) {
            count += 1;
        }
    }
    assert(all.take(tokens@.len() as int) =~= all);
    count
}

/// The last segment of a path, whichever way its separators lean.
pub open spec fn basename(path: Seq<char>) -> Seq<char> {
    after_last_spec(replaced(path, '\\', '/'), "/"@)
}

/// The token stands in the file's name or in the name of one of the nodes.
pub open spec fn has_token(nodes: Seq<Node>, positions: Seq<usize>, token: Seq<char>) -> bool {
    (positions.len() > 0 && occurs(
        lowercased(basename(nodes[positions[0] as int].file_path@)),
        token,
    )) || exists|i: int|
        0 <= i < positions.len() && occurs(
            lowercased(nodes[#[trigger] positions[i] as int].name@),
            token,
        )
}

/// Whether a query token appears in the file, in its name or any symbol name as a substring.
pub fn file_has_token(nodes: &[Node], positions: &[usize], token: &str) -> (found: bool)
    requires
        positions_valid(nodes@, positions@),
    ensures
        found == has_token(nodes@, positions@, token@),
{
    if positions.len() > 0 {
        assert(positions@[0] < nodes@.len());
        let path = replace(nodes[positions[0]].file_path.as_str(), '\\', '/');
        let base = lowercase(after_last(path.as_str(), "/").as_str());
        if contains(base.as_str(), token) {
            return true;
        }
    }
    for i in 0..positions.len()
        invariant
            positions_valid(nodes@, positions@),
            forall|k: int|
                0 <= k < i ==> !occurs(
                    lowercased(nodes@[#[trigger] positions@[k] as int].name@),
                    token@,
                ),
    {
        assert(positions@[i as int] < nodes@.len());
        let name = lowercase(nodes[positions[i]].name.as_str());
        if contains(name.as_str(), token) {
            return true;
        }
    }
    false
}

/// The weight of one token: more the rarer it is across the candidate files.
pub open spec fn token_weight(file_total: int, frequency: int) -> int {
    (file_total * 1000) / (if frequency >= 1 { frequency } else { 1 })
}

/// The weights of the tokens the file holds, summed.
pub open spec fn weighted_score(
    nodes: Seq<Node>,
    positions: Seq<usize>,
    tokens: Seq<Seq<char>>,
    frequencies: Seq<usize>,
    file_total: int,
) -> int
    decreases tokens.len(),
{
    if tokens.len() == 0 {
        0
    } else {
        weighted_score(nodes, positions, tokens.drop_last(), frequencies, file_total)
            + if has_token(nodes, positions, tokens.last()) {
            token_weight(file_total, frequencies[tokens.len() - 1] as int)
        } else {
            0
        }
    }
}

pub fn weight_of(file_total: usize, frequency: usize) -> (weight: u64)
    requires
        file_total * 1000 <= u64::MAX,
    ensures
        weight == token_weight(file_total as int, frequency as int),
        weight <= file_total * 1000,
{
    let total: u64 = file_total as u64 * 1000;
    let divisor: u64 = if frequency >= 1 { frequency as u64 } else { 1 };
    proof {
        vstd::arithmetic::div_mod::lemma_div_is_ordered_by_denominator(
            total as int,
            1,
            divisor as int,
        );
    }
    total / divisor
}

/// The relevance of a file: each query token it contains contributes more the rarer the token
/// is across the candidate files, so a rare identifier dominates one that matches dozens.
/// `frequencies` holds the document frequency of each token, in the tokens' order.
pub fn weighted_token_score(
    nodes: &[Node],
    positions: &[usize],
    tokens: &[String],
    frequencies: &[usize],
    file_total: usize,
) -> (score: u64)
    requires
        positions_valid(nodes@, positions@),
        frequencies@.len() == tokens@.len(),
        file_total * 1000 <= u64::MAX,
        tokens@.len() * (file_total * 1000) <= u64::MAX,
    ensures
        score == weighted_score(
            nodes@,
            positions@,
            views(tokens@),
            frequencies@,
            file_total as int,
        ),
{
    let ghost all = views(tokens@);
    let ghost step: int = file_total * 1000;
    let mut score: u64 = 0;
    for i in 0..tokens.len()
        invariant
            positions_valid(nodes@, positions@),
            frequencies@.len() == tokens@.len(),
            all == views(tokens@),
            step == file_total * 1000,
            step <= u64::MAX,
            tokens@.len() * step <= u64::MAX,
            score == weighted_score(
                nodes@,
                positions@,
                all.take(i as int),
                frequencies@,
                file_total as int,
            ),
            score <= i * step,
    {
        assert(all.take(i + 1).drop_last() =~= all.take(i as int));
        assert(all.take(i + 1).last() == tokens@[i as int]@);
        assert(i * step + step == (i + 1) * step) by (nonlinear_arith);
        assert((i + 1) * step <= tokens@.len() * step) by (nonlinear_arith)
            requires
                i + 1 <= tokens@.len(),
                step >= 0,
        ;
        if file_has_token(nodes, positions, tokens[i].as_str()) {
            score += weight_of(file_total, frequencies[i]);
        }
    }
    assert(all.take(tokens@.len() as int) =~= all);
    score
}

/// A relevance penalty by what the file is: hand-written source (0) ranks ahead of test
/// files (1), which rank ahead of generated or minified files (2).
pub open spec fn path_penalty_spec(generated: bool, test: bool) -> int {
    if generated {
        2
    } else if test {
        1
    } else {
        0
    }
}

pub fn path_penalty(generated: bool, test: bool) -> (penalty: u8)
    ensures
        penalty == path_penalty_spec(generated, test),
{
    if generated {
        2
    } else if test {
        1
    } else {
        0
    }
}

/// A relevance penalty by node kind: definitions rank ahead of references.
pub open spec fn kind_rank_spec(kind: NodeKind) -> int {
    match kind {
        NodeKind::Model
        | NodeKind::Class
        | NodeKind::Function
        | NodeKind::Method
        | NodeKind::View
        | NodeKind::Route
        | NodeKind::Template
        | NodeKind::Selector => 0,
        NodeKind::Field | NodeKind::Property => 1,
        NodeKind::Module | NodeKind::File | NodeKind::External => 2,
        NodeKind::Constant | NodeKind::Variable | NodeKind::Parameter => 3,
        NodeKind::Import => 4,
    }
}

pub fn kind_rank(kind: NodeKind) -> (rank: u8)
    ensures
        rank == kind_rank_spec(kind),
{
    match kind {
        NodeKind::Model
        | NodeKind::Class
        | NodeKind::Function
        | NodeKind::Method
        | NodeKind::View
        | NodeKind::Route
        | NodeKind::Template
        | NodeKind::Selector => 0,
        NodeKind::Field | NodeKind::Property => 1,
        NodeKind::Module | NodeKind::File | NodeKind::External => 2,
        NodeKind::Constant | NodeKind::Variable | NodeKind::Parameter => 3,
        NodeKind::Import => 4,
    }
}

/// The listing key of a node: definitions before references, hand-written source before tests
/// and generated files, and ties broken by where each one is defined.
pub open spec fn listing_key_spec(node: Node) -> Seq<PartView> {
    seq![
        PartView::Number(kind_rank_spec(node.kind)),
        PartView::Number(path_penalty_spec(node.in_generated_file, node.in_test_file)),
        PartView::Text(node.file_path@),
        PartView::Number(node.span.start_line as int),
    ]
}

/// The parts of the listing key added to a key.
pub fn push_listing_key(key: &mut Vec<Part>, node: &Node)
    ensures
        crate::order::key_view(*final(key)) == crate::order::key_view(*old(key))
            + listing_key_spec(*node),
{
    let ghost before = crate::order::key_view(*key);
    key.push(Part::Number(kind_rank(node.kind) as i128));
    key.push(Part::Number(path_penalty(node.in_generated_file, node.in_test_file) as i128));
    key.push(Part::Text(node.file_path.clone()));
    key.push(Part::Number(node.span.start_line as i128));
    assert(crate::order::key_view(*key) =~= before + listing_key_spec(*node));
}

/// The edge-kind order for caller and callee listings: relationship and call edges rank
/// ahead of type annotations, those ahead of imports and plain references, and all of them
/// ahead of structural containment.
pub open spec fn edge_rank_spec(kind: EdgeKind) -> int {
    match kind {
        EdgeKind::Contains => 3,
        EdgeKind::Imports | EdgeKind::References => 2,
        EdgeKind::Returns | EdgeKind::TypeOf => 1,
        _ => 0,
    }
}

pub fn edge_rank(kind: EdgeKind) -> (rank: u8)
    ensures
        rank == edge_rank_spec(kind),
{
    match kind {
        EdgeKind::Contains => 3,
        EdgeKind::Imports | EdgeKind::References => 2,
        EdgeKind::Returns | EdgeKind::TypeOf => 1,
        _ => 0,
    }
}

/// The cross-project ordering within an edge tier: 0 for a node of another project than the
/// symbol's home, 1 for one of the same project.
pub fn cross_project_rank(node: &Node, home_project: &str) -> (rank: u8)
    ensures
        rank == (if node.project_id@ == home_project@ { 1int } else { 0 }),
{
    if same_text(node.project_id.as_str(), home_project) {
        1
    } else {
        0
    }
}

// ---------------------------------------------------------------------------
// What ranks above what

/// A kind that defines something.
pub open spec fn defines(kind: NodeKind) -> bool {
    ||| kind is Class
    ||| kind is Function
    ||| kind is Method
    ||| kind is Model
    ||| kind is Route
    ||| kind is Selector
    ||| kind is Template
    ||| kind is View
}

/// A kind that stands for a place where definitions live.
pub open spec fn houses(kind: NodeKind) -> bool {
    kind is External || kind is File || kind is Module
}

/// A kind that stands for a value.
pub open spec fn names_value(kind: NodeKind) -> bool {
    kind is Constant || kind is Parameter || kind is Variable
}

/// Two kinds are listed on a par.
pub open spec fn on_a_par(left: NodeKind, right: NodeKind) -> bool {
    ||| defines(left) && defines(right)
    ||| (left is Field || left is Property) && (right is Field || right is Property)
    ||| houses(left) && houses(right)
    ||| names_value(left) && names_value(right)
    ||| left is Import && right is Import
}

/// One node is to be listed before another: definitions before fields, those before what houses
/// definitions, that before values, and all before imports; among kinds on a par hand-written
/// source before tests, and both before generated files; then by file, and by line.
pub open spec fn leads(left: Node, right: Node) -> bool {
    let par = on_a_par(left.kind, right.kind);
    let same = par && left.in_generated_file == right.in_generated_file && (left.in_generated_file
        || left.in_test_file == right.in_test_file);
    ||| defines(left.kind) && !defines(right.kind)
    ||| (left.kind is Field || left.kind is Property) && (houses(right.kind) || names_value(
        right.kind,
    ) || right.kind is Import)
    ||| houses(left.kind) && (names_value(right.kind) || right.kind is Import)
    ||| names_value(left.kind) && right.kind is Import
    ||| par && !left.in_generated_file && right.in_generated_file
    ||| par && !left.in_generated_file && !left.in_test_file && right.in_test_file
    ||| same && text_less(left.file_path@, right.file_path@)
    ||| same && left.file_path@ == right.file_path@ && left.span.start_line
        < right.span.start_line
}

/// What leads has the smaller listing key.
pub proof fn law_what_leads_is_listed_first(left: Node, right: Node)
    requires
        leads(left, right),
    ensures
        key_less(listing_key_spec(left), listing_key_spec(right)),
{
    let (a, b) = (listing_key_spec(left), listing_key_spec(right));
    assert(a.skip(1)[0] == a[1] && b.skip(1)[0] == b[1]);
    assert(a.skip(1).skip(1)[0] == a[2] && b.skip(1).skip(1)[0] == b[2]);
    assert(a.skip(1).skip(1).skip(1)[0] == a[3] && b.skip(1).skip(1).skip(1)[0] == b[3]);
    lemma_text_order(left.file_path@, right.file_path@);
    reveal_with_fuel(key_less, 5);
}

/// Stronger relations are listed before weaker ones: calls and the like before mentions of a type,
/// those before imports and plain references, and all before mere containment. Relations of one
/// strength are on a par.
pub proof fn law_stronger_relations_lead(left: EdgeKind, right: EdgeKind)
    ensures
        ({
            let plain = |kind: EdgeKind| kind is Imports || kind is References;
            let typed = |kind: EdgeKind| kind is Returns || kind is TypeOf;
            let strong = |kind: EdgeKind| !plain(kind) && !typed(kind) && !(kind is Contains);
            &&& strong(left) && !strong(right) ==> edge_rank_spec(left) < edge_rank_spec(right)
            &&& typed(left) && (plain(right) || right is Contains) ==> edge_rank_spec(left)
                < edge_rank_spec(right)
            &&& plain(left) && right is Contains ==> edge_rank_spec(left) < edge_rank_spec(right)
            &&& (strong(left) && strong(right)) || (typed(left) && typed(right)) || (plain(left)
                && plain(right)) ==> edge_rank_spec(left) == edge_rank_spec(right)
        }),
{
}

/// The budget starts at its base and grows by the same amount for each node, until it comes to its
/// cap and stays there.
pub proof fn law_budget_grows_evenly(nodes: int)
    requires
        0 <= nodes,
    ensures
        explore_budget_spec(0) == EXPLORE_BYTES_BASE,
        explore_budget_spec(nodes) <= EXPLORE_BYTES_MAX,
        explore_budget_spec(nodes) < EXPLORE_BYTES_MAX ==> explore_budget_spec(nodes)
            == EXPLORE_BYTES_BASE + EXPLORE_BYTES_PER_NODE * nodes,
        explore_budget_spec(nodes) == EXPLORE_BYTES_MAX ==> EXPLORE_BYTES_BASE
            + EXPLORE_BYTES_PER_NODE * nodes >= EXPLORE_BYTES_MAX,
{
}

proof fn lemma_scored(scores: Seq<u64>, count: int)
    requires
        0 <= count <= scores.len(),
    ensures
        forall|node: int| #[trigger]
            scored(scores, count).contains(node) <==> 0 <= node < count && scores[node] > 0,
        scored(scores, count).no_duplicates(),
    decreases count,
{
    if count > 0 {
        lemma_scored(scores, count - 1);
        let before = scored(scores, count - 1);
        let after = scored(scores, count);
        assert forall|node: int| #[trigger] after.contains(node) <==> 0 <= node < count
            && scores[node] > 0 by {
            if before.contains(node) {
                let k = choose|k: int| 0 <= k < before.len() && before[k] == node;
                assert(after[k] == node);
            }
            if after.contains(node) {
                let k = choose|k: int| 0 <= k < after.len() && after[k] == node;
                if k < before.len() {
                    assert(before[k] == node);
                    assert(before.contains(node));
                }
            }
            if node == count - 1 && scores[node] > 0 {
                assert(after[after.len() - 1] == node);
            }
        }
        assert forall|a: int, b: int|
            0 <= a < after.len() && 0 <= b < after.len() && a != b implies after[a] != after[b] by {
            if a < before.len() {
                assert(before.contains(before[a]));
            }
            if b < before.len() {
                assert(before.contains(before[b]));
            }
        }
    }
}

/// The structural ranking holds every node that scored, once, and no other, as long as it is within
/// its cap; and among seeds, and among the others, a higher score comes first.
pub proof fn law_whatever_scored_is_ranked(seeds: Seq<usize>, scores: Seq<u64>)
    requires
        seeds.len() > 0,
    ensures
        ({
            let order = structure_order(seeds, scores);
            &&& order.len() < EXPLORE_RANKED_MAX ==> forall|node: int|
                0 <= node < scores.len() && #[trigger] scores[node] > 0 ==> order.contains(node)
            &&& forall|k: int|
                0 <= k < order.len() ==> 0 <= #[trigger] order[k] < scores.len()
                    && scores[order[k]] > 0
            &&& order.no_duplicates()
            &&& forall|a: int, b: int|
                0 <= a < b < order.len() && seeds.contains(#[trigger] order[a] as usize)
                    == seeds.contains(#[trigger] order[b] as usize) ==> scores[order[a]]
                    >= scores[order[b]]
        }),
{
    let kept = scored(scores, scores.len() as int);
    let keys = kept.map_values(
        |node: int| relevance_key(seeds.contains(node as usize), scores[node]),
    );
    let places = sorted_order(keys);
    let order = structure_order(seeds, scores);
    lemma_scored(scores, scores.len() as int);
    lemma_sorted_order(keys);
    assert(forall|k: int| 0 <= k < order.len() ==> #[trigger] order[k] == kept[places[k]]);
    assert forall|k: int| 0 <= k < order.len() implies 0 <= #[trigger] order[k] < scores.len()
        && scores[order[k]] > 0 by {
        assert(kept.contains(kept[places[k]]));
    }
    assert forall|a: int, b: int|
        0 <= a < order.len() && 0 <= b < order.len() && a != b implies order[a] != order[b] by {
        if a < b {
            assert(comes_before(keys, places[a], places[b]));
        } else {
            assert(comes_before(keys, places[b], places[a]));
        }
        lemma_before_total(keys, places[a], places[b]);
    }
    assert forall|a: int, b: int|
        0 <= a < b < order.len() && seeds.contains(#[trigger] order[a] as usize) == seeds.contains(
            #[trigger] order[b] as usize,
        ) implies scores[order[a]] >= scores[order[b]] by {
        law_arranging_sorts(keys, a, b);
        let (left, right) = (keys[places[a]], keys[places[b]]);
        lemma_not_after(left, right);
        assert(left.skip(1)[0] == left[1] && right.skip(1)[0] == right[1]);
        lemma_not_after(left.skip(1), right.skip(1));
    }
    if order.len() < EXPLORE_RANKED_MAX {
        assert forall|node: int|
            0 <= node < scores.len() && #[trigger] scores[node] > 0 implies order.contains(node) by {
            assert(kept.contains(node));
            let p = choose|p: int| 0 <= p < kept.len() && kept[p] == node;
            assert(places.contains(p));
            let k = choose|k: int| 0 <= k < places.len() && places[k] == p;
            assert(order[k] == node);
        }
    }
}

// ---------------------------------------------------------------------------
// What the words of a query find

proof fn lemma_tokens_in(text: Seq<char>, tokens: Seq<Seq<char>>, count: int)
    requires
        0 <= count <= tokens.len(),
    ensures
        tokens_in(text, tokens.take(count)) == numbers::indices(
            count,
            |i: int| occurs(text, tokens[i]),
        ).len(),
    decreases count,
{
    let holds = |i: int| occurs(text, tokens[i]);
    lemma_indices(count, holds);
    if count > 0 {
        lemma_tokens_in(text, tokens, count - 1);
        assert(tokens.take(count).drop_last() =~= tokens.take(count - 1));
    }
}

/// The coverage of a file by name is the most words of the query that stand in the name of one of
/// its symbols: no symbol's name holds more, and unless it is nothing one symbol's name holds as
/// many.
pub proof fn law_the_best_name_counts(
    nodes: Seq<Node>,
    positions: Seq<usize>,
    tokens: Seq<Seq<char>>,
)
    ensures
        forall|k: int|
            0 <= k < positions.len() ==> words_held(
                lowercased(nodes[(#[trigger] positions[k]) as int].name@),
                tokens,
            ) <= name_coverage(nodes, positions, tokens),
        name_coverage(nodes, positions, tokens) == 0 || exists|k: int|
            0 <= k < positions.len() && words_held(
                lowercased(nodes[(#[trigger] positions[k]) as int].name@),
                tokens,
            ) == name_coverage(nodes, positions, tokens),
    decreases positions.len(),
{
    if positions.len() > 0 {
        let rest = positions.drop_last();
        law_the_best_name_counts(nodes, rest, tokens);
        let last = lowercased(nodes[positions.last() as int].name@);
        lemma_tokens_in(last, tokens, tokens.len() as int);
        assert(tokens.take(tokens.len() as int) =~= tokens);
        assert(forall|k: int| 0 <= k < rest.len() ==> #[trigger] positions[k] == rest[k]);
        let best = name_coverage(nodes, positions, tokens);
        if best == words_held(last, tokens) {
            assert(positions[positions.len() - 1] == positions.last());
        } else if best != 0 {
            let k = choose|k: int|
                0 <= k < rest.len() && words_held(
                    lowercased(nodes[(#[trigger] rest[k]) as int].name@),
                    tokens,
                ) == best;
            assert(positions[k] == rest[k]);
        }
    }
}

/// How many words of the query stand in the text.
pub open spec fn words_held(text: Seq<char>, tokens: Seq<Seq<char>>) -> nat {
    numbers::indices(tokens.len() as int, |i: int| occurs(text, tokens[i])).len()
}

proof fn lemma_exact_names(
    nodes: Seq<Node>,
    positions: Seq<usize>,
    tokens: Seq<Seq<char>>,
    count: int,
)
    requires
        0 <= count <= tokens.len(),
    ensures
        exact_names(nodes, positions, tokens.take(count)) == numbers::indices(
            count,
            |i: int|
                exists|k: int|
                    0 <= k < positions.len() && ascii_lower_spec(
                        nodes[(#[trigger] positions[k]) as int].name@,
                    ) == ascii_lower_spec(tokens[i]),
        ).len(),
    decreases count,
{
    let holds = |i: int|
        exists|k: int|
            0 <= k < positions.len() && ascii_lower_spec(
                nodes[(#[trigger] positions[k]) as int].name@,
            ) == ascii_lower_spec(tokens[i]);
    lemma_indices(count, holds);
    if count > 0 {
        lemma_exact_names(nodes, positions, tokens, count - 1);
        assert(tokens.take(count).drop_last() =~= tokens.take(count - 1));
        assert(names_it(nodes, positions, tokens[count - 1]) == holds(count - 1));
    }
}

/// The exact hits of a file are the words of the query, each counted, that are the name of one of
/// its symbols, whatever the case of their ASCII letters.
pub proof fn law_exact_names_are_counted(
    nodes: Seq<Node>,
    positions: Seq<usize>,
    tokens: Seq<Seq<char>>,
)
    ensures
        exact_names(nodes, positions, tokens) == numbers::indices(
            tokens.len() as int,
            |i: int|
                exists|k: int|
                    0 <= k < positions.len() && ascii_lower_spec(
                        nodes[(#[trigger] positions[k]) as int].name@,
                    ) == ascii_lower_spec(tokens[i]),
        ).len(),
{
    lemma_exact_names(nodes, positions, tokens, tokens.len() as int);
    assert(tokens.take(tokens.len() as int) =~= tokens);
}

proof fn lemma_compound_tokens(path: Seq<char>, tokens: Seq<Seq<char>>, count: int)
    requires
        0 <= count <= tokens.len(),
    ensures
        compound_tokens_in(path, tokens.take(count)) == numbers::indices(
            count,
            |i: int| tokens[i].contains('_') && occurs(path, tokens[i]),
        ).len(),
    decreases count,
{
    let holds = |i: int| tokens[i].contains('_') && occurs(path, tokens[i]);
    lemma_indices(count, holds);
    if count > 0 {
        lemma_compound_tokens(path, tokens, count - 1);
        assert(tokens.take(count).drop_last() =~= tokens.take(count - 1));
        let token = tokens[count - 1];
        reveal_strlit("_");
        if occurs(token, "_"@) {
            let at = choose|at: int| occurs_at(token, "_"@, at);
            assert(token.subrange(at, at + 1)[0] == token[at]);
            assert(token.contains('_'));
        }
        if token.contains('_') {
            let at = choose|at: int| 0 <= at < token.len() && token[at] == '_';
            assert(token.subrange(at, at + 1) =~= "_"@);
            assert(occurs_at(token, "_"@, at));
        }
    }
}

/// The coverage of a file by path is the number of words of the query that hold an underscore and
/// stand in the path of the file.
pub proof fn law_compound_words_are_counted_in_the_path(
    nodes: Seq<Node>,
    positions: Seq<usize>,
    tokens: Seq<Seq<char>>,
)
    ensures
        positions.len() == 0 ==> path_coverage(nodes, positions, tokens) == 0,
        positions.len() > 0 ==> path_coverage(nodes, positions, tokens) == numbers::indices(
            tokens.len() as int,
            |i: int|
                tokens[i].contains('_') && occurs(
                    lowercased(nodes[positions[0] as int].file_path@),
                    tokens[i],
                ),
        ).len(),
{
    if positions.len() > 0 {
        lemma_compound_tokens(
            lowercased(nodes[positions[0] as int].file_path@),
            tokens,
            tokens.len() as int,
        );
        assert(tokens.take(tokens.len() as int) =~= tokens);
    }
}

/// A rarer word weighs no less, and a word that only one file holds weighs the whole.
pub proof fn law_rarer_words_weigh_more(files: int, rarer: int, commoner: int)
    requires
        0 <= files,
        0 <= rarer <= commoner,
    ensures
        token_weight(files, rarer) >= token_weight(files, commoner),
        token_weight(files, 1) == 1000 * files,
        files > 0 && 2 * rarer <= commoner && 1 <= rarer && commoner <= files ==> token_weight(
            files,
            rarer,
        ) > token_weight(files, commoner),
{
    let fewer = if rarer >= 1 {
        rarer
    } else {
        1
    };
    let more = if commoner >= 1 {
        commoner
    } else {
        1
    };
    lemma_div_is_ordered_by_denominator(files * 1000, fewer, more);
    lemma_div_basics_2(files * 1000);
    if files > 0 && 2 * rarer <= commoner && 1 <= rarer && commoner <= files {
        let total = files * 1000;
        let low = total / commoner;
        let high = total / rarer;
        lemma_fundamental_div_mod(total, commoner);
        lemma_fundamental_div_mod(total, rarer);
        assert(low * commoner <= total) by (nonlinear_arith)
            requires
                total == commoner * low + total % commoner,
                0 <= total % commoner,
        ;
        assert(low >= 1) by (nonlinear_arith)
            requires
                total == commoner * low + total % commoner,
                total % commoner < commoner,
                commoner <= files,
                total == files * 1000,
                files > 0,
        ;
        assert(high >= 2 * low) by (nonlinear_arith)
            requires
                low * commoner <= total,
                2 * rarer <= commoner,
                1 <= rarer,
                0 <= low,
                total == rarer * high + total % rarer,
                0 <= total % rarer < rarer,
        ;
    }
}

proof fn lemma_open_piece(query: Seq<char>, start: int, count: int)
    requires
        0 <= start <= count <= query.len(),
        start > 0 ==> !token_char(query[start - 1]),
        forall|k: int| start <= k < count ==> token_char(#[trigger] query[k]),
    ensures
        pieces_upto(query, count).1 == query.subrange(start, count),
    decreases count,
{
    if count > start {
        assert(token_char(query[count - 1]));
        lemma_open_piece(query, start, count - 1);
        assert(query.subrange(start, count) =~= query.subrange(start, count - 1).push(
            query[count - 1],
        ));
    } else {
        assert(query.subrange(start, count) =~= Seq::empty());
    }
}

proof fn lemma_pieces_stay(query: Seq<char>, fewer: int, more: int, piece: Seq<char>)
    requires
        0 <= fewer <= more <= query.len(),
        pieces_upto(query, fewer).0.contains(piece),
    ensures
        pieces_upto(query, more).0.contains(piece),
    decreases more - fewer,
{
    if fewer < more {
        lemma_pieces_stay(query, fewer, more - 1, piece);
        let before = pieces_upto(query, more - 1).0;
        let k = choose|k: int| 0 <= k < before.len() && before[k] == piece;
        assert(pieces_upto(query, more).0[k] == piece);
    }
}

proof fn lemma_content_tokens(pieces: Seq<Seq<char>>, token: Seq<char>)
    ensures
        content_tokens(pieces).contains(token) <==> !stop_word(token) && exists|k: int|
            0 <= k < pieces.len() && (#[trigger] pieces[k]).len() >= 3 && lowercased(pieces[k])
                == token,
    decreases pieces.len(),
{
    let tokens = content_tokens(pieces);
    if pieces.len() == 0 {
        assert(!tokens.contains(token));
    } else {
        let fewer = pieces.drop_last();
        lemma_content_tokens(fewer, token);
        let before = content_tokens(fewer);
        if before.contains(token) {
            let k = choose|k: int| 0 <= k < before.len() && before[k] == token;
            assert(tokens[k] == token);
            let p = choose|p: int|
                0 <= p < fewer.len() && (#[trigger] fewer[p]).len() >= 3 && lowercased(fewer[p])
                    == token;
            assert(pieces[p] == fewer[p]);
        }
        let last = pieces[pieces.len() - 1];
        if last.len() >= 3 && lowercased(last) == token && !stop_word(token) {
            assert(tokens[tokens.len() - 1] == token);
        }
        if tokens.contains(token) && !before.contains(token) {
            let k = choose|k: int| 0 <= k < tokens.len() && tokens[k] == token;
            if k < before.len() {
                assert(before[k] == token);
            }
            assert(pieces[pieces.len() - 1].len() >= 3);
        }
        if exists|k: int|
            0 <= k < pieces.len() && (#[trigger] pieces[k]).len() >= 3 && lowercased(pieces[k])
                == token {
            let k = choose|k: int|
                0 <= k < pieces.len() && (#[trigger] pieces[k]).len() >= 3 && lowercased(pieces[k])
                    == token;
            if k < fewer.len() {
                assert(fewer[k] == pieces[k]);
            }
        }
    }
}

/// Every word of a query counts: a run of letters, digits and underscores with none of them before
/// or behind it is one of the query's words, in lower case, where it has three characters or more
/// and is no stop word.
pub proof fn law_every_word_of_a_query_counts(query: Seq<char>, start: int, end: int)
    requires
        0 <= start <= end <= query.len(),
        end - start >= 3,
        start > 0 ==> !is_word_char(query[start - 1]) && query[start - 1] != '_',
        end < query.len() ==> !is_word_char(query[end]) && query[end] != '_',
        forall|k: int| start <= k < end ==> is_word_char(#[trigger] query[k]) || query[k] == '_',
    ensures
        query_tokens_spec(query).contains(lowercased(query.subrange(start, end))) <==> !stop_word(
            lowercased(query.subrange(start, end)),
        ),
{
    let word = query.subrange(start, end);
    let pieces = query_pieces(query);
    lemma_open_piece(query, start, end);
    if end < query.len() {
        let done = pieces_upto(query, end + 1).0;
        assert(done[done.len() - 1] == word);
        lemma_pieces_stay(query, end + 1, query.len() as int, word);
        let all = pieces_upto(query, query.len() as int).0;
        let k = choose|k: int| 0 <= k < all.len() && all[k] == word;
        assert(pieces[k] == word);
    } else {
        assert(pieces[pieces.len() - 1] == word);
    }
    lemma_content_tokens(pieces, lowercased(word));
}

/// Nothing short and no stop word is among the words of a query.
pub proof fn law_stop_words_do_not_count(query: Seq<char>, token: Seq<char>)
    requires
        query_tokens_spec(query).contains(token),
    ensures
        !stop_word(token),
        exists|k: int|
            0 <= k < query_pieces(query).len() && (#[trigger] query_pieces(query)[k]).len() >= 3
                && lowercased(query_pieces(query)[k]) == token,
{
    lemma_content_tokens(query_pieces(query), token);
}

/// A file holds a word where its own name does, whichever way the path leans, or the name of one of
/// its symbols; what directory it lies in does not count.
pub proof fn law_a_file_holds_the_words_of_its_names(
    nodes: Seq<Node>,
    positions: Seq<usize>,
    token: Seq<char>,
    directory: Seq<char>,
    separator: char,
    name: Seq<char>,
)
    requires
        positions.len() > 0,
        separator == '/' || separator == '\\',
        nodes[positions[0] as int].file_path@ == directory + seq![separator] + name,
        forall|k: int| 0 <= k < name.len() ==> #[trigger] name[k] != '/' && name[k] != '\\',
    ensures
        has_token(nodes, positions, token) <==> occurs(lowercased(name), token) || exists|i: int|
            0 <= i < positions.len() && occurs(
                lowercased(nodes[#[trigger] positions[i] as int].name@),
                token,
            ),
{
    reveal_strlit("/");
    let path = nodes[positions[0] as int].file_path@;
    let turned = replaced(path, '\\', '/');
    let front = replaced(directory, '\\', '/');
    assert(turned =~= front + "/"@ + name);
    assert(!name.contains('/'));
    lemma_after_last(front, "/"@, name);
}

} // verus!
