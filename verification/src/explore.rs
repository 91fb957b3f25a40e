//! Explore: the ranked symbols of a query, grouped by file and rendered with their source.
use crate::chars::{
    after_last, after_last_spec, ascii_lower_spec, byte_len, bytes, cat2, cat3, cat5, char_bytes,
    contains, copy, first_from, join, join_spec, lemma_after_last, lemma_first_from, lemma_line_count, lines,
    lines_spec, occurs, occurs_at, replace, replaced, same_ignoring_ascii_case, split_from,
    split_spec, views,
};
use crate::fx::{positions_get, positions_held, positions_insert, positions_new};
use crate::graph::{Node, NodeKind};
use crate::limits::{
    EXPLORE_BYTES_MAX, EXPLORE_FULL_FILES_MAX, EXPLORE_LINES_MAX, EXPLORE_NEIGHBOURS_MAX,
    EXPLORE_RANKED_MAX, EXPLORE_SYMBOLS_PER_FILE_MAX, NODE_BODY_LINES_MAX, OUTLINE_DEPTH_MAX,
};
use crate::numbers::{self, decimal_spec, decimal_u32, decimal_usize, lemma_indices};
use crate::order::{
    indices, key_view, keys_view, law_arranging_sorts, lemma_not_after,
    lemma_sorted_order, sort_order, sorted_order, Part, PartView,
};
use crate::rank::{
    exact_name_hits, exact_names, file_has_token, has_token, name_coverage, name_token_coverage,
    path_coverage, path_token_coverage, positions_valid, token_weight, weight_of, weighted_score,
    weighted_token_score,
};
use crate::recency::{median_spec, median_weight};
use crate::text::{
    chars_within, fitted, law_fitted_within_budget, lemma_chars_within, truncate_at_boundary, ELLIPSIS,
};
use rustc_hash::FxHashMap;
use std::borrow::Cow;
use vstd::arithmetic::div_mod::lemma_div_pos_is_pos;
use vstd::prelude::*;

verus! {

// ---------------------------------------------------------------------------
// Grouping by file

/// The `project::path` key a file is grouped and looked up by.
pub open spec fn file_key_spec(project_id: Seq<char>, file_path: Seq<char>) -> Seq<char> {
    project_id + "::"@ + file_path
}

pub fn file_key(project_id: &str, file_path: &str) -> (key: String)
    ensures
        key@ == file_key_spec(project_id@, file_path@),
{
    cat3(project_id, "::", file_path)
}

/// The ranked symbols of one file, most relevant first, and the rank of the first.
pub struct FileGroup {
    pub key: String,
    pub positions: Vec<usize>,
    pub walk_rank: usize,
}

/// A file group as a value.
pub struct GroupView {
    pub key: Seq<char>,
    pub positions: Seq<usize>,
    pub walk_rank: int,
}

impl View for FileGroup {
    type V = GroupView;

    open spec fn view(&self) -> GroupView {
        GroupView {
            key: self.key@,
            positions: self.positions@,
            walk_rank: self.walk_rank as int,
        }
    }
}

/// File groups as values.
pub open spec fn group_views(groups: Seq<FileGroup>) -> Seq<GroupView> {
    groups.map_values(|group: FileGroup| group@)
}

/// A node explore leaves out: a container whose members carry the source, or one of a test or
/// generated file.
pub open spec fn left_out(node: Node) -> bool {
    node.kind is File || node.kind is Module || node.in_test_file || node.in_generated_file
}

/// The position, from `from` on, of the group with this key.
pub open spec fn group_at(groups: Seq<GroupView>, key: Seq<char>, from: int) -> Option<int>
    decreases groups.len() - from,
{
    if from < 0 || from >= groups.len() {
        None
    } else if groups[from].key == key {
        Some(from)
    } else {
        group_at(groups, key, from + 1)
    }
}

/// The first `count` ranked positions grouped by file, in order of first appearance.
pub open spec fn groups_upto(nodes: Seq<Node>, ranked: Seq<usize>, count: int) -> Seq<GroupView>
    decreases count,
{
    if count <= 0 {
        Seq::empty()
    } else {
        let groups = groups_upto(nodes, ranked, count - 1);
        let position = ranked[count - 1];
        let node = nodes[position as int];
        let key = file_key_spec(node.project_id@, node.file_path@);
        if left_out(node) {
            groups
        } else {
            match group_at(groups, key, 0) {
                Some(at) => groups.update(
                    at,
                    GroupView {
                        key: groups[at].key,
                        positions: groups[at].positions.push(position),
                        walk_rank: groups[at].walk_rank,
                    },
                ),
                None => groups.push(
                    GroupView { key, positions: seq![position], walk_rank: count - 1 },
                ),
            }
        }
    }
}

/// How many ranked positions are grouped.
pub open spec fn grouped_count(ranked: Seq<usize>) -> int {
    if ranked.len() > EXPLORE_RANKED_MAX {
        EXPLORE_RANKED_MAX as int
    } else {
        ranked.len() as int
    }
}

/// The ranked positions grouped by file.
pub open spec fn file_groups(nodes: Seq<Node>, ranked: Seq<usize>) -> Seq<GroupView> {
    groups_upto(nodes, ranked, grouped_count(ranked))
}

proof fn lemma_group_at(groups: Seq<GroupView>, key: Seq<char>, from: int)
    requires
        0 <= from,
    ensures
        match group_at(groups, key, from) {
            Some(at) => from <= at < groups.len() && groups[at].key == key && forall|k: int|
                from <= k < at ==> (#[trigger] groups[k]).key != key,
            None => forall|k: int| from <= k < groups.len() ==> (#[trigger] groups[k]).key != key,
        },
    decreases groups.len() - from,
{
    if from < groups.len() && groups[from].key != key {
        lemma_group_at(groups, key, from + 1);
    }
}

proof fn lemma_group_at_is(groups: Seq<GroupView>, key: Seq<char>, from: int, at: int)
    requires
        0 <= from <= at < groups.len(),
        groups[at].key == key,
        forall|k: int| from <= k < at ==> (#[trigger] groups[k]).key != key,
    ensures
        group_at(groups, key, from) == Some(at),
    decreases at - from,
{
    if from < at {
        lemma_group_at_is(groups, key, from + 1, at);
    }
}

/// The table holds the position of each group by its key.
spec fn table_of(table: FxHashMap<String, usize>, groups: Seq<GroupView>) -> bool {
    &&& forall|key: Seq<char>|
        #[trigger] positions_held(table).contains_key(key) <==> group_at(groups, key, 0) is Some
    &&& forall|key: Seq<char>|
        #[trigger] positions_held(table).contains_key(key) ==> group_at(groups, key, 0) == Some(
            positions_held(table)[key] as int,
        )
}

/// Every group holds at least one position, and all its positions name nodes.
pub open spec fn groups_valid(nodes: Seq<Node>, groups: Seq<GroupView>) -> bool {
    forall|i: int|
        0 <= i < groups.len() ==> (#[trigger] groups[i]).positions.len() > 0 && positions_valid(
            nodes,
            groups[i].positions,
        )
}

/// The ranked node positions grouped by file, in order of first (most relevant) appearance,
/// dropping container nodes and test and generated files. Every ranked position of a file is
/// kept, so the signals a file is ranked by see its whole matched surface.
pub fn group_by_file(nodes: &[Node], ranked: &[usize]) -> (groups: Vec<FileGroup>)
    requires
        positions_valid(nodes@, ranked@),
    ensures
        group_views(groups@) == file_groups(nodes@, ranked@),
        groups_valid(nodes@, group_views(groups@)),
        groups@.len() <= EXPLORE_RANKED_MAX,
{
    let mut groups: Vec<FileGroup> = Vec::new();
    let mut table: FxHashMap<String, usize> = positions_new();
    let count: usize = if ranked.len() > EXPLORE_RANKED_MAX {
        EXPLORE_RANKED_MAX
    } else {
        ranked.len()
    };
    assert(group_views(groups@) =~= Seq::empty());
    for rank in 0..count
        invariant
            positions_valid(nodes@, ranked@),
            count <= ranked@.len(),
            count <= EXPLORE_RANKED_MAX,
            groups@.len() <= rank,
            group_views(groups@) == groups_upto(nodes@, ranked@, rank as int),
            groups_valid(nodes@, group_views(groups@)),
            table_of(table, group_views(groups@)),
    {
        let position: usize = ranked[rank];
        assert(ranked@[rank as int] < nodes@.len());
        let node = &nodes[position];
        let container: bool = match node.kind {
            NodeKind::File | NodeKind::Module => true,
            _ => false,
        };
        if !(container || node.in_test_file || node.in_generated_file) {
            let key = file_key(node.project_id.as_str(), node.file_path.as_str());
            let ghost before = group_views(groups@);
            let ghost key_text = key@;
            match positions_get(&table, key.as_str()) {
                Some(at) => {
                    proof {
                        lemma_group_at(before, key_text, 0);
                    }
                    let old_group = &groups[at];
                    assert(before[at as int] == groups@[at as int]@);
                    let walk_rank: usize = old_group.walk_rank;
                    let mut positions: Vec<usize> = copy_positions(&old_group.positions);
                    positions.push(position);
                    let ghost grown = GroupView {
                        key: key_text,
                        positions: positions@,
                        walk_rank: walk_rank as int,
                    };
                    groups.set(at, FileGroup { key, positions, walk_rank });
                    let ghost after = group_views(groups@);
                    proof {
                        assert(after =~= before.update(at as int, grown));
                        assert forall|other: Seq<char>| group_at(after, other, 0) == group_at(
                            before,
                            other,
                            0,
                        ) by {
                            lemma_group_at(before, other, 0);
                            lemma_group_at(after, other, 0);
                            if let Some(k) = group_at(before, other, 0) {
                                lemma_group_at_is(after, other, 0, k);
                            } else if let Some(k) = group_at(after, other, 0) {
                                assert(before[k].key == other);
                            }
                        }
                        assert(positions_valid(nodes@, before[at as int].positions));
                        assert(positions_valid(nodes@, grown.positions));
                    }
                },
                None => {
                    let place: usize = groups.len();
                    positions_insert(&mut table, key.as_str(), place);
                    let mut positions: Vec<usize> = Vec::new();
                    positions.push(position);
                    assert(positions@ =~= seq![position]);
                    groups.push(FileGroup { key, positions, walk_rank: rank });
                    let ghost after = group_views(groups@);
                    proof {
                        let fresh = GroupView {
                            key: key_text,
                            positions: seq![position],
                            walk_rank: rank as int,
                        };
                        assert(after =~= before.push(fresh));
                        lemma_group_at(before, key_text, 0);
                        lemma_group_at_is(after, key_text, 0, place as int);
                        assert forall|other: Seq<char>| other != key_text implies group_at(
                            after,
                            other,
                            0,
                        ) == group_at(before, other, 0) by {
                            lemma_group_at(before, other, 0);
                            lemma_group_at(after, other, 0);
                            if let Some(k) = group_at(before, other, 0) {
                                lemma_group_at_is(after, other, 0, k);
                            } else if let Some(k) = group_at(after, other, 0) {
                                assert(before[k].key == other);
                            }
                        }
                    }
                },
            }
        }
    }
    groups
}

fn copy_positions(positions: &Vec<usize>) -> (out: Vec<usize>)
    ensures
        out@ == positions@,
{
    let mut out: Vec<usize> = Vec::new();
    for i in 0..positions.len()
        invariant
            out@ == positions@.take(i as int),
    {
        out.push(positions[i]);
        assert(positions@.take(i + 1) =~= positions@.take(i as int).push(positions@[i as int]));
    }
    assert(positions@.take(positions@.len() as int) =~= positions@);
    out
}

// ---------------------------------------------------------------------------
// Ranking the files

/// How many of the first `count` files hold the token.
pub open spec fn files_with(
    nodes: Seq<Node>,
    groups: Seq<GroupView>,
    token: Seq<char>,
    count: int,
) -> int
    decreases count,
{
    if count <= 0 {
        0
    } else {
        files_with(nodes, groups, token, count - 1) + if has_token(
            nodes,
            groups[count - 1].positions,
            token,
        ) {
            1int
        } else {
            0
        }
    }
}

/// The document frequency of a token: how many candidate files hold it.
pub open spec fn frequency_spec(nodes: Seq<Node>, groups: Seq<GroupView>, token: Seq<char>) -> int {
    files_with(nodes, groups, token, groups.len() as int)
}

/// The query is short enough for its weights to be summed.
pub open spec fn tokens_fit(count: int) -> bool {
    count * (EXPLORE_RANKED_MAX * 1000) <= u64::MAX
}

/// The number of candidate files containing each query token, in the tokens' order: the
/// document frequency the weighting divides by.
pub fn document_frequencies(
    nodes: &[Node],
    groups: &[FileGroup],
    tokens: &[String],
) -> (frequencies: Vec<usize>)
    requires
        groups_valid(nodes@, group_views(groups@)),
        groups@.len() <= EXPLORE_RANKED_MAX,
        tokens_fit(tokens@.len() as int),
    ensures
        frequencies@.len() == tokens@.len(),
        forall|i: int|
            0 <= i < tokens@.len() ==> #[trigger] frequencies@[i] == frequency_spec(
                nodes@,
                group_views(groups@),
                views(tokens@)[i],
            ),
{
    let ghost group_list = group_views(groups@);
    let ghost all = views(tokens@);
    let mut frequencies: Vec<usize> = Vec::new();
    for t in 0..tokens.len()
        invariant
            group_list == group_views(groups@),
            all == views(tokens@),
            groups_valid(nodes@, group_list),
            groups@.len() <= EXPLORE_RANKED_MAX,
            tokens_fit(tokens@.len() as int),
            frequencies@.len() == t,
            forall|i: int|
                0 <= i < t ==> #[trigger] frequencies@[i] == frequency_spec(
                    nodes@,
                    group_list,
                    all[i],
                ),
    {
        let token = tokens[t].as_str();
        assert(all[t as int] == token@);
        let mut files: usize = 0;
        for g in 0..groups.len()
            invariant
                group_list == group_views(groups@),
                groups_valid(nodes@, group_list),
                files == files_with(nodes@, group_list, token@, g as int),
                files <= g,
        {
            assert(group_list[g as int] == groups@[g as int]@);
            if file_has_token(nodes, groups[g].positions.as_slice(), token) {
                files += 1;
            }
        }
        frequencies.push(files);
    }
    frequencies
}

/// The number of candidate files, at least one.
pub open spec fn file_total_spec(groups: Seq<GroupView>) -> int {
    if groups.len() == 0 {
        1
    } else {
        groups.len() as int
    }
}

/// The median weight of the query's tokens across the candidate files: what the recency bonus
/// is capped against.
pub open spec fn token_median_spec(
    nodes: Seq<Node>,
    groups: Seq<GroupView>,
    tokens: Seq<Seq<char>>,
) -> int {
    median_spec(
        Seq::new(
            tokens.len(),
            |i: int|
                token_weight(
                    file_total_spec(groups),
                    frequency_spec(nodes, groups, tokens[i]),
                ) as u64,
        ),
    )
}

pub fn token_median(nodes: &[Node], groups: &[FileGroup], tokens: &[String]) -> (median: u64)
    requires
        groups_valid(nodes@, group_views(groups@)),
        groups@.len() <= EXPLORE_RANKED_MAX,
        tokens_fit(tokens@.len() as int),
    ensures
        median == token_median_spec(nodes@, group_views(groups@), views(tokens@)),
{
    let frequencies = document_frequencies(nodes, groups, tokens);
    let file_total: usize = if groups.len() == 0 { 1 } else { groups.len() };
    let ghost wanted = Seq::new(
        tokens@.len(),
        |i: int|
            token_weight(
                file_total_spec(group_views(groups@)),
                frequency_spec(nodes@, group_views(groups@), views(tokens@)[i]),
            ) as u64,
    );
    let mut weights: Vec<u64> = Vec::new();
    for i in 0..frequencies.len()
        invariant
            frequencies@.len() == tokens@.len(),
            file_total <= EXPLORE_RANKED_MAX,
            file_total == file_total_spec(group_views(groups@)),
            wanted == Seq::new(
                tokens@.len(),
                |i: int|
                    token_weight(
                        file_total_spec(group_views(groups@)),
                        frequency_spec(
                            nodes@,
                            group_views(groups@),
                            views(tokens@)[i],
                        ),
                    ) as u64,
            ),
            forall|k: int|
                0 <= k < tokens@.len() ==> #[trigger] frequencies@[k] == frequency_spec(
                    nodes@,
                    group_views(groups@),
                    views(tokens@)[k],
                ),
            weights@ == wanted.take(i as int),
    {
        assert(frequencies@[i as int] == frequency_spec(
            nodes@,
            group_views(groups@),
            views(tokens@)[i as int],
        ));
        weights.push(weight_of(file_total, frequencies[i]));
        assert(wanted.take(i + 1) =~= wanted.take(i as int).push(wanted[i as int]));
    }
    assert(wanted.take(tokens@.len() as int) =~= wanted);
    median_weight(weights.as_mut_slice())
}

/// The relevance of one file to the query.
pub struct FileScore {
    /// The compound query tokens appearing in the file's path.
    pub path: int,
    /// The most query tokens any one symbol name in the file covers.
    pub name: int,
    /// The query tokens that exactly name a symbol defined here.
    pub exact: int,
    /// The weighted token relevance, plus the capped recency bonus.
    pub weighted: int,
    /// The position the structural walk put this file at.
    pub walk_rank: int,
}

/// The relevance of a file group to the query, with the recency bonus of its file.
pub open spec fn file_score(
    nodes: Seq<Node>,
    groups: Seq<GroupView>,
    tokens: Seq<Seq<char>>,
    frequencies: Seq<usize>,
    bonus: u64,
    at: int,
) -> FileScore {
    let positions = groups[at].positions;
    let weighted = weighted_score(
        nodes,
        positions,
        tokens,
        frequencies,
        file_total_spec(groups),
    ) + bonus;
    FileScore {
        path: path_coverage(nodes, positions, tokens) as int,
        name: name_coverage(nodes, positions, tokens) as int,
        exact: exact_names(nodes, positions, tokens) as int,
        weighted: if weighted > u64::MAX {
            u64::MAX as int
        } else {
            weighted
        },
        walk_rank: groups[at].walk_rank,
    }
}

/// The query named something in the file, by symbol name or path, rather than merely
/// accumulating token mass.
pub open spec fn names_a_word(score: FileScore) -> bool {
    score.path > 0 || score.name > 0 || score.exact > 0
}

/// The sort key of a file: the three name signals descending, then the weight descending, then
/// the structural rank, then the key itself.
pub open spec fn score_key(score: FileScore, key: Seq<char>) -> Seq<PartView> {
    seq![
        PartView::Number(-score.path),
        PartView::Number(-score.name),
        PartView::Number(-score.exact),
        PartView::Number(-score.weighted),
        PartView::Number(score.walk_rank),
        PartView::Text(key),
    ]
}

/// The document frequencies of the tokens.
pub open spec fn frequencies_spec(
    nodes: Seq<Node>,
    groups: Seq<GroupView>,
    tokens: Seq<Seq<char>>,
) -> Seq<usize> {
    Seq::new(tokens.len(), |i: int| frequency_spec(nodes, groups, tokens[i]) as usize)
}

/// The scores of all files.
pub open spec fn file_scores(
    nodes: Seq<Node>,
    groups: Seq<GroupView>,
    tokens: Seq<Seq<char>>,
    bonuses: Seq<u64>,
) -> Seq<FileScore> {
    Seq::new(
        groups.len(),
        |i: int|
            file_score(
                nodes,
                groups,
                tokens,
                frequencies_spec(nodes, groups, tokens),
                bonuses[i],
                i,
            ),
    )
}

/// The files in the order they are listed, at most so many of them.
pub open spec fn file_order(
    nodes: Seq<Node>,
    groups: Seq<GroupView>,
    tokens: Seq<Seq<char>>,
    bonuses: Seq<u64>,
    max_files: int,
) -> Seq<int> {
    let scores = file_scores(nodes, groups, tokens, bonuses);
    let order = sorted_order(
        Seq::new(groups.len(), |i: int| score_key(scores[i], groups[i].key)),
    );
    if order.len() > max_files {
        order.take(max_files)
    } else {
        order
    }
}

/// How many leading files of the order name a query word.
pub open spec fn named_prefix(scores: Seq<FileScore>, order: Seq<int>) -> int
    decreases order.len(),
{
    if order.len() == 0 || !names_a_word(scores[order[0]]) {
        0
    } else {
        1 + named_prefix(scores, order.skip(1))
    }
}

/// The files an answer lists, by position among the groups, and how many of the leading ones
/// name a query word.
pub struct FileListing {
    pub order: Vec<usize>,
    pub named_prefix: usize,
}

struct Score {
    path: usize,
    name: usize,
    exact: usize,
    weighted: u64,
    walk_rank: usize,
}

impl View for Score {
    type V = FileScore;

    closed spec fn view(&self) -> FileScore {
        FileScore {
            path: self.path as int,
            name: self.name as int,
            exact: self.exact as int,
            weighted: self.weighted as int,
            walk_rank: self.walk_rank as int,
        }
    }
}

fn score_files(
    nodes: &[Node],
    groups: &[FileGroup],
    tokens: &[String],
    bonuses: &[u64],
) -> (scores: Vec<Score>)
    requires
        groups_valid(nodes@, group_views(groups@)),
        groups@.len() <= EXPLORE_RANKED_MAX,
        tokens_fit(tokens@.len() as int),
        bonuses@.len() == groups@.len(),
    ensures
        scores@.map_values(|score: Score| score@) == file_scores(
            nodes@,
            group_views(groups@),
            views(tokens@),
            bonuses@,
        ),
{
    let ghost group_list = group_views(groups@);
    let ghost all = views(tokens@);
    let frequencies = document_frequencies(nodes, groups, tokens);
    assert(frequencies@ =~= frequencies_spec(nodes@, group_list, all));
    let file_total: usize = if groups.len() == 0 { 1 } else { groups.len() };
    let ghost wanted = file_scores(nodes@, group_list, all, bonuses@);
    let mut scores: Vec<Score> = Vec::new();
    for i in 0..groups.len()
        invariant
            group_list == group_views(groups@),
            all == views(tokens@),
            groups_valid(nodes@, group_list),
            bonuses@.len() == groups@.len(),
            tokens_fit(tokens@.len() as int),
            file_total <= EXPLORE_RANKED_MAX,
            file_total == file_total_spec(group_list),
            frequencies@ == frequencies_spec(nodes@, group_list, all),
            frequencies@.len() == tokens@.len(),
            wanted == file_scores(nodes@, group_list, all, bonuses@),
            scores@.len() == i,
            forall|k: int| 0 <= k < i ==> (#[trigger] scores@[k])@ == wanted[k],
    {
        assert(group_list[i as int] == groups@[i as int]@);
        let positions = groups[i].positions.as_slice();
        assert(tokens@.len() * (file_total * 1000) <= tokens@.len() * (EXPLORE_RANKED_MAX * 1000))
            by (nonlinear_arith)
            requires
                file_total <= EXPLORE_RANKED_MAX,
        ;
        let weighted = weighted_token_score(
            nodes,
            positions,
            tokens,
            frequencies.as_slice(),
            file_total,
        ).saturating_add(bonuses[i]);
        let score = Score {
            path: path_token_coverage(nodes, positions, tokens),
            name: name_token_coverage(nodes, positions, tokens),
            exact: exact_name_hits(nodes, positions, tokens),
            weighted,
            walk_rank: groups[i].walk_rank,
        };
        assert(score@ == wanted[i as int]);
        scores.push(score);
    }
    assert(scores@.map_values(|score: Score| score@) =~= wanted);
    scores
}

/// The candidate files in the order an answer lists them: a file whose path covers the query's
/// compound tokens first, then by the most tokens one symbol name covers, then by exact symbol
/// names, then by weighted token relevance with the recency bonus of the file, then by
/// structural rank. `bonuses` holds the recency bonus of each file.
pub fn rank_files(
    nodes: &[Node],
    groups: &[FileGroup],
    tokens: &[String],
    bonuses: &[u64],
    max_files: u32,
) -> (listing: FileListing)
    requires
        groups_valid(nodes@, group_views(groups@)),
        groups@.len() <= EXPLORE_RANKED_MAX,
        tokens_fit(tokens@.len() as int),
        bonuses@.len() == groups@.len(),
    ensures
        indices(listing.order@) == file_order(
            nodes@,
            group_views(groups@),
            views(tokens@),
            bonuses@,
            max_files as int,
        ),
        listing.named_prefix == named_prefix(
            file_scores(nodes@, group_views(groups@), views(tokens@), bonuses@),
            indices(listing.order@),
        ),
        listing.named_prefix <= listing.order@.len(),
        forall|i: int|
            0 <= i < listing.order@.len() ==> #[trigger] listing.order@[i] < groups@.len(),
{
    let ghost group_list = group_views(groups@);
    let ghost all = views(tokens@);
    let scores = score_files(nodes, groups, tokens, bonuses);
    let ghost wanted = file_scores(nodes@, group_list, all, bonuses@);
    assert(scores@.len() == wanted.len()) by {
        assert(scores@.map_values(|score: Score| score@).len() == scores@.len());
    }
    let ghost key_list = Seq::new(
        group_list.len(),
        |i: int| score_key(wanted[i], group_list[i].key),
    );
    let mut keys: Vec<Vec<Part>> = Vec::new();
    for i in 0..groups.len()
        invariant
            group_list == group_views(groups@),
            wanted == scores@.map_values(|score: Score| score@),
            scores@.len() == groups@.len(),
            key_list == Seq::new(
                group_list.len(),
                |i: int| score_key(wanted[i], group_list[i].key),
            ),
            keys_view(keys@) == key_list.take(i as int),
    {
        let ghost before = keys@;
        assert(group_list[i as int] == groups@[i as int]@);
        assert(wanted[i as int] == scores@[i as int]@);
        let score = &scores[i];
        let mut key: Vec<Part> = Vec::new();
        key.push(Part::Number(-(score.path as i128)));
        key.push(Part::Number(-(score.name as i128)));
        key.push(Part::Number(-(score.exact as i128)));
        key.push(Part::Number(-(score.weighted as i128)));
        key.push(Part::Number(score.walk_rank as i128));
        key.push(Part::Text(copy(groups[i].key.as_str())));
        assert(key_view(key) =~= key_list[i as int]);
        keys.push(key);
        assert(keys_view(keys@) =~= keys_view(before).push(key_list[i as int]));
        assert(key_list.take(i + 1) =~= key_list.take(i as int).push(key_list[i as int]));
    }
    assert(key_list.take(groups@.len() as int) =~= key_list);
    assert(keys@.len() == keys_view(keys@).len());
    let mut order = sort_order(&keys);
    let ghost full = indices(order@);
    assert(full.len() == order@.len());
    if order.len() > max_files as usize {
        order.truncate(max_files as usize);
        assert(indices(order@) =~= full.take(max_files as int));
    }
    let ghost listed = indices(order@);
    let mut prefix: usize = 0;
    assert(listed.skip(0) =~= listed);
    let mut going: bool = true;
    while going && prefix < order.len()
        invariant
            listed == indices(order@),
            wanted == scores@.map_values(|score: Score| score@),
            scores@.len() == groups@.len(),
            forall|k: int| 0 <= k < order@.len() ==> #[trigger] order@[k] < groups@.len(),
            prefix <= order@.len(),
            going ==> named_prefix(wanted, listed) == prefix + named_prefix(
                wanted,
                listed.skip(prefix as int),
            ),
            !going ==> named_prefix(wanted, listed) == prefix,
        decreases order@.len() - prefix, if going { 1int } else { 0 },
    {
        let at: usize = order[prefix];
        assert(order@[prefix as int] < groups@.len());
        assert(listed.skip(prefix as int)[0] == at);
        assert(wanted[at as int] == scores@[at as int]@);
        if scores[at].path > 0 || scores[at].name > 0 || scores[at].exact > 0 {
            assert(listed.skip(prefix as int).skip(1) =~= listed.skip(prefix + 1));
            prefix += 1;
        } else {
            going = false;
        }
    }
    FileListing { order, named_prefix: prefix }
}

// ---------------------------------------------------------------------------
// Rendering the files

/// How many of the listed files render full source: none in outline mode, else the plain cap,
/// cut to the files that name a query word where any does.
pub open spec fn full_files_spec(outline: bool, prefix: int) -> int {
    if outline {
        0
    } else if prefix == 0 || prefix >= EXPLORE_FULL_FILES_MAX {
        EXPLORE_FULL_FILES_MAX as int
    } else {
        prefix
    }
}

pub fn full_files(outline: bool, prefix: usize) -> (count: usize)
    ensures
        count == full_files_spec(outline, prefix as int),
{
    if outline {
        0
    } else if prefix == 0 || prefix >= EXPLORE_FULL_FILES_MAX {
        EXPLORE_FULL_FILES_MAX
    } else {
        prefix
    }
}

/// The query gives the node's name, but for the case of ASCII letters.
pub open spec fn is_given(node: Node, tokens: Seq<Seq<char>>) -> bool {
    exists|i: int|
        0 <= i < tokens.len() && ascii_lower_spec(#[trigger] tokens[i]) == ascii_lower_spec(
            node.name@,
        )
}

/// The positions whose node the query names.
pub open spec fn named_positions(
    nodes: Seq<Node>,
    positions: Seq<usize>,
    tokens: Seq<Seq<char>>,
) -> Seq<usize>
    decreases positions.len(),
{
    if positions.len() == 0 {
        Seq::empty()
    } else {
        let rest = named_positions(nodes, positions.drop_last(), tokens);
        if is_given(nodes[positions.last() as int], tokens) {
            rest.push(positions.last())
        } else {
            rest
        }
    }
}

/// The positions with the first of the others added, up to a size.
pub open spec fn with_neighbours(named: Seq<usize>, others: Seq<usize>, size: int) -> Seq<usize>
    decreases others.len(),
{
    if others.len() == 0 {
        named
    } else {
        let grown = with_neighbours(named, others.drop_last(), size);
        if grown.len() >= size || grown.contains(others.last()) {
            grown
        } else {
            grown.push(others.last())
        }
    }
}

/// The symbol stands on lines counted from one, the last not before the first.
pub open spec fn span_valid(node: Node) -> bool {
    1 <= node.span.start_line <= node.span.end_line
}

/// Every symbol at these positions stands on such lines.
pub open spec fn spans_valid_at(nodes: Seq<Node>, positions: Seq<usize>) -> bool {
    forall|i: int| 0 <= i < positions.len() ==> span_valid(nodes[#[trigger] positions[i] as int])
}

/// The positions to render for a file: where the query named symbols in it, those and a couple
/// of neighbours for context; else all of them.
pub open spec fn focused_spec(
    nodes: Seq<Node>,
    positions: Seq<usize>,
    tokens: Seq<Seq<char>>,
) -> Seq<usize> {
    let named = named_positions(nodes, positions, tokens);
    if named.len() == 0 {
        positions
    } else {
        with_neighbours(named, positions, named.len() + EXPLORE_NEIGHBOURS_MAX)
    }
}

fn query_gives(node: &Node, tokens: &[String]) -> (found: bool)
    ensures
        found == is_given(*node, views(tokens@)),
{
    for i in 0..tokens.len()
        invariant
            forall|k: int|
                0 <= k < i ==> ascii_lower_spec(#[trigger] views(tokens@)[k]) != ascii_lower_spec(
                    node.name@,
                ),
    {
        assert(views(tokens@)[i as int] == tokens@[i as int]@);
        if same_ignoring_ascii_case(tokens[i].as_str(), node.name.as_str()) {
            return true;
        }
    }
    assert(views(tokens@).len() == tokens@.len());
    false
}

fn holds_position(positions: &Vec<usize>, wanted: usize) -> (found: bool)
    ensures
        found == positions@.contains(wanted),
{
    for i in 0..positions.len()
        invariant
            forall|k: int| 0 <= k < i ==> positions@[k] != wanted,
    {
        if positions[i] == wanted {
            return true;
        }
    }
    false
}

/// The positions to render for a file: where the query named symbols in it, those and a couple
/// of neighbours for context, since a caller who typed an identifier asked about that
/// identifier; else the ranked positions untouched.
pub fn focused_positions(nodes: &[Node], positions: &[usize], tokens: &[String]) -> (focused: Vec<usize>)
    requires
        positions_valid(nodes@, positions@),
    ensures
        focused@ == focused_spec(nodes@, positions@, views(tokens@)),
        positions_valid(nodes@, focused@),
        spans_valid_at(nodes@, positions@) ==> spans_valid_at(nodes@, focused@),
        positions@.len() > 0 ==> focused@.len() > 0,
{
    let ghost all = views(tokens@);
    let mut named: Vec<usize> = Vec::new();
    for i in 0..positions.len()
        invariant
            positions_valid(nodes@, positions@),
            positions_valid(nodes@, named@),
            spans_valid_at(nodes@, positions@) ==> spans_valid_at(nodes@, named@),
            all == views(tokens@),
            named@ == named_positions(nodes@, positions@.take(i as int), all),
            named@.len() <= i,
    {
        assert(positions@.take(i + 1).drop_last() =~= positions@.take(i as int));
        assert(positions@[i as int] < nodes@.len());
        if query_gives(&nodes[positions[i]], tokens) {
            named.push(positions[i]);
        }
    }
    assert(positions@.take(positions@.len() as int) =~= positions@);
    let mut focused = copy_positions(&named);
    if named.len() == 0 {
        for i in 0..positions.len()
            invariant
                positions_valid(nodes@, positions@),
                focused@ == positions@.take(i as int),
        {
            focused.push(positions[i]);
            assert(positions@.take(i + 1) =~= positions@.take(i as int).push(positions@[i as int]));
        }
        assert(positions@.take(positions@.len() as int) =~= positions@);
        return focused;
    }
    let count: usize = named.len();
    for i in 0..positions.len()
        invariant
            positions_valid(nodes@, positions@),
            positions_valid(nodes@, focused@),
            spans_valid_at(nodes@, positions@) ==> spans_valid_at(nodes@, focused@),
            count == named@.len(),
            focused@.len() >= count,
            focused@ == with_neighbours(
                named@,
                positions@.take(i as int),
                count + EXPLORE_NEIGHBOURS_MAX,
            ),
    {
        assert(positions@.take(i + 1).drop_last() =~= positions@.take(i as int));
        assert(positions@[i as int] < nodes@.len());
        if focused.len() - count < EXPLORE_NEIGHBOURS_MAX && !holds_position(
            &focused,
            positions[i],
        ) {
            focused.push(positions[i]);
        }
    }
    assert(positions@.take(positions@.len() as int) =~= positions@);
    focused
}

/// The most relevant positions a file renders.
pub open spec fn capped(positions: Seq<usize>) -> Seq<usize> {
    if positions.len() > EXPLORE_SYMBOLS_PER_FILE_MAX {
        positions.take(EXPLORE_SYMBOLS_PER_FILE_MAX as int)
    } else {
        positions
    }
}

/// The sort key of a position in source order: by first line, an enclosing symbol first.
pub open spec fn source_key(node: Node) -> Seq<PartView> {
    seq![
        PartView::Number(node.span.start_line as int),
        PartView::Number(-(node.span.end_line as int)),
    ]
}

/// The positions in source order.
pub open spec fn in_source_order(nodes: Seq<Node>, positions: Seq<usize>) -> Seq<usize> {
    sorted_order(positions.map_values(|p: usize| source_key(nodes[p as int]))).map_values(
        |k: int| positions[k],
    )
}

fn lay_out(nodes: &[Node], positions: &[usize]) -> (ordered: Vec<usize>)
    requires
        positions_valid(nodes@, positions@),
    ensures
        ordered@ == in_source_order(nodes@, capped(positions@)),
        positions_valid(nodes@, ordered@),
        spans_valid_at(nodes@, positions@) ==> spans_valid_at(nodes@, ordered@),
        ordered@.len() == capped(positions@).len(),
{
    let ghost kept = capped(positions@);
    let count: usize = if positions.len() > EXPLORE_SYMBOLS_PER_FILE_MAX {
        EXPLORE_SYMBOLS_PER_FILE_MAX
    } else {
        positions.len()
    };
    let ghost key_list = kept.map_values(|p: usize| source_key(nodes@[p as int]));
    let mut keys: Vec<Vec<Part>> = Vec::new();
    for i in 0..count
        invariant
            positions_valid(nodes@, positions@),
            count <= positions@.len(),
            kept == capped(positions@),
            count == kept.len(),
            key_list == kept.map_values(|p: usize| source_key(nodes@[p as int])),
            keys_view(keys@) == key_list.take(i as int),
    {
        let ghost before = keys@;
        assert(positions@[i as int] < nodes@.len());
        assert(kept[i as int] == positions@[i as int]);
        let node = &nodes[positions[i]];
        let mut key: Vec<Part> = Vec::new();
        key.push(Part::Number(node.span.start_line as i128));
        key.push(Part::Number(-(node.span.end_line as i128)));
        assert(key_view(key) =~= key_list[i as int]);
        keys.push(key);
        assert(keys_view(keys@) =~= keys_view(before).push(key_list[i as int]));
        assert(key_list.take(i + 1) =~= key_list.take(i as int).push(key_list[i as int]));
    }
    assert(key_list.take(count as int) =~= key_list);
    assert(keys@.len() == keys_view(keys@).len());
    let order = sort_order(&keys);
    let ghost wanted = in_source_order(nodes@, kept);
    assert(indices(order@).len() == order@.len());
    let mut ordered: Vec<usize> = Vec::new();
    for i in 0..order.len()
        invariant
            positions_valid(nodes@, positions@),
            positions_valid(nodes@, ordered@),
            spans_valid_at(nodes@, positions@) ==> spans_valid_at(nodes@, ordered@),
            count <= positions@.len(),
            kept == capped(positions@),
            count == kept.len(),
            wanted == indices(order@).map_values(|k: int| kept[k]),
            wanted.len() == order@.len(),
            forall|k: int| 0 <= k < order@.len() ==> #[trigger] order@[k] < count,
            ordered@ == wanted.take(i as int),
    {
        assert(order@[i as int] < count);
        assert(indices(order@)[i as int] == order@[i as int]);
        assert(positions@[order@[i as int] as int] < nodes@.len());
        ordered.push(positions[order[i]]);
        assert(wanted.take(i + 1) =~= wanted.take(i as int).push(wanted[i as int]));
    }
    assert(wanted.take(order@.len() as int) =~= wanted);
    ordered
}

/// An answer being written: its text, the positions it shows, and the bytes and lines spent.
pub struct Page {
    pub text: String,
    pub emitted: Vec<usize>,
    pub budget: usize,
    pub lines: usize,
}

/// An answer being written, as a value.
pub struct PageView {
    pub text: Seq<char>,
    pub emitted: Seq<usize>,
    pub budget: int,
    pub lines: int,
}

impl View for Page {
    type V = PageView;

    open spec fn view(&self) -> PageView {
        PageView {
            text: self.text@,
            emitted: self.emitted@,
            budget: self.budget as int,
            lines: self.lines as int,
        }
    }
}

/// There is room for a text of this size.
pub open spec fn has_room(page: PageView, text: Seq<char>) -> bool {
    page.budget > bytes(text) && page.lines < EXPLORE_LINES_MAX
}

/// The heading of a symbol's source.
pub open spec fn source_header(node: Node) -> Seq<char> {
    "# ["@ + node.project_id@ + "] "@ + node.kind.label() + " "@ + node.name@ + " ("@
        + node.file_path@ + ":"@ + decimal_spec(node.span.start_line as nat) + ")\n"@
}

fn source_heading(node: &Node) -> (text: String)
    ensures
        text@ == source_header(*node),
{
    let mut text = cat5("# [", node.project_id.as_str(), "] ", node.kind.as_str(), " ");
    text.append(node.name.as_str());
    text.append(" (");
    text.append(node.file_path.as_str());
    text.append(":");
    text.append(decimal_u32(node.span.start_line).as_str());
    text.append(")\n");
    text
}

/// The first line of a symbol that is rendered: its first, or the one behind those already covered.
pub open spec fn shown_start(node: Node, covered: int) -> int {
    if node.span.start_line > covered {
        node.span.start_line as int
    } else {
        covered + 1
    }
}

/// The lines that one symbol may render where an answer has written so many.
pub open spec fn lines_left(written: int) -> int {
    if EXPLORE_LINES_MAX - written < NODE_BODY_LINES_MAX {
        EXPLORE_LINES_MAX - written
    } else {
        NODE_BODY_LINES_MAX as int
    }
}

/// The last line of a symbol that is rendered: a long body renders its head, and no more than the
/// lines that are left.
pub open spec fn shown_end(node: Node, covered: int, written: int) -> int {
    let start = shown_start(node, covered);
    if node.span.end_line - start + 1 > lines_left(written) {
        start + lines_left(written) - 1
    } else {
        node.span.end_line as int
    }
}

/// The lines from `start` to `end`, both counted from one and included, each behind its
/// number, as far as the source has them.
pub open spec fn numbered_lines(source: Seq<char>, start: int, end: int) -> Seq<Seq<char>> {
    let all = lines_spec(source);
    let last = if end < all.len() { end } else { all.len() as int };
    Seq::new(
        if start <= last { (last - start + 1) as nat } else { 0 },
        |i: int| decimal_spec((start + i) as nat) + "\t"@ + all[start - 1 + i],
    )
}

/// The numbered lines of a range, fitted to a byte budget.
pub open spec fn slice_lines_spec(source: Seq<char>, start: int, end: int, budget: int) -> Seq<
    char,
> {
    fitted(join_spec(numbered_lines(source, start, end), "\n"@), budget)
}

/// The 1-based line range from `start` to `end` extracted from `source`, each line behind its
/// number, truncated to the byte budget.
pub fn slice_lines(source: &str, start: u32, end: u32, budget: usize) -> (snippet: String)
    requires
        1 <= start <= end,
    ensures
        snippet@ == slice_lines_spec(source@, start as int, end as int, budget as int),
{
    let all = lines(source);
    let ghost wanted = numbered_lines(source@, start as int, end as int);
    assert(views(all@) == lines_spec(source@));
    assert(all@.len() == views(all@).len());
    let mut numbered: Vec<String> = Vec::new();
    let mut number: u32 = start;
    let mut going: bool = true;
    while going && number as u64 <= all.len() as u64
        invariant
            views(all@) == lines_spec(source@),
            all@.len() == views(all@).len(),
            wanted == numbered_lines(source@, start as int, end as int),
            1 <= start <= end,
            start <= number <= end,
            going ==> numbered@.len() == number - start,
            !going ==> numbered@.len() == wanted.len(),
            numbered@.len() <= wanted.len(),
            views(numbered@) == wanted.take(numbered@.len() as int),
        decreases end - number, if going { 1int } else { 0 },
    {
        let ghost before = numbered@;
        let at: usize = (number - 1) as usize;
        assert(views(all@)[at as int] == all@[at as int]@);
        numbered.push(cat3(decimal_u32(number).as_str(), "\t", all[at].as_str()));
        assert(wanted[number - start] == numbered@.last()@);
        assert(views(numbered@) =~= views(before).push(wanted[number - start]));
        assert(wanted.take(number - start + 1) =~= wanted.take(number - start).push(
            wanted[number - start],
        ));
        if number < end {
            number += 1;
        } else {
            going = false;
        }
    }
    assert(wanted.take(wanted.len() as int) =~= wanted);
    let body = join(numbered.as_slice(), "\n");
    match truncate_at_boundary(body.as_str(), budget) {
        Cow::Borrowed(text) => copy(text),
        Cow::Owned(text) => text,
    }
}

/// The state while a file's symbols are written with their source.
pub struct SourceState {
    pub page: PageView,
    pub covered: int,
    pub within: bool,
}

/// The mark behind a body that is cut.
pub open spec fn cut_note(node: Node, covered: int, written: int) -> Seq<char> {
    if shown_end(node, covered, written) < node.span.end_line {
        "\n… ("@ + decimal_spec((node.span.end_line - shown_end(node, covered, written)) as nat)
            + " more lines)"@
    } else {
        ""@
    }
}

/// One symbol written with its source, without the lines that one before it has written, unless it
/// lies within one already written or there is no room left.
pub open spec fn source_step(
    nodes: Seq<Node>,
    source: Seq<char>,
    position: usize,
    state: SourceState,
) -> SourceState {
    let node = nodes[position as int];
    let header = source_header(node);
    let room = state.page.budget - bytes(header);
    let snippet = slice_lines_spec(
        source,
        shown_start(node, state.covered),
        shown_end(node, state.covered, state.page.lines),
        room,
    );
    if !state.within || node.span.end_line <= state.covered {
        state
    } else if !has_room(state.page, header) {
        SourceState { within: false, ..state }
    } else {
        SourceState {
            page: PageView {
                text: state.page.text + header + snippet + cut_note(
                    node,
                    state.covered,
                    state.page.lines,
                ) + "\n\n"@,
                emitted: state.page.emitted.push(position),
                budget: room - bytes(snippet),
                lines: state.page.lines + lines_spec(snippet).len(),
            },
            covered: node.span.end_line as int,
            within: true,
        }
    }
}

/// The first `count` symbols of a file written with their source.
pub open spec fn source_upto(
    nodes: Seq<Node>,
    source: Seq<char>,
    ordered: Seq<usize>,
    count: int,
    page: PageView,
) -> SourceState
    decreases count,
{
    if count <= 0 {
        SourceState { page, covered: 0, within: true }
    } else {
        source_step(
            nodes,
            source,
            ordered[count - 1],
            source_upto(nodes, source, ordered, count - 1, page),
        )
    }
}

/// A file's symbols written with their source.
pub open spec fn emit_source(
    nodes: Seq<Node>,
    source: Seq<char>,
    positions: Seq<usize>,
    page: PageView,
) -> SourceState {
    let ordered = in_source_order(nodes, capped(positions));
    source_upto(nodes, source, ordered, ordered.len() as int, page)
}

/// What an answer being written keeps: a bounded budget and a bounded line count.
pub open spec fn page_bounded(page: PageView) -> bool {
    0 <= page.budget <= EXPLORE_BYTES_MAX && 0 <= page.lines <= 100_000
}

/// Once there is no room, nothing more is written.
proof fn lemma_source_stopped(
    nodes: Seq<Node>,
    source: Seq<char>,
    ordered: Seq<usize>,
    from: int,
    count: int,
    page: PageView,
)
    requires
        0 <= from <= count,
        !source_upto(nodes, source, ordered, from, page).within,
    ensures
        source_upto(nodes, source, ordered, count, page) == source_upto(
            nodes,
            source,
            ordered,
            from,
            page,
        ),
    decreases count - from,
{
    if from < count {
        lemma_source_stopped(nodes, source, ordered, from, count - 1, page);
    }
}

/// The symbols of one file written in source order, with no line written twice, skipping any whose
/// span lies within one already written for the file, charging each against the byte and line
/// budgets. Returns whether budget remains for more files.
pub fn emit_file_source(page: &mut Page, source: &str, nodes: &[Node], positions: &[usize]) -> (within: bool)
    requires
        positions_valid(nodes@, positions@),
        spans_valid_at(nodes@, positions@),
        page_bounded(old(page)@),
    ensures
        final(page)@ == emit_source(nodes@, source@, positions@, old(page)@).page,
        within == emit_source(nodes@, source@, positions@, old(page)@).within,
        page_bounded(final(page)@),
{
    let ordered = lay_out(nodes, positions);
    let ghost start = page@;
    let mut covered: u32 = 0;
    for i in 0..ordered.len()
        invariant
            positions_valid(nodes@, ordered@),
            spans_valid_at(nodes@, ordered@),
            ordered@ == in_source_order(nodes@, capped(positions@)),
            start == old(page)@,
            page_bounded(page@),
            source_upto(nodes@, source@, ordered@, i as int, start) == (SourceState {
                page: page@,
                covered: covered as int,
                within: true,
            }),
    {
        let position: usize = ordered[i];
        assert(ordered@[i as int] < nodes@.len());
        let node = &nodes[position];
        assert(span_valid(nodes@[ordered@[i as int] as int]));
        if node.span.end_line > covered {
            let header = source_heading(node);
            let size: usize = byte_len(header.as_str());
            if page.budget <= size || page.lines >= EXPLORE_LINES_MAX {
                proof {
                    lemma_source_stopped(
                        nodes@,
                        source@,
                        ordered@,
                        i + 1,
                        ordered@.len() as int,
                        start,
                    );
                }
                return false;
            }
            let room: usize = page.budget - size;
            let start_line: u32 = if node.span.start_line > covered {
                node.span.start_line
            } else {
                covered + 1
            };
            let left: usize = EXPLORE_LINES_MAX - page.lines;
            let most: u32 = if left < NODE_BODY_LINES_MAX as usize {
                left as u32
            } else {
                NODE_BODY_LINES_MAX
            };
            let end_line: u32 = if node.span.end_line - start_line >= most {
                start_line + (most - 1)
            } else {
                node.span.end_line
            };
            let snippet = slice_lines(source, start_line, end_line, room);
            proof {
                law_fitted_within_budget(
                    join_spec(
                        numbered_lines(source@, start_line as int, end_line as int),
                        "\n"@,
                    ),
                    room as int,
                );
                lemma_line_count(snippet@);
            }
            page.text.append(header.as_str());
            page.text.append(snippet.as_str());
            let note = if end_line < node.span.end_line {
                cat3("\n… (", decimal_u32(node.span.end_line - end_line).as_str(), " more lines)")
            } else {
                copy("")
            };
            page.text.append(note.as_str());
            page.text.append("\n\n");
            page.budget = room - byte_len(snippet.as_str());
            let written = lines(snippet.as_str());
            assert(written@.len() == views(written@).len());
            page.lines = page.lines + written.len();
            covered = node.span.end_line;
            page.emitted.push(position);
        }
    }
    true
}

/// The nested spans still open at this line.
pub open spec fn still_open(ends: Seq<u32>, line: u32) -> Seq<u32>
    decreases ends.len(),
{
    if ends.len() > 0 && line > ends.last() {
        still_open(ends.drop_last(), line)
    } else {
        ends
    }
}

/// Two spaces for each level.
pub open spec fn indent(depth: int) -> Seq<char>
    decreases depth,
{
    if depth <= 0 {
        ""@
    } else {
        indent(depth - 1) + "  "@
    }
}

/// The level a symbol is outlined at.
pub open spec fn outline_depth(ends: Seq<u32>, node: Node) -> int {
    let depth = still_open(ends, node.span.start_line).len() as int;
    if depth > OUTLINE_DEPTH_MAX {
        OUTLINE_DEPTH_MAX as int
    } else {
        depth
    }
}

/// The name a symbol is outlined by: at the root the dotted tail of its qualified name, where
/// it has one, says whose it is.
pub open spec fn outline_name(node: Node, depth: int) -> Seq<char> {
    let tail = after_last_spec(node.qualified_name@, "::"@);
    if depth == 0 && occurs(tail, "."@) {
        tail
    } else {
        node.name@
    }
}

/// One outlined symbol: its header and, where there is one, its signature.
pub open spec fn outline_line(node: Node, depth: int) -> Seq<char> {
    let signature = match node.signature {
        Some(signature) => "  "@ + replaced(signature@, '\n', ' '),
        None => ""@,
    };
    "# "@ + indent(depth) + "["@ + node.project_id@ + "] "@ + node.kind.label() + " "@
        + outline_name(node, depth) + " ("@ + node.file_path@ + ":"@ + decimal_spec(
        node.span.start_line as nat,
    ) + ")"@ + signature + "\n"@
}

/// The state while a file is outlined.
pub struct OutlineState {
    pub page: PageView,
    pub ends: Seq<u32>,
    pub within: bool,
}

/// One symbol outlined, unless there is no room left.
pub open spec fn outline_step(
    nodes: Seq<Node>,
    position: usize,
    state: OutlineState,
) -> OutlineState {
    let node = nodes[position as int];
    let line = outline_line(node, outline_depth(state.ends, node));
    if !state.within {
        state
    } else if !has_room(state.page, line) {
        OutlineState { within: false, ..state }
    } else {
        OutlineState {
            page: PageView {
                text: state.page.text + line,
                emitted: state.page.emitted.push(position),
                budget: state.page.budget - bytes(line),
                lines: state.page.lines + 1,
            },
            ends: still_open(state.ends, node.span.start_line).push(node.span.end_line),
            within: true,
        }
    }
}

/// The first `count` symbols of a file outlined.
pub open spec fn outline_upto(
    nodes: Seq<Node>,
    ordered: Seq<usize>,
    count: int,
    page: PageView,
) -> OutlineState
    decreases count,
{
    if count <= 0 {
        OutlineState { page, ends: Seq::empty(), within: true }
    } else {
        outline_step(nodes, ordered[count - 1], outline_upto(nodes, ordered, count - 1, page))
    }
}

/// What an outline says of the symbols it leaves out.
pub open spec fn omitted_note(omitted: int) -> Seq<char> {
    "#   (+"@ + decimal_spec(omitted as nat)
        + " more symbol(s) here, not shown; `node` or `model` for the rest)\n"@
}

/// A file outlined: its symbols, then how many of the available ones are not shown.
pub open spec fn emit_outline(
    nodes: Seq<Node>,
    positions: Seq<usize>,
    available: int,
    page: PageView,
) -> (PageView, bool) {
    let ordered = in_source_order(nodes, capped(positions));
    let state = outline_upto(nodes, ordered, ordered.len() as int, page);
    let omitted = available - capped(positions).len();
    let note = omitted_note(omitted);
    if !state.within {
        (state.page, false)
    } else if omitted > 0 && !has_room(state.page, note) {
        (state.page, false)
    } else if omitted > 0 {
        (
            PageView {
                text: state.page.text + note + "\n"@,
                emitted: state.page.emitted,
                budget: state.page.budget - bytes(note),
                lines: state.page.lines + 1,
            },
            true,
        )
    } else {
        (PageView { text: state.page.text + "\n"@, ..state.page }, true)
    }
}

proof fn lemma_outline_stopped(
    nodes: Seq<Node>,
    ordered: Seq<usize>,
    from: int,
    count: int,
    page: PageView,
)
    requires
        0 <= from <= count,
        !outline_upto(nodes, ordered, from, page).within,
    ensures
        outline_upto(nodes, ordered, count, page) == outline_upto(nodes, ordered, from, page),
    decreases count - from,
{
    if from < count {
        lemma_outline_stopped(nodes, ordered, from, count - 1, page);
    }
}

fn indentation(depth: usize) -> (text: String)
    ensures
        text@ == indent(depth as int),
{
    let mut text = copy("");
    for i in 0..depth
        invariant
            text@ == indent(i as int),
    {
        text.append("  ");
    }
    text
}

fn outline_entry(node: &Node, depth: usize) -> (text: String)
    ensures
        text@ == outline_line(*node, depth as int),
{
    let tail = after_last(node.qualified_name.as_str(), "::");
    let display: &str = if depth == 0 && contains(tail.as_str(), ".") {
        tail.as_str()
    } else {
        node.name.as_str()
    };
    let mut text = cat5(
        "# ",
        indentation(depth).as_str(),
        "[",
        node.project_id.as_str(),
        "] ",
    );
    text.append(node.kind.as_str());
    text.append(" ");
    text.append(display);
    text.append(" (");
    text.append(node.file_path.as_str());
    text.append(":");
    text.append(decimal_u32(node.span.start_line).as_str());
    text.append(")");
    let signature = match &node.signature {
        Some(signature) => cat2("  ", replace(signature.as_str(), '\n', ' ').as_str()),
        None => copy(""),
    };
    text.append(signature.as_str());
    text.append("\n");
    text
}

/// An outline of one file: the same top-ranked symbols a source rendering shows, but as a header
/// and one-line signature each, no bodies. Nested symbols are kept and indented. `available` is
/// how many of the file's symbols there were before focusing and the per-file cap narrowed
/// them; the difference is reported rather than dropped. Returns whether budget remains.
pub fn emit_file_outline(page: &mut Page, nodes: &[Node], positions: &[usize], available: usize) -> (within: bool)
    requires
        positions_valid(nodes@, positions@),
        page_bounded(old(page)@),
    ensures
        (final(page)@, within) == emit_outline(
            nodes@,
            positions@,
            available as int,
            old(page)@,
        ),
        page_bounded(final(page)@),
{
    let ordered = lay_out(nodes, positions);
    let ghost start = page@;
    let mut ends: Vec<u32> = Vec::new();
    for i in 0..ordered.len()
        invariant
            positions_valid(nodes@, ordered@),
            ordered@ == in_source_order(nodes@, capped(positions@)),
            start == old(page)@,
            page_bounded(page@),
            outline_upto(nodes@, ordered@, i as int, start) == (OutlineState {
                page: page@,
                ends: ends@,
                within: true,
            }),
    {
        let position: usize = ordered[i];
        assert(ordered@[i as int] < nodes@.len());
        let node = &nodes[position];
        let ghost before = ends@;
        while ends.len() > 0 && node.span.start_line > ends[ends.len() - 1]
            invariant
                still_open(before, node.span.start_line) == still_open(
                    ends@,
                    node.span.start_line,
                ),
            decreases ends@.len(),
        {
            let ghost longer = ends@;
            ends.pop();
            assert(ends@ =~= longer.drop_last());
        }
        let depth: usize = if ends.len() > OUTLINE_DEPTH_MAX {
            OUTLINE_DEPTH_MAX
        } else {
            ends.len()
        };
        let line = outline_entry(node, depth);
        let size: usize = byte_len(line.as_str());
        if page.budget <= size || page.lines >= EXPLORE_LINES_MAX {
            proof {
                lemma_outline_stopped(nodes@, ordered@, i + 1, ordered@.len() as int, start);
            }
            return false;
        }
        page.text.append(line.as_str());
        page.budget = page.budget - size;
        page.lines = page.lines + 1;
        page.emitted.push(position);
        ends.push(node.span.end_line);
    }
    let shown: usize = ordered.len();
    if available > shown {
        let mut note = cat2("#   (+", decimal_usize(available - shown).as_str());
        note.append(" more symbol(s) here, not shown; `node` or `model` for the rest)\n");
        let size: usize = byte_len(note.as_str());
        if page.budget <= size || page.lines >= EXPLORE_LINES_MAX {
            return false;
        }
        page.text.append(note.as_str());
        page.budget = page.budget - size;
        page.lines = page.lines + 1;
    }
    page.text.append("\n");
    true
}

/// The knobs one explore render takes.
pub struct RenderRequest {
    pub budget: usize,
    pub outline: bool,
}

/// What marks the step from full source to outlines, ahead of the file at this place.
pub open spec fn transition_note(at: int, full: int, prefix: int) -> Seq<char> {
    if at == full && full > 0 {
        if at == prefix {
            "# (below: files matching only part of a query word, e.g. `line` from `production_line_type`; signatures only. Name one of these to read it.)\n\n"@
        } else {
            "# (more relevant files: signatures only; explore or node for full source)\n\n"@
        }
    } else {
        ""@
    }
}

/// The page with a text added.
pub open spec fn page_with(page: PageView, text: Seq<char>) -> PageView {
    PageView { text: page.text + text, ..page }
}

/// One listed file written: with its source where it is among the full ones and its source
/// could be read, else outlined.
pub open spec fn file_step(
    nodes: Seq<Node>,
    group: GroupView,
    tokens: Seq<Seq<char>>,
    source: Option<Seq<char>>,
    page: PageView,
) -> (PageView, bool) {
    let focused = focused_spec(nodes, group.positions, tokens);
    match source {
        Some(source) => {
            let state = emit_source(nodes, source, focused, page);
            (state.page, state.within)
        },
        None => emit_outline(nodes, focused, group.positions.len() as int, page),
    }
}

/// The source of the file at this place, where it is rendered in full and could be read.
pub open spec fn source_at(sources: Seq<Option<String>>, at: int, full: int) -> Option<Seq<char>> {
    if at < full && at < sources.len() {
        match sources[at] {
            Some(source) => Some(source@),
            None => None,
        }
    } else {
        None
    }
}

/// The first `count` listed files written, until there is no room left.
pub open spec fn files_upto(
    nodes: Seq<Node>,
    groups: Seq<GroupView>,
    order: Seq<int>,
    tokens: Seq<Seq<char>>,
    sources: Seq<Option<String>>,
    full: int,
    prefix: int,
    count: int,
    page: PageView,
) -> (PageView, bool)
    decreases count,
{
    if count <= 0 {
        (page, true)
    } else {
        let (before, within) = files_upto(
            nodes,
            groups,
            order,
            tokens,
            sources,
            full,
            prefix,
            count - 1,
            page,
        );
        let at = count - 1;
        if !within {
            (before, false)
        } else {
            let (after, more) = file_step(
                nodes,
                groups[order[at]],
                tokens,
                source_at(sources, at, full),
                page_with(before, transition_note(at, full, prefix)),
            );
            if more {
                (after, true)
            } else {
                (page_with(after, "... (output budget reached)\n"@), false)
            }
        }
    }
}

/// The most tokens any one symbol name of the first `count` listed files covers.
pub open spec fn best_coverage(
    nodes: Seq<Node>,
    groups: Seq<GroupView>,
    order: Seq<int>,
    tokens: Seq<Seq<char>>,
    count: int,
) -> int
    decreases count,
{
    if count <= 0 {
        0
    } else {
        let rest = best_coverage(nodes, groups, order, tokens, count - 1);
        let here = name_coverage(nodes, groups[order[count - 1]].positions, tokens) as int;
        if here >= rest {
            here
        } else {
            rest
        }
    }
}

/// The note on an answer of scattered matches.
pub open spec fn low_confidence_note() -> Seq<char> {
    "\n(low confidence: no symbol matches more than one of your query words; these are scattered content/structure matches. For a sharper result, pass an exact class/function/method name, or one or two specific identifiers.)\n"@
}

/// The rendered files: their text, and the positions it shows.
pub open spec fn ranked_text(
    nodes: Seq<Node>,
    groups: Seq<GroupView>,
    order: Seq<int>,
    prefix: int,
    tokens: Seq<Seq<char>>,
    sources: Seq<Option<String>>,
    outline: bool,
    budget: int,
) -> (Seq<char>, Seq<usize>) {
    let (page, _) = files_upto(
        nodes,
        groups,
        order,
        tokens,
        sources,
        full_files_spec(outline, prefix),
        prefix,
        order.len() as int,
        PageView { text: ""@, emitted: Seq::empty(), budget, lines: 0 },
    );
    let best = best_coverage(nodes, groups, order, tokens, order.len() as int);
    if tokens.len() >= 3 && best <= 1 && page.text.len() > 0 {
        (page.text + low_confidence_note(), page.emitted)
    } else {
        (page.text, page.emitted)
    }
}

proof fn lemma_files_stopped(
    nodes: Seq<Node>,
    groups: Seq<GroupView>,
    order: Seq<int>,
    tokens: Seq<Seq<char>>,
    sources: Seq<Option<String>>,
    full: int,
    prefix: int,
    from: int,
    count: int,
    page: PageView,
)
    requires
        0 <= from <= count,
        !files_upto(nodes, groups, order, tokens, sources, full, prefix, from, page).1,
    ensures
        files_upto(nodes, groups, order, tokens, sources, full, prefix, count, page) == files_upto(
            nodes,
            groups,
            order,
            tokens,
            sources,
            full,
            prefix,
            from,
            page,
        ),
    decreases count - from,
{
    if from < count {
        lemma_files_stopped(
            nodes,
            groups,
            order,
            tokens,
            sources,
            full,
            prefix,
            from,
            count - 1,
            page,
        );
    }
}

/// The source of ranked nodes emitted grouped by file: each file's relevant symbols in source
/// order, with no line printed twice. The first few files render in full where `sources` holds
/// their text, the rest as outlines; bounded by the byte budget and a hard line cap. Returns the
/// rendered text and the positions actually written, so a caller annotating the result speaks
/// about what the reader can see.
pub fn render_ranked(
    nodes: &[Node],
    groups: &[FileGroup],
    listing: &FileListing,
    tokens: &[String],
    sources: &[Option<String>],
    request: &RenderRequest,
) -> (rendered: (String, Vec<usize>))
    requires
        groups_valid(nodes@, group_views(groups@)),
        forall|i: int|
            0 <= i < listing.order@.len() ==> #[trigger] listing.order@[i] < groups@.len(),
        forall|i: int|
            0 <= i < listing.order@.len() && source_at(
                sources@,
                i,
                full_files_spec(request.outline, listing.named_prefix as int),
            ) is Some ==> spans_valid_at(
                nodes@,
                groups@[#[trigger] listing.order@[i] as int].positions@,
            ),
        request.budget <= EXPLORE_BYTES_MAX,
    ensures
        (rendered.0@, rendered.1@) == ranked_text(
            nodes@,
            group_views(groups@),
            indices(listing.order@),
            listing.named_prefix as int,
            views(tokens@),
            sources@,
            request.outline,
            request.budget as int,
        ),
{
    let ghost group_list = group_views(groups@);
    let ghost order = indices(listing.order@);
    let ghost all = views(tokens@);
    let prefix: usize = listing.named_prefix;
    let full: usize = full_files(request.outline, prefix);
    let mut best: usize = 0;
    for i in 0..listing.order.len()
        invariant
            group_list == group_views(groups@),
            order == indices(listing.order@),
            all == views(tokens@),
            groups_valid(nodes@, group_list),
            forall|i: int|
                0 <= i < listing.order@.len() ==> #[trigger] listing.order@[i] < groups@.len(),
            best == best_coverage(nodes@, group_list, order, all, i as int),
    {
        assert(listing.order@[i as int] < groups@.len());
        let at: usize = listing.order[i];
        assert(order[i as int] == at);
        assert(group_list[at as int] == groups@[at as int]@);
        let here = name_token_coverage(nodes, groups[at].positions.as_slice(), tokens);
        if here >= best {
            best = here;
        }
    }
    let mut page = Page {
        text: copy(""),
        emitted: Vec::new(),
        budget: request.budget,
        lines: 0,
    };
    let ghost start = PageView {
        text: ""@,
        emitted: Seq::empty(),
        budget: request.budget as int,
        lines: 0,
    };
    assert(page@ =~= start);
    let count: usize = listing.order.len();
    let mut i: usize = 0;
    let mut within: bool = true;
    while within && i < count
        invariant
            group_list == group_views(groups@),
            order == indices(listing.order@),
            all == views(tokens@),
            groups_valid(nodes@, group_list),
            forall|i: int|
                0 <= i < listing.order@.len() && source_at(sources@, i, full as int) is Some
                    ==> spans_valid_at(
                    nodes@,
                    groups@[#[trigger] listing.order@[i] as int].positions@,
                ),
            forall|i: int|
                0 <= i < listing.order@.len() ==> #[trigger] listing.order@[i] < groups@.len(),
            count == listing.order@.len(),
            i <= count,
            page_bounded(page@),
            files_upto(
                nodes@,
                group_list,
                order,
                all,
                sources@,
                full as int,
                prefix as int,
                i as int,
                start,
            ) == (page@, within),
        decreases count - i,
    {
        assert(listing.order@[i as int] < groups@.len());
        let at: usize = listing.order[i];
        assert(order[i as int] == at);
        assert(group_list[at as int] == groups@[at as int]@);
        if i == full && full > 0 {
            if i == prefix {
                page.text.append(
                    "# (below: files matching only part of a query word, e.g. `line` from `production_line_type`; signatures only. Name one of these to read it.)\n\n",
                );
            } else {
                page.text.append(
                    "# (more relevant files: signatures only; explore or node for full source)\n\n",
                );
            }
        } else {
            page.text.append("");
        }
        let positions = groups[at].positions.as_slice();
        let available: usize = positions.len();
        let focused = focused_positions(nodes, positions, tokens);
        let more: bool = if i < full && i < sources.len() {
            match &sources[i] {
                Some(source) => emit_file_source(
                    &mut page,
                    source.as_str(),
                    nodes,
                    focused.as_slice(),
                ),
                None => emit_file_outline(&mut page, nodes, focused.as_slice(), available),
            }
        } else {
            emit_file_outline(&mut page, nodes, focused.as_slice(), available)
        };
        if !more {
            page.text.append("... (output budget reached)\n");
            within = false;
        }
        i += 1;
    }
    proof {
        if !within {
            lemma_files_stopped(
                nodes@,
                group_list,
                order,
                all,
                sources@,
                full as int,
                prefix as int,
                i as int,
                count as int,
                start,
            );
        }
    }
    assert(tokens@.len() == all.len());
    let mut text = page.text;
    if tokens.len() >= 3 && best <= 1 && !text.as_str().is_empty() {
        text.append(
            "\n(low confidence: no symbol matches more than one of your query words; these are scattered content/structure matches. For a sharper result, pass an exact class/function/method name, or one or two specific identifiers.)\n",
        );
    }
    (text, page.emitted)
}

/// The symbols of a file never spend more than the budget the page had left.
pub proof fn law_source_stays_within_budget(
    nodes: Seq<Node>,
    source: Seq<char>,
    ordered: Seq<usize>,
    count: int,
    page: PageView,
)
    requires
        page.budget >= 0,
    ensures
        0 <= source_upto(nodes, source, ordered, count, page).page.budget <= page.budget,
    decreases count,
{
    if count > 0 {
        law_source_stays_within_budget(nodes, source, ordered, count - 1, page);
        let state = source_upto(nodes, source, ordered, count - 1, page);
        let node = nodes[ordered[count - 1] as int];
        let room = state.page.budget - bytes(source_header(node));
        if room >= 0 {
            law_fitted_within_budget(
                join_spec(
                    numbered_lines(
                        source,
                        shown_start(node, state.covered),
                        shown_end(node, state.covered, state.page.lines),
                    ),
                    "\n"@,
                ),
                room,
            );
        }
    }
}

/// Recency breaks ties and does nothing else: of two listed files the earlier covers no fewer
/// compound tokens by its path, then no fewer tokens by a symbol's name, then names no fewer
/// symbols exactly, whatever recency bonus either has; only where all three are equal does the
/// weight decide, to which the bonus is added.
pub proof fn law_names_rank_above_recency(
    nodes: Seq<Node>,
    groups: Seq<GroupView>,
    tokens: Seq<Seq<char>>,
    bonuses: Seq<u64>,
    max_files: int,
    a: int,
    b: int,
)
    requires
        0 <= max_files,
        0 <= a < b < file_order(nodes, groups, tokens, bonuses, max_files).len(),
    ensures
        ({
            let order = file_order(nodes, groups, tokens, bonuses, max_files);
            let first = file_scores(nodes, groups, tokens, bonuses)[order[a]];
            let second = file_scores(nodes, groups, tokens, bonuses)[order[b]];
            &&& first.path >= second.path
            &&& first.path == second.path ==> first.name >= second.name
            &&& first.path == second.path && first.name == second.name ==> first.exact
                >= second.exact
            &&& first.path == second.path && first.name == second.name && first.exact
                == second.exact ==> first.weighted >= second.weighted
        }),
{
    let scores = file_scores(nodes, groups, tokens, bonuses);
    let keys = Seq::new(groups.len(), |i: int| score_key(scores[i], groups[i].key));
    lemma_sorted_order(keys);
    law_arranging_sorts(keys, a, b);
    let first = keys[sorted_order(keys)[a]];
    let second = keys[sorted_order(keys)[b]];
    lemma_not_after(first, second);
    if first[0] == second[0] {
        let (first, second) = (first.skip(1), second.skip(1));
        lemma_not_after(first, second);
        if first[0] == second[0] {
            let (first, second) = (first.skip(1), second.skip(1));
            lemma_not_after(first, second);
            if first[0] == second[0] {
                lemma_not_after(first.skip(1), second.skip(1));
            }
        }
    }
}

/// Every file of an answer is one file: no two groups share a key, and what a group holds is of
/// that file, and neither a container nor of a test or generated file.
pub proof fn law_groups_hold_their_files(nodes: Seq<Node>, ranked: Seq<usize>, count: int)
    requires
        0 <= count <= ranked.len(),
    ensures
        ({
            let groups = groups_upto(nodes, ranked, count);
            &&& forall|i: int, j: int|
                0 <= i < j < groups.len() ==> (#[trigger] groups[i]).key != (
                #[trigger] groups[j]).key
            &&& forall|i: int, k: int|
                0 <= i < groups.len() && 0 <= k < groups[i].positions.len() ==> {
                    let node = nodes[(#[trigger] groups[i].positions[k]) as int];
                    !left_out(node) && file_key_spec(node.project_id@, node.file_path@)
                        == groups[i].key
                }
        }),
    decreases count,
{
    if count > 0 {
        law_groups_hold_their_files(nodes, ranked, count - 1);
        let before = groups_upto(nodes, ranked, count - 1);
        let node = nodes[ranked[count - 1] as int];
        lemma_group_at(before, file_key_spec(node.project_id@, node.file_path@), 0);
    }
}

/// Some group holds the position.
pub open spec fn is_grouped(groups: Seq<GroupView>, position: usize) -> bool {
    exists|g: int| 0 <= g < groups.len() && (#[trigger] groups[g]).positions.contains(position)
}

/// Exactly the ranked symbols are grouped that stand for code of their own: whatever is neither a
/// file nor a module, nor of a test or generated file, is held by some group, and nothing else is.
pub proof fn law_every_ranked_symbol_is_grouped(
    nodes: Seq<Node>,
    ranked: Seq<usize>,
    position: usize,
)
    ensures
        is_grouped(file_groups(nodes, ranked), position) <==> exists|k: int|
            0 <= k < ranked.len() && k < EXPLORE_RANKED_MAX && #[trigger] ranked[k] == position && {
                let node = nodes[position as int];
                node.kind != NodeKind::File && node.kind != NodeKind::Module && !node.in_test_file
                    && !node.in_generated_file
            },
{
    lemma_grouped(nodes, ranked, grouped_count(ranked), position);
}

proof fn lemma_grouped(nodes: Seq<Node>, ranked: Seq<usize>, count: int, position: usize)
    requires
        0 <= count <= ranked.len(),
    ensures
        is_grouped(groups_upto(nodes, ranked, count), position) <==> exists|k: int|
            0 <= k < count && #[trigger] ranked[k] == position && !left_out(nodes[position as int]),
    decreases count,
{
    let groups = groups_upto(nodes, ranked, count);
    if count > 0 {
        lemma_grouped(nodes, ranked, count - 1, position);
        let before = groups_upto(nodes, ranked, count - 1);
        let fresh = ranked[count - 1];
        let node = nodes[fresh as int];
        let key = file_key_spec(node.project_id@, node.file_path@);
        lemma_group_at(before, key, 0);
        if !left_out(node) {
            match group_at(before, key, 0) {
                Some(at) => {
                    let grown = before[at].positions.push(fresh);
                    assert(grown.last() == fresh);
                    assert(groups[at].positions.contains(fresh));
                    if is_grouped(before, position) {
                        let g = choose|g: int|
                            0 <= g < before.len() && (#[trigger] before[g]).positions.contains(
                                position,
                            );
                        let k = choose|k: int|
                            0 <= k < before[g].positions.len() && before[g].positions[k]
                                == position;
                        assert(groups[g].positions[k] == position);
                        assert(groups[g].positions.contains(position));
                    }
                    if is_grouped(groups, position) {
                        let g = choose|g: int|
                            0 <= g < groups.len() && (#[trigger] groups[g]).positions.contains(
                                position,
                            );
                        let k = choose|k: int|
                            0 <= k < groups[g].positions.len() && groups[g].positions[k]
                                == position;
                        if k < before[g].positions.len() {
                            assert(before[g].positions[k] == position);
                            assert(before[g].positions.contains(position));
                        } else {
                            assert(position == fresh);
                        }
                    }
                },
                None => {
                    let last = groups[before.len() as int];
                    assert(last.positions =~= seq![fresh]);
                    assert(last.positions[0] == fresh);
                    assert(groups[before.len() as int].positions.contains(fresh));
                    if is_grouped(before, position) {
                        let g = choose|g: int|
                            0 <= g < before.len() && (#[trigger] before[g]).positions.contains(
                                position,
                            );
                        assert(groups[g].positions.contains(position));
                    }
                    if is_grouped(groups, position) {
                        let g = choose|g: int|
                            0 <= g < groups.len() && (#[trigger] groups[g]).positions.contains(
                                position,
                            );
                        if g < before.len() {
                            assert(before[g].positions.contains(position));
                        } else {
                            assert(position == fresh);
                        }
                    }
                },
            }
        }
        assert(ranked[count - 1] == fresh);
    }
}

/// The symbol at this place of the source order is written.
pub open spec fn is_written(
    nodes: Seq<Node>,
    source: Seq<char>,
    ordered: Seq<usize>,
    at: int,
    page: PageView,
) -> bool {
    source_upto(nodes, source, ordered, at + 1, page).page.emitted.len() > source_upto(
        nodes,
        source,
        ordered,
        at,
        page,
    ).page.emitted.len()
}

proof fn lemma_covered_grows(
    nodes: Seq<Node>,
    source: Seq<char>,
    ordered: Seq<usize>,
    from: int,
    count: int,
    page: PageView,
)
    requires
        0 <= from <= count,
    ensures
        source_upto(nodes, source, ordered, from, page).covered <= source_upto(
            nodes,
            source,
            ordered,
            count,
            page,
        ).covered,
    decreases count - from,
{
    if from < count {
        lemma_covered_grows(nodes, source, ordered, from, count - 1, page);
    }
}

/// No line is written twice: of two symbols of a file that are written, the lines of the second
/// begin behind those of the first.
pub proof fn law_no_line_is_written_twice(
    nodes: Seq<Node>,
    source: Seq<char>,
    ordered: Seq<usize>,
    page: PageView,
    i: int,
    j: int,
)
    requires
        0 <= i < j < ordered.len(),
        is_written(nodes, source, ordered, i, page),
        is_written(nodes, source, ordered, j, page),
    ensures
        shown_end(
            nodes[ordered[i] as int],
            source_upto(nodes, source, ordered, i, page).covered,
            source_upto(nodes, source, ordered, i, page).page.lines,
        ) < shown_start(
            nodes[ordered[j] as int],
            source_upto(nodes, source, ordered, j, page).covered,
        ),
{
    lemma_covered_grows(nodes, source, ordered, i + 1, j, page);
}

proof fn lemma_outline_budget(nodes: Seq<Node>, ordered: Seq<usize>, count: int, page: PageView)
    requires
        page.budget >= 0,
    ensures
        0 <= outline_upto(nodes, ordered, count, page).page.budget <= page.budget,
    decreases count,
{
    if count > 0 {
        lemma_outline_budget(nodes, ordered, count - 1, page);
    }
}

/// An answer is charged for no more than its budget, however many files it lists.
pub proof fn law_answer_stays_within_budget(
    nodes: Seq<Node>,
    groups: Seq<GroupView>,
    order: Seq<int>,
    tokens: Seq<Seq<char>>,
    sources: Seq<Option<String>>,
    full: int,
    prefix: int,
    count: int,
    page: PageView,
)
    requires
        page.budget >= 0,
    ensures
        0 <= files_upto(
            nodes,
            groups,
            order,
            tokens,
            sources,
            full,
            prefix,
            count,
            page,
        ).0.budget <= page.budget,
    decreases count,
{
    if count > 0 {
        law_answer_stays_within_budget(
            nodes,
            groups,
            order,
            tokens,
            sources,
            full,
            prefix,
            count - 1,
            page,
        );
        let (before, _) = files_upto(
            nodes,
            groups,
            order,
            tokens,
            sources,
            full,
            prefix,
            count - 1,
            page,
        );
        let noted = page_with(before, transition_note(count - 1, full, prefix));
        let focused = focused_spec(nodes, groups[order[count - 1]].positions, tokens);
        let ordered = in_source_order(nodes, capped(focused));
        lemma_outline_budget(nodes, ordered, ordered.len() as int, noted);
        if let Some(source) = source_at(sources, count - 1, full) {
            law_source_stays_within_budget(nodes, source, ordered, ordered.len() as int, noted);
        }
    }
}

/// How many line breaks a text has.
spec fn breaks(text: Seq<char>) -> nat
    decreases text.len(),
{
    if text.len() == 0 {
        0
    } else {
        breaks(text.drop_last()) + if text.last() == '\n' {
            1nat
        } else {
            0
        }
    }
}

proof fn lemma_breaks_add(left: Seq<char>, right: Seq<char>)
    ensures
        breaks(left + right) == breaks(left) + breaks(right),
    decreases right.len(),
{
    if right.len() == 0 {
        assert(left + right =~= left);
    } else {
        lemma_breaks_add(left, right.drop_last());
        assert((left + right).drop_last() =~= left + right.drop_last());
    }
}

proof fn lemma_no_breaks(text: Seq<char>)
    requires
        forall|i: int| 0 <= i < text.len() ==> #[trigger] text[i] != '\n',
    ensures
        breaks(text) == 0,
    decreases text.len(),
{
    if text.len() > 0 {
        let shorter = text.drop_last();
        assert forall|i: int| 0 <= i < shorter.len() implies #[trigger] shorter[i] != '\n' by {
            assert(text[i] == shorter[i]);
        }
        lemma_no_breaks(shorter);
    }
}

/// The pieces between line breaks are one more than the breaks, and have none themselves.
proof fn lemma_split_at_breaks(text: Seq<char>, from: int)
    requires
        0 <= from <= text.len(),
    ensures
        split_from(text, seq!['\n'], from).len() == breaks(text.skip(from)) + 1,
        forall|i: int|
            0 <= i < split_from(text, seq!['\n'], from).len() ==> breaks(
                #[trigger] split_from(text, seq!['\n'], from)[i],
            ) == 0,
    decreases text.len() - from,
{
    let mark = seq!['\n'];
    lemma_first_from(text, mark, from);
    assert forall|k: int| from <= k < text.len() && text[k] == '\n' implies #[trigger] occurs_at(
        text,
        mark,
        k,
    ) by {
        assert(text.subrange(k, k + 1) =~= mark);
    }
    match first_from(text, mark, from) {
        Some(at) => {
            let piece = text.subrange(from, at);
            assert forall|i: int| 0 <= i < piece.len() implies #[trigger] piece[i] != '\n' by {
                assert(!occurs_at(text, mark, from + i));
            }
            lemma_no_breaks(piece);
            lemma_split_at_breaks(text, at + 1);
            assert(text.subrange(at, at + 1) == mark);
            assert(text.skip(from) =~= piece + mark + text.skip(at + 1));
            lemma_breaks_add(piece + mark, text.skip(at + 1));
            lemma_breaks_add(piece, mark);
            assert(mark.drop_last() =~= Seq::empty());
            assert(breaks(mark.drop_last()) == 0);
            assert(breaks(mark) == 1);
        },
        None => {
            let piece = text.skip(from);
            assert forall|i: int| 0 <= i < piece.len() implies #[trigger] piece[i] != '\n' by {
                assert(!occurs_at(text, mark, from + i));
            }
            lemma_no_breaks(piece);
        },
    }
}

/// A text has at most one more line than it has line breaks, and its lines have none.
proof fn lemma_lines_and_breaks(text: Seq<char>)
    ensures
        lines_spec(text).len() <= breaks(text) + 1,
        text.len() == 0 ==> lines_spec(text).len() == 0,
        forall|i: int| 0 <= i < lines_spec(text).len() ==> breaks(#[trigger] lines_spec(text)[i]) == 0,
{
    let pieces = split_spec(text, seq!['\n']);
    lemma_split_at_breaks(text, 0);
    assert(text.skip(0) =~= text);
    assert(text.len() == 0 ==> first_from(text, seq!['\n'], 0) is None) by {
        lemma_first_from(text, seq!['\n'], 0);
    }
    assert forall|i: int| 0 <= i < lines_spec(text).len() implies breaks(
        #[trigger] lines_spec(text)[i],
    ) == 0 by {
        assert(breaks(pieces[i]) == 0);
    }
}

proof fn lemma_decimal_has_no_breaks(number: nat)
    ensures
        breaks(decimal_spec(number)) == 0,
    decreases number,
{
    if number < 10 {
        let text = decimal_spec(number);
        assert(text.drop_last() =~= Seq::empty());
        assert(breaks(text.drop_last()) == 0);
    } else {
        lemma_decimal_has_no_breaks(number / 10);
        let text = decimal_spec(number);
        assert(text.drop_last() =~= decimal_spec(number / 10));
    }
}

/// Lines joined by line breaks have as many breaks as stand between them.
proof fn lemma_joined_breaks(texts: Seq<Seq<char>>)
    requires
        forall|i: int| 0 <= i < texts.len() ==> breaks(#[trigger] texts[i]) == 0,
    ensures
        texts.len() > 0 ==> breaks(join_spec(texts, "\n"@)) == texts.len() - 1,
    decreases texts.len(),
{
    if texts.len() > 1 {
        let shorter = texts.drop_last();
        assert forall|i: int| 0 <= i < shorter.len() implies breaks(#[trigger] shorter[i]) == 0 by {
            assert(shorter[i] == texts[i]);
        }
        lemma_joined_breaks(shorter);
        reveal_strlit("\n");
        assert("\n"@ =~= seq!['\n']);
        assert("\n"@.drop_last() =~= Seq::empty());
        assert(breaks("\n"@.drop_last()) == 0);
        lemma_breaks_add(join_spec(shorter, "\n"@) + "\n"@, texts.last());
        lemma_breaks_add(join_spec(shorter, "\n"@), "\n"@);
    }
}

proof fn lemma_fitted_breaks(text: Seq<char>, budget: int)
    requires
        budget >= 0,
    ensures
        breaks(fitted(text, budget)) <= breaks(text),
        text.len() == 0 ==> fitted(text, budget).len() == 0,
{
    if bytes(text) > budget && budget >= char_bytes(ELLIPSIS) {
        let count = chars_within(text, budget - char_bytes(ELLIPSIS));
        lemma_chars_within(text, budget - char_bytes(ELLIPSIS));
        let kept = text.take(count);
        assert(text =~= kept + text.skip(count));
        lemma_breaks_add(kept, text.skip(count));
        assert(kept.push(ELLIPSIS).drop_last() =~= kept);
    }
}

/// A range of lines fitted to a budget has no more lines than the range.
proof fn lemma_slice_lines(source: Seq<char>, start: int, end: int, budget: int)
    requires
        1 <= start,
        budget >= 0,
    ensures
        lines_spec(slice_lines_spec(source, start, end, budget)).len() <= (if start <= end {
            end - start + 1
        } else {
            0
        }),
{
    let numbered = numbered_lines(source, start, end);
    let all = lines_spec(source);
    lemma_lines_and_breaks(source);
    assert forall|i: int| 0 <= i < numbered.len() implies breaks(#[trigger] numbered[i]) == 0 by {
        let number = decimal_spec((start + i) as nat);
        lemma_decimal_has_no_breaks((start + i) as nat);
        reveal_strlit("\t");
        assert("\t"@.drop_last() =~= Seq::empty());
        assert(breaks("\t"@.drop_last()) == 0);
        assert(breaks(all[start - 1 + i]) == 0);
        lemma_breaks_add(number + "\t"@, all[start - 1 + i]);
        lemma_breaks_add(number, "\t"@);
    }
    let joined = join_spec(numbered, "\n"@);
    lemma_joined_breaks(numbered);
    lemma_fitted_breaks(joined, budget);
    lemma_lines_and_breaks(fitted(joined, budget));
}

/// The symbols of a file never write more source lines than an answer may have.
pub proof fn law_source_stays_within_lines(
    nodes: Seq<Node>,
    source: Seq<char>,
    ordered: Seq<usize>,
    count: int,
    page: PageView,
)
    requires
        page.budget >= 0,
        page.lines <= EXPLORE_LINES_MAX,
    ensures
        source_upto(nodes, source, ordered, count, page).page.lines <= EXPLORE_LINES_MAX,
        source_upto(nodes, source, ordered, count, page).covered >= 0,
    decreases count,
{
    if count > 0 {
        law_source_stays_within_lines(nodes, source, ordered, count - 1, page);
        let state = source_upto(nodes, source, ordered, count - 1, page);
        let node = nodes[ordered[count - 1] as int];
        let header = source_header(node);
        if node.span.end_line > state.covered && has_room(state.page, header) {
            lemma_slice_lines(
                source,
                shown_start(node, state.covered),
                shown_end(node, state.covered, state.page.lines),
                state.page.budget - bytes(header),
            );
        }
    }
}

proof fn lemma_outline_lines(nodes: Seq<Node>, ordered: Seq<usize>, count: int, page: PageView)
    requires
        page.lines <= EXPLORE_LINES_MAX,
    ensures
        outline_upto(nodes, ordered, count, page).page.lines <= EXPLORE_LINES_MAX,
    decreases count,
{
    if count > 0 {
        lemma_outline_lines(nodes, ordered, count - 1, page);
    }
}

/// An answer never has more source and outline lines than its hard cap, however many files it
/// lists.
pub proof fn law_answer_stays_within_lines(
    nodes: Seq<Node>,
    groups: Seq<GroupView>,
    order: Seq<int>,
    tokens: Seq<Seq<char>>,
    sources: Seq<Option<String>>,
    full: int,
    prefix: int,
    count: int,
    page: PageView,
)
    requires
        page.budget >= 0,
        page.lines <= EXPLORE_LINES_MAX,
    ensures
        files_upto(
            nodes,
            groups,
            order,
            tokens,
            sources,
            full,
            prefix,
            count,
            page,
        ).0.lines <= EXPLORE_LINES_MAX,
    decreases count,
{
    if count > 0 {
        law_answer_stays_within_lines(
            nodes,
            groups,
            order,
            tokens,
            sources,
            full,
            prefix,
            count - 1,
            page,
        );
        law_answer_stays_within_budget(
            nodes,
            groups,
            order,
            tokens,
            sources,
            full,
            prefix,
            count - 1,
            page,
        );
        let (before, _) = files_upto(
            nodes,
            groups,
            order,
            tokens,
            sources,
            full,
            prefix,
            count - 1,
            page,
        );
        let noted = page_with(before, transition_note(count - 1, full, prefix));
        let focused = focused_spec(nodes, groups[order[count - 1]].positions, tokens);
        let ordered = in_source_order(nodes, capped(focused));
        lemma_outline_lines(nodes, ordered, ordered.len() as int, noted);
        if let Some(source) = source_at(sources, count - 1, full) {
            law_source_stays_within_lines(nodes, source, ordered, ordered.len() as int, noted);
        }
    }
}

// ---------------------------------------------------------------------------
// What an answer shows

/// The document frequency of a word is the number of files that hold it.
pub proof fn law_files_that_hold_a_word_are_counted(
    nodes: Seq<Node>,
    groups: Seq<GroupView>,
    token: Seq<char>,
    count: int,
)
    requires
        0 <= count <= groups.len(),
    ensures
        files_with(nodes, groups, token, count) == numbers::indices(
            count,
            |g: int| has_token(nodes, groups[g].positions, token),
        ).len(),
    decreases count,
{
    lemma_indices(count, |g: int| has_token(nodes, groups[g].positions, token));
    if count > 0 {
        law_files_that_hold_a_word_are_counted(nodes, groups, token, count - 1);
    }
}

proof fn lemma_named_positions(
    nodes: Seq<Node>,
    positions: Seq<usize>,
    tokens: Seq<Seq<char>>,
    position: usize,
)
    ensures
        named_positions(nodes, positions, tokens).contains(position) <==> positions.contains(
            position,
        ) && is_given(nodes[position as int], tokens),
    decreases positions.len(),
{
    if positions.len() > 0 {
        let shorter = positions.drop_last();
        lemma_named_positions(nodes, shorter, tokens, position);
        let before = named_positions(nodes, shorter, tokens);
        let after = named_positions(nodes, positions, tokens);
        if before.contains(position) {
            let k = choose|k: int| 0 <= k < before.len() && before[k] == position;
            assert(after[k] == position);
        }
        if after.contains(position) {
            let k = choose|k: int| 0 <= k < after.len() && after[k] == position;
            if k < before.len() {
                assert(before[k] == position);
            } else {
                assert(positions[positions.len() - 1] == position);
            }
        }
        if shorter.contains(position) {
            let k = choose|k: int| 0 <= k < shorter.len() && shorter[k] == position;
            assert(positions[k] == position);
        }
        if positions.contains(position) && !shorter.contains(position) {
            let k = choose|k: int| 0 <= k < positions.len() && positions[k] == position;
            if k < shorter.len() {
                assert(shorter[k] == position);
            }
            assert(positions.last() == position);
            if is_given(nodes[position as int], tokens) {
                assert(after[after.len() - 1] == position);
            }
        }
    } else {
        assert(!named_positions(nodes, positions, tokens).contains(position));
    }
}

proof fn lemma_with_neighbours(
    named: Seq<usize>,
    others: Seq<usize>,
    size: int,
    position: usize,
)
    requires
        named.len() <= size,
    ensures
        ({
            let grown = with_neighbours(named, others, size);
            &&& named.contains(position) ==> grown.contains(position)
            &&& grown.contains(position) ==> named.contains(position) || others.contains(position)
            &&& named.len() <= grown.len() <= size
            &&& grown.len() < size && others.contains(position) ==> grown.contains(position)
        }),
    decreases others.len(),
{
    if others.len() > 0 {
        let shorter = others.drop_last();
        lemma_with_neighbours(named, shorter, size, position);
        let before = with_neighbours(named, shorter, size);
        let grown = with_neighbours(named, others, size);
        if before.contains(position) {
            let k = choose|k: int| 0 <= k < before.len() && before[k] == position;
            assert(grown[k] == position);
        }
        if grown.contains(position) {
            let k = choose|k: int| 0 <= k < grown.len() && grown[k] == position;
            if k < before.len() {
                assert(before[k] == position);
            } else {
                assert(others[others.len() - 1] == position);
            }
        }
        if shorter.contains(position) {
            let k = choose|k: int| 0 <= k < shorter.len() && shorter[k] == position;
            assert(others[k] == position);
        }
        if others.contains(position) && !shorter.contains(position) {
            let k = choose|k: int| 0 <= k < others.len() && others[k] == position;
            if k < shorter.len() {
                assert(shorter[k] == position);
            }
            assert(others.last() == position);
            if grown.len() > before.len() {
                assert(grown[grown.len() - 1] == position);
            }
        }
    }
}

/// Where the query gives the names of symbols of a file, all of those are shown, and no more than a
/// couple of others of the file; where it gives none, the file is shown whole.
pub proof fn law_what_the_query_names_is_shown(
    nodes: Seq<Node>,
    positions: Seq<usize>,
    tokens: Seq<Seq<char>>,
    position: usize,
)
    requires
        positions.contains(position),
    ensures
        ({
            let shown = focused_spec(nodes, positions, tokens);
            let given = |p: usize|
                exists|i: int|
                    0 <= i < tokens.len() && ascii_lower_spec(#[trigger] tokens[i])
                        == ascii_lower_spec(nodes[p as int].name@);
            &&& given(position) ==> shown.contains(position)
            &&& given(position) ==> shown.len() <= named_positions(nodes, positions, tokens).len()
                + EXPLORE_NEIGHBOURS_MAX
            &&& (forall|p: usize| #[trigger] positions.contains(p) ==> !given(p)) ==> shown
                == positions
            &&& forall|p: usize| #[trigger] shown.contains(p) ==> positions.contains(p)
        }),
{
    let named = named_positions(nodes, positions, tokens);
    let shown = focused_spec(nodes, positions, tokens);
    lemma_named_positions(nodes, positions, tokens, position);
    if named.len() > 0 {
        let size = named.len() + EXPLORE_NEIGHBOURS_MAX;
        lemma_with_neighbours(named, positions, size, position);
        assert forall|p: usize| #[trigger] shown.contains(p) implies positions.contains(p) by {
            lemma_with_neighbours(named, positions, size, p);
            lemma_named_positions(nodes, positions, tokens, p);
        }
        assert(named.contains(named[0]));
        lemma_named_positions(nodes, positions, tokens, named[0]);
    }
}

/// Every line of a slice is the line of the source with the number before it, from the first that
/// was asked for to the last, as far as the source goes.
pub proof fn law_lines_are_numbered_as_in_the_source(
    source: Seq<char>,
    start: int,
    end: int,
    line: int,
)
    requires
        1 <= start,
    ensures
        ({
            let shown = numbered_lines(source, start, end);
            let all = lines_spec(source);
            &&& start <= line <= end && line <= all.len() ==> 0 <= line - start < shown.len()
                && shown[line - start] == decimal_spec(line as nat) + "\t"@ + all[line - 1]
            &&& shown.len() <= all.len()
            &&& shown.len() > 0 ==> start + shown.len() - 1 <= end && start + shown.len() - 1
                <= all.len()
        }),
{
}

/// A symbol shows its own lines: from its first, unless those before it showed some of them, to its
/// last, unless its body is long or the answer is full; and what is cut is counted.
pub proof fn law_a_symbol_shows_its_own_lines(node: Node, covered: int, written: int)
    requires
        1 <= node.span.start_line <= node.span.end_line,
        0 <= covered < node.span.end_line,
        0 <= written < EXPLORE_LINES_MAX,
    ensures
        ({
            let (start, end) = (
                shown_start(node, covered),
                shown_end(node, covered, written),
            );
            &&& node.span.start_line <= start <= end <= node.span.end_line
            &&& covered < node.span.start_line ==> start == node.span.start_line
            &&& covered >= node.span.start_line ==> start == covered + 1
            &&& end - start + 1 <= NODE_BODY_LINES_MAX
            &&& written + (end - start + 1) <= EXPLORE_LINES_MAX
            &&& node.span.end_line - start + 1 <= NODE_BODY_LINES_MAX && written + (
            node.span.end_line - start + 1) <= EXPLORE_LINES_MAX ==> end == node.span.end_line
            &&& end < node.span.end_line ==> end - start + 1 == NODE_BODY_LINES_MAX || written + (end
                - start + 1) == EXPLORE_LINES_MAX
        }),
{
}

/// A symbol that reaches behind what is covered is written wherever there is room for its heading,
/// and the text then holds its heading and its numbered lines.
pub proof fn law_a_symbol_with_room_is_written(
    nodes: Seq<Node>,
    source: Seq<char>,
    position: usize,
    state: SourceState,
)
    requires
        state.within,
        state.covered < nodes[position as int].span.end_line,
        state.page.budget > bytes(source_header(nodes[position as int])),
        state.page.lines < EXPLORE_LINES_MAX,
    ensures
        ({
            let node = nodes[position as int];
            let after = source_step(nodes, source, position, state);
            &&& after.within
            &&& after.page.emitted == state.page.emitted.push(position)
            &&& after.covered == node.span.end_line
            &&& (state.page.text + source_header(node)).is_prefix_of(after.page.text)
        }),
{
    let node = nodes[position as int];
    let after = source_step(nodes, source, position, state);
    let head = state.page.text + source_header(node);
    assert(after.page.text.subrange(0, head.len() as int) =~= head);
}

/// The symbols of a file come by their first line, and an enclosing one before those within it; all
/// of them, and nothing else.
pub proof fn law_symbols_come_in_source_order(
    nodes: Seq<Node>,
    positions: Seq<usize>,
    a: int,
    b: int,
)
    requires
        0 <= a < b < positions.len(),
    ensures
        ({
            let ordered = in_source_order(nodes, positions);
            let (first, second) = (nodes[ordered[a] as int].span, nodes[ordered[b] as int].span);
            &&& ordered.len() == positions.len()
            &&& first.start_line <= second.start_line
            &&& first.start_line == second.start_line ==> first.end_line >= second.end_line
            &&& forall|k: int| 0 <= k < positions.len() ==> ordered.contains(#[trigger] positions[k])
        }),
{
    let keys = positions.map_values(|p: usize| source_key(nodes[p as int]));
    let ordered = in_source_order(nodes, positions);
    let places = sorted_order(keys);
    lemma_sorted_order(keys);
    law_arranging_sorts(keys, a, b);
    let (left, right) = (keys[places[a]], keys[places[b]]);
    lemma_not_after(left, right);
    if left[0] == right[0] {
        lemma_not_after(left.skip(1), right.skip(1));
        assert(left.skip(1)[0] == left[1] && right.skip(1)[0] == right[1]);
    }
    assert forall|k: int| 0 <= k < positions.len() implies ordered.contains(
        #[trigger] positions[k],
    ) by {
        assert(places.contains(k));
        let p = choose|p: int| 0 <= p < places.len() && places[p] == k;
        assert(ordered[p] == positions[k]);
    }
}

/// No file renders in full in an outline; otherwise no more than the cap do, and where some files
/// name a word of the query only those do.
pub proof fn law_only_named_files_render_in_full(prefix: int)
    requires
        0 <= prefix,
    ensures
        full_files_spec(true, prefix) == 0,
        full_files_spec(false, prefix) <= EXPLORE_FULL_FILES_MAX,
        prefix > 0 ==> full_files_spec(false, prefix) <= prefix,
        0 < prefix <= EXPLORE_FULL_FILES_MAX ==> full_files_spec(false, prefix) == prefix,
        prefix == 0 || prefix > EXPLORE_FULL_FILES_MAX ==> full_files_spec(false, prefix)
            == EXPLORE_FULL_FILES_MAX,
{
}

/// The files that name a word of the query lead: the count of them says how many at the start of
/// the list do, one behind another.
pub proof fn law_the_leading_named_files_are_counted(scores: Seq<FileScore>, order: Seq<int>)
    ensures
        0 <= named_prefix(scores, order) <= order.len(),
        forall|k: int|
            0 <= k < named_prefix(scores, order) ==> scores[#[trigger] order[k]].path > 0
                || scores[order[k]].name > 0 || scores[order[k]].exact > 0,
        named_prefix(scores, order) < order.len() ==> {
            let next = scores[order[named_prefix(scores, order)]];
            next.path <= 0 && next.name <= 0 && next.exact <= 0
        },
    decreases order.len(),
{
    if order.len() > 0 && names_a_word(scores[order[0]]) {
        let rest = order.skip(1);
        law_the_leading_named_files_are_counted(scores, rest);
        assert forall|k: int| 0 <= k < named_prefix(scores, order) implies scores[
        #[trigger] order[k]].path > 0 || scores[order[k]].name > 0 || scores[order[k]].exact > 0 by {
            if k > 0 {
                assert(rest[k - 1] == order[k]);
            }
        }
    }
}

/// Every file is listed unless there are more than may be.
pub proof fn law_every_file_is_listed(
    nodes: Seq<Node>,
    groups: Seq<GroupView>,
    tokens: Seq<Seq<char>>,
    bonuses: Seq<u64>,
    max_files: int,
    file: int,
)
    requires
        0 <= max_files,
        0 <= file < groups.len(),
    ensures
        ({
            let order = file_order(nodes, groups, tokens, bonuses, max_files);
            &&& groups.len() <= max_files ==> order.len() == groups.len() && order.contains(file)
            &&& groups.len() > max_files ==> order.len() == max_files
            &&& order.no_duplicates()
        }),
{
    let scores = file_scores(nodes, groups, tokens, bonuses);
    let keys = Seq::new(groups.len(), |i: int| score_key(scores[i], groups[i].key));
    let all = sorted_order(keys);
    lemma_sorted_order(keys);
    assert(all.contains(file));
    let order = file_order(nodes, groups, tokens, bonuses, max_files);
    assert forall|a: int, b: int|
        0 <= a < order.len() && 0 <= b < order.len() && a != b implies order[a] != order[b] by {
        if a < b {
            law_arranging_sorts(keys, a, b);
        } else {
            law_arranging_sorts(keys, b, a);
        }
    }
}

/// The more words of the query a file holds, the more it weighs: a file that holds every word that
/// another holds weighs no less.
pub proof fn law_more_words_weigh_more(
    nodes: Seq<Node>,
    fewer: Seq<usize>,
    more: Seq<usize>,
    tokens: Seq<Seq<char>>,
    frequencies: Seq<usize>,
    file_total: int,
)
    requires
        0 <= file_total,
        forall|i: int|
            0 <= i < tokens.len() && has_token(nodes, fewer, #[trigger] tokens[i]) ==> has_token(
                nodes,
                more,
                tokens[i],
            ),
    ensures
        0 <= weighted_score(nodes, fewer, tokens, frequencies, file_total) <= weighted_score(
            nodes,
            more,
            tokens,
            frequencies,
            file_total,
        ),
    decreases tokens.len(),
{
    if tokens.len() > 0 {
        let rest = tokens.drop_last();
        assert(forall|i: int| 0 <= i < rest.len() ==> #[trigger] rest[i] == tokens[i]);
        law_more_words_weigh_more(nodes, fewer, more, rest, frequencies, file_total);
        let frequency = frequencies[tokens.len() - 1] as int;
        let divisor = if frequency >= 1 {
            frequency
        } else {
            1
        };
        lemma_div_pos_is_pos(file_total * 1000, divisor);
        assert(tokens.last() == tokens[tokens.len() - 1]);
    }
}

/// An answer is said to be of low confidence where the query has three words or more and no symbol
/// of the listed files has more than one of them in its name.
pub proof fn law_the_best_file_sets_the_confidence(
    nodes: Seq<Node>,
    groups: Seq<GroupView>,
    order: Seq<int>,
    tokens: Seq<Seq<char>>,
    count: int,
)
    requires
        0 <= count <= order.len(),
    ensures
        forall|k: int|
            0 <= k < count ==> name_coverage(
                nodes,
                groups[#[trigger] order[k]].positions,
                tokens,
            ) <= best_coverage(nodes, groups, order, tokens, count),
        best_coverage(nodes, groups, order, tokens, count) == 0 || exists|k: int|
            0 <= k < count && name_coverage(
                nodes,
                groups[#[trigger] order[k]].positions,
                tokens,
            ) == best_coverage(nodes, groups, order, tokens, count),
    decreases count,
{
    if count > 0 {
        law_the_best_file_sets_the_confidence(nodes, groups, order, tokens, count - 1);
        let here = name_coverage(nodes, groups[order[count - 1]].positions, tokens) as int;
        if here == best_coverage(nodes, groups, order, tokens, count) {
            assert(order[count - 1] == order[count - 1]);
        }
    }
}

/// What closes before a line is no longer open at it, and what is left open reaches it.
pub proof fn law_closed_spans_are_left(ends: Seq<u32>, line: u32)
    ensures
        ({
            let open = still_open(ends, line);
            &&& open.is_prefix_of(ends)
            &&& open.len() > 0 ==> open.last() >= line
            &&& forall|k: int| open.len() <= k < ends.len() ==> #[trigger] ends[k] < line
        }),
    decreases ends.len(),
{
    if ends.len() > 0 && line > ends.last() {
        let shorter = ends.drop_last();
        law_closed_spans_are_left(shorter, line);
        let open = still_open(shorter, line);
        assert(open =~= ends.subrange(0, open.len() as int));
        assert forall|k: int| open.len() <= k < ends.len() implies #[trigger] ends[k] < line by {
            if k < shorter.len() {
                assert(shorter[k] == ends[k]);
            }
        }
    } else {
        assert(ends =~= ends.subrange(0, ends.len() as int));
    }
}

/// A file ranks where the first of its symbols does: the symbol at its rank is its first, and is of
/// that file.
pub proof fn law_a_file_ranks_where_it_first_comes(
    nodes: Seq<Node>,
    ranked: Seq<usize>,
    count: int,
    file: int,
)
    requires
        0 <= count <= ranked.len(),
        0 <= file < groups_upto(nodes, ranked, count).len(),
    ensures
        ({
            let group = groups_upto(nodes, ranked, count)[file];
            let node = nodes[ranked[group.walk_rank] as int];
            &&& 0 <= group.walk_rank < count
            &&& group.positions.len() > 0 && group.positions[0] == ranked[group.walk_rank]
            &&& group.key == node.project_id@ + "::"@ + node.file_path@
        }),
    decreases count,
{
    let before = groups_upto(nodes, ranked, count - 1);
    let node = nodes[ranked[count - 1] as int];
    lemma_group_at(before, file_key_spec(node.project_id@, node.file_path@), 0);
    if file < before.len() {
        law_a_file_ranks_where_it_first_comes(nodes, ranked, count - 1, file);
    }
}

/// Of files that nothing else tells apart, the one whose first symbol ranks higher is listed first.
pub proof fn law_the_higher_ranked_file_leads(
    nodes: Seq<Node>,
    groups: Seq<GroupView>,
    tokens: Seq<Seq<char>>,
    bonuses: Seq<u64>,
    a: int,
    b: int,
)
    requires
        0 <= a < b < groups.len(),
    ensures
        ({
            let order = file_order(nodes, groups, tokens, bonuses, groups.len() as int);
            let scores = file_scores(nodes, groups, tokens, bonuses);
            let (first, second) = (scores[order[a]], scores[order[b]]);
            &&& order.len() == groups.len()
            &&& first.path == second.path && first.name == second.name && first.exact == second.exact
                && first.weighted == second.weighted ==> groups[order[a]].walk_rank
                <= groups[order[b]].walk_rank
        }),
{
    let scores = file_scores(nodes, groups, tokens, bonuses);
    let keys = Seq::new(groups.len(), |i: int| score_key(scores[i], groups[i].key));
    lemma_sorted_order(keys);
    law_arranging_sorts(keys, a, b);
    let order = file_order(nodes, groups, tokens, bonuses, groups.len() as int);
    assert(order =~= sorted_order(keys));
    let (one, two) = (keys[order[a]], keys[order[b]]);
    let (first, second) = (scores[order[a]], scores[order[b]]);
    lemma_not_after(one, two);
    if first.path == second.path && first.name == second.name && first.exact == second.exact
        && first.weighted == second.weighted {
        let (one, two) = (one.skip(1), two.skip(1));
        lemma_not_after(one, two);
        let (one, two) = (one.skip(1), two.skip(1));
        lemma_not_after(one, two);
        let (one, two) = (one.skip(1), two.skip(1));
        lemma_not_after(one, two);
        let (one, two) = (one.skip(1), two.skip(1));
        lemma_not_after(one, two);
    }
}

/// A symbol whose heading would use up what is left is not written, and nothing is after it.
pub proof fn law_a_symbol_without_room_is_not_written(
    nodes: Seq<Node>,
    source: Seq<char>,
    position: usize,
    state: SourceState,
)
    requires
        state.within,
        state.covered < nodes[position as int].span.end_line,
        state.page.budget <= bytes(source_header(nodes[position as int])) || state.page.lines
            >= EXPLORE_LINES_MAX,
    ensures
        !source_step(nodes, source, position, state).within,
        source_step(nodes, source, position, state).page == state.page,
{
}

/// In an outline a member that stands by itself is named behind its owner, and one that stands
/// below its owner by its own name; each level is set in by two spaces.
pub proof fn law_an_outline_names_what_stands_alone_in_full(
    node: Node,
    depth: int,
    file: Seq<char>,
    tail: Seq<char>,
)
    requires
        depth >= 0,
        node.qualified_name@ == file + "::"@ + tail,
        !tail.contains(':'),
    ensures
        depth == 0 && tail.contains('.') ==> outline_name(node, depth) == tail,
        depth == 0 && !tail.contains('.') ==> outline_name(node, depth) == node.name@,
        depth > 0 ==> outline_name(node, depth) == node.name@,
        indent(depth).len() == 2 * depth,
    decreases depth,
{
    reveal_strlit("::");
    reveal_strlit(".");
    reveal_strlit("  ");
    reveal_strlit("");
    lemma_after_last(file, "::"@, tail);
    if tail.contains('.') {
        let at = choose|at: int| 0 <= at < tail.len() && tail[at] == '.';
        assert(tail.subrange(at, at + 1) =~= "."@);
        assert(occurs_at(tail, "."@, at));
    } else if occurs(tail, "."@) {
        let at = choose|at: int| occurs_at(tail, "."@, at);
        assert(tail.subrange(at, at + 1)[0] == tail[at]);
    }
    if depth > 0 {
        law_an_outline_names_what_stands_alone_in_full(node, depth - 1, file, tail);
    }
}

} // verus!
