//! Turning graph values into the text an agent reads.
//!
//! The rendered text is the contract. An agent never sees a node, only the line this module
//! writes for it, so the formatting here is API surface.
use crate::chars::{
    cat3, cat5, chars_of, contains, copy, first_from, is_space, join, join_spec, last_to,
    lemma_first_from, lines, lines_spec, occurs, occurs_at, rsplit_once,
    rsplit_once_spec, space, split_once, split_once_spec, starts_with, text_between,
    trim_start_spec, views, words, words_spec, words_upto,
};
use crate::fx::{positions_get, positions_held, positions_insert, positions_new};
use crate::graph::{
    law_edge_kind_labels_read_back, lemma_edge_label_is_one_word, lemma_node_label_is_one_word,
    one_word, EdgeKind, Node, NodeKind,
};
use crate::keys::{key_at, KeyIndex};
use crate::limits::NODE_LINE_SIGNATURE_CHARS_MAX;
use crate::numbers::{
    self, all_digits, decimal_spec, decimal_u32, decimal_usize, digits_only,
    lemma_decimal_reads_back, lemma_indices, parse_u32, unsigned_value, without_plus,
};
use crate::order::{indices, key_view, keys_view, sort_order, sorted_order, Part, PartView};
use crate::symbols::{targetable_name, targetable_spec};
use rustc_hash::FxHashMap;
use vstd::prelude::*;

verus! {

// ---------------------------------------------------------------------------
// Related symbols and counts

/// Two related rows are one: the same kind of edge to the same node.
pub open spec fn same_relation(left: (EdgeKind, Node), right: (EdgeKind, Node)) -> bool {
    left.0 == right.0 && left.1.id@ == right.1.id@
}

/// The row, from `from` on, whose first appearance is the same relation.
pub open spec fn row_for(
    related: Seq<(EdgeKind, Node)>,
    rows: Seq<(int, int)>,
    item: (EdgeKind, Node),
    from: int,
) -> Option<int>
    decreases rows.len() - from,
{
    if from < 0 || from >= rows.len() {
        None
    } else if same_relation(related[rows[from].0], item) {
        Some(from)
    } else {
        row_for(related, rows, item, from + 1)
    }
}

/// The first `count` related edges with repeats collapsed: the position of each first
/// appearance, and how often it came.
pub open spec fn dedup_upto(related: Seq<(EdgeKind, Node)>, count: int) -> Seq<(int, int)>
    decreases count,
{
    if count <= 0 {
        Seq::empty()
    } else {
        let rows = dedup_upto(related, count - 1);
        match row_for(related, rows, related[count - 1], 0) {
            Some(at) => rows.update(at, (rows[at].0, rows[at].1 + 1)),
            None => rows.push((count - 1, 1)),
        }
    }
}

/// The related edges with repeats collapsed.
pub open spec fn dedup_spec(related: Seq<(EdgeKind, Node)>) -> Seq<(int, int)> {
    dedup_upto(related, related.len() as int)
}

/// Rows as values.
pub open spec fn rows_view(rows: Seq<(usize, usize)>) -> Seq<(int, int)> {
    rows.map_values(|row: (usize, usize)| (row.0 as int, row.1 as int))
}

/// The key that tells one relation from another: the label of its edge, and the id of its node.
pub open spec fn relation_key(item: (EdgeKind, Node)) -> Seq<char> {
    item.0.label() + " "@ + item.1.id@
}

proof fn lemma_relation_key(left: (EdgeKind, Node), right: (EdgeKind, Node))
    ensures
        relation_key(left) == relation_key(right) <==> same_relation(left, right),
{
    if relation_key(left) == relation_key(right) {
        let (a, b) = (left.0.label(), right.0.label());
        let key = relation_key(left);
        lemma_edge_label_is_one_word(left.0);
        lemma_edge_label_is_one_word(right.0);
        reveal_strlit(" ");
        if a.len() < b.len() {
            assert(key[a.len() as int] == ' ');
            assert(relation_key(right)[a.len() as int] == b[a.len() as int]);
        } else if b.len() < a.len() {
            assert(relation_key(right)[b.len() as int] == ' ');
            assert(key[b.len() as int] == a[b.len() as int]);
        }
        assert(a =~= key.take(a.len() as int));
        assert(b =~= relation_key(right).take(b.len() as int));
        assert(left.1.id@ =~= key.skip(a.len() as int + 1));
        assert(right.1.id@ =~= relation_key(right).skip(b.len() as int + 1));
        law_edge_kind_labels_read_back(left.0);
        law_edge_kind_labels_read_back(right.0);
    }
}

/// The keys of the relations that rows stand for.
spec fn row_keys(related: Seq<(EdgeKind, Node)>, rows: Seq<(int, int)>) -> Seq<Seq<char>> {
    rows.map_values(|row: (int, int)| relation_key(related[row.0]))
}

proof fn lemma_row_by_key(
    related: Seq<(EdgeKind, Node)>,
    rows: Seq<(int, int)>,
    item: (EdgeKind, Node),
    from: int,
)
    requires
        0 <= from,
    ensures
        row_for(related, rows, item, from) == key_at(
            row_keys(related, rows),
            relation_key(item),
            from,
        ),
    decreases rows.len() - from,
{
    if from < rows.len() {
        lemma_relation_key(related[rows[from].0], item);
        lemma_row_by_key(related, rows, item, from + 1);
    }
}

/// The related edges with repeats to the same target collapsed into one row carrying its
/// multiplicity, preserving first-seen order. A row is the position of the first appearance
/// and the number of them.
pub fn dedup_related(related: &[(EdgeKind, Node)]) -> (rows: Vec<(usize, usize)>)
    ensures
        rows_view(rows@) == dedup_spec(related@),
        forall|i: int|
            0 <= i < rows@.len() ==> (#[trigger] rows@[i]).0 < related@.len() && 1 <= rows@[i].1
                <= related@.len(),
{
    let mut rows: Vec<(usize, usize)> = Vec::new();
    let mut index = KeyIndex::new();
    assert(rows_view(rows@) =~= Seq::empty());
    assert(index@ =~= row_keys(related@, rows_view(rows@)));
    for i in 0..related.len()
        invariant
            rows_view(rows@) == dedup_upto(related@, i as int),
            index.wf(),
            index@ == row_keys(related@, rows_view(rows@)),
            forall|k: int|
                0 <= k < rows@.len() ==> (#[trigger] rows@[k]).0 < i && 1 <= rows@[k].1 <= i,
    {
        let ghost before = rows_view(rows@);
        let (kind, node) = &related[i];
        let key = cat3(kind.as_str(), " ", node.id.as_str());
        assert(key@ == relation_key(related@[i as int]));
        proof {
            lemma_row_by_key(related@, before, related@[i as int], 0);
        }
        match index.find(key.as_str()) {
            Some(at) => {
                assert(before[at as int] == (rows@[at as int].0 as int, rows@[at as int].1 as int));
                let (first, times) = rows[at];
                rows.set(at, (first, times + 1));
                assert(rows_view(rows@) =~= before.update(at as int, (first as int, times + 1)));
            },
            None => {
                index.add(key.as_str());
                rows.push((i, 1));
                assert(rows_view(rows@) =~= before.push((i as int, 1)));
            },
        }
        assert(index@ =~= row_keys(related@, rows_view(rows@)));
    }
    rows
}

/// The position, from `from` on, of the label in a tally.
pub open spec fn tally_at(tally: Seq<(Seq<char>, int)>, label: Seq<char>, from: int) -> Option<int>
    decreases tally.len() - from,
{
    if from < 0 || from >= tally.len() {
        None
    } else if tally[from].0 == label {
        Some(from)
    } else {
        tally_at(tally, label, from + 1)
    }
}

/// How often each label comes, in order of first appearance.
pub open spec fn tally(labels: Seq<Seq<char>>) -> Seq<(Seq<char>, int)>
    decreases labels.len(),
{
    if labels.len() == 0 {
        Seq::empty()
    } else {
        let rest = tally(labels.drop_last());
        match tally_at(rest, labels.last(), 0) {
            Some(at) => rest.update(at, (rest[at].0, rest[at].1 + 1)),
            None => rest.push((labels.last(), 1)),
        }
    }
}

/// The sort key of one count: the most common first, then by label.
pub open spec fn tally_key(entry: (Seq<char>, int)) -> Seq<PartView> {
    seq![PartView::Number(-entry.1), PartView::Text(entry.0)]
}

/// One count as text.
pub open spec fn tally_entry(entry: (Seq<char>, int)) -> Seq<char> {
    decimal_spec(entry.1 as nat) + " "@ + entry.0
}

/// The counts of the labels, most common first, as `55 import, 2 method`.
pub open spec fn tally_text(labels: Seq<Seq<char>>) -> Seq<char> {
    let counts = tally(labels);
    let order = sorted_order(counts.map_values(|entry: (Seq<char>, int)| tally_key(entry)));
    join_spec(order.map_values(|k: int| tally_entry(counts[k])), ", "@)
}

spec fn counts_view(counts: Seq<(String, usize)>) -> Seq<(Seq<char>, int)> {
    counts.map_values(|entry: (String, usize)| (entry.0@, entry.1 as int))
}

spec fn table_matches(table: FxHashMap<String, usize>, counts: Seq<(Seq<char>, int)>) -> bool {
    &&& forall|label: Seq<char>|
        #[trigger] positions_held(table).contains_key(label) <==> tally_at(counts, label, 0) is Some
    &&& forall|label: Seq<char>|
        #[trigger] positions_held(table).contains_key(label) ==> tally_at(counts, label, 0) == Some(
            positions_held(table)[label] as int,
        )
}

proof fn lemma_tally_at(counts: Seq<(Seq<char>, int)>, label: Seq<char>, from: int)
    requires
        0 <= from,
    ensures
        match tally_at(counts, label, from) {
            Some(at) => from <= at < counts.len() && counts[at].0 == label && forall|k: int|
                from <= k < at ==> (#[trigger] counts[k]).0 != label,
            None => forall|k: int| from <= k < counts.len() ==> (#[trigger] counts[k]).0 != label,
        },
    decreases counts.len() - from,
{
    if from < counts.len() && counts[from].0 != label {
        lemma_tally_at(counts, label, from + 1);
    }
}

proof fn lemma_tally_at_is(counts: Seq<(Seq<char>, int)>, label: Seq<char>, from: int, at: int)
    requires
        0 <= from <= at < counts.len(),
        counts[at].0 == label,
        forall|k: int| from <= k < at ==> (#[trigger] counts[k]).0 != label,
    ensures
        tally_at(counts, label, from) == Some(at),
    decreases at - from,
{
    if from < at {
        lemma_tally_at_is(counts, label, from + 1, at);
    }
}

/// The counts of the labels, most common first, as `55 import, 2 method`.
pub fn tally_labels(labels: &[&'static str]) -> (text: String)
    ensures
        text@ == tally_text(labels@.map_values(|label: &'static str| label@)),
{
    let ghost all = labels@.map_values(|label: &'static str| label@);
    let mut counts: Vec<(String, usize)> = Vec::new();
    let mut table: FxHashMap<String, usize> = positions_new();
    assert(counts_view(counts@) =~= tally(all.take(0)));
    for i in 0..labels.len()
        invariant
            all == labels@.map_values(|label: &'static str| label@),
            counts_view(counts@) == tally(all.take(i as int)),
            table_matches(table, counts_view(counts@)),
            counts@.len() <= i,
            forall|k: int| 0 <= k < counts@.len() ==> (#[trigger] counts@[k]).1 <= i,
    {
        let label = labels[i];
        assert(all.take(i + 1).drop_last() =~= all.take(i as int));
        assert(all.take(i + 1).last() == label@);
        let ghost before = counts_view(counts@);
        let ghost held = positions_held(table);
        match positions_get(&table, label) {
            Some(at) => {
                proof {
                    lemma_tally_at(before, label@, 0);
                }
                let times: usize = counts[at].1;
                counts.set(at, (copy(label), times + 1));
                let ghost after = counts_view(counts@);
                assert(after =~= before.update(at as int, (label@, times + 1)));
                proof {
                    assert forall|other: Seq<char>| tally_at(after, other, 0) == tally_at(
                        before,
                        other,
                        0,
                    ) by {
                        lemma_tally_at(before, other, 0);
                        lemma_tally_at(after, other, 0);
                        if let Some(k) = tally_at(before, other, 0) {
                            lemma_tally_at_is(after, other, 0, k);
                        } else if let Some(k) = tally_at(after, other, 0) {
                            assert(before[k].0 == other);
                        }
                    }
                }
            },
            None => {
                let place: usize = counts.len();
                positions_insert(&mut table, label, place);
                counts.push((copy(label), 1));
                let ghost after = counts_view(counts@);
                assert(after =~= before.push((label@, 1)));
                proof {
                    lemma_tally_at(before, label@, 0);
                    lemma_tally_at_is(after, label@, 0, place as int);
                    assert forall|other: Seq<char>| other != label@ implies tally_at(
                        after,
                        other,
                        0,
                    ) == tally_at(before, other, 0) by {
                        lemma_tally_at(before, other, 0);
                        lemma_tally_at(after, other, 0);
                        if let Some(k) = tally_at(before, other, 0) {
                            lemma_tally_at_is(after, other, 0, k);
                        } else if let Some(k) = tally_at(after, other, 0) {
                            assert(before[k].0 == other);
                        }
                    }
                }
            },
        }
    }
    assert(all.take(labels@.len() as int) =~= all);
    let ghost entries = tally(all);
    let mut keys: Vec<Vec<Part>> = Vec::new();
    for i in 0..counts.len()
        invariant
            entries == counts_view(counts@),
            keys_view(keys@) == entries.take(i as int).map_values(
                |entry: (Seq<char>, int)| tally_key(entry),
            ),
    {
        let ghost before = keys@;
        let mut key: Vec<Part> = Vec::new();
        key.push(Part::Number(-(counts[i].1 as i128)));
        key.push(Part::Text(copy(counts[i].0.as_str())));
        assert(key_view(key) =~= tally_key(entries[i as int]));
        keys.push(key);
        assert(keys_view(keys@) =~= keys_view(before).push(tally_key(entries[i as int])));
        assert(entries.take(i + 1) =~= entries.take(i as int).push(entries[i as int]));
        assert(keys_view(keys@) =~= entries.take(i + 1).map_values(
            |entry: (Seq<char>, int)| tally_key(entry),
        ));
    }
    assert(entries.take(counts@.len() as int) =~= entries);
    assert(keys@.len() == keys_view(keys@).len());
    assert(counts@.len() == entries.len());
    let order = sort_order(&keys);
    let mut parts: Vec<String> = Vec::new();
    let ghost wanted = sorted_order(keys_view(keys@)).map_values(|k: int| tally_entry(entries[k]));
    for i in 0..order.len()
        invariant
            entries == counts_view(counts@),
            indices(order@) == sorted_order(keys_view(keys@)),
            wanted == sorted_order(keys_view(keys@)).map_values(|k: int| tally_entry(entries[k])),
            forall|k: int| 0 <= k < order@.len() ==> #[trigger] order@[k] < counts@.len(),
            views(parts@) == wanted.take(i as int),
            wanted.len() == order@.len(),
    {
        let ghost before = parts@;
        let at: usize = order[i];
        assert(order@[i as int] < counts@.len());
        assert(indices(order@)[i as int] == at);
        assert(entries[at as int] == (counts@[at as int].0@, counts@[at as int].1 as int));
        parts.push(cat3(decimal_usize(counts[at].1).as_str(), " ", counts[at].0.as_str()));
        assert(views(parts@) =~= views(before).push(wanted[i as int]));
        assert(wanted.take(i + 1) =~= wanted.take(i as int).push(wanted[i as int]));
    }
    assert(wanted.len() == order@.len()) by {
        assert(indices(order@).len() == order@.len());
    }
    assert(wanted.take(order@.len() as int) =~= wanted);
    join(parts.as_slice(), ", ")
}

/// The labels of the kinds of the rows' edges.
pub open spec fn row_labels(related: Seq<(EdgeKind, Node)>, rows: Seq<(int, int)>) -> Seq<Seq<char>> {
    rows.map_values(|row: (int, int)| related[row.0].0.label())
}

/// A breakdown of deduped related edges by kind.
pub open spec fn breakdown_text(related: Seq<(EdgeKind, Node)>, rows: Seq<(int, int)>) -> Seq<char> {
    if rows.len() == 0 {
        ""@
    } else {
        " ("@ + tally_text(row_labels(related, rows)) + ")"@
    }
}

/// A ` (5 calls, 4 relates_to)` breakdown of deduped related edges by kind, most common first,
/// or nothing when there are none.
pub fn edge_kind_breakdown(related: &[(EdgeKind, Node)], rows: &[(usize, usize)]) -> (text: String)
    requires
        forall|i: int| 0 <= i < rows@.len() ==> (#[trigger] rows@[i]).0 < related@.len(),
    ensures
        text@ == breakdown_text(related@, rows_view(rows@)),
{
    if rows.len() == 0 {
        return copy("");
    }
    let mut labels: Vec<&'static str> = Vec::new();
    for i in 0..rows.len()
        invariant
            forall|i: int| 0 <= i < rows@.len() ==> (#[trigger] rows@[i]).0 < related@.len(),
            labels@.len() == i,
            forall|k: int|
                0 <= k < i ==> (#[trigger] labels@[k])@ == related@[rows@[k].0 as int].0.label(),
    {
        assert(rows@[i as int].0 < related@.len());
        labels.push(related[rows[i].0].0.as_str());
    }
    assert(labels@.map_values(|label: &'static str| label@) =~= row_labels(
        related@,
        rows_view(rows@),
    ));
    cat3(" (", tally_labels(labels.as_slice()).as_str(), ")")
}

/// The labels of the kinds of the nodes.
pub open spec fn kind_labels(nodes: Seq<Node>) -> Seq<Seq<char>> {
    nodes.map_values(|node: Node| node.kind.label())
}

/// A compact `55 import, 2 method` summary of the kinds of the nodes, most common first.
pub fn summarize_kinds(nodes: &[Node]) -> (text: String)
    ensures
        text@ == tally_text(kind_labels(nodes@)),
{
    let mut labels: Vec<&'static str> = Vec::new();
    for i in 0..nodes.len()
        invariant
            labels@.len() == i,
            forall|k: int| 0 <= k < i ==> (#[trigger] labels@[k])@ == nodes@[k].kind.label(),
    {
        labels.push(nodes[i].kind.as_str());
    }
    assert(labels@.map_values(|label: &'static str| label@) =~= kind_labels(nodes@));
    tally_labels(labels.as_slice())
}

// ---------------------------------------------------------------------------
// Node lines

/// The single-line render of one node: project, kind, name, qualified name, file location, and
/// the working-tree marker of its file.
pub open spec fn node_line_spec(node: Node) -> Seq<char> {
    "["@ + node.project_id@ + "] "@ + node.kind.label() + " "@ + node.name@ + " @ "@
        + targetable_spec(node.qualified_name@) + " ("@ + node.file_path@ + ":"@ + decimal_spec(
        node.span.start_line as nat,
    ) + ")"@ + node.marker@
}

pub fn node_line(node: &Node) -> (line: String)
    ensures
        line@ == node_line_spec(*node),
{
    let mut line = cat5("[", node.project_id.as_str(), "] ", node.kind.as_str(), " ");
    line.append(node.name.as_str());
    line.append(" @ ");
    line.append(targetable_name(node).as_str());
    line.append(" (");
    line.append(node.file_path.as_str());
    line.append(":");
    line.append(decimal_u32(node.span.start_line).as_str());
    line.append(")");
    line.append(node.marker.as_str());
    line
}

/// The text with its white space collapsed to single spaces, cut to `max` characters and marked
/// where something was cut, two spaces ahead of it; nothing where there is only white space.
pub open spec fn compact_signature(signature: Seq<char>, max: int) -> Seq<char> {
    let flat = join_spec(words_spec(signature), " "@);
    if words_spec(signature).len() == 0 {
        ""@
    } else if flat.len() > max {
        "  "@ + flat.take(max) + "…"@
    } else {
        "  "@ + flat
    }
}

/// A symbol's signature with its white space collapsed to single spaces, cut to
/// [`NODE_LINE_SIGNATURE_CHARS_MAX`] characters.
pub fn compact(signature: &str) -> (text: String)
    ensures
        text@ == compact_signature(signature@, NODE_LINE_SIGNATURE_CHARS_MAX as int),
{
    let parts = words(signature);
    assert(parts@.len() == views(parts@).len());
    if parts.len() == 0 {
        return copy("");
    }
    let flat = join(parts.as_slice(), " ");
    let chars = chars_of(flat.as_str());
    if chars.len() > NODE_LINE_SIGNATURE_CHARS_MAX {
        let kept = text_between(chars.as_slice(), 0, NODE_LINE_SIGNATURE_CHARS_MAX);
        assert(kept@ =~= flat@.take(NODE_LINE_SIGNATURE_CHARS_MAX as int));
        cat3("  ", kept.as_str(), "…")
    } else {
        crate::chars::cat2("  ", flat.as_str())
    }
}

/// One node on a line of a listing, with its compact signature.
pub open spec fn listed_line(node: Node) -> Seq<char> {
    let signature = match node.signature {
        Some(signature) => compact_signature(
            signature@,
            NODE_LINE_SIGNATURE_CHARS_MAX as int,
        ),
        None => ""@,
    };
    node_line_spec(node) + signature + "\n"@
}

/// The first `count` of the nodes at these positions, one per line.
pub open spec fn node_lines_spec(nodes: Seq<Node>, shown: Seq<int>, count: int) -> Seq<char>
    decreases count,
{
    if count <= 0 {
        ""@
    } else {
        node_lines_spec(nodes, shown, count - 1) + listed_line(nodes[shown[count - 1]])
    }
}

/// The render of the nodes at these positions, one per line, each followed by a compact signature
/// when the extractor captured one, so a search shows a symbol's call shape inline.
pub fn node_lines(nodes: &[Node], shown: &[usize]) -> (text: String)
    requires
        forall|i: int| 0 <= i < shown@.len() ==> #[trigger] shown@[i] < nodes@.len(),
    ensures
        text@ == node_lines_spec(nodes@, indices(shown@), shown@.len() as int),
{
    let mut text = copy("");
    for i in 0..shown.len()
        invariant
            forall|i: int| 0 <= i < shown@.len() ==> #[trigger] shown@[i] < nodes@.len(),
            text@ == node_lines_spec(nodes@, indices(shown@), i as int),
    {
        assert(shown@[i as int] < nodes@.len());
        assert(indices(shown@)[i as int] == shown@[i as int]);
        let node = &nodes[shown[i]];
        let signature = match &node.signature {
            Some(signature) => compact(signature.as_str()),
            None => copy(""),
        };
        let line = cat3(node_line(node).as_str(), signature.as_str(), "\n");
        text.append(line.as_str());
    }
    text
}

// ---------------------------------------------------------------------------
// Reading a rendered response back

/// The line behind its white space and, where a walk printed it, the mark of its depth.
pub open spec fn behind_depth(line: Seq<char>) -> Seq<char> {
    let row = trim_start_spec(line);
    match split_once_spec(row, " "@) {
        Some((mark, rest)) => if mark.len() > 1 && mark[0] == 'L' && all_digits(mark.skip(1)) {
            rest
        } else {
            row
        },
        None => row,
    }
}

/// The row behind the tags in square brackets that it begins with.
pub open spec fn behind_tags(row: Seq<char>) -> Seq<char>
    decreases row.len(),
{
    if "["@.is_prefix_of(row) {
        match split_once_spec(row, "] "@) {
            Some((_, rest)) => if rest.len() < row.len() {
                behind_tags(rest)
            } else {
                row
            },
            None => row,
        }
    } else {
        row
    }
}

/// The two sides of the ` @ ` of a symbol line, behind its tags: it has the shape
/// `[project] kind name @ target (path:line)`, behind the tag of an edge where one led to it.
pub open spec fn symbol_sides(line: Seq<char>) -> Option<(Seq<char>, Seq<char>)> {
    let row = behind_depth(line);
    let rest = behind_tags(row);
    if "["@.is_prefix_of(row) && !"["@.is_prefix_of(rest) {
        split_once_spec(rest, " @ "@)
    } else {
        None
    }
}

/// The name a symbol line carries: the second word behind its tags.
pub open spec fn name_in_line(line: Seq<char>) -> Option<Seq<char>> {
    match symbol_sides(line) {
        Some((head, _)) => if words_spec(head).len() >= 2 {
            Some(words_spec(head)[1])
        } else {
            None
        },
        None => None,
    }
}

/// The name on the first symbol line, from line `from` on.
pub open spec fn first_name_from(lines: Seq<Seq<char>>, from: int) -> Option<Seq<char>>
    decreases lines.len() - from,
{
    if from < 0 || from >= lines.len() {
        None
    } else if name_in_line(lines[from]) is Some {
        name_in_line(lines[from])
    } else {
        first_name_from(lines, from + 1)
    }
}

fn trim_start(text: &str) -> (out: String)
    ensures
        out@ == trim_start_spec(text@),
{
    let chars = chars_of(text);
    let mut from: usize = 0;
    assert(text@.skip(0) =~= text@);
    while from < chars.len() && space(chars[from])
        invariant
            from <= chars@.len(),
            chars@ == text@,
            trim_start_spec(text@) == trim_start_spec(text@.skip(from as int)),
        decreases chars@.len() - from,
    {
        assert(text@.skip(from as int).skip(1) =~= text@.skip(from + 1));
        from += 1;
    }
    text_between(chars.as_slice(), from, chars.len())
}

fn strip_tags(row: String) -> (rest: String)
    ensures
        rest@ == behind_tags(row@),
{
    let mut rest = row;
    while starts_with(rest.as_str(), "[")
        invariant
            behind_tags(row@) == behind_tags(rest@),
        decreases rest@.len(),
    {
        proof {
            reveal_strlit("] ");
            lemma_first_from(rest@, "] "@, 0);
        }
        match split_once(rest.as_str(), "] ") {
            Some((_, after)) => {
                rest = after;
            },
            None => {
                return rest;
            },
        }
    }
    rest
}

fn read_sides(line: &str) -> (sides: Option<(String, String)>)
    ensures
        match sides {
            Some((head, tail)) => symbol_sides(line@) == Some((head@, tail@)),
            None => symbol_sides(line@) is None,
        },
{
    let trimmed = trim_start(line);
    let row = match split_once(trimmed.as_str(), " ") {
        Some((mark, rest)) => {
            let chars = chars_of(mark.as_str());
            let deep = chars.len() > 1 && chars[0] == 'L' && digits_only(chars.as_slice(), 1);
            if deep {
                rest
            } else {
                trimmed
            }
        },
        None => trimmed,
    };
    if !starts_with(row.as_str(), "[") {
        return None;
    }
    let rest = strip_tags(row);
    if starts_with(rest.as_str(), "[") {
        None
    } else {
        split_once(rest.as_str(), " @ ")
    }
}

fn read_name(line: &str) -> (name: Option<String>)
    ensures
        match name {
            Some(name) => name_in_line(line@) == Some(name@),
            None => name_in_line(line@) is None,
        },
{
    match read_sides(line) {
        Some((head, _)) => {
            let parts = words(head.as_str());
            assert(parts@.len() == views(parts@).len());
            if parts.len() >= 2 {
                assert(views(parts@)[1] == parts@[1]@);
                Some(copy(parts[1].as_str()))
            } else {
                None
            }
        },
        None => None,
    }
}

/// The first symbol name a rendered response mentions, read back off the
/// `[project] kind name @ ...` line shape, so a hint can target the response's leading symbol.
/// `None` when the response named nothing.
pub fn first_named_symbol(text: &str) -> (name: Option<String>)
    ensures
        match name {
            Some(name) => first_name_from(lines_spec(text@), 0) == Some(name@),
            None => first_name_from(lines_spec(text@), 0) is None,
        },
{
    let all = lines(text);
    let ghost line_list = lines_spec(text@);
    assert(all@.len() == views(all@).len());
    let mut i: usize = 0;
    while i < all.len()
        invariant
            views(all@) == line_list,
            line_list == lines_spec(text@),
            all@.len() == line_list.len(),
            i <= all@.len(),
            first_name_from(line_list, 0) == first_name_from(line_list, i as int),
        decreases all@.len() - i,
    {
        assert(line_list[i as int] == all@[i as int]@);
        let name = read_name(all[i].as_str());
        if name.is_some() {
            return name;
        }
        i += 1;
    }
    None
}

/// The path of a `path:line)` that the text opens with: what stands before the last colon inside the
/// bracket, where a number stands behind that colon and no bracket is opened inside.
pub open spec fn location_at(text: Seq<char>) -> Option<Seq<char>> {
    match split_once_spec(text, ")"@) {
        Some((inside, _)) => match rsplit_once_spec(inside, ":"@) {
            Some((path, number)) => if path.len() > 0 && !occurs(inside, " ("@) && unsigned_value(
                number,
                u32::MAX as nat,
            ) is Some {
                Some(path)
            } else {
                None
            },
            None => None,
        },
        None => None,
    }
}

/// The path of the first ` (path:line)` in the text.
pub open spec fn location_in(text: Seq<char>) -> Option<Seq<char>>
    decreases text.len(),
{
    match split_once_spec(text, " ("@) {
        Some((_, rest)) => if location_at(rest) is Some {
            location_at(rest)
        } else if rest.len() < text.len() {
            location_in(rest)
        } else {
            None
        },
        None => None,
    }
}

/// The `(path:line)` file path a symbol line carries: that of the first such bracket behind its
/// ` @ `.
pub open spec fn path_in_line_spec(line: Seq<char>) -> Option<Seq<char>> {
    match symbol_sides(line) {
        Some((_, tail)) => location_in(tail),
        None => None,
    }
}

fn read_location(text: &str) -> (path: Option<String>)
    ensures
        match path {
            Some(path) => location_at(text@) == Some(path@),
            None => location_at(text@) is None,
        },
{
    let inside = match split_once(text, ")") {
        Some((inside, _)) => inside,
        None => {
            return None;
        },
    };
    match rsplit_once(inside.as_str(), ":") {
        Some((path, number)) => {
            if path.as_str().is_empty() || contains(inside.as_str(), " (") || parse_u32(
                number.as_str(),
            ).is_none() {
                None
            } else {
                Some(path)
            }
        },
        None => None,
    }
}

/// The `(path:line)` file path a rendered symbol line carries, for recording what a response
/// surfaced against the session. `None` for a line that is not a symbol line.
pub fn file_path_in_line(line: &str) -> (path: Option<String>)
    ensures
        match path {
            Some(path) => path_in_line_spec(line@) == Some(path@),
            None => path_in_line_spec(line@) is None,
        },
{
    let mut text = match read_sides(line) {
        Some((_, tail)) => tail,
        None => {
            return None;
        },
    };
    loop
        invariant
            path_in_line_spec(line@) == location_in(text@),
        decreases text@.len(),
    {
        proof {
            reveal_strlit(" (");
            lemma_first_from(text@, " ("@, 0);
        }
        match split_once(text.as_str(), " (") {
            Some((_, rest)) => {
                let path = read_location(rest.as_str());
                if path.is_some() {
                    return path;
                }
                text = rest;
            },
            None => {
                return None;
            },
        }
    }
}

/// A pattern that stands here and nowhere before is split there.
proof fn lemma_split_at(text: Seq<char>, pattern: Seq<char>, at: int)
    requires
        occurs_at(text, pattern, at),
        forall|k: int| 0 <= k < at ==> !occurs_at(text, pattern, k),
    ensures
        split_once_spec(text, pattern) == Some(
            (text.subrange(0, at), text.skip(at + pattern.len())),
        ),
{
    lemma_first_from(text, pattern, 0);
}

/// Where nothing before a location reads as one, the location is what is read.
proof fn lemma_location_behind(before: Seq<char>, location: Seq<char>)
    requires
        location_in(before) is None,
        location_at(location) is Some,
    ensures
        location_in(before + " ("@ + location) == location_at(location),
    decreases before.len(),
{
    reveal_strlit(" (");
    reveal_strlit(")");
    let mark = " ("@;
    let text = before + mark + location;
    lemma_first_from(before, mark, 0);
    assert forall|k: int| 0 <= k && k + 2 <= before.len() implies #[trigger] occurs_at(
        text,
        mark,
        k,
    ) == occurs_at(before, mark, k) by {
        assert(text.subrange(k, k + 2) =~= before.subrange(k, k + 2));
    }
    match first_from(before, mark, 0) {
        Some(at) => {
            let rest = before.skip(at + 2);
            lemma_split_at(before, mark, at);
            lemma_split_at(text, mark, at);
            assert(text.skip(at + 2) =~= rest + mark + location);
            lemma_open_bracket(rest, location);
            lemma_location_behind(rest, location);
        },
        None => {
            let at = before.len() as int;
            assert(text.subrange(at, at + 2) =~= mark);
            assert forall|k: int| 0 <= k < at implies !occurs_at(text, mark, k) by {
                if k + 2 > at && occurs_at(text, mark, k) {
                    assert(text.subrange(k, k + 2)[1] == text[at]);
                }
            }
            lemma_split_at(text, mark, at);
            assert(text.skip(at + 2) =~= location);
        },
    }
}

/// A bracket that is closed before a location reads as if the location were not there, and one that
/// is not closed before it is no location.
proof fn lemma_open_bracket(before: Seq<char>, location: Seq<char>)
    requires
        location_at(before) is None,
    ensures
        location_at(before + " ("@ + location) is None,
{
    reveal_strlit(" (");
    reveal_strlit(")");
    let mark = ")"@;
    let text = before + " ("@ + location;
    lemma_first_from(text, mark, 0);
    lemma_first_from(before, mark, 0);
    assert forall|k: int| 0 <= k && k + 1 <= before.len() implies #[trigger] occurs_at(
        text,
        mark,
        k,
    ) == occurs_at(before, mark, k) by {
        assert(text.subrange(k, k + 1) =~= before.subrange(k, k + 1));
    }
    if let Some(at) = first_from(before, mark, 0) {
        lemma_split_at(text, mark, at);
        assert(text.subrange(0, at) =~= before.subrange(0, at));
    } else if let Some(at) = first_from(text, mark, 0) {
        let open = before.len() as int;
        let inside = text.subrange(0, at);
        assert(text.subrange(at, at + 1)[0] == text[at]);
        assert(at >= open + 2);
        assert(inside.subrange(open, open + 2) =~= " ("@);
        assert(occurs_at(inside, " ("@, open));
    }
}

/// A row behind one tag that opens no other is what stands behind the tag.
proof fn lemma_one_tag(project: Seq<char>, rest: Seq<char>)
    requires
        !occurs(project, "] "@),
        rest.len() > 0,
        rest[0] != '[',
    ensures
        behind_depth("["@ + project + "] "@ + rest) == "["@ + project + "] "@ + rest,
        behind_tags("["@ + project + "] "@ + rest) == rest,
        "["@.is_prefix_of("["@ + project + "] "@ + rest),
        !"["@.is_prefix_of(rest),
{
    reveal_strlit("[");
    reveal_strlit("] ");
    reveal_strlit(" ");
    let line = "["@ + project + "] "@ + rest;
    assert(line[0] == '[');
    assert(trim_start_spec(line) == line);
    lemma_first_from(line, " "@, 0);
    if let Some((mark, _)) = split_once_spec(line, " "@) {
        if mark.len() > 1 {
            assert(mark[0] == line[0]);
        }
    }
    assert("["@.is_prefix_of(line));
    let close = 1 + project.len() as int;
    assert(line.subrange(close, close + 2) =~= "] "@);
    assert forall|k: int| 0 <= k < close implies !occurs_at(line, "] "@, k) by {
        if occurs_at(line, "] "@, k) {
            assert(line.subrange(k, k + 2)[0] == line[k]);
            assert(line.subrange(k, k + 2)[1] == line[k + 1]);
            if k + 2 <= close {
                assert(project.subrange(k - 1, k + 1) =~= line.subrange(k, k + 2));
                assert(occurs_at(project, "] "@, k - 1));
            }
        }
    }
    lemma_split_at(line, "] "@, close);
    assert(line.skip(close + 2) =~= rest);
    assert(!"["@.is_prefix_of(rest)) by {
        if "["@.is_prefix_of(rest) {
            assert("["@[0] == rest[0]);
        }
    }
    assert(behind_tags(rest) == rest);
}

/// What stands before the ` @ ` of a symbol line is its kind and its name.
proof fn lemma_head(label: Seq<char>, name: Seq<char>, tail: Seq<char>)
    requires
        one_word(label),
        !occurs(" "@ + name + " "@, " @ "@),
    ensures
        split_once_spec(label + " "@ + name + " @ "@ + tail, " @ "@) == Some(
            (label + " "@ + name, tail),
        ),
{
    reveal_strlit(" ");
    reveal_strlit(" @ ");
    let rest = label + " "@ + name + " @ "@ + tail;
    let padded = " "@ + name + " "@;
    let at = label.len() as int + 1 + name.len();
    assert(rest.subrange(at, at + 3) =~= " @ "@);
    assert forall|k: int| 0 <= k < at implies !occurs_at(rest, " @ "@, k) by {
        if occurs_at(rest, " @ "@, k) {
            assert(rest.subrange(k, k + 3)[0] == rest[k]);
            assert(rest.subrange(k, k + 3)[1] == rest[k + 1]);
            if k < label.len() {
                assert(rest[k] == label[k]);
            } else {
                let j = k - label.len();
                if j + 3 <= padded.len() {
                    assert(padded.subrange(j, j + 3) =~= rest.subrange(k, k + 3));
                    assert(occurs_at(padded, " @ "@, j));
                } else {
                    assert(k + 1 == at);
                }
            }
        }
    }
    lemma_split_at(rest, " @ "@, at);
    assert(rest.subrange(0, at) =~= label + " "@ + name);
    assert(rest.skip(at + 3) =~= tail);
}

/// A symbol line has its kind and its name on one side, its target and its location on the other.
proof fn lemma_sides_of(project: Seq<char>, kind: NodeKind, name: Seq<char>, tail: Seq<char>)
    requires
        !occurs(project, "] "@),
        !occurs(" "@ + name + " "@, " @ "@),
    ensures
        symbol_sides("["@ + project + "] "@ + kind.label() + " "@ + name + " @ "@ + tail) == Some(
            (kind.label() + " "@ + name, tail),
        ),
{
    let label = kind.label();
    let rest = label + " "@ + name + " @ "@ + tail;
    lemma_node_label_is_one_word(kind);
    assert(rest[0] == label[0]);
    lemma_one_tag(project, rest);
    lemma_head(label, name, tail);
    assert("["@ + project + "] "@ + label + " "@ + name + " @ "@ + tail =~= "["@ + project + "] "@
        + rest);
}

/// The bracket of a written location ends behind its number.
proof fn lemma_location_ends(path: Seq<char>, number: Seq<char>, behind: Seq<char>)
    requires
        !occurs(path, ")"@),
        all_digits(number),
    ensures
        split_once_spec(path + ":"@ + number + ")"@ + behind, ")"@) == Some(
            (path + ":"@ + number, behind),
        ),
{
    reveal_strlit(")");
    reveal_strlit(":");
    let inside = path + ":"@ + number;
    let text = path + ":"@ + number + ")"@ + behind;
    let at = inside.len() as int;
    let colon = path.len() as int;
    assert(text.subrange(at, at + 1) =~= ")"@);
    assert forall|k: int| 0 <= k < at implies !occurs_at(text, ")"@, k) by {
        if occurs_at(text, ")"@, k) {
            assert(text.subrange(k, k + 1)[0] == text[k]);
            if k < colon {
                assert(path.subrange(k, k + 1) =~= text.subrange(k, k + 1));
                assert(occurs_at(path, ")"@, k));
            } else if k > colon {
                assert(text[k] == number[k - colon - 1]);
            }
        }
    }
    lemma_split_at(text, ")"@, at);
    assert(text.subrange(0, at) =~= inside);
    assert(text.skip(at + 1) =~= behind);
}

/// The last colon of a written location stands before its number.
proof fn lemma_location_parts(path: Seq<char>, number: Seq<char>)
    requires
        all_digits(number),
    ensures
        rsplit_once_spec(path + ":"@ + number, ":"@) == Some((path, number)),
{
    reveal_strlit(":");
    let inside = path + ":"@ + number;
    let colon = path.len() as int;
    assert(inside.subrange(colon, colon + 1) =~= ":"@);
    lemma_last_colon(path, number, inside.len() as int);
    assert(inside.subrange(0, colon) =~= path);
    assert(inside.skip(colon + 1) =~= number);
}

proof fn lemma_last_colon(path: Seq<char>, number: Seq<char>, to: int)
    requires
        all_digits(number),
        path.len() <= to <= path.len() + 1 + number.len(),
        occurs_at(path + ":"@ + number, ":"@, path.len() as int),
    ensures
        last_to(path + ":"@ + number, ":"@, to) == Some(path.len() as int),
    decreases to,
{
    reveal_strlit(":");
    let inside = path + ":"@ + number;
    if to > path.len() {
        if occurs_at(inside, ":"@, to) {
            assert(inside.subrange(to, to + 1)[0] == inside[to]);
            assert(inside[to] == number[to - path.len() - 1]);
        }
        lemma_last_colon(path, number, to - 1);
    }
}

/// A written location opens no bracket but the path's own.
proof fn lemma_location_opens_nothing(path: Seq<char>, number: Seq<char>)
    requires
        !occurs(path, " ("@),
        all_digits(number),
    ensures
        !occurs(path + ":"@ + number, " ("@),
{
    reveal_strlit(":");
    reveal_strlit(" (");
    let inside = path + ":"@ + number;
    let colon = path.len() as int;
    if occurs(inside, " ("@) {
        let k = choose|k: int| occurs_at(inside, " ("@, k);
        assert(inside.subrange(k, k + 2)[0] == inside[k]);
        assert(inside.subrange(k, k + 2)[1] == inside[k + 1]);
        if k + 2 <= colon {
            assert(path.subrange(k, k + 2) =~= inside.subrange(k, k + 2));
            assert(occurs_at(path, " ("@, k));
        } else if k + 1 > colon {
            assert(inside[k + 1] == number[k - colon]);
        }
    }
}

/// A written location reads as its path.
proof fn lemma_location(path: Seq<char>, line: u32, behind: Seq<char>)
    requires
        path.len() > 0,
        !occurs(path, ")"@),
        !occurs(path, " ("@),
    ensures
        location_at(path + ":"@ + decimal_spec(line as nat) + ")"@ + behind) == Some(path),
{
    let number = decimal_spec(line as nat);
    lemma_decimal_reads_back(line as nat);
    lemma_location_ends(path, number, behind);
    lemma_location_parts(path, number);
    lemma_location_opens_nothing(path, number);
    assert(without_plus(number) == number);
}

/// The parts of a symbol hold none of the marks that a symbol line is read by: its project no `] `,
/// its name no ` @ `, its target no location, and its path no bracket that would end or open one.
pub open spec fn reads_back(node: Node) -> bool {
    &&& !occurs(node.project_id@, "] "@)
    &&& !occurs(" "@ + node.name@ + " "@, " @ "@)
    &&& location_in(targetable_spec(node.qualified_name@)) is None
    &&& node.file_path@.len() > 0
    &&& !occurs(node.file_path@, ")"@)
    &&& !occurs(node.file_path@, " ("@)
}

/// The line of a symbol reads back to the path of its file, whatever is listed behind it.
pub proof fn law_a_symbol_line_reads_back_to_its_path(node: Node, behind: Seq<char>)
    requires
        reads_back(node),
    ensures
        path_in_line_spec(node_line_spec(node) + behind) == Some(node.file_path@),
        path_in_line_spec(node_line_spec(node)) == Some(node.file_path@),
{
    lemma_line_reads_back(node, behind);
    lemma_line_reads_back(node, Seq::empty());
    assert(node_line_spec(node) + Seq::<char>::empty() =~= node_line_spec(node));
}

proof fn lemma_line_reads_back(node: Node, behind: Seq<char>)
    requires
        reads_back(node),
    ensures
        path_in_line_spec(node_line_spec(node) + behind) == Some(node.file_path@),
{
    let target = targetable_spec(node.qualified_name@);
    let location = node.file_path@ + ":"@ + decimal_spec(node.span.start_line as nat) + ")"@ + (
    node.marker@ + behind);
    let tail = target + " ("@ + location;
    lemma_location(node.file_path@, node.span.start_line, node.marker@ + behind);
    lemma_location_behind(target, location);
    lemma_sides_of(node.project_id@, node.kind, node.name@, tail);
    assert(node_line_spec(node) + behind =~= "["@ + node.project_id@ + "] "@ + node.kind.label()
        + " "@ + node.name@ + " @ "@ + tail);
}

proof fn lemma_word_run(text: Seq<char>, from: int, count: int)
    requires
        0 <= from <= count <= text.len(),
        words_upto(text, from).1.len() == 0,
        forall|i: int| from <= i < count ==> !is_space(#[trigger] text[i]),
    ensures
        words_upto(text, count) == (words_upto(text, from).0, text.subrange(from, count)),
    decreases count - from,
{
    if from < count {
        lemma_word_run(text, from, count - 1);
        assert(text.subrange(from, count) =~= text.subrange(from, count - 1).push(text[count - 1]));
    } else {
        assert(text.subrange(from, count) =~= Seq::empty());
    }
}

/// The line of a symbol whose name is one word reads back to that name.
pub proof fn law_a_symbol_line_reads_back_to_its_name(node: Node)
    requires
        !occurs(node.project_id@, "] "@),
        !occurs(" "@ + node.name@ + " "@, " @ "@),
        node.name@.len() > 0,
        forall|i: int| 0 <= i < node.name@.len() ==> !is_space(#[trigger] node.name@[i]),
    ensures
        name_in_line(node_line_spec(node)) == Some(node.name@),
{
    let label = node.kind.label();
    let name = node.name@;
    let head = label + " "@ + name;
    let tail = targetable_spec(node.qualified_name@) + " ("@ + node.file_path@ + ":"@
        + decimal_spec(node.span.start_line as nat) + ")"@ + node.marker@;
    reveal_strlit(" ");
    lemma_node_label_is_one_word(node.kind);
    lemma_sides_of(node.project_id@, node.kind, name, tail);
    assert(node_line_spec(node) =~= "["@ + node.project_id@ + "] "@ + label + " "@ + name + " @ "@
        + tail);
    let gap = label.len() as int;
    assert forall|i: int| 0 <= i < gap implies !is_space(#[trigger] head[i]) by {
        assert(head[i] == label[i]);
    }
    lemma_word_run(head, 0, gap);
    assert(head.subrange(0, gap) =~= label);
    assert(head[gap] == ' ');
    assert(words_upto(head, gap + 1) == (seq![label], Seq::<char>::empty()));
    assert forall|i: int| gap + 1 <= i < head.len() implies !is_space(#[trigger] head[i]) by {
        assert(head[i] == name[i - gap - 1]);
    }
    lemma_word_run(head, gap + 1, head.len() as int);
    assert(head.subrange(gap + 1, head.len() as int) =~= name);
}

/// A response body reports that nothing matched: its first line opens with `no `.
pub open spec fn found_nothing_spec(text: Seq<char>) -> bool {
    lines_spec(text).len() > 0 && "no "@.is_prefix_of(lines_spec(text)[0])
}

pub fn found_nothing(text: &str) -> (found: bool)
    ensures
        found == found_nothing_spec(text@),
{
    let all = lines(text);
    assert(all@.len() == views(all@).len());
    if all.len() == 0 {
        return false;
    }
    assert(views(all@)[0] == all@[0]@);
    starts_with(all[0].as_str(), "no ")
}

/// A response body joined to its follow-up hint on a line of its own. A body that found nothing
/// takes no hint at all.
pub open spec fn with_hint_spec(text: Seq<char>, hint: Seq<char>) -> Seq<char> {
    if hint.len() == 0 || found_nothing_spec(text) {
        text
    } else if text.len() == 0 || text.last() == '\n' {
        text + hint
    } else {
        text + "\n"@ + hint
    }
}

pub fn with_hint(text: String, hint: &str) -> (out: String)
    ensures
        out@ == with_hint_spec(text@, hint@),
{
    if hint.is_empty() || found_nothing(text.as_str()) {
        return text;
    }
    let chars = chars_of(text.as_str());
    let mut out = text;
    if chars.len() == 0 || chars[chars.len() - 1] == '\n' {
        out.append(hint);
    } else {
        out.append("\n");
        out.append(hint);
    }
    out
}

/// An empty result takes no hint: a hint names a follow-up against what a response returned.
pub proof fn law_no_hint_on_an_empty_result(text: Seq<char>, hint: Seq<char>)
    requires
        found_nothing_spec(text),
    ensures
        with_hint_spec(text, hint) == text,
{
}

/// How many relations the first `count` rows stand for.
pub open spec fn rows_total(rows: Seq<(int, int)>, count: int) -> int
    decreases count,
{
    if count <= 0 {
        0
    } else {
        rows_total(rows, count - 1) + rows[count - 1].1
    }
}

proof fn lemma_rows_total_update(rows: Seq<(int, int)>, at: int, count: int)
    requires
        0 <= at < rows.len(),
        0 <= count <= rows.len(),
    ensures
        rows_total(rows.update(at, (rows[at].0, rows[at].1 + 1)), count) == rows_total(rows, count)
            + if at < count {
            1int
        } else {
            0
        },
    decreases count,
{
    if count > 0 {
        lemma_rows_total_update(rows, at, count - 1);
    }
}

proof fn lemma_rows_total_push(rows: Seq<(int, int)>, row: (int, int), count: int)
    requires
        0 <= count <= rows.len(),
    ensures
        rows_total(rows.push(row), count) == rows_total(rows, count),
    decreases count,
{
    if count > 0 {
        lemma_rows_total_push(rows, row, count - 1);
    }
}

proof fn lemma_row_for(
    related: Seq<(EdgeKind, Node)>,
    rows: Seq<(int, int)>,
    item: (EdgeKind, Node),
    from: int,
)
    requires
        0 <= from,
    ensures
        match row_for(related, rows, item, from) {
            Some(at) => from <= at < rows.len() && same_relation(related[rows[at].0], item),
            None => forall|k: int|
                from <= k < rows.len() ==> !same_relation(related[(#[trigger] rows[k]).0], item),
        },
    decreases rows.len() - from,
{
    if from < rows.len() && !same_relation(related[rows[from].0], item) {
        lemma_row_for(related, rows, item, from + 1);
    }
}

/// Collapsing repeats loses nothing: no two rows are the same relation, and their multiplicities
/// add up to the relations there were.
pub proof fn law_rows_count_every_relation(related: Seq<(EdgeKind, Node)>, count: int)
    requires
        0 <= count <= related.len(),
    ensures
        ({
            let rows = dedup_upto(related, count);
            &&& rows_total(rows, rows.len() as int) == count
            &&& forall|i: int| 0 <= i < rows.len() ==> (#[trigger] rows[i]).1 >= 1
            &&& forall|i: int, j: int|
                0 <= i < j < rows.len() ==> !same_relation(
                    related[(#[trigger] rows[i]).0],
                    related[(#[trigger] rows[j]).0],
                )
        }),
    decreases count,
{
    if count > 0 {
        law_rows_count_every_relation(related, count - 1);
        let before = dedup_upto(related, count - 1);
        lemma_row_for(related, before, related[count - 1], 0);
        match row_for(related, before, related[count - 1], 0) {
            Some(at) => {
                lemma_rows_total_update(before, at, before.len() as int);
            },
            None => {
                lemma_rows_total_push(before, (count - 1, 1), before.len() as int);
            },
        }
    }
}

/// One of the rows is of this relation to this symbol.
pub open spec fn has_row(
    related: Seq<(EdgeKind, Node)>,
    rows: Seq<(int, int)>,
    item: (EdgeKind, Node),
) -> bool {
    exists|r: int|
        0 <= r < rows.len() && related[(#[trigger] rows[r]).0].0 == item.0
            && related[rows[r].0].1.id@ == item.1.id@
}

/// How often a relation comes among the first `count`.
pub open spec fn times(
    related: Seq<(EdgeKind, Node)>,
    item: (EdgeKind, Node),
    count: int,
) -> nat {
    numbers::indices(
        count,
        |i: int| related[i].0 == item.0 && related[i].1.id@ == item.1.id@,
    ).len()
}

proof fn lemma_times(related: Seq<(EdgeKind, Node)>, item: (EdgeKind, Node), count: int)
    ensures
        count <= 0 ==> times(related, item, count) == 0,
        count > 0 ==> times(related, item, count) == times(related, item, count - 1)
            + if same_relation(related[count - 1], item) {
            1nat
        } else {
            0
        },
{
    lemma_indices(count, |i: int| related[i].0 == item.0 && related[i].1.id@ == item.1.id@);
}

proof fn lemma_every_row(related: Seq<(EdgeKind, Node)>, count: int, item: (EdgeKind, Node))
    requires
        0 <= count <= related.len(),
    ensures
        times(related, item, count) > 0 ==> has_row(related, dedup_upto(related, count), item),
        forall|r: int|
            0 <= r < dedup_upto(related, count).len() ==> 0 <= (#[trigger] dedup_upto(
                related,
                count,
            )[r]).0 < count,
    decreases count,
{
    lemma_times(related, item, count);
    if count > 0 {
        lemma_every_row(related, count - 1, item);
        let before = dedup_upto(related, count - 1);
        let rows = dedup_upto(related, count);
        let last = related[count - 1];
        lemma_row_for(related, before, last, 0);
        let found = row_for(related, before, last, 0);
        assert(forall|r: int| 0 <= r < before.len() ==> (#[trigger] rows[r]).0 == before[r].0);
        if has_row(related, before, item) {
            let r = choose|r: int|
                0 <= r < before.len() && related[(#[trigger] before[r]).0].0 == item.0
                    && related[before[r].0].1.id@ == item.1.id@;
            assert(rows[r].0 == before[r].0);
        }
        if same_relation(last, item) {
            if found is Some {
                assert(rows[found->0].0 == before[found->0].0);
            } else {
                assert(rows[before.len() as int].0 == count - 1);
            }
        }
    }
}

proof fn lemma_row_counts(related: Seq<(EdgeKind, Node)>, count: int, r: int)
    requires
        0 <= count <= related.len(),
        0 <= r < dedup_upto(related, count).len(),
    ensures
        dedup_upto(related, count)[r].1 == times(
            related,
            related[dedup_upto(related, count)[r].0],
            count,
        ),
    decreases count,
{
    let before = dedup_upto(related, count - 1);
    let rows = dedup_upto(related, count);
    let last = related[count - 1];
    let item = related[rows[r].0];
    law_rows_count_every_relation(related, count - 1);
    lemma_row_for(related, before, last, 0);
    lemma_times(related, item, count);
    let found = row_for(related, before, last, 0);
    if r < before.len() {
        assert(rows[r].0 == before[r].0);
        lemma_row_counts(related, count - 1, r);
        if found is Some && found->0 != r {
            let at = found->0;
            if at < r {
                assert(!same_relation(related[before[at].0], related[before[r].0]));
            } else {
                assert(!same_relation(related[before[r].0], related[before[at].0]));
            }
        }
    } else {
        lemma_every_row(related, count - 1, last);
        if times(related, last, count - 1) > 0 {
            let k = choose|k: int|
                0 <= k < before.len() && related[(#[trigger] before[k]).0].0 == last.0
                    && related[before[k].0].1.id@ == last.1.id@;
            assert(same_relation(related[before[k].0], last));
        }
    }
}

/// Every relation has its row: for each of the related symbols there is a row of the same relation
/// to the same symbol, and each row counts how often its relation comes.
pub proof fn law_every_relation_has_its_row(related: Seq<(EdgeKind, Node)>, at: int, r: int)
    requires
        0 <= at < related.len(),
    ensures
        has_row(related, dedup_spec(related), related[at]),
        0 <= r < dedup_spec(related).len() ==> 0 <= dedup_spec(related)[r].0 < related.len()
            && dedup_spec(related)[r].1 == times(
            related,
            related[dedup_spec(related)[r].0],
            related.len() as int,
        ),
{
    lemma_every_row(related, related.len() as int, related[at]);
    lemma_present(related, related.len() as int, at);
    if 0 <= r < dedup_spec(related).len() {
        lemma_row_counts(related, related.len() as int, r);
    }
}

proof fn lemma_present(related: Seq<(EdgeKind, Node)>, count: int, at: int)
    requires
        0 <= at < count <= related.len(),
    ensures
        times(related, related[at], count) > 0,
    decreases count,
{
    lemma_times(related, related[at], count);
    if at < count - 1 {
        lemma_present(related, count - 1, at);
    }
}

/// Every label is counted once, and its count is how often it comes.
pub proof fn law_every_label_is_counted(labels: Seq<Seq<char>>)
    ensures
        forall|k: int|
            0 <= k < tally(labels).len() ==> (#[trigger] tally(labels)[k]).1 == numbers::indices(
                labels.len() as int,
                |i: int| labels[i] == tally(labels)[k].0,
            ).len(),
        forall|i: int|
            0 <= i < labels.len() ==> tally_at(tally(labels), #[trigger] labels[i], 0) is Some,
        forall|a: int, b: int|
            0 <= a < b < tally(labels).len() ==> (#[trigger] tally(labels)[a]).0 != (
            #[trigger] tally(labels)[b]).0,
    decreases labels.len(),
{
    let counts = tally(labels);
    if labels.len() > 0 {
        let fewer = labels.drop_last();
        let last = labels.last();
        law_every_label_is_counted(fewer);
        let before = tally(fewer);
        lemma_tally_at(before, last, 0);
        assert forall|k: int| 0 <= k < counts.len() implies (#[trigger] counts[k]).1
            == numbers::indices(
            labels.len() as int,
            |i: int| labels[i] == tally(labels)[k].0,
        ).len() by {
            let label = counts[k].0;
            let held = |i: int| labels[i] == tally(labels)[k].0;
            let held_before = |i: int| fewer[i] == label;
            lemma_indices(labels.len() as int, held);
            lemma_indices(fewer.len() as int, held_before);
            assert(numbers::indices(fewer.len() as int, held) =~= numbers::indices(
                fewer.len() as int,
                held_before,
            ));
            if k < before.len() {
                assert(before[k].0 == label);
                assert(numbers::indices(
                    fewer.len() as int,
                    |i: int| fewer[i] == tally(fewer)[k].0,
                ) =~= numbers::indices(fewer.len() as int, held_before));
            } else {
                lemma_no_index(fewer, label, fewer.len() as int);
            }
        }
        assert forall|i: int| 0 <= i < labels.len() implies tally_at(
            counts,
            #[trigger] labels[i],
            0,
        ) is Some by {
            lemma_tally_at(counts, labels[i], 0);
            if i < fewer.len() {
                assert(fewer[i] == labels[i]);
                lemma_tally_at(before, labels[i], 0);
                let at = tally_at(before, labels[i], 0)->0;
                assert(counts[at].0 == labels[i]);
            } else {
                match tally_at(before, last, 0) {
                    Some(at) => assert(counts[at].0 == last),
                    None => assert(counts[counts.len() - 1].0 == last),
                }
            }
        }
    }
}

proof fn lemma_no_index(labels: Seq<Seq<char>>, label: Seq<char>, count: int)
    requires
        0 <= count <= labels.len(),
        forall|i: int|
            0 <= i < labels.len() ==> tally_at(tally(labels), #[trigger] labels[i], 0) is Some,
        tally_at(tally(labels), label, 0) is None,
    ensures
        numbers::indices(count, |i: int| labels[i] == label).len() == 0,
    decreases count,
{
    lemma_indices(count, |i: int| labels[i] == label);
    if count > 0 {
        lemma_no_index(labels, label, count - 1);
        assert(tally_at(tally(labels), labels[count - 1], 0) is Some);
    }
}

/// A signature is shown on one line behind two spaces, its words one space apart, whole where it is
/// no longer than the most and cut to that many characters where it is.
pub proof fn law_a_signature_is_cut_only_where_it_is_long(signature: Seq<char>, max: int)
    requires
        max >= 0,
    ensures
        ({
            let shown = compact_signature(signature, max);
            let flat = join_spec(words_spec(signature), " "@);
            &&& words_spec(signature).len() == 0 ==> shown.len() == 0
            &&& words_spec(signature).len() > 0 ==> "  "@.is_prefix_of(shown)
            &&& words_spec(signature).len() > 0 && flat.len() <= max ==> shown.skip(2) == flat
            &&& words_spec(signature).len() > 0 && flat.len() > max ==> shown.len() == max + 3
                && shown.subrange(2, 2 + max) == flat.subrange(0, max)
        }),
{
    reveal_strlit("  ");
    reveal_strlit("");
    reveal_strlit("…");
    let shown = compact_signature(signature, max);
    let flat = join_spec(words_spec(signature), " "@);
    if words_spec(signature).len() > 0 {
        assert("  "@ =~= shown.subrange(0, 2));
        if flat.len() <= max {
            assert(shown.skip(2) =~= flat);
        } else {
            assert(shown.subrange(2, 2 + max) =~= flat.subrange(0, max));
        }
    }
}

/// A follow-up stands on a line of its own, behind the answer and as it is.
pub proof fn law_a_hint_stands_on_its_own_line(text: Seq<char>, hint: Seq<char>)
    requires
        hint.len() > 0,
        text.len() > 0,
        !found_nothing_spec(text),
    ensures
        ({
            let whole = with_hint_spec(text, hint);
            let at = whole.len() - hint.len();
            &&& text.is_prefix_of(whole)
            &&& at > 0 && whole[at - 1] == '\n'
            &&& whole.skip(at) == hint
            &&& at <= text.len() + 1
        }),
{
    reveal_strlit("\n");
    let whole = with_hint_spec(text, hint);
    assert(text =~= whole.subrange(0, text.len() as int));
    assert(whole.skip(whole.len() - hint.len()) =~= hint);
}

} // verus!
