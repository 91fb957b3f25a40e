//! One symbol, in detail.
use crate::chars::{
    cat2, cat3, cat4, chars_of, copy, join, join_spec, lemma_occurs_grows, lines, lines_spec, occurs,
    quote, quoted, same_text, text_between, trim, trim_spec, views,
};
use crate::fx::{texts_contains, texts_held, texts_insert, texts_new};
use crate::graph::{EdgeKind, Node, NodeKind};
use crate::keys::{key_at, lemma_key_at, lemma_key_at_is, KeyIndex};
use crate::limits::{
    AT_RESULTS_MAX, CALL_SITE_SNIPPET_CHARS_MAX, MODEL_MRO_DEPTH_MAX, MODEL_NODES_MAX,
    NODE_CALLERS_INLINE_MAX, NODE_DETAIL_MAX,
};
use crate::numbers::{
    self, decimal, decimal_spec, decimal_u128, decimal_u32, decimal_usize, lemma_indices,
};
use crate::order::{
    arrange, arranged, key_view, keys_view, law_arranging_keeps_the_items, law_arranging_sorts,
    lemma_not_after, sorted_order, Part, PartView,
};
use crate::rank::{
    cross_project_rank, edge_rank, edge_rank_spec, law_what_leads_is_listed_first, leads,
    listing_key_spec, push_listing_key,
};
use crate::render::{
    breakdown_text, dedup_related, dedup_spec, edge_kind_breakdown, kind_labels,
    law_every_relation_has_its_row, node_line, node_line_spec, rows_view, summarize_kinds, tally_text,
};
use crate::symbols::{
    dispatch_method_name, field_signature, field_signature_spec, import_line,
    is_dispatch_method_name, python_import_line, role_spec, symbol_role, targetable_name,
    targetable_spec,
};
use crate::tools::impact::smaller;
use rustc_hash::FxHashSet;
use vstd::prelude::*;

verus! {

// ---------------------------------------------------------------------------
// Related symbols in order

/// The rows of the first `count` that stand for something else than containment.
pub open spec fn uncontained(
    related: Seq<(EdgeKind, Node)>,
    rows: Seq<(int, int)>,
    count: int,
) -> Seq<(int, int)>
    decreases count,
{
    if count <= 0 {
        Seq::empty()
    } else if related[rows[count - 1].0].0 != EdgeKind::Contains {
        uncontained(related, rows, count - 1).push(rows[count - 1])
    } else {
        uncontained(related, rows, count - 1)
    }
}

/// The related symbols of a symbol, repeats collapsed, without those that contain it or that it
/// contains.
pub open spec fn related_rows_spec(related: Seq<(EdgeKind, Node)>) -> Seq<(int, int)> {
    let rows = dedup_spec(related);
    uncontained(related, rows, rows.len() as int)
}

/// Every row stands for a related symbol.
pub open spec fn rows_valid(related: Seq<(EdgeKind, Node)>, rows: Seq<(usize, usize)>) -> bool {
    forall|i: int| 0 <= i < rows.len() ==> (#[trigger] rows[i]).0 < related.len()
}

pub fn related_rows(related: &[(EdgeKind, Node)]) -> (rows: Vec<(usize, usize)>)
    ensures
        rows_view(rows@) == related_rows_spec(related@),
        rows_valid(related@, rows@),
{
    let all = dedup_related(related);
    let ghost all_rows = rows_view(all@);
    assert(all_rows.len() == all@.len());
    let mut rows: Vec<(usize, usize)> = Vec::new();
    assert(rows_view(rows@) =~= Seq::empty());
    for i in 0..all.len()
        invariant
            all_rows == rows_view(all@),
            forall|k: int| 0 <= k < all@.len() ==> (#[trigger] all@[k]).0 < related@.len(),
            rows_view(rows@) == uncontained(related@, all_rows, i as int),
            rows_valid(related@, rows@),
    {
        let ghost before = rows@;
        assert(all@[i as int].0 < related@.len());
        assert(all_rows[i as int] == (all@[i as int].0 as int, all@[i as int].1 as int));
        if related[all[i].0].0 != EdgeKind::Contains {
            rows.push(all[i]);
            assert(rows_view(rows@) =~= rows_view(before).push(all_rows[i as int]));
        }
    }
    rows
}

/// The order of related symbols: the strongest edge first, one from another project ahead of one
/// at home, then the listing order.
pub open spec fn related_key(kind: EdgeKind, node: Node, home: Seq<char>) -> Seq<PartView> {
    seq![
        PartView::Number(edge_rank_spec(kind)),
        PartView::Number(
            if node.project_id@ == home {
                1
            } else {
                0
            },
        ),
    ] + listing_key_spec(node)
}

fn key_of(kind: EdgeKind, node: &Node, home: &str) -> (key: Vec<Part>)
    ensures
        key_view(key) == related_key(kind, *node, home@),
{
    let mut key: Vec<Part> = Vec::new();
    key.push(Part::Number(edge_rank(kind) as i128));
    key.push(Part::Number(cross_project_rank(node, home) as i128));
    let ghost head = key_view(key);
    push_listing_key(&mut key, node);
    assert(head =~= seq![
        PartView::Number(edge_rank_spec(kind)),
        PartView::Number(
            if node.project_id@ == home@ {
                1
            } else {
                0
            },
        ),
    ]);
    key
}

/// The numbers from zero up.
pub open spec fn counting(count: nat) -> Seq<usize> {
    Seq::new(count, |i: int| i as usize)
}

fn count_up(count: usize) -> (numbers: Vec<usize>)
    ensures
        numbers@ == counting(count as nat),
{
    let mut numbers: Vec<usize> = Vec::new();
    for i in 0..count
        invariant
            numbers@.len() == i,
            forall|k: int| 0 <= k < i ==> #[trigger] numbers@[k] == k,
    {
        numbers.push(i);
    }
    assert(numbers@ =~= counting(count as nat));
    numbers
}

/// The places of the rows in the order they are listed.
pub open spec fn row_order(
    related: Seq<(EdgeKind, Node)>,
    rows: Seq<(int, int)>,
    home: Seq<char>,
) -> Seq<usize> {
    arranged(
        counting(rows.len()),
        rows.map_values(
            |row: (int, int)| related_key(related[row.0].0, related[row.0].1, home),
        ),
    )
}

fn order_rows(related: &[(EdgeKind, Node)], rows: &[(usize, usize)], home: &str) -> (order: Vec<
    usize,
>)
    requires
        rows_valid(related@, rows@),
    ensures
        order@ == row_order(related@, rows_view(rows@), home@),
        order@.len() == rows@.len(),
        forall|k: int| 0 <= k < order@.len() ==> #[trigger] order@[k] < rows@.len(),
{
    let ghost views_of = rows_view(rows@);
    let ghost wanted = views_of.map_values(
        |row: (int, int)| related_key(related@[row.0].0, related@[row.0].1, home@),
    );
    let mut keys: Vec<Vec<Part>> = Vec::new();
    for i in 0..rows.len()
        invariant
            rows_valid(related@, rows@),
            views_of == rows_view(rows@),
            wanted == views_of.map_values(
                |row: (int, int)| related_key(related@[row.0].0, related@[row.0].1, home@),
            ),
            keys_view(keys@) == wanted.take(i as int),
    {
        let ghost before = keys@;
        assert(rows@[i as int].0 < related@.len());
        let item = &related[rows[i].0];
        let key = key_of(item.0, &item.1, home);
        assert(views_of[i as int].0 == rows@[i as int].0);
        keys.push(key);
        assert(keys_view(keys@) =~= keys_view(before).push(wanted[i as int]));
        assert(wanted.take(i + 1) =~= wanted.take(i as int).push(wanted[i as int]));
    }
    assert(wanted.take(rows@.len() as int) =~= wanted);
    assert(keys@.len() == keys_view(keys@).len());
    assert(views_of.len() == rows@.len());
    let numbers = count_up(rows.len());
    let order = arrange(numbers.as_slice(), &keys);
    assert forall|k: int| 0 <= k < order@.len() implies #[trigger] order@[k] < rows@.len() by {
        assert(numbers@.contains(order@[k]));
    }
    order
}

/// How often a relation came, where that is more than once.
pub open spec fn times_text(count: int) -> Seq<char> {
    if count > 1 {
        " ×"@ + decimal_spec(count as nat)
    } else {
        ""@
    }
}

fn times(count: usize) -> (text: String)
    ensures
        text@ == times_text(count as int),
{
    if count > 1 {
        cat2(" ×", decimal_usize(count).as_str())
    } else {
        copy("")
    }
}

/// The first `count` rows in this order, one per line behind an indent.
pub open spec fn related_lines(
    related: Seq<(EdgeKind, Node)>,
    rows: Seq<(int, int)>,
    order: Seq<usize>,
    indent: Seq<char>,
    count: int,
) -> Seq<char>
    decreases count,
{
    if count <= 0 {
        ""@
    } else {
        let row = rows[order[count - 1] as int];
        related_lines(related, rows, order, indent, count - 1) + indent + "["@
            + related[row.0].0.label() + times_text(row.1) + "] "@ + node_line_spec(
            related[row.0].1,
        ) + "\n"@
    }
}

fn lines_of_related(
    related: &[(EdgeKind, Node)],
    rows: &[(usize, usize)],
    order: &[usize],
    indent: &str,
    count: usize,
) -> (text: String)
    requires
        rows_valid(related@, rows@),
        count <= order@.len(),
        forall|k: int| 0 <= k < order@.len() ==> #[trigger] order@[k] < rows@.len(),
    ensures
        text@ == related_lines(related@, rows_view(rows@), order@, indent@, count as int),
{
    let mut text = copy("");
    for i in 0..count
        invariant
            rows_valid(related@, rows@),
            count <= order@.len(),
            forall|k: int| 0 <= k < order@.len() ==> #[trigger] order@[k] < rows@.len(),
            text@ == related_lines(related@, rows_view(rows@), order@, indent@, i as int),
    {
        assert(order@[i as int] < rows@.len());
        let row = rows[order[i]];
        assert(rows@[order@[i as int] as int].0 < related@.len());
        let item = &related[row.0];
        text.append(indent);
        text.append("[");
        text.append(item.0.as_str());
        text.append(times(row.1).as_str());
        text.append("] ");
        text.append(node_line(&item.1).as_str());
        text.append("\n");
    }
    text
}

// ---------------------------------------------------------------------------
// Detail

/// What one symbol calls and is called by, and how many unbound references have its name.
pub struct SymbolDetail {
    pub callers: Vec<(EdgeKind, Node)>,
    pub callees: Vec<(EdgeKind, Node)>,
    pub dark: u64,
}

/// A labelled line, where there is something to say.
pub open spec fn labelled(label: Seq<char>, value: Option<Seq<char>>) -> Seq<char> {
    match value {
        Some(value) => label + value + "\n"@,
        None => ""@,
    }
}

/// The first line of a text, empty where it has none.
pub open spec fn first_line_spec(text: Seq<char>) -> Seq<char> {
    if lines_spec(text).len() == 0 {
        ""@
    } else {
        lines_spec(text)[0]
    }
}

/// What is said of unbound references to the name of a symbol that has it for itself.
pub open spec fn dark_note(name: Seq<char>, dark: u64) -> Seq<char> {
    if dispatch_method_name(name) {
        "  note: "@ + quoted(name) + " is a common method name; "@ + decimal_spec(dark as nat)
            + " unbound dynamic-dispatch call(s) workspace-wide share it, not necessarily callers of this symbol\n"@
    } else {
        "  dark callers: "@ + decimal_spec(dark as nat) + " unresolved reference(s) name "@
            + quoted(name)
            + " (dynamic dispatch or missing import); resolved caller count understates usage\n"@
    }
}

/// The strongest callers of a symbol.
pub open spec fn called_by(
    related: Seq<(EdgeKind, Node)>,
    rows: Seq<(int, int)>,
    home: Seq<char>,
) -> Seq<char> {
    "  called by:\n"@ + related_lines(
        related,
        rows,
        row_order(related, rows, home),
        "    "@,
        smaller(rows.len() as int, NODE_CALLERS_INLINE_MAX as int),
    ) + if rows.len() > NODE_CALLERS_INLINE_MAX {
        "    (+"@ + decimal_spec((rows.len() - NODE_CALLERS_INLINE_MAX) as nat)
            + " more; use `callers` for the rest)\n"@
    } else {
        ""@
    }
}

/// The counts of a symbol's callers and callees. Unbound references are counted beside the
/// callers, so that a symbol reached only through them does not read as dead.
pub open spec fn counts_line(detail: SymbolDetail) -> Seq<char> {
    let callers = related_rows_spec(detail.callers@);
    let callees = related_rows_spec(detail.callees@);
    "  callers: "@ + decimal_spec(callers.len()) + breakdown_text(detail.callers@, callers)
        + (if detail.dark > 0 {
        " resolved (+"@ + decimal_spec(detail.dark as nat) + " unresolved by name)"@
    } else {
        ""@
    }) + "  callees: "@ + decimal_spec(callees.len()) + breakdown_text(detail.callees@, callees)
        + "\n"@
}

/// The lines that describe a symbol by itself.
pub open spec fn identity_lines(node: Node) -> Seq<char> {
    node_line_spec(node) + "\n"@ + labelled("  role: "@, role_spec(node)) + labelled(
        "  signature: "@,
        match node.signature {
            Some(signature) => Some(signature@),
            None => None,
        },
    ) + labelled("  import: "@, import_line(node)) + labelled(
        "  doc: "@,
        match node.docstring {
            Some(docstring) => Some(first_line_spec(docstring@)),
            None => None,
        },
    )
}

/// The detail block of one symbol.
pub open spec fn node_detail_spec(node: Node, detail: SymbolDetail, unambiguous: bool) -> Seq<
    char,
> {
    let callers = related_rows_spec(detail.callers@);
    identity_lines(node) + counts_line(detail) + (if unambiguous && detail.dark > 0 {
        dark_note(node.name@, detail.dark)
    } else {
        ""@
    }) + if unambiguous && callers.len() > 0 {
        called_by(detail.callers@, callers, node.project_id@)
    } else {
        ""@
    }
}

fn label_line(label: &str, value: Option<&str>) -> (text: String)
    ensures
        text@ == labelled(
            label@,
            match value {
                Some(value) => Some(value@),
                None => None,
            },
        ),
{
    match value {
        Some(value) => cat3(label, value, "\n"),
        None => copy(""),
    }
}

fn first_line(text: &str) -> (line: String)
    ensures
        line@ == first_line_spec(text@),
{
    let all = lines(text);
    assert(views(all@).len() == all@.len());
    if all.len() == 0 {
        copy("")
    } else {
        assert(views(all@)[0] == all@[0]@);
        copy(all[0].as_str())
    }
}

fn identity(node: &Node) -> (text: String)
    ensures
        text@ == identity_lines(*node),
{
    let mut text = node_line(node);
    text.append("\n");
    text.append(label_line("  role: ", symbol_role(node)).as_str());
    let signature: Option<&str> = match &node.signature {
        Some(signature) => Some(signature.as_str()),
        None => None,
    };
    text.append(label_line("  signature: ", signature).as_str());
    let import = match python_import_line(node) {
        Some(line) => label_line("  import: ", Some(line.as_str())),
        None => copy(""),
    };
    text.append(import.as_str());
    let doc = match &node.docstring {
        Some(docstring) => label_line("  doc: ", Some(first_line(docstring.as_str()).as_str())),
        None => copy(""),
    };
    text.append(doc.as_str());
    text
}

/// The detail block for one symbol: location, role, signature, import line, first line of its
/// docstring, deduped caller and callee counts, what is known of unbound references, and for an
/// unambiguous symbol its top callers inline.
pub fn node_detail(node: &Node, detail: &SymbolDetail, unambiguous: bool) -> (text: String)
    requires
        node.name@.len() > 0,
    ensures
        text@ == node_detail_spec(*node, *detail, unambiguous),
{
    let callers = related_rows(detail.callers.as_slice());
    let callees = related_rows(detail.callees.as_slice());
    assert(rows_view(callers@).len() == callers@.len());
    assert(rows_view(callees@).len() == callees@.len());
    let dark = if detail.dark > 0 {
        cat3(" resolved (+", decimal(detail.dark).as_str(), " unresolved by name)")
    } else {
        copy("")
    };
    let mut counts = cat3(
        "  callers: ",
        decimal_usize(callers.len()).as_str(),
        edge_kind_breakdown(detail.callers.as_slice(), callers.as_slice()).as_str(),
    );
    counts.append(dark.as_str());
    counts.append("  callees: ");
    counts.append(decimal_usize(callees.len()).as_str());
    counts.append(edge_kind_breakdown(detail.callees.as_slice(), callees.as_slice()).as_str());
    counts.append("\n");
    let mut text = identity(node);
    text.append(counts.as_str());
    let note = if unambiguous && detail.dark > 0 {
        dark_line(node.name.as_str(), detail.dark)
    } else {
        copy("")
    };
    text.append(note.as_str());
    let inline = if unambiguous && callers.len() > 0 {
        top_callers(
            detail.callers.as_slice(),
            callers.as_slice(),
            node.project_id.as_str(),
        )
    } else {
        copy("")
    };
    text.append(inline.as_str());
    text
}

fn dark_line(name: &str, dark: u64) -> (text: String)
    ensures
        text@ == dark_note(name@, dark),
{
    let quoted_name = quote(name);
    let count = decimal(dark);
    if is_dispatch_method_name(name) {
        let mut text = cat4(
            "  note: ",
            quoted_name.as_str(),
            " is a common method name; ",
            count.as_str(),
        );
        text.append(
            " unbound dynamic-dispatch call(s) workspace-wide share it, not necessarily callers of this symbol\n",
        );
        text
    } else {
        let mut text = cat4(
            "  dark callers: ",
            count.as_str(),
            " unresolved reference(s) name ",
            quoted_name.as_str(),
        );
        text.append(
            " (dynamic dispatch or missing import); resolved caller count understates usage\n",
        );
        text
    }
}

fn top_callers(related: &[(EdgeKind, Node)], rows: &[(usize, usize)], home: &str) -> (text: String)
    requires
        rows_valid(related@, rows@),
    ensures
        text@ == called_by(related@, rows_view(rows@), home@),
{
    let order = order_rows(related, rows, home);
    assert(rows_view(rows@).len() == rows@.len());
    let shown: usize = if rows.len() <= NODE_CALLERS_INLINE_MAX {
        rows.len()
    } else {
        NODE_CALLERS_INLINE_MAX
    };
    let listed = lines_of_related(related, rows, order.as_slice(), "    ", shown);
    let more = if rows.len() > NODE_CALLERS_INLINE_MAX {
        cat3(
            "    (+",
            decimal_usize(rows.len() - NODE_CALLERS_INLINE_MAX).as_str(),
            " more; use `callers` for the rest)\n",
        )
    } else {
        copy("")
    };
    cat3("  called by:\n", listed.as_str(), more.as_str())
}

/// The detail blocks of the first `count` symbols.
pub open spec fn detail_blocks(
    nodes: Seq<Node>,
    details: Seq<SymbolDetail>,
    count: int,
) -> Seq<char>
    decreases count,
{
    if count <= 0 {
        ""@
    } else {
        detail_blocks(nodes, details, count - 1) + node_detail_spec(
            nodes[count - 1],
            details[count - 1],
            nodes.len() == 1,
        )
    }
}

/// How many of the ways to narrow a name are given.
pub const NARROW_MAX: usize = 6;

/// The names by which the nodes can be targeted.
pub open spec fn targetable_names(nodes: Seq<Node>) -> Seq<Seq<char>> {
    nodes.map_values(|node: Node| targetable_spec(node.qualified_name@))
}

/// What is said of unbound references to a name that several symbols share. It cannot be
/// attributed to one of them, so it is said once.
pub open spec fn shared_dark_note(name: Seq<char>, dark: u64) -> Seq<char> {
    if dark == 0 {
        ""@
    } else if dispatch_method_name(name) {
        "note: "@ + quoted(name) + " is a common method name; "@ + decimal_spec(dark as nat)
            + " unbound dynamic-dispatch call(s) workspace-wide share it, not callers of any one of these overloads\n"@
    } else {
        "dark callers (name-global): "@ + decimal_spec(dark as nat)
            + " unresolved reference(s) name "@ + quoted(name)
            + " (dynamic dispatch or missing import); not attributable to a single overload\n"@
    }
}

/// How to narrow a name that several symbols share.
pub open spec fn narrow_note(nodes: Seq<Node>) -> Seq<char> {
    decimal_spec(nodes.len()) + " matches: narrow with one of: "@ + join_spec(
        targetable_names(nodes).take(smaller(nodes.len() as int, NARROW_MAX as int)),
        ", "@,
    ) + (if nodes.len() > NARROW_MAX {
        ", …"@
    } else {
        ""@
    }) + "\n"@
}

/// The symbols of a name in detail.
pub open spec fn node_text_spec(
    symbol: Seq<char>,
    nodes: Seq<Node>,
    details: Seq<SymbolDetail>,
) -> Seq<char> {
    let shown = smaller(nodes.len() as int, NODE_DETAIL_MAX as int);
    if nodes.len() == 0 {
        "no symbol named "@ + quoted(symbol)
    } else {
        detail_blocks(nodes, details, shown) + (if nodes.len() > shown {
            "(+"@ + decimal_spec((nodes.len() - shown) as nat) + " more: "@ + tally_text(
                kind_labels(nodes.skip(shown)),
            ) + ")\n"@
        } else {
            ""@
        }) + if nodes.len() > 1 {
            narrow_note(nodes) + shared_dark_note(nodes[0].name@, details[0].dark)
        } else {
            ""@
        }
    }
}

/// A symbol in detail. An overloaded name renders the leading definitions and says how to narrow,
/// rather than picking one. `details` holds an entry for each symbol shown.
pub fn node_text(symbol: &str, nodes: &[Node], details: &[SymbolDetail]) -> (text: String)
    requires
        details@.len() >= smaller(nodes@.len() as int, NODE_DETAIL_MAX as int),
        forall|i: int|
            0 <= i < nodes@.len() && i < NODE_DETAIL_MAX ==> (#[trigger] nodes@[i]).name@.len() > 0,
    ensures
        text@ == node_text_spec(symbol@, nodes@, details@),
{
    if nodes.len() == 0 {
        return cat2("no symbol named ", quote(symbol).as_str());
    }
    let shown: usize = if nodes.len() <= NODE_DETAIL_MAX {
        nodes.len()
    } else {
        NODE_DETAIL_MAX
    };
    let mut text = copy("");
    for i in 0..shown
        invariant
            shown <= nodes@.len(),
            shown <= details@.len(),
            shown <= NODE_DETAIL_MAX,
            forall|i: int|
                0 <= i < nodes@.len() && i < NODE_DETAIL_MAX ==> (
                #[trigger] nodes@[i]).name@.len() > 0,
            text@ == detail_blocks(nodes@, details@, i as int),
    {
        assert(nodes@[i as int].name@.len() > 0);
        let block = node_detail(&nodes[i], &details[i], nodes.len() == 1);
        text.append(block.as_str());
    }
    let more = if nodes.len() > shown {
        let rest = vstd::slice::slice_subrange(nodes, shown, nodes.len());
        assert(rest@ =~= nodes@.skip(shown as int));
        let mut more = cat4(
            "(+",
            decimal_usize(nodes.len() - shown).as_str(),
            " more: ",
            summarize_kinds(rest).as_str(),
        );
        more.append(")\n");
        more
    } else {
        copy("")
    };
    text.append(more.as_str());
    let shared = if nodes.len() > 1 {
        cat2(
            narrow(nodes).as_str(),
            shared_dark_line(nodes[0].name.as_str(), details[0].dark).as_str(),
        )
    } else {
        copy("")
    };
    text.append(shared.as_str());
    text
}

fn narrow(nodes: &[Node]) -> (text: String)
    ensures
        text@ == narrow_note(nodes@),
{
    let shown: usize = if nodes.len() <= NARROW_MAX {
        nodes.len()
    } else {
        NARROW_MAX
    };
    let ghost all = targetable_names(nodes@);
    let mut names: Vec<String> = Vec::new();
    assert(views(names@) =~= all.take(0));
    for i in 0..shown
        invariant
            shown <= nodes@.len(),
            all == targetable_names(nodes@),
            views(names@) == all.take(i as int),
    {
        let ghost before = names@;
        let name = targetable_name(&nodes[i]);
        names.push(name);
        assert(views(names@) =~= views(before).push(all[i as int]));
        assert(all.take(i + 1) =~= all.take(i as int).push(all[i as int]));
    }
    let mut text = cat3(
        decimal_usize(nodes.len()).as_str(),
        " matches: narrow with one of: ",
        join(names.as_slice(), ", ").as_str(),
    );
    text.append(
        if nodes.len() > NARROW_MAX {
            ", …"
        } else {
            ""
        },
    );
    text.append("\n");
    text
}

fn shared_dark_line(name: &str, dark: u64) -> (text: String)
    ensures
        text@ == shared_dark_note(name@, dark),
{
    let quoted_name = quote(name);
    let count = decimal(dark);
    if dark == 0 {
        copy("")
    } else if is_dispatch_method_name(name) {
        let mut text = cat4(
            "note: ",
            quoted_name.as_str(),
            " is a common method name; ",
            count.as_str(),
        );
        text.append(
            " unbound dynamic-dispatch call(s) workspace-wide share it, not callers of any one of these overloads\n",
        );
        text
    } else {
        let mut text = cat4(
            "dark callers (name-global): ",
            count.as_str(),
            " unresolved reference(s) name ",
            quoted_name.as_str(),
        );
        text.append(
            " (dynamic dispatch or missing import); not attributable to a single overload\n",
        );
        text
    }
}

// ---------------------------------------------------------------------------
// Model schema

/// A column of a model: where it was declared and how it is listed.
#[verifier::ext_equal]
pub struct FieldView {
    /// The place, among the classes seen, of the one that declares it.
    pub owner: int,
    pub base: Seq<char>,
    pub name: Seq<char>,
    pub line: int,
    pub text: Seq<char>,
}

/// The field of a class, listed under the class that declares it.
pub open spec fn field_of(field: Node, owner: int, base: Seq<char>) -> FieldView {
    FieldView {
        owner,
        base,
        name: field.name@,
        line: field.span.start_line as int,
        text: "    ["@ + base + "] "@ + field.name@ + field_signature_spec(field) + "\n"@,
    }
}

/// A class whose members the walk has yet to read: its place among the classes seen, its id, its
/// name, and how far up it stands.
pub struct PendingView {
    pub place: int,
    pub id: Seq<char>,
    pub name: Seq<char>,
    pub depth: int,
}

/// What a walk up the bases of a model has gathered so far.
#[verifier::ext_equal]
pub struct ModelView {
    pub visited: Seq<Seq<char>>,
    /// The classes yet to be read, the next one last.
    pub frontier: Seq<PendingView>,
    /// The names of the bases.
    pub bases: Seq<Seq<char>>,
    /// A class and a class it extends, each by its place among the classes seen.
    pub extends: Seq<(int, int)>,
    pub own: Seq<FieldView>,
    pub inherited: Seq<FieldView>,
    /// The lines of the relations.
    pub relations: Seq<Seq<char>>,
    pub related: Seq<Seq<char>>,
    pub walked: int,
    /// The walk came to its cap on classes.
    pub truncated: bool,
}

/// The walk before it has read the model itself.
pub open spec fn model_start(model: Node) -> ModelView {
    ModelView {
        visited: seq![model.id@],
        frontier: seq![PendingView { place: 0, id: model.id@, name: model.name@, depth: 0 }],
        bases: Seq::empty(),
        extends: Seq::empty(),
        own: Seq::empty(),
        inherited: Seq::empty(),
        relations: Seq::empty(),
        related: Seq::empty(),
        walked: 0,
        truncated: false,
    }
}

/// A relation on a line: outward where the model declares it, back where another model's relation
/// to this one made it.
pub open spec fn relation_line(related: Node, back: bool) -> Seq<char> {
    "    ["@ + (if back {
        "<-"@
    } else {
        "->"@
    }) + "] "@ + related.name@ + " ("@ + related.file_path@ + ":"@ + decimal_spec(
        related.span.start_line as nat,
    ) + ")\n"@
}

/// The walk once it has met one member, relation or base of the class it reads.
pub open spec fn model_met(
    walk: ModelView,
    class: PendingView,
    callee: (EdgeKind, Node),
    reverse: Set<Seq<char>>,
) -> ModelView {
    let other = callee.1;
    match callee.0 {
        EdgeKind::Contains => if other.kind == NodeKind::Field {
            if class.depth == 0 {
                ModelView { own: walk.own.push(field_of(other, class.place, "own"@)), ..walk }
            } else {
                ModelView {
                    inherited: walk.inherited.push(field_of(other, class.place, class.name)),
                    ..walk
                }
            }
        } else {
            walk
        },
        EdgeKind::RelatesTo => if key_at(walk.related, other.id@, 0) is None {
            ModelView {
                related: walk.related.push(other.id@),
                relations: walk.relations.push(
                    relation_line(other, reverse.contains(other.id@)),
                ),
                ..walk
            }
        } else {
            walk
        },
        EdgeKind::Extends => match key_at(walk.visited, other.id@, 0) {
            Some(place) => ModelView { extends: walk.extends.push((class.place, place)), ..walk },
            None => if class.depth < MODEL_MRO_DEPTH_MAX {
                let place = walk.visited.len() as int;
                ModelView {
                    visited: walk.visited.push(other.id@),
                    bases: walk.bases.push(other.name@),
                    extends: walk.extends.push((class.place, place)),
                    frontier: walk.frontier.push(
                        PendingView {
                            place,
                            id: other.id@,
                            name: other.name@,
                            depth: class.depth + 1,
                        },
                    ),
                    ..walk
                }
            } else {
                walk
            },
        },
        _ => walk,
    }
}

/// The walk once it has met the first `count` callees of the class it reads.
pub open spec fn model_met_all(
    walk: ModelView,
    class: PendingView,
    callees: Seq<(EdgeKind, Node)>,
    reverse: Set<Seq<char>>,
    count: int,
) -> ModelView
    decreases count,
{
    if count <= 0 {
        walk
    } else {
        model_met(
            model_met_all(walk, class, callees, reverse, count - 1),
            class,
            callees[count - 1],
            reverse,
        )
    }
}

/// The walk once it has read one more class: the one it came to last.
pub open spec fn model_step(
    walk: ModelView,
    callees: Seq<(EdgeKind, Node)>,
    reverse: Set<Seq<char>>,
) -> ModelView {
    model_met_all(
        ModelView {
            frontier: walk.frontier.drop_last(),
            walked: walk.walked + 1,
            ..walk
        },
        walk.frontier.last(),
        callees,
        reverse,
        callees.len() as int,
    )
}

/// The texts as a set.
pub open spec fn text_set(texts: Seq<Seq<char>>, count: int) -> Set<Seq<char>>
    decreases count,
{
    if count <= 0 {
        Set::empty()
    } else {
        text_set(texts, count - 1).insert(texts[count - 1])
    }
}

struct FieldRow {
    owner: usize,
    base: String,
    name: String,
    line: u32,
    text: String,
}

impl View for FieldRow {
    type V = FieldView;

    closed spec fn view(&self) -> FieldView {
        FieldView {
            owner: self.owner as int,
            base: self.base@,
            name: self.name@,
            line: self.line as int,
            text: self.text@,
        }
    }
}

spec fn fields_view(fields: Seq<FieldRow>) -> Seq<FieldView> {
    fields.map_values(|field: FieldRow| field@)
}

struct Pending {
    place: usize,
    id: String,
    name: String,
    depth: u32,
}

spec fn pending_view(pending: Seq<Pending>) -> Seq<PendingView> {
    pending.map_values(|class: Pending| class@)
}

impl View for Pending {
    type V = PendingView;

    closed spec fn view(&self) -> PendingView {
        PendingView {
            place: self.place as int,
            id: self.id@,
            name: self.name@,
            depth: self.depth as int,
        }
    }
}

/// Pairs of places as values.
pub open spec fn links(pairs: Seq<(usize, usize)>) -> Seq<(int, int)> {
    pairs.map_values(|pair: (usize, usize)| (pair.0 as int, pair.1 as int))
}

fn field_row(field: &Node, owner: usize, base: &str) -> (row: FieldRow)
    ensures
        row@ == field_of(*field, owner as int, base@),
{
    let mut text = cat4("    [", base, "] ", field.name.as_str());
    text.append(field_signature(field).as_str());
    text.append("\n");
    FieldRow {
        owner,
        base: copy(base),
        name: copy(field.name.as_str()),
        line: field.span.start_line,
        text,
    }
}

fn relation_text(related: &Node, back: bool) -> (text: String)
    ensures
        text@ == relation_line(*related, back),
{
    let mut text = cat4(
        "    [",
        if back {
            "<-"
        } else {
            "->"
        },
        "] ",
        related.name.as_str(),
    );
    text.append(" (");
    text.append(related.file_path.as_str());
    text.append(":");
    text.append(decimal_u32(related.span.start_line).as_str());
    text.append(")\n");
    text
}

/// A walk up the bases of a model that gathers its schema. It says which class it needs the
/// callees of, and takes them in.
pub struct ModelWalk {
    visited: KeyIndex,
    frontier: Vec<Pending>,
    bases: Vec<String>,
    extends: Vec<(usize, usize)>,
    own: Vec<FieldRow>,
    inherited: Vec<FieldRow>,
    relations: Vec<String>,
    related: KeyIndex,
    walked: usize,
    truncated: bool,
}

impl View for ModelWalk {
    type V = ModelView;

    closed spec fn view(&self) -> ModelView {
        ModelView {
            visited: self.visited@,
            frontier: pending_view(self.frontier@),
            bases: views(self.bases@),
            extends: links(self.extends@),
            own: fields_view(self.own@),
            inherited: fields_view(self.inherited@),
            relations: views(self.relations@),
            related: self.related@,
            walked: self.walked as int,
            truncated: self.truncated,
        }
    }
}

impl ModelWalk {
    pub closed spec fn wf(self) -> bool {
        self.visited.wf() && self.related.wf()
    }

    /// The walk before it has read the model itself.
    pub fn new(model: &Node) -> (walk: ModelWalk)
        ensures
            walk.wf(),
            walk@ == model_start(*model),
    {
        let mut visited = KeyIndex::new();
        visited.add(model.id.as_str());
        let mut frontier: Vec<Pending> = Vec::new();
        frontier.push(
            Pending {
                place: 0,
                id: copy(model.id.as_str()),
                name: copy(model.name.as_str()),
                depth: 0,
            },
        );
        let walk = ModelWalk {
            visited,
            frontier,
            bases: Vec::new(),
            extends: Vec::new(),
            own: Vec::new(),
            inherited: Vec::new(),
            relations: Vec::new(),
            related: KeyIndex::new(),
            walked: 0,
            truncated: false,
        };
        assert(walk@ =~= model_start(*model));
        walk
    }

    /// The id of the class to read next; `None` once every base is read or the walk came to its
    /// cap, which it notes.
    pub fn next_class(&mut self) -> (id: Option<String>)
        requires
            old(self).wf(),
        ensures
            final(self).wf(),
            match id {
                Some(id) => old(self)@.frontier.len() > 0 && old(self)@.walked < MODEL_NODES_MAX
                    && id@ == old(self)@.frontier.last().id && final(self)@ == old(self)@,
                None => {
                    &&& old(self)@.frontier.len() == 0 || old(self)@.walked >= MODEL_NODES_MAX
                    &&& final(self)@ == (ModelView {
                        truncated: old(self)@.truncated || old(self)@.frontier.len() > 0,
                        ..old(self)@
                    })
                },
            },
    {
        assert(self@.frontier.len() == self.frontier@.len());
        if self.frontier.len() == 0 {
            return None;
        }
        if self.walked >= MODEL_NODES_MAX {
            self.truncated = true;
            return None;
        }
        Some(copy(self.frontier[self.frontier.len() - 1].id.as_str()))
    }

    /// The class that came next read: its callees, and which of them its relations lead back from.
    pub fn read_class(&mut self, callees: &[(EdgeKind, Node)], reverse_targets: &[String])
        requires
            old(self).wf(),
            old(self)@.frontier.len() > 0,
            old(self)@.walked < MODEL_NODES_MAX,
        ensures
            final(self).wf(),
            final(self)@ == model_step(
                old(self)@,
                callees@,
                text_set(views(reverse_targets@), reverse_targets@.len() as int),
            ),
    {
        let ghost start = ModelView {
            frontier: self@.frontier.drop_last(),
            walked: self@.walked + 1,
            ..self@
        };
        let ghost last = self@.frontier.last();
        let ghost before = self.frontier@;
        assert(self@.frontier.len() == before.len());
        let ghost targets = text_set(views(reverse_targets@), reverse_targets@.len() as int);
        let mut reverse = texts_new();
        for i in 0..reverse_targets.len()
            invariant
                texts_held(reverse) == text_set(views(reverse_targets@), i as int),
        {
            texts_insert(&mut reverse, reverse_targets[i].as_str());
        }
        let class = match self.frontier.pop() {
            Some(class) => class,
            None => {
                return;
            },
        };
        let ghost class_view = class@;
        assert(class_view == last);
        self.walked = self.walked + 1;
        assert(pending_view(self.frontier@) =~= pending_view(before).drop_last());
        assert(self@ == start);
        for i in 0..callees.len()
            invariant
                self.wf(),
                texts_held(reverse) == targets,
                class_view == class@,
                self@ == model_met_all(start, class_view, callees@, targets, i as int),
        {
            self.meet(&class, &callees[i], &reverse);
        }
    }

    fn meet(&mut self, class: &Pending, callee: &(EdgeKind, Node), reverse: &FxHashSet<String>)
        requires
            old(self).wf(),
        ensures
            final(self).wf(),
            final(self)@ == model_met(
                old(self)@,
                class@,
                *callee,
                texts_held(*reverse),
            ),
    {
        let other = &callee.1;
        let id = other.id.as_str();
        match callee.0 {
            EdgeKind::Contains => {
                if other.kind == NodeKind::Field {
                    if class.depth == 0 {
                        let ghost before = self.own@;
                        let row = field_row(other, class.place, "own");
                        self.own.push(row);
                        assert(fields_view(self.own@) =~= fields_view(before).push(row@));
                    } else {
                        let ghost before = self.inherited@;
                        let row = field_row(other, class.place, class.name.as_str());
                        self.inherited.push(row);
                        assert(fields_view(self.inherited@) =~= fields_view(before).push(row@));
                    }
                }
            },
            EdgeKind::RelatesTo => {
                if self.related.find(id).is_none() {
                    let ghost before = self.relations@;
                    let line = relation_text(other, texts_contains(reverse, id));
                    self.related.add(id);
                    self.relations.push(line);
                    assert(views(self.relations@) =~= views(before).push(line@));
                }
            },
            EdgeKind::Extends => {
                let ghost bases = self.bases@;
                let ghost frontier = self.frontier@;
                let ghost extends = self.extends@;
                match self.visited.find(id) {
                    Some(place) => {
                        self.extends.push((class.place, place));
                        assert(links(self.extends@) =~= links(extends).push(
                            (class.place as int, place as int),
                        ));
                    },
                    None => {
                        if class.depth < MODEL_MRO_DEPTH_MAX {
                            let place: usize = self.visited.len();
                            self.visited.add(id);
                            self.bases.push(copy(other.name.as_str()));
                            self.extends.push((class.place, place));
                            self.frontier.push(
                                Pending {
                                    place,
                                    id: copy(id),
                                    name: copy(other.name.as_str()),
                                    depth: class.depth + 1,
                                },
                            );
                            assert(views(self.bases@) =~= views(bases).push(other.name@));
                            assert(links(self.extends@) =~= links(extends).push(
                                (class.place as int, place as int),
                            ));
                            assert(pending_view(self.frontier@) =~= pending_view(frontier).push(
                                PendingView {
                                    place: place as int,
                                    id: other.id@,
                                    name: other.name@,
                                    depth: class.depth + 1,
                                },
                            ));
                        }
                    },
                }
            },
            _ => {},
        }
    }
}

/// The places of the fields in the order the source declares them.
pub open spec fn own_order(fields: Seq<FieldView>) -> Seq<usize> {
    arranged(
        counting(fields.len()),
        fields.map_values(|field: FieldView| seq![PartView::Number(field.line)]),
    )
}

/// The places of inherited fields: by the class that declares each, then in source order.
pub open spec fn inherited_order(fields: Seq<FieldView>) -> Seq<usize> {
    arranged(
        counting(fields.len()),
        fields.map_values(
            |field: FieldView| seq![PartView::Text(field.base), PartView::Number(field.line)],
        ),
    )
}

/// Some field has this name.
pub open spec fn field_named(fields: Seq<FieldView>, name: Seq<char>) -> bool {
    exists|k: int| 0 <= k < fields.len() && (#[trigger] fields[k]).name == name
}

/// The first `count` fields in this order, one per line.
pub open spec fn field_lines(fields: Seq<FieldView>, order: Seq<usize>, count: int) -> Seq<char>
    decreases count,
{
    if count <= 0 {
        ""@
    } else {
        field_lines(fields, order, count - 1) + fields[order[count - 1] as int].text
    }
}

/// The pair at this place of a chain is a class and one it extends.
pub open spec fn linked(extends: Seq<(int, int)>, chain: Seq<int>, at: int) -> bool {
    extends.contains((chain[at], chain[at + 1]))
}

/// A run of classes each of which extends the next.
pub open spec fn is_chain(extends: Seq<(int, int)>, chain: Seq<int>) -> bool {
    chain.len() >= 2 && forall|at: int|
        0 <= at < chain.len() - 1 ==> #[trigger] linked(extends, chain, at)
}

/// The first class is a subclass of the second, directly or through others.
pub open spec fn derives(extends: Seq<(int, int)>, subclass: int, base: int) -> bool {
    exists|chain: Seq<int>| #[trigger]
        is_chain(extends, chain) && chain[0] == subclass && chain.last() == base
}

/// The first class is a subclass of the second, which is none of the first.
pub open spec fn strictly_derives(extends: Seq<(int, int)>, subclass: int, base: int) -> bool {
    derives(extends, subclass, base) && !derives(extends, base, subclass)
}

/// A subclass of the class that declares this field declares one of the same name.
pub open spec fn shadowed(extends: Seq<(int, int)>, fields: Seq<FieldView>, at: int) -> bool {
    exists|j: int|
        0 <= j < fields.len() && (#[trigger] fields[j]).name == fields[at].name
            && strictly_derives(extends, fields[j].owner, fields[at].owner)
}

/// Some of the rows has this name.
pub open spec fn listed(fields: Seq<FieldView>, rows: Seq<int>, name: Seq<char>) -> bool {
    exists|k: int| 0 <= k < rows.len() && fields[#[trigger] rows[k]].name == name
}

/// The inherited fields that are listed, of the first `count` in this order: without those that an
/// own field or a field of a subclass shadows, and of two bases that are no subclass of each other
/// the one that comes first.
pub open spec fn inherited_rows(
    own: Seq<FieldView>,
    fields: Seq<FieldView>,
    extends: Seq<(int, int)>,
    order: Seq<usize>,
    count: int,
) -> Seq<int>
    decreases count,
{
    if count <= 0 {
        Seq::empty()
    } else {
        let rows = inherited_rows(own, fields, extends, order, count - 1);
        let at = order[count - 1] as int;
        if field_named(own, fields[at].name) || shadowed(extends, fields, at) || listed(
            fields,
            rows,
            fields[at].name,
        ) {
            rows
        } else {
            rows.push(at)
        }
    }
}

/// The inherited fields that a model lists.
pub open spec fn listed_fields(walk: ModelView) -> Seq<int> {
    inherited_rows(
        walk.own,
        walk.inherited,
        walk.extends,
        inherited_order(walk.inherited),
        walk.inherited.len() as int,
    )
}

/// The first `count` rows, one per line.
pub open spec fn row_lines(fields: Seq<FieldView>, rows: Seq<int>, count: int) -> Seq<char>
    decreases count,
{
    if count <= 0 {
        ""@
    } else {
        row_lines(fields, rows, count - 1) + fields[rows[count - 1]].text
    }
}

/// The first `count` lines, one after another.
pub open spec fn texts_upto(texts: Seq<Seq<char>>, count: int) -> Seq<char>
    decreases count,
{
    if count <= 0 {
        ""@
    } else {
        texts_upto(texts, count - 1) + texts[count - 1]
    }
}

/// The schema of one model.
pub open spec fn model_sections(walk: ModelView) -> Seq<char> {
    "  bases: "@ + (if walk.bases.len() == 0 {
        "(none)"@
    } else {
        join_spec(walk.bases, ", "@)
    }) + "\n"@ + "  fields ("@ + decimal_spec(
        walk.own.len() + listed_fields(walk).len(),
    ) + "):\n"@ + field_lines(walk.own, own_order(walk.own), walk.own.len() as int) + row_lines(
        walk.inherited,
        listed_fields(walk),
        listed_fields(walk).len() as int,
    ) + (if walk.relations.len() == 0 {
        ""@
    } else {
        "  relations ("@ + decimal_spec(walk.relations.len())
            + "): [->] forward FK/M2M this model declares, [<-] reverse (a model that points here):\n"@
            + texts_upto(walk.relations, walk.relations.len() as int)
    }) + if walk.truncated {
        "  (walk stopped at "@ + decimal_spec(MODEL_NODES_MAX as nat)
            + " nodes; the schema above is partial)\n"@
    } else {
        ""@
    }
}

spec fn field_keys(fields: Seq<FieldView>, by_base: bool) -> Seq<Seq<PartView>> {
    if by_base {
        fields.map_values(
            |field: FieldView| seq![PartView::Text(field.base), PartView::Number(field.line)],
        )
    } else {
        fields.map_values(|field: FieldView| seq![PartView::Number(field.line)])
    }
}

fn order_fields(fields: &Vec<FieldRow>, by_base: bool) -> (order: Vec<usize>)
    ensures
        order@ == arranged(
            counting(fields@.len()),
            field_keys(fields_view(fields@), by_base),
        ),
        order@.len() == fields@.len(),
        forall|k: int| 0 <= k < order@.len() ==> #[trigger] order@[k] < fields@.len(),
{
    let ghost wanted = field_keys(fields_view(fields@), by_base);
    assert(wanted.len() == fields@.len());
    let mut keys: Vec<Vec<Part>> = Vec::new();
    for i in 0..fields.len()
        invariant
            wanted == field_keys(fields_view(fields@), by_base),
            wanted.len() == fields@.len(),
            keys_view(keys@) == wanted.take(i as int),
    {
        let ghost before = keys@;
        let mut key: Vec<Part> = Vec::new();
        if by_base {
            key.push(Part::Text(fields[i].base.clone()));
        }
        key.push(Part::Number(fields[i].line as i128));
        assert(key_view(key) =~= wanted[i as int]);
        keys.push(key);
        assert(keys_view(keys@) =~= keys_view(before).push(wanted[i as int]));
        assert(wanted.take(i + 1) =~= wanted.take(i as int).push(wanted[i as int]));
    }
    assert(wanted.take(fields@.len() as int) =~= wanted);
    assert(keys@.len() == keys_view(keys@).len());
    let numbers = count_up(fields.len());
    let order = arrange(numbers.as_slice(), &keys);
    assert forall|k: int| 0 <= k < order@.len() implies #[trigger] order@[k] < fields@.len() by {
        assert(numbers@.contains(order@[k]));
    }
    order
}

spec fn names_of(fields: Seq<FieldView>, count: int) -> Set<Seq<char>>
    decreases count,
{
    if count <= 0 {
        Set::empty()
    } else {
        names_of(fields, count - 1).insert(fields[count - 1].name)
    }
}

proof fn lemma_names_of(fields: Seq<FieldView>, name: Seq<char>, count: int)
    requires
        0 <= count <= fields.len(),
    ensures
        names_of(fields, count).contains(name) <==> exists|k: int|
            0 <= k < count && (#[trigger] fields[k]).name == name,
    decreases count,
{
    if count > 0 {
        lemma_names_of(fields, name, count - 1);
        if fields[count - 1].name == name {
            assert(fields[count - 1].name == name);
        }
    }
}

fn render_own(own: &Vec<FieldRow>) -> (out: (String, FxHashSet<String>))
    ensures
        out.0@ == field_lines(
            fields_view(own@),
            own_order(fields_view(own@)),
            own@.len() as int,
        ),
        forall|name: Seq<char>| #[trigger]
            texts_held(out.1).contains(name) <==> field_named(fields_view(own@), name),
{
    let ghost fields = fields_view(own@);
    let order = order_fields(own, false);
    let mut names = texts_new();
    for i in 0..own.len()
        invariant
            fields == fields_view(own@),
            texts_held(names) == names_of(fields, i as int),
    {
        assert(fields[i as int].name == own@[i as int].name@);
        texts_insert(&mut names, own[i].name.as_str());
    }
    assert forall|name: Seq<char>| #[trigger]
        texts_held(names).contains(name) <==> field_named(fields, name) by {
        lemma_names_of(fields, name, fields.len() as int);
    }
    let mut text = copy("");
    for i in 0..order.len()
        invariant
            fields == fields_view(own@),
            order@ == own_order(fields),
            order@.len() == own@.len(),
            forall|k: int| 0 <= k < order@.len() ==> #[trigger] order@[k] < own@.len(),
            text@ == field_lines(fields, order@, i as int),
    {
        assert(order@[i as int] < own@.len());
        assert(fields[order@[i as int] as int].text == own@[order@[i as int] as int].text@);
        text.append(own[order[i]].text.as_str());
    }
    (text, names)
}

spec fn unmarked(marks: Seq<bool>) -> nat
    decreases marks.len(),
{
    if marks.len() == 0 {
        0
    } else {
        unmarked(marks.drop_last()) + if marks.last() {
            0nat
        } else {
            1
        }
    }
}

proof fn lemma_unmarked_falls(marks: Seq<bool>, at: int)
    requires
        0 <= at < marks.len(),
        !marks[at],
    ensures
        unmarked(marks.update(at, true)) + 1 == unmarked(marks),
    decreases marks.len(),
{
    let after = marks.update(at, true);
    if at == marks.len() - 1 {
        assert(after.drop_last() =~= marks.drop_last());
    } else {
        assert(after.drop_last() =~= marks.drop_last().update(at, true));
        lemma_unmarked_falls(marks.drop_last(), at);
    }
}

/// The class that the pair leads from is the start or one that a marked pair leads to.
spec fn hit(extends: Seq<(int, int)>, marks: Seq<bool>, start: int, at: int) -> bool {
    extends[at].0 == start || exists|m: int|
        0 <= m < extends.len() && #[trigger] marks[m] && extends[m].1 == extends[at].0
}

proof fn lemma_chain_grows(extends: Seq<(int, int)>, start: int, at: int)
    requires
        0 <= at < extends.len(),
        extends[at].0 == start || derives(extends, start, extends[at].0),
    ensures
        derives(extends, start, extends[at].1),
{
    let (from, to) = extends[at];
    assert(extends.contains((from, to)));
    if from == start {
        let chain = seq![from, to];
        assert(linked(extends, chain, 0));
        assert(is_chain(extends, chain));
    } else {
        let chain = choose|chain: Seq<int>| #[trigger]
            is_chain(extends, chain) && chain[0] == start && chain.last() == from;
        let longer = chain.push(to);
        assert forall|k: int| 0 <= k < longer.len() - 1 implies #[trigger] linked(
            extends,
            longer,
            k,
        ) by {
            if k < chain.len() - 1 {
                assert(linked(extends, chain, k));
            }
        }
        assert(is_chain(extends, longer));
        assert(longer[0] == start && longer.last() == to);
    }
}

proof fn lemma_closed_marks(
    extends: Seq<(int, int)>,
    marks: Seq<bool>,
    start: int,
    chain: Seq<int>,
)
    requires
        marks.len() == extends.len(),
        forall|k: int| 0 <= k < extends.len() && hit(extends, marks, start, k) ==> #[trigger] marks[k],
        is_chain(extends, chain),
        chain[0] == start,
    ensures
        exists|m: int| 0 <= m < extends.len() && #[trigger] marks[m] && extends[m].1 == chain.last(),
    decreases chain.len(),
{
    let last = chain.len() - 2;
    assert(linked(extends, chain, last));
    let at = choose|k: int| 0 <= k < extends.len() && extends[k] == (chain[last], chain[last + 1]);
    if chain.len() > 2 {
        let shorter = chain.drop_last();
        assert forall|k: int| 0 <= k < shorter.len() - 1 implies #[trigger] linked(
            extends,
            shorter,
            k,
        ) by {
            assert(linked(extends, chain, k));
        }
        lemma_closed_marks(extends, marks, start, shorter);
        let m = choose|m: int|
            0 <= m < extends.len() && #[trigger] marks[m] && extends[m].1 == shorter.last();
        assert(marks[m] && extends[m].1 == extends[at].0);
    }
    assert(hit(extends, marks, start, at));
    assert(marks[at]);
}

fn marked_to(extends: &Vec<(usize, usize)>, marks: &Vec<bool>, to: usize) -> (found: bool)
    requires
        marks@.len() == extends@.len(),
    ensures
        found == exists|m: int|
            0 <= m < extends@.len() && #[trigger] marks@[m] && links(extends@)[m].1 == to,
{
    for i in 0..extends.len()
        invariant
            marks@.len() == extends@.len(),
            forall|m: int|
                0 <= m < i ==> !(#[trigger] marks@[m] && links(extends@)[m].1 == to),
    {
        assert(links(extends@)[i as int].1 == extends@[i as int].1);
        if marks[i] && extends[i].1 == to {
            assert(marks@[i as int]);
            return true;
        }
    }
    false
}

/// Whether one class is a subclass of another, by the pairs of a class and one it extends.
fn is_subclass(extends: &Vec<(usize, usize)>, subclass: usize, base: usize) -> (found: bool)
    ensures
        found == derives(links(extends@), subclass as int, base as int),
{
    let ghost pairs = links(extends@);
    let mut marks: Vec<bool> = Vec::new();
    for i in 0..extends.len()
        invariant
            marks@.len() == i,
            forall|k: int| 0 <= k < i ==> !(#[trigger] marks@[k]),
    {
        marks.push(false);
    }
    let mut changed = true;
    while changed
        invariant
            pairs == links(extends@),
            marks@.len() == extends@.len(),
            forall|k: int|
                0 <= k < marks@.len() && #[trigger] marks@[k] ==> derives(
                    pairs,
                    subclass as int,
                    pairs[k].1,
                ),
            !changed ==> forall|k: int|
                0 <= k < pairs.len() && hit(pairs, marks@, subclass as int, k)
                    ==> #[trigger] marks@[k],
        decreases unmarked(marks@), (if changed { 1int } else { 0int }),
    {
        let ghost before = marks@;
        changed = false;
        for i in 0..extends.len()
            invariant
                pairs == links(extends@),
                marks@.len() == extends@.len(),
                forall|k: int|
                    0 <= k < marks@.len() && #[trigger] marks@[k] ==> derives(
                        pairs,
                        subclass as int,
                        pairs[k].1,
                    ),
                !changed ==> marks@ == before && forall|k: int|
                    0 <= k < i && hit(pairs, marks@, subclass as int, k) ==> #[trigger] marks@[k],
                changed ==> unmarked(marks@) < unmarked(before),
        {
            assert(pairs[i as int] == (extends@[i as int].0 as int, extends@[i as int].1 as int));
            if !marks[i] && (extends[i].0 == subclass || marked_to(extends, &marks, extends[i].0)) {
                proof {
                    lemma_unmarked_falls(marks@, i as int);
                    if extends@[i as int].0 != subclass {
                        let m = choose|m: int|
                            0 <= m < extends@.len() && #[trigger] marks@[m] && pairs[m].1
                                == extends@[i as int].0;
                        assert(derives(pairs, subclass as int, pairs[m].1));
                    }
                    lemma_chain_grows(pairs, subclass as int, i as int);
                }
                marks.set(i, true);
                changed = true;
            }
        }
    }
    proof {
        if derives(pairs, subclass as int, base as int) {
            let chain = choose|chain: Seq<int>| #[trigger]
                is_chain(pairs, chain) && chain[0] == subclass as int && chain.last()
                    == base as int;
            lemma_closed_marks(pairs, marks@, subclass as int, chain);
        }
    }
    marked_to(extends, &marks, base)
}

fn is_shadowed(extends: &Vec<(usize, usize)>, fields: &Vec<FieldRow>, at: usize) -> (found: bool)
    requires
        at < fields@.len(),
    ensures
        found == shadowed(links(extends@), fields_view(fields@), at as int),
{
    let ghost pairs = links(extends@);
    let ghost views = fields_view(fields@);
    for j in 0..fields.len()
        invariant
            at < fields@.len(),
            pairs == links(extends@),
            views == fields_view(fields@),
            forall|k: int|
                0 <= k < j ==> !((#[trigger] views[k]).name == views[at as int].name
                    && strictly_derives(pairs, views[k].owner, views[at as int].owner)),
    {
        assert(views[j as int] == fields@[j as int]@);
        assert(views[at as int] == fields@[at as int]@);
        if fields[j].owner != fields[at].owner && same_text(
            fields[j].name.as_str(),
            fields[at].name.as_str(),
        ) {
            if is_subclass(extends, fields[j].owner, fields[at].owner) && !is_subclass(
                extends,
                fields[at].owner,
                fields[j].owner,
            ) {
                assert(views[j as int].name == views[at as int].name);
                return true;
            }
        }
    }
    false
}

fn render_inherited(
    Ghost(own): Ghost<Seq<FieldView>>,
    own_names: &FxHashSet<String>,
    inherited: &Vec<FieldRow>,
    extends: &Vec<(usize, usize)>,
) -> (out: (String, usize))
    requires
        forall|name: Seq<char>| #[trigger]
            texts_held(*own_names).contains(name) <==> field_named(own, name),
    ensures
        ({
            let fields = fields_view(inherited@);
            let rows = inherited_rows(
                own,
                fields,
                links(extends@),
                inherited_order(fields),
                inherited@.len() as int,
            );
            out.0@ == row_lines(fields, rows, rows.len() as int) && out.1 == rows.len()
        }),
{
    let ghost fields = fields_view(inherited@);
    let ghost pairs = links(extends@);
    let order = order_fields(inherited, true);
    let mut count: usize = 0;
    let mut seen = texts_new();
    let mut text = copy("");
    let ghost mut rows: Seq<int> = Seq::empty();
    for i in 0..order.len()
        invariant
            fields == fields_view(inherited@),
            pairs == links(extends@),
            forall|name: Seq<char>| #[trigger]
                texts_held(*own_names).contains(name) <==> field_named(own, name),
            order@ == inherited_order(fields),
            order@.len() == inherited@.len(),
            forall|k: int| 0 <= k < order@.len() ==> #[trigger] order@[k] < inherited@.len(),
            rows == inherited_rows(own, fields, pairs, order@, i as int),
            count == rows.len(),
            count <= i,
            forall|name: Seq<char>| #[trigger]
                texts_held(seen).contains(name) <==> listed(fields, rows, name),
            text@ == row_lines(fields, rows, rows.len() as int),
    {
        assert(order@[i as int] < inherited@.len());
        let at: usize = order[i];
        let field = &inherited[at];
        assert(fields[at as int] == field@);
        let name = field.name.as_str();
        if !texts_contains(own_names, name) && !is_shadowed(extends, inherited, at)
            && !texts_contains(&seen, name) {
            let ghost earlier = texts_held(seen);
            let ghost before = rows;
            texts_insert(&mut seen, name);
            text.append(field.text.as_str());
            count = count + 1;
            proof {
                rows = rows.push(at as int);
                assert forall|other: Seq<char>| #[trigger]
                    texts_held(seen).contains(other) <==> listed(fields, rows, other) by {
                    assert(earlier.contains(other) <==> listed(fields, before, other));
                    if listed(fields, before, other) {
                        let k = choose|k: int|
                            0 <= k < before.len() && fields[#[trigger] before[k]].name == other;
                        assert(fields[rows[k]].name == other);
                    }
                    if other == name@ {
                        assert(fields[rows[before.len() as int]].name == other);
                    }
                    if listed(fields, rows, other) && other != name@ {
                        let k = choose|k: int|
                            0 <= k < rows.len() && fields[#[trigger] rows[k]].name == other;
                        assert(fields[before[k]].name == other);
                    }
                }
                lemma_row_lines(fields, before, rows, before.len() as int);
            }
        }
    }
    (text, count)
}

proof fn lemma_row_lines(fields: Seq<FieldView>, rows: Seq<int>, longer: Seq<int>, count: int)
    requires
        0 <= count <= rows.len() <= longer.len(),
        forall|k: int| 0 <= k < rows.len() ==> rows[k] == longer[k],
    ensures
        row_lines(fields, rows, count) == row_lines(fields, longer, count),
    decreases count,
{
    if count > 0 {
        lemma_row_lines(fields, rows, longer, count - 1);
    }
}

fn render_model_sections(walk: &ModelWalk) -> (text: String)
    ensures
        text@ == model_sections(walk@),
{
    let (own_text, own_names) = render_own(&walk.own);
    let (inherited_text, listed_count) = render_inherited(
        Ghost(fields_view(walk.own@)),
        &own_names,
        &walk.inherited,
        &walk.extends,
    );
    assert(walk@.own.len() == walk.own@.len());
    assert(walk@.inherited.len() == walk.inherited@.len());
    assert(walk@.relations.len() == walk.relations@.len());
    assert(walk@.bases.len() == walk.bases@.len());
    let mut text = copy("  bases: ");
    let bases = if walk.bases.len() == 0 {
        copy("(none)")
    } else {
        join(walk.bases.as_slice(), ", ")
    };
    text.append(bases.as_str());
    text.append("\n");
    text.append("  fields (");
    text.append(decimal_u128(walk.own.len() as u128 + listed_count as u128).as_str());
    text.append("):\n");
    text.append(own_text.as_str());
    text.append(inherited_text.as_str());
    let relations = if walk.relations.len() == 0 {
        copy("")
    } else {
        let mut listed = copy("");
        for i in 0..walk.relations.len()
            invariant
                listed@ == texts_upto(views(walk.relations@), i as int),
        {
            listed.append(walk.relations[i].as_str());
        }
        cat4(
            "  relations (",
            decimal_usize(walk.relations.len()).as_str(),
            "): [->] forward FK/M2M this model declares, [<-] reverse (a model that points here):\n",
            listed.as_str(),
        )
    };
    text.append(relations.as_str());
    let truncated = if walk.truncated {
        cat3(
            "  (walk stopped at ",
            decimal_usize(MODEL_NODES_MAX).as_str(),
            " nodes; the schema above is partial)\n",
        )
    } else {
        copy("")
    };
    text.append(truncated.as_str());
    text
}

/// The callees of a class, and those of each class it extends.
pub struct SchemaProbe {
    pub callees: Vec<(EdgeKind, Node)>,
    pub base_callees: Vec<Vec<(EdgeKind, Node)>>,
}

/// The edge leads to a field that the symbol contains.
pub open spec fn declares_field(callee: (EdgeKind, Node)) -> bool {
    callee.0 == EdgeKind::Contains && callee.1.kind == NodeKind::Field
}

/// Some callee is a field.
pub open spec fn has_field(callees: Seq<(EdgeKind, Node)>) -> bool {
    exists|k: int| 0 <= k < callees.len() && declares_field(#[trigger] callees[k])
}

/// A class reaches a field, its own or one a base declares.
pub open spec fn has_schema(probe: SchemaProbe) -> bool {
    has_field(probe.callees@) || exists|k: int|
        0 <= k < probe.base_callees@.len() && has_field((#[trigger] probe.base_callees@[k])@)
}

fn any_field(callees: &[(EdgeKind, Node)]) -> (found: bool)
    ensures
        found == has_field(callees@),
{
    for i in 0..callees.len()
        invariant
            forall|k: int| 0 <= k < i ==> !declares_field(#[trigger] callees@[k]),
    {
        if callees[i].0 == EdgeKind::Contains && callees[i].1.kind == NodeKind::Field {
            assert(declares_field(callees@[i as int]));
            return true;
        }
    }
    false
}

/// Whether any of the classes reaches a model field, its own or one a base declares. One level of
/// bases is enough to tell a fieldless helper class from a model whose fields all live in a mixin.
pub fn any_model_schema(probes: &[SchemaProbe]) -> (found: bool)
    ensures
        found == exists|i: int| 0 <= i < probes@.len() && has_schema(#[trigger] probes@[i]),
{
    for i in 0..probes.len()
        invariant
            forall|k: int| 0 <= k < i ==> !has_schema(#[trigger] probes@[k]),
    {
        if any_field(probes[i].callees.as_slice()) {
            assert(has_schema(probes@[i as int]));
            return true;
        }
        let bases = &probes[i].base_callees;
        for j in 0..bases.len()
            invariant
                i < probes@.len(),
                *bases == probes@[i as int].base_callees,
                forall|k: int| 0 <= k < j ==> !has_field((#[trigger] bases@[k])@),
        {
            if any_field(bases[j].as_slice()) {
                assert(has_field(probes@[i as int].base_callees@[j as int]@));
                assert(has_schema(probes@[i as int]));
                return true;
            }
        }
    }
    false
}

/// A symbol that can have a schema.
pub open spec fn model_kind(node: Node) -> bool {
    node.kind == NodeKind::Model || node.kind == NodeKind::Class
}

/// The positions of the models and classes among the first `count` nodes.
pub open spec fn model_positions(nodes: Seq<Node>, count: int) -> Seq<usize>
    decreases count,
{
    if count <= 0 {
        Seq::empty()
    } else if model_kind(nodes[count - 1]) {
        model_positions(nodes, count - 1).push((count - 1) as usize)
    } else {
        model_positions(nodes, count - 1)
    }
}

/// The models and classes among the seeds.
pub fn models_among(seeds: &[Node]) -> (models: Vec<usize>)
    ensures
        models@ == model_positions(seeds@, seeds@.len() as int),
        forall|k: int| 0 <= k < models@.len() ==> #[trigger] models@[k] < seeds@.len(),
{
    let mut models: Vec<usize> = Vec::new();
    for i in 0..seeds.len()
        invariant
            models@ == model_positions(seeds@, i as int),
            forall|k: int| 0 <= k < models@.len() ==> #[trigger] models@[k] < seeds@.len(),
    {
        if seeds[i].kind == NodeKind::Model || seeds[i].kind == NodeKind::Class {
            models.push(i);
        }
    }
    models
}

/// What a class without a schema is called.
pub open spec fn role_name(node: Node) -> Seq<char> {
    node.name@ + " ("@ + (match role_spec(node) {
        Some(role) => role,
        None => "class"@,
    }) + ")"@
}

/// The models of a name, one schema after another.
pub open spec fn model_blocks(
    seeds: Seq<Node>,
    models: Seq<usize>,
    walks: Seq<ModelWalk>,
    count: int,
) -> Seq<char>
    decreases count,
{
    if count <= 0 {
        ""@
    } else {
        model_blocks(seeds, models, walks, count - 1) + node_line_spec(
            seeds[models[count - 1] as int],
        ) + "\n"@ + model_sections(walks[count - 1]@)
    }
}

/// The names and roles of the classes.
pub open spec fn role_names(seeds: Seq<Node>, models: Seq<usize>) -> Seq<Seq<char>> {
    models.map_values(|p: usize| role_name(seeds[p as int]))
}

/// Every one of them is a plain class.
pub open spec fn all_plain(seeds: Seq<Node>, models: Seq<usize>) -> bool {
    forall|k: int| 0 <= k < models.len() ==> seeds[(#[trigger] models[k]) as int].kind
        == NodeKind::Class
}

/// The effective schema of the models of a name.
pub open spec fn model_text_spec(
    symbol: Seq<char>,
    seeds: Seq<Node>,
    any_schema: bool,
    walks: Seq<ModelWalk>,
) -> Seq<char> {
    let models = model_positions(seeds, seeds.len() as int);
    if models.len() == 0 {
        "no model or class named "@ + quoted(symbol)
    } else if all_plain(seeds, models) && !any_schema {
        join_spec(role_names(seeds, models), ", "@)
            + " declares no model fields: not a Django model.\nRead it with `node` for its signature, or `callers` for what uses it.\n"@
    } else {
        model_blocks(seeds, models, walks, models.len() as int)
    }
}

/// A Django model's effective schema: own fields, fields inherited up the base-class chain, the
/// bases, and relations to other models. A subclass field shadows a base field of the same name.
/// A class that declares no fields and inherits none is named for what it is instead. `walks`
/// holds a finished walk for each model or class among the seeds, in order, and `any_schema` is
/// whether any of them reaches a field.
pub fn model_text(
    symbol: &str,
    seeds: &[Node],
    any_schema: bool,
    walks: &[ModelWalk],
) -> (text: String)
    requires
        walks@.len() >= model_positions(seeds@, seeds@.len() as int).len(),
    ensures
        text@ == model_text_spec(symbol@, seeds@, any_schema, walks@),
{
    let models = models_among(seeds);
    if models.len() == 0 {
        return cat2("no model or class named ", quote(symbol).as_str());
    }
    let mut plain = true;
    for i in 0..models.len()
        invariant
            forall|k: int| 0 <= k < models@.len() ==> #[trigger] models@[k] < seeds@.len(),
            plain == forall|k: int|
                0 <= k < i ==> seeds@[(#[trigger] models@[k]) as int].kind == NodeKind::Class,
    {
        assert(models@[i as int] < seeds@.len());
        if seeds[models[i]].kind != NodeKind::Class {
            plain = false;
        }
    }
    if plain && !any_schema {
        let ghost all = role_names(seeds@, models@);
        let mut roles: Vec<String> = Vec::new();
        assert(views(roles@) =~= all.take(0));
        for i in 0..models.len()
            invariant
                forall|k: int| 0 <= k < models@.len() ==> #[trigger] models@[k] < seeds@.len(),
                all == role_names(seeds@, models@),
                views(roles@) == all.take(i as int),
        {
            let ghost before = roles@;
            assert(models@[i as int] < seeds@.len());
            let node = &seeds[models[i]];
            let role: &str = match symbol_role(node) {
                Some(role) => role,
                None => "class",
            };
            let name = cat4(node.name.as_str(), " (", role, ")");
            roles.push(name);
            assert(views(roles@) =~= views(before).push(all[i as int]));
            assert(all.take(i + 1) =~= all.take(i as int).push(all[i as int]));
        }
        assert(all.take(models@.len() as int) =~= all);
        return cat2(
            join(roles.as_slice(), ", ").as_str(),
            " declares no model fields: not a Django model.\nRead it with `node` for its signature, or `callers` for what uses it.\n",
        );
    }
    let mut text = copy("");
    for i in 0..models.len()
        invariant
            models@.len() <= walks@.len(),
            forall|k: int| 0 <= k < models@.len() ==> #[trigger] models@[k] < seeds@.len(),
            text@ == model_blocks(seeds@, models@, walks@, i as int),
    {
        assert(models@[i as int] < seeds@.len());
        text.append(node_line(&seeds[models[i]]).as_str());
        text.append("\n");
        text.append(render_model_sections(&walks[i]).as_str());
    }
    text
}

/// Reading a class never reads one twice: the classes seen stay distinct, and every class added to
/// be read is a base that was named.
pub proof fn law_model_bases_are_read_once(
    walk: ModelView,
    callees: Seq<(EdgeKind, Node)>,
    reverse: Set<Seq<char>>,
)
    requires
        walk.frontier.len() > 0,
        forall|i: int, j: int|
            0 <= i < j < walk.visited.len() ==> #[trigger] walk.visited[i]
                != #[trigger] walk.visited[j],
        walk.bases.len() + 1 == walk.visited.len(),
        walk.walked + walk.frontier.len() == walk.visited.len(),
    ensures
        ({
            let after = model_step(walk, callees, reverse);
            &&& forall|i: int, j: int|
                0 <= i < j < after.visited.len() ==> #[trigger] after.visited[i]
                    != #[trigger] after.visited[j]
            &&& after.bases.len() + 1 == after.visited.len()
            &&& after.walked + after.frontier.len() == after.visited.len()
        }),
{
    lemma_bases_once(
        ModelView { frontier: walk.frontier.drop_last(), walked: walk.walked + 1, ..walk },
        walk.frontier.last(),
        callees,
        reverse,
        callees.len() as int,
    );
}

proof fn lemma_bases_once(
    walk: ModelView,
    class: PendingView,
    callees: Seq<(EdgeKind, Node)>,
    reverse: Set<Seq<char>>,
    count: int,
)
    requires
        forall|i: int, j: int|
            0 <= i < j < walk.visited.len() ==> #[trigger] walk.visited[i]
                != #[trigger] walk.visited[j],
        walk.bases.len() + 1 == walk.visited.len(),
        walk.walked + walk.frontier.len() == walk.visited.len(),
    ensures
        ({
            let after = model_met_all(walk, class, callees, reverse, count);
            &&& forall|i: int, j: int|
                0 <= i < j < after.visited.len() ==> #[trigger] after.visited[i]
                    != #[trigger] after.visited[j]
            &&& after.bases.len() + 1 == after.visited.len()
            &&& after.walked + after.frontier.len() == after.visited.len()
        }),
    decreases count,
{
    if count > 0 {
        lemma_bases_once(walk, class, callees, reverse, count - 1);
        let before = model_met_all(walk, class, callees, reverse, count - 1);
        lemma_key_at(before.visited, callees[count - 1].1.id@, 0);
    }
}

// ---------------------------------------------------------------------------
// Callees

/// What a symbol calls: its outgoing edges, and the names and lines of the calls in its body that
/// nothing bound.
pub struct CalleeFacts {
    pub related: Vec<(EdgeKind, Node)>,
    pub unresolved: Vec<(String, u32)>,
}

/// Some related symbol has this name.
pub open spec fn bound_name(
    related: Seq<(EdgeKind, Node)>,
    rows: Seq<(int, int)>,
    name: Seq<char>,
) -> bool {
    exists|k: int| 0 <= k < rows.len() && related[(#[trigger] rows[k]).0].1.name@ == name
}

/// The places of the first `count` unbound calls whose name is not that of a bound one.
pub open spec fn pending_calls(
    facts: CalleeFacts,
    rows: Seq<(int, int)>,
    count: int,
) -> Seq<int>
    decreases count,
{
    if count <= 0 {
        Seq::empty()
    } else if bound_name(facts.related@, rows, facts.unresolved@[count - 1].0@) {
        pending_calls(facts, rows, count - 1)
    } else {
        pending_calls(facts, rows, count - 1).push(count - 1)
    }
}

/// The first `count` unbound calls of a symbol, one per line.
pub open spec fn pending_lines(
    node: Node,
    unresolved: Seq<(String, u32)>,
    pending: Seq<int>,
    count: int,
) -> Seq<char>
    decreases count,
{
    if count <= 0 {
        ""@
    } else {
        let call = unresolved[pending[count - 1]];
        pending_lines(node, unresolved, pending, count - 1) + "    "@ + call.0@ + "  ("@
            + node.file_path@ + ":"@ + decimal_spec(call.1 as nat) + ")\n"@
    }
}

/// The unbound calls of a symbol, up to a limit. A name already listed as bound is left out:
/// printing it in both lists reads as two different callees.
pub open spec fn unresolved_callees(node: Node, facts: CalleeFacts, limit: u32) -> Seq<char> {
    let rows = related_rows_spec(facts.related@);
    let pending = pending_calls(facts, rows, facts.unresolved@.len() as int);
    let shown = smaller(pending.len() as int, limit as int);
    if shown == 0 {
        ""@
    } else {
        "  unresolved callees (name match, receiver type unproven):\n"@ + pending_lines(
            node,
            facts.unresolved@,
            pending,
            shown,
        )
    }
}

/// What one symbol calls.
pub open spec fn callees_entry(node: Node, facts: CalleeFacts, limit: u32) -> Seq<char> {
    let rows = related_rows_spec(facts.related@);
    node_line_spec(node) + "\n"@ + (if rows.len() == 0 {
        "  (none)\n"@
    } else {
        related_lines(
            facts.related@,
            rows,
            row_order(facts.related@, rows, node.project_id@),
            "  "@,
            smaller(rows.len() as int, limit as int),
        )
    }) + unresolved_callees(node, facts, limit)
}

/// The entries of the first `count` symbols.
pub open spec fn callees_entries(
    nodes: Seq<Node>,
    facts: Seq<CalleeFacts>,
    limit: u32,
    count: int,
) -> Seq<char>
    decreases count,
{
    if count <= 0 {
        ""@
    } else {
        callees_entries(nodes, facts, limit, count - 1) + callees_entry(
            nodes[count - 1],
            facts[count - 1],
            limit,
        )
    }
}

fn append_unresolved_callees(
    node: &Node,
    facts: &CalleeFacts,
    rows: &[(usize, usize)],
    limit: u32,
) -> (text: String)
    requires
        rows_valid(facts.related@, rows@),
        rows_view(rows@) == related_rows_spec(facts.related@),
    ensures
        text@ == unresolved_callees(*node, *facts, limit),
{
    let ghost row_list = rows_view(rows@);
    assert(row_list.len() == rows@.len());
    let mut pending: Vec<usize> = Vec::new();
    assert(crate::order::indices(pending@) =~= Seq::empty());
    for i in 0..facts.unresolved.len()
        invariant
            rows_valid(facts.related@, rows@),
            row_list == rows_view(rows@),
            row_list.len() == rows@.len(),
            crate::order::indices(pending@) == pending_calls(*facts, row_list, i as int),
            forall|k: int|
                0 <= k < pending@.len() ==> #[trigger] pending@[k] < facts.unresolved@.len(),
    {
        let ghost before = pending@;
        let name = facts.unresolved[i].0.as_str();
        let mut bound = false;
        for j in 0..rows.len()
            invariant
                rows_valid(facts.related@, rows@),
                row_list == rows_view(rows@),
                row_list.len() == rows@.len(),
                bound == exists|k: int|
                    0 <= k < j && facts.related@[(#[trigger] row_list[k]).0].1.name@ == name@,
        {
            assert(rows@[j as int].0 < facts.related@.len());
            assert(row_list[j as int].0 == rows@[j as int].0);
            if same_text(facts.related[rows[j].0].1.name.as_str(), name) {
                bound = true;
            }
        }
        if !bound {
            pending.push(i);
            assert(crate::order::indices(pending@) =~= crate::order::indices(before).push(
                i as int,
            ));
        }
    }
    assert(crate::order::indices(pending@).len() == pending@.len());
    let shown: usize = if pending.len() <= limit as usize {
        pending.len()
    } else {
        limit as usize
    };
    if shown == 0 {
        return copy("");
    }
    let mut listed = copy("");
    for i in 0..shown
        invariant
            shown <= pending@.len(),
            forall|k: int|
                0 <= k < pending@.len() ==> #[trigger] pending@[k] < facts.unresolved@.len(),
            listed@ == pending_lines(
                *node,
                facts.unresolved@,
                crate::order::indices(pending@),
                i as int,
            ),
    {
        assert(pending@[i as int] < facts.unresolved@.len());
        let call = &facts.unresolved[pending[i]];
        listed.append("    ");
        listed.append(call.0.as_str());
        listed.append("  (");
        listed.append(node.file_path.as_str());
        listed.append(":");
        listed.append(decimal_u32(call.1).as_str());
        listed.append(")\n");
    }
    cat2("  unresolved callees (name match, receiver type unproven):\n", listed.as_str())
}

fn callees_of(node: &Node, facts: &CalleeFacts, limit: u32) -> (text: String)
    ensures
        text@ == callees_entry(*node, *facts, limit),
{
    let related = facts.related.as_slice();
    let rows = related_rows(related);
    assert(rows_view(rows@).len() == rows@.len());
    let mut text = node_line(node);
    text.append("\n");
    let listed = if rows.len() == 0 {
        copy("  (none)\n")
    } else {
        let order = order_rows(related, rows.as_slice(), node.project_id.as_str());
        let shown: usize = if rows.len() <= limit as usize {
            rows.len()
        } else {
            limit as usize
        };
        lines_of_related(related, rows.as_slice(), order.as_slice(), "  ", shown)
    };
    text.append(listed.as_str());
    text.append(append_unresolved_callees(node, facts, rows.as_slice(), limit).as_str());
    text
}

/// What the symbols of a name call.
pub open spec fn callees_text_spec(
    symbol: Seq<char>,
    nodes: Seq<Node>,
    facts: Seq<CalleeFacts>,
    limit: u32,
) -> Seq<char> {
    if nodes.len() == 0 {
        "no symbol named "@ + quoted(symbol)
    } else {
        callees_entries(nodes, facts, limit, nodes.len() as int)
    }
}

/// The references a symbol makes: its outgoing edges deduped per target and ordered by edge
/// strength then locality, capped by `limit`, then the calls in its body that nothing bound.
/// `facts` holds an entry for each symbol.
pub fn callees_text(symbol: &str, nodes: &[Node], facts: &[CalleeFacts], limit: u32) -> (text:
    String)
    requires
        facts@.len() >= nodes@.len(),
    ensures
        text@ == callees_text_spec(symbol@, nodes@, facts@, limit),
{
    if nodes.len() == 0 {
        return cat2("no symbol named ", quote(symbol).as_str());
    }
    let mut text = copy("");
    for i in 0..nodes.len()
        invariant
            nodes@.len() <= facts@.len(),
            text@ == callees_entries(nodes@, facts@, limit, i as int),
    {
        let entry = callees_of(&nodes[i], &facts[i], limit);
        text.append(entry.as_str());
    }
    text
}

// ---------------------------------------------------------------------------
// Positions

/// The first `count` nodes, one per line.
pub open spec fn plain_lines(nodes: Seq<Node>, count: int) -> Seq<char>
    decreases count,
{
    if count <= 0 {
        ""@
    } else {
        plain_lines(nodes, count - 1) + node_line_spec(nodes[count - 1]) + "\n"@
    }
}

/// The innermost symbols at a place in a file.
pub open spec fn at_text_spec(file: Seq<char>, line: u32, nodes: Seq<Node>) -> Seq<char> {
    if file.len() == 0 {
        "a file path is required"@
    } else if line == 0 {
        "line is 1-based"@
    } else if nodes.len() == 0 {
        "no symbol spans "@ + file + ":"@ + decimal_spec(line as nat)
    } else {
        file + ":"@ + decimal_spec(line as nat) + " (innermost first):\n"@ + plain_lines(
            nodes,
            smaller(nodes.len() as int, AT_RESULTS_MAX as int),
        )
    }
}

/// The innermost symbols at a file and line: the enclosing function, method or class for a
/// traceback frame or grep hit.
pub fn at_text(file: &str, line: u32, nodes: &[Node]) -> (text: String)
    ensures
        text@ == at_text_spec(file@, line, nodes@),
{
    if file.is_empty() {
        return copy("a file path is required");
    }
    if line == 0 {
        return copy("line is 1-based");
    }
    let number = decimal_u32(line);
    if nodes.len() == 0 {
        return cat4("no symbol spans ", file, ":", number.as_str());
    }
    let shown: usize = if nodes.len() <= AT_RESULTS_MAX {
        nodes.len()
    } else {
        AT_RESULTS_MAX
    };
    let mut listed = copy("");
    for i in 0..shown
        invariant
            shown <= nodes@.len(),
            listed@ == plain_lines(nodes@, i as int),
    {
        listed.append(node_line(&nodes[i]).as_str());
        listed.append("\n");
    }
    let mut text = cat4(file, ":", number.as_str(), " (innermost first):\n");
    text.append(listed.as_str());
    text
}

// ---------------------------------------------------------------------------
// Call sites

/// What one response has read: the text of each file, kept so that a file with several call sites
/// is read once. A file that could not be read is kept as such, and not tried again.
pub struct SourceCache {
    keys: KeyIndex,
    sources: Vec<Option<String>>,
}

/// The key of a file among those of all projects.
pub open spec fn source_key(node: Node) -> Seq<char> {
    node.project_id@ + "\0"@ + node.file_path@
}

/// A text that may be missing.
pub open spec fn text_or_none(text: Option<String>) -> Option<Seq<char>> {
    match text {
        Some(text) => Some(text@),
        None => None,
    }
}

impl SourceCache {
    pub closed spec fn wf(self) -> bool {
        self.keys.wf() && self.keys@.len() == self.sources@.len()
    }

    /// The file of this node has been read, or tried.
    pub closed spec fn holds(self, key: Seq<char>) -> bool {
        key_at(self.keys@, key, 0) is Some
    }

    /// The text kept under a key, where there is one.
    pub closed spec fn source(self, key: Seq<char>) -> Option<Seq<char>> {
        match key_at(self.keys@, key, 0) {
            Some(at) => text_or_none(self.sources@[at]),
            None => None,
        }
    }

    pub fn new() -> (cache: SourceCache)
        ensures
            cache.wf(),
            forall|key: Seq<char>| !#[trigger] cache.holds(key),
            forall|key: Seq<char>| #[trigger] cache.source(key) is None,
    {
        SourceCache { keys: KeyIndex::new(), sources: Vec::new() }
    }

    fn key(node: &Node) -> (key: String)
        ensures
            key@ == source_key(*node),
    {
        cat3(node.project_id.as_str(), "\0", node.file_path.as_str())
    }

    /// Whether the file of this node has yet to be read.
    pub fn wants(&self, node: &Node) -> (wants: bool)
        requires
            self.wf(),
        ensures
            wants == !self.holds(source_key(*node)),
    {
        self.keys.find(Self::key(node).as_str()).is_none()
    }

    /// The file of this node kept. One that was kept before stays as it was.
    pub fn hold(&mut self, node: &Node, source: Option<String>)
        requires
            old(self).wf(),
        ensures
            final(self).wf(),
            final(self).holds(source_key(*node)),
            old(self).holds(source_key(*node)) ==> *final(self) == *old(self),
            !old(self).holds(source_key(*node)) ==> final(self).source(source_key(*node))
                == text_or_none(source),
            forall|key: Seq<char>|
                key != source_key(*node) ==> #[trigger] final(self).holds(key) == old(self).holds(
                    key,
                ),
            forall|key: Seq<char>|
                key != source_key(*node) ==> #[trigger] final(self).source(key) == old(
                    self,
                ).source(key),
    {
        let key = Self::key(node);
        if self.keys.find(key.as_str()).is_some() {
            return;
        }
        let ghost before = self.keys@;
        let ghost kept = self.sources@;
        self.keys.add(key.as_str());
        self.sources.push(source);
        proof {
            lemma_key_at(before, key@, 0);
            lemma_key_at_is(self.keys@, key@, 0, before.len() as int);
            assert forall|other: Seq<char>| other != key@ implies key_at(self.keys@, other, 0)
                == key_at(before, other, 0) by {
                lemma_key_at(before, other, 0);
                lemma_key_at(self.keys@, other, 0);
                if let Some(k) = key_at(before, other, 0) {
                    lemma_key_at_is(self.keys@, other, 0, k);
                } else if let Some(k) = key_at(self.keys@, other, 0) {
                    assert(before[k] == other);
                }
            }
            assert forall|other: Seq<char>| other != key@ implies #[trigger] self.source(other)
                == old(self).source(other) by {
                lemma_key_at(before, other, 0);
                assert(key_at(self.keys@, other, 0) == key_at(before, other, 0));
            }
        }
    }

    fn get(&self, node: &Node) -> (source: Option<&str>)
        requires
            self.wf(),
        ensures
            match source {
                Some(text) => self.source(source_key(*node)) == Some(text@),
                None => self.source(source_key(*node)) is None,
            },
    {
        match self.keys.find(Self::key(node).as_str()) {
            Some(at) => match &self.sources[at] {
                Some(text) => Some(text.as_str()),
                None => None,
            },
            None => None,
        }
    }
}

/// One line of a source, counted from one, trimmed and cut; nothing where it is blank or missing.
pub open spec fn snippet_spec(source: Option<Seq<char>>, line: int) -> Option<Seq<char>> {
    match source {
        None => None,
        Some(source) => {
            let all = lines_spec(source);
            if line < 1 || line > all.len() {
                None
            } else {
                let text = trim_spec(all[line - 1]);
                if text.len() == 0 {
                    None
                } else {
                    Some(text.take(smaller(text.len() as int, CALL_SITE_SNIPPET_CHARS_MAX as int)))
                }
            }
        },
    }
}

/// The trimmed source of one line in a caller's file, capped, for a call-site snippet. `None` when
/// the file is unreadable or the line is blank.
pub fn call_site_line(source: Option<&str>, line: u32) -> (snippet: Option<String>)
    requires
        line >= 1,
    ensures
        text_or_none(snippet) == snippet_spec(
            match source {
                Some(source) => Some(source@),
                None => None,
            },
            line as int,
        ),
{
    let source = match source {
        Some(source) => source,
        None => {
            return None;
        },
    };
    let all = lines(source);
    assert(views(all@).len() == all@.len());
    let at: usize = (line - 1) as usize;
    if at >= all.len() {
        return None;
    }
    assert(views(all@)[at as int] == all@[at as int]@);
    let text = trim(all[at].as_str());
    let chars = chars_of(text.as_str());
    if chars.len() == 0 {
        return None;
    }
    let end: usize = if chars.len() <= CALL_SITE_SNIPPET_CHARS_MAX {
        chars.len()
    } else {
        CALL_SITE_SNIPPET_CHARS_MAX
    };
    let snippet = text_between(chars.as_slice(), 0, end);
    assert(snippet@ =~= text@.take(end as int));
    Some(snippet)
}

/// The line of a call site: its place and its source.
pub open spec fn site_line(node: Node, line: u32, cache: SourceCache) -> Seq<char> {
    match snippet_spec(cache.source(source_key(node)), line as int) {
        Some(snippet) => "      "@ + node.file_path@ + ":"@ + decimal_spec(line as nat) + "  "@
            + snippet + "\n"@,
        None => ""@,
    }
}

fn site_text(node: &Node, line: u32, cache: &SourceCache) -> (text: String)
    requires
        cache.wf(),
        line >= 1,
    ensures
        text@ == site_line(*node, line, *cache),
{
    match call_site_line(cache.get(node), line) {
        Some(snippet) => {
            let mut text = cat4(
                "      ",
                node.file_path.as_str(),
                ":",
                decimal_u32(line).as_str(),
            );
            text.append("  ");
            text.append(snippet.as_str());
            text.append("\n");
            text
        },
        None => copy(""),
    }
}

/// A caller and the line it calls from; zero where the line is not known.
pub struct CallSite {
    pub kind: EdgeKind,
    pub caller: Node,
    pub line: u32,
}

/// The places of the first `count` call sites that are not containment.
pub open spec fn site_places(sites: Seq<CallSite>, count: int) -> Seq<usize>
    decreases count,
{
    if count <= 0 {
        Seq::empty()
    } else if sites[count - 1].kind != EdgeKind::Contains {
        site_places(sites, count - 1).push((count - 1) as usize)
    } else {
        site_places(sites, count - 1)
    }
}

/// The call sites in the order they are listed.
pub open spec fn site_order(sites: Seq<CallSite>, home: Seq<char>) -> Seq<usize> {
    let places = site_places(sites, sites.len() as int);
    arranged(
        places,
        places.map_values(
            |p: usize| related_key(sites[p as int].kind, sites[p as int].caller, home),
        ),
    )
}

/// The call sites of a symbol in the order they are listed: by edge strength, then locality.
/// Listed per call site, so a caller that references twice shows both lines.
pub fn order_sites(sites: &[CallSite], home: &str) -> (order: Vec<usize>)
    ensures
        order@ == site_order(sites@, home@),
        forall|k: int| 0 <= k < order@.len() ==> #[trigger] order@[k] < sites@.len(),
{
    let mut places: Vec<usize> = Vec::new();
    for i in 0..sites.len()
        invariant
            places@ == site_places(sites@, i as int),
            forall|k: int| 0 <= k < places@.len() ==> #[trigger] places@[k] < sites@.len(),
    {
        if sites[i].kind != EdgeKind::Contains {
            places.push(i);
        }
    }
    let ghost wanted = places@.map_values(
        |p: usize| related_key(sites@[p as int].kind, sites@[p as int].caller, home@),
    );
    let mut keys: Vec<Vec<Part>> = Vec::new();
    for i in 0..places.len()
        invariant
            forall|k: int| 0 <= k < places@.len() ==> #[trigger] places@[k] < sites@.len(),
            wanted == places@.map_values(
                |p: usize| related_key(sites@[p as int].kind, sites@[p as int].caller, home@),
            ),
            keys_view(keys@) == wanted.take(i as int),
    {
        let ghost before = keys@;
        assert(places@[i as int] < sites@.len());
        let site = &sites[places[i]];
        keys.push(key_of(site.kind, &site.caller, home));
        assert(keys_view(keys@) =~= keys_view(before).push(wanted[i as int]));
        assert(wanted.take(i + 1) =~= wanted.take(i as int).push(wanted[i as int]));
    }
    assert(wanted.take(places@.len() as int) =~= wanted);
    assert(keys@.len() == keys_view(keys@).len());
    let order = arrange(places.as_slice(), &keys);
    assert forall|k: int| 0 <= k < order@.len() implies #[trigger] order@[k] < sites@.len() by {
        assert(places@.contains(order@[k]));
        let i = choose|i: int| 0 <= i < places@.len() && places@[i] == order@[k];
        assert(places@[i] < sites@.len());
    }
    order
}

/// The first `count` call sites in this order.
pub open spec fn site_lines(
    sites: Seq<CallSite>,
    order: Seq<usize>,
    cache: SourceCache,
    count: int,
) -> Seq<char>
    decreases count,
{
    if count <= 0 {
        ""@
    } else {
        let site = sites[order[count - 1] as int];
        site_lines(sites, order, cache, count - 1) + "  ["@ + site.kind.label() + "] "@
            + node_line_spec(site.caller) + "\n"@ + if site.line >= 1 {
            site_line(site.caller, site.line, cache)
        } else {
            ""@
        }
    }
}

/// The callers of one symbol.
pub open spec fn callers_entry(
    node: Node,
    sites: Seq<CallSite>,
    cache: SourceCache,
    limit: u32,
) -> Seq<char> {
    let order = site_order(sites, node.project_id@);
    node_line_spec(node) + "\n"@ + if order.len() == 0 {
        "  (none)\n"@
    } else {
        site_lines(sites, order, cache, smaller(order.len() as int, limit as int))
    }
}

/// The callers of the first `count` symbols.
pub open spec fn callers_entries(
    nodes: Seq<Node>,
    sites: Seq<Vec<CallSite>>,
    cache: SourceCache,
    limit: u32,
    count: int,
) -> Seq<char>
    decreases count,
{
    if count <= 0 {
        ""@
    } else {
        callers_entries(nodes, sites, cache, limit, count - 1) + callers_entry(
            nodes[count - 1],
            sites[count - 1]@,
            cache,
            limit,
        )
    }
}

fn callers_of(node: &Node, sites: &[CallSite], cache: &SourceCache, limit: u32) -> (text: String)
    requires
        cache.wf(),
    ensures
        text@ == callers_entry(*node, sites@, *cache, limit),
{
    let order = order_sites(sites, node.project_id.as_str());
    let mut text = node_line(node);
    text.append("\n");
    if order.len() == 0 {
        text.append("  (none)\n");
        return text;
    }
    let shown: usize = if order.len() <= limit as usize {
        order.len()
    } else {
        limit as usize
    };
    let mut listed = copy("");
    for i in 0..shown
        invariant
            cache.wf(),
            shown <= order@.len(),
            forall|k: int| 0 <= k < order@.len() ==> #[trigger] order@[k] < sites@.len(),
            listed@ == site_lines(sites@, order@, *cache, i as int),
    {
        assert(order@[i as int] < sites@.len());
        let site = &sites[order[i]];
        listed.append("  [");
        listed.append(site.kind.as_str());
        listed.append("] ");
        listed.append(node_line(&site.caller).as_str());
        listed.append("\n");
        let snippet = if site.line >= 1 {
            site_text(&site.caller, site.line, cache)
        } else {
            copy("")
        };
        listed.append(snippet.as_str());
    }
    text.append(listed.as_str());
    text
}

/// The texts in order, each once.
pub open spec fn sorted_distinct(texts: Seq<Seq<char>>) -> Seq<Seq<char>> {
    let order = arranged(
        counting(texts.len()),
        texts.map_values(|text: Seq<char>| seq![PartView::Text(text)]),
    );
    collapsed(order.map_values(|p: usize| texts[p as int]), order.len() as int)
}

/// The first `count` texts with each run of equal ones collapsed.
pub open spec fn collapsed(texts: Seq<Seq<char>>, count: int) -> Seq<Seq<char>>
    decreases count,
{
    if count <= 0 {
        Seq::empty()
    } else {
        let before = collapsed(texts, count - 1);
        if before.len() > 0 && before.last() == texts[count - 1] {
            before
        } else {
            before.push(texts[count - 1])
        }
    }
}

fn sort_distinct(texts: &[String]) -> (out: Vec<String>)
    ensures
        views(out@) == sorted_distinct(views(texts@)),
{
    let ghost all = views(texts@);
    let ghost wanted = all.map_values(|text: Seq<char>| seq![PartView::Text(text)]);
    let mut keys: Vec<Vec<Part>> = Vec::new();
    for i in 0..texts.len()
        invariant
            all == views(texts@),
            wanted == all.map_values(|text: Seq<char>| seq![PartView::Text(text)]),
            keys_view(keys@) == wanted.take(i as int),
    {
        let ghost before = keys@;
        let mut key: Vec<Part> = Vec::new();
        key.push(Part::Text(texts[i].clone()));
        assert(key_view(key) =~= wanted[i as int]);
        keys.push(key);
        assert(keys_view(keys@) =~= keys_view(before).push(wanted[i as int]));
        assert(wanted.take(i + 1) =~= wanted.take(i as int).push(wanted[i as int]));
    }
    assert(wanted.take(texts@.len() as int) =~= wanted);
    assert(keys@.len() == keys_view(keys@).len());
    let numbers = count_up(texts.len());
    let order = arrange(numbers.as_slice(), &keys);
    let ghost sorted = order@.map_values(|p: usize| all[p as int]);
    let mut out: Vec<String> = Vec::new();
    assert(views(out@) =~= Seq::empty());
    for i in 0..order.len()
        invariant
            all == views(texts@),
            numbers@ == counting(texts@.len()),
            forall|k: int| 0 <= k < order@.len() ==> numbers@.contains(#[trigger] order@[k]),
            sorted == order@.map_values(|p: usize| all[p as int]),
            views(out@) == collapsed(sorted, i as int),
    {
        let ghost before = out@;
        assert(numbers@.contains(order@[i as int]));
        assert(sorted[i as int] == texts@[order@[i as int] as int]@);
        let text = texts[order[i]].as_str();
        assert(views(out@).len() == out@.len());
        let repeat: bool = if out.len() > 0 {
            assert(views(out@).last() == out@[out@.len() - 1]@);
            same_text(out[out.len() - 1].as_str(), text)
        } else {
            false
        };
        if !repeat {
            out.push(copy(text));
            assert(views(out@) =~= views(before).push(text@));
        }
    }
    out
}

/// The names of the nodes.
pub open spec fn node_names(nodes: Seq<Node>) -> Seq<Seq<char>> {
    nodes.map_values(|node: Node| node.name@)
}

/// The projects of the nodes.
pub open spec fn node_projects(nodes: Seq<Node>) -> Seq<Seq<char>> {
    nodes.map_values(|node: Node| node.project_id@)
}

/// The names to look for among unbound calls: each name once, in order.
pub fn names_to_match(nodes: &[Node]) -> (names: Vec<String>)
    ensures
        views(names@) == sorted_distinct(node_names(nodes@)),
{
    let mut names: Vec<String> = Vec::new();
    assert(views(names@) =~= node_names(nodes@).take(0));
    for i in 0..nodes.len()
        invariant
            views(names@) == node_names(nodes@).take(i as int),
    {
        let ghost before = names@;
        names.push(copy(nodes[i].name.as_str()));
        assert(views(names@) =~= views(before).push(nodes@[i as int].name@));
        assert(node_names(nodes@).take(i + 1) =~= node_names(nodes@).take(i as int).push(
            nodes@[i as int].name@,
        ));
    }
    assert(node_names(nodes@).take(nodes@.len() as int) =~= node_names(nodes@));
    sort_distinct(names.as_slice())
}

/// The projects to ask first: the symbols' own, each once, in order.
pub fn projects_to_ask(nodes: &[Node]) -> (projects: Vec<String>)
    ensures
        views(projects@) == sorted_distinct(node_projects(nodes@)),
{
    let mut projects: Vec<String> = Vec::new();
    assert(views(projects@) =~= node_projects(nodes@).take(0));
    for i in 0..nodes.len()
        invariant
            views(projects@) == node_projects(nodes@).take(i as int),
    {
        let ghost before = projects@;
        projects.push(copy(nodes[i].project_id.as_str()));
        assert(views(projects@) =~= views(before).push(nodes@[i as int].project_id@));
        assert(node_projects(nodes@).take(i + 1) =~= node_projects(nodes@).take(i as int).push(
            nodes@[i as int].project_id@,
        ));
    }
    assert(node_projects(nodes@).take(nodes@.len() as int) =~= node_projects(nodes@));
    sort_distinct(projects.as_slice())
}

/// What tells one unbound call from another: who makes it, and on which line.
pub open spec fn unbound_key(site: (Node, u32)) -> Seq<char> {
    site.0.id@ + ":"@ + decimal_spec(site.1 as nat)
}

/// The keys and places of the distinct ones of the first `count` unbound calls.
pub open spec fn unbound_distinct(sites: Seq<(Node, u32)>, count: int) -> (
    Seq<Seq<char>>,
    Seq<usize>,
)
    decreases count,
{
    if count <= 0 {
        (Seq::empty(), Seq::empty())
    } else {
        let (keys, places) = unbound_distinct(sites, count - 1);
        let key = unbound_key(sites[count - 1]);
        if key_at(keys, key, 0) is Some {
            (keys, places)
        } else {
            (keys.push(key), places.push((count - 1) as usize))
        }
    }
}

/// The first `count` unbound calls at these places.
pub open spec fn unbound_lines(
    sites: Seq<(Node, u32)>,
    places: Seq<usize>,
    cache: SourceCache,
    count: int,
) -> Seq<char>
    decreases count,
{
    if count <= 0 {
        ""@
    } else {
        let site = sites[places[count - 1] as int];
        unbound_lines(sites, places, cache, count - 1) + "  [calls?] "@ + node_line_spec(site.0)
            + "\n"@ + site_line(site.0, site.1, cache)
    }
}

/// Where unbound calls by name were found.
pub struct UnboundCalls {
    /// Those in the symbols' own projects.
    pub home: Vec<(Node, u32)>,
    /// Those anywhere, for when the symbols' own projects have none.
    pub anywhere: Vec<(Node, u32)>,
}

/// What the unbound calls are introduced with. Another project that merely reuses the name is a
/// collision rather than a call of this symbol, and a narrowed query shares the name with others:
/// both are said.
pub open spec fn unbound_heading(name: Seq<char>, elsewhere: bool, narrowed: bool) -> Seq<char> {
    if elsewhere {
        "  unresolved (name match in another repository, receiver type unproven; may be an unrelated symbol of the same name):\n"@
    } else if narrowed {
        "  unresolved (name-global on "@ + quoted(name)
            + ", receiver type unproven; other definitions share this name, so these are NOT attributable to the overload above):\n"@
    } else {
        "  unresolved (name match, receiver type unproven, e.g. a Model.services.x() call):\n"@
    }
}

/// The unbound calls by name, the symbols' own projects before all others.
pub open spec fn unresolved_callers(
    name: Seq<char>,
    calls: UnboundCalls,
    cache: SourceCache,
    narrowed: bool,
    limit: u32,
) -> Seq<char> {
    let elsewhere = calls.home@.len() == 0;
    let sites = if elsewhere {
        calls.anywhere@
    } else {
        calls.home@
    };
    let places = unbound_distinct(sites, sites.len() as int).1;
    if sites.len() == 0 {
        ""@
    } else {
        unbound_heading(name, elsewhere, narrowed) + unbound_lines(
            sites,
            places,
            cache,
            smaller(places.len() as int, limit as int),
        )
    }
}

/// Every unbound call has a line.
pub open spec fn lines_known(sites: Seq<(Node, u32)>) -> bool {
    forall|k: int| 0 <= k < sites.len() ==> (#[trigger] sites[k]).1 >= 1
}

fn append_unresolved_callers(
    name: &str,
    calls: &UnboundCalls,
    cache: &SourceCache,
    narrowed: bool,
    limit: u32,
) -> (text: String)
    requires
        cache.wf(),
        lines_known(calls.home@),
        lines_known(calls.anywhere@),
    ensures
        text@ == unresolved_callers(name@, *calls, *cache, narrowed, limit),
{
    let elsewhere = calls.home.len() == 0;
    let sites: &[(Node, u32)] = if elsewhere {
        calls.anywhere.as_slice()
    } else {
        calls.home.as_slice()
    };
    if sites.len() == 0 {
        return copy("");
    }
    let mut keys = KeyIndex::new();
    let mut places: Vec<usize> = Vec::new();
    for i in 0..sites.len()
        invariant
            keys.wf(),
            keys@ == unbound_distinct(sites@, i as int).0,
            places@ == unbound_distinct(sites@, i as int).1,
            forall|k: int| 0 <= k < places@.len() ==> #[trigger] places@[k] < sites@.len(),
    {
        let key = cat3(sites[i].0.id.as_str(), ":", decimal_u32(sites[i].1).as_str());
        if keys.find(key.as_str()).is_none() {
            keys.add(key.as_str());
            places.push(i);
        }
    }
    let mut text = if elsewhere {
        copy(
            "  unresolved (name match in another repository, receiver type unproven; may be an unrelated symbol of the same name):\n",
        )
    } else if narrowed {
        cat3(
            "  unresolved (name-global on ",
            quote(name).as_str(),
            ", receiver type unproven; other definitions share this name, so these are NOT attributable to the overload above):\n",
        )
    } else {
        copy("  unresolved (name match, receiver type unproven, e.g. a Model.services.x() call):\n")
    };
    let shown: usize = if places.len() <= limit as usize {
        places.len()
    } else {
        limit as usize
    };
    let mut listed = copy("");
    for i in 0..shown
        invariant
            cache.wf(),
            lines_known(sites@),
            shown <= places@.len(),
            forall|k: int| 0 <= k < places@.len() ==> #[trigger] places@[k] < sites@.len(),
            listed@ == unbound_lines(sites@, places@, *cache, i as int),
    {
        assert(places@[i as int] < sites@.len());
        assert(sites@[places@[i as int] as int].1 >= 1);
        let site = &sites[places[i]];
        listed.append("  [calls?] ");
        listed.append(node_line(&site.0).as_str());
        listed.append("\n");
        listed.append(site_text(&site.0, site.1, cache).as_str());
    }
    text.append(listed.as_str());
    text
}

/// The callers of the symbols of a name.
pub open spec fn callers_text_spec(
    symbol: Seq<char>,
    nodes: Seq<Node>,
    sites: Seq<Vec<CallSite>>,
    calls: UnboundCalls,
    same_named: int,
    cache: SourceCache,
    limit: u32,
) -> Seq<char> {
    if nodes.len() == 0 {
        "no symbol named "@ + quoted(symbol)
    } else {
        callers_entries(nodes, sites, cache, limit, nodes.len() as int) + unresolved_callers(
            nodes[0].name@,
            calls,
            cache,
            nodes.len() < same_named,
            limit,
        )
    }
}

/// The callers of a symbol with the source line of each call site, then the unproven call sites
/// matched by name. `sites` holds the call sites of each symbol, and `same_named` is how many
/// definitions share the name of the first: where those are more than the symbols, the query was
/// narrowed.
pub fn callers_text(
    symbol: &str,
    nodes: &[Node],
    sites: &[Vec<CallSite>],
    calls: &UnboundCalls,
    same_named: usize,
    cache: &SourceCache,
    limit: u32,
) -> (text: String)
    requires
        cache.wf(),
        sites@.len() >= nodes@.len(),
        lines_known(calls.home@),
        lines_known(calls.anywhere@),
    ensures
        text@ == callers_text_spec(
            symbol@,
            nodes@,
            sites@,
            *calls,
            same_named as int,
            *cache,
            limit,
        ),
{
    if nodes.len() == 0 {
        return cat2("no symbol named ", quote(symbol).as_str());
    }
    let mut text = copy("");
    for i in 0..nodes.len()
        invariant
            cache.wf(),
            nodes@.len() <= sites@.len(),
            text@ == callers_entries(nodes@, sites@, *cache, limit, i as int),
    {
        let entry = callers_of(&nodes[i], sites[i].as_slice(), cache, limit);
        text.append(entry.as_str());
    }
    let unresolved = append_unresolved_callers(
        nodes[0].name.as_str(),
        calls,
        cache,
        nodes.len() < same_named,
        limit,
    );
    text.append(unresolved.as_str());
    text
}

/// Unbound calls elsewhere are shown only where the symbols' own projects have none.
pub proof fn law_home_calls_hide_the_rest(
    name: Seq<char>,
    calls: UnboundCalls,
    others: Vec<(Node, u32)>,
    cache: SourceCache,
    narrowed: bool,
    limit: u32,
)
    requires
        calls.home@.len() > 0,
    ensures
        unresolved_callers(name, calls, cache, narrowed, limit) == unresolved_callers(
            name,
            UnboundCalls { home: calls.home, anywhere: others },
            cache,
            narrowed,
            limit,
        ),
{
}

proof fn lemma_rows(
    own: Seq<FieldView>,
    fields: Seq<FieldView>,
    extends: Seq<(int, int)>,
    order: Seq<usize>,
    count: int,
)
    requires
        0 <= count <= order.len(),
        forall|k: int| 0 <= k < order.len() ==> #[trigger] order[k] < fields.len(),
    ensures
        ({
            let rows = inherited_rows(own, fields, extends, order, count);
            &&& forall|k: int|
                0 <= k < rows.len() ==> 0 <= #[trigger] rows[k] < fields.len() && !field_named(
                    own,
                    fields[rows[k]].name,
                ) && !shadowed(extends, fields, rows[k])
            &&& forall|j: int, k: int|
                0 <= j < k < rows.len() ==> fields[#[trigger] rows[j]].name
                    != fields[#[trigger] rows[k]].name
            &&& forall|k: int|
                0 <= k < count ==> field_named(own, fields[(#[trigger] order[k]) as int].name)
                    || shadowed(extends, fields, order[k] as int) || listed(
                    fields,
                    rows,
                    fields[order[k] as int].name,
                )
        }),
    decreases count,
{
    if count > 0 {
        lemma_rows(own, fields, extends, order, count - 1);
        let before = inherited_rows(own, fields, extends, order, count - 1);
        let rows = inherited_rows(own, fields, extends, order, count);
        let at = order[count - 1] as int;
        assert forall|name: Seq<char>| listed(fields, before, name) implies listed(
            fields,
            rows,
            name,
        ) by {
            let k = choose|k: int| 0 <= k < before.len() && fields[#[trigger] before[k]].name == name;
            assert(fields[rows[k]].name == name);
        }
        if rows.len() > before.len() {
            assert(fields[rows[before.len() as int]].name == fields[at].name);
            assert forall|j: int, k: int| 0 <= j < k < rows.len() implies fields[#[trigger] rows[j]].name
                != fields[#[trigger] rows[k]].name by {
                if k == before.len() {
                    assert(fields[before[j]].name == fields[rows[j]].name);
                }
            }
        }
    }
}

proof fn lemma_derives_on(extends: Seq<(int, int)>, a: int, b: int, c: int)
    requires
        derives(extends, a, b),
        derives(extends, b, c),
    ensures
        derives(extends, a, c),
{
    let first = choose|chain: Seq<int>| #[trigger]
        is_chain(extends, chain) && chain[0] == a && chain.last() == b;
    let second = choose|chain: Seq<int>| #[trigger]
        is_chain(extends, chain) && chain[0] == b && chain.last() == c;
    let whole = first + second.skip(1);
    assert forall|k: int| 0 <= k < whole.len() - 1 implies #[trigger] linked(extends, whole, k) by {
        if k < first.len() - 1 {
            assert(linked(extends, first, k));
        } else {
            assert(linked(extends, second, k - (first.len() - 1)));
        }
    }
    assert(is_chain(extends, whole));
    assert(whole[0] == a && whole.last() == c);
}

/// The places of the fields whose classes are strict subclasses of this one.
spec fn nearer(extends: Seq<(int, int)>, fields: Seq<FieldView>, owner: int) -> Set<int> {
    vstd::set_lib::set_int_range(0, fields.len() as int).filter(
        |j: int| strictly_derives(extends, fields[j].owner, owner),
    )
}

proof fn lemma_some_field_wins(
    extends: Seq<(int, int)>,
    fields: Seq<FieldView>,
    at: int,
) -> (winner: int)
    requires
        0 <= at < fields.len(),
    ensures
        0 <= winner < fields.len(),
        fields[winner].name == fields[at].name,
        !shadowed(extends, fields, winner),
    decreases nearer(extends, fields, fields[at].owner).len(),
{
    if shadowed(extends, fields, at) {
        let j = choose|j: int|
            0 <= j < fields.len() && (#[trigger] fields[j]).name == fields[at].name
                && strictly_derives(extends, fields[j].owner, fields[at].owner);
        let all = vstd::set_lib::set_int_range(0, fields.len() as int);
        vstd::set_lib::lemma_int_range(0, fields.len() as int);
        let here = nearer(extends, fields, fields[at].owner);
        let there = nearer(extends, fields, fields[j].owner);
        assert(here.subset_of(all));
        assert(there.subset_of(all));
        vstd::set_lib::lemma_set_subset_finite(all, here);
        assert forall|k: int| there.contains(k) implies here.contains(k) by {
            lemma_derives_on(extends, fields[k].owner, fields[j].owner, fields[at].owner);
            if derives(extends, fields[at].owner, fields[k].owner) {
                lemma_derives_on(extends, fields[at].owner, fields[k].owner, fields[j].owner);
            }
        }
        assert(here.contains(j) && !there.contains(j));
        assert(there.subset_of(here.remove(j)));
        vstd::set_lib::lemma_len_subset(there, here.remove(j));
        lemma_some_field_wins(extends, fields, j)
    } else {
        at
    }
}

proof fn lemma_order_covers(fields: Seq<FieldView>)
    requires
        fields.len() <= usize::MAX,
    ensures
        inherited_order(fields).len() == fields.len(),
        forall|k: int|
            0 <= k < fields.len() ==> #[trigger] inherited_order(fields)[k] < fields.len(),
        forall|i: usize| i < fields.len() ==> #[trigger] inherited_order(fields).contains(i),
{
    let keys = fields.map_values(
        |field: FieldView| seq![PartView::Text(field.base), PartView::Number(field.line)],
    );
    let items = counting(fields.len());
    law_arranging_keeps_the_items(items, keys);
    assert forall|k: int| 0 <= k < fields.len() implies #[trigger] inherited_order(fields)[k]
        < fields.len() by {
        assert(items.contains(arranged(items, keys)[k]));
    }
    assert forall|i: usize| i < fields.len() implies #[trigger] inherited_order(fields).contains(
        i,
    ) by {
        assert(arranged(items, keys).contains(items[i as int]));
    }
}

/// A subclass field shadows a base field of the same name: no inherited field is listed that the
/// model declares itself or that a subclass of its class declares, and no name twice.
pub proof fn law_a_shadowed_field_is_not_listed(walk: ModelView, i: int)
    requires
        walk.inherited.len() <= usize::MAX,
        0 <= i < listed_fields(walk).len(),
    ensures
        0 <= listed_fields(walk)[i] < walk.inherited.len(),
        !field_named(walk.own, walk.inherited[listed_fields(walk)[i]].name),
        forall|j: int|
            0 <= j < walk.inherited.len() && (#[trigger] walk.inherited[j]).name
                == walk.inherited[listed_fields(walk)[i]].name ==> !strictly_derives(
                walk.extends,
                walk.inherited[j].owner,
                walk.inherited[listed_fields(walk)[i]].owner,
            ),
        forall|j: int|
            0 <= j < i ==> walk.inherited[#[trigger] listed_fields(walk)[j]].name
                != walk.inherited[listed_fields(walk)[i]].name,
{
    lemma_order_covers(walk.inherited);
    lemma_rows(
        walk.own,
        walk.inherited,
        walk.extends,
        inherited_order(walk.inherited),
        walk.inherited.len() as int,
    );
}

/// Every column of the model is listed: a field that a base declares is listed by its name, as the
/// model's own or as that of some base.
pub proof fn law_every_column_is_listed(walk: ModelView, at: int)
    requires
        walk.inherited.len() <= usize::MAX,
        0 <= at < walk.inherited.len(),
    ensures
        field_named(walk.own, walk.inherited[at].name) || listed(
            walk.inherited,
            listed_fields(walk),
            walk.inherited[at].name,
        ),
{
    let order = inherited_order(walk.inherited);
    lemma_order_covers(walk.inherited);
    lemma_rows(walk.own, walk.inherited, walk.extends, order, walk.inherited.len() as int);
    let winner = lemma_some_field_wins(walk.extends, walk.inherited, at);
    assert(order.contains(winner as usize));
    let k = choose|k: int| 0 <= k < order.len() && order[k] == winner as usize;
    assert(order[k] as int == winner);
}

// ---------------------------------------------------------------------------
// What a symbol is related to

proof fn lemma_uncontained(related: Seq<(EdgeKind, Node)>, rows: Seq<(int, int)>, count: int)
    requires
        0 <= count <= rows.len(),
    ensures
        forall|row: (int, int)| #[trigger]
            uncontained(related, rows, count).contains(row) <==> exists|k: int|
                0 <= k < count && #[trigger] rows[k] == row && !(related[row.0].0 is Contains),
    decreases count,
{
    if count > 0 {
        lemma_uncontained(related, rows, count - 1);
        let before = uncontained(related, rows, count - 1);
        let after = uncontained(related, rows, count);
        assert forall|row: (int, int)| #[trigger] after.contains(row) <==> exists|k: int|
            0 <= k < count && #[trigger] rows[k] == row && !(related[row.0].0 is Contains) by {
            if after.contains(row) {
                let i = choose|i: int| 0 <= i < after.len() && after[i] == row;
                if i < before.len() {
                    assert(before[i] == row);
                    assert(before.contains(row));
                    let k = choose|k: int|
                        0 <= k < count - 1 && #[trigger] rows[k] == row && !(related[row.0].0
                            is Contains);
                    assert(rows[k] == row);
                } else {
                    assert(rows[count - 1] == row);
                }
            }
            if exists|k: int|
                0 <= k < count && #[trigger] rows[k] == row && !(related[row.0].0 is Contains) {
                let k = choose|k: int|
                    0 <= k < count && #[trigger] rows[k] == row && !(related[row.0].0 is Contains);
                if k < count - 1 {
                    assert(rows[k] == row);
                    assert(before.contains(row));
                    let i = choose|i: int| 0 <= i < before.len() && before[i] == row;
                    assert(after[i] == row);
                } else {
                    assert(after[after.len() - 1] == row);
                }
            }
        }
    }
}

/// Every relation of a symbol that is no containment has its row, and no containment has one.
pub proof fn law_every_relation_but_containment_is_listed(
    related: Seq<(EdgeKind, Node)>,
    at: int,
)
    requires
        0 <= at < related.len(),
    ensures
        !(related[at].0 is Contains) ==> exists|r: int|
            0 <= r < related_rows_spec(related).len() && related[(
            #[trigger] related_rows_spec(related)[r]).0].0 == related[at].0
                && related[related_rows_spec(related)[r].0].1.id@ == related[at].1.id@,
        forall|r: int|
            0 <= r < related_rows_spec(related).len() ==> !(related[(
            #[trigger] related_rows_spec(related)[r]).0].0 is Contains),
{
    let all = dedup_spec(related);
    let rows = related_rows_spec(related);
    law_every_relation_has_its_row(related, at, 0);
    lemma_uncontained(related, all, all.len() as int);
    if !(related[at].0 is Contains) {
        let a = choose|a: int|
            0 <= a < all.len() && related[(#[trigger] all[a]).0].0 == related[at].0
                && related[all[a].0].1.id@ == related[at].1.id@;
        assert(all[a] == all[a]);
        assert(rows.contains(all[a]));
        let r = choose|r: int| 0 <= r < rows.len() && rows[r] == all[a];
        assert(related[rows[r].0].0 == related[at].0);
    }
    assert forall|r: int| 0 <= r < rows.len() implies !(related[(#[trigger] rows[r]).0].0
        is Contains) by {
        assert(rows.contains(rows[r]));
    }
}

/// Of two related symbols that are listed the earlier stands in no weaker a relation; of two in
/// equally strong ones it is not at home where the later is elsewhere; and otherwise the later does
/// not lead it.
pub proof fn law_relations_are_listed_in_order(
    related: Seq<(EdgeKind, Node)>,
    rows: Seq<(int, int)>,
    home: Seq<char>,
    a: int,
    b: int,
)
    requires
        0 <= a < b < rows.len() <= usize::MAX,
    ensures
        ({
            let order = row_order(related, rows, home);
            let (first, second) = (
                related[rows[order[a] as int].0],
                related[rows[order[b] as int].0],
            );
            let same = edge_rank_spec(first.0) == edge_rank_spec(second.0);
            &&& edge_rank_spec(first.0) <= edge_rank_spec(second.0)
            &&& same ==> !(first.1.project_id@ == home && second.1.project_id@ != home)
            &&& same && (first.1.project_id@ == home) == (second.1.project_id@ == home) ==> !leads(
                second.1,
                first.1,
            )
        }),
{
    let keys = rows.map_values(
        |row: (int, int)| related_key(related[row.0].0, related[row.0].1, home),
    );
    law_arranging_sorts(keys, a, b);
    let order = row_order(related, rows, home);
    let (i, j) = (sorted_order(keys)[a], sorted_order(keys)[b]);
    assert(order[a] == i && order[b] == j);
    let (left, right) = (keys[i], keys[j]);
    lemma_not_after(left, right);
    if left[0] == right[0] {
        lemma_not_after(left.skip(1), right.skip(1));
        assert(left.skip(1)[0] == left[1] && right.skip(1)[0] == right[1]);
        if left[1] == right[1] {
            let (first, second) = (related[rows[i].0].1, related[rows[j].0].1);
            assert(left.skip(1).skip(1) =~= listing_key_spec(first));
            assert(right.skip(1).skip(1) =~= listing_key_spec(second));
            if leads(second, first) {
                law_what_leads_is_listed_first(second, first);
            }
        }
    }
}

// ---------------------------------------------------------------------------
// What a model is made of

/// The callee is a column.
pub open spec fn is_column(callee: (EdgeKind, Node)) -> bool {
    callee.0 is Contains && callee.1.kind is Field
}

/// Some of the fields is this column, declared by this class.
pub open spec fn holds_column(fields: Seq<FieldView>, column: Node, owner: int) -> bool {
    exists|k: int|
        0 <= k < fields.len() && (#[trigger] fields[k]).name == column.name@ && fields[k].line
            == column.span.start_line && fields[k].owner == owner
}

proof fn lemma_model_met(
    walk: ModelView,
    class: PendingView,
    callees: Seq<(EdgeKind, Node)>,
    reverse: Set<Seq<char>>,
    count: int,
)
    requires
        0 <= count <= callees.len(),
    ensures
        ({
            let after = model_met_all(walk, class, callees, reverse, count);
            let columns = numbers::indices(count, |i: int| is_column(callees[i])).len();
            &&& after.own.len() == walk.own.len() + if class.depth == 0 {
                columns
            } else {
                0
            }
            &&& after.inherited.len() == walk.inherited.len() + if class.depth == 0 {
                0
            } else {
                columns
            }
            &&& walk.visited.len() <= after.visited.len()
            &&& forall|i: int|
                0 <= i < count && is_column(#[trigger] callees[i]) ==> if class.depth == 0 {
                    holds_column(after.own, callees[i].1, class.place)
                } else {
                    holds_column(after.inherited, callees[i].1, class.place)
                }
            &&& forall|i: int|
                0 <= i < count && (#[trigger] callees[i]).0 is RelatesTo ==> after.related.contains(
                    callees[i].1.id@,
                )
            &&& forall|i: int|
                0 <= i < count && (#[trigger] callees[i]).0 is Extends && class.depth
                    < MODEL_MRO_DEPTH_MAX ==> extends_to(
                    after,
                    class.place,
                    callees[i].1.id@,
                )
        }),
    decreases count,
{
    let holds = |i: int| is_column(callees[i]);
    lemma_indices(count, holds);
    if count > 0 {
        lemma_model_met(walk, class, callees, reverse, count - 1);
        let before = model_met_all(walk, class, callees, reverse, count - 1);
        let after = model_met_all(walk, class, callees, reverse, count);
        let last = callees[count - 1];
        lemma_key_at(before.visited, last.1.id@, 0);
        lemma_key_at(before.related, last.1.id@, 0);
        assert(forall|k: int| 0 <= k < before.own.len() ==> #[trigger] after.own[k]
            == before.own[k]);
        assert(forall|k: int| 0 <= k < before.inherited.len() ==> #[trigger] after.inherited[k]
            == before.inherited[k]);
        assert(forall|k: int| 0 <= k < before.related.len() ==> #[trigger] after.related[k]
            == before.related[k]);
        assert(forall|k: int| 0 <= k < before.visited.len() ==> #[trigger] after.visited[k]
            == before.visited[k]);
        assert(forall|k: int| 0 <= k < before.extends.len() ==> #[trigger] after.extends[k]
            == before.extends[k]);
        assert forall|i: int| 0 <= i < count && is_column(#[trigger] callees[i]) implies
            if class.depth == 0 {
            holds_column(after.own, callees[i].1, class.place)
        } else {
            holds_column(after.inherited, callees[i].1, class.place)
        } by {
            let column = callees[i].1;
            if i < count - 1 {
                if class.depth == 0 {
                    let k = choose|k: int|
                        0 <= k < before.own.len() && (#[trigger] before.own[k]).name == column.name@
                            && before.own[k].line == column.span.start_line && before.own[k].owner
                            == class.place;
                    assert(after.own[k] == before.own[k]);
                } else {
                    let k = choose|k: int|
                        0 <= k < before.inherited.len() && (#[trigger] before.inherited[k]).name
                            == column.name@ && before.inherited[k].line == column.span.start_line
                            && before.inherited[k].owner == class.place;
                    assert(after.inherited[k] == before.inherited[k]);
                }
            } else if class.depth == 0 {
                assert(after.own[after.own.len() - 1].name == column.name@);
            } else {
                assert(after.inherited[after.inherited.len() - 1].name == column.name@);
            }
        }
        assert forall|i: int| 0 <= i < count && (#[trigger] callees[i]).0 is RelatesTo implies
            after.related.contains(callees[i].1.id@) by {
            if i < count - 1 {
                assert(before.related.contains(callees[i].1.id@));
                let k = choose|k: int|
                    0 <= k < before.related.len() && before.related[k] == callees[i].1.id@;
                assert(after.related[k] == callees[i].1.id@);
            } else if key_at(before.related, last.1.id@, 0) is Some {
                assert(after.related[key_at(before.related, last.1.id@, 0)->0] == last.1.id@);
            } else {
                assert(after.related[after.related.len() - 1] == last.1.id@);
            }
        }
        assert forall|i: int|
            0 <= i < count && (#[trigger] callees[i]).0 is Extends && class.depth
                < MODEL_MRO_DEPTH_MAX implies extends_to(
            after,
            class.place,
            callees[i].1.id@,
        ) by {
            let id = callees[i].1.id@;
            if i < count - 1 {
                assert(extends_to(before, class.place, id));
                let place = choose|place: int|
                    0 <= place < before.visited.len() && #[trigger] before.visited[place] == id
                        && before.extends.contains((class.place, place));
                let k = choose|k: int|
                    0 <= k < before.extends.len() && before.extends[k] == (class.place, place);
                assert(after.extends[k] == (class.place, place));
                assert(after.visited[place] == id);
            } else {
                let place = match key_at(before.visited, id, 0) {
                    Some(place) => place,
                    None => before.visited.len() as int,
                };
                assert(after.extends[after.extends.len() - 1] == (class.place, place));
                assert(after.visited[place] == id);
            }
        }
    }
}

/// The class at this place extends the one of this id, which has been seen.
pub open spec fn extends_to(walk: ModelView, class: int, id: Seq<char>) -> bool {
    exists|place: int|
        0 <= place < walk.visited.len() && #[trigger] walk.visited[place] == id
            && walk.extends.contains((class, place))
}

/// Reading a class takes in its whole schema: every column it declares, once, as the model's own or
/// as inherited from that class; every model it relates to; and every class it extends, up to the
/// depth that is followed.
pub proof fn law_reading_a_class_takes_in_its_schema(
    walk: ModelView,
    callees: Seq<(EdgeKind, Node)>,
    reverse: Set<Seq<char>>,
)
    requires
        walk.frontier.len() > 0,
    ensures
        ({
            let class = walk.frontier.last();
            let after = model_step(walk, callees, reverse);
            let columns = numbers::indices(
                callees.len() as int,
                |i: int| is_column(callees[i]),
            ).len();
            &&& after.walked == walk.walked + 1
            &&& class.depth == 0 ==> after.own.len() == walk.own.len() + columns
                && after.inherited.len() == walk.inherited.len()
            &&& class.depth != 0 ==> after.inherited.len() == walk.inherited.len() + columns
                && after.own.len() == walk.own.len()
            &&& forall|i: int|
                0 <= i < callees.len() && is_column(#[trigger] callees[i]) ==> if class.depth == 0 {
                    holds_column(after.own, callees[i].1, class.place)
                } else {
                    holds_column(after.inherited, callees[i].1, class.place)
                }
            &&& forall|i: int|
                0 <= i < callees.len() && (#[trigger] callees[i]).0 is RelatesTo
                    ==> after.related.contains(callees[i].1.id@)
            &&& forall|i: int|
                0 <= i < callees.len() && (#[trigger] callees[i]).0 is Extends && class.depth
                    < MODEL_MRO_DEPTH_MAX ==> extends_to(after, class.place, callees[i].1.id@)
        }),
{
    let start = ModelView {
        frontier: walk.frontier.drop_last(),
        walked: walk.walked + 1,
        ..walk
    };
    lemma_model_met(start, walk.frontier.last(), callees, reverse, callees.len() as int);
    lemma_walked(start, walk.frontier.last(), callees, reverse, callees.len() as int);
}

proof fn lemma_walked(
    walk: ModelView,
    class: PendingView,
    callees: Seq<(EdgeKind, Node)>,
    reverse: Set<Seq<char>>,
    count: int,
)
    ensures
        model_met_all(walk, class, callees, reverse, count).walked == walk.walked,
    decreases count,
{
    if count > 0 {
        lemma_walked(walk, class, callees, reverse, count - 1);
    }
}

/// The symbols that can have a schema are the models and the classes of the name, all of them.
pub proof fn law_models_and_classes_have_a_schema(nodes: Seq<Node>, at: int)
    requires
        0 <= at < nodes.len() <= usize::MAX,
    ensures
        model_positions(nodes, nodes.len() as int).contains(at as usize) <==> nodes[at].kind
            is Class || nodes[at].kind is Model,
{
    lemma_model_positions(nodes, nodes.len() as int, at);
}

// ---------------------------------------------------------------------------
// What a symbol is called from

/// Every call site that is no containment is listed, and no containment is.
pub proof fn law_every_call_site_is_listed(sites: Seq<CallSite>, home: Seq<char>, at: int)
    requires
        0 <= at < sites.len() <= usize::MAX,
    ensures
        site_order(sites, home).contains(at as usize) <==> !(sites[at].kind is Contains),
{
    lemma_site_places(sites, sites.len() as int, at);
    let places = site_places(sites, sites.len() as int);
    let order = site_order(sites, home);
    law_arranging_keeps_the_items(
        places,
        places.map_values(
            |p: usize| related_key(sites[p as int].kind, sites[p as int].caller, home),
        ),
    );
    if places.contains(at as usize) {
        let k = choose|k: int| 0 <= k < places.len() && places[k] == at as usize;
        assert(order.contains(places[k]));
    }
    if order.contains(at as usize) {
        let k = choose|k: int| 0 <= k < order.len() && order[k] == at as usize;
        assert(places.contains(order[k]));
    }
}

/// The snippet of a call site is its own line of the source, without the space around it and no
/// longer than its cap.
pub proof fn law_a_snippet_is_its_own_line(source: Seq<char>, line: int)
    ensures
        match snippet_spec(Some(source), line) {
            Some(snippet) => 1 <= line <= lines_spec(source).len() && snippet.len() > 0
                && snippet.len() <= CALL_SITE_SNIPPET_CHARS_MAX && snippet.is_prefix_of(
                trim_spec(lines_spec(source)[line - 1]),
            ) && (snippet.len() < CALL_SITE_SNIPPET_CHARS_MAX ==> snippet == trim_spec(
                lines_spec(source)[line - 1],
            )),
            None => line < 1 || line > lines_spec(source).len() || trim_spec(
                lines_spec(source)[line - 1],
            ).len() == 0,
        },
{
    if snippet_spec(Some(source), line) is Some {
        let text = trim_spec(lines_spec(source)[line - 1]);
        let snippet = snippet_spec(Some(source), line)->0;
        assert(snippet =~= text.subrange(0, snippet.len() as int));
        if snippet.len() < CALL_SITE_SNIPPET_CHARS_MAX {
            assert(snippet =~= text);
        }
    }
}

/// A call that nothing bound is listed exactly where no bound symbol has its name.
pub proof fn law_unbound_calls_are_those_of_no_bound_name(
    facts: CalleeFacts,
    rows: Seq<(int, int)>,
    count: int,
)
    requires
        0 <= count <= facts.unresolved@.len(),
    ensures
        forall|i: int| #[trigger]
            pending_calls(facts, rows, count).contains(i) <==> 0 <= i < count && forall|k: int|
                0 <= k < rows.len() ==> facts.related@[(#[trigger] rows[k]).0].1.name@
                    != facts.unresolved@[i].0@,
    decreases count,
{
    if count > 0 {
        law_unbound_calls_are_those_of_no_bound_name(facts, rows, count - 1);
        let before = pending_calls(facts, rows, count - 1);
        let after = pending_calls(facts, rows, count);
        assert forall|i: int| #[trigger] after.contains(i) <==> 0 <= i < count && forall|k: int|
            0 <= k < rows.len() ==> facts.related@[(#[trigger] rows[k]).0].1.name@
                != facts.unresolved@[i].0@ by {
            if before.contains(i) {
                let p = choose|p: int| 0 <= p < before.len() && before[p] == i;
                assert(after[p] == i);
            }
            if after.contains(i) {
                let p = choose|p: int| 0 <= p < after.len() && after[p] == i;
                if p < before.len() {
                    assert(before[p] == i);
                    assert(before.contains(i));
                }
            }
            if i == count - 1 && !bound_name(facts.related@, rows, facts.unresolved@[i].0@) {
                assert(after[after.len() - 1] == i);
            }
        }
    }
}

proof fn lemma_model_positions(nodes: Seq<Node>, count: int, at: int)
    requires
        0 <= count <= nodes.len() <= usize::MAX,
        0 <= at < nodes.len(),
    ensures
        model_positions(nodes, count).contains(at as usize) <==> at < count && model_kind(nodes[at]),
    decreases count,
{
    if count > 0 {
        lemma_model_positions(nodes, count - 1, at);
        let before = model_positions(nodes, count - 1);
        let after = model_positions(nodes, count);
        if before.contains(at as usize) {
            let k = choose|k: int| 0 <= k < before.len() && before[k] == at as usize;
            assert(after[k] == at as usize);
        }
        if after.contains(at as usize) {
            let k = choose|k: int| 0 <= k < after.len() && after[k] == at as usize;
            if k < before.len() {
                assert(before[k] == at as usize);
            }
        }
        if at == count - 1 && model_kind(nodes[at]) {
            assert(after[after.len() - 1] == at as usize);
        }
    }
}

proof fn lemma_site_places(sites: Seq<CallSite>, count: int, at: int)
    requires
        0 <= count <= sites.len() <= usize::MAX,
        0 <= at < sites.len(),
    ensures
        site_places(sites, count).contains(at as usize) <==> at < count && sites[at].kind != EdgeKind::Contains,
    decreases count,
{
    if count > 0 {
        lemma_site_places(sites, count - 1, at);
        let before = site_places(sites, count - 1);
        let after = site_places(sites, count);
        if before.contains(at as usize) {
            let k = choose|k: int| 0 <= k < before.len() && before[k] == at as usize;
            assert(after[k] == at as usize);
        }
        if after.contains(at as usize) {
            let k = choose|k: int| 0 <= k < after.len() && after[k] == at as usize;
            if k < before.len() {
                assert(before[k] == at as usize);
            }
        }
        if at == count - 1 && sites[at].kind != EdgeKind::Contains {
            assert(after[after.len() - 1] == at as usize);
        }
    }
}

// ---------------------------------------------------------------------------
// The order of what is listed

/// The own columns of a class come by line, those it inherits class by class and then by line, and
/// none is lost.
pub proof fn law_columns_come_by_line(fields: Seq<FieldView>, a: int, b: int)
    requires
        0 <= a < b < fields.len() <= usize::MAX,
    ensures
        ({
            let (own, inherited) = (own_order(fields), inherited_order(fields));
            let (first, second) = (
                fields[inherited[a] as int],
                fields[inherited[b] as int],
            );
            &&& own.len() == fields.len() && inherited.len() == fields.len()
            &&& own[a] != own[b] && inherited[a] != inherited[b]
            &&& fields[own[a] as int].line <= fields[own[b] as int].line
            &&& fields[own[a] as int].line == fields[own[b] as int].line ==> own[a] < own[b]
            &&& first.base == second.base ==> first.line <= second.line
        }),
{
    let own_keys = fields.map_values(|field: FieldView| seq![PartView::Number(field.line)]);
    law_arranging_sorts(own_keys, a, b);
    let (i, j) = (sorted_order(own_keys)[a], sorted_order(own_keys)[b]);
    assert(own_order(fields)[a] == i && own_order(fields)[b] == j);
    lemma_not_after(own_keys[i], own_keys[j]);
    if fields[i].line == fields[j].line {
        assert(own_keys[i] =~= own_keys[j]);
    }
    let keys = fields.map_values(
        |field: FieldView| seq![PartView::Text(field.base), PartView::Number(field.line)],
    );
    law_arranging_sorts(keys, a, b);
    let (i, j) = (sorted_order(keys)[a], sorted_order(keys)[b]);
    assert(inherited_order(fields)[a] == i && inherited_order(fields)[b] == j);
    lemma_not_after(keys[i], keys[j]);
    if keys[i][0] == keys[j][0] {
        lemma_not_after(keys[i].skip(1), keys[j].skip(1));
    }
}

/// Call sites come by the strength of their relation, then those from other projects before those
/// at home, then as a listing has them.
pub proof fn law_call_sites_come_in_order(sites: Seq<CallSite>, home: Seq<char>, a: int, b: int)
    requires
        sites.len() <= usize::MAX,
        0 <= a < b < site_places(sites, sites.len() as int).len(),
    ensures
        ({
            let order = site_order(sites, home);
            let (first, second) = (sites[order[a] as int], sites[order[b] as int]);
            let same = edge_rank_spec(first.kind) == edge_rank_spec(second.kind);
            let (near, far) = (
                first.caller.project_id@ == home,
                second.caller.project_id@ == home,
            );
            &&& edge_rank_spec(first.kind) <= edge_rank_spec(second.kind)
            &&& same ==> !(near && !far)
            &&& same && near == far ==> !leads(second.caller, first.caller)
        }),
{
    let places = site_places(sites, sites.len() as int);
    let keys = places.map_values(
        |p: usize| related_key(sites[p as int].kind, sites[p as int].caller, home),
    );
    let order = site_order(sites, home);
    law_arranging_sorts(keys, a, b);
    let (i, j) = (sorted_order(keys)[a], sorted_order(keys)[b]);
    assert(order[a] == places[i] && order[b] == places[j]);
    let (left, right) = (keys[i], keys[j]);
    let (first, second) = (sites[order[a] as int], sites[order[b] as int]);
    assert(left == related_key(first.kind, first.caller, home));
    assert(right == related_key(second.kind, second.caller, home));
    lemma_not_after(left, right);
    if left[0] == right[0] {
        lemma_not_after(left.skip(1), right.skip(1));
        assert(left.skip(1)[0] == left[1] && right.skip(1)[0] == right[1]);
        if left[1] == right[1] {
            assert(left.skip(1).skip(1) =~= listing_key_spec(first.caller));
            assert(right.skip(1).skip(1) =~= listing_key_spec(second.caller));
            if leads(second.caller, first.caller) {
                law_what_leads_is_listed_first(second.caller, first.caller);
            }
        }
    }
}

proof fn lemma_collapsed(texts: Seq<Seq<char>>, count: int, text: Seq<char>)
    requires
        0 <= count <= texts.len(),
    ensures
        collapsed(texts, count).contains(text) <==> exists|k: int|
            0 <= k < count && #[trigger] texts[k] == text,
        count > 0 ==> collapsed(texts, count).len() > 0 && collapsed(texts, count).last()
            == texts[count - 1],
    decreases count,
{
    let kept = collapsed(texts, count);
    if count <= 0 {
        assert(!kept.contains(text));
    } else {
        lemma_collapsed(texts, count - 1, text);
        let before = collapsed(texts, count - 1);
        if before.contains(text) {
            let k = choose|k: int| 0 <= k < before.len() && before[k] == text;
            assert(kept[k] == text);
        }
        if texts[count - 1] == text {
            assert(kept[kept.len() - 1] == text);
        }
        if kept.contains(text) && !before.contains(text) {
            let k = choose|k: int| 0 <= k < kept.len() && kept[k] == text;
            if k < before.len() {
                assert(before[k] == text);
            }
            assert(texts[count - 1] == text);
        }
    }
}

/// What is listed once each is all that there is, and nothing else.
pub proof fn law_sorting_out_keeps_every_text(texts: Seq<Seq<char>>, text: Seq<char>)
    requires
        texts.len() <= usize::MAX,
    ensures
        sorted_distinct(texts).contains(text) <==> texts.contains(text),
{
    let keys = texts.map_values(|text: Seq<char>| seq![PartView::Text(text)]);
    let order = arranged(counting(texts.len()), keys);
    let sorted = order.map_values(|p: usize| texts[p as int]);
    law_arranging_keeps_the_items(counting(texts.len()), keys);
    lemma_collapsed(sorted, order.len() as int, text);
    if texts.contains(text) {
        let k = choose|k: int| 0 <= k < texts.len() && texts[k] == text;
        assert(counting(texts.len())[k] == k as usize);
        assert(order.contains(k as usize));
        let p = choose|p: int| 0 <= p < order.len() && order[p] == k as usize;
        assert(sorted[p] == text);
    }
    if sorted_distinct(texts).contains(text) {
        let p = choose|p: int| 0 <= p < order.len() && #[trigger] sorted[p] == text;
        assert(counting(texts.len()).contains(order[p]));
        assert(texts[order[p] as int] == text);
    }
}

/// How often a relation comes is said where it is more than once.
pub proof fn law_a_relation_that_repeats_says_how_often(count: int)
    requires
        count >= 1,
    ensures
        times_text(count).len() > 0 <==> count >= 2,
        count >= 2 ==> decimal_spec(count as nat).is_suffix_of(times_text(count)),
{
    reveal_strlit("");
    reveal_strlit(" ×");
    if count >= 2 {
        let text = times_text(count);
        let number = decimal_spec(count as nat);
        assert(text.subrange(text.len() - number.len(), text.len() as int) =~= number);
    }
}

/// A relation says its direction: an arrow back where the other model points here, and forth where
/// this one declares it; and it names the other model and where that stands.
pub proof fn law_a_relation_says_its_direction(related: Node, back: bool)
    ensures
        back ==> ("    [<-] "@ + related.name@).is_prefix_of(relation_line(related, back)),
        !back ==> ("    [->] "@ + related.name@).is_prefix_of(relation_line(related, back)),
        occurs(relation_line(related, back), related.file_path@),
{
    reveal_strlit("    [");
    reveal_strlit("<-");
    reveal_strlit("->");
    reveal_strlit("] ");
    reveal_strlit("    [<-] ");
    reveal_strlit("    [->] ");
    lemma_occurs_grows();
    let line = relation_line(related, back);
    let head = if back {
        "    [<-] "@ + related.name@
    } else {
        "    [->] "@ + related.name@
    };
    assert(head =~= line.subrange(0, head.len() as int));
}

} // verus!
