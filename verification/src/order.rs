//! Stable sorting by keys made of numbers and texts.
use crate::chars::{chars_of, same_text, views};
use vstd::prelude::*;

verus! {

/// One part of a sort key.
pub enum Part {
    Number(i128),
    Text(String),
}

/// One part of a sort key as a value.
pub enum PartView {
    Number(int),
    Text(Seq<char>),
}

impl View for Part {
    type V = PartView;

    open spec fn view(&self) -> PartView {
        match self {
            Part::Number(number) => PartView::Number(*number as int),
            Part::Text(text) => PartView::Text(text@),
        }
    }
}

/// A key as a value.
pub open spec fn key_view(key: Vec<Part>) -> Seq<PartView> {
    key@.map_values(|part: Part| part@)
}

/// A run of keys as values.
pub open spec fn keys_view(keys: Seq<Vec<Part>>) -> Seq<Seq<PartView>> {
    keys.map_values(|key: Vec<Part>| key_view(key))
}

/// The order of texts: character by character, a proper prefix before what it begins.
pub open spec fn text_less(left: Seq<char>, right: Seq<char>) -> bool
    decreases left.len(),
{
    if right.len() == 0 {
        false
    } else if left.len() == 0 {
        true
    } else if left[0] == right[0] {
        text_less(left.skip(1), right.skip(1))
    } else {
        left[0] < right[0]
    }
}

pub open spec fn part_less(left: PartView, right: PartView) -> bool {
    match (left, right) {
        (PartView::Number(a), PartView::Number(b)) => a < b,
        (PartView::Text(a), PartView::Text(b)) => text_less(a, b),
        (PartView::Number(_), PartView::Text(_)) => true,
        (PartView::Text(_), PartView::Number(_)) => false,
    }
}

/// The order of keys: part by part, a proper prefix before what it begins.
pub open spec fn key_less(left: Seq<PartView>, right: Seq<PartView>) -> bool
    decreases left.len(),
{
    if right.len() == 0 {
        false
    } else if left.len() == 0 {
        true
    } else if left[0] == right[0] {
        key_less(left.skip(1), right.skip(1))
    } else {
        part_less(left[0], right[0])
    }
}

proof fn lemma_skip_first<A>(left: Seq<A>, right: Seq<A>)
    requires
        left.len() > 0,
        right.len() > 0,
        left[0] == right[0],
        left.skip(1) == right.skip(1),
    ensures
        left == right,
{
    assert(left =~= seq![left[0]] + left.skip(1));
    assert(right =~= seq![right[0]] + right.skip(1));
}

pub proof fn lemma_text_order(a: Seq<char>, b: Seq<char>)
    ensures
        text_less(a, b) ==> a != b && !text_less(b, a),
        a != b ==> text_less(a, b) || text_less(b, a),
    decreases a.len(),
{
    if a.len() > 0 && b.len() > 0 && a[0] == b[0] {
        lemma_text_order(a.skip(1), b.skip(1));
        if a.skip(1) == b.skip(1) {
            lemma_skip_first(a, b);
        }
    } else if a.len() == 0 && b.len() == 0 {
        assert(a =~= b);
    }
}

pub proof fn lemma_text_transitive(a: Seq<char>, b: Seq<char>, c: Seq<char>)
    requires
        text_less(a, b),
        text_less(b, c),
    ensures
        text_less(a, c),
    decreases a.len(),
{
    if a.len() > 0 && b.len() > 0 && c.len() > 0 && a[0] == b[0] && b[0] == c[0] {
        lemma_text_transitive(a.skip(1), b.skip(1), c.skip(1));
    }
}

proof fn lemma_part_order(a: PartView, b: PartView)
    ensures
        part_less(a, b) ==> a != b && !part_less(b, a),
        a != b ==> part_less(a, b) || part_less(b, a),
{
    if let (PartView::Text(x), PartView::Text(y)) = (a, b) {
        lemma_text_order(x, y);
    }
}

proof fn lemma_part_transitive(a: PartView, b: PartView, c: PartView)
    requires
        part_less(a, b),
        part_less(b, c),
    ensures
        part_less(a, c),
{
    if let (PartView::Text(x), PartView::Text(y)) = (a, b) {
        if let PartView::Text(z) = c {
            lemma_text_transitive(x, y, z);
        }
    }
}

/// Of two keys one comes first or they are equal, and never more than one of these.
pub proof fn lemma_key_order(a: Seq<PartView>, b: Seq<PartView>)
    ensures
        key_less(a, b) ==> a != b && !key_less(b, a),
        a != b ==> key_less(a, b) || key_less(b, a),
    decreases a.len(),
{
    if a.len() > 0 && b.len() > 0 {
        lemma_part_order(a[0], b[0]);
        if a[0] == b[0] {
            lemma_key_order(a.skip(1), b.skip(1));
            if a.skip(1) == b.skip(1) {
                lemma_skip_first(a, b);
            }
        }
    } else if a.len() == 0 && b.len() == 0 {
        assert(a =~= b);
    }
}

pub proof fn lemma_key_transitive(a: Seq<PartView>, b: Seq<PartView>, c: Seq<PartView>)
    requires
        key_less(a, b),
        key_less(b, c),
    ensures
        key_less(a, c),
    decreases a.len(),
{
    if a.len() > 0 && b.len() > 0 && c.len() > 0 {
        if a[0] == b[0] && b[0] == c[0] {
            lemma_key_transitive(a.skip(1), b.skip(1), c.skip(1));
        } else if a[0] != b[0] && b[0] != c[0] {
            lemma_part_transitive(a[0], b[0], c[0]);
            lemma_part_order(a[0], c[0]);
        }
    }
}

/// Item `i` comes before item `j`: by key, and by position where the keys are equal.
pub open spec fn comes_before(keys: Seq<Seq<PartView>>, i: int, j: int) -> bool {
    key_less(keys[i], keys[j]) || (keys[i] == keys[j] && i < j)
}

pub proof fn lemma_before_transitive(keys: Seq<Seq<PartView>>, i: int, j: int, k: int)
    requires
        comes_before(keys, i, j),
        comes_before(keys, j, k),
    ensures
        comes_before(keys, i, k),
{
    if key_less(keys[i], keys[j]) && key_less(keys[j], keys[k]) {
        lemma_key_transitive(keys[i], keys[j], keys[k]);
    }
}

pub proof fn lemma_before_total(keys: Seq<Seq<PartView>>, i: int, j: int)
    ensures
        comes_before(keys, i, j) ==> i != j && !comes_before(keys, j, i),
        i != j ==> comes_before(keys, i, j) || comes_before(keys, j, i),
{
    lemma_key_order(keys[i], keys[j]);
}

/// The positions from `from` up to `to`, each once, in the order of their keys.
pub open spec fn sorts_range(
    keys: Seq<Seq<PartView>>,
    order: Seq<int>,
    from: int,
    to: int,
) -> bool {
    &&& order.len() == to - from
    &&& forall|a: int| 0 <= a < order.len() ==> from <= #[trigger] order[a] < to
    &&& forall|i: int| from <= i < to ==> #[trigger] order.contains(i)
    &&& forall|a: int, b: int|
        0 <= a < b < order.len() ==> comes_before(keys, #[trigger] order[a], #[trigger] order[b])
}

/// The positions of the items in the order of their keys, equal keys in the order given.
pub open spec fn sorted_order(keys: Seq<Seq<PartView>>) -> Seq<int> {
    choose|order: Seq<int>| sorts_range(keys, order, 0, keys.len() as int)
}

/// There is only one such order.
pub proof fn lemma_order_unique(
    keys: Seq<Seq<PartView>>,
    left: Seq<int>,
    right: Seq<int>,
    from: int,
    to: int,
)
    requires
        sorts_range(keys, left, from, to),
        sorts_range(keys, right, from, to),
    ensures
        left == right,
{
    assert forall|k: int| 0 <= k < left.len() implies left[k] == right[k] by {
        lemma_agree_at(keys, left, right, from, to, k);
    }
    assert(left =~= right);
}

proof fn lemma_agree_at(
    keys: Seq<Seq<PartView>>,
    left: Seq<int>,
    right: Seq<int>,
    from: int,
    to: int,
    k: int,
)
    requires
        sorts_range(keys, left, from, to),
        sorts_range(keys, right, from, to),
        0 <= k < left.len(),
    ensures
        left[k] == right[k],
    decreases k,
{
    assert forall|m: int| 0 <= m < k implies left[m] == right[m] by {
        lemma_agree_at(keys, left, right, from, to, m);
    }
    if left[k] != right[k] {
        assert(right.contains(left[k]));
        let p = choose|p: int| 0 <= p < right.len() && right[p] == left[k];
        if p < k {
            assert(left[p] == left[k]);
            lemma_before_total(keys, left[p], left[k]);
        }
        assert(comes_before(keys, right[k], right[p]));
        assert(left.contains(right[k]));
        let q = choose|q: int| 0 <= q < left.len() && left[q] == right[k];
        if q < k {
            assert(right[q] == right[k]);
            lemma_before_total(keys, right[q], right[k]);
        }
        assert(comes_before(keys, left[k], left[q]));
        lemma_before_total(keys, left[k], right[k]);
    }
}

/// How two values stand to each other.
#[derive(Clone, Copy, PartialEq, Eq, Structural)]
pub enum Side {
    Below,
    Same,
    Above,
}

pub fn side_of_texts(left: &str, right: &str) -> (side: Side)
    ensures
        side == Side::Below <==> text_less(left@, right@),
        side == Side::Same <==> left@ == right@,
        side == Side::Above <==> text_less(right@, left@),
{
    let a = chars_of(left);
    let b = chars_of(right);
    let mut i: usize = 0;
    proof {
        lemma_text_order(left@, right@);
        assert(left@.skip(0) =~= left@);
        assert(right@.skip(0) =~= right@);
    }
    while i < a.len() && i < b.len()
        invariant
            a@ == left@,
            b@ == right@,
            i <= a@.len(),
            i <= b@.len(),
            text_less(left@, right@) == text_less(left@.skip(i as int), right@.skip(i as int)),
            text_less(right@, left@) == text_less(right@.skip(i as int), left@.skip(i as int)),
            left@ == right@ <==> left@.skip(i as int) == right@.skip(i as int),
        decreases a@.len() - i,
    {
        assert(left@.skip(i as int).skip(1) =~= left@.skip(i + 1));
        assert(right@.skip(i as int).skip(1) =~= right@.skip(i + 1));
        assert(left@.skip(i as int)[0] == a@[i as int]);
        assert(right@.skip(i as int)[0] == b@[i as int]);
        if a[i] != b[i] {
            return if a[i] < b[i] {
                Side::Below
            } else {
                Side::Above
            };
        }
        proof {
            if left@.skip(i + 1) == right@.skip(i + 1) {
                lemma_skip_first(left@.skip(i as int), right@.skip(i as int));
            }
        }
        i += 1;
    }
    if i < b.len() {
        assert(left@.skip(i as int).len() == 0);
        Side::Below
    } else if i < a.len() {
        assert(right@.skip(i as int).len() == 0);
        Side::Above
    } else {
        assert(left@.skip(i as int) =~= right@.skip(i as int));
        Side::Same
    }
}

fn side_of_parts(left: &Part, right: &Part) -> (side: Side)
    ensures
        side == Side::Below <==> part_less(left@, right@),
        side == Side::Same <==> left@ == right@,
        side == Side::Above <==> part_less(right@, left@),
{
    match left {
        Part::Number(a) => match right {
            Part::Number(b) => if *a < *b {
                Side::Below
            } else if *a == *b {
                Side::Same
            } else {
                Side::Above
            },
            Part::Text(_) => Side::Below,
        },
        Part::Text(a) => match right {
            Part::Number(_) => Side::Above,
            Part::Text(b) => side_of_texts(a.as_str(), b.as_str()),
        },
    }
}

fn side_of_keys(left: &Vec<Part>, right: &Vec<Part>) -> (side: Side)
    ensures
        side == Side::Below <==> key_less(key_view(*left), key_view(*right)),
        side == Side::Same <==> key_view(*left) == key_view(*right),
        side == Side::Above <==> key_less(key_view(*right), key_view(*left)),
{
    let ghost a = key_view(*left);
    let ghost b = key_view(*right);
    let mut i: usize = 0;
    proof {
        lemma_key_order(a, b);
        assert(a.skip(0) =~= a);
        assert(b.skip(0) =~= b);
    }
    while i < left.len() && i < right.len()
        invariant
            a == key_view(*left),
            b == key_view(*right),
            i <= left@.len(),
            i <= right@.len(),
            key_less(a, b) == key_less(a.skip(i as int), b.skip(i as int)),
            key_less(b, a) == key_less(b.skip(i as int), a.skip(i as int)),
            a == b <==> a.skip(i as int) == b.skip(i as int),
        decreases left@.len() - i,
    {
        assert(a.skip(i as int).skip(1) =~= a.skip(i + 1));
        assert(b.skip(i as int).skip(1) =~= b.skip(i + 1));
        assert(a.skip(i as int)[0] == left@[i as int]@);
        assert(b.skip(i as int)[0] == right@[i as int]@);
        let side = side_of_parts(&left[i], &right[i]);
        match side {
            Side::Same => {},
            _ => {
                proof {
                    lemma_part_order(left@[i as int]@, right@[i as int]@);
                }
                return side;
            },
        }
        proof {
            if a.skip(i + 1) == b.skip(i + 1) {
                lemma_skip_first(a.skip(i as int), b.skip(i as int));
            }
        }
        i += 1;
    }
    if i < right.len() {
        assert(a.skip(i as int).len() == 0);
        Side::Below
    } else if i < left.len() {
        assert(b.skip(i as int).len() == 0);
        Side::Above
    } else {
        assert(a.skip(i as int) =~= b.skip(i as int));
        Side::Same
    }
}

/// Positions as integers.
pub open spec fn indices(order: Seq<usize>) -> Seq<int> {
    order.map_values(|i: usize| i as int)
}

fn merge(keys: &Vec<Vec<Part>>, left: Vec<usize>, right: Vec<usize>, from: usize, mid: usize, to: usize) -> (out: Vec<usize>)
    requires
        from <= mid <= to <= keys@.len(),
        sorts_range(keys_view(keys@), indices(left@), from as int, mid as int),
        sorts_range(keys_view(keys@), indices(right@), mid as int, to as int),
    ensures
        sorts_range(keys_view(keys@), indices(out@), from as int, to as int),
{
    let ghost views = keys_view(keys@);
    let ghost ls = indices(left@);
    let ghost rs = indices(right@);
    let mut out: Vec<usize> = Vec::new();
    let mut a: usize = 0;
    let mut b: usize = 0;
    while a < left.len() || b < right.len()
        invariant
            from <= mid <= to <= keys@.len(),
            views == keys_view(keys@),
            ls == indices(left@),
            rs == indices(right@),
            sorts_range(views, ls, from as int, mid as int),
            sorts_range(views, rs, mid as int, to as int),
            a <= left@.len(),
            b <= right@.len(),
            out@.len() == a + b,
            forall|k: int| 0 <= k < out@.len() ==> from <= #[trigger] indices(out@)[k] < to,
            forall|k: int| 0 <= k < a ==> indices(out@).contains(#[trigger] ls[k]),
            forall|k: int| 0 <= k < b ==> indices(out@).contains(#[trigger] rs[k]),
            forall|x: int, y: int|
                0 <= x < y < out@.len() ==> comes_before(
                    views,
                    #[trigger] indices(out@)[x],
                    #[trigger] indices(out@)[y],
                ),
            forall|x: int, k: int|
                0 <= x < out@.len() && a <= k < ls.len() ==> comes_before(
                    views,
                    #[trigger] indices(out@)[x],
                    #[trigger] ls[k],
                ),
            forall|x: int, k: int|
                0 <= x < out@.len() && b <= k < rs.len() ==> comes_before(
                    views,
                    #[trigger] indices(out@)[x],
                    #[trigger] rs[k],
                ),
        decreases left@.len() + right@.len() - a - b,
    {
        let ghost before = indices(out@);
        let take_left: bool = if a == left.len() {
            false
        } else if b == right.len() {
            true
        } else {
            let i: usize = left[a];
            let j: usize = right[b];
            assert(ls[a as int] == i && rs[b as int] == j);
            let side = side_of_keys(&keys[i], &keys[j]);
            proof {
                lemma_before_total(views, i as int, j as int);
                lemma_key_order(views[i as int], views[j as int]);
            }
            side != Side::Above
        };
        if take_left {
            let i: usize = left[a];
            assert(ls[a as int] == i);
            out.push(i);
            assert(indices(out@) =~= before.push(i as int));
            proof {
                assert forall|k: int| b <= k < rs.len() implies comes_before(
                    views,
                    i as int,
                    #[trigger] rs[k],
                ) by {
                    if b < k {
                        lemma_before_transitive(views, i as int, rs[b as int], rs[k]);
                    }
                }
                assert forall|k: int| 0 <= k < a + 1 implies indices(out@).contains(
                    #[trigger] ls[k],
                ) by {
                    if k < a {
                        let p = choose|p: int| 0 <= p < before.len() && before[p] == ls[k];
                        assert(indices(out@)[p] == ls[k]);
                    } else {
                        assert(indices(out@)[before.len() as int] == ls[k]);
                    }
                }
                assert forall|k: int| 0 <= k < b implies indices(out@).contains(
                    #[trigger] rs[k],
                ) by {
                    let p = choose|p: int| 0 <= p < before.len() && before[p] == rs[k];
                    assert(indices(out@)[p] == rs[k]);
                }
            }
            a += 1;
        } else {
            let j: usize = right[b];
            assert(rs[b as int] == j);
            out.push(j);
            assert(indices(out@) =~= before.push(j as int));
            proof {
                assert forall|k: int| a <= k < ls.len() implies comes_before(
                    views,
                    j as int,
                    #[trigger] ls[k],
                ) by {
                    if a < k {
                        lemma_before_transitive(views, j as int, ls[a as int], ls[k]);
                    }
                }
                assert forall|k: int| 0 <= k < b + 1 implies indices(out@).contains(
                    #[trigger] rs[k],
                ) by {
                    if k < b {
                        let p = choose|p: int| 0 <= p < before.len() && before[p] == rs[k];
                        assert(indices(out@)[p] == rs[k]);
                    } else {
                        assert(indices(out@)[before.len() as int] == rs[k]);
                    }
                }
                assert forall|k: int| 0 <= k < a implies indices(out@).contains(
                    #[trigger] ls[k],
                ) by {
                    let p = choose|p: int| 0 <= p < before.len() && before[p] == ls[k];
                    assert(indices(out@)[p] == ls[k]);
                }
            }
            b += 1;
        }
    }
    proof {
        assert forall|i: int| from <= i < to implies #[trigger] indices(out@).contains(i) by {
            if i < mid {
                assert(ls.contains(i));
            } else {
                assert(rs.contains(i));
            }
        }
    }
    out
}

fn sort_range(keys: &Vec<Vec<Part>>, from: usize, to: usize) -> (order: Vec<usize>)
    requires
        from <= to <= keys@.len(),
    ensures
        sorts_range(keys_view(keys@), indices(order@), from as int, to as int),
    decreases to - from,
{
    if from == to {
        Vec::new()
    } else if to - from == 1 {
        let mut order: Vec<usize> = Vec::new();
        order.push(from);
        assert(indices(order@)[0] == from);
        order
    } else {
        let mid: usize = from + (to - from) / 2;
        let left = sort_range(keys, from, mid);
        let right = sort_range(keys, mid, to);
        merge(keys, left, right, from, mid, to)
    }
}

/// The positions of the items in the order of their keys, equal keys in the order given.
pub fn sort_order(keys: &Vec<Vec<Part>>) -> (order: Vec<usize>)
    ensures
        indices(order@) == sorted_order(keys_view(keys@)),
        order@.len() == keys@.len(),
        forall|k: int| 0 <= k < order@.len() ==> #[trigger] order@[k] < keys@.len(),
{
    let order = sort_range(keys, 0, keys.len());
    let ghost views = keys_view(keys@);
    proof {
        lemma_order_unique(views, indices(order@), sorted_order(views), 0, keys@.len() as int);
        assert forall|k: int| 0 <= k < order@.len() implies #[trigger] order@[k] < keys@.len() by {
            assert(indices(order@)[k] < keys@.len());
        }
    }
    order
}

/// Every list of keys has a sorted order.
pub proof fn lemma_sorted_order(keys: Seq<Seq<PartView>>)
    ensures
        sorts_range(keys, sorted_order(keys), 0, keys.len() as int),
{
    let order = lemma_order_exists(keys, keys.len() as int);
    assert(sorts_range(keys, order, 0, keys.len() as int));
}

proof fn lemma_order_exists(keys: Seq<Seq<PartView>>, count: int) -> (order: Seq<int>)
    requires
        0 <= count <= keys.len(),
    ensures
        sorts_range(keys, order, 0, count),
    decreases count,
{
    if count == 0 {
        Seq::empty()
    } else {
        let shorter = lemma_order_exists(keys, count - 1);
        let at = lemma_place(keys, shorter, count - 1, shorter.len() as int);
        let order = shorter.insert(at, count - 1);
        assert forall|i: int| 0 <= i < count implies #[trigger] order.contains(i) by {
            if i == count - 1 {
                assert(order[at] == i);
            } else {
                assert(shorter.contains(i));
                let p = choose|p: int| 0 <= p < shorter.len() && shorter[p] == i;
                if p < at {
                    assert(order[p] == i);
                } else {
                    assert(order[p + 1] == i);
                }
            }
        }
        assert forall|a: int, b: int| 0 <= a < b < order.len() implies comes_before(
            keys,
            #[trigger] order[a],
            #[trigger] order[b],
        ) by {
            let x = if a < at { a } else { a - 1 };
            let y = if b < at { b } else { b - 1 };
            if a != at && b != at {
                assert(order[a] == shorter[x] && order[b] == shorter[y]);
            } else if a == at {
                assert(order[b] == shorter[y]);
            } else {
                assert(order[a] == shorter[x]);
            }
        }
        order
    }
}

proof fn lemma_place(keys: Seq<Seq<PartView>>, order: Seq<int>, item: int, upto: int) -> (at: int)
    requires
        0 <= upto <= order.len(),
        sorts_range(keys, order, 0, item),
        forall|b: int| upto <= b < order.len() ==> comes_before(keys, item, #[trigger] order[b]),
    ensures
        0 <= at <= order.len(),
        forall|a: int| 0 <= a < at ==> comes_before(keys, #[trigger] order[a], item),
        forall|b: int| at <= b < order.len() ==> comes_before(keys, item, #[trigger] order[b]),
    decreases upto,
{
    if upto == 0 {
        0
    } else {
        lemma_before_total(keys, order[upto - 1], item);
        if comes_before(keys, order[upto - 1], item) {
            assert forall|a: int| 0 <= a < upto implies comes_before(
                keys,
                #[trigger] order[a],
                item,
            ) by {
                if a < upto - 1 {
                    lemma_before_transitive(keys, order[a], order[upto - 1], item);
                }
            }
            upto
        } else {
            lemma_place(keys, order, item, upto - 1)
        }
    }
}

/// The items in the order of their keys.
pub open spec fn arranged(items: Seq<usize>, keys: Seq<Seq<PartView>>) -> Seq<usize> {
    sorted_order(keys).map_values(|k: int| items[k])
}

/// The items in the order of their keys, equal keys in the order given.
pub fn arrange(items: &[usize], keys: &Vec<Vec<Part>>) -> (out: Vec<usize>)
    requires
        items@.len() == keys@.len(),
    ensures
        out@ == arranged(items@, keys_view(keys@)),
        out@.len() == items@.len(),
        forall|k: int| 0 <= k < out@.len() ==> items@.contains(#[trigger] out@[k]),
{
    let order = sort_order(keys);
    let ghost wanted = arranged(items@, keys_view(keys@));
    assert(indices(order@).len() == order@.len());
    let mut out: Vec<usize> = Vec::new();
    for i in 0..order.len()
        invariant
            items@.len() == keys@.len(),
            order@.len() == keys@.len(),
            forall|k: int| 0 <= k < order@.len() ==> #[trigger] order@[k] < keys@.len(),
            wanted == indices(order@).map_values(|k: int| items@[k]),
            wanted.len() == order@.len(),
            out@ == wanted.take(i as int),
            forall|k: int| 0 <= k < out@.len() ==> items@.contains(#[trigger] out@[k]),
    {
        assert(order@[i as int] < keys@.len());
        assert(indices(order@)[i as int] == order@[i as int]);
        out.push(items[order[i]]);
        assert(items@.contains(items@[order@[i as int] as int]));
        assert(wanted.take(i + 1) =~= wanted.take(i as int).push(wanted[i as int]));
    }
    assert(wanted.take(order@.len() as int) =~= wanted);
    out
}

/// Arranging drops nothing, adds nothing and repeats nothing: each item stands somewhere, every
/// place holds an item, and no two places hold the same one.
pub proof fn law_arranging_keeps_the_items(items: Seq<usize>, keys: Seq<Seq<PartView>>)
    requires
        items.len() == keys.len(),
    ensures
        arranged(items, keys).len() == items.len(),
        items.no_duplicates() ==> arranged(items, keys).no_duplicates(),
        forall|i: int|
            0 <= i < items.len() ==> arranged(items, keys).contains(#[trigger] items[i]),
        forall|k: int|
            0 <= k < items.len() ==> items.contains(#[trigger] arranged(items, keys)[k]),
{
    lemma_sorted_order(keys);
    let order = sorted_order(keys);
    let out = arranged(items, keys);
    assert forall|i: int| 0 <= i < items.len() implies out.contains(#[trigger] items[i]) by {
        assert(order.contains(i));
        let k = choose|k: int| 0 <= k < order.len() && order[k] == i;
        assert(out[k] == items[i]);
    }
    assert forall|k: int| 0 <= k < items.len() implies items.contains(#[trigger] out[k]) by {
        assert(out[k] == items[order[k]]);
    }
    if items.no_duplicates() {
        assert forall|a: int, b: int| 0 <= a < out.len() && 0 <= b < out.len() && a != b implies (
        #[trigger] out[a]) != (#[trigger] out[b]) by {
            if a < b {
                law_arranging_sorts(keys, a, b);
            } else {
                law_arranging_sorts(keys, b, a);
            }
        }
    }
}

/// Arranged items stand in the order of their keys, and items with equal keys in the order they
/// were given.
pub proof fn law_arranging_sorts(keys: Seq<Seq<PartView>>, a: int, b: int)
    requires
        0 <= a < b < keys.len(),
    ensures
        sorted_order(keys).len() == keys.len(),
        0 <= sorted_order(keys)[a] < keys.len(),
        0 <= sorted_order(keys)[b] < keys.len(),
        sorted_order(keys)[a] != sorted_order(keys)[b],
        !key_less(keys[sorted_order(keys)[b]], keys[sorted_order(keys)[a]]),
        keys[sorted_order(keys)[a]] == keys[sorted_order(keys)[b]] ==> sorted_order(keys)[a]
            < sorted_order(keys)[b],
{
    lemma_sorted_order(keys);
    let order = sorted_order(keys);
    assert(comes_before(keys, order[a], order[b]));
    lemma_before_total(keys, order[a], order[b]);
    lemma_key_order(keys[order[a]], keys[order[b]]);
}

/// A key that does not come after another does not begin with a greater part, and where the first
/// parts are equal the rest does not come after the other's rest.
pub proof fn lemma_not_after(left: Seq<PartView>, right: Seq<PartView>)
    requires
        left.len() > 0,
        right.len() > 0,
        !key_less(right, left),
    ensures
        !part_less(right[0], left[0]),
        left[0] == right[0] ==> !key_less(right.skip(1), left.skip(1)),
{
    lemma_part_order(left[0], right[0]);
}

// ---------------------------------------------------------------------------
// Grouping

/// Where a name first stands among the names, from `from` on.
pub open spec fn first_place(names: Seq<Seq<char>>, name: Seq<char>, from: int) -> int
    decreases names.len() - from,
{
    if from >= names.len() || names[from] == name {
        from
    } else {
        first_place(names, name, from + 1)
    }
}

/// The positions of the names with equal names brought together: the groups in the order in which
/// they are first seen, each in the order given.
pub open spec fn grouped_order(names: Seq<Seq<char>>) -> Seq<int> {
    sorted_order(
        names.map_values(
            |name: Seq<char>| seq![PartView::Number(first_place(names, name, 0))],
        ),
    )
}

fn find_first(names: &Vec<String>, name: &str) -> (place: usize)
    ensures
        place == first_place(views(names@), name@, 0),
{
    let ghost all = views(names@);
    let mut at: usize = 0;
    while at < names.len()
        invariant
            all == views(names@),
            all.len() == names@.len(),
            at <= names@.len(),
            first_place(all, name@, 0) == first_place(all, name@, at as int),
        decreases names@.len() - at,
    {
        assert(all[at as int] == names@[at as int]@);
        if same_text(names[at].as_str(), name) {
            return at;
        }
        at = at + 1;
    }
    at
}

/// The positions of the names with equal names brought together: the groups in the order in which
/// they are first seen, each in the order given.
pub fn group_order(names: &Vec<String>) -> (order: Vec<usize>)
    ensures
        indices(order@) == grouped_order(views(names@)),
        order@.len() == names@.len(),
        forall|k: int| 0 <= k < order@.len() ==> #[trigger] order@[k] < names@.len(),
{
    let ghost all = views(names@);
    let ghost key_list = all.map_values(
        |name: Seq<char>| seq![PartView::Number(first_place(all, name, 0))],
    );
    let mut keys: Vec<Vec<Part>> = Vec::new();
    for i in 0..names.len()
        invariant
            all == views(names@),
            all.len() == names@.len(),
            key_list == all.map_values(
                |name: Seq<char>| seq![PartView::Number(first_place(all, name, 0))],
            ),
            keys_view(keys@) == key_list.take(i as int),
    {
        let ghost before = keys@;
        assert(all[i as int] == names@[i as int]@);
        let mut key: Vec<Part> = Vec::new();
        key.push(Part::Number(find_first(names, names[i].as_str()) as i128));
        assert(key_view(key) =~= key_list[i as int]);
        keys.push(key);
        assert(keys_view(keys@) =~= keys_view(before).push(key_list[i as int]));
        assert(key_list.take(i + 1) =~= key_list.take(i as int).push(key_list[i as int]));
    }
    assert(key_list.take(names@.len() as int) =~= key_list);
    assert(keys@.len() == keys_view(keys@).len());
    sort_order(&keys)
}

proof fn lemma_first_place(names: Seq<Seq<char>>, at: int, from: int)
    requires
        0 <= from <= at < names.len(),
    ensures
        from <= first_place(names, names[at], from) <= at,
        names[first_place(names, names[at], from)] == names[at],
    decreases at - from,
{
    if names[from] != names[at] {
        lemma_first_place(names, at, from + 1);
    }
}

/// Grouping keeps every position once, keeps equal names in the order given, and brings them
/// together: what stands between two equal names is equal to them.
pub proof fn law_grouping_brings_equals_together(names: Seq<Seq<char>>)
    ensures
        grouped_order(names).len() == names.len(),
        forall|i: int| 0 <= i < names.len() ==> #[trigger] grouped_order(names).contains(i),
        forall|a: int, b: int|
            0 <= a < b < names.len() && names[#[trigger] grouped_order(names)[a]]
                == names[#[trigger] grouped_order(names)[b]] ==> grouped_order(names)[a]
                < grouped_order(names)[b],
        forall|a: int, b: int, c: int|
            0 <= a < b < c < names.len() && names[#[trigger] grouped_order(names)[a]]
                == names[#[trigger] grouped_order(names)[c]]
                ==> names[#[trigger] grouped_order(names)[b]] == names[grouped_order(names)[a]],
{
    let keys = names.map_values(
        |name: Seq<char>| seq![PartView::Number(first_place(names, name, 0))],
    );
    let order = grouped_order(names);
    lemma_sorted_order(keys);
    assert forall|a: int, b: int| 0 <= a < b < names.len() implies first_place(
        names,
        names[#[trigger] order[a]],
        0,
    ) <= first_place(names, names[#[trigger] order[b]], 0) by {
        assert(comes_before(keys, order[a], order[b]));
        let left = keys[order[a]];
        let right = keys[order[b]];
        assert(left[0] == PartView::Number(first_place(names, names[order[a]], 0)));
        assert(right[0] == PartView::Number(first_place(names, names[order[b]], 0)));
    }
    assert forall|a: int, b: int|
        0 <= a < b < names.len() && names[#[trigger] order[a]] == names[#[trigger] order[b]] implies
        order[a] < order[b] by {
        assert(comes_before(keys, order[a], order[b]));
        lemma_key_order(keys[order[a]], keys[order[b]]);
    }
    assert forall|a: int, b: int, c: int|
        0 <= a < b < c < names.len() && names[#[trigger] order[a]]
            == names[#[trigger] order[c]] implies names[#[trigger] order[b]] == names[order[a]] by {
        lemma_first_place(names, order[a], 0);
        lemma_first_place(names, order[b], 0);
        lemma_first_place(names, order[c], 0);
    }
}

/// The places of grouped names are places among the names.
pub proof fn lemma_grouped_places(names: Seq<Seq<char>>)
    ensures
        grouped_order(names).len() == names.len(),
        forall|k: int| 0 <= k < names.len() ==> 0 <= #[trigger] grouped_order(names)[k] < names.len(),
{
    lemma_sorted_order(
        names.map_values(
            |name: Seq<char>| seq![PartView::Number(first_place(names, name, 0))],
        ),
    );
}

} // verus!
