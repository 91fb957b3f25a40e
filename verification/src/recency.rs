//! Recency as a tie-breaker inside a relevance band.
//!
//! The files a session has surfaced are remembered, with a cooldown so a burst of touches
//! to one file cannot pin it to the top of every later query. Recency is never a sort key of
//! its own: it enters as a bonus capped against the median per-token weight of a query.
use crate::chars::{copy, views};
use crate::fx::{times_get, times_held, times_insert, times_new, times_remove};
use crate::order::{
    comes_before, indices, key_less, key_view, keys_view, law_arranging_sorts, lemma_before_total,
    lemma_not_after, lemma_sorted_order, part_less, sort_order, sorted_order, Part, PartView,
};
use rustc_hash::FxHashMap;
use std::collections::VecDeque;
use vstd::prelude::*;

verus! {

/// The most files a session remembers; the oldest entry is evicted, so the memory is constant
/// regardless of session length.
pub const SESSION_FILES_MAX: usize = 256;

/// The per-file cooldown, in seconds. A second touch inside this window does not refresh the
/// file's recency.
pub const SESSION_COOLDOWN_SECS: i64 = 300;

/// The commit-history window, in days. A file whose last commit predates this contributes
/// nothing.
pub const HISTORY_WINDOW_DAYS: i64 = 7;

/// The seconds in one day.
pub const DAY_SECS: i64 = 86_400;

/// The difference of two times, held to the range of an `i64`.
pub open spec fn elapsed_spec(later: int, earlier: int) -> int {
    if later - earlier > i64::MAX {
        i64::MAX as int
    } else if later - earlier < i64::MIN {
        i64::MIN as int
    } else {
        later - earlier
    }
}

pub fn elapsed(later: i64, earlier: i64) -> (difference: i64)
    ensures
        difference == elapsed_spec(later as int, earlier as int),
{
    let wide: i128 = later as i128 - earlier as i128;
    if wide > i64::MAX as i128 {
        i64::MAX
    } else if wide < i64::MIN as i128 {
        i64::MIN
    } else {
        wide as i64
    }
}

/// The files this session has surfaced, with the time each was last counted.
///
/// Bounded and in memory only: a session's attention is not a fact about the codebase.
#[derive(Debug)]
pub struct SessionFiles {
    order: VecDeque<String>,
    touched_at: FxHashMap<String, i64>,
}

/// A session memory as a value: the files, longest remembered first, and the time of each.
pub struct SessionView {
    pub order: Seq<Seq<char>>,
    pub times: Map<Seq<char>, i64>,
}

impl View for SessionFiles {
    type V = SessionView;

    closed spec fn view(&self) -> SessionView {
        SessionView { order: views(self.order@), times: times_held(self.touched_at) }
    }
}

/// A touch of this file at this time counts: it is not remembered, or its cooldown is over.
pub open spec fn touch_counts(session: SessionView, key: Seq<char>, now: int) -> bool {
    !session.times.contains_key(key) || elapsed_spec(now, session.times[key] as int)
        >= SESSION_COOLDOWN_SECS
}

/// The session after a touch that counts: the file carries this time, and where it was not
/// remembered it is now the newest, at the cost of the oldest when the memory is full.
pub open spec fn touched(session: SessionView, key: Seq<char>, now: i64) -> SessionView {
    if session.times.contains_key(key) {
        SessionView { order: session.order, times: session.times.insert(key, now) }
    } else if session.order.len() < SESSION_FILES_MAX {
        SessionView { order: session.order.push(key), times: session.times.insert(key, now) }
    } else {
        SessionView {
            order: session.order.push(key).skip(1),
            times: session.times.insert(key, now).remove(session.order[0]),
        }
    }
}

impl Default for SessionFiles {
    /// An empty session memory.
    fn default() -> (session: SessionFiles)
        ensures
            session.wf(),
            session@.order == Seq::<Seq<char>>::empty(),
            session@.times =~= Map::<Seq<char>, i64>::empty(),
    {
        SessionFiles::new()
    }
}

impl SessionFiles {
    /// The times are those of the remembered files, each remembered once, and no more of them
    /// than the memory holds.
    pub open spec fn wf(self) -> bool {
        &&& self@.order.len() <= SESSION_FILES_MAX
        &&& self@.order.no_duplicates()
        &&& forall|key: Seq<char>|
            self@.times.contains_key(key) <==> #[trigger] self@.order.contains(key)
    }

    /// An empty session memory.
    pub fn new() -> (session: SessionFiles)
        ensures
            session.wf(),
            session@.order == Seq::<Seq<char>>::empty(),
            session@.times =~= Map::<Seq<char>, i64>::empty(),
    {
        let session = SessionFiles { order: VecDeque::new(), touched_at: times_new() };
        assert(session@.order =~= Seq::empty());
        session
    }

    /// A file recorded as surfaced at `now_secs`, returning whether the touch counted. A touch
    /// inside [`SESSION_COOLDOWN_SECS`] of the previous one is ignored.
    pub fn touch(&mut self, key: &str, now_secs: i64) -> (counted: bool)
        requires
            old(self).wf(),
        ensures
            final(self).wf(),
            counted == touch_counts(old(self)@, key@, now_secs as int),
            final(self)@ == (if counted {
                touched(old(self)@, key@, now_secs)
            } else {
                old(self)@
            }),
    {
        let ghost before = self@;
        let known: bool = match times_get(&self.touched_at, key) {
            Some(previous) => {
                if elapsed(now_secs, previous) < SESSION_COOLDOWN_SECS {
                    return false;
                }
                true
            },
            None => false,
        };
        times_insert(&mut self.touched_at, key, now_secs);
        if !known {
            let ghost order_before = self.order@;
            self.order.push_back(copy(key));
            assert(views(self.order@) =~= views(order_before).push(key@));
            if self.order.len() > SESSION_FILES_MAX {
                let ghost order_full = self.order@;
                assert(self.order@.len() > 0);
                match self.order.pop_front() {
                    Some(evicted) => {
                        assert(evicted@ == before.order[0]) by {
                            assert(views(order_full)[0] == before.order[0]);
                        }
                        assert(views(self.order@) =~= views(order_full).skip(1));
                        times_remove(&mut self.touched_at, evicted.as_str());
                    },
                    None => {},
                }
                proof {
                    let after = self@;
                    let grown = before.order.push(key@);
                    assert(after.order == grown.skip(1));
                    assert(!before.order.contains(key@));
                    assert forall|k: Seq<char>|
                        after.times.contains_key(k) <==> #[trigger] after.order.contains(k) by {
                        if after.order.contains(k) {
                            let i = choose|i: int| 0 <= i < after.order.len() && after.order[i] == k;
                            assert(grown[i + 1] == k);
                            if i + 1 < before.order.len() {
                                assert(before.order[i + 1] == k);
                                assert(before.order.contains(k));
                                assert(k != before.order[0]);
                            } else {
                                assert(before.order.contains(before.order[0]));
                            }
                        }
                        if after.times.contains_key(k) {
                            if k == key@ {
                                assert(after.order[after.order.len() - 1] == k);
                            } else {
                                assert(before.order.contains(k));
                                let i = choose|i: int|
                                    0 <= i < before.order.len() && before.order[i] == k;
                                assert(i > 0);
                                assert(after.order[i - 1] == k);
                            }
                        }
                    }
                    assert(after.order.no_duplicates()) by {
                        assert forall|i: int, j: int|
                            0 <= i < after.order.len() && 0 <= j < after.order.len() && i
                                != j implies after.order[i] != after.order[j] by {
                            assert(after.order[i] == grown[i + 1]);
                            assert(after.order[j] == grown[j + 1]);
                            if i + 1 == before.order.len() {
                                assert(before.order.contains(before.order[j + 1]));
                            }
                            if j + 1 == before.order.len() {
                                assert(before.order.contains(before.order[i + 1]));
                            }
                        }
                    }
                }
            } else {
                proof {
                    let after = self@;
                    assert(after.order == before.order.push(key@));
                    assert(!before.order.contains(key@));
                    assert forall|k: Seq<char>|
                        after.times.contains_key(k) <==> #[trigger] after.order.contains(k) by {
                        if after.order.contains(k) && k != key@ {
                            let i = choose|i: int| 0 <= i < after.order.len() && after.order[i] == k;
                            assert(before.order[i] == k);
                            assert(before.order.contains(k));
                        }
                        if after.times.contains_key(k) {
                            if k == key@ {
                                assert(after.order[after.order.len() - 1] == k);
                            } else {
                                assert(before.order.contains(k));
                                let i = choose|i: int|
                                    0 <= i < before.order.len() && before.order[i] == k;
                                assert(after.order[i] == k);
                            }
                        }
                    }
                    assert(after.order.no_duplicates()) by {
                        assert forall|i: int, j: int|
                            0 <= i < after.order.len() && 0 <= j < after.order.len() && i
                                != j implies after.order[i] != after.order[j] by {
                            if i < before.order.len() {
                                assert(before.order.contains(before.order[i]));
                            }
                            if j < before.order.len() {
                                assert(before.order.contains(before.order[j]));
                            }
                        }
                    }
                }
            }
        } else {
            proof {
                assert(before.order.contains(key@));
                assert(self@.times =~= before.times.insert(key@, now_secs));
            }
        }
        true
    }

    /// The seconds since a file was last counted, never negative; `None` when it is not
    /// remembered.
    pub fn age(&self, key: &str, now_secs: i64) -> (age: Option<i64>)
        ensures
            match age {
                Some(age) => self@.times.contains_key(key@) && age == (if elapsed_spec(
                    now_secs as int,
                    self@.times[key@] as int,
                ) > 0 {
                    elapsed_spec(now_secs as int, self@.times[key@] as int)
                } else {
                    0
                }),
                None => !self@.times.contains_key(key@),
            },
    {
        match times_get(&self.touched_at, key) {
            Some(touched) => {
                let age: i64 = elapsed(now_secs, touched);
                Some(if age > 0 { age } else { 0 })
            },
            None => None,
        }
    }

    /// The number of files remembered.
    pub fn len(&self) -> (count: usize)
        ensures
            count == self@.order.len(),
    {
        assert(self@.order.len() == self.order@.len());
        self.order.len()
    }

    /// Whether nothing has been surfaced yet.
    pub fn is_empty(&self) -> (empty: bool)
        ensures
            empty == (self@.order.len() == 0),
    {
        assert(self@.order.len() == self.order@.len());
        self.order.len() == 0
    }
}

/// A file touched again inside its cooldown leaves the session as it was; one touched at the
/// end of it counts again.
pub proof fn law_cooldown(session: SessionView, key: Seq<char>, first: i64, second: i64)
    requires
        touch_counts(session, key, first as int),
        session.order.len() <= SESSION_FILES_MAX,
        session.order.no_duplicates(),
        forall|k: Seq<char>| session.times.contains_key(k) <==> #[trigger] session.order.contains(k),
        first <= second,
    ensures
        touch_counts(touched(session, key, first), key, second as int) <==> second - first
            >= SESSION_COOLDOWN_SECS,
{
    let after = touched(session, key, first);
    if !session.times.contains_key(key) && session.order.len() >= SESSION_FILES_MAX {
        assert(session.order.contains(session.order[0]));
    }
    assert(after.times.contains_key(key) && after.times[key] == first);
}

/// The epoch-second age of a file's last commit, where it lies in the history window.
pub open spec fn commit_age_spec(last_commit: Option<i64>, now: int) -> Option<int> {
    match last_commit {
        Some(last) => {
            let age = elapsed_spec(now, last as int);
            if 0 <= age <= HISTORY_WINDOW_DAYS * DAY_SECS {
                Some(age)
            } else {
                None
            }
        },
        None => None,
    }
}

/// The seconds since a file's most recent commit. `None` outside [`HISTORY_WINDOW_DAYS`], and
/// when no commit is recorded.
pub fn commit_age(last_commit_secs: Option<i64>, now_secs: i64) -> (age: Option<i64>)
    ensures
        match age {
            Some(age) => commit_age_spec(last_commit_secs, now_secs as int) == Some(age as int),
            None => commit_age_spec(last_commit_secs, now_secs as int) is None,
        },
{
    match last_commit_secs {
        Some(last) => {
            let age: i64 = elapsed(now_secs, last);
            if age < 0 || age > 604_800 {
                None
            } else {
                Some(age)
            }
        },
        None => None,
    }
}

/// The numbers as sort keys.
pub open spec fn number_keys(weights: Seq<u64>) -> Seq<Seq<PartView>> {
    weights.map_values(|weight: u64| seq![PartView::Number(weight as int)])
}

/// The numbers in ascending order.
pub open spec fn ascending(weights: Seq<u64>) -> Seq<u64> {
    sorted_order(number_keys(weights)).map_values(|k: int| weights[k])
}

/// The middle number in ascending order, or half the sum of the two in the middle, rounded
/// down; zero where there are none.
pub open spec fn median_spec(weights: Seq<u64>) -> int {
    let sorted = ascending(weights);
    let middle = (sorted.len() / 2) as int;
    if sorted.len() == 0 {
        0
    } else if sorted.len() % 2 == 1 {
        sorted[middle] as int
    } else {
        (sorted[middle - 1] + sorted[middle]) / 2
    }
}

proof fn lemma_permuted(items: Seq<u64>, order: Seq<int>)
    requires
        order.len() == items.len(),
        order.no_duplicates(),
        forall|k: int| 0 <= k < order.len() ==> 0 <= #[trigger] order[k] < items.len(),
        forall|i: int| 0 <= i < items.len() ==> #[trigger] order.contains(i),
    ensures
        order.map_values(|k: int| items[k]).to_multiset() == items.to_multiset(),
    decreases items.len(),
{
    broadcast use vstd::seq_lib::group_to_multiset_ensures;

    let placed = order.map_values(|k: int| items[k]);
    if items.len() == 0 {
        assert(placed =~= items);
    } else {
        let last = items.len() - 1;
        assert(order.contains(last));
        let p = choose|p: int| 0 <= p < order.len() && order[p] == last;
        let fewer = order.remove(p);
        let rest = items.drop_last();
        assert forall|k: int| 0 <= k < fewer.len() implies 0 <= #[trigger] fewer[k] < rest.len() by {
            let q = if k < p { k } else { k + 1 };
            assert(fewer[k] == order[q]);
        }
        assert forall|i: int| 0 <= i < rest.len() implies #[trigger] fewer.contains(i) by {
            assert(order.contains(i));
            let q = choose|q: int| 0 <= q < order.len() && order[q] == i;
            assert(fewer[if q < p { q } else { q - 1 }] == i);
        }
        lemma_permuted(rest, fewer);
        let fewer_placed = fewer.map_values(|k: int| rest[k]);
        assert(fewer_placed =~= placed.remove(p));
        assert(items =~= rest.push(items[last]));
        assert(placed.remove(p).to_multiset() =~= placed.to_multiset().remove(placed[p]));
        assert(placed.to_multiset().contains(placed[p]));
        assert(placed.to_multiset() =~= fewer_placed.to_multiset().insert(placed[p]));
    }
}

proof fn lemma_ascending(weights: Seq<u64>)
    ensures
        ascending(weights).to_multiset() == weights.to_multiset(),
        forall|i: int, j: int|
            0 <= i <= j < ascending(weights).len() ==> ascending(weights)[i] <= ascending(
                weights,
            )[j],
{
    let keys = number_keys(weights);
    let order = sorted_order(keys);
    lemma_sorted_order(keys);
    assert forall|a: int, b: int| 0 <= a < order.len() && 0 <= b < order.len() && a != b implies
        order[a] != order[b] by {
        if a < b {
            lemma_before_total(keys, order[a], order[b]);
        } else {
            lemma_before_total(keys, order[b], order[a]);
        }
    }
    lemma_permuted(weights, order);
    let sorted = ascending(weights);
    assert forall|i: int, j: int| 0 <= i <= j < sorted.len() implies sorted[i] <= sorted[j] by {
        if i < j {
            let left = keys[order[i]];
            let right = keys[order[j]];
            assert(comes_before(keys, order[i], order[j]));
            assert(left == seq![PartView::Number(weights[order[i]] as int)]);
            assert(right == seq![PartView::Number(weights[order[j]] as int)]);
            reveal_with_fuel(key_less, 2);
            assert(left[0] == right[0] || part_less(left[0], right[0]));
        }
    }
}

/// The median of a set of per-token relevance weights, zero when empty, leaving the set in
/// ascending order. The median rather than the mean, so one very rare token does not set the
/// recency ceiling for the whole query.
pub fn median_weight(weights: &mut [u64]) -> (median: u64)
    ensures
        median == median_spec(old(weights)@),
        final(weights)@ == ascending(old(weights)@),
        final(weights)@.to_multiset() == old(weights)@.to_multiset(),
        forall|i: int, j: int|
            0 <= i <= j < final(weights)@.len() ==> final(weights)@[i] <= final(weights)@[j],
{
    let ghost given = weights@;
    let mut keys: Vec<Vec<Part>> = Vec::new();
    for i in 0..weights.len()
        invariant
            weights@ == given,
            keys_view(keys@) == number_keys(given.take(i as int)),
    {
        let ghost before = keys@;
        let mut key: Vec<Part> = Vec::new();
        key.push(Part::Number(weights[i] as i128));
        assert(key_view(key) =~= seq![PartView::Number(given[i as int] as int)]);
        keys.push(key);
        assert(keys_view(keys@) =~= keys_view(before).push(
            seq![PartView::Number(given[i as int] as int)],
        ));
        assert(number_keys(given.take(i + 1)) =~= number_keys(given.take(i as int)).push(
            seq![PartView::Number(given[i as int] as int)],
        ));
    }
    assert(given.take(given.len() as int) =~= given);
    let order = sort_order(&keys);
    assert(keys@.len() == keys_view(keys@).len());
    let count: usize = order.len();
    let ghost sorted = ascending(given);
    assert(sorted.len() == count) by {
        assert(indices(order@).len() == count);
    }
    let mut placed: Vec<u64> = Vec::new();
    for i in 0..count
        invariant
            weights@ == given,
            count == order@.len(),
            sorted == ascending(given),
            sorted.len() == count,
            indices(order@) == sorted_order(number_keys(given)),
            forall|k: int| 0 <= k < order@.len() ==> #[trigger] order@[k] < given.len(),
            placed@ == sorted.take(i as int),
    {
        assert(order@[i as int] < given.len());
        assert(sorted[i as int] == given[indices(order@)[i as int]]);
        placed.push(weights[order[i]]);
        assert(placed@ =~= sorted.take(i + 1));
    }
    for i in 0..count
        invariant
            count == sorted.len(),
            weights@.len() == count,
            placed@ == sorted.take(count as int),
            forall|k: int| 0 <= k < i ==> #[trigger] weights@[k] == sorted[k],
    {
        weights[i] = placed[i];
    }
    assert(weights@ =~= sorted);
    proof {
        lemma_ascending(given);
    }
    if count == 0 {
        return 0;
    }
    let middle: usize = count / 2;
    if count % 2 == 1 {
        return weights[middle];
    }
    let low: u64 = weights[middle - 1];
    let high: u64 = weights[middle];
    ((low as u128 + high as u128) / 2) as u64
}

/// The median lies between the smallest and the largest weight.
pub proof fn law_median_lies_within(weights: Seq<u64>, low: u64, high: u64)
    requires
        weights.len() > 0,
        forall|i: int| 0 <= i < weights.len() ==> low <= #[trigger] weights[i] <= high,
    ensures
        low <= median_spec(weights) <= high,
{
    let keys = number_keys(weights);
    lemma_sorted_order(keys);
    let order = sorted_order(keys);
    let sorted = ascending(weights);
    assert forall|k: int| 0 <= k < sorted.len() implies low <= #[trigger] sorted[k] <= high by {
        assert(0 <= order[k] < weights.len());
    }
}

/// A touch that counts is remembered at its time. What was remembered before stays so, but for the
/// oldest file where the memory was full and the file is new.
pub proof fn law_a_touch_is_remembered(session: SessionView, key: Seq<char>, now: i64)
    requires
        0 < session.order.len() <= SESSION_FILES_MAX,
        session.order.no_duplicates(),
        forall|k: Seq<char>| session.times.contains_key(k) <==> #[trigger] session.order.contains(k),
    ensures
        ({
            let after = touched(session, key, now);
            let dropped = !session.times.contains_key(key) && session.order.len()
                == SESSION_FILES_MAX;
            &&& after.times.contains_key(key)
            &&& after.times[key] == now
            &&& forall|k: Seq<char>| #[trigger]
                session.times.contains_key(k) && k != key && !(dropped && k == session.order[0])
                    ==> after.times.contains_key(k) && after.times[k] == session.times[k]
            &&& dropped ==> !after.times.contains_key(session.order[0])
            &&& forall|k: Seq<char>| #[trigger]
                after.times.contains_key(k) ==> k == key || session.times.contains_key(k)
            &&& !session.times.contains_key(key) ==> after.order.last() == key
        }),
{
    assert(session.order.contains(session.order[0]));
}

/// A commit has an age where it lies within the window of history up to now, and that is how long
/// ago it was; a commit outside it, or in the future, has none.
pub proof fn law_a_commit_ages_within_the_window(last: i64, now: int)
    ensures
        0 <= now - last <= HISTORY_WINDOW_DAYS * DAY_SECS ==> commit_age_spec(Some(last), now)
            == Some(now - last),
        now < last ==> commit_age_spec(Some(last), now) is None,
        now - last > HISTORY_WINDOW_DAYS * DAY_SECS ==> commit_age_spec(Some(last), now) is None,
        commit_age_spec(None, now) is None,
{
}

/// The median has as many numbers on either side: in ascending order those of the lower half are no
/// greater and those of the upper half no smaller, and where there is a middle number it is that.
pub proof fn law_the_median_is_in_the_middle(weights: Seq<u64>, at: int)
    requires
        0 <= at < weights.len(),
    ensures
        ascending(weights).len() == weights.len(),
        ascending(weights).to_multiset() == weights.to_multiset(),
        at + 1 < weights.len() ==> ascending(weights)[at] <= ascending(weights)[at + 1],
        2 * at + 1 <= weights.len() ==> ascending(weights)[at] <= median_spec(weights),
        2 * at + 1 >= weights.len() ==> ascending(weights)[at] >= median_spec(weights),
        2 * at + 1 == weights.len() ==> ascending(weights)[at] == median_spec(weights),
{
    let keys = number_keys(weights);
    lemma_sorted_order(keys);
    let order = sorted_order(keys);
    assert forall|a: int, b: int| 0 <= a < order.len() && 0 <= b < order.len() && a != b implies order[a]
        != order[b] by {
        if a < b {
            law_arranging_sorts(keys, a, b);
        } else {
            law_arranging_sorts(keys, b, a);
        }
    }
    lemma_permuted(weights, order);
    let sorted = ascending(weights);
    assert forall|a: int, b: int| 0 <= a < b < sorted.len() implies #[trigger] sorted[a]
        <= #[trigger] sorted[b] by {
        law_arranging_sorts(keys, a, b);
        lemma_not_after(keys[order[a]], keys[order[b]]);
    }
}

} // verus!
