//! Texts numbered in order of first appearance.
use crate::chars::{copy, views};
use crate::fx::{positions_get, positions_held, positions_insert, positions_new};
use rustc_hash::FxHashMap;
use vstd::prelude::*;

verus! {

/// The place, from `from` on, at which the key stands among the keys.
pub open spec fn key_at(keys: Seq<Seq<char>>, key: Seq<char>, from: int) -> Option<int>
    decreases keys.len() - from,
{
    if from < 0 || from >= keys.len() {
        None
    } else if keys[from] == key {
        Some(from)
    } else {
        key_at(keys, key, from + 1)
    }
}

pub proof fn lemma_key_at(keys: Seq<Seq<char>>, key: Seq<char>, from: int)
    requires
        0 <= from,
    ensures
        match key_at(keys, key, from) {
            Some(at) => from <= at < keys.len() && keys[at] == key && forall|k: int|
                from <= k < at ==> #[trigger] keys[k] != key,
            None => forall|k: int| from <= k < keys.len() ==> #[trigger] keys[k] != key,
        },
    decreases keys.len() - from,
{
    if from < keys.len() && keys[from] != key {
        lemma_key_at(keys, key, from + 1);
    }
}

pub proof fn lemma_key_at_is(keys: Seq<Seq<char>>, key: Seq<char>, from: int, at: int)
    requires
        0 <= from <= at < keys.len(),
        keys[at] == key,
        forall|k: int| from <= k < at ==> #[trigger] keys[k] != key,
    ensures
        key_at(keys, key, from) == Some(at),
    decreases at - from,
{
    if from < at {
        lemma_key_at_is(keys, key, from + 1, at);
    }
}

/// The distinct ones of the first `count` texts, in order of first appearance.
pub open spec fn distinct(texts: Seq<Seq<char>>, count: int) -> Seq<Seq<char>>
    decreases count,
{
    if count <= 0 {
        Seq::empty()
    } else {
        let before = distinct(texts, count - 1);
        if key_at(before, texts[count - 1], 0) is Some {
            before
        } else {
            before.push(texts[count - 1])
        }
    }
}

/// The distinct texts are the texts, each once.
pub proof fn lemma_distinct(texts: Seq<Seq<char>>, count: int)
    requires
        0 <= count <= texts.len(),
    ensures
        forall|i: int, j: int|
            0 <= i < j < distinct(texts, count).len() ==> #[trigger] distinct(texts, count)[i]
                != #[trigger] distinct(texts, count)[j],
        forall|text: Seq<char>|
            #[trigger] key_at(distinct(texts, count), text, 0) is Some <==> exists|k: int|
                0 <= k < count && #[trigger] texts[k] == text,
    decreases count,
{
    if count > 0 {
        lemma_distinct(texts, count - 1);
        let before = distinct(texts, count - 1);
        let after = distinct(texts, count);
        let last = texts[count - 1];
        lemma_key_at(before, last, 0);
        assert forall|text: Seq<char>|
            #[trigger] key_at(after, text, 0) is Some <==> exists|k: int|
                0 <= k < count && #[trigger] texts[k] == text by {
            lemma_key_at(before, text, 0);
            lemma_key_at(after, text, 0);
            if key_at(before, text, 0) is Some {
                let at = key_at(before, text, 0)->0;
                assert(after[at] == text);
                let k = choose|k: int| 0 <= k < count - 1 && #[trigger] texts[k] == text;
                assert(texts[k] == text);
            } else if key_at(after, text, 0) is Some {
                let at = key_at(after, text, 0)->0;
                if at < before.len() {
                    assert(before[at] == text);
                }
                assert(texts[count - 1] == text);
            } else {
                if exists|k: int| 0 <= k < count && #[trigger] texts[k] == text {
                    let k = choose|k: int| 0 <= k < count && #[trigger] texts[k] == text;
                    if k < count - 1 {
                        assert(texts[k] == text);
                    } else {
                        assert(after[after.len() - 1] == text || key_at(before, text, 0) is Some);
                    }
                }
            }
        }
    }
}

/// Distinct texts, each with its number in order of first appearance, found by hashing.
pub struct KeyIndex {
    keys: Vec<String>,
    table: FxHashMap<String, usize>,
}

impl View for KeyIndex {
    type V = Seq<Seq<char>>;

    closed spec fn view(&self) -> Seq<Seq<char>> {
        views(self.keys@)
    }
}

impl KeyIndex {
    /// The table holds the place of each key.
    pub closed spec fn wf(self) -> bool {
        &&& forall|key: Seq<char>|
            #[trigger] positions_held(self.table).contains_key(key) <==> key_at(self@, key, 0)
                is Some
        &&& forall|key: Seq<char>|
            #[trigger] positions_held(self.table).contains_key(key) ==> key_at(self@, key, 0)
                == Some(positions_held(self.table)[key] as int)
    }

    pub fn new() -> (index: KeyIndex)
        ensures
            index.wf(),
            index@ == Seq::<Seq<char>>::empty(),
    {
        let index = KeyIndex { keys: Vec::new(), table: positions_new() };
        assert(index@ =~= Seq::empty());
        index
    }

    pub fn len(&self) -> (count: usize)
        ensures
            count == self@.len(),
    {
        assert(self@.len() == self.keys@.len());
        self.keys.len()
    }

    /// The place of a key, where it has one.
    pub fn find(&self, key: &str) -> (found: Option<usize>)
        requires
            self.wf(),
        ensures
            match found {
                Some(at) => key_at(self@, key@, 0) == Some(at as int) && at < self@.len(),
                None => key_at(self@, key@, 0) is None,
            },
    {
        proof {
            lemma_key_at(self@, key@, 0);
        }
        positions_get(&self.table, key)
    }

    /// A key that has no place put behind the others.
    pub fn add(&mut self, key: &str)
        requires
            old(self).wf(),
            key_at(old(self)@, key@, 0) is None,
        ensures
            final(self).wf(),
            final(self)@ == old(self)@.push(key@),
    {
        let ghost before = self@;
        let place: usize = self.keys.len();
        assert(before.len() == place);
        positions_insert(&mut self.table, key, place);
        self.keys.push(copy(key));
        let ghost after = self@;
        proof {
            assert(after =~= before.push(key@));
            lemma_key_at(before, key@, 0);
            lemma_key_at_is(after, key@, 0, place as int);
            assert forall|other: Seq<char>| other != key@ implies key_at(after, other, 0) == key_at(
                before,
                other,
                0,
            ) by {
                lemma_key_at(before, other, 0);
                lemma_key_at(after, other, 0);
                if let Some(k) = key_at(before, other, 0) {
                    lemma_key_at_is(after, other, 0, k);
                } else if let Some(k) = key_at(after, other, 0) {
                    assert(before[k] == other);
                }
            }
        }
    }

    /// The key at a place.
    pub fn key(&self, at: usize) -> (key: &str)
        requires
            at < self@.len(),
        ensures
            key@ == self@[at as int],
    {
        assert(self@.len() == self.keys@.len());
        self.keys[at].as_str()
    }
}

/// The last place, among the first `count` keys, at which this one stands.
pub open spec fn last_at(keys: Seq<Seq<char>>, key: Seq<char>, count: int) -> Option<int>
    decreases count,
{
    if count <= 0 {
        None
    } else if keys[count - 1] == key {
        Some(count - 1)
    } else {
        last_at(keys, key, count - 1)
    }
}

pub proof fn lemma_last_at(keys: Seq<Seq<char>>, key: Seq<char>, count: int)
    requires
        count <= keys.len(),
    ensures
        match last_at(keys, key, count) {
            Some(at) => 0 <= at < count && keys[at] == key,
            None => forall|k: int| 0 <= k < count ==> #[trigger] keys[k] != key,
        },
    decreases count,
{
    if count > 0 && keys[count - 1] != key {
        lemma_last_at(keys, key, count - 1);
    }
}

proof fn lemma_last_at_prefix(
    keys: Seq<Seq<char>>,
    longer: Seq<Seq<char>>,
    key: Seq<char>,
    count: int,
)
    requires
        count <= keys.len() <= longer.len(),
        forall|k: int| 0 <= k < count ==> keys[k] == longer[k],
    ensures
        last_at(keys, key, count) == last_at(longer, key, count),
    decreases count,
{
    if count > 0 {
        lemma_last_at_prefix(keys, longer, key, count - 1);
    }
}

/// Keys in the order given, each found by hashing at the last place it stands.
pub struct PlaceIndex {
    table: FxHashMap<String, usize>,
    count: usize,
    keys: Ghost<Seq<Seq<char>>>,
}

impl View for PlaceIndex {
    type V = Seq<Seq<char>>;

    closed spec fn view(&self) -> Seq<Seq<char>> {
        self.keys@
    }
}

impl PlaceIndex {
    /// The table holds the last place of each key.
    pub closed spec fn wf(self) -> bool {
        &&& self.count == self.keys@.len()
        &&& forall|key: Seq<char>|
            #[trigger] positions_held(self.table).contains_key(key) <==> last_at(
                self.keys@,
                key,
                self.keys@.len() as int,
            ) is Some
        &&& forall|key: Seq<char>|
            #[trigger] positions_held(self.table).contains_key(key) ==> last_at(
                self.keys@,
                key,
                self.keys@.len() as int,
            ) == Some(positions_held(self.table)[key] as int)
    }

    pub fn new() -> (index: PlaceIndex)
        ensures
            index.wf(),
            index@ == Seq::<Seq<char>>::empty(),
    {
        PlaceIndex { table: positions_new(), count: 0, keys: Ghost(Seq::empty()) }
    }

    /// A key put behind the others.
    pub fn push(&mut self, key: &str)
        requires
            old(self).wf(),
            old(self)@.len() < usize::MAX,
        ensures
            final(self).wf(),
            final(self)@ == old(self)@.push(key@),
    {
        let ghost before = self.keys@;
        positions_insert(&mut self.table, key, self.count);
        self.count = self.count + 1;
        self.keys = Ghost(before.push(key@));
        proof {
            assert forall|other: Seq<char>| last_at(self.keys@, other, before.len() as int)
                == last_at(before, other, before.len() as int) by {
                lemma_last_at_prefix(before, self.keys@, other, before.len() as int);
            }
        }
    }

    /// The last place of a key, where it has one.
    pub fn get(&self, key: &str) -> (found: Option<usize>)
        requires
            self.wf(),
        ensures
            match found {
                Some(at) => last_at(self@, key@, self@.len() as int) == Some(at as int) && at
                    < self@.len() && self@[at as int] == key@,
                None => last_at(self@, key@, self@.len() as int) is None,
            },
    {
        proof {
            lemma_last_at(self@, key@, self@.len() as int);
        }
        positions_get(&self.table, key)
    }
}

/// The keys of the pairs.
pub open spec fn first_texts(pairs: Seq<(String, String)>) -> Seq<Seq<char>> {
    pairs.map_values(|pair: (String, String)| pair.0@)
}

/// The text that the last pair with this key gives.
pub open spec fn text_for(pairs: Seq<(String, String)>, key: Seq<char>) -> Option<Seq<char>> {
    match last_at(first_texts(pairs), key, pairs.len() as int) {
        Some(at) => Some(pairs[at].1@),
        None => None,
    }
}

/// Pairs of texts, found by the first of each; a later pair takes the place of an earlier one with
/// the same key.
pub struct TextIndex<'a> {
    pairs: &'a [(String, String)],
    places: PlaceIndex,
}

impl<'a> TextIndex<'a> {
    pub closed spec fn pairs(self) -> Seq<(String, String)> {
        self.pairs@
    }

    pub closed spec fn wf(self) -> bool {
        self.places.wf() && self.places@ == first_texts(self.pairs@)
    }

    pub fn new(pairs: &'a [(String, String)]) -> (index: TextIndex<'a>)
        ensures
            index.wf(),
            index.pairs() == pairs@,
    {
        let ghost keys = first_texts(pairs@);
        let mut places = PlaceIndex::new();
        assert(places@ =~= keys.take(0));
        for i in 0..pairs.len()
            invariant
                keys == first_texts(pairs@),
                places.wf(),
                places@ == keys.take(i as int),
        {
            assert(pairs.len() == keys.len());
            places.push(pairs[i].0.as_str());
            assert(keys.take(i + 1) =~= keys.take(i as int).push(keys[i as int]));
        }
        assert(keys.take(pairs@.len() as int) =~= keys);
        TextIndex { pairs, places }
    }

    /// The text for a key.
    pub fn get(&self, key: &str) -> (found: Option<&'a str>)
        requires
            self.wf(),
        ensures
            match found {
                Some(text) => text_for(self.pairs(), key@) == Some(text@),
                None => text_for(self.pairs(), key@) is None,
            },
    {
        match self.places.get(key) {
            Some(at) => Some(self.pairs[at].1.as_str()),
            None => None,
        }
    }
}

} // verus!
