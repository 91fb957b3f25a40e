//! The hash tables of `rustc_hash`, seen through what they hold.
use rustc_hash::{FxHashMap, FxHashSet};
use vstd::prelude::*;

verus! {

/// The hasher behind every `FxHashMap` and `FxHashSet`.
#[verifier::external_type_specification]
#[verifier::external_body]
pub struct ExFxBuildHasher(rustc_hash::FxBuildHasher);

/// What a table of positions holds, by the characters of each key.
pub uninterp spec fn positions_held(table: FxHashMap<String, usize>) -> Map<Seq<char>, usize>;

/// `FxHashMap::default`: a table that holds nothing.
#[verifier::external_body]
pub(crate) fn positions_new() -> (table: FxHashMap<String, usize>)
    ensures
        positions_held(table).dom() == Set::<Seq<char>>::empty(),
{
    FxHashMap::default()
}

/// `FxHashMap::insert`: the key now maps to the value, and no other key changes.
#[verifier::external_body]
pub(crate) fn positions_insert(table: &mut FxHashMap<String, usize>, key: &str, value: usize)
    ensures
        positions_held(*final(table)) == positions_held(*old(table)).insert(key@, value),
{
    table.insert(key.to_string(), value);
}

/// `FxHashMap::get`: the value the key maps to, if the table holds the key.
#[verifier::external_body]
pub(crate) fn positions_get(table: &FxHashMap<String, usize>, key: &str) -> (found: Option<usize>)
    ensures
        match found {
            Some(value) => positions_held(*table).contains_key(key@)
                && positions_held(*table)[key@] == value,
            None => !positions_held(*table).contains_key(key@),
        },
{
    table.get(key).copied()
}

/// What a set of texts holds, by the characters of each member.
pub uninterp spec fn texts_held(set: FxHashSet<String>) -> Set<Seq<char>>;

/// `FxHashSet::default`: a set that holds nothing.
#[verifier::external_body]
pub(crate) fn texts_new() -> (set: FxHashSet<String>)
    ensures
        texts_held(set) == Set::<Seq<char>>::empty(),
{
    FxHashSet::default()
}

/// `FxHashSet::insert`: the text is now a member; the answer is whether it was not one before.
#[verifier::external_body]
pub(crate) fn texts_insert(set: &mut FxHashSet<String>, text: &str) -> (fresh: bool)
    ensures
        texts_held(*final(set)) == texts_held(*old(set)).insert(text@),
        fresh == !texts_held(*old(set)).contains(text@),
{
    set.insert(text.to_string())
}

/// `FxHashSet::contains`: whether the text is a member.
#[verifier::external_body]
pub(crate) fn texts_contains(set: &FxHashSet<String>, text: &str) -> (found: bool)
    ensures
        found == texts_held(*set).contains(text@),
{
    set.contains(text)
}

/// What a set of positions holds.
pub uninterp spec fn numbers_held(set: FxHashSet<usize>) -> Set<usize>;

/// `FxHashSet::default`: a set that holds nothing.
#[verifier::external_body]
pub(crate) fn numbers_new() -> (set: FxHashSet<usize>)
    ensures
        numbers_held(set) == Set::<usize>::empty(),
{
    FxHashSet::default()
}

/// `FxHashSet::insert`: the position is now a member; the answer is whether it was not one
/// before.
#[verifier::external_body]
pub(crate) fn numbers_insert(set: &mut FxHashSet<usize>, number: usize) -> (fresh: bool)
    ensures
        numbers_held(*final(set)) == numbers_held(*old(set)).insert(number),
        fresh == !numbers_held(*old(set)).contains(number),
{
    set.insert(number)
}

/// What a table of times holds, by the characters of each key.
pub uninterp spec fn times_held(table: FxHashMap<String, i64>) -> Map<Seq<char>, i64>;

/// `FxHashMap::default`: a table that holds nothing.
#[verifier::external_body]
pub(crate) fn times_new() -> (table: FxHashMap<String, i64>)
    ensures
        times_held(table).dom() == Set::<Seq<char>>::empty(),
{
    FxHashMap::default()
}

/// `FxHashMap::insert`: the key now maps to the time, and no other key changes.
#[verifier::external_body]
pub(crate) fn times_insert(table: &mut FxHashMap<String, i64>, key: &str, time: i64)
    ensures
        times_held(*final(table)) == times_held(*old(table)).insert(key@, time),
{
    table.insert(key.to_string(), time);
}

/// `FxHashMap::get`: the time the key maps to, if the table holds the key.
#[verifier::external_body]
pub(crate) fn times_get(table: &FxHashMap<String, i64>, key: &str) -> (found: Option<i64>)
    ensures
        match found {
            Some(time) => times_held(*table).contains_key(key@)
                && times_held(*table)[key@] == time,
            None => !times_held(*table).contains_key(key@),
        },
{
    table.get(key).copied()
}

/// `FxHashMap::remove`: the table no longer holds the key, and no other key changes.
#[verifier::external_body]
pub(crate) fn times_remove(table: &mut FxHashMap<String, i64>, key: &str)
    ensures
        times_held(*final(table)) == times_held(*old(table)).remove(key@),
{
    table.remove(key);
}

/// The line ranges a table of hunks holds for each file, in the order they were added.
pub uninterp spec fn hunks_held(table: FxHashMap<String, Vec<(u32, u32)>>) -> Map<
    Seq<char>,
    Seq<(u32, u32)>,
>;

/// `FxHashMap::default`: a table that holds nothing.
#[verifier::external_body]
pub(crate) fn hunks_new() -> (table: FxHashMap<String, Vec<(u32, u32)>>)
    ensures
        hunks_held(table).dom() == Set::<Seq<char>>::empty(),
{
    FxHashMap::default()
}

/// `FxHashMap::remove`: the ranges of the file, if the table held it, which it no longer does;
/// no other file changes.
#[verifier::external_body]
pub(crate) fn hunks_remove(table: &mut FxHashMap<String, Vec<(u32, u32)>>, file: &str) -> (held:
    Option<Vec<(u32, u32)>>)
    ensures
        hunks_held(*final(table)) == hunks_held(*old(table)).remove(file@),
        match held {
            Some(ranges) => hunks_held(*old(table)).contains_key(file@)
                && hunks_held(*old(table))[file@] == ranges@,
            None => !hunks_held(*old(table)).contains_key(file@),
        },
{
    table.remove(file)
}

/// `FxHashMap::insert`: the file now has these ranges, and no other file changes.
#[verifier::external_body]
pub(crate) fn hunks_insert(
    table: &mut FxHashMap<String, Vec<(u32, u32)>>,
    file: &str,
    ranges: Vec<(u32, u32)>,
)
    ensures
        hunks_held(*final(table)) == hunks_held(*old(table)).insert(file@, ranges@),
{
    table.insert(file.to_string(), ranges);
}

/// `FxHashMap::get`: the ranges of the file, if the table holds it.
#[verifier::external_body]
pub(crate) fn hunks_get<'a>(
    table: &'a FxHashMap<String, Vec<(u32, u32)>>,
    file: &str,
) -> (found: Option<&'a Vec<(u32, u32)>>)
    ensures
        match found {
            Some(ranges) => hunks_held(*table).contains_key(file@)
                && hunks_held(*table)[file@] == ranges@,
            None => !hunks_held(*table).contains_key(file@),
        },
{
    table.get(file)
}

} // verus!
