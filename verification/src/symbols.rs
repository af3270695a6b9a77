//! Tables of numbered texts.
use std::collections::BTreeMap;
use vstd::prelude::*;

verus! {

/// Symbols by their texts.
pub open spec fn symbols_view(m: Map<u32, String>) -> Map<u32, Seq<char>> {
    m.map_values(|s: String| s@)
}

/// An empty table.
pub fn no_symbols() -> (r: BTreeMap<u32, String>)
    ensures
        symbols_view(r@) == Map::<u32, Seq<char>>::empty(),
{
    let r: BTreeMap<u32, String> = BTreeMap::new();
    assert(symbols_view(r@) =~= Map::empty());
    r
}

/// Adds a symbol, or replaces the one with its number; tells whether the number
/// was new.
pub fn add_symbol(m: &mut BTreeMap<u32, String>, id: u32, symbol: String) -> (fresh: bool)
    ensures
        symbols_view(final(m)@) == symbols_view(old(m)@).insert(id, symbol@),
        fresh == !symbols_view(old(m)@).contains_key(id),
{
    broadcast use vstd::laws_cmp::group_laws_cmp;
    broadcast use vstd::std_specs::btree::group_btree_axioms;

    let ghost before = m@;
    let ghost name = symbol@;
    let previous: Option<String> = m.insert(id, symbol);
    assert(symbols_view(m@) =~= symbols_view(before).insert(id, name));
    previous.is_none()
}

/// The symbol with a number.
pub fn symbol_at(m: &BTreeMap<u32, String>, id: u32) -> (r: Option<&String>)
    ensures
        match r {
            Some(s) => symbols_view(m@).contains_key(id) && symbols_view(m@)[id] == s@,
            None => !symbols_view(m@).contains_key(id),
        },
{
    broadcast use vstd::laws_cmp::group_laws_cmp;
    broadcast use vstd::std_specs::btree::group_btree_axioms;

    m.get(&id)
}

/// How many symbols a table holds.
pub fn symbol_count(m: &BTreeMap<u32, String>) -> (r: usize)
    ensures
        r == symbols_view(m@).len(),
        symbols_view(m@).dom().finite(),
{
    broadcast use vstd::laws_cmp::group_laws_cmp;
    broadcast use vstd::std_specs::btree::group_btree_axioms;

    assert(symbols_view(m@).dom() =~= m@.dom());
    m.len()
}

/// An empty table of numbers.
pub fn no_places() -> (r: BTreeMap<u32, usize>)
    ensures
        r@ == Map::<u32, usize>::empty(),
{
    BTreeMap::new()
}

/// Sets the number that stands for a key.
pub fn set_place(m: &mut BTreeMap<u32, usize>, key: u32, place: usize)
    ensures
        final(m)@ == old(m)@.insert(key, place),
{
    broadcast use vstd::laws_cmp::group_laws_cmp;
    broadcast use vstd::std_specs::btree::group_btree_axioms;

    m.insert(key, place);
}

/// The number that stands for a key.
pub fn place_of(m: &BTreeMap<u32, usize>, key: u32) -> (r: Option<usize>)
    ensures
        match r {
            Some(place) => m@.contains_key(key) && m@[key] == place,
            None => !m@.contains_key(key),
        },
{
    broadcast use vstd::laws_cmp::group_laws_cmp;
    broadcast use vstd::std_specs::btree::group_btree_axioms;

    match m.get(&key) {
        Some(place) => Some(*place),
        None => None,
    }
}

} // verus!
