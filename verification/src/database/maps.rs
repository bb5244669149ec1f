//! The two concurrent hash maps of the database, `dashmap::DashMap`, with
//! what their methods do to the entries they hold.
use vstd::prelude::*;
use dashmap::DashMap;
use crate::database::store::{RedisObject, RedisValue};

verus! {

#[verifier::external_type_specification]
#[verifier::external_body]
#[verifier::reject_recursive_types(K)]
#[verifier::reject_recursive_types(V)]
#[verifier::reject_recursive_types(S)]
pub struct ExDashMap<K, V, S>(DashMap<K, V, S>);

/// The entries of the data map, keys and values taken by their views.
pub uninterp spec fn data_contents(m: DashMap<String, RedisObject>) -> Map<Seq<char>, RedisValue>;

/// The entries of the expiration map, keys taken by their characters.
pub uninterp spec fn expiry_contents(m: DashMap<String, u64>) -> Map<Seq<char>, u64>;

/// `DashMap::new`: an empty map.
#[verifier::external_body]
pub fn data_new() -> (r: DashMap<String, RedisObject>)
    ensures
        data_contents(r).dom() == Set::<Seq<char>>::empty(),
{
    DashMap::new()
}

/// `DashMap::insert`: the key now maps to the value.
#[verifier::external_body]
pub fn data_insert(m: &mut DashMap<String, RedisObject>, k: String, v: RedisObject)
    ensures
        data_contents(*final(m)) == data_contents(*old(m)).insert(k@, v.value()),
{
    m.insert(k, v);
}

/// `DashMap::remove`: the key is no longer in the map.
#[verifier::external_body]
pub fn data_remove(m: &mut DashMap<String, RedisObject>, k: &String)
    ensures
        data_contents(*final(m)) == data_contents(*old(m)).remove(k@),
{
    m.remove(k);
}

/// `DashMap::get`: a copy of the value the key maps to, if any.
#[verifier::external_body]
pub fn data_get(m: &DashMap<String, RedisObject>, k: &String) -> (r: Option<RedisObject>)
    ensures
        r is Some <==> data_contents(*m).contains_key(k@),
        r matches Some(v) ==> v.value() == data_contents(*m)[k@],
{
    m.get(k).map(|e| e.value().duplicate())
}

/// `DashMap::contains_key`.
#[verifier::external_body]
pub fn data_contains(m: &DashMap<String, RedisObject>, k: &String) -> (r: bool)
    ensures
        r == data_contents(*m).contains_key(k@),
{
    m.contains_key(k)
}

/// `DashMap::iter`: a copy of every entry, each key once, in the map's own
/// order (which is left open).
#[verifier::external_body]
pub fn data_entries(m: &DashMap<String, RedisObject>) -> (r: Vec<(String, RedisObject)>)
    ensures
        forall|i: int, j: int| 0 <= i < j < r@.len() ==> r@[i].0@ != r@[j].0@,
        forall|i: int|
            0 <= i < r@.len() ==> data_contents(*m).contains_key(#[trigger] r@[i].0@)
                && data_contents(*m)[r@[i].0@] == r@[i].1.value(),
        forall|k: Seq<char>|
            data_contents(*m).contains_key(k) ==> exists|i: int| 0 <= i < r@.len() && #[trigger] r@[i].0@ == k,
{
    m.iter().map(|e| (e.key().clone(), e.value().duplicate())).collect()
}

/// `DashMap::new`: an empty map.
#[verifier::external_body]
pub fn expiry_new() -> (r: DashMap<String, u64>)
    ensures
        expiry_contents(r).dom() == Set::<Seq<char>>::empty(),
{
    DashMap::new()
}

/// `DashMap::insert`: the key now maps to the value.
#[verifier::external_body]
pub fn expiry_insert(m: &mut DashMap<String, u64>, k: String, v: u64)
    ensures
        expiry_contents(*final(m)) == expiry_contents(*old(m)).insert(k@, v),
{
    m.insert(k, v);
}

/// `DashMap::remove`: the key is no longer in the map.
#[verifier::external_body]
pub fn expiry_remove(m: &mut DashMap<String, u64>, k: &String)
    ensures
        expiry_contents(*final(m)) == expiry_contents(*old(m)).remove(k@),
{
    m.remove(k);
}

/// `DashMap::get`: the value the key maps to, if any.
#[verifier::external_body]
pub fn expiry_get(m: &DashMap<String, u64>, k: &String) -> (r: Option<u64>)
    ensures
        r is Some <==> expiry_contents(*m).contains_key(k@),
        r matches Some(v) ==> v == expiry_contents(*m)[k@],
{
    m.get(k).map(|e| *e.value())
}

/// `DashMap::contains_key`.
#[verifier::external_body]
pub fn expiry_contains(m: &DashMap<String, u64>, k: &String) -> (r: bool)
    ensures
        r == expiry_contents(*m).contains_key(k@),
{
    m.contains_key(k)
}

/// `DashMap::len`: the number of entries.
#[verifier::external_body]
pub fn expiry_len(m: &DashMap<String, u64>) -> (r: usize)
    ensures
        r == expiry_contents(*m).len(),
{
    m.len()
}

/// `DashMap::iter`: every entry, each key once, in the map's own order
/// (which is left open).
#[verifier::external_body]
pub fn expiry_entries(m: &DashMap<String, u64>) -> (r: Vec<(String, u64)>)
    ensures
        forall|i: int, j: int| 0 <= i < j < r@.len() ==> r@[i].0@ != r@[j].0@,
        forall|i: int|
            0 <= i < r@.len() ==> expiry_contents(*m).contains_key(#[trigger] r@[i].0@)
                && expiry_contents(*m)[r@[i].0@] == r@[i].1,
        forall|k: Seq<char>|
            expiry_contents(*m).contains_key(k) ==> exists|i: int| 0 <= i < r@.len() && #[trigger] r@[i].0@ == k,
{
    m.iter().map(|e| (e.key().clone(), *e.value())).collect()
}

/// `DashMap::iter`: the key of every entry, each once, in the map's own
/// order (which is left open).
#[verifier::external_body]
pub fn expiry_keys(m: &DashMap<String, u64>) -> (r: Vec<String>)
    ensures
        forall|i: int, j: int| 0 <= i < j < r@.len() ==> r@[i]@ != r@[j]@,
        forall|i: int| 0 <= i < r@.len() ==> expiry_contents(*m).contains_key(#[trigger] r@[i]@),
        forall|k: Seq<char>|
            expiry_contents(*m).contains_key(k) ==> exists|i: int| 0 <= i < r@.len() && #[trigger] r@[i]@ == k,
{
    m.iter().map(|e| e.key().clone()).collect()
}

} // verus!
