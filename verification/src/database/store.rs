//! The key-value store.
use vstd::prelude::*;
use dashmap::DashMap;
use crate::database::maps::{
    data_contains, data_contents, data_entries, data_get, data_insert, data_new, data_remove,
    expiry_contains, expiry_contents, expiry_entries, expiry_get, expiry_insert, expiry_keys,
    expiry_len, expiry_new, expiry_remove,
};
use crate::utils::clock::Clock;
use crate::utils::text::str_eq;
use crate::rdb::writer::{not_before, rdb_image};
use rand::Rng;

verus! {

/// A stored value.
#[derive(Debug, PartialEq)]
pub enum RedisObject {
    String(String),
    List(Vec<RedisObject>),
}

/// A stored value with its strings taken by their characters.
pub enum RedisValue {
    Text(Seq<char>),
    List(Seq<RedisValue>),
}

impl RedisObject {
    pub open spec fn value(self) -> RedisValue
        decreases self,
    {
        match self {
            RedisObject::String(s) => RedisValue::Text(s@),
            RedisObject::List(v) => RedisValue::List(object_values(v@)),
        }
    }

    /// A copy of this value.
    pub fn duplicate(&self) -> (r: RedisObject)
        ensures
            r.value() == self.value(),
        decreases self,
    {
        match self {
            RedisObject::String(s) => RedisObject::String(s.clone()),
            RedisObject::List(items) => {
                proof {
                    assert(decreases_to!(self => self->List_0));
                    assert forall|j: int| 0 <= j < items@.len() implies decreases_to!(self => #[trigger] items@[j]) by {
                        assert(decreases_to!(items => items[j]));
                    }
                    lemma_object_values(items@);
                }
                let mut out: Vec<RedisObject> = Vec::new();
                let mut i: usize = 0;
                while i < items.len()
                    invariant
                        i <= items@.len(),
                        out@.len() == i,
                        forall|j: int| 0 <= j < i ==> #[trigger] out@[j].value() == items@[j].value(),
                        forall|j: int| 0 <= j < items@.len() ==> decreases_to!(self => #[trigger] items@[j]),
                    decreases items@.len() - i,
                {
                    let c = items[i].duplicate();
                    out.push(c);
                    i = i + 1;
                }
                proof {
                    lemma_object_values(out@);
                    assert(object_values(out@) =~= object_values(items@));
                }
                RedisObject::List(out)
            },
        }
    }
}

/// The values of a sequence of objects, element by element.
pub open spec fn object_values(s: Seq<RedisObject>) -> Seq<RedisValue>
    decreases s,
{
    if s.len() == 0 {
        Seq::empty()
    } else {
        object_values(s.subrange(0, s.len() - 1)).push(s[s.len() - 1].value())
    }
}

pub proof fn lemma_object_values(s: Seq<RedisObject>)
    ensures
        object_values(s).len() == s.len(),
        forall|i: int| 0 <= i < s.len() ==> #[trigger] object_values(s)[i] == s[i].value(),
    decreases s.len(),
{
    if s.len() > 0 {
        lemma_object_values(s.subrange(0, s.len() - 1));
    }
}


/// Why a database operation failed.
#[derive(Debug, Clone, Copy, PartialEq, Eq, Structural)]
pub enum DbError {
    /// A list operation on a key that holds a string.
    ExpectedListGotString,
    /// A range read on a key that holds a string.
    ExpectedList,
    /// An expiry for a key that is not there.
    EntryNotFound,
    /// An expiry option other than `NX`, `XX`, `GT` or `LT`.
    InvalidExpireOption,
}

pub open spec fn db_error_text(e: DbError) -> Seq<char> {
    match e {
        DbError::ExpectedListGotString => "Wrong data type. Expected List, got String."@,
        DbError::ExpectedList => "Wrong type. Expected list."@,
        DbError::EntryNotFound => "Entry not found."@,
        DbError::InvalidExpireOption => "Invalid option for expire command."@,
    }
}

impl DbError {
    /// The message of this error.
    pub fn message(&self) -> (r: String)
        ensures
            r@ == db_error_text(*self),
    {
        let m = match self {
            DbError::ExpectedListGotString => "Wrong data type. Expected List, got String.",
            DbError::ExpectedList => "Wrong type. Expected list.",
            DbError::EntryNotFound => "Entry not found.",
            DbError::InvalidExpireOption => "Invalid option for expire command.",
        };
        String::from_str(m)
    }
}

/// The store: values by key, expiry times (milliseconds since the Unix
/// epoch) by key, and the clock it reads them against, which never goes
/// back.
pub struct DB {
    data: DashMap<String, RedisObject>,
    expirations: DashMap<String, u64>,
    clock: Clock,
}

/// The contents of a store.
#[verifier::ext_equal]
pub struct DbView {
    pub data: Map<Seq<char>, RedisValue>,
    pub expirations: Map<Seq<char>, u64>,
}

impl View for DB {
    type V = DbView;

    closed spec fn view(&self) -> DbView {
        DbView { data: data_contents(self.data), expirations: expiry_contents(self.expirations) }
    }
}

impl DB {
    /// Both maps hold finitely many entries.
    pub closed spec fn wf(&self) -> bool {
        &&& data_contents(self.data).dom().finite()
        &&& expiry_contents(self.expirations).dom().finite()
    }

    /// The time now on the store's clock: the wall-clock time at which the
    /// store was made, moved on by the monotonic time since.
    pub fn now(&self) -> u64 {
        self.clock.now()
    }

    /// A well-formed store has finitely many entries and expiry times.
    pub proof fn lemma_wf_finite(&self)
        requires
            self.wf(),
        ensures
            self@.data.dom().finite(),
            self@.expirations.dom().finite(),
    {
    }
}

/// What a read of a missing or expired key gives.
pub open spec fn nil() -> RedisValue {
    RedisValue::Text("nil"@)
}

/// The key has an expiry time that lies before `now`.
pub open spec fn expired_at(db: DbView, k: Seq<char>, now: u64) -> bool {
    db.expirations.contains_key(k) && db.expirations[k] < now
}

/// The store with `k` gone from both maps.
pub open spec fn without_key(db: DbView, k: Seq<char>) -> DbView {
    DbView { data: db.data.remove(k), expirations: db.expirations.remove(k) }
}

/// `SET`: the key holds `v`, with the expiry `e` or none.
pub open spec fn spec_set(db: DbView, k: Seq<char>, v: RedisValue, e: Option<u64>) -> DbView {
    DbView {
        data: db.data.insert(k, v),
        expirations: match e {
            Some(t) => db.expirations.insert(k, t),
            None => db.expirations.remove(k),
        },
    }
}

/// `GET` at time `now`: an expired key is dropped and reads as `nil`; a
/// missing key reads as `nil`.
pub open spec fn spec_get(db: DbView, k: Seq<char>, now: u64) -> (DbView, RedisValue) {
    if expired_at(db, k, now) {
        (without_key(db, k), nil())
    } else if db.data.contains_key(k) {
        (db, db.data[k])
    } else {
        (db, nil())
    }
}

/// `LPUSH` (`front`) or `RPUSH`: the values go before or after the list at
/// `k`, which is made when missing.
pub open spec fn spec_push(db: DbView, k: Seq<char>, vals: Seq<RedisValue>, front: bool) -> Result<
    DbView,
    DbError,
> {
    if !db.data.contains_key(k) {
        Ok(DbView { data: db.data.insert(k, RedisValue::List(vals)), ..db })
    } else {
        match db.data[k] {
            RedisValue::List(l) => Ok(
                DbView {
                    data: db.data.insert(k, RedisValue::List(if front { vals + l } else { l + vals })),
                    ..db
                },
            ),
            RedisValue::Text(_) => Err(DbError::ExpectedListGotString),
        }
    }
}


pub open spec fn min_int(a: int, b: int) -> int {
    if a <= b { a } else { b }
}

/// The first index of `LRANGE start stop` on a list of length `n`: a
/// negative start counts from the end, and one still below 0 is 0.
pub open spec fn range_first(start: i32, n: nat) -> int {
    if start < 0 {
        if start + n < 0 { 0 } else { start + n }
    } else {
        start as int
    }
}

/// The last index of `LRANGE start stop` on a list of length `n`: a
/// negative stop counts from the end; one past the end is the last item.
pub open spec fn range_last(stop: i32, n: nat) -> int {
    if stop < 0 {
        stop + n
    } else if stop >= n {
        n - 1
    } else {
        stop as int
    }
}

/// The items of `l` whose index lies in `[start, stop]`, as `LRANGE` reads
/// them; empty when the first index lies after the last.
pub open spec fn list_range(l: Seq<RedisValue>, start: i32, stop: i32) -> Seq<RedisValue> {
    let a = range_first(start, l.len());
    let b = range_last(stop, l.len());
    if a <= b {
        l.subrange(a, b + 1)
    } else {
        Seq::empty()
    }
}

/// `LRANGE` at time `now`: an expired key is dropped and reads as `nil`,
/// as does a missing key; a key that holds a string is an error.
pub open spec fn spec_lrange(db: DbView, k: Seq<char>, start: i32, stop: i32, now: u64) -> (
    DbView,
    Result<RedisValue, DbError>,
) {
    if expired_at(db, k, now) {
        (without_key(db, k), Ok(nil()))
    } else if !db.data.contains_key(k) {
        (db, Ok(nil()))
    } else {
        match db.data[k] {
            RedisValue::List(l) => (db, Ok(RedisValue::List(list_range(l, start, stop)))),
            RedisValue::Text(_) => (db, Err(DbError::ExpectedList)),
        }
    }
}

/// `EXPIRE`: sets the key's expiry to `at`, subject to the option: `NX`
/// only when it has none, `XX` only when it has one, `GT` / `LT` only when
/// `at` is later / earlier than the one it has.
pub open spec fn spec_expire(db: DbView, k: Seq<char>, at: u64, option: Option<Seq<char>>) -> Result<
    DbView,
    DbError,
> {
    if !db.data.contains_key(k) {
        Err(DbError::EntryNotFound)
    } else {
        let has = db.expirations.contains_key(k);
        let update: Result<bool, DbError> = match option {
            None => Ok(true),
            Some(o) => if o == "NX"@ {
                Ok(!has)
            } else if o == "XX"@ {
                Ok(has)
            } else if o == "GT"@ {
                Ok(has && at > db.expirations[k])
            } else if o == "LT"@ {
                Ok(has && at < db.expirations[k])
            } else {
                Err(DbError::InvalidExpireOption)
            },
        };
        match update {
            Ok(true) => Ok(DbView { expirations: db.expirations.insert(k, at), ..db }),
            Ok(false) => Ok(db),
            Err(e) => Err(e),
        }
    }
}

/// The map built by inserting the pairs in order (a later key wins).
pub open spec fn map_of<K, V>(s: Seq<(K, V)>) -> Map<K, V>
    decreases s.len(),
{
    if s.len() == 0 {
        Map::empty()
    } else {
        map_of(s.drop_last()).insert(s.last().0, s.last().1)
    }
}

pub open spec fn entry_views(s: Seq<(String, RedisObject)>) -> Seq<(Seq<char>, RedisValue)> {
    s.map_values(|e: (String, RedisObject)| (e.0@, e.1.value()))
}

pub open spec fn expiry_views(s: Seq<(String, u64)>) -> Seq<(Seq<char>, u64)> {
    s.map_values(|e: (String, u64)| (e.0@, e.1))
}

pub proof fn lemma_object_values_concat(a: Seq<RedisObject>, b: Seq<RedisObject>)
    ensures
        object_values(a + b) == object_values(a) + object_values(b),
{
    lemma_object_values(a);
    lemma_object_values(b);
    lemma_object_values(a + b);
    assert(object_values(a + b) =~= object_values(a) + object_values(b));
}

/// Copies of the items of `list` that `list_range` selects.
fn range_of(list: &Vec<RedisObject>, start: i32, stop: i32) -> (r: Vec<RedisObject>)
    ensures
        object_values(r@) == list_range(object_values(list@), start, stop),
{
    proof {
        lemma_object_values(list@);
    }
    let n = list.len();
    let len: i128 = n as i128;
    let first: i128 = if start < 0 {
        if start as i128 + len < 0 { 0 } else { start as i128 + len }
    } else {
        start as i128
    };
    let last: i128 = if stop < 0 {
        stop as i128 + len
    } else if stop as i128 >= len {
        len - 1
    } else {
        stop as i128
    };
    let mut out: Vec<RedisObject> = Vec::new();
    if first > last {
        proof {
            assert(object_values(out@) =~= list_range(object_values(list@), start, stop));
        }
        return out;
    }
    let lo = first as usize;
    let hi = (last + 1) as usize;
    let mut i = lo;
    while i < hi
        invariant
            lo <= i <= hi <= n == list@.len(),
            out@.len() == i - lo,
            forall|j: int| 0 <= j < out@.len() ==> #[trigger] out@[j].value() == list@[lo + j].value(),
        decreases hi - i,
    {
        out.push(list[i].duplicate());
        i = i + 1;
    }
    proof {
        lemma_object_values(out@);
        assert(object_values(out@) =~= list_range(object_values(list@), start, stop));
    }
    out
}

/// `s` lists the entries of `m`, each key once, in some order.
pub open spec fn enumerates<K, V>(s: Seq<(K, V)>, m: Map<K, V>) -> bool {
    &&& forall|i: int, j: int| 0 <= i < j < s.len() ==> s[i].0 != s[j].0
    &&& forall|i: int| 0 <= i < s.len() ==> m.contains_key(#[trigger] s[i].0) && m[s[i].0] == s[i].1
    &&& forall|k: K| m.contains_key(k) ==> exists|i: int| 0 <= i < s.len() && #[trigger] s[i].0 == k
}

/// `bytes` is a snapshot of `db` taken at time `now`: its entries and its
/// expiry times, each listed once in some order, in the snapshot format; an
/// expiry time already past is written as `now`.
pub open spec fn is_snapshot_of(bytes: Seq<u8>, db: DbView, now: u64) -> bool {
    exists|d: Seq<(Seq<char>, RedisValue)>, e: Seq<(Seq<char>, u64)>|
        enumerates(d, db.data) && enumerates(e, db.expirations) && bytes == #[trigger] rdb_image(d, not_before(e, now))
}

/// The keys of `keys` checked in order at time `now`: each that has
/// expired is dropped; gives the store after and how many were dropped.
pub open spec fn purge(db: DbView, keys: Seq<Seq<char>>, now: u64) -> (DbView, nat)
    decreases keys.len(),
{
    if keys.len() == 0 {
        (db, 0)
    } else {
        let (d1, c1) = purge(db, keys.drop_last(), now);
        let k = keys.last();
        if expired_at(d1, k, now) {
            (without_key(d1, k), c1 + 1)
        } else {
            (d1, c1)
        }
    }
}

/// `ks` lists each key of `m` once, in some order.
pub open spec fn key_order<V>(ks: Seq<Seq<char>>, m: Map<Seq<char>, V>) -> bool {
    &&& forall|i: int, j: int| 0 <= i < j < ks.len() ==> ks[i] != ks[j]
    &&& forall|i: int| 0 <= i < ks.len() ==> m.contains_key(#[trigger] ks[i])
    &&& forall|k: Seq<char>| m.contains_key(k) ==> ks.contains(k)
}

/// The keys a round checks: up to 20, from position `skip` on.
pub open spec fn sample_of(ks: Seq<Seq<char>>, skip: int) -> Seq<Seq<char>> {
    if 0 <= skip <= ks.len() {
        ks.subrange(skip, min_int(skip + 20, ks.len() as int))
    } else {
        Seq::empty()
    }
}

/// Another pass follows when more than a quarter of the keys checked had
/// expired (`expired / max(checked, 1) > 0.25`).
pub open spec fn repeat_cycle(expired: nat, checked: nat) -> bool {
    4 * expired > if checked == 0 { 1 } else { checked }
}

/// One round of active expiry takes `db` to `after` and answers `again`:
/// at some time `now`, with the keys that have an expiry in some order
/// `ks`, from a position `skip` before their count, as
/// `expiration_round_at` does.
pub open spec fn round_step(db: DbView, after: DbView, again: bool) -> bool {
    exists|ks: Seq<Seq<char>>, skip: int, now: u64|
        {
            &&& key_order(ks, db.expirations)
            &&& 0 <= skip < db.expirations.len()
            &&& after == #[trigger] purge(db, sample_of(ks, skip), now).0
            &&& again == repeat_cycle(purge(db, sample_of(ks, skip), now).1, sample_of(ks, skip).len())
        }
}

/// `states` are the stores of a run of active expiry, first to last: each
/// round starts on a store with at least one expiry; every round but the
/// last asks for another; the last either does not, or leaves no expiry;
/// a run without rounds starts on a store with no expiry.
pub open spec fn expiry_run(states: Seq<DbView>) -> bool {
    &&& states.len() >= 1
    &&& forall|i: int|
        0 <= i < states.len() - 2 ==> #[trigger] states[i].expirations.len() > 0 && round_step(
            states[i],
            states[i + 1],
            true,
        )
    &&& states.len() >= 2 ==> ({
        let a = states[states.len() - 2];
        let b = states[states.len() - 1];
        &&& a.expirations.len() > 0
        &&& round_step(a, b, false) || (round_step(a, b, true) && b.expirations.len() == 0)
    })
    &&& states.len() == 1 ==> states[0].expirations.len() == 0
}

/// What one purge pass does: keys only go away, from both maps, each after
/// its expiry; every key checked that had expired is gone; the count is the
/// number of expiries dropped.
pub proof fn lemma_purge(db: DbView, keys: Seq<Seq<char>>, now: u64)
    requires
        db.expirations.dom().finite(),
    ensures
        ({
            let (d, c) = purge(db, keys, now);
            &&& d.expirations.dom().finite()
            &&& d.expirations.len() + c == db.expirations.len()
            &&& forall|k: Seq<char>| #[trigger] d.data.contains_key(k) ==> db.data.contains_key(k) && d.data[k] == db.data[k]
            &&& forall|k: Seq<char>| #[trigger] d.expirations.contains_key(k) ==> db.expirations.contains_key(k) && d.expirations[k] == db.expirations[k]
            &&& forall|k: Seq<char>| #[trigger] db.data.contains_key(k) && !db.expirations.contains_key(k) ==> d.data.contains_key(k)
            &&& forall|k: Seq<char>| #[trigger] db.expirations.contains_key(k) && !d.expirations.contains_key(k) ==> !d.data.contains_key(k)
            &&& forall|k: Seq<char>| #[trigger] db.expirations.contains_key(k) && !d.expirations.contains_key(k) ==> db.expirations[k] < now
            &&& forall|i: int| 0 <= i < keys.len() && #[trigger] expired_at(db, keys[i], now) ==> !d.expirations.contains_key(keys[i])
                && !d.data.contains_key(keys[i])
        }),
    decreases keys.len(),
{
    if keys.len() > 0 {
        let init = keys.drop_last();
        lemma_purge(db, init, now);
        let (d1, c1) = purge(db, init, now);
        let (d, c) = purge(db, keys, now);
        assert forall|i: int| 0 <= i < keys.len() && #[trigger] expired_at(db, keys[i], now) implies !d.expirations.contains_key(keys[i])
            && !d.data.contains_key(keys[i]) by {
            if i < keys.len() - 1 {
                assert(keys[i] == init[i]);
            }
        }
    }
}

/// `rand::rng().random::<u64>()`: a random number; nothing is promised of
/// it.
#[verifier::external_body]
fn random_u64() -> u64 {
    rand::rng().random::<u64>()
}

/// Copies of the keys `keys[skip..skip + take]`, cut at the end of `keys`.
fn window(keys: &Vec<String>, skip: usize, take: usize) -> (r: Vec<String>)
    ensures
        r@.len() <= take,
        skip <= keys@.len() ==> r@.map_values(|k: String| k@) == keys@.map_values(|k: String| k@).subrange(
            skip as int,
            min_int(skip + take, keys@.len() as int),
        ),
        skip > keys@.len() ==> r@.len() == 0,
{
    let mut out: Vec<String> = Vec::new();
    if skip > keys.len() {
        return out;
    }
    let end = if take <= keys.len() - skip { skip + take } else { keys.len() };
    let mut i = skip;
    while i < end
        invariant
            skip <= i <= end <= keys@.len(),
            end - skip <= take,
            out@.len() == i - skip,
            forall|j: int| 0 <= j < out@.len() ==> #[trigger] out@[j]@ == keys@[skip + j]@,
        decreases end - i,
    {
        out.push(keys[i].clone());
        i = i + 1;
    }
    assert(out@.map_values(|k: String| k@) =~= keys@.map_values(|k: String| k@).subrange(
        skip as int,
        min_int(skip + take, keys@.len() as int),
    ));
    out
}

fn nil_object() -> (r: RedisObject)
    ensures
        r.value() == nil(),
{
    RedisObject::String(String::from_str("nil"))
}

impl DB {
    /// An empty store.
    pub fn new_in_memory() -> (r: DB)
        ensures
            r.wf(),
            r@.data.dom() == Set::<Seq<char>>::empty(),
            r@.expirations.dom() == Set::<Seq<char>>::empty(),
    {
        DB { data: data_new(), expirations: expiry_new(), clock: Clock::start() }
    }

    /// A store filled with the given entries and expiry times, inserted in
    /// order.
    pub fn new(data: Vec<(String, RedisObject)>, expirations: Vec<(String, u64)>) -> (r: DB)
        ensures
            r.wf(),
            r@.data == map_of(entry_views(data@)),
            r@.expirations == map_of(expiry_views(expirations@)),
    {
        let mut d = data_new();
        let mut e = expiry_new();
        assert(data_contents(d) =~= map_of(entry_views(data@.subrange(0, 0))));
        let mut i: usize = 0;
        while i < data.len()
            invariant
                i <= data@.len(),
                data_contents(d) == map_of(entry_views(data@.subrange(0, i as int))),
                data_contents(d).dom().finite(),
            decreases data@.len() - i,
        {
            let ghost before = data@.subrange(0, i as int);
            let k = data[i].0.clone();
            let v = data[i].1.duplicate();
            data_insert(&mut d, k, v);
            proof {
                let after = data@.subrange(0, i + 1);
                assert(entry_views(after).drop_last() =~= entry_views(before));
            }
            i = i + 1;
        }
        assert(data@.subrange(0, data@.len() as int) =~= data@);
        assert(expiry_contents(e) =~= map_of(expiry_views(expirations@.subrange(0, 0))));
        let mut j: usize = 0;
        while j < expirations.len()
            invariant
                j <= expirations@.len(),
                expiry_contents(e) == map_of(expiry_views(expirations@.subrange(0, j as int))),
                expiry_contents(e).dom().finite(),
            decreases expirations@.len() - j,
        {
            let ghost before = expirations@.subrange(0, j as int);
            let k = expirations[j].0.clone();
            expiry_insert(&mut e, k, expirations[j].1);
            proof {
                let after = expirations@.subrange(0, j + 1);
                assert(expiry_views(after).drop_last() =~= expiry_views(before));
            }
            j = j + 1;
        }
        assert(expirations@.subrange(0, expirations@.len() as int) =~= expirations@);
        DB { data: d, expirations: e, clock: Clock::start() }
    }

    /// Stores `val` at `key`, with the expiry `expires_at` or none.
    pub fn set(&mut self, key: String, val: RedisObject, expires_at: Option<u64>) -> (r: Result<(), DbError>)
        ensures
            r is Ok,
            final(self)@ == spec_set(old(self)@, key@, val.value(), expires_at),
            old(self).wf() ==> final(self).wf(),
    {
        let ghost k = key@;
        let ghost v = val.value();
        expiry_remove(&mut self.expirations, &key);
        let key2 = key.clone();
        data_insert(&mut self.data, key2, val);
        match expires_at {
            Some(exp) => {
                expiry_insert(&mut self.expirations, key, exp);
            },
            None => {},
        }
        assert(self@ =~~= spec_set(old(self)@, k, v, expires_at));
        Ok(())
    }

    /// Whether `key` has an expiry time before `now`.
    fn is_expired(&self, key: &String, now: u64) -> (r: bool)
        ensures
            r == expired_at(self@, key@, now),
    {
        match expiry_get(&self.expirations, key) {
            Some(at) => at < now,
            None => false,
        }
    }

    /// Drops `key` from both maps.
    fn forget(&mut self, key: &String)
        ensures
            final(self)@ == without_key(old(self)@, key@),
            old(self).wf() ==> final(self).wf(),
    {
        data_remove(&mut self.data, key);
        expiry_remove(&mut self.expirations, key);
        assert(self@ =~~= without_key(old(self)@, key@));
    }

    /// The value at `key` at time `now` (`nil` when missing or expired; an
    /// expired key is dropped).
    pub fn get_at(&mut self, key: String, now: u64) -> (r: Result<RedisObject, DbError>)
        ensures
            r matches Ok(v) && final(self)@ == spec_get(old(self)@, key@, now).0 && v.value()
                == spec_get(old(self)@, key@, now).1,
            old(self).wf() ==> final(self).wf(),
    {
        if let Some(_exp) = expiry_get(&self.expirations, &key) {
            if self.is_expired(&key, now) {
                self.forget(&key);
                return Ok(nil_object());
            }
        }
        match data_get(&self.data, &key) {
            Some(ro) => Ok(ro),
            None => Ok(nil_object()),
        }
    }

    /// The value at `key` now, by the store's clock.
    pub fn get(&mut self, key: String) -> (r: Result<RedisObject, DbError>)
        ensures
            exists|now: u64|
                r matches Ok(v) && final(self)@ == #[trigger] spec_get(old(self)@, key@, now).0
                    && v.value() == spec_get(old(self)@, key@, now).1,
            old(self).wf() ==> final(self).wf(),
    {
        let now = self.clock.now();
        self.get_at(key, now)
    }

    /// Removes `key` and its expiry.
    pub fn delete(&mut self, key: String) -> (r: Result<(), DbError>)
        ensures
            r is Ok,
            final(self)@ == without_key(old(self)@, key@),
            old(self).wf() ==> final(self).wf(),
    {
        self.forget(&key);
        Ok(())
    }

    fn push(&mut self, key: String, values: Vec<RedisObject>, front: bool) -> (r: Result<(), DbError>)
        ensures
            match spec_push(old(self)@, key@, object_values(values@), front) {
                Ok(db) => r is Ok && final(self)@ == db,
                Err(e) => r == Err::<(), DbError>(e) && final(self)@ == old(self)@,
            },
            old(self).wf() ==> final(self).wf(),
    {
        let ghost vals = object_values(values@);
        match data_get(&self.data, &key) {
            None => {
                data_insert(&mut self.data, key, RedisObject::List(values));
                assert(self@ =~~= spec_push(old(self)@, key@, vals, front).unwrap());
                Ok(())
            },
            Some(RedisObject::List(list)) => {
                let ghost vs = values@;
                let ghost ls = list@;
                let mut joined: Vec<RedisObject> = Vec::new();
                let mut values = values;
                let mut list = list;
                if front {
                    joined.append(&mut values);
                    joined.append(&mut list);
                } else {
                    joined.append(&mut list);
                    joined.append(&mut values);
                }
                proof {
                    if front {
                        assert(joined@ =~= vs + ls);
                        lemma_object_values_concat(vs, ls);
                    } else {
                        assert(joined@ =~= ls + vs);
                        lemma_object_values_concat(ls, vs);
                    }
                }
                let k2 = key;
                data_insert(&mut self.data, k2, RedisObject::List(joined));
                assert(self@ =~~= spec_push(old(self)@, key@, vals, front).unwrap());
                Ok(())
            },
            Some(RedisObject::String(_)) => Err(DbError::ExpectedListGotString),
        }
    }

    /// Puts `values` before the list at `key` (made when missing).
    pub fn lpush(&mut self, key: String, values: Vec<RedisObject>) -> (r: Result<(), DbError>)
        ensures
            match spec_push(old(self)@, key@, object_values(values@), true) {
                Ok(db) => r is Ok && final(self)@ == db,
                Err(e) => r == Err::<(), DbError>(e) && final(self)@ == old(self)@,
            },
            old(self).wf() ==> final(self).wf(),
    {
        self.push(key, values, true)
    }

    /// Puts `values` after the list at `key` (made when missing).
    pub fn rpush(&mut self, key: String, values: Vec<RedisObject>) -> (r: Result<(), DbError>)
        ensures
            match spec_push(old(self)@, key@, object_values(values@), false) {
                Ok(db) => r is Ok && final(self)@ == db,
                Err(e) => r == Err::<(), DbError>(e) && final(self)@ == old(self)@,
            },
            old(self).wf() ==> final(self).wf(),
    {
        self.push(key, values, false)
    }

    /// The items of the list at `key` with positions in `[start, stop]`, at
    /// time `now` (`nil` when missing or expired; an expired key is dropped).
    pub fn lrange_at(&mut self, key: String, start: i32, stop: i32, now: u64) -> (r: Result<RedisObject, DbError>)
        ensures
            final(self)@ == spec_lrange(old(self)@, key@, start, stop, now).0,
            match spec_lrange(old(self)@, key@, start, stop, now).1 {
                Ok(v) => r matches Ok(o) && o.value() == v,
                Err(e) => r == Err::<RedisObject, DbError>(e),
            },
            old(self).wf() ==> final(self).wf(),
    {
        if let Some(_exp) = expiry_get(&self.expirations, &key) {
            if self.is_expired(&key, now) {
                self.forget(&key);
                return Ok(nil_object());
            }
        }
        match data_get(&self.data, &key) {
            None => Ok(nil_object()),
            Some(RedisObject::List(list)) => Ok(RedisObject::List(range_of(&list, start, stop))),
            Some(RedisObject::String(_)) => Err(DbError::ExpectedList),
        }
    }

    /// `lrange_at` by the store's clock.
    pub fn lrange(&mut self, key: String, start: i32, stop: i32) -> (r: Result<RedisObject, DbError>)
        ensures
            exists|now: u64|
                {
                    &&& final(self)@ == #[trigger] spec_lrange(old(self)@, key@, start, stop, now).0
                    &&& match spec_lrange(old(self)@, key@, start, stop, now).1 {
                        Ok(v) => r matches Ok(o) && o.value() == v,
                        Err(e) => r == Err::<RedisObject, DbError>(e),
                    }
                },
            old(self).wf() ==> final(self).wf(),
    {
        let now = self.clock.now();
        self.lrange_at(key, start, stop, now)
    }

    /// Sets the expiry of `key` to `at`, as the option allows.
    pub fn expire(&mut self, key: String, expires_at: u64, option: Option<String>) -> (r: Result<(), DbError>)
        ensures
            match spec_expire(
                old(self)@,
                key@,
                expires_at,
                match option {
                    Some(o) => Some(o@),
                    None => None,
                },
            ) {
                Ok(db) => r is Ok && final(self)@ == db,
                Err(e) => r == Err::<(), DbError>(e) && final(self)@ == old(self)@,
            },
            old(self).wf() ==> final(self).wf(),
    {
        if !data_contains(&self.data, &key) {
            return Err(DbError::EntryNotFound);
        }
        let update = match &option {
            Some(opt) => {
                let o = opt.as_str();
                if str_eq(o, "NX") {
                    !expiry_contains(&self.expirations, &key)
                } else if str_eq(o, "XX") {
                    expiry_contains(&self.expirations, &key)
                } else if str_eq(o, "GT") {
                    match expiry_get(&self.expirations, &key) {
                        Some(e) => expires_at > e,
                        None => false,
                    }
                } else if str_eq(o, "LT") {
                    match expiry_get(&self.expirations, &key) {
                        Some(e) => expires_at < e,
                        None => false,
                    }
                } else {
                    return Err(DbError::InvalidExpireOption);
                }
            },
            None => true,
        };
        if update {
            expiry_insert(&mut self.expirations, key, expires_at);
        }
        assert(self@ =~~= spec_expire(
            old(self)@,
            key@,
            expires_at,
            match option {
                Some(o) => Some(o@),
                None => None,
            },
        ).unwrap());
        Ok(())
    }

    /// Checks the keys of `sampled` in order at time `now`, dropping each
    /// that has expired; gives how many were dropped.
    pub fn expire_sampled(&mut self, sampled: &Vec<String>, now: u64) -> (r: usize)
        ensures
            final(self)@ == purge(old(self)@, sampled@.map_values(|k: String| k@), now).0,
            r == purge(old(self)@, sampled@.map_values(|k: String| k@), now).1,
            r <= sampled@.len(),
            old(self).wf() ==> final(self).wf(),
    {
        let ghost keys = sampled@.map_values(|k: String| k@);
        let mut expired: usize = 0;
        let mut i: usize = 0;
        assert(keys.subrange(0, 0) =~= Seq::<Seq<char>>::empty());
        while i < sampled.len()
            invariant
                i <= sampled@.len(),
                keys == sampled@.map_values(|k: String| k@),
                self@ == purge(old(self)@, keys.subrange(0, i as int), now).0,
                expired == purge(old(self)@, keys.subrange(0, i as int), now).1,
                expired <= i,
                old(self).wf() ==> self.wf(),
            decreases sampled@.len() - i,
        {
            let key = &sampled[i];
            proof {
                assert(keys.subrange(0, i + 1).drop_last() =~= keys.subrange(0, i as int));
            }
            match expiry_get(&self.expirations, key) {
                Some(exp) => {
                    if exp < now {
                        self.forget(key);
                        expired = expired + 1;
                    }
                },
                None => {},
            }
            i = i + 1;
        }
        assert(keys.subrange(0, sampled@.len() as int) =~= keys);
        expired
    }

    /// One round of active expiry at time `now`: the keys with an expiry
    /// that stand from position `skip` on in the expiration map's order, at
    /// most 20 of them, are checked in turn, and each that has expired is
    /// dropped. Gives whether more than a quarter of the keys checked had
    /// expired (another round is due).
    pub fn expiration_round_at(&mut self, now: u64, skip: usize) -> (again: bool)
        requires
            old(self).wf(),
        ensures
            final(self).wf(),
            exists|ks: Seq<Seq<char>>|
                {
                    &&& key_order(ks, old(self)@.expirations)
                    &&& final(self)@ == #[trigger] purge(old(self)@, sample_of(ks, skip as int), now).0
                    &&& again == repeat_cycle(
                        purge(old(self)@, sample_of(ks, skip as int), now).1,
                        sample_of(ks, skip as int).len(),
                    )
                },
    {
        let keys = expiry_keys(&self.expirations);
        let ghost ks = keys@.map_values(|k: String| k@);
        let sampled = window(&keys, skip, 20);
        let ghost sample = sampled@.map_values(|k: String| k@);
        assert(sample == sample_of(ks, skip as int));
        assert(key_order(ks, old(self)@.expirations)) by {
            assert forall|k: Seq<char>| old(self)@.expirations.contains_key(k) implies ks.contains(k) by {
                let i = choose|i: int| 0 <= i < keys@.len() && #[trigger] keys@[i]@ == k;
                assert(ks[i] == k);
            }
        }
        let expired = self.expire_sampled(&sampled, now);
        let checked = if sampled.len() > 1 { sampled.len() } else { 1 };
        expired * 4 > checked
    }

    /// Active expiry: rounds of `expiration_round_at`, each at the time
    /// and from a random place, until a round finds at most a quarter of
    /// its keys expired or no key has an expiry (`expiry_run`). Only keys
    /// with an expiry are dropped, from both maps, and nothing else changes.
    pub fn active_expiration_cycle(&mut self)
        requires
            old(self).wf(),
        ensures
            final(self).wf(),
            exists|states: Seq<DbView>|
                #[trigger] expiry_run(states) && states[0] == old(self)@ && states.last() == final(self)@,
            in_sync(old(self)@) ==> in_sync(final(self)@),
            forall|k: Seq<char>|
                #[trigger] final(self)@.data.contains_key(k) ==> old(self)@.data.contains_key(k)
                    && final(self)@.data[k] == old(self)@.data[k],
            forall|k: Seq<char>|
                #[trigger] final(self)@.expirations.contains_key(k) ==> old(self)@.expirations.contains_key(k)
                    && final(self)@.expirations[k] == old(self)@.expirations[k],
            forall|k: Seq<char>|
                #[trigger] old(self)@.data.contains_key(k) && !old(self)@.expirations.contains_key(k)
                    ==> final(self)@.data.contains_key(k),
            forall|k: Seq<char>|
                #[trigger] old(self)@.expirations.contains_key(k) && !final(self)@.expirations.contains_key(k)
                    ==> !final(self)@.data.contains_key(k),
    {
        let ghost mut trace: Seq<DbView> = seq![self@];
        loop
            invariant
                self.wf(),
                trace.len() >= 1,
                trace[0] == old(self)@,
                trace.last() == self@,
                forall|i: int|
                    0 <= i < trace.len() - 1 ==> #[trigger] trace[i].expirations.len() > 0 && round_step(
                        trace[i],
                        trace[i + 1],
                        true,
                    ),
                forall|k: Seq<char>|
                    #[trigger] self@.data.contains_key(k) ==> old(self)@.data.contains_key(k)
                        && self@.data[k] == old(self)@.data[k],
                forall|k: Seq<char>|
                    #[trigger] self@.expirations.contains_key(k) ==> old(self)@.expirations.contains_key(k)
                        && self@.expirations[k] == old(self)@.expirations[k],
                forall|k: Seq<char>|
                    #[trigger] old(self)@.data.contains_key(k) && !old(self)@.expirations.contains_key(k)
                        ==> self@.data.contains_key(k),
                forall|k: Seq<char>|
                    #[trigger] old(self)@.expirations.contains_key(k) && !self@.expirations.contains_key(k)
                        ==> !self@.data.contains_key(k),
            decreases self@.expirations.len(),
        {
            let now = self.clock.now();
            let total = expiry_len(&self.expirations);
            if total == 0 {
                assert(expiry_run(trace));
                proof {
                    if in_sync(old(self)@) {
                        law_expiry_run_keeps_maps_in_sync(trace);
                    }
                }
                return;
            }
            let skip = (random_u64() as usize) % total;
            let ghost before = self@;
            let again = self.expiration_round_at(now, skip);
            proof {
                let ks = choose|ks: Seq<Seq<char>>|
                    {
                        &&& key_order(ks, before.expirations)
                        &&& self@ == #[trigger] purge(before, sample_of(ks, skip as int), now).0
                        &&& again == repeat_cycle(
                            purge(before, sample_of(ks, skip as int), now).1,
                            sample_of(ks, skip as int).len(),
                        )
                    };
                lemma_purge(before, sample_of(ks, skip as int), now);
                assert(round_step(before, self@, again)) by {
                    assert(0 <= skip < before.expirations.len());
                    assert(self@ == purge(before, sample_of(ks, skip as int), now).0);
                }
                let prev = trace;
                trace = trace.push(self@);
                assert forall|i: int| 0 <= i < trace.len() - 2 implies #[trigger] trace[i].expirations.len() > 0
                    && round_step(trace[i], trace[i + 1], true) by {
                    assert(trace[i] == prev[i]);
                    assert(trace[i + 1] == prev[i + 1]);
                }
                assert(trace[trace.len() - 2] == before);
            }
            if !again {
                assert(expiry_run(trace));
                proof {
                    if in_sync(old(self)@) {
                        law_expiry_run_keeps_maps_in_sync(trace);
                    }
                }
                return;
            }
            proof {
                assert forall|i: int| 0 <= i < trace.len() - 1 implies #[trigger] trace[i].expirations.len() > 0
                    && round_step(trace[i], trace[i + 1], true) by {
                    if i < trace.len() - 2 {
                    } else {
                        assert(trace[i] == before);
                    }
                }
            }
        }
    }

    /// A snapshot of the store taken at time `now`, in the snapshot format;
    /// the entries and the expiry times each come in the maps' own order,
    /// and an expiry time already past is written as `now`.
    pub fn save_rdb_at(&self, now: u64) -> (r: Vec<u8>)
        ensures
            is_snapshot_of(r@, self@, now),
    {
        let d = data_entries(&self.data);
        let e = expiry_entries(&self.expirations);
        let r = crate::rdb::writer::save_rdb(&d, &e, now);
        proof {
            let dv = entry_views(d@);
            let ev = expiry_views(e@);
            assert forall|k: Seq<char>| self@.data.contains_key(k) implies exists|i: int|
                0 <= i < dv.len() && #[trigger] dv[i].0 == k by {
                let i = choose|i: int| 0 <= i < d@.len() && #[trigger] d@[i].0@ == k;
                assert(dv[i].0 == k);
            }
            assert forall|k: Seq<char>| self@.expirations.contains_key(k) implies exists|i: int|
                0 <= i < ev.len() && #[trigger] ev[i].0 == k by {
                let i = choose|i: int| 0 <= i < e@.len() && #[trigger] e@[i].0@ == k;
                assert(ev[i].0 == k);
            }
            assert(enumerates(dv, self@.data));
            assert(enumerates(ev, self@.expirations));
            assert(r@ == rdb_image(dv, not_before(ev, now)));
        }
        r
    }

    /// `save_rdb_at` with the time taken from the store's clock.
    pub fn save_rdb(&self) -> (r: Vec<u8>)
        ensures
            exists|now: u64| is_snapshot_of(r@, self@, now),
    {
        let now = self.clock.now();
        self.save_rdb_at(now)
    }
}

// ---------------------------------------------------------------------------
// Laws of the store
// ---------------------------------------------------------------------------

/// A read after a write gives the value written, unless the write's expiry
/// time already lies before the time of the read; the read changes
/// nothing.
pub proof fn law_get_after_set(db: DbView, k: Seq<char>, v: RedisValue, e: Option<u64>, now: u64)
    requires
        !(e matches Some(t) && t < now),
    ensures
        spec_get(spec_set(db, k, v, e), k, now) == (spec_set(db, k, v, e), v),
{
}

/// A write replaces what an earlier write to the same key stored, value
/// and expiry alike.
pub proof fn law_set_overwrites(
    db: DbView,
    k: Seq<char>,
    v1: RedisValue,
    e1: Option<u64>,
    v2: RedisValue,
    e2: Option<u64>,
)
    ensures
        spec_set(spec_set(db, k, v1, e1), k, v2, e2) == spec_set(db, k, v2, e2),
{
    let a = spec_set(spec_set(db, k, v1, e1), k, v2, e2);
    let b = spec_set(db, k, v2, e2);
    assert(a.data =~= b.data);
    assert(a.expirations =~= b.expirations);
}

/// A write without an expiry leaves the key without one, whatever it had
/// before.
pub proof fn law_set_clears_expiry(db: DbView, k: Seq<char>, v: RedisValue)
    ensures
        !spec_set(db, k, v, None).expirations.contains_key(k),
{
}

/// After a delete the key reads as `nil`.
pub proof fn law_get_after_delete(db: DbView, k: Seq<char>, now: u64)
    ensures
        spec_get(without_key(db, k), k, now) == (without_key(db, k), nil()),
{
}

/// A key that is not there reads as `nil`, and the read changes nothing.
pub proof fn law_get_missing(db: DbView, k: Seq<char>, now: u64)
    requires
        !db.data.contains_key(k),
        !db.expirations.contains_key(k),
    ensures
        spec_get(db, k, now) == (db, nil()),
{
}

/// A read of a key whose expiry time has passed drops the key, from both
/// maps, and gives `nil`; so does a range read.
pub proof fn law_lazy_expiry(db: DbView, k: Seq<char>, start: i32, stop: i32, now: u64)
    requires
        expired_at(db, k, now),
    ensures
        spec_get(db, k, now) == (without_key(db, k), nil()),
        spec_lrange(db, k, start, stop, now) == (without_key(db, k), Ok::<RedisValue, DbError>(nil())),
        !without_key(db, k).data.contains_key(k),
        !without_key(db, k).expirations.contains_key(k),
{
}

/// On a missing key, `LPUSH` and `RPUSH` make the list of the values, in
/// the order given.
pub proof fn law_push_new_key(db: DbView, k: Seq<char>, vals: Seq<RedisValue>)
    requires
        !db.data.contains_key(k),
    ensures
        spec_push(db, k, vals, true) == Ok::<DbView, DbError>(spec_set_list(db, k, vals)),
        spec_push(db, k, vals, false) == Ok::<DbView, DbError>(spec_set_list(db, k, vals)),
{
}

/// `LPUSH` puts the values, in the order given, before the list; `RPUSH`
/// puts them after it.
pub proof fn law_push_existing_list(db: DbView, k: Seq<char>, vals: Seq<RedisValue>, l: Seq<RedisValue>)
    requires
        db.data.contains_key(k),
        db.data[k] == RedisValue::List(l),
    ensures
        spec_push(db, k, vals, true) == Ok::<DbView, DbError>(spec_set_list(db, k, vals + l)),
        spec_push(db, k, vals, false) == Ok::<DbView, DbError>(spec_set_list(db, k, l + vals)),
{
}

/// A push onto a key that holds a string fails and changes nothing.
pub proof fn law_push_on_string(db: DbView, k: Seq<char>, vals: Seq<RedisValue>)
    requires
        db.data.contains_key(k),
        db.data[k] is Text,
    ensures
        spec_push(db, k, vals, true) == Err::<DbView, DbError>(DbError::ExpectedListGotString),
        spec_push(db, k, vals, false) == Err::<DbView, DbError>(DbError::ExpectedListGotString),
{
}

/// The store with `k` holding the list `l`, its expiry kept.
pub open spec fn spec_set_list(db: DbView, k: Seq<char>, l: Seq<RedisValue>) -> DbView {
    DbView { data: db.data.insert(k, RedisValue::List(l)), ..db }
}

/// `LRANGE key 0 -1` gives the whole list.
pub proof fn law_lrange_whole(l: Seq<RedisValue>)
    ensures
        list_range(l, 0i32, -1i32) == l,
{
    let n = l.len();
    assert(l.subrange(0, n as int) =~= l);
}

/// **How `LRANGE` reads its indices**, on a list `l` of length `n`: the
/// items from `start` to `stop`, both included, when `0 <= start <= stop < n`;
/// none when `stop < start` (both at least 0); a `stop` past the end reads
/// as the last index; and a negative index `-i` with `i <= n` counts from
/// the end, reading as `n - i` (so `-1` is the last item).
pub proof fn law_lrange_indices(l: Seq<RedisValue>, start: i32, stop: i32)
    ensures
        0 <= start <= stop < l.len() ==> list_range(l, start, stop) == l.subrange(start as int, stop + 1),
        0 <= stop < start ==> list_range(l, start, stop) == Seq::<RedisValue>::empty(),
        1 <= l.len() <= i32::MAX + 1 && stop >= l.len() ==> list_range(l, start, stop) == list_range(
            l,
            start,
            (l.len() - 1) as i32,
        ),
        l.len() <= i32::MAX && -(l.len() as int) <= stop < 0 ==> list_range(l, start, stop) == list_range(
            l,
            start,
            (stop + l.len()) as i32,
        ),
        l.len() <= i32::MAX && -(l.len() as int) <= start < 0 ==> list_range(l, start, stop) == list_range(
            l,
            (start + l.len()) as i32,
            stop,
        ),
{
}

/// The options of `EXPIRE`: `NX` sets the expiry only when the key has
/// none, `XX` only when it has one, `GT` only to a later time and `LT`
/// only to an earlier one than it has; without an option the expiry is
/// always set. A key that is not there, or another option, is an error.
pub proof fn law_expire_options(db: DbView, k: Seq<char>, at: u64)
    ensures
        !db.data.contains_key(k) ==> spec_expire(db, k, at, None) == Err::<DbView, DbError>(DbError::EntryNotFound),
        db.data.contains_key(k) ==> spec_expire(db, k, at, None) == Ok::<DbView, DbError>(
            DbView { expirations: db.expirations.insert(k, at), ..db },
        ),
        db.data.contains_key(k) ==> spec_expire(db, k, at, Some("NX"@)) == Ok::<DbView, DbError>(
            if db.expirations.contains_key(k) { db } else { DbView { expirations: db.expirations.insert(k, at), ..db } },
        ),
        db.data.contains_key(k) ==> spec_expire(db, k, at, Some("XX"@)) == Ok::<DbView, DbError>(
            if db.expirations.contains_key(k) { DbView { expirations: db.expirations.insert(k, at), ..db } } else { db },
        ),
        db.data.contains_key(k) ==> spec_expire(db, k, at, Some("GT"@)) == Ok::<DbView, DbError>(
            if db.expirations.contains_key(k) && at > db.expirations[k] {
                DbView { expirations: db.expirations.insert(k, at), ..db }
            } else {
                db
            },
        ),
        db.data.contains_key(k) ==> spec_expire(db, k, at, Some("LT"@)) == Ok::<DbView, DbError>(
            if db.expirations.contains_key(k) && at < db.expirations[k] {
                DbView { expirations: db.expirations.insert(k, at), ..db }
            } else {
                db
            },
        ),
{
    reveal_strlit("NX");
    reveal_strlit("XX");
    reveal_strlit("GT");
    reveal_strlit("LT");
    assert("XX"@ != "NX"@) by {
        assert("XX"@[0] != "NX"@[0]);
    }
    assert("GT"@ != "NX"@ && "GT"@ != "XX"@) by {
        assert("GT"@[0] != "NX"@[0]);
        assert("GT"@[0] != "XX"@[0]);
    }
    assert("LT"@ != "NX"@ && "LT"@ != "XX"@ && "LT"@ != "GT"@) by {
        assert("LT"@[0] != "NX"@[0]);
        assert("LT"@[0] != "XX"@[0]);
        assert("LT"@[0] != "GT"@[0]);
    }
}

/// Every key that has an expiry time holds a value: the two maps are in
/// sync.
pub open spec fn in_sync(db: DbView) -> bool {
    forall|k: Seq<char>| #[trigger] db.expirations.contains_key(k) ==> db.data.contains_key(k)
}

/// A purge pass keeps the maps in sync.
pub proof fn lemma_purge_in_sync(db: DbView, keys: Seq<Seq<char>>, now: u64)
    requires
        in_sync(db),
    ensures
        in_sync(purge(db, keys, now).0),
    decreases keys.len(),
{
    if keys.len() > 0 {
        lemma_purge_in_sync(db, keys.drop_last(), now);
    }
}

/// **The maps stay in sync**: writes, reads (which may drop an expired
/// key), deletes, pushes, range reads, expiry updates and purge passes
/// never leave an expiry time on a key without a value.
pub proof fn law_store_keeps_maps_in_sync(
    db: DbView,
    k: Seq<char>,
    v: RedisValue,
    e: Option<u64>,
    vals: Seq<RedisValue>,
    front: bool,
    start: i32,
    stop: i32,
    at: u64,
    option: Option<Seq<char>>,
    keys: Seq<Seq<char>>,
    now: u64,
)
    requires
        in_sync(db),
    ensures
        in_sync(spec_set(db, k, v, e)),
        in_sync(spec_get(db, k, now).0),
        in_sync(without_key(db, k)),
        spec_push(db, k, vals, front) matches Ok(d) ==> in_sync(d),
        in_sync(spec_lrange(db, k, start, stop, now).0),
        spec_expire(db, k, at, option) matches Ok(d) ==> in_sync(d),
        in_sync(purge(db, keys, now).0),
{
    lemma_purge_in_sync(db, keys, now);
}

/// A run of active expiry keeps the maps in sync.
pub proof fn law_expiry_run_keeps_maps_in_sync(states: Seq<DbView>)
    requires
        expiry_run(states),
        in_sync(states[0]),
    ensures
        in_sync(states.last()),
{
    lemma_run_prefix_in_sync(states, states.len() - 1);
}

proof fn lemma_run_prefix_in_sync(states: Seq<DbView>, j: int)
    requires
        expiry_run(states),
        in_sync(states[0]),
        0 <= j < states.len(),
    ensures
        in_sync(states[j]),
    decreases j,
{
    if j > 0 {
        lemma_run_prefix_in_sync(states, j - 1);
        let a = states[j - 1];
        let b = states[j];
        assert(exists|again: bool| round_step(a, b, again)) by {
            if j - 1 < states.len() - 2 {
                let i = j - 1;
                assert(states[i].expirations.len() > 0);
                assert(i + 1 == j);
                assert(round_step(states[i], states[i + 1], true));
                assert(round_step(a, b, true));
            } else {
                assert(j == states.len() - 1);
            }
        }
        let again = choose|again: bool| round_step(a, b, again);
        let (ks, skip, now) = choose|ks: Seq<Seq<char>>, skip: int, now: u64|
            {
                &&& key_order(ks, a.expirations)
                &&& 0 <= skip < a.expirations.len()
                &&& b == #[trigger] purge(a, sample_of(ks, skip), now).0
                &&& again == repeat_cycle(purge(a, sample_of(ks, skip), now).1, sample_of(ks, skip).len())
            };
        lemma_purge_in_sync(a, sample_of(ks, skip), now);
    }
}

} // verus!
