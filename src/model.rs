//! A model of the key-value store and of the three operations run against
//! it, each under the service's lock, built from the steps of `service`:
//! the laws of the service are stated and proved here.
use vstd::prelude::*;
use vstd::set_lib::*;

use crate::codec::{decode_spec, encode_spec, is_record, is_record_of, lemma_round_trip, TaskModel};
use crate::service::with_completed;

verus! {

/// What the store holds: the id counter, the records by id, and the id-set.
pub struct Store {
    pub counter: int,
    pub records: Map<int, Seq<u8>>,
    pub ids: Set<int>,
}

/// A store that nothing has been written to.
pub open spec fn empty_store() -> Store {
    Store { counter: 0, records: Map::empty(), ids: Set::empty() }
}

/// The bytes read for task `id`: a key that holds nothing reads as no bytes.
pub open spec fn stored(s: Store, id: int) -> Seq<u8> {
    if s.records.contains_key(id) {
        s.records[id]
    } else {
        Seq::empty()
    }
}

/// CreateTask: the counter is incremented; where the new value is a
/// possible id, the new task's record is written and its id added to the set.
pub open spec fn create(s: Store, d: Seq<char>) -> (Store, Option<TaskModel>) {
    let c = s.counter + 1;
    if 1 <= c <= i32::MAX {
        let t = TaskModel { id: c as i32, description: d, completed: false };
        (Store { counter: c, records: s.records.insert(c, encode_spec(t)), ids: s.ids.insert(c) }, Some(t))
    } else {
        (Store { counter: c, records: s.records, ids: s.ids }, None)
    }
}

/// UpdateTask: the stored record is decoded, its flag set and the record
/// written back; bytes that do not decode fail the call and change nothing.
pub open spec fn update(s: Store, id: i32, completed: bool) -> (Store, Option<TaskModel>) {
    let b = stored(s, id as int);
    if is_record(b) {
        let t = with_completed(decode_spec(b), completed);
        (Store { counter: s.counter, records: s.records.insert(id as int, encode_spec(t)), ids: s.ids }, Some(t))
    } else {
        (s, None)
    }
}

/// ViewTasks succeeds: the record of every id in the set decodes.
pub open spec fn listing_ok(s: Store) -> bool {
    forall|i: int| s.ids.contains(i) ==> is_record(#[trigger] stored(s, i))
}

/// What ViewTasks lists, by id.
pub open spec fn listing(s: Store) -> Map<int, TaskModel> {
    s.ids.mk_map(|i: int| decode_spec(stored(s, i)))
}

/// CreateTask run once for each description, in order.
pub open spec fn create_all(s: Store, ds: Seq<Seq<char>>) -> (Store, Seq<Option<TaskModel>>)
    decreases ds.len(),
{
    if ds.len() == 0 {
        (s, Seq::empty())
    } else {
        let (s1, ts) = create_all(s, ds.drop_last());
        let (s2, t) = create(s1, ds.last());
        (s2, ts.push(t))
    }
}

/// The store's invariant: every id in the set is at most the counter and
/// holds the record of the task with that id, and no record lies outside
/// the set.
pub open spec fn good(s: Store) -> bool {
    &&& s.counter >= 0
    &&& s.ids.finite()
    &&& forall|i: int| #[trigger] s.ids.contains(i) ==> 1 <= i <= s.counter && s.records.contains_key(i)
        && is_record(s.records[i]) && decode_spec(s.records[i]).id == i
    &&& forall|i: int| #[trigger] s.records.contains_key(i) ==> s.ids.contains(i)
}

/// The empty store is in good shape.
pub proof fn lemma_empty_good()
    ensures
        good(empty_store()),
{
}

/// CreateTask keeps the store in good shape.
pub proof fn lemma_create_good(s: Store, d: Seq<char>)
    requires
        good(s),
    ensures
        good(create(s, d).0),
{
    let c = s.counter + 1;
    if 1 <= c <= i32::MAX {
        let t = TaskModel { id: c as i32, description: d, completed: false };
        lemma_round_trip(t);
    }
}

/// UpdateTask keeps the store in good shape.
pub proof fn lemma_update_good(s: Store, id: i32, completed: bool)
    requires
        good(s),
    ensures
        good(update(s, id, completed).0),
{
    let b = stored(s, id as int);
    if is_record(b) {
        let u = decode_spec(b);
        assert(is_record_of(b, u));
        assert(s.records.contains_key(id as int));
        let t = with_completed(u, completed);
        lemma_round_trip(t);
    }
}

/// In a good store, the records of all ids in the set decode.
pub proof fn lemma_good_listing_ok(s: Store)
    requires
        good(s),
    ensures
        listing_ok(s),
{
}

/// The task that the `i`-th of a run of creates makes, from counter `c`.
pub open spec fn created(c: int, ds: Seq<Seq<char>>, i: int) -> TaskModel {
    TaskModel { id: (c + 1 + i) as i32, description: ds[i], completed: false }
}

/// A run of creates hands out the ids after the counter, one each, in order,
/// writes each new record, and leaves the earlier records alone.
pub proof fn lemma_create_all(s: Store, ds: Seq<Seq<char>>)
    requires
        good(s),
        s.counter + ds.len() <= i32::MAX,
    ensures
        good(create_all(s, ds).0),
        create_all(s, ds).0.counter == s.counter + ds.len(),
        create_all(s, ds).0.ids == s.ids + set_int_range(s.counter + 1, s.counter + ds.len() + 1),
        create_all(s, ds).1.len() == ds.len(),
        forall|i: int| 0 <= i < ds.len() ==> #[trigger] create_all(s, ds).1[i] == Some(created(s.counter, ds, i)),
        forall|i: int| 0 <= i < ds.len() ==> #[trigger] create_all(s, ds).0.records[s.counter + 1 + i] == encode_spec(created(s.counter, ds, i)),
        forall|k: int| #[trigger] s.ids.contains(k) ==> create_all(s, ds).0.records[k] == s.records[k],
    decreases ds.len(),
{
    if ds.len() > 0 {
        let ds1 = ds.drop_last();
        lemma_create_all(s, ds1);
        let (s1, ts1) = create_all(s, ds1);
        lemma_create_good(s1, ds.last());
        let (s2, ts2) = create_all(s, ds);
        let c = s1.counter + 1;
        assert(c == s.counter + ds.len());
        assert forall|i: int| 0 <= i < ds.len() implies #[trigger] ts2[i] == Some(created(s.counter, ds, i)) by {
            if i < ds1.len() {
                assert(ts2[i] == ts1[i]);
                assert(ds1[i] == ds[i]);
            }
        }
        assert forall|i: int| 0 <= i < ds.len() implies #[trigger] s2.records[s.counter + 1 + i] == encode_spec(created(s.counter, ds, i)) by {
            if i < ds1.len() {
                assert(s1.records[s.counter + 1 + i] == encode_spec(created(s.counter, ds1, i)));
                assert(ds1[i] == ds[i]);
            }
        }
        assert(s2.ids =~= s.ids + set_int_range(s.counter + 1, s.counter + ds.len() + 1));
    }
}

/// Id monotonicity: a run of creates yields distinct ids, each above the
/// counter seen before the run.
pub proof fn lemma_ids_increase(s: Store, ds: Seq<Seq<char>>)
    requires
        good(s),
        s.counter + ds.len() <= i32::MAX,
    ensures
        forall|i: int| 0 <= i < ds.len() ==> (#[trigger] create_all(s, ds).1[i] matches Some(t) && t.id > s.counter),
        forall|i: int, j: int| 0 <= i < ds.len() && 0 <= j < ds.len() && i != j
            ==> #[trigger] create_all(s, ds).1[i]->Some_0.id != #[trigger] create_all(s, ds).1[j]->Some_0.id,
{
    lemma_create_all(s, ds);
}

/// A new task is listed under its id, as created, next to the tasks that
/// were there; where no listed task had its description, it is the only one
/// listed with it.
pub proof fn lemma_create_then_view(s: Store, d: Seq<char>)
    requires
        good(s),
        s.counter < i32::MAX,
    ensures
        create(s, d).1 matches Some(t) && t.id == s.counter + 1 && t.description == d && !t.completed
            && listing_ok(create(s, d).0)
            && listing(create(s, d).0).dom() == s.ids.insert(t.id as int)
            && listing(create(s, d).0)[t.id as int] == t
            && ((forall|i: int| #[trigger] s.ids.contains(i) ==> listing(s)[i].description != d) ==>
                forall|i: int| #[trigger] listing(create(s, d).0).contains_key(i) && listing(create(s, d).0)[i].description == d
                    ==> i == t.id),
{
    lemma_create_good(s, d);
    let (s1, r) = create(s, d);
    let t = r->Some_0;
    lemma_round_trip(t);
    assert(listing(s1).dom() =~= s.ids.insert(t.id as int));
    assert forall|i: int| #[trigger] s.ids.contains(i) implies listing(s1)[i] == listing(s)[i] by {
        assert(i != t.id);
    }
}

/// Update preserves identity: after a create, setting the flag returns the
/// task with its id and description, and the listing then shows it so.
pub proof fn lemma_update_after_create(s: Store, d: Seq<char>, completed: bool)
    requires
        good(s),
        s.counter < i32::MAX,
    ensures
        create(s, d).1 matches Some(t) && update(create(s, d).0, t.id, completed).1 == Some(
            TaskModel { id: t.id, description: d, completed },
        ) && listing_ok(update(create(s, d).0, t.id, completed).0)
            && listing(update(create(s, d).0, t.id, completed).0)[t.id as int] == (TaskModel {
            id: t.id,
            description: d,
            completed,
        }),
{
    lemma_create_good(s, d);
    let (s1, r) = create(s, d);
    let t = r->Some_0;
    lemma_round_trip(t);
    lemma_update_good(s1, t.id, completed);
    let u = TaskModel { id: t.id, description: d, completed };
    lemma_round_trip(u);
}

/// The record of any valid task holds at least one byte.
proof fn lemma_empty_not_record()
    ensures
        !is_record(Seq::<u8>::empty()),
{
    if is_record(Seq::<u8>::empty()) {
        let t = decode_spec(Seq::<u8>::empty());
        assert(is_record_of(Seq::<u8>::empty(), t));
        assert(encode_spec(t).len() > 0);
    }
}

/// Update on an id that was never handed out fails and changes nothing.
pub proof fn lemma_update_unknown_fails(s: Store, id: i32, completed: bool)
    requires
        good(s),
        !s.ids.contains(id as int),
    ensures
        update(s, id, completed) == (s, None::<TaskModel>),
{
    assert(!s.records.contains_key(id as int));
    lemma_empty_not_record();
}

/// M creates against a fresh store, serialised by the service's lock in
/// whatever order they arrive, leave M records under ids 1 to M, the id-set
/// holding exactly those M ids, and each task retrievable by its own id.
pub proof fn lemma_creates_from_empty(ds: Seq<Seq<char>>)
    requires
        ds.len() <= i32::MAX,
    ensures
        good(create_all(empty_store(), ds).0),
        create_all(empty_store(), ds).0.ids == set_int_range(1, ds.len() as int + 1),
        create_all(empty_store(), ds).0.ids.len() == ds.len(),
        create_all(empty_store(), ds).0.records.dom() == create_all(empty_store(), ds).0.ids,
        listing_ok(create_all(empty_store(), ds).0),
        forall|i: int| 0 <= i < ds.len() ==> (#[trigger] create_all(empty_store(), ds).1[i] matches Some(t)
            && listing(create_all(empty_store(), ds).0)[t.id as int] == t),
{
    let e = empty_store();
    lemma_create_all(e, ds);
    let (s, ts) = create_all(e, ds);
    assert(s.ids =~= set_int_range(1, ds.len() as int + 1));
    lemma_int_range(1, ds.len() as int + 1);
    assert(s.records.dom() =~= s.ids);
    assert forall|i: int| 0 <= i < ds.len() implies (#[trigger] ts[i] matches Some(t) && listing(s)[t.id as int] == t) by {
        let t = created(0, ds, i);
        assert(s.records[1 + i] == encode_spec(t));
        lemma_round_trip(t);
    }
}

} // verus!
