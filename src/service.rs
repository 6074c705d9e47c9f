//! The task service's steps between calls to the key-value store, and a
//! model of the store over which the service's laws are stated.
//!
//! Store layout: `task:{id}` holds a task's record, the set `task_ids` holds
//! every id handed out, and `task_ids_counter` holds the last id handed out.
//! Ids come from an atomic increment of the counter; a record is written
//! under its key and its id added to the set.
use vstd::prelude::*;
use vstd::string::*;

use crate::codec::{decode, decode_spec, encode, encode_spec, is_record, Task, TaskModel};
use crate::error::MyError;

verus! {

/// Key of the set of all ids.
pub const ID_SET_KEY: &'static str = "task_ids";

/// Key of the id counter.
pub const COUNTER_KEY: &'static str = "task_ids_counter";

pub open spec fn digit_char(d: nat) -> char {
    (('0' as nat) + d) as char
}

/// Decimal digits of `n`, most significant first.
pub open spec fn digits(n: nat) -> Seq<char>
    decreases n,
{
    if n < 10 {
        seq![digit_char(n)]
    } else {
        digits(n / 10) + seq![digit_char(n % 10)]
    }
}

/// An integer as Rust's `Display` writes it.
pub open spec fn decimal(v: int) -> Seq<char> {
    if v < 0 {
        seq!['-'] + digits((-v) as nat)
    } else {
        digits(v as nat)
    }
}

/// The key of a task's record.
pub open spec fn task_key_spec(id: i32) -> Seq<char> {
    seq!['t', 'a', 's', 'k', ':'] + decimal(id as int)
}

/// Relies on i32's Display, through to_string: decimal digits after a minus
/// sign for a negative value.
#[verifier::external_body]
fn id_text(id: i32) -> (r: String)
    ensures
        r@ == decimal(id as int),
{
    id.to_string()
}

/// The key under which the record of task `id` is stored.
pub fn task_key(id: i32) -> (r: String)
    ensures
        r@ == task_key_spec(id),
{
    let mut key = String::from_str("task:");
    proof {
        reveal_strlit("task:");
    }
    let text = id_text(id);
    key.append(text.as_str());
    assert(key@ =~= task_key_spec(id));
    key
}

/// Turns the counter's reply to an increment into the new task's id. Ids
/// are positive and fit in an `i32`; any other reply is a store error.
pub fn assign_id(counter: i64) -> (r: Result<i32, MyError>)
    ensures
        r is Ok <==> 1 <= counter <= i32::MAX,
        r matches Ok(id) ==> id as int == counter,
        r matches Err(e) ==> e is Redis,
{
    if 1 <= counter && counter <= i32::MAX as i64 {
        Ok(counter as i32)
    } else {
        Err(MyError::Redis(String::from_str("id counter out of range")))
    }
}

/// The new task with id `id`, not completed, and its record.
pub fn create_record(id: i32, description: String) -> (r: (Task, Vec<u8>))
    ensures
        r.0@ == (TaskModel { id, description: description@, completed: false }),
        r.1@ == encode_spec(r.0@),
{
    let task = Task { id, description, completed: false };
    let bytes = encode(&task);
    (task, bytes)
}

/// The task `t` with its completion flag set to `completed`.
pub open spec fn with_completed(t: TaskModel, completed: bool) -> TaskModel {
    TaskModel { id: t.id, description: t.description, completed }
}

/// From the stored record of a task, the task with its flag set to
/// `completed`, and its new record. Id and description stay as stored.
pub fn update_record(stored: &Vec<u8>, completed: bool) -> (r: Result<(Task, Vec<u8>), MyError>)
    ensures
        r is Ok <==> is_record(stored@),
        r matches Ok((t, b)) ==> t@ == with_completed(decode_spec(stored@), completed) && b@ == encode_spec(t@),
        r matches Err(e) ==> e == MyError::Decode,
{
    let mut task = decode(stored)?;
    task.completed = completed;
    let bytes = encode(&task);
    Ok((task, bytes))
}

/// Every record decodes.
pub open spec fn all_records(records: Seq<Vec<u8>>) -> bool {
    forall|i: int| 0 <= i < records.len() ==> is_record(#[trigger] records[i]@)
}

/// The tasks of the records fetched for the listed ids, in the same order.
/// One record that does not decode fails the whole listing.
pub fn collect_tasks(records: &Vec<Vec<u8>>) -> (r: Result<Vec<Task>, MyError>)
    ensures
        r is Ok <==> all_records(records@),
        r matches Ok(ts) ==> ts@.len() == records@.len() && forall|i: int|
            0 <= i < ts@.len() ==> #[trigger] ts@[i]@ == decode_spec(records@[i]@),
        r matches Err(e) ==> e == MyError::Decode,
{
    let mut tasks: Vec<Task> = Vec::new();
    let mut i: usize = 0;
    while i < records.len()
        invariant
            i <= records@.len(),
            tasks@.len() == i,
            forall|j: int| 0 <= j < i ==> is_record(#[trigger] records@[j]@),
            forall|j: int| 0 <= j < i ==> #[trigger] tasks@[j]@ == decode_spec(records@[j]@),
        decreases records@.len() - i,
    {
        let task = match decode(&records[i]) {
            Ok(t) => t,
            Err(e) => {
                return Err(e);
            },
        };
        tasks.push(task);
        i = i + 1;
    }
    Ok(tasks)
}

/// redis::Connection, carried through opaque: the service holds it and
/// never looks inside.
#[verifier::external_type_specification]
#[verifier::external_body]
pub struct ExConnection(redis::Connection);

/// std::sync::Mutex, carried through opaque: the lock that serialises the
/// service's operations.
#[verifier::external_type_specification]
#[verifier::external_body]
#[verifier::reject_recursive_types(T)]
pub struct ExMutex<T: ?Sized>(std::sync::Mutex<T>);

/// Relies on std::sync::Mutex::new: it wraps the value in an unlocked lock
/// and never fails.
pub assume_specification<T>[ std::sync::Mutex::<T>::new ](t: T) -> std::sync::Mutex<T>;

/// The service: one connection to the store, behind a lock that each
/// operation holds from its first command to its last, so that operations
/// never interleave.
pub struct MyTaskService {
    pub redis_con: std::sync::Mutex<redis::Connection>,
}

impl MyTaskService {
    /// The service over the connection `redis_con`.
    pub fn new(redis_con: redis::Connection) -> (r: Self) {
        MyTaskService { redis_con: std::sync::Mutex::new(redis_con) }
    }
}

} // verus!
