//! The binary record of a task: protobuf wire format with `id` as field 1
//! (int32), `description` as field 2 (string) and `completed` as field 3
//! (bool). As in proto3, a field that holds its default value is left out.
use vstd::prelude::*;
use vstd::utf8::*;

use crate::error::MyError;

verus! {

/// A task record.
#[derive(Debug, Clone)]
pub struct Task {
    pub id: i32,
    pub description: String,
    pub completed: bool,
}

/// The mathematical value of a task.
pub struct TaskModel {
    pub id: i32,
    pub description: Seq<char>,
    pub completed: bool,
}

impl View for Task {
    type V = TaskModel;

    open spec fn view(&self) -> TaskModel {
        TaskModel { id: self.id, description: self.description@, completed: self.completed }
    }
}

/// A task that can exist in the store: ids are handed out from 1 upwards.
pub open spec fn valid_task(t: TaskModel) -> bool {
    t.id >= 1
}

/// Key byte of field 1 (varint).
pub const ID_KEY: u8 = 0x08;

/// Key byte of field 2 (length-delimited).
pub const DESCRIPTION_KEY: u8 = 0x12;

/// Key byte of field 3 (varint).
pub const COMPLETED_KEY: u8 = 0x18;

/// LEB128: seven bits per byte, least significant group first, the high bit
/// set on every byte but the last.
pub open spec fn varint(v: nat) -> Seq<u8>
    decreases v,
{
    if v < 128 {
        seq![v as u8]
    } else {
        seq![(v % 128 + 128) as u8] + varint(v / 128)
    }
}

/// The 64-bit word that protobuf writes for an int32: sign-extended.
pub open spec fn id_word(id: i32) -> nat {
    if id >= 0 {
        id as nat
    } else {
        (id + 0x1_0000_0000_0000_0000int) as nat
    }
}

pub open spec fn id_field(id: i32) -> Seq<u8> {
    if id != 0 {
        seq![ID_KEY] + varint(id_word(id))
    } else {
        Seq::empty()
    }
}

pub open spec fn description_field(d: Seq<char>) -> Seq<u8> {
    if d.len() > 0 {
        seq![DESCRIPTION_KEY] + varint(encode_utf8(d).len()) + encode_utf8(d)
    } else {
        Seq::empty()
    }
}

pub open spec fn completed_field(c: bool) -> Seq<u8> {
    if c {
        seq![COMPLETED_KEY, 1u8]
    } else {
        Seq::empty()
    }
}

/// The record of a task.
pub open spec fn encode_spec(t: TaskModel) -> Seq<u8> {
    id_field(t.id) + description_field(t.description) + completed_field(t.completed)
}

/// Relies on prost::encoding::encode_varint: appends the LEB128 form of `v`.
#[verifier::external_body]
fn put_varint(v: u64, buf: &mut Vec<u8>)
    ensures
        final(buf)@ == old(buf)@ + varint(v as nat),
{
    prost::encoding::encode_varint(v, buf)
}

fn push_all(out: &mut Vec<u8>, bytes: &Vec<u8>)
    ensures
        final(out)@ == old(out)@ + bytes@,
{
    let n = bytes.len();
    let mut i: usize = 0;
    while i < n
        invariant
            n == bytes@.len(),
            i <= n,
            out@ == old(out)@ + bytes@.subrange(0, i as int),
        decreases n - i,
    {
        out.push(bytes[i]);
        i = i + 1;
        assert(bytes@.subrange(0, i as int) =~= bytes@.subrange(0, i - 1) + seq![bytes@[i - 1]]);
    }
    assert(bytes@.subrange(0, n as int) =~= bytes@);
}

fn id_to_word(id: i32) -> (r: u64)
    ensures
        r as nat == id_word(id),
{
    if id >= 0 {
        id as u64
    } else {
        let k: u64 = (-(id as i64)) as u64;
        (u64::MAX - k) + 1
    }
}

/// Serialises a task. Equal tasks give equal bytes.
pub fn encode(task: &Task) -> (r: Vec<u8>)
    ensures
        r@ == encode_spec(task@),
{
    let mut out: Vec<u8> = Vec::new();
    if task.id != 0 {
        out.push(ID_KEY);
        put_varint(id_to_word(task.id), &mut out);
    }
    assert(out@ =~= id_field(task.id));
    let bytes = task.description.as_str().as_bytes_vec();
    if bytes.len() > 0 {
        out.push(DESCRIPTION_KEY);
        put_varint(bytes.len() as u64, &mut out);
        push_all(&mut out, &bytes);
    }
    proof {
        if task.description@.len() == 0 {
            assert(encode_utf8(task.description@) =~= Seq::<u8>::empty());
        } else {
            assert(encode_utf8(task.description@).len() > 0);
        }
    }
    assert(out@ =~= id_field(task.id) + description_field(task.description@));
    if task.completed {
        out.push(COMPLETED_KEY);
        out.push(1);
    }
    assert(out@ =~= encode_spec(task@));
    out
}

/// `b` holds the record of the valid task `t`.
pub open spec fn is_record_of(b: Seq<u8>, t: TaskModel) -> bool {
    valid_task(t) && encode_spec(t) == b
}

/// `b` is the record of some valid task.
pub open spec fn is_record(b: Seq<u8>) -> bool {
    exists|t: TaskModel| is_record_of(b, t)
}

/// The task whose record `b` is; meaningful where `is_record(b)`.
pub open spec fn decode_spec(b: Seq<u8>) -> TaskModel {
    choose|t: TaskModel| is_record_of(b, t)
}

/// `pat` occurs in `b` at `pos`.
pub open spec fn occurs_at(b: Seq<u8>, pos: int, pat: Seq<u8>) -> bool {
    0 <= pos && pos + pat.len() <= b.len() && b.subrange(pos, pos + pat.len()) == pat
}

/// prost::DecodeError, the error of prost's decoding functions, carried
/// through opaque.
#[verifier::external_type_specification]
#[verifier::external_body]
pub struct ExDecodeError(prost::DecodeError);

/// Relies on prost::encoding::decode_varint, read from the bytes of `b` that
/// start at `pos`: a well-formed LEB128 number there is read back as itself.
#[verifier::external_body]
fn read_varint(b: &Vec<u8>, pos: usize) -> (r: Result<u64, prost::DecodeError>)
    requires
        pos <= b@.len(),
    ensures
        forall|v: u64| #[trigger] occurs_at(b@, pos as int, varint(v as nat)) ==> r is Ok && r->Ok_0 == v,
{
    let mut rest: &[u8] = &b[pos..];
    prost::encoding::decode_varint(&mut rest)
}

/// Relies on String::from_utf8: it accepts exactly the well-formed UTF-8
/// byte sequences, and then holds the characters that they encode.
#[verifier::external_body]
fn string_from_utf8(b: Vec<u8>) -> (r: Option<String>)
    ensures
        r is Some <==> valid_utf8(b@),
        r is Some ==> r->Some_0@ == decode_utf8(b@),
{
    String::from_utf8(b).ok()
}

/// Tells whether `pat` occurs in `b` at `pos`.
fn occurs_at_exec(b: &Vec<u8>, pos: usize, pat: &Vec<u8>) -> (r: bool)
    ensures
        r == occurs_at(b@, pos as int, pat@),
{
    if pat.len() > b.len() || pos > b.len() - pat.len() {
        return false;
    }
    let mut i: usize = 0;
    while i < pat.len()
        invariant
            pos + pat@.len() <= b@.len(),
            b@.len() <= usize::MAX,
            i <= pat@.len(),
            forall|j: int| 0 <= j < i ==> b@[pos + j] == pat@[j],
        decreases pat@.len() - i,
    {
        if b[pos + i] != pat[i] {
            assert(b@.subrange(pos as int, pos + pat@.len())[i as int] != pat@[i as int]);
            return false;
        }
        i = i + 1;
    }
    assert(b@.subrange(pos as int, pos + pat@.len()) =~= pat@);
    true
}

/// Reads a LEB128 number at `pos` and its length, taking only the shortest
/// form of the number.
fn read_canonical_varint(b: &Vec<u8>, pos: usize) -> (r: Option<(u64, usize)>)
    requires
        pos <= b@.len(),
    ensures
        r matches Some((v, n)) ==> n == varint(v as nat).len() && occurs_at(b@, pos as int, varint(v as nat)),
        forall|v: u64| #[trigger] occurs_at(b@, pos as int, varint(v as nat)) ==> r == Some((v, varint(v as nat).len() as usize)),
{
    match read_varint(b, pos) {
        Ok(v) => {
            let mut form: Vec<u8> = Vec::new();
            put_varint(v, &mut form);
            assert(form@ =~= varint(v as nat));
            if occurs_at_exec(b, pos, &form) {
                Some((v, form.len()))
            } else {
                None
            }
        },
        Err(_) => None,
    }
}

proof fn lemma_varint_first(v: nat)
    ensures
        varint(v).len() >= 1,
        (varint(v)[0] < 128) == (v < 128),
{
}

/// A LEB128 number is read back whole from the front of a longer sequence:
/// no encoding is a proper prefix of another.
pub proof fn lemma_varint_prefix(a: nat, b: nat, r1: Seq<u8>, r2: Seq<u8>)
    requires
        varint(a) + r1 == varint(b) + r2,
    ensures
        a == b,
        r1 == r2,
    decreases a,
{
    let x = varint(a) + r1;
    lemma_varint_first(a);
    lemma_varint_first(b);
    assert(x[0] == varint(a)[0]);
    assert(x[0] == varint(b)[0]);
    if a < 128 {
        assert(x.drop_first() =~= r1);
        assert(x.drop_first() =~= r2);
    } else {
        assert(a % 128 == b % 128);
        assert(x.drop_first() =~= varint(a / 128) + r1);
        assert(x.drop_first() =~= varint(b / 128) + r2);
        lemma_varint_prefix(a / 128, b / 128, r1, r2);
    }
}

proof fn lemma_utf8_injective(d1: Seq<char>, d2: Seq<char>)
    requires
        encode_utf8(d1) == encode_utf8(d2),
    ensures
        d1 == d2,
{
    encode_utf8_decode_utf8(d1);
    encode_utf8_decode_utf8(d2);
}

proof fn lemma_tail_injective(d1: Seq<char>, c1: bool, d2: Seq<char>, c2: bool)
    requires
        description_field(d1) + completed_field(c1) == description_field(d2) + completed_field(c2),
    ensures
        d1 == d2,
        c1 == c2,
{
    let x = description_field(d1) + completed_field(c1);
    if d1.len() > 0 && d2.len() > 0 {
        let u1 = encode_utf8(d1);
        let u2 = encode_utf8(d2);
        assert(x.drop_first() =~= varint(u1.len()) + (u1 + completed_field(c1)));
        assert(x.drop_first() =~= varint(u2.len()) + (u2 + completed_field(c2)));
        lemma_varint_prefix(u1.len(), u2.len(), u1 + completed_field(c1), u2 + completed_field(c2));
        assert(u1 =~= (u1 + completed_field(c1)).subrange(0, u1.len() as int));
        assert(u2 =~= (u2 + completed_field(c2)).subrange(0, u2.len() as int));
        lemma_utf8_injective(d1, d2);
        assert(completed_field(c1) =~= (u1 + completed_field(c1)).subrange(u1.len() as int, x.len() - 1 - varint(u1.len()).len()));
        assert(completed_field(c2) =~= (u2 + completed_field(c2)).subrange(u2.len() as int, x.len() - 1 - varint(u2.len()).len()));
    } else if d1.len() > 0 {
        assert(x[0] == DESCRIPTION_KEY);
    } else if d2.len() > 0 {
        assert(x[0] == DESCRIPTION_KEY);
    } else {
        assert(x =~= completed_field(c1));
        assert(x =~= completed_field(c2));
        assert(d1 =~= d2);
    }
}

/// Two valid tasks with the same record are the same task.
pub proof fn lemma_encode_injective(t1: TaskModel, t2: TaskModel)
    requires
        valid_task(t1),
        valid_task(t2),
        encode_spec(t1) == encode_spec(t2),
    ensures
        t1 == t2,
{
    let x = encode_spec(t1);
    let tail1 = description_field(t1.description) + completed_field(t1.completed);
    let tail2 = description_field(t2.description) + completed_field(t2.completed);
    assert(x.drop_first() =~= varint(id_word(t1.id)) + tail1);
    assert(x.drop_first() =~= varint(id_word(t2.id)) + tail2);
    lemma_varint_prefix(id_word(t1.id), id_word(t2.id), tail1, tail2);
    lemma_tail_injective(t1.description, t1.completed, t2.description, t2.completed);
}

/// Decoding the record of a valid task gives that task back.
pub proof fn lemma_round_trip(t: TaskModel)
    requires
        valid_task(t),
    ensures
        is_record(encode_spec(t)),
        decode_spec(encode_spec(t)) == t,
{
    assert(is_record_of(encode_spec(t), t));
    let u = decode_spec(encode_spec(t));
    lemma_encode_injective(u, t);
}

/// Copies `b[from..from + n]`.
fn copy_range(b: &Vec<u8>, from: usize, n: usize) -> (r: Vec<u8>)
    requires
        from + n <= b@.len(),
    ensures
        r@ == b@.subrange(from as int, from + n),
{
    let mut out: Vec<u8> = Vec::new();
    let total = b.len();
    let mut i: usize = 0;
    while i < n
        invariant
            from + n <= b@.len(),
            i <= n,
            b@.len() <= usize::MAX,
            out@ == b@.subrange(from as int, from + i),
        decreases n - i,
    {
        out.push(b[from + i]);
        i = i + 1;
        assert(out@ =~= b@.subrange(from as int, from + i));
    }
    out
}

/// Reads the id field at the start of `b`.
fn read_id(b: &Vec<u8>) -> (r: Option<(i32, usize)>)
    ensures
        r matches Some((id, p)) ==> id >= 1 && p == id_field(id).len() && occurs_at(b@, 0, id_field(id)),
        forall|id: i32| id >= 1 && #[trigger] occurs_at(b@, 0, id_field(id)) ==> r == Some((id, id_field(id).len() as usize)),
{
    proof {
        assert forall|id: i32| id >= 1 && #[trigger] occurs_at(b@, 0, id_field(id)) implies occurs_at(b@, 1, varint((id as u64) as nat)) by {
            let f = id_field(id);
            assert(b@.subrange(1, f.len() as int) =~= f.subrange(1, f.len() as int));
            assert(f.subrange(1, f.len() as int) =~= varint((id as u64) as nat));
        }
    }
    if b.len() == 0 || b[0] != ID_KEY {
        proof {
            assert forall|id: i32| id >= 1 implies !occurs_at(b@, 0, #[trigger] id_field(id)) by {
                if occurs_at(b@, 0, id_field(id)) {
                    assert(b@.subrange(0, id_field(id).len() as int)[0] == b@[0]);
                }
            }
        }
        return None;
    }
    let (word, n) = match read_canonical_varint(b, 1) {
        Some(p) => p,
        None => {
            return None;
        },
    };
    if word < 1 || word > 0x7fff_ffff {
        return None;
    }
    let id = word as i32;
    assert(b@.subrange(0, 1 + n) =~= id_field(id));
    Some((id, 1 + n))
}

/// Reads the description field, if there is one, at `pos`.
fn read_description(b: &Vec<u8>, pos: usize) -> (r: Option<(String, usize)>)
    requires
        pos <= b@.len(),
    ensures
        r matches Some((s, p)) ==> p == pos + description_field(s@).len() && occurs_at(b@, pos as int, description_field(s@)),
        forall|d: Seq<char>, c: bool| b@.subrange(pos as int, b@.len() as int) == #[trigger] description_field(d) + #[trigger] completed_field(c)
            ==> (r matches Some((s, p)) && s@ == d && p == pos + description_field(d).len()),
{
    let len = b.len();
    if pos < len && b[pos] == DESCRIPTION_KEY {
        proof {
            assert forall|d: Seq<char>, c: bool| b@.subrange(pos as int, len as int) == #[trigger] description_field(d) + #[trigger] completed_field(c)
                implies d.len() > 0 && occurs_at(b@, pos + 1, varint((encode_utf8(d).len() as u64) as nat)) by {
                let x = description_field(d) + completed_field(c);
                assert(x[0] == b@[pos as int]);
                if d.len() == 0 {
                    assert(x =~= completed_field(c));
                }
                let u = encode_utf8(d);
                let vl = varint(u.len()).len() as int;
                assert(description_field(d) =~= seq![DESCRIPTION_KEY] + varint(u.len()) + u);
                assert(x.len() >= 1 + vl + u.len());
                assert(x.subrange(1, 1 + vl) =~= varint(u.len()));
                assert(b@.subrange(pos + 1, pos + 1 + vl) =~= x.subrange(1, 1 + vl));
            }
        }
        let (l, n2) = match read_canonical_varint(b, pos + 1) {
            Some(p) => p,
            None => {
                return None;
            },
        };
        let q = pos + 1 + n2;
        if l == 0 || l > (len - q) as u64 {
            proof {
                assert forall|d: Seq<char>, c: bool| b@.subrange(pos as int, len as int) == #[trigger] description_field(d) + #[trigger] completed_field(c)
                    implies false by {
                    let u = encode_utf8(d);
                    assert(b@.subrange(pos as int, len as int).subrange(1 + n2 as int, 1 + n2 + u.len()) =~= u);
                }
            }
            return None;
        }
        let bytes = copy_range(b, q, l as usize);
        let ghost bytes_view = bytes@;
        proof {
            assert forall|d: Seq<char>, c: bool| b@.subrange(pos as int, len as int) == #[trigger] description_field(d) + #[trigger] completed_field(c)
                implies bytes_view == encode_utf8(d) && valid_utf8(bytes_view) by {
                let u = encode_utf8(d);
                assert(b@.subrange(pos as int, len as int).subrange(1 + n2 as int, 1 + n2 + u.len()) =~= u);
                assert(bytes_view =~= u);
                encode_utf8_valid_utf8(d);
            }
        }
        let description = match string_from_utf8(bytes) {
            Some(s) => s,
            None => {
                return None;
            },
        };
        proof {
            decode_utf8_encode_utf8(bytes_view);
            assert forall|d: Seq<char>, c: bool| b@.subrange(pos as int, len as int) == #[trigger] description_field(d) + #[trigger] completed_field(c)
                implies description@ == d by {
                encode_utf8_decode_utf8(d);
            }
        }
        let p = q + l as usize;
        assert(b@.subrange(pos as int, p as int) =~= description_field(description@));
        Some((description, p))
    } else {
        let description = String::new();
        proof {
            assert(description@ =~= Seq::<char>::empty());
            assert(b@.subrange(pos as int, pos as int) =~= description_field(description@));
            assert forall|d: Seq<char>, c: bool| b@.subrange(pos as int, len as int) == #[trigger] description_field(d) + #[trigger] completed_field(c)
                implies d =~= description@ by {
                if d.len() > 0 {
                    let x = description_field(d) + completed_field(c);
                    assert(x[0] == b@[pos as int]);
                }
            }
        }
        Some((description, pos))
    }
}

/// Reads the completed field, if there is one, which must end `b`.
fn read_completed(b: &Vec<u8>, pos: usize) -> (r: Option<bool>)
    requires
        pos <= b@.len(),
    ensures
        r matches Some(c) ==> b@.subrange(pos as int, b@.len() as int) == completed_field(c),
        forall|c: bool| b@.subrange(pos as int, b@.len() as int) == #[trigger] completed_field(c) ==> r == Some(c),
{
    let len = b.len();
    let ghost rest = b@.subrange(pos as int, len as int);
    assert(completed_field(true) =~= seq![COMPLETED_KEY, 1u8]);
    assert(completed_field(false) =~= Seq::<u8>::empty());
    if pos == len {
        assert(rest =~= completed_field(false));
        Some(false)
    } else if len - pos == 2 && b[pos] == COMPLETED_KEY && b[pos + 1] == 1 {
        assert(rest =~= completed_field(true));
        Some(true)
    } else {
        proof {
            assert forall|c: bool| rest != #[trigger] completed_field(c) by {
                if rest == completed_field(c) {
                    if c {
                        assert(rest.len() == 2);
                        assert(rest[0] == b@[pos as int]);
                        assert(rest[1] == b@[pos + 1]);
                    } else {
                        assert(rest.len() == 0);
                    }
                }
            }
        }
        None
    }
}

/// Reads a task back from its record. Only the records of valid tasks, as
/// `encode` writes them, are accepted; anything else, the empty sequence
/// included, is a decode error.
pub fn decode(b: &Vec<u8>) -> (r: Result<Task, MyError>)
    ensures
        r is Ok <==> is_record(b@),
        r matches Ok(t) ==> is_record_of(b@, t@) && t@ == decode_spec(b@),
        r matches Err(e) ==> e == MyError::Decode,
{
    let ghost w = decode_spec(b@);
    proof {
        if is_record(b@) {
            assert(b@.subrange(0, id_field(w.id).len() as int) =~= id_field(w.id));
            assert(occurs_at(b@, 0, id_field(w.id)));
        }
    }
    let (id, after_id) = match read_id(b) {
        Some(x) => x,
        None => {
            return Err(MyError::Decode);
        },
    };
    proof {
        if is_record(b@) {
            assert(b@.subrange(after_id as int, b@.len() as int) =~= description_field(w.description) + completed_field(w.completed));
        }
    }
    let (description, after_description) = match read_description(b, after_id) {
        Some(x) => x,
        None => {
            return Err(MyError::Decode);
        },
    };
    proof {
        if is_record(b@) {
            assert(b@.subrange(after_description as int, b@.len() as int) =~= completed_field(w.completed));
        }
    }
    let completed = match read_completed(b, after_description) {
        Some(c) => c,
        None => {
            return Err(MyError::Decode);
        },
    };
    let task = Task { id, description, completed };
    proof {
        assert(b@ =~= b@.subrange(0, after_id as int) + b@.subrange(after_id as int, after_description as int) + b@.subrange(after_description as int, b@.len() as int));
        assert(b@ =~= encode_spec(task@));
        assert(is_record_of(b@, task@));
        lemma_encode_injective(decode_spec(b@), task@);
    }
    Ok(task)
}

} // verus!
