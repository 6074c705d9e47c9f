use task_tracker::codec::{decode, encode, Task};
use task_tracker::error::MyError;
use task_tracker::service::{assign_id, collect_tasks, create_record, task_key, update_record, COUNTER_KEY, ID_SET_KEY};

fn task(id: i32, description: &str, completed: bool) -> Task {
    Task { id, description: description.to_string(), completed }
}

fn same(a: &Task, b: &Task) -> bool {
    a.id == b.id && a.description == b.description && a.completed == b.completed
}

#[test]
fn encode_walk_the_dog() {
    let bytes = encode(&task(1, "Walk the dog", false));
    let mut expected = vec![0x08, 0x01, 0x12, 12];
    expected.extend_from_slice(b"Walk the dog");
    assert_eq!(bytes, expected);
}

#[test]
fn encode_completed_and_multibyte_id() {
    let bytes = encode(&task(300, "X", true));
    assert_eq!(bytes, vec![0x08, 0xac, 0x02, 0x12, 1, b'X', 0x18, 0x01]);
}

#[test]
fn encode_leaves_out_defaults() {
    assert_eq!(encode(&task(5, "", false)), vec![0x08, 0x05]);
    assert_eq!(encode(&task(0, "", false)), Vec::<u8>::new());
}

#[test]
fn encode_negative_id_is_sign_extended() {
    let bytes = encode(&task(-1, "", false));
    assert_eq!(bytes, vec![0x08, 0xff, 0xff, 0xff, 0xff, 0xff, 0xff, 0xff, 0xff, 0xff, 0x01]);
}

#[test]
fn encode_is_deterministic() {
    let t = task(42, "Buy milk", true);
    assert_eq!(encode(&t), encode(&t.clone()));
}

#[test]
fn round_trip_several_tasks() {
    let tasks = vec![
        task(1, "Walk the dog", false),
        task(2, "", true),
        task(i32::MAX, "größer ✓ 🐕", true),
        task(128, &"a".repeat(300), false),
    ];
    for t in &tasks {
        let back = decode(&encode(t)).expect("record decodes");
        assert!(same(&back, t));
    }
}

#[test]
fn decode_empty_is_error() {
    assert!(matches!(decode(&vec![]), Err(MyError::Decode)));
}

#[test]
fn decode_truncated_is_error() {
    let bytes = encode(&task(7, "Walk the dog", true));
    for n in 0..bytes.len() {
        // The id field alone, and the record without its flag, are records in their own right.
        if n == 2 || n == bytes.len() - 2 {
            assert!(decode(&bytes[..n].to_vec()).is_ok());
            continue;
        }
        assert!(matches!(decode(&bytes[..n].to_vec()), Err(MyError::Decode)), "prefix of {} bytes", n);
    }
}

#[test]
fn decode_trailing_bytes_is_error() {
    let mut bytes = encode(&task(7, "x", false));
    bytes.push(0);
    assert!(matches!(decode(&bytes), Err(MyError::Decode)));
}

#[test]
fn decode_rejects_id_zero_and_negative() {
    assert!(matches!(decode(&vec![0x08, 0x00]), Err(MyError::Decode)));
    assert!(matches!(decode(&encode(&task(-4, "x", false))), Err(MyError::Decode)));
}

#[test]
fn decode_rejects_non_shortest_varint() {
    assert!(matches!(decode(&vec![0x08, 0x81, 0x00]), Err(MyError::Decode)));
}

#[test]
fn decode_rejects_bad_utf8_and_bad_flag() {
    assert!(matches!(decode(&vec![0x08, 0x01, 0x12, 0x01, 0xff]), Err(MyError::Decode)));
    assert!(matches!(decode(&vec![0x08, 0x01, 0x18, 0x00]), Err(MyError::Decode)));
    assert!(matches!(decode(&vec![0x08, 0x01, 0x12, 0x00]), Err(MyError::Decode)));
}

#[test]
fn decode_rejects_out_of_order_fields() {
    assert!(matches!(decode(&vec![0x12, 0x01, b'x', 0x08, 0x01]), Err(MyError::Decode)));
}

#[test]
fn task_key_layout() {
    assert_eq!(task_key(7), "task:7");
    assert_eq!(task_key(12345), "task:12345");
    assert_eq!(task_key(-3), "task:-3");
    assert_eq!(ID_SET_KEY, "task_ids");
    assert_eq!(COUNTER_KEY, "task_ids_counter");
}

#[test]
fn assign_id_accepts_positive_i32() {
    assert!(matches!(assign_id(1), Ok(1)));
    assert!(matches!(assign_id(i32::MAX as i64), Ok(i32::MAX)));
}

#[test]
fn assign_id_rejects_out_of_range() {
    assert!(matches!(assign_id(0), Err(MyError::Redis(_))));
    assert!(matches!(assign_id(-5), Err(MyError::Redis(_))));
    assert!(matches!(assign_id(i32::MAX as i64 + 1), Err(MyError::Redis(_))));
}

#[test]
fn ids_from_counter_increase() {
    let ids: Vec<i32> = (10..20i64).map(|c| assign_id(c).unwrap()).collect();
    for w in ids.windows(2) {
        assert!(w[0] < w[1]);
    }
    assert!(ids.iter().all(|&i| i > 9));
}

#[test]
fn create_then_view() {
    let id = assign_id(1).unwrap();
    let (created, bytes) = create_record(id, "Walk the dog".to_string());
    assert!(same(&created, &task(1, "Walk the dog", false)));
    let listed = collect_tasks(&vec![bytes]).unwrap();
    assert_eq!(listed.len(), 1);
    assert!(same(&listed[0], &created));
}

#[test]
fn update_preserves_identity() {
    let (created, bytes) = create_record(8, "X".to_string());
    let (updated, new_bytes) = update_record(&bytes, true).unwrap();
    assert!(same(&updated, &task(8, "X", true)));
    assert_eq!(new_bytes, encode(&updated));
    let listed = collect_tasks(&vec![new_bytes]).unwrap();
    assert!(same(&listed[0], &task(created.id, "X", true)));
    let (back, _) = update_record(&encode(&updated), false).unwrap();
    assert!(same(&back, &task(8, "X", false)));
}

#[test]
fn update_unknown_id_fails() {
    assert!(matches!(update_record(&Vec::new(), true), Err(MyError::Decode)));
}

#[test]
fn many_creates_all_listed() {
    let m = 50;
    let mut records = Vec::new();
    for c in 1..=m {
        let id = assign_id(c).unwrap();
        let (_, bytes) = create_record(id, format!("task {}", c));
        records.push(bytes);
    }
    let listed = collect_tasks(&records).unwrap();
    assert_eq!(listed.len(), m as usize);
    for (i, t) in listed.iter().enumerate() {
        assert_eq!(t.id, i as i32 + 1);
        assert_eq!(t.description, format!("task {}", i + 1));
        assert!(!t.completed);
    }
}

#[test]
fn view_fails_on_one_bad_record() {
    let (_, good) = create_record(1, "a".to_string());
    assert!(matches!(collect_tasks(&vec![good, vec![]]), Err(MyError::Decode)));
}

#[test]
fn view_of_nothing_is_empty() {
    assert_eq!(collect_tasks(&vec![]).unwrap().len(), 0);
}
