use journal::database::{Database, RecordSpan, SavePlan};
use journal::error::StoreError;
use journal::record::{
    decode_payload, encode_record, last_index, last_record_offset, next_index, record_size,
    split_records, INDEX_SIZE,
};

fn name(s: &str) -> String {
    s.to_string()
}

/// Carries out a save plan on an in-memory file, as the caller does on disk,
/// registering a new type once its file is created.
fn apply(db: &mut Database, t: &String, file: &mut Vec<u8>, plan: &SavePlan, payload: &Vec<u8>) {
    if plan.truncate {
        file.clear();
        db.register_type(t, payload.len()).unwrap();
    }
    let prev = match last_record_offset(file.len() as u64, plan.record_size) {
        Some(off) => {
            let off = off as usize;
            last_index(&file[off..off + INDEX_SIZE].to_vec())
        }
        None => None,
    };
    let record = encode_record(next_index(prev), payload);
    file.extend_from_slice(&record);
}

fn read_at(file: &Vec<u8>, span: RecordSpan) -> Vec<u8> {
    let start = (span.offset as usize).min(file.len());
    let end = (span.offset as usize + span.len).min(file.len());
    file[start..end].to_vec()
}

#[test]
fn round_trip_at_first_position() {
    let mut db = Database::new(name("data"));
    let t = name("app::Entry");
    let v = vec![1u8, 2, 3, 4];
    let plan = db.save(&t, &v).unwrap();
    assert!(plan.truncate);
    assert_eq!(plan.record_size, 12);
    assert_eq!(plan.path, "data/app::Entry");
    let mut file = vec![9u8; 30];
    apply(&mut db, &t, &mut file, &plan, &v);
    assert_eq!(file.len(), 12);
    let span = db.get(&t, 1, file.len() as u64).unwrap();
    assert_eq!(span, RecordSpan { offset: 0, len: 12 });
    assert_eq!(decode_payload(&read_at(&file, span), span.len), Ok(v));
}

#[test]
fn append_ordering_in_scan() {
    let mut db = Database::new(name("data"));
    let t = name("u16");
    let vals = vec![vec![1u8, 0], vec![2u8, 0], vec![3u8, 0]];
    let mut file: Vec<u8> = Vec::new();
    for (k, v) in vals.iter().enumerate() {
        let plan = db.save(&t, v).unwrap();
        assert_eq!(plan.truncate, k == 0);
        apply(&mut db, &t, &mut file, &plan, v);
    }
    assert_eq!(file.len(), 30);
    assert_eq!(db.get_all(&t, &file), Ok(vals));
}

#[test]
fn positional_addressing_and_out_of_range() {
    let mut db = Database::new(name("d"));
    let t = name("pair");
    let vals = vec![vec![10u8, 11], vec![20u8, 21], vec![30u8, 31]];
    let mut file: Vec<u8> = Vec::new();
    for v in vals.iter() {
        let plan = db.save(&t, v).unwrap();
        apply(&mut db, &t, &mut file, &plan, v);
    }
    let len = file.len() as u64;
    for i in 1..=3usize {
        let span = db.get(&t, i, len).unwrap();
        assert_eq!(span.offset, ((i - 1) * 10) as u64);
        assert_eq!(decode_payload(&read_at(&file, span), span.len), Ok(vals[i - 1].clone()));
    }
    assert_eq!(db.get(&t, 4, len), Err(StoreError::OutOfRange));
    assert_eq!(db.get(&t, 0, len), Err(StoreError::OutOfRange));
}

#[test]
fn index_field_counts_up() {
    let mut db = Database::new(name("d"));
    let t = name("byte");
    let mut file: Vec<u8> = Vec::new();
    for v in [vec![7u8], vec![8u8], vec![9u8]].iter() {
        let plan = db.save(&t, v).unwrap();
        apply(&mut db, &t, &mut file, &plan, v);
    }
    assert_eq!(&file[0..8], &0usize.to_ne_bytes());
    assert_eq!(&file[9..17], &1usize.to_ne_bytes());
    assert_eq!(&file[18..26], &2usize.to_ne_bytes());
}

#[test]
fn first_save_in_new_session_truncates() {
    let t = name("app::Entry");
    let mut earlier = Database::new(name("data"));
    let mut file: Vec<u8> = Vec::new();
    for v in [vec![1u8, 1], vec![2u8, 2]].iter() {
        let plan = earlier.save(&t, v).unwrap();
        apply(&mut earlier, &t, &mut file, &plan, v);
    }
    assert_eq!(file.len(), 20);
    let mut db = Database::new(name("data"));
    let v = vec![5u8, 5];
    let plan = db.save(&t, &v).unwrap();
    assert!(plan.truncate);
    apply(&mut db, &t, &mut file, &plan, &v);
    assert_eq!(file.len(), 10);
    assert_eq!(db.get_all(&t, &file), Ok(vec![v]));
}

#[test]
fn save_decision_leaves_registry_unchanged() {
    let db = Database::new(name("missing_folder"));
    let t = name("app::Entry");
    let plan = db.save(&t, &vec![1u8, 2, 3]).unwrap();
    assert!(plan.truncate);
    // The file could not be created, so the type is never registered.
    assert_eq!(db.record_size_of(&t), None);
    assert_eq!(db.get(&t, 1, 0), Err(StoreError::NotRegistered));
    assert!(db.save(&t, &vec![4u8, 5, 6]).unwrap().truncate);
}

#[test]
fn appended_index_steps_past_last_read_back() {
    let mut file = encode_record(41, &vec![1u8]);
    file.extend_from_slice(&encode_record(41, &vec![2u8]));
    let off = last_record_offset(file.len() as u64, 9).unwrap() as usize;
    let next = next_index(last_index(&file[off..off + INDEX_SIZE].to_vec()));
    assert_eq!(next, 42);
    assert_eq!(&encode_record(next, &vec![3u8])[0..8], &42usize.to_ne_bytes());
}

#[test]
fn empty_file_is_an_error() {
    let mut db = Database::new(name("d"));
    let t = name("word");
    assert_eq!(db.register_type(&t, 8), Ok(name("d/word")));
    assert_eq!(db.get(&t, 1, 0), Err(StoreError::Empty));
    assert_eq!(db.get_all(&t, &Vec::new()), Err(StoreError::Empty));
}

#[test]
fn unregistered_type_is_an_error() {
    let db = Database::new(name("d"));
    let t = name("word");
    let file = vec![0u8; 32];
    assert_eq!(db.get(&t, 1, 32), Err(StoreError::NotRegistered));
    assert_eq!(db.get_all(&t, &file), Err(StoreError::NotRegistered));
    assert_eq!(db.record_size_of(&t), None);
}

#[test]
fn scan_stops_before_partial_record() {
    let mut db = Database::new(name("d"));
    let t = name("trio");
    let vals = vec![vec![1u8, 2, 3], vec![4u8, 5, 6]];
    let mut file: Vec<u8> = Vec::new();
    for v in vals.iter() {
        let plan = db.save(&t, v).unwrap();
        apply(&mut db, &t, &mut file, &plan, v);
    }
    file.extend_from_slice(&[0u8; 5]);
    let all = db.get_all(&t, &file).unwrap();
    assert_eq!(all.len(), 2);
    assert_eq!(all, vals);
}

#[test]
fn save_with_other_size_is_refused() {
    let mut db = Database::new(name("d"));
    let t = name("pair");
    let mut file: Vec<u8> = Vec::new();
    let v = vec![1u8, 2];
    let plan = db.save(&t, &v).unwrap();
    apply(&mut db, &t, &mut file, &plan, &v);
    assert_eq!(db.save(&t, &vec![1u8, 2, 3]).err(), Some(StoreError::SizeMismatch));
    assert_eq!(db.record_size_of(&t), Some(10));
}

#[test]
fn oversized_record_is_refused() {
    let mut db = Database::new(name("d"));
    let t = name("huge");
    assert_eq!(db.register_type(&t, usize::MAX), Err(StoreError::TooLarge));
    assert_eq!(db.record_size_of(&t), None);
    assert_eq!(record_size(usize::MAX - 7), None);
    assert_eq!(record_size(usize::MAX - 8), Some(usize::MAX));
    assert_eq!(record_size(4), Some(12));
}

#[test]
fn register_again_resets_and_resizes() {
    let mut db = Database::new(name("root"));
    let t = name("t");
    assert_eq!(db.register_type(&t, 4), Ok(name("root/t")));
    assert_eq!(db.register_type(&t, 2), Ok(name("root/t")));
    assert_eq!(db.record_size_of(&t), Some(10));
    let plan = db.save(&t, &vec![1u8, 2]).unwrap();
    assert!(!plan.truncate);
    assert_eq!(db.file_path(&t), "root/t");
}

#[test]
fn encode_record_lays_index_then_payload() {
    let r = encode_record(7, &vec![0xAAu8, 0xBB]);
    assert_eq!(r.len(), INDEX_SIZE + 2);
    assert_eq!(&r[0..8], &7usize.to_ne_bytes());
    assert_eq!(&r[8..], &[0xAAu8, 0xBB]);
}

#[test]
fn last_index_reads_native_word() {
    assert_eq!(last_index(&41usize.to_ne_bytes().to_vec()), Some(41));
    assert_eq!(last_index(&vec![1u8, 2, 3]), None);
    assert_eq!(next_index(Some(41)), 42);
    assert_eq!(next_index(None), 0);
    assert_eq!(next_index(Some(usize::MAX)), 0);
}

#[test]
fn last_record_offset_finds_last_complete_record() {
    assert_eq!(last_record_offset(36, 12), Some(24));
    assert_eq!(last_record_offset(30, 12), Some(12));
    assert_eq!(last_record_offset(12, 12), Some(0));
    assert_eq!(last_record_offset(5, 12), None);
    assert_eq!(last_record_offset(0, 12), None);
}

#[test]
fn decode_payload_strips_index_or_reports_short_read() {
    let mut rec = 3usize.to_ne_bytes().to_vec();
    rec.extend_from_slice(&[4u8, 5]);
    assert_eq!(decode_payload(&rec, 10), Ok(vec![4u8, 5]));
    assert_eq!(decode_payload(&rec[..9].to_vec(), 10), Err(StoreError::OutOfRange));
}

#[test]
fn split_records_exact_payloads() {
    let mut file = Vec::new();
    file.extend_from_slice(&encode_record(0, &vec![1u8]));
    file.extend_from_slice(&encode_record(1, &vec![2u8]));
    assert_eq!(split_records(&file, 9), vec![vec![1u8], vec![2u8]]);
    assert_eq!(split_records(&Vec::new(), 9), Vec::<Vec<u8>>::new());
}
