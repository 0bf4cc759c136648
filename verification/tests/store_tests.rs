use kvstore::store::{bytes_eq, delete_record, get_record, set_record, Record};

fn rec(key: &str, value: &str) -> Record {
    Record { key: key.as_bytes().to_vec(), value: value.as_bytes().to_vec() }
}

fn keys(records: &[Record]) -> Vec<Vec<u8>> {
    records.iter().map(|r| r.key.clone()).collect()
}

#[test]
fn set_appends_a_new_key() {
    let records = set_record(vec![rec("a", "1")], b"b".to_vec(), b"2".to_vec());
    assert_eq!(keys(&records), vec![b"a".to_vec(), b"b".to_vec()]);
    assert_eq!(records[1].value, b"2".to_vec());
}

#[test]
fn set_twice_leaves_one_record() {
    let once = set_record(Vec::new(), b"k".to_vec(), b"v".to_vec());
    let twice = set_record(once, b"k".to_vec(), b"v".to_vec());
    assert_eq!(twice.len(), 1);
    assert_eq!(twice[0].key, b"k".to_vec());
    assert_eq!(twice[0].value, b"v".to_vec());
}

#[test]
fn set_overwrites_and_moves_to_end() {
    let start = vec![rec("k", "v1"), rec("other", "x")];
    let updated = set_record(start, b"k".to_vec(), b"v2".to_vec());
    assert_eq!(keys(&updated), vec![b"other".to_vec(), b"k".to_vec()]);
    assert_eq!(updated[1].value, b"v2".to_vec());
}

#[test]
fn set_removes_every_duplicate() {
    let start = vec![rec("k", "1"), rec("a", "x"), rec("k", "2")];
    let updated = set_record(start, b"k".to_vec(), b"3".to_vec());
    assert_eq!(keys(&updated), vec![b"a".to_vec(), b"k".to_vec()]);
    assert_eq!(updated[1].value, b"3".to_vec());
}

#[test]
fn get_finds_first_match() {
    let records = vec![rec("k", "1"), rec("k", "2")];
    assert_eq!(get_record(&records, &b"k".to_vec()), Some(b"1".to_vec()));
}

#[test]
fn get_of_absent_key_is_none() {
    let records = vec![rec("a", "1")];
    assert_eq!(get_record(&records, &b"b".to_vec()), None);
}

#[test]
fn delete_of_absent_key_changes_nothing() {
    let start = vec![rec("a", "1"), rec("b", "2")];
    let (kept, found) = delete_record(start, &b"c".to_vec());
    assert!(!found);
    assert_eq!(keys(&kept), vec![b"a".to_vec(), b"b".to_vec()]);
}

#[test]
fn delete_removes_all_records_for_the_key() {
    let start = vec![rec("k", "1"), rec("a", "x"), rec("k", "2")];
    let (kept, found) = delete_record(start, &b"k".to_vec());
    assert!(found);
    assert_eq!(keys(&kept), vec![b"a".to_vec()]);
}

#[test]
fn bytes_eq_compares_contents() {
    assert!(bytes_eq(&b"abc".to_vec(), &b"abc".to_vec()));
    assert!(!bytes_eq(&b"abc".to_vec(), &b"abd".to_vec()));
    assert!(!bytes_eq(&b"abc".to_vec(), &b"ab".to_vec()));
}
