use kvstore::codec::{load_records, parse_line_bytes, save_records};
use kvstore::store::Record;

fn rec(key: &str, value: &str) -> Record {
    Record { key: key.as_bytes().to_vec(), value: value.as_bytes().to_vec() }
}

#[test]
fn load_of_empty_content_is_empty() {
    let records = load_records(&Vec::new());
    assert_eq!(records.len(), 0);
}

#[test]
fn load_reads_one_line() {
    let records = load_records(&b"alpha,one\n".to_vec());
    assert_eq!(records.len(), 1);
    assert_eq!(records[0].key, b"alpha".to_vec());
    assert_eq!(records[0].value, b"one".to_vec());
}

#[test]
fn load_keeps_file_order() {
    let records = load_records(&b"b,2\na,1\nc,3\n".to_vec());
    let keys: Vec<Vec<u8>> = records.iter().map(|r| r.key.clone()).collect();
    assert_eq!(keys, vec![b"b".to_vec(), b"a".to_vec(), b"c".to_vec()]);
}

#[test]
fn load_skips_blank_and_comma_less_lines() {
    let records = load_records(&b"\n  \nnocomma\na,1\n\n".to_vec());
    assert_eq!(records.len(), 1);
    assert_eq!(records[0].key, b"a".to_vec());
}

#[test]
fn load_trims_surrounding_whitespace() {
    let records = load_records(&b"  a,1  \n".to_vec());
    assert_eq!(records.len(), 1);
    assert_eq!(records[0].key, b"a".to_vec());
    assert_eq!(records[0].value, b"1".to_vec());
}

#[test]
fn load_splits_on_first_comma_only() {
    let records = load_records(&b"k,a,b,c\n".to_vec());
    assert_eq!(records.len(), 1);
    assert_eq!(records[0].key, b"k".to_vec());
    assert_eq!(records[0].value, b"a,b,c".to_vec());
}

#[test]
fn load_keeps_duplicate_keys() {
    let records = load_records(&b"k,1\nk,2\n".to_vec());
    assert_eq!(records.len(), 2);
    assert_eq!(records[0].value, b"1".to_vec());
    assert_eq!(records[1].value, b"2".to_vec());
}

#[test]
fn load_accepts_missing_final_newline() {
    let records = load_records(&b"a,1\nb,2".to_vec());
    assert_eq!(records.len(), 2);
    assert_eq!(records[1].key, b"b".to_vec());
}

#[test]
fn load_accepts_empty_key_and_value() {
    let records = load_records(&b",\n".to_vec());
    assert_eq!(records.len(), 1);
    assert_eq!(records[0].key, b"".to_vec());
    assert_eq!(records[0].value, b"".to_vec());
}

#[test]
fn save_writes_one_line_per_record() {
    let content = save_records(&vec![rec("a", "1"), rec("b", "2")]);
    assert_eq!(content, b"a,1\nb,2\n".to_vec());
}

#[test]
fn save_of_no_records_writes_nothing() {
    let content = save_records(&Vec::new());
    assert_eq!(content, b"".to_vec());
}

#[test]
fn save_then_load_round_trips() {
    let original = vec![rec("alpha", "one two"), rec("beta", "2"), rec("gamma", "x")];
    let reloaded = load_records(&save_records(&original));
    assert_eq!(reloaded.len(), 3);
    for (a, b) in original.iter().zip(reloaded.iter()) {
        assert_eq!(a.key, b.key);
        assert_eq!(a.value, b.value);
    }
}

#[test]
fn comma_in_value_survives_save_and_load() {
    let original = vec![rec("k", "a,b")];
    let reloaded = load_records(&save_records(&original));
    assert_eq!(reloaded.len(), 1);
    assert_eq!(reloaded[0].key, b"k".to_vec());
    assert_eq!(reloaded[0].value, b"a,b".to_vec());
}

#[test]
fn parse_line_splits_at_first_comma() {
    let parsed = parse_line_bytes(&b" k,v ".to_vec()).unwrap();
    assert_eq!(parsed.key, b"k".to_vec());
    assert_eq!(parsed.value, b"v".to_vec());
}

#[test]
fn parse_line_rejects_blank_and_comma_less() {
    assert!(parse_line_bytes(&b"   ".to_vec()).is_none());
    assert!(parse_line_bytes(&b"nocomma".to_vec()).is_none());
}
