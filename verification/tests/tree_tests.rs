//! Tests of the value tree, patch keys, UTF-8 validity and error texts.

use scn_patch::errors::PatchError;
use scn_patch::patch::parse_index;
use scn_patch::utf8::is_utf8_bytes;
use scn_patch::values::collect_string_indices;
use scn_patch::values::get_value;
use scn_patch::values::push_unique;
use scn_patch::values::read_items;
use scn_patch::values::script_line;
use scn_patch::values::Value;

#[test]
fn parse_index_accepts_plain_numbers() {
    assert_eq!(parse_index(&b"0".to_vec()), Some(0));
    assert_eq!(parse_index(&b"123".to_vec()), Some(123));
    assert_eq!(parse_index(&b"05".to_vec()), Some(5));
    assert_eq!(parse_index(&b"4294967295".to_vec()), Some(4294967295));
}

#[test]
fn parse_index_rejects_everything_else() {
    assert_eq!(parse_index(&b"".to_vec()), None);
    assert_eq!(parse_index(&b"12a".to_vec()), None);
    assert_eq!(parse_index(&b"-1".to_vec()), None);
    assert_eq!(parse_index(&b" 1".to_vec()), None);
    assert_eq!(parse_index(&b"4294967296".to_vec()), None);
    assert_eq!(parse_index(&b"99999999999999999999".to_vec()), None);
}

#[test]
fn utf8_accepts_well_formed_sequences() {
    assert!(is_utf8_bytes(&b"".to_vec()));
    assert!(is_utf8_bytes(&b"plain ascii".to_vec()));
    assert!(is_utf8_bytes(&vec![0xC3, 0xA9])); // two-byte scalar
    assert!(is_utf8_bytes(&vec![0xE3, 0x81, 0x82])); // three-byte scalar
    assert!(is_utf8_bytes(&vec![0xF4, 0x8F, 0xBF, 0xBF])); // last scalar value
}

#[test]
fn utf8_rejects_malformed_sequences() {
    assert!(!is_utf8_bytes(&vec![0xFF]));
    assert!(!is_utf8_bytes(&vec![0x80])); // bare continuation
    assert!(!is_utf8_bytes(&vec![0xC3])); // truncated
    assert!(!is_utf8_bytes(&vec![0xC0, 0x80])); // overlong
    assert!(!is_utf8_bytes(&vec![0xE0, 0x80, 0x80])); // overlong
    assert!(!is_utf8_bytes(&vec![0xED, 0xA0, 0x80])); // surrogate
    assert!(!is_utf8_bytes(&vec![0xF4, 0x90, 0x80, 0x80])); // past the last scalar
}

#[test]
fn collect_indices_deduplicates_in_first_appearance_order() {
    let root = Value::Object(vec![
        (b"title".to_vec(), Value::StringRef(5)),
        (
            b"texts".to_vec(),
            Value::List(vec![Value::StringRef(3), Value::Scalar, Value::StringRef(5)]),
        ),
        (b"again".to_vec(), Value::StringRef(3)),
        (b"last".to_vec(), Value::StringRef(9)),
    ]);
    assert_eq!(collect_string_indices(&root), vec![5, 3, 9]);
}

#[test]
fn collect_indices_of_leaf_values() {
    assert_eq!(collect_string_indices(&Value::Scalar), Vec::<u64>::new());
    assert_eq!(collect_string_indices(&Value::StringRef(7)), vec![7]);
}

#[test]
fn read_items_flattens_nested_lists() {
    let list = vec![
        Value::List(vec![Value::StringRef(1), Value::StringRef(2)]),
        Value::StringRef(3),
        Value::StringRef(4),
    ];
    let items = read_items(3, &list);
    assert_eq!(items.len(), 3);
    assert_eq!(items[0], &Value::StringRef(1));
    assert_eq!(items[1], &Value::StringRef(2));
    assert_eq!(items[2], &Value::StringRef(3));
}

#[test]
fn read_items_stops_when_items_run_out() {
    let list = vec![Value::Scalar, Value::List(vec![Value::StringRef(8)])];
    let items = read_items(5, &list);
    assert_eq!(items.len(), 2);
    assert_eq!(items[0], &Value::Scalar);
    assert_eq!(items[1], &Value::StringRef(8));
}

#[test]
fn read_items_takes_nothing_for_zero_count() {
    let list = vec![Value::StringRef(1)];
    assert_eq!(read_items(0, &list).len(), 0);
}

#[test]
fn push_unique_keeps_first_appearances() {
    let mut acc: Vec<u64> = Vec::new();
    push_unique(&mut acc, 4);
    push_unique(&mut acc, 2);
    push_unique(&mut acc, 4);
    push_unique(&mut acc, 7);
    assert_eq!(acc, vec![4, 2, 7]);
}

#[test]
fn get_value_finds_the_first_matching_key() {
    let obj = Value::Object(vec![
        (b"title".to_vec(), Value::StringRef(1)),
        (b"texts".to_vec(), Value::Scalar),
        (b"title".to_vec(), Value::StringRef(2)),
    ]);
    assert_eq!(get_value(&obj, b"title"), Some(&Value::StringRef(1)));
    assert_eq!(get_value(&obj, b"texts"), Some(&Value::Scalar));
    assert_eq!(get_value(&obj, b"missing"), None);
    assert_eq!(get_value(&Value::Scalar, b"title"), None);
}

#[test]
fn script_line_reads_speaker_substitute_and_text() {
    let record = vec![
        Value::List(vec![Value::StringRef(10), Value::Scalar]),
        Value::StringRef(30),
    ];
    assert_eq!(script_line(&record), Some((Some(10), None, 30)));
}

#[test]
fn script_line_needs_a_text_reference() {
    // fewer than three items
    assert_eq!(script_line(&vec![Value::StringRef(1), Value::StringRef(2)]), None);
    // third item is no string reference
    let record = vec![Value::StringRef(1), Value::StringRef(2), Value::Scalar];
    assert_eq!(script_line(&record), None);
}

#[test]
fn error_descriptions_name_the_failure() {
    assert_eq!(PatchError::MalformedHeader.describe(), "malformed header");
    assert_eq!(PatchError::MalformedOffsets.describe(), "malformed offset table");
    assert_eq!(PatchError::CorruptStringTable.describe(), "corrupt string table");
    assert_eq!(PatchError::IndexOutOfRange.describe(), "patch key out of range");
}
