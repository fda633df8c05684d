use std::cmp::Ordering;

use rust_htip::dispatcher::ParserKey;
use rust_htip::linters::{CheckEndTlv, InvalidChars, Linter, TLV1Linter};
use rust_htip::subkeys::Storage;
use rust_htip::{Lint, LintEntry, ParseData, TlvKey, TlvType, TLV};

#[test]
fn check_end_tlv_lints_on_empty_input() {
    let entries = vec![];
    let linter = CheckEndTlv;
    let result = linter.lint(&entries);
    assert_eq!(result.len(), 1);
    assert_eq!(result[0].lint, Lint::Error(1));
}

#[test]
fn check_end_tlv_lints_on_wrong_last_entry() {
    let entries = vec![(TlvKey::new(1, vec![]), ParseData::Null)];
    let linter = CheckEndTlv;
    let result = linter.lint(&entries);
    assert_eq!(result.len(), 1);
    assert_eq!(result[0].lint, Lint::Error(1));
}

#[test]
fn check_end_tlv_doesnt_lint_on_correct_last_entry() {
    let entries = vec![(TlvKey::new(0, vec![]), ParseData::Null)];
    let linter = CheckEndTlv;
    let result = linter.lint(&entries);
    assert_eq!(result.len(), 0);
}

#[test]
fn invalid_chars_in_device_category() {
    let entries = vec![
        (
            TlvKey::htip(b"\x01\x01".to_vec()),
            ParseData::Text("man_id\x00".to_string()),
        ),
        (TlvKey::new(0, b"".to_vec()), ParseData::Null),
    ];
    let linter = InvalidChars::new();
    let result = linter.lint(&entries);
    assert_eq!(result.len(), 1);
    assert_eq!(result[0].lint, Lint::Warning(1));
    assert_eq!(
        result[0]
            .tlv_key
            .as_ref()
            .expect("The linter must put a tlv key in its result!"),
        &TlvKey::htip(b"\x01\x01".to_vec())
    );
}

#[test]
fn invalid_chars_in_maker_code() {
    let entries = vec![
        //this is correct, it should not trigger an error!
        (
            TlvKey::htip(b"\x01\x01".to_vec()),
            ParseData::Text("device_category".to_string()),
        ),
        //this triggers error, all letters are wrong!
        (
            TlvKey::htip(b"\x01\x02".to_vec()),
            ParseData::Text("WRONG\x00".to_string()),
        ),
        //this is ok
        (TlvKey::new(0, b"".to_vec()), ParseData::Null),
    ];
    let linter = InvalidChars::new();
    let result = linter.lint(&entries);
    assert_eq!(result.len(), 1);
    assert_eq!(
        result[0]
            .tlv_key
            .as_ref()
            .expect("The linter must put a tlv key in its result!"),
        &TlvKey::htip(b"\x01\x02".to_vec())
    );
}

#[test]
fn invalid_chars_in_maker_code_and_status_information() {
    let entries = vec![
        //this is correct, it should not trigger an error!
        (
            TlvKey::htip(b"\x01\x01".to_vec()),
            ParseData::Text("device_category".to_string()),
        ),
        //this triggers error, all letters are wrong!
        (
            TlvKey::htip(b"\x01\x02".to_vec()),
            ParseData::Text("WRONG\x00".to_string()),
        ),
        //this is ok
        (TlvKey::new(0, b"".to_vec()), ParseData::Null),
        (
            TlvKey::htip(b"\x01\x32".to_vec()),
            ParseData::Text("status with underscores _ and #sharps and null\x00".to_string()),
        ),
    ];
    let linter = InvalidChars::new();
    let result = linter.lint(&entries);
    assert_eq!(result.len(), 2);
    assert_eq!(
        result[0]
            .tlv_key
            .as_ref()
            .expect("The linter must put a tlv key in its result!"),
        &TlvKey::htip(b"\x01\x02".to_vec())
    );
    assert_eq!(
        result[1]
            .tlv_key
            .as_ref()
            .expect("The linter must put a tlv key in its result!"),
        &TlvKey::htip(b"\x01\x32".to_vec())
    );
}

#[test]
fn invalid_chars_out_of_order_entries_and_others_succeeds() {
    let entries = vec![
        //error!
        (
            TlvKey::htip(b"\x01\x32".to_vec()),
            ParseData::Text("status with underscores _ and #sharps and null\x00".to_string()),
        ),
        //this is ok
        (TlvKey::new(0, b"".to_vec()), ParseData::Null),
        //this triggers error, all letters are wrong!
        (
            TlvKey::htip(b"\x01\x02".to_vec()),
            ParseData::Text("WRONG\x00".to_string()),
        ),
        //this is correct, it should not trigger an error!
        (
            TlvKey::htip(b"\x01\x01".to_vec()),
            ParseData::Text("device_category".to_string()),
        ),
    ];
    let linter = InvalidChars::new();
    let result = linter.lint(&entries);
    assert_eq!(result.len(), 2);
    assert_eq!(
        result[0]
            .tlv_key
            .as_ref()
            .expect("The linter must put a tlv key in its result!"),
        &TlvKey::htip(b"\x01\x32".to_vec())
    );
    assert_eq!(
        result[1]
            .tlv_key
            .as_ref()
            .expect("The linter must put a tlv key in its result!"),
        &TlvKey::htip(b"\x01\x02".to_vec())
    );
}

#[test]
fn tlv1linter_multiple_tlvs_error() {
    let entries = vec![
        //first tlv type 1
        (
            TlvKey::new(1, vec![]),
            ParseData::TypedData(4, b"abcdef".to_vec()),
        ),
        //second tlv type 1
        (
            TlvKey::new(1, vec![]),
            ParseData::TypedData(4, b"abcdef".to_vec()),
        ),
    ];
    let linter = TLV1Linter;
    let result = linter.lint(&entries);

    let many_tlvs_lint = result
        .into_iter()
        .find(|entry| entry.lint == Lint::Error(2));
    match many_tlvs_lint {
        None => panic!("Multiple TLV type 1 error not raised!"),
        Some(entry) => assert_eq!(entry.tlv_key.unwrap().tlv_type, 1),
    }
}

#[test]
fn tlv1linter_invalid_mac() {
    let entries = vec![
        //first tlv type 1
        (
            TlvKey::new(1, vec![]),
            ParseData::TypedData(4, b"it doesn't matter, it's too long".to_vec()),
        ),
    ];
    let linter = TLV1Linter;
    let result = linter.lint(&entries);

    let many_tlvs_lint = result
        .into_iter()
        .find(|entry| entry.lint == Lint::Error(3));
    match many_tlvs_lint {
        None => panic!("Invalid MAC address error not raised!"),
        Some(entry) => assert_eq!(entry.tlv_key.unwrap().tlv_type, 1),
    }
}

#[test]
fn tlv1linter_no_lint_on_correct_mac6_entry() {
    let entries = vec![(
        TlvKey::new(1, vec![]),
        //subtype is 4, 6 bytes, we should be fine
        ParseData::TypedData(4, b"ABCDEF".to_vec()),
    )];
    let linter = TLV1Linter;
    let result = linter.lint(&entries);
    assert!(result.is_empty(), "there should not be any errors here!");
}

#[test]
fn tlv1linter_no_lint_on_correct_mac8_entry() {
    let entries = vec![(
        TlvKey::new(1, vec![]),
        //subtype is 4, 8 bytes(EUI64), we should be fine
        ParseData::TypedData(4, b"ABCDEF12".to_vec()),
    )];
    let linter = TLV1Linter;
    let result = linter.lint(&entries);
    assert!(result.is_empty(), "there should not be any errors here!");
}

#[test]
fn end_tlv_lint_fires_only_without_final_end() {
    let linter = Linter::CheckEndTlv(CheckEndTlv);
    let ends = vec![
        (TlvKey::new(0, vec![]), ParseData::Null),
        (TlvKey::new(1, vec![]), ParseData::Null),
    ];
    assert_eq!(linter.lint(&ends).len(), 1);
    let ends_last = vec![
        (TlvKey::new(1, vec![]), ParseData::Null),
        (TlvKey::new(0, vec![]), ParseData::Null),
    ];
    assert_eq!(linter.lint(&ends_last).len(), 0);
}

#[test]
fn chassis_duplicates_supersede_address_errors() {
    let entries = vec![
        (TlvKey::new(1, vec![]), ParseData::TypedData(4, b"too long address".to_vec())),
        (TlvKey::new(1, vec![]), ParseData::TypedData(4, b"too long address".to_vec())),
    ];
    let result = TLV1Linter.lint(&entries);
    assert_eq!(result.len(), 1);
    assert_eq!(result[0].lint, Lint::Error(2));
    let short = vec![(TlvKey::new(1, vec![]), ParseData::TypedData(4, b"abcd".to_vec()))];
    assert!(TLV1Linter.lint(&short).is_empty());
    let seven = vec![(TlvKey::new(1, vec![]), ParseData::TypedData(4, b"abcdefg".to_vec()))];
    assert_eq!(TLV1Linter.lint(&seven).len(), 1);
    let other_subtype = vec![(TlvKey::new(1, vec![]), ParseData::TypedData(7, b"abcdefg".to_vec()))];
    assert!(TLV1Linter.lint(&other_subtype).is_empty());
}

#[test]
fn allowed_characters_of_port_description() {
    let linter = InvalidChars::new();
    let fine = vec![(TlvKey::new(4, vec![]), ParseData::Text("Port 1/0 (uplink)".to_string()))];
    assert!(linter.lint(&fine).is_empty());
    let bad = vec![(TlvKey::new(4, vec![]), ParseData::Text("Port~1".to_string()))];
    assert_eq!(linter.lint(&bad).len(), 1);
    let unlisted = vec![(TlvKey::new(5, vec![]), ParseData::Text("~~~".to_string()))];
    assert!(linter.lint(&unlisted).is_empty());
}

#[test]
fn lint_descriptions() {
    assert_eq!(Lint::Error(1).description(), "No End TLV");
    assert_eq!(Lint::Warning(1).description(), "Invalid Characters");
    assert_eq!(Lint::Error(2).description(), "Multiple Type 1 TLVs");
    assert_eq!(Lint::Error(3).description(), "Invalid MAC in Type 1 TLV");
    assert_eq!(Lint::Error(4).description(), "Type 1 TLV is neither MAC nor locally assigned");
    assert_eq!(Lint::Warning(2).description(), "No Description");
}

#[test]
fn lint_entry_builders() {
    let entry = LintEntry::new(Lint::Warning(2));
    assert!(entry.tlv_key.is_none());
    assert!(entry.extra_info.is_none());
    let entry = entry.with_tlv(TlvKey::new(3, vec![])).with_extra_info("note".to_string());
    assert_eq!(entry.lint, Lint::Warning(2));
    assert_eq!(entry.tlv_key, Some(TlvKey::new(3, vec![])));
    assert_eq!(entry.extra_info.as_deref(), Some("note"));
}

#[test]
fn storage_finds_keys_by_prefix() {
    let mut storage: Storage<u32> = Storage::new();
    assert_eq!(storage.insert(ParserKey::htip(vec![1, 1]), 11), None);
    assert_eq!(storage.insert(ParserKey::htip(vec![1, 2]), 12), None);
    assert_eq!(storage.insert(ParserKey::new(4, vec![]), 4), None);
    assert_eq!(storage.insert(ParserKey::htip(vec![3]), 3), None);
    assert_eq!(storage.insert(ParserKey::htip(vec![1, 2]), 120), Some(12));
    assert_eq!(storage.get(&ParserKey::htip(vec![1, 2])), Some(&120));
    assert_eq!(storage.get(&ParserKey::htip(vec![1, 3])), None);

    let value = b"\xe0\x27\x1a\x01\x02\x06ABCDEF";
    let tlv = TLV::new(TlvType::Custom, value.len(), value);
    assert_eq!(storage.key_of(&tlv), Some(ParserKey::htip(vec![1, 2])));
    assert_eq!(storage.get_with(&tlv), Some(&120));

    let short = TLV::new(TlvType::Custom, 4, &value[..4]);
    assert_eq!(storage.key_of(&short), None);
    let port = TLV::new(TlvType::PortDescritpion, 3, b"abc");
    assert_eq!(storage.get_with(&port), Some(&4));
    let other = TLV::new(TlvType::SystemName, 3, b"abc");
    assert_eq!(storage.key_of(&other), None);
}

#[test]
fn key_comparisons() {
    assert_eq!(ParserKey::cmp_contents(b"ab", b"abc"), Ordering::Equal);
    assert_eq!(ParserKey::cmp_contents(b"abc", b"ab"), Ordering::Greater);
    assert_eq!(ParserKey::cmp_contents(b"abd", b"abc"), Ordering::Greater);
    assert_eq!(ParserKey::cmp_contents(b"abb", b"abc"), Ordering::Less);
    assert_eq!(ParserKey::cmp_contents(b"", b""), Ordering::Equal);
    let a = ParserKey::new(1, vec![5]);
    assert_eq!(a.cmp_key(&ParserKey::new(1, vec![5, 0])), Ordering::Less);
    assert_eq!(a.cmp_key(&ParserKey::new(0, vec![9])), Ordering::Greater);
    assert_eq!(a.cmp_key(&a.duplicate()), Ordering::Equal);
    assert_eq!(ParserKey::htip(vec![7]).prefix, vec![0xe0, 0x27, 0x1a, 7]);
}
