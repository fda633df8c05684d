use rust_htip::dispatcher::{parse_as_tlv, parse_frame};
use rust_htip::{Dispatcher, Lint, ParseData, ParsingError, TlvKey, TlvType};

#[test]
fn parsing_empty_input_returns_too_short() {
    let input: &[u8] = &[];
    assert_eq!(parse_as_tlv(input).err(), Some(ParsingError::TooShort));
}

#[test]
fn dispatcher_parsing_1_byte_buffer_is_short() {
    let input = &[b'1'];
    assert_eq!(
        parse_as_tlv(input).expect_err("result is not ParsingError::TooShort"),
        ParsingError::TooShort
    );
}

#[test]
fn dispatcher_parsing_2_byte_buffer_with_no_value_is_short() {
    let input = &[1, 1];
    assert_eq!(
        parse_as_tlv(input).expect_err("result is not ParsingError::TooShort"),
        ParsingError::TooShort
    );
}

#[test]
fn dispatcher_parsing_2_byte_end_of_lldpdu_is_ok() {
    let input = &[0, 0];
    if let Ok(tlv) = parse_as_tlv(input) {
        assert_eq!(tlv.len(), 0);
        assert_eq!(tlv.tlv_type(), TlvType::End);
        assert_eq!(tlv.value(), &[]);
    } else {
        panic!("Parse result should be Ok(), with zero len, and zero value");
    }
}

#[test]
fn dispatcher_parsing_max_length_tlv_all_zeroes_and_type_is_chassis_id() {
    let input = &mut [0b0; 514];
    input[0] = 3u8;
    input[1] = 255u8;
    if let Ok(tlv) = parse_as_tlv(input) {
        assert_eq!(tlv.len(), 511);
        assert_eq!(tlv.tlv_type(), TlvType::ChassisID);
        assert_eq!(tlv.value(), vec![0u8; 511].as_slice());
    } else {
        panic!("Parse result should be Ok(), with 511 len and 511 value");
    }
}

#[test]
fn dispatcher_parse_frame_with_one_tlv() {
    let frame = &[0, 0];
    let result = parse_frame(frame).unwrap();
    assert!(result.len() == 1, "result length is not 1");
    assert_eq!(result[0].tlv_type(), TlvType::End);
}

#[test]
fn dispatcher_parse_frame_with_two_tlv() {
    let frame = &[2, 4, b'a', b'b', b'c', b'd', 0, 0];
    let mut result = parse_frame(frame).expect("this should parse cleanly!");
    assert_eq!(result.len(), 2);
    //end tlv here
    let tlv = result.pop().expect("end tlv should be here");
    assert_eq!(tlv.tlv_type(), TlvType::End);

    let tlv = result.pop().expect("chassis id tlv should be here");
    assert_eq!(tlv.tlv_type(), TlvType::ChassisID);
    let expected_value = b"abcd";
    assert_eq!(tlv.len(), expected_value.len());
    assert_eq!(tlv.value(), expected_value);
}

#[test]
fn dispatcher_parse_frame_3tlvs_last_one_error() {
    let frame = b"\x02\x03123\x04\x0512345\x03\x1ftoo short";
    let mut invalid_frame = parse_frame(frame).unwrap_err();
    assert_eq!(invalid_frame.pointer, b"\x03\x1ftoo short");
    let second_tlv = invalid_frame.tlvs.pop().unwrap();
    assert_eq!(second_tlv.value(), b"12345");
    assert_eq!(second_tlv.len(), 5);
}

#[test]
fn dispatcher_parse_frame_stops_parsing_after_error() {
    let frame = b"\x02\x03123\x04\x0512345\x03\x1ftoo short\x00\x00";
    let invalid_frame = parse_frame(frame).unwrap_err();
    assert_eq!(invalid_frame.pointer, b"\x03\x1ftoo short\x00\x00");
    assert_eq!(invalid_frame.tlvs.len(), 2);
}

#[test]
fn finds_key() {
    //type 127, length 16
    let frame = b"\xfe\x0f\xe0\x27\x1a\x01\x01\x09123456789\
        \xfe\x0c\xe0\x27\x1a\x01\x02\x06OUIOUI\
        \x02\x0a0123456789";
    let dsp = Dispatcher::new();
    //collect our tlvs, and do stuff with them
    let tlvs = parse_frame(frame).unwrap();
    assert_eq!(tlvs.len(), 3);
    let key0 = dsp.parse_tlv(&tlvs[0]).0;
    assert_eq!(key0.tlv_type, 127);
    assert_eq!(key0.prefix, b"\xe0\x27\x1a\x01\x01");

    let key1 = dsp.parse_tlv(&tlvs[1]).0;
    assert_eq!(key1.tlv_type, 127);
    assert_eq!(key1.prefix, b"\xe0\x27\x1a\x01\x02");

    let key2 = dsp.parse_tlv(&tlvs[2]).0;
    assert_eq!(key2.tlv_type, 1);
    assert_eq!(key2.prefix, b"");
}

#[test]
fn find_key_is_none() {
    //unknown oui
    let frame = b"\xfe\x0f\xAA\xBB\x1a\x01\x01\x09123456789";
    let dsp = Dispatcher::new();
    let tlvs = parse_frame(frame).unwrap();
    assert_eq!(tlvs.len(), 1);
    let (key, res) = dsp.parse_tlv(&tlvs[0]);
    assert_eq!(key, TlvKey::new(127, vec![]));
    assert_eq!(res.unwrap().into_bytes().unwrap(), b"\xAA\xBB\x1a\x01\x01\x09123456789");
}

#[test]
fn one_tlv_parse_succeeds() {
    let frame = b"\xfe\x0f\xe0\x27\x1a\x01\x01\x09123456789";
    let dsp = Dispatcher::new();
    //collect our tlvs, and do stuff with them
    let tlvs = parse_frame(frame).unwrap();
    assert_eq!(tlvs.len(), 1);
    assert_eq!(
        "123456789",
        dsp.parse_tlv(&tlvs[0]).1.unwrap().into_string().unwrap()
    );
}

#[test]
fn simple_tlv_parse_succeeds() {
    let frame = b"\xfe\x0f\xe0\x27\x1a\x01\x01\x09123456789\
        \xfe\x0c\xe0\x27\x1a\x01\x02\x06OUIOUI";
    let dsp = Dispatcher::new();
    //collect our tlvs, and do stuff with them
    let tlvs = parse_frame(frame).unwrap();
    assert_eq!(
        "123456789",
        dsp.parse_tlv(&tlvs[0]).1.unwrap().into_string().unwrap()
    );
    assert_eq!(
        "OUIOUI",
        dsp.parse_tlv(&tlvs[1]).1.unwrap().into_string().unwrap()
    );
}

#[test]
fn parse_detects_trailing_characters() {
    let frame = b"\xfe\x19\xe0\x27\x1a\x01\x01\x09123456789characters\
        \xfe\x11\xe0\x27\x1a\x01\x02\x06CAFEBEextra\
        \x00\x00";
    let dsp = Dispatcher::new();
    let results = dsp.parse(frame).expect("this should parse, check frame!");
    //assert that we have no errors
    assert!(results.errors.is_empty());
    assert_eq!(results.lints[0].lint, Lint::Warning(2));
    assert_eq!(results.lints.len(), 2);
}

#[test]
fn parse_detects_unknown_tlvs() {
    //\xf0 is unknown to us
    let frame = b"\xf0\x100123456789ABCDEF\
        \x00\x00";
    let dsp = Dispatcher::new();
    let results = dsp.parse(frame).expect("this should parse, check frame!");
    //assert that we have no errors
    assert!(results.errors.is_empty());
    assert_eq!(results.lints[0].lint, Lint::Warning(3));
    assert_eq!(results.lints.len(), 1);
    match &results.info[0].1 {
        ParseData::Binary(bin) => assert_eq!(bin, b"0123456789ABCDEF"),
        _ => panic!("this should be a string!"),
    }
}

#[test]
fn segmenting_two_tlvs() {
    let frame = [2u8, 4, b'a', b'b', b'c', b'd', 0, 0];
    let tlvs = parse_frame(&frame).unwrap();
    assert_eq!(tlvs.len(), 2);
    assert_eq!(tlvs[0].tlv_type(), TlvType::ChassisID);
    assert_eq!(tlvs[0].value(), b"abcd");
    assert_eq!(tlvs[1].tlv_type(), TlvType::End);
    assert!(tlvs[1].value().is_empty());
}

#[test]
fn segmenting_valid_then_truncated_keeps_tail() {
    let frame = b"\x02\x02ab\x04\x09abc";
    let invalid = parse_frame(frame).unwrap_err();
    assert_eq!(invalid.tlvs.len(), 1);
    assert_eq!(invalid.tlvs[0].value(), b"ab");
    assert_eq!(invalid.pointer, b"\x04\x09abc");
    let lone_byte = parse_frame(b"\x02\x02ab\x04").unwrap_err();
    assert_eq!(lone_byte.tlvs.len(), 1);
    assert_eq!(lone_byte.pointer, b"\x04");
}

#[test]
fn segmenting_empty_frame_gives_no_tlvs() {
    let tlvs = parse_frame(&[]).unwrap();
    assert!(tlvs.is_empty());
}

#[test]
fn empty_frame_raises_missing_end_lint() {
    let dsp = Dispatcher::new();
    let info = dsp.parse(&[]).unwrap();
    assert!(info.tlvs.is_empty());
    assert_eq!(info.lints.len(), 1);
    assert_eq!(info.lints[0].lint, Lint::Error(1));
}

#[test]
fn frame_without_end_raises_missing_end_lint_once() {
    let dsp = Dispatcher::new();
    let info = dsp.parse(b"\x02\x02\x07x").unwrap();
    let count = info.lints.iter().filter(|l| l.lint == Lint::Error(1)).count();
    assert_eq!(count, 1);
    let with_end = dsp.parse(b"\x02\x02\x07x\x00\x00").unwrap();
    let count = with_end.lints.iter().filter(|l| l.lint == Lint::Error(1)).count();
    assert_eq!(count, 0);
}

#[test]
fn decoding_twice_gives_identical_results() {
    let frame = b"\xfe\x19\xe0\x27\x1a\x01\x01\x09123456789characters\
        \xfe\x08\xe0\x27\x1a\x01\x14\x01\x80\x00\xf0\x02ab\x00\x00";
    let dsp = Dispatcher::new();
    let first = format!("{:?}", dsp.parse(frame).unwrap());
    let second = format!("{:?}", dsp.parse(frame).unwrap());
    assert_eq!(first, second);
    let other = Dispatcher::default();
    assert_eq!(first, format!("{:?}", other.parse(frame).unwrap()));
}

#[test]
fn field_errors_do_not_stop_other_fields() {
    //a percentage of 128, then a valid serial text
    let frame = b"\xfe\x07\xe0\x27\x1a\x01\x14\x01\x80\
        \xfe\x0c\xe0\x27\x1a\x01\x02\x06ABC123\x00\x00";
    let dsp = Dispatcher::new();
    let info = dsp.parse(frame).unwrap();
    assert_eq!(info.errors.len(), 1);
    assert_eq!(info.errors[0].0, TlvKey::htip(vec![1, 0x14]));
    assert_eq!(info.errors[0].1, ParsingError::InvalidPercentage(128));
    assert_eq!(info.info.len(), 2);
    assert_eq!(info.info[0].0, TlvKey::htip(vec![1, 2]));
    assert_eq!(info.info[1].0, TlvKey::new(0, vec![]));
    assert!(info.lints.is_empty());
}

#[test]
fn extra_bytes_lint_reports_the_count() {
    let frame = b"\xfe\x19\xe0\x27\x1a\x01\x01\x09123456789characters\x00\x00";
    let dsp = Dispatcher::new();
    let info = dsp.parse(frame).unwrap();
    assert_eq!(info.lints.len(), 1);
    assert_eq!(info.lints[0].lint, Lint::Warning(2));
    assert_eq!(info.lints[0].tlv_key, Some(TlvKey::htip(vec![1, 1])));
    assert_eq!(info.lints[0].extra_info.as_deref(), Some("10 extra bytes"));
}

#[test]
fn htip_subtypes_decode() {
    //connections record, then a list of one address
    let frame = b"\xfe\x0f\xe0\x27\x1a\x02\x01\x07\x01\x02\x01ABCDEF\
        \xfe\x0b\xe0\x27\x1a\x03\x01BADFAD\x00\x00";
    let dsp = Dispatcher::new();
    let info = dsp.parse(frame).unwrap();
    assert!(info.errors.is_empty());
    let ports = info.info[0].1.clone().into_port_info().unwrap();
    assert_eq!(ports.interface, 7);
    assert_eq!(ports.port, 2);
    assert_eq!(ports.macs.len(), 1);
    assert_eq!(ports.macs[0].as_bytes(), b"ABCDEF");
    let macs = info.info[1].1.clone().into_mac().unwrap();
    assert_eq!(macs.len(), 1);
    assert_eq!(macs[0].as_bytes(), b"BADFAD");
}

#[test]
fn invalid_frame_recovers_partial_result() {
    let frame = b"\x02\x03\x04ab\x04\x09abc";
    let dsp = Dispatcher::new();
    let invalid = dsp.parse(frame).unwrap_err();
    let info = invalid.parse(&dsp);
    assert_eq!(info.tlvs.len(), 1);
    assert_eq!(info.info.len(), 1);
    assert_eq!(info.errors.len(), 1);
    assert_eq!(info.errors[0].0, TlvKey::new(0, vec![]));
    assert_eq!(info.errors[0].1, ParsingError::InvalidFrame(b"\x04\x09abc"));
}

#[test]
fn chassis_id_subtype_and_data() {
    let frame = b"\x02\x07\x04ABCDEF\x00\x00";
    let dsp = Dispatcher::new();
    let info = dsp.parse(frame).unwrap();
    match &info.info[0].1 {
        ParseData::TypedData(t, d) => {
            assert_eq!(*t, 4);
            assert_eq!(d, b"ABCDEF");
        }
        _ => panic!("chassis id should be typed data"),
    }
    assert!(info.lints.is_empty());
}

#[test]
fn time_to_live_needs_two_bytes() {
    let dsp = Dispatcher::new();
    let info = dsp.parse(b"\x06\x02\x00\x78\x06\x03\x00\x00\x01\x00\x00").unwrap();
    assert_eq!(info.info[0].1.clone().into_u64(), Some(120));
    assert_eq!(info.errors.len(), 1);
    assert_eq!(info.errors[0].1, ParsingError::UnexpectedLength(3));
}

#[test]
fn end_tlv_with_data_is_an_error() {
    let dsp = Dispatcher::new();
    let info = dsp.parse(b"\x00\x01\x07").unwrap();
    assert_eq!(info.errors.len(), 1);
    assert_eq!(info.errors[0].1, ParsingError::UnexpectedLength(1));
}
