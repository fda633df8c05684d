use rust_htip::parsers::{Context, Dummy, FixedSequence, Mac, NumberSize, Percentage, SizedNumber, Text};
use rust_htip::ParsingError;

#[test]
fn htip_dummy_forwards_buffer_and_returns_value() {
    let input = vec![0x00, 0x01, 0x02];
    let mut ctx = Context::new(&input);
    let dummy = Dummy(2);
    let data = dummy.parse(&mut ctx).unwrap();
    let remainder = ctx.get();

    assert_eq!(remainder.len(), 1);
    assert_eq!(remainder[0], 0x02);
    assert_eq!(data.into_u32(), Some(2));
}

#[test]
fn htip_number_parses_1byte_value() {
    let input = vec![0x01, 0xff, 0x3c];
    let mut ctx = Context::new(&input);
    let parser = SizedNumber::new(NumberSize::One);
    let data = parser.parse(&mut ctx).unwrap();
    let remainder = ctx.get();

    assert_eq!(remainder.len(), 1);
    assert_eq!(data.into_u32(), Some(255));
    assert_eq!(remainder[0], 0x3c);
}

#[test]
fn htip_number_parses_2byte_value() {
    let input = vec![0x02, 0x02, 0x0a];
    let mut ctx = Context::new(&input);
    let parser = SizedNumber::new(NumberSize::Two);
    let data = parser.parse(&mut ctx).unwrap();

    assert_eq!(ctx.get().len(), 0);
    assert_eq!(data.into_u32(), Some(522));
}

#[test]
fn htip_number_parses_4byte_value() {
    let input = vec![0x04, 0xff, 0xff, 0xff, 0xfe];
    let mut ctx = Context::new(&input);
    let parser = SizedNumber::new(NumberSize::Four);
    let data = parser.parse(&mut ctx).unwrap();

    assert_eq!(ctx.get().len(), 0);
    assert_eq!(data.into_u32(), Some(u32::max_value() - 1));
}

#[test]
fn htip_number_fails_with_invalid_length() {
    let input = vec![0x0a, 0x02, 0x0a];
    let parser = SizedNumber::new(NumberSize::Two);
    let result = parser.parse(&mut Context::new(&input)).err();

    assert_eq!(result, Some(ParsingError::UnexpectedLength(10)));
}

#[test]
fn htip_number_fails_for_short_input() {
    let input: Vec<u8> = vec![];
    let parser = SizedNumber::new(NumberSize::One);
    assert_eq!(parser.parse(&mut Context::new(&input)).err(), Some(ParsingError::TooShort));

    let input = vec![0x01];
    let parser = SizedNumber::new(NumberSize::One);
    assert_eq!(parser.parse(&mut Context::new(&input)).err(), Some(ParsingError::TooShort));
}

#[test]
fn htip_number_parse_fails_for_short_buffer() {
    //we're expecting 4 bytes, only 3 are present...
    let input = vec![0x04, 0x00, 0x00, 0x00];
    let parser = SizedNumber::new(NumberSize::Four);
    assert_eq!(parser.parse(&mut Context::new(&input)).err(), Some(ParsingError::TooShort));
}

#[test]
fn htip_multiple_parsers_succeed() {
    let input = vec![0x01, 0x0A, 0xFF, 0xFF, 0x04, 0xFF, 0xFF, 0xFE, 0x00];
    let mut ctx = Context::new(&input);
    let first = SizedNumber::new(NumberSize::One).parse(&mut ctx).unwrap();
    let second = Dummy(2).parse(&mut ctx).unwrap();
    let third = SizedNumber::new(NumberSize::Four).parse(&mut ctx).unwrap();

    //is result exhausted?
    assert_eq!(ctx.get().len(), 0);
    //test parser results?
    assert_eq!(first.into_u32(), Some(10));
    assert_eq!(second.into_u32(), Some(2));
    assert_eq!(third.into_u32(), Some(u32::max_value() - 511));
}

#[test]
fn htip_fixed_sequence_matches_and_consumes_buffer() {
    let input = vec![b'1', b'2', b'3', b'4', b'5'];
    let parser = FixedSequence::new(input.clone());
    let mut ctx = Context::new(&input);
    let result = parser.parse(&mut ctx);
    assert!(result.is_ok());

    //has the slice been advanced?
    assert!(ctx.get().is_empty());

    let data_vec: Vec<u8> = result.unwrap().into_bytes().unwrap();
    let data_string = String::from_utf8(data_vec).unwrap();
    assert_eq!(data_string, "12345");
}

#[test]
fn htip_fixed_sequence_fails_short_buffer() {
    let input = vec![0x01, 0x02, 0x03];
    let mut clone = input.clone();
    let _ = clone.pop();
    let parser = FixedSequence::new(input);
    let result = parser.parse(&mut Context::new(&clone));

    assert!(result.is_err());
    assert_eq!(result.unwrap_err(), ParsingError::TooShort);
}

#[test]
fn htip_fixed_sequence_does_not_match() {
    let original = vec![0x01, 0x02, 0x03, 0x04];
    let mut altered = original.clone();
    //change the copy a bit
    altered[2] = 0x04;
    altered.pop();
    let parser = FixedSequence::new(altered);
    let result = parser.parse(&mut Context::new(&original));
    assert!(result.is_err());

    let error = result.unwrap_err();
    //show where the first error occured
    assert_eq!(error, ParsingError::NotEqual(&original[..3]));
}

#[test]
fn htip_fixed_sequence_matches_with_longer_input() {
    let original = vec![0xff; 512];
    let altered = original[2..].to_owned();
    let parser = FixedSequence::new(altered);
    let mut ctx = Context::new(&original);
    let result = parser.parse(&mut ctx);
    assert!(result.is_ok());

    //two bytes should still be remaining
    assert_eq!(ctx.get().len(), 2);
}

#[test]
fn htip_percentage_is_valid_max_and_advances() {
    let input = vec![0x01, 0x64, 0xff, 0xff];
    let parser = Percentage::new();
    let mut ctx = Context::new(&input);
    let result = parser.parse(&mut ctx);
    assert!(result.is_ok());

    let remainder = ctx.get();
    assert_eq!(remainder.len(), 2);
    assert_eq!(remainder, &input[2..]);

    assert_eq!(result.unwrap().into_u32(), Some(100u32));
}

#[test]
fn htip_percentage_is_valid_min() {
    let input = vec![0x01, 0x00];
    let parser = Percentage::new();
    let mut ctx = Context::new(&input);
    let result = parser.parse(&mut ctx);
    assert!(result.is_ok());

    assert_eq!(ctx.get().len(), 0);

    assert_eq!(result.unwrap().into_u32(), Some(0u32));
}

#[test]
fn htip_percentage_is_valid() {
    let input = vec![0x01, 0x32, 0x00];
    let parser = Percentage::new();
    let result = parser.parse(&mut Context::new(&input));
    assert_eq!(result.unwrap().into_u32().unwrap(), 50u32);
}

#[test]
fn htip_percentage_is_invalid() {
    let input = vec![0x01, 0x80];
    let parser = Percentage::new();
    let result = parser.parse(&mut Context::new(&input));

    assert!(result.is_err());
    assert_eq!(result.unwrap_err(), ParsingError::InvalidPercentage(128));
}

#[test]
fn htip_percentage_invalid_length() {
    let input = vec![0xab, 0x80];
    let parser = Percentage::new();
    let result = parser.parse(&mut Context::new(&input));

    assert!(result.is_err());
    assert_eq!(result.unwrap_err(), ParsingError::UnexpectedLength(0xab));
}

#[test]
fn htip_percentage_input_too_short() {
    let input = vec![0x01];
    let parser = Percentage::new();
    let result = parser.parse(&mut Context::new(&input));

    assert!(result.is_err());
    assert_eq!(result.unwrap_err(), ParsingError::TooShort);
}

#[test]
fn htip_text_input_too_short_when_empty() {
    let input: Vec<u8> = vec![];
    assert_eq!(
        Text::new(2).parse(&mut Context::new(&input)).unwrap_err(),
        ParsingError::TooShort
    );
}

#[test]
fn htip_text_is_1_byte_string_and_advances() {
    let input = vec![b'a', b'b'];
    let parser = Text::new(1);
    let mut ctx = Context::new(&input);
    let result = parser.parse(&mut ctx);
    assert!(result.is_ok());

    let remainder = ctx.get();
    assert_eq!(remainder.len(), 1);
    assert_eq!(remainder[0], b'b');

    let data = result.unwrap().into_string().unwrap();
    assert_eq!(data, String::from("a"));
}

#[test]
fn htip_text_fails_invalid_utf8() {
    let invalid_input = b"\xff\x00\xff\xff\xff\xff\xff\xff";
    let parser = Text::new(8);
    let result = parser.parse(&mut Context::new(invalid_input));
    assert!(result.is_err());
    match result.unwrap_err() {
        ParsingError::InvalidText(_) => (),
        _ => panic!("text parse result should be a std::str::Utf8Error"),
    }
}

#[test]
fn htip_text_valid_string_less_than_max_size() {
    let input = b"this is a valid string";
    let parser = Text::new(255);
    let mut ctx = Context::new(input);
    let result = parser.parse(&mut ctx);

    assert!(result.is_ok());
    assert_eq!(ctx.get().len(), 0);

    assert_eq!(
        result.unwrap().into_string().unwrap(),
        String::from("this is a valid string")
    );
}

#[test]
fn htip_text_includes_last_character() {
    let input = b"abcd";
    let parser = Text::new(4);
    let result = parser.parse(&mut Context::new(input));
    assert!(result.is_ok());

    assert_eq!(result.unwrap().into_string().unwrap(), String::from("abcd"));
}

#[test]
fn htip_short_mac() {
    let input = b"\x01\x0A\x0B\x0C\x0E";
    let parser = Mac::new();
    let result = parser.parse(&mut Context::new(input));
    assert_eq!(result.unwrap_err(), ParsingError::TooShort);
}

#[test]
fn htip_parse_three_macs_with_remainder() {
    let input = b"\x03ABCDEF123456\xFF\xFF\xFF\xFF\xFF\xFFremainder";
    let parser = Mac::new();
    let mut ctx = Context::new(input);
    let result = parser.parse(&mut ctx).unwrap();
    assert_eq!(ctx.get(), b"remainder");

    let macs = result.into_mac().unwrap();

    assert_eq!(macs[0].as_bytes(), b"ABCDEF");
    assert_eq!(macs[1].as_bytes(), b"123456");
    assert!(macs[2].is_broadcast());
}
