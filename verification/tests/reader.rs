use serde_adif::de::{IntType, Terminator};
use serde_adif::{AdifDeserializer, Error, ValueDeserializer};

#[test]
fn reads_type_hint_and_lowercases_names() {
    let mut de = AdifDeserializer::new("<FREQ:7:N>14.0757<Mode:3>FT8<eor>");
    assert_eq!(
        de.next_field(Terminator::Record).unwrap(),
        Some(("freq".to_string(), "14.0757"))
    );
    assert_eq!(
        de.next_field(Terminator::Record).unwrap(),
        Some(("mode".to_string(), "FT8"))
    );
    assert_eq!(de.next_field(Terminator::Record).unwrap(), None);
    assert!(de.consume_eor());
    assert!(de.at_end());
}

#[test]
fn parse_next_keeps_the_name_as_written() {
    let mut de = AdifDeserializer::new("  <CALL:4>EI4J");
    assert_eq!(de.parse_next().unwrap(), Some(("CALL", "EI4J")));
    assert_eq!(de.parse_next().unwrap(), None);
}

#[test]
fn parse_next_skips_a_header_text() {
    let mut de = AdifDeserializer::new("### export\n<ADIF_VER:5>3.1.4\n<eoh>\n<call:3>ABC<eor>");
    assert_eq!(de.parse_next().unwrap(), Some(("call", "ABC")));
}

#[test]
fn parse_next_header_without_eoh_is_eof() {
    let mut de = AdifDeserializer::new("just text");
    assert!(matches!(de.parse_next(), Err(Error::Eof)));
}

#[test]
fn value_longer_than_input_is_eof() {
    let mut de = AdifDeserializer::new("<call:10>ABC");
    assert!(matches!(de.parse_next(), Err(Error::Eof)));
}

#[test]
fn length_with_plus_sign_is_accepted() {
    let mut de = AdifDeserializer::new("<call:+3>ABC");
    assert_eq!(de.parse_next().unwrap(), Some(("call", "ABC")));
}

#[test]
fn empty_length_is_invalid() {
    let mut de = AdifDeserializer::new("<call:>ABC");
    assert!(matches!(de.parse_next(), Err(Error::InvalidLength(ref s)) if s.is_empty()));
}

#[test]
fn closing_tag_snippet_is_cut_at_twenty_characters() {
    let mut de = AdifDeserializer::new("<abcdefghijklmnopqrstuvwxyz");
    match de.parse_next() {
        Err(Error::ExpectedClosingTag(s)) => assert_eq!(s, "<abcdefghijklmnopqrs"),
        _ => panic!("expected a missing closing tag"),
    }
}

#[test]
fn value_length_inside_a_character_is_detected() {
    let de = AdifDeserializer::new("<call:1>é<eor>");
    assert!(de.value_ends_inside_char());
    assert!(de.field_value_ends_inside_char(Terminator::Record));
    let de = AdifDeserializer::new("<call:2>é<eor>");
    assert!(!de.value_ends_inside_char());
}

#[test]
fn multibyte_values_are_counted_in_bytes() {
    let mut de = AdifDeserializer::new("<name:5>Seán<eor>");
    assert_eq!(
        de.next_field(Terminator::Record).unwrap(),
        Some(("name".to_string(), "Seán"))
    );
}

#[test]
fn unicode_whitespace_is_skipped() {
    let mut de = AdifDeserializer::new("\u{a0}\u{3000} <call:3>ABC");
    assert_eq!(de.parse_next().unwrap(), Some(("call", "ABC")));
    assert!(AdifDeserializer::new(" \u{2028}\t").at_end());
}

#[test]
fn header_fields_are_read_up_to_eoh() {
    let mut de = AdifDeserializer::new("### QLog ADIF Export\n<ADIF_VER:5>3.1.4\n<PROGRAMID:4>QLog\n<EOH>\n<call:7>EI0IRTS<eor>\n");
    assert!(de.start_header().unwrap());
    let mut hd = de.deserialize_header();
    assert_eq!(hd.next_field().unwrap(), Some(("adif_ver".to_string(), "3.1.4")));
    assert_eq!(hd.next_field().unwrap(), Some(("programid".to_string(), "QLog")));
    assert_eq!(hd.next_field().unwrap(), None);
    assert!(de.consume_eoh());
    let mut rd = de.deserialize_record();
    assert!(!rd.value_ends_inside_char());
    assert_eq!(rd.next_field().unwrap(), Some(("call".to_string(), "EI0IRTS")));
    assert_eq!(rd.next_field().unwrap(), None);
    assert!(de.consume_eor());
    assert!(de.at_end());
}

#[test]
fn document_without_header() {
    let mut de = AdifDeserializer::new("  <call:3>ABC<eor>");
    assert!(!de.start_header().unwrap());
}

#[test]
fn header_text_without_any_tag_is_eof() {
    let mut de = AdifDeserializer::new("a header with nothing after it");
    assert!(matches!(de.start_header(), Err(Error::Eof)));
}

#[test]
fn consume_eor_leaves_other_input() {
    let mut de = AdifDeserializer::new("  <call:3>ABC");
    assert!(!de.consume_eor());
    assert!(!de.consume_eoh());
    assert!(!de.at_closing(Terminator::Record));
    assert_eq!(de.parse_next().unwrap(), Some(("call", "ABC")));
}

#[test]
fn booleans_accept_case_and_whitespace() {
    assert_eq!(ValueDeserializer::new(" y ").parse_bool().unwrap(), true);
    assert_eq!(ValueDeserializer::new("n").parse_bool().unwrap(), false);
    assert!(ValueDeserializer::new("yes").parse_bool().is_err());
}

#[test]
fn characters_are_counted_not_bytes() {
    assert_eq!(ValueDeserializer::new("é").parse_char().unwrap(), 'é');
    let err = ValueDeserializer::new("").parse_char().unwrap_err();
    assert_eq!(err.message(), "expected a single character, found \"\"");
}

#[test]
fn integers_follow_the_standard_library() {
    let v = |s| ValueDeserializer::new(s);
    assert_eq!(v(" 42 ").parse_integer(IntType::U8).unwrap(), 42);
    assert_eq!(v("+7").parse_integer(IntType::I8).unwrap(), 7);
    assert_eq!(v("-128").parse_integer(IntType::I8).unwrap(), -128);
    assert_eq!(
        v("18446744073709551615").parse_integer(IntType::U64).unwrap(),
        18446744073709551615
    );
    assert_eq!(
        v("300").parse_integer(IntType::U8).unwrap_err().message(),
        "cannot parse \"300\" as u8: number too large to fit in target type"
    );
    assert_eq!(
        v("-129").parse_integer(IntType::I8).unwrap_err().message(),
        "cannot parse \"-129\" as i8: number too small to fit in target type"
    );
    assert_eq!(
        v("").parse_integer(IntType::I32).unwrap_err().message(),
        "cannot parse \"\" as i32: cannot parse integer from empty string"
    );
    assert_eq!(
        v("-1").parse_integer(IntType::U16).unwrap_err().message(),
        "cannot parse \"-1\" as u16: invalid digit found in string"
    );
    assert_eq!(
        v("-").parse_integer(IntType::I64).unwrap_err().message(),
        "cannot parse \"-\" as i64: invalid digit found in string"
    );
    assert_eq!(v(" 5").parse_i64(), None);
    assert_eq!(v("-9223372036854775808").parse_i64(), Some(i64::MIN));
    assert_eq!(v("14.07").parse_i64(), None);
}

#[test]
fn list_items_drop_empty_ones() {
    assert_eq!(ValueDeserializer::new(",a,, b ,").items(), vec!["a", "b"]);
    assert_eq!(ValueDeserializer::new("   ").items(), Vec::<&str>::new());
}

#[test]
fn error_messages() {
    assert_eq!(Error::Eof.message(), "unexpected end of input");
    assert_eq!(
        Error::ExpectedClosingTag("<a".to_string()).message(),
        "missing closing tag \">\" after \"<a\""
    );
    assert_eq!(
        Error::MalformedTag("index".to_string()).message(),
        "the tag \"index\" is missing its key or value length"
    );
    assert_eq!(
        Error::InvalidLength("one".to_string()).message(),
        "\"one\" is not a valid value length"
    );
    assert_eq!(Error::Unsupported("struct").message(), "Unsupported type struct");
    assert_eq!(Error::Message("hello".to_string()).message(), "hello");
}

#[test]
fn messages_quote_values_with_escapes() {
    let err = ValueDeserializer::new("a\"b\n").parse_bool().unwrap_err();
    assert_eq!(
        err.message(),
        "expected \"Y\" or \"N\" (case-insensitive) for a boolean, found \"a\\\"b\\n\""
    );
}
