use serde_adif::de::{IntType, Terminator};
use serde_adif::{AdifDeserializer, Error, ValueDeserializer};

/// Reads all the records of a document without a header.
fn read_records(text: &str) -> Vec<Vec<(String, &str)>> {
    let mut de = AdifDeserializer::new(text);
    let (header, records) = de.read_all().unwrap();
    assert!(header.is_none());
    assert!(de.at_end());
    records
}

fn pairs<'a>(v: &[(&str, &'a str)]) -> Vec<(String, &'a str)> {
    v.iter().map(|(k, x)| (k.to_string(), *x)).collect()
}

#[test]
fn test_deserialize_simple_types() {
    let test =
        "<index:1>1<callsign:6>EI4JKB<freq:6>14.074<dbm:3>-10<bw:1>5<synced:1>Y<qsl_recv:1>N<class:1>A<mode:3>FT8<EOR>\n";
    let records = read_records(test);
    assert_eq!(records.len(), 1);
    let r = &records[0];
    assert_eq!(
        r,
        &pairs(&[
            ("index", "1"),
            ("callsign", "EI4JKB"),
            ("freq", "14.074"),
            ("dbm", "-10"),
            ("bw", "5"),
            ("synced", "Y"),
            ("qsl_recv", "N"),
            ("class", "A"),
            ("mode", "FT8"),
        ])
    );
    assert_eq!(ValueDeserializer::new(r[0].1).parse_integer(IntType::U32).unwrap(), 1);
    assert_eq!(ValueDeserializer::new(r[3].1).parse_integer(IntType::I16).unwrap(), -10);
    assert_eq!(ValueDeserializer::new(r[4].1).parse_i64(), Some(5));
    assert_eq!(ValueDeserializer::new(r[5].1).parse_bool().unwrap(), true);
    assert_eq!(ValueDeserializer::new(r[6].1).parse_bool().unwrap(), false);
    assert_eq!(ValueDeserializer::new(r[7].1).parse_char().unwrap(), 'A');
}

#[test]
fn test_deserialize_option() {
    let records = read_records("<dbm:3>-10<EOR>\n");
    assert_eq!(records, vec![pairs(&[("dbm", "-10")])]);
    let records = read_records("<EOR>\n");
    assert_eq!(records, vec![Vec::new()]);
}

#[test]
fn test_deserialize_field_value_sequences() {
    let test = "<index:1>1<awards:5>1,2,3<rst:5>5,9,9<exchange:4>A,DX<spot:10>EI4JKB,144<EOR>\n";
    let records = read_records(test);
    let r = &records[0];
    assert_eq!(ValueDeserializer::new(r[1].1).items(), vec!["1", "2", "3"]);
    assert_eq!(ValueDeserializer::new(r[2].1).items(), vec!["5", "9", "9"]);
    assert_eq!(ValueDeserializer::new(r[3].1).items(), vec!["A", "DX"]);
    assert_eq!(ValueDeserializer::new(r[4].1).items(), vec!["EI4JKB", "144"]);

    let test = "<index:1>1<awards:0><rst:5>5,9,9<exchange:4>A,DX<spot:10>EI4JKB,144<EOR>\n";
    let records = read_records(test);
    let r = &records[0];
    assert_eq!(r[1], ("awards".to_string(), ""));
    assert_eq!(ValueDeserializer::new(r[1].1).items(), Vec::<&str>::new());
    assert_eq!(ValueDeserializer::new(r[2].1).items(), vec!["5", "9", "9"]);
}

#[test]
fn test_deserialize_newtype() {
    let records = read_records("<index:1>1<gridsquare:6>IO63qh<EOR>\n");
    assert_eq!(records, vec![pairs(&[("index", "1"), ("gridsquare", "IO63qh")])]);
}

#[test]
fn test_deserialize_top_level_newtype() {
    let records = read_records("<index:1>1<EOR>\n<index:1>2<EOR>\n");
    assert_eq!(records, vec![pairs(&[("index", "1")]), pairs(&[("index", "2")])]);
}

#[test]
fn test_deserialize_top_level_sequences() {
    let test = "<index:1>1<callsign:6>EI4JKB<EOR>\n<index:1>2<callsign:4>AAAA<EOR>\n<index:1>3<callsign:3>BBB<EOR>\n";
    let records = read_records(test);
    assert_eq!(
        records,
        vec![
            pairs(&[("index", "1"), ("callsign", "EI4JKB")]),
            pairs(&[("index", "2"), ("callsign", "AAAA")]),
            pairs(&[("index", "3"), ("callsign", "BBB")]),
        ]
    );
}

#[test]
fn test_deserialize_enum() {
    let records = read_records("<index:1>1<mode:3>Ssb<EOR>\n");
    assert_eq!(records, vec![pairs(&[("index", "1"), ("mode", "Ssb")])]);
}

#[test]
fn test_deserialize_sequence_whitespace() {
    let records = read_records("<awards:7>1, 2, 3<EOR>\n");
    assert_eq!(ValueDeserializer::new(records[0][0].1).items(), vec!["1", "2", "3"]);
    assert_eq!(ValueDeserializer::new(records[0][0].1).items().len(), 3);
}

#[test]
fn test_deserialize_record_whitespace() {
    let records = read_records("<index:1>1<EOR>\n\n\n<index:1>2<EOR>\n");
    assert_eq!(records, vec![pairs(&[("index", "1")]), pairs(&[("index", "2")])]);
}

#[test]
fn test_deserialize_ignore_extra_fields() {
    let records = read_records("<ignore:3>abc<index:1>1<EOR>\n");
    assert_eq!(records, vec![pairs(&[("ignore", "abc"), ("index", "1")])]);
}

#[test]
fn test_deserialize_malformed_tag() {
    let mut de = AdifDeserializer::new("<index>1<EOR>\n");
    let result = de.next_field(Terminator::Record);
    assert!(matches!(result, Err(Error::MalformedTag(ref t)) if t == "index"));
}

#[test]
fn test_deserialize_invalid_length() {
    let mut de = AdifDeserializer::new("<index:one>1<EOR>\n");
    let result = de.next_field(Terminator::Record);
    assert!(matches!(result, Err(Error::InvalidLength(ref t)) if t == "one"));
}

#[test]
fn test_deserialize_invalid_integer() {
    let err = ValueDeserializer::new("one").parse_integer(IntType::U32).unwrap_err();
    assert_eq!(
        err.message(),
        "cannot parse \"one\" as u32: invalid digit found in string"
    );
}

#[test]
fn test_deserialize_invalid_bool() {
    let err = ValueDeserializer::new("X").parse_bool().unwrap_err();
    assert_eq!(
        err.message(),
        "expected \"Y\" or \"N\" (case-insensitive) for a boolean, found \"X\""
    );
}

#[test]
fn test_deserialize_invalid_char() {
    let err = ValueDeserializer::new("AA").parse_char().unwrap_err();
    assert_eq!(err.message(), "expected a single character, found \"AA\"");
}

#[test]
fn test_deserialize_missing_closing_tag() {
    let mut de = AdifDeserializer::new("<index:11\n");
    let result = de.parse_next();
    assert!(matches!(result, Err(Error::ExpectedClosingTag(ref s)) if s == "<index:11\n"));
}
