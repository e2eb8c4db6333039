use serde_adif::de::IntType;
use serde_adif::{AdifDeserializer, AdifSerializer, ValueDeserializer, ValueSerializer};

type Fields = Vec<(&'static str, &'static str)>;

/// Writes a document of string-valued fields.
fn write(header: Option<&Fields>, records: &[Fields]) -> String {
    AdifSerializer::write_text_document(header.map(|h| h.as_slice()), records)
}

/// Reads a document back as the reader of a whole file does.
fn read(text: &str) -> (Option<Vec<(String, String)>>, Vec<Vec<(String, String)>>) {
    let mut de = AdifDeserializer::new(text);
    let (header, records) = de.read_all().unwrap();
    assert!(de.at_end());
    let own = |f: Vec<(String, &str)>| -> Vec<(String, String)> {
        f.into_iter().map(|(k, v)| (k, v.to_string())).collect()
    };
    (header.map(own), records.into_iter().map(own).collect())
}

fn owned(f: &Fields) -> Vec<(String, String)> {
    f.iter().map(|(k, v)| (k.to_string(), v.to_string())).collect()
}

fn roundtrip(header: Option<Fields>, records: Vec<Fields>) {
    let text = write(header.as_ref(), &records);
    let (h, rs) = read(&text);
    assert_eq!(h, header.as_ref().map(owned));
    assert_eq!(rs, records.iter().map(owned).collect::<Vec<_>>());
}

#[test]
fn test_roundtrip_simple_types() {
    roundtrip(
        None,
        vec![vec![
            ("index", "1"),
            ("callsign", "EI4JKB"),
            ("freq", "14.074"),
            ("dbm", "-10"),
            ("bw", "5"),
            ("synced", "Y"),
            ("qsl_recv", "N"),
            ("class", "A"),
            ("mode", "FT8"),
        ]],
    );
}

#[test]
fn test_roundtrip_option() {
    roundtrip(None, vec![vec![("dbm", "-10")]]);
    roundtrip(None, vec![vec![]]);
}

#[test]
fn test_roundtrip_field_value_sequences() {
    roundtrip(
        None,
        vec![vec![
            ("index", "1"),
            ("awards", "1,2,3"),
            ("rst", "5,9,9"),
            ("exchange", "A,DX"),
            ("spot", "EI4JKB,144"),
        ]],
    );
    roundtrip(
        None,
        vec![vec![
            ("index", "1"),
            ("awards", ""),
            ("rst", "5,9,9"),
            ("exchange", "A,DX"),
            ("spot", "EI4JKB,144"),
        ]],
    );
}

#[test]
fn test_roundtrip_newtype() {
    roundtrip(None, vec![vec![("index", "1"), ("gridsquare", "IO63qh")]]);
}

#[test]
fn test_roundtrip_top_level_sequences() {
    roundtrip(
        None,
        vec![
            vec![("index", "1"), ("callsign", "EI4JKB")],
            vec![("index", "2"), ("callsign", "AAAA")],
            vec![("index", "3"), ("callsign", "BBB")],
        ],
    );
}

#[test]
fn test_roundtrip_enum() {
    roundtrip(None, vec![vec![("index", "1"), ("mode", "Ssb")]]);
}

#[test]
fn test_roundtrip_with_header() {
    roundtrip(
        Some(vec![("adif_ver", "3.1.4"), ("programid", "eirlog")]),
        vec![vec![("index", "1"), ("callsign", "EI4JKB")]],
    );
}

#[test]
fn roundtrip_values_with_markup_and_unicode() {
    roundtrip(
        Some(vec![]),
        vec![vec![("comment", "<eor> <b:2>x"), ("name", "Seán Ó")], vec![]],
    );
    roundtrip(None, vec![]);
}

#[test]
fn upper_case_names_come_back_lower_case() {
    let text = write(None, &[vec![("CALL", "EI4JKB")]]);
    let (_, rs) = read(&text);
    assert_eq!(rs, vec![vec![("call".to_string(), "EI4JKB".to_string())]]);
}

#[test]
fn values_roundtrip() {
    for b in [true, false] {
        let mut v = ValueSerializer::new();
        v.serialize_bool(b);
        let s = v.finish();
        assert_eq!(ValueDeserializer::new(&s).parse_bool().unwrap(), b);
    }
    for n in [i64::MIN, -1, 0, 7, i64::MAX] {
        let mut v = ValueSerializer::new();
        v.serialize_i64(n);
        let s = v.finish();
        assert_eq!(ValueDeserializer::new(&s).parse_integer(IntType::I64).unwrap(), n as i128);
    }
    let mut v = ValueSerializer::new();
    v.serialize_u64(u64::MAX);
    let s = v.finish();
    assert_eq!(ValueDeserializer::new(&s).parse_integer(IntType::U64).unwrap(), u64::MAX as i128);
    let mut v = ValueSerializer::new();
    for item in ["EI4JKB", "144", "x y"] {
        v.start_element();
        v.serialize_str(item);
    }
    let s = v.finish();
    assert_eq!(ValueDeserializer::new(&s).items(), vec!["EI4JKB", "144", "x y"]);
}
