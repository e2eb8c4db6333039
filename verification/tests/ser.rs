use serde_adif::{AdifSerializer, RecordSerializer, ValueSerializer};

/// A field value written by `f`.
fn value(f: impl FnOnce(&mut ValueSerializer)) -> ValueSerializer {
    let mut v = ValueSerializer::new();
    f(&mut v);
    v
}

fn text(s: &str) -> ValueSerializer {
    value(|v| v.serialize_str(s))
}

fn unsigned(n: u64) -> ValueSerializer {
    value(|v| v.serialize_u64(n))
}

/// A document of the given records, no header.
fn document(records: Vec<RecordSerializer>) -> String {
    let mut doc = AdifSerializer::new();
    for r in records {
        doc.serialize_element(r);
    }
    doc.finish()
}

fn record(fields: Vec<(&str, ValueSerializer)>) -> RecordSerializer {
    let mut r = RecordSerializer::new_record();
    for (k, v) in fields {
        r.serialize_field(k, v);
    }
    r.end();
    r
}

#[test]
fn test_serialize_simple_types() {
    let r = record(vec![
        ("index", unsigned(1)),
        ("callsign", text("EI4JKB")),
        ("freq", text("14.074")),
        ("dbm", value(|v| v.serialize_i64(-10))),
        ("bw", text("5")),
        ("synced", value(|v| v.serialize_bool(true))),
        ("qsl_recv", value(|v| v.serialize_bool(false))),
        ("class", text("A")),
        ("mode", text("FT8")),
    ]);
    let expected =
        "<index:1>1<callsign:6>EI4JKB<freq:6>14.074<dbm:3>-10<bw:1>5<synced:1>Y<qsl_recv:1>N<class:1>A<mode:3>FT8<EOR>\n";
    assert_eq!(document(vec![r]), expected);
}

#[test]
fn test_serialize_option() {
    let r = record(vec![
        ("freq", value(|v| v.serialize_none())),
        ("dbm", value(|v| v.serialize_i64(-10))),
    ]);
    assert_eq!(document(vec![r]), "<dbm:3>-10<EOR>\n");
    let r = record(vec![
        ("freq", value(|v| v.serialize_none())),
        ("dbm", value(|v| v.serialize_unit())),
    ]);
    assert_eq!(document(vec![r]), "<EOR>\n");
}

fn list(items: &[&str]) -> ValueSerializer {
    value(|v| {
        for i in items {
            v.start_element();
            v.serialize_str(i);
        }
    })
}

#[test]
fn test_serialize_field_value_sequences() {
    let r = record(vec![
        ("index", unsigned(1)),
        ("awards", list(&["1", "2", "3"])),
        ("rst", list(&["5", "9", "9"])),
        ("exchange", list(&["A", "DX"])),
        ("spot", list(&["EI4JKB", "144"])),
    ]);
    let expected =
        "<index:1>1<awards:5>1,2,3<rst:5>5,9,9<exchange:4>A,DX<spot:10>EI4JKB,144<EOR>\n";
    assert_eq!(document(vec![r]), expected);

    let r = record(vec![
        ("index", unsigned(1)),
        ("awards", list(&[])),
        ("rst", list(&["5", "9", "9"])),
        ("exchange", list(&["A", "DX"])),
        ("spot", list(&["EI4JKB", "144"])),
    ]);
    let expected = "<index:1>1<awards:0><rst:5>5,9,9<exchange:4>A,DX<spot:10>EI4JKB,144<EOR>\n";
    assert_eq!(document(vec![r]), expected);
}

#[test]
fn test_serialize_newtype() {
    let r = record(vec![("index", unsigned(1)), ("gridsquare", text("IO63qh"))]);
    assert_eq!(document(vec![r]), "<index:1>1<gridsquare:6>IO63qh<EOR>\n");
}

#[test]
fn test_serialize_top_level_newtype() {
    let r1 = record(vec![("index", unsigned(1))]);
    let r2 = record(vec![("index", unsigned(2))]);
    assert_eq!(document(vec![r1, r2]), "<index:1>1<EOR>\n<index:1>2<EOR>\n");
}

#[test]
fn test_serialize_top_level_sequences() {
    let r1 = record(vec![("index", unsigned(1)), ("callsign", text("EI4JKB"))]);
    let r2 = record(vec![("index", unsigned(2)), ("callsign", text("AAAA"))]);
    let r3 = record(vec![("index", unsigned(3)), ("callsign", text("BBB"))]);
    let expected = "<index:1>1<callsign:6>EI4JKB<EOR>\n<index:1>2<callsign:4>AAAA<EOR>\n<index:1>3<callsign:3>BBB<EOR>\n";
    assert_eq!(document(vec![r1, r2, r3]), expected);
}

#[test]
fn test_serialize_enum() {
    let r = record(vec![
        ("index", unsigned(1)),
        ("mode", value(|v| v.serialize_unit_variant("Ssb"))),
    ]);
    assert_eq!(document(vec![r]), "<index:1>1<mode:3>Ssb<EOR>\n");
}

#[test]
fn serialize_header() {
    let mut h = RecordSerializer::new_header();
    h.serialize_field("adif_ver", text("3.1.4"));
    h.end();
    let mut doc = AdifSerializer::new();
    doc.write_header(h);
    doc.serialize_element(record(vec![("call", text("EI4JKB"))]));
    assert_eq!(
        doc.finish(),
        "# ADIF Header\n<adif_ver:5>3.1.4<EOH>\n<call:6>EI4JKB<EOR>\n"
    );
}

#[test]
fn lengths_count_bytes() {
    let r = record(vec![("name", text("Seán"))]);
    assert_eq!(document(vec![r]), "<name:5>Seán<EOR>\n");
}

#[test]
fn integers_in_decimal() {
    let v = value(|v| v.serialize_i64(i64::MIN));
    assert_eq!(v.finish(), "-9223372036854775808");
    let v = value(|v| v.serialize_u64(u64::MAX));
    assert_eq!(v.finish(), "18446744073709551615");
    let v = value(|v| v.serialize_u64(0));
    assert_eq!(v.finish(), "0");
}

#[test]
fn value_state() {
    let v = ValueSerializer::new();
    assert!(!v.is_none());
    let v = value(|v| v.serialize_none());
    assert!(v.is_none());
    assert_eq!(v.finish(), "");
    let r = RecordSerializer::new_record();
    assert_eq!(r.finish(), "");
    assert_eq!(serde_adif::EOR, "<EOR>");
    assert_eq!(serde_adif::EOH, "<EOH>");
}

#[test]
fn text_document_layout() {
    let header = vec![("ADIF_VER", "3.1.4")];
    let records = vec![vec![("call", "EI4JKB"), ("mode", "FT8")], vec![]];
    assert_eq!(
        AdifSerializer::write_text_document(Some(header.as_slice()), &records),
        "# ADIF Header\n<ADIF_VER:5>3.1.4<EOH>\n<call:6>EI4JKB<mode:3>FT8<EOR>\n<EOR>\n"
    );
    assert_eq!(AdifSerializer::write_text_document(None, &[]), "");
}
