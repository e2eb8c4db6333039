//! What reading gives back of what writing wrote.
use crate::de::{
    after_closing, at_closing_tag, bool_of, field_step, header_start, list_items, next_tag,
    read_document, read_fields, read_records, read_tag, skip_header, DocumentRead, FieldsRead,
    RecordsRead, Step, Terminator, COLON, COMMA, GT, LT, IntType, eoh_pattern, snippet,
};
use crate::number::{
    decimal, decimal_bytes, is_digit, lemma_decimal_bytes, lemma_encode_concat,
    law_integer_roundtrip, parse_int, signed_decimal, scan_digits, IntErrorKind, PLUS, MINUS,
};
use crate::ser::{
    bool_text, document_text, eoh_text, eor_text, field_text, fields_text, header_intro,
    list_text, record_text, records_text, separated, written_items,
};
use crate::strings::lower_chars;
use crate::text::{
    ascii_lower, at_boundary, find_byte, lemma_find_byte_at, lemma_find_byte_none,
    lemma_ws_width_ascii, trim, trim_start, ws_prefix_len, ws_suffix_len, ws_width, ws_width_end,
    all_white_space, is_white_space, lemma_encode_one, lemma_trim_start_white,
    lemma_ws_prefix_len_bound, lemma_ws_suffix_len_bound, lemma_ws_width_end_scalar,
    lemma_ws_width_scalar, trim_end, matches_ignore_case_at, find_ignore_case,
};
use vstd::prelude::*;
use vstd::utf8::*;
use vstd::arithmetic::power2::{lemma2_to64, lemma2_to64_rest, pow2};

verus! {

broadcast use encode_utf8_valid_utf8, encode_utf8_decode_utf8;

/// The closing tag that the writer puts after the fields of `term`.
pub open spec fn closing_text(term: Terminator) -> Seq<char> {
    match term {
        Terminator::Record => eor_text(),
        Terminator::Header => eoh_text(),
    }
}

/// A field name that reads back: it holds no ':' (which ends the name) and
/// no '>' (which ends the tag).
pub open spec fn key_ok(key: Seq<char>) -> bool {
    !key.contains(':') && !key.contains('>')
}

/// Fields that read back: good names, and values whose length in bytes
/// fits in a `usize`.
pub open spec fn fields_ok(fields: Seq<(Seq<char>, Seq<char>)>) -> bool {
    forall|i: int|
        0 <= i < fields.len() ==> key_ok(#[trigger] fields[i].0) && encode_utf8(fields[i].1).len()
            <= usize::MAX
}

/// The fields with their names in ASCII lower case.
pub open spec fn lower_keys(fields: Seq<(Seq<char>, Seq<char>)>) -> Seq<(Seq<char>, Seq<char>)> {
    fields.map_values(|f: (Seq<char>, Seq<char>)| (lower_chars(f.0), f.1))
}

/// The UTF-8 encoding of a character that is not ASCII has no ASCII byte,
/// so a text without the ASCII character `c` (whose byte is `b`) encodes
/// without the byte `b`.
pub proof fn lemma_encode_without(cs: Seq<char>, c: char, b: u8)
    requires
        b < 0x80,
        c as u32 == b as u32,
        !cs.contains(c),
    ensures
        forall|j: int| 0 <= j < encode_utf8(cs).len() ==> #[trigger] encode_utf8(cs)[j] != b,
    decreases cs.len(),
{
    if cs.len() > 0 {
        let x = cs[0] as u32;
        assert(cs.drop_first().contains(c) ==> cs.contains(c)) by {
            if cs.drop_first().contains(c) {
                let k = choose|k: int| 0 <= k < cs.drop_first().len() && cs.drop_first()[k] == c;
                assert(cs[k + 1] == c);
            }
        }
        lemma_encode_without(cs.drop_first(), c, b);
        let e = encode_scalar(x);
        assert(cs[0] != c);
        char_is_scalar(cs[0]);
        assert(forall|j: int| 0 <= j < e.len() ==> e[j] != b) by {
            if has_width_1_encoding(x) {
                if x == b as u32 {
                    char_u32_cast(cs[0], x);
                    char_u32_cast(c, x);
                }
                assert(x <= 0x7f && x != b as u32 ==> (x & 0x7F) as u8 != b) by (bit_vector);
            } else {
                assert(forall|y: u8| #[trigger] (0x80u8 | y) >= 0x80) by (bit_vector);
                assert(forall|y: u8| #[trigger] (0xC0u8 | y) >= 0x80) by (bit_vector);
                assert(forall|y: u8| #[trigger] (0xE0u8 | y) >= 0x80) by (bit_vector);
                assert(forall|y: u8| #[trigger] (0xF0u8 | y) >= 0x80) by (bit_vector);
            }
        }
        assert(encode_utf8(cs) =~= e + encode_utf8(cs.drop_first()));
        assert forall|j: int| 0 <= j < encode_utf8(cs).len() implies #[trigger] encode_utf8(cs)[j]
            != b by {
            if j < e.len() {
                assert(encode_utf8(cs)[j] == e[j]);
            } else {
                assert(encode_utf8(cs)[j] == encode_utf8(cs.drop_first())[j - e.len()]);
            }
        }
    }
}

/// The UTF-8 encoding of a one-character ASCII text is that character's
/// byte.
pub proof fn lemma_encode_ascii_char(c: char)
    requires
        (c as u32) < 0x80,
    ensures
        encode_utf8(seq![c]) == seq![c as u8],
{
    assert(is_ascii_chars(seq![c]));
    is_ascii_chars_encode_utf8(seq![c]);
    assert(encode_utf8(seq![c]) =~= seq![c as u8]);
}

/// The bytes of a written field: '<', the name, ':', the length, '>', the
/// value.
pub proof fn lemma_field_bytes(key: Seq<char>, value: Seq<char>)
    ensures
        encode_utf8(field_text(key, value)) == seq![LT] + encode_utf8(key) + seq![COLON]
            + decimal_bytes(encode_utf8(value).len()) + seq![GT] + encode_utf8(value),
{
    reveal_strlit("<");
    reveal_strlit(":");
    reveal_strlit(">");
    let n = encode_utf8(value).len();
    lemma_encode_ascii_char('<');
    lemma_encode_ascii_char(':');
    lemma_encode_ascii_char('>');
    lemma_decimal_bytes(n);
    let a = "<"@;
    let b = ":"@;
    let g = ">"@;
    let d = decimal(n);
    lemma_encode_concat(a, key);
    lemma_encode_concat(a + key, b);
    lemma_encode_concat(a + key + b, d);
    lemma_encode_concat(a + key + b + d, g);
    lemma_encode_concat(a + key + b + d + g, value);
    assert(a =~= seq!['<']);
    assert(b =~= seq![':']);
    assert(g =~= seq!['>']);
    assert(encode_utf8(field_text(key, value)) =~= seq![LT] + encode_utf8(key) + seq![COLON]
        + decimal_bytes(n) + seq![GT] + encode_utf8(value));
}

/// The bytes of a closing tag as the writer writes it.
pub proof fn lemma_closing_bytes(term: Terminator)
    ensures
        encode_utf8(closing_text(term)) == match term {
            Terminator::Record => seq![0x3cu8, 0x45u8, 0x4fu8, 0x52u8, 0x3eu8],
            Terminator::Header => seq![0x3cu8, 0x45u8, 0x4fu8, 0x48u8, 0x3eu8],
        },
{
    reveal_strlit("<EOR>");
    reveal_strlit("<EOH>");
    let t = closing_text(term);
    assert(is_ascii_chars(t));
    is_ascii_chars_encode_utf8(t);
    assert(encode_utf8(t) =~= match term {
        Terminator::Record => seq![0x3cu8, 0x45u8, 0x4fu8, 0x52u8, 0x3eu8],
        Terminator::Header => seq![0x3cu8, 0x45u8, 0x4fu8, 0x48u8, 0x3eu8],
    });
}

/// A text that starts with a written closing tag is at that closing tag,
/// and consuming it leaves what followed.
pub proof fn lemma_at_written_closing(term: Terminator, rest: Seq<u8>)
    ensures
        ({
            let r = encode_utf8(closing_text(term)) + rest;
            &&& at_closing_tag(r, term.pattern())
            &&& trim_start(r).skip(5) == rest
            &&& r[0] == LT
        }),
{
    lemma_closing_bytes(term);
    let r = encode_utf8(closing_text(term)) + rest;
    assert(r[0] == LT);
    lemma_ws_width_ascii(r);
    assert(trim_start(r) == r);
    let pat = term.pattern();
    assert forall|j: int| 0 <= j < pat.len() implies #[trigger] ascii_lower(r[0 + j]) == ascii_lower(
        pat[j],
    ) by {
        assert(r[j] == encode_utf8(closing_text(term))[j]);
    }
    assert(r.skip(5) =~= rest);
}

/// The bytes `r` of a field written with the name bytes `k`, the length
/// text `d` and the value bytes `v`, followed by `s`, have '<' at 0, ':'
/// after the name, '>' after the length and nowhere before.
pub open spec fn field_layout(r: Seq<u8>, k: Seq<u8>, d: Seq<u8>, v: Seq<u8>, s: Seq<u8>) -> bool {
    r == seq![LT] + k + seq![COLON] + d + seq![GT] + v + s
}

/// Reading the tag of a written field.
pub proof fn lemma_read_tag_of_field(r: Seq<u8>, k: Seq<u8>, d: Seq<u8>, v: Seq<u8>, s: Seq<u8>)
    requires
        field_layout(r, k, d, v, s),
        d == decimal_bytes(v.len()),
        v.len() <= usize::MAX,
        forall|j: int| 0 <= j < k.len() ==> k[j] != COLON && k[j] != GT,
        s.len() == 0 || !is_continuation_byte(s[0]),
    ensures
        read_tag(r) == (Step::Field(k, v), s),
{
    let n = v.len();
    lemma_decimal_bytes(n);
    let e: int = (1 + k.len() + 1 + d.len()) as int;
    let ve: int = e + 1 + n;
    assert(r[0] == LT);
    assert(r[e] == GT);
    lemma_find_byte_at(r, LT, 0, 0);
    assert forall|j: int| 0 <= j < e implies r[j] != GT by {
        if 1 <= j < 1 + k.len() {
            assert(r[j] == k[j - 1]);
        } else if 2 + k.len() <= j < e {
            assert(r[j] == d[j - 2 - k.len()]);
            assert(is_digit(d[j - 2 - k.len()]));
        } else if j == 1 + k.len() {
            assert(r[j] == COLON);
        }
    }
    lemma_find_byte_at(r, GT, 0, e);
    let def = r.subrange(1, e);
    assert(def =~= k + seq![COLON] + d);
    assert forall|j: int| 0 <= j < k.len() implies def[j] != COLON by {
        assert(def[j] == k[j]);
    }
    lemma_find_byte_at(def, COLON, 0, k.len() as int);
    let tail = def.skip(k.len() + 1int);
    assert(tail =~= d);
    assert forall|j: int| 0 <= j < d.len() implies d[j] != COLON by {
        assert(is_digit(d[j]));
    }
    lemma_find_byte_none(d, COLON, 0);
    law_integer_roundtrip(n as int, false, 0, usize::MAX as int);
    assert(encode_utf8(signed_decimal(n as int)) == d);
    assert(at_boundary(r, ve)) by {
        if ve < r.len() {
            assert(r[ve] == s[0]);
        }
    }
    assert(def.take(k.len() as int) =~= k);
    assert(r.subrange(e + 1, ve) =~= v);
    assert(r.skip(ve) =~= s);
}

/// A written field is not taken for a closing tag.
pub proof fn lemma_field_not_closing(r: Seq<u8>, k: Seq<u8>, d: Seq<u8>, v: Seq<u8>, s: Seq<u8>, term: Terminator)
    requires
        field_layout(r, k, d, v, s),
        forall|j: int| 0 <= j < k.len() ==> k[j] != COLON && k[j] != GT,
    ensures
        !at_closing_tag(r, term.pattern()),
        next_tag(r) == read_tag(r),
{
    assert(r[0] == LT);
    lemma_ws_width_ascii(r);
    assert(trim_start(r) == r);
    let pat = term.pattern();
    if k.len() >= 4 {
        assert(r[4] == k[3]);
        assert(ascii_lower(r[0int + 4]) != ascii_lower(pat[4]));
    } else {
        let i: int = (1 + k.len()) as int;
        assert(r[i] == COLON);
        assert(ascii_lower(r[0int + i]) != ascii_lower(pat[i]));
    }
    assert(skip_header(r) == Some(r));
}

/// A written field, followed by text that starts a character (or nothing), is
/// read back as one field: its name and its value, leaving what followed.
pub proof fn lemma_read_written_field(
    key: Seq<char>,
    value: Seq<char>,
    s: Seq<u8>,
    term: Terminator,
)
    requires
        key_ok(key),
        encode_utf8(value).len() <= usize::MAX,
        s.len() == 0 || !is_continuation_byte(s[0]),
    ensures
        field_step(encode_utf8(field_text(key, value)) + s, term) == (
            Step::Field(encode_utf8(key), encode_utf8(value)),
            s,
        ),
{
    let k = encode_utf8(key);
    let v = encode_utf8(value);
    let d = decimal_bytes(v.len());
    lemma_field_bytes(key, value);
    lemma_encode_without(key, ':', COLON);
    lemma_encode_without(key, '>', GT);
    let r = encode_utf8(field_text(key, value)) + s;
    assert(field_layout(r, k, d, v, s)) by {
        assert(r =~= seq![LT] + k + seq![COLON] + d + seq![GT] + v + s);
    }
    lemma_field_not_closing(r, k, d, v, s, term);
    lemma_read_tag_of_field(r, k, d, v, s);
}

/// Written fields followed by a closing tag start with '<'.
pub proof fn lemma_written_starts_with_lt(
    fields: Seq<(Seq<char>, Seq<char>)>,
    term: Terminator,
    rest: Seq<u8>,
)
    ensures
        ({
            let s = encode_utf8(fields_text(fields)) + encode_utf8(closing_text(term)) + rest;
            s.len() > 0 && s[0] == LT
        }),
{
    let c = encode_utf8(closing_text(term));
    let s = encode_utf8(fields_text(fields)) + c + rest;
    lemma_at_written_closing(term, rest);
    if fields.len() > 0 {
        lemma_encode_concat(field_text(fields[0].0, fields[0].1), fields_text(fields.drop_first()));
        lemma_field_bytes(fields[0].0, fields[0].1);
        assert(s[0] == encode_utf8(field_text(fields[0].0, fields[0].1))[0]);
    } else {
        assert(encode_utf8(fields_text(fields)) =~= Seq::<u8>::empty());
        assert(s =~= c + rest);
    }
}

/// Reading back written fields, closed by the closing tag of `term`, gives
/// the fields, their names in ASCII lower case, and leaves the closing tag
/// and what follows it.
pub proof fn lemma_read_written_fields(
    fields: Seq<(Seq<char>, Seq<char>)>,
    term: Terminator,
    rest: Seq<u8>,
)
    requires
        fields_ok(fields),
    ensures
        read_fields(
            encode_utf8(fields_text(fields)) + encode_utf8(closing_text(term)) + rest,
            term,
        ) == FieldsRead::Read(lower_keys(fields), encode_utf8(closing_text(term)) + rest),
    decreases fields.len(),
{
    let c = encode_utf8(closing_text(term));
    lemma_at_written_closing(term, rest);
    reveal_with_fuel(read_fields, 1);
    if fields.len() == 0 {
        assert(encode_utf8(fields_text(fields)) =~= Seq::<u8>::empty());
        assert(encode_utf8(fields_text(fields)) + c + rest =~= c + rest);
        assert(lower_keys(fields) =~= Seq::empty());
    } else {
        let f0 = fields[0];
        let tailf = fields.drop_first();
        assert(fields_ok(tailf)) by {
            assert forall|i: int| 0 <= i < tailf.len() implies key_ok(#[trigger] tailf[i].0)
                && encode_utf8(tailf[i].1).len() <= usize::MAX by {
                assert(tailf[i] == fields[i + 1]);
                assert(key_ok(fields[i + 1].0));
            }
        }
        assert(key_ok(fields[0].0));
        lemma_read_written_fields(tailf, term, rest);
        lemma_encode_concat(field_text(f0.0, f0.1), fields_text(tailf));
        let s = encode_utf8(fields_text(tailf)) + c + rest;
        lemma_written_starts_with_lt(tailf, term, rest);
        lemma_read_written_field(f0.0, f0.1, s, term);
        let r = encode_utf8(fields_text(fields)) + c + rest;
        assert(r =~= encode_utf8(field_text(f0.0, f0.1)) + s);
        assert(lower_keys(fields) =~= seq![(lower_chars(f0.0), f0.1)] + lower_keys(tailf));
    }
}

/// Law: a record or header written with the fields `fields` reads back as
/// those fields, their names in ASCII lower case (the reader lower-cases
/// names), and consuming the closing tag then leaves exactly the text
/// that followed.
pub proof fn law_record_roundtrip(fields: Seq<(Seq<char>, Seq<char>)>, term: Terminator, rest: Seq<u8>)
    requires
        fields_ok(fields),
    ensures
        ({
            let written = encode_utf8(fields_text(fields) + closing_text(term)) + rest;
            let after = encode_utf8(closing_text(term)) + rest;
            &&& read_fields(written, term) == FieldsRead::Read(lower_keys(fields), after)
            &&& at_closing_tag(after, term.pattern())
            &&& trim_start(after).skip(5) == rest
        }),
{
    lemma_encode_concat(fields_text(fields), closing_text(term));
    lemma_read_written_fields(fields, term, rest);
    lemma_at_written_closing(term, rest);
    let c = encode_utf8(closing_text(term));
    assert(encode_utf8(fields_text(fields) + closing_text(term)) + rest =~= encode_utf8(
        fields_text(fields),
    ) + c + rest);
}

/// Records whose fields all read back.
pub open spec fn records_ok(records: Seq<Seq<(Seq<char>, Seq<char>)>>) -> bool {
    forall|i: int| 0 <= i < records.len() ==> fields_ok(#[trigger] records[i])
}

/// The records with the names of their fields in ASCII lower case.
pub open spec fn lower_records(records: Seq<Seq<(Seq<char>, Seq<char>)>>) -> Seq<
    Seq<(Seq<char>, Seq<char>)>,
> {
    records.map_values(|fs: Seq<(Seq<char>, Seq<char>)>| lower_keys(fs))
}

/// A line break in front of a text changes nothing once leading whitespace
/// is dropped.
pub proof fn lemma_newline_prefix(z: Seq<u8>)
    ensures
        encode_utf8("\n"@) == seq![0x0au8],
        trim_start(seq![0x0au8] + z) == trim_start(z),
{
    reveal_strlit("\n");
    assert("\n"@ =~= seq!['\n']);
    lemma_encode_ascii_char('\n');
    let y = seq![0x0au8] + z;
    assert(ws_width(y) == 1);
    assert(y.skip(1) =~= z);
    crate::text::lemma_ws_prefix_len_bound(z);
    assert(ws_prefix_len(y) == 1 + ws_prefix_len(z));
    assert(y.skip(1 + ws_prefix_len(z) as int) =~= z.skip(ws_prefix_len(z) as int));
}

/// The reader only looks at the input from its first non-whitespace byte
/// on when it decides what comes next.
pub proof fn lemma_same_trim(p: Seq<u8>, x: Seq<u8>, term: Terminator)
    requires
        trim_start(p + x) == trim_start(x),
    ensures
        at_closing_tag(p + x, term.pattern()) == at_closing_tag(x, term.pattern()),
        next_tag(p + x) == next_tag(x),
{
}

/// A written record, after whitespace `p`, reads back as its fields, and
/// consuming its `<EOR>` leaves what followed.
#[verifier::spinoff_prover]
#[verifier::rlimit(40)]
pub proof fn lemma_read_record_after(
    p: Seq<u8>,
    fields: Seq<(Seq<char>, Seq<char>)>,
    term: Terminator,
    rest: Seq<u8>,
)
    requires
        fields_ok(fields),
        trim_start(p + encode_utf8(fields_text(fields) + closing_text(term)) + rest) == trim_start(
            encode_utf8(fields_text(fields) + closing_text(term)) + rest,
        ),
    ensures
        read_fields(p + encode_utf8(fields_text(fields) + closing_text(term)) + rest, term) matches FieldsRead::Read(
            fs,
            left,
        ) && fs == lower_keys(fields) && after_closing(left, term) == rest,
{
    let x = encode_utf8(fields_text(fields) + closing_text(term)) + rest;
    let px = p + encode_utf8(fields_text(fields) + closing_text(term)) + rest;
    assert(px =~= p + x);
    law_record_roundtrip(fields, term, rest);
    lemma_same_trim(p, x, term);
    lemma_encode_concat(fields_text(fields), closing_text(term));
    lemma_written_starts_with_lt(fields, term, rest);
    let c = encode_utf8(closing_text(term));
    assert(x =~= encode_utf8(fields_text(fields)) + c + rest);
    assert(x[0] == LT);
    lemma_ws_width_ascii(x);
    if fields.len() == 0 {
        assert(encode_utf8(fields_text(fields)) =~= Seq::<u8>::empty());
        assert(x =~= c + rest);
        assert(at_closing_tag(x, term.pattern()));
        assert(lower_keys(fields) =~= Seq::empty());
    } else {
        assert(!at_closing_tag(x, term.pattern())) by {
            let f0 = fields[0];
            let s = encode_utf8(fields_text(fields.drop_first())) + c + rest;
            lemma_written_starts_with_lt(fields.drop_first(), term, rest);
            lemma_encode_concat(field_text(f0.0, f0.1), fields_text(fields.drop_first()));
            assert(x =~= encode_utf8(field_text(f0.0, f0.1)) + s);
            assert(key_ok(fields[0].0));
            lemma_read_written_field(f0.0, f0.1, s, term);
        }
        assert(field_step(px, term) == field_step(x, term));
    }
}

/// The written records, after whitespace `p`, read back as the records.
pub proof fn lemma_read_written_records(p: Seq<u8>, records: Seq<Seq<(Seq<char>, Seq<char>)>>)
    requires
        records_ok(records),
        trim_start(p + encode_utf8(records_text(records))) == trim_start(
            encode_utf8(records_text(records)),
        ),
    ensures
        read_records(p + encode_utf8(records_text(records))) == RecordsRead::Read(
            lower_records(records),
        ),
    decreases records.len(),
{
    let r = p + encode_utf8(records_text(records));
    if records.len() == 0 {
        assert(encode_utf8(records_text(records)) =~= Seq::<u8>::empty());
        assert(trim_start(Seq::<u8>::empty()) =~= Seq::<u8>::empty());
        assert(lower_records(records) =~= Seq::empty());
    } else {
        let r0 = records[0];
        let tail = records.drop_first();
        assert(fields_ok(r0));
        assert(records_ok(tail)) by {
            assert forall|i: int| 0 <= i < tail.len() implies fields_ok(#[trigger] tail[i]) by {
                assert(tail[i] == records[i + 1]);
                assert(fields_ok(records[i + 1]));
            }
        }
        let nl = seq![0x0au8];
        let z = encode_utf8(records_text(tail));
        lemma_newline_prefix(z);
        lemma_encode_concat(record_text(r0) + "\n"@, records_text(tail));
        lemma_encode_concat(record_text(r0), "\n"@);
        let w = encode_utf8(record_text(r0));
        assert(encode_utf8(records_text(records)) =~= w + nl + z);
        assert(r =~= p + w + (nl + z));
        assert(p + w + (nl + z) == p + encode_utf8(fields_text(r0) + closing_text(Terminator::Record))
            + (nl + z));
        lemma_written_starts_with_lt(r0, Terminator::Record, nl + z);
        lemma_encode_concat(fields_text(r0), closing_text(Terminator::Record));
        let x = w + (nl + z);
        assert(x =~= encode_utf8(fields_text(r0)) + encode_utf8(closing_text(Terminator::Record)) + (
        nl + z));
        lemma_ws_width_ascii(x);
        assert(trim_start(r) == x) by {
            assert(encode_utf8(records_text(records)) =~= x);
        }
        lemma_read_record_after(p, r0, Terminator::Record, nl + z);
        lemma_read_written_records(nl, tail);
        assert(lower_records(records) =~= seq![lower_keys(r0)] + lower_records(tail));
    }
}

/// The text of written records is empty or starts with '<', so it has no
/// leading whitespace.
pub proof fn lemma_records_text_start(records: Seq<Seq<(Seq<char>, Seq<char>)>>)
    ensures
        ({
            let body = encode_utf8(records_text(records));
            &&& records.len() == 0 ==> body.len() == 0
            &&& records.len() > 0 ==> body.len() > 0 && body[0] == LT
            &&& trim_start(body) == body
        }),
{
    let body = encode_utf8(records_text(records));
    if records.len() > 0 {
        lemma_encode_concat(record_text(records[0]) + "\n"@, records_text(records.drop_first()));
        lemma_encode_concat(record_text(records[0]), "\n"@);
        lemma_encode_concat(fields_text(records[0]), closing_text(Terminator::Record));
        let rest = encode_utf8("\n"@) + encode_utf8(records_text(records.drop_first()));
        lemma_written_starts_with_lt(records[0], Terminator::Record, rest);
        assert(body =~= encode_utf8(fields_text(records[0])) + encode_utf8(
            closing_text(Terminator::Record),
        ) + rest);
        lemma_ws_width_ascii(body);
    } else {
        assert(body =~= Seq::<u8>::empty());
        assert(trim_start(body) =~= body);
    }
}

/// The bytes of a written document with a header: the introduction line
/// (14 bytes, no '<' in it, starting with '#'), the header's fields and
/// `<EOH>`, a line break, the records.
pub proof fn lemma_document_bytes(
    h: Seq<(Seq<char>, Seq<char>)>,
    records: Seq<Seq<(Seq<char>, Seq<char>)>>,
)
    ensures
        ({
            let r = encode_utf8(document_text(Some(h), records));
            let ib = encode_utf8(header_intro());
            &&& ib.len() == 14
            &&& r == ib + encode_utf8(fields_text(h) + eoh_text()) + seq![0x0au8] + encode_utf8(
                records_text(records),
            )
            &&& r[0] == 0x23u8
            &&& forall|j: int| 0 <= j < 14 ==> r[j] != LT
        }),
{
    reveal_strlit("# ADIF Header\n");
    let intro = header_intro();
    assert(is_ascii_chars(intro));
    is_ascii_chars_encode_utf8(intro);
    let ib = encode_utf8(intro);
    let body = encode_utf8(records_text(records));
    lemma_newline_prefix(body);
    lemma_encode_concat(intro + fields_text(h) + eoh_text() + "\n"@, records_text(records));
    lemma_encode_concat(intro + fields_text(h) + eoh_text(), "\n"@);
    lemma_encode_concat(intro, fields_text(h) + eoh_text());
    assert(intro + fields_text(h) + eoh_text() =~= intro + (fields_text(h) + eoh_text()));
    let r = encode_utf8(document_text(Some(h), records));
    let hx = encode_utf8(fields_text(h) + eoh_text());
    assert(r =~= ib + hx + seq![0x0au8] + body);
    assert forall|j: int| 0 <= j < 14 implies r[j] != LT by {
        assert(r[j] == ib[j]);
        assert(ib[j] == intro[j] as u8);
    }
    assert(r[0] == ib[0]);
}

/// Law: a document written with an optional header and records reads
/// back as that header and those records, every field name in ASCII lower
/// case (the reader lower-cases names).
pub proof fn law_document_roundtrip(
    header: Option<Seq<(Seq<char>, Seq<char>)>>,
    records: Seq<Seq<(Seq<char>, Seq<char>)>>,
)
    requires
        header matches Some(h) ==> fields_ok(h),
        records_ok(records),
    ensures
        read_document(encode_utf8(document_text(header, records))) == DocumentRead::Read(
            match header {
                Some(h) => Some(lower_keys(h)),
                None => None,
            },
            lower_records(records),
        ),
{
    let body = encode_utf8(records_text(records));
    lemma_records_text_start(records);
    match header {
        None => {
            let r = encode_utf8(document_text(header, records));
            assert(r == body);
            assert(Seq::<u8>::empty() + body =~= body);
            lemma_read_written_records(Seq::empty(), records);
            if records.len() == 0 {
                assert(header_start(r) == Ok::<Option<Seq<u8>>, crate::error::ErrorView>(None));
            } else {
                assert(header_start(r) == Ok::<Option<Seq<u8>>, crate::error::ErrorView>(None));
            }
        },
        Some(h) => {
            lemma_header_document(h, records);
        },
    }
}

/// The law for a document with a header.
pub proof fn lemma_header_document(
    h: Seq<(Seq<char>, Seq<char>)>,
    records: Seq<Seq<(Seq<char>, Seq<char>)>>,
)
    requires
        fields_ok(h),
        records_ok(records),
    ensures
        read_document(encode_utf8(document_text(Some(h), records))) == DocumentRead::Read(
            Some(lower_keys(h)),
            lower_records(records),
        ),
{
    let body = encode_utf8(records_text(records));
    lemma_records_text_start(records);
    lemma_document_bytes(h, records);
    let r = encode_utf8(document_text(Some(h), records));
    let ib = encode_utf8(header_intro());
    let hx = encode_utf8(fields_text(h) + eoh_text());
    let nl = seq![0x0au8];
    lemma_newline_prefix(body);
    lemma_encode_concat(fields_text(h), eoh_text());
    lemma_written_starts_with_lt(h, Terminator::Header, nl + body);
    assert(hx + nl + body =~= encode_utf8(fields_text(h)) + encode_utf8(
        closing_text(Terminator::Header),
    ) + (nl + body));
    assert(r[14] == LT);
    lemma_ws_width_ascii(r);
    lemma_find_byte_at(r, LT, 0, 14);
    let hx0 = hx + (nl + body);
    assert(r.skip(14) =~= hx0);
    assert(header_start(r) == Ok::<Option<Seq<u8>>, crate::error::ErrorView>(Some(hx0)));
    lemma_read_record_after(Seq::empty(), h, Terminator::Header, nl + body);
    assert(Seq::<u8>::empty() + encode_utf8(fields_text(h) + closing_text(Terminator::Header)) + (nl
        + body) =~= hx0);
    lemma_read_written_records(nl, records);
}

/// A text whose first and last bytes are ASCII and not whitespace is its
/// own trim.
pub proof fn lemma_trim_solid(s: Seq<u8>)
    requires
        s.len() > 0,
        0x20 < s[0] < 0x80,
        0x20 < s[s.len() - 1] < 0x80,
    ensures
        trim(s) == s,
{
    lemma_ws_width_ascii(s);
    assert(ws_width_end(s) == 0);
    assert(ws_suffix_len(s) == 0);
    assert(s.take(s.len() as int) =~= s);
}

/// Law: a boolean written as a field value ("Y" or "N") reads back as the
/// same boolean.
pub proof fn law_bool_roundtrip(b: bool)
    ensures
        bool_of(trim(encode_utf8(bool_text(b)))) == Some(b),
{
    reveal_strlit("Y");
    reveal_strlit("N");
    let t = bool_text(b);
    assert(t =~= seq![if b { 'Y' } else { 'N' }]);
    lemma_encode_ascii_char(if b { 'Y' } else { 'N' });
    lemma_trim_solid(encode_utf8(t));
}

/// Law: an integer written as a field value (in decimal, by
/// `serialize_i64` or `serialize_u64`) reads back, as any integer type
/// whose range holds it, as the same integer.
pub proof fn law_integer_value_roundtrip(v: int, ty: crate::de::IntType)
    requires
        ty.min() <= v <= ty.max(),
    ensures
        parse_int(trim(encode_utf8(signed_decimal(v))), ty.signed(), ty.min(), ty.max())
            == Ok::<int, crate::number::IntErrorKind>(v),
{
    let s = encode_utf8(signed_decimal(v));
    law_integer_roundtrip(v, ty.signed(), ty.min(), ty.max());
    if v < 0 {
        let n = (-v) as nat;
        lemma_decimal_bytes(n);
        lemma_encode_concat(seq!['-'], decimal(n));
        lemma_encode_ascii_char('-');
        assert(s =~= seq![crate::number::MINUS] + decimal_bytes(n));
        assert(s[s.len() - 1] == decimal_bytes(n)[decimal_bytes(n).len() - 1]);
        assert(is_digit(decimal_bytes(n)[decimal_bytes(n).len() - 1]));
    } else {
        lemma_decimal_bytes(v as nat);
        assert(is_digit(s[0]));
        assert(is_digit(s[s.len() - 1]));
    }
    lemma_trim_solid(s);
}

/// Writing the items of a list one after the other, each after a
/// `start_element`, gives the items separated by commas, when no item is
/// written as empty text.
pub proof fn law_written_items(items: Seq<Seq<char>>)
    requires
        forall|i: int| 0 <= i < items.len() ==> #[trigger] items[i].len() > 0,
    ensures
        written_items(items) == list_text(items),
    decreases items.len(),
{
    if items.len() == 1 {
        assert(items.drop_last() =~= Seq::<Seq<char>>::empty());
        assert(written_items(items.drop_last()) =~= Seq::<char>::empty());
        assert(separated(Seq::<char>::empty()) =~= Seq::<char>::empty());
        assert(items.last() == items[0]);
        assert(written_items(items) =~= items[0]);
    } else if items.len() >= 2 {
        let front = items.drop_last();
        assert forall|i: int| 0 <= i < front.len() implies #[trigger] front[i].len() > 0 by {
            assert(front[i] == items[i]);
        }
        law_written_items(front);
        lemma_list_text_push(front, items.last());
        assert(front.push(items.last()) =~= items);
        lemma_list_text_nonempty(front);
        assert(written_items(items) == separated(list_text(front)) + items.last());
    }
}

/// A list text of items that are not all empty is not empty.
pub proof fn lemma_list_text_nonempty(items: Seq<Seq<char>>)
    requires
        items.len() > 0,
        forall|i: int| 0 <= i < items.len() ==> #[trigger] items[i].len() > 0,
    ensures
        list_text(items).len() > 0,
{
    assert(items[0].len() > 0);
}

/// Adding an item at the end of a list text adds a comma and the item.
pub proof fn lemma_list_text_push(items: Seq<Seq<char>>, x: Seq<char>)
    requires
        items.len() > 0,
    ensures
        list_text(items.push(x)) == list_text(items) + ","@ + x,
    decreases items.len(),
{
    let p = items.push(x);
    assert(p[0] == items[0]);
    if items.len() == 1 {
        assert(p.drop_first() =~= seq![x]);
        assert(list_text(seq![x]) == x);
        assert(list_text(p) =~= list_text(items) + ","@ + x);
    } else {
        lemma_list_text_push(items.drop_first(), x);
        assert(p.drop_first() =~= items.drop_first().push(x));
        assert(list_text(p) =~= list_text(items) + ","@ + x);
    }
}

/// Items that read back from a list: not empty, without commas, and
/// without leading or trailing whitespace.
pub open spec fn items_ok(items: Seq<Seq<char>>) -> bool {
    forall|i: int|
        0 <= i < items.len() ==> #[trigger] items[i].len() > 0 && !items[i].contains(',') && trim(
            encode_utf8(items[i]),
        ) == encode_utf8(items[i])
}

/// Law: items written as a list read back, by `list_items`, as the same
/// items.
pub proof fn law_list_roundtrip(items: Seq<Seq<char>>)
    requires
        items_ok(items),
    ensures
        list_items(encode_utf8(list_text(items))) == items.map_values(|x: Seq<char>| encode_utf8(x)),
    decreases items.len(),
{
    reveal_strlit(",");
    if items.len() == 0 {
        let s = encode_utf8(list_text(items));
        assert(s =~= Seq::<u8>::empty());
        assert(find_byte(s, COMMA, 0) == -1);
        assert(trim(s) =~= Seq::<u8>::empty()) by {
            assert(ws_prefix_len(s) == 0);
            assert(ws_suffix_len(s.skip(0)) == 0);
        }
        assert(items.map_values(|x: Seq<char>| encode_utf8(x)) =~= Seq::<Seq<u8>>::empty());
    } else {
        let x0 = items[0];
        let e0 = encode_utf8(x0);
        lemma_encode_without(x0, ',', COMMA);
        assert(x0.len() > 0);
        assert(e0.len() > 0) by {
            assert(encode_utf8(x0) == encode_scalar(x0[0] as u32) + encode_utf8(x0.drop_first()));
        }
        if items.len() == 1 {
            let s = encode_utf8(list_text(items));
            assert(s == e0);
            lemma_find_byte_none(s, COMMA, 0);
            assert(items.map_values(|x: Seq<char>| encode_utf8(x)) =~= seq![e0]);
        } else {
            let tail = items.drop_first();
            assert(items_ok(tail)) by {
                assert forall|i: int| 0 <= i < tail.len() implies #[trigger] tail[i].len() > 0
                    && !tail[i].contains(',') && trim(encode_utf8(tail[i])) == encode_utf8(tail[i]) by {
                    assert(tail[i] == items[i + 1]);
                }
            }
            law_list_roundtrip(tail);
            assert(","@ =~= seq![',']);
            lemma_encode_ascii_char(',');
            lemma_encode_concat(x0, ","@);
            lemma_encode_concat(x0 + ","@, list_text(tail));
            let rest = encode_utf8(list_text(tail));
            let s = encode_utf8(list_text(items));
            assert(s =~= e0 + seq![COMMA] + rest);
            assert(s[e0.len() as int] == COMMA);
            assert forall|j: int| 0 <= j < e0.len() implies s[j] != COMMA by {
                assert(s[j] == e0[j]);
            }
            lemma_find_byte_at(s, COMMA, 0, e0.len() as int);
            assert(s.take(e0.len() as int) =~= e0);
            assert(s.skip(e0.len() + 1int) =~= rest);
            assert(items.map_values(|x: Seq<char>| encode_utf8(x)) =~= seq![e0] + tail.map_values(
                |x: Seq<char>| encode_utf8(x),
            ));
        }
    }
}

/// Law: `trim_start` skips a leading character exactly when
/// `char::is_whitespace` holds of it (every `White_Space` character, such
/// as '\r', '\n', '\t', U+00A0 or U+3000), and then skips whatever
/// whitespace follows as well.
#[verifier::spinoff_prover]
pub proof fn law_trim_start_char(c: char, s: Seq<u8>)
    ensures
        trim_start(encode_utf8(seq![c]) + s) == if is_white_space(c) {
            trim_start(s)
        } else {
            encode_utf8(seq![c]) + s
        },
{
    lemma_encode_one(c);
    let e = encode_utf8(seq![c]);
    let x = e + s;
    lemma_ws_width_scalar(c as u32, s);
    if is_white_space(c) {
        assert(all_white_space(seq![c]));
        lemma_trim_start_white(seq![c], s);
    } else {
        assert(ws_prefix_len(x) == 0);
        assert(x.skip(0) =~= x);
    }
}

/// Law: `trim_end` drops a trailing character exactly when
/// `char::is_whitespace` holds of it, and then drops whatever whitespace
/// precedes it as well.
#[verifier::spinoff_prover]
pub proof fn law_trim_end_char(s: Seq<u8>, c: char)
    ensures
        trim_end(s + encode_utf8(seq![c])) == if is_white_space(c) {
            trim_end(s)
        } else {
            s + encode_utf8(seq![c])
        },
{
    lemma_encode_one(c);
    let e = encode_utf8(seq![c]);
    let x = s + e;
    lemma_ws_width_end_scalar(s, c as u32);
    lemma_ws_suffix_len_bound(s);
    if is_white_space(c) {
        assert(x.take(x.len() - e.len()) =~= s);
        assert(ws_suffix_len(x) == e.len() + ws_suffix_len(s));
        assert(x.take(x.len() - ws_suffix_len(x)) =~= s.take(s.len() - ws_suffix_len(s)));
    } else {
        assert(ws_suffix_len(x) == 0);
        assert(x.take(x.len() as int) =~= x);
    }
}

/// `v` is a value of the Rust integer type that `ty` names, by that type's
/// own `MIN` and `MAX`.
pub open spec fn in_rust_range(ty: IntType, v: int) -> bool {
    match ty {
        IntType::I8 => i8::MIN <= v <= i8::MAX,
        IntType::I16 => i16::MIN <= v <= i16::MAX,
        IntType::I32 => i32::MIN <= v <= i32::MAX,
        IntType::I64 => i64::MIN <= v <= i64::MAX,
        IntType::U8 => u8::MIN <= v <= u8::MAX,
        IntType::U16 => u16::MIN <= v <= u16::MAX,
        IntType::U32 => u32::MIN <= v <= u32::MAX,
        IntType::U64 => u64::MIN <= v <= u64::MAX,
    }
}

/// Law: the range that an integer type is read with is exactly the range
/// of the Rust type it names, and the type is signed exactly when that
/// range holds negative values.
pub proof fn law_int_type_ranges(ty: IntType, v: int)
    ensures
        (ty.min() <= v <= ty.max()) == in_rust_range(ty, v),
        ty.signed() == (ty.min() < 0),
        ty.min() <= 0 < ty.max(),
{
}

/// Law: every value of the Rust integer type that `ty` names, written in
/// decimal, reads back as that value (as `str::parse` of that type does).
pub proof fn law_integer_reads_whole_range(ty: IntType, v: int)
    requires
        in_rust_range(ty, v),
    ensures
        parse_int(trim(encode_utf8(signed_decimal(v))), ty.signed(), ty.min(), ty.max())
            == Ok::<int, crate::number::IntErrorKind>(v),
{
    law_int_type_ranges(ty, v);
    law_integer_value_roundtrip(v, ty);
}

/// `p` is the closing tag of a header, "<EOH>", in any ASCII case.
pub open spec fn is_eoh_tag(p: Seq<u8>) -> bool {
    &&& p.len() == 5
    &&& p[0] == 0x3c
    &&& p[1] == 0x45 || p[1] == 0x65
    &&& p[2] == 0x4f || p[2] == 0x6f
    &&& p[3] == 0x48 || p[3] == 0x68
    &&& p[4] == 0x3e
}

/// `find_ignore_case` returns the first index at or after `from` where
/// `pat` matches.
pub proof fn lemma_find_ignore_case_at(s: Seq<u8>, pat: Seq<u8>, from: int, k: int)
    requires
        0 <= from <= k,
        matches_ignore_case_at(s, k, pat),
        forall|j: int| from <= j < k ==> !matches_ignore_case_at(s, j, pat),
    ensures
        find_ignore_case(s, pat, from) == k,
    decreases k - from,
{
    if from < k {
        lemma_find_ignore_case_at(s, pat, from + 1, k);
    }
}

/// An introduction text (no '<', not starting with whitespace) encodes to
/// bytes without '<' that `trim_start` leaves in place, whatever follows.
pub proof fn lemma_intro_bytes(intro: Seq<char>, x: Seq<u8>)
    requires
        intro.len() > 0,
        !intro.contains('<'),
        !is_white_space(intro[0]),
    ensures
        ({
            let ib = encode_utf8(intro);
            &&& ib.len() > 0
            &&& forall|j: int| 0 <= j < ib.len() ==> #[trigger] ib[j] != LT
            &&& trim_start(ib + x) == ib + x
        }),
{
    let ib = encode_utf8(intro);
    lemma_encode_without(intro, '<', LT);
    let c0 = intro[0];
    lemma_encode_one(c0);
    assert(ib =~= encode_scalar(c0 as u32) + encode_utf8(intro.drop_first()));
    law_trim_start_char(c0, encode_utf8(intro.drop_first()) + x);
    assert(ib + x =~= encode_utf8(seq![c0]) + (encode_utf8(intro.drop_first()) + x));
}

/// Law: a header that the reader meets where it expects a tag (any text
/// that does not start with '<' or whitespace) is skipped up to its
/// closing `<EOH>`, whatever the ASCII case of that tag: the next tag read
/// is the first one after it.
#[verifier::spinoff_prover]
pub proof fn law_header_skipped_any_case(intro: Seq<char>, p: Seq<u8>, rest: Seq<u8>)
    requires
        intro.len() > 0,
        !intro.contains('<'),
        !is_white_space(intro[0]),
        is_eoh_tag(p),
        trim_start(rest).len() == 0 || trim_start(rest)[0] == LT,
    ensures
        next_tag(encode_utf8(intro) + p + rest) == next_tag(rest),
{
    let ib = encode_utf8(intro);
    let t = ib + p + rest;
    lemma_intro_bytes(intro, p + rest);
    assert(t =~= ib + (p + rest));
    let k = ib.len() as int;
    let pat = eoh_pattern();
    assert(t[0] == ib[0]);
    assert(matches_ignore_case_at(t, k, pat)) by {
        assert forall|j: int| 0 <= j < pat.len() implies #[trigger] ascii_lower(t[k + j])
            == ascii_lower(pat[j]) by {
            assert(t[k + j] == p[j]);
        }
    }
    assert forall|j: int| 0 <= j < k implies !matches_ignore_case_at(t, j, pat) by {
        assert(t[j] == ib[j]);
        assert(ascii_lower(t[j + 0]) != ascii_lower(pat[0]));
    }
    lemma_find_ignore_case_at(t, pat, 0, k);
    assert(t.skip(k + 5) =~= rest);
    let u = trim_start(rest);
    assert(skip_header(t) == Some(u));
    if u.len() == 0 {
        assert(find_byte(u, LT, 0) == -1);
    }
}

/// Law: a document whose header is introduced by any text (one without
/// '<' that does not start with whitespace, such as "Generated by WSJT-X"
/// or the writer's "# ADIF Header") reads back as that header's fields,
/// then the records, every name in ASCII lower case.
#[verifier::spinoff_prover]
#[verifier::rlimit(50)]
pub proof fn law_document_any_intro(
    intro: Seq<char>,
    h: Seq<(Seq<char>, Seq<char>)>,
    records: Seq<Seq<(Seq<char>, Seq<char>)>>,
)
    requires
        intro.len() > 0,
        !intro.contains('<'),
        !is_white_space(intro[0]),
        fields_ok(h),
        records_ok(records),
    ensures
        read_document(
            encode_utf8(intro + fields_text(h) + eoh_text() + "\n"@ + records_text(records)),
        ) == DocumentRead::Read(Some(lower_keys(h)), lower_records(records)),
{
    let body = encode_utf8(records_text(records));
    lemma_records_text_start(records);
    let ib = encode_utf8(intro);
    let hx = encode_utf8(fields_text(h) + eoh_text());
    let nl = seq![0x0au8];
    lemma_newline_prefix(body);
    lemma_encode_concat(intro + fields_text(h) + eoh_text() + "\n"@, records_text(records));
    lemma_encode_concat(intro + fields_text(h) + eoh_text(), "\n"@);
    lemma_encode_concat(intro, fields_text(h) + eoh_text());
    assert(intro + fields_text(h) + eoh_text() =~= intro + (fields_text(h) + eoh_text()));
    let r = encode_utf8(intro + fields_text(h) + eoh_text() + "\n"@ + records_text(records));
    assert(r =~= ib + (hx + nl + body));
    lemma_intro_bytes(intro, hx + nl + body);
    lemma_encode_concat(fields_text(h), eoh_text());
    lemma_written_starts_with_lt(h, Terminator::Header, nl + body);
    let hx0 = hx + (nl + body);
    assert(hx + nl + body =~= hx0);
    assert(hx0 =~= encode_utf8(fields_text(h)) + encode_utf8(closing_text(Terminator::Header)) + (
    nl + body));
    let k = ib.len() as int;
    assert(r[k] == hx0[0]);
    assert(r[0] == ib[0]);
    assert forall|j: int| 0 <= j < k implies r[j] != LT by {
        assert(r[j] == ib[j]);
    }
    lemma_find_byte_at(r, LT, 0, k);
    assert(r.skip(k) =~= hx0);
    assert(header_start(r) == Ok::<Option<Seq<u8>>, crate::error::ErrorView>(Some(hx0)));
    lemma_read_record_after(Seq::empty(), h, Terminator::Header, nl + body);
    assert(Seq::<u8>::empty() + encode_utf8(fields_text(h) + closing_text(Terminator::Header)) + (nl
        + body) =~= hx0);
    lemma_read_written_records(nl, records);
}

/// The text of fields written each after a gap: `gaps[i]`, then the
/// `i`-th field.
pub open spec fn gapped_fields_text(
    fields: Seq<(Seq<char>, Seq<char>)>,
    gaps: Seq<Seq<char>>,
) -> Seq<char>
    decreases fields.len(),
{
    if fields.len() == 0 || gaps.len() == 0 {
        Seq::empty()
    } else {
        gaps[0] + field_text(fields[0].0, fields[0].1) + gapped_fields_text(
            fields.drop_first(),
            gaps.drop_first(),
        )
    }
}

/// The UTF-8 encoding of a non-empty text starts a character.
pub proof fn lemma_encode_first_byte(x: Seq<char>)
    requires
        x.len() > 0,
    ensures
        encode_utf8(x).len() > 0,
        !is_continuation_byte(encode_utf8(x)[0]),
{
    let v = x[0] as u32;
    char_is_scalar(x[0]);
    lemma_encode_one(x[0]);
    let e = encode_scalar(v);
    assert(encode_utf8(x) =~= e + encode_utf8(x.drop_first()));
    assert(encode_utf8(x)[0] == e[0]);
    if has_width_1_encoding(v) {
        assert(has_width_1_encoding(v) ==> leading_byte_width_1(v) < 0x80) by (bit_vector);
    } else {
        assert(forall|y: u8| #[trigger] (0xC0u8 | y) >= 0xc0) by (bit_vector);
        assert(forall|y: u8| #[trigger] (0xE0u8 | y) >= 0xc0) by (bit_vector);
        assert(forall|y: u8| #[trigger] (0xF0u8 | y) >= 0xc0) by (bit_vector);
    }
}

/// A written field after whitespace `g` is read as that field.
#[verifier::spinoff_prover]
pub proof fn lemma_gap_field_step(
    g: Seq<char>,
    key: Seq<char>,
    value: Seq<char>,
    s: Seq<u8>,
    term: Terminator,
)
    requires
        all_white_space(g),
        key_ok(key),
        encode_utf8(value).len() <= usize::MAX,
        s.len() == 0 || !is_continuation_byte(s[0]),
    ensures
        field_step(encode_utf8(g) + (encode_utf8(field_text(key, value)) + s), term) == (
            Step::Field(encode_utf8(key), encode_utf8(value)),
            s,
        ),
{
    let gb = encode_utf8(g);
    let fb = encode_utf8(field_text(key, value));
    lemma_read_written_field(key, value, s, term);
    lemma_field_bytes(key, value);
    assert((fb + s)[0] == LT);
    lemma_ws_width_ascii(fb + s);
    lemma_trim_start_white(g, fb + s);
    lemma_same_trim(gb, fb + s, term);
}

/// Whitespace before a closing tag: the run of fields ends there.
pub proof fn lemma_gap_closing(last: Seq<char>, term: Terminator, rest: Seq<u8>)
    requires
        all_white_space(last),
    ensures
        read_fields(encode_utf8(last) + (encode_utf8(closing_text(term)) + rest), term)
            == FieldsRead::Read(
            Seq::empty(),
            encode_utf8(last) + (encode_utf8(closing_text(term)) + rest),
        ),
{
    let c = encode_utf8(closing_text(term)) + rest;
    let x = encode_utf8(last) + c;
    lemma_at_written_closing(term, rest);
    lemma_trim_start_white(last, c);
    lemma_ws_width_ascii(c);
    assert(at_closing_tag(x, term.pattern()));
    reveal_with_fuel(read_fields, 1);
}

/// The bytes of gapped fields: the first gap, the first field, then the
/// rest, which starts a character.
#[verifier::spinoff_prover]
pub proof fn lemma_gapped_split(
    fields: Seq<(Seq<char>, Seq<char>)>,
    gaps: Seq<Seq<char>>,
    last: Seq<char>,
    term: Terminator,
    rest: Seq<u8>,
)
    requires
        fields.len() > 0,
        gaps.len() == fields.len(),
    ensures
        ({
            let tail = encode_utf8(
                gapped_fields_text(fields.drop_first(), gaps.drop_first()) + last + closing_text(
                    term,
                ),
            ) + rest;
            &&& encode_utf8(gapped_fields_text(fields, gaps) + last + closing_text(term)) + rest
                == encode_utf8(gaps[0]) + (encode_utf8(field_text(fields[0].0, fields[0].1))
                + tail)
            &&& tail.len() > 0
            &&& !is_continuation_byte(tail[0])
        }),
{
    reveal_strlit("<EOR>");
    reveal_strlit("<EOH>");
    let f0 = fields[0];
    let g0 = gaps[0];
    let a = gapped_fields_text(fields, gaps);
    let at = gapped_fields_text(fields.drop_first(), gaps.drop_first());
    let sx = at + last + closing_text(term);
    assert(closing_text(term).len() > 0);
    assert(a =~= g0 + field_text(f0.0, f0.1) + at);
    assert(a + last + closing_text(term) =~= g0 + (field_text(f0.0, f0.1) + sx));
    lemma_encode_concat(g0, field_text(f0.0, f0.1) + sx);
    lemma_encode_concat(field_text(f0.0, f0.1), sx);
    lemma_encode_first_byte(sx);
    let s = encode_utf8(sx) + rest;
    assert(s[0] == encode_utf8(sx)[0]);
    assert(encode_utf8(a + last + closing_text(term)) + rest =~= encode_utf8(g0) + (encode_utf8(
        field_text(f0.0, f0.1),
    ) + s));
}

/// The tails of fields and gaps that read back still read back.
pub proof fn lemma_gapped_tails(fields: Seq<(Seq<char>, Seq<char>)>, gaps: Seq<Seq<char>>)
    requires
        fields.len() > 0,
        fields_ok(fields),
        gaps.len() == fields.len(),
        forall|i: int| 0 <= i < gaps.len() ==> all_white_space(#[trigger] gaps[i]),
    ensures
        fields_ok(fields.drop_first()),
        forall|i: int|
            0 <= i < gaps.drop_first().len() ==> all_white_space(#[trigger] gaps.drop_first()[i]),
        key_ok(fields[0].0),
        encode_utf8(fields[0].1).len() <= usize::MAX,
{
    let tailf = fields.drop_first();
    let tailg = gaps.drop_first();
    assert forall|i: int| 0 <= i < tailf.len() implies key_ok(#[trigger] tailf[i].0)
        && encode_utf8(tailf[i].1).len() <= usize::MAX by {
        assert(tailf[i] == fields[i + 1]);
        assert(key_ok(fields[i + 1].0));
    }
    assert forall|i: int| 0 <= i < tailg.len() implies all_white_space(#[trigger] tailg[i]) by {
        assert(tailg[i] == gaps[i + 1]);
    }
    assert(key_ok(fields[0].0));
}

/// Law: the fields of a record or header read back the same whatever
/// whitespace (line breaks, "\r\n", tabs, any `White_Space` character)
/// stands before each field and before the closing tag: the reader gives
/// the fields, names in ASCII lower case, and stops at the closing tag.
#[verifier::spinoff_prover]
#[verifier::rlimit(50)]
pub proof fn law_record_with_whitespace(
    fields: Seq<(Seq<char>, Seq<char>)>,
    gaps: Seq<Seq<char>>,
    last: Seq<char>,
    term: Terminator,
    rest: Seq<u8>,
)
    requires
        fields_ok(fields),
        gaps.len() == fields.len(),
        forall|i: int| 0 <= i < gaps.len() ==> all_white_space(#[trigger] gaps[i]),
        all_white_space(last),
    ensures
        read_fields(
            encode_utf8(gapped_fields_text(fields, gaps) + last + closing_text(term)) + rest,
            term,
        ) == FieldsRead::Read(lower_keys(fields), encode_utf8(last + closing_text(term)) + rest),
    decreases fields.len(),
{
    let after = encode_utf8(last + closing_text(term)) + rest;
    lemma_encode_concat(last, closing_text(term));
    assert(after =~= encode_utf8(last) + (encode_utf8(closing_text(term)) + rest));
    if fields.len() == 0 {
        let a = gapped_fields_text(fields, gaps);
        assert(a =~= Seq::<char>::empty());
        assert(a + last + closing_text(term) =~= last + closing_text(term));
        lemma_gap_closing(last, term, rest);
        assert(lower_keys(fields) =~= Seq::empty());
    } else {
        let f0 = fields[0];
        lemma_gapped_tails(fields, gaps);
        law_record_with_whitespace(fields.drop_first(), gaps.drop_first(), last, term, rest);
        lemma_gapped_split(fields, gaps, last, term, rest);
        let s = encode_utf8(
            gapped_fields_text(fields.drop_first(), gaps.drop_first()) + last + closing_text(term),
        ) + rest;
        lemma_gap_field_step(gaps[0], f0.0, f0.1, s, term);
        reveal_with_fuel(read_fields, 1);
        assert(lower_keys(fields) =~= seq![(lower_chars(f0.0), f0.1)] + lower_keys(
            fields.drop_first(),
        ));
    }
}

/// `p` is the closing tag of `term` ("<EOR>" or "<EOH>") in any ASCII case.
pub open spec fn is_closing_tag(p: Seq<u8>, term: Terminator) -> bool {
    &&& p.len() == 5
    &&& p[0] == 0x3c
    &&& p[1] == 0x45 || p[1] == 0x65
    &&& p[2] == 0x4f || p[2] == 0x6f
    &&& match term {
        Terminator::Record => p[3] == 0x52 || p[3] == 0x72,
        Terminator::Header => p[3] == 0x48 || p[3] == 0x68,
    }
    &&& p[4] == 0x3e
}

/// Law: the reader is at the closing tag of a run exactly when, after
/// leading whitespace, the input starts with that tag in any ASCII case
/// ("<EOR>", "<eor>", "<Eor>", ...).
#[verifier::spinoff_prover]
pub proof fn law_at_closing_tag(r: Seq<u8>, term: Terminator)
    ensures
        at_closing_tag(r, term.pattern()) == (trim_start(r).len() >= 5 && is_closing_tag(
            trim_start(r).take(5),
            term,
        )),
{
    let t = trim_start(r);
    let pat = term.pattern();
    if t.len() >= 5 {
        let p = t.take(5);
        assert(p[0] == t[0] && p[1] == t[1] && p[2] == t[2] && p[3] == t[3] && p[4] == t[4]);
        if is_closing_tag(p, term) {
            assert forall|j: int| 0 <= j < pat.len() implies #[trigger] ascii_lower(t[0 + j])
                == ascii_lower(pat[j]) by {
                assert(t[0 + j] == p[j]);
            }
        } else {
            assert(ascii_lower(t[0int + 0]) == ascii_lower(pat[0]) ==> p[0] == 0x3c);
            assert(ascii_lower(t[0int + 1]) == ascii_lower(pat[1]) ==> (p[1] == 0x45 || p[1]
                == 0x65));
            assert(ascii_lower(t[0int + 2]) == ascii_lower(pat[2]) ==> (p[2] == 0x4f || p[2]
                == 0x6f));
            assert(ascii_lower(t[0int + 3]) == ascii_lower(pat[3]) ==> match term {
                Terminator::Record => p[3] == 0x52 || p[3] == 0x72,
                Terminator::Header => p[3] == 0x48 || p[3] == 0x68,
            });
            assert(ascii_lower(t[0int + 4]) == ascii_lower(pat[4]) ==> p[4] == 0x3e);
        }
    }
}

/// Trailing whitespace characters make no difference to `trim_end`.
pub proof fn lemma_trim_end_white(s: Seq<u8>, w: Seq<char>)
    requires
        all_white_space(w),
    ensures
        trim_end(s + encode_utf8(w)) == trim_end(s),
    decreases w.len(),
{
    if w.len() == 0 {
        assert(s + encode_utf8(w) =~= s);
    } else {
        let front = w.drop_last();
        let c = w.last();
        assert(all_white_space(front)) by {
            assert forall|i: int| 0 <= i < front.len() implies is_white_space(#[trigger] front[i]) by {
                assert(front[i] == w[i]);
            }
        }
        assert(is_white_space(w[w.len() - 1]));
        assert(w =~= front + seq![c]);
        lemma_encode_concat(front, seq![c]);
        lemma_trim_end_white(s, front);
        law_trim_end_char(s + encode_utf8(front), c);
        assert(s + encode_utf8(w) =~= (s + encode_utf8(front)) + encode_utf8(seq![c]));
    }
}

/// Law: a boolean value is read from one letter, "Y" or "y" for true and
/// "N" or "n" for false, with any whitespace around it; any other single
/// character is not a boolean.
#[verifier::spinoff_prover]
pub proof fn law_bool_reading(w1: Seq<char>, c: char, w2: Seq<char>)
    requires
        all_white_space(w1),
        all_white_space(w2),
        !is_white_space(c),
    ensures
        bool_of(trim(encode_utf8(w1 + seq![c] + w2))) == if c == 'Y' || c == 'y' {
            Some(true)
        } else if c == 'N' || c == 'n' {
            Some(false)
        } else {
            None
        },
{
    let e = encode_utf8(seq![c]);
    let b2 = encode_utf8(w2);
    lemma_encode_concat(w1 + seq![c], w2);
    lemma_encode_concat(w1, seq![c]);
    let x = encode_utf8(w1 + seq![c] + w2);
    assert(x =~= encode_utf8(w1) + (e + b2));
    lemma_trim_start_white(w1, e + b2);
    law_trim_start_char(c, b2);
    lemma_trim_end_white(e, w2);
    law_trim_end_char(Seq::<u8>::empty(), c);
    assert(Seq::<u8>::empty() + e =~= e);
    assert(trim(x) == e);
    lemma_encode_one(c);
    let v = c as u32;
    char_is_scalar(c);
    if has_width_1_encoding(v) {
        assert(has_width_1_encoding(v) ==> leading_byte_width_1(v) as u32 == v) by (bit_vector);
        assert(e =~= seq![v as u8]);
    } else {
        assert(e.len() >= 2);
    }
}

/// The text of a field written with a data type indicator:
/// `<NAME:LENGTH:TYPE>VALUE` (such as `<freq:7:N>14.0757`).
pub open spec fn typed_field_text(key: Seq<char>, kind: Seq<char>, value: Seq<char>) -> Seq<char> {
    "<"@ + key + ":"@ + decimal(encode_utf8(value).len()) + ":"@ + kind + ">"@ + value
}

/// The bytes of a field with a data type indicator.
pub proof fn lemma_typed_field_bytes(key: Seq<char>, kind: Seq<char>, value: Seq<char>)
    ensures
        encode_utf8(typed_field_text(key, kind, value)) == seq![LT] + encode_utf8(key) + seq![COLON]
            + decimal_bytes(encode_utf8(value).len()) + seq![COLON] + encode_utf8(kind) + seq![GT]
            + encode_utf8(value),
{
    reveal_strlit("<");
    reveal_strlit(":");
    reveal_strlit(">");
    let n = encode_utf8(value).len();
    lemma_encode_ascii_char('<');
    lemma_encode_ascii_char(':');
    lemma_encode_ascii_char('>');
    lemma_decimal_bytes(n);
    let a = "<"@;
    let b = ":"@;
    let g = ">"@;
    let d = decimal(n);
    lemma_encode_concat(a, key);
    lemma_encode_concat(a + key, b);
    lemma_encode_concat(a + key + b, d);
    lemma_encode_concat(a + key + b + d, b);
    lemma_encode_concat(a + key + b + d + b, kind);
    lemma_encode_concat(a + key + b + d + b + kind, g);
    lemma_encode_concat(a + key + b + d + b + kind + g, value);
    assert(a =~= seq!['<']);
    assert(b =~= seq![':']);
    assert(g =~= seq!['>']);
    assert(encode_utf8(typed_field_text(key, kind, value)) =~= seq![LT] + encode_utf8(key) + seq![
        COLON,
    ] + decimal_bytes(n) + seq![COLON] + encode_utf8(kind) + seq![GT] + encode_utf8(value));
}

/// Reading the tag of a field written with a data type indicator.
#[verifier::spinoff_prover]
#[verifier::rlimit(50)]
pub proof fn lemma_read_tag_of_typed_field(
    r: Seq<u8>,
    k: Seq<u8>,
    d: Seq<u8>,
    t: Seq<u8>,
    v: Seq<u8>,
    s: Seq<u8>,
)
    requires
        r == seq![LT] + k + seq![COLON] + d + seq![COLON] + t + seq![GT] + v + s,
        d == decimal_bytes(v.len()),
        v.len() <= usize::MAX,
        forall|j: int| 0 <= j < k.len() ==> k[j] != COLON && k[j] != GT,
        forall|j: int| 0 <= j < t.len() ==> t[j] != GT,
        s.len() == 0 || !is_continuation_byte(s[0]),
    ensures
        read_tag(r) == (Step::Field(k, v), s),
{
    let n = v.len();
    lemma_decimal_bytes(n);
    let c2: int = (1 + k.len() + 1 + d.len()) as int;
    let e: int = c2 + 1 + t.len();
    let ve: int = e + 1 + n;
    assert(r[0] == LT);
    assert(r[e] == GT);
    lemma_find_byte_at(r, LT, 0, 0);
    assert forall|j: int| 0 <= j < e implies r[j] != GT by {
        if 1 <= j < 1 + k.len() {
            assert(r[j] == k[j - 1]);
        } else if 2 + k.len() <= j < c2 {
            assert(r[j] == d[j - 2 - k.len()]);
            assert(is_digit(d[j - 2 - k.len()]));
        } else if c2 < j < e {
            assert(r[j] == t[j - c2 - 1]);
        } else if j == 1 + k.len() || j == c2 {
            assert(r[j] == COLON);
        }
    }
    lemma_find_byte_at(r, GT, 0, e);
    let def = r.subrange(1, e);
    assert(def =~= k + seq![COLON] + d + seq![COLON] + t);
    assert forall|j: int| 0 <= j < k.len() implies def[j] != COLON by {
        assert(def[j] == k[j]);
    }
    lemma_find_byte_at(def, COLON, 0, k.len() as int);
    let tail = def.skip(k.len() + 1int);
    assert(tail =~= d + seq![COLON] + t);
    assert forall|j: int| 0 <= j < d.len() implies tail[j] != COLON by {
        assert(tail[j] == d[j]);
        assert(is_digit(d[j]));
    }
    lemma_find_byte_at(tail, COLON, 0, d.len() as int);
    assert(tail.take(d.len() as int) =~= d);
    law_integer_roundtrip(n as int, false, 0, usize::MAX as int);
    assert(encode_utf8(signed_decimal(n as int)) == d);
    assert(at_boundary(r, ve)) by {
        if ve < r.len() {
            assert(r[ve] == s[0]);
        }
    }
    assert(def.take(k.len() as int) =~= k);
    assert(r.subrange(e + 1, ve) =~= v);
    assert(r.skip(ve) =~= s);
}

/// Law: a field's data type indicator (`<NAME:LENGTH:TYPE>`) changes
/// nothing in what is read: the field is read as its name and its value,
/// leaving what follows, just as the same field without the indicator.
#[verifier::spinoff_prover]
#[verifier::rlimit(50)]
pub proof fn law_type_indicator_ignored(
    key: Seq<char>,
    kind: Seq<char>,
    value: Seq<char>,
    s: Seq<u8>,
    term: Terminator,
)
    requires
        key_ok(key),
        !kind.contains('>'),
        encode_utf8(value).len() <= usize::MAX,
        s.len() == 0 || !is_continuation_byte(s[0]),
    ensures
        field_step(encode_utf8(typed_field_text(key, kind, value)) + s, term) == (
            Step::Field(encode_utf8(key), encode_utf8(value)),
            s,
        ),
        field_step(encode_utf8(typed_field_text(key, kind, value)) + s, term) == field_step(
            encode_utf8(field_text(key, value)) + s,
            term,
        ),
{
    let k = encode_utf8(key);
    let v = encode_utf8(value);
    let t = encode_utf8(kind);
    let d = decimal_bytes(v.len());
    lemma_typed_field_bytes(key, kind, value);
    lemma_encode_without(key, ':', COLON);
    lemma_encode_without(key, '>', GT);
    lemma_encode_without(kind, '>', GT);
    let r = encode_utf8(typed_field_text(key, kind, value)) + s;
    let d2 = d + seq![COLON] + t;
    assert(r =~= seq![LT] + k + seq![COLON] + d + seq![COLON] + t + seq![GT] + v + s);
    assert(field_layout(r, k, d2, v, s)) by {
        assert(r =~= seq![LT] + k + seq![COLON] + d2 + seq![GT] + v + s);
    }
    lemma_field_not_closing(r, k, d2, v, s, term);
    lemma_read_tag_of_typed_field(r, k, d, t, v, s);
    lemma_read_written_field(key, value, s, term);
}

/// A text of whitespace characters holds no comma.
pub proof fn lemma_white_no_comma(w: Seq<char>)
    requires
        all_white_space(w),
    ensures
        forall|j: int| 0 <= j < encode_utf8(w).len() ==> #[trigger] encode_utf8(w)[j] != COMMA,
{
    assert(!w.contains(',')) by {
        if w.contains(',') {
            let k = choose|k: int| 0 <= k < w.len() && w[k] == ',';
            assert(is_white_space(w[k]));
        }
    }
    lemma_encode_without(w, ',', COMMA);
}

/// An item surrounded by whitespace trims to the item.
#[verifier::spinoff_prover]
pub proof fn lemma_trim_spaced_item(w1: Seq<char>, x: Seq<char>, w2: Seq<char>)
    requires
        all_white_space(w1),
        all_white_space(w2),
        x.len() > 0,
        !is_white_space(x[0]),
        !is_white_space(x.last()),
    ensures
        trim(encode_utf8(w1 + x + w2)) == encode_utf8(x),
{
    let bx = encode_utf8(x);
    let b2 = encode_utf8(w2);
    lemma_encode_concat(w1 + x, w2);
    lemma_encode_concat(w1, x);
    assert(encode_utf8(w1 + x + w2) =~= encode_utf8(w1) + (bx + b2));
    lemma_trim_start_white(w1, bx + b2);
    lemma_encode_one(x[0]);
    assert(bx =~= encode_utf8(seq![x[0]]) + encode_utf8(x.drop_first()));
    law_trim_start_char(x[0], encode_utf8(x.drop_first()) + b2);
    assert(bx + b2 =~= encode_utf8(seq![x[0]]) + (encode_utf8(x.drop_first()) + b2));
    lemma_trim_end_white(bx, w2);
    let front = x.drop_last();
    assert(x =~= front + seq![x.last()]);
    lemma_encode_concat(front, seq![x.last()]);
    law_trim_end_char(encode_utf8(front), x.last());
}

/// Law: the items of a list value are read trimmed of the whitespace
/// around them, and an item that is only whitespace is left out: an item
/// `x` written with whitespace around it and then a comma reads as `x`
/// followed by the items of what comes after; a blank item before a comma
/// reads as nothing; an item at the end reads as `x`.
#[verifier::spinoff_prover]
#[verifier::rlimit(50)]
pub proof fn law_list_item_spacing(w1: Seq<char>, x: Seq<char>, w2: Seq<char>, more: Seq<u8>)
    requires
        all_white_space(w1),
        all_white_space(w2),
        x.len() > 0,
        !x.contains(','),
        !is_white_space(x[0]),
        !is_white_space(x.last()),
    ensures
        list_items(encode_utf8(w1 + x + w2) + seq![COMMA] + more) == seq![encode_utf8(x)]
            + list_items(more),
        list_items(encode_utf8(w1) + seq![COMMA] + more) == list_items(more),
        list_items(encode_utf8(w1 + x + w2)) == seq![encode_utf8(x)],
{
    let p = encode_utf8(w1 + x + w2);
    lemma_trim_spaced_item(w1, x, w2);
    lemma_white_no_comma(w1);
    lemma_white_no_comma(w2);
    lemma_encode_without(x, ',', COMMA);
    lemma_encode_concat(w1 + x, w2);
    lemma_encode_concat(w1, x);
    assert(p =~= encode_utf8(w1) + encode_utf8(x) + encode_utf8(w2));
    assert forall|j: int| 0 <= j < p.len() implies p[j] != COMMA by {
        let l1 = encode_utf8(w1).len() as int;
        let lx = encode_utf8(x).len() as int;
        if j < l1 {
            assert(p[j] == encode_utf8(w1)[j]);
        } else if j < l1 + lx {
            assert(p[j] == encode_utf8(x)[j - l1]);
        } else {
            assert(p[j] == encode_utf8(w2)[j - l1 - lx]);
        }
    }
    lemma_encode_first_byte(x);
    // An item followed by a comma.
    let s1 = p + seq![COMMA] + more;
    assert(s1[p.len() as int] == COMMA);
    assert forall|j: int| 0 <= j < p.len() implies s1[j] != COMMA by {
        assert(s1[j] == p[j]);
    }
    lemma_find_byte_at(s1, COMMA, 0, p.len() as int);
    assert(s1.take(p.len() as int) =~= p);
    assert(s1.skip(p.len() + 1int) =~= more);
    // A blank item followed by a comma.
    let b1 = encode_utf8(w1);
    let s2 = b1 + seq![COMMA] + more;
    assert(s2[b1.len() as int] == COMMA);
    assert forall|j: int| 0 <= j < b1.len() implies s2[j] != COMMA by {
        assert(s2[j] == b1[j]);
    }
    lemma_find_byte_at(s2, COMMA, 0, b1.len() as int);
    assert(s2.take(b1.len() as int) =~= b1);
    assert(s2.skip(b1.len() + 1int) =~= more);
    lemma_trim_start_white(w1, Seq::<u8>::empty());
    assert(b1 + Seq::<u8>::empty() =~= b1);
    assert(trim_start(Seq::<u8>::empty()) =~= Seq::<u8>::empty());
    assert(trim(b1) =~= Seq::<u8>::empty()) by {
        let e = Seq::<u8>::empty();
        assert(ws_suffix_len(e) == 0);
        assert(trim_end(e) =~= e);
    }
    assert(seq![] + list_items(more) =~= list_items(more));
    // The last item.
    lemma_find_byte_none(p, COMMA, 0);
}

/// The text of records written each after a gap: `gaps[i]`, then the
/// `i`-th record.
pub open spec fn gapped_records_text(
    records: Seq<Seq<(Seq<char>, Seq<char>)>>,
    gaps: Seq<Seq<char>>,
) -> Seq<char>
    decreases records.len(),
{
    if records.len() == 0 || gaps.len() == 0 {
        Seq::empty()
    } else {
        gaps[0] + record_text(records[0]) + gapped_records_text(
            records.drop_first(),
            gaps.drop_first(),
        )
    }
}

/// Law: the records of a document read back the same whatever whitespace
/// separates them (line breaks such as "\r\n", blank lines, tabs, any
/// `White_Space` character), before the first and after the last.
#[verifier::spinoff_prover]
#[verifier::rlimit(50)]
pub proof fn law_records_with_whitespace(
    records: Seq<Seq<(Seq<char>, Seq<char>)>>,
    gaps: Seq<Seq<char>>,
    end: Seq<char>,
)
    requires
        records_ok(records),
        gaps.len() == records.len(),
        forall|i: int| 0 <= i < gaps.len() ==> all_white_space(#[trigger] gaps[i]),
        all_white_space(end),
    ensures
        read_records(encode_utf8(gapped_records_text(records, gaps) + end)) == RecordsRead::Read(
            lower_records(records),
        ),
    decreases records.len(),
{
    let a = gapped_records_text(records, gaps);
    lemma_encode_concat(a, end);
    let x = encode_utf8(a + end);
    if records.len() == 0 {
        assert(a =~= Seq::<char>::empty());
        assert(x =~= encode_utf8(end) + Seq::<u8>::empty());
        lemma_trim_start_white(end, Seq::<u8>::empty());
        assert(trim_start(Seq::<u8>::empty()) =~= Seq::<u8>::empty());
        assert(lower_records(records) =~= Seq::empty());
    } else {
        let r0 = records[0];
        let g0 = gaps[0];
        let tailr = records.drop_first();
        let tailg = gaps.drop_first();
        assert(fields_ok(r0));
        assert(records_ok(tailr)) by {
            assert forall|i: int| 0 <= i < tailr.len() implies fields_ok(#[trigger] tailr[i]) by {
                assert(tailr[i] == records[i + 1]);
                assert(fields_ok(records[i + 1]));
            }
        }
        assert forall|i: int| 0 <= i < tailg.len() implies all_white_space(#[trigger] tailg[i]) by {
            assert(tailg[i] == gaps[i + 1]);
        }
        assert(all_white_space(g0));
        law_records_with_whitespace(tailr, tailg, end);
        let at = gapped_records_text(tailr, tailg);
        let y = encode_utf8(at + end);
        assert(a =~= g0 + record_text(r0) + at);
        assert(a + end =~= g0 + (record_text(r0) + (at + end)));
        lemma_encode_concat(g0, record_text(r0) + (at + end));
        lemma_encode_concat(record_text(r0), at + end);
        let gb = encode_utf8(g0);
        let rb = encode_utf8(fields_text(r0) + closing_text(Terminator::Record));
        assert(record_text(r0) == fields_text(r0) + closing_text(Terminator::Record));
        assert(x =~= gb + rb + y);
        lemma_encode_concat(fields_text(r0), closing_text(Terminator::Record));
        lemma_written_starts_with_lt(r0, Terminator::Record, y);
        assert(rb + y =~= encode_utf8(fields_text(r0)) + encode_utf8(
            closing_text(Terminator::Record),
        ) + y);
        lemma_ws_width_ascii(rb + y);
        lemma_trim_start_white(g0, rb + y);
        assert(gb + rb + y =~= gb + (rb + y));
        lemma_read_record_after(gb, r0, Terminator::Record, y);
        assert(lower_records(records) =~= seq![lower_keys(r0)] + lower_records(tailr));
    }
}

/// Text that starts with '<' is read as a tag right away.
pub proof fn lemma_next_tag_at_lt(r: Seq<u8>)
    requires
        r.len() > 0,
        r[0] == LT,
    ensures
        next_tag(r) == read_tag(r),
{
    lemma_ws_width_ascii(r);
}

/// `l` is the text of a length: decimal digits, at least one, after an
/// optional '+'.
pub open spec fn is_length_text(l: Seq<u8>) -> bool {
    let d = if l.len() > 0 && l[0] == PLUS {
        l.skip(1)
    } else {
        l
    };
    d.len() > 0 && forall|i: int| 0 <= i < d.len() ==> is_digit(#[trigger] d[i])
}

/// Digits with a byte that is not a digit among them do not scan.
pub proof fn lemma_scan_nondigit(d: Seq<u8>, neg: bool, lo: int, hi: int, acc: int, i: int)
    requires
        0 <= i < d.len(),
        !is_digit(d[i]),
    ensures
        scan_digits(d, neg, lo, hi, acc) is Err,
    decreases d.len(),
{
    if is_digit(d[0]) {
        let next = if neg {
            acc * 10 - (d[0] - 0x30)
        } else {
            acc * 10 + (d[0] - 0x30)
        };
        if lo <= next <= hi {
            assert(d.skip(1)[i - 1] == d[i]);
            lemma_scan_nondigit(d.skip(1), neg, lo, hi, next, i - 1);
        }
    }
}

/// A text that is not a length does not parse as a number.
pub proof fn lemma_not_length(l: Seq<u8>, lo: int, hi: int)
    requires
        !is_length_text(l),
    ensures
        parse_int(l, false, lo, hi) is Err,
{
    if l.len() > 1 && l[0] == PLUS {
        let d = l.skip(1);
        let i = choose|i: int| 0 <= i < d.len() && !is_digit(d[i]);
        lemma_scan_nondigit(d, false, lo, hi, 0, i);
    } else if l.len() > 0 && !(l.len() == 1 && (l[0] == PLUS || l[0] == MINUS)) {
        let i = choose|i: int| 0 <= i < l.len() && !is_digit(l[i]);
        lemma_scan_nondigit(l, false, lo, hi, 0, i);
    }
}

/// The first '<' and the next '>' of a tag `<DEF>` followed by `s`.
pub proof fn lemma_tag_bounds(c: Seq<u8>, s: Seq<u8>)
    requires
        forall|j: int| 0 <= j < c.len() ==> c[j] != GT,
    ensures
        ({
            let r = seq![LT] + c + seq![GT] + s;
            &&& find_byte(r, LT, 0) == 0
            &&& find_byte(r, GT, 0) == 1 + c.len()
            &&& r.subrange(1, 1 + c.len() as int) == c
            &&& next_tag(r) == read_tag(r)
        }),
{
    let r = seq![LT] + c + seq![GT] + s;
    let e = 1 + c.len() as int;
    assert(r[0] == LT);
    assert(r[e] == GT);
    lemma_find_byte_at(r, LT, 0, 0);
    assert forall|j: int| 0 <= j < e implies r[j] != GT by {
        if j > 0 {
            assert(r[j] == c[j - 1]);
        }
    }
    lemma_find_byte_at(r, GT, 0, e);
    assert(r.subrange(1, e) =~= c);
    lemma_next_tag_at_lt(r);
}

/// Law: a tag without a length (no ':' between '<' and '>') is refused as
/// malformed, with the text of the tag, and nothing is consumed.
pub proof fn law_tag_without_length(c: Seq<u8>, s: Seq<u8>)
    requires
        forall|j: int| 0 <= j < c.len() ==> c[j] != COLON && c[j] != GT,
    ensures
        next_tag(seq![LT] + c + seq![GT] + s) == (
            Step::Fail(crate::error::ErrorView::MalformedTag(decode_utf8(c))),
            seq![LT] + c + seq![GT] + s,
        ),
{
    lemma_tag_bounds(c, s);
    lemma_find_byte_none(c, COLON, 0);
}

/// Law: a '<' never followed by '>' is refused as an unclosed tag, quoting
/// (at most 20 characters of) the text from the '<' on.
pub proof fn law_unclosed_tag(c: Seq<u8>)
    requires
        forall|j: int| 0 <= j < c.len() ==> c[j] != GT,
    ensures
        next_tag(seq![LT] + c) == (
            Step::Fail(
                crate::error::ErrorView::ExpectedClosingTag(snippet(decode_utf8(seq![LT] + c))),
            ),
            seq![LT] + c,
        ),
{
    let r = seq![LT] + c;
    assert(r[0] == LT);
    lemma_find_byte_at(r, LT, 0, 0);
    assert forall|j: int| 0 <= j < r.len() implies r[j] != GT by {
        if j > 0 {
            assert(r[j] == c[j - 1]);
        }
    }
    lemma_find_byte_none(r, GT, 0);
    assert(r.skip(0) =~= r);
    lemma_next_tag_at_lt(r);
}

/// Law: a tag whose length is not decimal digits (after an optional '+')
/// is refused, with the text of the length, and nothing is consumed.
#[verifier::spinoff_prover]
pub proof fn law_tag_invalid_length(k: Seq<u8>, l: Seq<u8>, s: Seq<u8>)
    requires
        forall|j: int| 0 <= j < k.len() ==> k[j] != COLON && k[j] != GT,
        forall|j: int| 0 <= j < l.len() ==> l[j] != COLON && l[j] != GT,
        !is_length_text(l),
    ensures
        next_tag(seq![LT] + k + seq![COLON] + l + seq![GT] + s) == (
            Step::Fail(crate::error::ErrorView::InvalidLength(decode_utf8(l))),
            seq![LT] + k + seq![COLON] + l + seq![GT] + s,
        ),
{
    let c = k + seq![COLON] + l;
    assert forall|j: int| 0 <= j < c.len() implies c[j] != GT by {
        if j < k.len() {
            assert(c[j] == k[j]);
        } else if j > k.len() {
            assert(c[j] == l[j - k.len() - 1]);
        }
    }
    lemma_tag_bounds(c, s);
    assert(seq![LT] + k + seq![COLON] + l + seq![GT] + s =~= seq![LT] + c + seq![GT] + s);
    assert forall|j: int| 0 <= j < k.len() implies c[j] != COLON by {
        assert(c[j] == k[j]);
    }
    lemma_find_byte_at(c, COLON, 0, k.len() as int);
    let tail = c.skip(k.len() + 1int);
    assert(tail =~= l);
    lemma_find_byte_none(l, COLON, 0);
    lemma_not_length(l, 0, usize::MAX as int);
}

/// Law: a tag whose declared length runs past the end of the input is
/// refused as the end of the input, and nothing is consumed.
#[verifier::spinoff_prover]
pub proof fn law_tag_value_past_end(k: Seq<u8>, n: nat, rest: Seq<u8>)
    requires
        forall|j: int| 0 <= j < k.len() ==> k[j] != COLON && k[j] != GT,
        n <= usize::MAX,
        rest.len() < n,
    ensures
        next_tag(seq![LT] + k + seq![COLON] + decimal_bytes(n) + seq![GT] + rest) == (
            Step::Fail(crate::error::ErrorView::Eof),
            seq![LT] + k + seq![COLON] + decimal_bytes(n) + seq![GT] + rest,
        ),
{
    let d = decimal_bytes(n);
    lemma_decimal_bytes(n);
    let c = k + seq![COLON] + d;
    assert forall|j: int| 0 <= j < c.len() implies c[j] != GT && (j != k.len() ==> c[j]
        != COLON) by {
        if j < k.len() {
            assert(c[j] == k[j]);
        } else if j > k.len() {
            assert(c[j] == d[j - k.len() - 1]);
            assert(is_digit(d[j - k.len() - 1]));
        }
    }
    lemma_tag_bounds(c, rest);
    let r = seq![LT] + k + seq![COLON] + d + seq![GT] + rest;
    assert(r =~= seq![LT] + c + seq![GT] + rest);
    lemma_find_byte_at(c, COLON, 0, k.len() as int);
    let tail = c.skip(k.len() + 1int);
    assert(tail =~= d);
    assert forall|j: int| 0 <= j < d.len() implies d[j] != COLON by {
        assert(is_digit(d[j]));
    }
    lemma_find_byte_none(d, COLON, 0);
    law_integer_roundtrip(n as int, false, 0, usize::MAX as int);
}

/// Law: field names come back in ASCII lower case: of the same length,
/// with no letter 'A'..='Z' left, and each character either unchanged or
/// the lower-case letter of the upper-case one it was.
#[verifier::spinoff_prover]
pub proof fn law_names_lower_case(name: Seq<char>)
    ensures
        lower_chars(name).len() == name.len(),
        forall|i: int|
            0 <= i < name.len() ==> !('A' <= #[trigger] lower_chars(name)[i] && lower_chars(name)[i]
                <= 'Z'),
        forall|i: int|
            0 <= i < name.len() ==> #[trigger] lower_chars(name)[i] == name[i] || ('A' <= name[i]
                && name[i] <= 'Z' && lower_chars(name)[i] as u32 == name[i] as u32 + 32),
{
    assert forall|i: int| 0 <= i < name.len() implies !('A' <= #[trigger] lower_chars(name)[i]
        && lower_chars(name)[i] <= 'Z') by {
        let c = name[i];
        if 'A' <= c && c <= 'Z' {
            let u = ((c as u32) + 32) as u32;
            assert(0x61 <= u <= 0x7a);
            assert(lower_chars(name)[i] == u as char);
            assert((u as char) as u32 == u);
        }
    }
}

/// `ty` is named by its sign letter and the bit width `b`, and its range
/// is that of `b` bits (one of them for the sign when it is signed).
pub open spec fn int_name_fits(ty: IntType, b: nat) -> bool {
    &&& ty.name() == (if ty.signed() {
        "i"@
    } else {
        "u"@
    }) + decimal(b)
    &&& ty.max() + 1 == pow2(
        if ty.signed() {
            (b - 1) as nat
        } else {
            b
        },
    )
    &&& ty.min() == (if ty.signed() {
        -(ty.max() + 1)
    } else {
        0
    })
}

/// Law: the name an integer type is reported by in error messages is the
/// name of the Rust type whose range it reads: 'i' or 'u' by its sign,
/// then its width in bits (8, 16, 32 or 64), which fixes the range.
#[verifier::spinoff_prover]
pub proof fn law_int_type_names(ty: IntType)
    ensures
        int_name_fits(ty, 8) || int_name_fits(ty, 16) || int_name_fits(ty, 32) || int_name_fits(
            ty,
            64,
        ),
{
    reveal_strlit("i");
    reveal_strlit("u");
    lemma2_to64();
    lemma2_to64_rest();
    match ty {
        IntType::I8 => {
            reveal_strlit("i8");
            assert(decimal(8) =~= seq!['8']);
            assert(ty.name() =~= "i"@ + decimal(8));
            assert(int_name_fits(ty, 8nat));
        },
        IntType::I16 => {
            reveal_strlit("i16");
            assert(decimal(1) =~= seq!['1']);
            assert(decimal(16) =~= seq!['1', '6']);
            assert(ty.name() =~= "i"@ + decimal(16));
            assert(int_name_fits(ty, 16nat));
        },
        IntType::I32 => {
            reveal_strlit("i32");
            assert(decimal(3) =~= seq!['3']);
            assert(decimal(32) =~= seq!['3', '2']);
            assert(ty.name() =~= "i"@ + decimal(32));
            assert(int_name_fits(ty, 32nat));
        },
        IntType::I64 => {
            reveal_strlit("i64");
            assert(decimal(6) =~= seq!['6']);
            assert(decimal(64) =~= seq!['6', '4']);
            assert(ty.name() =~= "i"@ + decimal(64));
            assert(int_name_fits(ty, 64nat));
        },
        IntType::U8 => {
            reveal_strlit("u8");
            assert(decimal(8) =~= seq!['8']);
            assert(ty.name() =~= "u"@ + decimal(8));
            assert(int_name_fits(ty, 8nat));
        },
        IntType::U16 => {
            reveal_strlit("u16");
            assert(decimal(1) =~= seq!['1']);
            assert(decimal(16) =~= seq!['1', '6']);
            assert(ty.name() =~= "u"@ + decimal(16));
            assert(int_name_fits(ty, 16nat));
        },
        IntType::U32 => {
            reveal_strlit("u32");
            assert(decimal(3) =~= seq!['3']);
            assert(decimal(32) =~= seq!['3', '2']);
            assert(ty.name() =~= "u"@ + decimal(32));
            assert(int_name_fits(ty, 32nat));
        },
        IntType::U64 => {
            reveal_strlit("u64");
            assert(decimal(6) =~= seq!['6']);
            assert(decimal(64) =~= seq!['6', '4']);
            assert(ty.name() =~= "u"@ + decimal(64));
            assert(int_name_fits(ty, 64nat));
        },
    }
}

} // verus!
