//! Writing ADIF text: field values, records, the header and the document.
use crate::{EOH, EOR};
use crate::number::{decimal, push_decimal, push_signed_decimal, signed_decimal};
use vstd::prelude::*;
use vstd::string::*;
use vstd::utf8::*;

verus! {

/// The text of a field: `<NAME:LENGTH>VALUE`, LENGTH being the number of
/// bytes of VALUE in UTF-8, written in decimal.
pub open spec fn field_text(key: Seq<char>, value: Seq<char>) -> Seq<char> {
    "<"@ + key + ":"@ + decimal(encode_utf8(value).len()) + ">"@ + value
}

/// The text of a boolean value: "Y" or "N".
pub open spec fn bool_text(v: bool) -> Seq<char> {
    if v {
        "Y"@
    } else {
        "N"@
    }
}

/// The text of a list of item texts: the items separated by commas.
pub open spec fn list_text(items: Seq<Seq<char>>) -> Seq<char>
    decreases items.len(),
{
    if items.len() == 0 {
        Seq::empty()
    } else if items.len() == 1 {
        items[0]
    } else {
        items[0] + ","@ + list_text(items.drop_first())
    }
}

/// What `start_element` makes of the text written so far: a comma is added
/// unless nothing is written yet.
pub open spec fn separated(out: Seq<char>) -> Seq<char> {
    if out.len() == 0 {
        out
    } else {
        out + ","@
    }
}

/// The text that writing the items of a list one after the other gives,
/// each after a `start_element`.
pub open spec fn written_items(items: Seq<Seq<char>>) -> Seq<char>
    decreases items.len(),
{
    if items.len() == 0 {
        Seq::empty()
    } else {
        separated(written_items(items.drop_last())) + items.last()
    }
}

/// The text of a run of fields, one after the other.
pub open spec fn fields_text(fields: Seq<(Seq<char>, Seq<char>)>) -> Seq<char>
    decreases fields.len(),
{
    if fields.len() == 0 {
        Seq::empty()
    } else {
        field_text(fields[0].0, fields[0].1) + fields_text(fields.drop_first())
    }
}

/// The closing tag of a record.
pub open spec fn eor_text() -> Seq<char> {
    "<EOR>"@
}

/// The closing tag of the header.
pub open spec fn eoh_text() -> Seq<char> {
    "<EOH>"@
}

/// The line that introduces a header (an ADIF file with a header must not
/// start with '<').
pub open spec fn header_intro() -> Seq<char> {
    "# ADIF Header\n"@
}

/// The text of a record: its fields, then `<EOR>`.
pub open spec fn record_text(fields: Seq<(Seq<char>, Seq<char>)>) -> Seq<char> {
    fields_text(fields) + eor_text()
}

/// The text of the records of a document, each record on a line of its own.
pub open spec fn records_text(records: Seq<Seq<(Seq<char>, Seq<char>)>>) -> Seq<char>
    decreases records.len(),
{
    if records.len() == 0 {
        Seq::empty()
    } else {
        record_text(records[0]) + "\n"@ + records_text(records.drop_first())
    }
}

/// The text of a document: the header, when there is one, introduced by
/// `header_intro` and closed by `<EOH>` on its own line, then the records.
pub open spec fn document_text(
    header: Option<Seq<(Seq<char>, Seq<char>)>>,
    records: Seq<Seq<(Seq<char>, Seq<char>)>>,
) -> Seq<char> {
    match header {
        Some(h) => header_intro() + fields_text(h) + eoh_text() + "\n"@ + records_text(records),
        None => records_text(records),
    }
}

/// Text-valued fields, each name and value by its characters.
pub open spec fn text_fields<'a>(v: Seq<(&'a str, &'a str)>) -> Seq<(Seq<char>, Seq<char>)> {
    v.map_values(|f: (&'a str, &'a str)| (f.0@, f.1@))
}

/// Records of text-valued fields.
pub open spec fn text_records<'a>(v: Seq<Vec<(&'a str, &'a str)>>) -> Seq<Seq<(Seq<char>, Seq<char>)>> {
    v.map_values(|r: Vec<(&'a str, &'a str)>| text_fields(r@))
}

/// Adding a field at the end of a run adds its text at the end.
pub proof fn lemma_fields_text_push(fs: Seq<(Seq<char>, Seq<char>)>, f: (Seq<char>, Seq<char>))
    ensures
        fields_text(fs.push(f)) == fields_text(fs) + field_text(f.0, f.1),
    decreases fs.len(),
{
    if fs.len() == 0 {
        let one = fs.push(f);
        assert(one[0] == f);
        assert(one.drop_first() =~= Seq::<(Seq<char>, Seq<char>)>::empty());
        assert(fields_text(one.drop_first()) =~= Seq::<char>::empty());
        assert(fields_text(one) =~= field_text(f.0, f.1));
    } else {
        lemma_fields_text_push(fs.drop_first(), f);
        assert(fs.push(f).drop_first() =~= fs.drop_first().push(f));
        assert(fields_text(fs.push(f)) =~= fields_text(fs) + field_text(f.0, f.1));
    }
}

/// Adding a record at the end of a document adds its line at the end.
pub proof fn lemma_records_text_push(rs: Seq<Seq<(Seq<char>, Seq<char>)>>, r: Seq<(Seq<char>, Seq<char>)>)
    ensures
        records_text(rs.push(r)) == records_text(rs) + record_text(r) + "\n"@,
    decreases rs.len(),
{
    if rs.len() == 0 {
        let one = rs.push(r);
        assert(one[0] == r);
        assert(one.drop_first() =~= Seq::<Seq<(Seq<char>, Seq<char>)>>::empty());
        assert(records_text(one.drop_first()) =~= Seq::<char>::empty());
        assert(records_text(one) =~= record_text(r) + "\n"@);
    } else {
        lemma_records_text_push(rs.drop_first(), r);
        assert(rs.push(r).drop_first() =~= rs.drop_first().push(r));
        assert(records_text(rs.push(r)) =~= records_text(rs) + record_text(r) + "\n"@);
    }
}

/// Writes the value of one field. A value that is absent (`None`, unit)
/// leaves the field out of its record; the items of a list are separated
/// by commas.
pub struct ValueSerializer {
    output: String,
    is_none: bool,
}

impl View for ValueSerializer {
    /// The text written so far, and whether the value is absent.
    type V = (Seq<char>, bool);

    closed spec fn view(&self) -> (Seq<char>, bool) {
        (self.output@, self.is_none)
    }
}

impl ValueSerializer {
    /// A writer of an empty value.
    pub fn new() -> (r: Self)
        ensures
            r@ == (Seq::<char>::empty(), false),
    {
        ValueSerializer { output: String::new(), is_none: false }
    }

    /// The text written.
    pub fn finish(self) -> (r: String)
        ensures
            r@ == self@.0,
    {
        self.output
    }

    /// Whether the value is absent.
    pub fn is_none(&self) -> (r: bool)
        ensures
            r == self@.1,
    {
        self.is_none
    }

    /// Writes a boolean as "Y" or "N".
    pub fn serialize_bool(&mut self, v: bool)
        ensures
            final(self)@ == (old(self)@.0 + bool_text(v), old(self)@.1),
    {
        if v {
            self.output.append("Y");
        } else {
            self.output.append("N");
        }
    }

    /// Writes a signed integer in decimal (every integer type is written
    /// this way).
    pub fn serialize_i64(&mut self, v: i64)
        ensures
            final(self)@ == (old(self)@.0 + signed_decimal(v as int), old(self)@.1),
    {
        push_signed_decimal(&mut self.output, v);
    }

    /// Writes an unsigned integer in decimal.
    pub fn serialize_u64(&mut self, v: u64)
        ensures
            final(self)@ == (old(self)@.0 + decimal(v as nat), old(self)@.1),
    {
        push_decimal(&mut self.output, v);
    }

    /// Writes text as it is.
    pub fn serialize_str(&mut self, v: &str)
        ensures
            final(self)@ == (old(self)@.0 + v@, old(self)@.1),
    {
        self.output.append(v);
    }

    /// Writes an enum's unit variant by its name.
    pub fn serialize_unit_variant(&mut self, variant: &str)
        ensures
            final(self)@ == (old(self)@.0 + variant@, old(self)@.1),
    {
        self.serialize_str(variant);
    }

    /// Marks the value as absent (`None`).
    pub fn serialize_none(&mut self)
        ensures
            final(self)@ == (old(self)@.0, true),
    {
        self.is_none = true;
    }

    /// Marks the value as absent (`()`).
    pub fn serialize_unit(&mut self)
        ensures
            final(self)@ == (old(self)@.0, true),
    {
        self.is_none = true;
    }

    /// Starts the next item of a list: a comma unless nothing is written yet.
    pub fn start_element(&mut self)
        ensures
            final(self)@ == (separated(old(self)@.0), old(self)@.1),
    {
        if !self.output.as_str().is_empty() {
            self.output.append(",");
        }
    }
}

/// Writes one record or the header: its fields, then its closing tag.
pub struct RecordSerializer {
    output: String,
    terminator: &'static str,
}

impl View for RecordSerializer {
    /// The text written so far, and the closing tag.
    type V = (Seq<char>, Seq<char>);

    closed spec fn view(&self) -> (Seq<char>, Seq<char>) {
        (self.output@, self.terminator@)
    }
}

impl RecordSerializer {
    /// A writer of a record, closed by `<EOR>`.
    pub fn new_record() -> (r: Self)
        ensures
            r@ == (Seq::<char>::empty(), eor_text()),
    {
        RecordSerializer { output: String::new(), terminator: EOR }
    }

    /// A writer of the header, closed by `<EOH>`.
    pub fn new_header() -> (r: Self)
        ensures
            r@ == (Seq::<char>::empty(), eoh_text()),
    {
        RecordSerializer { output: String::new(), terminator: EOH }
    }

    /// The text written.
    pub fn finish(self) -> (r: String)
        ensures
            r@ == self@.0,
    {
        self.output
    }

    /// Writes the field `key` with the value written by `value`, as
    /// `<key:LENGTH>VALUE`; an absent value writes nothing.
    pub fn serialize_field(&mut self, key: &str, value: ValueSerializer)
        ensures
            final(self)@ == if value@.1 {
                old(self)@
            } else {
                (old(self)@.0 + field_text(key@, value@.0), old(self)@.1)
            },
    {
        if value.is_none() {
            return;
        }
        let text = value.finish();
        let len = text.as_str().as_bytes().len();
        self.output.append("<");
        self.output.append(key);
        self.output.append(":");
        push_decimal(&mut self.output, len as u64);
        self.output.append(">");
        self.output.append(text.as_str());
    }

    /// Writes text-valued fields, one after the other, each as
    /// `<NAME:LENGTH>VALUE`.
    pub fn write_text_fields(&mut self, fields: &[(&str, &str)])
        ensures
            final(self)@ == (old(self)@.0 + fields_text(text_fields(fields@)), old(self)@.1),
    {
        let mut i: usize = 0;
        assert(text_fields(fields@.take(0)) =~= Seq::empty());
        assert(old(self)@.0 + Seq::<char>::empty() =~= old(self)@.0);
        while i < fields.len()
            invariant
                i <= fields.len(),
                self@ == (old(self)@.0 + fields_text(text_fields(fields@.take(i as int))), old(self)@.1),
            decreases fields.len() - i,
        {
            let (k, v) = fields[i];
            let mut value = ValueSerializer::new();
            value.serialize_str(v);
            self.serialize_field(k, value);
            proof {
                let done = text_fields(fields@.take(i as int));
                lemma_fields_text_push(done, (k@, v@));
                assert(text_fields(fields@.take(i + 1)) =~= done.push((k@, v@)));
            }
            i = i + 1;
        }
        assert(fields@.take(fields.len() as int) =~= fields@);
    }

    /// Closes the record or header with its closing tag.
    pub fn end(&mut self)
        ensures
            final(self)@ == (old(self)@.0 + old(self)@.1, old(self)@.1),
    {
        self.output.append(self.terminator);
    }
}

/// Writes a whole document: an optional header, then the records.
pub struct AdifSerializer {
    output: String,
}

impl View for AdifSerializer {
    /// The text written so far.
    type V = Seq<char>;

    closed spec fn view(&self) -> Seq<char> {
        self.output@
    }
}

impl AdifSerializer {
    /// A writer of an empty document.
    pub fn new() -> (r: Self)
        ensures
            r@ == Seq::<char>::empty(),
    {
        AdifSerializer { output: String::new() }
    }

    /// The text written.
    pub fn finish(self) -> (r: String)
        ensures
            r@ == self@,
    {
        self.output
    }

    /// Writes the header written by `header`, introduced by
    /// `header_intro` and followed by a line break.
    pub fn write_header(&mut self, header: RecordSerializer)
        ensures
            final(self)@ == old(self)@ + header_intro() + header@.0 + "\n"@,
    {
        self.output.append("# ADIF Header\n");
        let text = header.finish();
        self.output.append(text.as_str());
        self.output.append("\n");
    }

    /// Writes a whole document of text-valued fields: the header, when
    /// there is one, then the records.
    pub fn write_text_document(header: Option<&[(&str, &str)]>, records: &[Vec<(&str, &str)>]) -> (r: String)
        ensures
            r@ == document_text(
                match header {
                    Some(h) => Some(text_fields(h@)),
                    None => None,
                },
                text_records(records@),
            ),
    {
        let mut doc = AdifSerializer::new();
        let ghost intro: Seq<char> = match header {
            Some(h) => header_intro() + fields_text(text_fields(h@)) + eoh_text() + "\n"@,
            None => Seq::empty(),
        };
        match header {
            Some(h) => {
                let mut hs = RecordSerializer::new_header();
                hs.write_text_fields(h);
                hs.end();
                doc.write_header(hs);
                assert(doc@ =~= intro);
            },
            None => {
                assert(doc@ =~= intro);
            },
        }
        let mut i: usize = 0;
        assert(text_records(records@.take(0)) =~= Seq::empty());
        assert(intro + Seq::<char>::empty() =~= intro);
        while i < records.len()
            invariant
                i <= records.len(),
                doc@ == intro + records_text(text_records(records@.take(i as int))),
            decreases records.len() - i,
        {
            let mut rs = RecordSerializer::new_record();
            rs.write_text_fields(records[i].as_slice());
            rs.end();
            doc.serialize_element(rs);
            proof {
                let done = text_records(records@.take(i as int));
                let x = text_fields(records@[i as int]@);
                lemma_records_text_push(done, x);
                assert(text_records(records@.take(i + 1)) =~= done.push(x));
                assert(Seq::<char>::empty() + fields_text(x) =~= fields_text(x));
            }
            i = i + 1;
        }
        assert(records@.take(records.len() as int) =~= records@);
        doc.finish()
    }

    /// Writes the record written by `record`, followed by a line break.
    pub fn serialize_element(&mut self, record: RecordSerializer)
        ensures
            final(self)@ == old(self)@ + record@.0 + "\n"@,
    {
        let text = record.finish();
        self.output.append(text.as_str());
        self.output.append("\n");
    }
}

} // verus!
