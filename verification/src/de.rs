//! Reading ADIF text: the tags of a document, its header and its records.
use crate::error::{Error, ErrorView};
use crate::number::{int_error_text, lemma_parse_int_range, parse_int, parse_int_exec};
use crate::strings::{ascii_lowercase, debug_string, debug_text, lower_chars};
use crate::text::{
    at_boundary, ascii_lower, find_byte, find_byte_exec, find_byte_in, find_ignore_case,
    find_ignore_case_exec, lemma_ascii_advance, matches_ignore_case_at, matches_ignore_case_exec,
    split_str, sub_str, lemma_find_byte, trim, trim_str, lemma_ws_prefix_len_bound,
    lemma_find_ignore_case_bound,
    trim_start, trim_start_str,
};
use vstd::prelude::*;
use vstd::slice::slice_subrange;
use vstd::string::*;
use vstd::utf8::*;

verus! {

broadcast use encode_utf8_valid_utf8, encode_utf8_decode_utf8;

/// The ASCII code of '<'.
pub const LT: u8 = 0x3c;

/// The ASCII code of '>'.
pub const GT: u8 = 0x3e;

/// The ASCII code of ':'.
pub const COLON: u8 = 0x3a;

/// The ASCII code of ','.
pub const COMMA: u8 = 0x2c;

/// The bytes of "<eoh>", the tag that closes the header.
pub open spec fn eoh_pattern() -> Seq<u8> {
    seq![0x3cu8, 0x65u8, 0x6fu8, 0x68u8, 0x3eu8]
}

/// The bytes of "<eor>", the tag that closes a record.
pub open spec fn eor_pattern() -> Seq<u8> {
    seq![0x3cu8, 0x65u8, 0x6fu8, 0x72u8, 0x3eu8]
}

/// Which closing tag ends a run of fields.
#[derive(Debug, Clone, Copy, PartialEq, Eq, Structural)]
pub enum Terminator {
    /// `<EOR>`, the end of a record.
    Record,
    /// `<EOH>`, the end of the header.
    Header,
}

impl Terminator {
    /// The closing tag, in lower case (it is matched ignoring ASCII case).
    pub open spec fn pattern(self) -> Seq<u8> {
        match self {
            Terminator::Record => eor_pattern(),
            Terminator::Header => eoh_pattern(),
        }
    }

    /// The closing tag's bytes.
    pub fn pattern_bytes(&self) -> (r: [u8; 5])
        ensures
            r@ == self.pattern(),
    {
        let r: [u8; 5] = match self {
            Terminator::Record => [0x3c, 0x65, 0x6f, 0x72, 0x3e],
            Terminator::Header => [0x3c, 0x65, 0x6f, 0x68, 0x3e],
        };
        assert(r@ =~= self.pattern());
        r
    }
}

/// What reading one tag from the input finds.
pub enum Step {
    /// No tag is left.
    End,
    /// A field: the bytes of its name and of its value.
    Field(Seq<u8>, Seq<u8>),
    /// An error.
    Fail(ErrorView),
    /// The value's declared length ends inside a multi-byte character; the
    /// reader is not asked to read such a tag.
    SplitsChar,
}

/// At most the first 20 characters of `cs`.
pub open spec fn snippet(cs: Seq<char>) -> Seq<char> {
    if cs.len() <= 20 {
        cs
    } else {
        cs.take(20)
    }
}

/// The input from where its first tag can start. `t` has no leading
/// whitespace; when it does not start with '<' it starts with a header,
/// which is skipped up to and including its `<EOH>` (found ignoring ASCII
/// case) and the whitespace after it. `None` when there is no `<EOH>`.
pub open spec fn skip_header(t: Seq<u8>) -> Option<Seq<u8>> {
    if t.len() == 0 || t[0] == LT {
        Some(t)
    } else {
        let p = find_ignore_case(t, eoh_pattern(), 0);
        if p < 0 {
            None
        } else {
            Some(trim_start(t.skip(p + 5)))
        }
    }
}

/// Reads the first `<NAME:LENGTH[:TYPE]>VALUE` tag of `h`: the outcome and
/// the input left after it. The tag runs from the first '<' to the next
/// '>'; NAME is what comes before the first ':', LENGTH what comes between
/// the first and the second ':' (or the '>'); VALUE is the LENGTH bytes
/// after the '>'.
pub open spec fn read_tag(h: Seq<u8>) -> (Step, Seq<u8>) {
    let start = find_byte(h, LT, 0);
    let end = find_byte(h, GT, start);
    if start < 0 {
        (Step::End, h)
    } else if end < 0 {
        (Step::Fail(ErrorView::ExpectedClosingTag(snippet(decode_utf8(h.skip(start))))), h)
    } else {
        let def = h.subrange(start + 1, end);
        let c1 = find_byte(def, COLON, 0);
        let tail = def.skip(c1 + 1);
        let c2 = find_byte(tail, COLON, 0);
        let len_text = if c2 < 0 {
            tail
        } else {
            tail.take(c2)
        };
        let vs = end + 1;
        if c1 < 0 {
            (Step::Fail(ErrorView::MalformedTag(decode_utf8(def))), h)
        } else {
            match parse_int(len_text, false, 0, usize::MAX as int) {
                Err(_) => (Step::Fail(ErrorView::InvalidLength(decode_utf8(len_text))), h),
                Ok(n) => {
                    if vs + n > h.len() {
                        (Step::Fail(ErrorView::Eof), h)
                    } else if !at_boundary(h, vs + n) {
                        (Step::SplitsChar, h)
                    } else {
                        (Step::Field(def.take(c1), h.subrange(vs, vs + n)), h.skip(vs + n))
                    }
                },
            }
        }
    }
}

/// Reads the next tag of the remaining input `r` (what `parse_next` does):
/// leading whitespace is skipped, then a header if there is one, then the
/// first tag is read.
pub open spec fn next_tag(r: Seq<u8>) -> (Step, Seq<u8>) {
    let t = trim_start(r);
    if t.len() == 0 {
        (Step::End, t)
    } else {
        match skip_header(t) {
            None => (Step::Fail(ErrorView::Eof), t),
            Some(h) => read_tag(h),
        }
    }
}

/// The remaining input `r` starts, after whitespace, with the closing tag
/// `pat` (ignoring ASCII case).
pub open spec fn at_closing_tag(r: Seq<u8>, pat: Seq<u8>) -> bool {
    matches_ignore_case_at(trim_start(r), 0, pat)
}

/// Reads the next field of a run of fields ended by `term`: nothing when
/// the closing tag comes next (it is left in the input), else the next tag.
pub open spec fn field_step(r: Seq<u8>, term: Terminator) -> (Step, Seq<u8>) {
    if at_closing_tag(r, term.pattern()) {
        (Step::End, r)
    } else {
        next_tag(r)
    }
}

/// Where the fields of the header start, if the remaining input `r` has a
/// header: after whitespace, a header is text that does not start with '<';
/// its fields start at its first '<'. `Err(Eof)` for a header text with no
/// '<' at all.
pub open spec fn header_start(r: Seq<u8>) -> Result<Option<Seq<u8>>, ErrorView> {
    let t = trim_start(r);
    if t.len() == 0 || t[0] == LT {
        Ok(None)
    } else {
        let p = find_byte(t, LT, 0);
        if p < 0 {
            Err(ErrorView::Eof)
        } else {
            Ok(Some(t.skip(p)))
        }
    }
}

/// What reading a run of fields gives.
pub enum FieldsRead {
    /// The fields read, each a name in ASCII lower case and a value, and
    /// the input left after them.
    Read(Seq<(Seq<char>, Seq<char>)>, Seq<u8>),
    /// The first error met.
    Failed(ErrorView),
    /// A value's declared length ends inside a multi-byte character.
    Aborted,
}

/// A field step that reads a field consumes input.
pub proof fn lemma_field_step_shrinks(r: Seq<u8>, term: Terminator)
    ensures
        field_step(r, term).0 is Field ==> field_step(r, term).1.len() < r.len(),
{
    let t = trim_start(r);
    lemma_ws_prefix_len_bound(r);
    if !at_closing_tag(r, term.pattern()) && t.len() > 0 {
        let h = if t[0] != LT {
            let p = find_ignore_case(t, eoh_pattern(), 0);
            if p >= 0 {
                lemma_find_ignore_case_bound(t, eoh_pattern(), 0);
                lemma_ws_prefix_len_bound(t.skip(p + 5));
            }
            trim_start(t.skip(p + 5))
        } else {
            t
        };
        if skip_header(t) is Some {
            assert(skip_header(t) == Some(h));
            assert(h.len() <= r.len());
            lemma_read_tag_shrinks(h);
        }
    }
}

/// Reading a field from `h` consumes part of `h`.
pub proof fn lemma_read_tag_shrinks(h: Seq<u8>)
    ensures
        read_tag(h).0 is Field ==> read_tag(h).1.len() < h.len(),
{
    let start = find_byte(h, LT, 0);
    let end = find_byte(h, GT, start);
    if start >= 0 && end >= 0 {
        lemma_find_byte(h, GT, start);
        let def = h.subrange(start + 1, end);
        let c1 = find_byte(def, COLON, 0);
        let tail = def.skip(c1 + 1);
        let c2 = find_byte(tail, COLON, 0);
        let len_text = if c2 < 0 {
            tail
        } else {
            tail.take(c2)
        };
        lemma_parse_int_range(len_text, false, 0, usize::MAX as int);
    }
}

/// Reads the fields of a run ended by `term`, one `field_step` at a time,
/// until none is left (what the reader of a record or of the header does).
pub open spec fn read_fields(r: Seq<u8>, term: Terminator) -> FieldsRead
    decreases r.len(),
{
    let (st, rest) = field_step(r, term);
    match st {
        Step::End => FieldsRead::Read(Seq::empty(), rest),
        Step::Fail(e) => FieldsRead::Failed(e),
        Step::SplitsChar => FieldsRead::Aborted,
        Step::Field(k, v) => {
            proof {
                lemma_field_step_shrinks(r, term);
            }
            match read_fields(rest, term) {
                FieldsRead::Read(fs, left) => FieldsRead::Read(
                    seq![(lower_chars(decode_utf8(k)), decode_utf8(v))] + fs,
                    left,
                ),
                other => other,
            }
        },
    }
}

/// A run of fields read leaves no more input than there was, and less when
/// it read a field.
pub proof fn lemma_read_fields_shrinks(r: Seq<u8>, term: Terminator)
    ensures
        read_fields(r, term) matches FieldsRead::Read(fs, left) ==> left.len() <= r.len() && (
        fs.len() > 0 ==> left.len() < r.len()),
    decreases r.len(),
{
    let (st, rest) = field_step(r, term);
    lemma_field_step_shrinks(r, term);
    lemma_ws_prefix_len_bound(r);
    let t = trim_start(r);
    if t.len() > 0 && !at_closing_tag(r, term.pattern()) {
        if t[0] != LT {
            let p = find_ignore_case(t, eoh_pattern(), 0);
            if p >= 0 {
                lemma_find_ignore_case_bound(t, eoh_pattern(), 0);
                lemma_ws_prefix_len_bound(t.skip(p + 5));
            }
        }
    }
    if st is Field {
        lemma_read_fields_shrinks(rest, term);
    }
}

/// Consuming a closing tag when it comes next, as the reader does after the
/// fields of a record or of the header.
pub open spec fn after_closing(r: Seq<u8>, term: Terminator) -> Seq<u8> {
    if at_closing_tag(r, term.pattern()) {
        trim_start(r).skip(5)
    } else {
        r
    }
}

/// Reading a record from input that holds more than whitespace consumes
/// input.
pub proof fn lemma_record_step_shrinks(r: Seq<u8>)
    requires
        trim_start(r).len() > 0,
    ensures
        read_fields(r, Terminator::Record) matches FieldsRead::Read(fs, left) ==> after_closing(
            left,
            Terminator::Record,
        ).len() < r.len(),
{
    lemma_read_fields_shrinks(r, Terminator::Record);
    lemma_ws_prefix_len_bound(r);
    let t = trim_start(r);
    let pat = Terminator::Record.pattern();
    if let FieldsRead::Read(fs, left) = read_fields(r, Terminator::Record) {
        lemma_ws_prefix_len_bound(left);
        if fs.len() == 0 && !at_closing_tag(r, pat) {
            // The first step found no tag at all: the input must have
            // started with a header, which was skipped.
            lemma_find_byte(t, LT, 0);
            if t[0] == LT {
                assert(find_byte(t, LT, 0) == 0);
            } else {
                let p = find_ignore_case(t, eoh_pattern(), 0);
                if p >= 0 {
                    lemma_find_ignore_case_bound(t, eoh_pattern(), 0);
                    lemma_ws_prefix_len_bound(t.skip(p + 5));
                }
            }
        }
    }
}

/// What reading the records of a document gives.
pub enum RecordsRead {
    /// The records read, each a run of fields.
    Read(Seq<Seq<(Seq<char>, Seq<char>)>>),
    /// The first error met.
    Failed(ErrorView),
    /// A value's declared length ends inside a multi-byte character.
    Aborted,
}

/// Reads records until only whitespace is left: each record is a run of
/// fields, then its `<EOR>` is consumed if it comes next.
pub open spec fn read_records(r: Seq<u8>) -> RecordsRead
    decreases r.len(),
{
    if trim_start(r).len() == 0 {
        RecordsRead::Read(Seq::empty())
    } else {
        match read_fields(r, Terminator::Record) {
            FieldsRead::Read(fs, left) => {
                proof {
                    lemma_record_step_shrinks(r);
                }
                match read_records(after_closing(left, Terminator::Record)) {
                    RecordsRead::Read(rs) => RecordsRead::Read(seq![fs] + rs),
                    other => other,
                }
            },
            FieldsRead::Failed(e) => RecordsRead::Failed(e),
            FieldsRead::Aborted => RecordsRead::Aborted,
        }
    }
}

/// What reading a whole document gives.
pub enum DocumentRead {
    /// The header's fields, if there is a header, and the records.
    Read(Option<Seq<(Seq<char>, Seq<char>)>>, Seq<Seq<(Seq<char>, Seq<char>)>>),
    /// The first error met.
    Failed(ErrorView),
    /// A value's declared length ends inside a multi-byte character.
    Aborted,
}

/// Reads a whole document: the header, if there is one (its fields, then
/// its `<EOH>`), then the records.
pub open spec fn read_document(r: Seq<u8>) -> DocumentRead {
    let records_from = |x: Seq<u8>, header: Option<Seq<(Seq<char>, Seq<char>)>>|
        match read_records(x) {
            RecordsRead::Read(rs) => DocumentRead::Read(header, rs),
            RecordsRead::Failed(e) => DocumentRead::Failed(e),
            RecordsRead::Aborted => DocumentRead::Aborted,
        };
    match header_start(r) {
        Err(e) => DocumentRead::Failed(e),
        Ok(None) => records_from(trim_start(r), None),
        Ok(Some(h)) => match read_fields(h, Terminator::Header) {
            FieldsRead::Read(hf, left) => records_from(
                after_closing(left, Terminator::Header),
                Some(hf),
            ),
            FieldsRead::Failed(e) => DocumentRead::Failed(e),
            FieldsRead::Aborted => DocumentRead::Aborted,
        },
    }
}

/// The fields `fs` in front of what a further run of fields read.
pub open spec fn fields_before(fs: Seq<(Seq<char>, Seq<char>)>, fr: FieldsRead) -> FieldsRead {
    match fr {
        FieldsRead::Read(gs, left) => FieldsRead::Read(fs + gs, left),
        other => other,
    }
}

/// The records `rs` in front of what reading further records gave.
pub open spec fn records_before(rs: Seq<Seq<(Seq<char>, Seq<char>)>>, rr: RecordsRead) -> RecordsRead {
    match rr {
        RecordsRead::Read(qs) => RecordsRead::Read(rs + qs),
        other => other,
    }
}

/// Fields as returned by the reader, each name and value by its characters.
pub open spec fn fields_view<'a>(v: Seq<(String, &'a str)>) -> Seq<(Seq<char>, Seq<char>)> {
    v.map_values(|f: (String, &'a str)| (f.0@, f.1@))
}

/// Records as returned by the reader.
pub open spec fn records_view<'a>(v: Seq<Vec<(String, &'a str)>>) -> Seq<Seq<(Seq<char>, Seq<char>)>> {
    v.map_values(|x: Vec<(String, &'a str)>| fields_view(x@))
}

/// A header as returned by the reader.
pub open spec fn header_view<'a>(h: Option<Vec<(String, &'a str)>>) -> Option<Seq<(Seq<char>, Seq<char>)>> {
    match h {
        Some(v) => Some(fields_view(v@)),
        None => None,
    }
}

/// `r` is what a call that read the step `s` returned.
pub open spec fn tag_result<'a>(s: Step, r: Result<Option<(&'a str, &'a str)>, Error>) -> bool {
    match s {
        Step::End => r matches Ok(None),
        Step::Field(k, v) => r matches Ok(Some((a, b))) && a.spec_bytes() == k && b.spec_bytes() == v,
        Step::Fail(e) => r matches Err(x) && x@ == e,
        Step::SplitsChar => false,
    }
}

/// `r` is what a call that read the field step `s` returned; the name comes
/// back in ASCII lower case.
pub open spec fn field_result<'a>(s: Step, r: Result<Option<(String, &'a str)>, Error>) -> bool {
    match s {
        Step::End => r matches Ok(None),
        Step::Field(k, v) => r matches Ok(Some((a, b))) && a@ == lower_chars(decode_utf8(k))
            && b.spec_bytes() == v,
        Step::Fail(e) => r matches Err(x) && x@ == e,
        Step::SplitsChar => false,
    }
}

/// Where the parts of the first tag of a text lie (byte indices).
enum Span {
    NoTag,
    Unclosed(usize),
    NoLength(usize, usize),
    BadLength(usize, usize),
    Overrun,
    Tag(usize, usize, usize, usize),
}

/// `sp` describes the first tag of `h` as `read_tag` reads it.
spec fn span_of(h: Seq<u8>, sp: Span) -> bool {
    let (st, rest) = read_tag(h);
    match sp {
        Span::NoTag => st == Step::End && rest == h,
        Span::Unclosed(s) => s < h.len() && h[s as int] == LT && st == Step::Fail(
            ErrorView::ExpectedClosingTag(snippet(decode_utf8(h.skip(s as int)))),
        ) && rest == h,
        Span::NoLength(a, b) => a <= b <= h.len() && at_boundary(h, a as int) && at_boundary(
            h,
            b as int,
        ) && st == Step::Fail(ErrorView::MalformedTag(decode_utf8(h.subrange(a as int, b as int))))
            && rest == h,
        Span::BadLength(a, b) => a <= b <= h.len() && at_boundary(h, a as int) && at_boundary(
            h,
            b as int,
        ) && st == Step::Fail(ErrorView::InvalidLength(decode_utf8(h.subrange(a as int, b as int))))
            && rest == h,
        Span::Overrun => st == Step::Fail(ErrorView::Eof) && rest == h,
        Span::Tag(ks, ke, vs, ve) => ks <= ke <= vs <= ve <= h.len() && at_boundary(h, ks as int)
            && at_boundary(h, ke as int) && at_boundary(h, vs as int) && if at_boundary(
            h,
            ve as int,
        ) {
            st == Step::Field(h.subrange(ks as int, ke as int), h.subrange(vs as int, ve as int))
                && rest == h.skip(ve as int)
        } else {
            st == Step::SplitsChar
        },
    }
}

/// Locates the parts of the first tag of `b`.
fn locate(b: &[u8]) -> (r: Span)
    requires
        valid_utf8(b@),
    ensures
        span_of(b@, r),
{
    let ghost h = b@;
    let blen = b.len();
    let start = match find_byte_exec(b, LT, 0) {
        None => {
            return Span::NoTag;
        },
        Some(i) => i,
    };
    let end = match find_byte_exec(b, GT, start) {
        None => {
            return Span::Unclosed(start);
        },
        Some(e) => e,
    };
    proof {
        lemma_ascii_advance(h, start as int);
        lemma_ascii_advance(h, end as int);
    }
    let ghost def = h.subrange(start + 1, end as int);
    let c1 = match find_byte_in(b, COLON, start + 1, end) {
        None => {
            return Span::NoLength(start + 1, end);
        },
        Some(i) => i,
    };
    proof {
        lemma_ascii_advance(h, c1 as int);
        assert(def.skip(c1 - start) =~= h.subrange(c1 + 1, end as int));
        assert(def.take(c1 - start - 1) =~= h.subrange(start + 1, c1 as int));
    }
    let le = match find_byte_in(b, COLON, c1 + 1, end) {
        None => end,
        Some(i) => i,
    };
    proof {
        let tail = h.subrange(c1 + 1, end as int);
        let c2 = find_byte(tail, COLON, 0);
        if c2 >= 0 {
            assert(tail.take(c2) =~= h.subrange(c1 + 1, le as int));
        }
    }
    let len_bytes = slice_subrange(b, c1 + 1, le);
    match parse_int_exec(len_bytes, false, 0, usize::MAX as i128) {
        Err(_) => Span::BadLength(c1 + 1, le),
        Ok(n) => {
            let vs = end + 1;
            let n = n as usize;
            if n > b.len() - vs {
                Span::Overrun
            } else {
                Span::Tag(start + 1, c1, vs, vs + n)
            }
        },
    }
}

/// Reads an ADIF document from a string, one tag at a time.
#[derive(Debug)]
pub struct AdifDeserializer<'de> {
    input: &'de str,
}

impl<'de> View for AdifDeserializer<'de> {
    type V = Seq<u8>;

    /// The UTF-8 bytes of the input not read yet.
    closed spec fn view(&self) -> Seq<u8> {
        self.input.spec_bytes()
    }
}

impl<'de> AdifDeserializer<'de> {
    /// A reader of the whole of `input`.
    pub fn new(input: &'de str) -> (r: Self)
        ensures
            r@ == input.spec_bytes(),
    {
        AdifDeserializer { input }
    }

    /// Drops the leading whitespace of the remaining input.
    fn trim_input(&mut self)
        ensures
            final(self)@ == trim_start(old(self)@),
    {
        self.input = trim_start_str(self.input);
    }

    /// Skips whitespace and a header, if any, up to where a tag can start:
    /// `Ok(false)` when only whitespace is left, `Ok(true)` when the first
    /// tag can be read, `Err(Eof)` when a header has no `<EOH>`.
    fn skip_to_tag(&mut self) -> (r: Result<bool, Error>)
        ensures
            ({
                let t = trim_start(old(self)@);
                if t.len() == 0 {
                    r == Ok::<bool, Error>(false) && final(self)@ == t
                } else {
                    match skip_header(t) {
                        None => r matches Err(e) && e@ == ErrorView::Eof && final(self)@ == t,
                        Some(h) => r == Ok::<bool, Error>(true) && final(self)@ == h,
                    }
                }
            }),
    {
        self.trim_input();
        if self.input.is_empty() {
            assert(self.input.spec_bytes() =~= Seq::<u8>::empty());
            return Ok(false);
        }
        let b = self.input.as_bytes();
        if b[0] != LT {
            let pat: [u8; 5] = [0x3c, 0x65, 0x6f, 0x68, 0x3e];
            assert(pat@ =~= eoh_pattern());
            match find_ignore_case_exec(b, pat.as_slice(), 0) {
                None => {
                    return Err(Error::Eof);
                },
                Some(p) => {
                    proof {
                        assert(ascii_lower(b@[p + 4]) == ascii_lower(pat@[4]));
                        lemma_ascii_advance(b@, p + 4);
                    }
                    let (_, rest) = split_str(self.input, p + 5);
                    self.input = rest;
                    self.trim_input();
                },
            }
        }
        Ok(true)
    }

    /// The declared length of the next value ends inside a multi-byte
    /// character, which `parse_next` is not asked to read.
    pub fn value_ends_inside_char(&self) -> (r: bool)
        ensures
            r == (next_tag(self@).0 == Step::SplitsChar),
    {
        let mut probe = AdifDeserializer { input: self.input };
        match probe.skip_to_tag() {
            Ok(true) => {},
            _ => {
                return false;
            },
        }
        let b = probe.input.as_bytes();
        match locate(b) {
            Span::Tag(_, _, _, ve) => ve < b.len() && 0x80 <= b[ve] && b[ve] <= 0xbf,
            _ => false,
        }
    }

    /// Reads the next `<NAME:LENGTH[:TYPE]>VALUE` tag: its name and value,
    /// or `None` when no tag is left (see `next_tag`).
    pub fn parse_next(&mut self) -> (r: Result<Option<(&'de str, &'de str)>, Error>)
        requires
            next_tag(old(self)@).0 != Step::SplitsChar,
        ensures
            final(self)@ == next_tag(old(self)@).1,
            tag_result(next_tag(old(self)@).0, r),
    {
        match self.skip_to_tag() {
            Err(e) => {
                return Err(e);
            },
            Ok(false) => {
                return Ok(None);
            },
            Ok(true) => {},
        }
        let b = self.input.as_bytes();
        match locate(b) {
            Span::NoTag => Ok(None),
            Span::Unclosed(start) => {
                let (_, from_lt) = split_str(self.input, start);
                let n = from_lt.unicode_len();
                let k = if n < 20 {
                    n
                } else {
                    20
                };
                let snip = from_lt.substring_char(0, k).to_owned();
                proof {
                    assert(decode_utf8(from_lt.spec_bytes()) == from_lt@);
                    if n <= 20 {
                        assert(from_lt@.subrange(0, k as int) =~= from_lt@);
                    }
                }
                Err(Error::ExpectedClosingTag(snip))
            },
            Span::NoLength(a, e) => {
                let def = sub_str(self.input, a, e);
                assert(decode_utf8(def.spec_bytes()) == def@);
                Err(Error::MalformedTag(def.to_owned()))
            },
            Span::BadLength(a, e) => {
                let text = sub_str(self.input, a, e);
                assert(decode_utf8(text.spec_bytes()) == text@);
                Err(Error::InvalidLength(text.to_owned()))
            },
            Span::Overrun => Err(Error::Eof),
            Span::Tag(ks, ke, vs, ve) => {
                let key = sub_str(self.input, ks, ke);
                let value = sub_str(self.input, vs, ve);
                let (_, rest) = split_str(self.input, ve);
                self.input = rest;
                Ok(Some((key, value)))
            },
        }
    }

    /// Whether, after whitespace, the input starts with the closing tag of
    /// `term` (ignoring ASCII case).
    pub fn at_closing(&self, term: Terminator) -> (r: bool)
        ensures
            r == at_closing_tag(self@, term.pattern()),
    {
        let t = trim_start_str(self.input);
        let pat = term.pattern_bytes();
        matches_ignore_case_exec(t.as_bytes(), 0, pat.as_slice())
    }

    /// Consumes the closing tag of `term` (and the whitespace before it) if
    /// it comes next; tells whether it did.
    pub fn consume_closing(&mut self, term: Terminator) -> (r: bool)
        ensures
            r == at_closing_tag(old(self)@, term.pattern()),
            final(self)@ == after_closing(old(self)@, term),
    {
        let t = trim_start_str(self.input);
        let pat = term.pattern_bytes();
        if matches_ignore_case_exec(t.as_bytes(), 0, pat.as_slice()) {
            proof {
                let tb = t.spec_bytes();
                assert(ascii_lower(tb[0int + 4]) == ascii_lower(pat@[4]));
                lemma_ascii_advance(tb, 4);
            }
            let (_, rest) = split_str(t, 5);
            self.input = rest;
            true
        } else {
            false
        }
    }

    /// Consumes an `<EOR>` (any ASCII case, after whitespace) if it comes
    /// next; tells whether it did.
    pub fn consume_eor(&mut self) -> (r: bool)
        ensures
            r == at_closing_tag(old(self)@, eor_pattern()),
            final(self)@ == after_closing(old(self)@, Terminator::Record),
    {
        self.consume_closing(Terminator::Record)
    }

    /// Consumes an `<EOH>` (any ASCII case, after whitespace) if it comes
    /// next; tells whether it did.
    pub fn consume_eoh(&mut self) -> (r: bool)
        ensures
            r == at_closing_tag(old(self)@, eoh_pattern()),
            final(self)@ == after_closing(old(self)@, Terminator::Header),
    {
        self.consume_closing(Terminator::Header)
    }

    /// Whether only whitespace is left of the input.
    pub fn at_end(&self) -> (r: bool)
        ensures
            r == (trim_start(self@).len() == 0),
    {
        trim_start_str(self.input).as_bytes().len() == 0
    }

    /// Positions the reader at the first field of the header when the
    /// document has one (see `header_start`); tells whether it has one.
    pub fn start_header(&mut self) -> (r: Result<bool, Error>)
        ensures
            match header_start(old(self)@) {
                Ok(None) => r == Ok::<bool, Error>(false) && final(self)@ == trim_start(old(self)@),
                Ok(Some(h)) => r == Ok::<bool, Error>(true) && final(self)@ == h,
                Err(e) => r matches Err(x) && x@ == e && final(self)@ == old(self)@,
            },
    {
        let t = trim_start_str(self.input);
        let b = t.as_bytes();
        if b.len() == 0 || b[0] == LT {
            self.input = t;
            return Ok(false);
        }
        match find_byte_exec(b, LT, 0) {
            None => Err(Error::Eof),
            Some(p) => {
                let (_, rest) = split_str(t, p);
                self.input = rest;
                Ok(true)
            },
        }
    }

    /// The declared length of the next field's value, in a run of fields
    /// ended by `term`, ends inside a multi-byte character.
    pub fn field_value_ends_inside_char(&self, term: Terminator) -> (r: bool)
        ensures
            r == (field_step(self@, term).0 == Step::SplitsChar),
    {
        !self.at_closing(term) && self.value_ends_inside_char()
    }

    /// Reads the next field of a run of fields ended by `term`: `None` when
    /// the closing tag comes next (it stays in the input) or no tag is left;
    /// the field's name comes back in ASCII lower case.
    pub fn next_field(&mut self, term: Terminator) -> (r: Result<Option<(String, &'de str)>, Error>)
        requires
            field_step(old(self)@, term).0 != Step::SplitsChar,
        ensures
            final(self)@ == field_step(old(self)@, term).1,
            field_result(field_step(old(self)@, term).0, r),
    {
        if self.at_closing(term) {
            return Ok(None);
        }
        match self.parse_next() {
            Err(e) => Err(e),
            Ok(None) => Ok(None),
            Ok(Some((k, v))) => {
                let key = ascii_lowercase(k);
                assert(decode_utf8(k.spec_bytes()) == k@);
                Ok(Some((key, v)))
            },
        }
    }

    /// Reads a whole run of fields ended by `term` (see `read_fields`): the
    /// fields, names in ASCII lower case; the closing tag stays in the input.
    pub fn read_run(&mut self, term: Terminator) -> (r: Result<Vec<(String, &'de str)>, Error>)
        requires
            !(read_fields(old(self)@, term) is Aborted),
        ensures
            match read_fields(old(self)@, term) {
                FieldsRead::Read(fs, left) => r matches Ok(v) && fields_view(v@) == fs
                    && final(self)@ == left,
                FieldsRead::Failed(e) => r matches Err(x) && x@ == e,
                FieldsRead::Aborted => false,
            },
    {
        let ghost orig = self@;
        let mut out: Vec<(String, &'de str)> = Vec::new();
        assert(fields_view(out@) =~= Seq::empty());
        assert(fields_before(Seq::empty(), read_fields(orig, term)) =~= read_fields(orig, term));
        loop
            invariant
                orig == old(self)@,
                read_fields(orig, term) == fields_before(fields_view(out@), read_fields(self@, term)),
                !(read_fields(self@, term) is Aborted),
            decreases self@.len(),
        {
            let ghost before = self@;
            let ghost prev = fields_view(out@);
            proof {
                lemma_field_step_shrinks(before, term);
            }
            match self.next_field(term) {
                Err(e) => {
                    return Err(e);
                },
                Ok(None) => {
                    assert(prev + Seq::empty() =~= prev);
                    return Ok(out);
                },
                Ok(Some(f)) => {
                    let ghost x = (f.0@, f.1@);
                    out.push(f);
                    assert(fields_view(out@) =~= prev + seq![x]);
                    proof {
                        match read_fields(self@, term) {
                            FieldsRead::Read(gs, left) => {
                                assert(prev + (seq![x] + gs) =~= (prev + seq![x]) + gs);
                            },
                            _ => {},
                        }
                    }
                },
            }
        }
    }

    /// Reads records until only whitespace is left (see `read_records`):
    /// each record's fields, then its `<EOR>` if it comes next.
    fn read_record_runs(&mut self) -> (r: Result<Vec<Vec<(String, &'de str)>>, Error>)
        requires
            !(read_records(old(self)@) is Aborted),
        ensures
            match read_records(old(self)@) {
                RecordsRead::Read(rs) => r matches Ok(v) && records_view(v@) == rs
                    && trim_start(final(self)@).len() == 0,
                RecordsRead::Failed(e) => r matches Err(x) && x@ == e,
                RecordsRead::Aborted => false,
            },
    {
        let ghost orig = self@;
        let mut out: Vec<Vec<(String, &'de str)>> = Vec::new();
        assert(records_view(out@) =~= Seq::empty());
        assert(records_before(Seq::empty(), read_records(orig)) =~= read_records(orig));
        loop
            invariant
                orig == old(self)@,
                read_records(orig) == records_before(records_view(out@), read_records(self@)),
                !(read_records(self@) is Aborted),
            decreases self@.len(),
        {
            let ghost before = self@;
            let ghost prev = records_view(out@);
            if self.at_end() {
                assert(prev + Seq::empty() =~= prev);
                return Ok(out);
            }
            proof {
                lemma_record_step_shrinks(before);
            }
            let fields = match self.read_run(Terminator::Record) {
                Err(e) => {
                    return Err(e);
                },
                Ok(v) => v,
            };
            self.consume_eor();
            let ghost x = fields_view(fields@);
            out.push(fields);
            assert(records_view(out@) =~= prev + seq![x]);
            proof {
                match read_records(self@) {
                    RecordsRead::Read(qs) => {
                        assert(prev + (seq![x] + qs) =~= (prev + seq![x]) + qs);
                    },
                    _ => {},
                }
            }
        }
    }

    /// Reads a whole document (see `read_document`): the header's fields,
    /// if the document has a header, and the fields of each record; only
    /// whitespace is left after it.
    pub fn read_all(&mut self) -> (r: Result<
        (Option<Vec<(String, &'de str)>>, Vec<Vec<(String, &'de str)>>),
        Error,
    >)
        requires
            !(read_document(old(self)@) is Aborted),
        ensures
            match read_document(old(self)@) {
                DocumentRead::Read(h, rs) => r matches Ok((hv, rv)) && header_view(hv) == h
                    && records_view(rv@) == rs && trim_start(final(self)@).len() == 0,
                DocumentRead::Failed(e) => r matches Err(x) && x@ == e,
                DocumentRead::Aborted => false,
            },
    {
        let header = match self.start_header() {
            Err(e) => {
                return Err(e);
            },
            Ok(false) => None,
            Ok(true) => {
                let fields = match self.read_run(Terminator::Header) {
                    Err(e) => {
                        return Err(e);
                    },
                    Ok(v) => v,
                };
                self.consume_eoh();
                Some(fields)
            },
        };
        let records = match self.read_record_runs() {
            Err(e) => {
                return Err(e);
            },
            Ok(v) => v,
        };
        Ok((header, records))
    }

    /// A reader of the fields of one record, up to its `<EOR>`.
    pub fn deserialize_record<'a>(&'a mut self) -> (r: RecordDeserializer<'a, 'de>)
        ensures
            *r.de == *old(self),
            *final(r.de) == *final(self),
            r.terminator == Terminator::Record,
    {
        RecordDeserializer { de: self, terminator: Terminator::Record }
    }

    /// A reader of the fields of the header, up to its `<EOH>`.
    pub fn deserialize_header<'a>(&'a mut self) -> (r: RecordDeserializer<'a, 'de>)
        ensures
            *r.de == *old(self),
            *final(r.de) == *final(self),
            r.terminator == Terminator::Header,
    {
        RecordDeserializer { de: self, terminator: Terminator::Header }
    }
}

/// Reads the fields of one record or of the header, which differ only in
/// their closing tag.
pub struct RecordDeserializer<'a, 'de> {
    pub de: &'a mut AdifDeserializer<'de>,
    pub terminator: Terminator,
}

impl<'a, 'de> RecordDeserializer<'a, 'de> {
    /// Reads the next field (see `AdifDeserializer::next_field`).
    pub fn next_field(&mut self) -> (r: Result<Option<(String, &'de str)>, Error>)
        requires
            field_step((*old(self).de)@, old(self).terminator).0 != Step::SplitsChar,
        ensures
            (*final(self).de)@ == field_step((*old(self).de)@, old(self).terminator).1,
            final(self).terminator == old(self).terminator,
            field_result(field_step((*old(self).de)@, old(self).terminator).0, r),
    {
        let term = self.terminator;
        self.de.next_field(term)
    }

    /// The declared length of the next field's value ends inside a
    /// multi-byte character.
    pub fn value_ends_inside_char(&self) -> (r: bool)
        ensures
            r == (field_step((*old(self.de))@, self.terminator).0 == Step::SplitsChar),
    {
        self.de.field_value_ends_inside_char(self.terminator)
    }
}

/// The integer types that a field value can be read as.
#[derive(Debug, Clone, Copy, PartialEq, Eq, Structural)]
pub enum IntType {
    I8,
    I16,
    I32,
    I64,
    U8,
    U16,
    U32,
    U64,
}

impl IntType {
    /// The smallest value of the type.
    pub open spec fn min(self) -> int {
        match self {
            IntType::I8 => -0x80,
            IntType::I16 => -0x8000,
            IntType::I32 => -0x8000_0000,
            IntType::I64 => -0x8000_0000_0000_0000,
            _ => 0,
        }
    }

    /// The largest value of the type.
    pub open spec fn max(self) -> int {
        match self {
            IntType::I8 => 0x7f,
            IntType::I16 => 0x7fff,
            IntType::I32 => 0x7fff_ffff,
            IntType::I64 => 0x7fff_ffff_ffff_ffff,
            IntType::U8 => 0xff,
            IntType::U16 => 0xffff,
            IntType::U32 => 0xffff_ffff,
            IntType::U64 => 0xffff_ffff_ffff_ffff,
        }
    }

    /// The type has negative values.
    pub open spec fn signed(self) -> bool {
        match self {
            IntType::I8 | IntType::I16 | IntType::I32 | IntType::I64 => true,
            _ => false,
        }
    }

    /// The type's name.
    pub open spec fn name(self) -> Seq<char> {
        match self {
            IntType::I8 => "i8"@,
            IntType::I16 => "i16"@,
            IntType::I32 => "i32"@,
            IntType::I64 => "i64"@,
            IntType::U8 => "u8"@,
            IntType::U16 => "u16"@,
            IntType::U32 => "u32"@,
            IntType::U64 => "u64"@,
        }
    }

    /// The smallest and the largest value of the type.
    pub fn bounds(&self) -> (r: (i128, i128))
        ensures
            r.0 == self.min(),
            r.1 == self.max(),
    {
        match self {
            IntType::I8 => (-0x80, 0x7f),
            IntType::I16 => (-0x8000, 0x7fff),
            IntType::I32 => (-0x8000_0000, 0x7fff_ffff),
            IntType::I64 => (-0x8000_0000_0000_0000, 0x7fff_ffff_ffff_ffff),
            IntType::U8 => (0, 0xff),
            IntType::U16 => (0, 0xffff),
            IntType::U32 => (0, 0xffff_ffff),
            IntType::U64 => (0, 0xffff_ffff_ffff_ffff),
        }
    }

    /// Whether the type has negative values.
    pub fn is_signed(&self) -> (r: bool)
        ensures
            r == self.signed(),
    {
        match self {
            IntType::I8 | IntType::I16 | IntType::I32 | IntType::I64 => true,
            _ => false,
        }
    }

    /// The type's name.
    pub fn label(&self) -> (r: &'static str)
        ensures
            r@ == self.name(),
    {
        match self {
            IntType::I8 => "i8",
            IntType::I16 => "i16",
            IntType::I32 => "i32",
            IntType::I64 => "i64",
            IntType::U8 => "u8",
            IntType::U16 => "u16",
            IntType::U32 => "u32",
            IntType::U64 => "u64",
        }
    }
}

/// The message for a value that is not a boolean.
pub open spec fn bool_error(value: Seq<char>) -> Seq<char> {
    "expected \"Y\" or \"N\" (case-insensitive) for a boolean, found "@ + debug_text(value)
}

/// The message for a value that is not a single character.
pub open spec fn char_error(value: Seq<char>) -> Seq<char> {
    "expected a single character, found "@ + debug_text(value)
}

/// The message for a value that is not a number of the type `ty`.
pub open spec fn number_error(value: Seq<char>, ty: Seq<char>, detail: Seq<char>) -> Seq<char> {
    "cannot parse "@ + debug_text(value) + " as "@ + ty + ": "@ + detail
}

/// The boolean that a trimmed value denotes: "Y" or "y" is true, "N" or
/// "n" is false.
pub open spec fn bool_of(t: Seq<u8>) -> Option<bool> {
    if t == seq![0x59u8] || t == seq![0x79u8] {
        Some(true)
    } else if t == seq![0x4eu8] || t == seq![0x6eu8] {
        Some(false)
    } else {
        None
    }
}

/// The items of a comma-separated value: the text between commas, each
/// trimmed of whitespace, the empty ones left out.
pub open spec fn list_items(s: Seq<u8>) -> Seq<Seq<u8>>
    decreases s.len(),
{
    let c = find_byte(s, COMMA, 0);
    let piece = if c < 0 {
        s
    } else {
        s.take(c)
    };
    let t = trim(piece);
    let head = if t.len() == 0 {
        Seq::<Seq<u8>>::empty()
    } else {
        seq![t]
    };
    if c < 0 {
        head
    } else {
        proof {
            lemma_find_byte(s, COMMA, 0);
        }
        head + list_items(s.skip(c + 1))
    }
}

/// The bytes of each of a sequence of strings.
pub open spec fn bytes_of<'a>(v: Seq<&'a str>) -> Seq<Seq<u8>> {
    v.map_values(|x: &'a str| x.spec_bytes())
}

/// Reads the value of one field as the type that is asked for.
pub struct ValueDeserializer<'de> {
    pub value: &'de str,
}

impl<'de> ValueDeserializer<'de> {
    /// A reader of `value`.
    pub fn new(value: &'de str) -> (r: Self)
        ensures
            r.value == value,
    {
        ValueDeserializer { value }
    }

    /// The value as a boolean: "Y" or "N" in either case, around which
    /// whitespace is allowed.
    pub fn parse_bool(&self) -> (r: Result<bool, Error>)
        ensures
            match bool_of(trim(self.value.spec_bytes())) {
                Some(b) => r == Ok::<bool, Error>(b),
                None => r matches Err(e) && e@ == ErrorView::Message(bool_error(self.value@)),
            },
    {
        let t = trim_str(self.value).as_bytes();
        if t.len() == 1 && (t[0] == 0x59 || t[0] == 0x79) {
            assert(t@ =~= seq![t[0]]);
            return Ok(true);
        }
        if t.len() == 1 && (t[0] == 0x4e || t[0] == 0x6e) {
            assert(t@ =~= seq![t[0]]);
            return Ok(false);
        }
        assert(t@.len() != 1 ==> t@ != seq![0x59u8] && t@ != seq![0x79u8] && t@ != seq![0x4eu8] && t@ != seq![0x6eu8]);
        let mut m = String::new();
        m.append("expected \"Y\" or \"N\" (case-insensitive) for a boolean, found ");
        let d = debug_string(self.value);
        m.append(d.as_str());
        Err(Error::Message(m))
    }

    /// The value as a character: it must be exactly one character.
    pub fn parse_char(&self) -> (r: Result<char, Error>)
        ensures
            if self.value@.len() == 1 {
                r == Ok::<char, Error>(self.value@[0])
            } else {
                r matches Err(e) && e@ == ErrorView::Message(char_error(self.value@))
            },
    {
        if self.value.unicode_len() == 1 {
            return Ok(self.value.get_char(0));
        }
        let mut m = String::new();
        m.append("expected a single character, found ");
        let d = debug_string(self.value);
        m.append(d.as_str());
        Err(Error::Message(m))
    }

    /// The value as an integer of the type `ty`, read as the standard
    /// library reads integers, around which whitespace is allowed.
    pub fn parse_integer(&self, ty: IntType) -> (r: Result<i128, Error>)
        ensures
            match parse_int(trim(self.value.spec_bytes()), ty.signed(), ty.min(), ty.max()) {
                Ok(v) => r == Ok::<i128, Error>(v as i128),
                Err(k) => r matches Err(e) && e@ == ErrorView::Message(
                    number_error(self.value@, ty.name(), int_error_text(k)),
                ),
            },
            r matches Ok(v) ==> ty.min() <= v <= ty.max(),
    {
        let t = trim_str(self.value).as_bytes();
        let (lo, hi) = ty.bounds();
        match parse_int_exec(t, ty.is_signed(), lo, hi) {
            Ok(v) => Ok(v),
            Err(k) => {
                let mut m = String::new();
                m.append("cannot parse ");
                let d = debug_string(self.value);
                m.append(d.as_str());
                m.append(" as ");
                m.append(ty.label());
                m.append(": ");
                m.append(k.text());
                Err(Error::Message(m))
            },
        }
    }

    /// The value, untrimmed, as an `i64`, if it is one.
    pub fn parse_i64(&self) -> (r: Option<i64>)
        ensures
            match parse_int(self.value.spec_bytes(), true, i64::MIN as int, i64::MAX as int) {
                Ok(v) => r == Some(v as i64),
                Err(_) => r is None,
            },
    {
        match parse_int_exec(self.value.as_bytes(), true, i64::MIN as i128, i64::MAX as i128) {
            Ok(v) => Some(v as i64),
            Err(_) => None,
        }
    }

    /// The items of a comma-separated value (see `list_items`).
    pub fn items(&self) -> (r: Vec<&'de str>)
        ensures
            bytes_of(r@) == list_items(self.value.spec_bytes()),
    {
        let b = self.value.as_bytes();
        let n = b.len();
        let mut pos: usize = 0;
        let mut out: Vec<&'de str> = Vec::new();
        assert(b@.skip(0) =~= b@);
        loop
            invariant
                n == b@.len(),
                b@ == self.value.spec_bytes(),
                pos <= n,
                at_boundary(b@, pos as int),
                list_items(b@) == bytes_of(out@) + list_items(b@.skip(pos as int)),
            decreases n - pos,
        {
            let ghost s = b@.skip(pos as int);
            assert(s =~= b@.subrange(pos as int, n as int));
            let found = find_byte_in(b, COMMA, pos, n);
            let piece_end = match found {
                Some(c) => c,
                None => n,
            };
            proof {
                if piece_end < n {
                    lemma_ascii_advance(b@, piece_end as int);
                    assert(s.take(piece_end - pos) =~= b@.subrange(pos as int, piece_end as int));
                    assert(s.skip(piece_end - pos + 1) =~= b@.skip(piece_end + 1));
                } else {
                    assert(s =~= b@.subrange(pos as int, piece_end as int));
                }
            }
            let piece = sub_str(self.value, pos, piece_end);
            let t = trim_str(piece);
            let ghost before = out@;
            if t.as_bytes().len() > 0 {
                out.push(t);
                assert(bytes_of(out@) =~= bytes_of(before) + seq![t.spec_bytes()]);
            }
            if piece_end == n {
                assert(list_items(b@) =~= bytes_of(out@));
                return out;
            }
            pos = piece_end + 1;
        }
    }
}

} // verus!
