//! Byte-level scanning of UTF-8 text: whitespace, searching and splitting.
//!
//! ADIF's structure is made of ASCII bytes (`<`, `>`, `:`, `,`), so the
//! reader scans the UTF-8 bytes of its input and only ever cuts a `str` at
//! character boundaries.
use vstd::prelude::*;
use vstd::string::*;
use vstd::utf8::*;

verus! {

broadcast use encode_utf8_valid_utf8, encode_utf8_decode_utf8;

/// Width in bytes of the whitespace character encoded at the start of `s`,
/// or 0 when `s` does not start with one.
///
/// The whitespace characters are those with the Unicode `White_Space`
/// property (what `char::is_whitespace` accepts): U+0009..U+000D, U+0020,
/// U+0085, U+00A0, U+1680, U+2000..U+200A, U+2028, U+2029, U+202F, U+205F
/// and U+3000, here in their UTF-8 encodings.
pub open spec fn ws_width(s: Seq<u8>) -> int {
    if s.len() >= 1 && (s[0] == 0x20 || (0x09 <= s[0] && s[0] <= 0x0d)) {
        1
    } else if s.len() >= 2 && s[0] == 0xc2 && (s[1] == 0x85 || s[1] == 0xa0) {
        2
    } else if s.len() >= 3 && ((s[0] == 0xe1 && s[1] == 0x9a && s[2] == 0x80) || (s[0] == 0xe2
        && s[1] == 0x80 && ((0x80 <= s[2] && s[2] <= 0x8a) || s[2] == 0xa8 || s[2] == 0xa9 || s[2]
        == 0xaf)) || (s[0] == 0xe2 && s[1] == 0x81 && s[2] == 0x9f) || (s[0] == 0xe3 && s[1]
        == 0x80 && s[2] == 0x80)) {
        3
    } else {
        0
    }
}

/// Width in bytes of the whitespace character encoded at the end of `s`,
/// or 0 when `s` does not end with one (same character set as `ws_width`).
pub open spec fn ws_width_end(s: Seq<u8>) -> int {
    let n = s.len() as int;
    if n >= 1 && (s[n - 1] == 0x20 || (0x09 <= s[n - 1] && s[n - 1] <= 0x0d)) {
        1
    } else if n >= 2 && s[n - 2] == 0xc2 && (s[n - 1] == 0x85 || s[n - 1] == 0xa0) {
        2
    } else if n >= 3 && ((s[n - 3] == 0xe1 && s[n - 2] == 0x9a && s[n - 1] == 0x80) || (s[n - 3]
        == 0xe2 && s[n - 2] == 0x80 && ((0x80 <= s[n - 1] && s[n - 1] <= 0x8a) || s[n - 1] == 0xa8
        || s[n - 1] == 0xa9 || s[n - 1] == 0xaf)) || (s[n - 3] == 0xe2 && s[n - 2] == 0x81 && s[n
        - 1] == 0x9f) || (s[n - 3] == 0xe3 && s[n - 2] == 0x80 && s[n - 1] == 0x80)) {
        3
    } else {
        0
    }
}

/// Number of bytes taken by the whitespace at the start of `s`.
pub open spec fn ws_prefix_len(s: Seq<u8>) -> nat
    decreases s.len(),
{
    let w = ws_width(s);
    if w <= 0 || s.len() == 0 {
        0
    } else {
        (w + ws_prefix_len(s.skip(w))) as nat
    }
}

/// Number of bytes taken by the whitespace at the end of `s`.
pub open spec fn ws_suffix_len(s: Seq<u8>) -> nat
    decreases s.len(),
{
    let w = ws_width_end(s);
    if w <= 0 || s.len() == 0 {
        0
    } else {
        (w + ws_suffix_len(s.take(s.len() - w))) as nat
    }
}

/// `s` without its leading whitespace (`str::trim_start`).
pub open spec fn trim_start(s: Seq<u8>) -> Seq<u8> {
    s.skip(ws_prefix_len(s) as int)
}

/// `s` without its trailing whitespace (`str::trim_end`).
pub open spec fn trim_end(s: Seq<u8>) -> Seq<u8> {
    s.take(s.len() - ws_suffix_len(s))
}

/// `s` without leading and trailing whitespace (`str::trim`).
pub open spec fn trim(s: Seq<u8>) -> Seq<u8> {
    trim_end(trim_start(s))
}

/// Index of the first `c` in `s` at or after `from`, or -1 when there is none.
pub open spec fn find_byte(s: Seq<u8>, c: u8, from: int) -> int
    decreases s.len() - from,
{
    if from < 0 || from >= s.len() {
        -1
    } else if s[from] == c {
        from
    } else {
        find_byte(s, c, from + 1)
    }
}

/// ASCII lower case of a byte; other bytes are unchanged.
pub open spec fn ascii_lower(b: u8) -> u8 {
    if 0x41 <= b && b <= 0x5a {
        (b + 0x20) as u8
    } else {
        b
    }
}

/// `pat` occurs in `s` at index `i`, ignoring ASCII case.
pub open spec fn matches_ignore_case_at(s: Seq<u8>, i: int, pat: Seq<u8>) -> bool {
    &&& 0 <= i
    &&& i + pat.len() <= s.len()
    &&& forall|j: int| 0 <= j < pat.len() ==> #[trigger] ascii_lower(s[i + j]) == ascii_lower(pat[j])
}

/// Index of the first occurrence of `pat` in `s` at or after `from`,
/// ignoring ASCII case, or -1 when there is none.
pub open spec fn find_ignore_case(s: Seq<u8>, pat: Seq<u8>, from: int) -> int
    decreases s.len() - from,
{
    if from < 0 || from + pat.len() > s.len() {
        -1
    } else if matches_ignore_case_at(s, from, pat) {
        from
    } else {
        find_ignore_case(s, pat, from + 1)
    }
}

/// A byte `i` of `s` is on a character boundary: it is the end of `s`, or
/// a byte that does not continue a multi-byte encoding.
pub open spec fn at_boundary(s: Seq<u8>, i: int) -> bool {
    i == s.len() || (0 <= i < s.len() && !is_continuation_byte(s[i]))
}

// ---------------------------------------------------------------------
// Lemmas
// ---------------------------------------------------------------------
/// In valid UTF-8, a byte index is a character boundary exactly when it
/// does not hold a continuation byte.
pub proof fn lemma_at_boundary(b: Seq<u8>, i: int)
    requires
        valid_utf8(b),
        at_boundary(b, i),
    ensures
        is_char_boundary(b, i),
{
    if i == b.len() {
        is_char_boundary_start_end_of_seq(b);
    } else {
        is_char_boundary_iff_not_is_continuation_byte(b, i);
    }
}

/// From a character boundary, skipping one whole character lands on a
/// boundary again.
pub proof fn lemma_boundary_advance(b: Seq<u8>, i: int)
    requires
        valid_utf8(b),
        is_char_boundary(b, i),
        0 <= i < b.len(),
    ensures
        valid_first_scalar(b.skip(i)),
        i + length_of_first_scalar(b.skip(i)) <= b.len(),
        is_char_boundary(b, i + length_of_first_scalar(b.skip(i))),
    decreases b.len(),
{
    if i == 0 {
        assert(b.skip(0) =~= b);
        reveal_with_fuel(is_char_boundary, 2);
    } else {
        let w0 = length_of_first_scalar(b);
        let p = pop_first_scalar(b);
        assert(is_char_boundary(p, i - w0));
        lemma_boundary_advance(p, i - w0);
        assert(p.skip(i - w0) =~= b.skip(i));
    }
}

/// The whitespace recognised by `ws_width` at a character boundary is one
/// whole character, so the index after it is a boundary again.
pub proof fn lemma_ws_advance(b: Seq<u8>, i: int)
    requires
        valid_utf8(b),
        at_boundary(b, i),
        0 <= i < b.len(),
        ws_width(b.skip(i)) > 0,
    ensures
        at_boundary(b, i + ws_width(b.skip(i))),
{
    lemma_at_boundary(b, i);
    lemma_boundary_advance(b, i);
    let t = b.skip(i);
    assert(ws_width(t) == length_of_first_scalar(t));
    let k = i + ws_width(t);
    if k < b.len() {
        is_char_boundary_iff_not_is_continuation_byte(b, k);
    }
}

/// After an ASCII byte at a character boundary comes a boundary again.
pub proof fn lemma_ascii_advance(b: Seq<u8>, i: int)
    requires
        valid_utf8(b),
        0 <= i < b.len(),
        b[i] < 0x80,
    ensures
        at_boundary(b, i + 1),
{
    is_char_boundary_iff_not_is_continuation_byte(b, i);
    lemma_boundary_advance(b, i);
    let t = b.skip(i);
    assert(t[0] == b[i]);
    assert(length_of_first_scalar(t) == 1);
    if i + 1 < b.len() {
        is_char_boundary_iff_not_is_continuation_byte(b, i + 1);
    }
}

/// The leading whitespace of `s` is part of `s`.
pub proof fn lemma_ws_prefix_len_bound(s: Seq<u8>)
    ensures
        ws_prefix_len(s) <= s.len(),
        trim_start(s).len() == s.len() - ws_prefix_len(s),
    decreases s.len(),
{
    let w = ws_width(s);
    if w > 0 && s.len() > 0 {
        lemma_ws_prefix_len_bound(s.skip(w));
    }
}

/// `ws_width` of a text that starts with a non-whitespace ASCII byte is 0.
pub proof fn lemma_ws_width_ascii(s: Seq<u8>)
    requires
        s.len() > 0,
        s[0] > 0x20,
        s[0] < 0x80,
    ensures
        ws_width(s) == 0,
        ws_prefix_len(s) == 0,
        trim_start(s) == s,
{
    assert(s.skip(0) =~= s);
}

/// The first match found by `find_byte` is a match and nothing before it is.
pub proof fn lemma_find_byte(s: Seq<u8>, c: u8, from: int)
    requires
        0 <= from,
    ensures
        find_byte(s, c, from) == -1 || (from <= find_byte(s, c, from) < s.len() && s[find_byte(
            s,
            c,
            from,
        )] == c),
        find_byte(s, c, from) == -1 ==> forall|j: int| from <= j < s.len() ==> s[j] != c,
        find_byte(s, c, from) >= 0 ==> forall|j: int| from <= j < find_byte(s, c, from) ==> s[j] != c,
    decreases s.len() - from,
{
    if from < s.len() && s[from] != c {
        lemma_find_byte(s, c, from + 1);
    }
}

/// A match found by `find_ignore_case` lies inside `s`.
pub proof fn lemma_find_ignore_case_bound(s: Seq<u8>, pat: Seq<u8>, from: int)
    ensures
        find_ignore_case(s, pat, from) >= 0 ==> matches_ignore_case_at(
            s,
            find_ignore_case(s, pat, from),
            pat,
        ),
    decreases s.len() - from,
{
    if from >= 0 && from + pat.len() <= s.len() && !matches_ignore_case_at(s, from, pat) {
        lemma_find_ignore_case_bound(s, pat, from + 1);
    }
}

/// `find_byte` returns the first index at or after `from` holding `c`.
pub proof fn lemma_find_byte_at(s: Seq<u8>, c: u8, from: int, k: int)
    requires
        0 <= from <= k < s.len(),
        s[k] == c,
        forall|j: int| from <= j < k ==> s[j] != c,
    ensures
        find_byte(s, c, from) == k,
    decreases k - from,
{
    if from < k {
        lemma_find_byte_at(s, c, from + 1, k);
    }
}

/// `find_byte` returns -1 when no index at or after `from` holds `c`.
pub proof fn lemma_find_byte_none(s: Seq<u8>, c: u8, from: int)
    requires
        0 <= from,
        forall|j: int| from <= j < s.len() ==> s[j] != c,
    ensures
        find_byte(s, c, from) == -1,
    decreases s.len() - from,
{
    if from < s.len() {
        lemma_find_byte_none(s, c, from + 1);
    }
}

/// The code points with the Unicode `White_Space` property, the
/// characters that `char::is_whitespace` accepts.
pub open spec fn is_white_space_code(v: u32) -> bool {
    (0x09 <= v && v <= 0x0d) || v == 0x20 || v == 0x85 || v == 0xa0 || v == 0x1680 || (0x2000
        <= v && v <= 0x200a) || v == 0x2028 || v == 0x2029 || v == 0x202f || v == 0x205f || v
        == 0x3000
}

/// `c` is whitespace, as `char::is_whitespace` says.
pub open spec fn is_white_space(c: char) -> bool {
    is_white_space_code(c as u32)
}

/// Every character of `w` is whitespace.
pub open spec fn all_white_space(w: Seq<char>) -> bool {
    forall|i: int| 0 <= i < w.len() ==> is_white_space(#[trigger] w[i])
}

/// The UTF-8 encoding of one character.
pub proof fn lemma_encode_one(c: char)
    ensures
        encode_utf8(seq![c]) == encode_scalar(c as u32),
        encode_scalar(c as u32).len() >= 1,
{
    assert(seq![c].drop_first() =~= Seq::<char>::empty());
    assert(encode_utf8(seq![c]) =~= encode_scalar(c as u32) + encode_utf8(Seq::<char>::empty()));
    assert(encode_utf8(seq![c]) =~= encode_scalar(c as u32));
}

/// `ws_width` recognises the encoding of a character at the start of a text
/// exactly when the character is whitespace, and then takes all of it.
pub proof fn lemma_ws_width_scalar(v: u32, s: Seq<u8>)
    requires
        is_scalar(v),
    ensures
        ws_width(encode_scalar(v) + s) == if is_white_space_code(v) {
            encode_scalar(v).len() as int
        } else {
            0
        },
{
    let e = encode_scalar(v);
    let x = e + s;
    if has_width_1_encoding(v) {
        assert(has_width_1_encoding(v) ==> leading_byte_width_1(v) as u32 == v) by (bit_vector);
        assert(x[0] == e[0]);
    } else if has_width_2_encoding(v) {
        assert(has_width_2_encoding(v) ==> 0xc0 <= leading_byte_width_2(v) && leading_byte_width_2(
            v,
        ) <= 0xdf) by (bit_vector);
        assert(has_width_2_encoding(v) ==> ((leading_byte_width_2(v) == 0xc2 && (
        last_continuation_byte(v) == 0x85 || last_continuation_byte(v) == 0xa0)) == (v == 0x85
            || v == 0xa0))) by (bit_vector);
        assert(x[0] == e[0] && x[1] == e[1]);
    } else if has_width_3_encoding(v) {
        assert(has_width_3_encoding(v) ==> 0xe0 <= leading_byte_width_3(v) && leading_byte_width_3(
            v,
        ) <= 0xef) by (bit_vector);
        assert(has_width_3_encoding(v) ==> (((leading_byte_width_3(v) == 0xe1
            && second_last_continuation_byte(v) == 0x9a && last_continuation_byte(v) == 0x80) || (
        leading_byte_width_3(v) == 0xe2 && second_last_continuation_byte(v) == 0x80 && ((0x80
            <= last_continuation_byte(v) && last_continuation_byte(v) <= 0x8a)
            || last_continuation_byte(v) == 0xa8 || last_continuation_byte(v) == 0xa9
            || last_continuation_byte(v) == 0xaf)) || (leading_byte_width_3(v) == 0xe2
            && second_last_continuation_byte(v) == 0x81 && last_continuation_byte(v) == 0x9f) || (
        leading_byte_width_3(v) == 0xe3 && second_last_continuation_byte(v) == 0x80
            && last_continuation_byte(v) == 0x80)) == (v == 0x1680 || (0x2000 <= v && v <= 0x200a)
            || v == 0x2028 || v == 0x2029 || v == 0x202f || v == 0x205f || v == 0x3000)))
        by (bit_vector);
        assert(x[0] == e[0] && x[1] == e[1] && x[2] == e[2]);
    } else {
        assert(has_width_4_encoding(v) ==> leading_byte_width_4(v) >= 0xf0) by (bit_vector);
        assert(x[0] == e[0]);
    }
}

/// `ws_width_end` recognises the encoding of a character at the end of a
/// text exactly when the character is whitespace, and then takes all of it.
pub proof fn lemma_ws_width_end_scalar(s: Seq<u8>, v: u32)
    requires
        is_scalar(v),
    ensures
        ws_width_end(s + encode_scalar(v)) == if is_white_space_code(v) {
            encode_scalar(v).len() as int
        } else {
            0
        },
{
    let e = encode_scalar(v);
    let x = s + e;
    let n = x.len() as int;
    let m = s.len() as int;
    assert(0x80 <= last_continuation_byte(v) && last_continuation_byte(v) <= 0xbf) by (bit_vector);
    assert(0x80 <= second_last_continuation_byte(v) && second_last_continuation_byte(v) <= 0xbf)
        by (bit_vector);
    assert(0x80 <= third_last_continuation_byte(v) && third_last_continuation_byte(v) <= 0xbf)
        by (bit_vector);
    if has_width_1_encoding(v) {
        assert(has_width_1_encoding(v) ==> leading_byte_width_1(v) as u32 == v) by (bit_vector);
        assert(x[n - 1] == e[0]);
    } else if has_width_2_encoding(v) {
        assert(has_width_2_encoding(v) ==> 0xc0 <= leading_byte_width_2(v) && leading_byte_width_2(
            v,
        ) <= 0xdf) by (bit_vector);
        assert(has_width_2_encoding(v) ==> ((leading_byte_width_2(v) == 0xc2 && (
        last_continuation_byte(v) == 0x85 || last_continuation_byte(v) == 0xa0)) == (v == 0x85
            || v == 0xa0))) by (bit_vector);
        assert(x[n - 1] == e[1] && x[n - 2] == e[0]);
    } else if has_width_3_encoding(v) {
        assert(has_width_3_encoding(v) ==> (((leading_byte_width_3(v) == 0xe1
            && second_last_continuation_byte(v) == 0x9a && last_continuation_byte(v) == 0x80) || (
        leading_byte_width_3(v) == 0xe2 && second_last_continuation_byte(v) == 0x80 && ((0x80
            <= last_continuation_byte(v) && last_continuation_byte(v) <= 0x8a)
            || last_continuation_byte(v) == 0xa8 || last_continuation_byte(v) == 0xa9
            || last_continuation_byte(v) == 0xaf)) || (leading_byte_width_3(v) == 0xe2
            && second_last_continuation_byte(v) == 0x81 && last_continuation_byte(v) == 0x9f) || (
        leading_byte_width_3(v) == 0xe3 && second_last_continuation_byte(v) == 0x80
            && last_continuation_byte(v) == 0x80)) == (v == 0x1680 || (0x2000 <= v && v <= 0x200a)
            || v == 0x2028 || v == 0x2029 || v == 0x202f || v == 0x205f || v == 0x3000)))
        by (bit_vector);
        assert(x[n - 1] == e[2] && x[n - 2] == e[1] && x[n - 3] == e[0]);
    } else {
        assert(x[n - 1] == e[3] && x[n - 2] == e[2] && x[n - 3] == e[1]);
    }
}

/// The trailing whitespace of `s` is part of `s`.
pub proof fn lemma_ws_suffix_len_bound(s: Seq<u8>)
    ensures
        ws_suffix_len(s) <= s.len(),
    decreases s.len(),
{
    let w = ws_width_end(s);
    if w > 0 && s.len() > 0 {
        lemma_ws_suffix_len_bound(s.take(s.len() - w));
    }
}

/// Leading whitespace characters make no difference to `trim_start`.
pub proof fn lemma_trim_start_white(w: Seq<char>, s: Seq<u8>)
    requires
        all_white_space(w),
    ensures
        trim_start(encode_utf8(w) + s) == trim_start(s),
    decreases w.len(),
{
    if w.len() == 0 {
        assert(encode_utf8(w) + s =~= s);
    } else {
        let c = w[0];
        let tail = w.drop_first();
        assert(all_white_space(tail)) by {
            assert forall|i: int| 0 <= i < tail.len() implies is_white_space(#[trigger] tail[i]) by {
                assert(tail[i] == w[i + 1]);
            }
        }
        assert(is_white_space(w[0]));
        lemma_trim_start_white(tail, s);
        let e = encode_scalar(c as u32);
        let y = encode_utf8(tail) + s;
        assert(encode_utf8(w) + s =~= e + y);
        lemma_ws_width_scalar(c as u32, y);
        let x = e + y;
        lemma_encode_one(c);
        assert(x.skip(e.len() as int) =~= y);
        lemma_ws_prefix_len_bound(y);
        assert(ws_prefix_len(x) == e.len() + ws_prefix_len(y));
        assert(x.skip(ws_prefix_len(x) as int) =~= y.skip(ws_prefix_len(y) as int));
    }
}

// ---------------------------------------------------------------------
// Executable scanning
// ---------------------------------------------------------------------
/// Width of the whitespace character encoded at `b[i..]`, or 0.
pub fn ws_width_at(b: &[u8], i: usize) -> (w: usize)
    requires
        i <= b@.len(),
    ensures
        w == ws_width(b@.skip(i as int)),
        i + w <= b@.len(),
{
    let n = b.len();
    let ghost t = b@.skip(i as int);
    if i < n && (b[i] == 0x20 || (0x09 <= b[i] && b[i] <= 0x0d)) {
        1
    } else if n - i >= 2 && b[i] == 0xc2 && (b[i + 1] == 0x85 || b[i + 1] == 0xa0) {
        2
    } else if n - i >= 3 && ((b[i] == 0xe1 && b[i + 1] == 0x9a && b[i + 2] == 0x80) || (b[i]
        == 0xe2 && b[i + 1] == 0x80 && ((0x80 <= b[i + 2] && b[i + 2] <= 0x8a) || b[i + 2] == 0xa8
        || b[i + 2] == 0xa9 || b[i + 2] == 0xaf)) || (b[i] == 0xe2 && b[i + 1] == 0x81 && b[i + 2]
        == 0x9f) || (b[i] == 0xe3 && b[i + 1] == 0x80 && b[i + 2] == 0x80)) {
        3
    } else {
        0
    }
}

/// Width of the whitespace character encoded at the end of `b[..end]`, or 0.
pub fn ws_width_end_at(b: &[u8], end: usize) -> (w: usize)
    requires
        end <= b@.len(),
    ensures
        w == ws_width_end(b@.take(end as int)),
        w <= end,
{
    let ghost t = b@.take(end as int);
    if end >= 1 && (b[end - 1] == 0x20 || (0x09 <= b[end - 1] && b[end - 1] <= 0x0d)) {
        1
    } else if end >= 2 && b[end - 2] == 0xc2 && (b[end - 1] == 0x85 || b[end - 1] == 0xa0) {
        2
    } else if end >= 3 && ((b[end - 3] == 0xe1 && b[end - 2] == 0x9a && b[end - 1] == 0x80) || (
    b[end - 3] == 0xe2 && b[end - 2] == 0x80 && ((0x80 <= b[end - 1] && b[end - 1] <= 0x8a) || b[end
        - 1] == 0xa8 || b[end - 1] == 0xa9 || b[end - 1] == 0xaf)) || (b[end - 3] == 0xe2 && b[end
        - 2] == 0x81 && b[end - 1] == 0x9f) || (b[end - 3] == 0xe3 && b[end - 2] == 0x80 && b[end
        - 1] == 0x80)) {
        3
    } else {
        0
    }
}

/// Number of bytes of leading whitespace in `b`; in valid UTF-8 the index
/// it returns is a character boundary.
pub fn ws_prefix_len_exec(b: &[u8]) -> (n: usize)
    ensures
        n == ws_prefix_len(b@),
        n <= b@.len(),
        valid_utf8(b@) ==> at_boundary(b@, n as int),
{
    let mut i: usize = 0;
    let blen = b.len();
    assert(b@.skip(0) =~= b@);
    loop
        invariant
            blen == b@.len(),
            i <= b@.len(),
            ws_prefix_len(b@) == i + ws_prefix_len(b@.skip(i as int)),
            valid_utf8(b@) ==> at_boundary(b@, i as int),
        decreases b@.len() - i,
    {
        let w = ws_width_at(b, i);
        if w == 0 {
            return i;
        }
        proof {
            let t = b@.skip(i as int);
            assert(t.skip(w as int) =~= b@.skip(i + w));
            if valid_utf8(b@) {
                lemma_ws_advance(b@, i as int);
            }
        }
        i = i + w;
    }
}

/// Number of bytes of trailing whitespace in `b[..end]`.
pub fn ws_suffix_len_exec(b: &[u8], end: usize) -> (n: usize)
    requires
        end <= b@.len(),
        valid_utf8(b@) ==> at_boundary(b@, end as int),
    ensures
        n == ws_suffix_len(b@.take(end as int)),
        n <= end,
        valid_utf8(b@) ==> at_boundary(b@, end - n),
{
    let mut e: usize = end;
    loop
        invariant
            e <= end <= b@.len(),
            ws_suffix_len(b@.take(end as int)) == (end - e) + ws_suffix_len(b@.take(e as int)),
            valid_utf8(b@) ==> at_boundary(b@, e as int),
        decreases e,
    {
        let w = ws_width_end_at(b, e);
        if w == 0 {
            return end - e;
        }
        proof {
            let t = b@.take(e as int);
            assert(t.take(t.len() - w) =~= b@.take(e - w));
            assert(!is_continuation_byte(b@[e - w]));
        }
        e = e - w;
    }
}

/// First index of `c` in `b` at or after `from`.
pub fn find_byte_exec(b: &[u8], c: u8, from: usize) -> (r: Option<usize>)
    requires
        from <= b@.len(),
    ensures
        match r {
            Some(i) => i == find_byte(b@, c, from as int) && from <= i < b@.len() && b@[i as int]
                == c,
            None => find_byte(b@, c, from as int) == -1,
        },
{
    let mut i = from;
    while i < b.len()
        invariant
            from <= i <= b@.len(),
            find_byte(b@, c, from as int) == find_byte(b@, c, i as int),
        decreases b@.len() - i,
    {
        if b[i] == c {
            return Some(i);
        }
        i = i + 1;
    }
    None
}

/// ASCII lower case of one byte.
pub fn ascii_lower_exec(x: u8) -> (r: u8)
    ensures
        r == ascii_lower(x),
{
    if 0x41 <= x && x <= 0x5a {
        x + 0x20
    } else {
        x
    }
}

/// Whether `pat` occurs in `b` at `i`, ignoring ASCII case.
pub fn matches_ignore_case_exec(b: &[u8], i: usize, pat: &[u8]) -> (r: bool)
    ensures
        r == matches_ignore_case_at(b@, i as int, pat@),
{
    if i > b.len() || pat.len() > b.len() - i {
        return false;
    }
    let mut j: usize = 0;
    let blen = b.len();
    while j < pat.len()
        invariant
            blen == b@.len(),
            j <= pat@.len(),
            i + pat@.len() <= b@.len(),
            forall|k: int| 0 <= k < j ==> #[trigger] ascii_lower(b@[i + k]) == ascii_lower(pat@[k]),
        decreases pat@.len() - j,
    {
        if ascii_lower_exec(b[i + j]) != ascii_lower_exec(pat[j]) {
            return false;
        }
        j = j + 1;
    }
    true
}

/// First index of `pat` in `b` at or after `from`, ignoring ASCII case.
pub fn find_ignore_case_exec(b: &[u8], pat: &[u8], from: usize) -> (r: Option<usize>)
    ensures
        match r {
            Some(i) => i == find_ignore_case(b@, pat@, from as int) && matches_ignore_case_at(
                b@,
                i as int,
                pat@,
            ),
            None => find_ignore_case(b@, pat@, from as int) == -1,
        },
{
    if from > b.len() || pat.len() > b.len() - from {
        return None;
    }
    let mut i = from;
    while i <= b.len() - pat.len()
        invariant
            from <= i,
            pat@.len() <= b@.len(),
            i <= b@.len() - pat@.len() + 1,
            find_ignore_case(b@, pat@, from as int) == find_ignore_case(b@, pat@, i as int),
        decreases b@.len() - i,
    {
        if matches_ignore_case_exec(b, i, pat) {
            return Some(i);
        }
        i = i + 1;
    }
    None
}

/// Splits `s` at byte index `i`, which must be a character boundary.
pub fn split_str<'a>(s: &'a str, i: usize) -> (r: (&'a str, &'a str))
    requires
        i <= s.spec_bytes().len(),
        at_boundary(s.spec_bytes(), i as int),
    ensures
        r.0.spec_bytes() == s.spec_bytes().take(i as int),
        r.1.spec_bytes() == s.spec_bytes().skip(i as int),
{
    proof {
        lemma_at_boundary(s.spec_bytes(), i as int);
    }
    let r = s.split_at(i);
    assert(r.0.spec_bytes() =~= s.spec_bytes().take(i as int));
    assert(r.1.spec_bytes() =~= s.spec_bytes().skip(i as int));
    r
}

/// The part of `s` between the byte indices `i` and `j`, both character
/// boundaries.
pub fn sub_str<'a>(s: &'a str, i: usize, j: usize) -> (r: &'a str)
    requires
        i <= j <= s.spec_bytes().len(),
        at_boundary(s.spec_bytes(), i as int),
        at_boundary(s.spec_bytes(), j as int),
    ensures
        r.spec_bytes() == s.spec_bytes().subrange(i as int, j as int),
{
    let (left, _) = split_str(s, j);
    assert(left.spec_bytes().len() == j);
    if i < j {
        assert(left.spec_bytes()[i as int] == s.spec_bytes()[i as int]);
    }
    let (_, mid) = split_str(left, i);
    assert(mid.spec_bytes() =~= s.spec_bytes().subrange(i as int, j as int));
    mid
}

/// `s` without its leading whitespace.
pub fn trim_start_str<'a>(s: &'a str) -> (r: &'a str)
    ensures
        r.spec_bytes() == trim_start(s.spec_bytes()),
{
    let n = ws_prefix_len_exec(s.as_bytes());
    let (_, rest) = split_str(s, n);
    rest
}

/// `s` without leading and trailing whitespace.
pub fn trim_str<'a>(s: &'a str) -> (r: &'a str)
    ensures
        r.spec_bytes() == trim(s.spec_bytes()),
{
    let t = trim_start_str(s);
    let b = t.as_bytes();
    let len = b.len();
    let m = ws_suffix_len_exec(b, len);
    assert(b@.take(len as int) =~= b@);
    let (front, _) = split_str(t, len - m);
    front
}

/// First index of `c` in `b[from..to]`, counted in `b`.
pub fn find_byte_in(b: &[u8], c: u8, from: usize, to: usize) -> (r: Option<usize>)
    requires
        from <= to <= b@.len(),
    ensures
        match r {
            Some(i) => from <= i < to && b@[i as int] == c && find_byte(
                b@.subrange(from as int, to as int),
                c,
                0,
            ) == i - from,
            None => find_byte(b@.subrange(from as int, to as int), c, 0) == -1,
        },
{
    let ghost sub = b@.subrange(from as int, to as int);
    let mut i = from;
    while i < to
        invariant
            from <= i <= to <= b@.len(),
            sub == b@.subrange(from as int, to as int),
            find_byte(sub, c, 0) == find_byte(sub, c, i - from),
        decreases to - i,
    {
        assert(sub[i - from] == b@[i as int]);
        if b[i] == c {
            return Some(i);
        }
        i = i + 1;
    }
    None
}

} // verus!
