//! Integers written as decimal text: reading (with the error kinds of
//! `str::parse`) and writing.
use vstd::prelude::*;
use vstd::string::*;
use vstd::utf8::*;

verus! {

/// Why a text is not an integer of the asked range.
#[derive(Debug, Clone, Copy, PartialEq, Eq, Structural)]
pub enum IntErrorKind {
    /// The text is empty.
    Empty,
    /// The text holds a byte that is not a digit where a digit is needed.
    InvalidDigit,
    /// The number is above the range.
    PosOverflow,
    /// The number is below the range.
    NegOverflow,
}

/// The ASCII code of '+'.
pub const PLUS: u8 = 0x2b;

/// The ASCII code of '-'.
pub const MINUS: u8 = 0x2d;

/// `b` is an ASCII decimal digit.
pub open spec fn is_digit(b: u8) -> bool {
    0x30 <= b && b <= 0x39
}

/// Reads the digits `d` from left to right, starting from the value `acc`
/// and stepping towards `-inf` when `neg`; the first byte that is not a
/// digit, or the first step out of `lo..=hi`, decides the error.
pub open spec fn scan_digits(d: Seq<u8>, neg: bool, lo: int, hi: int, acc: int) -> Result<
    int,
    IntErrorKind,
>
    decreases d.len(),
{
    if d.len() == 0 {
        Ok(acc)
    } else if !is_digit(d[0]) {
        Err(IntErrorKind::InvalidDigit)
    } else {
        let next = if neg {
            acc * 10 - (d[0] - 0x30)
        } else {
            acc * 10 + (d[0] - 0x30)
        };
        if next > hi {
            Err(IntErrorKind::PosOverflow)
        } else if next < lo {
            Err(IntErrorKind::NegOverflow)
        } else {
            scan_digits(d.skip(1), neg, lo, hi, next)
        }
    }
}

/// The integer that the text `s` denotes within `lo..=hi`, as the standard
/// library's `FromStr` for integers reads it: an optional sign (`-` only
/// when `signed`) and then at least one decimal digit, nothing else.
pub open spec fn parse_int(s: Seq<u8>, signed: bool, lo: int, hi: int) -> Result<
    int,
    IntErrorKind,
> {
    if s.len() == 0 {
        Err(IntErrorKind::Empty)
    } else if s.len() == 1 && (s[0] == PLUS || s[0] == MINUS) {
        Err(IntErrorKind::InvalidDigit)
    } else if s[0] == PLUS {
        scan_digits(s.skip(1), false, lo, hi, 0)
    } else if s[0] == MINUS && signed {
        scan_digits(s.skip(1), true, lo, hi, 0)
    } else {
        scan_digits(s, false, lo, hi, 0)
    }
}

/// The text that the standard library shows for each kind of error.
pub open spec fn int_error_text(k: IntErrorKind) -> Seq<char> {
    match k {
        IntErrorKind::Empty => "cannot parse integer from empty string"@,
        IntErrorKind::InvalidDigit => "invalid digit found in string"@,
        IntErrorKind::PosOverflow => "number too large to fit in target type"@,
        IntErrorKind::NegOverflow => "number too small to fit in target type"@,
    }
}

/// The character of the decimal digit `d`.
pub open spec fn digit_char(d: nat) -> char {
    if d == 0 {
        '0'
    } else if d == 1 {
        '1'
    } else if d == 2 {
        '2'
    } else if d == 3 {
        '3'
    } else if d == 4 {
        '4'
    } else if d == 5 {
        '5'
    } else if d == 6 {
        '6'
    } else if d == 7 {
        '7'
    } else if d == 8 {
        '8'
    } else {
        '9'
    }
}

/// The decimal text of `n`, without leading zeros.
pub open spec fn decimal(n: nat) -> Seq<char>
    decreases n,
{
    if n < 10 {
        seq![digit_char(n)]
    } else {
        decimal(n / 10) + seq![digit_char(n % 10)]
    }
}

/// The decimal text of `v`, with a leading '-' when it is negative.
pub open spec fn signed_decimal(v: int) -> Seq<char> {
    if v < 0 {
        seq!['-'] + decimal((-v) as nat)
    } else {
        decimal(v as nat)
    }
}

/// The decimal text of `n` as bytes.
pub open spec fn decimal_bytes(n: nat) -> Seq<u8>
    decreases n,
{
    if n < 10 {
        seq![(n + 0x30) as u8]
    } else {
        decimal_bytes(n / 10) + seq![(n % 10 + 0x30) as u8]
    }
}

impl IntErrorKind {
    /// The text that the standard library shows for this kind of error.
    pub fn text(&self) -> (r: &'static str)
        ensures
            r@ == int_error_text(*self),
    {
        match self {
            IntErrorKind::Empty => "cannot parse integer from empty string",
            IntErrorKind::InvalidDigit => "invalid digit found in string",
            IntErrorKind::PosOverflow => "number too large to fit in target type",
            IntErrorKind::NegOverflow => "number too small to fit in target type",
        }
    }
}

/// Reads an integer of `lo..=hi` from the text `s` (see `parse_int`).
pub fn parse_int_exec(s: &[u8], signed: bool, lo: i128, hi: i128) -> (r: Result<i128, IntErrorKind>)
    requires
        -0x1_0000_0000_0000_0000 <= lo <= 0 <= hi <= 0x1_0000_0000_0000_0000,
    ensures
        match parse_int(s@, signed, lo as int, hi as int) {
            Ok(v) => r matches Ok(x) && x == v,
            Err(k) => r matches Err(k2) && k2 == k,
        },
        r matches Ok(x) ==> lo <= x <= hi,
{
    let n = s.len();
    if n == 0 {
        return Err(IntErrorKind::Empty);
    }
    if n == 1 && (s[0] == PLUS || s[0] == MINUS) {
        return Err(IntErrorKind::InvalidDigit);
    }
    let mut i: usize = 0;
    let mut neg = false;
    if s[0] == PLUS {
        i = 1;
    } else if s[0] == MINUS && signed {
        i = 1;
        neg = true;
    }
    assert(s@.skip(0) =~= s@);
    let ghost d = s@.skip(i as int);
    assert(parse_int(s@, signed, lo as int, hi as int) == scan_digits(d, neg, lo as int, hi as int, 0));
    let mut acc: i128 = 0;
    while i < n
        invariant
            n == s@.len(),
            parse_int(s@, signed, lo as int, hi as int) == scan_digits(d, neg, lo as int, hi as int, 0),
            i <= n,
            lo <= acc <= hi,
            -0x1_0000_0000_0000_0000 <= lo <= 0 <= hi <= 0x1_0000_0000_0000_0000,
            scan_digits(d, neg, lo as int, hi as int, 0) == scan_digits(
                s@.skip(i as int),
                neg,
                lo as int,
                hi as int,
                acc as int,
            ),
        decreases n - i,
    {
        let b = s[i];
        let ghost rest = s@.skip(i as int);
        assert(rest[0] == b);
        if b < 0x30 || b > 0x39 {
            return Err(IntErrorKind::InvalidDigit);
        }
        let dv = (b - 0x30) as i128;
        let next = if neg {
            acc * 10 - dv
        } else {
            acc * 10 + dv
        };
        if next > hi {
            return Err(IntErrorKind::PosOverflow);
        }
        if next < lo {
            return Err(IntErrorKind::NegOverflow);
        }
        assert(rest.skip(1) =~= s@.skip(i + 1));
        acc = next;
        i = i + 1;
    }
    Ok(acc)
}

/// The one-character text of the decimal digit `d`.
pub fn digit_text(d: u64) -> (r: &'static str)
    requires
        d < 10,
    ensures
        r@ == seq![digit_char(d as nat)],
{
    if d == 0 {
        proof {
            reveal_strlit("0");
        }
        "0"
    } else if d == 1 {
        proof {
            reveal_strlit("1");
        }
        "1"
    } else if d == 2 {
        proof {
            reveal_strlit("2");
        }
        "2"
    } else if d == 3 {
        proof {
            reveal_strlit("3");
        }
        "3"
    } else if d == 4 {
        proof {
            reveal_strlit("4");
        }
        "4"
    } else if d == 5 {
        proof {
            reveal_strlit("5");
        }
        "5"
    } else if d == 6 {
        proof {
            reveal_strlit("6");
        }
        "6"
    } else if d == 7 {
        proof {
            reveal_strlit("7");
        }
        "7"
    } else if d == 8 {
        proof {
            reveal_strlit("8");
        }
        "8"
    } else {
        proof {
            reveal_strlit("9");
        }
        "9"
    }
}

/// Appends the decimal text of `n` to `out`.
pub fn push_decimal(out: &mut String, n: u64)
    ensures
        final(out)@ == old(out)@ + decimal(n as nat),
    decreases n,
{
    if n >= 10 {
        push_decimal(out, n / 10);
        out.append(digit_text(n % 10));
        assert(decimal(n as nat) == decimal((n / 10) as nat) + seq![digit_char((n % 10) as nat)]);
    } else {
        out.append(digit_text(n));
    }
}

/// Appends the decimal text of `v` to `out`, with a '-' when negative.
pub fn push_signed_decimal(out: &mut String, v: i64)
    ensures
        final(out)@ == old(out)@ + signed_decimal(v as int),
{
    if v < 0 {
        proof {
            reveal_strlit("-");
        }
        out.append("-");
        let m = (0i128 - v as i128) as u64;
        push_decimal(out, m);
    } else {
        push_decimal(out, v as u64);
    }
}

/// A number that `scan_digits` accepts lies in `lo..=hi`.
pub proof fn lemma_scan_range(d: Seq<u8>, neg: bool, lo: int, hi: int, acc: int)
    requires
        lo <= acc <= hi,
    ensures
        scan_digits(d, neg, lo, hi, acc) matches Ok(v) ==> lo <= v <= hi,
    decreases d.len(),
{
    if d.len() > 0 && is_digit(d[0]) {
        let next = if neg {
            acc * 10 - (d[0] - 0x30)
        } else {
            acc * 10 + (d[0] - 0x30)
        };
        if lo <= next <= hi {
            lemma_scan_range(d.skip(1), neg, lo, hi, next);
        }
    }
}

/// A number that `parse_int` accepts lies in `lo..=hi`.
pub proof fn lemma_parse_int_range(s: Seq<u8>, signed: bool, lo: int, hi: int)
    requires
        lo <= 0 <= hi,
    ensures
        parse_int(s, signed, lo, hi) matches Ok(v) ==> lo <= v <= hi,
{
    if s.len() > 0 {
        lemma_scan_range(s.skip(1), false, lo, hi, 0);
        lemma_scan_range(s.skip(1), true, lo, hi, 0);
        lemma_scan_range(s, false, lo, hi, 0);
    }
}

// ---------------------------------------------------------------------
// Reading back what was written
// ---------------------------------------------------------------------
/// The UTF-8 bytes of a decimal text are its digits as ASCII bytes.
pub proof fn lemma_decimal_bytes(n: nat)
    ensures
        encode_utf8(decimal(n)) == decimal_bytes(n),
        decimal_bytes(n).len() >= 1,
        forall|i: int| 0 <= i < decimal_bytes(n).len() ==> is_digit(#[trigger] decimal_bytes(n)[i]),
    decreases n,
{
    lemma_decimal_ascii(n);
    is_ascii_chars_encode_utf8(decimal(n));
    assert(encode_utf8(decimal(n)) =~= decimal_bytes(n));
}

/// A decimal text is ASCII and its characters are the digit bytes.
pub proof fn lemma_decimal_ascii(n: nat)
    ensures
        is_ascii_chars(decimal(n)),
        decimal(n).len() == decimal_bytes(n).len(),
        decimal_bytes(n).len() >= 1,
        forall|i: int| 0 <= i < decimal(n).len() ==> #[trigger] decimal(n)[i] as u8 == decimal_bytes(n)[i],
        forall|i: int| 0 <= i < decimal_bytes(n).len() ==> is_digit(#[trigger] decimal_bytes(n)[i]),
    decreases n,
{
    if n >= 10 {
        lemma_decimal_ascii(n / 10);
        let a = decimal(n / 10);
        let b = seq![digit_char(n % 10)];
        let ab = decimal_bytes(n / 10);
        let bb = seq![(n % 10 + 0x30) as u8];
        assert forall|i: int| 0 <= i < decimal(n).len() implies #[trigger] decimal(n)[i] as u8 == decimal_bytes(n)[i] by {
            if i < a.len() {
                assert(decimal(n)[i] == a[i]);
                assert(decimal_bytes(n)[i] == ab[i]);
            } else {
                assert(decimal(n)[i] == b[0]);
                assert(decimal_bytes(n)[i] == bb[0]);
            }
        }
        assert forall|i: int| 0 <= i < decimal(n).len() implies '\0' <= #[trigger] decimal(n)[i] <= '\u{7f}' by {
            if i < a.len() {
                assert(decimal(n)[i] == a[i]);
            } else {
                assert(decimal(n)[i] == b[0]);
            }
        }
        assert forall|i: int| 0 <= i < decimal_bytes(n).len() implies is_digit(#[trigger] decimal_bytes(n)[i]) by {
            if i < ab.len() {
                assert(decimal_bytes(n)[i] == ab[i]);
            } else {
                assert(decimal_bytes(n)[i] == bb[0]);
            }
        }
    }
}

/// UTF-8 encoding distributes over concatenation.
pub proof fn lemma_encode_concat(a: Seq<char>, b: Seq<char>)
    ensures
        encode_utf8(a + b) == encode_utf8(a) + encode_utf8(b),
    decreases a.len(),
{
    if a.len() == 0 {
        assert(a + b =~= b);
    } else {
        lemma_encode_concat(a.drop_first(), b);
        assert((a + b).drop_first() =~= a.drop_first() + b);
        assert(encode_utf8(a + b) =~= encode_scalar(a[0] as u32) + encode_utf8(a.drop_first() + b));
    }
}

/// Scanning a concatenation scans the first part, then goes on with the
/// second part from where the first one left off.
pub proof fn lemma_scan_concat(a: Seq<u8>, b: Seq<u8>, neg: bool, lo: int, hi: int, acc: int)
    ensures
        scan_digits(a + b, neg, lo, hi, acc) == match scan_digits(a, neg, lo, hi, acc) {
            Ok(x) => scan_digits(b, neg, lo, hi, x),
            Err(k) => Err(k),
        },
    decreases a.len(),
{
    if a.len() == 0 {
        assert(a + b =~= b);
    } else {
        assert((a + b).skip(1) =~= a.skip(1) + b);
        assert((a + b)[0] == a[0]);
        let next = if neg {
            acc * 10 - (a[0] - 0x30)
        } else {
            acc * 10 + (a[0] - 0x30)
        };
        lemma_scan_concat(a.skip(1), b, neg, lo, hi, next);
    }
}

/// The digits of `n` scan back to `n` (or `-n` when `neg`) whenever that
/// value lies in `lo..=hi`.
pub proof fn lemma_scan_decimal(n: nat, neg: bool, lo: int, hi: int)
    requires
        lo <= 0 <= hi,
        neg ==> lo <= -n,
        !neg ==> n <= hi,
    ensures
        scan_digits(decimal_bytes(n), neg, lo, hi, 0) == Ok::<int, IntErrorKind>(
            if neg {
                -n
            } else {
                n as int
            },
        ),
    decreases n,
{
    if n < 10 {
        let d = decimal_bytes(n);
        assert(d[0] - 0x30 == n);
        assert(d.skip(1).len() == 0);
        let next: int = if neg { 0 * 10 - n } else { (0 * 10 + n) as int };
        assert(scan_digits(d.skip(1), neg, lo, hi, next) == Ok::<int, IntErrorKind>(next));
    } else {
        let q = (n / 10) as int;
        let r = (n % 10) as int;
        lemma_scan_decimal(q as nat, neg, lo, hi);
        let last = seq![(n % 10 + 0x30) as u8];
        assert(decimal_bytes(n) == decimal_bytes(q as nat) + last);
        lemma_scan_concat(decimal_bytes(q as nat), last, neg, lo, hi, 0);
        assert(last.skip(1).len() == 0);
        assert(q * 10 + r == n) by (nonlinear_arith)
            requires
                q == n / 10,
                r == n % 10,
        ;
        assert(last[0] - 0x30 == r);
        assert((-q) * 10 - r == -n) by (nonlinear_arith)
            requires
                q * 10 + r == n,
        ;
        let acc: int = if neg { -q } else { q };
        let next: int = if neg { acc * 10 - r } else { acc * 10 + r };
        assert(next == if neg { -n } else { n as int });
        assert(scan_digits(last.skip(1), neg, lo, hi, next) == Ok::<int, IntErrorKind>(next));
        assert(scan_digits(last, neg, lo, hi, acc) == Ok::<int, IntErrorKind>(next));
    }
}

/// Reading back a written decimal gives the number: the law that
/// `parse_int` undoes `signed_decimal` for every value of the range.
pub proof fn law_integer_roundtrip(v: int, signed: bool, lo: int, hi: int)
    requires
        lo <= 0 <= hi,
        lo <= v <= hi,
        !signed ==> v >= 0,
    ensures
        parse_int(encode_utf8(signed_decimal(v)), signed, lo, hi) == Ok::<int, IntErrorKind>(v),
{
    if v < 0 {
        let n = (-v) as nat;
        lemma_decimal_bytes(n);
        lemma_encode_concat(seq!['-'], decimal(n));
        reveal_with_fuel(encode_utf8, 2);
        let s = encode_utf8(signed_decimal(v));
        assert(is_ascii_chars(seq!['-']));
        is_ascii_chars_encode_utf8(seq!['-']);
        assert(encode_utf8(seq!['-']) =~= seq![MINUS]);
        assert(s =~= seq![MINUS] + decimal_bytes(n));
        assert(s.skip(1) =~= decimal_bytes(n));
        lemma_scan_decimal(n, true, lo, hi);
    } else {
        let n = v as nat;
        lemma_decimal_bytes(n);
        lemma_scan_decimal(n, false, lo, hi);
        let s = decimal_bytes(n);
        assert(is_digit(s[0]));
    }
}

/// `k` zero digits.
pub open spec fn zeros(k: nat) -> Seq<u8> {
    Seq::new(k, |i: int| 0x30u8)
}

/// Zero digits scan to zero.
pub proof fn lemma_scan_zeros(k: nat, neg: bool, lo: int, hi: int)
    requires
        lo <= 0 <= hi,
    ensures
        scan_digits(zeros(k), neg, lo, hi, 0) == Ok::<int, IntErrorKind>(0),
    decreases k,
{
    if k > 0 {
        assert(zeros(k).skip(1) =~= zeros((k - 1) as nat));
        lemma_scan_zeros((k - 1) as nat, neg, lo, hi);
    }
}

/// The digits of `n` scan to `n` (or `-n`) when it is in range, and to the
/// overflow on that side otherwise.
pub proof fn lemma_scan_decimal_any(n: nat, neg: bool, lo: int, hi: int)
    requires
        lo <= 0 <= hi,
    ensures
        scan_digits(decimal_bytes(n), neg, lo, hi, 0) == if neg {
            if lo <= -n {
                Ok::<int, IntErrorKind>(-n)
            } else {
                Err(IntErrorKind::NegOverflow)
            }
        } else {
            if n <= hi {
                Ok::<int, IntErrorKind>(n as int)
            } else {
                Err(IntErrorKind::PosOverflow)
            }
        },
    decreases n,
{
    if n < 10 {
        let d = decimal_bytes(n);
        assert(d.len() == 1);
        assert(d[0] - 0x30 == n);
        assert(d.skip(1).len() == 0);
        let next: int = if neg {
            0 * 10 - n
        } else {
            (0 * 10 + n) as int
        };
        assert(scan_digits(d.skip(1), neg, lo, hi, next) == Ok::<int, IntErrorKind>(next));
    } else {
        let q = (n / 10) as int;
        let r = (n % 10) as int;
        lemma_scan_decimal_any(q as nat, neg, lo, hi);
        let last = seq![(n % 10 + 0x30) as u8];
        assert(decimal_bytes(n) == decimal_bytes(q as nat) + last);
        lemma_scan_concat(decimal_bytes(q as nat), last, neg, lo, hi, 0);
        assert(last.skip(1).len() == 0);
        assert(q * 10 + r == n) by (nonlinear_arith)
            requires
                q == n / 10,
                r == n % 10,
        ;
        assert(last[0] - 0x30 == r);
        assert((-q) * 10 - r == -n) by (nonlinear_arith)
            requires
                q * 10 + r == n,
        ;
        assert(n >= q);
        let in_range = if neg {
            lo <= -q
        } else {
            q <= hi
        };
        if in_range {
            let acc: int = if neg {
                -q
            } else {
                q
            };
            let next: int = if neg {
                acc * 10 - r
            } else {
                acc * 10 + r
            };
            assert(next == if neg {
                -n
            } else {
                n as int
            });
            assert(scan_digits(last.skip(1), neg, lo, hi, next) == Ok::<int, IntErrorKind>(next));
        }
    }
}

/// Law: integer text is read as `str::parse` reads it: any number of
/// leading zeros and an optional '+' (or '-' for a signed type) before the
/// digits, the value when it is in range, and the overflow on its side
/// when it is not.
pub proof fn law_integer_text(k: nat, n: nat, signed: bool, lo: int, hi: int)
    requires
        lo <= 0 <= hi,
    ensures
        parse_int(zeros(k) + decimal_bytes(n), signed, lo, hi) == if n <= hi {
            Ok::<int, IntErrorKind>(n as int)
        } else {
            Err(IntErrorKind::PosOverflow)
        },
        parse_int(seq![PLUS] + zeros(k) + decimal_bytes(n), signed, lo, hi) == if n <= hi {
            Ok::<int, IntErrorKind>(n as int)
        } else {
            Err(IntErrorKind::PosOverflow)
        },
        signed ==> parse_int(seq![MINUS] + zeros(k) + decimal_bytes(n), signed, lo, hi) == if lo
            <= -n {
            Ok::<int, IntErrorKind>(-n)
        } else {
            Err(IntErrorKind::NegOverflow)
        },
{
    lemma_decimal_bytes(n);
    let d = decimal_bytes(n);
    let z = zeros(k);
    lemma_scan_zeros(k, false, lo, hi);
    lemma_scan_zeros(k, true, lo, hi);
    lemma_scan_concat(z, d, false, lo, hi, 0);
    lemma_scan_concat(z, d, true, lo, hi, 0);
    lemma_scan_decimal_any(n, false, lo, hi);
    lemma_scan_decimal_any(n, true, lo, hi);
    let s0 = z + d;
    assert(s0.len() >= 1);
    if k > 0 {
        assert(s0[0] == 0x30u8);
    } else {
        assert(s0 =~= d);
        assert(is_digit(d[0]));
    }
    let s1 = seq![PLUS] + z + d;
    assert(s1.skip(1) =~= z + d);
    let s2 = seq![MINUS] + z + d;
    assert(s2.skip(1) =~= z + d);
}

} // verus!
