//! Numbers of the language: IEEE binary64 values, held as their 64-bit
//! patterns. Every operation on them (parsing a literal, rendering, the five
//! arithmetic operators, converting a length) is done by `rustc_apfloat`,
//! a pure, deterministic software implementation of IEEE 754, behind the
//! trusted wrappers below. Each wrapper's result is named by an
//! uninterpreted spec function of the bit patterns alone. On top of the
//! wrappers, verified code enforces the language's own literal grammar
//! before any parse, and re-renders the scientific notation the outside
//! crate produces into plain positional decimal text.

use rustc_apfloat::Float;
use vstd::prelude::*;

use vstd::string::StrSliceExecFns;
use vstd::string::StringExecFns;

verus! {

/// Bit pattern of the binary64 value +1.0.
pub const ONE_BITS: u64 = 0x3FF0_0000_0000_0000;

/// Bit pattern of the quiet NaN without payload, the one value that
/// `parse_num` gives back for the text `NaN`.
pub const QNAN_BITS: u64 = 0x7FF8_0000_0000_0000;

/// Bit pattern of the quiet NaN with the sign bit set, which a literal
/// `-nan` denotes.
pub const NEG_QNAN_BITS: u64 = 0xFFF8_0000_0000_0000;

/// Bit pattern of positive infinity.
pub const POS_INF_BITS: u64 = 0x7FF0_0000_0000_0000;

/// Bit pattern of negative infinity.
pub const NEG_INF_BITS: u64 = 0xFFF0_0000_0000_0000;

/// A binary64 bit pattern is a NaN when the exponent field is all ones and
/// the significand field is not zero.
pub open spec fn bits_is_nan(b: u64) -> bool {
    (b >> 52) & 0x7FF == 0x7FF && b & 0x000F_FFFF_FFFF_FFFF != 0
}

/// A binary64 bit pattern is an infinity when the exponent field is all
/// ones and the significand field is zero.
pub open spec fn bits_is_inf(b: u64) -> bool {
    b == POS_INF_BITS || b == NEG_INF_BITS
}

/// The parse result for a token text: the bit pattern of the nearest
/// binary64 value, or `None` when the text is not a numeric literal.
pub uninterp spec fn parse_num(s: Seq<char>) -> Option<u64>;

/// The scientific rendering of a binary64 bit pattern with the given count
/// of significant digits.
pub uninterp spec fn render_sci(b: u64, digits: u8) -> Seq<char>;

/// An ASCII decimal digit.
pub open spec fn is_digit_char(c: char) -> bool {
    '0' as u32 <= c as u32 <= '9' as u32
}

/// The text with one leading sign character dropped.
pub open spec fn strip_sign(s: Seq<char>) -> Seq<char> {
    if s.len() > 0 && (s[0] == '+' || s[0] == '-') {
        s.subrange(1, s.len() as int)
    } else {
        s
    }
}

/// Whether the text carries a leading minus sign.
pub open spec fn is_neg(s: Seq<char>) -> bool {
    s.len() > 0 && s[0] == '-'
}

/// The word `inf`, in any letter case.
pub open spec fn ci_inf(u: Seq<char>) -> bool {
    u.len() == 3 && (u[0] == 'i' || u[0] == 'I') && (u[1] == 'n' || u[1] == 'N') && (u[2] == 'f'
        || u[2] == 'F')
}

/// The word `infinity`, in any letter case.
pub open spec fn ci_infinity(u: Seq<char>) -> bool {
    &&& u.len() == 8
    &&& (u[0] == 'i' || u[0] == 'I')
    &&& (u[1] == 'n' || u[1] == 'N')
    &&& (u[2] == 'f' || u[2] == 'F')
    &&& (u[3] == 'i' || u[3] == 'I')
    &&& (u[4] == 'n' || u[4] == 'N')
    &&& (u[5] == 'i' || u[5] == 'I')
    &&& (u[6] == 't' || u[6] == 'T')
    &&& (u[7] == 'y' || u[7] == 'Y')
}

/// The word `nan`, in any letter case.
pub open spec fn ci_nan(u: Seq<char>) -> bool {
    u.len() == 3 && (u[0] == 'n' || u[0] == 'N') && (u[1] == 'a' || u[1] == 'A') && (u[2] == 'n'
        || u[2] == 'N')
}

/// The first position of an exponent marker `e` or `E` at or after `i`,
/// or the length when there is none.
pub open spec fn find_marker(s: Seq<char>, i: int) -> int
    decreases s.len() - i,
{
    if i >= s.len() {
        s.len() as int
    } else if s[i] == 'e' || s[i] == 'E' {
        i
    } else {
        find_marker(s, i + 1)
    }
}

/// A mantissa: digits with at most one dot among them, at least one digit.
pub open spec fn is_mantissa(m: Seq<char>) -> bool {
    &&& m.len() > 0
    &&& forall|i: int| 0 <= i < m.len() ==> (is_digit_char(#[trigger] m[i]) || m[i] == '.')
    &&& forall|i: int, j: int|
        #![trigger m[i], m[j]]
        0 <= i < j < m.len() && m[i] == '.' ==> m[j] != '.'
    &&& exists|i: int| 0 <= i < m.len() && is_digit_char(#[trigger] m[i])
}

/// An exponent: an optional sign and at least one digit.
pub open spec fn is_exp_part(x: Seq<char>) -> bool {
    let d = strip_sign(x);
    d.len() > 0 && forall|i: int| 0 <= i < d.len() ==> is_digit_char(#[trigger] d[i])
}

/// A decimal number (no sign): a mantissa, optionally followed by an
/// exponent marker and an exponent.
pub open spec fn is_decimal_number(u: Seq<char>) -> bool {
    let k = find_marker(u, 0);
    if k == u.len() {
        is_mantissa(u)
    } else {
        is_mantissa(u.subrange(0, k)) && is_exp_part(u.subrange(k + 1, u.len() as int))
    }
}

/// Whether the text, after an optional sign, opens like a hexadecimal
/// literal.
pub open spec fn hex_prefixed(s: Seq<char>) -> bool {
    let u = strip_sign(s);
    u.len() >= 2 && u[0] == '0' && (u[1] == 'x' || u[1] == 'X')
}

/// The numeric value a text denotes under the language's literal grammar
/// (an optional sign, then `inf`/`infinity`/`nan` in any case or a decimal
/// number), or `None` when the text is no numeric literal. Texts outside
/// the grammar, a hexadecimal form among them, never reach the parser.
pub open spec fn value_of_literal(s: Seq<char>) -> Option<u64> {
    let u = strip_sign(s);
    if ci_inf(u) || ci_infinity(u) {
        Some(
            if is_neg(s) {
                NEG_INF_BITS
            } else {
                POS_INF_BITS
            },
        )
    } else if ci_nan(u) {
        Some(
            if is_neg(s) {
                NEG_QNAN_BITS
            } else {
                QNAN_BITS
            },
        )
    } else if is_decimal_number(u) {
        parse_num(s)
    } else {
        None
    }
}

/// The text "NaN", which every NaN renders to.
pub open spec fn nan_text() -> Seq<char> {
    "NaN"@
}

/// The rendering of an infinity: `inf`, with the sign.
pub open spec fn inf_text(b: u64) -> Seq<char> {
    if b == NEG_INF_BITS {
        "-inf"@
    } else {
        "inf"@
    }
}

/// The characters a rendered number is made of: digits, sign, dot, the
/// exponent marker `E`, and the letters of `inf`, `Inf` and `NaN`.
pub open spec fn render_char(c: char) -> bool {
    ||| is_digit_char(c)
    ||| c == '.'
    ||| c == '-'
    ||| c == '+'
    ||| c == 'E'
    ||| c == 'I'
    ||| c == 'i'
    ||| c == 'n'
    ||| c == 'f'
    ||| c == 'N'
    ||| c == 'a'
}

/// The shape of the scientific rendering of a finite value: an optional
/// minus, one digit, a dot, at least one fraction digit, the marker `E`, a
/// sign, and one to three exponent digits.
pub open spec fn sci_shape(s: Seq<char>) -> bool {
    let u = strip_sign(s);
    let k = find_marker(u, 0);
    &&& (s.len() == u.len() || s[0] == '-')
    &&& 3 <= k
    &&& k + 3 <= u.len() <= k + 5
    &&& is_digit_char(u[0])
    &&& u[1] == '.'
    &&& forall|i: int| 2 <= i < k ==> is_digit_char(#[trigger] u[i])
    &&& (u[k + 1] == '+' || u[k + 1] == '-')
    &&& forall|i: int| k + 2 <= i < u.len() ==> is_digit_char(#[trigger] u[i])
}

/// A fraction with its trailing zeros dropped.
pub open spec fn trim_zeros(s: Seq<char>) -> Seq<char>
    decreases s.len(),
{
    if s.len() > 0 && s[s.len() - 1] == '0' {
        trim_zeros(s.subrange(0, s.len() - 1))
    } else {
        s
    }
}

/// A run of zero characters.
pub open spec fn zeros(n: int) -> Seq<char> {
    Seq::new(
        if n >= 0 {
            n as nat
        } else {
            0
        },
        |i: int| '0',
    )
}

/// The value of a run of decimal digits, folded onto an accumulator.
pub open spec fn digits_value(s: Seq<char>, i: int, acc: int) -> int
    decreases s.len() - i,
{
    if i >= s.len() {
        acc
    } else {
        digits_value(s, i + 1, acc * 10 + (s[i] as u32 - 48))
    }
}

/// The positional (never scientific) form of a scientific rendering: the
/// digits are kept, the exponent is folded into the position of the dot,
/// exactly as the language displays numbers. Text not of the scientific
/// shape passes through unchanged.
pub open spec fn positional_of(s: Seq<char>) -> Seq<char> {
    if !sci_shape(s) {
        s
    } else {
        let sign: Seq<char> = if is_neg(s) {
            seq!['-']
        } else {
            Seq::empty()
        };
        let u = strip_sign(s);
        let k = find_marker(u, 0);
        let head = seq![u[0]];
        let frac = trim_zeros(u.subrange(2, k));
        let ev = digits_value(u, k + 2, 0);
        let e: int = if u[k + 1] == '-' {
            -ev
        } else {
            ev
        };
        if e >= frac.len() {
            sign + head + frac + zeros(e - frac.len())
        } else if e >= 0 {
            sign + head + frac.subrange(0, e) + seq!['.'] + frac.subrange(e, frac.len() as int)
        } else {
            sign + seq!['0', '.'] + zeros(-e - 1) + head + frac
        }
    }
}

/// The smallest digit count from `p` up whose positional rendering parses
/// back to the very same bit pattern; 18 when none does.
pub open spec fn pick_digits(b: u64, p: int) -> int
    decreases 18 - p,
{
    if p >= 18 {
        18
    } else if parse_num(positional_of(render_sci(b, p as u8))) == Some(b) {
        p
    } else {
        pick_digits(b, p + 1)
    }
}

/// The rendering of a binary64 bit pattern: `NaN` for a NaN, `inf` or
/// `-inf` for an infinity, and otherwise the positional form with the
/// fewest significant digits that reads back to the very same value, the
/// full seventeen-digit scientific form standing as the fallback.
pub open spec fn render_num(b: u64) -> Seq<char> {
    if bits_is_nan(b) {
        render_sci(b, 17)
    } else if bits_is_inf(b) {
        if parse_num(inf_text(b)) == Some(b) {
            inf_text(b)
        } else {
            render_sci(b, 17)
        }
    } else if pick_digits(b, 1) <= 17 {
        positional_of(render_sci(b, pick_digits(b, 1) as u8))
    } else {
        render_sci(b, 17)
    }
}

/// Relies on rustc_apfloat's `Double::from_str_r` (round to nearest even):
/// a pure function of the text, with every failure reported as an error.
/// Only the hexadecimal branch of its parser could fail otherwise (an
/// exponent conversion on a token over two billion characters), so a
/// hexadecimal-shaped text is kept out by precondition; the callers all
/// hold the decimal grammar or the words `inf` and `NaN`, which never
/// reach that branch.
#[verifier::external_body]
pub(crate) fn parse_num_exec(s: &str) -> (r: Option<u64>)
    requires
        !hex_prefixed(s@),
    ensures
        r == parse_num(s@),
{
    match rustc_apfloat::ieee::Double::from_str_r(s, rustc_apfloat::Round::NearestTiesToEven) {
        Ok(sa) => Some(sa.value.to_bits() as u64),
        Err(_) => None,
    }
}

/// Relies on rustc_apfloat's `Display` for `Double` with a format width of
/// zero (always scientific) and an explicit significant-digit count: it
/// writes only the characters of `render_char`; every NaN prints `NaN`,
/// which `Double::from_str_r` reads back as the quiet NaN; the infinities
/// print `+Inf` and `-Inf`; every finite value prints in the shape of
/// `sci_shape` (one digit, a dot, fraction digits, `E`, a signed exponent
/// of at most three digits for binary64); and at seventeen digits, as its
/// source states, the rendering reads back to the very same value.
#[verifier::external_body]
pub(crate) fn render_sci_exec(b: u64, digits: u8) -> (r: String)
    ensures
        r@ == render_sci(b, digits),
        r@.len() > 0,
        forall|i: int| 0 <= i < r@.len() ==> render_char(#[trigger] r@[i]),
        digits == 17 ==> parse_num(r@) == Some(
            if bits_is_nan(b) {
                QNAN_BITS
            } else {
                b
            },
        ),
        bits_is_nan(b) ==> r@ == nan_text() && parse_num(r@) == Some(QNAN_BITS),
        b == POS_INF_BITS ==> r@ == "+Inf"@,
        b == NEG_INF_BITS ==> r@ == "-Inf"@,
        !bits_is_nan(b) && !bits_is_inf(b) ==> sci_shape(r@),
{
    format!("{:w$.p$}", rustc_apfloat::ieee::Double::from_bits(b as u128), w = 0usize, p = digits as usize)
}

/// Relies on rustc_apfloat's `Double` addition (round to nearest even).
#[verifier::external_body]
pub(crate) fn add_bits_exec(a: u64, b: u64) -> (r: u64)
    ensures
        r == add_bits(a, b),
{
    let x = rustc_apfloat::ieee::Double::from_bits(a as u128);
    let y = rustc_apfloat::ieee::Double::from_bits(b as u128);
    (x + y).value.to_bits() as u64
}

/// Relies on rustc_apfloat's `Double` subtraction (round to nearest even).
#[verifier::external_body]
pub(crate) fn sub_bits_exec(a: u64, b: u64) -> (r: u64)
    ensures
        r == sub_bits(a, b),
{
    let x = rustc_apfloat::ieee::Double::from_bits(a as u128);
    let y = rustc_apfloat::ieee::Double::from_bits(b as u128);
    (x - y).value.to_bits() as u64
}

/// Relies on rustc_apfloat's `Double` multiplication (round to nearest even).
#[verifier::external_body]
pub(crate) fn mul_bits_exec(a: u64, b: u64) -> (r: u64)
    ensures
        r == mul_bits(a, b),
{
    let x = rustc_apfloat::ieee::Double::from_bits(a as u128);
    let y = rustc_apfloat::ieee::Double::from_bits(b as u128);
    (x * y).value.to_bits() as u64
}

/// Relies on rustc_apfloat's `Double` division (round to nearest even).
#[verifier::external_body]
pub(crate) fn div_bits_exec(a: u64, b: u64) -> (r: u64)
    ensures
        r == div_bits(a, b),
{
    let x = rustc_apfloat::ieee::Double::from_bits(a as u128);
    let y = rustc_apfloat::ieee::Double::from_bits(b as u128);
    (x / y).value.to_bits() as u64
}

/// Relies on rustc_apfloat's `Double::c_fmod`: the C `fmod` remainder,
/// which is what `%` means on binary64 values.
#[verifier::external_body]
pub(crate) fn rem_bits_exec(a: u64, b: u64) -> (r: u64)
    ensures
        r == rem_bits(a, b),
{
    let x = rustc_apfloat::ieee::Double::from_bits(a as u128);
    let y = rustc_apfloat::ieee::Double::from_bits(b as u128);
    (x % y).value.to_bits() as u64
}

/// Relies on rustc_apfloat's `Double::from_u128_r`: the nearest binary64
/// value to an unsigned integer (round to nearest even).
#[verifier::external_body]
pub(crate) fn num_of_usize_exec(n: usize) -> (r: u64)
    ensures
        r == num_of_int(n as int),
{
    rustc_apfloat::ieee::Double::from_u128_r(n as u128, rustc_apfloat::Round::NearestTiesToEven)
        .value
        .to_bits() as u64
}

/// Sum of two binary64 values, rounded to nearest even, as bit patterns.
pub uninterp spec fn add_bits(a: u64, b: u64) -> u64;

/// Difference of two binary64 values, as bit patterns.
pub uninterp spec fn sub_bits(a: u64, b: u64) -> u64;

/// Product of two binary64 values, as bit patterns.
pub uninterp spec fn mul_bits(a: u64, b: u64) -> u64;

/// Quotient of two binary64 values, as bit patterns.
pub uninterp spec fn div_bits(a: u64, b: u64) -> u64;

/// Remainder (C `fmod`) of two binary64 values, as bit patterns.
pub uninterp spec fn rem_bits(a: u64, b: u64) -> u64;

/// The nearest binary64 value to an unsigned integer, as a bit pattern.
pub uninterp spec fn num_of_int(n: int) -> u64;

} // verus!
