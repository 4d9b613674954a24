//! Verified code over the trusted numeric layer: the literal grammar of
//! the language (checked before any text reaches the outside parser), and
//! the positional re-rendering of the scientific notation the outside
//! crate produces, so that numbers display in plain decimal.

use vstd::prelude::*;

use crate::num::NEG_INF_BITS;
use crate::num::NEG_QNAN_BITS;
use crate::num::POS_INF_BITS;
use crate::num::QNAN_BITS;
use crate::num::bits_is_inf;
use crate::num::bits_is_nan;
use crate::num::ci_inf;
use crate::num::ci_infinity;
use crate::num::ci_nan;
use crate::num::digits_value;
use crate::num::find_marker;
use crate::num::hex_prefixed;
use crate::num::inf_text;
use crate::num::is_decimal_number;
use crate::num::is_digit_char;
use crate::num::is_exp_part;
use crate::num::is_mantissa;
use crate::num::is_neg;
use crate::num::parse_num;
use crate::num::parse_num_exec;
use crate::num::pick_digits;
use crate::num::positional_of;
use crate::num::render_char;
use crate::num::render_num;
use crate::num::render_sci_exec;
use crate::num::sci_shape;
use crate::num::strip_sign;
use crate::num::trim_zeros;
use crate::num::value_of_literal;
use crate::num::zeros;
use vstd::string::StrSliceExecFns;
use vstd::string::StringExecFns;

verus! {

broadcast use vstd::seq::group_seq_axioms;

/// Where the first exponent marker stands, and that nothing before it is
/// one.
proof fn lemma_find_marker(s: Seq<char>, i: int)
    requires
        0 <= i <= s.len(),
    ensures
        i <= find_marker(s, i) <= s.len(),
        find_marker(s, i) < s.len() ==> (s[find_marker(s, i)] == 'e' || s[find_marker(s, i)]
            == 'E'),
        forall|j: int| i <= j < find_marker(s, i) ==> !(#[trigger] s[j] == 'e' || s[j] == 'E'),
    decreases s.len() - i,
{
    if i < s.len() && !(s[i] == 'e' || s[i] == 'E') {
        lemma_find_marker(s, i + 1);
    }
}

/// A text without exponent markers has none to find.
proof fn lemma_find_marker_none(s: Seq<char>)
    requires
        forall|j: int| 0 <= j < s.len() ==> !(#[trigger] s[j] == 'e' || s[j] == 'E'),
    ensures
        find_marker(s, 0) == s.len(),
{
    lemma_find_marker(s, 0);
    if find_marker(s, 0) < s.len() {
        assert(s[find_marker(s, 0)] == 'e' || s[find_marker(s, 0)] == 'E');
    }
}

/// Find the first exponent marker at or after `from`.
#[verifier::loop_isolation(false)]
fn scan_marker(s: &str, from: usize) -> (r: usize)
    requires
        from <= s@.len(),
    ensures
        from <= r <= s@.len(),
        r - from == find_marker(s@.subrange(from as int, s@.len() as int), 0),
{
    let ghost u = s@.subrange(from as int, s@.len() as int);
    let n = s.unicode_len();
    let mut i: usize = from;
    while i < n
        invariant
            from <= i <= n,
            find_marker(u, 0) == find_marker(u, i - from),
        decreases n - i,
    {
        let c = s.get_char(i);
        proof {
            assert(u[i - from] == s@[i as int]);
        }
        if c == 'e' || c == 'E' {
            proof {
                assert(find_marker(u, i - from) == i - from);
            }
            return i;
        }
        proof {
            assert(find_marker(u, i - from) == find_marker(u, i - from + 1));
        }
        i = i + 1;
    }
    proof {
        assert(find_marker(u, n - from) == u.len());
    }
    n
}

/// Whether a character range is a mantissa: digits with at most one dot,
/// at least one digit.
#[verifier::loop_isolation(false)]
fn check_mantissa(s: &str, from: usize, to: usize) -> (r: bool)
    requires
        from <= to <= s@.len(),
    ensures
        r == is_mantissa(s@.subrange(from as int, to as int)),
{
    let ghost m = s@.subrange(from as int, to as int);
    if from == to {
        return false;
    }
    let mut any_digit = false;
    let mut dot_seen = false;
    let ghost mut dot_at: int = 0;
    let mut i: usize = from;
    while i < to
        invariant
            from <= i <= to,
            any_digit == exists|j: int| 0 <= j < i - from && is_digit_char(#[trigger] m[j]),
            dot_seen == exists|j: int| 0 <= j < i - from && #[trigger] m[j] == '.',
            dot_seen ==> 0 <= dot_at < i - from && m[dot_at] == '.',
            forall|j: int| 0 <= j < i - from ==> (is_digit_char(#[trigger] m[j]) || m[j] == '.'),
            forall|j: int| 0 <= j < i - from && #[trigger] m[j] == '.' ==> j == dot_at,
        decreases to - i,
    {
        let c = s.get_char(i);
        proof {
            assert(m[i - from] == s@[i as int]);
        }
        let cu = c as u32;
        if 48 <= cu && cu <= 57 {
            any_digit = true;
            proof {
                assert(is_digit_char(m[i - from]));
            }
        } else if c == '.' {
            if dot_seen {
                proof {
                    assert(m[dot_at] == '.' && m[i - from] == '.' && dot_at < i - from);
                    assert(!is_mantissa(m));
                }
                return false;
            }
            dot_seen = true;
            proof {
                dot_at = i - from;
            }
        } else {
            proof {
                assert(!(is_digit_char(m[i - from]) || m[i - from] == '.'));
                assert(!is_mantissa(m));
            }
            return false;
        }
        i = i + 1;
    }
    proof {
        if any_digit {
            assert forall|a: int, b: int|
                #![trigger m[a], m[b]]
                0 <= a < b < m.len() && m[a] == '.' implies m[b] != '.' by {}
            assert(is_mantissa(m));
        } else {
            assert(!is_mantissa(m));
        }
    }
    any_digit
}

/// Whether a character range is an exponent: an optional sign, then at
/// least one digit.
#[verifier::loop_isolation(false)]
fn check_exp(s: &str, from: usize, to: usize) -> (r: bool)
    requires
        from <= to <= s@.len(),
    ensures
        r == is_exp_part(s@.subrange(from as int, to as int)),
{
    let ghost x = s@.subrange(from as int, to as int);
    if from == to {
        return false;
    }
    let c0 = s.get_char(from);
    let dstart: usize = if c0 == '+' || c0 == '-' {
        from + 1
    } else {
        from
    };
    let ghost d = strip_sign(x);
    proof {
        assert(x[0] == s@[from as int]);
        assert(d =~= s@.subrange(dstart as int, to as int));
    }
    if dstart == to {
        return false;
    }
    let mut i: usize = dstart;
    while i < to
        invariant
            dstart <= i <= to,
            forall|j: int| 0 <= j < i - dstart ==> is_digit_char(#[trigger] d[j]),
        decreases to - i,
    {
        let c = s.get_char(i);
        proof {
            assert(d[i - dstart] == s@[i as int]);
        }
        let cu = c as u32;
        if !(48 <= cu && cu <= 57) {
            proof {
                assert(!is_digit_char(d[i - dstart]));
            }
            return false;
        }
        i = i + 1;
    }
    true
}

/// The numeric value a text denotes under the language's literal grammar:
/// a signed `inf`, `infinity` or `nan` in any letter case, or a signed
/// decimal number (handed to the parser), or nothing.
#[verifier::loop_isolation(false)]
pub fn literal_value(s: &str) -> (r: Option<u64>)
    ensures
        r == value_of_literal(s@),
{
    let n = s.unicode_len();
    if n == 0 {
        return None;
    }
    let c0 = s.get_char(0);
    let off: usize = if c0 == '+' || c0 == '-' {
        1
    } else {
        0
    };
    let neg = c0 == '-';
    let ghost u = strip_sign(s@);
    proof {
        assert(u =~= s@.subrange(off as int, n as int));
    }
    let ulen = n - off;
    if ulen == 3 {
        let a = s.get_char(off);
        let b = s.get_char(off + 1);
        let c = s.get_char(off + 2);
        proof {
            assert(u[0] == s@[off as int] && u[1] == s@[off + 1] && u[2] == s@[off + 2]);
        }
        if (a == 'i' || a == 'I') && (b == 'n' || b == 'N') && (c == 'f' || c == 'F') {
            return Some(
                if neg {
                    NEG_INF_BITS
                } else {
                    POS_INF_BITS
                },
            );
        }
        if (a == 'n' || a == 'N') && (b == 'a' || b == 'A') && (c == 'n' || c == 'N') {
            return Some(
                if neg {
                    NEG_QNAN_BITS
                } else {
                    QNAN_BITS
                },
            );
        }
    }
    if ulen == 8 {
        let ok = (s.get_char(off) == 'i' || s.get_char(off) == 'I') && (s.get_char(off + 1) == 'n'
            || s.get_char(off + 1) == 'N') && (s.get_char(off + 2) == 'f' || s.get_char(off + 2)
            == 'F') && (s.get_char(off + 3) == 'i' || s.get_char(off + 3) == 'I') && (s.get_char(
            off + 4,
        ) == 'n' || s.get_char(off + 4) == 'N') && (s.get_char(off + 5) == 'i' || s.get_char(
            off + 5,
        ) == 'I') && (s.get_char(off + 6) == 't' || s.get_char(off + 6) == 'T') && (s.get_char(
            off + 7,
        ) == 'y' || s.get_char(off + 7) == 'Y');
        proof {
            assert(forall|j: int| 0 <= j < 8 ==> u[j] == s@[off + j]);
        }
        if ok {
            return Some(
                if neg {
                    NEG_INF_BITS
                } else {
                    POS_INF_BITS
                },
            );
        }
    }
    let k = scan_marker(s, off);
    proof {
        assert(find_marker(u, 0) == k - off);
        lemma_find_marker(u, 0);
    }
    let mantissa_ok = check_mantissa(s, off, k);
    proof {
        assert(s@.subrange(off as int, k as int) =~= u.subrange(0, k - off));
    }
    let decimal_ok = if k == n {
        mantissa_ok
    } else {
        if !mantissa_ok {
            false
        } else {
            let e_ok = check_exp(s, k + 1, n);
            proof {
                assert(s@.subrange(k + 1, n as int) =~= u.subrange(k - off + 1, u.len() as int));
            }
            e_ok
        }
    };
    if decimal_ok {
        proof {
            assert(is_decimal_number(u));
            if hex_prefixed(s@) {
                assert(u.len() >= 2 && u[0] == '0' && (u[1] == 'x' || u[1] == 'X'));
                if k - off >= 2 {
                    assert(is_digit_char(u[1]) || u[1] == '.');
                } else {
                    assert(k - off == find_marker(u, 0));
                    if k - off == 1 {
                        assert(u[1] == 'e' || u[1] == 'E');
                    } else {
                        assert(u.subrange(0, 0).len() == 0);
                        assert(!is_mantissa(u.subrange(0, 0)));
                    }
                }
            }
        }
        parse_num_exec(s)
    } else {
        None
    }
}

/// Trimming trailing zeros keeps a prefix of the text.
proof fn lemma_trim_zeros_prefix(s: Seq<char>)
    ensures
        trim_zeros(s).len() <= s.len(),
        forall|i: int| 0 <= i < trim_zeros(s).len() ==> trim_zeros(s)[i] == s[i],
    decreases s.len(),
{
    if s.len() > 0 && s[s.len() - 1] == '0' {
        let h = s.subrange(0, s.len() - 1);
        lemma_trim_zeros_prefix(h);
        assert(trim_zeros(s) == trim_zeros(h));
        assert forall|i: int| 0 <= i < trim_zeros(s).len() implies trim_zeros(s)[i] == s[i] by {
            assert(trim_zeros(h)[i] == h[i]);
            assert(h[i] == s[i]);
        }
    }
}

/// Append a run of zero characters.
#[verifier::loop_isolation(false)]
fn append_zeros(out: &mut String, n: usize)
    ensures
        final(out)@ == old(out)@ + zeros(n as int),
{
    let mut j: usize = 0;
    proof {
        reveal_strlit("0");
        assert(old(out)@ + zeros(0) =~= old(out)@);
    }
    while j < n
        invariant
            j <= n,
            out@ == old(out)@ + zeros(j as int),
        decreases n - j,
    {
        out.append("0");
        proof {
            assert(zeros(j + 1) =~= zeros(j as int) + "0"@);
            assert(old(out)@ + zeros(j as int) + "0"@ =~= old(out)@ + zeros(j + 1));
        }
        j = j + 1;
    }
}

/// The positional form of a scientific rendering.
#[verifier::loop_isolation(false)]
#[verifier::rlimit(60)]
fn to_positional(s: &str) -> (r: String)
    requires
        sci_shape(s@),
    ensures
        r@ == positional_of(s@),
{
    let n = s.unicode_len();
    let c0 = s.get_char(0);
    let neg = c0 == '-';
    let off: usize = if neg {
        1
    } else {
        0
    };
    let ghost u = strip_sign(s@);
    proof {
        assert(u =~= s@.subrange(off as int, n as int));
    }
    let ka = scan_marker(s, off);
    let ghost k = ka - off;
    proof {
        assert(find_marker(u, 0) == k);
        lemma_find_marker(u, 0);
    }
    let mut fe: usize = ka;
    while fe > off + 2 && s.get_char(fe - 1) == '0'
        invariant
            off + 2 <= fe <= ka,
            trim_zeros(u.subrange(2, k)) == trim_zeros(u.subrange(2, fe - off)),
        decreases fe,
    {
        proof {
            assert(u[fe - off - 1] == s@[fe - 1]);
            assert(u.subrange(2, fe - off).subrange(0, fe - off - 2 - 1) =~= u.subrange(
                2,
                fe - off - 1,
            ));
        }
        fe = fe - 1;
    }
    let ghost frac = trim_zeros(u.subrange(2, k));
    proof {
        if fe > off + 2 {
            assert(u[fe - off - 1] == s@[fe - 1]);
            assert(u.subrange(2, fe - off)[fe - off - 2 - 1] != '0');
        } else {
            assert(u.subrange(2, fe - off).len() == 0);
        }
        assert(frac == u.subrange(2, fe - off));
    }
    let flen = fe - (off + 2);
    let em = s.get_char(ka + 1) == '-';
    proof {
        assert(u[k + 1] == s@[ka + 1]);
    }
    let mut ev: u32 = 0;
    let mut i: usize = ka + 2;
    proof {
        assert(u.len() == n - off);
        assert(n - (ka + 2) <= 3);
    }
    while i < n
        invariant
            ka + 2 <= i <= n,
            digits_value(u, k + 2, 0) == digits_value(u, i - off, ev as int),
            i - (ka + 2) == 0 ==> ev == 0,
            i - (ka + 2) == 1 ==> ev <= 9,
            i - (ka + 2) == 2 ==> ev <= 99,
            i - (ka + 2) == 3 ==> ev <= 999,
        decreases n - i,
    {
        let c = s.get_char(i);
        proof {
            assert(u[i - off] == s@[i as int]);
            assert(is_digit_char(u[i - off]));
        }
        let d = c as u32 - 48;
        ev = ev * 10 + d;
        i = i + 1;
    }
    proof {
        assert(digits_value(u, n - off, ev as int) == ev as int);
        assert(digits_value(u, k + 2, 0) == ev as int);
        assert(ev <= 999);
    }
    let mut out = String::new();
    if neg {
        out.append("-");
    }
    let ghost sign: Seq<char> = if is_neg(s@) {
        seq!['-']
    } else {
        Seq::<char>::empty()
    };
    proof {
        reveal_strlit("-");
        assert(out@ =~= sign);
    }
    let head = s.substring_char(off, off + 1);
    proof {
        assert(head@ =~= seq![u[0]]);
    }
    if !em || ev == 0 {
        let e = ev as usize;
        proof {
            assert((if u[k + 1] == '-' {
                -(ev as int)
            } else {
                ev as int
            }) == e as int);
        }
        if e >= flen {
            out.append(head);
            out.append(s.substring_char(off + 2, fe));
            proof {
                assert(s@.subrange(off + 2, fe as int) =~= frac);
            }
            append_zeros(&mut out, e - flen);
            proof {
                assert(out@ =~= sign + seq![u[0]] + frac + zeros(e - flen));
            }
        } else {
            out.append(head);
            out.append(s.substring_char(off + 2, off + 2 + e));
            out.append(".");
            out.append(s.substring_char(off + 2 + e, fe));
            proof {
                reveal_strlit(".");
                assert(s@.subrange(off + 2, off + 2 + e) =~= frac.subrange(0, e as int));
                assert(s@.subrange(off + 2 + e, fe as int) =~= frac.subrange(
                    e as int,
                    frac.len() as int,
                ));
                assert(out@ =~= sign + seq![u[0]] + frac.subrange(0, e as int) + seq!['.']
                    + frac.subrange(e as int, frac.len() as int));
            }
        }
    } else {
        out.append("0.");
        append_zeros(&mut out, (ev - 1) as usize);
        out.append(head);
        out.append(s.substring_char(off + 2, fe));
        proof {
            reveal_strlit("0.");
            assert((if u[k + 1] == '-' {
                -(ev as int)
            } else {
                ev as int
            }) == -(ev as int));
            assert(s@.subrange(off + 2, fe as int) =~= frac);
            assert("0."@ =~= seq!['0', '.']);
            assert(out@ =~= sign + seq!['0', '.'] + zeros(ev as int - 1) + seq![u[0]] + frac);
        }
    }
    out
}

/// A scientific rendering is itself a decimal literal of the grammar, and
/// is not hexadecimal-shaped.
proof fn lemma_sci_is_literal(s: Seq<char>)
    requires
        sci_shape(s),
    ensures
        value_of_literal(s) == parse_num(s),
        !hex_prefixed(s),
{
    let u = strip_sign(s);
    let k = find_marker(u, 0);
    lemma_find_marker(u, 0);
    assert(u.len() >= 6);
    assert(!ci_inf(u) && !ci_nan(u));
    assert(u[0] != 'i' && u[0] != 'I');
    assert(!ci_infinity(u));
    let m = u.subrange(0, k);
    assert(m[0] == u[0] && m[1] == u[1]);
    assert(forall|i: int| 0 <= i < m.len() ==> (is_digit_char(#[trigger] m[i]) || m[i] == '.'));
    assert forall|i: int, j: int|
        #![trigger m[i], m[j]]
        0 <= i < j < m.len() && m[i] == '.' implies m[j] != '.' by {
        if j >= 2 {
            assert(is_digit_char(m[j]));
        }
    }
    assert(is_mantissa(m));
    let x = u.subrange(k + 1, u.len() as int);
    assert(x[0] == u[k + 1]);
    let d = strip_sign(x);
    assert(d =~= u.subrange(k + 2, u.len() as int));
    assert(forall|i: int| 0 <= i < d.len() ==> is_digit_char(#[trigger] d[i]));
    assert(is_exp_part(x));
    assert(is_decimal_number(u));
    assert(u[1] == '.');
}

/// The positional form of a scientific rendering is a plain decimal
/// literal: non-empty, made of digits, at most one dot and an optional
/// leading minus, and therefore parsed, not treated as a word.
#[verifier::rlimit(100)]
proof fn lemma_positional_facts(s: Seq<char>)
    requires
        sci_shape(s),
    ensures
        positional_of(s).len() > 0,
        forall|i: int| 0 <= i < positional_of(s).len() ==> (is_digit_char(
            #[trigger] positional_of(s)[i],
        ) || positional_of(s)[i] == '.' || positional_of(s)[i] == '-'),
        value_of_literal(positional_of(s)) == parse_num(positional_of(s)),
        !hex_prefixed(positional_of(s)),
{
    let r = positional_of(s);
    let sign: Seq<char> = if is_neg(s) {
        seq!['-']
    } else {
        Seq::<char>::empty()
    };
    let u = strip_sign(s);
    let k = find_marker(u, 0);
    let head = seq![u[0]];
    let frac0 = u.subrange(2, k);
    let frac = trim_zeros(frac0);
    let ev = digits_value(u, k + 2, 0);
    let e: int = if u[k + 1] == '-' {
        -ev
    } else {
        ev
    };
    lemma_trim_zeros_prefix(frac0);
    assert forall|i: int| 0 <= i < frac.len() implies is_digit_char(#[trigger] frac[i]) by {
        assert(frac[i] == frac0[i]);
        assert(frac0[i] == u[2 + i]);
    }
    assert(is_digit_char(u[0]));
    let body: Seq<char> = if e >= frac.len() {
        head + frac + zeros(e - frac.len())
    } else if e >= 0 {
        head + frac.subrange(0, e) + seq!['.'] + frac.subrange(e, frac.len() as int)
    } else {
        seq!['0', '.'] + zeros(-e - 1) + head + frac
    };
    assert(r == sign + body);
    let dot_at: int = if e >= frac.len() {
        body.len() as int
    } else if e >= 0 {
        1 + e
    } else {
        1
    };
    assert(body.len() > 0);
    assert forall|i: int| 0 <= i < body.len() implies (is_digit_char(#[trigger] body[i]) || (i
        == dot_at && body[i] == '.')) by {
        if e >= frac.len() {
            if i < 1 {
            } else if i < 1 + frac.len() {
                assert(body[i] == frac[i - 1]);
            } else {
                assert(body[i] == zeros(e - frac.len())[i - 1 - frac.len()]);
            }
        } else if e >= 0 {
            if i < 1 {
            } else if i < 1 + e {
                assert(body[i] == frac.subrange(0, e)[i - 1]);
            } else if i == 1 + e {
            } else {
                assert(body[i] == frac.subrange(e, frac.len() as int)[i - 2 - e]);
            }
        } else {
            if i == 0 {
            } else if i == 1 {
            } else if i < 2 + (-e - 1) {
                assert(body[i] == zeros(-e - 1)[i - 2]);
            } else if i == 2 + (-e - 1) {
                assert(body[i] == u[0]);
            } else {
                assert(body[i] == frac[i - 3 - (-e - 1)]);
            }
        }
    }
    assert(is_digit_char(body[0]) || body[0] == '.');
    assert(body[0] != '+' && body[0] != '-');
    assert(strip_sign(r) =~= body);
    assert(!ci_inf(body) && !ci_infinity(body) && !ci_nan(body)) by {
        if body.len() == 3 {
            assert(!(is_digit_char(body[0]) && (body[0] == 'i' || body[0] == 'I' || body[0] == 'n'
                || body[0] == 'N')));
            assert(body[0] != '.');
        }
        if body.len() == 8 {
            assert(body[0] != 'i' && body[0] != 'I');
        }
    }
    assert(find_marker(body, 0) == body.len()) by {
        lemma_find_marker_none(body);
    }
    assert(is_mantissa(body)) by {
        assert(is_digit_char(body[0]));
        assert forall|a: int, b: int|
            #![trigger body[a], body[b]]
            0 <= a < b < body.len() && body[a] == '.' implies body[b] != '.' by {
            assert(a == dot_at);
            assert(is_digit_char(body[b]));
        }
    }
    assert(is_decimal_number(body));
    assert(value_of_literal(r) == parse_num(r));
    assert(!hex_prefixed(r)) by {
        if body.len() >= 2 && body[0] == '0' && (body[1] == 'x' || body[1] == 'X') {
            assert(is_digit_char(body[1]) || body[1] == '.');
        }
    }
    assert forall|i: int| 0 <= i < r.len() implies (is_digit_char(#[trigger] r[i]) || r[i] == '.'
        || r[i] == '-') by {
        if is_neg(s) {
            if i == 0 {
            } else {
                assert(r[i] == body[i - 1]);
            }
        } else {
            assert(r[i] == body[i]);
        }
    }
}

/// Render a number as the language displays it: `NaN`, a signed `inf`, or
/// the positional decimal with the fewest significant digits that reads
/// back to the very same bit pattern.
#[verifier::loop_isolation(false)]
pub fn render_number(b: u64) -> (r: String)
    ensures
        r@ == render_num(b),
        r@.len() > 0,
        forall|i: int| 0 <= i < r@.len() ==> render_char(#[trigger] r@[i]),
        parse_num(r@) == Some(
            if bits_is_nan(b) {
                QNAN_BITS
            } else {
                b
            },
        ),
        value_of_literal(r@) == Some(
            if bits_is_nan(b) {
                QNAN_BITS
            } else {
                b
            },
        ),
{
    if (b >> 52) & 0x7FF == 0x7FF && b & 0x000F_FFFF_FFFF_FFFF != 0 {
        let t = render_sci_exec(b, 17);
        proof {
            reveal_strlit("NaN");
            assert(t@.len() == 3 && t@[0] == 'N' && t@[1] == 'a' && t@[2] == 'N');
            assert(strip_sign(t@) =~= t@);
            assert(ci_nan(t@) && !ci_inf(t@) && !is_neg(t@));
        }
        return t;
    }
    if b == POS_INF_BITS || b == NEG_INF_BITS {
        let t = if b == NEG_INF_BITS {
            String::from_str("-inf")
        } else {
            String::from_str("inf")
        };
        proof {
            reveal_strlit("inf");
            reveal_strlit("-inf");
            assert(t@ == inf_text(b));
            if b == NEG_INF_BITS {
                assert(t@.len() == 4 && t@[0] == '-' && t@[1] == 'i' && t@[2] == 'n' && t@[3]
                    == 'f');
                assert(strip_sign(t@) =~= t@.subrange(1, 4));
            } else {
                assert(t@.len() == 3 && t@[0] == 'i' && t@[1] == 'n' && t@[2] == 'f');
                assert(strip_sign(t@) =~= t@);
            }
            assert(ci_inf(strip_sign(t@)));
            assert(!hex_prefixed(t@));
        }
        let parsed = parse_num_exec(t.as_str());
        let hit = match parsed {
            Some(x) => x == b,
            None => false,
        };
        if hit {
            return t;
        }
        let t2 = render_sci_exec(b, 17);
        proof {
            reveal_strlit("+Inf");
            reveal_strlit("-Inf");
            if b == NEG_INF_BITS {
                assert(t2@.len() == 4 && t2@[0] == '-' && t2@[1] == 'I' && t2@[2] == 'n' && t2@[3]
                    == 'f');
                assert(strip_sign(t2@) =~= t2@.subrange(1, 4));
            } else {
                assert(t2@.len() == 4 && t2@[0] == '+' && t2@[1] == 'I' && t2@[2] == 'n' && t2@[3]
                    == 'f');
                assert(strip_sign(t2@) =~= t2@.subrange(1, 4));
            }
            assert(ci_inf(strip_sign(t2@)));
        }
        return t2;
    }
    let mut p: u8 = 1;
    while p <= 17
        invariant
            1 <= p <= 18,
            !bits_is_nan(b) && !bits_is_inf(b),
            pick_digits(b, 1) == pick_digits(b, p as int),
        decreases 18 - p as int,
    {
        let sci = render_sci_exec(b, p);
        let pos = to_positional(sci.as_str());
        proof {
            lemma_positional_facts(sci@);
        }
        let parsed = parse_num_exec(pos.as_str());
        let hit = match parsed {
            Some(x) => x == b,
            None => false,
        };
        if hit {
            proof {
                assert(pick_digits(b, p as int) == p as int);
            }
            return pos;
        }
        proof {
            assert(pick_digits(b, p as int) == pick_digits(b, p as int + 1));
        }
        p = p + 1;
    }
    let t = render_sci_exec(b, 17);
    proof {
        lemma_sci_is_literal(t@);
    }
    t
}

} // verus!
