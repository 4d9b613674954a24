//! Character-sequence helpers: whitespace, trimming, equality and the
//! lexicographic order that the comparison operators of the language use.
//! Everything here is verified; nothing is trusted.

use vstd::prelude::*;

use vstd::string::StrSliceExecFns;

verus! {

broadcast use vstd::seq::group_seq_axioms;

/// The whitespace characters (the Unicode `White_Space` set).
pub open spec fn is_space_char(c: char) -> bool {
    ||| c == ' '
    ||| c == '\t'
    ||| c == '\n'
    ||| c == '\u{b}'
    ||| c == '\u{c}'
    ||| c == '\r'
    ||| c == '\u{85}'
    ||| c == '\u{a0}'
    ||| c == '\u{1680}'
    ||| ('\u{2000}' as u32 <= c as u32 && c as u32 <= '\u{200a}' as u32)
    ||| c == '\u{2028}'
    ||| c == '\u{2029}'
    ||| c == '\u{202f}'
    ||| c == '\u{205f}'
    ||| c == '\u{3000}'
}

/// Whether a character is whitespace.
pub fn is_space(c: char) -> (r: bool)
    ensures
        r == is_space_char(c),
{
    let u = c as u32;
    u == 0x20 || u == 0x9 || u == 0xA || u == 0xB || u == 0xC || u == 0xD || u == 0x85 || u == 0xA0
        || u == 0x1680 || (0x2000 <= u && u <= 0x200A) || u == 0x2028 || u == 0x2029 || u == 0x202F
        || u == 0x205F || u == 0x3000
}

/// The sequence with its leading whitespace dropped.
pub open spec fn trim_front(s: Seq<char>) -> Seq<char>
    decreases s.len(),
{
    if s.len() > 0 && is_space_char(s[0]) {
        trim_front(s.subrange(1, s.len() as int))
    } else {
        s
    }
}

/// The sequence with its trailing whitespace dropped.
pub open spec fn trim_back(s: Seq<char>) -> Seq<char>
    decreases s.len(),
{
    if s.len() > 0 && is_space_char(s[s.len() - 1]) {
        trim_back(s.subrange(0, s.len() - 1))
    } else {
        s
    }
}

/// The sequence with whitespace dropped from both ends.
pub open spec fn trim_model(s: Seq<char>) -> Seq<char> {
    trim_back(trim_front(s))
}

/// Trimming the front never lengthens a sequence.
pub proof fn lemma_trim_front_len(s: Seq<char>)
    ensures
        trim_front(s).len() <= s.len(),
    decreases s.len(),
{
    if s.len() > 0 && is_space_char(s[0]) {
        lemma_trim_front_len(s.subrange(1, s.len() as int));
    }
}

/// Trimming the back never lengthens a sequence.
pub proof fn lemma_trim_back_len(s: Seq<char>)
    ensures
        trim_back(s).len() <= s.len(),
    decreases s.len(),
{
    if s.len() > 0 && is_space_char(s[s.len() - 1]) {
        lemma_trim_back_len(s.subrange(0, s.len() - 1));
    }
}

/// Trimming never lengthens a sequence.
pub proof fn lemma_trim_len(s: Seq<char>)
    ensures
        trim_model(s).len() <= s.len(),
{
    lemma_trim_front_len(s);
    lemma_trim_back_len(trim_front(s));
}

/// Trim whitespace from both ends.
#[verifier::loop_isolation(false)]
pub fn trim<'a>(s: &'a str) -> (r: &'a str)
    ensures
        r@ == trim_model(s@),
{
    let n = s.unicode_len();
    proof {
        assert(s@.subrange(0, n as int) =~= s@);
    }
    let mut a: usize = 0;
    while a < n && is_space(s.get_char(a))
        invariant
            a <= n,
            trim_front(s@) == trim_front(s@.subrange(a as int, n as int)),
        decreases n - a,
    {
        proof {
            assert(s@.subrange(a as int, n as int).subrange(1, n - a) =~= s@.subrange(
                a + 1,
                n as int,
            ));
        }
        a = a + 1;
    }
    proof {
        assert(trim_front(s@) =~= s@.subrange(a as int, n as int));
    }
    let mut b: usize = n;
    while b > a && is_space(s.get_char(b - 1))
        invariant
            a <= b <= n,
            trim_back(s@.subrange(a as int, n as int)) == trim_back(
                s@.subrange(a as int, b as int),
            ),
        decreases b,
    {
        proof {
            assert(s@.subrange(a as int, b as int).subrange(0, b - a - 1) =~= s@.subrange(
                a as int,
                b - 1,
            ));
        }
        b = b - 1;
    }
    proof {
        assert(trim_back(s@.subrange(a as int, b as int)) =~= s@.subrange(a as int, b as int));
    }
    s.substring_char(a, b)
}

/// Strict lexicographic order on character sequences, by code point; a
/// proper prefix comes first.
pub open spec fn lex_lt(a: Seq<char>, b: Seq<char>) -> bool
    decreases a.len(),
{
    if b.len() == 0 {
        false
    } else if a.len() == 0 {
        true
    } else if a[0] == b[0] {
        lex_lt(a.subrange(1, a.len() as int), b.subrange(1, b.len() as int))
    } else {
        (a[0] as u32) < (b[0] as u32)
    }
}

/// Lexicographic order, equality allowed.
pub open spec fn lex_le(a: Seq<char>, b: Seq<char>) -> bool {
    lex_lt(a, b) || a == b
}

/// Whether one text comes strictly before another in lexicographic order.
#[verifier::loop_isolation(false)]
pub fn str_lt(x: &str, y: &str) -> (r: bool)
    ensures
        r == lex_lt(x@, y@),
{
    let xl = x.unicode_len();
    let yl = y.unicode_len();
    proof {
        assert(x@.subrange(0, xl as int) =~= x@);
        assert(y@.subrange(0, yl as int) =~= y@);
    }
    let mut i: usize = 0;
    loop
        invariant
            i <= xl,
            i <= yl,
            lex_lt(x@, y@) == lex_lt(x@.subrange(i as int, xl as int), y@.subrange(i as int, yl as int)),
        decreases xl - i,
    {
        if i >= xl || i >= yl {
            proof {
                if i >= xl {
                    assert(x@.subrange(i as int, xl as int).len() == 0);
                } else {
                    assert(y@.subrange(i as int, yl as int).len() == 0);
                }
            }
            return xl < yl;
        }
        let cx = x.get_char(i);
        let cy = y.get_char(i);
        proof {
            assert(x@.subrange(i as int, xl as int)[0] == x@[i as int]);
            assert(y@.subrange(i as int, yl as int)[0] == y@[i as int]);
        }
        if (cx as u32) != (cy as u32) {
            return (cx as u32) < (cy as u32);
        }
        proof {
            assert(x@.subrange(i as int, xl as int).subrange(1, xl - i) =~= x@.subrange(
                i + 1,
                xl as int,
            ));
            assert(y@.subrange(i as int, yl as int).subrange(1, yl - i) =~= y@.subrange(
                i + 1,
                yl as int,
            ));
        }
        i = i + 1;
    }
}

/// Whether two texts are the same character sequence.
#[verifier::loop_isolation(false)]
pub fn str_eq(x: &str, y: &str) -> (r: bool)
    ensures
        r == (x@ == y@),
{
    let xl = x.unicode_len();
    let yl = y.unicode_len();
    if xl != yl {
        return false;
    }
    let mut i: usize = 0;
    while i < xl
        invariant
            i <= xl,
            xl == x@.len() == y@.len(),
            forall|k: int| 0 <= k < i ==> x@[k] == y@[k],
        decreases xl - i,
    {
        let cx = x.get_char(i);
        let cy = y.get_char(i);
        if (cx as u32) != (cy as u32) {
            return false;
        }
        i = i + 1;
    }
    proof {
        assert(x@ =~= y@);
    }
    true
}

} // verus!
