//! The tokenizer: one left-to-right scan over the source text, keeping a
//! parenthesis-nesting counter and a quoted-string flag, that splits the
//! text into a flat sequence of token strings. A parenthesized group is one
//! token, enclosing parentheses included; a quoted string is one token,
//! both quotes included; a bare word is one token.

use vstd::prelude::*;

use vstd::string::StrSliceExecFns;
use vstd::string::StringExecFns;

verus! {

broadcast use vstd::seq::group_seq_axioms, vstd::std_specs::vec::group_vec_axioms;

/// A syntax error: the one way the tokenizer and the reader can fail.
#[derive(Debug, Clone, Copy, PartialEq, Eq, Structural)]
pub enum SyntaxError {
    /// A `)` at nesting depth zero.
    UnmatchedClose,
    /// The scan ended inside a parenthesized group.
    UnterminatedGroup,
    /// The scan ended inside a quoted string.
    UnterminatedString,
    /// The reader was handed an empty (or all-whitespace) token.
    EmptyToken,
}

/// The separator characters of the scan: space, newline, tab, carriage
/// return, and the full-width space.
pub open spec fn token_space(c: char) -> bool {
    c == ' ' || c == '\n' || c == '\t' || c == '\r' || c == '\u{3000}'
}

/// The scan state: the finished tokens, the accumulating token, the
/// parenthesis-nesting depth, and the quoted-string flag.
pub struct ScanState {
    pub tokens: Seq<Seq<char>>,
    pub cur: Seq<char>,
    pub depth: nat,
    pub quoting: bool,
}

/// The state before any character is read.
pub open spec fn scan_init() -> ScanState {
    ScanState { tokens: Seq::empty(), cur: Seq::empty(), depth: 0, quoting: false }
}

/// Finish the accumulating token, if there is one.
pub open spec fn flush(st: ScanState) -> ScanState {
    if st.cur.len() > 0 {
        ScanState { tokens: st.tokens.push(st.cur), cur: Seq::empty(), depth: st.depth, quoting: st.quoting }
    } else {
        st
    }
}

/// One character of the scan.
pub open spec fn scan_step(st: ScanState, c: char) -> Result<ScanState, SyntaxError> {
    if c == '(' && !st.quoting {
        if st.depth != 0 {
            Ok(ScanState { tokens: st.tokens, cur: st.cur.push(c), depth: (st.depth + 1) as nat, quoting: st.quoting })
        } else {
            let f = flush(st);
            Ok(ScanState { tokens: f.tokens, cur: seq![c], depth: 1, quoting: st.quoting })
        }
    } else if c == ')' && !st.quoting {
        if st.depth == 0 {
            Err(SyntaxError::UnmatchedClose)
        } else if st.depth == 1 {
            Ok(ScanState { tokens: st.tokens.push(st.cur.push(c)), cur: Seq::empty(), depth: 0, quoting: st.quoting })
        } else {
            Ok(ScanState { tokens: st.tokens, cur: st.cur.push(c), depth: (st.depth - 1) as nat, quoting: st.quoting })
        }
    } else if c == '"' {
        if st.depth == 0 {
            if st.quoting {
                Ok(ScanState { tokens: st.tokens.push(st.cur.push(c)), cur: Seq::empty(), depth: st.depth, quoting: false })
            } else {
                Ok(ScanState { tokens: st.tokens, cur: st.cur.push(c), depth: st.depth, quoting: true })
            }
        } else {
            Ok(ScanState { tokens: st.tokens, cur: st.cur.push(c), depth: st.depth, quoting: st.quoting })
        }
    } else if token_space(c) {
        if st.depth != 0 || st.quoting {
            Ok(ScanState { tokens: st.tokens, cur: st.cur.push(c), depth: st.depth, quoting: st.quoting })
        } else {
            Ok(flush(st))
        }
    } else {
        Ok(ScanState { tokens: st.tokens, cur: st.cur.push(c), depth: st.depth, quoting: st.quoting })
    }
}

/// The state after the first `n` characters, or the first error.
pub open spec fn scan_upto(s: Seq<char>, n: int) -> Result<ScanState, SyntaxError>
    decreases n,
{
    if n <= 0 {
        Ok(scan_init())
    } else {
        match scan_upto(s, n - 1) {
            Ok(st) => scan_step(st, s[n - 1]),
            Err(e) => Err(e),
        }
    }
}

/// The token sequence of a source text: the whole scan, a check that no
/// group and no string is left open, and a final flush.
pub open spec fn tokens_model(s: Seq<char>) -> Result<Seq<Seq<char>>, SyntaxError> {
    match scan_upto(s, s.len() as int) {
        Ok(st) => if st.depth != 0 {
            Err(SyntaxError::UnterminatedGroup)
        } else if st.quoting {
            Err(SyntaxError::UnterminatedString)
        } else {
            Ok(flush(st).tokens)
        },
        Err(e) => Err(e),
    }
}

/// Through the whole scan, every finished token and the accumulating one
/// hold only characters already read.
pub proof fn lemma_scan_bounds(s: Seq<char>, n: int)
    requires
        0 <= n <= s.len(),
    ensures
        scan_upto(s, n) matches Ok(st) ==> st.cur.len() <= n && forall|j: int|
            0 <= j < st.tokens.len() ==> (#[trigger] st.tokens[j]).len() <= n,
    decreases n,
{
    if n > 0 {
        lemma_scan_bounds(s, n - 1);
    }
}

/// Once the scan fails, the later states fail the same way.
pub proof fn lemma_scan_err_sticks(s: Seq<char>, m: int, n: int)
    requires
        0 <= m <= n,
        scan_upto(s, m) is Err,
    ensures
        scan_upto(s, n) == scan_upto(s, m),
    decreases n - m,
{
    if n > m {
        lemma_scan_err_sticks(s, m, n - 1);
    }
}

/// Every token of a source text is at most as long as the text.
pub proof fn lemma_token_bounds(s: Seq<char>)
    ensures
        tokens_model(s) matches Ok(ts) ==> forall|j: int|
            0 <= j < ts.len() ==> (#[trigger] ts[j]).len() <= s.len(),
{
    lemma_scan_bounds(s, s.len() as int);
}

/// A scan over text without parentheses or quotes stays at depth zero,
/// outside any string, and cannot fail.
pub proof fn lemma_scan_solid(s: Seq<char>, n: int)
    requires
        0 <= n <= s.len(),
        forall|i: int| 0 <= i < s.len() ==> (#[trigger] s[i]) != '(' && s[i] != ')' && s[i] != '"',
    ensures
        scan_upto(s, n) matches Ok(st) && st.depth == 0 && !st.quoting,
    decreases n,
{
    if n > 0 {
        lemma_scan_solid(s, n - 1);
    }
}

/// Text without parentheses or quotes always tokenizes.
pub proof fn lemma_tokens_solid(s: Seq<char>)
    requires
        forall|i: int| 0 <= i < s.len() ==> (#[trigger] s[i]) != '(' && s[i] != ')' && s[i] != '"',
    ensures
        tokens_model(s) is Ok,
{
    lemma_scan_solid(s, s.len() as int);
}

/// Split a source text into tokens, or report the syntax error that makes
/// it malformed: a stray `)`, an unterminated group, an unterminated
/// string.
#[verifier::loop_isolation(false)]
pub fn tokenize(input: String) -> (r: Result<Vec<String>, SyntaxError>)
    ensures
        tokens_model(input@) matches Ok(ts) ==> r matches Ok(v) && v.deep_view() == ts,
        tokens_model(input@) matches Err(e) ==> r matches Err(e2) && e2 == e,
{
    let s = input.as_str();
    let n = s.unicode_len();
    let mut toks: Vec<String> = Vec::new();
    let mut tok_start: usize = 0;
    let mut depth: usize = 0;
    let mut quoting: bool = false;
    let mut i: usize = 0;
    proof {
        assert(toks.deep_view() =~= Seq::<Seq<char>>::empty());
        assert(s@.subrange(0, 0) =~= Seq::<char>::empty());
    }
    while i < n
        invariant
            i <= n,
            tok_start <= i,
            depth <= i,
            scan_upto(s@, i as int) == Ok::<ScanState, SyntaxError>(
                ScanState {
                    tokens: toks.deep_view(),
                    cur: s@.subrange(tok_start as int, i as int),
                    depth: depth as nat,
                    quoting: quoting,
                },
            ),
        decreases n - i,
    {
        let ghost st = ScanState {
            tokens: toks.deep_view(),
            cur: s@.subrange(tok_start as int, i as int),
            depth: depth as nat,
            quoting: quoting,
        };
        proof {
            assert(scan_upto(s@, i + 1) == scan_step(st, s@[i as int]));
        }
        let c = s.get_char(i);
        if c == '(' && !quoting {
            if depth != 0 {
                depth = depth + 1;
            } else {
                if tok_start < i {
                    let t = String::from_str(s.substring_char(tok_start, i));
                    toks.push(t);
                    proof {
                        assert(toks.deep_view() =~= flush(st).tokens);
                    }
                }
                tok_start = i;
                depth = 1;
                proof {
                    assert(s@.subrange(tok_start as int, i + 1) =~= seq![s@[i as int]]);
                }
            }
        } else if c == ')' && !quoting {
            if depth != 0 {
                depth = depth - 1;
                if depth == 0 {
                    let t = String::from_str(s.substring_char(tok_start, i + 1));
                    toks.push(t);
                    proof {
                        assert(s@.subrange(tok_start as int, i + 1) =~= st.cur.push(s@[i as int]));
                        assert(toks.deep_view() =~= st.tokens.push(st.cur.push(s@[i as int])));
                        assert(s@.subrange(i + 1, i + 1) =~= Seq::<char>::empty());
                    }
                    tok_start = i + 1;
                }
            } else {
                proof {
                    lemma_scan_err_sticks(s@, i + 1, n as int);
                }
                return Err(SyntaxError::UnmatchedClose);
            }
        } else if c == '"' {
            if depth == 0 {
                if quoting {
                    let t = String::from_str(s.substring_char(tok_start, i + 1));
                    toks.push(t);
                    proof {
                        assert(s@.subrange(tok_start as int, i + 1) =~= st.cur.push(s@[i as int]));
                        assert(toks.deep_view() =~= st.tokens.push(st.cur.push(s@[i as int])));
                        assert(s@.subrange(i + 1, i + 1) =~= Seq::<char>::empty());
                    }
                    tok_start = i + 1;
                    quoting = false;
                } else {
                    quoting = true;
                }
            }
        } else if c == ' ' || c == '\n' || c == '\t' || c == '\r' || c == '\u{3000}' {
            if depth == 0 && !quoting {
                if tok_start < i {
                    let t = String::from_str(s.substring_char(tok_start, i));
                    toks.push(t);
                    proof {
                        assert(toks.deep_view() =~= flush(st).tokens);
                    }
                }
                tok_start = i + 1;
                proof {
                    assert(s@.subrange(i + 1, i + 1) =~= Seq::<char>::empty());
                }
            }
        }
        proof {
            if tok_start <= i {
                assert(s@.subrange(tok_start as int, i + 1) =~= s@.subrange(
                    tok_start as int,
                    i as int,
                ).push(s@[i as int]));
            } else {
                assert(s@.subrange(tok_start as int, i + 1) =~= Seq::<char>::empty());
            }
            let c0 = s@[i as int];
            let stepped = scan_step(st, c0);
            if c0 == '(' && !st.quoting {
                if st.depth != 0 {
                    assert(stepped matches Ok(st2) && st2.cur == s@.subrange(tok_start as int, i + 1));
                } else {
                    assert(stepped matches Ok(st2) && st2.cur == s@.subrange(tok_start as int, i + 1));
                }
            } else if c0 == ')' && !st.quoting {
                assert(stepped matches Ok(st2) && st2.cur == s@.subrange(tok_start as int, i + 1));
            } else if c0 == '"' {
                if st.depth == 0 && st.quoting {
                    assert(stepped matches Ok(st2) && st2.cur == s@.subrange(tok_start as int, i + 1));
                } else {
                    assert(stepped matches Ok(st2) && st2.cur == s@.subrange(tok_start as int, i + 1));
                }
            } else if token_space(c0) {
                if st.depth != 0 || st.quoting {
                    assert(stepped matches Ok(st2) && st2.cur == s@.subrange(tok_start as int, i + 1));
                } else {
                    assert(stepped matches Ok(st2) && st2.cur == s@.subrange(tok_start as int, i + 1));
                }
            } else {
                assert(stepped matches Ok(st2) && st2.cur == s@.subrange(tok_start as int, i + 1));
            }
            assert(scan_upto(s@, i + 1) == Ok::<ScanState, SyntaxError>(
                ScanState {
                    tokens: toks.deep_view(),
                    cur: s@.subrange(tok_start as int, (i + 1) as int),
                    depth: depth as nat,
                    quoting: quoting,
                },
            ));
        }
        i = i + 1;
    }
    if depth != 0 {
        return Err(SyntaxError::UnterminatedGroup);
    }
    if quoting {
        return Err(SyntaxError::UnterminatedString);
    }
    let ghost st = ScanState {
        tokens: toks.deep_view(),
        cur: s@.subrange(tok_start as int, n as int),
        depth: depth as nat,
        quoting: quoting,
    };
    if tok_start < n {
        let t = String::from_str(s.substring_char(tok_start, n));
        toks.push(t);
        proof {
            assert(toks.deep_view() =~= flush(st).tokens);
        }
    } else {
        proof {
            assert(st.cur.len() == 0);
            assert(toks.deep_view() == flush(st).tokens);
        }
    }
    Ok(toks)
}

} // verus!
