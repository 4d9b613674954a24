//! The reader: one trimmed token string becomes one value. A token that is
//! a parenthesized group is tokenized again and read element by element
//! into a list; a double-quoted token becomes a text, with no escape
//! processing; any other token is tried as a number, a boolean literal,
//! the literal `nil`, and finally kept as a symbol.

use vstd::prelude::*;

use crate::num::value_of_literal;
use crate::render::literal_value;
use crate::text::lemma_trim_len;
use crate::text::str_eq;
use crate::text::trim;
use crate::text::trim_model;
use crate::token::SyntaxError;
use crate::token::lemma_token_bounds;
use crate::token::tokenize;
use crate::token::tokens_model;
use crate::value::SExpression;
use crate::value::Sexp;
use crate::value::views_of;
use vstd::string::StrSliceExecFns;
use vstd::string::StringExecFns;

verus! {

broadcast use vstd::seq::group_seq_axioms, vstd::std_specs::vec::group_vec_axioms;

/// The value an atomic token reads to: a numeric literal, a boolean
/// literal, the literal `nil`, or a symbol holding the text, tried in that
/// order.
pub open spec fn atom_model(s: Seq<char>) -> Sexp {
    match value_of_literal(s) {
        Some(b) => Sexp::Number(b),
        None => if s == "true"@ {
            Sexp::Bool(true)
        } else if s == "false"@ {
            Sexp::Bool(false)
        } else if s == "nil"@ {
            Sexp::Nil
        } else {
            Sexp::Symbol(s)
        },
    }
}

/// The value a token text reads to, or the syntax error that stops the
/// reading. The token is trimmed first. A one-character token never
/// attempts the group and quote rules: it reads as an atom directly. Any
/// longer token must tokenize (so an unterminated group or string is
/// caught wherever it stands); a group of length two or more with matching
/// parentheses is read as a list; a token of length two or more with
/// matching quotes is a text; anything else is an atom.
pub open spec fn read_model(t: Seq<char>) -> Result<Sexp, SyntaxError>
    decreases t.len(), 0int, 0int,
    via read_model_decreases
{
    let s = trim_model(t);
    if s.len() == 0 {
        Err(SyntaxError::EmptyToken)
    } else if s.len() == 1 {
        Ok(atom_model(s))
    } else if tokens_model(s) is Err {
        Err(tokens_model(s)->Err_0)
    } else if s[0] == '(' && s[s.len() - 1] == ')' {
        match tokens_model(s.subrange(1, s.len() - 1)) {
            Ok(ts) => match read_tokens_model(ts, (s.len() - 1) as nat) {
                Ok(vs) => Ok(Sexp::List(vs)),
                Err(e) => Err(e),
            },
            Err(e) => Err(e),
        }
    } else if s[0] == '"' && s[s.len() - 1] == '"' {
        Ok(Sexp::Text(s.subrange(1, s.len() - 1)))
    } else {
        Ok(atom_model(s))
    }
}

/// The values of a token sequence, read left to right; the first error
/// wins. The bound carries the fact that every token came out of a group
/// longer than the token itself.
pub open spec fn read_tokens_model(ts: Seq<Seq<char>>, bound: nat) -> Result<Seq<Sexp>, SyntaxError>
    decreases bound, 1int, ts.len(),
{
    if ts.len() == 0 {
        Ok(Seq::empty())
    } else if ts[0].len() < bound {
        match read_model(ts[0]) {
            Ok(v) => match read_tokens_model(ts.subrange(1, ts.len() as int), bound) {
                Ok(vs) => Ok(seq![v] + vs),
                Err(e) => Err(e),
            },
            Err(e) => Err(e),
        }
    } else {
        // Never reached: the tokenizer cuts every token out of the group's
        // interior, which is shorter than the bound.
        Err(SyntaxError::EmptyToken)
    }
}

#[via_fn]
proof fn read_model_decreases(t: Seq<char>) {
    lemma_trim_len(t);
}

/// Read one source text into one value, or report the syntax error that
/// makes the text malformed.
pub fn parse(source: &str) -> (r: Result<SExpression, SyntaxError>)
    ensures
        read_model(source@) matches Ok(m) ==> r matches Ok(v) && v@ == m,
        read_model(source@) matches Err(e) ==> r matches Err(e2) && e2 == e,
    decreases source@.len(), 0int, 0int,
{
    let t = trim(source);
    let n = t.unicode_len();
    proof {
        lemma_trim_len(source@);
    }
    if n == 0 {
        return Err(SyntaxError::EmptyToken);
    }
    if n == 1 {
        return Ok(parse_atom(t));
    }
    if let Err(e) = tokenize(String::from_str(t)) {
        return Err(e);
    }
    let first = t.get_char(0);
    let last = t.get_char(n - 1);
    if first == '(' && last == ')' {
        let inner = t.substring_char(1, n - 1);
        match tokenize(String::from_str(inner)) {
            Ok(tokens) => {
                proof {
                    lemma_token_bounds(inner@);
                    assert(tokens.deep_view().subrange(0, tokens.deep_view().len() as int)
                        =~= tokens.deep_view());
                }
                match parse_list(&tokens, 0, Ghost((n - 1) as nat)) {
                    Ok(vals) => Ok(SExpression::List(vals)),
                    Err(e) => Err(e),
                }
            },
            Err(e) => Err(e),
        }
    } else if first == '"' && last == '"' {
        Ok(SExpression::Text(String::from_str(t.substring_char(1, n - 1))))
    } else {
        Ok(parse_atom(t))
    }
}

/// Read an atomic token: a number, a boolean, nil, or a symbol, in that
/// order.
fn parse_atom(t: &str) -> (r: SExpression)
    ensures
        r@ == atom_model(t@),
{
    match literal_value(t) {
        Some(b) => SExpression::Number(b),
        None => if str_eq(t, "true") {
            SExpression::Bool(true)
        } else if str_eq(t, "false") {
            SExpression::Bool(false)
        } else if str_eq(t, "nil") {
            SExpression::Nil
        } else {
            SExpression::Symbol(String::from_str(t))
        },
    }
}

/// Read the tokens from position `i` on, left to right.
fn parse_list(tokens: &Vec<String>, i: usize, Ghost(bound): Ghost<nat>) -> (r: Result<
    Vec<SExpression>,
    SyntaxError,
>)
    requires
        i <= tokens@.len(),
        forall|j: int| 0 <= j < tokens@.len() ==> (#[trigger] tokens.deep_view()[j]).len() < bound,
    ensures
        read_tokens_model(
            tokens.deep_view().subrange(i as int, tokens.deep_view().len() as int),
            bound,
        ) matches Ok(vs) ==> r matches Ok(v) && views_of(v@) == vs,
        read_tokens_model(
            tokens.deep_view().subrange(i as int, tokens.deep_view().len() as int),
            bound,
        ) matches Err(e) ==> r matches Err(e2) && e2 == e,
    decreases bound, 1int, tokens@.len() - i,
{
    let ghost rest = tokens.deep_view().subrange(i as int, tokens.deep_view().len() as int);
    if i == tokens.len() {
        let out: Vec<SExpression> = Vec::new();
        proof {
            assert(rest.len() == 0);
            assert(views_of(out@) =~= Seq::<Sexp>::empty());
        }
        Ok(out)
    } else {
        proof {
            assert(rest[0] == tokens.deep_view()[i as int]);
        }
        proof {
            assert(rest.subrange(1, rest.len() as int) =~= tokens.deep_view().subrange(
                i + 1,
                tokens.deep_view().len() as int,
            ));
            assert(rest[0].len() < bound);
        }
        match parse(tokens[i].as_str()) {
            Ok(v) => {
                match parse_list(tokens, i + 1, Ghost(bound)) {
                    Ok(mut vals) => {
                        vals.insert(0, v);
                        proof {
                            match read_tokens_model(rest, bound) {
                                Ok(vs) => {
                                    assert(views_of(vals@) =~= vs);
                                },
                                Err(_) => {},
                            }
                        }
                        Ok(vals)
                    },
                    Err(e) => Err(e),
                }
            },
            Err(e) => Err(e),
        }
    }
}

} // verus!
