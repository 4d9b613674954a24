//! The tagged value model: every runtime datum of the language is one
//! `SExpression`, whose mathematical shape is the spec datatype `Sexp`.
//! The four total coercion views (number, display text, raw text, boolean,
//! list) are given as spec functions over `Sexp` and as verified methods.

use vstd::prelude::*;

use crate::num::ONE_BITS;
use crate::num::num_of_int;
use crate::num::num_of_usize_exec;
use crate::num::render_num;
use crate::num::value_of_literal;
use crate::render::literal_value;
use crate::render::render_number;
use vstd::string::StrSliceExecFns;
use vstd::string::StringExecFns;

verus! {

broadcast use vstd::seq::group_seq_axioms, vstd::std_specs::vec::group_vec_axioms;

/// Bit pattern of the binary64 value -0.0, which is equal to zero.
pub const NEG_ZERO_BITS: u64 = 0x8000_0000_0000_0000;

/// The mathematical shape of a value: numbers are binary64 bit patterns,
/// texts are character sequences, lists are value sequences.
pub enum Sexp {
    Number(u64),
    Bool(bool),
    Symbol(Seq<char>),
    Text(Seq<char>),
    List(Seq<Sexp>),
    Nil,
}

/// A runtime value: a closed tagged union with one active variant.
/// `Number` carries the bit pattern of a binary64 value; `Text` originates
/// only from double-quoted source text; `Nil` is the absence-of-value marker.
#[derive(Debug, PartialEq)]
pub enum SExpression {
    Number(u64),
    Bool(bool),
    Symbol(String),
    Text(String),
    List(Vec<SExpression>),
    Nil,
}

impl View for SExpression {
    type V = Sexp;

    open spec fn view(&self) -> Sexp
        decreases self,
    {
        match self {
            SExpression::Number(b) => Sexp::Number(*b),
            SExpression::Bool(b) => Sexp::Bool(*b),
            SExpression::Symbol(s) => Sexp::Symbol(s@),
            SExpression::Text(s) => Sexp::Text(s@),
            SExpression::List(l) => Sexp::List(views_of(l@)),
            SExpression::Nil => Sexp::Nil,
        }
    }
}

/// The views of a sequence of runtime values, element by element.
pub open spec fn views_of(l: Seq<SExpression>) -> Seq<Sexp>
    decreases l,
{
    Seq::new(
        l.len(),
        |i: int|
            if 0 <= i < l.len() {
                l[i]@
            } else {
                Sexp::Nil
            },
    )
}

/// The element views of a value sequence, pointwise.
pub broadcast proof fn lemma_views_of(l: Seq<SExpression>)
    ensures
        (#[trigger] views_of(l)).len() == l.len(),
        forall|i: int| 0 <= i < l.len() ==> views_of(l)[i] == l[i]@,
{
}

/// The bit pattern a text coerces to: its value as a numeric literal of
/// the language, or zero when it is no literal (a silent degradation,
/// never an error).
pub open spec fn literal_or_zero(s: Seq<char>) -> u64 {
    match value_of_literal(s) {
        Some(b) => b,
        None => 0,
    }
}

/// The number view: a total coercion of any value to a binary64 bit pattern.
pub open spec fn number_model(v: Sexp) -> u64 {
    match v {
        Sexp::Number(b) => b,
        Sexp::Bool(b) => if b {
            ONE_BITS
        } else {
            0
        },
        Sexp::Symbol(s) => literal_or_zero(s),
        Sexp::Text(s) => literal_or_zero(s),
        Sexp::List(l) => num_of_int(l.len() as int),
        Sexp::Nil => 0,
    }
}

/// The display-text view: a quoted text keeps its quotes, a list is a
/// bracketed, space-joined rendering of its children.
pub open spec fn display_model(v: Sexp) -> Seq<char>
    decreases v,
{
    match v {
        Sexp::Number(b) => render_num(b),
        Sexp::Bool(b) => if b {
            "true"@
        } else {
            "false"@
        },
        Sexp::Symbol(s) => s,
        Sexp::Text(s) => seq!['"'] + s + seq!['"'],
        Sexp::List(l) => seq!['('] + join_display(l) + seq![')'],
        Sexp::Nil => "nil"@,
    }
}

/// The display texts of a value sequence, joined with single spaces.
pub open spec fn join_display(l: Seq<Sexp>) -> Seq<char>
    decreases l,
{
    if l.len() == 0 {
        Seq::empty()
    } else if l.len() == 1 {
        display_model(l[0])
    } else {
        display_model(l[0]) + seq![' '] + join_display(l.subrange(1, l.len() as int))
    }
}

/// The raw-text view: like the display text, but a quoted text loses its
/// quotes and nil is empty.
pub open spec fn raw_model(v: Sexp) -> Seq<char> {
    match v {
        Sexp::Text(s) => s,
        Sexp::Nil => Seq::empty(),
        _ => display_model(v),
    }
}

/// The boolean view: zero (of either sign), empty text, the empty list and
/// nil are false; everything else, a NaN included, is true.
pub open spec fn bool_model(v: Sexp) -> bool {
    match v {
        Sexp::Number(b) => !(b == 0 || b == NEG_ZERO_BITS),
        Sexp::Bool(b) => b,
        Sexp::Symbol(s) => s.len() > 0,
        Sexp::Text(s) => s.len() > 0,
        Sexp::List(l) => l.len() > 0,
        Sexp::Nil => false,
    }
}

/// The list view: a list is its children, nil is empty, an atom is the
/// one-element sequence of itself.
pub open spec fn list_model(v: Sexp) -> Seq<Sexp> {
    match v {
        Sexp::List(l) => l,
        Sexp::Nil => Seq::empty(),
        _ => seq![v],
    }
}

/// Joining one more display text on the right.
proof fn lemma_join_push(l: Seq<Sexp>, x: Sexp)
    ensures
        join_display(l.push(x)) == if l.len() == 0 {
            display_model(x)
        } else {
            join_display(l) + seq![' '] + display_model(x)
        },
    decreases l,
{
    let lx = l.push(x);
    if l.len() == 0 {
        assert(lx.len() == 1);
        assert(lx[0] == x);
    } else if l.len() == 1 {
        let t = lx.subrange(1, lx.len() as int);
        assert(t.len() == 1);
        assert(t[0] == x);
        assert(join_display(t) == display_model(x));
        assert(lx[0] == l[0]);
        assert(join_display(lx) == display_model(lx[0]) + seq![' '] + join_display(t));
        assert(join_display(l) == display_model(l[0]));
    } else {
        let tail = l.subrange(1, l.len() as int);
        lemma_join_push(tail, x);
        assert(lx.subrange(1, lx.len() as int) =~= tail.push(x));
        assert(lx[0] == l[0]);
        assert(join_display(lx) == display_model(l[0]) + seq![' '] + join_display(tail.push(x)));
        assert(join_display(tail.push(x)) == join_display(tail) + seq![' '] + display_model(x));
        assert(display_model(l[0]) + seq![' '] + (join_display(tail) + seq![' '] + display_model(
            x,
        )) =~= (display_model(l[0]) + seq![' '] + join_display(tail)) + seq![' '] + display_model(
            x,
        ));
    }
}

impl SExpression {
    /// Coerce to a number: a bool is one or zero, a text is parsed or zero,
    /// a list is its length, nil is zero.
    pub fn get_number(&self) -> (r: u64)
        ensures
            r == number_model(self@),
    {
        match self {
            SExpression::Number(b) => *b,
            SExpression::Bool(b) => if *b {
                ONE_BITS
            } else {
                0
            },
            SExpression::Symbol(s) => match literal_value(s.as_str()) {
                Some(b) => b,
                None => 0,
            },
            SExpression::Text(s) => match literal_value(s.as_str()) {
                Some(b) => b,
                None => 0,
            },
            SExpression::List(l) => {
                proof {
                    lemma_views_of(l@);
                }
                num_of_usize_exec(l.len())
            },
            SExpression::Nil => 0,
        }
    }

    /// Coerce to a boolean: zero, empty texts, the empty list and nil are
    /// false.
    pub fn get_bool(&self) -> (r: bool)
        ensures
            r == bool_model(self@),
    {
        match self {
            SExpression::Number(b) => !(*b == 0 || *b == NEG_ZERO_BITS),
            SExpression::Bool(b) => *b,
            SExpression::Symbol(s) => s.as_str().unicode_len() != 0,
            SExpression::Text(s) => s.as_str().unicode_len() != 0,
            SExpression::List(l) => {
                proof {
                    lemma_views_of(l@);
                }
                l.len() != 0
            },
            SExpression::Nil => false,
        }
    }

    /// Render the display text. A rendered number reads back: feeding the
    /// text to the reader gives the same bit pattern again (a NaN gives the
    /// quiet NaN).
    #[verifier::loop_isolation(false)]
    pub fn get_symbol(&self) -> (r: String)
        ensures
            r@ == display_model(self@),
        decreases self,
    {
        match self {
            SExpression::Number(b) => render_number(*b),
            SExpression::Bool(b) => if *b {
                String::from_str("true")
            } else {
                String::from_str("false")
            },
            SExpression::Symbol(s) => s.clone(),
            SExpression::Text(s) => {
                let mut out = String::from_str("\"");
                out.append(s.as_str());
                out.append("\"");
                proof {
                    reveal_strlit("\"");
                    assert(out@ =~= display_model(self@));
                }
                out
            },
            SExpression::List(l) => {
                let ghost vs = views_of(l@);
                let mut out = String::from_str("(");
                let n = l.len();
                let mut i: usize = 0;
                while i < n
                    invariant
                        n == l.len(),
                        i <= n,
                        vs == views_of(l@),
                        out@ == "("@ + join_display(vs.take(i as int)) + if 0 < i < n {
                            seq![' ']
                        } else {
                            Seq::<char>::empty()
                        },
                    decreases n - i,
                {
                    let piece = l[i].get_symbol();
                    out.append(piece.as_str());
                    proof {
                        lemma_join_push(vs.take(i as int), vs[i as int]);
                        assert(vs.take(i as int).push(vs[i as int]) =~= vs.take(i + 1 as int));
                        assert(out@ =~= "("@ + join_display(vs.take(i + 1 as int)));
                    }
                    if i + 1 < n {
                        out.append(" ");
                        proof {
                            reveal_strlit(" ");
                            assert(out@ =~= "("@ + join_display(vs.take(i + 1 as int)) + seq![' ']);
                        }
                    }
                    i = i + 1;
                }
                out.append(")");
                proof {
                    reveal_strlit("(");
                    reveal_strlit(")");
                    assert(vs.take(n as int) =~= vs);
                    assert(out@ =~= seq!['('] + join_display(vs) + seq![')']);
                }
                out
            },
            SExpression::Nil => String::from_str("nil"),
        }
    }

    /// Render the raw text: like the display text, but a quoted text is
    /// unwrapped and nil is empty.
    pub fn get_string(&self) -> (r: String)
        ensures
            r@ == raw_model(self@),
    {
        match self {
            SExpression::Text(s) => s.clone(),
            SExpression::Nil => String::new(),
            _ => self.get_symbol(),
        }
    }

    /// The list view as a fresh vector: a list's children, nothing for nil,
    /// the value itself alone otherwise.
    #[verifier::loop_isolation(false)]
    pub fn get_list(&self) -> (r: Vec<SExpression>)
        ensures
            views_of(r@) == list_model(self@),
    {
        match self {
            SExpression::List(l) => {
                let mut out: Vec<SExpression> = Vec::new();
                let n = l.len();
                let mut i: usize = 0;
                while i < n
                    invariant
                        n == l.len(),
                        i <= n,
                        out@.len() == i,
                        forall|k: int| 0 <= k < i ==> out@[k]@ == l@[k]@,
                    decreases n - i,
                {
                    out.push(l[i].duplicate());
                    i = i + 1;
                }
                proof {
                    assert(views_of(out@) =~= list_model(self@));
                }
                out
            },
            SExpression::Nil => Vec::new(),
            _ => {
                let mut out: Vec<SExpression> = Vec::new();
                out.push(self.duplicate());
                proof {
                    assert(views_of(out@) =~= list_model(self@));
                }
                out
            },
        }
    }

    /// A deep copy with the same view.
    #[verifier::loop_isolation(false)]
    pub fn duplicate(&self) -> (r: SExpression)
        ensures
            r@ == self@,
        decreases self,
    {
        match self {
            SExpression::Number(b) => SExpression::Number(*b),
            SExpression::Bool(b) => SExpression::Bool(*b),
            SExpression::Symbol(s) => SExpression::Symbol(s.clone()),
            SExpression::Text(s) => SExpression::Text(s.clone()),
            SExpression::List(l) => {
                let mut out: Vec<SExpression> = Vec::new();
                let n = l.len();
                let mut i: usize = 0;
                while i < n
                    invariant
                        n == l.len(),
                        i <= n,
                        out@.len() == i,
                        forall|k: int| 0 <= k < i ==> out@[k]@ == l@[k]@,
                    decreases n - i,
                {
                    out.push(l[i].duplicate());
                    i = i + 1;
                }
                let r = SExpression::List(out);
                proof {
                    assert(views_of(out@) =~= views_of(l@));
                }
                r
            },
            SExpression::Nil => SExpression::Nil,
        }
    }
}

} // verus!

verus! {

} // verus!
