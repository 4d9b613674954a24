//! The general laws of the language, stated over the evaluator's and the
//! reader's models and proved once for all inputs.

use vstd::prelude::*;

use crate::eval::Abort;
use crate::eval::ArithOp;
use crate::eval::CmpOp;
use crate::eval::pairwise_holds;
use crate::eval::IoModel;
use crate::eval::apply_op;
use crate::eval::eval_list_model;
use crate::eval::eval_model;
use crate::eval::fold_args;
use crate::num::QNAN_BITS;
use crate::num::bits_is_nan;
use crate::num::render_num;
use crate::render::render_number;
use crate::reader::read_model;
use crate::text::is_space_char;
use crate::text::trim_back;
use crate::text::trim_front;
use crate::text::trim_model;
use crate::token::SyntaxError;
use crate::token::lemma_tokens_solid;
use crate::value::Sexp;
use crate::value::bool_model;
use crate::value::display_model;
use crate::value::list_model;
use crate::value::number_model;
use crate::value::raw_model;

verus! {

broadcast use vstd::seq::group_seq_axioms;

/// Nil's four coercions: the number zero, empty raw text, false, and the
/// empty list.
pub proof fn lemma_nil_coercions()
    ensures
        number_model(Sexp::Nil) == 0,
        raw_model(Sexp::Nil) == Seq::<char>::empty(),
        !bool_model(Sexp::Nil),
        list_model(Sexp::Nil) == Seq::<Sexp>::empty(),
{
}

/// A sequence of atoms evaluates to itself, leaving the streams alone:
/// every atom is self-evaluating.
pub proof fn lemma_eval_atoms(l: Seq<Sexp>, io: IoModel, fuel: nat)
    requires
        forall|i: int| 0 <= i < l.len() ==> !((#[trigger] l[i]) is List),
    ensures
        eval_list_model(l, io, fuel) == (Ok::<Seq<Sexp>, Abort>(l), io),
    decreases l.len(),
{
    if l.len() == 0 {
        assert(l =~= Seq::<Sexp>::empty());
    } else {
        let tail = l.subrange(1, l.len() as int);
        lemma_eval_atoms(tail, io, fuel);
        assert(eval_model(l[0], io, fuel) == (Ok::<Sexp, Abort>(l[0]), io));
        assert(seq![l[0]] + tail =~= l);
    }
}

/// The contents of the one-character operator literals.
proof fn lemma_op_literals()
    ensures
        "+"@.len() == 1 && "+"@[0] == '+',
        "-"@.len() == 1 && "-"@[0] == '-',
        "*"@.len() == 1 && "*"@[0] == '*',
        "/"@.len() == 1 && "/"@[0] == '/',
        "%"@.len() == 1 && "%"@[0] == '%',
        "="@.len() == 1 && "="@[0] == '=',
{
    reveal_strlit("+");
    reveal_strlit("-");
    reveal_strlit("*");
    reveal_strlit("/");
    reveal_strlit("%");
    reveal_strlit("=");
}

/// The display text an arithmetic operator answers to.
pub open spec fn arith_name(op: ArithOp) -> Seq<char> {
    match op {
        ArithOp::Add => "+"@,
        ArithOp::Sub => "-"@,
        ArithOp::Mul => "*"@,
        ArithOp::Div => "/"@,
        ArithOp::Rem => "%"@,
    }
}

/// The arithmetic fold law: applying an arithmetic operator to
/// already-evaluated (atomic) arguments gives exactly the left fold of the
/// operator over the arguments' number coercions, starting from the first,
/// and touches no stream.
pub proof fn lemma_arith_fold(op: ArithOp, args: Seq<Sexp>, io: IoModel, fuel: nat)
    requires
        args.len() >= 1,
        forall|i: int| 0 <= i < args.len() ==> !((#[trigger] args[i]) is List),
    ensures
        eval_model(Sexp::List(seq![Sexp::Symbol(arith_name(op))] + args), io, fuel) == (Ok::<
            Sexp,
            Abort,
        >(
            Sexp::Number(
                fold_args(op, number_model(args[0]), args.subrange(1, args.len() as int)),
            ),
        ), io),
{
    lemma_op_literals();
    assert("-"@ != "+"@);
    assert("*"@ != "+"@ && "*"@ != "-"@);
    assert("/"@ != "+"@ && "/"@ != "-"@ && "/"@ != "*"@);
    assert("%"@ != "+"@ && "%"@ != "-"@ && "%"@ != "*"@ && "%"@ != "/"@);
    let l = seq![Sexp::Symbol(arith_name(op))] + args;
    assert forall|i: int| 0 <= i < l.len() implies !((#[trigger] l[i]) is List) by {
        if i > 0 {
            assert(l[i] == args[i - 1]);
        }
    }
    lemma_eval_atoms(l, io, fuel);
    assert(l[0] == Sexp::Symbol(arith_name(op)));
    assert(l.subrange(1, l.len() as int) =~= args);
    assert(display_model(l[0]) == arith_name(op));
    assert(eval_model(Sexp::List(l), io, fuel) == apply_op(arith_name(op), args, io, fuel));
    assert(arith_name(op) != "concat"@ && arith_name(op) != "println"@ && arith_name(op)
        != "print"@ && arith_name(op) != "input"@ && arith_name(op) != "eval"@ && arith_name(op)
        != "if"@ && arith_name(op) != "symbol"@ && arith_name(op) != "exit"@) by {
        reveal_strlit("concat");
        reveal_strlit("println");
        reveal_strlit("print");
        reveal_strlit("input");
        reveal_strlit("eval");
        reveal_strlit("if");
        reveal_strlit("symbol");
        reveal_strlit("exit");
    }
    assert(apply_op(arith_name(op), args, io, fuel) == (Ok::<Sexp, Abort>(
        Sexp::Number(fold_args(op, number_model(args[0]), args.subrange(1, args.len() as int))),
    ), io));
}

/// A value compared with itself under `=` is true, whatever the value:
/// the arguments are atoms, already evaluated, and their display texts
/// coincide. (An argument that is itself a list is evaluated again and may
/// touch the input stream, so the law is stated for atoms.)
pub proof fn lemma_equal_reflexive(a: Sexp, io: IoModel, fuel: nat)
    requires
        !(a is List),
    ensures
        eval_model(Sexp::List(seq![Sexp::Symbol("="@), a, a]), io, fuel) == (Ok::<Sexp, Abort>(
            Sexp::Bool(true),
        ), io),
{
    lemma_op_literals();
    assert("="@ != "+"@ && "="@ != "-"@ && "="@ != "*"@ && "="@ != "/"@ && "="@ != "%"@);
    let l = seq![Sexp::Symbol("="@), a, a];
    assert(forall|i: int| 0 <= i < l.len() ==> !((#[trigger] l[i]) is List));
    lemma_eval_atoms(l, io, fuel);
    let args = l.subrange(1, l.len() as int);
    assert(args.len() == 2 && args[0] == a && args[1] == a);
    assert(display_model(l[0]) == "="@);
    assert(eval_model(Sexp::List(l), io, fuel) == apply_op("="@, args, io, fuel));
    assert forall|i: int| 0 <= i < args.len() implies display_model(#[trigger] args[i])
        == display_model(args[0]) by {}
    assert(apply_op("="@, args, io, fuel) == (Ok::<Sexp, Abort>(Sexp::Bool(true)), io));
}

/// `=` of no arguments at all is true.
pub proof fn lemma_equal_empty(io: IoModel, fuel: nat)
    ensures
        eval_model(Sexp::List(seq![Sexp::Symbol("="@)]), io, fuel) == (Ok::<Sexp, Abort>(
            Sexp::Bool(true),
        ), io),
{
    lemma_op_literals();
    let l = seq![Sexp::Symbol("="@)];
    assert(forall|i: int| 0 <= i < l.len() ==> !((#[trigger] l[i]) is List));
    lemma_eval_atoms(l, io, fuel);
    assert(display_model(l[0]) == "="@);
    let args = l.subrange(1, l.len() as int);
    assert(args.len() == 0);
    assert(eval_model(Sexp::List(l), io, fuel) == apply_op("="@, args, io, fuel));
    assert("="@ != "+"@ && "="@ != "-"@ && "="@ != "*"@ && "="@ != "/"@ && "="@ != "%"@);
    assert(apply_op("="@, args, io, fuel) == (Ok::<Sexp, Abort>(Sexp::Bool(true)), io));
}

/// The windowed ordering comparisons hold vacuously of zero or one
/// arguments.
pub proof fn lemma_cmp_vacuous(op: CmpOp, args: Seq<Sexp>)
    requires
        args.len() <= 1,
    ensures
        pairwise_holds(op, args),
{
}

/// A sequence with no whitespace anywhere trims to itself.
proof fn lemma_trim_solid(s: Seq<char>)
    requires
        forall|i: int| 0 <= i < s.len() ==> !is_space_char(#[trigger] s[i]),
    ensures
        trim_model(s) == s,
{
    if s.len() > 0 {
        assert(!is_space_char(s[0]));
        assert(!is_space_char(s[s.len() - 1]));
    }
    assert(trim_front(s) == s);
    assert(trim_back(s) == s);
}

/// The numeric round-trip law: rendering any number and reading the text
/// back gives the very same number (a NaN reads back as the quiet NaN).
/// The rendered text is the number's display text, so what the reader
/// produces for a rendered number always re-renders to the same text.
pub fn rendered_number_reads_back(b: u64) -> (t: String)
    ensures
        t@ == render_num(b),
        t@ == display_model(Sexp::Number(b)),
        read_model(t@) == Ok::<Sexp, SyntaxError>(
            Sexp::Number(
                if bits_is_nan(b) {
                    QNAN_BITS
                } else {
                    b
                },
            ),
        ),
{
    let t = render_number(b);
    proof {
        assert forall|i: int| 0 <= i < t@.len() implies !is_space_char(#[trigger] t@[i]) by {
            assert(crate::num::render_char(t@[i]));
        }
        lemma_trim_solid(t@);
        assert forall|i: int| 0 <= i < t@.len() implies (#[trigger] t@[i]) != '(' && t@[i] != ')'
            && t@[i] != '"' by {
            assert(crate::num::render_char(t@[i]));
        }
        lemma_tokens_solid(t@);
        assert(crate::num::render_char(t@[0]));
        assert(crate::num::render_char(t@[t@.len() - 1]));
        assert(t@[0] != '(' && t@[0] != '"');
    }
    t
}

} // verus!
