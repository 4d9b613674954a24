//! The evaluator: a tree walk that reduces one value to one value. Every
//! element of a list, the head included, is evaluated first, left to right
//! (the eager rule: even the branches of `if` are evaluated before `if`
//! selects one). The head's display text then picks the built-in operator.
//!
//! The run's input and output live in an explicit `Io` value: `print`,
//! `println` and the `input` prompt append to its output text, and `input`
//! takes the next of its pending lines, so the whole evaluation is a pure,
//! fully specified function of the program, the pending input, and a
//! recursion budget that only `eval` and the list-unwrap step of `if`
//! consume.

use vstd::prelude::*;

use crate::num::add_bits;
use crate::num::add_bits_exec;
use crate::num::div_bits;
use crate::num::div_bits_exec;
use crate::num::mul_bits;
use crate::num::mul_bits_exec;
use crate::num::rem_bits;
use crate::num::rem_bits_exec;
use crate::num::sub_bits;
use crate::num::sub_bits_exec;
use crate::text::lex_le;
use crate::text::lex_lt;
use crate::text::str_eq;
use crate::text::str_lt;
use crate::text::trim;
use crate::text::trim_model;
use crate::value::SExpression;
use crate::value::Sexp;
use crate::value::bool_model;
use crate::value::display_model;
use crate::value::list_model;
use crate::value::number_model;
use crate::value::raw_model;
use crate::value::views_of;
use vstd::string::StringExecFns;

verus! {

broadcast use vstd::seq::group_seq_axioms, vstd::std_specs::vec::group_vec_axioms;

/// Why an evaluation ended without a value: a head text that names no
/// operator, a required argument that is missing, the `exit` operator
/// (a deliberate halt, not an error), or an exhausted recursion budget.
#[derive(Debug, Clone, Copy, PartialEq, Eq, Structural)]
pub enum Abort {
    UndefinedOperator,
    MissingArgument,
    Exit,
    OutOfFuel,
}

/// The two streams the evaluator touches, as values: the input lines not
/// yet taken, and the output text written so far.
pub struct IoModel {
    pub future: Seq<Seq<char>>,
    pub output: Seq<char>,
}

/// The runtime counterpart of `IoModel`: pending input lines and the
/// accumulated output.
#[derive(Debug)]
pub struct Io {
    pub pending: Vec<String>,
    pub output: String,
}

impl View for Io {
    type V = IoModel;

    open spec fn view(&self) -> IoModel {
        IoModel { future: self.pending.deep_view(), output: self.output@ }
    }
}

/// Appending text to the output stream.
pub open spec fn io_emit(io: IoModel, s: Seq<char>) -> IoModel {
    IoModel { future: io.future, output: io.output + s }
}

/// The next input line (empty once the lines run out), and the stream
/// after taking it.
pub open spec fn io_take(io: IoModel) -> (Seq<char>, IoModel) {
    if io.future.len() > 0 {
        (io.future[0], IoModel { future: io.future.subrange(1, io.future.len() as int), output: io.output })
    } else {
        (Seq::empty(), io)
    }
}

/// The five arithmetic operators.
#[derive(Debug, Clone, Copy, PartialEq, Eq, Structural)]
pub enum ArithOp {
    Add,
    Sub,
    Mul,
    Div,
    Rem,
}

/// One arithmetic step on binary64 bit patterns.
pub open spec fn arith_bits(op: ArithOp, a: u64, b: u64) -> u64 {
    match op {
        ArithOp::Add => add_bits(a, b),
        ArithOp::Sub => sub_bits(a, b),
        ArithOp::Mul => mul_bits(a, b),
        ArithOp::Div => div_bits(a, b),
        ArithOp::Rem => rem_bits(a, b),
    }
}

/// Left fold of an arithmetic operator over the number coercions of the
/// remaining arguments.
pub open spec fn fold_args(op: ArithOp, acc: u64, args: Seq<Sexp>) -> u64
    decreases args.len(),
{
    if args.len() == 0 {
        acc
    } else {
        fold_args(op, arith_bits(op, acc, number_model(args[0])), args.subrange(1, args.len() as int))
    }
}

/// The four ordering comparisons.
#[derive(Debug, Clone, Copy, PartialEq, Eq, Structural)]
pub enum CmpOp {
    Gt,
    Ge,
    Lt,
    Le,
}

/// One comparison of two display texts, lexicographic by code point.
pub open spec fn cmp_holds(op: CmpOp, a: Seq<char>, b: Seq<char>) -> bool {
    match op {
        CmpOp::Gt => lex_lt(b, a),
        CmpOp::Ge => lex_le(b, a),
        CmpOp::Lt => lex_lt(a, b),
        CmpOp::Le => lex_le(a, b),
    }
}

/// Every argument's display text equals the first one's (vacuously true of
/// no arguments).
pub open spec fn all_texts_equal(args: Seq<Sexp>) -> bool {
    forall|i: int|
        0 <= i < args.len() ==> display_model(#[trigger] args[i]) == display_model(args[0])
}

/// Every adjacent pair of display texts satisfies the comparison
/// (vacuously true of zero or one arguments).
pub open spec fn pairwise_holds(op: CmpOp, args: Seq<Sexp>) -> bool {
    forall|i: int|
        0 <= i < args.len() - 1 ==> cmp_holds(
            op,
            display_model(#[trigger] args[i]),
            display_model(args[i + 1]),
        )
}

/// All boolean coercions are true (vacuously true of no arguments).
pub open spec fn all_bools(args: Seq<Sexp>) -> bool {
    forall|i: int| 0 <= i < args.len() ==> bool_model(#[trigger] args[i])
}

/// Some boolean coercion is true (vacuously false of no arguments).
pub open spec fn any_bool(args: Seq<Sexp>) -> bool {
    exists|i: int| 0 <= i < args.len() && bool_model(#[trigger] args[i])
}

/// The raw texts of the arguments, joined without separator.
pub open spec fn concat_raw(args: Seq<Sexp>) -> Seq<char>
    decreases args.len(),
{
    if args.len() == 0 {
        Seq::empty()
    } else {
        raw_model(args[0]) + concat_raw(args.subrange(1, args.len() as int))
    }
}

/// A sequence without its first element (empty stays empty): the unwrap
/// step that `eval` and `if` apply to a list before re-evaluating it.
pub open spec fn tail_of(l: Seq<Sexp>) -> Seq<Sexp> {
    if l.len() == 0 {
        l
    } else {
        l.subrange(1, l.len() as int)
    }
}

/// The number of nodes in a value tree (at least one).
pub open spec fn sexp_size(v: Sexp) -> nat
    decreases v,
{
    match v {
        Sexp::List(l) => 1 + seq_size(l),
        _ => 1,
    }
}

/// The number of nodes in a sequence of value trees.
pub open spec fn seq_size(l: Seq<Sexp>) -> nat
    decreases l,
{
    if l.len() == 0 {
        0
    } else {
        sexp_size(l[0]) + seq_size(l.subrange(1, l.len() as int))
    }
}

/// What one value evaluates to, with the input and output streams it
/// leaves behind. Atoms evaluate to themselves. A list is evaluated
/// element by element, left to right (each element's stream effects
/// happening in that order), and the head's display text picks the
/// operator. Only `eval` and the unwrap step of `if` re-enter the
/// evaluator on a freshly built value; each such step costs one unit of
/// fuel, and an exhausted budget aborts with `OutOfFuel`.
pub open spec fn eval_model(v: Sexp, io: IoModel, fuel: nat) -> (Result<Sexp, Abort>, IoModel)
    decreases fuel, sexp_size(v), 0int,
{
    match v {
        Sexp::List(l) => {
            let (rl, io1) = eval_list_model(l, io, fuel);
            match rl {
                Ok(vs) => if vs.len() == 0 {
                    (Ok(Sexp::Nil), io1)
                } else {
                    apply_op(display_model(vs[0]), vs.subrange(1, vs.len() as int), io1, fuel)
                },
                Err(e) => (Err(e), io1),
            }
        },
        _ => (Ok(v), io),
    }
}

/// The values of a sequence of forms, evaluated left to right; the first
/// abort wins, keeping the streams it saw.
pub open spec fn eval_list_model(l: Seq<Sexp>, io: IoModel, fuel: nat) -> (Result<Seq<Sexp>, Abort>, IoModel)
    decreases fuel, seq_size(l), 1int,
    via eval_list_model_decreases
{
    if l.len() == 0 {
        (Ok(Seq::empty()), io)
    } else {
        let (r0, io1) = eval_model(l[0], io, fuel);
        match r0 {
            Ok(v) => {
                let (rr, io2) = eval_list_model(l.subrange(1, l.len() as int), io1, fuel);
                match rr {
                    Ok(vs) => (Ok(seq![v] + vs), io2),
                    Err(e) => (Err(e), io2),
                }
            },
            Err(e) => (Err(e), io1),
        }
    }
}

#[via_fn]
proof fn eval_list_model_decreases(l: Seq<Sexp>, io: IoModel, fuel: nat) {
    if l.len() > 0 {
        assert(sexp_size(l[0]) >= 1);
    }
}

/// The operator table: what the head text does with the (already
/// evaluated) arguments.
pub open spec fn apply_op(head: Seq<char>, args: Seq<Sexp>, io: IoModel, fuel: nat) -> (Result<Sexp, Abort>, IoModel)
    decreases fuel, 0int, 0int,
{
    if head == "+"@ {
        (apply_arith(ArithOp::Add, args), io)
    } else if head == "-"@ {
        (apply_arith(ArithOp::Sub, args), io)
    } else if head == "*"@ {
        (apply_arith(ArithOp::Mul, args), io)
    } else if head == "/"@ {
        (apply_arith(ArithOp::Div, args), io)
    } else if head == "%"@ {
        (apply_arith(ArithOp::Rem, args), io)
    } else if head == "="@ {
        (Ok(Sexp::Bool(all_texts_equal(args))), io)
    } else if head == ">"@ {
        (Ok(Sexp::Bool(pairwise_holds(CmpOp::Gt, args))), io)
    } else if head == ">="@ {
        (Ok(Sexp::Bool(pairwise_holds(CmpOp::Ge, args))), io)
    } else if head == "<"@ {
        (Ok(Sexp::Bool(pairwise_holds(CmpOp::Lt, args))), io)
    } else if head == "<="@ {
        (Ok(Sexp::Bool(pairwise_holds(CmpOp::Le, args))), io)
    } else if head == "&"@ {
        (Ok(Sexp::Bool(all_bools(args))), io)
    } else if head == "|"@ {
        (Ok(Sexp::Bool(any_bool(args))), io)
    } else if head == "!"@ {
        if args.len() == 0 {
            (Err(Abort::MissingArgument), io)
        } else {
            (Ok(Sexp::Bool(!bool_model(args[0]))), io)
        }
    } else if head == "concat"@ {
        (Ok(Sexp::Text(concat_raw(args))), io)
    } else if head == "println"@ {
        if args.len() == 0 {
            (Err(Abort::MissingArgument), io)
        } else {
            (Ok(Sexp::Nil), io_emit(io, raw_model(args[0]) + seq!['\n']))
        }
    } else if head == "print"@ {
        if args.len() == 0 {
            (Err(Abort::MissingArgument), io)
        } else {
            (Ok(Sexp::Nil), io_emit(io, raw_model(args[0])))
        }
    } else if head == "input"@ {
        if args.len() == 0 {
            (Err(Abort::MissingArgument), io)
        } else {
            let (line, io2) = io_take(io_emit(io, raw_model(args[0])));
            (Ok(Sexp::Text(trim_model(line))), io2)
        }
    } else if head == "eval"@ {
        if args.len() == 0 {
            (Err(Abort::MissingArgument), io)
        } else if fuel == 0 {
            (Err(Abort::OutOfFuel), io)
        } else {
            eval_model(Sexp::List(tail_of(list_model(args[0]))), io, (fuel - 1) as nat)
        }
    } else if head == "if"@ {
        if args.len() == 0 {
            (Err(Abort::MissingArgument), io)
        } else {
            let chosen: int = if bool_model(args[0]) {
                1
            } else {
                2
            };
            if args.len() <= chosen {
                (Err(Abort::MissingArgument), io)
            } else {
                match args[chosen] {
                    Sexp::List(bl) => if fuel == 0 {
                        (Err(Abort::OutOfFuel), io)
                    } else {
                        eval_model(Sexp::List(tail_of(bl)), io, (fuel - 1) as nat)
                    },
                    _ => (Ok(args[chosen]), io),
                }
            }
        }
    } else if head == "symbol"@ {
        (Ok(Sexp::List(seq![Sexp::Symbol("symbol"@)] + args)), io)
    } else if head == "exit"@ {
        (Err(Abort::Exit), io)
    } else {
        (Err(Abort::UndefinedOperator), io)
    }
}

/// The arithmetic operators: the left fold of the operator over the number
/// coercions, starting from the first argument, which must be there.
pub open spec fn apply_arith(op: ArithOp, args: Seq<Sexp>) -> Result<Sexp, Abort> {
    if args.len() == 0 {
        Err(Abort::MissingArgument)
    } else {
        Ok(Sexp::Number(fold_args(op, number_model(args[0]), args.subrange(1, args.len() as int))))
    }
}

} // verus!

verus! {

impl Io {
    /// A fresh pair of streams: the given input lines, no output yet.
    pub fn new(lines: Vec<String>) -> (r: Io)
        ensures
            r@.future == lines.deep_view(),
            r@.output == Seq::<char>::empty(),
    {
        Io { pending: lines, output: String::new() }
    }

    /// Append text to the output stream.
    pub fn emit(&mut self, s: &str)
        ensures
            final(self)@ == io_emit(old(self)@, s@),
    {
        self.output.append(s);
    }

    /// Take the next input line; once the lines run out, every further
    /// line is empty.
    pub fn take_line(&mut self) -> (r: String)
        ensures
            ({
                let (line, io2) = io_take(old(self)@);
                r@ == line && final(self)@ == io2
            }),
    {
        if self.pending.len() > 0 {
            let line = self.pending.remove(0);
            proof {
                assert(self.pending.deep_view() =~= old(self).pending.deep_view().subrange(
                    1,
                    old(self).pending.deep_view().len() as int,
                ));
            }
            line
        } else {
            String::new()
        }
    }
}

/// One arithmetic step on bit patterns.
fn arith_step(op: ArithOp, a: u64, b: u64) -> (r: u64)
    ensures
        r == arith_bits(op, a, b),
{
    match op {
        ArithOp::Add => add_bits_exec(a, b),
        ArithOp::Sub => sub_bits_exec(a, b),
        ArithOp::Mul => mul_bits_exec(a, b),
        ArithOp::Div => div_bits_exec(a, b),
        ArithOp::Rem => rem_bits_exec(a, b),
    }
}

/// Folding one more argument on the right.
proof fn lemma_fold_push(op: ArithOp, acc: u64, s: Seq<Sexp>, x: Sexp)
    ensures
        fold_args(op, acc, s.push(x)) == arith_bits(op, fold_args(op, acc, s), number_model(x)),
    decreases s.len(),
{
    let sx = s.push(x);
    if s.len() == 0 {
        assert(sx[0] == x);
        assert(sx.subrange(1, sx.len() as int) =~= Seq::<Sexp>::empty());
        assert(fold_args(op, arith_bits(op, acc, number_model(x)), Seq::<Sexp>::empty())
            == arith_bits(op, acc, number_model(x)));
        assert(fold_args(op, acc, Seq::<Sexp>::empty()) == acc);
        assert(fold_args(op, acc, sx) == arith_bits(op, acc, number_model(x)));
    } else {
        assert(sx[0] == s[0]);
        assert(sx.subrange(1, sx.len() as int) =~= s.subrange(1, s.len() as int).push(x));
        lemma_fold_push(op, arith_bits(op, acc, number_model(s[0])), s.subrange(1, s.len() as int), x);
        assert(fold_args(op, acc, sx) == fold_args(
            op,
            arith_bits(op, acc, number_model(s[0])),
            s.subrange(1, s.len() as int).push(x),
        ));
        assert(fold_args(op, acc, s) == fold_args(
            op,
            arith_bits(op, acc, number_model(s[0])),
            s.subrange(1, s.len() as int),
        ));
    }
}

/// Concatenating one more raw text on the right.
proof fn lemma_concat_push(s: Seq<Sexp>, x: Sexp)
    ensures
        concat_raw(s.push(x)) == concat_raw(s) + raw_model(x),
    decreases s.len(),
{
    let sx = s.push(x);
    if s.len() == 0 {
        assert(sx[0] == x);
        assert(sx.subrange(1, sx.len() as int) =~= Seq::<Sexp>::empty());
        assert(concat_raw(Seq::<Sexp>::empty()) == Seq::<char>::empty());
        assert(concat_raw(sx) == raw_model(x) + Seq::<char>::empty());
        assert(raw_model(x) + Seq::<char>::empty() =~= raw_model(x));
        assert(concat_raw(s) + raw_model(x) =~= raw_model(x));
    } else {
        assert(sx[0] == s[0]);
        assert(sx.subrange(1, sx.len() as int) =~= s.subrange(1, s.len() as int).push(x));
        lemma_concat_push(s.subrange(1, s.len() as int), x);
        assert(raw_model(s[0]) + (concat_raw(s.subrange(1, s.len() as int)) + raw_model(x)) =~= (
        raw_model(s[0]) + concat_raw(s.subrange(1, s.len() as int))) + raw_model(x));
    }
}

/// The arithmetic operators: a left fold over the number coercions of the
/// arguments (the evaluated elements after the head), which must not be
/// empty.
#[verifier::loop_isolation(false)]
fn op_arith(op: ArithOp, results: &Vec<SExpression>) -> (r: Result<SExpression, Abort>)
    requires
        results@.len() >= 1,
    ensures
        ({
            let vs = views_of(results@);
            let m = apply_arith(op, vs.subrange(1, vs.len() as int));
            match (r, m) {
                (Ok(v), Ok(mv)) => v@ == mv,
                (Err(e), Err(me)) => e == me,
                _ => false,
            }
        }),
{
    let ghost vs = views_of(results@);
    let ghost args = vs.subrange(1, vs.len() as int);
    let n = results.len();
    if n == 1 {
        return Err(Abort::MissingArgument);
    }
    let mut acc = results[1].get_number();
    let mut k: usize = 2;
    proof {
        assert(vs.subrange(2, 2) =~= Seq::<Sexp>::empty());
    }
    while k < n
        invariant
            2 <= k <= n,
            acc == fold_args(op, number_model(vs[1]), vs.subrange(2, k as int)),
        decreases n - k,
    {
        let b = results[k].get_number();
        acc = arith_step(op, acc, b);
        proof {
            lemma_fold_push(op, number_model(vs[1]), vs.subrange(2, k as int), vs[k as int]);
            assert(vs.subrange(2, k as int).push(vs[k as int]) =~= vs.subrange(2, k + 1));
        }
        k = k + 1;
    }
    proof {
        assert(args[0] == vs[1]);
        assert(args.subrange(1, args.len() as int) =~= vs.subrange(2, n as int));
    }
    Ok(SExpression::Number(acc))
}

/// The `=` operator: every argument's display text equals the first one's.
#[verifier::loop_isolation(false)]
fn op_equal(results: &Vec<SExpression>) -> (r: bool)
    requires
        results@.len() >= 1,
    ensures
        ({
            let vs = views_of(results@);
            r == all_texts_equal(vs.subrange(1, vs.len() as int))
        }),
{
    let ghost vs = views_of(results@);
    let ghost args = vs.subrange(1, vs.len() as int);
    let n = results.len();
    if n == 1 {
        proof {
            assert(all_texts_equal(args));
        }
        return true;
    }
    let first = results[1].get_symbol();
    let mut ok = true;
    let mut k: usize = 1;
    while k < n
        invariant
            1 <= k <= n,
            ok == (forall|j: int| 1 <= j < k ==> display_model(#[trigger] vs[j]) == display_model(vs[1])),
        decreases n - k,
    {
        let t = results[k].get_symbol();
        let same = str_eq(t.as_str(), first.as_str());
        proof {
            assert(vs[1] == results@[1]@);
            assert(vs[k as int] == results@[k as int]@);
            assert(same == (display_model(vs[k as int]) == display_model(vs[1])));
            if ok && same {
                assert forall|j: int| 1 <= j < k + 1 implies display_model(#[trigger] vs[j])
                    == display_model(vs[1]) by {}
            } else if !ok {
                let j0 = choose|j: int| 1 <= j < k && display_model(#[trigger] vs[j])
                    != display_model(vs[1]);
                assert(display_model(vs[j0]) != display_model(vs[1]));
            } else {
                assert(display_model(vs[k as int]) != display_model(vs[1]));
            }
        }
        ok = ok && same;
        k = k + 1;
    }
    proof {
        if ok {
            assert forall|i: int| 0 <= i < args.len() implies display_model(#[trigger] args[i])
                == display_model(args[0]) by {
                assert(args[i] == vs[i + 1]);
                assert(args[0] == vs[1]);
            }
        } else {
            let j = choose|j: int| 1 <= j < n && display_model(#[trigger] vs[j]) != display_model(vs[1]);
            assert(args[j - 1] == vs[j]);
            assert(!all_texts_equal(args));
        }
    }
    ok
}

/// One ordering comparison of two display texts.
fn cmp_step(op: CmpOp, a: &str, b: &str) -> (r: bool)
    ensures
        r == cmp_holds(op, a@, b@),
{
    match op {
        CmpOp::Gt => str_lt(b, a),
        CmpOp::Ge => {
            let lt = str_lt(b, a);
            lt || str_eq(b, a)
        },
        CmpOp::Lt => str_lt(a, b),
        CmpOp::Le => {
            let lt = str_lt(a, b);
            lt || str_eq(a, b)
        },
    }
}

/// The ordering operators: every adjacent pair of display texts satisfies
/// the comparison.
#[verifier::loop_isolation(false)]
fn op_cmp(op: CmpOp, results: &Vec<SExpression>) -> (r: bool)
    requires
        results@.len() >= 1,
    ensures
        ({
            let vs = views_of(results@);
            r == pairwise_holds(op, vs.subrange(1, vs.len() as int))
        }),
{
    let ghost vs = views_of(results@);
    let ghost args = vs.subrange(1, vs.len() as int);
    let n = results.len();
    if n <= 2 {
        proof {
            assert(pairwise_holds(op, args));
        }
        return true;
    }
    let mut ok = true;
    let mut k: usize = 1;
    while k < n - 1
        invariant
            1 <= k <= n - 1,
            ok == (forall|j: int| 1 <= j < k ==> cmp_holds(
                op,
                display_model(#[trigger] vs[j]),
                display_model(vs[j + 1]),
            )),
        decreases n - k,
    {
        let a = results[k].get_symbol();
        let b = results[k + 1].get_symbol();
        let holds = cmp_step(op, a.as_str(), b.as_str());
        proof {
            assert(vs[k as int] == results@[k as int]@);
            assert(vs[k + 1] == results@[k + 1]@);
            assert(holds == cmp_holds(op, display_model(vs[k as int]), display_model(vs[k + 1])));
            if ok && holds {
                assert forall|j: int| 1 <= j < k + 1 implies cmp_holds(
                    op,
                    display_model(#[trigger] vs[j]),
                    display_model(vs[j + 1]),
                ) by {}
            } else if !ok {
                let j0 = choose|j: int| 1 <= j < k && !cmp_holds(
                    op,
                    display_model(#[trigger] vs[j]),
                    display_model(vs[j + 1]),
                );
                assert(!cmp_holds(op, display_model(vs[j0]), display_model(vs[j0 + 1])));
            } else {
                assert(!cmp_holds(op, display_model(vs[k as int]), display_model(vs[k + 1])));
            }
        }
        ok = ok && holds;
        k = k + 1;
    }
    proof {
        if ok {
            assert forall|i: int| 0 <= i < args.len() - 1 implies cmp_holds(
                op,
                display_model(#[trigger] args[i]),
                display_model(args[i + 1]),
            ) by {
                assert(args[i] == vs[i + 1]);
                assert(args[i + 1] == vs[i + 2]);
            }
        } else {
            let j = choose|j: int| 1 <= j < n - 1 && !cmp_holds(
                op,
                display_model(#[trigger] vs[j]),
                display_model(vs[j + 1]),
            );
            assert(args[j - 1] == vs[j]);
            assert(args[j] == vs[j + 1]);
            assert(!pairwise_holds(op, args));
        }
    }
    ok
}

/// The `&` operator: the logical AND over the boolean coercions.
#[verifier::loop_isolation(false)]
fn op_all(results: &Vec<SExpression>) -> (r: bool)
    requires
        results@.len() >= 1,
    ensures
        ({
            let vs = views_of(results@);
            r == all_bools(vs.subrange(1, vs.len() as int))
        }),
{
    let ghost vs = views_of(results@);
    let ghost args = vs.subrange(1, vs.len() as int);
    let n = results.len();
    let mut ok = true;
    let mut k: usize = 1;
    while k < n
        invariant
            1 <= k <= n,
            ok == (forall|j: int| 1 <= j < k ==> bool_model(#[trigger] vs[j])),
        decreases n - k,
    {
        let b = results[k].get_bool();
        proof {
            assert(vs[k as int] == results@[k as int]@);
            assert(b == bool_model(vs[k as int]));
            if ok && b {
                assert forall|j: int| 1 <= j < k + 1 implies bool_model(#[trigger] vs[j]) by {}
            } else if !ok {
                let j0 = choose|j: int| 1 <= j < k && !bool_model(#[trigger] vs[j]);
                assert(!bool_model(vs[j0]));
            } else {
                assert(!bool_model(vs[k as int]));
            }
        }
        ok = ok && b;
        k = k + 1;
    }
    proof {
        if ok {
            assert forall|i: int| 0 <= i < args.len() implies bool_model(#[trigger] args[i]) by {
                assert(args[i] == vs[i + 1]);
            }
        } else {
            let j = choose|j: int| 1 <= j < n && !bool_model(#[trigger] vs[j]);
            assert(args[j - 1] == vs[j]);
            assert(!all_bools(args));
        }
    }
    ok
}

/// The `|` operator: the logical OR over the boolean coercions.
#[verifier::loop_isolation(false)]
fn op_any(results: &Vec<SExpression>) -> (r: bool)
    requires
        results@.len() >= 1,
    ensures
        ({
            let vs = views_of(results@);
            r == any_bool(vs.subrange(1, vs.len() as int))
        }),
{
    let ghost vs = views_of(results@);
    let ghost args = vs.subrange(1, vs.len() as int);
    let n = results.len();
    let mut found = false;
    let mut k: usize = 1;
    while k < n
        invariant
            1 <= k <= n,
            found == (exists|j: int| 1 <= j < k && bool_model(#[trigger] vs[j])),
        decreases n - k,
    {
        let b = results[k].get_bool();
        proof {
            assert(vs[k as int] == results@[k as int]@);
            assert(b == bool_model(vs[k as int]));
            if found {
                let j0 = choose|j: int| 1 <= j < k && bool_model(#[trigger] vs[j]);
                assert(1 <= j0 < k + 1 && bool_model(vs[j0]));
            } else if b {
                assert(1 <= k < k + 1 && bool_model(vs[k as int]));
            } else {
                assert forall|j: int| 1 <= j < k + 1 && bool_model(#[trigger] vs[j]) implies false by {}
            }
        }
        found = found || b;
        k = k + 1;
    }
    proof {
        if found {
            let j = choose|j: int| 1 <= j < n && bool_model(#[trigger] vs[j]);
            assert(args[j - 1] == vs[j]);
            assert(any_bool(args));
        } else {
            if any_bool(args) {
                let i = choose|i: int| 0 <= i < args.len() && bool_model(#[trigger] args[i]);
                assert(args[i] == vs[i + 1]);
            }
        }
    }
    found
}

/// The `concat` operator: the raw texts of the arguments, joined without
/// separator.
#[verifier::loop_isolation(false)]
fn op_concat(results: &Vec<SExpression>) -> (r: String)
    requires
        results@.len() >= 1,
    ensures
        ({
            let vs = views_of(results@);
            r@ == concat_raw(vs.subrange(1, vs.len() as int))
        }),
{
    let ghost vs = views_of(results@);
    let ghost args = vs.subrange(1, vs.len() as int);
    let n = results.len();
    let mut out = String::new();
    let mut k: usize = 1;
    proof {
        assert(vs.subrange(1, 1) =~= Seq::<Sexp>::empty());
    }
    while k < n
        invariant
            1 <= k <= n,
            out@ == concat_raw(vs.subrange(1, k as int)),
        decreases n - k,
    {
        let piece = results[k].get_string();
        out.append(piece.as_str());
        proof {
            lemma_concat_push(vs.subrange(1, k as int), vs[k as int]);
            assert(vs.subrange(1, k as int).push(vs[k as int]) =~= vs.subrange(1, k + 1));
        }
        k = k + 1;
    }
    proof {
        assert(vs.subrange(1, n as int) == args);
    }
    out
}

/// Evaluate one value with the given streams and recursion budget.
#[verifier::rlimit(100)]
pub fn execute(program: &SExpression, io: &mut Io, fuel: u64) -> (r: Result<SExpression, Abort>)
    ensures
        ({
            let (m, io2) = eval_model(program@, old(io)@, fuel as nat);
            &&& final(io)@ == io2
            &&& match (r, m) {
                (Ok(v), Ok(mv)) => v@ == mv,
                (Err(e), Err(me)) => e == me,
                _ => false,
            }
        }),
    decreases fuel, sexp_size(program@), 0int,
{
    let l = match program {
        SExpression::List(l) => l,
        _ => {
            return Ok(program.duplicate());
        },
    };
    proof {
        assert(views_of(l@).subrange(0, l@.len() as int) =~= views_of(l@));
        assert(sexp_size(program@) == 1 + seq_size(views_of(l@)));
    }
    let results = match execute_list(l, 0, io, fuel) {
        Ok(rs) => rs,
        Err(e) => {
            return Err(e);
        },
    };
    let ghost io1 = io@;
    let ghost vs = views_of(results@);
    let ghost args = vs.subrange(1, vs.len() as int);
    if results.len() == 0 {
        return Ok(SExpression::Nil);
    }
    let head = results[0].get_symbol();
    let h = head.as_str();
    if str_eq(h, "+") {
        op_arith(ArithOp::Add, &results)
    } else if str_eq(h, "-") {
        op_arith(ArithOp::Sub, &results)
    } else if str_eq(h, "*") {
        op_arith(ArithOp::Mul, &results)
    } else if str_eq(h, "/") {
        op_arith(ArithOp::Div, &results)
    } else if str_eq(h, "%") {
        op_arith(ArithOp::Rem, &results)
    } else if str_eq(h, "=") {
        Ok(SExpression::Bool(op_equal(&results)))
    } else if str_eq(h, ">") {
        Ok(SExpression::Bool(op_cmp(CmpOp::Gt, &results)))
    } else if str_eq(h, ">=") {
        Ok(SExpression::Bool(op_cmp(CmpOp::Ge, &results)))
    } else if str_eq(h, "<") {
        Ok(SExpression::Bool(op_cmp(CmpOp::Lt, &results)))
    } else if str_eq(h, "<=") {
        Ok(SExpression::Bool(op_cmp(CmpOp::Le, &results)))
    } else if str_eq(h, "&") {
        Ok(SExpression::Bool(op_all(&results)))
    } else if str_eq(h, "|") {
        Ok(SExpression::Bool(op_any(&results)))
    } else if str_eq(h, "!") {
        if results.len() < 2 {
            Err(Abort::MissingArgument)
        } else {
            proof {
                assert(args[0] == vs[1]);
            }
            Ok(SExpression::Bool(!results[1].get_bool()))
        }
    } else if str_eq(h, "concat") {
        Ok(SExpression::Text(op_concat(&results)))
    } else if str_eq(h, "println") {
        if results.len() < 2 {
            Err(Abort::MissingArgument)
        } else {
            let txt = results[1].get_string();
            io.emit(txt.as_str());
            io.emit("\n");
            proof {
                reveal_strlit("\n");
                assert(args[0] == vs[1]);
                assert("\n"@ =~= seq!['\n']);
                assert(io@.output =~= io1.output + (raw_model(args[0]) + seq!['\n']));
                assert(io@ == io_emit(io1, raw_model(args[0]) + seq!['\n']));
            }
            Ok(SExpression::Nil)
        }
    } else if str_eq(h, "print") {
        if results.len() < 2 {
            Err(Abort::MissingArgument)
        } else {
            let txt = results[1].get_string();
            io.emit(txt.as_str());
            proof {
                assert(args[0] == vs[1]);
            }
            Ok(SExpression::Nil)
        }
    } else if str_eq(h, "input") {
        if results.len() < 2 {
            Err(Abort::MissingArgument)
        } else {
            let prompt = results[1].get_string();
            io.emit(prompt.as_str());
            let line = io.take_line();
            let trimmed = trim(line.as_str());
            proof {
                assert(args[0] == vs[1]);
            }
            Ok(SExpression::Text(String::from_str(trimmed)))
        }
    } else if str_eq(h, "eval") {
        if results.len() < 2 {
            Err(Abort::MissingArgument)
        } else if fuel == 0 {
            Err(Abort::OutOfFuel)
        } else {
            let mut lv = results[1].get_list();
            if lv.len() > 0 {
                let ghost before = lv@;
                let _ = lv.remove(0);
                proof {
                    assert(views_of(lv@) =~= views_of(before).subrange(
                        1,
                        views_of(before).len() as int,
                    ));
                }
            }
            let newv = SExpression::List(lv);
            proof {
                assert(args[0] == vs[1]);
                assert(newv@ == Sexp::List(tail_of(list_model(args[0]))));
            }
            execute(&newv, io, fuel - 1)
        }
    } else if str_eq(h, "if") {
        if results.len() < 2 {
            Err(Abort::MissingArgument)
        } else {
            proof {
                assert(args[0] == vs[1]);
            }
            let cond = results[1].get_bool();
            let j: usize = if cond {
                2
            } else {
                3
            };
            if results.len() <= j {
                Err(Abort::MissingArgument)
            } else {
                proof {
                    assert(args[j - 1] == vs[j as int]);
                }
                let chosen = &results[j];
                match chosen {
                    SExpression::List(_) => {
                        if fuel == 0 {
                            Err(Abort::OutOfFuel)
                        } else {
                            let mut lv = chosen.get_list();
                            if lv.len() > 0 {
                                let ghost before = lv@;
                                let _ = lv.remove(0);
                                proof {
                                    assert(views_of(lv@) =~= views_of(before).subrange(
                                        1,
                                        views_of(before).len() as int,
                                    ));
                                }
                            }
                            let newv = SExpression::List(lv);
                            proof {
                                assert(newv@ == Sexp::List(
                                    tail_of(vs[j as int]->List_0),
                                ));
                            }
                            execute(&newv, io, fuel - 1)
                        }
                    },
                    _ => Ok(chosen.duplicate()),
                }
            }
        }
    } else if str_eq(h, "symbol") {
        let mut out: Vec<SExpression> = Vec::new();
        out.push(SExpression::Symbol(String::from_str("symbol")));
        let n = results.len();
        let mut k: usize = 1;
        while k < n
            invariant
                1 <= k <= n,
                n == results@.len(),
                vs == views_of(results@),
                out@.len() == k,
                out@[0]@ == Sexp::Symbol("symbol"@),
                forall|j: int| 1 <= j < k ==> out@[j]@ == vs[j],
            decreases n - k,
        {
            out.push(results[k].duplicate());
            k = k + 1;
        }
        proof {
            assert(views_of(out@) =~= seq![Sexp::Symbol("symbol"@)] + args);
        }
        Ok(SExpression::List(out))
    } else if str_eq(h, "exit") {
        Err(Abort::Exit)
    } else {
        Err(Abort::UndefinedOperator)
    }
}

/// Evaluate the elements from position `i` on, left to right, threading
/// the streams through.
fn execute_list(l: &Vec<SExpression>, i: usize, io: &mut Io, fuel: u64) -> (r: Result<
    Vec<SExpression>,
    Abort,
>)
    requires
        i <= l@.len(),
    ensures
        ({
            let (m, io2) = eval_list_model(
                views_of(l@).subrange(i as int, l@.len() as int),
                old(io)@,
                fuel as nat,
            );
            &&& final(io)@ == io2
            &&& match (r, m) {
                (Ok(v), Ok(vs)) => views_of(v@) == vs,
                (Err(e), Err(me)) => e == me,
                _ => false,
            }
        }),
    decreases fuel, seq_size(views_of(l@).subrange(i as int, l@.len() as int)), 1int,
{
    let ghost rest = views_of(l@).subrange(i as int, l@.len() as int);
    if i == l.len() {
        let out: Vec<SExpression> = Vec::new();
        proof {
            assert(views_of(out@) =~= Seq::<Sexp>::empty());
        }
        Ok(out)
    } else {
        proof {
            assert(rest[0] == l@[i as int]@);
            assert(rest.subrange(1, rest.len() as int) =~= views_of(l@).subrange(
                i + 1,
                l@.len() as int,
            ));
            assert(seq_size(rest) == sexp_size(rest[0]) + seq_size(
                rest.subrange(1, rest.len() as int),
            ));
            assert(sexp_size(rest[0]) >= 1);
        }
        match execute(&l[i], io, fuel) {
            Ok(v) => {
                match execute_list(l, i + 1, io, fuel) {
                    Ok(mut vals) => {
                        vals.insert(0, v);
                        proof {
                            let (m, _) = eval_list_model(rest, old(io)@, fuel as nat);
                            match m {
                                Ok(mvs) => {
                                    assert(views_of(vals@) =~= mvs);
                                },
                                Err(_) => {},
                            }
                        }
                        Ok(vals)
                    },
                    Err(e) => Err(e),
                }
            },
            Err(e) => Err(e),
        }
    }
}

} // verus!
