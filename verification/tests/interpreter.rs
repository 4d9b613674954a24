use kajisp::eval::{execute, Abort, Io};
use kajisp::laws::rendered_number_reads_back;
use kajisp::reader::parse;
use kajisp::text::{str_eq, str_lt, trim};
use kajisp::token::{tokenize, SyntaxError};
use kajisp::value::SExpression;

const FUEL: u64 = 1000;

fn run_io(src: &str, lines: Vec<String>) -> (Result<SExpression, Abort>, Io) {
    let program = parse(src).expect("the program is well-formed");
    let mut io = Io::new(lines);
    let r = execute(&program, &mut io, FUEL);
    (r, io)
}

fn run(src: &str) -> SExpression {
    let (r, _) = run_io(src, Vec::new());
    r.expect("the program evaluates to a value")
}

fn shown(src: &str) -> String {
    run(src).get_symbol()
}

#[test]
fn number_literal_round_trips() {
    for text in [
        "3", "3.5", "-1.25", "0", "-0", "100", "0.1", "10000", "0.0001", "1000000000", "inf",
        "-inf", "NaN",
    ] {
        let v = parse(text).unwrap();
        assert_eq!(v.get_symbol(), text);
    }
}

#[test]
fn number_bits_round_trip() {
    for x in [0.0f64, -0.0, 1.5, -3.25, 0.1, 1e9, 12345.6789, 1e-7, f64::INFINITY, f64::NEG_INFINITY] {
        let t = rendered_number_reads_back(x.to_bits());
        let v = parse(&t).unwrap();
        assert_eq!(v.get_number(), x.to_bits());
    }
}

#[test]
fn addition_folds_left() {
    assert_eq!(shown("(+ 1 2 3)"), "6");
    let v = run("(+ 0.5 0.25 0.125)");
    assert_eq!(v.get_number(), (0.5f64 + 0.25 + 0.125).to_bits());
}

#[test]
fn subtraction_folds_left() {
    assert_eq!(shown("(- 10 1 2)"), "7");
    let v = run("(- 1 0.75)");
    assert_eq!(v.get_number(), (1.0f64 - 0.75).to_bits());
}

#[test]
fn multiplication_folds_left() {
    assert_eq!(shown("(* 2 3 4)"), "24");
}

#[test]
fn division_folds_left() {
    assert_eq!(shown("(/ 8 2 2)"), "2");
    let v = run("(/ 1 3)");
    assert_eq!(v.get_number(), (1.0f64 / 3.0).to_bits());
}

#[test]
fn remainder_folds_left() {
    assert_eq!(shown("(% 10 4)"), "2");
    let v = run("(% 7.5 2)");
    assert_eq!(v.get_number(), (7.5f64 % 2.0).to_bits());
}

#[test]
fn arithmetic_coerces_arguments() {
    assert_eq!(shown("(+ true true)"), "2");
    assert_eq!(shown("(+ nil 1)"), "1");
    assert_eq!(shown("(+ abc 1)"), "1");
    assert_eq!(shown("(+ \"2.5\" 1)"), "3.5");
}

#[test]
fn list_coerces_to_its_length() {
    assert_eq!(shown("(+ (symbol 1 2) 1)"), "4");
}

#[test]
fn equal_is_reflexive() {
    assert_eq!(shown("(= 1 1)"), "true");
    assert_eq!(shown("(= a a)"), "true");
    assert_eq!(shown("(= \"x\" \"x\")"), "true");
}

#[test]
fn equal_with_no_arguments_is_true() {
    assert_eq!(shown("(=)"), "true");
}

#[test]
fn equal_compares_display_texts() {
    assert_eq!(shown("(= 1 \"1\")"), "false");
    assert_eq!(shown("(= 1 2)"), "false");
}

#[test]
fn orderings_are_windowed() {
    assert_eq!(shown("(> 3 2 1)"), "true");
    assert_eq!(shown("(> 1 2 3)"), "false");
    assert_eq!(shown("(< 1 2 3)"), "true");
    assert_eq!(shown("(>= 2 2 1)"), "true");
    assert_eq!(shown("(<= 1 1 2)"), "true");
    assert_eq!(shown("(> 2)"), "true");
    assert_eq!(shown("(>)"), "true");
}

#[test]
fn concat_joins_raw_texts() {
    let v = run("(concat \"a\" \"b\" 1)");
    assert_eq!(v.get_string(), "ab1");
    assert!(matches!(v, SExpression::Text(_)));
    assert_eq!(v.get_symbol(), "\"ab1\"");
}

#[test]
fn boolean_operators() {
    assert_eq!(shown("(& true 1 \"x\")"), "true");
    assert_eq!(shown("(& true 0)"), "false");
    assert_eq!(shown("(| false 0)"), "false");
    assert_eq!(shown("(| false 1)"), "true");
    assert_eq!(shown("(&)"), "true");
    assert_eq!(shown("(|)"), "false");
    assert_eq!(shown("(! 0)"), "true");
    assert_eq!(shown("(! true)"), "false");
}

#[test]
fn if_selects_but_evaluates_both_branches() {
    assert_eq!(shown("(if true (+ 1 2) (+ 10 20))"), "3");
    assert_eq!(shown("(if false (+ 1 2) (+ 10 20))"), "30");
    let (r, io) = run_io("(if true (println \"a\") (println \"b\"))", Vec::new());
    assert!(matches!(r, Ok(SExpression::Nil)));
    assert_eq!(io.output, "a\nb\n");
    let (r2, io2) = run_io("(if false (println \"a\") (println \"b\"))", Vec::new());
    assert!(matches!(r2, Ok(SExpression::Nil)));
    assert_eq!(io2.output, "a\nb\n");
}

#[test]
fn if_unwraps_a_list_branch() {
    assert_eq!(shown("(if true (symbol + 1 2) 9)"), "3");
    assert_eq!(shown("(if false 9 (symbol + 1 2))"), "3");
}

#[test]
fn eval_strips_the_tag_and_reduces() {
    assert_eq!(shown("(eval (symbol + 1 2))"), "3");
}

#[test]
fn eval_of_an_atom_is_nil() {
    assert!(matches!(run("(eval 5)"), SExpression::Nil));
    assert!(matches!(run("(eval nil)"), SExpression::Nil));
}

#[test]
fn symbol_tags_its_arguments() {
    assert_eq!(shown("(symbol 1 2)"), "(symbol 1 2)");
}

#[test]
fn unterminated_group_is_a_syntax_error() {
    assert_eq!(parse("(+ 1 2"), Err(SyntaxError::UnterminatedGroup));
}

#[test]
fn unmatched_close_is_a_syntax_error() {
    assert_eq!(parse("(+ 1 2))"), Err(SyntaxError::UnmatchedClose));
    assert_eq!(tokenize(") x".to_string()), Err(SyntaxError::UnmatchedClose));
}

#[test]
fn unterminated_string_is_a_syntax_error() {
    assert_eq!(parse("(concat \"a)"), Err(SyntaxError::UnterminatedString));
}

#[test]
fn empty_input_is_rejected() {
    assert_eq!(parse(""), Err(SyntaxError::EmptyToken));
    assert_eq!(parse("   "), Err(SyntaxError::EmptyToken));
}

#[test]
fn nil_coercions() {
    let v = parse("nil").unwrap();
    assert!(matches!(v, SExpression::Nil));
    assert_eq!(v.get_number(), 0u64);
    assert_eq!(v.get_number(), 0.0f64.to_bits());
    assert_eq!(v.get_string(), "");
    assert!(!v.get_bool());
    assert!(v.get_list().is_empty());
    assert_eq!(v.get_symbol(), "nil");
}

#[test]
fn undefined_operator_aborts() {
    let (r, _) = run_io("(foo 1)", Vec::new());
    assert_eq!(r, Err(Abort::UndefinedOperator));
}

#[test]
fn missing_arguments_abort() {
    assert_eq!(run_io("(+)", Vec::new()).0, Err(Abort::MissingArgument));
    assert_eq!(run_io("(!)", Vec::new()).0, Err(Abort::MissingArgument));
    assert_eq!(run_io("(if true)", Vec::new()).0, Err(Abort::MissingArgument));
    assert_eq!(run_io("(println)", Vec::new()).0, Err(Abort::MissingArgument));
}

#[test]
fn exit_signals_a_halt() {
    assert_eq!(run_io("(exit)", Vec::new()).0, Err(Abort::Exit));
}

#[test]
fn out_of_fuel_aborts() {
    let program = parse("(eval (symbol + 1 2))").unwrap();
    let mut io = Io::new(Vec::new());
    assert_eq!(execute(&program, &mut io, 0), Err(Abort::OutOfFuel));
}

#[test]
fn print_and_println_write_raw_text() {
    let (r, io) = run_io("(print \"x\")", Vec::new());
    assert!(matches!(r, Ok(SExpression::Nil)));
    assert_eq!(io.output, "x");
    let (_, io2) = run_io("(println 1)", Vec::new());
    assert_eq!(io2.output, "1\n");
}

#[test]
fn input_prompts_and_takes_a_trimmed_line() {
    let (r, io) = run_io("(input \"? \")", vec!["  hello  ".to_string()]);
    let v = r.unwrap();
    assert!(matches!(v, SExpression::Text(_)));
    assert_eq!(v.get_string(), "hello");
    assert_eq!(io.output, "? ");
    assert!(io.pending.is_empty());
}

#[test]
fn input_past_the_last_line_is_empty() {
    let (r, _) = run_io("(input \"? \")", Vec::new());
    assert_eq!(r.unwrap().get_string(), "");
}

#[test]
fn empty_list_evaluates_to_nil() {
    assert!(matches!(run("( )"), SExpression::Nil));
    assert!(matches!(run("()"), SExpression::Nil));
}

#[test]
fn nested_arithmetic() {
    assert_eq!(shown("(+ (+ 1 2) 3)"), "6");
    assert_eq!(shown("(* (+ 1 2) (- 5 1))"), "12");
}

#[test]
fn tokenizer_splits_groups_and_strings() {
    let toks = tokenize("a (b c) \"d e\"".to_string()).unwrap();
    assert_eq!(toks, vec!["a", "(b c)", "\"d e\""]);
    let toks2 = tokenize("a\u{3000}b".to_string()).unwrap();
    assert_eq!(toks2, vec!["a", "b"]);
}

#[test]
fn quotes_inside_groups_pass_through() {
    assert_eq!(shown("(= \"a\" \"a\")"), "true");
    assert_eq!(shown("(concat \"a b\" \"c\")"), "\"a bc\"");
}

#[test]
fn display_renders_lists_bracketed() {
    let v = parse("(symbol 1 true \"x\")").unwrap();
    assert_eq!(v.get_symbol(), "(symbol 1 true \"x\")");
}

#[test]
fn duplicate_is_a_deep_copy() {
    let v = parse("(a (b 1) \"c\")").unwrap();
    let w = v.duplicate();
    assert_eq!(v, w);
}

#[test]
fn text_helpers() {
    assert!(str_lt("abc", "abd"));
    assert!(!str_lt("b", "ab"));
    assert!(str_lt("a", "ab"));
    assert!(str_eq("xy", "xy"));
    assert!(!str_eq("xy", "xz"));
    assert_eq!(trim("  x \u{3000}"), "x");
    assert_eq!(trim(""), "");
}

#[test]
fn integers_render_plainly() {
    assert_eq!(shown("(* 100 10)"), "1000");
    assert_eq!(shown("(- 0 0.5)"), "-0.5");
    assert_eq!(shown("(* 1000 10)"), "10000");
    assert_eq!(shown("(/ 1 10000)"), "0.0001");
    assert_eq!(shown("(* 100000 100000)"), "10000000000");
    assert_eq!(shown("(+ 1234.5 0)"), "1234.5");
}

#[test]
fn one_character_tokens_read_as_symbols() {
    assert_eq!(parse("("), Ok(SExpression::Symbol("(".to_string())));
    assert_eq!(parse(")"), Ok(SExpression::Symbol(")".to_string())));
    assert_eq!(parse("\""), Ok(SExpression::Symbol("\"".to_string())));
    assert_eq!(parse("7"), Ok(SExpression::Number(7.0f64.to_bits())));
}

#[test]
fn literal_grammar_follows_the_language() {
    assert!(matches!(parse("Inf").unwrap(), SExpression::Number(_)));
    assert_eq!(shown("(+ Inf 1)"), "inf");
    assert_eq!(shown("(+ INFINITY 0)"), "inf");
    assert_eq!(shown("(- 0 infinity)"), "-inf");
    assert_eq!(shown("(+ NAN 0)"), "NaN");
    assert!(matches!(parse("nan").unwrap(), SExpression::Number(_)));
    assert!(matches!(parse("0x1p3").unwrap(), SExpression::Symbol(_)));
    assert_eq!(shown("(+ 0x1p3 1)"), "1");
    assert!(matches!(parse("5e").unwrap(), SExpression::Symbol(_)));
    assert_eq!(shown("(+ 5e 1)"), "1");
    assert!(matches!(parse("1e3").unwrap(), SExpression::Number(_)));
    assert_eq!(shown("(+ 1e3 0)"), "1000");
    assert!(matches!(parse("5.").unwrap(), SExpression::Number(_)));
    assert!(matches!(parse(".5").unwrap(), SExpression::Number(_)));
    assert!(matches!(parse("1.2.3").unwrap(), SExpression::Symbol(_)));
}

#[test]
fn division_by_zero_follows_binary64() {
    assert_eq!(shown("(/ 1 0)"), "inf");
    assert_eq!(shown("(/ -1 0)"), "-inf");
    assert_eq!(shown("(/ 0 0)"), "NaN");
    assert_eq!(shown("(% 10 0)"), "NaN");
}

#[test]
fn special_values_coerce_to_booleans() {
    assert_eq!(shown("(if (/ 0 0) 1 2)"), "1");
    assert_eq!(shown("(if -0 1 2)"), "2");
}
