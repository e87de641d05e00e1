use bprog::eval::evaluate;
use bprog::interpret;
use bprog::chars_of;
use bprog::value::{format_value, ProgramError};

fn run(line: &str) -> String {
    match interpret(line) {
        Ok(v) => format_value(&v).iter().collect(),
        Err(e) => format!("{:?}", e),
    }
}

fn check(cases: &[(&str, &str)]) {
    for (input, expected) in cases {
        assert_eq!(run(input), *expected, "input: {}", input);
    }
}

#[test]
fn literals() {
    check(&[
        ("3", "3"),
        ("121231324135634563456363567", "121231324135634563456363567"),
        ("1.0", "1.0"),
        ("0.0", "0.0"),
        ("-1", "-1"),
        ("-1.1", "-1.1"),
        ("False", "False"),
        ("True", "True"),
        ("[ [ ] [ ] ]", "[[ ],[ ]]"),
        ("[ False [ ] True [ 1 2 ] ]", "[False,[ ],True,[1,2]]"),
        ("\" [ so { not if ] and } \"", "\" [ so { not if ] and } \""),
    ]);
}

#[test]
fn arithmetic() {
    check(&[
        ("1 1 +", "2"),
        ("10 20 *", "200"),
        ("20 2 div", "10"),
        ("20 2 /", "10.0"),
        ("1 1.0 +", "2.0"),
        ("10 20.0 *", "200.0"),
        ("20 2.0 div", "10"),
        ("20.0 2.0 div", "10"),
    ]);
}

#[test]
fn logic_and_comparison() {
    check(&[
        ("False False &&", "False"),
        ("False True ||", "True"),
        ("False not", "True"),
        ("True not", "False"),
        ("20 10 <", "False"),
        ("20 10 >", "True"),
        ("20 10.0 >", "True"),
        ("20.0 20.0 >", "False"),
        ("10 10 ==", "True"),
        ("10 10.0 ==", "True"),
        ("True True ==", "True"),
        ("True 40 40 == ==", "True"),
        ("\" abba \" \" abba \" ==", "True"),
        ("[ ] [ ] ==", "True"),
        ("[ 1 2 ] [ 1 2 ] ==", "True"),
        ("[ [ ] ] [ [ ] ] ==", "True"),
    ]);
}

#[test]
fn stack_operations() {
    check(&[
        ("10 20 swap pop", "20"),
        ("10 dup dup + swap pop", "20"),
        ("10 20 swap dup + div", "1"),
    ]);
}

#[test]
fn lengths_and_parsing() {
    check(&[
        ("\" hello \" length", "5"),
        ("\" hello world \" length", "11"),
        ("[ 1 2 3 [ ] ] length", "4"),
        ("{ 10 20 + } length", "3"),
        ("\" 12 \" parseInteger", "12"),
        ("\" 12.34 \" parseFloat", "12.34"),
        ("\" adam bob charlie \" words", "[\" adam \",\" bob \",\" charlie \"]"),
    ]);
}

#[test]
fn lists() {
    check(&[
        ("[ 1 2 3 ]", "[1,2,3]"),
        ("[ 1 \" bob \" ]", "[1,\" bob \"]"),
        ("[ 1 2 ] empty", "False"),
        ("[ ] empty", "True"),
        ("[ 1 2 3 ] head", "1"),
        ("[ 1 2 3 ] length", "3"),
        ("[ 1 2 3 ] tail", "[2,3]"),
        ("1 [ ] cons", "[1]"),
        ("1 [ 2 3 ] cons", "[1,2,3]"),
        ("[ 1 2 ] [ ] append", "[1,2]"),
        ("[ 1 ] [ 2 3 ] append", "[1,2,3]"),
        ("[ 1 ] [ 2 3 ] cons", "[[1],2,3]"),
    ]);
}

#[test]
fn conditionals() {
    check(&[
        ("True if { 20 } { }", "20"),
        ("True if { 20 10 + } { 3 }", "30"),
        ("10 5 5 == if { 10 + } { 100 + }", "20"),
        ("False if { } { 45 }", "45"),
        ("True if { False if { 50 } { 100 } } { 30 }", "100"),
        ("True if 20 { }", "20"),
        ("True if { 20 10 + } 3", "30"),
        ("10 10 5 5 == if + { 100 + }", "20"),
        ("False if { } 45", "45"),
        ("True if { False if 50 100 } 30", "100"),
    ]);
}

#[test]
fn list_combinators() {
    check(&[
        ("[ 1 2 3 ] map { 10 * }", "[10,20,30]"),
        ("[ 1 2 3 ] map { 1 + }", "[2,3,4]"),
        ("[ 1 2 3 4 ] map { dup 2 > if { 10 * } { 2 * } }", "[2,4,30,40]"),
        ("[ 1 2 3 4 ] each { 10 * } + + +", "100"),
        ("[ 1 2 3 4 ] 0 foldl { + }", "10"),
        ("[ 2 5 ] 20 foldl { div }", "2"),
        ("[ \" 1 \" \" 2 \" \" 3 \" ] each { parseInteger } [ ] cons cons cons", "[1,2,3]"),
        ("[ 1 2 3 4 ] 0 foldl +", "10"),
        ("[ 2 5 ] 20 foldl div", "2"),
        ("[ \" 1 \" \" 2 \" \" 3 \" ] each parseInteger [ ] 3 times cons", "[1,2,3]"),
    ]);
}

#[test]
fn quotations() {
    check(&[
        ("{ 20 10 + } exec", "30"),
        ("10 { 20 + } exec", "30"),
        ("10 20 { + } exec", "30"),
        ("{ { 10 20 + } exec } exec", "30"),
        ("1 times { 100 50 + }", "150"),
    ]);
}

#[test]
fn error_cases() {
    assert_eq!(interpret("").unwrap_err(), ProgramError::StackEmpty);
    assert_eq!(interpret("frobnicate").unwrap_err(), ProgramError::InvalidOperation);
    assert_eq!(interpret("{ 1 ").unwrap_err(), ProgramError::IncompleteQuotation);
    assert_eq!(interpret("[ 1 2").unwrap_err(), ProgramError::IncompleteList);
    assert_eq!(interpret("\" abc").unwrap_err(), ProgramError::IncompleteString);
    assert_eq!(interpret("1 not").unwrap_err(), ProgramError::ExpectedBool);
    assert_eq!(interpret("1 head").unwrap_err(), ProgramError::ExpectedList);
    assert_eq!(interpret("True 1 +").unwrap_err(), ProgramError::ExpectedNumber);
    assert_eq!(interpret("1 words").unwrap_err(), ProgramError::ExpectedString);
    assert_eq!(interpret("+").unwrap_err(), ProgramError::StackEmpty);
    assert_eq!(interpret("[ ] head").unwrap_err(), ProgramError::InvalidOperation);
    assert_eq!(interpret("1 0 div").unwrap_err(), ProgramError::InvalidOperation);
    let mut log = Vec::new();
    assert_eq!(evaluate(&chars_of("1"), 0, &mut log).unwrap_err(), ProgramError::RecursionLimit);
}

#[test]
fn errors_do_not_stop_the_line() {
    // the failing `not` reports its error and the line goes on
    check(&[("1 not 5", "5"), ("1 2 3 frobnicate + +", "6")]);
    let mut log = Vec::new();
    let r = bprog::interpret_logged("1 not 5", &mut log);
    assert_eq!(format_value(&r.unwrap()).iter().collect::<String>(), "5");
    assert_eq!(log, vec![ProgramError::ExpectedBool]);
}

#[test]
fn decimals_and_overflow() {
    check(&[
        ("1 3 /", "0.333333333"),
        ("-7 2 div", "-3"),
        ("7.5 2 div", "3"),
        ("0.25 4 *", "1.0"),
        ("1.5 0.5 -", "1.0"),
        ("2.5 2.5 ==", "True"),
        ("2 2.5 <", "True"),
        ("\" 7 \" parseFloat", "7.0"),
    ]);
    assert_eq!(
        run("170141183460469231731687303715884105727 1 +"),
        "170141183460469231731687303715884105728"
    );
}

#[test]
fn numbers_compare_across_kinds() {
    check(&[
        ("3 3.0 ==", "True"),
        ("3 3.5 ==", "False"),
        ("3.5 3.5 ==", "True"),
        ("4 5 ==", "False"),
        ("[ 1 2 ] [ 1 3 ] ==", "False"),
        ("[ 1 [ 2 ] ] [ 1.0 [ 2 ] ] ==", "True"),
    ]);
}

#[test]
fn serializations_read_back() {
    for line in [
        "42", "-17", "2.5", "-0.125", "True", "False", "1 2 +", "7 2 /", "3 3.0 ==", "[ ]",
        "\" hello  world \"", "\" \"", "123456789012345678901234567890",
    ] {
        let first = run(line);
        assert_eq!(run(&first), first, "line: {}", line);
    }
    // a list's text uses commas, which the list reader does not take
    assert_eq!(run("[ 1 2 ]"), "[1,2]");
    assert_eq!(run("[1,2]"), "InvalidOperation");
}

#[test]
fn numeric_tokens_normalise() {
    check(&[
        ("007", "7"),
        ("+5", "5"),
        ("-0", "0"),
        ("1.50", "1.5"),
        ("-0.0", "0.0"),
        ("3.", "3.0"),
        (".5", "0.5"),
        ("2.0000000001", "2.0"),
    ]);
}

#[test]
fn texts_keep_their_spaces() {
    check(&[
        ("\"  a   b  \"", "\" a   b \""),
        ("\" a  b \" length", "4"),
        ("\" a  b \" \" a  b \" ==", "True"),
        ("\" a  b \" \" a b \" ==", "False"),
    ]);
}

#[test]
fn times_repeats_a_value() {
    check(&[("3 times 10 + +", "30"), ("3 times { 2 3 * } + +", "18"), ("0 times 5", "[ ]")]);
}

#[test]
fn nesting_is_bounded() {
    let nested = |n: usize| format!("{}1{}", "{ ".repeat(n), " }".repeat(n));
    assert_eq!(run(&nested(150)), "1");
    assert_eq!(interpret(&nested(250)).unwrap_err(), ProgramError::RecursionLimit);
    let long_list = format!("[ {}] length", "7 ".repeat(20000));
    assert_eq!(run(&long_list), "20000");
}

#[test]
fn nested_reports_reach_the_log() {
    let mut log = Vec::new();
    let r = bprog::interpret_logged("[ 1 ] map { not }", &mut log);
    assert_eq!(r.unwrap_err(), ProgramError::ExpectedBool);
    assert_eq!(log, vec![ProgramError::ExpectedBool, ProgramError::ExpectedBool]);
    let mut quiet = Vec::new();
    let ok = bprog::interpret_logged("[ 1 2 ] map { 3 * }", &mut quiet);
    assert_eq!(format_value(&ok.unwrap()).iter().collect::<String>(), "[3,6]");
    assert!(quiet.is_empty());
}

#[test]
fn integers_of_any_size() {
    check(&[
        ("-170141183460469231731687303715884105728 1 -", "-170141183460469231731687303715884105729"),
        ("99999999999999999999999999999999999999999 1 +", "100000000000000000000000000000000000000000"),
        ("123456789012345678901234567890 987654321098765432109876543210 *",
         "121932631137021795226185032733622923332237463801111263526900"),
        ("121932631137021795226185032733622923332237463801111263526900 987654321098765432109876543210 div",
         "123456789012345678901234567890"),
        ("-7 2 div", "-3"),
        ("7 -2 div", "-3"),
        ("-7 -2 div", "3"),
        ("0 5 -", "-5"),
        ("5 5 -", "0"),
        ("100000000000000000000000000000000000000000 99999999999999999999999999999999999999999 >", "True"),
        ("-100000000000000000000000000000000000000000 1.5 <", "True"),
        ("100000000000000000000000000000000000000000 100000000000000000000000000000000000000000 ==", "True"),
        ("\" 123456789012345678901234567890123 \" parseInteger", "123456789012345678901234567890123"),
        ("-0 5 +", "5"),
        ("00012", "12"),
        ("3 times { foo }", "InvalidOperation"),
        ("1 2 + [ 1 ] map", "3"),
        ("4 [ 1 ] 0 foldl", "4"),
    ]);
}

#[test]
fn lines_are_trimmed_of_unicode_white_space() {
    check(&[("3\u{c}", "3"), ("\u{a0}4\u{3000}", "4"), ("\t1 2 +\n", "3")]);
}

#[test]
fn decimals_with_exponents() {
    check(&[
        ("1.5e3", "1500.0"),
        ("1.5E-3", "0.0015"),
        ("-2.5e+2", "-250.0"),
        ("1.e2", "100.0"),
        (".5e1", "5.0"),
        ("1.0e-10", "0.0"),
        ("0.0e99999999999999999999", "0.0"),
        ("1.5e3 2 *", "3000.0"),
        ("\" 2.5e1 \" parseFloat", "25.0"),
        ("1.0e40", "InvalidOperation"),
        ("1e5", "InvalidOperation"),
        ("1.5e", "InvalidOperation"),
    ]);
}
