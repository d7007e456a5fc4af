use regex_vm::codegen::{generate, CodeGenError, Instruction};
use regex_vm::evaluator::{find, run, run_bounded, run_exact, StepLimitExceeded};
use regex_vm::helper::{safe_add, SafeAdd};
use regex_vm::parser::{parse, AST};

fn compile(pattern: &str) -> Vec<Instruction> {
    generate(&parse(pattern).unwrap()).unwrap()
}

#[test]
fn literal_program_matches_exactly_its_text() {
    let prog = compile("abc");
    assert!(run_exact(&prog, "abc"));
    assert!(!run_exact(&prog, "ab"));
    assert!(!run_exact(&prog, "abcd"));
    assert!(!run_exact(&prog, "abd"));
    assert!(!run_exact(&prog, ""));
    assert!(run(&prog, "abcd"));
}

#[test]
fn alternation_round_trip() {
    let prog = compile("ab|cd");
    assert!(run(&prog, "ab"));
    assert!(run(&prog, "cd"));
    assert!(!run(&prog, "ac"));
    assert!(run_exact(&prog, "ab"));
    assert!(run_exact(&prog, "cd"));
    assert!(!run_exact(&prog, "ac"));
}

#[test]
fn greedy_star_and_plus() {
    let star = compile("a*");
    assert!(run(&star, "aaa"));
    assert!(run(&star, ""));
    assert!(run_exact(&star, "aaa"));
    assert!(run_exact(&star, ""));
    let plus = compile("a+");
    assert!(!run(&plus, ""));
    assert!(run(&plus, "a"));
    assert!(run_exact(&plus, "aaaa"));
    assert!(!run_exact(&plus, "aab"));
}

#[test]
fn question_mark_takes_zero_or_one() {
    let prog = compile("ab?c");
    assert!(run_exact(&prog, "ac"));
    assert!(run_exact(&prog, "abc"));
    assert!(!run_exact(&prog, "abbc"));
}

#[test]
fn dot_matches_any_one_character() {
    let prog = compile("a.c");
    assert!(run_exact(&prog, "abc"));
    assert!(run_exact(&prog, "a€c"));
    assert!(!run_exact(&prog, "ac"));
}

#[test]
fn escaped_star_matches_literal_star() {
    let prog = compile("\\*");
    assert!(run(&prog, "*"));
    assert!(!run(&prog, ""));
    assert!(!run(&prog, "a"));
}

#[test]
fn zero_width_star_terminates_and_matches() {
    let ast = AST::Star(Box::new(AST::Concat(vec![])));
    let prog = generate(&ast).unwrap();
    assert!(run(&prog, ""));
    assert!(run(&prog, "xyz"));
    let nested = compile("(a*)*b");
    assert!(run_exact(&nested, "aaab"));
    assert!(!run_exact(&nested, "aaa"));
}

#[test]
fn generated_code_for_alternation() {
    assert_eq!(
        compile("a|b"),
        vec![Instruction::Split(1, 3), Instruction::Char('a'), Instruction::Jump(4), Instruction::Char('b'), Instruction::Match]
    );
}

#[test]
fn generated_code_for_repetitions() {
    assert_eq!(compile("a*"), vec![Instruction::Split(1, 3), Instruction::Char('a'), Instruction::Jump(0), Instruction::Match]);
    assert_eq!(compile("a+"), vec![Instruction::Char('a'), Instruction::Split(0, 2), Instruction::Match]);
    assert_eq!(compile("a?"), vec![Instruction::Split(1, 2), Instruction::Char('a'), Instruction::Match]);
    assert_eq!(compile("."), vec![Instruction::AnyChar, Instruction::Match]);
}

#[test]
fn safe_add_adds_or_reports_overflow() {
    let mut x: usize = 5;
    assert_eq!(safe_add(&mut x, &3, || CodeGenError::PCOverFlow), Ok(()));
    assert_eq!(x, 8);
    let mut y: usize = usize::MAX;
    assert_eq!(
        safe_add(&mut y, &1, || CodeGenError::PCOverFlow),
        Err(CodeGenError::PCOverFlow)
    );
    assert_eq!(y, usize::MAX);
}

#[test]
fn checked_sum_of_counters() {
    assert_eq!(5usize.safe_add(&7), Some(12));
    assert_eq!(usize::MAX.safe_add(&1), None);
    assert_eq!(usize::MAX.safe_add(&0), Some(usize::MAX));
}

#[test]
fn find_reports_first_matching_offset() {
    let prog = compile("b+c");
    assert_eq!(find(&prog, "aabbbc"), Some(2));
    assert_eq!(find(&prog, "abcbc"), Some(1));
    assert_eq!(find(&prog, "aabbb"), None);
    assert_eq!(find(&prog, ""), None);
}

#[test]
fn find_with_zero_width_match_reports_start() {
    let prog = compile("x*");
    assert_eq!(find(&prog, "abc"), Some(0));
    assert_eq!(find(&prog, ""), Some(0));
}

#[test]
fn step_limit_is_reported_as_its_own_outcome() {
    let prog = compile("a*b");
    assert_eq!(run_bounded(&prog, "aaaa", true, 1), Err(StepLimitExceeded));
    assert_eq!(run_bounded(&prog, "aaaa", true, 0), Err(StepLimitExceeded));
    assert_eq!(run_bounded(&prog, "aaaa", true, 1000), Ok(false));
    assert_eq!(run_bounded(&prog, "aaab", true, 1000), Ok(true));
    assert_eq!(run_bounded(&prog, "aaabx", false, 1000), Ok(true));
}

#[test]
fn enough_steps_for_every_state_always_decide() {
    let prog = compile("(a|b)*c");
    let input = "abababx";
    let states = prog.len() * (input.chars().count() + 1);
    assert_eq!(run_bounded(&prog, input, true, states), Ok(false));
    assert_eq!(run_bounded(&prog, "ababc", true, states), Ok(true));
}
