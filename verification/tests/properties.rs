use rpn_calc::error::Error;
use rpn_calc::eval::eval_token;
use rpn_calc::eval::run;
use rpn_calc::eval::token_fits;
use rpn_calc::lex::lex;
use rpn_calc::lex::str_eq;
use rpn_calc::ops;

fn eval_text(text: &str) -> Result<Vec<i64>, Error> {
    let tokens = lex(text);
    let mut out: Vec<i64> = Vec::new();
    run(&tokens, &mut out)
}

fn eval_with_reports(text: &str) -> (Result<Vec<i64>, Error>, Vec<i64>) {
    let tokens = lex(text);
    let mut out: Vec<i64> = Vec::new();
    let r = run(&tokens, &mut out);
    (r, out)
}

// The fold words are right-associative: `1 2 3 :sub` is 1 - (2 - 3), not
// (1 - 2) - 3, and `6 2 1 :div` is 6 / (2 / 1).
#[test]
fn fold_sub_right_associative() {
    assert_eq!(eval_text("1 2 3 :sub").expect("Expected success"), vec![2i64]);
    assert_eq!(eval_text("6 2 1 :sub").expect("Expected success"), vec![5i64]);
}

#[test]
fn fold_div_right_associative() {
    assert_eq!(eval_text("6 2 1 :div").expect("Expected success"), vec![3i64]);
    assert_eq!(eval_text("24 12 2 :div").expect("Expected success"), vec![4i64]);
}

#[test]
fn fold_add_is_sum() {
    assert_eq!(eval_text("1 2 3 4 5 :add").expect("Expected success"), vec![15i64]);
}

#[test]
fn fold_mul_is_product() {
    assert_eq!(eval_text("1 2 3 4 5 :mul").expect("Expected success"), vec![120i64]);
}

#[test]
fn fold_underflow_on_one_operand() {
    assert_eq!(eval_text("1 :add").expect_err("Expected error"), Error::StackUnderflow);
    assert_eq!(eval_text(":mul").expect_err("Expected error"), Error::StackUnderflow);
}

#[test]
fn print_underflow_on_empty() {
    assert_eq!(eval_text(".").expect_err("Expected error"), Error::StackUnderflow);
}

#[test]
fn div_by_zero() {
    assert_eq!(eval_text("1 0 div").expect_err("Expected error"), Error::DivisionByZero);
}

#[test]
fn fold_div_by_zero_at_top() {
    assert_eq!(eval_text("1 2 0 :div").expect_err("Expected error"), Error::DivisionByZero);
}

#[test]
fn fold_div_by_zero_mid_fold() {
    // 0 / 2 makes the running quotient zero while an operand remains
    assert_eq!(eval_text("5 0 2 :div").expect_err("Expected error"), Error::DivisionByZero);
}

#[test]
fn truncating_division() {
    assert_eq!(eval_text("7 2 div").expect("Expected success"), vec![3i64]);
    assert_eq!(eval_text("-7 2 div").expect("Expected success"), vec![-3i64]);
    assert_eq!(eval_text("7 -2 div").expect("Expected success"), vec![-3i64]);
    assert_eq!(eval_text("-7 -2 div").expect("Expected success"), vec![3i64]);
}

#[test]
fn dot_reports_top() {
    let (r, out) = eval_with_reports("1 2 3 .");
    assert_eq!(r.expect("Expected success"), vec![1i64, 2]);
    assert_eq!(out, vec![3i64]);
}

#[test]
fn drain_reports_top_to_bottom() {
    let (r, out) = eval_with_reports("1 2 3 :.");
    assert_eq!(r.expect("Expected success"), Vec::<i64>::new());
    assert_eq!(out, vec![3i64, 2, 1]);
}

#[test]
fn drain_on_empty_is_no_op() {
    let (r, out) = eval_with_reports(":.");
    assert_eq!(r.expect("Expected success"), Vec::<i64>::new());
    assert_eq!(out, Vec::<i64>::new());
}

#[test]
fn reports_stop_at_first_error() {
    let (r, out) = eval_with_reports("1 . 2 pop pop 3");
    assert_eq!(r.expect_err("Expected error"), Error::StackUnderflow);
    assert_eq!(out, vec![1i64]);
}

#[test]
fn pop_discards_top() {
    assert_eq!(eval_text("1 2 pop").expect("Expected success"), vec![1i64]);
}

#[test]
fn token_fits_flags_overflow() {
    let stack: Vec<i64> = vec![i64::MAX, 1];
    assert!(!token_fits(&stack, "add"));
    assert!(token_fits(&stack, "sub"));
    let stack2: Vec<i64> = vec![i64::MIN, -1];
    assert!(!token_fits(&stack2, "div"));
    assert!(!token_fits(&stack2, "mul"));
}

#[test]
fn token_fits_accepts_small_operands() {
    let stack: Vec<i64> = vec![6, 2, 1];
    assert!(token_fits(&stack, ":div"));
    assert!(token_fits(&stack, ":add"));
    assert!(token_fits(&stack, "anything-else"));
}

#[test]
fn token_fits_flags_fold_overflow() {
    let stack: Vec<i64> = vec![i64::MAX, i64::MAX, 1];
    assert!(!token_fits(&stack, ":add"));
}

#[test]
fn eval_token_steps_once() {
    let mut stack: Vec<i64> = vec![4, 7];
    let mut out: Vec<i64> = Vec::new();
    eval_token(&mut stack, &mut out, "add").expect("Expected success");
    assert_eq!(stack, vec![11i64]);
    assert_eq!(out, Vec::<i64>::new());
}

#[test]
fn direct_ops_match_words() {
    let mut stack: Vec<i64> = vec![9, 3];
    ops::div(&mut stack).expect("Expected success");
    assert_eq!(stack, vec![3i64]);
    ops::pop(&mut stack).expect("Expected success");
    assert_eq!(ops::pop(&mut stack).expect_err("Expected error"), Error::StackUnderflow);
}

#[test]
fn pop_print_all_drains() {
    let mut stack: Vec<i64> = vec![1, 2, 3];
    let mut out: Vec<i64> = Vec::new();
    ops::pop_print_all(&mut stack, &mut out).expect("Expected success");
    assert_eq!(stack, Vec::<i64>::new());
    assert_eq!(out, vec![3i64, 2, 1]);
}

#[test]
fn str_eq_is_exact() {
    assert!(str_eq("add", "add"));
    assert!(!str_eq("add", "add "));
    assert!(!str_eq(":add", "add"));
}
