use rpn_calc::error::Error;
use rpn_calc::eval::run;
use rpn_calc::lex::lex;

fn eval_text(text: &str) -> Result<Vec<i64>, Error> {
    let tokens = lex(text);
    let mut out: Vec<i64> = Vec::new();
    run(&tokens, &mut out)
}

// Error when popping on empty stack
#[test]
fn pop_empty() {
    let have = eval_text("pop").expect_err("Expected error");
    assert_eq!(have, Error::StackUnderflow);
}

#[test]
fn add_underflow() {
    let have = eval_text("1 add").expect_err("Expected error");
    assert_eq!(have, Error::StackUnderflow);
}

#[test]
fn add_two_args() {
    let have = eval_text("1 2 add").expect("Expected success");
    assert_eq!(have, vec![3i64]);
}

#[test]
fn add_three_args() {
    let have = eval_text("1 2 3 add").expect("Expected success");
    assert_eq!(have, vec![1i64, 5]);
}

#[test]
fn add_all_two_args() {
    let have = eval_text("1 2 :add").expect("Expected success");
    assert_eq!(have, vec![3i64]);
}

#[test]
fn add_all_three_args() {
    let have = eval_text("1 2 3 :add").expect("Expected success");
    assert_eq!(have, vec![6i64]);
}

#[test]
fn sub_two_args() {
    let have = eval_text("1 2 sub").expect("Expected success");
    assert_eq!(have, vec![-1i64]);
}

#[test]
fn sub_three_args() {
    let have = eval_text("1 2 3 sub").expect("Expected success");
    assert_eq!(have, vec![1i64, -1]);
}

#[test]
fn sub_all_two_args() {
    let have = eval_text("1 2 :sub").expect("Expected success");
    assert_eq!(have, vec![-1i64]);
}

#[test]
fn sub_all_three_args() {
    let have = eval_text("1 2 3 :sub").expect("Expected success");
    assert_eq!(have, vec![2i64]);
}

#[test]
fn mul_two_args() {
    let have = eval_text("2 3 mul").expect("Expected success");
    assert_eq!(have, vec![6i64]);
}

#[test]
fn mul_three_args() {
    let have = eval_text("1 2 3 mul").expect("Expected success");
    assert_eq!(have, vec![1i64, 6]);
}

#[test]
fn mul_all_two_args() {
    let have = eval_text("2 4 :mul").expect("Expected success");
    assert_eq!(have, vec![8i64]);
}

#[test]
fn mul_all_three_args() {
    let have = eval_text("1 2 3 :mul").expect("Expected success");
    assert_eq!(have, vec![6i64]);
}

#[test]
fn div_two_args() {
    let have = eval_text("9 3 div").expect("Expected success");
    assert_eq!(have, vec![3i64]);
}

#[test]
fn div_three_args() {
    let have = eval_text("1 6 2 div").expect("Expected success");
    assert_eq!(have, vec![1i64, 3]);
}

#[test]
fn div_all_two_args() {
    let have = eval_text("9 3 :div").expect("Expected success");
    assert_eq!(have, vec![3i64]);
}

#[test]
fn div_all_three_args() {
    let have = eval_text("6 2 1 :div").expect("Expected success");
    assert_eq!(have, vec![3i64]);
}

#[test]
fn add_three_mul_two() {
    let have = eval_text("4 7 9 add 2 8 mul").expect("Expected success");
    assert_eq!(have, vec![4i64, 16, 16]);
}

#[test]
fn add_two_mul_two() {
    let have = eval_text("4 7 9 add add 2 8 mul mul").expect("Expected success");
    assert_eq!(have, vec![320i64]);
}
