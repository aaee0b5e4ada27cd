use rpn_calc::error::Error;
use rpn_calc::eval::run;
use rpn_calc::lex::lex;
use rpn_calc::literal::num;

fn eval_text(text: &str) -> Result<Vec<i64>, Error> {
    let tokens = lex(text);
    let mut out: Vec<i64> = Vec::new();
    run(&tokens, &mut out)
}

#[test]
fn hex_prefixed() {
    assert_eq!(eval_text("0xff").expect("Expected success"), vec![255i64]);
}

#[test]
fn hex_bare_prefix() {
    assert_eq!(eval_text("xff").expect("Expected success"), vec![255i64]);
}

#[test]
fn hex_upper_digits() {
    assert_eq!(eval_text("0xFF").expect("Expected success"), vec![255i64]);
}

#[test]
fn octal_prefixed() {
    assert_eq!(eval_text("0o17").expect("Expected success"), vec![15i64]);
}

#[test]
fn octal_bare_prefix() {
    assert_eq!(eval_text("o17").expect("Expected success"), vec![15i64]);
}

#[test]
fn binary_prefixed() {
    assert_eq!(eval_text("0b101").expect("Expected success"), vec![5i64]);
}

#[test]
fn binary_bare_prefix() {
    assert_eq!(eval_text("b101").expect("Expected success"), vec![5i64]);
}

#[test]
fn decimal_negative() {
    assert_eq!(eval_text("-5").expect("Expected success"), vec![-5i64]);
}

#[test]
fn decimal_positive_sign() {
    assert_eq!(eval_text("+5").expect("Expected success"), vec![5i64]);
}

#[test]
fn sign_after_radix_prefix() {
    assert_eq!(eval_text("0x-ff").expect("Expected success"), vec![-255i64]);
}

#[test]
fn zero_is_decimal() {
    assert_eq!(eval_text("0").expect("Expected success"), vec![0i64]);
}

#[test]
fn sixty_four_bit_extremes() {
    assert_eq!(
        eval_text("9223372036854775807 -9223372036854775808").expect("Expected success"),
        vec![i64::MAX, i64::MIN]
    );
}

#[test]
fn unknown_word_is_format_error() {
    assert_eq!(eval_text("foo").expect_err("Expected error"), Error::NumberFormatError);
}

#[test]
fn bad_hex_digits() {
    assert_eq!(eval_text("0xZZ").expect_err("Expected error"), Error::NumberFormatError);
}

#[test]
fn empty_after_prefix() {
    assert_eq!(eval_text("0x").expect_err("Expected error"), Error::NumberFormatError);
}

#[test]
fn bare_sign_rejected() {
    assert_eq!(eval_text("-").expect_err("Expected error"), Error::NumberFormatError);
}

#[test]
fn out_of_range_literal_rejected() {
    assert_eq!(
        eval_text("99999999999999999999").expect_err("Expected error"),
        Error::NumberFormatError
    );
}

#[test]
fn octal_digit_out_of_base() {
    assert_eq!(eval_text("0o8").expect_err("Expected error"), Error::NumberFormatError);
}

#[test]
fn num_pushes_parsed_value() {
    let mut stack: Vec<i64> = vec![7];
    num(&mut stack, "0x10").expect("Expected success");
    assert_eq!(stack, vec![7i64, 16]);
}

#[test]
fn num_leaves_stack_on_error() {
    let mut stack: Vec<i64> = vec![7];
    let e = num(&mut stack, "1x0").expect_err("Expected error");
    assert_eq!(e, Error::NumberFormatError);
    assert_eq!(stack, vec![7i64]);
}
