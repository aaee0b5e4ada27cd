//! The evaluator: consumes tokens in order, dispatches operator words against
//! the operand stack, parses every other token as a numeric literal, and
//! stops at the first error, which it returns unchanged.

use vstd::prelude::*;

use crate::error::Error;
use crate::lex::str_eq;
use crate::literal::token_value;
use crate::ops::BinOp;
use crate::ops::as_ints;
use crate::ops::binop_fits;
use crate::ops::binop_step;
use crate::ops::fold_fits;
use crate::ops::fold_reaches;
use crate::ops::fold_right;
use crate::ops::fold_step;
use crate::ops::in_i64;
use crate::ops::lemma_fold_unfold;

verus! {

/// Pairs a stepped stack with an empty report.
pub open spec fn no_report(r: Result<Seq<int>, Error>) -> Result<(Seq<int>, Seq<int>), Error> {
    match r {
        Ok(s) => Ok((s, Seq::empty())),
        Err(e) => Err(e),
    }
}

/// What one token does to the stack and which values it reports: operator
/// words are matched exactly, in this order; any other token is a literal.
pub open spec fn step_spec(stack: Seq<int>, tok: Seq<char>) -> Result<
    (Seq<int>, Seq<int>),
    Error,
> {
    if tok == "add"@ {
        no_report(binop_step(BinOp::Add, stack))
    } else if tok == "sub"@ {
        no_report(binop_step(BinOp::Sub, stack))
    } else if tok == "mul"@ {
        no_report(binop_step(BinOp::Mul, stack))
    } else if tok == "div"@ {
        no_report(binop_step(BinOp::Div, stack))
    } else if tok == ":add"@ {
        no_report(fold_step(BinOp::Add, stack))
    } else if tok == ":sub"@ {
        no_report(fold_step(BinOp::Sub, stack))
    } else if tok == ":mul"@ {
        no_report(fold_step(BinOp::Mul, stack))
    } else if tok == ":div"@ {
        no_report(fold_step(BinOp::Div, stack))
    } else if tok == "pop"@ {
        if stack.len() == 0 {
            Err(Error::StackUnderflow)
        } else {
            Ok((stack.drop_last(), Seq::empty()))
        }
    } else if tok == "."@ {
        if stack.len() == 0 {
            Err(Error::StackUnderflow)
        } else {
            Ok((stack.drop_last(), seq![stack.last()]))
        }
    } else if tok == ":."@ {
        Ok((Seq::empty(), stack.reverse()))
    } else {
        match token_value(tok) {
            Some(v) => Ok((stack.push(v), Seq::empty())),
            None => Err(Error::NumberFormatError),
        }
    }
}

/// The machine limit of one token: an arithmetic word's results must fit the
/// 64-bit stack. Every other token fits by construction.
pub open spec fn step_fits(stack: Seq<int>, tok: Seq<char>) -> bool {
    if tok == "add"@ {
        binop_fits(BinOp::Add, stack)
    } else if tok == "sub"@ {
        binop_fits(BinOp::Sub, stack)
    } else if tok == "mul"@ {
        binop_fits(BinOp::Mul, stack)
    } else if tok == "div"@ {
        binop_fits(BinOp::Div, stack)
    } else if tok == ":add"@ {
        fold_fits(BinOp::Add, stack)
    } else if tok == ":sub"@ {
        fold_fits(BinOp::Sub, stack)
    } else if tok == ":mul"@ {
        fold_fits(BinOp::Mul, stack)
    } else if tok == ":div"@ {
        fold_fits(BinOp::Div, stack)
    } else {
        true
    }
}

/// The stack a whole program leaves, or its first error, starting from
/// `stack`; evaluation is strict and fail-fast.
pub open spec fn eval_spec(stack: Seq<int>, toks: Seq<Seq<char>>) -> Result<Seq<int>, Error>
    decreases toks.len(),
{
    if toks.len() == 0 {
        Ok(stack)
    } else {
        match step_spec(stack, toks[0]) {
            Ok(p) => eval_spec(p.0, toks.skip(1)),
            Err(e) => Err(e),
        }
    }
}

/// Every value a program reports before it ends or fails, in report order.
pub open spec fn eval_reported(stack: Seq<int>, toks: Seq<Seq<char>>) -> Seq<int>
    decreases toks.len(),
{
    if toks.len() == 0 {
        Seq::empty()
    } else {
        match step_spec(stack, toks[0]) {
            Ok(p) => p.1 + eval_reported(p.0, toks.skip(1)),
            Err(_) => Seq::empty(),
        }
    }
}

/// The machine limits of a whole program: every step it actually reaches
/// keeps its arithmetic within the 64-bit stack.
pub open spec fn eval_fits(stack: Seq<int>, toks: Seq<Seq<char>>) -> bool
    decreases toks.len(),
{
    toks.len() == 0 || (step_fits(stack, toks[0]) && match step_spec(stack, toks[0]) {
        Ok(p) => eval_fits(p.0, toks.skip(1)),
        Err(_) => true,
    })
}

/// Evaluates one token against the stack, appending anything the token
/// reports to `out`.
pub fn eval_token(stack: &mut Vec<i64>, out: &mut Vec<i64>, word: &str) -> (r: Result<(), Error>)
    requires
        step_fits(as_ints(old(stack)@), word@),
    ensures
        match r {
            Ok(_) => {
                &&& step_spec(as_ints(old(stack)@), word@) is Ok
                &&& as_ints(final(stack)@) == step_spec(as_ints(old(stack)@), word@)->Ok_0.0
                &&& as_ints(final(out)@) == as_ints(old(out)@) + step_spec(
                    as_ints(old(stack)@),
                    word@,
                )->Ok_0.1
            },
            Err(e) => step_spec(as_ints(old(stack)@), word@) == Err::<(Seq<int>, Seq<int>), Error>(
                e,
            ) && final(out)@ == old(out)@,
        },
{
    let ghost s0: Seq<int> = as_ints(old(stack)@);
    let ghost out0: Seq<int> = as_ints(old(out)@);
    if str_eq(word, "add") {
        let r = crate::ops::add(stack);
        proof {
            lemma_unchanged_out(out0, as_ints(out@));
        }
        r
    } else if str_eq(word, "sub") {
        let r = crate::ops::sub(stack);
        proof {
            lemma_unchanged_out(out0, as_ints(out@));
        }
        r
    } else if str_eq(word, "mul") {
        let r = crate::ops::mul(stack);
        proof {
            lemma_unchanged_out(out0, as_ints(out@));
        }
        r
    } else if str_eq(word, "div") {
        let r = crate::ops::div(stack);
        proof {
            lemma_unchanged_out(out0, as_ints(out@));
        }
        r
    } else if str_eq(word, ":add") {
        let r = crate::ops::add_all(stack);
        proof {
            lemma_unchanged_out(out0, as_ints(out@));
        }
        r
    } else if str_eq(word, ":sub") {
        let r = crate::ops::sub_all(stack);
        proof {
            lemma_unchanged_out(out0, as_ints(out@));
        }
        r
    } else if str_eq(word, ":mul") {
        let r = crate::ops::mul_all(stack);
        proof {
            lemma_unchanged_out(out0, as_ints(out@));
        }
        r
    } else if str_eq(word, ":div") {
        let r = crate::ops::div_all(stack);
        proof {
            lemma_unchanged_out(out0, as_ints(out@));
        }
        r
    } else if str_eq(word, "pop") {
        match crate::ops::pop(stack) {
            Ok(_) => {
                proof {
                    assert(as_ints(stack@) =~= s0.drop_last());
                    lemma_unchanged_out(out0, as_ints(out@));
                }
                Ok(())
            },
            Err(e) => Err(e),
        }
    } else if str_eq(word, ".") {
        match crate::ops::pop_print(stack, out) {
            Ok(_) => {
                proof {
                    assert(as_ints(stack@) =~= s0.drop_last());
                    assert(as_ints(out@) =~= out0 + seq![s0.last()]);
                    assert(seq![s0.last()] =~= step_spec(s0, word@)->Ok_0.1);
                }
                Ok(())
            },
            Err(e) => Err(e),
        }
    } else if str_eq(word, ":.") {
        let r = crate::ops::pop_print_all(stack, out);
        proof {
            assert(as_ints(stack@) =~= Seq::<int>::empty());
            assert(as_ints(out@) =~= out0 + s0.reverse());
        }
        r
    } else {
        let r = crate::literal::num(stack, word);
        proof {
            if r is Ok {
                assert(as_ints(stack@) =~= s0.push(token_value(word@)->Some_0));
                lemma_unchanged_out(out0, as_ints(out@));
            }
        }
        r
    }
}

/// An untouched report vector gains exactly the empty report.
proof fn lemma_unchanged_out(out0: Seq<int>, now: Seq<int>)
    requires
        out0 == now,
    ensures
        now == out0 + Seq::<int>::empty(),
{
    assert(now =~= out0 + Seq::<int>::empty());
}

/// Runs a whole token program against a fresh stack, appending everything it
/// reports to `out`; returns the final stack, or the first error unchanged.
pub fn run(tokens: &Vec<String>, out: &mut Vec<i64>) -> (r: Result<Vec<i64>, Error>)
    requires
        eval_fits(Seq::<int>::empty(), tokens.deep_view()),
    ensures
        as_ints(final(out)@) == as_ints(old(out)@) + eval_reported(
            Seq::<int>::empty(),
            tokens.deep_view(),
        ),
        match r {
            Ok(v) => eval_spec(Seq::<int>::empty(), tokens.deep_view()) == Ok::<Seq<int>, Error>(
                as_ints(v@),
            ),
            Err(e) => eval_spec(Seq::<int>::empty(), tokens.deep_view()) == Err::<Seq<int>, Error>(
                e,
            ),
        },
{
    let ghost tv: Seq<Seq<char>> = tokens.deep_view();
    let ghost out0: Seq<int> = as_ints(old(out)@);
    let mut stack: Vec<i64> = Vec::new();
    let mut i: usize = 0;
    proof {
        assert(as_ints(stack@) =~= Seq::<int>::empty());
        assert(tv.skip(0) =~= tv);
        assert(out0 + Seq::<int>::empty() =~= out0);
    }
    while i < tokens.len()
        invariant
            0 <= i <= tokens.len(),
            tv == tokens.deep_view(),
            out0 == as_ints(old(out)@),
            tv.len() == tokens@.len(),
            eval_fits(as_ints(stack@), tv.skip(i as int)),
            eval_spec(Seq::<int>::empty(), tv) == eval_spec(as_ints(stack@), tv.skip(i as int)),
            out0 + eval_reported(Seq::<int>::empty(), tv) == as_ints(out@) + eval_reported(
                as_ints(stack@),
                tv.skip(i as int),
            ),
        decreases tokens.len() - i,
    {
        let ghost cur: Seq<int> = as_ints(stack@);
        let ghost rest: Seq<Seq<char>> = tv.skip(i as int);
        let word: &String = &tokens[i];
        proof {
            assert(rest[0] == tv[i as int]);
            assert(word@ == tv[i as int]);
            assert(rest.skip(1) =~= tv.skip(i as int + 1));
        }
        match eval_token(&mut stack, out, word.as_str()) {
            Ok(_) => {},
            Err(e) => {
                proof {
                    assert(eval_reported(cur, rest) =~= Seq::<int>::empty());
                    assert(as_ints(out@) + Seq::<int>::empty() =~= as_ints(out@));
                }
                return Err(e);
            },
        }
        i = i + 1;
    }
    proof {
        assert(tv.skip(i as int).len() == 0);
        assert(as_ints(out@) + Seq::<int>::empty() =~= as_ints(out@));
    }
    Ok(stack)
}

/// Whether one binary operator word's result would fit the 64-bit stack.
fn binop_fits_check(stack: &Vec<i64>, op: BinOp) -> (b: bool)
    ensures
        b == binop_fits(op, as_ints(stack@)),
{
    let n = stack.len();
    if n < 2 {
        return true;
    }
    let a = stack[n - 1];
    let b2 = stack[n - 2];
    proof {
        assert(as_ints(stack@).last() == a as int);
        assert(as_ints(stack@)[n - 2] == b2 as int);
    }
    match op {
        BinOp::Add => b2.checked_add(a).is_some(),
        BinOp::Sub => b2.checked_sub(a).is_some(),
        BinOp::Mul => b2.checked_mul(a).is_some(),
        BinOp::Div => a == 0 || b2.checked_div(a).is_some(),
    }
}

/// Whether every step of one fold-all word stays within the 64-bit stack:
/// replays the fold with checked arithmetic, stopping where the fold itself
/// would stop.
fn fold_fits_check(stack: &Vec<i64>, op: BinOp) -> (b: bool)
    ensures
        b == fold_fits(op, as_ints(stack@)),
{
    let ghost s: Seq<int> = as_ints(stack@);
    let n = stack.len();
    if n < 2 {
        return true;
    }
    let mut acc: i64 = stack[n - 1];
    let mut k: usize = n - 1;
    proof {
        assert(s.skip(n - 1) =~= seq![s.last()]);
        assert(acc as int == fold_right(op, s.skip(n - 1)));
    }
    while k > 0
        invariant
            2 <= n,
            n == s.len(),
            s == as_ints(stack@),
            n == stack@.len(),
            0 <= k <= n - 1,
            acc as int == fold_right(op, s.skip(k as int)),
            forall|j: int| k <= j < n ==> in_i64(fold_right(op, #[trigger] s.skip(j))),
            op == BinOp::Div ==> forall|j: int|
                k < j < n ==> fold_right(op, #[trigger] s.skip(j)) != 0,
        decreases k,
    {
        if op == BinOp::Div && acc == 0 {
            proof {
                assert(fold_right(op, s.skip(k as int)) == 0);
                assert forall|j: int| 0 <= j < k implies !fold_reaches(op, s, j) by {
                    assert(j < k < s.len() && fold_right(op, s.skip(k as int)) == 0);
                }
                assert(fold_fits(op, s));
            }
            return true;
        }
        let x = stack[k - 1];
        proof {
            assert(x as int == s[k - 1]);
            lemma_fold_unfold(op, s, k - 1);
        }
        let next = match op {
            BinOp::Add => x.checked_add(acc),
            BinOp::Sub => x.checked_sub(acc),
            BinOp::Mul => x.checked_mul(acc),
            BinOp::Div => x.checked_div(acc),
        };
        match next {
            Some(v) => {
                acc = v;
                k = k - 1;
            },
            None => {
                proof {
                    assert(fold_reaches(op, s, k - 1));
                    assert(!in_i64(fold_right(op, s.skip(k - 1))));
                    assert(!fold_fits(op, s));
                }
                return false;
            },
        }
    }
    proof {
        assert(fold_fits(op, s));
    }
    true
}

/// Whether the next token's arithmetic stays within the 64-bit stack. An
/// unverified caller tests this before handing the token to `eval_token`,
/// since overflowing arithmetic lies outside every operator word's contract.
pub fn token_fits(stack: &Vec<i64>, word: &str) -> (b: bool)
    ensures
        b == step_fits(as_ints(stack@), word@),
{
    if str_eq(word, "add") {
        binop_fits_check(stack, BinOp::Add)
    } else if str_eq(word, "sub") {
        binop_fits_check(stack, BinOp::Sub)
    } else if str_eq(word, "mul") {
        binop_fits_check(stack, BinOp::Mul)
    } else if str_eq(word, "div") {
        binop_fits_check(stack, BinOp::Div)
    } else if str_eq(word, ":add") {
        fold_fits_check(stack, BinOp::Add)
    } else if str_eq(word, ":sub") {
        fold_fits_check(stack, BinOp::Sub)
    } else if str_eq(word, ":mul") {
        fold_fits_check(stack, BinOp::Mul)
    } else if str_eq(word, ":div") {
        fold_fits_check(stack, BinOp::Div)
    } else {
        true
    }
}

} // verus!
