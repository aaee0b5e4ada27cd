//! The operand stack and its operator words: fallible `pop`, the binary
//! arithmetic words, the fold-all words that drain the whole stack, and the
//! reporting words that hand values back to the caller.

use vstd::prelude::*;

use crate::error::Error;

verus! {

/// The four arithmetic operators shared by the binary words
/// (`add`, `sub`, `mul`, `div`) and the fold-all words (`:add`, `:sub`,
/// `:mul`, `:div`).
#[derive(Clone, Copy, Debug, PartialEq, Eq, Structural)]
pub enum BinOp {
    Add,
    Sub,
    Mul,
    Div,
}

/// `v` fits the machine's signed 64-bit range.
pub open spec fn in_i64(v: int) -> bool {
    i64::MIN <= v <= i64::MAX
}

/// The mathematical values held by an operand stack, bottom first.
pub open spec fn as_ints(s: Seq<i64>) -> Seq<int> {
    s.map_values(|x: i64| x as int)
}

/// Truncating (round-toward-zero) division: the semantics of the machine's
/// signed division, written over the Euclidean `/` of nonnegative operands.
pub open spec fn trunc_div(b: int, a: int) -> int
    recommends
        a != 0,
{
    if b == 0 {
        0
    } else if b > 0 && a > 0 {
        b / a
    } else if b < 0 && a < 0 {
        (b * -1) / (a * -1)
    } else if b < 0 {
        ((b * -1) / a) * -1
    } else {
        (b / (a * -1)) * -1
    }
}

/// What a binary operator computes from the second-pushed operand `b` and the
/// first-popped operand `a` (the top of the stack).
pub open spec fn apply_op(op: BinOp, b: int, a: int) -> int {
    match op {
        BinOp::Add => b + a,
        BinOp::Sub => b - a,
        BinOp::Mul => b * a,
        BinOp::Div => trunc_div(b, a),
    }
}

/// The stack left by a binary operator word: the top two entries replaced by
/// the operator's result, underflow below two entries, and a zero top entry
/// refused by `div`.
pub open spec fn binop_step(op: BinOp, s: Seq<int>) -> Result<Seq<int>, Error> {
    if s.len() < 2 {
        Err(Error::StackUnderflow)
    } else if op == BinOp::Div && s.last() == 0 {
        Err(Error::DivisionByZero)
    } else {
        Ok(s.drop_last().drop_last().push(apply_op(op, s[s.len() - 2], s.last())))
    }
}

/// The one machine limit on a binary operator word: when it has its two
/// operands and does not refuse a zero divisor, its result must fit `i64`.
pub open spec fn binop_fits(op: BinOp, s: Seq<int>) -> bool {
    s.len() >= 2 && !(op == BinOp::Div && s.last() == 0) ==> in_i64(
        apply_op(op, s[s.len() - 2], s.last()),
    )
}

/// Removes and returns the top of the stack; every operand access goes
/// through this fallible pop, so an empty stack is reported, never read.
pub fn pop(stack: &mut Vec<i64>) -> (r: Result<i64, Error>)
    ensures
        old(stack)@.len() == 0 ==> r == Err::<i64, Error>(Error::StackUnderflow) && final(stack)@ == old(stack)@,
        old(stack)@.len() > 0 ==> r == Ok::<i64, Error>(old(stack)@.last()) && final(stack)@ == old(stack)@.drop_last(),
{
    match stack.pop() {
        Some(x) => Ok(x),
        None => Err(Error::StackUnderflow),
    }
}

/// Pops the top two entries, applies `op` to them, and pushes the result.
/// The shared body of the four binary operator words.
fn apply_binop(stack: &mut Vec<i64>, op: BinOp) -> (r: Result<(), Error>)
    requires
        binop_fits(op, as_ints(old(stack)@)),
    ensures
        match r {
            Ok(_) => binop_step(op, as_ints(old(stack)@)) == Ok::<Seq<int>, Error>(
                as_ints(final(stack)@),
            ),
            Err(e) => binop_step(op, as_ints(old(stack)@)) == Err::<Seq<int>, Error>(e) && (e
                == Error::StackUnderflow ==> final(stack)@.len() == 0) && (e == Error::DivisionByZero
                ==> final(stack)@ == old(stack)@.drop_last().drop_last()),
        },
{
    let ghost s0: Seq<int> = as_ints(old(stack)@);
    let a = pop(stack)?;
    let b = pop(stack)?;
    proof {
        assert(s0.len() >= 2);
        assert(a as int == s0.last());
        assert(b as int == s0[s0.len() - 2]);
    }
    let result: i64 = match op {
        BinOp::Add => b + a,
        BinOp::Sub => b - a,
        BinOp::Mul => b * a,
        BinOp::Div => {
            if a == 0 {
                return Err(Error::DivisionByZero);
            }
            match b.checked_div(a) {
                Some(q) => q,
                None => vstd::pervasive::unreached(),
            }
        },
    };
    stack.push(result);
    proof {
        assert(as_ints(stack@) =~= s0.drop_last().drop_last().push(
            apply_op(op, s0[s0.len() - 2], s0.last()),
        ));
    }
    Ok(())
}

/// Pops the top two entries and pushes their sum (the word `add`).
pub fn add(stack: &mut Vec<i64>) -> (r: Result<(), Error>)
    requires
        binop_fits(BinOp::Add, as_ints(old(stack)@)),
    ensures
        match r {
            Ok(_) => binop_step(BinOp::Add, as_ints(old(stack)@)) == Ok::<Seq<int>, Error>(
                as_ints(final(stack)@),
            ),
            Err(e) => binop_step(BinOp::Add, as_ints(old(stack)@)) == Err::<Seq<int>, Error>(e)
                && final(stack)@.len() == 0,
        },
{
    apply_binop(stack, BinOp::Add)
}

/// Pops the top two entries and pushes their difference, second-pushed minus
/// first-pushed (the word `sub`).
pub fn sub(stack: &mut Vec<i64>) -> (r: Result<(), Error>)
    requires
        binop_fits(BinOp::Sub, as_ints(old(stack)@)),
    ensures
        match r {
            Ok(_) => binop_step(BinOp::Sub, as_ints(old(stack)@)) == Ok::<Seq<int>, Error>(
                as_ints(final(stack)@),
            ),
            Err(e) => binop_step(BinOp::Sub, as_ints(old(stack)@)) == Err::<Seq<int>, Error>(e)
                && final(stack)@.len() == 0,
        },
{
    apply_binop(stack, BinOp::Sub)
}

/// Pops the top two entries and pushes their product (the word `mul`).
pub fn mul(stack: &mut Vec<i64>) -> (r: Result<(), Error>)
    requires
        binop_fits(BinOp::Mul, as_ints(old(stack)@)),
    ensures
        match r {
            Ok(_) => binop_step(BinOp::Mul, as_ints(old(stack)@)) == Ok::<Seq<int>, Error>(
                as_ints(final(stack)@),
            ),
            Err(e) => binop_step(BinOp::Mul, as_ints(old(stack)@)) == Err::<Seq<int>, Error>(e)
                && final(stack)@.len() == 0,
        },
{
    apply_binop(stack, BinOp::Mul)
}

/// Pops the top two entries and pushes their quotient, second-pushed divided
/// by first-pushed (the word `div`); a zero divisor is an error, not a crash.
pub fn div(stack: &mut Vec<i64>) -> (r: Result<(), Error>)
    requires
        binop_fits(BinOp::Div, as_ints(old(stack)@)),
    ensures
        match r {
            Ok(_) => binop_step(BinOp::Div, as_ints(old(stack)@)) == Ok::<Seq<int>, Error>(
                as_ints(final(stack)@),
            ),
            Err(e) => binop_step(BinOp::Div, as_ints(old(stack)@)) == Err::<Seq<int>, Error>(e)
                && (e == Error::StackUnderflow ==> final(stack)@.len() == 0) && (e
                == Error::DivisionByZero ==> final(stack)@ == old(stack)@.drop_last().drop_last()),
        },
{
    apply_binop(stack, BinOp::Div)
}

/// The right-associative fold of `op` over a nonempty stack read bottom to
/// top: `s[0] OP (s[1] OP (... OP s[n-1]))`.
pub open spec fn fold_right(op: BinOp, s: Seq<int>) -> int
    recommends
        s.len() >= 1,
    decreases s.len(),
{
    if s.len() <= 1 {
        s[0]
    } else {
        apply_op(op, s[0], fold_right(op, s.skip(1)))
    }
}

/// Every divisor met while folding `div` over `s` is nonzero: the fold
/// consumes entries from the top down, and the divisor of the step that
/// consumes `s[j - 1]` is the already-folded suffix starting at `j`.
pub open spec fn fold_divisors_nonzero(op: BinOp, s: Seq<int>) -> bool {
    op == BinOp::Div ==> forall|j: int|
        1 <= j < s.len() ==> fold_right(op, #[trigger] s.skip(j)) != 0
}

/// The fold has not already stopped at a zero divisor when it reaches the
/// step that computes the folded suffix starting at `j`.
pub open spec fn fold_reaches(op: BinOp, s: Seq<int>, j: int) -> bool {
    op == BinOp::Div ==> forall|k: int|
        j < k < s.len() ==> fold_right(op, #[trigger] s.skip(k)) != 0
}

/// The machine limit on a fold-all word: every intermediate value the fold
/// actually computes must fit `i64`.
pub open spec fn fold_fits(op: BinOp, s: Seq<int>) -> bool {
    s.len() >= 2 ==> forall|j: int|
        0 <= j < s.len() && fold_reaches(op, s, j) ==> in_i64(
            fold_right(op, #[trigger] s.skip(j)),
        )
}

/// The stack left by a fold-all word: the whole stack replaced by its fold,
/// underflow below two entries, and any zero divisor met along the way
/// refused by `:div`.
pub open spec fn fold_step(op: BinOp, s: Seq<int>) -> Result<Seq<int>, Error> {
    if s.len() < 2 {
        Err(Error::StackUnderflow)
    } else if !fold_divisors_nonzero(op, s) {
        Err(Error::DivisionByZero)
    } else {
        Ok(seq![fold_right(op, s)])
    }
}

/// One unfolding of `fold_right` at an interior position.
pub proof fn lemma_fold_unfold(op: BinOp, s: Seq<int>, j: int)
    requires
        0 <= j < s.len() - 1,
    ensures
        fold_right(op, s.skip(j)) == apply_op(op, s[j], fold_right(op, s.skip(j + 1))),
{
    assert(s.skip(j).skip(1) =~= s.skip(j + 1));
    assert(s.skip(j)[0] == s[j]);
}

/// Pops the whole stack, folds `op` over it from the top down, and pushes the
/// single result. The shared body of the four fold-all words.
fn apply_fold(stack: &mut Vec<i64>, op: BinOp) -> (r: Result<(), Error>)
    requires
        fold_fits(op, as_ints(old(stack)@)),
    ensures
        match r {
            Ok(_) => fold_step(op, as_ints(old(stack)@)) == Ok::<Seq<int>, Error>(
                as_ints(final(stack)@),
            ),
            Err(e) => fold_step(op, as_ints(old(stack)@)) == Err::<Seq<int>, Error>(e) && (e
                == Error::StackUnderflow ==> final(stack)@.len() == 0),
        },
{
    let ghost s0: Seq<int> = as_ints(old(stack)@);
    let ghost n: int = s0.len() as int;
    let a = pop(stack)?;
    let b = pop(stack)?;
    proof {
        assert(n >= 2);
        assert(a as int == s0.last());
        assert(b as int == s0[n - 2]);
        assert(s0.skip(n - 1) =~= seq![s0.last()]);
        assert(fold_right(op, s0.skip(n - 1)) == a as int);
    }
    if op == BinOp::Div && a == 0 {
        proof {
            assert(!fold_divisors_nonzero(op, s0));
        }
        return Err(Error::DivisionByZero);
    }
    proof {
        assert(fold_reaches(op, s0, n - 2));
        assert(in_i64(fold_right(op, s0.skip(n - 2))));
        lemma_fold_unfold(op, s0, n - 2);
    }
    let mut acc: i64 = match op {
        BinOp::Add => b + a,
        BinOp::Sub => b - a,
        BinOp::Mul => b * a,
        BinOp::Div => match b.checked_div(a) {
            Some(q) => q,
            None => vstd::pervasive::unreached(),
        },
    };
    loop
        invariant
            2 <= n && n == s0.len(),
            stack@.len() <= n - 2,
            stack@ =~= old(stack)@.take(stack@.len() as int),
            acc as int == fold_right(op, s0.skip(stack@.len() as int)),
            op == BinOp::Div ==> forall|k: int|
                stack@.len() < k < n ==> fold_right(op, #[trigger] s0.skip(k)) != 0,
            fold_fits(op, s0),
            s0 == as_ints(old(stack)@),
        ensures
            stack@.len() == 0,
            acc as int == fold_right(op, s0),
            op == BinOp::Div ==> forall|k: int|
                0 < k < n ==> fold_right(op, #[trigger] s0.skip(k)) != 0,
        decreases stack@.len(),
    {
        let ghost k: int = stack@.len() as int;
        if stack.is_empty() {
            proof {
                assert(s0.skip(0) =~= s0);
            }
            break ;
        }
        if op == BinOp::Div && acc == 0 {
            proof {
                assert(fold_right(op, s0.skip(k)) == 0);
                assert(!fold_divisors_nonzero(op, s0));
            }
            return Err(Error::DivisionByZero);
        }
        let x = match stack.pop() {
            Some(x) => x,
            None => vstd::pervasive::unreached(),
        };
        proof {
            assert(x as int == s0[k - 1]);
            assert(fold_reaches(op, s0, k - 1));
            assert(in_i64(fold_right(op, s0.skip(k - 1))));
            lemma_fold_unfold(op, s0, k - 1);
            assert(stack@ =~= old(stack)@.take(k - 1));
        }
        acc = match op {
            BinOp::Add => x + acc,
            BinOp::Sub => x - acc,
            BinOp::Mul => x * acc,
            BinOp::Div => match x.checked_div(acc) {
                Some(q) => q,
                None => vstd::pervasive::unreached(),
            },
        };
    }
    proof {
        assert(stack@.len() == 0);
        assert(s0.skip(0) =~= s0);
        assert(fold_divisors_nonzero(op, s0));
    }
    stack.push(acc);
    proof {
        assert(as_ints(stack@) =~= seq![fold_right(op, s0)]);
    }
    Ok(())
}

/// Pops every entry and pushes the sum of all of them (the word `:add`).
pub fn add_all(stack: &mut Vec<i64>) -> (r: Result<(), Error>)
    requires
        fold_fits(BinOp::Add, as_ints(old(stack)@)),
    ensures
        match r {
            Ok(_) => fold_step(BinOp::Add, as_ints(old(stack)@)) == Ok::<Seq<int>, Error>(
                as_ints(final(stack)@),
            ),
            Err(e) => fold_step(BinOp::Add, as_ints(old(stack)@)) == Err::<Seq<int>, Error>(e)
                && final(stack)@.len() == 0,
        },
{
    apply_fold(stack, BinOp::Add)
}

/// Pops every entry and pushes the right-associative nested difference
/// `s[0] - (s[1] - (... - s[n-1]))` (the word `:sub`).
pub fn sub_all(stack: &mut Vec<i64>) -> (r: Result<(), Error>)
    requires
        fold_fits(BinOp::Sub, as_ints(old(stack)@)),
    ensures
        match r {
            Ok(_) => fold_step(BinOp::Sub, as_ints(old(stack)@)) == Ok::<Seq<int>, Error>(
                as_ints(final(stack)@),
            ),
            Err(e) => fold_step(BinOp::Sub, as_ints(old(stack)@)) == Err::<Seq<int>, Error>(e)
                && final(stack)@.len() == 0,
        },
{
    apply_fold(stack, BinOp::Sub)
}

/// Pops every entry and pushes the product of all of them (the word `:mul`).
pub fn mul_all(stack: &mut Vec<i64>) -> (r: Result<(), Error>)
    requires
        fold_fits(BinOp::Mul, as_ints(old(stack)@)),
    ensures
        match r {
            Ok(_) => fold_step(BinOp::Mul, as_ints(old(stack)@)) == Ok::<Seq<int>, Error>(
                as_ints(final(stack)@),
            ),
            Err(e) => fold_step(BinOp::Mul, as_ints(old(stack)@)) == Err::<Seq<int>, Error>(e)
                && final(stack)@.len() == 0,
        },
{
    apply_fold(stack, BinOp::Mul)
}

/// Pops every entry and pushes the right-associative nested quotient
/// `s[0] / (s[1] / (... / s[n-1]))` (the word `:div`); a zero divisor at any
/// fold step is an error, not a crash.
pub fn div_all(stack: &mut Vec<i64>) -> (r: Result<(), Error>)
    requires
        fold_fits(BinOp::Div, as_ints(old(stack)@)),
    ensures
        match r {
            Ok(_) => fold_step(BinOp::Div, as_ints(old(stack)@)) == Ok::<Seq<int>, Error>(
                as_ints(final(stack)@),
            ),
            Err(e) => fold_step(BinOp::Div, as_ints(old(stack)@)) == Err::<Seq<int>, Error>(e)
                && (e == Error::StackUnderflow ==> final(stack)@.len() == 0),
        },
{
    apply_fold(stack, BinOp::Div)
}

/// Pops the top value and appends it to `out`, the caller's report line (the
/// word `.`); the caller formats and prints what lands in `out`.
pub fn pop_print(stack: &mut Vec<i64>, out: &mut Vec<i64>) -> (r: Result<(), Error>)
    ensures
        match r {
            Ok(_) => old(stack)@.len() > 0 && final(stack)@ == old(stack)@.drop_last()
                && final(out)@ == old(out)@.push(old(stack)@.last()),
            Err(e) => e == Error::StackUnderflow && old(stack)@.len() == 0
                && final(stack)@ == old(stack)@ && final(out)@ == old(out)@,
        },
{
    let item = pop(stack)?;
    out.push(item);
    Ok(())
}

/// Drains the stack into `out` from the top down (the word `:.`); a no-op on
/// an empty stack, so it never fails.
pub fn pop_print_all(stack: &mut Vec<i64>, out: &mut Vec<i64>) -> (r: Result<(), Error>)
    ensures
        r == Ok::<(), Error>(()),
        final(stack)@.len() == 0,
        final(out)@ == old(out)@ + old(stack)@.reverse(),
{
    while !stack.is_empty()
        invariant
            stack@.len() <= old(stack)@.len(),
            stack@ =~= old(stack)@.take(stack@.len() as int),
            out@ =~= old(out)@ + old(stack)@.skip(stack@.len() as int).reverse(),
        decreases stack@.len(),
    {
        let ghost k: int = stack@.len() as int;
        let item = match pop(stack) {
            Ok(x) => x,
            Err(_) => vstd::pervasive::unreached(),
        };
        out.push(item);
        proof {
            assert(old(stack)@.skip(k - 1).reverse() =~= old(stack)@.skip(k).reverse().push(
                old(stack)@[k - 1],
            ));
            assert(out@ =~= old(out)@ + old(stack)@.skip(k - 1).reverse());
        }
    }
    proof {
        assert(old(stack)@.skip(0) =~= old(stack)@);
    }
    Ok(())
}

/// The sum of all entries of a stack.
pub open spec fn sum_of(s: Seq<int>) -> int
    decreases s.len(),
{
    if s.len() == 0 {
        0
    } else {
        s[0] + sum_of(s.skip(1))
    }
}

/// The product of all entries of a stack.
pub open spec fn product_of(s: Seq<int>) -> int
    decreases s.len(),
{
    if s.len() == 0 {
        1
    } else {
        s[0] * product_of(s.skip(1))
    }
}

/// Law: on a two-entry stack `[a, b]` each binary operator word computes
/// `a OP b` — second pushed on the left, first popped on the right.
pub proof fn lemma_binop_two_operands(op: BinOp, a: int, b: int)
    requires
        op == BinOp::Div ==> b != 0,
    ensures
        binop_step(op, seq![a, b]) == Ok::<Seq<int>, Error>(seq![apply_op(op, a, b)]),
{
    let s = seq![a, b];
    assert(s.last() == b);
    assert(s[s.len() - 2] == a);
    assert(s.drop_last().drop_last().push(apply_op(op, a, b)) =~= seq![apply_op(op, a, b)]);
}

/// Law: folding `add` over a stack yields the sum of its entries, and folding
/// `mul` yields their product — evaluation order cannot matter for them.
pub proof fn lemma_fold_add_is_sum(s: Seq<int>)
    requires
        s.len() >= 1,
    ensures
        fold_right(BinOp::Add, s) == sum_of(s),
    decreases s.len(),
{
    if s.len() == 1 {
        assert(sum_of(s.skip(1)) == 0);
    } else {
        lemma_fold_add_is_sum(s.skip(1));
    }
}

/// Law: folding `mul` over a stack yields the product of its entries.
pub proof fn lemma_fold_mul_is_product(s: Seq<int>)
    requires
        s.len() >= 1,
    ensures
        fold_right(BinOp::Mul, s) == product_of(s),
    decreases s.len(),
{
    if s.len() == 1 {
        assert(product_of(s.skip(1)) == 1);
    } else {
        lemma_fold_mul_is_product(s.skip(1));
    }
}

/// Law: a binary or fold-all operator word with fewer than two operands fails
/// with `StackUnderflow`.
pub proof fn lemma_insufficient_operands(op: BinOp, s: Seq<int>)
    requires
        s.len() < 2,
    ensures
        binop_step(op, s) == Err::<Seq<int>, Error>(Error::StackUnderflow),
        fold_step(op, s) == Err::<Seq<int>, Error>(Error::StackUnderflow),
{
}

/// Law: `div` fails with `DivisionByZero` when the top entry — the divisor —
/// is zero, and `:div` fails the same way, since the stack's top is the very
/// first divisor the fold meets.
pub proof fn lemma_div_by_zero(s: Seq<int>)
    requires
        s.len() >= 2,
        s.last() == 0,
    ensures
        binop_step(BinOp::Div, s) == Err::<Seq<int>, Error>(Error::DivisionByZero),
        fold_step(BinOp::Div, s) == Err::<Seq<int>, Error>(Error::DivisionByZero),
{
    assert(s.skip(s.len() - 1) =~= seq![s.last()]);
    assert(fold_right(BinOp::Div, s.skip(s.len() - 1)) == 0);
    assert(!fold_divisors_nonzero(BinOp::Div, s));
}

/// Law: `:div` fails with `DivisionByZero` whenever any fold step's divisor —
/// the folded suffix starting at some interior position — is zero.
pub proof fn lemma_fold_div_by_zero(s: Seq<int>, j: int)
    requires
        s.len() >= 2,
        1 <= j < s.len(),
        fold_right(BinOp::Div, s.skip(j)) == 0,
    ensures
        fold_step(BinOp::Div, s) == Err::<Seq<int>, Error>(Error::DivisionByZero),
{
    assert(!fold_divisors_nonzero(BinOp::Div, s));
}

} // verus!
