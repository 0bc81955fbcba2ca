use lisp_core::lisp::{LispError, LispObject, TypePredicate};
use lisp_core::math::{
    abs, add1, arith_driver, arithcompare, arithcompare_driver, eqlsign, geq, gtr, leq, lisp_mod,
    logand, logior, lognot, logxor, lss, max, min, minmax_driver, minus, neq, plus, quo, rem, sub1,
    times, ArithComparison, ArithOp,
};

fn fix(n: i64) -> LispObject {
    LispObject::Fixnum(n)
}

fn not_a_number(obj: LispObject) -> LispError {
    LispError::WrongType(TypePredicate::Numberp, obj)
}

#[test]
fn sums_and_products_start_from_their_units() {
    assert_eq!(plus(&[]), Ok(fix(0)));
    assert_eq!(times(&[]), Ok(fix(1)));
    assert_eq!(logand(&[]), Ok(fix(-1)));
    assert_eq!(logior(&[]), Ok(fix(0)));
    assert_eq!(logxor(&[]), Ok(fix(0)));
    assert_eq!(plus(&[fix(1), fix(2), fix(3)]), Ok(fix(6)));
    assert_eq!(times(&[fix(2), fix(3), fix(-4)]), Ok(fix(-24)));
}

#[test]
fn minus_negates_one_argument_and_subtracts_the_rest() {
    assert_eq!(minus(&[]), Ok(fix(0)));
    assert_eq!(minus(&[fix(5)]), Ok(fix(-5)));
    assert_eq!(minus(&[fix(10), fix(3), fix(2)]), Ok(fix(5)));
}

#[test]
fn quo_divides_the_first_argument_by_the_others() {
    assert_eq!(quo(&[fix(20), fix(2), fix(5)]), Ok(fix(2)));
    assert_eq!(quo(&[fix(7), fix(2)]), Ok(fix(3)));
    assert_eq!(quo(&[fix(-7), fix(2)]), Ok(fix(-3)));
    // One argument divides one.
    assert_eq!(quo(&[fix(2)]), Ok(fix(0)));
    assert_eq!(quo(&[fix(1)]), Ok(fix(1)));
    assert_eq!(quo(&[fix(5), fix(0)]), Err(LispError::ArithError));
    assert_eq!(quo(&[fix(0)]), Err(LispError::ArithError));
    // The first of several arguments is no divisor.
    assert_eq!(quo(&[fix(0), fix(5)]), Ok(fix(0)));
}

#[test]
fn bitwise_reductions() {
    assert_eq!(logand(&[fix(0b1100), fix(0b1010)]), Ok(fix(0b1000)));
    assert_eq!(logior(&[fix(0b1100), fix(0b1010)]), Ok(fix(0b1110)));
    assert_eq!(logxor(&[fix(0b1100), fix(0b1010)]), Ok(fix(0b0110)));
    assert_eq!(lognot(0), -1);
    assert_eq!(lognot(5), -6);
}

#[test]
fn results_are_cut_down_to_a_fixnum() {
    let most = 0x1fff_ffff_ffff_ffff_i64;
    assert_eq!(plus(&[fix(most), fix(1)]), Ok(fix(-most - 1)));
    assert_eq!(plus(&[fix(i64::MAX), fix(1)]), Ok(fix(0)));
    assert_eq!(times(&[fix(most), fix(2)]), Ok(fix(-2)));
    assert_eq!(
        LispObject::from_fixnum_truncated(most),
        fix(most)
    );
    assert_eq!(LispObject::from_fixnum_truncated(-1), fix(-1));
    assert_eq!(LispObject::from_fixnum_truncated(most + 1), fix(-most - 1));
}

#[test]
fn the_first_argument_that_is_no_number_is_reported() {
    let bad = LispObject::Symbol(3);
    assert_eq!(plus(&[fix(1), bad, LispObject::Nil]), Err(not_a_number(bad)));
    assert_eq!(
        arith_driver(ArithOp::Div, &[fix(1), fix(0), bad]),
        Err(LispError::ArithError)
    );
    assert_eq!(
        arith_driver(ArithOp::Div, &[fix(1), bad, fix(0)]),
        Err(not_a_number(bad))
    );
    assert_eq!(fix(4).as_fixnum_or_error(), Ok(4));
    assert_eq!(bad.as_fixnum_or_error(), Err(not_a_number(bad)));
}

#[test]
fn comparisons_of_two_numbers() {
    let table = [
        (ArithComparison::Equal, [false, true, false]),
        (ArithComparison::Notequal, [true, false, true]),
        (ArithComparison::Less, [true, false, false]),
        (ArithComparison::LessOrEqual, [true, true, false]),
        (ArithComparison::Grtr, [false, false, true]),
        (ArithComparison::GrtrOrEqual, [false, true, true]),
    ];
    for (comparison, expected) in table {
        assert_eq!(arithcompare(fix(1), fix(2), comparison), Ok(expected[0]));
        assert_eq!(arithcompare(fix(2), fix(2), comparison), Ok(expected[1]));
        assert_eq!(arithcompare(fix(3), fix(2), comparison), Ok(expected[2]));
    }
    assert_eq!(neq(fix(1), fix(2)), Ok(true));
    assert_eq!(neq(fix(2), fix(2)), Ok(false));
    let bad = LispObject::Nil;
    assert_eq!(
        arithcompare(bad, LispObject::True, ArithComparison::Equal),
        Err(not_a_number(bad))
    );
    assert_eq!(arithcompare(fix(1), bad, ArithComparison::Equal), Err(not_a_number(bad)));
}

#[test]
fn comparison_chains_stop_at_the_first_pair_that_fails() {
    assert_eq!(lss(&[fix(1), fix(2), fix(3)]), Ok(true));
    assert_eq!(lss(&[fix(1), fix(3), fix(3)]), Ok(false));
    assert_eq!(leq(&[fix(1), fix(3), fix(3)]), Ok(true));
    assert_eq!(gtr(&[fix(3), fix(2), fix(1)]), Ok(true));
    assert_eq!(geq(&[fix(3), fix(3), fix(4)]), Ok(false));
    assert_eq!(eqlsign(&[fix(3), fix(3), fix(3)]), Ok(true));
    assert_eq!(eqlsign(&[fix(3)]), Ok(true));
    assert_eq!(eqlsign(&[]), Ok(true));
    let bad = LispObject::True;
    // What follows a pair that fails is not looked at.
    assert_eq!(lss(&[fix(2), fix(1), bad]), Ok(false));
    assert_eq!(lss(&[fix(1), fix(2), bad]), Err(not_a_number(bad)));
    // A single argument is compared with nothing.
    assert_eq!(arithcompare_driver(&[bad], ArithComparison::Less), Ok(true));
}

#[test]
fn max_and_min_select_an_argument() {
    assert_eq!(max(&[fix(3), fix(9), fix(-2)]), Ok(fix(9)));
    assert_eq!(min(&[fix(3), fix(9), fix(-2)]), Ok(fix(-2)));
    assert_eq!(max(&[fix(3)]), Ok(fix(3)));
    assert_eq!(
        minmax_driver(&[fix(1), fix(1)], ArithComparison::Grtr),
        Ok(fix(1))
    );
    let bad = LispObject::Nil;
    assert_eq!(max(&[fix(3), bad]), Err(not_a_number(bad)));
    assert_eq!(max(&[bad]), Ok(bad));
}

#[test]
fn absolute_value() {
    assert_eq!(abs(fix(-4)), Ok(fix(4)));
    assert_eq!(abs(fix(4)), Ok(fix(4)));
    assert_eq!(abs(fix(0)), Ok(fix(0)));
    assert_eq!(abs(fix(i64::MIN)), Ok(fix(i64::MIN)));
    assert_eq!(abs(LispObject::Nil), Err(not_a_number(LispObject::Nil)));
}

#[test]
fn remainder_has_the_sign_of_the_dividend() {
    assert_eq!(rem(7, 2), Ok(1));
    assert_eq!(rem(-7, 2), Ok(-1));
    assert_eq!(rem(7, -2), Ok(1));
    assert_eq!(rem(-7, -2), Ok(-1));
    assert_eq!(rem(7, 0), Err(LispError::ArithError));
    assert_eq!(rem(i64::MIN, -1), Ok(0));
}

#[test]
fn modulus_has_the_sign_of_the_divisor() {
    assert_eq!(lisp_mod(7, 2), Ok(1));
    assert_eq!(lisp_mod(-7, 2), Ok(1));
    assert_eq!(lisp_mod(7, -2), Ok(-1));
    assert_eq!(lisp_mod(-7, -2), Ok(-1));
    assert_eq!(lisp_mod(6, 3), Ok(0));
    assert_eq!(lisp_mod(-6, 3), Ok(0));
    assert_eq!(lisp_mod(7, 0), Err(LispError::ArithError));
    assert_eq!(lisp_mod(i64::MIN, -1), Ok(0));
}

#[test]
fn successor_and_predecessor_wrap_round() {
    assert_eq!(add1(41), 42);
    assert_eq!(sub1(43), 42);
    assert_eq!(add1(i64::MAX), i64::MIN);
    assert_eq!(sub1(i64::MIN), i64::MAX);
}
