//! Arithmetic on fixnums: reduction of argument lists, comparison, remainder.

use vstd::prelude::*;
use crate::lisp::{LispError, LispObject, TypePredicate};

verus! {

/// The operation that a reduction of an argument list applies.
#[derive(Clone, Copy, Debug, PartialEq, Eq, Structural)]
pub enum ArithOp {
    Add,
    Sub,
    Mult,
    Div,
    /// Bitwise and.
    Logand,
    /// Bitwise inclusive or.
    Logior,
    /// Bitwise exclusive or.
    Logxor,
}

/// The relation that a comparison tests.
#[derive(Clone, Copy, Debug, PartialEq, Eq, Structural)]
pub enum ArithComparison {
    Equal,
    Notequal,
    Less,
    Grtr,
    LessOrEqual,
    GrtrOrEqual,
}

/// The integer that a datum stands for as a number; anything but a fixnum is
/// the wrong type.
pub open spec fn number_of(obj: LispObject) -> Result<i64, LispError> {
    match obj {
        LispObject::Fixnum(n) => Ok(n),
        _ => Err(LispError::WrongType(TypePredicate::Numberp, obj)),
    }
}

impl LispObject {
    /// The integer that this stands for as a number.
    pub fn as_fixnum_or_error(self) -> (r: Result<i64, LispError>)
        ensures
            r == number_of(self),
    {
        match self {
            LispObject::Fixnum(n) => Ok(n),
            _ => Err(LispError::WrongType(TypePredicate::Numberp, self)),
        }
    }

    /// The fixnum that holds `n`, cut down to the sixty-two bits of a fixnum.
    pub fn from_fixnum_truncated(n: i64) -> (r: LispObject)
        ensures
            r == LispObject::Fixnum(truncated(n)),
    {
        let low = n & 0x3fff_ffff_ffff_ffff;
        assert(0 <= low <= 0x3fff_ffff_ffff_ffff) by (bit_vector)
            requires
                low == n & 0x3fff_ffff_ffff_ffff,
        ;
        if low >= 0x2000_0000_0000_0000 {
            LispObject::Fixnum(low - 0x4000_0000_0000_0000)
        } else {
            LispObject::Fixnum(low)
        }
    }
}

/// The value of the low sixty-two bits of `n`, read as a signed number.
pub open spec fn truncated(n: i64) -> i64 {
    let low = n & 0x3fff_ffff_ffff_ffff;
    if low >= 0x2000_0000_0000_0000 {
        (low - 0x4000_0000_0000_0000) as i64
    } else {
        low
    }
}

/// Whether `comparison` holds of two integers.
pub open spec fn compares(i1: i64, i2: i64, comparison: ArithComparison) -> bool {
    match comparison {
        ArithComparison::Equal => i1 == i2,
        ArithComparison::Notequal => i1 != i2,
        ArithComparison::Less => i1 < i2,
        ArithComparison::LessOrEqual => i1 <= i2,
        ArithComparison::Grtr => i1 > i2,
        ArithComparison::GrtrOrEqual => i1 >= i2,
    }
}

/// What a comparison of two data yields: the outcome for two numbers, the
/// type error of the first of them that is no number.
pub open spec fn arithcompare_spec(
    obj1: LispObject,
    obj2: LispObject,
    comparison: ArithComparison,
) -> Result<bool, LispError> {
    match (number_of(obj1), number_of(obj2)) {
        (Ok(i1), Ok(i2)) => Ok(compares(i1, i2, comparison)),
        (Err(e), _) => Err(e),
        (_, Err(e)) => Err(e),
    }
}

/// Compares two numbers.
pub fn arithcompare(obj1: LispObject, obj2: LispObject, comparison: ArithComparison) -> (r: Result<
    bool,
    LispError,
>)
    ensures
        r == arithcompare_spec(obj1, obj2, comparison),
{
    let i1 = match obj1.as_fixnum_or_error() {
        Ok(n) => n,
        Err(e) => {
            return Err(e);
        },
    };
    let i2 = match obj2.as_fixnum_or_error() {
        Ok(n) => n,
        Err(e) => {
            return Err(e);
        },
    };
    Ok(
        match comparison {
            ArithComparison::Equal => i1 == i2,
            ArithComparison::Notequal => i1 != i2,
            ArithComparison::Less => i1 < i2,
            ArithComparison::LessOrEqual => i1 <= i2,
            ArithComparison::Grtr => i1 > i2,
            ArithComparison::GrtrOrEqual => i1 >= i2,
        },
    )
}

/// Whether `comparison` holds between each of the arguments from `i` on and
/// its successor. The arguments are compared in order, and the first pair
/// that fails or holds something that is no number decides.
pub open spec fn chain_compares(args: Seq<LispObject>, comparison: ArithComparison, i: int) -> Result<
    bool,
    LispError,
>
    decreases args.len() - i,
{
    if i < 0 || i + 1 >= args.len() {
        Ok(true)
    } else {
        match arithcompare_spec(args[i], args[i + 1], comparison) {
            Ok(true) => chain_compares(args, comparison, i + 1),
            Ok(false) => Ok(false),
            Err(e) => Err(e),
        }
    }
}

/// Tests `comparison` between each argument and the next.
pub fn arithcompare_driver(args: &[LispObject], comparison: ArithComparison) -> (r: Result<bool, LispError>)
    ensures
        r == chain_compares(args@, comparison, 0),
{
    let n = args.len();
    if n < 2 {
        return Ok(true);
    }
    let last = n - 1;
    let mut i: usize = 0;
    while i < last
        invariant
            n == args@.len(),
            last == n - 1,
            0 <= i <= last,
            chain_compares(args@, comparison, 0) == chain_compares(args@, comparison, i as int),
        decreases n - i,
    {
        match arithcompare(args[i], args[i + 1], comparison) {
            Ok(true) => {},
            Ok(false) => {
                return Ok(false);
            },
            Err(e) => {
                return Err(e);
            },
        }
        i = i + 1;
    }
    Ok(true)
}

/// Whether the arguments, all numbers, are equal.
pub fn eqlsign(args: &[LispObject]) -> (r: Result<bool, LispError>)
    ensures
        r == chain_compares(args@, ArithComparison::Equal, 0),
{
    arithcompare_driver(args, ArithComparison::Equal)
}

/// Whether each argument is less than the next.
pub fn lss(args: &[LispObject]) -> (r: Result<bool, LispError>)
    ensures
        r == chain_compares(args@, ArithComparison::Less, 0),
{
    arithcompare_driver(args, ArithComparison::Less)
}

/// Whether each argument is greater than the next.
pub fn gtr(args: &[LispObject]) -> (r: Result<bool, LispError>)
    ensures
        r == chain_compares(args@, ArithComparison::Grtr, 0),
{
    arithcompare_driver(args, ArithComparison::Grtr)
}

/// Whether each argument is less than or equal to the next.
pub fn leq(args: &[LispObject]) -> (r: Result<bool, LispError>)
    ensures
        r == chain_compares(args@, ArithComparison::LessOrEqual, 0),
{
    arithcompare_driver(args, ArithComparison::LessOrEqual)
}

/// Whether each argument is greater than or equal to the next.
pub fn geq(args: &[LispObject]) -> (r: Result<bool, LispError>)
    ensures
        r == chain_compares(args@, ArithComparison::GrtrOrEqual, 0),
{
    arithcompare_driver(args, ArithComparison::GrtrOrEqual)
}

/// Whether two numbers differ.
pub fn neq(num1: LispObject, num2: LispObject) -> (r: Result<bool, LispError>)
    ensures
        r == arithcompare_spec(num1, num2, ArithComparison::Notequal),
{
    arithcompare(num1, num2, ArithComparison::Notequal)
}

/// The value that a reduction starts from.
pub open spec fn arith_unit(code: ArithOp) -> i64 {
    match code {
        ArithOp::Add | ArithOp::Sub | ArithOp::Logior | ArithOp::Logxor => 0i64,
        ArithOp::Logand => -1i64,
        _ => 1i64,
    }
}

/// What one argument makes of the value reduced so far. Sums, differences
/// and products wrap round. The first argument of a difference is negated if
/// it is the only one and taken as it is otherwise; the first argument of a
/// quotient with more arguments is taken as it is. A quotient that the
/// machine cannot hold leaves the value as it was; a zero divisor is an
/// error.
pub open spec fn arith_step(code: ArithOp, accum: i64, next: i64, argnum: int, nargs: int) -> Result<
    i64,
    LispError,
> {
    match code {
        ArithOp::Add => Ok(accum.wrapping_add(next)),
        ArithOp::Sub => if argnum == 0 {
            if nargs == 1 {
                Ok(0i64.wrapping_sub(next))
            } else {
                Ok(next)
            }
        } else {
            Ok(accum.wrapping_sub(next))
        },
        ArithOp::Mult => Ok(accum.wrapping_mul(next)),
        ArithOp::Div => if nargs > 1 && argnum == 0 {
            Ok(next)
        } else if next == 0 {
            Err(LispError::ArithError)
        } else {
            match accum.checked_div(next) {
                Some(q) => Ok(q),
                None => Ok(accum),
            }
        },
        ArithOp::Logand => Ok(accum & next),
        ArithOp::Logior => Ok(accum | next),
        ArithOp::Logxor => Ok(accum ^ next),
    }
}

/// The value that the first `n` arguments reduce to: an error for the first
/// argument that is no number or divides by zero.
pub open spec fn arith_fold(code: ArithOp, args: Seq<LispObject>, n: nat) -> Result<i64, LispError>
    decreases n,
{
    if n == 0 {
        Ok(arith_unit(code))
    } else {
        match arith_fold(code, args, (n - 1) as nat) {
            Err(e) => Err(e),
            Ok(accum) => match number_of(args[n - 1]) {
                Err(e) => Err(e),
                Ok(next) => arith_step(code, accum, next, n - 1, args.len() as int),
            },
        }
    }
}

/// What a reduction of an argument list yields: the fixnum of the value that
/// the arguments reduce to, cut down to the size of a fixnum.
pub open spec fn arith_spec(code: ArithOp, args: Seq<LispObject>) -> Result<LispObject, LispError> {
    match arith_fold(code, args, args.len()) {
        Ok(accum) => Ok(LispObject::Fixnum(truncated(accum))),
        Err(e) => Err(e),
    }
}

/// Reduces the arguments with the operation `code`, from the left.
pub fn arith_driver(code: ArithOp, args: &[LispObject]) -> (r: Result<LispObject, LispError>)
    ensures
        r == arith_spec(code, args@),
{
    let mut accum: i64 = match code {
        ArithOp::Add | ArithOp::Sub | ArithOp::Logior | ArithOp::Logxor => 0,
        ArithOp::Logand => -1,
        _ => 1,
    };
    let n = args.len();
    let mut argnum: usize = 0;
    while argnum < n
        invariant
            n == args@.len(),
            0 <= argnum <= n,
            arith_fold(code, args@, argnum as nat) == Ok::<i64, LispError>(accum),
        decreases n - argnum,
    {
        let next = match args[argnum].as_fixnum_or_error() {
            Ok(next) => next,
            Err(e) => {
                proof {
                    lemma_fold_error(code, args@, (argnum + 1) as nat, n as nat);
                }
                return Err(e);
            },
        };
        match code {
            ArithOp::Add => {
                accum = accum.wrapping_add(next);
            },
            ArithOp::Sub => {
                if argnum == 0 {
                    if n == 1 {
                        // A difference of one argument negates it.
                        accum = 0i64.wrapping_sub(next);
                    } else {
                        accum = next;
                    }
                } else {
                    accum = accum.wrapping_sub(next);
                }
            },
            ArithOp::Mult => {
                accum = accum.wrapping_mul(next);
            },
            ArithOp::Div => {
                // With several arguments the first is divided by the others.
                if n > 1 && argnum == 0 {
                    accum = next;
                } else {
                    if next == 0 {
                        proof {
                            lemma_fold_error(code, args@, (argnum + 1) as nat, n as nat);
                        }
                        return Err(LispError::ArithError);
                    }
                    match accum.checked_div(next) {
                        Some(q) => {
                            accum = q;
                        },
                        None => {},
                    }
                }
            },
            ArithOp::Logand => {
                accum = accum & next;
            },
            ArithOp::Logior => {
                accum = accum | next;
            },
            ArithOp::Logxor => {
                accum = accum ^ next;
            },
        }
        argnum = argnum + 1;
    }
    Ok(LispObject::from_fixnum_truncated(accum))
}

/// An error in the reduction of some arguments is the result of the
/// reduction of more.
pub proof fn lemma_fold_error(code: ArithOp, args: Seq<LispObject>, n: nat, m: nat)
    requires
        n <= m,
        arith_fold(code, args, n) is Err,
    ensures
        arith_fold(code, args, m) == arith_fold(code, args, n),
    decreases m,
{
    if n < m {
        lemma_fold_error(code, args, n, (m - 1) as nat);
    }
}

/// The sum of the arguments.
pub fn plus(args: &[LispObject]) -> (r: Result<LispObject, LispError>)
    ensures
        r == arith_spec(ArithOp::Add, args@),
{
    arith_driver(ArithOp::Add, args)
}

/// The negation of one argument; the first argument less all the others.
pub fn minus(args: &[LispObject]) -> (r: Result<LispObject, LispError>)
    ensures
        r == arith_spec(ArithOp::Sub, args@),
{
    arith_driver(ArithOp::Sub, args)
}

/// The product of the arguments.
pub fn times(args: &[LispObject]) -> (r: Result<LispObject, LispError>)
    ensures
        r == arith_spec(ArithOp::Mult, args@),
{
    arith_driver(ArithOp::Mult, args)
}

/// The first argument divided by all the others; one divided by a single
/// argument.
pub fn quo(args: &[LispObject]) -> (r: Result<LispObject, LispError>)
    ensures
        r == arith_spec(ArithOp::Div, args@),
{
    arith_driver(ArithOp::Div, args)
}

/// The bitwise and of the arguments.
pub fn logand(args: &[LispObject]) -> (r: Result<LispObject, LispError>)
    ensures
        r == arith_spec(ArithOp::Logand, args@),
{
    arith_driver(ArithOp::Logand, args)
}

/// The bitwise or of the arguments.
pub fn logior(args: &[LispObject]) -> (r: Result<LispObject, LispError>)
    ensures
        r == arith_spec(ArithOp::Logior, args@),
{
    arith_driver(ArithOp::Logior, args)
}

/// The bitwise exclusive or of the arguments.
pub fn logxor(args: &[LispObject]) -> (r: Result<LispObject, LispError>)
    ensures
        r == arith_spec(ArithOp::Logxor, args@),
{
    arith_driver(ArithOp::Logxor, args)
}

/// The argument that the first `n` arguments select: the first, replaced by
/// each later one of which `comparison` holds against the one selected so
/// far.
pub open spec fn minmax_fold(args: Seq<LispObject>, comparison: ArithComparison, n: nat) -> Result<
    LispObject,
    LispError,
>
    decreases n,
{
    if n <= 1 {
        Ok(args[0])
    } else {
        match minmax_fold(args, comparison, (n - 1) as nat) {
            Err(e) => Err(e),
            Ok(accum) => match arithcompare_spec(args[n - 1], accum, comparison) {
                Err(e) => Err(e),
                Ok(true) => Ok(args[n - 1]),
                Ok(false) => Ok(accum),
            },
        }
    }
}

/// An error in the selection among some arguments is the result of the
/// selection among more.
pub proof fn lemma_minmax_error(args: Seq<LispObject>, comparison: ArithComparison, n: nat, m: nat)
    requires
        n <= m,
        minmax_fold(args, comparison, n) is Err,
    ensures
        minmax_fold(args, comparison, m) == minmax_fold(args, comparison, n),
    decreases m,
{
    if n < m {
        lemma_minmax_error(args, comparison, n, (m - 1) as nat);
    }
}

/// Selects among the arguments by `comparison`.
pub fn minmax_driver(args: &[LispObject], comparison: ArithComparison) -> (r: Result<LispObject, LispError>)
    requires
        args@.len() > 0,
    ensures
        r == minmax_fold(args@, comparison, args@.len()),
{
    let n = args.len();
    let mut accum = args[0];
    let mut i: usize = 1;
    while i < n
        invariant
            n == args@.len(),
            1 <= i <= n,
            minmax_fold(args@, comparison, i as nat) == Ok::<LispObject, LispError>(accum),
        decreases n - i,
    {
        match arithcompare(args[i], accum, comparison) {
            Ok(true) => {
                accum = args[i];
            },
            Ok(false) => {},
            Err(e) => {
                proof {
                    lemma_minmax_error(args@, comparison, (i + 1) as nat, n as nat);
                }
                return Err(e);
            },
        }
        i = i + 1;
    }
    Ok(accum)
}

/// The largest of the arguments, of which there is at least one.
pub fn max(args: &[LispObject]) -> (r: Result<LispObject, LispError>)
    requires
        args@.len() > 0,
    ensures
        r == minmax_fold(args@, ArithComparison::Grtr, args@.len()),
{
    minmax_driver(args, ArithComparison::Grtr)
}

/// The smallest of the arguments, of which there is at least one.
pub fn min(args: &[LispObject]) -> (r: Result<LispObject, LispError>)
    requires
        args@.len() > 0,
    ensures
        r == minmax_fold(args@, ArithComparison::Less, args@.len()),
{
    minmax_driver(args, ArithComparison::Less)
}

/// The absolute value of a number. The least integer of the machine, which
/// has none, stays as it is.
pub fn abs(arg: LispObject) -> (r: Result<LispObject, LispError>)
    ensures
        r == match number_of(arg) {
            Ok(n) => Ok::<LispObject, LispError>(
                LispObject::Fixnum(
                    if n >= 0 || n == i64::MIN {
                        n
                    } else {
                        (-n) as i64
                    },
                ),
            ),
            Err(e) => Err(e),
        },
{
    match arg.as_fixnum_or_error() {
        Ok(n) => {
            if n >= 0 || n == i64::MIN {
                Ok(LispObject::Fixnum(n))
            } else {
                Ok(LispObject::Fixnum(-n))
            }
        },
        Err(e) => Err(e),
    }
}

/// The remainder of `x` divided by `y`, with the sign of `x`. A zero divisor
/// is an error.
pub fn rem(x: i64, y: i64) -> (r: Result<i64, LispError>)
    ensures
        r == if y == 0 {
            Err::<i64, LispError>(LispError::ArithError)
        } else {
            Ok(
                match x.checked_rem(y) {
                    Some(m) => m,
                    None => 0,
                },
            )
        },
{
    if y == 0 {
        return Err(LispError::ArithError);
    }
    match x.checked_rem(y) {
        Some(m) => Ok(m),
        None => Ok(0),
    }
}

/// A remainder moved to the side of the divisor: a remainder whose sign is
/// not that of `y` has `y` added to it.
pub open spec fn toward_divisor(remainder: i64, y: i64) -> int {
    if y < 0 && remainder > 0 || y > 0 && remainder < 0 {
        remainder + y
    } else {
        remainder as int
    }
}

/// `x` modulo `y`: the remainder of `x` divided by `y`, moved to the side of
/// `y`, so that it lies between zero and `y`. A zero divisor is an error.
pub fn lisp_mod(x: i64, y: i64) -> (r: Result<i64, LispError>)
    ensures
        r == if y == 0 {
            Err::<i64, LispError>(LispError::ArithError)
        } else {
            Ok(
                toward_divisor(
                    match x.checked_rem(y) {
                        Some(m) => m,
                        None => 0,
                    },
                    y,
                ) as i64,
            )
        },
        r matches Ok(m) ==> (y > 0 ==> 0 <= m < y) && (y < 0 ==> y < m <= 0),
{
    if y == 0 {
        return Err(LispError::ArithError);
    }
    let mut i1 = match x.checked_rem(y) {
        Some(m) => m,
        None => 0,
    };
    // The remainder takes the sign of the divisor.
    if y < 0 && i1 > 0 || y > 0 && i1 < 0 {
        i1 = i1 + y;
    }
    Ok(i1)
}

/// `number` plus one, wrapping round.
pub fn add1(number: i64) -> (r: i64)
    ensures
        r == number.wrapping_add(1),
{
    number.wrapping_add(1)
}

/// `number` minus one, wrapping round.
pub fn sub1(number: i64) -> (r: i64)
    ensures
        r == number.wrapping_sub(1),
{
    number.wrapping_sub(1)
}

/// The bitwise complement of `number`.
pub fn lognot(number: i64) -> (r: i64)
    ensures
        r == !number,
{
    !number
}

} // verus!
