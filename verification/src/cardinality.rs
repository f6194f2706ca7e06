//! How many points a query of several words is expected to match, computed in
//! whole numbers.
//!
//! If each word holds independently of the others, a share `len / points` of
//! the points holds it, and `points * (len_1 / points) * .. * (len_k / points)`
//! points hold all of them. That is `len_1 * .. * len_k / points^(k - 1)`. The
//! product can be far beyond any machine integer, so it is kept as digits in
//! base `points`, where the division is a shift.

use vstd::prelude::*;
use vstd::arithmetic::div_mod::{
    lemma_div_denominator, lemma_fundamental_div_mod, lemma_mod_bound,
};

verus! {

/// The product of the numbers; 1 for none.
pub open spec fn product(lens: Seq<usize>) -> nat
    decreases lens.len(),
{
    if lens.len() == 0 {
        1
    } else {
        product(lens.drop_last()) * (lens.last() as nat)
    }
}

/// `base` to the power `exponent`.
pub open spec fn power(base: nat, exponent: nat) -> nat
    decreases exponent,
{
    if exponent == 0 {
        1
    } else {
        base * power(base, (exponent - 1) as nat)
    }
}

/// The expected number of points that hold all of `k` words, where word `i`
/// is held by `lens[i]` of `points_count` points: the product of the lengths
/// over `points_count^(k - 1)`, rounded down. 0 for no point or no word.
pub open spec fn expected_matches(lens: Seq<usize>, points_count: nat) -> nat {
    if points_count == 0 || lens.len() == 0 {
        0
    } else {
        product(lens) / power(points_count, (lens.len() - 1) as nat)
    }
}

/// `n`, held at `usize::MAX`.
pub open spec fn capped(n: nat) -> usize {
    if n <= usize::MAX {
        n as usize
    } else {
        usize::MAX
    }
}

/// The number that the digits stand for, lowest digit first.
pub open spec fn value(digits: Seq<usize>, base: nat) -> nat
    decreases digits.len(),
{
    if digits.len() == 0 {
        0
    } else {
        (digits[0] as nat) + base * value(digits.skip(1), base)
    }
}

/// Every digit is below the base.
pub open spec fn digits_wf(digits: Seq<usize>, base: nat) -> bool {
    forall|i: int| 0 <= i < digits.len() ==> digits[i] < base
}

/// The digits of `value(digits) * factor + carry`.
pub open spec fn scaled(digits: Seq<usize>, factor: nat, carry: nat, base: nat) -> Seq<usize>
    decreases digits.len(), carry,
{
    if base < 2 || (digits.len() == 0 && carry == 0) {
        Seq::empty()
    } else if digits.len() == 0 {
        proof {
            lemma_div_smaller(carry, base);
        }
        seq![(carry % base) as usize] + scaled(digits, factor, carry / base, base)
    } else {
        let x: nat = (digits[0] as nat) * factor + carry;
        seq![(x % base) as usize] + scaled(digits.skip(1), factor, x / base, base)
    }
}

/// Dividing a positive number by 2 or more makes it smaller.
pub proof fn lemma_div_smaller(x: nat, base: nat)
    requires
        base >= 2,
        x > 0,
    ensures
        x / base < x,
{
    lemma_fundamental_div_mod(x as int, base as int);
    assert(x / base < x) by (nonlinear_arith)
        requires
            x == base * (x / base) + x % base,
            x % base >= 0,
            base >= 2,
            x > 0,
            x / base >= 0,
    ;
}

/// Scaling multiplies the number and keeps the digits below the base.
pub proof fn lemma_scaled(digits: Seq<usize>, factor: nat, carry: nat, base: nat)
    requires
        2 <= base <= usize::MAX,
    ensures
        value(scaled(digits, factor, carry, base), base) == value(digits, base) * factor + carry,
        digits_wf(scaled(digits, factor, carry, base), base),
    decreases digits.len(), carry,
{
    let out = scaled(digits, factor, carry, base);
    if digits.len() == 0 && carry == 0 {
        assert(value(digits, base) * factor == 0) by (nonlinear_arith)
            requires
                value(digits, base) == 0,
        ;
    } else if digits.len() == 0 {
        lemma_div_smaller(carry, base);
        let rest = scaled(digits, factor, carry / base, base);
        lemma_scaled(digits, factor, carry / base, base);
        assert(out.skip(1) =~= rest);
        lemma_fundamental_div_mod(carry as int, base as int);
        lemma_mod_bound(carry as int, base as int);
        assert(out[0] == carry % base);
        assert(value(digits, base) == 0);
        assert(value(digits, base) * factor == 0) by (nonlinear_arith)
            requires
                value(digits, base) == 0,
        ;
        assert(value(rest, base) == carry / base);
        assert(value(out, base) == out[0] + base * value(out.skip(1), base));
        assert(value(out, base) == carry % base + base * (carry / base));
    } else {
        let x: nat = (digits[0] as nat) * factor + carry;
        let rest = scaled(digits.skip(1), factor, x / base, base);
        lemma_scaled(digits.skip(1), factor, x / base, base);
        assert(out.skip(1) =~= rest);
        lemma_fundamental_div_mod(x as int, base as int);
        lemma_mod_bound(x as int, base as int);
        assert(out[0] == x % base);
        let tail = value(digits.skip(1), base);
        assert(x % base + base * (tail * factor + x / base) == (digits[0] + base * tail) * factor
            + carry) by (nonlinear_arith)
            requires
                x == base * (x / base) + x % base,
                x == digits[0] * factor + carry,
        ;
        assert(value(rest, base) == tail * factor + x / base);
        assert(value(out, base) == out[0] + base * value(out.skip(1), base));
        assert(value(digits, base) == digits[0] + base * tail);
    }
}

/// Dropping the lowest `shift` digits divides the number by the base that
/// many times.
pub proof fn lemma_shift_divides(digits: Seq<usize>, base: nat, shift: nat)
    requires
        base >= 2,
        digits_wf(digits, base),
    ensures
        value(digits, base) / power(base, shift) == value(
            digits.skip(
                if shift <= digits.len() {
                    shift as int
                } else {
                    digits.len() as int
                },
            ),
            base,
        ),
    decreases shift,
{
    if shift == 0 {
        assert(digits.skip(0) =~= digits);
    } else if digits.len() == 0 {
        assert(digits.skip(0) =~= digits);
        lemma_power_positive(base, shift);
        assert(0nat / power(base, shift) == 0) by (nonlinear_arith)
            requires
                power(base, shift) > 0,
        ;
    } else {
        let rest = digits.skip(1);
        let before = (shift - 1) as nat;
        lemma_shift_divides(rest, base, before);
        lemma_power_positive(base, before);
        let v = value(digits, base);
        lemma_div_denominator(v as int, base as int, power(base, before) as int);
        assert(v / base == value(rest, base)) by (nonlinear_arith)
            requires
                v == digits[0] + base * value(rest, base),
                digits[0] < base,
                base >= 2,
        ;
        let cut = if shift <= digits.len() {
            shift as int
        } else {
            digits.len() as int
        };
        let cut_rest = if before <= rest.len() {
            before as int
        } else {
            rest.len() as int
        };
        assert(digits.skip(cut) =~= rest.skip(cut_rest));
    }
}

/// A power of a positive base is positive.
pub proof fn lemma_power_positive(base: nat, exponent: nat)
    requires
        base >= 1,
    ensures
        power(base, exponent) >= 1,
    decreases exponent,
{
    if exponent > 0 {
        lemma_power_positive(base, (exponent - 1) as nat);
        assert(base * power(base, (exponent - 1) as nat) >= 1) by (nonlinear_arith)
            requires
                base >= 1,
                power(base, (exponent - 1) as nat) >= 1,
        ;
    }
}

/// Every power of 1 is 1.
pub proof fn lemma_power_of_one(exponent: nat)
    ensures
        power(1, exponent) == 1,
    decreases exponent,
{
    if exponent > 0 {
        lemma_power_of_one((exponent - 1) as nat);
    }
}

/// A product with a factor 0 is 0.
pub proof fn lemma_product_with_zero(lens: Seq<usize>, at: int)
    requires
        0 <= at < lens.len(),
        lens[at] == 0,
    ensures
        product(lens) == 0,
    decreases lens.len(),
{
    if at < lens.len() - 1 {
        lemma_product_with_zero(lens.drop_last(), at);
        assert(product(lens.drop_last()) * lens.last() == 0) by (nonlinear_arith)
            requires
                product(lens.drop_last()) == 0,
        ;
    } else {
        assert(product(lens.drop_last()) * lens.last() == 0) by (nonlinear_arith)
            requires
                lens.last() == 0,
        ;
    }
}

/// Multiplies the number that the digits stand for by `factor`.
fn scale(digits: &Vec<usize>, factor: usize, base: usize) -> (out: Vec<usize>)
    requires
        base >= 2,
        factor >= 1,
        digits_wf(digits@, base as nat),
    ensures
        out@ == scaled(digits@, factor as nat, 0, base as nat),
{
    let mut out: Vec<usize> = Vec::new();
    let mut carry: usize = 0;
    let mut i: usize = 0;
    proof {
        assert(digits@.skip(0) =~= digits@);
        assert(out@ + scaled(digits@, factor as nat, 0, base as nat) =~= scaled(
            digits@,
            factor as nat,
            0,
            base as nat,
        ));
    }
    while i < digits.len()
        invariant
            i <= digits@.len(),
            base >= 2,
            factor >= 1,
            carry < factor,
            digits_wf(digits@, base as nat),
            out@ + scaled(digits@.skip(i as int), factor as nat, carry as nat, base as nat)
                == scaled(digits@, factor as nat, 0, base as nat),
        decreases digits@.len() - i,
    {
        let digit: usize = digits[i];
        assert(digit * factor + carry < base * factor) by (nonlinear_arith)
            requires
                digit < base,
                carry < factor,
        ;
        assert(base * factor <= 0xffff_ffff_ffff_ffff * 0xffff_ffff_ffff_ffff) by (nonlinear_arith)
            requires
                base <= 0xffff_ffff_ffff_ffff,
                factor <= 0xffff_ffff_ffff_ffff,
        ;
        let x: u128 = (digit as u128) * (factor as u128) + (carry as u128);
        proof {
            let rest = digits@.skip(i as int);
            assert(rest[0] == digit);
            assert(rest.skip(1) =~= digits@.skip(i + 1));
            lemma_fundamental_div_mod(x as int, base as int);
            assert(x / (base as u128) < factor) by (nonlinear_arith)
                requires
                    x < base * factor,
                    x == base * (x / (base as u128)) + x % (base as u128),
                    x % (base as u128) >= 0,
                    base >= 2,
            ;
            assert(out@.push((x % (base as u128)) as usize) + scaled(
                digits@.skip(i + 1),
                factor as nat,
                (x / (base as u128)) as nat,
                base as nat,
            ) =~= out@ + scaled(rest, factor as nat, carry as nat, base as nat));
        }
        out.push((x % (base as u128)) as usize);
        carry = (x / (base as u128)) as usize;
        i += 1;
    }
    assert(digits@.skip(i as int) =~= Seq::<usize>::empty());
    let ghost none = Seq::<usize>::empty();
    while carry > 0
        invariant
            base >= 2,
            none.len() == 0,
            out@ + scaled(none, factor as nat, carry as nat, base as nat) == scaled(
                digits@,
                factor as nat,
                0,
                base as nat,
            ),
        decreases carry,
    {
        proof {
            lemma_div_smaller(carry as nat, base as nat);
            assert(out@.push(carry % base) + scaled(
                none,
                factor as nat,
                (carry / base) as nat,
                base as nat,
            ) =~= out@ + scaled(none, factor as nat, carry as nat, base as nat));
        }
        out.push(carry % base);
        carry = carry / base;
    }
    assert(out@ + Seq::<usize>::empty() =~= out@);
    out
}

/// The number that the digits from `start` on stand for, held at
/// `usize::MAX`.
fn top_value(digits: &Vec<usize>, start: usize, base: usize) -> (top: usize)
    requires
        start <= digits@.len(),
        base >= 2,
    ensures
        top == capped(value(digits@.skip(start as int), base as nat)),
{
    let mut top: usize = 0;
    let mut i: usize = digits.len();
    assert(digits@.skip(i as int) =~= Seq::<usize>::empty());
    while i > start
        invariant
            start <= i <= digits@.len(),
            base >= 2,
            top == capped(value(digits@.skip(i as int), base as nat)),
        decreases i,
    {
        i -= 1;
        let digit: usize = digits[i];
        proof {
            let here = digits@.skip(i as int);
            assert(here[0] == digit);
            assert(here.skip(1) =~= digits@.skip(i + 1));
        }
        let ghost above = value(digits@.skip(i + 1), base as nat);
        assert(base * top <= 0xffff_ffff_ffff_ffff * 0xffff_ffff_ffff_ffff) by (nonlinear_arith)
            requires
                base <= 0xffff_ffff_ffff_ffff,
                top <= 0xffff_ffff_ffff_ffff,
        ;
        let x: u128 = (digit as u128) + (base as u128) * (top as u128);
        proof {
            if above > usize::MAX {
                assert(digit + base * above > usize::MAX) by (nonlinear_arith)
                    requires
                        above > usize::MAX,
                        base >= 2,
                        digit >= 0,
                ;
                assert(base * top >= usize::MAX) by (nonlinear_arith)
                    requires
                        top == usize::MAX,
                        base >= 2,
                ;
            }
        }
        top = if x > usize::MAX as u128 {
            usize::MAX
        } else {
            x as usize
        };
    }
    top
}

/// The expected number of points that hold all the words of a query, where
/// word `i` is held by `lens[i]` of `points_count` points; held at
/// `usize::MAX`.
pub fn expected(lens: &Vec<usize>, points_count: usize) -> (exp: usize)
    ensures
        exp == capped(expected_matches(lens@, points_count as nat)),
{
    if points_count == 0 || lens.len() == 0 {
        return 0;
    }
    let mut z: usize = 0;
    while z < lens.len()
        invariant
            z <= lens@.len(),
            lens@.len() > 0,
            points_count > 0,
            forall|k: int| 0 <= k < z ==> lens@[k] >= 1,
        decreases lens@.len() - z,
    {
        if lens[z] == 0 {
            proof {
                lemma_product_with_zero(lens@, z as int);
                lemma_power_positive(points_count as nat, (lens@.len() - 1) as nat);
                assert(0nat / power(points_count as nat, (lens@.len() - 1) as nat) == 0)
                    by (nonlinear_arith)
                    requires
                        power(points_count as nat, (lens@.len() - 1) as nat) > 0,
                ;
            }
            return 0;
        }
        z += 1;
    }
    if points_count == 1 {
        let mut all: usize = 1;
        let mut i: usize = 0;
        assert(lens@.take(0) =~= Seq::<usize>::empty());
        while i < lens.len()
            invariant
                i <= lens@.len(),
                forall|k: int| 0 <= k < lens@.len() ==> lens@[k] >= 1,
                all == capped(product(lens@.take(i as int))),
            decreases lens@.len() - i,
        {
            let len: usize = lens[i];
            let ghost before = product(lens@.take(i as int));
            proof {
                let upto = lens@.take(i + 1);
                assert(upto.drop_last() =~= lens@.take(i as int));
                assert(upto.last() == len);
                if before > usize::MAX {
                    assert(before * len > usize::MAX) by (nonlinear_arith)
                        requires
                            before > usize::MAX,
                            len >= 1,
                    ;
                    assert(all * len >= usize::MAX) by (nonlinear_arith)
                        requires
                            all == usize::MAX,
                            len >= 1,
                    ;
                }
            }
            assert(all * len <= 0xffff_ffff_ffff_ffff * 0xffff_ffff_ffff_ffff)
                by (nonlinear_arith)
                requires
                    all <= 0xffff_ffff_ffff_ffff,
                    len <= 0xffff_ffff_ffff_ffff,
            ;
            let x: u128 = (all as u128) * (len as u128);
            all = if x > usize::MAX as u128 {
                usize::MAX
            } else {
                x as usize
            };
            i += 1;
        }
        proof {
            assert(lens@.take(i as int) =~= lens@);
            lemma_power_of_one((lens@.len() - 1) as nat);
        }
        return all;
    }
    let mut digits: Vec<usize> = Vec::new();
    digits.push(1);
    let mut i: usize = 0;
    proof {
        assert(lens@.take(0) =~= Seq::<usize>::empty());
        assert(digits@.skip(1) =~= Seq::<usize>::empty());
        assert(value(digits@.skip(1), points_count as nat) == 0);
        assert(digits@[0] == 1);
        assert(value(digits@, points_count as nat) == digits@[0] + points_count * value(
            digits@.skip(1),
            points_count as nat,
        ));
        assert(value(digits@, points_count as nat) == 1);
    }
    while i < lens.len()
        invariant
            i <= lens@.len(),
            points_count >= 2,
            forall|k: int| 0 <= k < lens@.len() ==> lens@[k] >= 1,
            digits_wf(digits@, points_count as nat),
            value(digits@, points_count as nat) == product(lens@.take(i as int)),
        decreases lens@.len() - i,
    {
        proof {
            let upto = lens@.take(i + 1);
            assert(upto.drop_last() =~= lens@.take(i as int));
            assert(upto.last() == lens@[i as int]);
            lemma_scaled(digits@, lens@[i as int] as nat, 0, points_count as nat);
        }
        digits = scale(&digits, lens[i], points_count);
        i += 1;
    }
    let shift: usize = lens.len() - 1;
    let start: usize = if shift <= digits.len() {
        shift
    } else {
        digits.len()
    };
    proof {
        assert(lens@.take(i as int) =~= lens@);
        lemma_shift_divides(digits@, points_count as nat, shift as nat);
    }
    top_value(&digits, start, points_count)
}

} // verus!
