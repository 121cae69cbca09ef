//! Digit strings as numbers: reading a numeral in one base and writing it in another.
//!
//! A digit string is a sequence of `u8` digits, most significant first. A run of
//! leading zero digits does not change the number a string denotes, so a
//! conversion that is to be undone has to carry that run across unchanged:
//! [`rebased`] does.

use vstd::prelude::*;
use vstd::arithmetic::div_mod::{
    lemma_div_decreases,
    lemma_fundamental_div_mod,
    lemma_fundamental_div_mod_converse,
    lemma_mod_bound,
};

verus! {

/// The bases whose digits fit a `u8`.
pub open spec fn valid_base(base: nat) -> bool {
    2 <= base <= 256
}

/// Every digit of `digits` is a digit of `base`.
pub open spec fn digits_below(digits: Seq<u8>, base: nat) -> bool {
    forall|i: int| 0 <= i < digits.len() ==> (#[trigger] digits[i] as nat) < base
}

/// A run of `count` zero digits.
pub open spec fn zeros(count: nat) -> Seq<u8> {
    Seq::new(count, |i: int| 0u8)
}

/// How many zero digits stand before the first nonzero digit of `digits`.
pub open spec fn leading_zeros(digits: Seq<u8>) -> nat
    decreases digits.len(),
{
    if digits.len() > 0 && digits[0] == 0 {
        1 + leading_zeros(digits.skip(1))
    } else {
        0
    }
}

/// The number that `digits` denotes in `base`, most significant digit first.
pub open spec fn number(digits: Seq<u8>, base: nat) -> nat
    decreases digits.len(),
{
    if digits.len() == 0 {
        0
    } else {
        number(digits.drop_last(), base) * base + digits.last() as nat
    }
}

/// The shortest digit string that denotes `n` in `base`: no leading zero, and
/// no digit at all for zero.
pub open spec fn numeral(n: nat, base: nat) -> Seq<u8>
    decreases n,
    via numeral_decreases
{
    if n == 0 || base < 2 {
        Seq::empty()
    } else {
        numeral(n / base, base).push((n % base) as u8)
    }
}

#[via_fn]
proof fn numeral_decreases(n: nat, base: nat) {
    if n != 0 && base >= 2 {
        lemma_div_decreases(n as int, base as int);
    }
}

/// `digits`, read in base `from`, written in base `to`: each leading zero digit
/// is kept as a zero digit, and the rest is the numeral of the same number.
pub open spec fn rebased(digits: Seq<u8>, from: nat, to: nat) -> Seq<u8> {
    zeros(leading_zeros(digits)) + numeral(number(digits, from), to)
}

/// The leading zeros of a digit string are a prefix of it, and all zero.
pub proof fn lemma_leading_zeros_prefix(digits: Seq<u8>)
    ensures
        leading_zeros(digits) <= digits.len(),
        digits.take(leading_zeros(digits) as int) == zeros(leading_zeros(digits)),
        leading_zeros(digits) < digits.len() ==> digits[leading_zeros(digits) as int] != 0,
    decreases digits.len(),
{
    if digits.len() > 0 && digits[0] == 0 {
        let rest = digits.skip(1);
        lemma_leading_zeros_prefix(rest);
        let z = leading_zeros(rest);
        assert forall|i: int| 0 <= i < z + 1 implies digits[i] == 0 by {
            if i > 0 {
                assert(rest.take(z as int)[i - 1] == rest[i - 1]);
                assert(zeros(z)[i - 1] == 0);
            }
        }
        assert(digits.take(z as int + 1) =~= zeros(z + 1));
        if z + 1 < digits.len() {
            assert(rest[z as int] == digits[z as int + 1]);
        }
    } else {
        assert(digits.take(0) =~= zeros(0));
    }
}

/// A count of zero digits that ends at the first nonzero digit, or at the end
/// of the string, is the number of leading zeros.
pub proof fn lemma_leading_zeros_count(digits: Seq<u8>, count: nat)
    requires
        count <= digits.len(),
        forall|i: int| 0 <= i < count ==> digits[i] == 0,
        count < digits.len() ==> digits[count as int] != 0,
    ensures
        leading_zeros(digits) == count,
    decreases count,
{
    if count > 0 {
        let rest = digits.skip(1);
        assert forall|i: int| 0 <= i < count - 1 implies rest[i] == 0 by {
            assert(rest[i] == digits[i + 1]);
        }
        lemma_leading_zeros_count(rest, (count - 1) as nat);
    }
}

/// The digits of a numeral are digits of its base, and the first is not zero.
pub proof fn lemma_numeral_digits(n: nat, base: nat)
    requires
        valid_base(base),
    ensures
        digits_below(numeral(n, base), base),
        n == 0 <==> numeral(n, base).len() == 0,
        n > 0 ==> numeral(n, base)[0] != 0,
    decreases n,
{
    if n > 0 {
        lemma_div_decreases(n as int, base as int);
        lemma_fundamental_div_mod(n as int, base as int);
        lemma_mod_bound(n as int, base as int);
        lemma_numeral_digits(n / base, base);
        let high = numeral(n / base, base);
        let digit = (n % base) as u8;
        assert forall|i: int| 0 <= i < high.push(digit).len() implies (#[trigger] high.push(
            digit,
        )[i] as nat) < base by {
            if i < high.len() {
                assert(high.push(digit)[i] == high[i]);
            }
        }
        if n / base == 0 {
            let quotient = n / base;
            assert(base * quotient == 0) by (nonlinear_arith)
                requires
                    quotient == 0,
            ;
        } else {
            assert(high.push(digit)[0] == high[0]);
        }
    }
}

/// A numeral denotes the number it was written for.
pub proof fn lemma_number_of_numeral(n: nat, base: nat)
    requires
        valid_base(base),
    ensures
        number(numeral(n, base), base) == n,
    decreases n,
{
    if n > 0 {
        lemma_div_decreases(n as int, base as int);
        lemma_fundamental_div_mod(n as int, base as int);
        lemma_mod_bound(n as int, base as int);
        lemma_number_of_numeral(n / base, base);
        let high = numeral(n / base, base);
        let digit = (n % base) as u8;
        assert(high.push(digit).drop_last() =~= high);
        assert((n / base) * base + (n % base) == n) by (nonlinear_arith)
            requires
                n == base * (n / base) + (n % base),
        ;
    }
}

/// Zero digits in front of a digit string do not change the number it denotes.
pub proof fn lemma_number_of_padded(count: nat, digits: Seq<u8>, base: nat)
    ensures
        number(zeros(count) + digits, base) == number(digits, base),
    decreases digits.len(), count,
{
    let padded = zeros(count) + digits;
    if digits.len() > 0 {
        assert(padded.drop_last() =~= zeros(count) + digits.drop_last());
        lemma_number_of_padded(count, digits.drop_last(), base);
    } else if count > 0 {
        assert(padded.drop_last() =~= zeros((count - 1) as nat) + digits);
        lemma_number_of_padded((count - 1) as nat, digits, base);
        assert(number(padded.drop_last(), base) * base == 0) by (nonlinear_arith)
            requires
                number(padded.drop_last(), base) == 0,
        ;
    } else {
        assert(padded =~= digits);
    }
}

/// A digit string without a leading zero is the numeral of the number it
/// denotes, and denotes zero only if it is empty.
pub proof fn lemma_numeral_of_number(digits: Seq<u8>, base: nat)
    requires
        valid_base(base),
        digits_below(digits, base),
        digits.len() > 0 ==> digits[0] != 0,
    ensures
        numeral(number(digits, base), base) == digits,
        digits.len() > 0 ==> number(digits, base) > 0,
    decreases digits.len(),
{
    if digits.len() > 0 {
        let high = digits.drop_last();
        let digit = digits.last();
        let n = number(digits, base);
        lemma_numeral_of_number(high, base);
        assert(n > 0) by (nonlinear_arith)
            requires
                n == number(high, base) * base + digit as nat,
                base >= 2,
                high.len() > 0 ==> number(high, base) > 0,
                high.len() == 0 ==> digit != 0,
        ;
        lemma_fundamental_div_mod_converse(
            n as int,
            base as int,
            number(high, base) as int,
            digit as int,
        );
        assert(high.push(digit) =~= digits);
    } else {
        assert(numeral(0, base) =~= digits);
    }
}

/// Writing a digit string in another base and the result in the first base
/// again gives the digit string back.
pub proof fn lemma_rebased_twice(digits: Seq<u8>, from: nat, to: nat)
    requires
        valid_base(from),
        valid_base(to),
        digits_below(digits, from),
    ensures
        digits_below(rebased(digits, from, to), to),
        rebased(rebased(digits, from, to), to, from) == digits,
{
    let count = leading_zeros(digits);
    let n = number(digits, from);
    let written = numeral(n, to);
    let there = rebased(digits, from, to);
    let rest = digits.skip(count as int);
    lemma_leading_zeros_prefix(digits);
    lemma_numeral_digits(n, to);
    assert(digits =~= zeros(count) + rest);
    // The conversion keeps the count of leading zeros and the number.
    lemma_leading_zeros_count(there, count);
    lemma_number_of_padded(count, written, to);
    lemma_number_of_numeral(n, to);
    // What follows the leading zeros is the numeral of that number.
    lemma_number_of_padded(count, rest, from);
    lemma_numeral_of_number(rest, from);
}

/// The number whose digits in `base`, least significant first, are `low`
/// followed by the digits of `high`.
spec fn little_endian(low: Seq<u8>, high: nat, base: nat) -> nat
    decreases low.len(),
{
    if low.len() == 0 {
        high
    } else {
        little_endian(low.drop_last(), low.last() as nat + base * high, base)
    }
}

/// `low` holds digits of `base`, least significant first, and ends in no zero.
spec fn shortest(low: Seq<u8>, base: nat) -> bool {
    &&& digits_below(low, base)
    &&& low.len() > 0 ==> low.last() != 0
}

/// The first of the low digits counts once, and all that follows it counts
/// `base` times.
proof fn lemma_little_endian_first(low: Seq<u8>, high: nat, base: nat)
    requires
        low.len() > 0,
    ensures
        little_endian(low, high, base) == low[0] as nat + base * little_endian(
            low.skip(1),
            high,
            base,
        ),
    decreases low.len(),
{
    let front = low.drop_last();
    let carried = low.last() as nat + base * high;
    if low.len() > 1 {
        lemma_little_endian_first(front, carried, base);
        assert(low.skip(1).drop_last() =~= front.skip(1));
        assert(low.skip(1).last() == low.last());
    } else {
        assert(little_endian(front, carried, base) == carried);
        assert(little_endian(low.skip(1), high, base) == high);
    }
}

/// Digits written least significant first denote what their reverse denotes.
proof fn lemma_little_endian_reversed(low: Seq<u8>, base: nat)
    ensures
        little_endian(low, 0, base) == number(low.reverse(), base),
    decreases low.len(),
{
    if low.len() > 0 {
        let rest = low.skip(1);
        lemma_little_endian_first(low, 0, base);
        lemma_little_endian_reversed(rest, base);
        assert(low.reverse().drop_last() =~= rest.reverse());
        assert(base * number(rest.reverse(), base) == number(rest.reverse(), base) * base)
            by (nonlinear_arith);
    }
}

/// Multiplies the number in `acc` by `from` and adds `digit` to it.
fn shift_in(acc: &mut Vec<u8>, digit: u8, from: u32, to: u32)
    requires
        valid_base(from as nat),
        valid_base(to as nat),
        (digit as nat) < from,
        shortest(old(acc)@, to as nat),
    ensures
        shortest(final(acc)@, to as nat),
        little_endian(final(acc)@, 0, to as nat) == little_endian(old(acc)@, 0, to as nat) * from
            + digit,
{
    let ghost before = acc@;
    let ghost total = from as nat * little_endian(before, 0, to as nat) + digit as nat;
    let mut carry: u32 = digit as u32;
    let mut j: usize = 0;
    proof {
        assert(before.skip(0) =~= before);
        assert(acc@.take(0).len() == 0);
    }
    while j < acc.len()
        invariant
            valid_base(from as nat),
            valid_base(to as nat),
            j <= acc.len(),
            acc.len() == before.len(),
            carry < from,
            digits_below(acc@, to as nat),
            acc@.skip(j as int) == before.skip(j as int),
            little_endian(
                acc@.take(j as int),
                carry as nat + from as nat * little_endian(before.skip(j as int), 0, to as nat),
                to as nat,
            ) == total,
            j > 0 && before[j - 1] != 0 ==> acc[j - 1] != 0 || carry != 0,
        decreases acc.len() - j,
    {
        let ghost shifted = acc@;
        let ghost above = little_endian(before.skip(j + 1), 0, to as nat);
        let old_digit = acc[j];
        proof {
            assert(acc@.skip(j as int)[0] == before.skip(j as int)[0]);
            assert((old_digit as u32) * from <= 255 * 256) by (nonlinear_arith)
                requires
                    old_digit <= 255,
                    from <= 256,
            ;
        }
        let sum: u32 = carry + (old_digit as u32) * from;
        let low = (sum % to) as u8;
        let next = sum / to;
        proof {
            lemma_fundamental_div_mod(sum as int, to as int);
            lemma_mod_bound(sum as int, to as int);
            assert(next < from) by (nonlinear_arith)
                requires
                    sum == to * next + (sum % to),
                    sum == carry + old_digit * from,
                    carry < from,
                    old_digit < to,
                    0 <= sum % to,
            ;
            lemma_little_endian_first(before.skip(j as int), 0, to as nat);
            assert(before.skip(j as int).skip(1) =~= before.skip(j + 1));
            assert(low as nat + to as nat * (next as nat + from as nat * above) == carry as nat
                + from as nat * (old_digit as nat + to as nat * above)) by (nonlinear_arith)
                requires
                    sum == to * next + low,
                    sum == carry + old_digit * from,
            ;
            assert(old_digit != 0 ==> low != 0 || next != 0) by (nonlinear_arith)
                requires
                    sum == to * next + low,
                    sum == carry + old_digit * from,
                    from >= 2,
            ;
        }
        acc.set(j, low);
        carry = next;
        proof {
            assert(acc@.take(j + 1).drop_last() =~= shifted.take(j as int));
            assert(acc@.skip(j + 1) =~= before.skip(j + 1));
        }
        j += 1;
    }
    proof {
        assert(acc@.take(j as int) =~= acc@);
        assert(from as nat * little_endian(before.skip(j as int), 0, to as nat) == 0)
            by (nonlinear_arith)
            requires
                little_endian(before.skip(j as int), 0, to as nat) == 0,
        ;
    }
    while carry > 0
        invariant
            valid_base(to as nat),
            digits_below(acc@, to as nat),
            little_endian(acc@, carry as nat, to as nat) == total,
            acc.len() > 0 ==> acc@.last() != 0 || carry != 0,
        decreases carry,
    {
        let ghost shifted = acc@;
        proof {
            lemma_fundamental_div_mod(carry as int, to as int);
            lemma_mod_bound(carry as int, to as int);
            lemma_div_decreases(carry as int, to as int);
            assert(carry % to != 0 || carry / to != 0) by (nonlinear_arith)
                requires
                    carry == to * (carry / to) + (carry % to),
                    carry > 0,
            ;
        }
        acc.push((carry % to) as u8);
        carry = carry / to;
        proof {
            assert(acc@.drop_last() =~= shifted);
        }
    }
    proof {
        assert(from as nat * little_endian(before, 0, to as nat) == little_endian(
            before,
            0,
            to as nat,
        ) * from) by (nonlinear_arith);
    }
}

/// Counts the zero digits in front of the first nonzero digit.
pub fn count_leading_zeros(digits: &[u8]) -> (count: usize)
    ensures
        count == leading_zeros(digits@),
{
    let mut count: usize = 0;
    while count < digits.len() && digits[count] == 0
        invariant
            count <= digits.len(),
            forall|i: int| 0 <= i < count ==> digits@[i] == 0,
        decreases digits.len() - count,
    {
        count += 1;
    }
    proof {
        lemma_leading_zeros_count(digits@, count as nat);
    }
    count
}

/// Reads `digits` in base `from` and returns the numeral of that number in
/// base `to`, least significant digit first.
fn accumulate(digits: &[u8], from: u32, to: u32) -> (acc: Vec<u8>)
    requires
        valid_base(from as nat),
        valid_base(to as nat),
        digits_below(digits@, from as nat),
    ensures
        acc@.reverse() == numeral(number(digits@, from as nat), to as nat),
{
    let mut acc: Vec<u8> = Vec::new();
    let mut i: usize = 0;
    while i < digits.len()
        invariant
            valid_base(from as nat),
            valid_base(to as nat),
            digits_below(digits@, from as nat),
            i <= digits.len(),
            shortest(acc@, to as nat),
            little_endian(acc@, 0, to as nat) == number(digits@.take(i as int), from as nat),
        decreases digits.len() - i,
    {
        shift_in(&mut acc, digits[i], from, to);
        proof {
            assert(digits@.take(i + 1).drop_last() =~= digits@.take(i as int));
        }
        i += 1;
    }
    proof {
        assert(digits@.take(i as int) =~= digits@);
        lemma_little_endian_reversed(acc@, to as nat);
        lemma_numeral_of_number(acc@.reverse(), to as nat);
    }
    acc
}

/// Writes in base `to` the digit string that `digits` is in base `from`,
/// keeping each leading zero digit.
pub fn rebase(digits: &[u8], from: u32, to: u32) -> (out: Vec<u8>)
    requires
        valid_base(from as nat),
        valid_base(to as nat),
        digits_below(digits@, from as nat),
    ensures
        out@ == rebased(digits@, from as nat, to as nat),
        digits_below(out@, to as nat),
{
    proof {
        lemma_rebased_twice(digits@, from as nat, to as nat);
    }
    let count = count_leading_zeros(digits);
    let acc = accumulate(digits, from, to);
    let mut out: Vec<u8> = Vec::new();
    let mut i: usize = 0;
    while i < count
        invariant
            i <= count,
            out@ == zeros(i as nat),
        decreases count - i,
    {
        out.push(0);
        i += 1;
    }
    let mut k: usize = acc.len();
    while k > 0
        invariant
            k <= acc.len(),
            out@ == zeros(count as nat) + acc@.reverse().take(acc.len() - k),
        decreases k,
    {
        k -= 1;
        out.push(acc[k]);
    }
    proof {
        assert(acc@.reverse().take(acc.len() as int) =~= acc@.reverse());
    }
    out
}

} // verus!
