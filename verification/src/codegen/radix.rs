//! Counting in a mixed radix: the number `k` written with one digit per
//! place, where place `i` has `radices[i]` values and the last place moves
//! fastest.

use vstd::arithmetic::div_mod::{
    lemma_div_pos_is_pos, lemma_fundamental_div_mod, lemma_fundamental_div_mod_converse,
    lemma_mod_bound,
};
use vstd::arithmetic::mul::{lemma_mul_is_commutative};
use vstd::prelude::*;

verus! {

/// The numbers of `v` as naturals.
pub open spec fn as_nats(v: Seq<usize>) -> Seq<nat> {
    v.map_values(|x: usize| x as nat)
}

/// Every place has at least one value.
pub open spec fn positive(radices: Seq<nat>) -> bool {
    forall|i: int| 0 <= i < radices.len() ==> radices[i] > 0
}

/// How many numbers the places can write.
pub open spec fn product(radices: Seq<nat>) -> nat
    decreases radices.len(),
{
    if radices.len() == 0 {
        1
    } else {
        product(radices.drop_last()) * radices.last()
    }
}

/// The digits of `k`, one per place.
pub open spec fn digits(radices: Seq<nat>, k: nat) -> Seq<nat>
    decreases radices.len(),
{
    if radices.len() == 0 {
        Seq::empty()
    } else {
        digits(radices.drop_last(), k / radices.last()).push(k % radices.last())
    }
}

/// The number that the digits `d` write.
pub open spec fn value(radices: Seq<nat>, d: Seq<nat>) -> nat
    decreases radices.len(),
{
    if radices.len() == 0 || d.len() != radices.len() {
        0
    } else {
        value(radices.drop_last(), d.drop_last()) * radices.last() + d.last()
    }
}

/// `d` has one digit per place, each below its radix.
pub open spec fn in_range(radices: Seq<nat>, d: Seq<nat>) -> bool {
    &&& d.len() == radices.len()
    &&& forall|i: int| 0 <= i < d.len() ==> d[i] < radices[i]
}

/// The product of positive radices is positive.
pub proof fn lemma_product_positive(radices: Seq<nat>)
    requires
        positive(radices),
    ensures
        product(radices) > 0,
    decreases radices.len(),
{
    if radices.len() > 0 {
        lemma_product_positive(radices.drop_last());
        assert(product(radices.drop_last()) * radices.last() > 0) by (nonlinear_arith)
            requires
                product(radices.drop_last()) > 0,
                radices.last() > 0,
        ;
    }
}

/// The first `i` places write no more numbers than all of them.
pub proof fn lemma_product_prefix(radices: Seq<nat>, i: int)
    requires
        positive(radices),
        0 <= i <= radices.len(),
    ensures
        0 < product(radices.take(i)) <= product(radices),
    decreases radices.len() - i,
{
    lemma_product_positive(radices.take(i));
    if i == radices.len() {
        assert(radices.take(i) =~= radices);
    } else {
        lemma_product_prefix(radices, i + 1);
        let next = radices.take(i + 1);
        assert(next.drop_last() =~= radices.take(i));
        assert(product(next) == product(radices.take(i)) * radices[i]);
        assert(product(radices.take(i)) <= product(radices.take(i)) * radices[i])
            by (nonlinear_arith)
            requires
                radices[i] > 0,
        ;
    }
}

/// `digits` gives one digit per place, each below its radix.
pub proof fn lemma_digits_in_range(radices: Seq<nat>, k: nat)
    requires
        positive(radices),
    ensures
        in_range(radices, digits(radices, k)),
    decreases radices.len(),
{
    if radices.len() > 0 {
        let last = radices.last();
        lemma_digits_in_range(radices.drop_last(), k / last);
        lemma_mod_bound(k as int, last as int);
    }
}

/// The digits of a number below the product write that number.
pub proof fn lemma_value_of_digits(radices: Seq<nat>, k: nat)
    requires
        positive(radices),
        k < product(radices),
    ensures
        value(radices, digits(radices, k)) == k,
    decreases radices.len(),
{
    lemma_digits_in_range(radices, k);
    if radices.len() > 0 {
        let last = radices.last();
        let rest = radices.drop_last();
        let q = k / last;
        lemma_fundamental_div_mod(k as int, last as int);
        lemma_div_pos_is_pos(k as int, last as int);
        lemma_product_positive(rest);
        assert(q < product(rest)) by (nonlinear_arith)
            requires
                k < product(rest) * last,
                k == last * q + (k % last),
                0 <= k % last,
                last > 0,
        ;
        lemma_value_of_digits(rest, q);
        assert(digits(radices, k).drop_last() =~= digits(rest, q));
        lemma_mul_is_commutative(q as int, last as int);
    }
}

/// Digits in range write a number below the product, and are its digits.
pub proof fn lemma_digits_of_value(radices: Seq<nat>, d: Seq<nat>)
    requires
        positive(radices),
        in_range(radices, d),
    ensures
        value(radices, d) < product(radices),
        digits(radices, value(radices, d)) == d,
    decreases radices.len(),
{
    if radices.len() == 0 {
        assert(d =~= Seq::<nat>::empty());
    } else {
        let last = radices.last();
        let rest = radices.drop_last();
        let v = value(rest, d.drop_last());
        lemma_digits_of_value(rest, d.drop_last());
        assert(v * last + d.last() < product(rest) * last) by (nonlinear_arith)
            requires
                v < product(rest),
                d.last() < last,
        ;
        lemma_fundamental_div_mod_converse(
            value(radices, d) as int,
            last as int,
            v as int,
            d.last() as int,
        );
        assert(digits(radices, value(radices, d)) =~= d);
    }
}

/// No place has more values than all places together write numbers.
pub proof fn lemma_radix_le_product(radices: Seq<nat>, i: int)
    requires
        positive(radices),
        0 <= i < radices.len(),
    ensures
        radices[i] <= product(radices),
{
    lemma_product_prefix(radices, i);
    lemma_product_prefix(radices, i + 1);
    let next = radices.take(i + 1);
    assert(next.drop_last() =~= radices.take(i));
    assert(radices[i] <= product(radices.take(i)) * radices[i]) by (nonlinear_arith)
        requires
            product(radices.take(i)) > 0,
    ;
}

/// Two numbers below the product with the same digits are one number.
pub proof fn lemma_digits_injective(radices: Seq<nat>, j: nat, k: nat)
    requires
        positive(radices),
        j < product(radices),
        k < product(radices),
        digits(radices, j) == digits(radices, k),
    ensures
        j == k,
{
    lemma_value_of_digits(radices, j);
    lemma_value_of_digits(radices, k);
}

/// `n` zeros.
pub open spec fn zeros(n: nat) -> Seq<nat> {
    Seq::new(n, |i: int| 0nat)
}

/// The digits of the number after the one that `d` writes: the last place
/// that is not at its greatest digit goes up by one and the places after it
/// go back to zero. `None` where every place is at its greatest digit.
pub open spec fn next_digits(radices: Seq<nat>, d: Seq<nat>) -> Option<Seq<nat>>
    decreases radices.len(),
{
    if radices.len() == 0 || d.len() != radices.len() {
        None
    } else if d.last() + 1 < radices.last() {
        Some(d.drop_last().push(d.last() + 1))
    } else {
        match next_digits(radices.drop_last(), d.drop_last()) {
            Some(e) => Some(e.push(0)),
            None => None,
        }
    }
}

/// The digits `o`, if any, followed by `z` zeros.
pub open spec fn padded(o: Option<Seq<nat>>, z: nat) -> Option<Seq<nat>> {
    match o {
        Some(e) => Some(e + zeros(z)),
        None => None,
    }
}

/// Where the places from `m` on are at their greatest digit, the next number
/// is the next number of the first `m` places, followed by zeros.
pub proof fn lemma_next_digits_carry(radices: Seq<nat>, d: Seq<nat>, m: int)
    requires
        in_range(radices, d),
        0 < m <= radices.len(),
        d[m - 1] + 1 >= radices[m - 1],
    ensures
        padded(next_digits(radices.take(m), d.take(m)), (radices.len() - m) as nat) == padded(
            next_digits(radices.take(m - 1), d.take(m - 1)),
            (radices.len() - m + 1) as nat,
        ),
{
    let r = radices.take(m);
    let e = d.take(m);
    assert(r.drop_last() =~= radices.take(m - 1));
    assert(e.drop_last() =~= d.take(m - 1));
    let z = (radices.len() - m) as nat;
    match next_digits(radices.take(m - 1), d.take(m - 1)) {
        Some(f) => {
            assert(f.push(0) + zeros(z) =~= f + zeros(z + 1));
        },
        None => {},
    }
}

/// `next_digits` counts: it writes the next number, and gives `None` exactly
/// at the last one.
pub proof fn lemma_next_digits(radices: Seq<nat>, d: Seq<nat>)
    requires
        positive(radices),
        in_range(radices, d),
    ensures
        match next_digits(radices, d) {
            Some(e) => in_range(radices, e) && value(radices, e) == value(radices, d) + 1,
            None => value(radices, d) + 1 == product(radices),
        },
    decreases radices.len(),
{
    if radices.len() > 0 {
        let last = radices.last();
        let rest = radices.drop_last();
        if d.last() + 1 < last {
            let e = d.drop_last().push(d.last() + 1);
            assert(e.drop_last() =~= d.drop_last());
        } else {
            lemma_next_digits(rest, d.drop_last());
            match next_digits(rest, d.drop_last()) {
                Some(e) => {
                    let f = e.push(0);
                    assert(f.drop_last() =~= e);
                    assert((value(rest, d.drop_last()) + 1) * last == value(rest, d.drop_last())
                        * last + last) by (nonlinear_arith);
                },
                None => {
                    assert((value(rest, d.drop_last()) + 1) * last == value(rest, d.drop_last())
                        * last + last) by (nonlinear_arith);
                },
            }
        }
    }
}

/// The digits that are all zero write the number 0.
pub proof fn lemma_value_zeros(radices: Seq<nat>)
    ensures
        value(radices, zeros(radices.len())) == 0,
    decreases radices.len(),
{
    if radices.len() > 0 {
        lemma_value_zeros(radices.drop_last());
        assert(zeros(radices.len()).drop_last() =~= zeros(radices.drop_last().len()));
        assert(0 * radices.last() == 0);
    }
}

} // verus!
