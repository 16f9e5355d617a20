//! Numbers written in decimal digits.

use vstd::prelude::*;

verus! {

/// Ten to the power `n`.
pub open spec fn pow10(n: nat) -> nat
    decreases n,
{
    if n == 0 {
        1
    } else {
        10 * pow10((n - 1) as nat)
    }
}

/// The number that the digits `ds` write, the most significant first.
pub open spec fn decimal(ds: Seq<nat>) -> nat
    decreases ds.len(),
{
    if ds.len() == 0 {
        0
    } else {
        decimal(ds.drop_last()) * 10 + ds.last()
    }
}

/// Whether each entry of `ds` is a digit.
pub open spec fn are_digits(ds: Seq<nat>) -> bool {
    forall|i: int| 0 <= i < ds.len() ==> #[trigger] ds[i] <= 9
}

/// `ds` followed by zeros up to the length `n`.
pub open spec fn padded(ds: Seq<nat>, n: nat) -> Seq<nat> {
    Seq::new(
        n,
        |i: int|
            if i < ds.len() {
                ds[i]
            } else {
                0
            },
    )
}

/// A power of ten is at least 1.
pub proof fn lemma_pow10_positive(n: nat)
    ensures
        pow10(n) >= 1,
    decreases n,
{
    if n > 0 {
        lemma_pow10_positive((n - 1) as nat);
    }
}

/// Ten to a sum is the product of the powers.
pub proof fn lemma_pow10_add(a: nat, b: nat)
    ensures
        pow10(a + b) == pow10(a) * pow10(b),
    decreases a,
{
    if a > 0 {
        let less = (a - 1) as nat;
        lemma_pow10_add(less, b);
        assert(a + b - 1 == less + b);
        assert(pow10(a + b) == 10 * pow10(less + b));
        assert(10 * (pow10(less) * pow10(b)) == (10 * pow10(less)) * pow10(b))
            by (nonlinear_arith);
    } else {
        assert(a + b == b);
        assert(1 * pow10(b) == pow10(b));
    }
}

/// The powers of ten grow with the exponent.
pub proof fn lemma_pow10_monotonic(a: nat, b: nat)
    requires
        a <= b,
    ensures
        pow10(a) <= pow10(b),
{
    lemma_pow10_add(a, (b - a) as nat);
    lemma_pow10_positive((b - a) as nat);
    lemma_pow10_positive(a);
    assert(pow10(a) * pow10((b - a) as nat) >= pow10(a)) by (nonlinear_arith)
        requires
            pow10(a) >= 1,
            pow10((b - a) as nat) >= 1,
    ;
}

/// The value of two runs of digits, one after the other.
pub proof fn lemma_decimal_concat(x: Seq<nat>, y: Seq<nat>)
    ensures
        decimal(x + y) == decimal(x) * pow10(y.len()) + decimal(y),
    decreases y.len(),
{
    if y.len() == 0 {
        assert(x + y =~= x);
        assert(decimal(x) * 1 == decimal(x));
    } else {
        let front = y.drop_last();
        assert((x + y).drop_last() =~= x + front);
        lemma_decimal_concat(x, front);
        assert((decimal(x) * pow10(front.len()) + decimal(front)) * 10 + y.last() == decimal(x) * (
        10 * pow10(front.len())) + (decimal(front) * 10 + y.last())) by (nonlinear_arith);
    }
}

/// `n` digits write a number below ten to the power `n`.
pub proof fn lemma_decimal_bound(ds: Seq<nat>)
    requires
        are_digits(ds),
    ensures
        decimal(ds) < pow10(ds.len()),
    decreases ds.len(),
{
    if ds.len() > 0 {
        lemma_decimal_bound(ds.drop_last());
    }
}

/// Zeros write zero.
pub proof fn lemma_decimal_zeros(ds: Seq<nat>)
    requires
        forall|i: int| 0 <= i < ds.len() ==> ds[i] == 0,
    ensures
        decimal(ds) == 0,
    decreases ds.len(),
{
    if ds.len() > 0 {
        lemma_decimal_zeros(ds.drop_last());
    }
}

/// Zeros at the front do not change the value.
pub proof fn lemma_leading_zeros(ds: Seq<nat>, z: int)
    requires
        0 <= z <= ds.len(),
        forall|i: int| 0 <= i < z ==> ds[i] == 0,
    ensures
        decimal(ds) == decimal(ds.skip(z)),
{
    assert(ds =~= ds.take(z) + ds.skip(z));
    lemma_decimal_concat(ds.take(z), ds.skip(z));
    lemma_decimal_zeros(ds.take(z));
    assert(0 * pow10(ds.skip(z).len()) == 0);
}

/// `n` digits of which the first is not zero write at least ten to the
/// power `n - 1`.
pub proof fn lemma_decimal_lower(ds: Seq<nat>)
    requires
        ds.len() >= 1,
        ds[0] >= 1,
    ensures
        decimal(ds) >= pow10((ds.len() - 1) as nat),
{
    let head = ds.take(1);
    let tail = ds.skip(1);
    assert(ds =~= head + tail);
    lemma_decimal_concat(head, tail);
    assert(head.drop_last() =~= Seq::<nat>::empty());
    assert(decimal(head) == ds[0]) by {
        reveal_with_fuel(decimal, 2);
    }
    lemma_pow10_positive(tail.len());
    assert(ds[0] * pow10(tail.len()) >= pow10(tail.len())) by (nonlinear_arith)
        requires
            ds[0] >= 1,
            pow10(tail.len()) >= 1,
    ;
}

/// Zeros at the end multiply the value by a power of ten.
pub proof fn lemma_padded(ds: Seq<nat>, n: nat)
    requires
        ds.len() <= n,
    ensures
        decimal(padded(ds, n)) == decimal(ds) * pow10((n - ds.len()) as nat),
{
    let zeros = Seq::new((n - ds.len()) as nat, |i: int| 0nat);
    assert(padded(ds, n) =~= ds + zeros);
    lemma_decimal_concat(ds, zeros);
    lemma_decimal_zeros(zeros);
}

/// Of two runs of digits of one length, the one with the smaller digit at
/// the first place where they differ writes the smaller number.
pub proof fn lemma_first_difference(a: Seq<nat>, b: Seq<nat>, i: int)
    requires
        a.len() == b.len(),
        are_digits(a),
        0 <= i < a.len(),
        forall|j: int| 0 <= j < i ==> a[j] == b[j],
        a[i] < b[i],
    ensures
        decimal(a) < decimal(b),
{
    let rest = (a.len() - i - 1) as nat;
    assert(a =~= a.take(i + 1) + a.skip(i + 1));
    assert(b =~= b.take(i + 1) + b.skip(i + 1));
    lemma_decimal_concat(a.take(i + 1), a.skip(i + 1));
    lemma_decimal_concat(b.take(i + 1), b.skip(i + 1));
    lemma_decimal_bound(a.skip(i + 1));
    assert(a.take(i + 1).drop_last() =~= b.take(i + 1).drop_last());
    let high_a = decimal(a.take(i + 1));
    let high_b = decimal(b.take(i + 1));
    assert(high_a + 1 <= high_b);
    assert(high_a * pow10(rest) + pow10(rest) <= high_b * pow10(rest)) by (nonlinear_arith)
        requires
            high_a + 1 <= high_b,
    ;
}

} // verus!
