//! The magnitude that a double precision number can hold.
//!
//! The largest finite double precision number is 2^1024 - 2^971. A
//! magnitude rounds to the nearest number, so one below 2^1024 - 2^970,
//! halfway to 2^1024, is still read as a finite number, and one from there
//! on as infinity.

use crate::magnitude::{
    are_digits, decimal, lemma_decimal_bound, lemma_decimal_lower, lemma_decimal_zeros,
    lemma_leading_zeros, lemma_padded, lemma_pow10_add, lemma_pow10_monotonic,
    lemma_pow10_positive, padded, pow10,
};
use crate::limit_digits::{lemma_digits_written, lemma_limit_digits, limit_digits};
use vstd::arithmetic::power2::{lemma2_to64, lemma2_to64_rest, lemma_pow2_adds, pow2};
use vstd::prelude::*;

verus! {

/// The least magnitude that is too large: 2^1024 - 2^970.
pub open spec fn limit() -> nat {
    (pow2(1024) - pow2(970)) as nat
}

/// Whether `mantissa` times ten to the power `scale` is below the limit.
pub open spec fn below_limit(mantissa: nat, scale: int) -> bool {
    if scale >= 0 {
        mantissa * pow10(scale as nat) < limit()
    } else {
        mantissa < limit() * pow10((-scale) as nat)
    }
}

/// The value of 2^1024 - 2^970, written out.
proof fn lemma_limit_written()
    ensures
        limit() == 179769313486231580793728971405303415079934132710037826936173778980444968292764750946649017977587207096330286416692887910946555547851940402630657488671505820681908902000708383676273854845817711531764475730270069855571366959622842914819860834936475292719074168444365510704342711559699508093042880177904174497792,
{
    lemma2_to64();
    lemma2_to64_rest();
    lemma_pow2_adds(64, 64);
    assert(pow2(128) == 340282366920938463463374607431768211456) by {
        assert(0x10000000000000000int * 0x10000000000000000int == 340282366920938463463374607431768211456) by (nonlinear_arith);
    }
    lemma_pow2_adds(128, 128);
    assert(pow2(256) == 115792089237316195423570985008687907853269984665640564039457584007913129639936) by {
        assert(340282366920938463463374607431768211456int * 340282366920938463463374607431768211456int == 115792089237316195423570985008687907853269984665640564039457584007913129639936) by (nonlinear_arith);
    }
    lemma_pow2_adds(256, 256);
    assert(pow2(512) == 13407807929942597099574024998205846127479365820592393377723561443721764030073546976801874298166903427690031858186486050853753882811946569946433649006084096) by {
        assert(115792089237316195423570985008687907853269984665640564039457584007913129639936int * 115792089237316195423570985008687907853269984665640564039457584007913129639936int == 13407807929942597099574024998205846127479365820592393377723561443721764030073546976801874298166903427690031858186486050853753882811946569946433649006084096) by (nonlinear_arith);
    }
    lemma_pow2_adds(512, 512);
    assert(pow2(1024) == 179769313486231590772930519078902473361797697894230657273430081157732675805500963132708477322407536021120113879871393357658789768814416622492847430639474124377767893424865485276302219601246094119453082952085005768838150682342462881473913110540827237163350510684586298239947245938479716304835356329624224137216) by {
        assert(13407807929942597099574024998205846127479365820592393377723561443721764030073546976801874298166903427690031858186486050853753882811946569946433649006084096int * 13407807929942597099574024998205846127479365820592393377723561443721764030073546976801874298166903427690031858186486050853753882811946569946433649006084096int == 179769313486231590772930519078902473361797697894230657273430081157732675805500963132708477322407536021120113879871393357658789768814416622492847430639474124377767893424865485276302219601246094119453082952085005768838150682342462881473913110540827237163350510684586298239947245938479716304835356329624224137216) by (nonlinear_arith);
    }
    lemma_pow2_adds(64, 10);
    assert(pow2(74) == 18889465931478580854784);
    lemma_pow2_adds(128, 74);
    assert(pow2(202) == 6427752177035961102167848369364650410088811975131171341205504) by {
        assert(340282366920938463463374607431768211456int * 18889465931478580854784int == 6427752177035961102167848369364650410088811975131171341205504) by (nonlinear_arith);
    }
    lemma_pow2_adds(256, 202);
    assert(pow2(458) == 744282853678701455922507579277316643178128753343813693728245963960974631028119473486019635930893891134220822124816566203939432067701407744) by {
        assert(115792089237316195423570985008687907853269984665640564039457584007913129639936int * 6427752177035961102167848369364650410088811975131171341205504int == 744282853678701455922507579277316643178128753343813693728245963960974631028119473486019635930893891134220822124816566203939432067701407744) by (nonlinear_arith);
    }
    lemma_pow2_adds(512, 458);
    assert(pow2(970) == 9979201547673599058281863565184192830337256302177287707512736212186059459344820328924789827463178505446712234220962476219862189941967968303695858991424157101600028364755428382587688607221814935913266783722719619966654052275604351944444276342240220787535604534378780208211792476151720049639424) by {
        assert(13407807929942597099574024998205846127479365820592393377723561443721764030073546976801874298166903427690031858186486050853753882811946569946433649006084096int * 744282853678701455922507579277316643178128753343813693728245963960974631028119473486019635930893891134220822124816566203939432067701407744int == 9979201547673599058281863565184192830337256302177287707512736212186059459344820328924789827463178505446712234220962476219862189941967968303695858991424157101600028364755428382587688607221814935913266783722719619966654052275604351944444276342240220787535604534378780208211792476151720049639424) by (nonlinear_arith);
    }
}

/// `LIMIT_DIGITS` write the limit.
pub proof fn lemma_limit_value()
    ensures
        decimal(limit_digits()) == limit(),
{
    lemma_digits_written();
    lemma_limit_written();
}

/// The limit lies between ten to the power 308 and ten to the power 309.
pub proof fn lemma_limit_range()
    ensures
        pow10(308) <= limit() < pow10(309),
{
    lemma_limit_digits();
    lemma_limit_value();
    lemma_decimal_bound(limit_digits());
    lemma_decimal_lower(limit_digits());
}

/// Zero is below the limit, whatever the scale.
pub proof fn lemma_zero_below(ds: Seq<nat>, scale: int)
    requires
        forall|i: int| 0 <= i < ds.len() ==> ds[i] == 0,
    ensures
        below_limit(decimal(ds), scale),
{
    lemma_decimal_zeros(ds);
    lemma_limit_range();
    lemma_pow10_positive(308);
    if scale >= 0 {
        assert(0 * pow10(scale as nat) == 0);
    } else {
        lemma_pow10_positive((-scale) as nat);
        assert(limit() * pow10((-scale) as nat) > 0) by (nonlinear_arith)
            requires
                limit() >= 1,
                pow10((-scale) as nat) >= 1,
        ;
    }
}

/// A number whose first digit that is not zero stands for less than ten to
/// the power 308 is below the limit.
pub proof fn lemma_short_below(ds: Seq<nat>, z: int, scale: int)
    requires
        are_digits(ds),
        0 <= z < ds.len(),
        forall|i: int| 0 <= i < z ==> ds[i] == 0,
        (ds.len() - z) + scale <= 308,
    ensures
        below_limit(decimal(ds), scale),
{
    let sig = ds.skip(z);
    let value = decimal(ds);
    lemma_leading_zeros(ds, z);
    lemma_decimal_bound(sig);
    lemma_limit_range();
    if scale >= 0 {
        let k = scale as nat;
        lemma_pow10_add(sig.len(), k);
        lemma_pow10_monotonic(sig.len() + k, 308);
        lemma_pow10_positive(k);
        assert(value * pow10(k) < pow10(sig.len()) * pow10(k)) by (nonlinear_arith)
            requires
                value < pow10(sig.len()),
                pow10(k) >= 1,
        ;
    } else {
        let k = (-scale) as nat;
        lemma_pow10_add(308, k);
        lemma_pow10_monotonic(sig.len(), 308 + k);
        assert(pow10(308) * pow10(k) <= limit() * pow10(k)) by (nonlinear_arith)
            requires
                pow10(308) <= limit(),
        ;
    }
}

/// A number whose first digit that is not zero stands for ten to the power
/// 309 or more is not below the limit.
pub proof fn lemma_long_not_below(ds: Seq<nat>, z: int, scale: int)
    requires
        0 <= z < ds.len(),
        forall|i: int| 0 <= i < z ==> ds[i] == 0,
        ds[z] >= 1,
        (ds.len() - z) + scale >= 310,
    ensures
        !below_limit(decimal(ds), scale),
{
    let sig = ds.skip(z);
    let value = decimal(ds);
    let low = (sig.len() - 1) as nat;
    lemma_leading_zeros(ds, z);
    lemma_decimal_lower(sig);
    lemma_limit_range();
    if scale >= 0 {
        let k = scale as nat;
        lemma_pow10_add(low, k);
        lemma_pow10_monotonic(309, low + k);
        assert(value * pow10(k) >= pow10(low) * pow10(k)) by (nonlinear_arith)
            requires
                value >= pow10(low),
        ;
    } else {
        let k = (-scale) as nat;
        lemma_pow10_add(309, k);
        lemma_pow10_monotonic(309 + k, low);
        lemma_pow10_positive(k);
        assert(limit() * pow10(k) < pow10(309) * pow10(k)) by (nonlinear_arith)
            requires
                limit() < pow10(309),
                pow10(k) >= 1,
        ;
    }
}

/// A number whose first digit that is not zero stands where the first
/// digit of the limit stands is below the limit when its digits, set
/// against those of the limit, write the smaller number.
pub proof fn lemma_aligned(ds: Seq<nat>, z: int, scale: int, n: nat)
    requires
        0 <= z < ds.len(),
        forall|i: int| 0 <= i < z ==> ds[i] == 0,
        (ds.len() - z) + scale == 309,
        n == if ds.len() - z >= 309 {
            ds.len() - z
        } else {
            309
        },
    ensures
        below_limit(decimal(ds), scale) <==> decimal(padded(ds.skip(z), n)) < decimal(
            padded(limit_digits(), n),
        ),
{
    let sig = ds.skip(z);
    lemma_limit_digits();
    lemma_leading_zeros(ds, z);
    lemma_padded(sig, n);
    lemma_padded(limit_digits(), n);
    lemma_limit_value();
    assert(pow10(0) == 1);
    assert(decimal(sig) * 1 == decimal(sig)) by (nonlinear_arith);
    assert(limit() * 1 == limit()) by (nonlinear_arith);
}

} // verus!
