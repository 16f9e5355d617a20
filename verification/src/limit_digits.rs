//! The decimal digits of the largest magnitude that counts as too large.

use crate::magnitude::{are_digits, decimal};
use vstd::prelude::*;

verus! {

/// The decimal digits of the limit, the most significant first.
pub const LIMIT_DIGITS: [u8; 309] = [
    1, 7, 9, 7, 6, 9, 3, 1, 3, 4, 8, 6, 2, 3, 1, 5, 8, 0, 7, 9, 3, 7, 2, 8, 9,
    7, 1, 4, 0, 5, 3, 0, 3, 4, 1, 5, 0, 7, 9, 9, 3, 4, 1, 3, 2, 7, 1, 0, 0, 3,
    7, 8, 2, 6, 9, 3, 6, 1, 7, 3, 7, 7, 8, 9, 8, 0, 4, 4, 4, 9, 6, 8, 2, 9, 2,
    7, 6, 4, 7, 5, 0, 9, 4, 6, 6, 4, 9, 0, 1, 7, 9, 7, 7, 5, 8, 7, 2, 0, 7, 0,
    9, 6, 3, 3, 0, 2, 8, 6, 4, 1, 6, 6, 9, 2, 8, 8, 7, 9, 1, 0, 9, 4, 6, 5, 5,
    5, 5, 4, 7, 8, 5, 1, 9, 4, 0, 4, 0, 2, 6, 3, 0, 6, 5, 7, 4, 8, 8, 6, 7, 1,
    5, 0, 5, 8, 2, 0, 6, 8, 1, 9, 0, 8, 9, 0, 2, 0, 0, 0, 7, 0, 8, 3, 8, 3, 6,
    7, 6, 2, 7, 3, 8, 5, 4, 8, 4, 5, 8, 1, 7, 7, 1, 1, 5, 3, 1, 7, 6, 4, 4, 7,
    5, 7, 3, 0, 2, 7, 0, 0, 6, 9, 8, 5, 5, 5, 7, 1, 3, 6, 6, 9, 5, 9, 6, 2, 2,
    8, 4, 2, 9, 1, 4, 8, 1, 9, 8, 6, 0, 8, 3, 4, 9, 3, 6, 4, 7, 5, 2, 9, 2, 7,
    1, 9, 0, 7, 4, 1, 6, 8, 4, 4, 4, 3, 6, 5, 5, 1, 0, 7, 0, 4, 3, 4, 2, 7, 1,
    1, 5, 5, 9, 6, 9, 9, 5, 0, 8, 0, 9, 3, 0, 4, 2, 8, 8, 0, 1, 7, 7, 9, 0, 4,
    1, 7, 4, 4, 9, 7, 7, 9, 2,
];

/// `LIMIT_DIGITS` as a sequence of digits.
#[verifier::opaque]
pub open spec fn limit_digits() -> Seq<nat> {
    Seq::new(309, |i: int| LIMIT_DIGITS[i] as nat)
}

/// The number that the first `n` of `LIMIT_DIGITS` write.
spec fn limit_front(n: nat) -> nat
    decreases n,
{
    if n == 0 {
        0
    } else {
        limit_front((n - 1) as nat) * 10 + LIMIT_DIGITS[n - 1] as nat
    }
}

proof fn lemma_limit_front_20()
    ensures
        limit_front(20) == 17976931348623158079,
{
    reveal_with_fuel(limit_front, 21);
}

proof fn lemma_limit_front_40()
    requires
        limit_front(20) == 17976931348623158079,
    ensures
        limit_front(40) == 1797693134862315807937289714053034150799,
{
    reveal_with_fuel(limit_front, 21);
}

proof fn lemma_limit_front_60()
    requires
        limit_front(40) == 1797693134862315807937289714053034150799,
    ensures
        limit_front(60) == 179769313486231580793728971405303415079934132710037826936173,
{
    reveal_with_fuel(limit_front, 21);
}

proof fn lemma_limit_front_80()
    requires
        limit_front(60) == 179769313486231580793728971405303415079934132710037826936173,
    ensures
        limit_front(80) == 17976931348623158079372897140530341507993413271003782693617377898044496829276475,
{
    reveal_with_fuel(limit_front, 21);
}

proof fn lemma_limit_front_100()
    requires
        limit_front(80) == 17976931348623158079372897140530341507993413271003782693617377898044496829276475,
    ensures
        limit_front(100) == 1797693134862315807937289714053034150799341327100378269361737789804449682927647509466490179775872070,
{
    reveal_with_fuel(limit_front, 21);
}

proof fn lemma_limit_front_120()
    requires
        limit_front(100) == 1797693134862315807937289714053034150799341327100378269361737789804449682927647509466490179775872070,
    ensures
        limit_front(120) == 179769313486231580793728971405303415079934132710037826936173778980444968292764750946649017977587207096330286416692887910,
{
    reveal_with_fuel(limit_front, 21);
}

proof fn lemma_limit_front_140()
    requires
        limit_front(120) == 179769313486231580793728971405303415079934132710037826936173778980444968292764750946649017977587207096330286416692887910,
    ensures
        limit_front(140) == 17976931348623158079372897140530341507993413271003782693617377898044496829276475094664901797758720709633028641669288791094655554785194040263,
{
    reveal_with_fuel(limit_front, 21);
}

proof fn lemma_limit_front_160()
    requires
        limit_front(140) == 17976931348623158079372897140530341507993413271003782693617377898044496829276475094664901797758720709633028641669288791094655554785194040263,
    ensures
        limit_front(160) == 1797693134862315807937289714053034150799341327100378269361737789804449682927647509466490179775872070963302864166928879109465555478519404026306574886715058206819,
{
    reveal_with_fuel(limit_front, 21);
}

proof fn lemma_limit_front_180()
    requires
        limit_front(160) == 1797693134862315807937289714053034150799341327100378269361737789804449682927647509466490179775872070963302864166928879109465555478519404026306574886715058206819,
    ensures
        limit_front(180) == 179769313486231580793728971405303415079934132710037826936173778980444968292764750946649017977587207096330286416692887910946555547851940402630657488671505820681908902000708383676273,
{
    reveal_with_fuel(limit_front, 21);
}

proof fn lemma_limit_front_200()
    requires
        limit_front(180) == 179769313486231580793728971405303415079934132710037826936173778980444968292764750946649017977587207096330286416692887910946555547851940402630657488671505820681908902000708383676273,
    ensures
        limit_front(200) == 17976931348623158079372897140530341507993413271003782693617377898044496829276475094664901797758720709633028641669288791094655554785194040263065748867150582068190890200070838367627385484581771153176447,
{
    reveal_with_fuel(limit_front, 21);
}

proof fn lemma_limit_front_220()
    requires
        limit_front(200) == 17976931348623158079372897140530341507993413271003782693617377898044496829276475094664901797758720709633028641669288791094655554785194040263065748867150582068190890200070838367627385484581771153176447,
    ensures
        limit_front(220) == 1797693134862315807937289714053034150799341327100378269361737789804449682927647509466490179775872070963302864166928879109465555478519404026306574886715058206819089020007083836762738548458177115317644757302700698555713669,
{
    reveal_with_fuel(limit_front, 21);
}

proof fn lemma_limit_front_240()
    requires
        limit_front(220) == 1797693134862315807937289714053034150799341327100378269361737789804449682927647509466490179775872070963302864166928879109465555478519404026306574886715058206819089020007083836762738548458177115317644757302700698555713669,
    ensures
        limit_front(240) == 179769313486231580793728971405303415079934132710037826936173778980444968292764750946649017977587207096330286416692887910946555547851940402630657488671505820681908902000708383676273854845817711531764475730270069855571366959622842914819860834,
{
    reveal_with_fuel(limit_front, 21);
}

proof fn lemma_limit_front_260()
    requires
        limit_front(240) == 179769313486231580793728971405303415079934132710037826936173778980444968292764750946649017977587207096330286416692887910946555547851940402630657488671505820681908902000708383676273854845817711531764475730270069855571366959622842914819860834,
    ensures
        limit_front(260) == 17976931348623158079372897140530341507993413271003782693617377898044496829276475094664901797758720709633028641669288791094655554785194040263065748867150582068190890200070838367627385484581771153176447573027006985557136695962284291481986083493647529271907416844,
{
    reveal_with_fuel(limit_front, 21);
}

proof fn lemma_limit_front_280()
    requires
        limit_front(260) == 17976931348623158079372897140530341507993413271003782693617377898044496829276475094664901797758720709633028641669288791094655554785194040263065748867150582068190890200070838367627385484581771153176447573027006985557136695962284291481986083493647529271907416844,
    ensures
        limit_front(280) == 1797693134862315807937289714053034150799341327100378269361737789804449682927647509466490179775872070963302864166928879109465555478519404026306574886715058206819089020007083836762738548458177115317644757302700698555713669596228429148198608349364752927190741684443655107043427115596,
{
    reveal_with_fuel(limit_front, 21);
}

proof fn lemma_limit_front_300()
    requires
        limit_front(280) == 1797693134862315807937289714053034150799341327100378269361737789804449682927647509466490179775872070963302864166928879109465555478519404026306574886715058206819089020007083836762738548458177115317644757302700698555713669596228429148198608349364752927190741684443655107043427115596,
    ensures
        limit_front(300) == 179769313486231580793728971405303415079934132710037826936173778980444968292764750946649017977587207096330286416692887910946555547851940402630657488671505820681908902000708383676273854845817711531764475730270069855571366959622842914819860834936475292719074168444365510704342711559699508093042880177904,
{
    reveal_with_fuel(limit_front, 21);
}

proof fn lemma_limit_front_309()
    requires
        limit_front(300) == 179769313486231580793728971405303415079934132710037826936173778980444968292764750946649017977587207096330286416692887910946555547851940402630657488671505820681908902000708383676273854845817711531764475730270069855571366959622842914819860834936475292719074168444365510704342711559699508093042880177904,
    ensures
        limit_front(309) == 179769313486231580793728971405303415079934132710037826936173778980444968292764750946649017977587207096330286416692887910946555547851940402630657488671505820681908902000708383676273854845817711531764475730270069855571366959622842914819860834936475292719074168444365510704342711559699508093042880177904174497792,
{
    reveal_with_fuel(limit_front, 10);
}

proof fn lemma_limit_front(n: nat)
    requires
        n <= 309,
    ensures
        decimal(limit_digits().take(n as int)) == limit_front(n),
    decreases n,
{
    lemma_limit_digits();
    if n > 0 {
        lemma_limit_front((n - 1) as nat);
        assert(limit_digits().take(n as int).drop_last() =~= limit_digits().take(n - 1));
    }
}

/// The limit is written with 309 digits, of which the first is not zero.
pub proof fn lemma_limit_digits()
    ensures
        limit_digits().len() == 309,
        are_digits(limit_digits()),
        limit_digits()[0] >= 1,
        forall|i: int| 0 <= i < 309 ==> limit_digits()[i] == LIMIT_DIGITS[i],
{
    reveal(limit_digits);
}

/// `LIMIT_DIGITS` write this number.
pub proof fn lemma_digits_written()
    ensures
        decimal(limit_digits()) == 179769313486231580793728971405303415079934132710037826936173778980444968292764750946649017977587207096330286416692887910946555547851940402630657488671505820681908902000708383676273854845817711531764475730270069855571366959622842914819860834936475292719074168444365510704342711559699508093042880177904174497792,
{
    lemma_limit_front_20();
    lemma_limit_front_40();
    lemma_limit_front_60();
    lemma_limit_front_80();
    lemma_limit_front_100();
    lemma_limit_front_120();
    lemma_limit_front_140();
    lemma_limit_front_160();
    lemma_limit_front_180();
    lemma_limit_front_200();
    lemma_limit_front_220();
    lemma_limit_front_240();
    lemma_limit_front_260();
    lemma_limit_front_280();
    lemma_limit_front_300();
    lemma_limit_front_309();
    lemma_limit_front(309);
    lemma_limit_digits();
    assert(limit_digits().take(309) =~= limit_digits());
}

} // verus!
