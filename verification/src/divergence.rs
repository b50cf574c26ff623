//! The divergence of a target from a reference: the sum, over the n-grams
//! of the target, of the frequency `p` in the target times the logarithm
//! of `p / q`, where `q` is the frequency in the reference.
//!
//! The library holds frequencies exactly and takes no logarithm. The
//! caller hands in the natural logarithm of `p / q` for each term, as a
//! fixed-point number in millionths; the library weights the logarithms by
//! the frequencies and sums them without rounding, and rounds the sum down
//! to a millionth.

use crate::corpus::{
    lemma_qtotal_closed_form, spec_kl_terms, BaseCount, Divergences, KlTerm, KlTerms, NgramFreqs,
};
use crate::ngram::{gram_space, lemma_occurrences_bounds, occurrences, window_count};
use crate::window::lemma_quotient;
use vstd::prelude::*;

verus! {

/// The logarithms of the terms of the divergences of a target from a
/// reference: for each term the natural logarithm of `p / q` in
/// millionths.
#[derive(Debug)]
pub struct KlLogs {
    pub bigrams: Vec<i32>,
    pub trigrams: Vec<i32>,
}

/// The distance of `x` from zero.
pub open spec fn magnitude(x: int) -> int {
    if x >= 0 {
        x
    } else {
        -x
    }
}

/// Whether `terms` can be weighted with `logs`: there is one logarithm for
/// each term, the frequencies of the target share one denominator that is
/// not zero, none is greater than one, and no product of a numerator and a
/// logarithm leaves the range of 128 bits.
pub open spec fn summable(terms: Seq<KlTerm>, logs: Seq<i32>) -> bool {
    &&& terms.len() == logs.len()
    &&& forall|i: int|
        0 <= i < terms.len() ==> {
            &&& (#[trigger] terms[i]).p.den == terms[0].p.den
            &&& terms[i].p.den > 0
            &&& terms[i].p.num <= terms[i].p.den
            &&& terms[i].p.num * magnitude(logs[i] as int) <= u128::MAX
        }
}

/// The sum of the logarithms, each times the numerator of the frequency of
/// its term in the target.
pub open spec fn weighted_sum(terms: Seq<KlTerm>, logs: Seq<i32>) -> int
    decreases terms.len(),
{
    if terms.len() == 0 {
        0
    } else {
        weighted_sum(terms.drop_last(), logs.drop_last()) + terms.last().p.num * logs.last()
    }
}

/// `x` held to the range of a divergence.
pub open spec fn clamp(x: int) -> i32 {
    if x < i32::MIN {
        i32::MIN
    } else if x > i32::MAX {
        i32::MAX
    } else {
        x as i32
    }
}

/// The divergence with the terms `terms`, whose logarithms are `logs`: the
/// weighted sum over the denominator of the frequencies, rounded down and
/// held to the range of a divergence; zero without terms; none where the
/// terms cannot be weighted.
pub open spec fn spec_divergence(terms: Seq<KlTerm>, logs: Seq<i32>) -> Option<i32> {
    if !summable(terms, logs) {
        None
    } else if terms.len() == 0 {
        Some(0i32)
    } else {
        Some(clamp(weighted_sum(terms, logs) / (terms[0].p.den as int)))
    }
}

/// The divergence with the terms `terms`, whose logarithms are `logs`.
pub fn divergence(terms: &[KlTerm], logs: &[i32]) -> (r: Option<i32>)
    ensures
        r == spec_divergence(terms@, logs@),
{
    if terms.len() != logs.len() {
        return None;
    }
    if terms.len() == 0 {
        return Some(0);
    }
    let den: u128 = terms[0].p.den;
    if den == 0 {
        assert(!(terms@[0].p.den > 0));
        return None;
    }
    // The sum of the terms with logarithms that are not negative, and the
    // sum of the others without their sign, each as a multiple of the
    // denominator and a rest.
    let mut up: u128 = 0;
    let mut up_rest: u128 = 0;
    let mut down: u128 = 0;
    let mut down_rest: u128 = 0;
    let mut i: usize = 0;
    assert(terms@.take(0) =~= Seq::<KlTerm>::empty());
    while i < terms.len()
        invariant
            i <= terms@.len(),
            terms@.len() == logs@.len(),
            den == terms@[0].p.den,
            den > 0,
            forall|k: int|
                0 <= k < i ==> {
                    &&& (#[trigger] terms@[k]).p.den == den
                    &&& terms@[k].p.num <= den
                    &&& terms@[k].p.num * magnitude(logs@[k] as int) <= u128::MAX
                },
            up_rest < den,
            down_rest < den,
            up <= i * 0x1_0000_0000,
            down <= i * 0x1_0000_0000,
            (up - down) * den + (up_rest - down_rest) == weighted_sum(
                terms@.take(i as int),
                logs@.take(i as int),
            ),
        decreases terms@.len() - i,
    {
        let num: u128 = terms[i].p.num;
        let log: i32 = logs[i];
        if terms[i].p.den != den || num > den {
            assert(!(terms@[i as int].p.den == terms@[0].p.den && terms@[i as int].p.num
                <= terms@[i as int].p.den));
            return None;
        }
        let size: u128 = if log >= 0 {
            log as u128
        } else {
            (-(log as i64)) as u128
        };
        assert(size == magnitude(log as int));
        let product: u128 = match num.checked_mul(size) {
            Some(product) => product,
            None => {
                assert(terms@[i as int].p.num * magnitude(logs@[i as int] as int) > u128::MAX);
                return None;
            },
        };
        let whole: u128 = product / den;
        let rest: u128 = product % den;
        proof {
            assert(terms@.take(i + 1).drop_last() =~= terms@.take(i as int));
            assert(logs@.take(i + 1).drop_last() =~= logs@.take(i as int));
            assert(terms@.take(i + 1).last() == terms@[i as int]);
            assert(logs@.take(i + 1).last() == logs@[i as int]);
            vstd::arithmetic::div_mod::lemma_fundamental_div_mod(product as int, den as int);
            assert(whole <= size) by (nonlinear_arith)
                requires
                    product == num * size,
                    num <= den,
                    product == den * whole + rest,
                    0 <= rest < den,
                    0 <= size,
                    0 <= whole,
            ;
            let before = weighted_sum(terms@.take(i as int), logs@.take(i as int));
            let now = weighted_sum(terms@.take(i + 1), logs@.take(i + 1));
            assert(now == before + num * log);
            if log >= 0 {
                assert(num * log == den * whole + rest);
                assert((up + whole - down) * den + (up_rest + rest - down_rest) == now)
                    by (nonlinear_arith)
                    requires
                        (up - down) * den + (up_rest - down_rest) == before,
                        now == before + (den * whole + rest),
                ;
                assert((up + whole + 1 - down) * den + (up_rest + rest - den - down_rest) == now)
                    by (nonlinear_arith)
                    requires
                        (up + whole - down) * den + (up_rest + rest - down_rest) == now,
                ;
            } else {
                assert(num * log == -(den * whole + rest)) by (nonlinear_arith)
                    requires
                        num * size == den * whole + rest,
                        size == -log,
                ;
                assert((up - (down + whole)) * den + (up_rest - (down_rest + rest)) == now)
                    by (nonlinear_arith)
                    requires
                        (up - down) * den + (up_rest - down_rest) == before,
                        now == before - (den * whole + rest),
                ;
                assert((up - (down + whole + 1)) * den + (up_rest - (down_rest + rest - den))
                    == now) by (nonlinear_arith)
                    requires
                        (up - (down + whole)) * den + (up_rest - (down_rest + rest)) == now,
                ;
            }
        }
        if log >= 0 {
            if rest >= den - up_rest {
                up_rest = rest - (den - up_rest);
                up = up + whole + 1;
            } else {
                up_rest = up_rest + rest;
                up = up + whole;
            }
        } else {
            if rest >= den - down_rest {
                down_rest = rest - (den - down_rest);
                down = down + whole + 1;
            } else {
                down_rest = down_rest + rest;
                down = down + whole;
            }
        }
        i += 1;
    }
    proof {
        assert(terms@.take(i as int) =~= terms@);
        assert(logs@.take(i as int) =~= logs@);
        assert(summable(terms@, logs@));
    }
    let floor: i128 = if up_rest >= down_rest {
        up as i128 - down as i128
    } else {
        up as i128 - down as i128 - 1
    };
    proof {
        let total = weighted_sum(terms@, logs@);
        assert(floor * den <= total < (floor + 1) * den) by (nonlinear_arith)
            requires
                (up - down) * den + (up_rest - down_rest) == total,
                0 <= up_rest < den,
                0 <= down_rest < den,
                floor == if up_rest >= down_rest {
                    up - down
                } else {
                    up - down - 1
                },
        ;
        lemma_quotient(total, den as int, floor as int);
    }
    if floor < -0x8000_0000 {
        Some(i32::MIN)
    } else if floor > 0x7fff_ffff {
        Some(i32::MAX)
    } else {
        Some(floor as i32)
    }
}

/// The terms of frequencies counted from a sample hold frequencies of the
/// target over its total weight that are neither zero nor greater than
/// one.
pub proof fn lemma_terms_of_a_sample(
    keys: Seq<u32>,
    target: NgramFreqs,
    reference: NgramFreqs,
    data: Seq<u8>,
    order: int,
    base: BaseCount,
)
    requires
        1 <= order <= 3,
        data.len() <= usize::MAX,
        target.is_freqs_of(data, order, base),
    ensures
        forall|i: int|
            0 <= i < spec_kl_terms(keys, target, reference).len() ==> {
                &&& (#[trigger] spec_kl_terms(keys, target, reference)[i]).p.den == target.qtotal
                &&& 0 < spec_kl_terms(keys, target, reference)[i].p.num <= target.qtotal
                &&& spec_kl_terms(keys, target, reference)[i].p.num
                    <= 0xffff_ffff_ffff_ffff * 0x1_0000_0000
            },
    decreases keys.len(),
{
    if keys.len() > 0 {
        lemma_terms_of_a_sample(keys.drop_last(), target, reference, data, order, base);
        let rest = spec_kl_terms(keys.drop_last(), target, reference);
        let terms = spec_kl_terms(keys, target, reference);
        let key = keys.last();
        if target.counts@.contains_key(key) {
            let c = occurrences(data, order, key as int, window_count(data));
            let n = window_count(data);
            lemma_occurrences_bounds(data, order, key as int, n);
            lemma_qtotal_closed_form(data, order, base);
            let d = base.den as int;
            let m = base.num as int;
            let s = gram_space(order);
            assert(c * d + m <= s * m + n * d) by (nonlinear_arith)
                requires
                    0 <= c <= n,
                    0 <= d,
                    0 <= m,
                    s >= 1,
            ;
            assert(c * d + m <= 0xffff_ffff_ffff_ffff * 0x1_0000_0000) by (nonlinear_arith)
                requires
                    0 <= c <= 0xffff_ffff_ffff_ffff,
                    0 <= d <= 0xffff_ffff,
                    0 <= m <= 0xffff_ffff,
            ;
            assert(0 <= c * d) by (nonlinear_arith)
                requires
                    0 <= c,
                    0 <= d,
            ;
        }
        assert forall|i: int| 0 <= i < terms.len() implies {
            &&& (#[trigger] terms[i]).p.den == target.qtotal
            &&& 0 < terms[i].p.num <= target.qtotal
            &&& terms[i].p.num <= 0xffff_ffff_ffff_ffff * 0x1_0000_0000
        } by {
            if i < rest.len() {
                assert(terms[i] == rest[i]);
            }
        }
    }
}

/// The terms of frequencies counted from a sample can be weighted with any
/// logarithms, one for each term: their divergence is a number.
pub proof fn lemma_terms_of_a_sample_are_summable(
    target: NgramFreqs,
    reference: NgramFreqs,
    data: Seq<u8>,
    order: int,
    base: BaseCount,
    logs: Seq<i32>,
)
    requires
        1 <= order <= 3,
        data.len() <= usize::MAX,
        target.is_freqs_of(data, order, base),
        logs.len() == spec_kl_terms(target.keys@, target, reference).len(),
    ensures
        summable(spec_kl_terms(target.keys@, target, reference), logs),
        spec_divergence(spec_kl_terms(target.keys@, target, reference), logs) is Some,
{
    let terms = spec_kl_terms(target.keys@, target, reference);
    lemma_terms_of_a_sample(target.keys@, target, reference, data, order, base);
    assert forall|i: int| 0 <= i < terms.len() implies {
        &&& (#[trigger] terms[i]).p.den == terms[0].p.den
        &&& terms[i].p.den > 0
        &&& terms[i].p.num <= terms[i].p.den
        &&& terms[i].p.num * magnitude(logs[i] as int) <= u128::MAX
    } by {
        let a = terms[i].p.num as int;
        let l = magnitude(logs[i] as int);
        assert(a * l <= u128::MAX) by (nonlinear_arith)
            requires
                0 <= a <= 0xffff_ffff_ffff_ffff * 0x1_0000_0000,
                0 <= l <= 0x8000_0000,
        ;
    }
}

impl KlTerms {
    /// The divergences with these terms, whose logarithms are `logs`: none
    /// where the terms of one order cannot be weighted.
    pub fn divergences(&self, logs: &KlLogs) -> (r: Option<Divergences>)
        ensures
            r == match (
                spec_divergence(self.bigrams@, logs.bigrams@),
                spec_divergence(self.trigrams@, logs.trigrams@),
            ) {
                (Some(bigrams), Some(trigrams)) => Some(
                    Divergences { bigrams: bigrams, trigrams: trigrams },
                ),
                _ => None,
            },
    {
        match divergence(self.bigrams.as_slice(), logs.bigrams.as_slice()) {
            Some(bigrams) => match divergence(self.trigrams.as_slice(), logs.trigrams.as_slice()) {
                Some(trigrams) => Some(Divergences { bigrams, trigrams }),
                None => None,
            },
            None => None,
        }
    }
}

} // verus!
