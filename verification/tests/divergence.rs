use coderec::{divergence, Divergences, KlLogs, KlTerm, KlTerms, Ratio};

/// A term with the frequency `num / den` in the target.
fn term(num: u128, den: u128) -> KlTerm {
    KlTerm { p: Ratio { num, den }, q: Ratio { num: 1, den: 7 } }
}

#[test]
fn logarithms_are_weighted_by_the_frequencies() {
    let terms = [term(1, 2), term(1, 2)];
    assert_eq!(divergence(&terms, &[1_000_000, 3_000_000]), Some(2_000_000));
    let terms = [term(1, 4), term(3, 4)];
    assert_eq!(divergence(&terms, &[8_000_000, -4_000_000]), Some(-1_000_000));
    assert_eq!(divergence(&[term(5, 5)], &[123]), Some(123));
    assert_eq!(divergence(&[term(5, 5)], &[-123]), Some(-123));
}

#[test]
fn the_sum_is_rounded_down_once() {
    let thirds = [term(1, 3), term(1, 3), term(1, 3)];
    assert_eq!(divergence(&thirds, &[1, 1, 0]), Some(0));
    assert_eq!(divergence(&thirds, &[1, 1, 1]), Some(1));
    assert_eq!(divergence(&thirds, &[2, 2, 1]), Some(1));
    assert_eq!(divergence(&thirds, &[-1, 0, 0]), Some(-1));
    assert_eq!(divergence(&thirds, &[-1, -1, -1]), Some(-1));
    assert_eq!(divergence(&thirds, &[-1, -1, -2]), Some(-2));
    assert_eq!(divergence(&thirds, &[5, -5, 1]), Some(0));
    assert_eq!(divergence(&thirds, &[5, -5, -1]), Some(-1));
    let parts = [term(2, 3), term(2, 3)];
    assert_eq!(divergence(&parts, &[1, 1]), Some(1));
    assert_eq!(divergence(&parts, &[1, -1]), Some(0));
    assert_eq!(divergence(&parts, &[-1, -1]), Some(-2));
    let parts = [term(1, 3), term(2, 3)];
    assert_eq!(divergence(&parts, &[5, -5]), Some(-2));
}

#[test]
fn no_terms_no_divergence() {
    assert_eq!(divergence(&[], &[]), Some(0));
}

#[test]
fn terms_that_cannot_be_weighted() {
    // Not one logarithm for each term.
    assert_eq!(divergence(&[term(1, 2)], &[]), None);
    assert_eq!(divergence(&[], &[1]), None);
    assert_eq!(divergence(&[term(1, 2)], &[1, 2]), None);
    // More than one denominator.
    assert_eq!(divergence(&[term(1, 2), term(1, 3)], &[1, 1]), None);
    // A frequency above one.
    assert_eq!(divergence(&[term(3, 2)], &[1]), None);
    assert_eq!(divergence(&[term(1, 2), term(3, 2)], &[1, 1]), None);
    // No denominator.
    assert_eq!(divergence(&[term(0, 0)], &[1]), None);
    // A product beyond 128 bits.
    assert_eq!(divergence(&[term(u128::MAX, u128::MAX)], &[2]), None);
    assert_eq!(divergence(&[term(u128::MAX, u128::MAX)], &[-2]), None);
    assert_eq!(divergence(&[term(1 << 97, 1 << 100)], &[i32::MIN]), None);
}

#[test]
fn divergence_at_the_ends_of_the_types() {
    assert_eq!(divergence(&[term(u128::MAX, u128::MAX)], &[1]), Some(1));
    assert_eq!(divergence(&[term(u128::MAX, u128::MAX)], &[-1]), Some(-1));
    assert_eq!(divergence(&[term(u128::MAX - 1, u128::MAX)], &[1]), Some(0));
    assert_eq!(divergence(&[term(u128::MAX - 1, u128::MAX)], &[-1]), Some(-1));
    let big = term(u128::MAX - 1, u128::MAX);
    assert_eq!(divergence(&[big, big], &[1, 1]), Some(1));
    assert_eq!(divergence(&[big, big, big], &[1, 1, -1]), Some(0));
    assert_eq!(divergence(&[term(1 << 96, 1 << 96)], &[i32::MIN]), Some(i32::MIN));
    assert_eq!(divergence(&[term(1 << 96, 1 << 96)], &[i32::MAX]), Some(i32::MAX));
    // Frequencies that add up to more than one leave the range.
    let one = term(1, 1);
    assert_eq!(divergence(&[one, one], &[i32::MAX, 1]), Some(i32::MAX));
    assert_eq!(divergence(&[one, one], &[i32::MAX, i32::MAX]), Some(i32::MAX));
    assert_eq!(divergence(&[one, one], &[i32::MIN, -1]), Some(i32::MIN));
    assert_eq!(divergence(&[one, one], &[i32::MIN, i32::MAX]), Some(-1));
}

#[test]
fn both_orders_are_weighted() {
    let terms = KlTerms { bigrams: vec![term(1, 2), term(1, 2)], trigrams: vec![term(1, 1)] };
    let logs = KlLogs { bigrams: vec![4, 6], trigrams: vec![-9] };
    assert_eq!(terms.divergences(&logs), Some(Divergences { bigrams: 5, trigrams: -9 }));
    let logs = KlLogs { bigrams: vec![4], trigrams: vec![-9] };
    assert_eq!(terms.divergences(&logs), None);
    let logs = KlLogs { bigrams: vec![4, 6], trigrams: vec![] };
    assert_eq!(terms.divergences(&logs), None);
    let empty = KlTerms { bigrams: vec![], trigrams: vec![] };
    let logs = KlLogs { bigrams: vec![], trigrams: vec![] };
    assert_eq!(empty.divergences(&logs), Some(Divergences { bigrams: 0, trigrams: 0 }));
}
