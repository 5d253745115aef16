//! Places of floating-point scores.

use kvrouters::Score;

fn rank(score: f64) -> i64 {
    match Score::from_bits(score.to_bits()) {
        Score::Rank(rank) => rank,
        Score::Unordered => panic!("{score} has no place"),
    }
}

#[test]
fn ranks_compare_as_numbers() {
    let ascending = [
        f64::NEG_INFINITY,
        f64::MIN,
        -5.0,
        -0.5,
        -f64::MIN_POSITIVE,
        -5e-324,
        0.0,
        5e-324,
        f64::MIN_POSITIVE,
        0.1,
        0.5,
        1.0,
        1.5,
        2.0,
        f64::MAX,
        f64::INFINITY,
    ];
    for (i, a) in ascending.iter().enumerate() {
        for (j, b) in ascending.iter().enumerate() {
            assert_eq!(rank(*a).partial_cmp(&rank(*b)), a.partial_cmp(b), "{a} {b} {i} {j}");
        }
    }
}

#[test]
fn both_zeros_have_rank_zero() {
    assert_eq!(Score::from_bits(0.0f64.to_bits()), Score::Rank(0));
    assert_eq!(Score::from_bits((-0.0f64).to_bits()), Score::Rank(0));
}

#[test]
fn what_is_not_a_number_has_no_place() {
    assert_eq!(Score::from_bits(f64::NAN.to_bits()), Score::Unordered);
    assert_eq!(Score::from_bits((-f64::NAN).to_bits()), Score::Unordered);
    assert_eq!(Score::from_bits(u64::MAX), Score::Unordered);
}
