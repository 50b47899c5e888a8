use indexer::bignat::{BigNat, BASE};
use indexer::fraction::Fraction;
use indexer::scoring::{norm_square_of, query_norm_square_of, raw_score_of, score_square_of};
use indexer::search_result::Score;
use indexer::weight::{NormPart, ScorePart, TermWeight, Weight};

fn big(value: u128) -> BigNat {
    let high = BigNat::from_u64((value >> 64) as u64);
    let low = BigNat::from_u64(value as u64);
    high.shifted(2).add(&low)
}

fn small(number: &BigNat) -> u128 {
    number
        .limbs
        .iter()
        .rev()
        .fold(0u128, |above, limb| above * BASE as u128 + *limb as u128)
}

fn fraction(num: u64, den: u64) -> Fraction {
    Fraction {
        num: BigNat::from_u64(num),
        den: BigNat::from_u64(den),
    }
}

fn values(f: &Fraction) -> (u128, u128) {
    (small(&f.num), small(&f.den))
}

#[test]
fn numbers_hold_machine_integers() {
    for value in [0u64, 1, 7, u32::MAX as u64, BASE, BASE + 1, u64::MAX - 1, u64::MAX] {
        assert_eq!(small(&BigNat::from_u64(value)), value as u128);
        assert_eq!(small(&BigNat::from_u64(value).duplicate()), value as u128);
    }
    assert_eq!(small(&BigNat::zero()), 0);
    assert!(BigNat::zero().is_zero());
    assert!(BigNat::from_u64(0).is_zero());
    assert!(!BigNat::from_u64(1).is_zero());
    assert!(!BigNat::from_u64(BASE).is_zero());
}

#[test]
fn sums_are_exact() {
    let cases: [(u64, u64); 7] = [
        (0, 0),
        (1, 2),
        (u32::MAX as u64, 1),
        (u64::MAX, 1),
        (u64::MAX, u64::MAX),
        (BASE - 1, BASE * (BASE - 1)),
        (0, u64::MAX),
    ];
    for (a, b) in cases {
        let total = BigNat::from_u64(a).add(&BigNat::from_u64(b));
        assert_eq!(small(&total), a as u128 + b as u128);
    }
    let wide = big(u128::MAX - 5).add(&BigNat::from_u64(5));
    assert_eq!(small(&wide), u128::MAX);
    let over = big(u128::MAX).add(&BigNat::from_u64(1));
    assert_eq!(over.limbs, vec![0, 0, 0, 0, 1]);
}

#[test]
fn products_are_exact() {
    let cases: [(u64, u64); 7] = [
        (0, 5),
        (5, 0),
        (1, u64::MAX),
        (3, 4),
        (u32::MAX as u64, u32::MAX as u64),
        (u64::MAX, u64::MAX),
        (BASE, BASE),
    ];
    for (a, b) in cases {
        let product = BigNat::from_u64(a).mul(&BigNat::from_u64(b));
        assert_eq!(small(&product), a as u128 * b as u128);
    }
    assert_eq!(small(&BigNat::from_u64(u64::MAX).mul_small(u32::MAX)), u64::MAX as u128 * u32::MAX as u128);
    assert_eq!(small(&BigNat::from_u64(7).mul_small(0)), 0);
    assert_eq!(small(&BigNat::from_u64(7).shifted(0)), 7);
    assert_eq!(small(&BigNat::from_u64(7).shifted(3)), 7u128 << 96);
    let cube = BigNat::from_u64(u64::MAX).mul(&BigNat::from_u64(u64::MAX)).mul(&BigNat::from_u64(u64::MAX));
    let square = BigNat::from_u64(u64::MAX).mul(&BigNat::from_u64(u64::MAX));
    assert!(square.le(&cube));
    assert!(!cube.le(&square));
    assert_eq!(cube.limbs.len(), 6);
}

#[test]
fn numbers_are_ordered() {
    let cases: [(u128, u128); 10] = [
        (0, 0),
        (0, 1),
        (1, 0),
        (5, 5),
        (BASE as u128 - 1, BASE as u128),
        (BASE as u128, BASE as u128 - 1),
        (u64::MAX as u128, u64::MAX as u128 + 1),
        (u128::MAX, u128::MAX - 1),
        (1 << 96, (1 << 96) + 1),
        ((1 << 96) + (1 << 32), (1 << 96) + 1),
    ];
    for (a, b) in cases {
        assert_eq!(big(a).le(&big(b)), a <= b);
        assert_eq!(big(b).le(&big(a)), b <= a);
    }
    // zeros above the number do not change it
    let padded = BigNat {
        limbs: vec![3, 0, 0],
    };
    assert!(padded.le(&BigNat::from_u64(3)));
    assert!(BigNat::from_u64(3).le(&padded));
    assert!(!padded.is_zero());
    assert!(BigNat { limbs: vec![0, 0] }.is_zero());
}

#[test]
fn fractions_add_without_reducing() {
    assert_eq!(values(&Fraction::from_u64(3)), (3, 1));
    assert_eq!(values(&fraction(1, 2).plus(&fraction(1, 3))), (5, 6));
    assert_eq!(values(&fraction(1, 2).plus(&fraction(1, 2))), (4, 4));
    assert_eq!(values(&fraction(0, 1).plus(&fraction(7, 9))), (7, 9));
    assert_eq!(values(&fraction(2, 4).duplicate()), (2, 4));
}

#[test]
fn fractions_are_ordered_by_their_value() {
    assert!(fraction(1, 2).at_least(&fraction(1, 3)));
    assert!(!fraction(1, 3).at_least(&fraction(1, 2)));
    assert!(fraction(2, 4).at_least(&fraction(1, 2)));
    assert!(fraction(1, 2).at_least(&fraction(2, 4)));
    assert!(fraction(0, 5).at_least(&fraction(0, 1)));
    assert!(fraction(u64::MAX, u64::MAX - 1).at_least(&fraction(u64::MAX - 1, u64::MAX - 2)) == false);
    assert!(fraction(1, 0).at_least(&fraction(u64::MAX, 1)));
    assert!(!fraction(u64::MAX, 1).at_least(&fraction(0, 0)));
    assert!(fraction(0, 0).at_least(&fraction(9, 0)));
}

#[test]
fn scores_are_computed_from_their_parts() {
    let half = Weight { num: 3, den: 2 };
    let one = Weight { num: 1, den: 1 };
    let apple = TermWeight {
        count: 1,
        weight: half,
    };
    let banana = TermWeight {
        count: 1,
        weight: one,
    };
    let matches = vec![
        ScorePart {
            query: apple,
            frequency: 2,
            weight: half,
        },
        ScorePart {
            query: banana,
            frequency: 1,
            weight: one,
        },
    ];
    // 1 * 3/2 * 2 * 3/2 + 1 * 1 * 1 * 1 = 18/4 + 1/1 = 22/4
    assert_eq!(values(&raw_score_of(&matches)), (22, 4));
    assert_eq!(values(&raw_score_of(&Vec::new())), (0, 1));
    let norm = vec![
        NormPart {
            frequency: 2,
            weight: one,
        },
        NormPart {
            frequency: 1,
            weight: one,
        },
    ];
    assert_eq!(values(&norm_square_of(&norm)), (5, 1));
    assert_eq!(values(&norm_square_of(&Vec::new())), (0, 1));
    // (3/2)^2 + 1 = 9/4 + 1/1 = 13/4
    assert_eq!(values(&query_norm_square_of(&vec![apple, banana])), (13, 4));
    let score = Score {
        matches: matches.clone(),
        document_norm: Some(norm),
        query_norm: vec![apple, banana],
    };
    // (22/4)^2 / (5 * 13/4) = (484 * 1 * 4) / (16 * 5 * 13)
    assert_eq!(values(&score_square_of(&score)), (484 * 4, 16 * 5 * 13));
    let without_norm = Score {
        matches,
        document_norm: None,
        query_norm: vec![apple, banana],
    };
    assert_eq!(values(&score_square_of(&without_norm)), (484 * 4, 16 * 13));
    let empty = Score::new();
    assert_eq!(values(&score_square_of(&empty)), (0, 0));
}
