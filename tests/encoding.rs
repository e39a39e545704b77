use amm_sdk_netsblox::{encode, tuplet_label, Duration, DurationType, Token, TranslateError, Tuplet};

fn length(t: DurationType, dots: u8) -> f64 {
    let base = match t {
        DurationType::Maxima => 8.0,
        DurationType::Long => 4.0,
        DurationType::Breve => 2.0,
        DurationType::Whole => 1.0,
        DurationType::Half => 0.5,
        DurationType::Quarter => 0.25,
        DurationType::Eighth => 0.125,
        DurationType::Sixteenth => 0.0625,
        DurationType::ThirtySecond => 0.03125,
        DurationType::SixtyFourth => 0.015625,
        DurationType::OneHundredTwentyEighth => 0.0078125,
        DurationType::TwoHundredFiftySixth => 0.00390625,
        DurationType::FiveHundredTwelfth => 0.001953125,
        DurationType::OneThousandTwentyFourth => 0.0009765625,
        DurationType::TwoThousandFortyEighth => 0.00048828125,
    };
    let mut total = 0.0;
    let mut add = base;
    for _ in 0..=dots {
        total += add;
        add /= 2.0;
    }
    total
}

fn tok(value: DurationType, dots: u8) -> Token {
    Token { value, dots }
}

const ALL: [DurationType; 15] = [
    DurationType::Maxima,
    DurationType::Long,
    DurationType::Breve,
    DurationType::Whole,
    DurationType::Half,
    DurationType::Quarter,
    DurationType::Eighth,
    DurationType::Sixteenth,
    DurationType::ThirtySecond,
    DurationType::SixtyFourth,
    DurationType::OneHundredTwentyEighth,
    DurationType::TwoHundredFiftySixth,
    DurationType::FiveHundredTwelfth,
    DurationType::OneThousandTwentyFourth,
    DurationType::TwoThousandFortyEighth,
];

#[test]
fn plain_quarter_is_one_token() {
    assert_eq!(encode(Duration::new(DurationType::Quarter, 0)).unwrap(), vec![tok(DurationType::Quarter, 0)]);
}

#[test]
fn doubly_dotted_sixty_fourth_is_one_token() {
    assert_eq!(
        encode(Duration::new(DurationType::SixtyFourth, 2)).unwrap(),
        vec![tok(DurationType::SixtyFourth, 2)]
    );
}

#[test]
fn maxima_is_eight_tied_wholes() {
    assert_eq!(encode(Duration::new(DurationType::Maxima, 0)).unwrap(), vec![tok(DurationType::Whole, 0); 8]);
}

#[test]
fn dotted_long_is_four_dotted_wholes() {
    assert_eq!(encode(Duration::new(DurationType::Long, 1)).unwrap(), vec![tok(DurationType::Whole, 1); 4]);
}

#[test]
fn breve_is_two_wholes() {
    assert_eq!(encode(Duration::new(DurationType::Breve, 2)).unwrap(), vec![tok(DurationType::Whole, 2); 2]);
}

#[test]
fn triple_dotted_quarter_splits_in_two() {
    assert_eq!(
        encode(Duration::new(DurationType::Quarter, 3)).unwrap(),
        vec![tok(DurationType::Quarter, 0), tok(DurationType::Eighth, 2)]
    );
}

#[test]
fn five_dotted_half_splits_by_halving() {
    assert_eq!(
        encode(Duration::new(DurationType::Half, 5)).unwrap(),
        vec![
            tok(DurationType::Half, 0),
            tok(DurationType::Quarter, 0),
            tok(DurationType::Eighth, 0),
            tok(DurationType::Sixteenth, 2),
        ]
    );
}

#[test]
fn triple_dotted_breve_expands_to_wholes() {
    let mut expected = vec![tok(DurationType::Whole, 0); 2];
    expected.push(tok(DurationType::Whole, 2));
    assert_eq!(encode(Duration::new(DurationType::Breve, 3)).unwrap(), expected);
}

#[test]
fn every_encoding_adds_up_to_its_length() {
    let mut encoded = 0;
    for t in ALL {
        for dots in 0..16u8 {
            if let Ok(chain) = encode(Duration::new(t, dots)) {
                encoded += 1;
                let sum: f64 = chain.iter().map(|k| length(k.value, k.dots)).sum();
                assert_eq!(sum, length(t, dots), "{t:?} with {dots} dots");
                assert!(chain.iter().all(|k| k.dots <= 2));
            }
        }
    }
    assert_eq!(encoded, 10 * 3 + 9 + 8 + 7 + 6 + 5 + 4 + 3 + 2 + 1);
}

#[test]
fn encoding_is_deterministic() {
    for t in ALL {
        for dots in 0..16u8 {
            assert_eq!(encode(Duration::new(t, dots)), encode(Duration::new(t, dots)));
        }
    }
}

#[test]
fn longest_supported_dot_counts() {
    assert!(encode(Duration::new(DurationType::Maxima, 11)).is_ok());
    assert!(encode(Duration::new(DurationType::ThirtySecond, 3)).is_ok());
    assert_eq!(
        encode(Duration::new(DurationType::Maxima, 12)),
        Err(TranslateError::UnsupportedDuration { duration: Duration::new(DurationType::Maxima, 12) })
    );
    assert_eq!(
        encode(Duration::new(DurationType::SixtyFourth, 3)),
        Err(TranslateError::UnsupportedDuration { duration: Duration::new(DurationType::SixtyFourth, 3) })
    );
}

#[test]
fn too_short_a_value_is_unsupported() {
    let d = Duration::new(DurationType::OneHundredTwentyEighth, 0);
    assert_eq!(encode(d), Err(TranslateError::UnsupportedDuration { duration: d }));
}

#[test]
fn supported_tuplets_have_labels() {
    assert_eq!(tuplet_label(3, 2), Ok(Tuplet::Triplet));
    assert_eq!(tuplet_label(5, 4), Ok(Tuplet::Quintuplet));
    assert_eq!(tuplet_label(6, 4), Ok(Tuplet::Sextuplet));
    assert_eq!(tuplet_label(7, 4), Ok(Tuplet::Septuplet));
}

#[test]
fn other_tuplets_are_unsupported() {
    assert_eq!(tuplet_label(4, 3), Err(TranslateError::UnsupportedTuplet { num_beats: 4, into_beats: 3 }));
    assert_eq!(tuplet_label(3, 4), Err(TranslateError::UnsupportedTuplet { num_beats: 3, into_beats: 4 }));
}
