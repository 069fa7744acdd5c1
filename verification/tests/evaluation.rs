use fluorite::decimal::Dec;
use fluorite::dice::DiceSource;
use fluorite::error::RollError;
use fluorite::parse::{
    clean_input, parse_input, parse_input_with, RollInformation, VALID_INPUT_CHARS,
};

fn whole(n: i128) -> Dec {
    Dec { mantissa: n, scale: 0 }
}

fn scripted(input: &str, faces: Vec<i128>) -> Result<RollInformation, RollError> {
    let mut dice = DiceSource::scripted(faces);
    parse_input_with(input, &mut dice)
}

#[test]
fn bare_integer_evaluates_to_itself() {
    let info = parse_input("42").unwrap();
    assert_eq!(info.value, whole(42));
    assert_eq!(info.processed_string, "42");
    assert!(info.original_roll_texts.is_empty());
    assert!(info.rolls.is_empty());
}

#[test]
fn subtraction_runs_left_to_right() {
    let info = parse_input("10-3-2").unwrap();
    assert_eq!(info.value, whole(5));
    assert_eq!(info.processed_string, "10-3-2");
}

#[test]
fn parentheses_override_precedence() {
    let info = parse_input("(2+3)*4").unwrap();
    assert_eq!(info.value, whole(20));
    assert_eq!(info.processed_string, "(2+3)*4");
}

#[test]
fn multiplication_binds_tighter_than_addition() {
    assert_eq!(parse_input("2+3*4").unwrap().value, whole(14));
}

#[test]
fn leading_minus_negates_a_number() {
    let info = parse_input("-5+3").unwrap();
    assert_eq!(info.value, whole(-2));
    assert_eq!(info.processed_string, "-5+3");
}

#[test]
fn leading_minus_negates_a_group() {
    let info = parse_input("-(2+3)").unwrap();
    assert_eq!(info.value, whole(-5));
    assert_eq!(info.processed_string, "-(2+3)");
}

#[test]
fn illegal_characters_are_dropped() {
    assert_eq!(clean_input("2+#3"), "2+3");
    assert_eq!(parse_input("2+#3").unwrap().value, whole(5));
}

#[test]
fn dice_bind_tighter_than_addition() {
    let info = scripted("2+3d4", vec![4, 1, 3]).unwrap();
    assert_eq!(info.value, whole(10));
    assert_eq!(info.processed_string, "2+{}");
    assert_eq!(info.original_roll_texts, vec![String::from("3d4")]);
    assert_eq!(info.rolls, vec![vec![whole(4), whole(1), whole(3)]]);
}

#[test]
fn random_dice_stay_on_the_die() {
    for _ in 0..50 {
        let info = parse_input("2+3d4").unwrap();
        assert_eq!(info.rolls.len(), 1);
        assert_eq!(info.rolls[0].len(), 3);
        let mut sum: i128 = 0;
        for face in &info.rolls[0] {
            assert_eq!(face.scale, 0);
            assert!(1 <= face.mantissa && face.mantissa <= 4);
            sum += face.mantissa;
        }
        assert_eq!(info.value, whole(2 + sum));
    }
}

#[test]
fn fractional_count_is_refused() {
    assert_eq!(scripted("2.5d6", vec![]).unwrap_err(), RollError::NonIntegerCount);
    assert_eq!(
        parse_input("2.5d6").unwrap_err(),
        "Attempted to roll non-integer number of dice."
    );
}

#[test]
fn negative_sides_are_refused() {
    assert_eq!(scripted("2d-6", vec![]).unwrap_err(), RollError::NonPositiveSides);
    assert_eq!(
        parse_input("2d-6").unwrap_err(),
        "Attempted to roll dice with non-positive number of sides."
    );
}

#[test]
fn zero_dice_roll_nothing() {
    let info = parse_input("0d6").unwrap();
    assert_eq!(info.value, whole(0));
    assert_eq!(info.processed_string, "{}");
    assert_eq!(info.original_roll_texts, vec![String::from("0d6")]);
    assert_eq!(info.rolls, vec![Vec::<Dec>::new()]);
}

#[test]
fn groups_and_dice_mix() {
    let info = scripted("(2 + 3) * (2d6) + 1", vec![6, 2]).unwrap();
    assert_eq!(info.value, whole(41));
    assert_eq!(info.processed_string, "(2+3)*({})+1");
    assert_eq!(info.original_roll_texts, vec![String::from("2d6")]);
    assert_eq!(info.rolls, vec![vec![whole(6), whole(2)]]);
}

#[test]
fn the_legal_characters_are_kept() {
    assert_eq!(clean_input(VALID_INPUT_CHARS), VALID_INPUT_CHARS);
    for c in (0u8..128).map(char::from) {
        let kept = clean_input(&c.to_string());
        if VALID_INPUT_CHARS.contains(c) {
            assert_eq!(kept, c.to_string());
        } else {
            assert_eq!(kept, "");
        }
    }
    assert_eq!(clean_input("2 × 3 ÷ d６"), "2  3  d");
}
