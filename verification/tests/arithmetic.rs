use fluorite::decimal::Dec;
use fluorite::dice::{roll_dice, roll_die, DiceSource};
use fluorite::error::RollError;
use fluorite::parse::{parse_input, parse_input_with};

fn dec(mantissa: i128, scale: u32) -> Dec {
    Dec { mantissa, scale }
}

fn value(input: &str) -> Dec {
    parse_input(input).unwrap().value
}

fn same_number(a: Dec, b: Dec) -> bool {
    a.mantissa * 10i128.pow(b.scale) == b.mantissa * 10i128.pow(a.scale)
}

#[test]
fn the_five_operators_compute() {
    assert_eq!(value("2+3"), dec(5, 0));
    assert_eq!(value("2-3"), dec(-1, 0));
    assert_eq!(value("2*3"), dec(6, 0));
    assert!(same_number(value("7/2"), dec(35, 1)));
    assert!(same_number(value("1/4"), dec(25, 2)));
    assert!(!same_number(value("7/2"), dec(3, 0)));
    assert_eq!(value("7%4"), dec(3, 0));
}

#[test]
fn fractions_are_exact() {
    assert_eq!(value("0.1+0.2"), dec(3, 1));
    assert_eq!(value("2.5*2").to_text(), "5.0");
    assert_eq!(value("1.25-0.25").to_text(), "1.00");
}

#[test]
fn literals_may_start_or_end_with_the_point() {
    assert_eq!(value(".5"), dec(5, 1));
    assert_eq!(value("5."), dec(5, 0));
    assert_eq!(parse_input("5.+.5").unwrap().processed_string, "5.+.5");
}

#[test]
fn spaces_mean_nothing() {
    assert_eq!(value(" 1 2 + 3 "), dec(15, 0));
    assert_eq!(parse_input(" 1 2 + 3 ").unwrap().processed_string, "12+3");
    assert_eq!(value("( 2 + 3 ) * 4"), dec(20, 0));
}

#[test]
fn tiers_are_applied_left_to_right() {
    assert_eq!(value("100/10/5"), dec(2, 0));
    assert_eq!(value("2*3%4"), dec(2, 0));
    assert_eq!(value("1+2*3-4/2"), dec(5, 0));
    assert_eq!(value("10-3-2"), dec(5, 0));
}

#[test]
fn signs_apply_to_the_atom_behind_them() {
    assert_eq!(value("+5"), dec(5, 0));
    assert_eq!(value("-5*-2"), dec(10, 0));
    assert_eq!(value("-(-(2))"), dec(2, 0));
    assert_eq!(parse_input("-(-(2))").unwrap().processed_string, "-(-(2))");
    assert_eq!(parse_input("+5").unwrap().processed_string, "+5");
}

#[test]
fn whole_numbers_are_told_from_fractions() {
    assert_eq!(dec(20, 1).to_whole(), Some(2));
    assert_eq!(dec(25, 1).to_whole(), None);
    assert_eq!(dec(-300, 2).to_whole(), Some(-3));
    assert_eq!(dec(-301, 2).to_whole(), None);
    assert_eq!(dec(0, 5).to_whole(), Some(0));
    assert_eq!(dec(7, 0).to_whole(), Some(7));
}

#[test]
fn zero_is_read_from_the_mantissa() {
    assert!(dec(0, 3).is_zero());
    assert!(dec(0, 0).is_zero());
    assert!(!dec(1, 3).is_zero());
    assert!(!dec(-1, 0).is_zero());
}

#[test]
fn decimals_are_shown_with_their_scale() {
    assert_eq!(dec(350, 2).to_text(), "3.50");
    assert_eq!(dec(-5, 1).to_text(), "-0.5");
    assert_eq!(dec(12, 0).to_text(), "12");
}

#[test]
fn literals_are_read_by_the_decimal_library() {
    assert_eq!(Dec::from_text("42"), Some(dec(42, 0)));
    assert_eq!(Dec::from_text("0042"), Some(dec(42, 0)));
    assert_eq!(Dec::from_text("4.20"), Some(dec(420, 2)));
    assert_eq!(
        Dec::from_text("79228162514264337593543950335"),
        Some(dec(79_228_162_514_264_337_593_543_950_335, 0))
    );
    assert_eq!(Dec::from_text("79228162514264337593543950336"), None);
    assert_eq!(Dec::from_text("."), None);
}

#[test]
fn whole_numbers_add_exactly_or_overflow() {
    let max = dec(79_228_162_514_264_337_593_543_950_335, 0);
    assert_eq!(dec(2, 0).checked_add(dec(3, 0)), Some(dec(5, 0)));
    assert_eq!(dec(-7, 0).checked_add(dec(7, 0)), Some(dec(0, 0)));
    assert_eq!(max.checked_add(dec(1, 0)), None);
    assert_eq!(max.checked_add(dec(-1, 0)), Some(dec(79_228_162_514_264_337_593_543_950_334, 0)));
}

#[test]
fn a_die_shows_the_scripted_face() {
    let mut dice = DiceSource::scripted(vec![3, 9, 0, 6]);
    assert_eq!(roll_die(6, &mut dice), dec(3, 0));
    assert_eq!(roll_die(6, &mut dice), dec(1, 0));
    assert_eq!(roll_die(6, &mut dice), dec(1, 0));
    assert_eq!(roll_die(6, &mut dice), dec(6, 0));
    assert_eq!(roll_die(6, &mut dice), dec(1, 0));
}

#[test]
fn a_random_die_stays_on_the_die() {
    let mut dice = DiceSource::random();
    let mut seen = [false; 6];
    for _ in 0..600 {
        let face = roll_die(6, &mut dice);
        assert_eq!(face.scale, 0);
        assert!(1 <= face.mantissa && face.mantissa <= 6);
        seen[(face.mantissa - 1) as usize] = true;
    }
    assert!(seen.iter().all(|s| *s));
    assert_eq!(roll_die(1, &mut dice), dec(1, 0));
}

#[test]
fn a_group_of_dice_is_summed() {
    let mut dice = DiceSource::scripted(vec![2, 5, 6]);
    let (sum, faces) = roll_dice(dec(3, 0), dec(6, 0), &mut dice).unwrap();
    assert_eq!(sum, dec(13, 0));
    assert_eq!(faces, vec![dec(2, 0), dec(5, 0), dec(6, 0)]);
}

#[test]
fn whole_operands_with_a_scale_roll_their_value() {
    let mut dice = DiceSource::scripted(vec![4, 4, 4, 4]);
    let (sum, faces) = roll_dice(dec(20, 1), dec(600, 2), &mut dice).unwrap();
    assert_eq!(sum, dec(8, 0));
    assert_eq!(faces.len(), 2);
    let info = parse_input_with("2.0d6.00", &mut DiceSource::scripted(vec![5, 3])).unwrap();
    assert_eq!(info.value, dec(8, 0));
    assert_eq!(info.original_roll_texts, vec![String::from("2.0d6.00")]);
}

#[test]
fn no_dice_draw_nothing() {
    let mut dice = DiceSource::scripted(vec![5]);
    let (sum, faces) = roll_dice(dec(0, 0), dec(6, 0), &mut dice).unwrap();
    assert_eq!(sum, dec(0, 0));
    assert!(faces.is_empty());
    assert_eq!(roll_die(6, &mut dice), dec(5, 0));
}

#[test]
fn bad_dice_are_refused() {
    let mut dice = DiceSource::scripted(vec![]);
    assert_eq!(roll_dice(dec(25, 1), dec(6, 0), &mut dice), Err(RollError::NonIntegerCount));
    assert_eq!(roll_dice(dec(2, 0), dec(65, 1), &mut dice), Err(RollError::NonIntegerSides));
    assert_eq!(roll_dice(dec(-2, 0), dec(6, 0), &mut dice), Err(RollError::NegativeCount));
    assert_eq!(roll_dice(dec(2, 0), dec(0, 0), &mut dice), Err(RollError::NonPositiveSides));
    assert_eq!(roll_dice(dec(2, 0), dec(-6, 0), &mut dice), Err(RollError::NonPositiveSides));
}

#[test]
fn a_sum_of_dice_can_overflow() {
    let max: i128 = 79_228_162_514_264_337_593_543_950_335;
    let mut dice = DiceSource::scripted(vec![max, max, max]);
    assert_eq!(roll_dice(dec(3, 0), dec(max, 0), &mut dice), Err(RollError::Overflow));
    assert_eq!(roll_die(6, &mut dice), dec(1, 0));
}

#[test]
fn plain_literals_are_read_digit_by_digit() {
    assert_eq!(Dec::from_text("0.50"), Some(dec(50, 2)));
    assert_eq!(Dec::from_text("00.000"), Some(dec(0, 3)));
    assert_eq!(Dec::from_text("007"), Some(dec(7, 0)));
    assert_eq!(Dec::from_text(".5"), Some(dec(5, 1)));
    assert_eq!(Dec::from_text("5."), Some(dec(5, 0)));
    assert_eq!(Dec::from_text("0.0000000000000000000000000001"), Some(dec(1, 28)));
    assert_eq!(
        Dec::from_text("7922816251426433759354395033.5"),
        Some(dec(79_228_162_514_264_337_593_543_950_335, 1))
    );
    assert_eq!(
        Dec::from_text("7.9228162514264337593543950335"),
        Some(dec(79_228_162_514_264_337_593_543_950_335, 28))
    );
    assert_eq!(
        Dec::from_text("000000000000000000000000000000000000000000012"),
        Some(dec(12, 0))
    );
    assert_eq!(
        Dec::from_text("12345678901234567.12345678901"),
        Some(dec(1_234_567_890_123_456_712_345_678_901, 11))
    );
}

#[test]
fn whole_numbers_subtract_exactly_or_overflow() {
    let max = dec(79_228_162_514_264_337_593_543_950_335, 0);
    let min = dec(-79_228_162_514_264_337_593_543_950_335, 0);
    assert_eq!(dec(2, 0).checked_sub(dec(3, 0)), Some(dec(-1, 0)));
    assert_eq!(dec(0, 0).checked_sub(dec(3, 0)), Some(dec(-3, 0)));
    assert_eq!(dec(3, 0).checked_sub(dec(3, 0)), Some(dec(0, 0)));
    assert_eq!(max.checked_sub(max), Some(dec(0, 0)));
    assert_eq!(max.checked_sub(dec(-1, 0)), None);
    assert_eq!(min.checked_sub(dec(1, 0)), None);
    assert_eq!(min.checked_sub(min), Some(dec(0, 0)));
    assert_eq!(
        dec(5_000_000_000, 0).checked_sub(dec(7_000_000_000, 0)),
        Some(dec(-2_000_000_000, 0))
    );
}

#[test]
fn whole_numbers_multiply_exactly_or_overflow() {
    let max = dec(79_228_162_514_264_337_593_543_950_335, 0);
    assert_eq!(dec(6, 0).checked_mul(dec(7, 0)), Some(dec(42, 0)));
    assert_eq!(dec(-6, 0).checked_mul(dec(7, 0)), Some(dec(-42, 0)));
    assert_eq!(dec(0, 0).checked_mul(dec(-7, 0)), Some(dec(0, 0)));
    assert_eq!(max.checked_mul(dec(1, 0)), Some(max));
    assert_eq!(max.checked_mul(dec(2, 0)), None);
    assert_eq!(
        dec(1 << 48, 0).checked_mul(dec(1 << 47, 0)),
        Some(dec(1 << 95, 0))
    );
    assert_eq!(dec(1 << 48, 0).checked_mul(dec(1 << 48, 0)), None);
    assert_eq!(
        dec(4_294_967_296, 0).checked_mul(dec(4_294_967_297, 0)),
        Some(dec(18_446_744_078_004_518_912, 0))
    );
}

#[test]
fn negation_turns_the_sign() {
    let max = dec(79_228_162_514_264_337_593_543_950_335, 0);
    assert_eq!(dec(15, 1).negated(), dec(-15, 1));
    assert_eq!(dec(-7, 0).negated(), dec(7, 0));
    assert_eq!(dec(0, 3).negated(), dec(0, 0));
    assert_eq!(dec(0, 0).negated(), dec(0, 0));
    assert_eq!(max.negated(), dec(-79_228_162_514_264_337_593_543_950_335, 0));
    assert_eq!(dec(1, 28).negated(), dec(-1, 28));
    assert_eq!(dec(5_000_000_000, 2).negated(), dec(-5_000_000_000, 2));
    assert_eq!(
        dec(20_000_000_000_000_000_000_000, 5).negated(),
        dec(-20_000_000_000_000_000_000_000, 5)
    );
    assert_eq!(value("-0.00"), dec(0, 0));
    assert_eq!(value("-2.50"), dec(-250, 2));
}
