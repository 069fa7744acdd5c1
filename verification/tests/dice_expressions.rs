use fluorite::decimal::Dec;
use fluorite::dice::DiceSource;
use fluorite::parse::{parse_input, parse_input_with, RollInformation};
use fluorite::{format_string_with_results, format_string_with_rolls};

fn whole(n: i128) -> Dec {
    Dec { mantissa: n, scale: 0 }
}

fn wholes(faces: &[i128]) -> Vec<Dec> {
    faces.iter().map(|n| whole(*n)).collect()
}

fn scripted(input: &str, faces: Vec<i128>) -> RollInformation {
    let mut dice = DiceSource::scripted(faces);
    parse_input_with(input, &mut dice).unwrap()
}

#[test]
fn one_group_of_dice() {
    let info = scripted("3d6", vec![1, 6, 4]);
    assert_eq!(info.value, whole(11));
    assert_eq!(info.processed_string, "{}");
    assert_eq!(info.original_roll_texts, vec![String::from("3d6")]);
    assert_eq!(info.rolls, vec![wholes(&[1, 6, 4])]);
}

#[test]
fn operands_in_groups_roll_before_the_dice_around_them() {
    let info = scripted("1d6+(1d4)", vec![3, 5]);
    assert_eq!(info.processed_string, "{}+({})");
    assert_eq!(info.original_roll_texts, vec![String::from("1d6"), String::from("1d4")]);
    assert_eq!(info.rolls, vec![wholes(&[5]), wholes(&[3])]);
    assert_eq!(info.value, whole(8));
}

#[test]
fn dice_are_rolled_left_to_right() {
    let info = scripted("1d6-1d6", vec![2, 5]);
    assert_eq!(info.rolls, vec![wholes(&[2]), wholes(&[5])]);
    assert_eq!(info.value, whole(-3));
    assert_eq!(info.processed_string, "{}-{}");
}

#[test]
fn dice_of_dice_keep_both_texts() {
    let info = scripted("2d6d4", vec![1, 2, 4, 4, 3]);
    assert_eq!(info.processed_string, "{}");
    assert_eq!(info.original_roll_texts, vec![String::from("2d6"), String::from("{}d4")]);
    assert_eq!(info.rolls, vec![wholes(&[1, 2]), wholes(&[4, 4, 3])]);
    assert_eq!(info.value, whole(11));
}

#[test]
fn dice_in_the_operands_of_dice() {
    let info = scripted("(1d2)d(1d6)", vec![2, 3, 1, 3]);
    assert_eq!(info.processed_string, "{}");
    assert_eq!(
        info.original_roll_texts,
        vec![String::from("1d2"), String::from("({})d({})"), String::from("1d6")]
    );
    assert_eq!(info.rolls, vec![wholes(&[2]), wholes(&[1, 3]), wholes(&[3])]);
    assert_eq!(info.value, whole(4));
}

#[test]
fn a_long_expression() {
    let info = scripted("(2 + 3   ) * (2d(((9))+-(2))) + (3d5)", vec![7, 1, 5, 5, 2]);
    assert_eq!(info.processed_string, "(2+3)*({})+({})");
    assert_eq!(
        info.original_roll_texts,
        vec![String::from("2d(((9))+-(2))"), String::from("3d5")]
    );
    assert_eq!(info.rolls, vec![wholes(&[7, 1]), wholes(&[5, 5, 2])]);
    assert_eq!(info.value, whole(52));
}

#[test]
fn texts_and_rolls_go_in_pairs() {
    for input in ["4", "1d6", "1d6+2d8*(3d4)", "(1d6)d(2d3)", "0d6+0d6"] {
        for _ in 0..20 {
            let info = parse_input(input).unwrap();
            assert_eq!(info.original_roll_texts.len(), info.rolls.len());
            let shown = format_string_with_results(&info.processed_string, info.rolls);
            assert!(!shown.contains('{'));
            assert!(!shown.contains('}'));
        }
    }
}

#[test]
fn roll_texts_fill_the_markers() {
    let info = scripted("(2+3)*(2d6)+1d4", vec![6, 2, 3]);
    assert_eq!(info.processed_string, "(2+3)*({})+{}");
    assert_eq!(
        format_string_with_rolls(&info.processed_string, info.original_roll_texts),
        "(2+3)*(2d6)+1d4"
    );
}

#[test]
fn faces_fill_the_markers() {
    let info = scripted("(2+3)*(2d6)+1d4+0d8", vec![6, 2, 3]);
    assert_eq!(
        format_string_with_results(&info.processed_string, info.rolls),
        "(2+3)*([6, 2])+[3]+[]"
    );
}

#[test]
fn fillers_go_to_the_first_marker_left() {
    assert_eq!(
        format_string_with_rolls("{}+{}", vec![String::from("a"), String::from("b")]),
        "a+b"
    );
    assert_eq!(format_string_with_rolls("{}+{}", vec![String::from("a")]), "a+{}");
    assert_eq!(
        format_string_with_rolls("{}", vec![String::from("a"), String::from("b")]),
        "a"
    );
    assert_eq!(
        format_string_with_rolls("{}", vec![String::from("{}d4"), String::from("2d6")]),
        "2d6d4"
    );
    assert_eq!(format_string_with_rolls("no marker", vec![String::from("a")]), "no marker");
    assert_eq!(format_string_with_rolls("{ }{", vec![String::from("a")]), "{ }{");
    assert_eq!(format_string_with_rolls("", vec![]), "");
}

#[test]
fn groups_are_shown_in_brackets() {
    let groups = vec![
        vec![Dec { mantissa: 15, scale: 1 }, whole(2)],
        vec![],
        vec![whole(-3)],
    ];
    assert_eq!(format_string_with_results("{}|{}|{}|{}", groups), "[1.5, 2]|[]|[-3]|{}");
}

#[test]
fn a_scripted_source_repeats_itself() {
    let first = scripted("4d6+2d20", vec![1, 2, 3, 4, 19, 20]);
    let second = scripted("4d6+2d20", vec![1, 2, 3, 4, 19, 20]);
    assert_eq!(first.value, second.value);
    assert_eq!(first.rolls, second.rolls);
    assert_eq!(first.value, whole(49));
}
