use robbot::dice::{parse_dice, Dice};
use robbot::rng::seeded_rng;

#[test]
fn plain_dice_expressions() {
    assert_eq!(parse_dice("1d6"), Some(Dice { count: 1, magnitude: 6 }));
    assert_eq!(parse_dice("2D8"), Some(Dice { count: 2, magnitude: 8 }));
    assert_eq!(parse_dice("d20"), Some(Dice { count: 1, magnitude: 20 }));
    assert_eq!(parse_dice(" 3 d 4 "), Some(Dice { count: 3, magnitude: 4 }));
}

#[test]
fn invalid_dice_expressions() {
    assert_eq!(parse_dice("0d6"), None);
    assert_eq!(parse_dice("100d6"), None);
    assert_eq!(parse_dice("2d0"), None);
    assert_eq!(parse_dice("six"), None);
    assert_eq!(parse_dice(""), None);
    assert_eq!(parse_dice("12"), None);
    assert_eq!(parse_dice("99999999999999999999999d6"), None);
}

#[test]
fn trailing_text_is_ignored() {
    assert_eq!(parse_dice("1d6 please"), Some(Dice { count: 1, magnitude: 6 }));
}

#[test]
fn from_defaults_the_count_to_one() {
    assert_eq!(Dice::from((None, 6)), Some(Dice { count: 1, magnitude: 6 }));
    assert_eq!(Dice::from((Some(4), 10)), Some(Dice { count: 4, magnitude: 10 }));
    assert_eq!(Dice::from((Some(0), 6)), None);
    assert_eq!(Dice::from((Some(100), 6)), None);
    assert_eq!(Dice::from((Some(2), 0)), None);
}

#[test]
fn validity_bounds() {
    assert!(Dice { count: 99, magnitude: 1 }.valid());
    assert!(!Dice { count: 100, magnitude: 1 }.valid());
    assert!(!Dice { count: 0, magnitude: 6 }.valid());
    assert!(!Dice { count: 1, magnitude: 0 }.valid());
}

#[test]
fn dice_text() {
    assert_eq!(Dice { count: 2, magnitude: 6 }.to_string(), "2d6");
    assert_eq!(Dice { count: 10, magnitude: 100 }.to_string(), "10d100");
}

#[test]
fn rolls_stay_in_range() {
    let dice = Dice { count: 20, magnitude: 6 };
    let mut rng = seeded_rng(7, 8, 9, 10);
    let rolls = dice.roll(&mut rng);
    assert_eq!(rolls.len(), 20);
    for r in rolls {
        assert!(1 <= r && r <= 6);
    }
}
