use dsa_playground::games::christmas_lyrics::{gift_line, opening, verse, DAYS};
use dsa_playground::games::fibonacci::{fibonacci_series, MAX_TERMS};
use dsa_playground::games::guessing_game::{judge, pick_secret, Verdict, HIGHEST, LOWEST};

#[test]
fn fibonacci_first_terms() {
    assert_eq!(fibonacci_series(0), Some(Vec::new()));
    assert_eq!(fibonacci_series(1), Some(vec![0]));
    assert_eq!(fibonacci_series(2), Some(vec![0, 1]));
    assert_eq!(fibonacci_series(10), Some(vec![0, 1, 1, 2, 3, 5, 8, 13, 21, 34]));
}

#[test]
fn fibonacci_goes_as_far_as_allowed() {
    assert_eq!(MAX_TERMS, 99);
    let terms = fibonacci_series(99).unwrap();
    assert_eq!(terms.len(), 99);
    assert_eq!(terms[98], 135301852344706746049);
    for i in 2..terms.len() {
        assert_eq!(terms[i], terms[i - 1] + terms[i - 2]);
    }
}

#[test]
fn fibonacci_refuses_more() {
    assert_eq!(fibonacci_series(100), None);
    assert_eq!(fibonacci_series(255), None);
}

#[test]
fn guess_is_judged_against_the_secret() {
    assert_eq!(judge(1, 2), Verdict::TooSmall);
    assert_eq!(judge(3, 2), Verdict::TooLarge);
    assert_eq!(judge(2, 2), Verdict::Win);
    assert_eq!(judge(0, u32::MAX), Verdict::TooSmall);
    assert_eq!(judge(u32::MAX, 0), Verdict::TooLarge);
    assert_eq!(judge(u32::MAX, u32::MAX), Verdict::Win);
}

#[test]
fn secret_is_in_range_and_varies() {
    assert_eq!((LOWEST, HIGHEST), (1, 100));
    let first = pick_secret();
    let mut varies = false;
    for _ in 0..500 {
        let secret = pick_secret();
        assert!(LOWEST <= secret && secret <= HIGHEST);
        if secret != first {
            varies = true;
        }
    }
    assert!(varies);
}

#[test]
fn carol_opening_names_the_day() {
    assert_eq!(DAYS, 12);
    assert_eq!(opening(0), "On the first day of Christmas,\nmy true love gave to me");
    assert_eq!(opening(11), "On the twelfth day of Christmas,\nmy true love gave to me");
}

#[test]
fn carol_first_gift_closes_the_verse() {
    assert_eq!(gift_line(0, 0), "A partridge in a pear tree.");
    assert_eq!(gift_line(1, 0), "And a partridge in a pear tree.");
    assert_eq!(gift_line(10, 0), "And a partridge in a pear tree.");
    assert_eq!(gift_line(11, 0), "And a partridge in a pear tree!");
}

#[test]
fn carol_other_gifts_end_in_a_comma() {
    assert_eq!(gift_line(1, 1), "Two turtle doves,");
    assert_eq!(gift_line(11, 1), "Two turtle doves,");
    assert_eq!(gift_line(4, 4), "Five golden rings,");
    assert_eq!(gift_line(11, 11), "Twelve drummers drumming,");
}

#[test]
fn carol_sentence_case_lowers_and_splits() {
    assert_eq!(gift_line(2, 2), "Three french hens,");
    assert_eq!(gift_line(5, 5), "Six geese a laying,");
}

#[test]
fn carol_verse_runs_from_the_newest_gift_down() {
    assert_eq!(
        verse(2),
        vec![
            "On the third day of Christmas,\nmy true love gave to me".to_string(),
            "Three french hens,".to_string(),
            "Two turtle doves,".to_string(),
            "And a partridge in a pear tree.".to_string(),
        ]
    );
    assert_eq!(verse(0).len(), 2);
    assert_eq!(verse(11).len(), 13);
    assert_eq!(verse(11)[12], "And a partridge in a pear tree!");
}
