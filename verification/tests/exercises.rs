use dsa_playground::exercises::add_employee::Company;
use dsa_playground::exercises::find_median::middle_values;
use dsa_playground::exercises::pig_latin::{convert_to_pig_latin, convert_sentence};

#[test]
fn pig_latin_of_a_vowel_word() {
    assert_eq!(convert_to_pig_latin("apple"), "applehay");
    assert_eq!(convert_to_pig_latin("a"), "ahay");
    assert_eq!(convert_to_pig_latin("under"), "underhay");
}

#[test]
fn pig_latin_of_a_consonant_word() {
    assert_eq!(convert_to_pig_latin("hello"), "ellohay");
    assert_eq!(convert_to_pig_latin("b"), "bay");
    assert_eq!(convert_to_pig_latin("yes"), "esyay");
}

#[test]
fn pig_latin_of_nothing_is_nothing() {
    assert_eq!(convert_to_pig_latin(""), "");
}

#[test]
fn pig_latin_knows_lower_case_vowels_only() {
    assert_eq!(convert_to_pig_latin("Apple"), "ppleAay");
    assert_eq!(convert_to_pig_latin("Eat"), "atEay");
}

#[test]
fn pig_latin_moves_whole_characters() {
    assert_eq!(convert_to_pig_latin("ñu"), "uñay");
    assert_eq!(convert_to_pig_latin("oñ"), "oñhay");
}

#[test]
fn pig_latin_sentence_keeps_what_is_between_words() {
    assert_eq!(
        convert_sentence("hello world, eat apples!"),
        Some("ellohay orldway, eathay appleshay!".to_string())
    );
    assert_eq!(convert_sentence("42 + 1"), Some("42 + 1".to_string()));
    assert_eq!(convert_sentence(""), Some("".to_string()));
    assert_eq!(convert_sentence("x2y"), Some("xay2yay".to_string()));
}

#[test]
fn company_adds_each_record_once() {
    let mut company = Company::new();
    assert!(company.is_empty());
    assert!(company.add_employee("Ann", "Sales"));
    assert!(company.add_employee("Bob", "Sales"));
    assert!(company.add_employee("Ann", "Support"));
    assert!(!company.add_employee("Ann", "Sales"));
    assert!(!company.add_employee("Ann", "Support"));
    assert!(!company.is_empty());
    assert_eq!(company.employees_of("Sales"), vec!["Ann".to_string(), "Bob".to_string()]);
    assert_eq!(company.employees_of("Support"), vec!["Ann".to_string()]);
    assert_eq!(company.departments_of("Ann"), vec!["Sales".to_string(), "Support".to_string()]);
    assert_eq!(company.departments_of("Bob"), vec!["Sales".to_string()]);
    assert_eq!(company.departments(), vec!["Sales".to_string(), "Support".to_string()]);
}

#[test]
fn company_knows_nothing_of_strangers() {
    let mut company = Company::new();
    assert_eq!(company.departments(), Vec::<String>::new());
    assert!(company.add_employee("Ann", "Sales"));
    assert_eq!(company.employees_of("Support"), Vec::<String>::new());
    assert_eq!(company.departments_of("Bob"), Vec::<String>::new());
    // names are told apart to the letter
    assert_eq!(company.employees_of("sales"), Vec::<String>::new());
    assert!(company.add_employee("ann", "Sales"));
    assert!(company.add_employee("Ann", ""));
    assert_eq!(company.departments_of("Ann"), vec!["Sales".to_string(), "".to_string()]);
}

#[test]
fn middle_of_an_odd_count_is_one_value() {
    assert_eq!(middle_values(vec![3, 1, 2]), Some((2, 2)));
    assert_eq!(middle_values(vec![5]), Some((5, 5)));
    assert_eq!(middle_values(vec![9, -4, 7, 0, 7]), Some((7, 7)));
}

#[test]
fn middle_of_an_even_count_is_two_values() {
    assert_eq!(middle_values(vec![4, 1, 3, 2]), Some((2, 3)));
    assert_eq!(middle_values(vec![10, -10]), Some((-10, 10)));
    assert_eq!(middle_values(vec![i32::MAX, i32::MIN, 0, 0]), Some((0, 0)));
}

#[test]
fn middle_of_nothing_is_nothing() {
    assert_eq!(middle_values(Vec::new()), None);
}
