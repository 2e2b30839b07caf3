use password_generator::common::CommonPasswords;
use password_generator::generator::PasswordGenerator;
use password_generator::pattern::has_repeated_pattern;
use password_generator::strength::Strength;

#[test]
fn test_repeats_in_passwords() {
    assert!(has_repeated_pattern(
        "thishasrepeatingpasswordthishasrepeatingpassword"
    ));
    assert!(!has_repeated_pattern("thishasnorepeats"));
    assert!(has_repeated_pattern("onetwoonetwo"));
    assert!(!has_repeated_pattern("onetwoone"));
    assert!(!has_repeated_pattern("racecar"));
    assert!(!has_repeated_pattern("wr#rpt#nononononopre"));
}

#[test]
fn repeat_in_a_suffix_is_found() {
    assert!(has_repeated_pattern("xyzabcabc"));
    assert!(has_repeated_pattern("password11"));
    assert!(!has_repeated_pattern(""));
    assert!(!has_repeated_pattern("a"));
    assert!(has_repeated_pattern("aa"));
    assert!(!has_repeated_pattern("abcdefg"));
}

fn validate(pw: &str) -> Strength {
    PasswordGenerator::validate_password(pw, false, &CommonPasswords::empty())
}

#[test]
fn common_list_from_text() {
    let list = CommonPasswords::from_text("password\n123456\r\nqwerty");
    assert_eq!(list.len(), 3);
    assert!(list.contains("password"));
    assert!(list.contains("123456"));
    assert!(list.contains("qwerty"));
    assert!(!list.contains("Password"));
    assert!(!list.contains("123456\r"));
    let gaps = CommonPasswords::from_text("a\n\nb\n");
    assert_eq!(gaps.len(), 3);
    assert!(gaps.contains(""));
    assert_eq!(CommonPasswords::from_text("").len(), 0);
}

#[test]
fn listed_password_is_common() {
    let list = CommonPasswords::from_text("password\ncorrecthorsebatterystaple\nXy7$Xy7$Qw9!Lm3#\n");
    assert_eq!(PasswordGenerator::validate_password("password", true, &list), Strength::Common);
    assert_eq!(
        PasswordGenerator::validate_password("correcthorsebatterystaple", true, &list),
        Strength::Common
    );
    assert_eq!(
        PasswordGenerator::validate_password("Xy7$Xy7$Qw9!Lm3#", true, &list),
        Strength::Common
    );
    assert_eq!(PasswordGenerator::validate_password("password", false, &list), Strength::VeryWeak);
    assert_eq!(
        PasswordGenerator::validate_password("Xy7$Xy7$Qw9!Lm3#", false, &list),
        Strength::VeryStrong
    );
}

#[test]
fn short_password_is_very_weak() {
    assert_eq!(validate(""), Strength::VeryWeak);
    assert_eq!(validate("Ab1!"), Strength::VeryWeak);
    assert_eq!(validate("Ab1!Cd2@Ef3"), Strength::VeryWeak);
    assert_eq!(validate("Ab1!Cd2@Ef3#"), Strength::VeryWeak);
}

#[test]
fn verdicts_by_score() {
    // 16 lowercase letters: entropy 75, one category, no repeat.
    assert_eq!(validate("abcdefghijklmnop"), Strength::Medium);
    // The same length of one letter: a repeat costs one more point.
    assert_eq!(validate("aaaaaaaaaaaaaaaa"), Strength::Weak);
    // All four categories.
    assert_eq!(validate("Abcdefghijklm1!x"), Strength::VeryStrong);
    // Two categories score better than three.
    assert_eq!(validate("abcdefghijk12"), Strength::VeryStrong);
    assert_eq!(validate("Abcdefghijk12"), Strength::Medium);
    // Digits only: entropy 43.
    assert_eq!(validate("1234567890123"), Strength::Weak);
    assert_eq!(validate("onetwoonetwoonetwo"), Strength::Weak);
}

#[test]
fn entropy_threshold_at_128_bits() {
    // 27 lowercase letters give 126 bits, 28 give 131.
    assert_eq!(validate("abcdefghijklmnopqrstuvwxyza"), Strength::Medium);
    assert_eq!(validate("abcdefghijklmnopqrstuvwxyzab"), Strength::VeryStrong);
}

#[test]
fn characters_outside_every_category() {
    assert_eq!(validate("ééééééééééééé"), Strength::VeryWeak);
    assert_eq!(validate("YYYYYYYYYYYYY"), Strength::VeryWeak);
}

#[test]
fn evaluation_is_repeatable() {
    let list = CommonPasswords::from_text("hunter2\n");
    for pw in ["hunter2", "Abcdefghijklm1!x", "aaaaaaaaaaaaaaaa"] {
        for check in [true, false] {
            let first = PasswordGenerator::validate_password(pw, check, &list);
            let second = PasswordGenerator::validate_password(pw, check, &list);
            assert_eq!(first, second);
        }
    }
}
