use password_generator::charset::SPECIAL;
use password_generator::generator::{
    CategoryRule, ConfigError, GeneratorConfig, PasswordGenerator, ALLOWED_MIN, DEFAULT_MAX,
    DEFAULT_MIN,
};
use password_generator::charset::Category;

fn count_where(pw: &str, f: impl Fn(char) -> bool) -> usize {
    pw.chars().filter(|&c| f(c)).count()
}

#[test]
fn test_good_length() {
    let mut pg = PasswordGenerator::new();
    pg.length(14).unwrap();
    let pw = pg.generate_password();
    assert_eq!(pw.len(), 14);

    let mut pg = PasswordGenerator::new();
    pg.length(30).unwrap();
    let pw = pg.generate_password();
    assert_eq!(pw.len(), 30);
}

#[test]
fn test_bad_length() {
    let mut pg = PasswordGenerator::new();
    assert!(pg.length(1).is_err());

    let mut pg = PasswordGenerator::new();
    assert!(pg.length(12).is_err());
}

#[test]
fn test_inclusion_of_character_sets() {
    let pg = PasswordGenerator::new();
    let pw = pg.generate_password();
    assert!(pw.chars().any(|c| c.is_ascii_uppercase()));
    assert!(pw.chars().any(|c| c.is_ascii_lowercase()));
    assert!(pw.chars().any(|c| c.is_ascii_digit()));
    assert!(pw.chars().any(|c| SPECIAL.contains(c)));
}

#[test]
fn test_minimum_character_counts() {
    let mut pg = PasswordGenerator::new();
    pg.length(100).unwrap();
    pg.min_upper(40).unwrap();
    pg.min_lower(20).unwrap();
    pg.min_digits(30).unwrap();
    pg.min_special(10).unwrap();

    let pw = pg.generate_password();
    assert_eq!(pw.chars().filter(|&c| c.is_ascii_uppercase()).count(), 40);
    assert_eq!(pw.chars().filter(|&c| c.is_ascii_lowercase()).count(), 20);
    assert_eq!(pw.chars().filter(|&c| c.is_ascii_digit()).count(), 30);
    assert_eq!(pw.chars().filter(|&c| SPECIAL.contains(c)).count(), 10);
}

#[test]
fn new_draws_length_from_default_range() {
    for _ in 0..50 {
        let pw = PasswordGenerator::new().generate_password();
        let n = pw.chars().count();
        assert!(n >= DEFAULT_MIN && n <= DEFAULT_MAX);
    }
}

#[test]
fn length_fourteen_has_every_category() {
    for _ in 0..50 {
        let mut pg = PasswordGenerator::new();
        pg.length(14).unwrap();
        let pw = pg.generate_password();
        assert_eq!(pw.chars().count(), 14);
        assert!(count_where(&pw, |c| c.is_ascii_uppercase()) >= 1);
        assert!(count_where(&pw, |c| c.is_ascii_lowercase()) >= 1);
        assert!(count_where(&pw, |c| c.is_ascii_digit()) >= 1);
        assert!(count_where(&pw, |c| SPECIAL.contains(c)) >= 1);
    }
}

#[test]
fn minimums_below_length_are_lower_bounds() {
    let mut pg = PasswordGenerator::new();
    pg.length(60).unwrap();
    pg.min_upper(5).unwrap();
    pg.min_lower(6).unwrap();
    pg.min_digits(7).unwrap();
    pg.min_special(8).unwrap();
    for _ in 0..20 {
        let pw = pg.generate_password();
        assert_eq!(pw.chars().count(), 60);
        assert!(count_where(&pw, |c| c.is_ascii_uppercase()) >= 5);
        assert!(count_where(&pw, |c| c.is_ascii_lowercase()) >= 6);
        assert!(count_where(&pw, |c| c.is_ascii_digit()) >= 7);
        assert!(count_where(&pw, |c| SPECIAL.contains(c)) >= 8);
    }
}

#[test]
fn generated_characters_come_from_the_alphabets() {
    let mut pg = PasswordGenerator::new();
    pg.length(200).unwrap();
    let pw = pg.generate_password();
    assert!(pw.chars().all(|c| (c.is_ascii_graphic() || c == ' ') && c != 'Y'));
}

#[test]
fn shuffle_spreads_the_minimum_characters() {
    let mut pg = PasswordGenerator::new();
    pg.length(100).unwrap();
    pg.min_upper(40).unwrap();
    pg.min_lower(20).unwrap();
    pg.min_digits(30).unwrap();
    pg.min_special(10).unwrap();
    let pw = pg.generate_password();
    let head: String = pw.chars().take(40).collect();
    assert!(!head.chars().all(|c| c.is_ascii_uppercase()));
}

#[test]
fn minimum_raises_length() {
    let mut pg = PasswordGenerator::new();
    pg.min_upper(30).unwrap();
    let pw = pg.generate_password();
    assert_eq!(pw.chars().count(), 33);
    assert!(count_where(&pw, |c| c.is_ascii_uppercase()) >= 30);
}

#[test]
fn zero_minimum_is_refused() {
    let mut pg = PasswordGenerator::new();
    assert_eq!(pg.min_upper(0), Err(ConfigError::ZeroMinimum));
    assert_eq!(pg.min_lower(0), Err(ConfigError::ZeroMinimum));
    assert_eq!(pg.min_digits(0), Err(ConfigError::ZeroMinimum));
    assert_eq!(pg.min_special(0), Err(ConfigError::ZeroMinimum));
}

#[test]
fn length_errors() {
    let mut pg = PasswordGenerator::new();
    assert_eq!(pg.length(ALLOWED_MIN - 1), Err(ConfigError::BelowFloor));
    pg.min_upper(10).unwrap();
    pg.min_lower(10).unwrap();
    assert_eq!(pg.length(19), Err(ConfigError::BelowMinimums));
    assert_eq!(pg.length(22), Ok(()));
    assert_eq!(pg.generate_password().chars().count(), 22);
}

#[test]
fn minimums_above_requested_length_are_refused() {
    let mut pg = PasswordGenerator::new();
    pg.length(14).unwrap();
    assert_eq!(pg.min_upper(40), Err(ConfigError::BelowMinimums));
    assert_eq!(pg.min_lower(40), Err(ConfigError::BelowMinimums));
    assert_eq!(pg.min_digits(40), Err(ConfigError::BelowMinimums));
    assert_eq!(pg.min_special(40), Err(ConfigError::BelowMinimums));
    assert_eq!(pg.min_upper(12), Err(ConfigError::BelowMinimums));
    assert_eq!(pg.min_upper(11), Ok(()));
    let pw = pg.generate_password();
    assert_eq!(pw.chars().count(), 14);
    assert!(count_where(&pw, |c| c.is_ascii_uppercase()) >= 11);
}

#[test]
fn including_above_requested_length_is_refused() {
    let mut pg = PasswordGenerator::new();
    pg.set_included(Category::Digit, false).unwrap();
    pg.min_digits(20).unwrap();
    pg.length(13).unwrap();
    assert_eq!(pg.set_included(Category::Digit, true), Err(ConfigError::BelowMinimums));
    assert_eq!(pg.generate_password().chars().count(), 13);
}

#[test]
fn unrequested_length_is_sum_of_minimums_above_default() {
    for _ in 0..50 {
        let mut pg = PasswordGenerator::new();
        pg.min_upper(18).unwrap();
        assert_eq!(pg.generate_password().chars().count(), 21);
    }
}

#[test]
fn minimums_overflowing_usize_are_refused() {
    let mut pg = PasswordGenerator::new();
    assert_eq!(pg.min_upper(usize::MAX), Err(ConfigError::TooLong));
    assert_eq!(pg.min_upper(usize::MAX - 3), Ok(()));
}

#[test]
fn excluded_category_is_absent() {
    let mut pg = PasswordGenerator::new();
    pg.length(80).unwrap();
    pg.set_included(Category::Special, false).unwrap();
    pg.set_included(Category::Digit, false).unwrap();
    let pw = pg.generate_password();
    assert_eq!(pw.chars().count(), 80);
    assert_eq!(count_where(&pw, |c| SPECIAL.contains(c)), 0);
    assert_eq!(count_where(&pw, |c| c.is_ascii_digit()), 0);
    assert!(count_where(&pw, |c| c.is_ascii_uppercase()) >= 1);
}

#[test]
fn excluding_every_category_is_refused() {
    let mut pg = PasswordGenerator::new();
    assert_eq!(pg.set_included(Category::Uppercase, false), Ok(()));
    assert_eq!(pg.set_included(Category::Lowercase, false), Ok(()));
    assert_eq!(pg.set_included(Category::Digit, false), Ok(()));
    assert_eq!(pg.set_included(Category::Special, false), Err(ConfigError::NoCategory));
    let pw = pg.generate_password();
    assert!(pw.chars().all(|c| SPECIAL.contains(c)));
}

fn rule(included: bool, min_count: usize) -> CategoryRule {
    CategoryRule { included, min_count }
}

#[test]
fn config_exact_minimums() {
    let config = GeneratorConfig {
        length: Some(100),
        uppercase: rule(true, 40),
        lowercase: rule(true, 20),
        digits: rule(true, 30),
        special: rule(true, 10),
    };
    let pg = PasswordGenerator::from_config(&config, DEFAULT_MIN).unwrap();
    let pw = pg.generate_password();
    assert_eq!(count_where(&pw, |c| c.is_ascii_uppercase()), 40);
    assert_eq!(count_where(&pw, |c| c.is_ascii_lowercase()), 20);
    assert_eq!(count_where(&pw, |c| c.is_ascii_digit()), 30);
    assert_eq!(count_where(&pw, |c| SPECIAL.contains(c)), 10);
}

#[test]
fn config_refusals() {
    let base = GeneratorConfig::new();
    let short = GeneratorConfig { length: Some(12), ..base };
    assert_eq!(PasswordGenerator::from_config(&short, 20).err(), Some(ConfigError::BelowFloor));
    let crowded = GeneratorConfig { length: Some(14), uppercase: rule(true, 10), lowercase: rule(true, 10), ..base };
    assert_eq!(PasswordGenerator::from_config(&crowded, 20).err(), Some(ConfigError::BelowMinimums));
    let none = GeneratorConfig {
        length: Some(20),
        uppercase: rule(false, 1),
        lowercase: rule(false, 1),
        digits: rule(false, 1),
        special: rule(false, 1),
    };
    assert_eq!(PasswordGenerator::build(&none).err(), Some(ConfigError::NoCategory));
    let zero = GeneratorConfig { digits: rule(true, 0), ..base };
    assert_eq!(PasswordGenerator::build(&zero).err(), Some(ConfigError::ZeroMinimum));
    let huge = GeneratorConfig { uppercase: rule(true, usize::MAX), ..base };
    assert_eq!(PasswordGenerator::build(&huge).err(), Some(ConfigError::TooLong));
}

#[test]
fn config_length_resolution() {
    let base = GeneratorConfig::new();
    let pg = PasswordGenerator::from_config(&base, 23).unwrap();
    assert_eq!(pg.generate_password().chars().count(), 23);
    let big = GeneratorConfig { uppercase: rule(true, 30), ..base };
    let pg = PasswordGenerator::build(&big).unwrap();
    assert_eq!(pg.generate_password().chars().count(), 33);
    let given = GeneratorConfig { length: Some(15), ..base };
    let pg = PasswordGenerator::build(&given).unwrap();
    assert_eq!(pg.generate_password().chars().count(), 15);
    let pg = PasswordGenerator::build(&base).unwrap();
    let n = pg.generate_password().chars().count();
    assert!(n >= DEFAULT_MIN && n <= DEFAULT_MAX);
}

#[test]
fn excluded_minimum_does_not_count() {
    let config = GeneratorConfig {
        length: Some(13),
        uppercase: rule(true, 13),
        lowercase: rule(false, 50),
        digits: rule(false, 0),
        special: rule(false, 7),
    };
    let pw = PasswordGenerator::from_config(&config, 20).unwrap().generate_password();
    assert_eq!(count_where(&pw, |c| c.is_ascii_uppercase()), 13);
}

#[test]
fn draws_vary() {
    let mut lengths = std::collections::HashSet::new();
    for _ in 0..200 {
        lengths.insert(PasswordGenerator::new().generate_password().chars().count());
    }
    assert!(lengths.len() > 1);
    let mut pg = PasswordGenerator::new();
    pg.length(200).unwrap();
    let pw = pg.generate_password();
    let distinct: std::collections::HashSet<char> = pw.chars().collect();
    assert!(distinct.len() > 10);
}
