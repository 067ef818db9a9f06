use std::iter::zip;

use shortener::abbrev::Abbreviator;
use shortener::shortener::Shortener;

fn build(rules: &str, max: usize) -> Shortener {
    let lines: Vec<String> = rules.split('\n').map(|s| s.to_string()).collect();
    let abbreviator = Abbreviator::from_lines(&lines).unwrap();
    Shortener::with_abbreviator(max, abbreviator)
}

#[test]
fn test_shorten() {
    let lines: Vec<String> = r#"
            Architecture              = arch
            Learning                  = learn
            Audience                  = audn
            Session                   = sesn
            Excellence                = excl
            Section                   = <+課
            Department                = <+部
            Weekly                    = 毎週
            Monthly                   = 毎月

            One = 1

            Meeeting =
            Rescheduled =
            [Monthly] = [M]
            [Weekly] = [W]
        "#
    .split('\n')
    .map(|s| s.to_string())
    .collect();
    let abbreviator = Abbreviator::from_lines(&lines).unwrap();
    let shortener = Shortener::with_abbreviator(10, abbreviator);

    let input = vec![
        "Architecture Section Learning Session",
        "*Rescheduled* [W] MPD Architecture Excellence Group Weekly Connect",
        "[Monthly] CLSD All Hands Meeting *Rescheduled*",
        "RIAM Tech Camp (Session one)",
    ];

    let expected = vec![
        "Arch課 Learn Sesn",
        "[W] MPD Arch Excl Group 毎週 Connect",
        "[M] CLSD All Hands Meeting",
        "RIAM Tech Camp (Sesn 1)",
    ];

    for (input, expected) in zip(input, expected) {
        let shortened = shortener.shorten(input);
        assert_eq!(shortened, expected);
    }
}

#[test]
fn identity_below_threshold() {
    let s = build("Architecture = arch", 20);
    assert_eq!(s.shorten("  Hello  World  "), "  Hello  World  ");
    assert_eq!(s.shorten(""), "");
    assert_eq!(s.shorten("Architecture?"), "Architecture?");
}

#[test]
fn trim_only_when_trimmed_fits() {
    let s = build("", 5);
    assert_eq!(s.shorten("   hello   "), "hello");
    assert_eq!(s.shorten("  ab c    "), "ab c");
}

#[test]
fn idempotent_on_short_output() {
    let s = build("Architecture = arch", 8);
    let once = s.shorten("Architecture Bee");
    assert_eq!(once, "Arch Bee");
    assert!(once.chars().count() <= 8);
    let twice = s.shorten(&once);
    assert_eq!(twice, once);
}

#[test]
fn whitespace_only_input_degrades_gracefully() {
    let s = build("", 0);
    assert_eq!(s.shorten("   "), "");
    assert_eq!(s.shorten("***"), "***");
}

#[test]
fn case_preservation_on_single_words() {
    let rules = "Weekly = 毎週\narchitecture = arch";
    let lines: Vec<String> = rules.split('\n').map(|s| s.to_string()).collect();
    let a = Abbreviator::from_lines(&lines).unwrap();

    assert_eq!(a.abbreviate("Weekly").unwrap().text, "毎週");
    assert_eq!(a.abbreviate("weekly").unwrap().text, "毎週");
    assert_eq!(a.abbreviate("WEEKLY").unwrap().text, "毎週");

    assert_eq!(a.abbreviate("Architecture").unwrap().text, "Arch");
    assert_eq!(a.abbreviate("architecture").unwrap().text, "arch");
    // An all-caps input begins with an uppercase letter, so it also gets
    // the title-case variant.
    assert_eq!(a.abbreviate("ARCHITECTURE").unwrap().text, "Arch");
}

#[test]
fn deletion_leaves_no_residue() {
    let s = build("Meeeting =", 9);
    assert_eq!(s.shorten("All Hands Meeeting"), "All Hands");
}

#[test]
fn attach_to_previous_concatenates_without_space() {
    let s = build("Architecture = arch\nSection = <+課", 10);
    assert_eq!(s.shorten("Architecture Section"), "Arch課");
    let lines: Vec<String> = vec!["Section = <+課".to_string()];
    let a = Abbreviator::from_lines(&lines).unwrap();
    let ab = a.abbreviate("Section").unwrap();
    assert_eq!(ab.text, "課");
    assert!(ab.attach_to_previous);
}

#[test]
fn enclosed_literal_match_then_inner_fallback() {
    let s = build("[Monthly] = [M]", 3);
    assert_eq!(s.shorten("[Monthly]"), "[M]");
    let s = build("Weekly = 毎週", 3);
    assert_eq!(s.shorten("[Weekly]"), "[毎週]");
}

#[test]
fn phrase_rule_preferred_over_single_words() {
    let s = build("One = 1\nSession = sesn", 6);
    assert_eq!(s.shorten("Session one"), "Sesn 1");
    let s = build("One = 1\nSession = sesn\nsession one = SO", 6);
    assert_eq!(s.shorten("Session one"), "SO");
}

#[test]
fn hyphens_and_whitespace_normalize_in_matchers_and_input() {
    let lines: Vec<String> = vec!["foo-bar = fb".to_string()];
    let a = Abbreviator::from_lines(&lines).unwrap();
    assert_eq!(a.abbreviate("Foo   Bar").unwrap().text, "Fb");
    assert_eq!(a.abbreviate("foo-bar").unwrap().text, "fb");
    assert_eq!(a.abbreviate("FOO-BAR").unwrap().text, "Fb");
}

#[test]
fn later_literal_rule_wins() {
    let lines: Vec<String> = vec!["One = 1".to_string(), "One = 2".to_string()];
    let a = Abbreviator::from_lines(&lines).unwrap();
    assert_eq!(a.abbreviate("one").unwrap().text, "2");

    let lines: Vec<String> = vec!["Foo =".to_string(), "Foo = f".to_string()];
    let a = Abbreviator::from_lines(&lines).unwrap();
    assert_eq!(a.abbreviate("foo").unwrap().text, "f");

    let lines: Vec<String> = vec!["Foo = f".to_string(), "Foo =".to_string()];
    let a = Abbreviator::from_lines(&lines).unwrap();
    let ab = a.abbreviate("foo").unwrap();
    assert_eq!(ab.text, "");
    assert!(ab.attach_to_previous);
}

#[test]
fn regex_rules_match_in_order_on_original_text() {
    let rules = "/^[0-9]+$/ = NUM\n/^abc$/i = q";
    let lines: Vec<String> = rules.split('\n').map(|s| s.to_string()).collect();
    let a = Abbreviator::from_lines(&lines).unwrap();
    assert_eq!(a.abbreviate("123").unwrap().text, "NUM");
    assert_eq!(a.abbreviate("abc").unwrap().text, "q");
    assert_eq!(a.abbreviate("ABC").unwrap().text, "Q");
    assert!(a.abbreviate("zzz").is_none());
}

#[test]
fn literal_match_shadows_regex() {
    let rules = "/^a.*$/ = rex\napple = app";
    let lines: Vec<String> = rules.split('\n').map(|s| s.to_string()).collect();
    let a = Abbreviator::from_lines(&lines).unwrap();
    assert_eq!(a.abbreviate("apple").unwrap().text, "app");
    assert_eq!(a.abbreviate("avocado").unwrap().text, "rex");
}

#[test]
fn empty_rules_match_nothing() {
    let lines: Vec<String> = Vec::new();
    let a = Abbreviator::from_lines(&lines).unwrap();
    assert!(a.abbreviate("anything").is_none());
    let s = Shortener::with_abbreviator(3, a);
    assert_eq!(s.shorten("Hello   World"), "Hello World");
}

#[test]
fn comments_and_blank_lines_are_skipped() {
    let rules = "\n   \n# One = 1\nTwo = 2";
    let lines: Vec<String> = rules.split('\n').map(|s| s.to_string()).collect();
    let a = Abbreviator::from_lines(&lines).unwrap();
    assert!(a.abbreviate("one").is_none());
    assert_eq!(a.abbreviate("two").unwrap().text, "2");
}

#[test]
fn missing_separator_is_reported() {
    let lines: Vec<String> = vec!["  no separator here  ".to_string()];
    let e = match Abbreviator::from_lines(&lines) {
        Err(e) => e,
        Ok(_) => panic!("expected a parse error"),
    };
    assert!(matches!(
        e,
        shortener::abbrev::ParseError::MissingSeparator { .. }
    ));
    assert_eq!(e.line().as_str(), "no separator here");
}

#[test]
fn unterminated_regex_is_reported() {
    let lines: Vec<String> = vec!["/abc = x".to_string()];
    let e = match Abbreviator::from_lines(&lines) {
        Err(e) => e,
        Ok(_) => panic!("expected a parse error"),
    };
    assert!(matches!(
        e,
        shortener::abbrev::ParseError::UnterminatedRegex { .. }
    ));
    assert_eq!(e.line().as_str(), "/abc = x");
}

#[test]
fn invalid_regex_is_reported() {
    let lines: Vec<String> = vec!["/[/ = x".to_string()];
    let e = match Abbreviator::from_lines(&lines) {
        Err(e) => e,
        Ok(_) => panic!("expected a parse error"),
    };
    assert!(matches!(
        e,
        shortener::abbrev::ParseError::InvalidRegex { .. }
    ));
    assert_eq!(e.line().as_str(), "/[/ = x");
}

#[test]
fn parse_failure_aborts_whole_rule_set() {
    let rules = "One = 1\nbroken line\nTwo = 2";
    let lines: Vec<String> = rules.split('\n').map(|s| s.to_string()).collect();
    assert!(Abbreviator::from_lines(&lines).is_err());
}

#[test]
fn unknown_regex_flags_are_ignored() {
    let lines: Vec<String> = vec!["/^abc$/xyz = q".to_string()];
    let a = Abbreviator::from_lines(&lines).unwrap();
    assert_eq!(a.abbreviate("abc").unwrap().text, "q");
    assert!(a.abbreviate("ABC").is_none());
}

#[test]
fn enclosed_word_peeling() {
    let word: Vec<char> = "([word])*".chars().collect();
    let e = shortener::shortener::process_enclosed_word(&word);
    assert!(e.is_enclosed());
    assert_eq!(e.openers.iter().collect::<String>(), "([");
    assert_eq!(e.word.iter().collect::<String>(), "word");
    assert_eq!(e.closers.iter().collect::<String>(), "])*");

    let plain: Vec<char> = "word".chars().collect();
    let e = shortener::shortener::process_enclosed_word(&plain);
    assert!(!e.is_enclosed());
    assert_eq!(e.word.iter().collect::<String>(), "word");

    let stars: Vec<char> = "*".chars().collect();
    let e = shortener::shortener::process_enclosed_word(&stars);
    assert!(e.is_enclosed());
    assert_eq!(e.openers.iter().collect::<String>(), "*");
    assert_eq!(e.word.iter().collect::<String>(), "");
    assert_eq!(e.closers.iter().collect::<String>(), "");
}

#[test]
fn end_to_end_example() {
    let s = build(
        "Architecture=arch\nLearning=learn\nSession=sesn\nSection=<+課",
        10,
    );
    assert_eq!(
        s.shorten("Architecture Section Learning Session"),
        "Arch課 Learn Sesn"
    );
}

#[test]
fn default_abbreviator_has_no_rules() {
    let a = Abbreviator::default();
    assert!(a.abbreviate("word").is_none());
    let s = Shortener::with_abbreviator(4, a);
    assert_eq!(s.shorten("one two"), "one two");
}
