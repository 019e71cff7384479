use wordle_clone::wordbank::WordBank;

const UNKNOWN_WORDS: &str = "aback\ncrass\nlinen\nvigor\nzonal\n";
const ALLOWED_WORDS: &str = "aback\nincel\nlonga\nroque\nzebra\nzymic\n";

#[test]
fn test_in_unknown_words() {
    let wordbank = WordBank::init(UNKNOWN_WORDS, ALLOWED_WORDS).unwrap();

    let correct_words: [&str; 5] = ["aback", "zonal", "vigor", "linen", "crass"];

    for word in correct_words {
        assert!(wordbank.in_unknown_words(word));
    }

    let incorrect_words: [&str; 5] = [" ", "", "he", "hell", "mowwasdasasd"];

    for word in incorrect_words {
        assert!(!wordbank.in_unknown_words(word));
    }
}

#[test]
fn test_in_allowed_words() {
    let wordbank = WordBank::init(UNKNOWN_WORDS, ALLOWED_WORDS).unwrap();

    let correct_words: [&str; 4] = ["zymic", "incel", "roque", "longa"];

    for word in correct_words {
        assert!(wordbank.in_allowed_words(word));
    }

    let incorrect_words: [&str; 5] = [" ", "", "he", "hell", "mowwasdasasd"];

    for word in incorrect_words {
        assert!(!wordbank.in_allowed_words(word));
    }
}

#[test]
fn lists_are_read_line_by_line() {
    let wordbank = WordBank::init("aback\r\ncrass\nlinen", "").unwrap();
    assert_eq!(
        wordbank.get_unknown_words(),
        &vec!["aback".to_string(), "crass".to_string(), "linen".to_string()]
    );
    assert!(wordbank.get_allowed_words().is_empty());
}

#[test]
fn every_loaded_word_is_found() {
    let wordbank = WordBank::init(UNKNOWN_WORDS, ALLOWED_WORDS).unwrap();
    for w in wordbank.get_unknown_words() {
        assert!(wordbank.in_unknown_words(w));
    }
    for w in wordbank.get_allowed_words() {
        assert!(wordbank.in_allowed_words(w));
    }
    for w in ["zzzzz", "abaca", "crasss", "Aback"] {
        assert!(!wordbank.in_unknown_words(w));
        assert!(!wordbank.in_allowed_words(w));
    }
}

#[test]
fn no_bank_without_secrets() {
    assert!(WordBank::init("", ALLOWED_WORDS).is_none());
    assert!(WordBank::init("vigor", "").is_some());
}

#[test]
fn lists_are_sorted_and_deduplicated() {
    let wordbank = WordBank::init("zonal\naback\nvigor\naback", "roque\nincel").unwrap();
    assert_eq!(
        wordbank.get_unknown_words(),
        &vec!["aback".to_string(), "vigor".to_string(), "zonal".to_string()]
    );
    assert_eq!(wordbank.get_allowed_words(), &vec!["incel".to_string(), "roque".to_string()]);
}

#[test]
fn unsorted_lists_are_still_searched() {
    let wordbank = WordBank::init("zonal\naback\nvigor\naback", "roque\nincel").unwrap();
    for w in ["zonal", "aback", "vigor"] {
        assert!(wordbank.in_unknown_words(w));
    }
    assert!(!wordbank.in_unknown_words("crass"));
    assert!(wordbank.in_allowed_words("incel"));
    assert!(wordbank.in_allowed_words("roque"));
    assert!(!wordbank.in_allowed_words("zebra"));
}

#[test]
fn random_word_is_a_candidate() {
    let wordbank = WordBank::init(UNKNOWN_WORDS, ALLOWED_WORDS).unwrap();
    for _ in 0..50 {
        let w = wordbank.get_random_word_in_unknown_words();
        assert!(wordbank.get_unknown_words().contains(&w));
    }
    let single = WordBank::init("vigor", "").unwrap();
    assert_eq!(single.get_random_word_in_unknown_words(), "vigor".to_string());
}
