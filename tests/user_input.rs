use wordle_clone::err::AppError;
use wordle_clone::user_input::{each_char_is_alpha, is_guess_valid};
use wordle_clone::wordbank::WordBank;

const UNKNOWN_WORDS: &str = "aback\ncrass\nlinen\nvigor\nzonal\n";
const ALLOWED_WORDS: &str = "aback\nincel\nlonga\nroque\nzebra\nzymic\n";

fn check_guesses() {
    let wordbank = WordBank::init(UNKNOWN_WORDS, ALLOWED_WORDS).unwrap();
    let guess: [&str; 5] = ["longest", "absc5", "!@#$%", "zebrt", "zebra"];

    for (i, word) in guess.iter().enumerate() {
        assert_eq!(
            match i {
                0 => Err(AppError::InvalidGuessLengthErr.to_str(None)),
                1 | 2 => Err(AppError::NonAlphaGuessErr.to_str(None)),
                3 => Err(AppError::NotEnglishGuessErr.to_str(None)),
                4 => Ok(()),
                _ => panic!("Should not reach here!"),
            },
            is_guess_valid(&mut word.to_string(), &wordbank)
        );
    }
}

fn check_alpha() {
    let valid_strings: [&str; 5] = ["hello", "HELLO", "HeLlo", "QWERTYPOIQWE", "ZXCVCSsefcxbDSF"];

    for string in valid_strings {
        assert!(each_char_is_alpha(string));
    }

    let invalid_strings: [&str; 5] = ["123456", "juo768!", "asd sdgf ewr", "    ", "!@#$%^&*("];

    for string in invalid_strings {
        assert!(!each_char_is_alpha(string));
    }
}

#[test]
fn user_guess_test_is_guess_valid() {
    check_guesses();
}

#[test]
fn user_input_test_is_guess_valid() {
    check_guesses();
}

#[test]
fn user_guess_test_each_char_is_alpha() {
    check_alpha();
}

#[test]
fn user_input_test_each_char_is_alpha() {
    check_alpha();
}

#[test]
fn guess_is_trimmed_and_lowercased() {
    let wordbank = WordBank::init(UNKNOWN_WORDS, ALLOWED_WORDS).unwrap();
    let mut guess = "  ZeBrA\n".to_string();
    assert_eq!(Ok(()), is_guess_valid(&mut guess, &wordbank));
    assert_eq!(guess, "zebra".to_string());

    let mut guess = " Zebrt ".to_string();
    assert_eq!(Err(AppError::NotEnglishGuessErr.to_str(None)), is_guess_valid(&mut guess, &wordbank));
    assert_eq!(guess, "zebrt".to_string());

    let mut guess = " ab1de\n".to_string();
    assert_eq!(Err(AppError::NonAlphaGuessErr.to_str(None)), is_guess_valid(&mut guess, &wordbank));
    assert_eq!(guess, "ab1de".to_string());
}

#[test]
fn guess_length_counts_bytes() {
    let wordbank = WordBank::init(UNKNOWN_WORDS, ALLOWED_WORDS).unwrap();
    // Four characters, five bytes: the length passes, the letters do not.
    let mut guess = "zébr".to_string();
    assert_eq!(Err(AppError::NonAlphaGuessErr.to_str(None)), is_guess_valid(&mut guess, &wordbank));
    // Five characters, six bytes.
    let mut guess = "zébra".to_string();
    assert_eq!(Err(AppError::InvalidGuessLengthErr.to_str(None)), is_guess_valid(&mut guess, &wordbank));
    let mut guess = "".to_string();
    assert_eq!(Err(AppError::InvalidGuessLengthErr.to_str(None)), is_guess_valid(&mut guess, &wordbank));
}

#[test]
fn empty_string_is_all_alpha() {
    assert!(each_char_is_alpha(""));
}
