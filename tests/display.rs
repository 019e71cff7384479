use wordle_clone::display::is_command_valid;
use wordle_clone::err;
use wordle_clone::err::AppError;

#[test]
fn test_is_command_valid() {
    let command: [&str; 4] = ["p", "h", "P", "H"];

    for c in command {
        let c_as_char = c.chars().next().unwrap().to_ascii_uppercase();

        assert_eq!(Ok(c_as_char), is_command_valid(&c.to_string(), vec!['P', 'H']));
    }

    let command: [&str; 5] = ["asd", "a123d,", "@!#$", " ", "."];

    for c in command {
        assert_eq!(
            Err(AppError::InvalidCommandErr.to_str(Some(&vec!['P', 'H']))),
            is_command_valid(&c.to_string(), vec!['P', 'H'])
        );
    }
}

#[test]
fn command_is_trimmed() {
    assert_eq!(Ok('P'), is_command_valid("  p\n", vec!['P', 'H']));
    assert_eq!(Ok('H'), is_command_valid("\tH \r\n", vec!['P', 'H']));
}

#[test]
fn command_not_offered_is_rejected() {
    assert!(is_command_valid("h", vec!['P']).is_err());
    assert_eq!(Ok('P'), is_command_valid("p", vec!['P']));
}

#[test]
fn invalid_command_message() {
    assert_eq!(
        AppError::InvalidCommandErr.to_str(Some(&vec!['P', 'H'])),
        "\nInvalid command. Choose only from the following commands: ['P', 'H'].".to_string()
    );
    assert_eq!(
        AppError::InvalidCommandErr.to_str(Some(&vec!['P'])),
        "\nInvalid command. Choose only from the following commands: ['P'].".to_string()
    );
}

#[test]
fn invalid_command_message_escapes_commands() {
    let commands = vec!['\n', '\'', '\\', 'P'];
    assert_eq!(
        AppError::InvalidCommandErr.to_str(Some(&commands)),
        format!("\nInvalid command. Choose only from the following commands: {:?}.", commands)
    );
    assert_eq!(
        AppError::InvalidCommandErr.to_str(Some(&vec!['\t'])),
        "\nInvalid command. Choose only from the following commands: ['\\t'].".to_string()
    );
}

#[test]
fn invalid_command_message_wraps_the_list() {
    assert_eq!(
        err::invalid_command_message("[x]"),
        "\nInvalid command. Choose only from the following commands: [x].".to_string()
    );
}

#[test]
fn guess_error_messages() {
    assert_eq!(
        AppError::InvalidGuessLengthErr.to_str(None),
        "The guessed word must have 5 characters only.\n".to_string()
    );
    assert_eq!(
        AppError::NonAlphaGuessErr.to_str(None),
        "The guessed word must contain alphabetical characters only.\n".to_string()
    );
    assert_eq!(
        AppError::NotEnglishGuessErr.to_str(None),
        "The guessed word is not a valid English word.\n".to_string()
    );
}

use wordle_clone::constants::{MAX_GUESSES, WORD_LENGTH};
use wordle_clone::display::Display;
use wordle_clone::guess_processor::{process_guess, FontColors};

#[test]
fn display_starts_blank() {
    let display = Display::init();
    let letters: Vec<char> = ('A'..='Z').collect();
    assert_eq!(display.get_allowed_letters(), &letters);
    assert!(display.get_invalid_letters().is_empty());
    let rows = display.get_user_guess_arr();
    assert_eq!(rows.len(), MAX_GUESSES);
    for row in rows {
        assert_eq!(row, &vec![(' ', FontColors::Gray); WORD_LENGTH]);
    }
}

#[test]
fn gray_letters_are_ruled_out_once() {
    let mut display = Display::init();
    let (gcm, _) = process_guess("tenet", "catch");
    display.update_eliminated_letters(&gcm);
    assert_eq!(display.get_invalid_letters(), &vec!['E', 'N', 'T']);
    display.update_allowed_letters();
    let expected: Vec<char> = ('A'..='Z').filter(|c| !"ENT".contains(*c)).collect();
    assert_eq!(display.get_allowed_letters(), &expected);

    let (gcm, _) = process_guess("shell", "hello");
    display.update_eliminated_letters(&gcm);
    assert_eq!(display.get_invalid_letters(), &vec!['E', 'N', 'T', 'S']);
}

#[test]
fn guess_goes_into_its_row() {
    let mut display = Display::init();
    let (gcm, _) = process_guess("shell", "hello");
    display.get_user_guess(gcm.clone());
    display.update_user_guess_arr(1);
    let rows = display.get_user_guess_arr();
    assert_eq!(rows[1], gcm);
    assert_eq!(rows[0], vec![(' ', FontColors::Gray); WORD_LENGTH]);
    display.update_invalid_letters('Q');
    assert_eq!(display.get_invalid_letters(), &vec!['Q']);
}
