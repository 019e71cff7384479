use wordle_clone::constants::WORD_LENGTH;
use wordle_clone::guess_processor::{process_guess, FontColors, GuessColorMapping};

fn get_color_vec(gcm: &GuessColorMapping) -> Vec<FontColors> {
    gcm.iter().map(|tup| tup.1).collect()
}

fn same_words_all_green() {
    let guess: [&str; 5] = ["hello", "catch", "swear", "slick", "zebra"];
    let unknown_word: [&str; 5] = ["hello", "catch", "swear", "slick", "zebra"];

    for i in 0..guess.len() {
        let guess = guess[i].to_string();
        let unknown_word = unknown_word[i].to_string();

        let (gcm, ifwinner) = process_guess(&guess, &unknown_word);
        let color_vec = get_color_vec(&gcm);

        assert_eq!((vec![FontColors::Green; WORD_LENGTH], true), (color_vec, ifwinner));
        let letters: String = gcm.iter().map(|tup| tup.0).collect();
        assert_eq!(letters, guess.to_ascii_uppercase());
    }
}

fn tenet_against_catch() {
    let guess = "tenet".to_string();
    let unknown_word = "catch".to_string();

    let (gcm, ifwinner) = process_guess(&guess, &unknown_word);
    let color_vec = get_color_vec(&gcm);

    assert_eq!(
        (
            vec![
                FontColors::Blue,
                FontColors::Gray,
                FontColors::Gray,
                FontColors::Gray,
                FontColors::Gray,
            ],
            false
        ),
        (color_vec, ifwinner)
    );
}

fn shell_against_hello() {
    let guess = "shell".to_string();
    let unknown_word = "hello".to_string();

    let (gcm, ifwinner) = process_guess(&guess, &unknown_word);
    let color_vec = get_color_vec(&gcm);

    assert_eq!(
        (
            vec![
                FontColors::Gray,
                FontColors::Blue,
                FontColors::Blue,
                FontColors::Green,
                FontColors::Blue,
            ],
            false
        ),
        (color_vec, ifwinner)
    );
}

#[test]
fn guess_processor_test_process_guess1() {
    same_words_all_green();
}

#[test]
fn guess_processor_test_process_guess2() {
    tenet_against_catch();
}

#[test]
fn guess_processor_test_process_guess3() {
    shell_against_hello();
}

#[test]
fn user_input_test_process_guess1() {
    same_words_all_green();
}

#[test]
fn user_input_test_process_guess2() {
    tenet_against_catch();
}

#[test]
fn user_input_test_process_guess3() {
    shell_against_hello();
}

#[test]
fn letters_are_kept_in_order() {
    let (gcm, _) = process_guess("shell", "hello");
    let letters: Vec<char> = gcm.iter().map(|tup| tup.0).collect();
    assert_eq!(letters, vec!['S', 'H', 'E', 'L', 'L']);
}

#[test]
fn different_words_never_win() {
    let pairs = [("hello", "hellp"), ("abcde", "edcba"), ("aaaaa", "aaaab"), ("zebra", "zebrb")];
    for (g, s) in pairs {
        let (gcm, win) = process_guess(g, s);
        assert!(!win);
        assert!(gcm.iter().any(|tup| tup.1 != FontColors::Green));
    }
}

#[test]
fn exact_match_consumes_before_misplaced() {
    // The secret has one 'a', taken by the exact match at the end.
    let (gcm, win) = process_guess("aaxxa", "bcdea");
    assert_eq!(
        get_color_vec(&gcm),
        vec![
            FontColors::Gray,
            FontColors::Gray,
            FontColors::Gray,
            FontColors::Gray,
            FontColors::Green,
        ]
    );
    assert!(!win);
}

#[test]
fn repeated_letters_credited_left_to_right() {
    // Two 'e's in the secret, three in the guess: the two leftmost are Blue.
    let (gcm, _) = process_guess("eeeab", "xeyez");
    assert_eq!(
        get_color_vec(&gcm),
        vec![
            FontColors::Blue,
            FontColors::Green,
            FontColors::Gray,
            FontColors::Gray,
            FontColors::Gray,
        ]
    );
}

#[test]
fn letter_count_conserved() {
    let cases = [("eerie", "there"), ("tenet", "catch"), ("shell", "hello"), ("lolly", "hello"), ("aaaaa", "abaca")];
    for (g, s) in cases {
        let (gcm, _) = process_guess(g, s);
        for c in 'a'..='z' {
            let credited = g
                .chars()
                .zip(gcm.iter())
                .filter(|(x, tup)| *x == c && tup.1 != FontColors::Gray)
                .count();
            let in_secret = s.chars().filter(|x| *x == c).count();
            assert!(credited <= in_secret);
        }
    }
}
