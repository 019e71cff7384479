use vstd::prelude::*;
use vstd::string::StringExecFns;
use vstd::utf8::encode_utf8;

use crate::constants::WORD_LENGTH;
use crate::err::{message, AppError};
use crate::text::{chars_of, push_char, trim_str, trimmed};
use crate::wordbank::WordBank;

verus! {

pub open spec fn is_ascii_alpha(c: char) -> bool {
    ('a' <= c && c <= 'z') || ('A' <= c && c <= 'Z')
}

pub open spec fn all_ascii_alpha(s: Seq<char>) -> bool {
    forall|i: int| 0 <= i < s.len() ==> is_ascii_alpha(#[trigger] s[i])
}

pub open spec fn ascii_lower_char(c: char) -> char {
    if 'A' <= c && c <= 'Z' {
        (c as int + 32) as char
    } else {
        c
    }
}

pub open spec fn ascii_lower(s: Seq<char>) -> Seq<char> {
    s.map_values(|c: char| ascii_lower_char(c))
}

/// What is wrong with the trimmed guess `t`, if anything: its length in
/// UTF-8 bytes, a character that is not an ASCII letter, or a word that is
/// not an allowed guess once lowercased.
pub open spec fn guess_error(t: Seq<char>, allowed: Seq<Seq<char>>) -> Option<AppError> {
    if encode_utf8(t).len() as usize != WORD_LENGTH {
        Some(AppError::InvalidGuessLengthErr)
    } else if !all_ascii_alpha(t) {
        Some(AppError::NonAlphaGuessErr)
    } else if !allowed.contains(ascii_lower(t)) {
        Some(AppError::NotEnglishGuessErr)
    } else {
        None
    }
}

/// Whether every character of `string` is an ASCII letter.
pub fn each_char_is_alpha(string: &str) -> (r: bool)
    ensures
        r == all_ascii_alpha(string@),
{
    let cs = chars_of(string);
    let mut k: usize = 0;
    while k < cs.len()
        invariant
            k <= cs@.len(),
            cs@ == string@,
            forall|i: int| 0 <= i < k ==> is_ascii_alpha(#[trigger] cs@[i]),
        decreases cs@.len() - k,
    {
        let c = cs[k];
        if !(('a' <= c && c <= 'z') || ('A' <= c && c <= 'Z')) {
            assert(!is_ascii_alpha(string@[k as int]));
            return false;
        }
        k += 1;
    }
    true
}

fn lower_char(c: char) -> (r: char)
    requires
        is_ascii_alpha(c),
    ensures
        r == ascii_lower_char(c),
{
    if 'A' <= c && c <= 'Z' {
        ((c as u8) + 32) as char
    } else {
        c
    }
}

fn lowercase(s: &str) -> (r: String)
    requires
        all_ascii_alpha(s@),
    ensures
        r@ == ascii_lower(s@),
{
    let cs = chars_of(s);
    let mut r = String::new();
    let mut k: usize = 0;
    while k < cs.len()
        invariant
            k <= cs@.len(),
            cs@ == s@,
            all_ascii_alpha(s@),
            r@ == ascii_lower(s@).take(k as int),
        decreases cs@.len() - k,
    {
        push_char(&mut r, lower_char(cs[k]));
        k += 1;
        assert(r@ =~= ascii_lower(s@).take(k as int));
    }
    assert(r@ =~= ascii_lower(s@));
    r
}

/// Checks a typed guess. The guess is trimmed first; when it has the right
/// length and only ASCII letters it is lowercased, and it must then be an
/// allowed word. `guess` is left trimmed, and lowercased when that step was
/// reached.
pub fn is_guess_valid(guess: &mut String, wordbank: &WordBank) -> (r: Result<(), String>)
    requires
        wordbank.wf(),
    ensures
        ({
            let t = trimmed(old(guess)@);
            match guess_error(t, wordbank.allowed()) {
                None => r is Ok && final(guess)@ == ascii_lower(t),
                Some(e) => r matches Err(m) && m@ == message(e, Seq::empty()) && final(guess)@
                    == if e == AppError::NotEnglishGuessErr {
                    ascii_lower(t)
                } else {
                    t
                },
            }
        }),
{
    let ghost t = trimmed(guess@);
    let trimmed_guess = String::from_str(trim_str(guess.as_str()));
    *guess = trimmed_guess;
    let n_bytes = guess.as_str().len();
    if n_bytes != WORD_LENGTH {
        return Err(AppError::InvalidGuessLengthErr.to_str(None));
    }
    assert(guess@ == t);
    let ascii = guess.as_str().is_ascii();
    let alpha = each_char_is_alpha(guess.as_str());
    if !ascii || !alpha {
        proof {
            if alpha {
                assert forall|i: int| 0 <= i < t.len() implies '\0' <= #[trigger] t[i] <= '\u{7f}' by {
                    assert(is_ascii_alpha(t[i]));
                }
            }
        }
        return Err(AppError::NonAlphaGuessErr.to_str(None));
    }
    *guess = lowercase(guess.as_str());
    let allowed = wordbank.in_allowed_words(guess.as_str());
    assert(guess@ == ascii_lower(t));
    assert(guess_error(t, wordbank.allowed()) == if allowed {
        None
    } else {
        Some(AppError::NotEnglishGuessErr)
    });
    if !allowed {
        return Err(AppError::NotEnglishGuessErr.to_str(None));
    }
    Ok(())
}

} // verus!
