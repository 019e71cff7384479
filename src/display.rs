use vstd::prelude::*;
use vstd::string::StrSliceExecFns;

use crate::constants::{MAX_GUESSES, WORD_LENGTH};
use crate::err::{message, AppError};
use crate::guess_processor::{
    ascii_upper_char, upper_char, FontColors, GuessColorMapping, LetterColorMapping,
};
use crate::text::{trim_str, trimmed};

verus! {

/// The command that `command` names: a single character once trimmed,
/// taken in upper case, and one of `valid`.
pub open spec fn command_of(command: Seq<char>, valid: Seq<char>) -> Option<char> {
    let t = trimmed(command);
    if t.len() == 1 && valid.contains(ascii_upper_char(t[0])) {
        Some(ascii_upper_char(t[0]))
    } else {
        None
    }
}

fn contains_char(cs: &Vec<char>, c: char) -> (r: bool)
    ensures
        r == cs@.contains(c),
{
    let mut k: usize = 0;
    while k < cs.len()
        invariant
            k <= cs@.len(),
            forall|i: int| 0 <= i < k ==> cs@[i] != c,
        decreases cs@.len() - k,
    {
        if cs[k] == c {
            assert(cs@[k as int] == c);
            return true;
        }
        k += 1;
    }
    false
}

/// Reads a one-letter command; letters are taken in upper case.
pub fn is_command_valid(command: &str, valid_commands: Vec<char>) -> (r: Result<char, String>)
    ensures
        match r {
            Ok(c) => command_of(command@, valid_commands@) == Some(c),
            Err(m) => command_of(command@, valid_commands@) is None && m@ == message(
                AppError::InvalidCommandErr,
                valid_commands@,
            ),
        },
{
    let t = trim_str(command);
    if t.unicode_len() != 1 {
        return Err(AppError::InvalidCommandErr.to_str(Some(&valid_commands)));
    }
    let c = upper_char(t.get_char(0));
    if !contains_char(&valid_commands, c) {
        return Err(AppError::InvalidCommandErr.to_str(Some(&valid_commands)));
    }
    Ok(c)
}

/// The letters `A` to `Z`.
pub open spec fn alphabet() -> Seq<char> {
    Seq::new(26, |i: int| (i + 'A' as int) as char)
}

/// A row of the board that no guess has filled yet.
pub open spec fn blank_row() -> Seq<LetterColorMapping> {
    Seq::new(WORD_LENGTH as nat, |i: int| (' ', FontColors::Gray))
}

/// `s` without the letters in `bad`, order kept.
pub open spec fn without(s: Seq<char>, bad: Seq<char>) -> Seq<char>
    decreases s.len(),
{
    if s.len() == 0 {
        s
    } else if bad.contains(s.last()) {
        without(s.drop_last(), bad)
    } else {
        without(s.drop_last(), bad).push(s.last())
    }
}

/// `invalid` after noting the `Gray` letters of the first `n` verdicts, in
/// upper case, each letter once.
pub open spec fn with_eliminated(invalid: Seq<char>, m: Seq<LetterColorMapping>, n: int) -> Seq<char>
    decreases n,
{
    if n <= 0 {
        invalid
    } else {
        let prev = with_eliminated(invalid, m, n - 1);
        let c = ascii_upper_char(m[n - 1].0);
        if m[n - 1].1 == FontColors::Gray && !prev.contains(c) {
            prev.push(c)
        } else {
            prev
        }
    }
}

fn copy_row(row: &GuessColorMapping) -> (r: GuessColorMapping)
    ensures
        r@ == row@,
{
    let mut r: GuessColorMapping = Vec::new();
    let mut k: usize = 0;
    while k < row.len()
        invariant
            k <= row@.len(),
            r@ == row@.take(k as int),
        decreases row@.len() - k,
    {
        r.push(row[k]);
        k += 1;
        assert(r@ =~= row@.take(k as int));
    }
    assert(r@ =~= row@);
    r
}

fn make_blank_row() -> (r: GuessColorMapping)
    ensures
        r@ == blank_row(),
{
    let mut r: GuessColorMapping = Vec::new();
    let mut k: usize = 0;
    while k < WORD_LENGTH
        invariant
            k <= WORD_LENGTH,
            r@ == blank_row().take(k as int),
        decreases WORD_LENGTH - k,
    {
        r.push((' ', FontColors::Gray));
        k += 1;
        assert(r@ =~= blank_row().take(k as int));
    }
    assert(r@ =~= blank_row());
    r
}

/// What the player sees besides the board's colours: the letters still
/// available, the letters ruled out, the latest guess and one row per guess.
pub struct Display {
    allowed_letters: Vec<char>,
    invalid_letters: Vec<char>,
    user_guess: GuessColorMapping,
    user_guess_arr: Vec<GuessColorMapping>,
}

impl Display {
    pub closed spec fn allowed(&self) -> Seq<char> {
        self.allowed_letters@
    }

    pub closed spec fn invalid(&self) -> Seq<char> {
        self.invalid_letters@
    }

    pub closed spec fn guess(&self) -> Seq<LetterColorMapping> {
        self.user_guess@
    }

    pub closed spec fn rows(&self) -> Seq<Seq<LetterColorMapping>> {
        self.user_guess_arr@.map_values(|r: GuessColorMapping| r@)
    }

    /// All letters available, none ruled out, every row blank.
    pub fn init() -> (r: Display)
        ensures
            r.allowed() == alphabet(),
            r.invalid() == Seq::<char>::empty(),
            r.guess() == blank_row(),
            r.rows() == Seq::new(MAX_GUESSES as nat, |i: int| blank_row()),
    {
        let mut allowed_letters: Vec<char> = Vec::new();
        let mut k: u8 = 0;
        while k < 26
            invariant
                k <= 26,
                allowed_letters@ == alphabet().take(k as int),
            decreases 26 - k,
        {
            allowed_letters.push((k + 65) as char);
            k += 1;
            assert(allowed_letters@ =~= alphabet().take(k as int));
        }
        assert(allowed_letters@ =~= alphabet());
        let mut user_guess_arr: Vec<GuessColorMapping> = Vec::new();
        let mut n: usize = 0;
        while n < MAX_GUESSES
            invariant
                n <= MAX_GUESSES,
                user_guess_arr@.len() == n,
                forall|i: int| 0 <= i < n ==> (#[trigger] user_guess_arr@[i])@ == blank_row(),
            decreases MAX_GUESSES - n,
        {
            let row = make_blank_row();
            user_guess_arr.push(row);
            n += 1;
        }
        assert(user_guess_arr@.map_values(|r: GuessColorMapping| r@) =~= Seq::new(MAX_GUESSES as nat, |i: int| blank_row()));
        let r = Display {
            allowed_letters,
            invalid_letters: Vec::new(),
            user_guess: make_blank_row(),
            user_guess_arr,
        };
        assert(r.invalid() =~= Seq::<char>::empty());
        r
    }

    pub fn get_allowed_letters(&self) -> (r: &Vec<char>)
        ensures
            r@ == self.allowed(),
    {
        &self.allowed_letters
    }

    pub fn get_invalid_letters(&self) -> (r: &Vec<char>)
        ensures
            r@ == self.invalid(),
    {
        &self.invalid_letters
    }

    /// Makes `user_guess` the latest guess.
    pub fn get_user_guess(&mut self, user_guess: GuessColorMapping)
        ensures
            final(self).guess() == user_guess@,
            final(self).allowed() == old(self).allowed(),
            final(self).invalid() == old(self).invalid(),
            final(self).rows() == old(self).rows(),
    {
        self.user_guess = user_guess;
    }

    pub fn get_user_guess_arr(&self) -> (r: &Vec<GuessColorMapping>)
        ensures
            r@.map_values(|r: GuessColorMapping| r@) == self.rows(),
    {
        &self.user_guess_arr
    }

    /// Drops the ruled-out letters from the available ones.
    pub fn update_allowed_letters(&mut self)
        ensures
            final(self).allowed() == without(old(self).allowed(), old(self).invalid()),
            final(self).invalid() == old(self).invalid(),
            final(self).guess() == old(self).guess(),
            final(self).rows() == old(self).rows(),
    {
        let ghost a = self.allowed_letters@;
        let mut kept: Vec<char> = Vec::new();
        let mut k: usize = 0;
        while k < self.allowed_letters.len()
            invariant
                k <= a.len(),
                a == self.allowed_letters@,
                kept@ == without(a.take(k as int), self.invalid_letters@),
            decreases a.len() - k,
        {
            let c = self.allowed_letters[k];
            assert(a.take(k as int + 1).drop_last() =~= a.take(k as int));
            if !contains_char(&self.invalid_letters, c) {
                kept.push(c);
            }
            k += 1;
        }
        assert(a.take(k as int) =~= a);
        self.allowed_letters = kept;
    }

    /// Rules out the letter `invalid`.
    pub fn update_invalid_letters(&mut self, invalid: char)
        ensures
            final(self).invalid() == old(self).invalid().push(invalid),
            final(self).allowed() == old(self).allowed(),
            final(self).guess() == old(self).guess(),
            final(self).rows() == old(self).rows(),
    {
        self.invalid_letters.push(invalid);
    }

    /// Rules out, in upper case, each letter that `gcm` scores `Gray` and
    /// that is not ruled out yet.
    pub fn update_eliminated_letters(&mut self, gcm: &GuessColorMapping)
        ensures
            final(self).invalid() == with_eliminated(old(self).invalid(), gcm@, gcm@.len() as int),
            final(self).allowed() == old(self).allowed(),
            final(self).guess() == old(self).guess(),
            final(self).rows() == old(self).rows(),
    {
        let mut k: usize = 0;
        while k < gcm.len()
            invariant
                k <= gcm@.len(),
                self.invalid() == with_eliminated(old(self).invalid(), gcm@, k as int),
                self.allowed() == old(self).allowed(),
                self.guess() == old(self).guess(),
                self.rows() == old(self).rows(),
            decreases gcm@.len() - k,
        {
            let (letter, color) = gcm[k];
            let c = upper_char(letter);
            if matches!(color, FontColors::Gray) && !contains_char(&self.invalid_letters, c) {
                self.update_invalid_letters(c);
            }
            k += 1;
        }
    }

    /// Copies the latest guess into row `guess_count`.
    pub fn update_user_guess_arr(&mut self, guess_count: usize)
        requires
            guess_count < old(self).rows().len(),
        ensures
            final(self).rows() == old(self).rows().update(guess_count as int, old(self).guess()),
            final(self).allowed() == old(self).allowed(),
            final(self).invalid() == old(self).invalid(),
            final(self).guess() == old(self).guess(),
    {
        let row = copy_row(&self.user_guess);
        let ghost before = self.user_guess_arr@;
        self.user_guess_arr.set(guess_count, row);
        assert(self.rows() =~= old(self).rows().update(guess_count as int, old(self).guess()));
    }
}

} // verus!
