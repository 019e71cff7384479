use vstd::prelude::*;
use vstd::string::StringExecFns;

use crate::text::push_char;

verus! {

/// User-visible errors.
#[derive(PartialEq, Eq, Structural, Clone, Copy, Debug)]
pub enum AppError {
    InvalidCommandErr,
    InvalidGuessLengthErr,
    NonAlphaGuessErr,
    NotEnglishGuessErr,
}

/// What `{:?}` writes for a list of characters: each one quoted and escaped
/// as `char`'s `Debug` does, separated by `, `, in brackets.
pub uninterp spec fn chars_debug(cs: Seq<char>) -> Seq<char>;

/// Relies on the `Debug` impl of `Vec<char>`: its text depends on the
/// characters alone.
#[verifier::external_body]
fn debug_list(cs: &Vec<char>) -> (r: String)
    ensures
        r@ == chars_debug(cs@),
{
    format!("{:?}", cs)
}

/// The invalid command message around the rendered list of commands.
pub open spec fn invalid_command_text(list: Seq<char>) -> Seq<char> {
    "\nInvalid command. Choose only from the following commands: "@ + list + "."@
}

/// The invalid command message for the already rendered `list`.
pub fn invalid_command_message(list: &str) -> (r: String)
    ensures
        r@ == invalid_command_text(list@),
{
    let mut r = String::from_str("\nInvalid command. Choose only from the following commands: ");
    r.append(list);
    push_char(&mut r, '.');
    proof {
        reveal_strlit(".");
    }
    assert(r@ =~= invalid_command_text(list@));
    r
}

/// The message shown for `e`; `cs` are the valid commands.
pub open spec fn message(e: AppError, cs: Seq<char>) -> Seq<char> {
    match e {
        AppError::InvalidCommandErr => invalid_command_text(chars_debug(cs)),
        AppError::InvalidGuessLengthErr => "The guessed word must have 5 characters only.\n"@,
        AppError::NonAlphaGuessErr => "The guessed word must contain alphabetical characters only.\n"@,
        AppError::NotEnglishGuessErr => "The guessed word is not a valid English word.\n"@,
    }
}

impl AppError {
    /// The message for this error; `valid_commands` fills in the list of
    /// commands that an invalid command message names.
    pub fn to_str(&self, valid_commands: Option<&Vec<char>>) -> (r: String)
        requires
            *self == AppError::InvalidCommandErr ==> valid_commands is Some,
        ensures
            r@ == message(
                *self,
                match valid_commands {
                    Some(cs) => cs@,
                    None => Seq::empty(),
                },
            ),
    {
        match self {
            AppError::InvalidCommandErr => {
                let list = debug_list(valid_commands.unwrap());
                invalid_command_message(list.as_str())
            },
            AppError::InvalidGuessLengthErr => String::from_str(
                "The guessed word must have 5 characters only.\n",
            ),
            AppError::NonAlphaGuessErr => String::from_str(
                "The guessed word must contain alphabetical characters only.\n",
            ),
            AppError::NotEnglishGuessErr => String::from_str(
                "The guessed word is not a valid English word.\n",
            ),
        }
    }
}

} // verus!
