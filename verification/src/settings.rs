//! The run configuration and the one fatal error of the search.

use vstd::prelude::*;

verus! {

/// The symbol that stands for an unknown letter: it matches any one character.
pub const WILDCARD: char = '_';

/// The letters to spend and the bounds on the shape of a solution.
pub struct Settings {
    /// The available symbols; a [`WILDCARD`] stands for any letter.
    pub letters: Vec<char>,
    pub minimum_number_of_words: u8,
    pub maximum_number_of_words: u8,
    pub minimum_word_length: u8,
    pub maximum_word_length: u8,
}

impl Settings {
    /// The bounds that the search can work with: a word has at least one
    /// letter, and the number of letters fits the type of a word length.
    pub open spec fn well_formed(&self) -> bool {
        &&& self.minimum_word_length >= 1
        &&& self.letters@.len() <= u8::MAX
    }

    /// Tests whether the search can work with these bounds.
    pub fn is_well_formed(&self) -> (ok: bool)
        ensures
            ok == self.well_formed(),
    {
        self.minimum_word_length >= 1 && self.letters.len() <= 255
    }
}

/// Why a run cannot produce any solution.
#[derive(Clone, Copy, Debug, PartialEq, Eq, Structural)]
pub enum ConfigError {
    /// No sequence of word lengths meets the four bounds.
    NoLengthPermutation,
    /// The word lengths can be met, but no choice of dictionary words spends
    /// the letters.
    NoAnagram,
}

/// The exit status of a misconfigured run.
pub open spec fn config_status() -> i32 {
    78
}

/// Reads the constant `exitcode::CONFIG`, which the crate defines as 78, the
/// status that sysexits.h gives to a misconfigured program.
#[verifier::external_body]
fn exitcode_config() -> (code: i32)
    ensures
        code == 78,
{
    exitcode::CONFIG
}

impl ConfigError {
    /// The status with which a process that met this error should exit.
    pub fn exit_code(&self) -> (code: i32)
        ensures
            code == config_status(),
    {
        exitcode_config()
    }

    /// The text of the message, as a spec value.
    pub open spec fn spec_message(&self) -> Seq<char> {
        match self {
            ConfigError::NoLengthPermutation =>
                "Unable to find any valid length permutations givin word size requirements."@,
            ConfigError::NoAnagram => "Unable to find any valid anagrams givin requirements."@,
        }
    }

    /// The message to show the user.
    pub fn message(&self) -> (text: String)
        ensures
            text@ == self.spec_message(),
    {
        match self {
            ConfigError::NoLengthPermutation => String::from_str(
                "Unable to find any valid length permutations givin word size requirements.",
            ),
            ConfigError::NoAnagram => String::from_str(
                "Unable to find any valid anagrams givin requirements.",
            ),
        }
    }
}

} // verus!
