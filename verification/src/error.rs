//! Errors reported by chord parsing and by the Markov model.

use vstd::prelude::*;
use vstd::string::StringExecFnsIsAscii;
use crate::chord::Chord;

verus! {

/// Every failure the library can report.
///
/// Parsing failures carry the offending fragment; model failures identify
/// which precondition of the probabilistic machinery was violated.
#[derive(Debug, Clone, PartialEq, Eq)]
pub enum Error {
    /// A chord string began with a character that names no note.
    InvalidNoteCharacter(char),
    /// A chord string was empty where a note was expected.
    InvalidNoteFormat,
    /// The quality part of a chord string was not recognised.
    InvalidChordQuality(String),
    /// The numeric part of a chord string was even (only odd chord numbers
    /// such as 7, 9, 11 name stacked-third chords).
    InvalidChordNumber(u8),
    /// The numeric part of a chord string was not a small decimal number.
    InvalidStringFormat,
    /// The training sequence was empty.
    InvalidInput,
    /// A queried chord never appeared in the training sequence.
    UnknownChord(Chord),
    /// A conditional query placed the right boundary at or before the
    /// position being generated.
    InvalidRange,
    /// The trained model assigns probability zero to reaching the right
    /// boundary from the left one in the requested number of steps.
    ZeroProbabilityPath,
    /// The model holds no chords at all.
    EmptyModel,
    /// Exact integer arithmetic on the transition matrix exceeded the range
    /// of a 64-bit machine word.
    Overflow,
}

/// Relies on `String::push`: appends exactly one character.
#[verifier::external_body]
fn push_char(s: &mut String, c: char)
    ensures
        final(s)@ == old(s)@.push(c),
{
    s.push(c);
}

impl Error {
    /// What `message` returns.
    pub open spec fn spec_message(&self) -> Seq<char> {
        match self {
            Error::InvalidNoteCharacter(c) => "Invalid note character: "@.push(*c),
            Error::InvalidNoteFormat => "Invalid note format"@,
            Error::InvalidChordQuality(q) => "Invalid chord quality: "@ + q@,
            Error::InvalidChordNumber(n) =>
                "Invalid chord number: "@ + crate::chord::spec_num_text(*n as int),
            Error::InvalidStringFormat => "Invalid string format"@,
            Error::InvalidInput => "Empty training sequence"@,
            Error::UnknownChord(c) =>
                "Chord "@ + c.spec_display() + " not appeared in training set."@,
            Error::InvalidRange =>
                "Right index is not greater than the index of chord being generated"@,
            Error::ZeroProbabilityPath =>
                "Transition probability to the right chord is zero"@,
            Error::EmptyModel => "No chords are stored in the generator!"@,
            Error::Overflow => "Exact transition arithmetic exceeded 64-bit range"@,
        }
    }

    /// The error, written out.
    pub fn message(&self) -> (r: String)
        requires
            self matches Error::UnknownChord(c) ==> c.note_num >= 1,
        ensures
            r@ == self.spec_message(),
    {
        match self {
            Error::InvalidNoteCharacter(c) => {
                let mut s = "Invalid note character: ".to_owned();
                push_char(&mut s, *c);
                s
            },
            Error::InvalidNoteFormat => "Invalid note format".to_owned(),
            Error::InvalidChordQuality(q) => {
                let mut s = "Invalid chord quality: ".to_owned();
                s.append(q.as_str());
                s
            },
            Error::InvalidChordNumber(n) => {
                let mut s = "Invalid chord number: ".to_owned();
                let num = crate::chord::num_text(*n as u32);
                s.append(num.as_str());
                s
            },
            Error::InvalidStringFormat => "Invalid string format".to_owned(),
            Error::InvalidInput => "Empty training sequence".to_owned(),
            Error::UnknownChord(c) => {
                let mut s = "Chord ".to_owned();
                let d = c.display_string();
                s.append(d.as_str());
                s.append(" not appeared in training set.");
                s
            },
            Error::InvalidRange =>
                "Right index is not greater than the index of chord being generated".to_owned(),
            Error::ZeroProbabilityPath =>
                "Transition probability to the right chord is zero".to_owned(),
            Error::EmptyModel => "No chords are stored in the generator!".to_owned(),
            Error::Overflow => "Exact transition arithmetic exceeded 64-bit range".to_owned(),
        }
    }
}

} // verus!
