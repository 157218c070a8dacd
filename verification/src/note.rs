//! Notes as pitch classes, and their display names.

use vstd::prelude::*;
use vstd::string::StrSliceExecFns;
use crate::error::Error;

verus! {

/// A note, counted in semitones from 'A'.  Values are used modulo 12.
pub type Note = u8;

/// The pitch of a note letter, or `-1` for a character that names no note.
pub open spec fn spec_note_value(c: char) -> int {
    if c == 'A' {
        0
    } else if c == 'B' {
        2
    } else if c == 'C' {
        3
    } else if c == 'D' {
        5
    } else if c == 'E' {
        7
    } else if c == 'F' {
        8
    } else if c == 'G' {
        10
    } else {
        -1
    }
}

/// The note named by the head of `s` (a letter, possibly followed by an
/// accidental), and how many characters it takes.  Meaningful only when `s`
/// starts with a valid note letter.
pub open spec fn spec_consume_note(s: Seq<char>) -> (int, int) {
    let base = spec_note_value(s[0]);
    if s.len() >= 2 && (s[1] == '#' || s[1] == '♯') {
        (base + 1, 2)
    } else if s.len() >= 2 && (s[1] == 'b' || s[1] == '♭') {
        ((base + 11) % 12, 2)
    } else if s.len() >= 2 && s[1] == '♮' {
        (base, 2)
    } else {
        (base, 1)
    }
}

/// Read a note from a string slice. Returns the note number, key
/// (major = true, minor = false), and the position just after the note.
pub fn consume_to_note(s: &str) -> (r: Result<(Note, bool, &str), Error>)
    ensures
        s@.len() == 0 ==> r == Err::<(Note, bool, &str), Error>(Error::InvalidNoteFormat),
        s@.len() > 0 && spec_note_value(s@[0]) < 0
            ==> r == Err::<(Note, bool, &str), Error>(Error::InvalidNoteCharacter(s@[0])),
        s@.len() > 0 && spec_note_value(s@[0]) >= 0 ==> r is Ok,
        r is Ok ==> ({
            let (note, key, rest) = r->Ok_0;
            &&& note as int == spec_consume_note(s@).0
            &&& key == true
            &&& rest@ == s@.skip(spec_consume_note(s@).1)
        }),
{
    let n = s.unicode_len();
    if n == 0 {
        return Err(Error::InvalidNoteFormat);
    }
    let head = s.get_char(0);
    let base: u8 = match head {
        'A' => 0,
        'B' => 2,
        'C' => 3,
        'D' => 5,
        'E' => 7,
        'F' => 8,
        'G' => 10,
        _ => {
            return Err(Error::InvalidNoteCharacter(head));
        },
    };
    let (note, idx): (u8, usize) = if n >= 2 {
        let acc = s.get_char(1);
        if acc == '#' || acc == '♯' {
            (base + 1, 2)
        } else if acc == 'b' || acc == '♭' {
            ((base + 11) % 12, 2)
        } else if acc == '♮' {
            (base, 2)
        } else {
            (base, 1)
        }
    } else {
        (base, 1)
    };
    let rest = s.substring_char(idx, n);
    assert(rest@ == s@.skip(spec_consume_note(s@).1));
    Ok((note, true, rest))
}

/// All names of a pitch class, enharmonic spellings included.
///
/// A natural note has one name; the notes between naturals are named both
/// with a sharp and with a flat.
pub fn note_string(note: Note) -> (r: Vec<&'static str>)
    ensures
        r@.map_values(|t: &str| t@) == spec_note_names(note as int),
{
    let r = match note % 12 {
        0 => vec!["A"],
        1 => vec!["A#", "Bb"],
        2 => vec!["B"],
        3 => vec!["C"],
        4 => vec!["C#", "Db"],
        5 => vec!["D"],
        6 => vec!["D#", "Eb"],
        7 => vec!["E"],
        8 => vec!["F"],
        9 => vec!["F#", "Gb"],
        10 => vec!["G"],
        11 => vec!["G#", "Ab"],
        _ => vec![],
    };
    proof {
        assert(r@.map_values(|t: &str| t@) =~= spec_note_names(note as int));
    }
    r
}

/// What `note_string` returns, as mathematical sequences.
pub open spec fn spec_note_names(note: int) -> Seq<Seq<char>> {
    let m = note % 12;
    if m == 0 {
        seq!["A"@]
    } else if m == 1 {
        seq!["A#"@, "Bb"@]
    } else if m == 2 {
        seq!["B"@]
    } else if m == 3 {
        seq!["C"@]
    } else if m == 4 {
        seq!["C#"@, "Db"@]
    } else if m == 5 {
        seq!["D"@]
    } else if m == 6 {
        seq!["D#"@, "Eb"@]
    } else if m == 7 {
        seq!["E"@]
    } else if m == 8 {
        seq!["F"@]
    } else if m == 9 {
        seq!["F#"@, "Gb"@]
    } else if m == 10 {
        seq!["G"@]
    } else {
        seq!["G#"@, "Ab"@]
    }
}

} // verus!
