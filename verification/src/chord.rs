//! Chords: a root note, a quality, and a number of stacked notes.

use vstd::prelude::*;
use vstd::string::{StrSliceExecFns, StringExecFnsIsAscii};
use crate::error::Error;
use crate::note::{consume_to_note, spec_consume_note, spec_note_value, Note};

verus! {

/// The quality of a chord: the interval pattern above its root.
#[derive(PartialEq, Eq, Structural, Debug, Clone, Copy)]
pub enum ChordQuality {
    Maj,
    Min,
    Dom,
    Aug,
    Dim,
    HalfDim,
}

impl ChordQuality {
    /// The pitches of this quality relative to the root, in semitones,
    /// for up to five stacked notes.
    pub fn relative_pitch(&self) -> (r: [Note; 5])
        ensures
            self is Maj ==> r@ == seq![0u8, 4u8, 7u8, 11u8, 14u8],
            self is Min ==> r@ == seq![0u8, 3u8, 7u8, 10u8, 14u8],
            self is Dom ==> r@ == seq![0u8, 4u8, 7u8, 10u8, 14u8],
            self is Aug ==> r@ == seq![0u8, 4u8, 8u8, 12u8, 16u8],
            self is Dim ==> r@ == seq![0u8, 3u8, 6u8, 9u8, 12u8],
            self is HalfDim ==> r@ == seq![0u8, 3u8, 6u8, 10u8, 14u8],
    {
        match self {
            ChordQuality::Maj => [0, 4, 7, 11, 14],
            ChordQuality::Min => [0, 3, 7, 10, 14],
            ChordQuality::Dom => [0, 4, 7, 10, 14],
            ChordQuality::Aug => [0, 4, 8, 12, 16],
            ChordQuality::Dim => [0, 3, 6, 9, 12],
            ChordQuality::HalfDim => [0, 3, 6, 10, 14],
        }
    }
}

/// Defines a chord. A chord is defined from:
/// - The root note.
/// - The quality of chord (major, minor, augmented, diminished, etc.).
/// - The number of notes in the chord.
///
/// The `Chord` struct does not support:
/// - Chords with additional notes, e.g. Cadd6.
/// - Chords with replaced notes, e.g. Csus2.
#[derive(PartialEq, Eq, Structural, Debug, Clone, Copy)]
pub struct Chord {
    pub root: Note,
    pub note_num: u8,
    pub quality: ChordQuality,
}

impl Chord {
    /// List all notes of the current chord in sequence. All notes are in
    /// modulo 12.
    pub fn notes(&self) -> (r: Vec<Note>)
        ensures
            r@.len() == if self.note_num < 5 { self.note_num as int } else { 5int },
            forall|i: int| 0 <= i < r@.len() ==>
                r@[i] == (self.root + self.quality.relative_pitch_spec()[i]) % 12,
    {
        let rel = self.quality.relative_pitch();
        let take = if self.note_num < 5 { self.note_num as usize } else { 5 };
        let mut r: Vec<Note> = Vec::new();
        let mut i: usize = 0;
        while i < take
            invariant
                take == if self.note_num < 5 { self.note_num as int } else { 5int },
                i <= take,
                rel@ == self.quality.relative_pitch_spec(),
                r@.len() == i,
                forall|k: int| 0 <= k < i ==>
                    r@[k] == (self.root + self.quality.relative_pitch_spec()[k]) % 12,
            decreases take - i,
        {
            let n = ((self.root as u16 + rel[i] as u16) % 12) as u8;
            assert(n == (self.root + self.quality.relative_pitch_spec()[i as int]) % 12);
            r.push(n);
            i += 1;
        }
        r
    }
}

impl ChordQuality {
    /// What `relative_pitch` returns, as a mathematical sequence.
    pub open spec fn relative_pitch_spec(&self) -> Seq<u8> {
        match self {
            ChordQuality::Maj => seq![0u8, 4u8, 7u8, 11u8, 14u8],
            ChordQuality::Min => seq![0u8, 3u8, 7u8, 10u8, 14u8],
            ChordQuality::Dom => seq![0u8, 4u8, 7u8, 10u8, 14u8],
            ChordQuality::Aug => seq![0u8, 4u8, 8u8, 12u8, 16u8],
            ChordQuality::Dim => seq![0u8, 3u8, 6u8, 9u8, 12u8],
            ChordQuality::HalfDim => seq![0u8, 3u8, 6u8, 10u8, 14u8],
        }
    }
}

/// A decimal digit.
pub open spec fn is_digit_spec(c: char) -> bool {
    48 <= c as u32 && c as u32 <= 57
}

/// The position of the first decimal digit, or the length if there is none.
pub open spec fn spec_split_index(s: Seq<char>) -> int
    decreases s.len(),
{
    if s.len() == 0 {
        0
    } else if is_digit_spec(s[0]) {
        0
    } else {
        1 + spec_split_index(s.skip(1))
    }
}

/// The split index is the unique position with no digit before it and a
/// digit (or the end) at it.
proof fn lemma_split_index_unique(s: Seq<char>, i: int)
    requires
        0 <= i <= s.len(),
        forall|t: int| 0 <= t < i ==> !is_digit_spec(#[trigger] s[t]),
        i < s.len() ==> is_digit_spec(s[i]),
    ensures
        spec_split_index(s) == i,
    decreases i,
{
    if i == 0 {
    } else {
        assert(!is_digit_spec(s[0]));
        assert forall|t: int| 0 <= t < i - 1 implies !is_digit_spec(#[trigger] s.skip(1)[t]) by {
            assert(s.skip(1)[t] == s[t + 1]);
        }
        if i - 1 < s.skip(1).len() {
            assert(s.skip(1)[i - 1] == s[i]);
        }
        lemma_split_index_unique(s.skip(1), i - 1);
    }
}

/// Every character is a decimal digit.
pub open spec fn spec_all_digits(s: Seq<char>) -> bool {
    forall|t: int| 0 <= t < s.len() ==> is_digit_spec(#[trigger] s[t])
}

/// The number written in decimal; meaningful when all characters are digits.
pub open spec fn spec_digits_val(s: Seq<char>) -> int
    decreases s.len(),
{
    if s.len() == 0 {
        0
    } else {
        spec_digits_val(s.drop_last()) * 10 + (s.last() as u32 - 48)
    }
}

/// Under all-digit input the value is non-negative and prefixes never
/// exceed the whole.
proof fn lemma_digits_mono(s: Seq<char>, k: int)
    requires
        spec_all_digits(s),
        0 <= k <= s.len(),
    ensures
        spec_digits_val(s.take(k)) >= 0,
        spec_digits_val(s.take(k)) <= spec_digits_val(s),
    decreases s.len() - k,
{
    if k == s.len() {
        assert(s.take(k) =~= s);
        lemma_digits_nonneg(s);
    } else {
        lemma_digits_mono(s, k + 1);
        assert(s.take(k + 1).drop_last() =~= s.take(k));
        lemma_digits_nonneg(s.take(k));
        assert(spec_digits_val(s.take(k + 1))
            == spec_digits_val(s.take(k)) * 10 + (s[k] as u32 - 48));
        assert(spec_digits_val(s.take(k)) * 10 >= spec_digits_val(s.take(k)))
            by (nonlinear_arith)
            requires spec_digits_val(s.take(k)) >= 0;
    }
}

proof fn lemma_digits_nonneg(s: Seq<char>)
    requires
        spec_all_digits(s),
    ensures
        spec_digits_val(s) >= 0,
    decreases s.len(),
{
    if s.len() > 0 {
        assert(spec_all_digits(s.drop_last()));
        lemma_digits_nonneg(s.drop_last());
        assert(spec_digits_val(s.drop_last()) * 10 >= 0) by (nonlinear_arith)
            requires spec_digits_val(s.drop_last()) >= 0;
        assert(is_digit_spec(s.last()));
    }
}

/// The chord quality a quality string names, if any.
pub open spec fn spec_quality_of(q: Seq<char>) -> Option<ChordQuality> {
    if q == "M"@ || q == "maj"@ {
        Some(ChordQuality::Maj)
    } else if q == "m"@ || q == "min"@ {
        Some(ChordQuality::Min)
    } else if q == "+"@ || q == "aug"@ {
        Some(ChordQuality::Aug)
    } else if q == "o"@ || q == "dim"@ {
        Some(ChordQuality::Dim)
    } else if q == "ø"@ {
        Some(ChordQuality::HalfDim)
    } else {
        None
    }
}

/// The default number of notes of a quality, when the chord string names
/// none: triads, except the four-note dominant and half-diminished chords.
pub open spec fn spec_default_note_num(q: ChordQuality) -> u8 {
    match q {
        ChordQuality::Maj | ChordQuality::Min | ChordQuality::Aug | ChordQuality::Dim => 3u8,
        ChordQuality::Dom | ChordQuality::HalfDim => 4u8,
    }
}

/// Whether the character at `i` is a decimal digit.
fn is_digit_at(s: &str, i: usize) -> (r: bool)
    requires
        i < s@.len(),
    ensures
        r == is_digit_spec(s@[i as int]),
{
    let c = s.get_char(i) as u32;
    48 <= c && c <= 57
}

/// String content equality.
fn str_content_eq(a: &str, b: &str) -> (r: bool)
    ensures
        r == (a@ == b@),
{
    let na = a.unicode_len();
    let nb = b.unicode_len();
    if na != nb {
        return false;
    }
    let mut i: usize = 0;
    while i < na
        invariant
            i <= na,
            na == a@.len(),
            na == b@.len(),
            forall|t: int| 0 <= t < i ==> a@[t] == b@[t],
        decreases na - i,
    {
        if a.get_char(i) != b.get_char(i) {
            return false;
        }
        i += 1;
    }
    proof {
        assert(a@ =~= b@);
    }
    true
}

impl Chord {
    /// Parse a chord from its written name: a note letter with an optional
    /// accidental, an optional quality, and an optional odd chord number.
    ///
    /// The contract walks the same grammar the body reads: each failure
    /// names the first offending fragment, and a parsed chord carries the
    /// note, quality, and note count the string spells.
    #[verifier::loop_isolation(false)]
    pub fn try_from(value: &str) -> (r: Result<Chord, Error>)
        ensures
            value@.len() == 0 ==> r == Err::<Chord, Error>(Error::InvalidNoteFormat),
            value@.len() > 0 && spec_note_value(value@[0]) < 0
                ==> r == Err::<Chord, Error>(Error::InvalidNoteCharacter(value@[0])),
            value@.len() > 0 && spec_note_value(value@[0]) >= 0 ==> ({
                let root = spec_consume_note(value@).0;
                let rest = value@.skip(spec_consume_note(value@).1);
                let sp = spec_split_index(rest);
                let q = rest.take(sp);
                let dq = rest.skip(sp);
                let quality = spec_quality_of(q);
                if quality is None && q.len() > 0 {
                    r is Err && (r->Err_0 matches Error::InvalidChordQuality(x) && x@ == q)
                } else if sp == rest.len() {
                    let qual = if quality is Some { quality->0 } else { ChordQuality::Maj };
                    r == Ok::<Chord, Error>(Chord {
                        root: root as u8,
                        note_num: spec_default_note_num(qual),
                        quality: qual,
                    })
                } else if !(spec_all_digits(dq) && spec_digits_val(dq) <= 255) {
                    r == Err::<Chord, Error>(Error::InvalidStringFormat)
                } else if spec_digits_val(dq) % 2 == 0 {
                    r == Err::<Chord, Error>(Error::InvalidChordNumber(
                        spec_digits_val(dq) as u8))
                } else {
                    let qual = if quality is Some { quality->0 } else { ChordQuality::Dom };
                    r == Ok::<Chord, Error>(Chord {
                        root: root as u8,
                        note_num: ((spec_digits_val(dq) + 1) / 2) as u8,
                        quality: qual,
                    })
                }
            }),
    {
        let (root_note, key, str_next) = match consume_to_note(value) {
            Ok(t) => t,
            Err(e) => {
                return Err(e);
            },
        };
        let cnt = str_next.unicode_len();

        // Find where the chord number starts, if anywhere.
        let mut sp: usize = 0;
        while sp < cnt && !is_digit_at(str_next, sp)
            invariant
                sp <= cnt,
                cnt == str_next@.len(),
                forall|t: int| 0 <= t < sp ==> !is_digit_spec(#[trigger] str_next@[t]),
            decreases cnt - sp,
        {
            sp += 1;
        }
        proof {
            lemma_split_index_unique(str_next@, sp as int);
        }

        // Determine the quality of chord. Optional because quality may not
        // be specified at this point.
        let quality_str = str_next.substring_char(0, sp);
        let quality: Option<ChordQuality> = if str_content_eq(quality_str, "M")
            || str_content_eq(quality_str, "maj") {
            Some(ChordQuality::Maj)
        } else if str_content_eq(quality_str, "m") || str_content_eq(quality_str, "min") {
            Some(ChordQuality::Min)
        } else if str_content_eq(quality_str, "+") || str_content_eq(quality_str, "aug") {
            Some(ChordQuality::Aug)
        } else if str_content_eq(quality_str, "o") || str_content_eq(quality_str, "dim") {
            Some(ChordQuality::Dim)
        } else if str_content_eq(quality_str, "ø") {
            Some(ChordQuality::HalfDim)
        } else if quality_str.unicode_len() == 0 {
            None
        } else {
            return Err(Error::InvalidChordQuality(quality_str.to_owned()));
        };

        // Determine the number of notes in the chord.
        if sp == cnt {
            // No number: the count depends on the quality alone.
            let quality_some = match quality {
                Some(q) => q,
                None => if key { ChordQuality::Maj } else { ChordQuality::Min },
            };
            let note_num: u8 = match quality_some {
                ChordQuality::Maj | ChordQuality::Min | ChordQuality::Aug
                    | ChordQuality::Dim => 3,
                ChordQuality::Dom | ChordQuality::HalfDim => 4,
            };
            Ok(Chord { root: root_note, note_num, quality: quality_some })
        } else {
            let digits = str_next.substring_char(sp, cnt);
            let ghost dq = str_next@.skip(sp as int);
            proof {
                assert(digits@ == dq);
            }
            let dn = digits.unicode_len();
            let mut acc: u32 = 0;
            let mut t: usize = 0;
            while t < dn
                invariant
                    t <= dn,
                    dn == dq.len(),
                    dq == digits@,
                    acc <= 255,
                    spec_all_digits(dq.take(t as int)),
                    acc as int == spec_digits_val(dq.take(t as int)),
                decreases dn - t,
            {
                let c = digits.get_char(t) as u32;
                proof {
                    assert(dq.take(t as int + 1).drop_last() =~= dq.take(t as int));
                    assert(dq.take(t as int + 1).last() == dq[t as int]);
                }
                if !(48 <= c && c <= 57) {
                    assert(!is_digit_spec(dq[t as int]));
                    return Err(Error::InvalidStringFormat);
                }
                let acc2 = acc * 10 + (c - 48);
                if acc2 > 255 {
                    proof {
                        if spec_all_digits(dq) {
                            lemma_digits_mono(dq, t as int + 1);
                        }
                    }
                    return Err(Error::InvalidStringFormat);
                }
                acc = acc2;
                t += 1;
            }
            proof {
                assert(dq.take(dn as int) =~= dq);
            }
            let chord_num = acc;
            if chord_num % 2 == 1 {
                let note_num = ((chord_num + 1) / 2) as u8;
                let quality_some = match quality {
                    Some(q) => q,
                    None => if key { ChordQuality::Dom } else { ChordQuality::Min },
                };
                Ok(Chord { root: root_note, note_num, quality: quality_some })
            } else {
                Err(Error::InvalidChordNumber(chord_num as u8))
            }
        }
    }
}

impl ChordQuality {
    /// What `quality_text` returns.
    pub open spec fn spec_quality_text(&self) -> Seq<char> {
        match self {
            ChordQuality::Maj => "M"@,
            ChordQuality::Min => "m"@,
            ChordQuality::Dom => "dom"@,
            ChordQuality::Aug => "aug"@,
            ChordQuality::Dim => "dim"@,
            ChordQuality::HalfDim => "ø"@,
        }
    }

    /// The written form of the quality.
    pub fn quality_text(&self) -> (r: &'static str)
        ensures
            r@ == self.spec_quality_text(),
    {
        match self {
            ChordQuality::Maj => "M",
            ChordQuality::Min => "m",
            ChordQuality::Dom => "dom",
            ChordQuality::Aug => "aug",
            ChordQuality::Dim => "dim",
            ChordQuality::HalfDim => "ø",
        }
    }
}

/// The character of one decimal digit.
pub open spec fn spec_digit_char(d: int) -> char {
    if d == 1 { '1' } else if d == 2 { '2' } else if d == 3 { '3' }
    else if d == 4 { '4' } else if d == 5 { '5' } else if d == 6 { '6' }
    else if d == 7 { '7' } else if d == 8 { '8' } else if d == 9 { '9' }
    else { '0' }
}

/// A number written in decimal.
pub open spec fn spec_num_text(x: int) -> Seq<char>
    decreases x,
{
    if x < 10 {
        seq![spec_digit_char(x)]
    } else {
        spec_num_text(x / 10).push(spec_digit_char(x % 10))
    }
}

/// One decimal digit as a string.
fn digit_str(d: u32) -> (r: &'static str)
    requires
        d < 10,
    ensures
        r@ == seq![spec_digit_char(d as int)],
{
    proof {
        reveal_strlit("0");
        reveal_strlit("1");
        reveal_strlit("2");
        reveal_strlit("3");
        reveal_strlit("4");
        reveal_strlit("5");
        reveal_strlit("6");
        reveal_strlit("7");
        reveal_strlit("8");
        reveal_strlit("9");
    }
    let r = match d {
        1 => "1",
        2 => "2",
        3 => "3",
        4 => "4",
        5 => "5",
        6 => "6",
        7 => "7",
        8 => "8",
        9 => "9",
        _ => "0",
    };
    proof {
        assert(r@ =~= seq![spec_digit_char(d as int)]);
    }
    r
}

/// A number below 1000 written in decimal.
pub fn num_text(x: u32) -> (r: String)
    requires
        x < 1000,
    ensures
        r@ == spec_num_text(x as int),
{
    if x < 10 {
        digit_str(x).to_owned()
    } else if x < 100 {
        let mut s = digit_str(x / 10).to_owned();
        s.append(digit_str(x % 10));
        proof {
            assert(x as int / 10 < 10);
            assert(spec_num_text(x as int)
                == spec_num_text(x as int / 10).push(spec_digit_char(x as int % 10)));
            assert(s@ =~= spec_num_text(x as int));
        }
        s
    } else {
        let mut s = digit_str(x / 100).to_owned();
        s.append(digit_str((x / 10) % 10));
        s.append(digit_str(x % 10));
        proof {
            assert((x as int / 10) / 10 == x as int / 100) by (nonlinear_arith);
            assert(spec_num_text(x as int)
                == spec_num_text(x as int / 10).push(spec_digit_char(x as int % 10)));
            assert(spec_num_text(x as int / 10)
                == spec_num_text(x as int / 100).push(spec_digit_char((x as int / 10) % 10)));
            assert(s@ =~= spec_num_text(x as int));
        }
        s
    }
}

impl Chord {
    /// The part written after each note name: the quality and the chord
    /// number, with the conventional omissions (plain major triads write
    /// nothing; dominant chords write only their number).
    pub open spec fn spec_suffix(&self) -> Seq<char> {
        if self.note_num == 3 {
            if self.quality == ChordQuality::Maj {
                Seq::empty()
            } else {
                self.quality.spec_quality_text()
            }
        } else {
            if self.quality == ChordQuality::Dom {
                spec_num_text(2 * (self.note_num as int) - 1)
            } else {
                self.quality.spec_quality_text() + spec_num_text(2 * (self.note_num as int) - 1)
            }
        }
    }

    /// The written chord: every enharmonic spelling of the root, each with
    /// the suffix, joined by `/`.
    pub open spec fn spec_display(&self) -> Seq<char> {
        spec_joined(crate::note::spec_note_names(self.root as int), self.spec_suffix())
    }

    /// The written form of the chord.
    pub fn display_string(&self) -> (r: String)
        requires
            self.note_num >= 1,
        ensures
            r@ == self.spec_display(),
    {
        let mut suffix = String::new();
        if self.note_num == 3 {
            if !(self.quality == ChordQuality::Maj) {
                suffix.append(self.quality.quality_text());
            }
        } else {
            let num = 2 * (self.note_num as u32) - 1;
            if !(self.quality == ChordQuality::Dom) {
                suffix.append(self.quality.quality_text());
            }
            let digits = num_text(num);
            suffix.append(digits.as_str());
        }
        proof {
            assert(suffix@ =~= self.spec_suffix());
        }
        let names = crate::note::note_string(self.root);
        let ghost gnames = crate::note::spec_note_names(self.root as int);
        let mut s = String::new();
        let mut i: usize = 0;
        proof {
            reveal_strlit("/");
        }
        while i < names.len()
            invariant
                i <= names@.len(),
                names@.map_values(|t: &str| t@) == gnames,
                gnames.len() == names@.len(),
                suffix@ == self.spec_suffix(),
                s@ == spec_joined(gnames.take(i as int), suffix@),
                "/"@ == seq!['/'],
            decreases names@.len() - i,
        {
            if i > 0 {
                s.append("/");
            }
            s.append(names[i]);
            s.append(suffix.as_str());
            proof {
                assert(names@.map_values(|t: &str| t@)[i as int] == names@[i as int]@);
                assert(gnames.take(i as int + 1).drop_last() =~= gnames.take(i as int));
                assert(gnames.take(i as int + 1).last() == gnames[i as int]);
                assert(s@ =~= spec_joined(gnames.take(i as int + 1), suffix@));
            }
            i += 1;
        }
        proof {
            assert(gnames.take(gnames.len() as int) =~= gnames);
        }
        s
    }
}

/// Each name followed by the suffix, the parts joined by `/`.
pub open spec fn spec_joined(names: Seq<Seq<char>>, suffix: Seq<char>) -> Seq<char>
    decreases names.len(),
{
    if names.len() == 0 {
        Seq::empty()
    } else if names.len() == 1 {
        names[0] + suffix
    } else {
        spec_joined(names.drop_last(), suffix) + seq!['/'] + names.last() + suffix
    }
}

impl Default for Chord {
    /// Default of `Chord` struct is an A major triad.
    fn default() -> (r: Self)
        ensures
            r == (Chord { root: 0u8, note_num: 3u8, quality: ChordQuality::Maj }),
    {
        Chord { root: 0, note_num: 3, quality: ChordQuality::Maj }
    }
}

} // verus!
