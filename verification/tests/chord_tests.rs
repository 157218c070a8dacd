use chordgen::chord::{Chord, ChordQuality};
use chordgen::note::note_string;
use chordgen::Error;

#[test]
fn test_from_string() {
    let c1 = Chord::try_from("C").unwrap();
    assert_eq!(c1.note_num, 3);
    assert_eq!(c1.root, 3);
    assert_eq!(c1.quality, ChordQuality::Maj);
    let c2 = Chord::try_from("Dm").unwrap();
    assert_eq!(c2.note_num, 3);
    assert_eq!(c2.root, 5);
    assert_eq!(c2.quality, ChordQuality::Min);
    let c3 = Chord::try_from("G7").unwrap();
    assert_eq!(c3.note_num, 4);
    assert_eq!(c3.root, 10);
    assert_eq!(c3.quality, ChordQuality::Dom);
    let c4 = Chord::try_from("A#dim").unwrap();
    assert_eq!(c4.note_num, 3);
    assert_eq!(c4.root, 1);
    assert_eq!(c4.quality, ChordQuality::Dim);
    let c5 = Chord::try_from("AM7").unwrap();
    assert_eq!(c5.note_num, 4);
    assert_eq!(c5.root, 0);
    assert_eq!(c5.quality, ChordQuality::Maj);
}

#[test]
fn test_from_string_err() {
    let c1 = Chord::try_from("H");
    assert_eq!(c1.unwrap_err().message(), "Invalid note character: H");
    let c2 = Chord::try_from("Csus2");
    assert_eq!(c2.unwrap_err().message(), "Invalid chord quality: sus");
    let c3 = Chord::try_from("C#6");
    assert_eq!(c3.unwrap_err().message(), "Invalid chord number: 6");
}

#[test]
fn test_notes() {
    let c_maj = Chord::try_from("C").unwrap();
    assert_eq!(c_maj.notes(), [3, 7, 10]);
    let c_maj_7 = Chord::try_from("CM7").unwrap();
    assert_eq!(c_maj_7.notes(), [3, 7, 10, 2]);
    let c_min = Chord::try_from("Cm").unwrap();
    assert_eq!(c_min.notes(), [3, 6, 10]);
    let c_min_7 = Chord::try_from("Cm7").unwrap();
    assert_eq!(c_min_7.notes(), [3, 6, 10, 1]);
    let c_dom_7 = Chord::try_from("C7").unwrap();
    assert_eq!(c_dom_7.notes(), [3, 7, 10, 1]);
    let c_aug = Chord::try_from("Caug").unwrap();
    assert_eq!(c_aug.notes(), [3, 7, 11]);
}

#[test]
fn test_display() {
    let c_maj = Chord::try_from("C").unwrap();
    assert_eq!(c_maj.display_string(), "C");
    let c_min = Chord::try_from("Cm").unwrap();
    assert_eq!(c_min.display_string(), "Cm");
    let c_maj_7 = Chord::try_from("CM7").unwrap();
    assert_eq!(c_maj_7.display_string(), "CM7");
    let c_min_7 = Chord::try_from("Cm7").unwrap();
    assert_eq!(c_min_7.display_string(), "Cm7");
    let c_dom_7 = Chord::try_from("C7").unwrap();
    assert_eq!(c_dom_7.display_string(), "C7");
}

#[test]
fn test_display_enharmonic() {
    let c = Chord::try_from("A#dim").unwrap();
    assert_eq!(c.display_string(), "A#dim/Bbdim");
}

#[test]
fn test_accidentals() {
    let sharp = Chord::try_from("C#").unwrap();
    assert_eq!(sharp.root, 4);
    let flat = Chord::try_from("Db").unwrap();
    assert_eq!(flat.root, 4);
    let natural = Chord::try_from("G").unwrap();
    assert_eq!(natural.root, 10);
}

#[test]
fn test_note_string_names() {
    assert_eq!(note_string(0), ["A"]);
    assert_eq!(note_string(1), ["A#", "Bb"]);
    assert_eq!(note_string(3), ["C"]);
    assert_eq!(note_string(12), ["A"]);
}

#[test]
fn test_parse_error_variants() {
    assert_eq!(Chord::try_from(""), Err(Error::InvalidNoteFormat));
    assert_eq!(Chord::try_from("H"), Err(Error::InvalidNoteCharacter('H')));
    assert_eq!(
        Chord::try_from("Csus2"),
        Err(Error::InvalidChordQuality("sus".to_string()))
    );
    assert_eq!(Chord::try_from("C#6"), Err(Error::InvalidChordNumber(6)));
    assert_eq!(Chord::try_from("C7x"), Err(Error::InvalidStringFormat));
    assert_eq!(Chord::try_from("C999"), Err(Error::InvalidStringFormat));
}
