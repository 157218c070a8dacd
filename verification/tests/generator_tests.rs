use chordgen::chord::Chord;
use chordgen::generator::ChordGenerator;
use chordgen::Error;
use rand::SeedableRng;
use rand::rngs::StdRng;

fn chords(names: &[&str]) -> Vec<Chord> {
    names.iter().map(|s| Chord::try_from(*s).unwrap()).collect()
}

#[test]
fn test_init() {
    let chord_seq1 = chords(&["C", "G", "Am", "F"]);
    let cg1 = ChordGenerator::new(&chord_seq1).unwrap();
    assert_eq!(cg1.map_forward, chord_seq1);
    assert_eq!(
        cg1.transit.entry(2, 1) as f32 / cg1.scale as f32,
        1.0
    );
    assert_eq!(
        cg1.transit.entry(0, 3) as f32 / cg1.scale as f32,
        1.0
    );

    let chord_seq2 = chords(&["C", "G", "Am", "Em", "F", "C", "F", "G"]);
    let cg2 = ChordGenerator::new(&chord_seq2).unwrap();
    assert_eq!(
        cg2.transit.entry(0, 4) as f32 / cg2.scale as f32,
        0.5
    );
    assert_eq!(
        cg2.transit.entry(1, 4) as f32 / cg2.scale as f32,
        0.5
    );
}

#[test]
fn test_empty_training_fails() {
    let r = ChordGenerator::new(&Vec::new());
    assert_eq!(r.unwrap_err(), Error::InvalidInput);
}

#[test]
fn test_columns_sum_to_one() {
    let seq = chords(&["C", "G", "Am", "Em", "F", "C", "F", "G"]);
    let cg = ChordGenerator::new(&seq).unwrap();
    let n = cg.map_forward.len();
    for j in 0..n {
        let mut total: u64 = 0;
        for i in 0..n {
            total += cg.transit.entry(i, j);
        }
        assert_eq!(total, cg.scale);
        assert_eq!(total as f32 / cg.scale as f32, 1.0);
    }
}

#[test]
fn test_alphabet_bijection() {
    let seq = chords(&["C", "G", "Am", "Em", "F", "C", "F", "G"]);
    let cg = ChordGenerator::new(&seq).unwrap();
    for (i, c) in cg.map_forward.iter().enumerate() {
        assert_eq!(cg.chord_id(c), Some(i));
    }
    assert_eq!(cg.map_forward.len(), 5);
}

#[test]
fn test_power_one_is_base() {
    let seq = chords(&["C", "G", "Am", "F"]);
    let mut cg = ChordGenerator::new(&seq).unwrap();
    let p1 = cg.transit_pow(1).unwrap();
    let n = cg.map_forward.len();
    for i in 0..n {
        for j in 0..n {
            assert_eq!(p1.entry(i, j), cg.transit.entry(i, j));
        }
    }
}

#[test]
fn test_power_composes() {
    let seq = chords(&["C", "G", "Am", "Em", "F", "C", "F", "G"]);
    let mut cg = ChordGenerator::new(&seq).unwrap();
    let p2 = cg.transit_pow(2).unwrap();
    let p3 = cg.transit_pow(3).unwrap();
    let p5 = cg.transit_pow(5).unwrap();
    let n = cg.map_forward.len();
    for i in 0..n {
        for j in 0..n {
            let mut entry: u64 = 0;
            for k in 0..n {
                entry += p2.entry(i, k) * p3.entry(k, j);
            }
            assert_eq!(p5.entry(i, j), entry);
        }
    }
}

#[test]
fn test_generate_lengths() {
    let seq = chords(&["C", "G", "Am", "F"]);
    let cg = ChordGenerator::new(&seq).unwrap();
    let start = Chord::try_from("C").unwrap();
    let mut rng = StdRng::seed_from_u64(7);
    let empty = cg.generate(start, 0, &mut rng).unwrap();
    assert!(empty.is_empty());
    let out = cg.generate(start, 16, &mut rng).unwrap();
    assert_eq!(out.len(), 16);
    for c in &out {
        assert!(cg.map_forward.contains(c));
    }
}

#[test]
fn test_generate_unknown_chord() {
    let seq = chords(&["C", "G", "Am", "F"]);
    let cg = ChordGenerator::new(&seq).unwrap();
    let absent = Chord::try_from("Dm").unwrap();
    let mut rng = StdRng::seed_from_u64(7);
    let r = cg.generate(absent, 4, &mut rng);
    assert_eq!(r.unwrap_err(), Error::UnknownChord(absent));
}

#[test]
fn test_generate_range_lengths_and_reproducibility() {
    let seq = chords(&["C", "G", "Am", "Em", "F", "C", "F", "G"]);
    let mut cg = ChordGenerator::new(&seq).unwrap();
    let left = Chord::try_from("F").unwrap();
    let right = Chord::try_from("C").unwrap();

    let mut rng = StdRng::seed_from_u64(42);
    // Right boundary directly after the left: an empty interior.
    let empty = cg.generate_range(left, right, 1, &mut rng).unwrap();
    assert!(empty.is_empty());

    let single = cg.generate_range(left, right, 2, &mut rng).unwrap();
    assert_eq!(single.len(), 1);

    // A boundary at index 8 leaves the seven interior indices 1 through 7.
    let out = cg.generate_range(left, right, 8, &mut rng).unwrap();
    assert_eq!(out.len(), 7);
    for c in &out {
        assert!(cg.map_forward.contains(c));
    }

    // The same seed reproduces the same sequence.
    let mut rng_a = StdRng::seed_from_u64(12345);
    let mut rng_b = StdRng::seed_from_u64(12345);
    let a = cg.generate_range(left, right, 9, &mut rng_a).unwrap();
    let b = cg.generate_range(left, right, 9, &mut rng_b).unwrap();
    assert_eq!(a, b);
}

#[test]
fn test_generate_range_unknown_chord() {
    let seq = chords(&["C", "G", "Am", "F"]);
    let mut cg = ChordGenerator::new(&seq).unwrap();
    let left = Chord::try_from("F").unwrap();
    let absent = Chord::try_from("Dm").unwrap();
    let mut rng = StdRng::seed_from_u64(3);
    let r = cg.generate_range(left, absent, 8, &mut rng);
    assert_eq!(r.unwrap_err(), Error::UnknownChord(absent));
}

#[test]
fn test_probability_on_invalid_range() {
    let seq = chords(&["C", "G", "Am", "F"]);
    let mut cg = ChordGenerator::new(&seq).unwrap();
    let left = Chord::try_from("C").unwrap();
    let right = Chord::try_from("F").unwrap();
    assert_eq!(
        cg.probability_on(left, right, 3, 3).unwrap_err(),
        Error::InvalidRange
    );
    assert_eq!(
        cg.probability_on(left, right, 2, 5).unwrap_err(),
        Error::InvalidRange
    );
    assert_eq!(
        cg.probability_on(left, right, 3, 0).unwrap_err(),
        Error::InvalidRange
    );
}

#[test]
fn test_probability_on_unknown_chord() {
    let seq = chords(&["C", "G", "Am", "F"]);
    let mut cg = ChordGenerator::new(&seq).unwrap();
    let known = Chord::try_from("C").unwrap();
    let absent = Chord::try_from("Dm").unwrap();
    assert_eq!(
        cg.probability_on(absent, known, 4, 2).unwrap_err(),
        Error::UnknownChord(absent)
    );
    assert_eq!(
        cg.probability_on(known, absent, 4, 2).unwrap_err(),
        Error::UnknownChord(absent)
    );
}

#[test]
fn test_zero_probability_path() {
    // C and G strictly alternate, so C cannot reach G in two steps.
    let seq = chords(&["C", "G"]);
    let mut cg = ChordGenerator::new(&seq).unwrap();
    let c = Chord::try_from("C").unwrap();
    let g = Chord::try_from("G").unwrap();
    assert_eq!(
        cg.probability_on(c, g, 2, 1).unwrap_err(),
        Error::ZeroProbabilityPath
    );
}

#[test]
fn test_probability_weights() {
    // In the alternating two-chord model the interior chord between two C
    // boundaries at distance two must be G.
    let seq = chords(&["C", "G"]);
    let mut cg = ChordGenerator::new(&seq).unwrap();
    let c = Chord::try_from("C").unwrap();
    let w = cg.probability_on(c, c, 2, 1).unwrap();
    let g_id = 1;
    assert!(w[g_id] > 0);
    assert_eq!(w[0], 0);
}

#[test]
fn test_power_overflow_reported() {
    // Column totals 3 and 2 give scale 6; the 40th power of the scaled
    // matrix cannot fit in 64-bit entries.
    let seq = chords(&["C", "C", "C", "G", "G"]);
    let mut cg = ChordGenerator::new(&seq).unwrap();
    assert_eq!(cg.scale, 6);
    let r = cg.transit_pow(40);
    assert_eq!(r.unwrap_err(), Error::Overflow);
}

#[test]
fn test_outputs_follow_trained_transitions() {
    let seq = chords(&["C", "G", "Am", "Em", "F", "C", "F", "G"]);
    let mut cg = ChordGenerator::new(&seq).unwrap();
    let left = Chord::try_from("F").unwrap();
    let right = Chord::try_from("C").unwrap();
    let mut rng = StdRng::seed_from_u64(99);

    let start = Chord::try_from("C").unwrap();
    let linear = cg.generate(start, 12, &mut rng).unwrap();
    let mut path = vec![start];
    path.extend(linear.iter().cloned());
    for pair in path.windows(2) {
        let i = cg.chord_id(&pair[1]).unwrap();
        let j = cg.chord_id(&pair[0]).unwrap();
        assert!(cg.counts.entry(i, j) > 0);
    }

    let interior = cg.generate_range(left, right, 9, &mut rng).unwrap();
    let mut path = vec![left];
    path.extend(interior.iter().cloned());
    path.push(right);
    for pair in path.windows(2) {
        let i = cg.chord_id(&pair[1]).unwrap();
        let j = cg.chord_id(&pair[0]).unwrap();
        assert!(cg.counts.entry(i, j) > 0);
    }
}
