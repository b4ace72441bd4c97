use counterpoint::pitch::{Accidental, Name, Note, parse_cantus};

fn note(name: Name, accidental: Accidental, octave: i32) -> Note {
    Note { name, accidental, octave }
}

fn natural(name: Name, octave: i32) -> Note {
    note(name, Accidental::Natural, octave)
}

#[test]
fn name_from_string_reads_every_letter() {
    assert_eq!(Name::from_string("c"), Name::C);
    assert_eq!(Name::from_string("d"), Name::D);
    assert_eq!(Name::from_string("e"), Name::E);
    assert_eq!(Name::from_string("f"), Name::F);
    assert_eq!(Name::from_string("g"), Name::G);
    assert_eq!(Name::from_string("a"), Name::A);
    assert_eq!(Name::from_string("b"), Name::B);
}

#[test]
fn accidental_from_reads_every_token() {
    assert_eq!(Accidental::from(""), Accidental::Natural);
    assert_eq!(Accidental::from("s"), Accidental::Sharp);
    assert_eq!(Accidental::from("f"), Accidental::Flat);
}

#[test]
fn name_numbers_round_trip() {
    assert_eq!(Name::C.to_number(), 0);
    assert_eq!(Name::B.to_number(), 6);
    for k in 0..7 {
        assert_eq!(Name::from_number(k).to_number(), k);
    }
}

#[test]
fn name_offsets_follow_the_major_scale() {
    assert_eq!(Name::C.offset(), 0);
    assert_eq!(Name::D.offset(), 2);
    assert_eq!(Name::E.offset(), 4);
    assert_eq!(Name::F.offset(), 5);
    assert_eq!(Name::G.offset(), 7);
    assert_eq!(Name::A.offset(), 9);
    assert_eq!(Name::B.offset(), 11);
    assert_eq!(Accidental::Sharp.offset(), 1);
    assert_eq!(Accidental::Flat.offset(), -1);
    assert_eq!(Accidental::Natural.offset(), 0);
}

#[test]
fn full_numbers_order_pitches() {
    assert_eq!(natural(Name::C, 4).to_number_full(), 28);
    assert_eq!(natural(Name::B, 3).to_number_full(), 27);
    assert_eq!(natural(Name::C, 5).to_number_full(), 35);
    assert_eq!(natural(Name::D, 5).to_number_full(), 36);
    // the accidental never enters diatonic arithmetic
    assert_eq!(note(Name::C, Accidental::Sharp, 4).to_number_full(), 28);
}

#[test]
fn from_number_full_splits_degree_and_octave() {
    assert_eq!(Note::from_number_full(35), natural(Name::C, 5));
    assert_eq!(Note::from_number_full(27), natural(Name::B, 3));
    assert_eq!(Note::from_number_full(0), natural(Name::C, 0));
    for n in [6, 27, 28, 35, 69] {
        assert_eq!(Note::from_number_full(n).to_number_full(), n);
    }
}

#[test]
fn from_number_builds_a_natural_pitch() {
    assert_eq!(Note::from_number(1, 5), natural(Name::D, 5));
    assert_eq!(Note::from_number(6, 3), natural(Name::B, 3));
}

#[test]
fn semitone_index_feeds_the_frequency_formula() {
    assert_eq!(natural(Name::C, 4).semitone_index(), 48);
    assert_eq!(natural(Name::A, 4).semitone_index(), 57);
    assert_eq!(note(Name::F, Accidental::Sharp, 3).semitone_index(), 42);
    assert_eq!(note(Name::B, Accidental::Flat, 5).semitone_index(), 70);
}

#[test]
fn parse_reads_well_formed_tokens() {
    assert_eq!(Note::parse("c4"), Some(natural(Name::C, 4)));
    assert_eq!(Note::parse("fs3"), Some(note(Name::F, Accidental::Sharp, 3)));
    assert_eq!(Note::parse("bf5"), Some(note(Name::B, Accidental::Flat, 5)));
    assert_eq!(Note::parse("a0"), Some(natural(Name::A, 0)));
    assert_eq!(Note::parse("g9"), Some(natural(Name::G, 9)));
}

#[test]
fn parse_rejects_malformed_tokens() {
    assert_eq!(Note::parse(""), None);
    assert_eq!(Note::parse("c"), None);
    assert_eq!(Note::parse("x4"), None);
    assert_eq!(Note::parse("cq4"), None);
    assert_eq!(Note::parse("c44"), None);
    assert_eq!(Note::parse("cs"), None);
    assert_eq!(Note::parse("cfs4"), None);
}

#[test]
fn from_string_agrees_with_parse() {
    assert_eq!(Note::from_string("c4"), natural(Name::C, 4));
    assert_eq!(Note::from_string("bf5"), note(Name::B, Accidental::Flat, 5));
}

#[test]
fn parse_cantus_splits_on_commas() {
    assert_eq!(
        parse_cantus("c4,b3,c4"),
        Some(vec![natural(Name::C, 4), natural(Name::B, 3), natural(Name::C, 4)])
    );
    assert_eq!(parse_cantus("c4"), Some(vec![natural(Name::C, 4)]));
    assert_eq!(
        parse_cantus("fs3,bf5"),
        Some(vec![note(Name::F, Accidental::Sharp, 3), note(Name::B, Accidental::Flat, 5)])
    );
}

#[test]
fn parse_cantus_rejects_bad_lists() {
    assert_eq!(parse_cantus(""), None);
    assert_eq!(parse_cantus("c4,,d4"), None);
    assert_eq!(parse_cantus("c4,x2"), None);
    assert_eq!(parse_cantus("c4,"), None);
}
