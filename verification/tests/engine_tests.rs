use counterpoint::pitch::{Accidental, Name, Note};
use counterpoint::search::{counterpoint_first_species, search, validate_first_species};
use counterpoint::select::best_counterpoint;

fn natural(name: Name, octave: i32) -> Note {
    Note { name, accidental: Accidental::Natural, octave }
}

fn c4() -> Note {
    natural(Name::C, 4)
}

#[test]
fn single_pitch_cantus_yields_the_forced_octave() {
    // a cantus of one pitch: no interior search, no cadence, just the opening
    let cantus = vec![c4()];
    let lines = search(&cantus);
    assert_eq!(lines, vec![vec![natural(Name::C, 5)]]);
    assert_eq!(best_counterpoint(&cantus), Some(vec![natural(Name::C, 5)]));
}

#[test]
fn two_pitch_cantus_never_cadences() {
    // the opening keeps the cantus's letter name, so the cadence cannot fire
    // and the line ends on the opening pitch
    let cantus = vec![c4(), natural(Name::D, 4)];
    let lines = search(&cantus);
    assert_eq!(lines, vec![vec![natural(Name::C, 5)]]);
    assert_eq!(best_counterpoint(&cantus), Some(vec![natural(Name::C, 5)]));
}

#[test]
fn cadence_resolves_d_over_b_down_to_c() {
    // against c4, b3, c4 exactly two lines survive, both ending in the
    // cadence that resolves D down to C
    let cantus = vec![c4(), natural(Name::B, 3), c4()];
    let lines = search(&cantus);
    let high = vec![natural(Name::C, 5), natural(Name::D, 5), natural(Name::C, 5)];
    let low = vec![natural(Name::C, 5), natural(Name::D, 4), natural(Name::C, 4)];
    assert_eq!(lines, vec![high.clone(), low]);
    // the smoother line wins on score
    assert_eq!(best_counterpoint(&cantus), Some(high));
}

#[test]
fn cadence_resolves_b_over_d_up_to_c() {
    let cantus = vec![c4(), natural(Name::D, 4), natural(Name::E, 4)];
    let lines = search(&cantus);
    let only = vec![natural(Name::C, 5), natural(Name::B, 4), natural(Name::C, 5)];
    assert_eq!(lines, vec![only.clone()]);
    assert_eq!(best_counterpoint(&cantus), Some(only));
}

#[test]
fn dead_end_branch_yields_an_empty_result_not_a_crash() {
    // the second cantus pitch sits so high that every one of the fourteen
    // displacements lands at or below it: no interior candidate survives
    let cantus = vec![c4(), natural(Name::C, 6), c4()];
    let lines = search(&cantus);
    assert!(lines.is_empty());
    assert_eq!(best_counterpoint(&cantus), None);
}

#[test]
fn engine_is_deterministic() {
    let cantus = vec![c4(), natural(Name::B, 3), c4()];
    let once = best_counterpoint(&cantus);
    let twice = best_counterpoint(&cantus);
    assert_eq!(once, twice);
    assert_eq!(search(&cantus), search(&cantus));
}

#[test]
fn every_generated_pitch_obeys_the_stated_rules() {
    let cantus = vec![c4(), natural(Name::B, 3), c4()];
    for line in search(&cantus) {
        // the opening is exactly one octave above
        assert_eq!(line[0].to_number_full(), cantus[0].to_number_full() + 7);
        for i in 0..line.len() {
            if i == 0 || i + 1 < cantus.len() {
                // above the cantus at every freely searched step
                assert!(line[i].to_number_full() > cantus[i].to_number_full());
                // never a dissonant interval class there
                let ic = (line[i].to_number_full() - cantus[i].to_number_full()) % 7 + 1;
                assert!(ic != 2 && ic != 4 && ic != 7);
            }
            if i >= 1 {
                // no consecutive perfect consonances anywhere: the opening
                // pair and the cadence pair included
                let prev = (line[i - 1].to_number_full() - cantus[i - 1].to_number_full()) % 7 + 1;
                let cur = (line[i].to_number_full() - cantus[i].to_number_full()) % 7 + 1;
                assert!(!(prev == 5 && cur == 5) && !(prev == 1 && cur == 1));
            }
            if i >= 2 {
                // melodic leap cap, the cadential step included
                let step = line[i].to_number_full() - line[i - 1].to_number_full();
                assert!(step.abs() <= 5);
            }
        }
    }
}

#[test]
fn the_first_move_is_not_leap_capped() {
    // the leap cap binds from the second move on: an opening leap of a
    // sixth survives when every later rule is met
    let cantus = vec![
        c4(),
        natural(Name::G, 4),
        natural(Name::B, 4),
        natural(Name::D, 5),
        natural(Name::C, 5),
    ];
    let lines = search(&cantus);
    let leaping = vec![
        natural(Name::C, 5),
        natural(Name::B, 5),
        natural(Name::G, 5),
        natural(Name::B, 5),
        natural(Name::C, 6),
    ];
    assert!(lines.contains(&leaping));
}

#[test]
fn an_octave_beside_the_opening_octave_is_rejected() {
    // the forced opening records its octave (class 1), so a second
    // unison/octave right after it falls to the consecutive-perfect rule
    let cantus = vec![c4(), natural(Name::B, 3), natural(Name::B, 3), c4()];
    let lines = search(&cantus);
    let octaves = vec![
        natural(Name::C, 5),
        natural(Name::B, 4),
        natural(Name::D, 5),
        natural(Name::C, 5),
    ];
    assert!(!lines.contains(&octaves));
    for line in &lines {
        assert_ne!(line[1].to_number_full() - cantus[1].to_number_full(), 7);
    }
}

#[test]
fn validation_rejects_an_octave_after_the_opening_octave() {
    let cantus = vec![c4(), natural(Name::B, 3), natural(Name::B, 3), c4()];
    let counter = vec![natural(Name::C, 5)];
    let intervals: Vec<i64> = vec![1];
    assert!(!validate_first_species(&cantus, &counter, &intervals, natural(Name::B, 4), 1));
}

#[test]
fn validation_rejects_a_candidate_below_the_cantus() {
    let cantus = vec![c4(), natural(Name::C, 5)];
    let counter = vec![natural(Name::C, 5)];
    let intervals: Vec<i64> = vec![1];
    assert!(!validate_first_species(&cantus, &counter, &intervals, c4(), 1));
}

#[test]
fn validation_rejects_a_dissonant_interval() {
    // e4 over b3 is a fourth: interval class 4
    let cantus = vec![c4(), natural(Name::B, 3), c4()];
    let counter = vec![natural(Name::C, 5)];
    let intervals: Vec<i64> = vec![1];
    assert!(!validate_first_species(&cantus, &counter, &intervals, natural(Name::E, 4), 1));
}

#[test]
fn validation_rejects_consecutive_fifths() {
    // a4 over d4 was a fifth; b4 over e4 would be another
    let cantus = vec![c4(), natural(Name::D, 4), natural(Name::E, 4)];
    let counter = vec![natural(Name::C, 5), natural(Name::A, 4)];
    let intervals: Vec<i64> = vec![1, 5];
    assert!(!validate_first_species(&cantus, &counter, &intervals, natural(Name::B, 4), 2));
}

#[test]
fn validation_rejects_an_oversized_leap() {
    let cantus = vec![c4(), natural(Name::D, 4), natural(Name::E, 4)];
    let counter = vec![natural(Name::C, 5), natural(Name::B, 4)];
    let intervals: Vec<i64> = vec![1, 6];
    // c6 is a ninth-step melodic leap and twelve above the cantus
    assert!(!validate_first_species(&cantus, &counter, &intervals, natural(Name::C, 6), 2));
}

#[test]
fn validation_admits_a_quiet_step() {
    let cantus = vec![c4(), natural(Name::D, 4), natural(Name::E, 4)];
    let counter = vec![natural(Name::C, 5), natural(Name::B, 4)];
    let intervals: Vec<i64> = vec![1, 6];
    // c5 over e4: a sixth, reached by a single upward step
    assert!(validate_first_species(&cantus, &counter, &intervals, natural(Name::C, 5), 2));
}

#[test]
fn search_can_be_driven_from_a_partial_state() {
    // starting the recursion at step 0 with empty state equals `search`
    let cantus = vec![c4(), natural(Name::B, 3), c4()];
    let counter: Vec<Note> = Vec::new();
    let intervals: Vec<i64> = Vec::new();
    assert_eq!(counterpoint_first_species(&cantus, &counter, &intervals, 0), search(&cantus));
}
