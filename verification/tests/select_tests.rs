use counterpoint::pitch::{Accidental, Name, Note};
use counterpoint::select::{line_motion_score, line_score, line_variety_score, select_counterpoint};

fn natural(name: Name, octave: i32) -> Note {
    Note { name, accidental: Accidental::Natural, octave }
}

fn cbc() -> Vec<Note> {
    vec![natural(Name::C, 4), natural(Name::B, 3), natural(Name::C, 4)]
}

#[test]
fn motion_score_sums_absolute_moves() {
    let smooth = vec![natural(Name::C, 5), natural(Name::D, 5), natural(Name::C, 5)];
    let wide = vec![natural(Name::C, 5), natural(Name::D, 4), natural(Name::C, 4)];
    assert_eq!(line_motion_score(&smooth), 2);
    assert_eq!(line_motion_score(&wide), 7);
    assert_eq!(line_motion_score(&vec![natural(Name::C, 5)]), 0);
    assert_eq!(line_motion_score(&Vec::new()), 0);
}

#[test]
fn variety_score_multiplies_occurrence_counts() {
    // vertical differences 7, 9, 7: the repeated seventh counts twice
    let smooth = vec![natural(Name::C, 5), natural(Name::D, 5), natural(Name::C, 5)];
    assert_eq!(line_variety_score(&cbc(), &smooth), 2);
    // vertical differences 7, 2, 0: all distinct
    let wide = vec![natural(Name::C, 5), natural(Name::D, 4), natural(Name::C, 4)];
    assert_eq!(line_variety_score(&cbc(), &wide), 1);
    // a single repeated difference three times scores 3
    let flat = vec![natural(Name::C, 5), natural(Name::C, 5), natural(Name::C, 5)];
    let level = vec![natural(Name::C, 4), natural(Name::C, 4), natural(Name::C, 4)];
    assert_eq!(line_variety_score(&level, &flat), 3);
}

#[test]
fn combined_score_adds_motion_and_variety() {
    let smooth = vec![natural(Name::C, 5), natural(Name::D, 5), natural(Name::C, 5)];
    let wide = vec![natural(Name::C, 5), natural(Name::D, 4), natural(Name::C, 4)];
    assert_eq!(line_score(&cbc(), &smooth), 4);
    assert_eq!(line_score(&cbc(), &wide), 8);
}

#[test]
fn selector_picks_the_minimum_score() {
    let smooth = vec![natural(Name::C, 5), natural(Name::D, 5), natural(Name::C, 5)];
    let wide = vec![natural(Name::C, 5), natural(Name::D, 4), natural(Name::C, 4)];
    let picked = select_counterpoint(&cbc(), &vec![wide, smooth.clone()]);
    assert_eq!(picked, Some(smooth));
}

#[test]
fn selector_breaks_ties_by_enumeration_order() {
    // both candidates score motion 0 and variety 1: the first stays
    let cantus = vec![natural(Name::C, 4), natural(Name::C, 4)];
    let first = vec![natural(Name::C, 5)];
    let second = vec![natural(Name::D, 5)];
    let picked = select_counterpoint(&cantus, &vec![first.clone(), second]);
    assert_eq!(picked, Some(first));
}

#[test]
fn selector_reports_an_empty_candidate_set() {
    let cantus = vec![natural(Name::C, 4)];
    assert_eq!(select_counterpoint(&cantus, &Vec::new()), None);
}
