//! The counterpoint search engine: a depth-first backtracking enumeration of
//! every counterpoint line that the first-species rule set admits against a
//! given cantus firmus.
//!
//! The opening pitch is forced one octave above the cantus; each interior
//! step tries fourteen candidate displacements from the previous counterpoint
//! pitch in a fixed order and keeps those the validation predicate admits;
//! the final step applies a fixed cadential resolution instead of free
//! search.  The whole enumeration is mirrored by the specification functions
//! `solutions_from` and `candidate_solutions`, and the executable search is
//! proved to return exactly that sequence of lines, in that order.

use vstd::prelude::*;
use crate::pitch::{
    Accidental, Name, Note, full_num, interval_class, lemma_note_of_full_id, lemma_tmod7_octave,
    name_num, note_of_full, tmod7,
};

verus! {

/// The views of a sequence of pitch vectors.
pub open spec fn views(s: Seq<Vec<Note>>) -> Seq<Seq<Note>> {
    s.map_values(|v: Vec<Note>| v@)
}

/// The mathematical values of a sequence of machine integers.
pub open spec fn int_view(s: Seq<i64>) -> Seq<int> {
    s.map_values(|x: i64| x as int)
}

/// The direction of a diatonic move; a move of zero counts as upward.
pub open spec fn sign_of(d: int) -> int {
    if d < 0 {
        -1
    } else {
        1
    }
}

/// The `k`-th candidate displacement in the fixed trial order
/// +1, -1, +2, -2, +3, -3, +4, -4, +5, -5, +6, -6, +7, -7.
pub open spec fn displacement_of(k: int) -> int {
    if k % 2 == 0 {
        k / 2 + 1
    } else {
        -(k / 2 + 1)
    }
}

/// The pitch one octave above, with the accidental cleared to natural.
pub open spec fn octave_above(p: Note) -> Note {
    Note { name: p.name, accidental: Accidental::Natural, octave: (p.octave + 1) as i32 }
}

/// The validation predicate: whether every rule of the set admits the
/// candidate pitch `next` at interior step `step`, given the partial
/// counterpoint line and the interval classes recorded so far.
pub open spec fn valid_spec(
    cantus: Seq<Note>,
    counter: Seq<Note>,
    intervals: Seq<int>,
    next: Note,
    step: int,
) -> bool {
    let diff = full_num(next) - full_num(cantus[step]);
    let icur = tmod7(diff) + 1;
    // the counterpoint sounds strictly above the cantus
    &&& diff > 0
    // no direct motion between the degrees F and B
    &&& !((name_num(next.name) == 6 && name_num(counter[step - 1].name) == 3) || (name_num(
        next.name,
    ) == 3 && name_num(counter[step - 1].name) == 6))
    // seconds, fourths and sevenths are dissonant
    &&& !(icur == 2 || icur == 4 || icur == 7)
    // no two consecutive fifths, and no two consecutive unisons or octaves
    &&& !((icur == 5 && intervals[step - 1] == 5) || (icur == 1 && intervals[step - 1] == 1))
    // registral ceiling on the raw vertical distance
    &&& diff <= 10
    // no four identical imperfect consonances in a row
    &&& !(step > 2 && (icur == 3 || icur == 6) && icur == intervals[step - 1] && intervals[step - 1]
        == intervals[step - 2] && intervals[step - 2] == intervals[step - 3])
    // melodic conduct relative to the two previous counterpoint pitches
    &&& (step > 1 ==> {
        let raw_move = full_num(next) - full_num(counter[step - 1]);
        let dist = tmod7(raw_move);
        let last_dist = tmod7(full_num(counter[step - 1]) - full_num(counter[step - 2]));
        let raw_cantus_move = full_num(cantus[step]) - full_num(cantus[step - 1]);
        // a descending seventh is never taken
        &&& dist != -5
        // melodic leap cap
        &&& -5 <= raw_move <= 5
        // a leap is recovered by a step in the opposite direction
        &&& (last_dist > 2 ==> -2 <= dist <= -1)
        &&& (last_dist < -2 ==> 1 <= dist <= 2)
        // no similar motion into a perfect consonance
        &&& ((icur == 5 || icur == 1) ==> sign_of(raw_move) != sign_of(raw_cantus_move))
    })
}

/// The single (possibly empty) cadential continuation at the final step:
/// D over a cantus B resolves a step down, B over a cantus D resolves a
/// step up, and any other combination ends the line on the pitch already
/// placed.
pub open spec fn cadence_lines(last: Note, last_cf: Note) -> Seq<Seq<Note>> {
    if last.name == Name::D && last_cf.name == Name::B {
        seq![seq![note_of_full(full_num(last) - 1)]]
    } else if last.name == Name::B && last_cf.name == Name::D {
        seq![seq![note_of_full(full_num(last) + 1)]]
    } else {
        seq![Seq::<Note>::empty()]
    }
}

/// Every line with the given pitch prefixed.
pub open spec fn prepend_all(p: Note, lines: Seq<Seq<Note>>) -> Seq<Seq<Note>> {
    lines.map_values(|l: Seq<Note>| seq![p] + l)
}

/// The nonempty lines, in order, each with the given pitch prefixed;
/// empty continuations are dropped.
pub open spec fn prepend_nonempty(p: Note, lines: Seq<Seq<Note>>) -> Seq<Seq<Note>>
    decreases lines.len(),
{
    if lines.len() == 0 {
        Seq::empty()
    } else {
        prepend_nonempty(p, lines.drop_last()) + (if lines.last().len() > 0 {
            seq![seq![p] + lines.last()]
        } else {
            Seq::empty()
        })
    }
}

/// Every complete continuation of the given partial state from `step` on,
/// in enumeration order.  Step 0 forces the opening octave, interior steps
/// run the fourteen candidate displacements, and the final step applies the
/// cadence.
pub open spec fn solutions_from(
    cantus: Seq<Note>,
    counter: Seq<Note>,
    intervals: Seq<int>,
    step: int,
) -> Seq<Seq<Note>>
    decreases cantus.len() - step, 1int, 0int,
        when 0 <= step < cantus.len()
{
    if step == 0 {
        let first = octave_above(cantus[0]);
        if cantus.len() == 1 {
            seq![seq![first]]
        } else {
            prepend_all(first, solutions_from(cantus, seq![first], seq![1], 1))
        }
    } else if step == cantus.len() - 1 {
        cadence_lines(counter[step - 1], cantus[step - 1])
    } else {
        candidate_solutions(cantus, counter, intervals, step, 0)
    }
}

/// The solutions contributed by the candidate displacements from trial
/// index `k` on, at an interior step.
pub open spec fn candidate_solutions(
    cantus: Seq<Note>,
    counter: Seq<Note>,
    intervals: Seq<int>,
    step: int,
    k: int,
) -> Seq<Seq<Note>>
    decreases cantus.len() - step, 0int, 14 - k,
        when 0 < step < cantus.len() - 1 && 0 <= k <= 14
{
    if k >= 14 {
        Seq::empty()
    } else {
        let next = note_of_full(full_num(counter[step - 1]) + displacement_of(k));
        let rest = candidate_solutions(cantus, counter, intervals, step, k + 1);
        if valid_spec(cantus, counter, intervals, next, step) {
            prepend_nonempty(
                next,
                solutions_from(
                    cantus,
                    counter.push(next),
                    intervals.push(interval_class(next, cantus[step])),
                    step + 1,
                ),
            ) + rest
        } else {
            rest
        }
    }
}

/// Every counterpoint line the search enumerates for this cantus firmus,
/// in enumeration order.
pub open spec fn search_spec(cantus: Seq<Note>) -> Seq<Seq<Note>> {
    solutions_from(cantus, Seq::empty(), Seq::empty(), 0)
}

/// Every cantus pitch lies within the band the search arithmetic relies
/// on.  The lower edge keeps the full diatonic number of every candidate
/// nonnegative — a candidate may reach a seventh below a pitch one step
/// above the cantus, and splitting a full number into degree and octave is
/// defined on the nonnegative side only.  The upper edge keeps every
/// constructed octave inside machine range.
pub open spec fn cantus_in_range(cantus: Seq<Note>) -> bool {
    forall|j: int| 0 <= j < cantus.len() ==> 6 <= #[trigger] full_num(cantus[j]) <= 1_000_000
}

/// Every placed counterpoint pitch (the cadence pitch aside) sounds strictly
/// above its cantus pitch and within the registral ceiling.
pub open spec fn entries_above(cantus: Seq<Note>, line: Seq<Note>) -> bool {
    forall|j: int|
        0 <= j < line.len() && j < cantus.len() - 1 ==> full_num(cantus[j]) < #[trigger] full_num(
            line[j],
        ) <= full_num(cantus[j]) + 10
}

/// The truncating remainder by 7 of a diatonic distance.
pub fn trunc_rem7(a: i64) -> (r: i64)
    requires
        i64::MIN < a,
    ensures
        r == tmod7(a as int),
{
    if a >= 0 {
        a % 7
    } else {
        -((-a) % 7)
    }
}

/// Judges a candidate pitch for an interior step against the full rule set;
/// `true` exactly when every rule admits it.
pub fn validate_first_species(
    cantus: &Vec<Note>,
    counter: &Vec<Note>,
    intervals: &Vec<i64>,
    next: Note,
    step: usize,
) -> (r: bool)
    requires
        1 <= step < cantus@.len(),
        counter@.len() >= step,
        intervals@.len() >= step,
    ensures
        r == valid_spec(cantus@, counter@, int_view(intervals@), next, step as int),
{
    let next_full = next.to_number_full();
    let cf_full = cantus[step].to_number_full();
    if next_full <= cf_full {
        return false;
    }
    if (next.to_number() == 6 && counter[step - 1].to_number() == 3) || (next.to_number() == 3
        && counter[step - 1].to_number() == 6) {
        return false;
    }
    let current_interval_full = next_full - cf_full;
    let current_interval = trunc_rem7(current_interval_full) + 1;
    if current_interval == 2 || current_interval == 4 || current_interval == 7 {
        return false;
    }
    if (current_interval == 5 && intervals[step - 1] == 5) || (current_interval == 1
        && intervals[step - 1] == 1) {
        return false;
    }
    if current_interval_full > 10 {
        return false;
    }
    if step > 2 && (current_interval == 3 || current_interval == 6) && current_interval
        == intervals[step - 1] && intervals[step - 1] == intervals[step - 2] && intervals[step - 2]
        == intervals[step - 3] {
        return false;
    }
    if step > 1 {
        let raw_move = next_full - counter[step - 1].to_number_full();
        let dist = trunc_rem7(raw_move);
        let last_dist = trunc_rem7(
            counter[step - 1].to_number_full() - counter[step - 2].to_number_full(),
        );
        if dist == -5 {
            return false;
        }
        if raw_move > 5 || raw_move < -5 {
            return false;
        }
        if last_dist > 2 && (dist < -2 || dist > -1) {
            return false;
        }
        if last_dist < -2 && (dist > 2 || dist < 1) {
            return false;
        }
        let raw_cantus_move = cantus[step].to_number_full() - cantus[step - 1].to_number_full();
        let moves_down: bool = raw_move < 0;
        let cantus_down: bool = raw_cantus_move < 0;
        if (current_interval == 5 || current_interval == 1) && moves_down == cantus_down {
            return false;
        }
    }
    true
}

/// The `k`-th candidate displacement in the fixed trial order.
pub fn displacement(k: usize) -> (d: i64)
    requires
        k < 14,
    ensures
        d == displacement_of(k as int),
{
    let half: i64 = (k as i64) / 2 + 1;
    if k % 2 == 0 {
        half
    } else {
        -half
    }
}

/// A copy of a vector of copyable values.
fn copied<T: Copy>(v: &Vec<T>) -> (r: Vec<T>)
    ensures
        r@ == v@,
{
    let mut r: Vec<T> = Vec::new();
    let mut i: usize = 0;
    while i < v.len()
        invariant
            i <= v@.len(),
            r@ == v@.take(i as int),
        decreases v@.len() - i,
    {
        r.push(v[i]);
        proof {
            assert(v@.take(i + 1) =~= v@.take(i as int).push(v@[i as int]));
        }
        i += 1;
    }
    proof {
        assert(v@.take(v@.len() as int) =~= v@);
    }
    r
}

/// A copy of a line with the given pitch prefixed.
fn prefixed(p: Note, line: &Vec<Note>) -> (r: Vec<Note>)
    ensures
        r@ == seq![p] + line@,
{
    let mut r: Vec<Note> = Vec::new();
    r.push(p);
    proof {
        assert(r@ =~= seq![p] + line@.take(0));
    }
    let mut i: usize = 0;
    while i < line.len()
        invariant
            i <= line@.len(),
            r@ == seq![p] + line@.take(i as int),
        decreases line@.len() - i,
    {
        r.push(line[i]);
        proof {
            assert(line@.take(i + 1) =~= line@.take(i as int).push(line@[i as int]));
            assert(seq![p] + line@.take(i + 1) =~= (seq![p] + line@.take(i as int)).push(
                line@[i as int],
            ));
        }
        i += 1;
    }
    proof {
        assert(line@.take(line@.len() as int) =~= line@);
    }
    r
}

/// The depth-first backtracking search: from a consistent partial state it
/// returns every complete continuation of the counterpoint line, in the
/// fixed enumeration order, exactly as the specification mirror describes.
pub fn counterpoint_first_species(
    cantus: &Vec<Note>,
    counter: &Vec<Note>,
    intervals: &Vec<i64>,
    step: usize,
) -> (res: Vec<Vec<Note>>)
    requires
        1 <= cantus@.len(),
        cantus_in_range(cantus@),
        step < cantus@.len(),
        counter@.len() == step,
        intervals@.len() == step,
        entries_above(cantus@, counter@),
    ensures
        views(res@) == solutions_from(cantus@, counter@, int_view(intervals@), step as int),
    decreases cantus@.len() - step,
{
    let n = cantus.len();
    if step == 0 {
        let c0 = cantus[0];
        proof {
            assert(6 <= full_num(cantus@[0]) <= 1_000_000);
        }
        // the opening is forced one octave above the cantus
        let first = Note { name: c0.name, accidental: Accidental::Natural, octave: c0.octave + 1 };
        proof {
            assert(first == octave_above(cantus@[0]));
        }
        if n == 1 {
            let mut line: Vec<Note> = Vec::new();
            line.push(first);
            let mut res: Vec<Vec<Note>> = Vec::new();
            res.push(line);
            proof {
                assert(views(res@) =~= seq![seq![first]]);
            }
            return res;
        }
        let mut counter2: Vec<Note> = Vec::new();
        counter2.push(first);
        let mut intervals2: Vec<i64> = Vec::new();
        intervals2.push(1);
        proof {
            assert(counter2@ =~= seq![first]);
            assert(int_view(intervals2@) =~= seq![1int]);
            assert(full_num(first) == full_num(cantus@[0]) + 7);
            assert(entries_above(cantus@, counter2@));
        }
        let sub = counterpoint_first_species(cantus, &counter2, &intervals2, 1);
        let mut res: Vec<Vec<Note>> = Vec::new();
        let mut i: usize = 0;
        proof {
            assert(views(res@) =~= prepend_all(first, views(sub@).take(0)));
        }
        while i < sub.len()
            invariant
                i <= sub@.len(),
                views(res@) == prepend_all(first, views(sub@).take(i as int)),
            decreases sub@.len() - i,
        {
            let line = prefixed(first, &sub[i]);
            res.push(line);
            proof {
                assert(views(sub@).take(i + 1) =~= views(sub@).take(i as int).push(sub@[i as int]@));
                assert(views(res@) =~= prepend_all(first, views(sub@).take(i as int)).push(
                    seq![first] + sub@[i as int]@,
                ));
                assert(prepend_all(first, views(sub@).take(i + 1)) =~= prepend_all(
                    first,
                    views(sub@).take(i as int),
                ).push(seq![first] + sub@[i as int]@));
            }
            i += 1;
        }
        proof {
            assert(views(sub@).take(sub@.len() as int) =~= views(sub@));
        }
        return res;
    }
    let last = counter[step - 1];
    if step == n - 1 {
        let last_cf = cantus[step - 1];
        proof {
            assert(6 <= full_num(cantus@[step - 1]) <= 1_000_000);
            assert(full_num(cantus@[step - 1]) < full_num(counter@[step - 1]) <= full_num(
                cantus@[step - 1],
            ) + 10);
        }
        if last.name == Name::D && last_cf.name == Name::B {
            let next = Note::from_number_full(last.to_number_full() - 1);
            let mut line: Vec<Note> = Vec::new();
            line.push(next);
            let mut res: Vec<Vec<Note>> = Vec::new();
            res.push(line);
            proof {
                assert(views(res@) =~= seq![seq![next]]);
            }
            return res;
        }
        if last.name == Name::B && last_cf.name == Name::D {
            let next = Note::from_number_full(last.to_number_full() + 1);
            let mut line: Vec<Note> = Vec::new();
            line.push(next);
            let mut res: Vec<Vec<Note>> = Vec::new();
            res.push(line);
            proof {
                assert(views(res@) =~= seq![seq![next]]);
            }
            return res;
        }
        let empty_line: Vec<Note> = Vec::new();
        let mut res: Vec<Vec<Note>> = Vec::new();
        res.push(empty_line);
        proof {
            assert(views(res@) =~= seq![Seq::<Note>::empty()]);
        }
        return res;
    }
    // an interior step: try the fourteen candidate displacements in order
    let last_full = last.to_number_full();
    let mut res: Vec<Vec<Note>> = Vec::new();
    let mut k: usize = 0;
    proof {
        assert(views(res@) =~= Seq::<Seq<Note>>::empty());
    }
    while k < 14
        invariant
            k <= 14,
            1 <= step < cantus@.len() - 1,
            cantus@.len() <= usize::MAX,
            cantus@.len() >= 1,
            cantus_in_range(cantus@),
            counter@.len() == step,
            intervals@.len() == step,
            entries_above(cantus@, counter@),
            last == counter@[step - 1],
            last_full == full_num(counter@[step - 1]),
            views(res@) + candidate_solutions(
                cantus@,
                counter@,
                int_view(intervals@),
                step as int,
                k as int,
            ) == candidate_solutions(cantus@, counter@, int_view(intervals@), step as int, 0),
        decreases 14 - k,
    {
        let ghost pre = candidate_solutions(
            cantus@,
            counter@,
            int_view(intervals@),
            step as int,
            k as int,
        );
        let d = displacement(k);
        proof {
            assert(6 <= full_num(cantus@[step - 1]) <= 1_000_000);
            assert(full_num(cantus@[step - 1]) < full_num(counter@[step - 1]) <= full_num(
                cantus@[step - 1],
            ) + 10);
            assert(-7 <= displacement_of(k as int) <= 7);
        }
        let next = Note::from_number_full(last_full + d);
        if validate_first_species(cantus, counter, intervals, next, step) {
            let mut counter2 = copied(counter);
            counter2.push(next);
            let mut intervals2 = copied(intervals);
            proof {
                assert(6 <= full_num(cantus@[step as int]) <= 1_000_000);
            }
            let ic = trunc_rem7(next.to_number_full() - cantus[step].to_number_full()) + 1;
            intervals2.push(ic);
            proof {
                assert(counter2@ =~= counter@.push(next));
                assert(int_view(intervals2@) =~= int_view(intervals@).push(
                    interval_class(next, cantus@[step as int]),
                ));
                assert(full_num(cantus@[step as int]) < full_num(next) <= full_num(
                    cantus@[step as int],
                ) + 10);
                assert(entries_above(cantus@, counter2@)) by {
                    assert(forall|j: int|
                        0 <= j < counter2@.len() && j < cantus@.len() - 1 ==> full_num(cantus@[j])
                            < #[trigger] full_num(counter2@[j]) <= full_num(cantus@[j]) + 10) by {
                        assert(forall|j: int|
                            0 <= j < counter@.len() && j < cantus@.len() - 1 ==> full_num(
                                cantus@[j],
                            ) < #[trigger] full_num(counter@[j]) <= full_num(cantus@[j]) + 10);
                        assert(counter2@[step as int] == next);
                        assert(forall|j: int| 0 <= j < counter@.len() ==> counter2@[j] == counter@[j]);
                    }
                }
            }
            let sub = counterpoint_first_species(cantus, &counter2, &intervals2, step + 1);
            let ghost res_before = views(res@);
            let mut j: usize = 0;
            proof {
                assert(views(res@) =~= res_before + prepend_nonempty(next, views(sub@).take(0)));
            }
            while j < sub.len()
                invariant
                    j <= sub@.len(),
                    views(res@) == res_before + prepend_nonempty(next, views(sub@).take(j as int)),
                decreases sub@.len() - j,
            {
                let line_len = sub[j].len();
                if line_len > 0 {
                    let line = prefixed(next, &sub[j]);
                    res.push(line);
                }
                proof {
                    let sv = views(sub@);
                    assert(sv.take(j + 1).drop_last() =~= sv.take(j as int));
                    assert(sv.take(j + 1).last() == sub@[j as int]@);
                    if sub@[j as int]@.len() > 0 {
                        assert(views(res@) =~= (res_before + prepend_nonempty(
                            next,
                            sv.take(j as int),
                        )).push(seq![next] + sub@[j as int]@));
                        assert(res_before + prepend_nonempty(next, sv.take(j + 1)) =~= (res_before
                            + prepend_nonempty(next, sv.take(j as int))).push(
                            seq![next] + sub@[j as int]@,
                        ));
                    } else {
                        assert(res_before + prepend_nonempty(next, sv.take(j + 1)) =~= res_before
                            + prepend_nonempty(next, sv.take(j as int)));
                    }
                }
                j += 1;
            }
            proof {
                assert(views(sub@).take(sub@.len() as int) =~= views(sub@));
                assert(next == note_of_full(
                    full_num(counter@[step - 1]) + displacement_of(k as int),
                ));
                assert(pre == prepend_nonempty(next, views(sub@)) + candidate_solutions(
                    cantus@,
                    counter@,
                    int_view(intervals@),
                    step as int,
                    k as int + 1,
                ));
                assert(views(res@) + candidate_solutions(
                    cantus@,
                    counter@,
                    int_view(intervals@),
                    step as int,
                    k as int + 1,
                ) =~= (res_before + prepend_nonempty(next, views(sub@))) + candidate_solutions(
                    cantus@,
                    counter@,
                    int_view(intervals@),
                    step as int,
                    k as int + 1,
                ));
                assert(res_before + (prepend_nonempty(next, views(sub@)) + candidate_solutions(
                    cantus@,
                    counter@,
                    int_view(intervals@),
                    step as int,
                    k as int + 1,
                )) =~= (res_before + prepend_nonempty(next, views(sub@))) + candidate_solutions(
                    cantus@,
                    counter@,
                    int_view(intervals@),
                    step as int,
                    k as int + 1,
                ));
            }
        } else {
            proof {
                assert(next == note_of_full(
                    full_num(counter@[step - 1]) + displacement_of(k as int),
                ));
                assert(pre == candidate_solutions(
                    cantus@,
                    counter@,
                    int_view(intervals@),
                    step as int,
                    k as int + 1,
                ));
            }
        }
        k += 1;
    }
    proof {
        assert(candidate_solutions(cantus@, counter@, int_view(intervals@), step as int, 14)
            =~= Seq::<Seq<Note>>::empty());
        assert(views(res@) + Seq::<Seq<Note>>::empty() =~= views(res@));
    }
    res
}

/// Every counterpoint line the rules admit for this cantus firmus, in
/// enumeration order.
pub fn search(cantus: &Vec<Note>) -> (res: Vec<Vec<Note>>)
    requires
        1 <= cantus@.len(),
        cantus_in_range(cantus@),
    ensures
        views(res@) == search_spec(cantus@),
{
    let counter: Vec<Note> = Vec::new();
    let intervals: Vec<i64> = Vec::new();
    proof {
        assert(counter@ =~= Seq::<Note>::empty());
        assert(int_view(intervals@) =~= Seq::<int>::empty());
    }
    counterpoint_first_species(cantus, &counter, &intervals, 0)
}

/// The interval class the engine records at step `t` of a line: the class
/// of the placed pitch against its cantus pitch.  The forced opening
/// records its octave, class 1, so the consecutive-perfect rule covers the
/// very first pair of steps.
pub open spec fn stored_ic(cantus: Seq<Note>, line: Seq<Note>, t: int) -> int {
    interval_class(line[t], cantus[t])
}

/// The recorded interval classes of a line, one per placed pitch.
pub open spec fn stored_ics(cantus: Seq<Note>, line: Seq<Note>) -> Seq<int> {
    Seq::new(line.len(), |t: int| stored_ic(cantus, line, t))
}

/// The recorded intervals agree with the placed pitches.
pub open spec fn prefix_matches(
    cantus: Seq<Note>,
    counter: Seq<Note>,
    intervals: Seq<int>,
) -> bool {
    forall|t: int|
        0 <= t < counter.len() ==> intervals[t] == #[trigger] stored_ic(cantus, counter, t)
}

/// The validation predicate, read over a completed line at step `j`.
pub open spec fn valid_at(cantus: Seq<Note>, line: Seq<Note>, j: int) -> bool {
    valid_spec(cantus, line, stored_ics(cantus, line), line[j], j)
}

/// The cadential shape of a completed line of the cantus's length: the
/// penultimate pitch resolves one diatonic step, down from D over a cantus
/// B, up from B over a cantus D.
pub open spec fn cadence_shape(cantus: Seq<Note>, line: Seq<Note>) -> bool {
    let n = cantus.len();
    ||| (line[n - 2].name == Name::D && cantus[n - 2].name == Name::B && line[n - 1]
        == note_of_full(full_num(line[n - 2]) - 1))
    ||| (line[n - 2].name == Name::B && cantus[n - 2].name == Name::D && line[n - 1]
        == note_of_full(full_num(line[n - 2]) + 1))
}

/// What the search guarantees of every continuation it returns from a
/// consistent partial state.
pub open spec fn continuation_props(
    cantus: Seq<Note>,
    counter: Seq<Note>,
    step: int,
    l: Seq<Note>,
) -> bool {
    let fl = counter + l;
    &&& (l.len() == 0 ==> step == cantus.len() - 1)
    &&& (l.len() > 0 ==> fl.len() == cantus.len())
    &&& (forall|j: int|
        step <= j < cantus.len() - 1 && j < fl.len() ==> #[trigger] valid_at(cantus, fl, j))
    &&& (l.len() > 0 ==> cadence_shape(cantus, fl))
    &&& entries_above(cantus, fl)
}

/// The validation verdict depends only on the reads the predicate makes.
proof fn lemma_valid_agree(
    cantus: Seq<Note>,
    c1: Seq<Note>,
    iv1: Seq<int>,
    c2: Seq<Note>,
    iv2: Seq<int>,
    next: Note,
    step: int,
)
    requires
        1 <= step,
        c1[step - 1] == c2[step - 1],
        step >= 2 ==> c1[step - 2] == c2[step - 2],
        iv1[step - 1] == iv2[step - 1],
        step > 2 ==> iv1[step - 2] == iv2[step - 2] && iv1[step - 3] == iv2[step - 3],
        valid_spec(cantus, c1, iv1, next, step),
    ensures
        valid_spec(cantus, c2, iv2, next, step),
{
}

/// Every member of a prefixed family is a nonempty member of the family
/// with the pitch prefixed.
proof fn lemma_prepend_nonempty_members(p: Note, lines: Seq<Seq<Note>>, l: Seq<Note>)
    requires
        prepend_nonempty(p, lines).contains(l),
    ensures
        exists|t: Seq<Note>| lines.contains(t) && t.len() > 0 && l == seq![p] + t,
    decreases lines.len(),
{
    if lines.len() == 0 {
        assert(false);
    } else {
        let head = prepend_nonempty(p, lines.drop_last());
        let tailpart: Seq<Seq<Note>> = if lines.last().len() > 0 {
            seq![seq![p] + lines.last()]
        } else {
            Seq::empty()
        };
        let whole = head + tailpart;
        let i = choose|i: int| 0 <= i < whole.len() && whole[i] == l;
        if i < head.len() {
            assert(head[i] == l);
            assert(head.contains(l));
            lemma_prepend_nonempty_members(p, lines.drop_last(), l);
            let t = choose|t: Seq<Note>|
                lines.drop_last().contains(t) && t.len() > 0 && l == seq![p] + t;
            let ti = choose|ti: int|
                0 <= ti < lines.drop_last().len() && lines.drop_last()[ti] == t;
            assert(lines[ti] == t);
            assert(lines.contains(t));
        } else {
            assert(tailpart[i - head.len()] == l);
            assert(lines.last().len() > 0 && l == seq![p] + lines.last());
            assert(lines.contains(lines.last()));
        }
    }
}

/// The inductive heart of the search's guarantees, over the candidate
/// displacements from trial index `k` on at an interior step.
proof fn lemma_candidate_props(
    cantus: Seq<Note>,
    counter: Seq<Note>,
    intervals: Seq<int>,
    step: int,
    k: int,
)
    requires
        cantus_in_range(cantus),
        1 <= step < cantus.len() - 1,
        counter.len() == step,
        intervals.len() == step,
        entries_above(cantus, counter),
        prefix_matches(cantus, counter, intervals),
        0 <= k <= 14,
    ensures
        forall|l: Seq<Note>|
            #[trigger] candidate_solutions(cantus, counter, intervals, step, k).contains(l)
                ==> continuation_props(cantus, counter, step, l),
    decreases cantus.len() - step, 0int, 14 - k,
{
    let n = cantus.len();
    if k >= 14 {
    } else {
        let next = note_of_full(full_num(counter[step - 1]) + displacement_of(k));
        let rest = candidate_solutions(cantus, counter, intervals, step, k + 1);
        lemma_candidate_props(cantus, counter, intervals, step, k + 1);
        if valid_spec(cantus, counter, intervals, next, step) {
            let counter2 = counter.push(next);
            let intervals2 = intervals.push(interval_class(next, cantus[step]));
            assert(entries_above(cantus, counter2)) by {
                assert(forall|j: int| 0 <= j < counter.len() ==> counter2[j] == counter[j]);
                assert(counter2[step] == next);
                assert(full_num(cantus[step]) < full_num(next) <= full_num(cantus[step]) + 10);
            }
            assert(prefix_matches(cantus, counter2, intervals2)) by {
                assert forall|t: int| 0 <= t < counter2.len() implies intervals2[t]
                    == #[trigger] stored_ic(cantus, counter2, t) by {
                    if t < step {
                        assert(stored_ic(cantus, counter2, t) == stored_ic(cantus, counter, t));
                    } else {
                        assert(t == step && step >= 1);
                        assert(stored_ic(cantus, counter2, step) == interval_class(
                            next,
                            cantus[step],
                        ));
                    }
                }
            }
            lemma_solutions_props(cantus, counter2, intervals2, step + 1);
            let sub = solutions_from(cantus, counter2, intervals2, step + 1);
            let whole = prepend_nonempty(next, sub) + rest;
            assert(candidate_solutions(cantus, counter, intervals, step, k) == whole);
            assert forall|l: Seq<Note>| whole.contains(l) implies continuation_props(
                cantus,
                counter,
                step,
                l,
            ) by {
                let i = choose|i: int| 0 <= i < whole.len() && whole[i] == l;
                if i < prepend_nonempty(next, sub).len() {
                    assert(prepend_nonempty(next, sub)[i] == l);
                    assert(prepend_nonempty(next, sub).contains(l));
                    lemma_prepend_nonempty_members(next, sub, l);
                    let t = choose|t: Seq<Note>|
                        sub.contains(t) && t.len() > 0 && l == seq![next] + t;
                    assert(continuation_props(cantus, counter2, step + 1, t));
                    let fl = counter + l;
                    let fl2 = counter2 + t;
                    assert(fl =~= fl2);
                    assert(fl.len() == n);
                    assert(l.len() > 0);
                    assert(valid_at(cantus, fl, step)) by {
                        assert(fl[step - 1] == counter[step - 1]);
                        if step >= 2 {
                            assert(fl[step - 2] == counter[step - 2]);
                        }
                        assert(stored_ics(cantus, fl)[step - 1] == intervals[step - 1]) by {
                            assert(intervals[step - 1] == stored_ic(cantus, counter, step - 1));
                            assert(fl[step - 1] == counter[step - 1]);
                            assert(stored_ic(cantus, fl, step - 1) == stored_ic(
                                cantus,
                                counter,
                                step - 1,
                            ));
                        }
                        if step > 2 {
                            assert(stored_ics(cantus, fl)[step - 2] == intervals[step - 2]) by {
                                assert(intervals[step - 2] == stored_ic(cantus, counter, step - 2));
                                assert(stored_ic(cantus, fl, step - 2) == stored_ic(
                                    cantus,
                                    counter,
                                    step - 2,
                                ));
                            }
                            assert(stored_ics(cantus, fl)[step - 3] == intervals[step - 3]) by {
                                assert(intervals[step - 3] == stored_ic(cantus, counter, step - 3));
                                assert(stored_ic(cantus, fl, step - 3) == stored_ic(
                                    cantus,
                                    counter,
                                    step - 3,
                                ));
                            }
                        }
                        lemma_valid_agree(
                            cantus,
                            counter,
                            intervals,
                            fl,
                            stored_ics(cantus, fl),
                            next,
                            step,
                        );
                        assert(fl[step] == next);
                    }
                    assert forall|j: int| step <= j < n - 1 && j < fl.len() implies #[trigger]
                        valid_at(cantus, fl, j) by {
                        if j > step {
                            assert(valid_at(cantus, fl2, j));
                        }
                    }
                    assert(cadence_shape(cantus, fl));
                    assert(entries_above(cantus, fl));
                } else {
                    assert(rest[i - prepend_nonempty(next, sub).len()] == l);
                    assert(rest.contains(l));
                }
            }
        } else {
            assert(candidate_solutions(cantus, counter, intervals, step, k) == rest);
        }
    }
}

/// What the search guarantees of every continuation it returns from a
/// consistent partial state at step 1 or later.
proof fn lemma_solutions_props(cantus: Seq<Note>, counter: Seq<Note>, intervals: Seq<int>, step: int)
    requires
        cantus_in_range(cantus),
        1 <= step <= cantus.len() - 1,
        counter.len() == step,
        intervals.len() == step,
        entries_above(cantus, counter),
        prefix_matches(cantus, counter, intervals),
    ensures
        forall|l: Seq<Note>|
            #[trigger] solutions_from(cantus, counter, intervals, step).contains(l)
                ==> continuation_props(cantus, counter, step, l),
    decreases cantus.len() - step, 1int, 0int,
{
    let n = cantus.len();
    if step == n - 1 {
        let result = cadence_lines(counter[step - 1], cantus[step - 1]);
        assert(solutions_from(cantus, counter, intervals, step) == result);
        assert forall|l: Seq<Note>| result.contains(l) implies continuation_props(
            cantus,
            counter,
            step,
            l,
        ) by {
            let i = choose|i: int| 0 <= i < result.len() && result[i] == l;
            assert(i == 0);
            let last = counter[step - 1];
            let last_cf = cantus[step - 1];
            let fl = counter + l;
            if last.name == Name::D && last_cf.name == Name::B {
                let nxt = note_of_full(full_num(last) - 1);
                assert(l == seq![nxt]);
                assert(fl.len() == n);
                assert(fl[n - 2] == counter[step - 1]);
                assert(fl[n - 1] == nxt);
                assert(cadence_shape(cantus, fl));
                assert(entries_above(cantus, fl)) by {
                    assert(forall|j: int| 0 <= j < counter.len() ==> fl[j] == counter[j]);
                }
            } else if last.name == Name::B && last_cf.name == Name::D {
                let nxt = note_of_full(full_num(last) + 1);
                assert(l == seq![nxt]);
                assert(fl.len() == n);
                assert(fl[n - 2] == counter[step - 1]);
                assert(fl[n - 1] == nxt);
                assert(cadence_shape(cantus, fl));
                assert(entries_above(cantus, fl)) by {
                    assert(forall|j: int| 0 <= j < counter.len() ==> fl[j] == counter[j]);
                }
            } else {
                assert(l == Seq::<Note>::empty());
                assert(fl =~= counter);
                assert(entries_above(cantus, fl));
            }
        }
    } else {
        lemma_candidate_props(cantus, counter, intervals, step, 0);
        assert(solutions_from(cantus, counter, intervals, step) == candidate_solutions(
            cantus,
            counter,
            intervals,
            step,
            0,
        ));
    }
}

/// What the search guarantees of every line it enumerates for a cantus
/// firmus: the forced opening octave, validity of every freely searched
/// step, the cadential shape, and the registral band.
pub proof fn lemma_search_line_props(cantus: Seq<Note>, l: Seq<Note>)
    requires
        cantus.len() >= 1,
        cantus_in_range(cantus),
        search_spec(cantus).contains(l),
    ensures
        l.len() >= 1,
        l[0] == octave_above(cantus[0]),
        full_num(l[0]) == full_num(cantus[0]) + 7,
        cantus.len() <= 2 ==> l == seq![octave_above(cantus[0])],
        cantus.len() >= 3 ==> l.len() == cantus.len(),
        forall|j: int| 1 <= j < l.len() && j < cantus.len() - 1 ==> #[trigger] valid_at(cantus, l, j),
        cantus.len() >= 3 ==> cadence_shape(cantus, l),
        entries_above(cantus, l),
{
    let n = cantus.len();
    let first = octave_above(cantus[0]);
    assert(6 <= full_num(cantus[0]) <= 1_000_000);
    assert(0 <= cantus[0].octave <= 142857);
    assert(full_num(first) == full_num(cantus[0]) + 7);
    if n == 1 {
        assert(search_spec(cantus) == seq![seq![first]]);
        let i = choose|i: int| 0 <= i < search_spec(cantus).len() && search_spec(cantus)[i] == l;
        assert(l == seq![first]);
        assert(entries_above(cantus, l));
    } else {
        let sub = solutions_from(cantus, seq![first], seq![1int], 1);
        assert(search_spec(cantus) == prepend_all(first, sub));
        let i = choose|i: int|
            0 <= i < prepend_all(first, sub).len() && prepend_all(first, sub)[i] == l;
        let t = sub[i];
        assert(sub.contains(t));
        assert(l == seq![first] + t);
        assert(entries_above(cantus, seq![first])) by {
            assert(seq![first][0] == first);
        }
        assert(prefix_matches(cantus, seq![first], seq![1int])) by {
            lemma_tmod7_octave();
            assert(stored_ic(cantus, seq![first], 0) == 1);
            assert(seq![1int][0] == 1);
        }
        lemma_solutions_props(cantus, seq![first], seq![1int], 1);
        assert(continuation_props(cantus, seq![first], 1, t));
        let fl = seq![first] + t;
        assert(fl == l);
        assert(l[0] == first);
        if t.len() == 0 {
            assert(n == 2);
            assert(l =~= seq![first]);
        } else {
            assert(l.len() == n);
            if n == 2 {
                // the cadence cannot fire over the opening octave: the opening
                // keeps the cantus's letter name, and the cadence needs two
                // different ones
                assert(cadence_shape(cantus, fl));
                assert(fl[0] == first);
                assert(first.name == cantus[0].name);
                assert(false);
            }
            assert(cadence_shape(cantus, l));
        }
        assert forall|j: int| 1 <= j < l.len() && j < n - 1 implies #[trigger] valid_at(
            cantus,
            l,
            j,
        ) by {
            assert(valid_at(cantus, fl, j));
        }
        assert(entries_above(cantus, l));
    }
}

/// Law: every pitch of a generated line sounds strictly above its cantus
/// pitch at the opening and at every freely searched step (the final pitch
/// of a cadenced line is placed by the fixed resolution instead, which may
/// land on the cantus).
pub proof fn lemma_line_above_cantus(cantus: Seq<Note>, l: Seq<Note>, i: int)
    requires
        cantus.len() >= 1,
        cantus_in_range(cantus),
        search_spec(cantus).contains(l),
        0 <= i < l.len(),
        i == 0 || i < cantus.len() - 1,
    ensures
        full_num(l[i]) > full_num(cantus[i]),
{
    lemma_search_line_props(cantus, l);
}

/// Law: the vertical interval class at the opening and at every freely
/// searched step is never a second, fourth or seventh.
pub proof fn lemma_no_dissonance(cantus: Seq<Note>, l: Seq<Note>, i: int)
    requires
        cantus.len() >= 1,
        cantus_in_range(cantus),
        search_spec(cantus).contains(l),
        0 <= i < l.len(),
        i == 0 || i < cantus.len() - 1,
    ensures
        interval_class(l[i], cantus[i]) != 2,
        interval_class(l[i], cantus[i]) != 4,
        interval_class(l[i], cantus[i]) != 7,
{
    lemma_search_line_props(cantus, l);
    if i == 0 {
        lemma_tmod7_octave();
        assert(full_num(l[0]) - full_num(cantus[0]) == 7);
        assert(interval_class(l[0], cantus[0]) == 1);
    } else {
        assert(valid_at(cantus, l, i));
    }
}

/// Law: no two consecutive perfect fifths and no two consecutive
/// unisons/octaves sound anywhere in a generated line.  The rule guards
/// every freely searched pair, the forced opening's octave included, and a
/// cadence only ever follows an imperfect consonance.
pub proof fn lemma_no_consecutive_perfect(cantus: Seq<Note>, l: Seq<Note>, i: int)
    requires
        cantus.len() >= 1,
        cantus_in_range(cantus),
        search_spec(cantus).contains(l),
        1 <= i < l.len(),
    ensures
        !(interval_class(l[i - 1], cantus[i - 1]) == 5 && interval_class(l[i], cantus[i]) == 5),
        !(interval_class(l[i - 1], cantus[i - 1]) == 1 && interval_class(l[i], cantus[i]) == 1),
{
    lemma_search_line_props(cantus, l);
    let n = cantus.len();
    if i < n - 1 {
        assert(valid_at(cantus, l, i));
        assert(stored_ics(cantus, l)[i - 1] == interval_class(l[i - 1], cantus[i - 1]));
        lemma_tmod7_octave();
    } else {
        // the cadence pair: the pitch before a cadence sounds a third over a
        // cantus B or a sixth over a cantus D, never a perfect consonance
        assert(n >= 3);
        assert(cadence_shape(cantus, l));
        assert(full_num(cantus[n - 2]) < full_num(l[n - 2]) <= full_num(cantus[n - 2]) + 10);
        let diff = full_num(l[n - 2]) - full_num(cantus[n - 2]);
        if l[n - 2].name == Name::D && cantus[n - 2].name == Name::B {
            assert(full_num(l[n - 2]) == l[n - 2].octave * 7 + 1);
            assert(full_num(cantus[n - 2]) == cantus[n - 2].octave * 7 + 6);
            assert(diff == 2 || diff == 9);
            assert(interval_class(l[n - 2], cantus[n - 2]) == 3);
        } else {
            assert(full_num(l[n - 2]) == l[n - 2].octave * 7 + 6);
            assert(full_num(cantus[n - 2]) == cantus[n - 2].octave * 7 + 1);
            assert(diff == 5);
            assert(interval_class(l[n - 2], cantus[n - 2]) == 6);
        }
    }
}

/// Law: every melodic move after the first is at most five diatonic steps;
/// the cadential resolution moves exactly one.
pub proof fn lemma_melodic_leap_cap(cantus: Seq<Note>, l: Seq<Note>, i: int)
    requires
        cantus.len() >= 1,
        cantus_in_range(cantus),
        search_spec(cantus).contains(l),
        2 <= i < l.len(),
    ensures
        -5 <= full_num(l[i]) - full_num(l[i - 1]) <= 5,
{
    lemma_search_line_props(cantus, l);
    let n = cantus.len();
    assert(n >= 3);
    if i < n - 1 {
        assert(valid_at(cantus, l, i));
    } else {
        assert(cadence_shape(cantus, l));
        assert(full_num(cantus[n - 2]) < full_num(l[n - 2]) <= full_num(cantus[n - 2]) + 10);
        if l[n - 2].name == Name::D && cantus[n - 2].name == Name::B {
            lemma_note_of_full_id(full_num(l[n - 2]) - 1);
        } else {
            lemma_note_of_full_id(full_num(l[n - 2]) + 1);
        }
    }
}

/// Law: every generated line opens exactly one octave above the cantus's
/// first pitch.
pub proof fn lemma_opening_octave(cantus: Seq<Note>, l: Seq<Note>)
    requires
        cantus.len() >= 1,
        cantus_in_range(cantus),
        search_spec(cantus).contains(l),
    ensures
        l.len() >= 1,
        l[0] == octave_above(cantus[0]),
        full_num(l[0]) == full_num(cantus[0]) + 7,
{
    lemma_search_line_props(cantus, l);
}

} // verus!
