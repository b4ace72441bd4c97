//! Candidate scoring and deterministic selection.
//!
//! Every line the search engine returns is scored on melodic smoothness
//! (the *motion score*: total absolute diatonic distance travelled) and on
//! harmonic variety (the *variety score*: the product of the occurrence
//! counts of the distinct vertical differences, so a line that repeats one
//! vertical interval many times is punished super-linearly).  The selector
//! picks the line with the minimal combined score, resolving ties to the
//! line the search found first.

use vstd::prelude::*;
use crate::pitch::{Name, Note, full_num, lemma_note_of_full_id, note_of_full};
use crate::search::{
    cadence_shape, cantus_in_range, int_view, lemma_search_line_props, search, search_spec, views,
};

verus! {

/// The absolute value of a diatonic distance.
pub open spec fn abs_of(x: int) -> int {
    if x < 0 {
        -x
    } else {
        x
    }
}

/// The motion score of a line: the total absolute diatonic distance of its
/// consecutive melodic moves; lower means smoother.
pub open spec fn motion_score(l: Seq<Note>) -> int
    decreases l.len(),
{
    if l.len() <= 1 {
        0
    } else {
        motion_score(l.drop_last()) + abs_of(
            full_num(l[l.len() - 1]) - full_num(l[l.len() - 2]),
        )
    }
}

/// The raw signed vertical differences of a line against the cantus,
/// one per step.
pub open spec fn vertical_diffs(cantus: Seq<Note>, l: Seq<Note>) -> Seq<int> {
    Seq::new(l.len(), |i: int| full_num(l[i]) - full_num(cantus[i]))
}

/// How often a value occurs in a sequence.
pub open spec fn count_of(s: Seq<int>, v: int) -> int
    decreases s.len(),
{
    if s.len() == 0 {
        0
    } else {
        count_of(s.drop_last(), v) + if s.last() == v {
            1int
        } else {
            0int
        }
    }
}

/// Whether position `i` holds the first occurrence of its value.
pub open spec fn first_occurrence(s: Seq<int>, i: int) -> bool {
    forall|j: int| 0 <= j < i ==> s[j] != s[i]
}

/// The product, over the distinct values among the first `i` positions, of
/// each value's occurrence count in the whole sequence.
pub open spec fn variety_upto(s: Seq<int>, i: int) -> int
    decreases i,
{
    if i <= 0 {
        1
    } else {
        variety_upto(s, i - 1) * (if first_occurrence(s, i - 1) {
            count_of(s, s[i - 1])
        } else {
            1int
        })
    }
}

/// The variety score of a line: the product of the occurrence counts of
/// its distinct vertical differences against the cantus.
pub open spec fn variety_score(cantus: Seq<Note>, l: Seq<Note>) -> int {
    variety_upto(vertical_diffs(cantus, l), l.len() as int)
}

/// The combined score: motion plus variety; smaller is better.
pub open spec fn combined_score(cantus: Seq<Note>, l: Seq<Note>) -> int {
    motion_score(l) + variety_score(cantus, l)
}

/// An occurrence count is never negative and never above the length.
proof fn lemma_count_range(s: Seq<int>, v: int)
    ensures
        0 <= count_of(s, v) <= s.len(),
    decreases s.len(),
{
    if s.len() == 0 {
    } else {
        lemma_count_range(s.drop_last(), v);
    }
}

/// A value that occurs is counted at least once.
proof fn lemma_count_pos(s: Seq<int>, i: int)
    requires
        0 <= i < s.len(),
    ensures
        count_of(s, s[i]) >= 1,
    decreases s.len(),
{
    if i == s.len() - 1 {
        lemma_count_range(s.drop_last(), s[i]);
    } else {
        lemma_count_pos(s.drop_last(), i);
        assert(s.drop_last()[i] == s[i]);
        lemma_count_range(s, s[i]);
    }
}

/// A variety product is at least one.
proof fn lemma_variety_pos(s: Seq<int>, i: int)
    requires
        i <= s.len(),
    ensures
        variety_upto(s, i) >= 1,
    decreases i,
{
    if i <= 0 {
    } else {
        lemma_variety_pos(s, i - 1);
        let f = if first_occurrence(s, i - 1) {
            count_of(s, s[i - 1])
        } else {
            1int
        };
        if first_occurrence(s, i - 1) {
            lemma_count_pos(s, i - 1);
        }
        assert(variety_upto(s, i - 1) * f >= 1) by (nonlinear_arith)
            requires
                variety_upto(s, i - 1) >= 1,
                f >= 1,
        ;
    }
}

/// A variety product only grows as more positions are taken in.
proof fn lemma_variety_mono(s: Seq<int>, i: int, j: int)
    requires
        0 <= i <= j <= s.len(),
    ensures
        variety_upto(s, i) <= variety_upto(s, j),
    decreases j - i,
{
    if i == j {
    } else {
        lemma_variety_mono(s, i, j - 1);
        lemma_variety_pos(s, j - 1);
        let f = if first_occurrence(s, j - 1) {
            count_of(s, s[j - 1])
        } else {
            1int
        };
        if first_occurrence(s, j - 1) {
            lemma_count_pos(s, j - 1);
        }
        assert(variety_upto(s, j - 1) * f >= variety_upto(s, j - 1)) by (nonlinear_arith)
            requires
                variety_upto(s, j - 1) >= 1,
                f >= 1,
        ;
    }
}

/// Twenty-six to the `i`-th power.
spec fn pow26(i: int) -> int
    decreases i,
{
    if i <= 0 {
        1
    } else {
        26 * pow26(i - 1)
    }
}

proof fn lemma_pow26_pos(i: int)
    ensures
        pow26(i) >= 1,
    decreases i,
{
    if i <= 0 {
    } else {
        lemma_pow26_pos(i - 1);
    }
}

proof fn lemma_pow26_mono(i: int, j: int)
    requires
        i <= j,
    ensures
        pow26(i) <= pow26(j),
    decreases j - i,
{
    if i >= j {
    } else {
        lemma_pow26_mono(i, j - 1);
        lemma_pow26_pos(j - 1);
    }
}

/// With at most twenty-six positions, a variety product is at most
/// twenty-six to the twenty-sixth.
proof fn lemma_variety_bound(s: Seq<int>, i: int)
    requires
        0 <= i <= s.len(),
        s.len() <= 26,
    ensures
        variety_upto(s, i) <= pow26(i),
    decreases i,
{
    if i <= 0 {
    } else {
        lemma_variety_bound(s, i - 1);
        lemma_variety_pos(s, i - 1);
        lemma_pow26_pos(i - 1);
        let f = if first_occurrence(s, i - 1) {
            count_of(s, s[i - 1])
        } else {
            1int
        };
        lemma_count_range(s, s[i - 1]);
        if first_occurrence(s, i - 1) {
            lemma_count_pos(s, i - 1);
        }
        assert(1 <= f <= 26);
        assert(variety_upto(s, i - 1) * f <= pow26(i - 1) * 26) by (nonlinear_arith)
            requires
                1 <= variety_upto(s, i - 1) <= pow26(i - 1),
                1 <= f <= 26,
        ;
    }
}

/// A motion score is never negative.
proof fn lemma_motion_nonneg(l: Seq<Note>)
    ensures
        motion_score(l) >= 0,
    decreases l.len(),
{
    if l.len() <= 1 {
    } else {
        lemma_motion_nonneg(l.drop_last());
    }
}

/// A prefix travels no farther than the whole line.
proof fn lemma_motion_take_le(l: Seq<Note>, i: int)
    requires
        0 <= i <= l.len(),
    ensures
        motion_score(l.take(i)) <= motion_score(l),
    decreases l.len() - i,
{
    if i == l.len() {
        assert(l.take(i) =~= l);
    } else {
        assert(l.drop_last().take(i) =~= l.take(i));
        lemma_motion_take_le(l.drop_last(), i);
    }
}

/// With every pitch inside a band, the total motion is bounded by the
/// band's width times the number of pitches.
proof fn lemma_motion_bound(l: Seq<Note>, b: int)
    requires
        b >= 0,
        forall|j: int| 0 <= j < l.len() ==> 0 <= #[trigger] full_num(l[j]) <= b,
    ensures
        motion_score(l) <= l.len() * b,
    decreases l.len(),
{
    if l.len() <= 1 {
        assert(l.len() * b >= 0) by (nonlinear_arith)
            requires
                b >= 0,
                l.len() >= 0,
        ;
    } else {
        assert(forall|j: int|
            0 <= j < l.drop_last().len() ==> 0 <= #[trigger] full_num(l.drop_last()[j]) <= b);
        lemma_motion_bound(l.drop_last(), b);
        assert((l.len() - 1) * b + b == l.len() * b) by (nonlinear_arith);
    }
}

/// The motion score of a line, computed.
pub fn line_motion_score(l: &Vec<Note>) -> (r: u128)
    requires
        motion_score(l@) <= u128::MAX,
    ensures
        r == motion_score(l@),
{
    if l.len() == 0 {
        return 0;
    }
    let mut acc: u128 = 0;
    let mut i: usize = 1;
    proof {
        assert(l@.take(1int).len() == 1);
    }
    while i < l.len()
        invariant
            1 <= i <= l@.len(),
            l@.len() >= 1,
            motion_score(l@) <= u128::MAX,
            acc == motion_score(l@.take(i as int)),
        decreases l@.len() - i,
    {
        let a = l[i].to_number_full();
        let b = l[i - 1].to_number_full();
        let d: i64 = a - b;
        let ad: i64 = if d < 0 {
            -d
        } else {
            d
        };
        proof {
            assert(l@.take(i + 1).drop_last() =~= l@.take(i as int));
            assert(l@.take(i + 1)[i as int] == l@[i as int]);
            assert(l@.take(i + 1)[i - 1] == l@[i - 1]);
            assert(motion_score(l@.take(i + 1)) == motion_score(l@.take(i as int)) + ad);
            lemma_motion_take_le(l@, i + 1);
            lemma_motion_nonneg(l@.take(i as int));
        }
        acc = acc + (ad as u128);
        i += 1;
    }
    proof {
        assert(l@.take(l@.len() as int) =~= l@);
    }
    acc
}

/// How often a difference occurs in the list.
fn count_in(s: &Vec<i64>, v: i64) -> (c: usize)
    ensures
        c == count_of(int_view(s@), v as int),
        c <= s@.len(),
{
    let mut c: usize = 0;
    let mut i: usize = 0;
    proof {
        assert(int_view(s@).take(0).len() == 0);
    }
    while i < s.len()
        invariant
            i <= s@.len(),
            c <= i,
            c == count_of(int_view(s@).take(i as int), v as int),
        decreases s@.len() - i,
    {
        proof {
            assert(int_view(s@).take(i + 1).drop_last() =~= int_view(s@).take(i as int));
            assert(int_view(s@).take(i + 1).last() == int_view(s@)[i as int]);
        }
        if s[i] == v {
            c = c + 1;
        }
        i += 1;
    }
    proof {
        assert(int_view(s@).take(s@.len() as int) =~= int_view(s@));
    }
    c
}

/// Whether position `i` holds the first occurrence of its value.
fn is_first_occurrence(s: &Vec<i64>, i: usize) -> (r: bool)
    requires
        i < s@.len(),
    ensures
        r == first_occurrence(int_view(s@), i as int),
{
    let mut j: usize = 0;
    while j < i
        invariant
            j <= i < s@.len(),
            forall|t: int| 0 <= t < j ==> int_view(s@)[t] != int_view(s@)[i as int],
        decreases i - j,
    {
        if s[j] == s[i] {
            proof {
                assert(int_view(s@)[j as int] == int_view(s@)[i as int]);
            }
            return false;
        }
        j += 1;
    }
    true
}

/// The variety score of a line against the cantus, computed.
pub fn line_variety_score(cantus: &Vec<Note>, l: &Vec<Note>) -> (r: u128)
    requires
        l@.len() <= cantus@.len(),
        variety_score(cantus@, l@) <= u128::MAX,
    ensures
        r == variety_score(cantus@, l@),
{
    let ghost s = vertical_diffs(cantus@, l@);
    let mut diffs: Vec<i64> = Vec::new();
    let mut i: usize = 0;
    proof {
        assert(int_view(diffs@) =~= s.take(0));
    }
    while i < l.len()
        invariant
            i <= l@.len() <= cantus@.len(),
            s == vertical_diffs(cantus@, l@),
            diffs@.len() == i,
            int_view(diffs@) == s.take(i as int),
        decreases l@.len() - i,
    {
        let d: i64 = l[i].to_number_full() - cantus[i].to_number_full();
        diffs.push(d);
        proof {
            assert(int_view(diffs@) =~= s.take(i as int).push(s[i as int]));
            assert(s.take(i + 1) =~= s.take(i as int).push(s[i as int]));
        }
        i += 1;
    }
    proof {
        assert(s.take(l@.len() as int) =~= s);
    }
    let mut acc: u128 = 1;
    let mut t: usize = 0;
    while t < diffs.len()
        invariant
            t <= diffs@.len(),
            diffs@.len() == l@.len(),
            s == vertical_diffs(cantus@, l@),
            int_view(diffs@) == s,
            s.len() == l@.len(),
            variety_upto(s, s.len() as int) <= u128::MAX,
            acc == variety_upto(s, t as int),
        decreases diffs@.len() - t,
    {
        let fo = is_first_occurrence(&diffs, t);
        let f: u128 = if fo {
            let c = count_in(&diffs, diffs[t]);
            c as u128
        } else {
            1
        };
        proof {
            if fo {
                lemma_count_pos(s, t as int);
            }
            assert(f >= 1);
            assert(variety_upto(s, t + 1) == variety_upto(s, t as int) * (f as int));
            lemma_variety_mono(s, t + 1, s.len() as int);
            lemma_variety_pos(s, t as int);
        }
        acc = acc * f;
        t += 1;
    }
    acc
}

/// The combined score of a candidate line, computed: motion plus variety.
pub fn line_score(cantus: &Vec<Note>, l: &Vec<Note>) -> (r: u128)
    requires
        l@.len() <= cantus@.len(),
        combined_score(cantus@, l@) <= u128::MAX,
    ensures
        r == combined_score(cantus@, l@),
{
    proof {
        lemma_motion_nonneg(l@);
        lemma_variety_pos(vertical_diffs(cantus@, l@), l@.len() as int);
    }
    let m = line_motion_score(l);
    let v = line_variety_score(cantus, l);
    m + v
}

/// The index of the best-scoring candidate: the smallest combined score,
/// ties resolved to the line that appears first.
pub open spec fn best_index(cantus: Seq<Note>, opts: Seq<Seq<Note>>) -> int
    decreases opts.len(),
{
    if opts.len() <= 1 {
        0
    } else {
        let prev = best_index(cantus, opts.drop_last());
        if combined_score(cantus, opts.last()) < combined_score(cantus, opts[prev]) {
            opts.len() - 1
        } else {
            prev
        }
    }
}

/// Law: the chosen index is in range, achieves the minimum combined score,
/// and is the first index to achieve it.
pub proof fn lemma_best_index_first_min(cantus: Seq<Note>, opts: Seq<Seq<Note>>)
    requires
        opts.len() >= 1,
    ensures
        0 <= best_index(cantus, opts) < opts.len(),
        forall|k: int|
            0 <= k < opts.len() ==> combined_score(cantus, opts[best_index(cantus, opts)])
                <= combined_score(cantus, #[trigger] opts[k]),
        forall|k: int|
            0 <= k < best_index(cantus, opts) ==> combined_score(cantus, #[trigger] opts[k])
                > combined_score(cantus, opts[best_index(cantus, opts)]),
    decreases opts.len(),
{
    if opts.len() == 1 {
    } else {
        lemma_best_index_first_min(cantus, opts.drop_last());
        assert(forall|k: int| 0 <= k < opts.len() - 1 ==> opts.drop_last()[k] == #[trigger] opts[k]);
    }
}

/// Scores every candidate line and picks the best deterministically:
/// minimal combined score, the first found on a tie.  `None` exactly when
/// the candidate set is empty — an empty search result is reported, never
/// an error.
pub fn select_counterpoint(cantus: &Vec<Note>, options: &Vec<Vec<Note>>) -> (r: Option<Vec<Note>>)
    requires
        forall|k: int| 0 <= k < options@.len() ==> (#[trigger] views(options@)[k]).len()
            <= cantus@.len(),
        forall|k: int|
            0 <= k < options@.len() ==> combined_score(cantus@, #[trigger] views(options@)[k])
                <= u128::MAX,
    ensures
        (r is Some) <==> options@.len() > 0,
        r matches Some(b) ==> b@ == views(options@)[best_index(cantus@, views(options@))],
{
    if options.len() == 0 {
        return None;
    }
    let ghost opts = views(options@);
    proof {
        assert(forall|t: int| 0 <= t < options@.len() ==> #[trigger] opts[t] == options@[t]@);
    }
    let mut bi: usize = 0;
    proof {
        assert(views(options@)[0] == options@[0]@);
        assert(views(options@)[0].len() <= cantus@.len());
        assert(combined_score(cantus@, views(options@)[0]) <= u128::MAX);
    }
    let mut bs: u128 = line_score(cantus, &options[0]);
    let mut k: usize = 1;
    proof {
        assert(opts.take(1int).len() == 1);
        assert(best_index(cantus@, opts.take(1int)) == 0);
        assert(opts.take(1int)[0] == opts[0]);
    }
    while k < options.len()
        invariant
            1 <= k <= options@.len(),
            options@.len() >= 1,
            opts == views(options@),
            opts.len() == options@.len(),
            forall|t: int| 0 <= t < options@.len() ==> (#[trigger] opts[t]).len() <= cantus@.len(),
            forall|t: int|
                0 <= t < options@.len() ==> combined_score(cantus@, #[trigger] opts[t])
                    <= u128::MAX,
            (bi as int) < k,
            bi as int == best_index(cantus@, opts.take(k as int)),
            bs == combined_score(cantus@, opts[bi as int]),
        decreases options@.len() - k,
    {
        proof {
            assert(opts[k as int] == options@[k as int]@);
        }
        let sc = line_score(cantus, &options[k]);
        proof {
            let pre = opts.take(k as int);
            let now = opts.take(k + 1);
            assert(now.drop_last() =~= pre);
            assert(now.last() == opts[k as int]);
            assert(now[bi as int] == opts[bi as int]);
            assert(now.len() == k + 1 >= 2);
        }
        if sc < bs {
            bi = k;
            bs = sc;
        }
        k += 1;
    }
    proof {
        assert(opts.take(options@.len() as int) =~= opts);
    }
    let best = &options[bi];
    let mut out: Vec<Note> = Vec::new();
    let mut i: usize = 0;
    while i < best.len()
        invariant
            i <= best@.len(),
            out@ == best@.take(i as int),
        decreases best@.len() - i,
    {
        out.push(best[i]);
        proof {
            assert(best@.take(i + 1) =~= best@.take(i as int).push(best@[i as int]));
        }
        i += 1;
    }
    proof {
        assert(best@.take(best@.len() as int) =~= best@);
    }
    Some(out)
}

/// The selected line for a cantus firmus: of all lines the rules admit, one
/// with minimal combined score, the first found on ties; `None` when the
/// rules admit no line at all.
pub open spec fn compose_spec(cantus: Seq<Note>) -> Option<Seq<Note>> {
    let opts = search_spec(cantus);
    if opts.len() == 0 {
        None
    } else {
        Some(opts[best_index(cantus, opts)])
    }
}

/// The view of an optional line.
pub open spec fn line_view(r: Option<Vec<Note>>) -> Option<Seq<Note>> {
    match r {
        Some(v) => Some(v@),
        None => None,
    }
}

/// Any line the search returns for a short cantus keeps every pitch inside
/// a narrow band, so its combined score fits a machine word.
proof fn lemma_combined_score_bound(cantus: Seq<Note>, l: Seq<Note>)
    requires
        1 <= cantus.len() <= 26,
        cantus_in_range(cantus),
        search_spec(cantus).contains(l),
    ensures
        0 <= combined_score(cantus, l) <= u128::MAX,
        l.len() <= cantus.len(),
{
    lemma_search_line_props(cantus, l);
    let n = cantus.len();
    assert forall|j: int| 0 <= j < l.len() implies 0 <= #[trigger] full_num(l[j]) <= 1_000_011 by {
        if j == 0 {
            assert(full_num(l[0]) == full_num(cantus[0]) + 7);
        } else if j < n - 1 {
            assert(full_num(cantus[j]) < full_num(l[j]) <= full_num(cantus[j]) + 10);
        } else {
            assert(n >= 3);
            assert(cadence_shape(cantus, l));
            assert(full_num(cantus[n - 2]) < full_num(l[n - 2]) <= full_num(cantus[n - 2]) + 10);
            if l[n - 2].name == Name::D && cantus[n - 2].name == Name::B {
                lemma_note_of_full_id(full_num(l[n - 2]) - 1);
            } else {
                lemma_note_of_full_id(full_num(l[n - 2]) + 1);
            }
        }
    }
    assert(l.len() <= cantus.len());
    assert(l.len() <= 26);
    lemma_motion_bound(l, 1_000_011);
    assert(l.len() * 1_000_011 <= 26 * 1_000_011) by (nonlinear_arith)
        requires
            l.len() <= 26,
    ;
    lemma_motion_nonneg(l);
    let s = vertical_diffs(cantus, l);
    assert(s.len() == l.len());
    lemma_variety_pos(s, l.len() as int);
    lemma_variety_bound(s, l.len() as int);
    lemma_pow26_mono(l.len() as int, 26);
    assert(pow26(26) <= 10_000_000_000_000_000_000_000_000_000_000_000_000) by {
        reveal_with_fuel(pow26, 28);
    }
    assert(motion_score(l) <= 26 * 1_000_011);
    assert(variety_score(cantus, l) <= 10_000_000_000_000_000_000_000_000_000_000_000_000);
}

/// Searches and selects: the single best counterpoint line for the cantus
/// firmus, `None` exactly when the rules admit no line at all.
pub fn best_counterpoint(cantus: &Vec<Note>) -> (r: Option<Vec<Note>>)
    requires
        1 <= cantus@.len() <= 26,
        cantus_in_range(cantus@),
    ensures
        line_view(r) == compose_spec(cantus@),
        (r is None) <==> search_spec(cantus@).len() == 0,
{
    let options = search(cantus);
    proof {
        let opts = views(options@);
        assert forall|k: int| 0 <= k < options@.len() implies (#[trigger] opts[k]).len()
            <= cantus@.len() && combined_score(cantus@, opts[k]) <= u128::MAX by {
            assert(search_spec(cantus@)[k] == opts[k]);
            assert(search_spec(cantus@).contains(opts[k]));
            lemma_combined_score_bound(cantus@, opts[k]);
        }
    }
    select_counterpoint(cantus, &options)
}

/// Law: the engine and the selector are deterministic — two results for
/// the same cantus firmus are the same line.
pub proof fn lemma_deterministic(cantus: Seq<Note>, r1: Option<Seq<Note>>, r2: Option<Seq<Note>>)
    requires
        r1 == compose_spec(cantus),
        r2 == compose_spec(cantus),
    ensures
        r1 == r2,
{
}

} // verus!
