//! The diatonic pitch model: letter names, accidentals, octaves, and the
//! arithmetic the counterpoint rules are built on.
//!
//! A pitch is placed on the diatonic scale by its *full diatonic number*,
//! `octave * 7 + degree`, a single scalar that totally orders pitches and
//! whose differences are distances in scale steps.  Accidentals shift the
//! audible frequency by a semitone but never take part in diatonic
//! arithmetic.

use vstd::prelude::*;
use vstd::pervasive::unreached;

verus! {

/// One of the seven letter-named scale steps, ordered cyclically
/// C < D < E < F < G < A < B and encoded as the degrees 0..6.
#[derive(Clone, Copy, Debug, PartialEq, Eq, Structural)]
pub enum Name {
    C,
    D,
    E,
    F,
    G,
    A,
    B,
}

/// A chromatic alteration.  It moves the audible frequency by one semitone
/// and never enters diatonic distance computations.
#[derive(Clone, Copy, Debug, PartialEq, Eq, Structural)]
pub enum Accidental {
    Natural,
    Sharp,
    Flat,
}

/// A diatonic pitch: a letter name, an accidental, and an octave.
/// Values are immutable; new pitches are always constructed afresh.
#[derive(Clone, Copy, Debug, PartialEq, Eq, Structural)]
pub struct Note {
    pub name: Name,
    pub accidental: Accidental,
    pub octave: i32,
}

/// The scale degree of a letter name, in 0..6.
pub open spec fn name_num(n: Name) -> int {
    match n {
        Name::C => 0,
        Name::D => 1,
        Name::E => 2,
        Name::F => 3,
        Name::G => 4,
        Name::A => 5,
        Name::B => 6,
    }
}

/// The letter name of a scale degree: the inverse of `name_num` on 0..6.
pub open spec fn name_of_num(k: int) -> Name {
    if k == 0 {
        Name::C
    } else if k == 1 {
        Name::D
    } else if k == 2 {
        Name::E
    } else if k == 3 {
        Name::F
    } else if k == 4 {
        Name::G
    } else if k == 5 {
        Name::A
    } else {
        Name::B
    }
}

/// The semitone offset of a letter name within its octave.
pub open spec fn name_semitones(n: Name) -> int {
    match n {
        Name::C => 0,
        Name::D => 2,
        Name::E => 4,
        Name::F => 5,
        Name::G => 7,
        Name::A => 9,
        Name::B => 11,
    }
}

/// The semitone shift of an accidental.
pub open spec fn accidental_semitones(a: Accidental) -> int {
    match a {
        Accidental::Natural => 0,
        Accidental::Sharp => 1,
        Accidental::Flat => -1,
    }
}

/// The full diatonic number of a pitch: `octave * 7 + degree`.
pub open spec fn full_num(p: Note) -> int {
    p.octave * 7 + name_num(p.name)
}

/// The natural pitch a nonnegative full diatonic number stands for,
/// splitting it into degree and octave by remainder and division against 7.
pub open spec fn note_of_full(n: int) -> Note {
    Note { name: name_of_num(n % 7), accidental: Accidental::Natural, octave: (n / 7) as i32 }
}

/// Truncating remainder by 7: the result takes the sign of the dividend,
/// so for example `-5` stays `-5`.  The rule thresholds of the search are
/// calibrated against this remainder, not the flooring one.
pub open spec fn tmod7(a: int) -> int {
    if a >= 0 {
        a % 7
    } else {
        -((-a) % 7)
    }
}

/// The vertical interval class between a counterpoint pitch and the cantus
/// pitch it sounds against: the diatonic distance reduced to within one
/// octave, plus one.  For a counterpoint above the cantus it lies in 1..7;
/// 1 and 5 are the perfect consonances, 3 and 6 the imperfect ones, and
/// 2, 4 and 7 are dissonant.
pub open spec fn interval_class(cp: Note, cf: Note) -> int {
    tmod7(full_num(cp) - full_num(cf)) + 1
}

/// The letter name a one-character token stands for.
pub open spec fn name_of_char(c: char) -> Option<Name> {
    if c == 'c' {
        Some(Name::C)
    } else if c == 'd' {
        Some(Name::D)
    } else if c == 'e' {
        Some(Name::E)
    } else if c == 'f' {
        Some(Name::F)
    } else if c == 'g' {
        Some(Name::G)
    } else if c == 'a' {
        Some(Name::A)
    } else if c == 'b' {
        Some(Name::B)
    } else {
        None
    }
}

/// The letter name a textual token stands for: exactly one recognized letter.
pub open spec fn name_of_token(s: Seq<char>) -> Option<Name> {
    if s.len() == 1 {
        name_of_char(s[0])
    } else {
        None
    }
}

/// The accidental a textual token stands for: empty for natural,
/// `s` for sharp, `f` for flat.
pub open spec fn accidental_of_token(s: Seq<char>) -> Option<Accidental> {
    if s.len() == 0 {
        Some(Accidental::Natural)
    } else if s.len() == 1 && s[0] == 's' {
        Some(Accidental::Sharp)
    } else if s.len() == 1 && s[0] == 'f' {
        Some(Accidental::Flat)
    } else {
        None
    }
}

/// The value of a decimal digit character.
pub open spec fn digit_of_char(c: char) -> Option<int> {
    if c == '0' {
        Some(0)
    } else if c == '1' {
        Some(1)
    } else if c == '2' {
        Some(2)
    } else if c == '3' {
        Some(3)
    } else if c == '4' {
        Some(4)
    } else if c == '5' {
        Some(5)
    } else if c == '6' {
        Some(6)
    } else if c == '7' {
        Some(7)
    } else if c == '8' {
        Some(8)
    } else if c == '9' {
        Some(9)
    } else {
        None
    }
}

/// The pitch a textual token stands for, shaped
/// `<letter><optional accidental letter><octave digit>`, such as `c4`,
/// `fs3` or `bf5`.  `None` on an unrecognized letter, accidental or octave.
pub open spec fn note_of_token(s: Seq<char>) -> Option<Note> {
    if s.len() < 2 || s.len() > 3 {
        None
    } else {
        match (name_of_char(s[0]), accidental_of_token(s.subrange(1, s.len() - 1)), digit_of_char(
            s[s.len() - 1],
        )) {
            (Some(nm), Some(acc), Some(d)) => Some(
                Note { name: nm, accidental: acc, octave: d as i32 },
            ),
            _ => None,
        }
    }
}

impl Name {
    /// The letter name a recognized one-letter token denotes.
    pub fn from_string(s: &str) -> (r: Name)
        requires
            name_of_token(s@) is Some,
        ensures
            Some(r) == name_of_token(s@),
    {
        let c = s.get_char(0);
        if c == 'c' {
            Name::C
        } else if c == 'd' {
            Name::D
        } else if c == 'e' {
            Name::E
        } else if c == 'f' {
            Name::F
        } else if c == 'g' {
            Name::G
        } else if c == 'a' {
            Name::A
        } else if c == 'b' {
            Name::B
        } else {
            unreached()
        }
    }

    /// The letter name of a scale degree in 0..6.
    pub fn from_number(n: i32) -> (r: Name)
        requires
            0 <= n < 7,
        ensures
            r == name_of_num(n as int),
    {
        if n == 0 {
            Name::C
        } else if n == 1 {
            Name::D
        } else if n == 2 {
            Name::E
        } else if n == 3 {
            Name::F
        } else if n == 4 {
            Name::G
        } else if n == 5 {
            Name::A
        } else {
            Name::B
        }
    }

    /// The scale degree of this letter name, in 0..6.
    pub fn to_number(&self) -> (n: i32)
        ensures
            n == name_num(*self),
    {
        match *self {
            Name::C => 0,
            Name::D => 1,
            Name::E => 2,
            Name::F => 3,
            Name::G => 4,
            Name::A => 5,
            Name::B => 6,
        }
    }

    /// The semitone offset of this letter name within its octave.
    pub fn offset(&self) -> (n: i32)
        ensures
            n == name_semitones(*self),
    {
        match *self {
            Name::C => 0,
            Name::D => 2,
            Name::E => 4,
            Name::F => 5,
            Name::G => 7,
            Name::A => 9,
            Name::B => 11,
        }
    }
}

impl Accidental {
    /// The accidental a recognized token denotes: empty, `s`, or `f`.
    pub fn from(s: &str) -> (r: Accidental)
        requires
            accidental_of_token(s@) is Some,
        ensures
            Some(r) == accidental_of_token(s@),
    {
        let len = s.unicode_len();
        if len == 0 {
            Accidental::Natural
        } else {
            let c = s.get_char(0);
            if c == 's' {
                Accidental::Sharp
            } else if c == 'f' {
                Accidental::Flat
            } else {
                unreached()
            }
        }
    }

    /// The semitone shift of this accidental.
    pub fn offset(&self) -> (n: i32)
        ensures
            n == accidental_semitones(*self),
    {
        match *self {
            Accidental::Natural => 0,
            Accidental::Sharp => 1,
            Accidental::Flat => -1,
        }
    }
}

impl Note {
    /// The pitch a recognized token denotes; see `note_of_token` for the shape.
    pub fn from_string(s: &str) -> (r: Note)
        requires
            note_of_token(s@) is Some,
        ensures
            Some(r) == note_of_token(s@),
    {
        match Note::parse(s) {
            Some(n) => n,
            None => unreached(),
        }
    }

    /// Parses a pitch token, `None` when the token is malformed.
    pub fn parse(s: &str) -> (r: Option<Note>)
        ensures
            r == note_of_token(s@),
    {
        let len = s.unicode_len();
        if len < 2 || len > 3 {
            return None;
        }
        let c0 = s.get_char(0);
        let nm = if c0 == 'c' {
            Name::C
        } else if c0 == 'd' {
            Name::D
        } else if c0 == 'e' {
            Name::E
        } else if c0 == 'f' {
            Name::F
        } else if c0 == 'g' {
            Name::G
        } else if c0 == 'a' {
            Name::A
        } else if c0 == 'b' {
            Name::B
        } else {
            return None;
        };
        let acc = if len == 3 {
            let c1 = s.get_char(1);
            proof {
                assert(s@.subrange(1, s@.len() - 1) =~= seq![s@[1]]);
            }
            if c1 == 's' {
                Accidental::Sharp
            } else if c1 == 'f' {
                Accidental::Flat
            } else {
                return None;
            }
        } else {
            proof {
                assert(s@.subrange(1, s@.len() - 1) =~= Seq::<char>::empty());
            }
            Accidental::Natural
        };
        let cl = s.get_char(len - 1);
        let oct: i32 = if cl == '0' {
            0
        } else if cl == '1' {
            1
        } else if cl == '2' {
            2
        } else if cl == '3' {
            3
        } else if cl == '4' {
            4
        } else if cl == '5' {
            5
        } else if cl == '6' {
            6
        } else if cl == '7' {
            7
        } else if cl == '8' {
            8
        } else if cl == '9' {
            9
        } else {
            return None;
        };
        Some(Note { name: nm, accidental: acc, octave: oct })
    }

    /// The natural pitch with the given scale degree and octave.
    pub fn from_number(n: i32, o: i32) -> (r: Note)
        requires
            0 <= n < 7,
        ensures
            r == (Note { name: name_of_num(n as int), accidental: Accidental::Natural, octave: o }),
    {
        Note { name: Name::from_number(n), accidental: Accidental::Natural, octave: o }
    }

    /// The natural pitch with the given full diatonic number.
    pub fn from_number_full(n: i64) -> (r: Note)
        requires
            0 <= n <= 0x7fff_ffff,
        ensures
            r == note_of_full(n as int),
    {
        let q: i64 = n / 7;
        let m: i64 = n % 7;
        Note {
            name: Name::from_number(m as i32),
            accidental: Accidental::Natural,
            octave: q as i32,
        }
    }

    /// The scale degree of this pitch's letter name.
    pub fn to_number(&self) -> (n: i32)
        ensures
            n == name_num(self.name),
    {
        self.name.to_number()
    }

    /// The full diatonic number of this pitch.
    pub fn to_number_full(&self) -> (n: i64)
        ensures
            n == full_num(*self),
    {
        (self.octave as i64) * 7 + (self.name.to_number() as i64)
    }

    /// The absolute semitone index of this pitch,
    /// `12 * octave + letter offset + accidental offset`; the audible
    /// frequency is `16.35 * 2^(index / 12)` Hz.
    pub fn semitone_index(&self) -> (n: i64)
        ensures
            n == 12 * self.octave + name_semitones(self.name) + accidental_semitones(
                self.accidental,
            ),
    {
        12 * (self.octave as i64) + (self.name.offset() as i64) + (self.accidental.offset() as i64)
    }
}

/// The index of the first comma in a text, or its length when it has none.
pub open spec fn comma_split_point(s: Seq<char>) -> int
    decreases s.len(),
{
    if s.len() == 0 {
        0
    } else if s[0] == ',' {
        0
    } else {
        1 + comma_split_point(s.drop_first())
    }
}

/// The split point is the position of the first comma: nothing before it
/// is a comma, and it lands on a comma whenever the text has one.
pub proof fn lemma_comma_split_point(s: Seq<char>)
    ensures
        0 <= comma_split_point(s) <= s.len(),
        forall|t: int| 0 <= t < comma_split_point(s) ==> s[t] != ',',
        comma_split_point(s) < s.len() ==> s[comma_split_point(s)] == ',',
    decreases s.len(),
{
    if s.len() == 0 {
    } else if s[0] == ',' {
    } else {
        lemma_comma_split_point(s.drop_first());
        assert forall|t: int| 0 <= t < comma_split_point(s) implies s[t] != ',' by {
            if t >= 1 {
                assert(0 <= t - 1 < comma_split_point(s.drop_first()));
                assert(s.drop_first()[t - 1] == s[t]);
            }
        }
    }
}

#[via_fn]
proof fn cantus_of_text_decreases(s: Seq<char>) {
    lemma_comma_split_point(s);
}

/// The cantus firmus a comma-separated list of pitch tokens stands for;
/// `None` when any token is malformed.
pub open spec fn cantus_of_text(s: Seq<char>) -> Option<Seq<Note>>
    decreases s.len(),
        via cantus_of_text_decreases
{
    let p = comma_split_point(s);
    if p >= s.len() {
        match note_of_token(s) {
            Some(n) => Some(seq![n]),
            None => None,
        }
    } else {
        match (note_of_token(s.take(p)), cantus_of_text(s.skip(p + 1))) {
            (Some(n), Some(rest)) => Some(seq![n] + rest),
            _ => None,
        }
    }
}

/// Parses a comma-separated list of pitch tokens into a cantus firmus;
/// `None` exactly when some token is malformed.
pub fn parse_cantus(s: &str) -> (r: Option<Vec<Note>>)
    ensures
        match r {
            Some(v) => cantus_of_text(s@) == Some(v@),
            None => cantus_of_text(s@) is None,
        },
    decreases s@.len(),
{
    let len = s.unicode_len();
    let mut p: usize = 0;
    while p < len && s.get_char(p) != ','
        invariant
            p <= len,
            len == s@.len(),
            forall|t: int| 0 <= t < p ==> s@[t] != ',',
        decreases len - p,
    {
        p += 1;
    }
    proof {
        lemma_comma_split_point(s@);
        assert(p == comma_split_point(s@));
    }
    if p == len {
        match Note::parse(s) {
            Some(n) => {
                let mut v: Vec<Note> = Vec::new();
                v.push(n);
                proof {
                    assert(v@ =~= seq![n]);
                }
                Some(v)
            },
            None => None,
        }
    } else {
        let head = s.substring_char(0, p);
        let tail = s.substring_char(p + 1, len);
        proof {
            assert(head@ =~= s@.take(p as int));
            assert(tail@ =~= s@.skip(p + 1));
        }
        match Note::parse(head) {
            Some(n) => {
                match parse_cantus(tail) {
                    Some(v) => {
                        let mut out: Vec<Note> = Vec::new();
                        out.push(n);
                        proof {
                            assert(out@ =~= seq![n] + v@.take(0));
                        }
                        let mut i: usize = 0;
                        while i < v.len()
                            invariant
                                i <= v@.len(),
                                out@ == seq![n] + v@.take(i as int),
                            decreases v@.len() - i,
                        {
                            out.push(v[i]);
                            proof {
                                assert(v@.take(i + 1) =~= v@.take(i as int).push(v@[i as int]));
                                assert(seq![n] + v@.take(i + 1) =~= (seq![n] + v@.take(
                                    i as int,
                                )).push(v@[i as int]));
                            }
                            i += 1;
                        }
                        proof {
                            assert(v@.take(v@.len() as int) =~= v@);
                        }
                        Some(out)
                    },
                    None => None,
                }
            },
            None => None,
        }
    }
}

/// A full diatonic number in the range of `note_of_full` is recovered
/// exactly by `full_num`.
pub proof fn lemma_note_of_full_id(n: int)
    requires
        0 <= n <= 0x7fff_ffff,
    ensures
        full_num(note_of_full(n)) == n,
{
    vstd::arithmetic::div_mod::lemma_fundamental_div_mod(n, 7);
    assert(0 <= n % 7 < 7) by {
        vstd::arithmetic::div_mod::lemma_mod_bound(n, 7);
    }
    assert(0 <= n / 7 <= n) by {
        vstd::arithmetic::div_mod::lemma_div_nonincreasing(n, 7);
        vstd::arithmetic::div_mod::lemma_div_pos_is_pos(n, 7);
    }
    assert(name_num(name_of_num(n % 7)) == n % 7);
}

/// The truncating remainder of an exact upward octave is zero.
pub proof fn lemma_tmod7_octave()
    ensures
        tmod7(7) == 0,
{
    vstd::arithmetic::div_mod::lemma_mod_self_0(7);
}

} // verus!
