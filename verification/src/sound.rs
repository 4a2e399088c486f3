//! The musical model: twelve-tone pitches, parsing of pitch names, and the
//! pitches a traveler sounds, one per recognized prime factor. Rendering
//! pitches to audio is the caller's concern.

use vstd::prelude::*;

use crate::traveler::Traveler;

verus! {

/// A pitch class of the twelve-tone scale.
#[derive(Debug, PartialEq, Eq, Structural, Clone, Copy)]
pub enum TwelveTone {
    CNat,
    CSharp,
    DNat,
    DSharp,
    ENat,
    FNat,
    FSharp,
    GNat,
    GSharp,
    ANat,
    ASharp,
    BNat,
}

impl TwelveTone {
    /// The pitch class as its semitone offset from C.
    pub fn semitone(&self) -> (r: u8)
        ensures
            r == self.spec_semitone(),
    {
        match self {
            TwelveTone::CNat => 0,
            TwelveTone::CSharp => 1,
            TwelveTone::DNat => 2,
            TwelveTone::DSharp => 3,
            TwelveTone::ENat => 4,
            TwelveTone::FNat => 5,
            TwelveTone::FSharp => 6,
            TwelveTone::GNat => 7,
            TwelveTone::GSharp => 8,
            TwelveTone::ANat => 9,
            TwelveTone::ASharp => 10,
            TwelveTone::BNat => 11,
        }
    }

    pub open spec fn spec_semitone(self) -> u8 {
        match self {
            TwelveTone::CNat => 0,
            TwelveTone::CSharp => 1,
            TwelveTone::DNat => 2,
            TwelveTone::DSharp => 3,
            TwelveTone::ENat => 4,
            TwelveTone::FNat => 5,
            TwelveTone::FSharp => 6,
            TwelveTone::GNat => 7,
            TwelveTone::GSharp => 8,
            TwelveTone::ANat => 9,
            TwelveTone::ASharp => 10,
            TwelveTone::BNat => 11,
        }
    }

    /// Parses a pitch name: a letter, optionally followed by `#` or `b`.
    /// The letter's case does not matter; enharmonic names fold together.
    pub fn from_str(s: &str) -> (r: Option<TwelveTone>)
        ensures
            r == tone_of_name(s@),
    {
        let n = s.unicode_len();
        if n == 0 || n > 2 {
            return None;
        }
        let c0 = s.get_char(0);
        let letter = base_tone(c0);
        if n == 1 {
            return letter;
        }
        let c1 = s.get_char(1);
        proof {
            assert(s@ =~= seq![s@[0], s@[1]]);
        }
        match letter {
            None => None,
            Some(t) => {
                if c1 == '#' {
                    Some(t.sharpened())
                } else if c1 == 'b' {
                    Some(t.flattened())
                } else {
                    None
                }
            },
        }
    }

    /// One semitone up, wrapping from B to C.
    fn sharpened(self) -> (r: TwelveTone)
        ensures
            r == self.spec_sharpened(),
    {
        match self {
            TwelveTone::CNat => TwelveTone::CSharp,
            TwelveTone::CSharp => TwelveTone::DNat,
            TwelveTone::DNat => TwelveTone::DSharp,
            TwelveTone::DSharp => TwelveTone::ENat,
            TwelveTone::ENat => TwelveTone::FNat,
            TwelveTone::FNat => TwelveTone::FSharp,
            TwelveTone::FSharp => TwelveTone::GNat,
            TwelveTone::GNat => TwelveTone::GSharp,
            TwelveTone::GSharp => TwelveTone::ANat,
            TwelveTone::ANat => TwelveTone::ASharp,
            TwelveTone::ASharp => TwelveTone::BNat,
            TwelveTone::BNat => TwelveTone::CNat,
        }
    }

    pub open spec fn spec_sharpened(self) -> TwelveTone {
        match self {
            TwelveTone::CNat => TwelveTone::CSharp,
            TwelveTone::CSharp => TwelveTone::DNat,
            TwelveTone::DNat => TwelveTone::DSharp,
            TwelveTone::DSharp => TwelveTone::ENat,
            TwelveTone::ENat => TwelveTone::FNat,
            TwelveTone::FNat => TwelveTone::FSharp,
            TwelveTone::FSharp => TwelveTone::GNat,
            TwelveTone::GNat => TwelveTone::GSharp,
            TwelveTone::GSharp => TwelveTone::ANat,
            TwelveTone::ANat => TwelveTone::ASharp,
            TwelveTone::ASharp => TwelveTone::BNat,
            TwelveTone::BNat => TwelveTone::CNat,
        }
    }

    /// One semitone down, wrapping from C to B.
    fn flattened(self) -> (r: TwelveTone)
        ensures
            r == self.spec_flattened(),
    {
        match self {
            TwelveTone::CNat => TwelveTone::BNat,
            TwelveTone::CSharp => TwelveTone::CNat,
            TwelveTone::DNat => TwelveTone::CSharp,
            TwelveTone::DSharp => TwelveTone::DNat,
            TwelveTone::ENat => TwelveTone::DSharp,
            TwelveTone::FNat => TwelveTone::ENat,
            TwelveTone::FSharp => TwelveTone::FNat,
            TwelveTone::GNat => TwelveTone::FSharp,
            TwelveTone::GSharp => TwelveTone::GNat,
            TwelveTone::ANat => TwelveTone::GSharp,
            TwelveTone::ASharp => TwelveTone::ANat,
            TwelveTone::BNat => TwelveTone::ASharp,
        }
    }

    pub open spec fn spec_flattened(self) -> TwelveTone {
        match self {
            TwelveTone::CNat => TwelveTone::BNat,
            TwelveTone::CSharp => TwelveTone::CNat,
            TwelveTone::DNat => TwelveTone::CSharp,
            TwelveTone::DSharp => TwelveTone::DNat,
            TwelveTone::ENat => TwelveTone::DSharp,
            TwelveTone::FNat => TwelveTone::ENat,
            TwelveTone::FSharp => TwelveTone::FNat,
            TwelveTone::GNat => TwelveTone::FSharp,
            TwelveTone::GSharp => TwelveTone::GNat,
            TwelveTone::ANat => TwelveTone::GSharp,
            TwelveTone::ASharp => TwelveTone::ANat,
            TwelveTone::BNat => TwelveTone::ASharp,
        }
    }
}

/// The natural tone a letter names, case-insensitively.
fn base_tone(c: char) -> (r: Option<TwelveTone>)
    ensures
        r == spec_base_tone(c),
{
    if c == 'c' || c == 'C' {
        Some(TwelveTone::CNat)
    } else if c == 'd' || c == 'D' {
        Some(TwelveTone::DNat)
    } else if c == 'e' || c == 'E' {
        Some(TwelveTone::ENat)
    } else if c == 'f' || c == 'F' {
        Some(TwelveTone::FNat)
    } else if c == 'g' || c == 'G' {
        Some(TwelveTone::GNat)
    } else if c == 'a' || c == 'A' {
        Some(TwelveTone::ANat)
    } else if c == 'b' || c == 'B' {
        Some(TwelveTone::BNat)
    } else {
        None
    }
}

pub open spec fn spec_base_tone(c: char) -> Option<TwelveTone> {
    if c == 'c' || c == 'C' {
        Some(TwelveTone::CNat)
    } else if c == 'd' || c == 'D' {
        Some(TwelveTone::DNat)
    } else if c == 'e' || c == 'E' {
        Some(TwelveTone::ENat)
    } else if c == 'f' || c == 'F' {
        Some(TwelveTone::FNat)
    } else if c == 'g' || c == 'G' {
        Some(TwelveTone::GNat)
    } else if c == 'a' || c == 'A' {
        Some(TwelveTone::ANat)
    } else if c == 'b' || c == 'B' {
        Some(TwelveTone::BNat)
    } else {
        None
    }
}

/// The pitch class a name denotes, if any.
pub open spec fn tone_of_name(s: Seq<char>) -> Option<TwelveTone> {
    if s.len() == 1 {
        spec_base_tone(s[0])
    } else if s.len() == 2 {
        match spec_base_tone(s[0]) {
            None => None,
            Some(t) => if s[1] == '#' {
                Some(t.spec_sharpened())
            } else if s[1] == 'b' {
                Some(t.spec_flattened())
            } else {
                None
            },
        }
    } else {
        None
    }
}

/// A pitch: a pitch class at an octave.
#[derive(Debug, PartialEq, Eq, Structural, Clone, Copy)]
pub struct TwelveTonePitch {
    pub tone: TwelveTone,
    pub octave: i8,
}

/// The pitch a name denotes at the given octave. The name must denote a
/// pitch class.
pub fn pitch_from_str(pitch: &str, octave: i8) -> (r: TwelveTonePitch)
    requires
        tone_of_name(pitch@) is Some,
    ensures
        r.tone == tone_of_name(pitch@).unwrap(),
        r.octave == octave,
{
    match TwelveTone::from_str(pitch) {
        Some(tone) => TwelveTonePitch { tone, octave },
        None => {
            proof {
                assert(false);
            }
            TwelveTonePitch { tone: TwelveTone::CNat, octave }
        },
    }
}

/// The pitches a traveler's value sounds: C4 for the prime 2 and G4 for the
/// prime 3, each carrying its exponent as a magnitude.
pub open spec fn spec_pitches(v: Seq<(int, int)>) -> Seq<(TwelveTonePitch, u32)> {
    let two = if crate::registers::has_prime(v, 2) {
        seq![
            (
                TwelveTonePitch { tone: TwelveTone::CNat, octave: 4 },
                crate::registers::exp_of(v, 2) as u32,
            ),
        ]
    } else {
        Seq::empty()
    };
    let three = if crate::registers::has_prime(v, 3) {
        seq![
            (
                TwelveTonePitch { tone: TwelveTone::GNat, octave: 4 },
                crate::registers::exp_of(v, 3) as u32,
            ),
        ]
    } else {
        Seq::empty()
    };
    two + three
}

impl Traveler {
    /// The pitches this traveler sounds, with their magnitudes.
    #[verifier::loop_isolation(false)]
    pub fn pitches(&self) -> (r: Vec<(TwelveTonePitch, u32)>)
        requires
            self.wf(),
        ensures
            r@ == spec_pitches(self.value@),
    {
        let mut out: Vec<(TwelveTonePitch, u32)> = Vec::new();
        let n = self.value.0.len();
        let mut two: Option<u32> = None;
        let mut three: Option<u32> = None;
        let mut i: usize = 0;
        while i < n
            invariant
                i <= n,
                n == self.value.0@.len(),
                match two {
                    Some(e) => exists|k: int|
                        0 <= k < i && (#[trigger] self.value.0@[k]) == (2u64, e),
                    None => forall|k: int| 0 <= k < i ==> (#[trigger] self.value.0@[k]).0 != 2,
                },
                match three {
                    Some(e) => exists|k: int|
                        0 <= k < i && (#[trigger] self.value.0@[k]) == (3u64, e),
                    None => forall|k: int| 0 <= k < i ==> (#[trigger] self.value.0@[k]).0 != 3,
                },
            decreases n - i,
        {
            let (p, e) = self.value.0[i];
            if p == 2 {
                two = Some(e);
            } else if p == 3 {
                three = Some(e);
            }
            i += 1;
        }
        proof {
            let v = self.value@;
            match two {
                Some(e) => {
                    let k = choose|k: int| 0 <= k < n && (#[trigger] self.value.0@[k]) == (2u64, e);
                    assert(v[k] == (2int, e as int));
                    crate::registers::lemma_exp_at_index(v, k);
                    assert(crate::registers::has_prime(v, 2));
                },
                None => {
                    assert(forall|k: int| 0 <= k < v.len() ==> (#[trigger] v[k]).0 != 2);
                    assert(!crate::registers::has_prime(v, 2)) by {
                        if crate::registers::has_prime(v, 2) {
                            let k = choose|k: int| 0 <= k < v.len() && v[k].0 == 2;
                            assert(v[k].0 != 2);
                        }
                    }
                },
            }
            match three {
                Some(e) => {
                    let k = choose|k: int| 0 <= k < n && (#[trigger] self.value.0@[k]) == (3u64, e);
                    assert(v[k] == (3int, e as int));
                    crate::registers::lemma_exp_at_index(v, k);
                    assert(crate::registers::has_prime(v, 3));
                },
                None => {
                    assert(forall|k: int| 0 <= k < v.len() ==> (#[trigger] v[k]).0 != 3);
                    assert(!crate::registers::has_prime(v, 3)) by {
                        if crate::registers::has_prime(v, 3) {
                            let k = choose|k: int| 0 <= k < v.len() && v[k].0 == 3;
                            assert(v[k].0 != 3);
                        }
                    }
                },
            }
        }
        match two {
            Some(e) => {
                out.push((TwelveTonePitch { tone: TwelveTone::CNat, octave: 4 }, e));
            },
            None => (),
        }
        match three {
            Some(e) => {
                out.push((TwelveTonePitch { tone: TwelveTone::GNat, octave: 4 }, e));
            },
            None => (),
        }
        proof {
            assert(out@ =~= spec_pitches(self.value@));
        }
        out
    }
}

} // verus!
