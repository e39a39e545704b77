use vstd::prelude::*;

verus! {

/// The note value types, from the longest (maxima) to the shortest.
#[derive(Clone, Copy, Debug, PartialEq, Eq, Structural)]
pub enum DurationType {
    Maxima,
    Long,
    Breve,
    Whole,
    Half,
    Quarter,
    Eighth,
    Sixteenth,
    ThirtySecond,
    SixtyFourth,
    OneHundredTwentyEighth,
    TwoHundredFiftySixth,
    FiveHundredTwelfth,
    OneThousandTwentyFourth,
    TwoThousandFortyEighth,
}

/// Position of a value type in the halving sequence: 0 for a maxima, 3 for
/// a whole note, 14 for a 2048th note.
pub open spec fn rank(t: DurationType) -> nat {
    match t {
        DurationType::Maxima => 0,
        DurationType::Long => 1,
        DurationType::Breve => 2,
        DurationType::Whole => 3,
        DurationType::Half => 4,
        DurationType::Quarter => 5,
        DurationType::Eighth => 6,
        DurationType::Sixteenth => 7,
        DurationType::ThirtySecond => 8,
        DurationType::SixtyFourth => 9,
        DurationType::OneHundredTwentyEighth => 10,
        DurationType::TwoHundredFiftySixth => 11,
        DurationType::FiveHundredTwelfth => 12,
        DurationType::OneThousandTwentyFourth => 13,
        DurationType::TwoThousandFortyEighth => 14,
    }
}

/// The value type at a given rank (ranks past the shortest saturate).
pub open spec fn of_rank(r: nat) -> DurationType {
    if r == 0 {
        DurationType::Maxima
    } else if r == 1 {
        DurationType::Long
    } else if r == 2 {
        DurationType::Breve
    } else if r == 3 {
        DurationType::Whole
    } else if r == 4 {
        DurationType::Half
    } else if r == 5 {
        DurationType::Quarter
    } else if r == 6 {
        DurationType::Eighth
    } else if r == 7 {
        DurationType::Sixteenth
    } else if r == 8 {
        DurationType::ThirtySecond
    } else if r == 9 {
        DurationType::SixtyFourth
    } else if r == 10 {
        DurationType::OneHundredTwentyEighth
    } else if r == 11 {
        DurationType::TwoHundredFiftySixth
    } else if r == 12 {
        DurationType::FiveHundredTwelfth
    } else if r == 13 {
        DurationType::OneThousandTwentyFourth
    } else {
        DurationType::TwoThousandFortyEighth
    }
}

impl DurationType {
    pub fn rank(&self) -> (r: u8)
        ensures
            r as nat == rank(*self),
    {
        match self {
            DurationType::Maxima => 0,
            DurationType::Long => 1,
            DurationType::Breve => 2,
            DurationType::Whole => 3,
            DurationType::Half => 4,
            DurationType::Quarter => 5,
            DurationType::Eighth => 6,
            DurationType::Sixteenth => 7,
            DurationType::ThirtySecond => 8,
            DurationType::SixtyFourth => 9,
            DurationType::OneHundredTwentyEighth => 10,
            DurationType::TwoHundredFiftySixth => 11,
            DurationType::FiveHundredTwelfth => 12,
            DurationType::OneThousandTwentyFourth => 13,
            DurationType::TwoThousandFortyEighth => 14,
        }
    }

    pub fn of_rank(r: u8) -> (t: DurationType)
        ensures
            t == of_rank(r as nat),
    {
        if r == 0 {
            DurationType::Maxima
        } else if r == 1 {
            DurationType::Long
        } else if r == 2 {
            DurationType::Breve
        } else if r == 3 {
            DurationType::Whole
        } else if r == 4 {
            DurationType::Half
        } else if r == 5 {
            DurationType::Quarter
        } else if r == 6 {
            DurationType::Eighth
        } else if r == 7 {
            DurationType::Sixteenth
        } else if r == 8 {
            DurationType::ThirtySecond
        } else if r == 9 {
            DurationType::SixtyFourth
        } else if r == 10 {
            DurationType::OneHundredTwentyEighth
        } else if r == 11 {
            DurationType::TwoHundredFiftySixth
        } else if r == 12 {
            DurationType::FiveHundredTwelfth
        } else if r == 13 {
            DurationType::OneThousandTwentyFourth
        } else {
            DurationType::TwoThousandFortyEighth
        }
    }
}

/// A note length: a value type and a number of augmentation dots.
#[derive(Clone, Copy, Debug, PartialEq, Eq, Structural)]
pub struct Duration {
    pub value: DurationType,
    pub dots: u8,
}

impl Duration {
    pub fn new(value: DurationType, dots: u8) -> (d: Duration)
        ensures
            d.value == value,
            d.dots == dots,
    {
        Duration { value, dots }
    }
}

/// Why a translation failed. Every failure ends the whole translation.
#[derive(Clone, Copy, Debug, PartialEq, Eq, Structural)]
pub enum TranslateError {
    /// A section, staff or phrase is reached again from inside itself.
    CyclicStructure,
    /// A note length has no encoding in the target's duration tokens.
    UnsupportedDuration { duration: Duration },
    /// A tuplet ratio outside the supported table.
    UnsupportedTuplet { num_beats: u8, into_beats: u8 },
}

/// The letter of a pitch, or a rest.
#[derive(Clone, Copy, Debug, PartialEq, Eq, Structural)]
pub enum PitchName {
    Rest,
    A,
    B,
    C,
    D,
    E,
    F,
    G,
}

#[derive(Clone, Copy, Debug, PartialEq, Eq, Structural)]
pub struct Pitch {
    pub name: PitchName,
    pub octave: u8,
}

impl Pitch {
    pub fn new(name: PitchName, octave: u8) -> (p: Pitch)
        ensures
            p.name == name,
            p.octave == octave,
    {
        Pitch { name, octave }
    }
}

#[derive(Clone, Copy, Debug, PartialEq, Eq, Structural)]
pub enum Accidental {
    Unmarked,
    Natural,
    Sharp,
    Flat,
    DoubleSharp,
    DoubleFlat,
}

/// A dynamic level; the number counts the letters (`Forte(2)` is ff).
#[derive(Clone, Copy, Debug, PartialEq, Eq, Structural)]
pub enum Dynamic {
    Forte(u8),
    MezzoForte,
    MezzoPiano,
    Piano(u8),
}

/// A modification of a note or of a whole chord, as far as translation
/// reads it.
#[derive(Clone, Copy, Debug, PartialEq, Eq, Structural)]
pub enum Mark {
    Accent,
    SoftAccent,
    Staccato,
    Staccatissimo,
    Turn { upper: bool },
    Dynamic { dynamic: Dynamic },
    Grace,
    Other,
}

#[derive(Clone, Copy, Debug, PartialEq, Eq, Structural)]
pub enum KeySignature {
    A,
    ASharp,
    AFlat,
    B,
    BFlat,
    C,
    CSharp,
    CFlat,
    D,
    DSharp,
    DFlat,
    E,
    EFlat,
    F,
    FSharp,
    G,
    GSharp,
    GFlat,
}

#[derive(Clone, Copy, Debug, PartialEq, Eq, Structural)]
pub enum KeyMode {
    Major,
    Minor,
}

#[derive(Clone, Copy, Debug, PartialEq, Eq, Structural)]
pub struct Key {
    pub signature: KeySignature,
    pub mode: KeyMode,
}

/// A tempo: so many beats per minute, each beat lasting `base_note`.
#[derive(Clone, Copy, Debug, PartialEq, Eq, Structural)]
pub struct Tempo {
    pub base_note: Duration,
    pub beats_per_minute: u16,
}

/// A note or a rest, with its modifications.
pub struct Note {
    pub pitch: Pitch,
    pub duration: Duration,
    pub accidental: Accidental,
    pub marks: Vec<Mark>,
}

impl Note {
    pub open spec fn is_rest_spec(&self) -> bool {
        self.pitch.name == PitchName::Rest
    }

    pub fn is_rest(&self) -> (r: bool)
        ensures
            r == self.is_rest_spec(),
    {
        self.pitch.name == PitchName::Rest
    }
}

/// The notes of a chord, with the chord's own marks.
pub struct Chord {
    pub marks: Vec<Mark>,
    pub notes: Vec<Note>,
}

#[derive(Clone, Copy, Debug, PartialEq, Eq, Structural)]
pub enum PhraseMod {
    Tuplet { num_beats: u8, into_beats: u8 },
    Other,
}

/// An element of a staff or of a phrase. A phrase is named by its index
/// in the score's phrase arena.
pub enum Item {
    Note(Note),
    Chord(Chord),
    Phrase(usize),
    KeyChange(Key),
    /// Any other direction; translation ignores it.
    Direction,
    /// Several voices; translation ignores them.
    MultiVoice,
}

pub struct Phrase {
    pub mods: Vec<PhraseMod>,
    pub items: Vec<Item>,
}

pub struct Staff {
    pub items: Vec<Item>,
}

#[derive(Clone, Copy, Debug, PartialEq, Eq, Structural)]
pub enum SectionMod {
    /// Play the section `num_times` more times.
    Repeat { num_times: u8 },
    TempoExplicit { tempo: Tempo },
    /// A suggested tempo, as its beats per minute.
    TempoImplicit { bpm: u16 },
    Other,
}

/// An element of a section: a staff or a nested section, by arena index.
#[derive(Clone, Copy, Debug, PartialEq, Eq, Structural)]
pub enum SectionItem {
    Staff(usize),
    Section(usize),
}

pub struct Section {
    pub name: String,
    pub mods: Vec<SectionMod>,
    pub items: Vec<SectionItem>,
}

/// A part: a name and its top-level sections, by arena index.
pub struct Part {
    pub name: String,
    pub sections: Vec<usize>,
}

/// A whole composition. Sections, staves and phrases live in arenas and
/// are referred to by index, so one of them may be reached along several
/// paths, or (in a malformed score) from inside itself.
pub struct Score {
    pub title: String,
    pub composers: Vec<String>,
    pub lyricists: Vec<String>,
    pub arrangers: Vec<String>,
    pub publisher: Option<String>,
    pub copyright: Option<String>,
    pub tempo: Tempo,
    pub key: Key,
    /// The starting time signature, as it is to be shown.
    pub time_signature: String,
    pub parts: Vec<Part>,
    pub sections: Vec<Section>,
    pub staves: Vec<Staff>,
    pub phrases: Vec<Phrase>,
}

pub open spec fn items_wf(items: Seq<Item>, phrases: nat) -> bool {
    forall|i: int| 0 <= i < items.len() ==> (#[trigger] items[i] matches Item::Phrase(id) ==> id < phrases)
}

pub open spec fn section_items_wf(items: Seq<SectionItem>, sections: nat, staves: nat) -> bool {
    forall|i: int|
        0 <= i < items.len() ==> match #[trigger] items[i] {
            SectionItem::Staff(id) => id < staves,
            SectionItem::Section(id) => id < sections,
        }
}

fn items_ok(items: &Vec<Item>, phrases: usize) -> (r: bool)
    ensures
        r == items_wf(items@, phrases as nat),
{
    let mut i: usize = 0;
    while i < items.len()
        invariant
            i <= items@.len(),
            forall|k: int| 0 <= k < i ==> (#[trigger] items@[k] matches Item::Phrase(id) ==> id < phrases),
        decreases items@.len() - i,
    {
        match &items[i] {
            Item::Phrase(id) => {
                if *id >= phrases {
                    return false;
                }
            },
            _ => {},
        }
        i = i + 1;
    }
    true
}

fn section_items_ok(items: &Vec<SectionItem>, sections: usize, staves: usize) -> (r: bool)
    ensures
        r == section_items_wf(items@, sections as nat, staves as nat),
{
    let mut i: usize = 0;
    while i < items.len()
        invariant
            i <= items@.len(),
            forall|k: int|
                0 <= k < i ==> match #[trigger] items@[k] {
                    SectionItem::Staff(id) => id < staves,
                    SectionItem::Section(id) => id < sections,
                },
        decreases items@.len() - i,
    {
        match items[i] {
            SectionItem::Staff(id) => {
                if id >= staves {
                    return false;
                }
            },
            SectionItem::Section(id) => {
                if id >= sections {
                    return false;
                }
            },
        }
        i = i + 1;
    }
    true
}

impl Score {
    /// Checks that every index names an element of its arena.
    pub fn is_well_formed(&self) -> (r: bool)
        ensures
            r == self.wf(),
    {
        let mut p: usize = 0;
        while p < self.parts.len()
            invariant
                p <= self.parts@.len(),
                forall|q: int, j: int|
                    0 <= q < p && 0 <= j < self.parts@[q].sections@.len() ==> #[trigger] self.parts@[q].sections@[j] < self.sections@.len(),
            decreases self.parts@.len() - p,
        {
            let part = &self.parts[p];
            let mut j: usize = 0;
            while j < part.sections.len()
                invariant
                    p < self.parts@.len(),
                    part == &self.parts@[p as int],
                    j <= part.sections@.len(),
                    forall|k: int| 0 <= k < j ==> #[trigger] part.sections@[k] < self.sections@.len(),
                decreases part.sections@.len() - j,
            {
                if part.sections[j] >= self.sections.len() {
                    assert(self.parts@[p as int].sections@[j as int] >= self.sections@.len());
                    return false;
                }
                j = j + 1;
            }
            p = p + 1;
        }
        let mut s: usize = 0;
        while s < self.sections.len()
            invariant
                s <= self.sections@.len(),
                forall|q: int|
                    0 <= q < s ==> section_items_wf(
                        #[trigger] self.sections@[q].items@,
                        self.sections@.len(),
                        self.staves@.len(),
                    ),
            decreases self.sections@.len() - s,
        {
            if !section_items_ok(&self.sections[s].items, self.sections.len(), self.staves.len()) {
                return false;
            }
            s = s + 1;
        }
        let mut t: usize = 0;
        while t < self.staves.len()
            invariant
                t <= self.staves@.len(),
                forall|q: int| 0 <= q < t ==> items_wf(#[trigger] self.staves@[q].items@, self.phrases@.len()),
            decreases self.staves@.len() - t,
        {
            if !items_ok(&self.staves[t].items, self.phrases.len()) {
                return false;
            }
            t = t + 1;
        }
        let mut h: usize = 0;
        while h < self.phrases.len()
            invariant
                h <= self.phrases@.len(),
                forall|q: int| 0 <= q < h ==> items_wf(#[trigger] self.phrases@[q].items@, self.phrases@.len()),
            decreases self.phrases@.len() - h,
        {
            if !items_ok(&self.phrases[h].items, self.phrases.len()) {
                return false;
            }
            h = h + 1;
        }
        true
    }

    /// Every index names an element of its arena.
    pub open spec fn wf(&self) -> bool {
        &&& forall|p: int, j: int|
            0 <= p < self.parts@.len() && 0 <= j < self.parts@[p].sections@.len() ==> #[trigger] self.parts@[p].sections@[j] < self.sections@.len()
        &&& forall|s: int|
            0 <= s < self.sections@.len() ==> section_items_wf(
                #[trigger] self.sections@[s].items@,
                self.sections@.len(),
                self.staves@.len(),
            )
        &&& forall|t: int|
            0 <= t < self.staves@.len() ==> items_wf(#[trigger] self.staves@[t].items@, self.phrases@.len())
        &&& forall|ph: int|
            0 <= ph < self.phrases@.len() ==> items_wf(#[trigger] self.phrases@[ph].items@, self.phrases@.len())
    }
}

} // verus!
