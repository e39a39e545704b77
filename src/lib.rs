//! Translation of a hierarchical music score into a block-structured
//! NetsBlox project document.
//!
//! The score is held in [`Score`]: parts name top-level sections, and
//! sections, staves and phrases live in arenas addressed by index, so one
//! node may be reachable along several paths (and a malformed score may even
//! reach a node from inside itself). [`translate`] walks the score and
//! produces the project text, or a [`TranslateError`].
//!
//! The pieces, leaves first: [`encode`] maps a note length to a chain of
//! tied duration tokens; [`Modifiers`] keeps the nested modifier scopes;
//! [`translate_chord`] turns one playable unit into blocks; the walker
//! descends the score with cycle detection; the document builder registers
//! each top-level section as a named block and wraps everything in the
//! project envelope.
mod model;
mod duration;
mod text;
mod blocks;
mod modifiers;
mod chord;
mod tempo;
mod walker;
mod instrument;
mod document;
mod nesting;

pub use model::{
    Accidental,
    Chord,
    Duration,
    DurationType,
    Dynamic,
    Item,
    Key,
    KeyMode,
    KeySignature,
    Mark,
    Note,
    Part,
    Phrase,
    PhraseMod,
    Pitch,
    PitchName,
    Score,
    Section,
    SectionItem,
    SectionMod,
    Staff,
    Tempo,
    TranslateError,
};
pub use duration::{Token, encode, tuplet_label};
pub use text::{push_decimal, xml_escape};
pub use blocks::{Block, DurationArg, Sounding, Tuplet, push_block, push_blocks};
pub use modifiers::{ModSet, Modifiers};
pub use chord::{translate_chord, volume};
pub use tempo::{Bpm, push_bpm, quarter_tempo};
pub use instrument::{instrument, instrument_for};
pub use document::{notes_string, translate};
