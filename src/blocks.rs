use vstd::prelude::*;
use crate::duration::Token;
use crate::model::{Accidental, DurationType, Key, KeyMode, KeySignature, Pitch, PitchName};
use crate::modifiers::ModSet;
use crate::tempo::{Bpm, bpm_text, push_bpm};
use crate::text::{decimal, push_decimal};

verus! {

/// The scope label of a supported tuplet ratio.
#[derive(Clone, Copy, Debug, PartialEq, Eq, Structural)]
pub enum Tuplet {
    Triplet,
    Quintuplet,
    Sextuplet,
    Septuplet,
}

/// A sounding member of a played unit: its pitch and accidental.
#[derive(Clone, Copy, Debug, PartialEq, Eq, Structural)]
pub struct Sounding {
    pub pitch: Pitch,
    pub accidental: Accidental,
}

/// The duration argument of a play block: one chain shared by every
/// pitch, or one chain per pitch.
pub enum DurationArg {
    Shared(Vec<Token>),
    Parallel(Vec<Vec<Token>>),
}

pub enum DurationArgV {
    Shared(Seq<Token>),
    Parallel(Seq<Seq<Token>>),
}

pub open spec fn chains_view(v: Seq<Vec<Token>>) -> Seq<Seq<Token>> {
    v.map_values(|c: Vec<Token>| c@)
}

impl View for DurationArg {
    type V = DurationArgV;

    open spec fn view(&self) -> DurationArgV {
        match self {
            DurationArg::Shared(c) => DurationArgV::Shared(c@),
            DurationArg::Parallel(l) => DurationArgV::Parallel(chains_view(l@)),
        }
    }
}

/// One element of the emitted block stream. A scope block comes as an
/// opening element and, later, a matching `Close`.
pub enum Block {
    /// Opens a modifier scope for the given tags.
    ModOpen(ModSet),
    /// Opens a tuplet scope.
    TupletOpen(Tuplet),
    /// Opens a scope that repeats its body the given number of times.
    RepeatOpen(u128),
    /// Closes the innermost open scope.
    Close,
    /// Plays pitches (`None` stands for a rest) for the given durations.
    Play(Vec<Option<Sounding>>, DurationArg),
    /// Rests for the given tied chain.
    Rest(Vec<Token>),
    /// Sets the tempo.
    SetTempo(Bpm),
    /// Sets the key.
    SetKey(Key),
    /// Sets the volume, as a percentage.
    SetVolume(u8),
}

/// What a block stands for, with its lists as sequences.
pub enum BlockV {
    ModOpen(ModSet),
    TupletOpen(Tuplet),
    RepeatOpen(nat),
    Close,
    Play(Seq<Option<Sounding>>, DurationArgV),
    Rest(Seq<Token>),
    SetTempo((nat, nat)),
    SetKey(Key),
    SetVolume(nat),
}

impl View for Block {
    type V = BlockV;

    open spec fn view(&self) -> BlockV {
        match self {
            Block::ModOpen(m) => BlockV::ModOpen(*m),
            Block::TupletOpen(t) => BlockV::TupletOpen(*t),
            Block::RepeatOpen(n) => BlockV::RepeatOpen(*n as nat),
            Block::Close => BlockV::Close,
            Block::Play(p, d) => BlockV::Play(p@, d@),
            Block::Rest(c) => BlockV::Rest(c@),
            Block::SetTempo(b) => BlockV::SetTempo(b@),
            Block::SetKey(k) => BlockV::SetKey(*k),
            Block::SetVolume(v) => BlockV::SetVolume(*v as nat),
        }
    }
}

/// The views of a sequence of blocks.
pub open spec fn bview(s: Seq<Block>) -> Seq<BlockV> {
    s.map_values(|b: Block| b@)
}

/// Pushes a block onto the stream.
pub fn emit(out: &mut Vec<Block>, b: Block)
    ensures
        bview(final(out)@) == bview(old(out)@).push(b@),
{
    let ghost v = b@;
    out.push(b);
    proof {
        assert(bview(final(out)@) =~= bview(old(out)@).push(v));
    }
}

pub open spec fn dots_text(d: u8) -> Seq<char> {
    if d == 0 {
        ""@
    } else if d == 1 {
        "Dotted"@
    } else {
        "DottedDotted"@
    }
}

pub open spec fn value_text(t: DurationType) -> Seq<char> {
    match t {
        DurationType::Half => "Half"@,
        DurationType::Quarter => "Quarter"@,
        DurationType::Eighth => "Eighth"@,
        DurationType::Sixteenth => "Sixteenth"@,
        DurationType::ThirtySecond => "ThirtySecond"@,
        DurationType::SixtyFourth => "SixtyFourth"@,
        _ => "Whole"@,
    }
}

pub open spec fn token_text(t: Token) -> Seq<char> {
    "<l>"@ + dots_text(t.dots) + value_text(t.value) + "</l>"@
}

pub open spec fn tokens_text(s: Seq<Token>) -> Seq<char>
    decreases s.len(),
{
    if s.len() == 0 {
        Seq::empty()
    } else {
        tokens_text(s.drop_last()) + token_text(s.last())
    }
}

/// A single token stands alone; a longer chain is tied.
pub open spec fn chain_text(s: Seq<Token>) -> Seq<char> {
    if s.len() == 1 {
        token_text(s[0])
    } else {
        "<block s=\"tieDuration\"><list>"@ + tokens_text(s) + "</list></block>"@
    }
}

pub open spec fn chains_text(s: Seq<Seq<Token>>) -> Seq<char>
    decreases s.len(),
{
    if s.len() == 0 {
        Seq::empty()
    } else {
        chains_text(s.drop_last()) + chain_text(s.last())
    }
}

pub open spec fn duration_arg_text(d: DurationArgV) -> Seq<char> {
    match d {
        DurationArgV::Shared(c) => chain_text(c),
        DurationArgV::Parallel(l) => "<block s=\"reportNewList\"><list>"@ + chains_text(l)
            + "</list></block>"@,
    }
}

pub open spec fn pitch_name_text(n: PitchName) -> Seq<char> {
    match n {
        PitchName::Rest => ""@,
        PitchName::A => "A"@,
        PitchName::B => "B"@,
        PitchName::C => "C"@,
        PitchName::D => "D"@,
        PitchName::E => "E"@,
        PitchName::F => "F"@,
        PitchName::G => "G"@,
    }
}

pub open spec fn accidental_text(a: Accidental) -> Seq<char> {
    match a {
        Accidental::Unmarked => ""@,
        Accidental::Natural => "n"@,
        Accidental::Sharp => "s"@,
        Accidental::Flat => "b"@,
        Accidental::DoubleSharp => "ss"@,
        Accidental::DoubleFlat => "bb"@,
    }
}

pub open spec fn pitch_arg_text(p: Option<Sounding>) -> Seq<char> {
    match p {
        None => "<l>rest</l>"@,
        Some(s) => "<l>"@ + pitch_name_text(s.pitch.name) + decimal(s.pitch.octave as nat)
            + accidental_text(s.accidental) + "</l>"@,
    }
}

pub open spec fn pitches_text(s: Seq<Option<Sounding>>) -> Seq<char>
    decreases s.len(),
{
    if s.len() == 0 {
        Seq::empty()
    } else {
        pitches_text(s.drop_last()) + pitch_arg_text(s.last())
    }
}

pub open spec fn option_text(on: bool, name: Seq<char>) -> Seq<char> {
    if on {
        "<l><option>"@ + name + "</option></l>"@
    } else {
        ""@
    }
}

/// The tags of a modifier scope, in their canonical order.
pub open spec fn modset_text(m: ModSet) -> Seq<char> {
    option_text(m.accent, "Accent"@) + option_text(m.staccato, "Staccato"@) + option_text(
        m.turn_upper,
        "TurnUpper"@,
    ) + option_text(m.turn_lower, "TurnLower"@)
}

pub open spec fn tuplet_text(t: Tuplet) -> Seq<char> {
    match t {
        Tuplet::Triplet => "Triplet"@,
        Tuplet::Quintuplet => "Quintuplet"@,
        Tuplet::Sextuplet => "Sextuplet"@,
        Tuplet::Septuplet => "Septuplet"@,
    }
}

pub open spec fn signature_text(s: KeySignature) -> Seq<char> {
    match s {
        KeySignature::A => "A"@,
        KeySignature::ASharp => "ASharp"@,
        KeySignature::AFlat => "AFlat"@,
        KeySignature::B => "B"@,
        KeySignature::BFlat => "BFlat"@,
        KeySignature::C => "C"@,
        KeySignature::CSharp => "CSharp"@,
        KeySignature::CFlat => "CFlat"@,
        KeySignature::D => "D"@,
        KeySignature::DSharp => "DSharp"@,
        KeySignature::DFlat => "DFlat"@,
        KeySignature::E => "E"@,
        KeySignature::EFlat => "EFlat"@,
        KeySignature::F => "F"@,
        KeySignature::FSharp => "FSharp"@,
        KeySignature::G => "G"@,
        KeySignature::GSharp => "GSharp"@,
        KeySignature::GFlat => "GFlat"@,
    }
}

/// A key as the target names it: signature then mode, as in `DFlatMajor`.
pub open spec fn key_text(k: Key) -> Seq<char> {
    signature_text(k.signature) + match k.mode {
        KeyMode::Major => "Major"@,
        KeyMode::Minor => "Minor"@,
    }
}

/// The text of one block element.
pub open spec fn block_text(b: BlockV) -> Seq<char> {
    match b {
        BlockV::ModOpen(m) => "<block s=\"noteMod\"><list>"@ + modset_text(m) + "</list><script>"@,
        BlockV::TupletOpen(t) => "<block s=\"noteMod\"><list><l><option>"@ + tuplet_text(t)
            + "</option></l></list><script>"@,
        BlockV::RepeatOpen(n) => "<block s=\"doRepeat\"><l>"@ + decimal(n) + "</l><script>"@,
        BlockV::Close => "</script></block>"@,
        BlockV::Play(p, d) => "<block s=\"playNotes\">"@ + duration_arg_text(d) + "<list>"@
            + pitches_text(p) + "</list></block>"@,
        BlockV::Rest(c) => "<block s=\"rest\">"@ + chain_text(c) + "</block>"@,
        BlockV::SetTempo(b) => "<block s=\"setBPM\"><l>"@ + bpm_text(b) + "</l></block>"@,
        BlockV::SetKey(k) => "<block s=\"setKey\"><l>"@ + key_text(k) + "</l></block>"@,
        BlockV::SetVolume(v) => "<block s=\"setVolume\"><l>"@ + decimal(v) + "</l></block>"@,
    }
}

/// The text of a block stream: each element's text, in order.
pub open spec fn blocks_text(s: Seq<BlockV>) -> Seq<char>
    decreases s.len(),
{
    if s.len() == 0 {
        Seq::empty()
    } else {
        blocks_text(s.drop_last()) + block_text(s.last())
    }
}

fn push_token(out: &mut String, t: &Token)
    ensures
        final(out)@ == old(out)@ + token_text(*t),
{
    out.append("<l>");
    if t.dots == 0 {
        out.append("");
    } else if t.dots == 1 {
        out.append("Dotted");
    } else {
        out.append("DottedDotted");
    }
    match t.value {
        DurationType::Half => out.append("Half"),
        DurationType::Quarter => out.append("Quarter"),
        DurationType::Eighth => out.append("Eighth"),
        DurationType::Sixteenth => out.append("Sixteenth"),
        DurationType::ThirtySecond => out.append("ThirtySecond"),
        DurationType::SixtyFourth => out.append("SixtyFourth"),
        _ => out.append("Whole"),
    }
    out.append("</l>");
    assert(final(out)@ =~= old(out)@ + token_text(*t));
}

fn push_chain(out: &mut String, c: &Vec<Token>)
    ensures
        final(out)@ == old(out)@ + chain_text(c@),
{
    if c.len() == 1 {
        push_token(out, &c[0]);
    } else {
        let ghost start = out@;
        out.append("<block s=\"tieDuration\"><list>");
        let ghost mid = out@;
        let mut i: usize = 0;
        while i < c.len()
            invariant
                i <= c@.len(),
                out@ == mid + tokens_text(c@.subrange(0, i as int)),
            decreases c@.len() - i,
        {
            push_token(out, &c[i]);
            assert(c@.subrange(0, i + 1).drop_last() =~= c@.subrange(0, i as int));
            i = i + 1;
        }
        assert(c@.subrange(0, c@.len() as int) =~= c@);
        out.append("</list></block>");
        assert(out@ =~= start + chain_text(c@));
    }
}

fn push_duration_arg(out: &mut String, d: &DurationArg)
    ensures
        final(out)@ == old(out)@ + duration_arg_text(d@),
{
    match d {
        DurationArg::Shared(c) => push_chain(out, c),
        DurationArg::Parallel(l) => {
            let ghost start = out@;
            out.append("<block s=\"reportNewList\"><list>");
            let ghost mid = out@;
            let mut i: usize = 0;
            while i < l.len()
                invariant
                    i <= l@.len(),
                    out@ == mid + chains_text(chains_view(l@).subrange(0, i as int)),
                decreases l@.len() - i,
            {
                push_chain(out, &l[i]);
                assert(chains_view(l@).subrange(0, i + 1).drop_last() =~= chains_view(
                    l@,
                ).subrange(0, i as int));
                i = i + 1;
            }
            assert(chains_view(l@).subrange(0, l@.len() as int) =~= chains_view(l@));
            out.append("</list></block>");
            assert(out@ =~= start + duration_arg_text(d@));
        },
    }
}

fn push_pitch_arg(out: &mut String, p: &Option<Sounding>)
    ensures
        final(out)@ == old(out)@ + pitch_arg_text(*p),
{
    match p {
        None => out.append("<l>rest</l>"),
        Some(s) => {
            let ghost start = out@;
            out.append("<l>");
            match s.pitch.name {
                PitchName::Rest => out.append(""),
                PitchName::A => out.append("A"),
                PitchName::B => out.append("B"),
                PitchName::C => out.append("C"),
                PitchName::D => out.append("D"),
                PitchName::E => out.append("E"),
                PitchName::F => out.append("F"),
                PitchName::G => out.append("G"),
            }
            push_decimal(out, s.pitch.octave as u128);
            match s.accidental {
                Accidental::Unmarked => out.append(""),
                Accidental::Natural => out.append("n"),
                Accidental::Sharp => out.append("s"),
                Accidental::Flat => out.append("b"),
                Accidental::DoubleSharp => out.append("ss"),
                Accidental::DoubleFlat => out.append("bb"),
            }
            out.append("</l>");
            assert(out@ =~= start + pitch_arg_text(*p));
        },
    }
}

fn push_option(out: &mut String, on: bool, name: &str)
    ensures
        final(out)@ == old(out)@ + option_text(on, name@),
{
    if on {
        out.append("<l><option>");
        out.append(name);
        out.append("</option></l>");
        assert(final(out)@ =~= old(out)@ + option_text(on, name@));
    } else {
        out.append("");
    }
}

pub(crate) fn push_key(out: &mut String, k: &Key)
    ensures
        final(out)@ == old(out)@ + key_text(*k),
{
    let ghost start = out@;
    match k.signature {
        KeySignature::A => out.append("A"),
        KeySignature::ASharp => out.append("ASharp"),
        KeySignature::AFlat => out.append("AFlat"),
        KeySignature::B => out.append("B"),
        KeySignature::BFlat => out.append("BFlat"),
        KeySignature::C => out.append("C"),
        KeySignature::CSharp => out.append("CSharp"),
        KeySignature::CFlat => out.append("CFlat"),
        KeySignature::D => out.append("D"),
        KeySignature::DSharp => out.append("DSharp"),
        KeySignature::DFlat => out.append("DFlat"),
        KeySignature::E => out.append("E"),
        KeySignature::EFlat => out.append("EFlat"),
        KeySignature::F => out.append("F"),
        KeySignature::FSharp => out.append("FSharp"),
        KeySignature::G => out.append("G"),
        KeySignature::GSharp => out.append("GSharp"),
        KeySignature::GFlat => out.append("GFlat"),
    }
    match k.mode {
        KeyMode::Major => out.append("Major"),
        KeyMode::Minor => out.append("Minor"),
    }
    assert(out@ =~= start + key_text(*k));
}

fn push_mod_open(out: &mut String, m: &ModSet)
    ensures
        final(out)@ == old(out)@ + block_text(BlockV::ModOpen(*m)),
{
    let ghost start = out@;
    out.append("<block s=\"noteMod\"><list>");
    push_option(out, m.accent, "Accent");
    push_option(out, m.staccato, "Staccato");
    push_option(out, m.turn_upper, "TurnUpper");
    push_option(out, m.turn_lower, "TurnLower");
    out.append("</list><script>");
    assert(out@ =~= start + block_text(BlockV::ModOpen(*m)));
}

fn push_tuplet_open(out: &mut String, t: &Tuplet)
    ensures
        final(out)@ == old(out)@ + block_text(BlockV::TupletOpen(*t)),
{
    let ghost start = out@;
    out.append("<block s=\"noteMod\"><list><l><option>");
    match t {
        Tuplet::Triplet => out.append("Triplet"),
        Tuplet::Quintuplet => out.append("Quintuplet"),
        Tuplet::Sextuplet => out.append("Sextuplet"),
        Tuplet::Septuplet => out.append("Septuplet"),
    }
    out.append("</option></l></list><script>");
    assert(out@ =~= start + block_text(BlockV::TupletOpen(*t)));
}

fn push_play(out: &mut String, p: &Vec<Option<Sounding>>, d: &DurationArg)
    ensures
        final(out)@ == old(out)@ + block_text(BlockV::Play(p@, d@)),
{
    let ghost start = out@;
    out.append("<block s=\"playNotes\">");
    push_duration_arg(out, d);
    out.append("<list>");
    let ghost mid = out@;
    let mut i: usize = 0;
    while i < p.len()
        invariant
            i <= p@.len(),
            out@ == mid + pitches_text(p@.subrange(0, i as int)),
        decreases p@.len() - i,
    {
        push_pitch_arg(out, &p[i]);
        assert(p@.subrange(0, i + 1).drop_last() =~= p@.subrange(0, i as int));
        i = i + 1;
    }
    assert(p@.subrange(0, p@.len() as int) =~= p@);
    out.append("</list></block>");
    assert(out@ =~= start + block_text(BlockV::Play(p@, d@)));
}

fn push_simple(out: &mut String, b: &Block)
    requires
        !(b is ModOpen || b is TupletOpen || b is Play),
    ensures
        final(out)@ == old(out)@ + block_text(b@),
{
    let ghost start = out@;
    match b {
        Block::RepeatOpen(n) => {
            out.append("<block s=\"doRepeat\"><l>");
            push_decimal(out, *n);
            out.append("</l><script>");
        },
        Block::Close => {
            out.append("</script></block>");
        },
        Block::Rest(c) => {
            out.append("<block s=\"rest\">");
            push_chain(out, c);
            out.append("</block>");
        },
        Block::SetTempo(t) => {
            out.append("<block s=\"setBPM\"><l>");
            push_bpm(out, t);
            out.append("</l></block>");
        },
        Block::SetKey(k) => {
            out.append("<block s=\"setKey\"><l>");
            push_key(out, k);
            out.append("</l></block>");
        },
        Block::SetVolume(v) => {
            out.append("<block s=\"setVolume\"><l>");
            push_decimal(out, *v as u128);
            out.append("</l></block>");
        },
        _ => {},
    }
    assert(out@ =~= start + block_text(b@));
}

/// Appends the text of one block.
pub fn push_block(out: &mut String, b: &Block)
    ensures
        final(out)@ == old(out)@ + block_text(b@),
{
    match b {
        Block::ModOpen(m) => push_mod_open(out, m),
        Block::TupletOpen(t) => push_tuplet_open(out, t),
        Block::Play(p, d) => push_play(out, p, d),
        _ => push_simple(out, b),
    }
}

/// Appends the text of a whole block stream.
pub fn push_blocks(out: &mut String, blocks: &Vec<Block>)
    ensures
        final(out)@ == old(out)@ + blocks_text(bview(blocks@)),
{
    let ghost start = out@;
    let mut i: usize = 0;
    while i < blocks.len()
        invariant
            i <= blocks@.len(),
            out@ == start + blocks_text(bview(blocks@).subrange(0, i as int)),
        decreases blocks@.len() - i,
    {
        push_block(out, &blocks[i]);
        assert(bview(blocks@).subrange(0, i + 1).drop_last() =~= bview(blocks@).subrange(
            0,
            i as int,
        ));
        i = i + 1;
    }
    assert(bview(blocks@).subrange(0, blocks@.len() as int) =~= bview(blocks@));
}

} // verus!
