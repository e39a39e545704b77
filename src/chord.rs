use vstd::prelude::*;
use crate::blocks::{Block, BlockV, DurationArg, DurationArgV, Sounding, bview, chains_view, emit};
use crate::duration::{Token, encode, encoding};
use crate::model::{Duration, Dynamic, Mark, Note, TranslateError, rank};
use crate::modifiers::{ModSet, Modifiers, after_set, set_blocks};

verus! {

/// A dynamic level as a volume percentage: 50 moved by ten per letter,
/// within 5 and 100.
pub open spec fn volume_of(d: Dynamic) -> nat {
    match d {
        Dynamic::Piano(m) => if 10 * m >= 45 {
            5
        } else {
            (50 - 10 * m) as nat
        },
        Dynamic::MezzoPiano => 45,
        Dynamic::MezzoForte => 55,
        Dynamic::Forte(m) => if 10 * m >= 50 {
            100
        } else {
            (50 + 10 * m) as nat
        },
    }
}

pub fn volume(d: Dynamic) -> (v: u8)
    ensures
        v as nat == volume_of(d),
{
    match d {
        Dynamic::Piano(m) => if m >= 5 {
            5
        } else {
            50 - 10 * m
        },
        Dynamic::MezzoPiano => 45,
        Dynamic::MezzoForte => 55,
        Dynamic::Forte(m) => if m >= 5 {
            100
        } else {
            50 + 10 * m
        },
    }
}

/// One volume block per dynamic among the marks, in order.
pub open spec fn mark_volumes(marks: Seq<Mark>) -> Seq<BlockV>
    decreases marks.len(),
{
    if marks.len() == 0 {
        Seq::empty()
    } else {
        mark_volumes(marks.drop_last()) + match marks.last() {
            Mark::Dynamic { dynamic } => seq![BlockV::SetVolume(volume_of(dynamic))],
            _ => Seq::empty(),
        }
    }
}

/// The volume blocks of every member (grace notes included), then those
/// of the unit's own marks.
pub open spec fn note_volumes(notes: Seq<Note>) -> Seq<BlockV>
    decreases notes.len(),
{
    if notes.len() == 0 {
        Seq::empty()
    } else {
        note_volumes(notes.drop_last()) + mark_volumes(notes.last().marks@)
    }
}

pub open spec fn is_grace(n: Note) -> bool {
    n.marks@.contains(Mark::Grace)
}

/// The members that are rendered: all but grace notes.
pub open spec fn played(notes: Seq<Note>) -> Seq<Note>
    decreases notes.len(),
{
    if notes.len() == 0 {
        Seq::empty()
    } else if is_grace(notes.last()) {
        played(notes.drop_last())
    } else {
        played(notes.drop_last()).push(notes.last())
    }
}

/// The rendered members that have a pitch: neither grace notes nor rests.
pub open spec fn sounding(notes: Seq<Note>) -> Seq<Note>
    decreases notes.len(),
{
    if notes.len() == 0 {
        Seq::empty()
    } else if is_grace(notes.last()) || notes.last().is_rest_spec() {
        sounding(notes.drop_last())
    } else {
        sounding(notes.drop_last()).push(notes.last())
    }
}

/// The duration of the first member whose value type is the shortest,
/// dots not counted.
pub open spec fn shortest(notes: Seq<Note>) -> Duration
    decreases notes.len(),
{
    if notes.len() <= 1 {
        notes[0].duration
    } else {
        let d = shortest(notes.drop_last());
        if rank(notes.last().duration.value) > rank(d.value) {
            notes.last().duration
        } else {
            d
        }
    }
}

/// The modifier tags that marks ask for.
pub open spec fn mark_tags(marks: Seq<Mark>) -> ModSet
    decreases marks.len(),
{
    if marks.len() == 0 {
        ModSet::none_spec()
    } else {
        mark_tags(marks.drop_last()).union_spec(
            match marks.last() {
                Mark::Accent | Mark::SoftAccent => ModSet { accent: true, ..ModSet::none_spec() },
                Mark::Staccato | Mark::Staccatissimo => ModSet {
                    staccato: true,
                    ..ModSet::none_spec()
                },
                Mark::Turn { upper } => if upper {
                    ModSet { turn_upper: true, ..ModSet::none_spec() }
                } else {
                    ModSet { turn_lower: true, ..ModSet::none_spec() }
                },
                _ => ModSet::none_spec(),
            },
        )
    }
}

pub open spec fn notes_tags(notes: Seq<Note>) -> ModSet
    decreases notes.len(),
{
    if notes.len() == 0 {
        ModSet::none_spec()
    } else {
        notes_tags(notes.drop_last()).union_spec(mark_tags(notes.last().marks@))
    }
}

/// The duration of the first member that has no encoding, if any.
pub open spec fn first_unsupported(notes: Seq<Note>) -> Option<Duration>
    decreases notes.len(),
{
    if notes.len() == 0 {
        None
    } else if first_unsupported(notes.drop_last()) is Some {
        first_unsupported(notes.drop_last())
    } else if encoding(notes.last().duration) is None {
        Some(notes.last().duration)
    } else {
        None
    }
}

/// Each member's own duration chain.
pub open spec fn member_chains(notes: Seq<Note>) -> Seq<Seq<Token>>
    decreases notes.len(),
{
    if notes.len() == 0 {
        Seq::empty()
    } else {
        member_chains(notes.drop_last()).push(encoding(notes.last().duration)->Some_0)
    }
}

pub open spec fn pitch_args(notes: Seq<Note>) -> Seq<Option<Sounding>>
    decreases notes.len(),
{
    if notes.len() == 0 {
        Seq::empty()
    } else {
        pitch_args(notes.drop_last()).push(
            Some(Sounding { pitch: notes.last().pitch, accidental: notes.last().accidental }),
        )
    }
}

pub open spec fn all_same(chains: Seq<Seq<Token>>) -> bool {
    forall|i: int| 0 <= i < chains.len() ==> #[trigger] chains[i] == chains[0]
}

/// The pitches, padded with a rest when no member already has the nominal
/// chain.
pub open spec fn padded_pitches(s: Seq<Note>, nominal: Seq<Token>) -> Seq<Option<Sounding>> {
    if member_chains(s).contains(nominal) {
        pitch_args(s)
    } else {
        pitch_args(s).push(None)
    }
}

/// The member chains, padded with the nominal chain when no member has it.
pub open spec fn padded_chains(s: Seq<Note>, nominal: Seq<Token>) -> Seq<Seq<Token>> {
    if member_chains(s).contains(nominal) {
        member_chains(s)
    } else {
        member_chains(s).push(nominal)
    }
}

/// One shared chain when every entry renders alike, else the parallel list.
pub open spec fn duration_arg_of(chains: Seq<Seq<Token>>) -> DurationArgV {
    if all_same(chains) {
        DurationArgV::Shared(chains[0])
    } else {
        DurationArgV::Parallel(chains)
    }
}

/// The play block of the sounding members `s` with nominal chain `nominal`.
pub open spec fn play_block(s: Seq<Note>, nominal: Seq<Token>) -> BlockV {
    BlockV::Play(
        padded_pitches(s, nominal),
        duration_arg_of(padded_chains(s, nominal)),
    )
}

/// The frames and the blocks of one playable unit (a note, or the notes of
/// a chord with the chord's own marks), from the modifier frames before it.
pub open spec fn unit_result(notes: Seq<Note>, marks: Seq<Mark>, frames: Seq<ModSet>) -> Result<
    (Seq<ModSet>, Seq<BlockV>),
    TranslateError,
> {
    let vol = note_volumes(notes) + mark_volumes(marks);
    let p = played(notes);
    let s = sounding(notes);
    if p.len() == 0 {
        Ok((frames, vol))
    } else if encoding(shortest(p)) is None {
        Err(TranslateError::UnsupportedDuration { duration: shortest(p) })
    } else if s.len() == 0 {
        Ok((frames, vol.push(BlockV::Rest(encoding(shortest(p))->Some_0))))
    } else if first_unsupported(s) is Some {
        Err(TranslateError::UnsupportedDuration { duration: first_unsupported(s)->Some_0 })
    } else {
        let req = notes_tags(s).union_spec(mark_tags(marks));
        Ok(
            (
                after_set(frames, req),
                vol + set_blocks(frames, req) + seq![
                    play_block(s, encoding(shortest(p))->Some_0),
                ],
            ),
        )
    }
}

proof fn lemma_pitch_args_len(s: Seq<Note>)
    ensures
        pitch_args(s).len() == s.len(),
        member_chains(s).len() == s.len(),
    decreases s.len(),
{
    if s.len() > 0 {
        lemma_pitch_args_len(s.drop_last());
    }
}

/// A unit whose entries all render alike gets one shared duration; one
/// with mixed durations gets a parallel list, as long as its pitch list.
pub proof fn lemma_shared_or_parallel(s: Seq<Note>, nominal: Seq<Token>)
    ensures
        play_block(s, nominal) matches BlockV::Play(pitches, arg) && match arg {
            DurationArgV::Shared(c) => all_same(padded_chains(s, nominal)) && c == padded_chains(
                s,
                nominal,
            )[0] && c == nominal,
            DurationArgV::Parallel(l) => !all_same(padded_chains(s, nominal)) && l.len()
                == pitches.len(),
        },
{
    lemma_pitch_args_len(s);
    let c = padded_chains(s, nominal);
    if all_same(c) {
        if member_chains(s).contains(nominal) {
            let j = choose|j: int| 0 <= j < member_chains(s).len() && member_chains(s)[j] == nominal;
            assert(c[j] == c[0]);
        } else {
            assert(c[c.len() - 1] == c[0]);
        }
    }
}

proof fn lemma_sounding_append(a: Seq<Note>, b: Seq<Note>)
    ensures
        sounding(a + b) == sounding(a) + sounding(b),
    decreases b.len(),
{
    if b.len() == 0 {
        assert(a + b =~= a);
        assert(sounding(a) + sounding(b) =~= sounding(a));
    } else {
        assert((a + b).drop_last() =~= a + b.drop_last());
        lemma_sounding_append(a, b.drop_last());
        if is_grace(b.last()) || b.last().is_rest_spec() {
        } else {
            assert(sounding(a) + sounding(b) =~= (sounding(a) + sounding(b.drop_last())).push(b.last()));
        }
    }
}

proof fn lemma_first_unsupported_prefix(a: Seq<Note>, b: Seq<Note>)
    requires
        first_unsupported(a) is Some,
    ensures
        first_unsupported(a + b) == first_unsupported(a),
    decreases b.len(),
{
    if b.len() == 0 {
        assert(a + b =~= a);
    } else {
        assert((a + b).drop_last() =~= a + b.drop_last());
        lemma_first_unsupported_prefix(a, b.drop_last());
    }
}

fn push_mark_volumes(marks: &Vec<Mark>, out: &mut Vec<Block>)
    ensures
        bview(final(out)@) == bview(old(out)@) + mark_volumes(marks@),
{
    let ghost start = bview(out@);
    let mut i: usize = 0;
    while i < marks.len()
        invariant
            i <= marks@.len(),
            bview(out@) == start + mark_volumes(marks@.subrange(0, i as int)),
        decreases marks@.len() - i,
    {
        assert(marks@.subrange(0, i + 1).drop_last() =~= marks@.subrange(0, i as int));
        match marks[i] {
            Mark::Dynamic { dynamic } => {
                emit(out, Block::SetVolume(volume(dynamic)));
            },
            _ => {},
        }
        i = i + 1;
        assert(bview(out@) =~= start + mark_volumes(marks@.subrange(0, i as int)));
    }
    assert(marks@.subrange(0, marks@.len() as int) =~= marks@);
}

fn push_note_volumes(notes: &[Note], out: &mut Vec<Block>)
    ensures
        bview(final(out)@) == bview(old(out)@) + note_volumes(notes@),
{
    let ghost start = bview(out@);
    let mut i: usize = 0;
    while i < notes.len()
        invariant
            i <= notes@.len(),
            bview(out@) == start + note_volumes(notes@.subrange(0, i as int)),
        decreases notes@.len() - i,
    {
        assert(notes@.subrange(0, i + 1).drop_last() =~= notes@.subrange(0, i as int));
        push_mark_volumes(&notes[i].marks, out);
        i = i + 1;
        assert(bview(out@) =~= start + note_volumes(notes@.subrange(0, i as int)));
    }
    assert(notes@.subrange(0, notes@.len() as int) =~= notes@);
}

fn has_grace(marks: &Vec<Mark>) -> (r: bool)
    ensures
        r == marks@.contains(Mark::Grace),
{
    let mut i: usize = 0;
    while i < marks.len()
        invariant
            i <= marks@.len(),
            forall|k: int| 0 <= k < i ==> marks@[k] != Mark::Grace,
        decreases marks@.len() - i,
    {
        if marks[i] == Mark::Grace {
            return true;
        }
        i = i + 1;
    }
    false
}

fn tags_of(marks: &Vec<Mark>) -> (r: ModSet)
    ensures
        r == mark_tags(marks@),
{
    let mut t = ModSet::none();
    let mut i: usize = 0;
    while i < marks.len()
        invariant
            i <= marks@.len(),
            t == mark_tags(marks@.subrange(0, i as int)),
        decreases marks@.len() - i,
    {
        assert(marks@.subrange(0, i + 1).drop_last() =~= marks@.subrange(0, i as int));
        let add = match marks[i] {
            Mark::Accent | Mark::SoftAccent => ModSet { accent: true, ..ModSet::none() },
            Mark::Staccato | Mark::Staccatissimo => ModSet { staccato: true, ..ModSet::none() },
            Mark::Turn { upper } => if upper {
                ModSet { turn_upper: true, ..ModSet::none() }
            } else {
                ModSet { turn_lower: true, ..ModSet::none() }
            },
            _ => ModSet::none(),
        };
        t = t.union(&add);
        i = i + 1;
    }
    assert(marks@.subrange(0, marks@.len() as int) =~= marks@);
    t
}

/// The nominal duration of the played members, if any is played.
fn shortest_played(notes: &[Note]) -> (r: Option<Duration>)
    ensures
        match r {
            None => played(notes@).len() == 0,
            Some(d) => played(notes@).len() > 0 && d == shortest(played(notes@)),
        },
{
    let mut best: Option<Duration> = None;
    let mut i: usize = 0;
    while i < notes.len()
        invariant
            i <= notes@.len(),
            match best {
                None => played(notes@.subrange(0, i as int)).len() == 0,
                Some(d) => played(notes@.subrange(0, i as int)).len() > 0 && d == shortest(
                    played(notes@.subrange(0, i as int)),
                ),
            },
        decreases notes@.len() - i,
    {
        let ghost pre = notes@.subrange(0, i as int);
        assert(notes@.subrange(0, i + 1).drop_last() =~= pre);
        if !has_grace(&notes[i].marks) {
            let d = notes[i].duration;
            match best {
                None => {
                    best = Some(d);
                },
                Some(b) => {
                    if d.value.rank() > b.value.rank() {
                        best = Some(d);
                    }
                },
            }
            proof {
                let p = played(notes@.subrange(0, i + 1));
                assert(p == played(pre).push(notes@[i as int]));
                assert(p.drop_last() =~= played(pre));
            }
        }
        i = i + 1;
    }
    assert(notes@.subrange(0, notes@.len() as int) =~= notes@);
    best
}

fn same_chain(a: &Vec<Token>, b: &Vec<Token>) -> (r: bool)
    ensures
        r == (a@ == b@),
{
    if a.len() != b.len() {
        return false;
    }
    let mut i: usize = 0;
    while i < a.len()
        invariant
            a@.len() == b@.len(),
            i <= a@.len(),
            forall|k: int| 0 <= k < i ==> a@[k] == b@[k],
        decreases a@.len() - i,
    {
        if a[i] != b[i] {
            return false;
        }
        i = i + 1;
    }
    assert(a@ =~= b@);
    true
}

fn copy_chain(a: &Vec<Token>) -> (r: Vec<Token>)
    ensures
        r@ == a@,
{
    let mut r: Vec<Token> = Vec::new();
    let mut i: usize = 0;
    while i < a.len()
        invariant
            i <= a@.len(),
            r@ == a@.subrange(0, i as int),
        decreases a@.len() - i,
    {
        r.push(a[i]);
        i = i + 1;
        assert(r@ =~= a@.subrange(0, i as int));
    }
    assert(a@.subrange(0, a@.len() as int) =~= a@);
    r
}

/// The sounding members' pitches, chains and tags, or the first duration
/// that has no encoding.
fn collect_members(notes: &[Note]) -> (r: Result<
    (Vec<Option<Sounding>>, Vec<Vec<Token>>, ModSet),
    TranslateError,
>)
    ensures
        match r {
            Ok((p, c, t)) => first_unsupported(sounding(notes@)) is None && p@ == pitch_args(
                sounding(notes@),
            ) && chains_view(c@) == member_chains(sounding(notes@)) && t == notes_tags(
                sounding(notes@),
            ),
            Err(e) => first_unsupported(sounding(notes@)) is Some && e == (
            TranslateError::UnsupportedDuration {
                duration: first_unsupported(sounding(notes@))->Some_0,
            }),
        },
{
    let mut pitches: Vec<Option<Sounding>> = Vec::new();
    let mut chains: Vec<Vec<Token>> = Vec::new();
    let mut tags = ModSet::none();
    let mut i: usize = 0;
    while i < notes.len()
        invariant
            i <= notes@.len(),
            first_unsupported(sounding(notes@.subrange(0, i as int))) is None,
            pitches@ == pitch_args(sounding(notes@.subrange(0, i as int))),
            chains_view(chains@) == member_chains(sounding(notes@.subrange(0, i as int))),
            tags == notes_tags(sounding(notes@.subrange(0, i as int))),
        decreases notes@.len() - i,
    {
        let ghost pre = notes@.subrange(0, i as int);
        assert(notes@.subrange(0, i + 1).drop_last() =~= pre);
        let note = &notes[i];
        if !has_grace(&note.marks) && !note.is_rest() {
            let ghost s = sounding(notes@.subrange(0, i + 1));
            assert(s == sounding(pre).push(notes@[i as int]));
            assert(s.drop_last() =~= sounding(pre));
            match encode(note.duration) {
                Err(e) => {
                    proof {
                        assert(first_unsupported(s) == Some(note.duration));
                        lemma_sounding_append(notes@.subrange(0, i + 1), notes@.subrange(i + 1, notes@.len() as int));
                        assert(notes@.subrange(0, i + 1) + notes@.subrange(i + 1, notes@.len() as int) =~= notes@);
                        lemma_first_unsupported_prefix(s, sounding(notes@.subrange(i + 1, notes@.len() as int)));
                    }
                    return Err(e);
                },
                Ok(c) => {
                    pitches.push(Some(Sounding { pitch: note.pitch, accidental: note.accidental }));
                    let ghost cv = c@;
                    let ghost prev = chains@;
                    chains.push(c);
                    assert(chains_view(chains@) =~= chains_view(prev).push(cv));
                    tags = tags.union(&tags_of(&note.marks));
                },
            }
        }
        i = i + 1;
    }
    assert(notes@.subrange(0, notes@.len() as int) =~= notes@);
    Ok((pitches, chains, tags))
}

/// Translates one playable unit: a note, or the notes of a chord together
/// with the chord's own marks.
///
/// Every dynamic among the marks sets the volume first, grace notes
/// included. Grace notes are then dropped. The nominal duration is that of
/// the shortest value type among the rest; with no pitched member left the
/// unit is a rest of that length. Otherwise the modifier scopes are brought
/// to the tags the unit asks for, and one play block follows.
pub fn translate_chord(
    notes: &[Note],
    marks: &Vec<Mark>,
    stack: &mut Modifiers,
    out: &mut Vec<Block>,
) -> (r: Result<(), TranslateError>)
    requires
        old(stack).wf(),
    ensures
        final(stack).wf(),
        match r {
            Ok(()) => unit_result(notes@, marks@, old(stack)@.0) is Ok && final(stack)@.0
                == unit_result(notes@, marks@, old(stack)@.0)->Ok_0.0 && bview(final(out)@)
                == bview(old(out)@) + unit_result(notes@, marks@, old(stack)@.0)->Ok_0.1,
            Err(e) => unit_result(notes@, marks@, old(stack)@.0) == Err::<
                (Seq<ModSet>, Seq<BlockV>),
                TranslateError,
            >(e),
        },
{
    let ghost start = bview(out@);
    push_note_volumes(notes, out);
    push_mark_volumes(marks, out);
    let ghost vol = note_volumes(notes@) + mark_volumes(marks@);
    assert(bview(out@) =~= start + vol);
    let nominal = match shortest_played(notes) {
        None => {
            return Ok(());
        },
        Some(d) => d,
    };
    let nominal_chain = match encode(nominal) {
        Err(e) => {
            return Err(e);
        },
        Ok(c) => c,
    };
    let (mut pitches, mut chains, tags) = match collect_members(notes) {
        Err(e) => {
            return Err(e);
        },
        Ok(x) => x,
    };
    let ghost s = sounding(notes@);
    proof {
        lemma_pitch_args_len(s);
    }
    if pitches.len() == 0 {
        emit(out, Block::Rest(nominal_chain));
        assert(bview(out@) =~= start + vol.push(BlockV::Rest(encoding(nominal)->Some_0)));
        return Ok(());
    }
    let mut found = false;
    let mut i: usize = 0;
    while i < chains.len()
        invariant
            i <= chains@.len(),
            chains_view(chains@) == member_chains(s),
            found == (exists|j: int| 0 <= j < i && #[trigger] chains_view(chains@)[j] == nominal_chain@),
        decreases chains@.len() - i,
    {
        assert(chains_view(chains@)[i as int] == chains@[i as int]@);
        if same_chain(&chains[i], &nominal_chain) {
            found = true;
        }
        i = i + 1;
    }
    assert(found == member_chains(s).contains(nominal_chain@));
    if !found {
        pitches.push(None);
        let ghost prev = chains@;
        chains.push(copy_chain(&nominal_chain));
        assert(chains_view(chains@) =~= chains_view(prev).push(nominal_chain@));
    }
    assert(pitches@ == padded_pitches(s, nominal_chain@));
    assert(chains_view(chains@) == padded_chains(s, nominal_chain@));
    let mut same = true;
    let mut k: usize = 1;
    while k < chains.len()
        invariant
            1 <= k <= chains@.len(),
            same == (forall|j: int| 0 <= j < k ==> #[trigger] chains_view(chains@)[j] == chains_view(chains@)[0]),
        decreases chains@.len() - k,
    {
        assert(chains_view(chains@)[k as int] == chains@[k as int]@);
        assert(chains_view(chains@)[0] == chains@[0]@);
        if !same_chain(&chains[k], &chains[0]) {
            same = false;
        }
        k = k + 1;
    }
    assert(same == all_same(chains_view(chains@)));
    let arg = if same {
        DurationArg::Shared(copy_chain(&chains[0]))
    } else {
        DurationArg::Parallel(chains)
    };
    let req = tags.union(&tags_of(marks));
    stack.set(req, out);
    emit(out, Block::Play(pitches, arg));
    assert(bview(out@) =~= start + vol + set_blocks(old(stack)@.0, req) + seq![
        play_block(s, nominal_chain@),
    ]);
    Ok(())
}

} // verus!
