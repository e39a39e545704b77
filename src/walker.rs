use vstd::prelude::*;
use crate::blocks::{Block, BlockV, Tuplet, bview, emit};
use crate::chord::{translate_chord, unit_result};
use crate::duration::{tuplet_label, tuplet_label_of};
use crate::model::{Item, Mark, Note, PhraseMod, Score, SectionItem, SectionMod, TranslateError};
use crate::modifiers::{
    ModSet,
    Modifiers,
    after_set,
    closes,
    frames_wf,
    kept,
    lemma_kept_wf,
    lemma_union_nonempty,
    set_blocks,
};
use crate::tempo::{Bpm, quarter_bpm, quarter_tempo};

verus! {

/// The on-path flags of sections, staves and phrases, by arena index.
pub type Paths = (Seq<bool>, Seq<bool>, Seq<bool>);

/// What walking a part of the score gives: the modifier frames after it
/// and the blocks it emits, or the error that ends the translation.
pub type Walked = Result<(Seq<ModSet>, Seq<BlockV>), TranslateError>;

pub open spec fn count_false(s: Seq<bool>) -> nat
    decreases s.len(),
{
    if s.len() == 0 {
        0
    } else {
        count_false(s.drop_last()) + if s.last() {
            0nat
        } else {
            1nat
        }
    }
}

/// How many nodes are not on the path: a bound on how much deeper the
/// walk can go.
pub open spec fn path_fuel(p: Paths) -> nat {
    count_false(p.0) + count_false(p.1) + count_false(p.2)
}

/// The tuplet a phrase's modifications ask for: the last supported ratio,
/// or the first unsupported one as an error.
pub open spec fn tuplet_of(mods: Seq<PhraseMod>) -> Result<Option<Tuplet>, TranslateError>
    decreases mods.len(),
{
    if mods.len() == 0 {
        Ok(None)
    } else {
        match tuplet_of(mods.drop_last()) {
            Err(e) => Err(e),
            Ok(prev) => match mods.last() {
                PhraseMod::Tuplet { num_beats, into_beats } => match tuplet_label_of(
                    num_beats,
                    into_beats,
                ) {
                    Some(t) => Ok(Some(t)),
                    None => Err(TranslateError::UnsupportedTuplet { num_beats, into_beats }),
                },
                PhraseMod::Other => Ok(prev),
            },
        }
    }
}

/// How many times a section plays: once, plus each repeat's count.
pub open spec fn repeat_total(mods: Seq<SectionMod>) -> nat
    decreases mods.len(),
{
    if mods.len() == 0 {
        1
    } else {
        repeat_total(mods.drop_last()) + match mods.last() {
            SectionMod::Repeat { num_times } => num_times as nat,
            _ => 0nat,
        }
    }
}

/// One tempo block per tempo change, in order, normalized to quarter notes.
pub open spec fn tempo_blocks(mods: Seq<SectionMod>) -> Seq<BlockV>
    decreases mods.len(),
{
    if mods.len() == 0 {
        Seq::empty()
    } else {
        tempo_blocks(mods.drop_last()) + match mods.last() {
            SectionMod::TempoExplicit { tempo } => seq![BlockV::SetTempo(quarter_bpm(tempo))],
            SectionMod::TempoImplicit { bpm } => seq![BlockV::SetTempo((bpm as nat, 0nat))],
            _ => Seq::empty(),
        }
    }
}

/// A scope block around a body: the modifier scopes are all closed first,
/// and those the body leaves open are closed before the scope itself.
pub open spec fn scoped(frames: Seq<ModSet>, open: BlockV, body: Walked) -> Walked {
    match body {
        Err(e) => Err(e),
        Ok((f, b)) => Ok(
            (
                Seq::empty(),
                set_blocks(frames, ModSet::none_spec()) + seq![open] + b + closes(f.len())
                    + seq![BlockV::Close],
            ),
        ),
    }
}

pub open spec fn followed_by(first: Walked, second: Walked) -> Walked {
    match first {
        Err(e) => Err(e),
        Ok((_, b1)) => match second {
            Err(e) => Err(e),
            Ok((f2, b2)) => Ok((f2, b1 + b2)),
        },
    }
}

/// One staff or phrase element.
pub open spec fn walk_item(score: Score, item: Item, frames: Seq<ModSet>, path: Paths, fuel: nat) -> Walked
    decreases fuel, 1nat, 0nat,
{
    match item {
        Item::Note(n) => unit_result(seq![n], Seq::empty(), frames),
        Item::Chord(c) => unit_result(c.notes@, c.marks@, frames),
        Item::Phrase(id) => walk_phrase(score, id, frames, path, fuel),
        Item::KeyChange(k) => Ok((frames, seq![BlockV::SetKey(k)])),
        _ => Ok((frames, Seq::empty())),
    }
}

/// The elements of a staff or phrase, in order, each starting from the
/// frames the one before left.
pub open spec fn walk_items(
    score: Score,
    items: Seq<Item>,
    frames: Seq<ModSet>,
    path: Paths,
    fuel: nat,
) -> Walked
    decreases fuel, 2nat, items.len(),
{
    if items.len() == 0 {
        Ok((frames, Seq::empty()))
    } else {
        let prefix = walk_items(score, items.drop_last(), frames, path, fuel);
        match prefix {
            Err(e) => Err(e),
            Ok((f, _)) => followed_by(prefix, walk_item(score, items.last(), f, path, fuel)),
        }
    }
}

/// A phrase: a cycle error if it is already on the path, else its tuplet
/// check, then its elements, inside a tuplet scope if it has one.
pub open spec fn walk_phrase(score: Score, id: usize, frames: Seq<ModSet>, path: Paths, fuel: nat) -> Walked
    decreases fuel, 0nat, 0nat,
{
    if id >= score.phrases@.len() || id >= path.2.len() || path.2[id as int] || fuel == 0 {
        Err(TranslateError::CyclicStructure)
    } else {
        let ph = score.phrases@[id as int];
        let inner = (path.0, path.1, path.2.update(id as int, true));
        match tuplet_of(ph.mods@) {
            Err(e) => Err(e),
            Ok(None) => walk_items(score, ph.items@, frames, inner, (fuel - 1) as nat),
            Ok(Some(t)) => scoped(
                frames,
                BlockV::TupletOpen(t),
                walk_items(score, ph.items@, Seq::empty(), inner, (fuel - 1) as nat),
            ),
        }
    }
}

/// A staff: a cycle error if it is already on the path, else its elements.
pub open spec fn walk_staff(score: Score, id: usize, frames: Seq<ModSet>, path: Paths, fuel: nat) -> Walked
    decreases fuel, 0nat, 0nat,
{
    if id >= score.staves@.len() || id >= path.1.len() || path.1[id as int] || fuel == 0 {
        Err(TranslateError::CyclicStructure)
    } else {
        walk_items(
            score,
            score.staves@[id as int].items@,
            frames,
            (path.0, path.1.update(id as int, true), path.2),
            (fuel - 1) as nat,
        )
    }
}

pub open spec fn walk_section_item(
    score: Score,
    item: SectionItem,
    frames: Seq<ModSet>,
    path: Paths,
    fuel: nat,
) -> Walked
    decreases fuel, 1nat, 0nat,
{
    match item {
        SectionItem::Staff(id) => walk_staff(score, id, frames, path, fuel),
        SectionItem::Section(id) => walk_section(score, id, frames, path, fuel),
    }
}

pub open spec fn walk_section_items(
    score: Score,
    items: Seq<SectionItem>,
    frames: Seq<ModSet>,
    path: Paths,
    fuel: nat,
) -> Walked
    decreases fuel, 2nat, items.len(),
{
    if items.len() == 0 {
        Ok((frames, Seq::empty()))
    } else {
        let prefix = walk_section_items(score, items.drop_last(), frames, path, fuel);
        match prefix {
            Err(e) => Err(e),
            Ok((f, _)) => followed_by(prefix, walk_section_item(score, items.last(), f, path, fuel)),
        }
    }
}

/// A section: a cycle error if it is already on the path, else its tempo
/// changes, then its elements, inside a repeat scope when it plays more
/// than once.
pub open spec fn walk_section(score: Score, id: usize, frames: Seq<ModSet>, path: Paths, fuel: nat) -> Walked
    decreases fuel, 0nat, 0nat,
{
    if id >= score.sections@.len() || id >= path.0.len() || path.0[id as int] || fuel == 0 {
        Err(TranslateError::CyclicStructure)
    } else {
        let sec = score.sections@[id as int];
        let inner = (path.0.update(id as int, true), path.1, path.2);
        let pre = tempo_blocks(sec.mods@);
        let n = repeat_total(sec.mods@);
        if n == 1 {
            followed_by(
                Ok((frames, pre)),
                walk_section_items(score, sec.items@, frames, inner, (fuel - 1) as nat),
            )
        } else {
            followed_by(
                Ok((frames, pre)),
                scoped(
                    frames,
                    BlockV::RepeatOpen(n),
                    walk_section_items(score, sec.items@, Seq::empty(), inner, (fuel - 1) as nat),
                ),
            )
        }
    }
}

/// The per-translation state of the walk: the modifier stack and, for
/// each node kind, which nodes are on the current recursion path.
pub struct Walk {
    pub stack: Modifiers,
    pub sections: Vec<bool>,
    pub staves: Vec<bool>,
    pub phrases: Vec<bool>,
}

impl Walk {
    pub open spec fn paths(&self) -> Paths {
        (self.sections@, self.staves@, self.phrases@)
    }

    pub open spec fn wf(&self, score: &Score) -> bool {
        &&& self.stack.wf()
        &&& self.sections@.len() == score.sections@.len()
        &&& self.staves@.len() == score.staves@.len()
        &&& self.phrases@.len() == score.phrases@.len()
    }

    /// A fresh walk over `score`: no open scope, nothing on the path.
    pub fn new(score: &Score) -> (w: Walk)
        ensures
            w.wf(score),
            w.stack@.0 == Seq::<ModSet>::empty(),
            w.sections@ == Seq::new(score.sections@.len(), |i: int| false),
            w.staves@ == Seq::new(score.staves@.len(), |i: int| false),
            w.phrases@ == Seq::new(score.phrases@.len(), |i: int| false),
    {
        Walk {
            stack: Modifiers::new(),
            sections: falses(score.sections.len()),
            staves: falses(score.staves.len()),
            phrases: falses(score.phrases.len()),
        }
    }
}

fn falses(n: usize) -> (v: Vec<bool>)
    ensures
        v@ == Seq::new(n as nat, |i: int| false),
{
    let mut v: Vec<bool> = Vec::new();
    let mut i: usize = 0;
    while i < n
        invariant
            i <= n,
            v@ == Seq::new(i as nat, |k: int| false),
        decreases n - i,
    {
        v.push(false);
        i = i + 1;
        assert(v@ =~= Seq::new(i as nat, |k: int| false));
    }
    v
}

/// The exec outcome `r` agrees with the walk `w`: on success the frames and
/// the emitted blocks are those of `w`; on failure the error is.
pub open spec fn agrees(
    r: Result<(), TranslateError>,
    w: Walked,
    frames: Seq<ModSet>,
    before: Seq<BlockV>,
    after: Seq<BlockV>,
) -> bool {
    match r {
        Ok(()) => w is Ok && frames == w->Ok_0.0 && after == before + w->Ok_0.1,
        Err(e) => w == Err::<(Seq<ModSet>, Seq<BlockV>), TranslateError>(e),
    }
}

proof fn lemma_mark(p: Seq<bool>, id: int)
    requires
        0 <= id < p.len(),
        !p[id],
    ensures
        count_false(p.update(id, true)) + 1 == count_false(p),
    decreases p.len(),
{
    let q = p.update(id, true);
    if id == p.len() - 1 {
        assert(q.drop_last() =~= p.drop_last());
    } else {
        assert(q.drop_last() =~= p.drop_last().update(id, true));
        lemma_mark(p.drop_last(), id);
    }
}

proof fn lemma_unmark(p: Seq<bool>, id: int)
    requires
        0 <= id < p.len(),
        !p[id],
    ensures
        p.update(id, true).update(id, false) == p,
{
    assert(p.update(id, true).update(id, false) =~= p);
}

/// Closing every modifier scope leaves none open.
pub(crate) proof fn lemma_set_none(frames: Seq<ModSet>)
    requires
        frames_wf(frames),
    ensures
        after_set(frames, ModSet::none_spec()) == Seq::<ModSet>::empty(),
{
    lemma_kept_wf(frames, ModSet::none_spec());
    let k = kept(frames, ModSet::none_spec());
    if k.len() > 0 {
        lemma_union_nonempty(k);
    }
    assert(k =~= Seq::<ModSet>::empty());
}

proof fn lemma_items_err(score: Score, items: Seq<Item>, k: int, frames: Seq<ModSet>, path: Paths, fuel: nat)
    requires
        0 <= k <= items.len(),
        walk_items(score, items.subrange(0, k), frames, path, fuel) is Err,
    ensures
        walk_items(score, items, frames, path, fuel) == walk_items(score, items.subrange(0, k), frames, path, fuel),
    decreases items.len() - k,
{
    if k == items.len() {
        assert(items.subrange(0, k) =~= items);
    } else {
        assert(items.drop_last().subrange(0, k) =~= items.subrange(0, k));
        lemma_items_err(score, items.drop_last(), k, frames, path, fuel);
    }
}

proof fn lemma_section_items_err(
    score: Score,
    items: Seq<SectionItem>,
    k: int,
    frames: Seq<ModSet>,
    path: Paths,
    fuel: nat,
)
    requires
        0 <= k <= items.len(),
        walk_section_items(score, items.subrange(0, k), frames, path, fuel) is Err,
    ensures
        walk_section_items(score, items, frames, path, fuel) == walk_section_items(
            score,
            items.subrange(0, k),
            frames,
            path,
            fuel,
        ),
    decreases items.len() - k,
{
    if k == items.len() {
        assert(items.subrange(0, k) =~= items);
    } else {
        assert(items.drop_last().subrange(0, k) =~= items.subrange(0, k));
        lemma_section_items_err(score, items.drop_last(), k, frames, path, fuel);
    }
}

/// Relies on `core::slice::from_ref`: a slice of length one holding the
/// referenced value.
#[verifier::external_body]
fn one_note<'a>(n: &'a Note) -> (s: &'a [Note])
    ensures
        s@ == seq![*n],
{
    core::slice::from_ref(n)
}

fn walk_item_exec(score: &Score, item: &Item, ctx: &mut Walk, out: &mut Vec<Block>) -> (r: Result<(), TranslateError>)
    requires
        score.wf(),
        old(ctx).wf(score),
        item matches Item::Phrase(id) ==> id < score.phrases@.len(),
    ensures
        final(ctx).wf(score),
        agrees(
            r,
            walk_item(*score, *item, old(ctx).stack@.0, old(ctx).paths(), path_fuel(old(ctx).paths())),
            final(ctx).stack@.0,
            bview(old(out)@),
            bview(final(out)@),
        ),
        r is Ok ==> final(ctx).paths() == old(ctx).paths(),
    decreases path_fuel(old(ctx).paths()), 1nat, 0nat,
{
    match item {
        Item::Note(n) => {
            let none: Vec<Mark> = Vec::new();
            let one = one_note(n);
            assert(none@ =~= Seq::<Mark>::empty());
            assert(one@ == seq![*n]);
            translate_chord(one, &none, &mut ctx.stack, out)
        },
        Item::Chord(c) => translate_chord(c.notes.as_slice(), &c.marks, &mut ctx.stack, out),
        Item::Phrase(id) => walk_phrase_exec(score, *id, ctx, out),
        Item::KeyChange(k) => {
            let ghost before = bview(out@);
            emit(out, Block::SetKey(*k));
            assert(bview(out@) =~= before + seq![BlockV::SetKey(*k)]);
            Ok(())
        },
        _ => {
            assert(bview(out@) =~= bview(out@) + Seq::<BlockV>::empty());
            Ok(())
        },
    }
}

fn walk_items_exec(score: &Score, items: &Vec<Item>, ctx: &mut Walk, out: &mut Vec<Block>) -> (r: Result<(), TranslateError>)
    requires
        score.wf(),
        old(ctx).wf(score),
        crate::model::items_wf(items@, score.phrases@.len() as nat),
    ensures
        final(ctx).wf(score),
        agrees(
            r,
            walk_items(*score, items@, old(ctx).stack@.0, old(ctx).paths(), path_fuel(old(ctx).paths())),
            final(ctx).stack@.0,
            bview(old(out)@),
            bview(final(out)@),
        ),
        r is Ok ==> final(ctx).paths() == old(ctx).paths(),
    decreases path_fuel(old(ctx).paths()), 2nat, 0nat,
{
    let ghost f0 = ctx.stack@.0;
    let ghost p0 = ctx.paths();
    let ghost fuel = path_fuel(p0);
    let ghost o0 = bview(out@);
    let mut i: usize = 0;
    assert(walk_items(*score, items@.subrange(0, 0), f0, p0, fuel) == Ok::<(Seq<ModSet>, Seq<BlockV>), TranslateError>((f0, Seq::empty())));
    assert(o0 =~= o0 + Seq::<BlockV>::empty());
    while i < items.len()
        invariant
            score.wf(),
            ctx.wf(score),
            ctx.paths() == p0,
            p0 == old(ctx).paths(),
            f0 == old(ctx).stack@.0,
            o0 == bview(old(out)@),
            fuel == path_fuel(p0),
            crate::model::items_wf(items@, score.phrases@.len() as nat),
            i <= items@.len(),
            walk_items(*score, items@.subrange(0, i as int), f0, p0, fuel) is Ok,
            ctx.stack@.0 == walk_items(*score, items@.subrange(0, i as int), f0, p0, fuel)->Ok_0.0,
            bview(out@) == o0 + walk_items(*score, items@.subrange(0, i as int), f0, p0, fuel)->Ok_0.1,
        decreases items@.len() - i,
    {
        let ghost pre = items@.subrange(0, i as int);
        let ghost next = items@.subrange(0, i + 1);
        assert(next.drop_last() =~= pre);
        assert(next.last() == items@[i as int]);
        let r = walk_item_exec(score, &items[i], ctx, out);
        match r {
            Err(e) => {
                proof {
                    assert(walk_items(*score, next, f0, p0, fuel) == Err::<(Seq<ModSet>, Seq<BlockV>), TranslateError>(e));
                    lemma_items_err(*score, items@, i + 1, f0, p0, fuel);
                }
                return Err(e);
            },
            Ok(()) => {},
        }
        assert(bview(out@) =~= o0 + walk_items(*score, next, f0, p0, fuel)->Ok_0.1);
        i = i + 1;
    }
    assert(items@.subrange(0, items@.len() as int) =~= items@);
    Ok(())
}

fn tuplet_exec(mods: &Vec<PhraseMod>) -> (r: Result<Option<Tuplet>, TranslateError>)
    ensures
        r == tuplet_of(mods@),
{
    let mut found: Option<Tuplet> = None;
    let mut i: usize = 0;
    while i < mods.len()
        invariant
            i <= mods@.len(),
            tuplet_of(mods@.subrange(0, i as int)) == Ok::<Option<Tuplet>, TranslateError>(found),
        decreases mods@.len() - i,
    {
        assert(mods@.subrange(0, i + 1).drop_last() =~= mods@.subrange(0, i as int));
        match mods[i] {
            PhraseMod::Tuplet { num_beats, into_beats } => {
                match tuplet_label(num_beats, into_beats) {
                    Ok(t) => {
                        found = Some(t);
                    },
                    Err(e) => {
                        proof {
                            lemma_tuplet_err(mods@, i as int + 1);
                        }
                        return Err(e);
                    },
                }
            },
            PhraseMod::Other => {},
        }
        i = i + 1;
    }
    assert(mods@.subrange(0, mods@.len() as int) =~= mods@);
    Ok(found)
}

proof fn lemma_tuplet_err(mods: Seq<PhraseMod>, k: int)
    requires
        0 <= k <= mods.len(),
        tuplet_of(mods.subrange(0, k)) is Err,
    ensures
        tuplet_of(mods) == tuplet_of(mods.subrange(0, k)),
    decreases mods.len() - k,
{
    if k == mods.len() {
        assert(mods.subrange(0, k) =~= mods);
    } else {
        assert(mods.drop_last().subrange(0, k) =~= mods.subrange(0, k));
        lemma_tuplet_err(mods.drop_last(), k);
    }
}

fn walk_phrase_exec(score: &Score, id: usize, ctx: &mut Walk, out: &mut Vec<Block>) -> (r: Result<(), TranslateError>)
    requires
        score.wf(),
        old(ctx).wf(score),
        id < score.phrases@.len(),
    ensures
        final(ctx).wf(score),
        agrees(
            r,
            walk_phrase(*score, id, old(ctx).stack@.0, old(ctx).paths(), path_fuel(old(ctx).paths())),
            final(ctx).stack@.0,
            bview(old(out)@),
            bview(final(out)@),
        ),
        r is Ok ==> final(ctx).paths() == old(ctx).paths(),
    decreases path_fuel(old(ctx).paths()), 0nat, 0nat,
{
    let ghost p0 = ctx.paths();
    let ghost f0 = ctx.stack@.0;
    let ghost o0 = bview(out@);
    if ctx.phrases[id] {
        return Err(TranslateError::CyclicStructure);
    }
    proof {
        lemma_mark(p0.2, id as int);
    }
    let phrase = &score.phrases[id];
    let tuplet = match tuplet_exec(&phrase.mods) {
        Err(e) => {
            return Err(e);
        },
        Ok(t) => t,
    };
    ctx.phrases.set(id, true);
    assert(ctx.paths() == (p0.0, p0.1, p0.2.update(id as int, true)));
    assert(path_fuel(ctx.paths()) + 1 == path_fuel(p0));
    let ghost inner = ctx.paths();
    let r = match tuplet {
        None => walk_items_exec(score, &phrase.items, ctx, out),
        Some(t) => {
            proof {
                lemma_set_none(f0);
            }
            ctx.stack.set(ModSet::none(), out);
            let point = ctx.stack.unwind_point();
            emit(out, Block::TupletOpen(t));
            let r = walk_items_exec(score, &phrase.items, ctx, out);
            if r.is_ok() {
                let ghost fb = ctx.stack@.0;
                ctx.stack.unwind_to(point, out);
                assert(ctx.stack@.0 =~= Seq::<ModSet>::empty());
                emit(out, Block::Close);
                let ghost w = walk_items(*score, phrase.items@, Seq::empty(), ctx.paths(), path_fuel(ctx.paths()));
                assert(bview(out@) =~= o0 + (set_blocks(f0, ModSet::none_spec()) + seq![BlockV::TupletOpen(t)] + w->Ok_0.1 + closes(fb.len()) + seq![BlockV::Close]));
            }
            r
        },
    };
    if r.is_ok() {
        ctx.phrases.set(id, false);
        proof {
            lemma_unmark(p0.2, id as int);
        }
    }
    r
}

fn walk_staff_exec(score: &Score, id: usize, ctx: &mut Walk, out: &mut Vec<Block>) -> (r: Result<(), TranslateError>)
    requires
        score.wf(),
        old(ctx).wf(score),
        id < score.staves@.len(),
    ensures
        final(ctx).wf(score),
        agrees(
            r,
            walk_staff(*score, id, old(ctx).stack@.0, old(ctx).paths(), path_fuel(old(ctx).paths())),
            final(ctx).stack@.0,
            bview(old(out)@),
            bview(final(out)@),
        ),
        r is Ok ==> final(ctx).paths() == old(ctx).paths(),
    decreases path_fuel(old(ctx).paths()), 0nat, 0nat,
{
    let ghost p0 = ctx.paths();
    if ctx.staves[id] {
        return Err(TranslateError::CyclicStructure);
    }
    proof {
        lemma_mark(p0.1, id as int);
    }
    ctx.staves.set(id, true);
    assert(ctx.paths() == (p0.0, p0.1.update(id as int, true), p0.2));
    assert(path_fuel(ctx.paths()) + 1 == path_fuel(p0));
    let r = walk_items_exec(score, &score.staves[id].items, ctx, out);
    if r.is_ok() {
        ctx.staves.set(id, false);
        proof {
            lemma_unmark(p0.1, id as int);
        }
    }
    r
}

fn walk_section_item_exec(score: &Score, item: &SectionItem, ctx: &mut Walk, out: &mut Vec<Block>) -> (r: Result<(), TranslateError>)
    requires
        score.wf(),
        old(ctx).wf(score),
        match *item {
            SectionItem::Staff(id) => id < score.staves@.len(),
            SectionItem::Section(id) => id < score.sections@.len(),
        },
    ensures
        final(ctx).wf(score),
        agrees(
            r,
            walk_section_item(*score, *item, old(ctx).stack@.0, old(ctx).paths(), path_fuel(old(ctx).paths())),
            final(ctx).stack@.0,
            bview(old(out)@),
            bview(final(out)@),
        ),
        r is Ok ==> final(ctx).paths() == old(ctx).paths(),
    decreases path_fuel(old(ctx).paths()), 1nat, 0nat,
{
    match item {
        SectionItem::Staff(id) => walk_staff_exec(score, *id, ctx, out),
        SectionItem::Section(id) => walk_section_exec(score, *id, ctx, out),
    }
}

fn walk_section_items_exec(score: &Score, items: &Vec<SectionItem>, ctx: &mut Walk, out: &mut Vec<Block>) -> (r: Result<(), TranslateError>)
    requires
        score.wf(),
        old(ctx).wf(score),
        crate::model::section_items_wf(items@, score.sections@.len() as nat, score.staves@.len() as nat),
    ensures
        final(ctx).wf(score),
        agrees(
            r,
            walk_section_items(*score, items@, old(ctx).stack@.0, old(ctx).paths(), path_fuel(old(ctx).paths())),
            final(ctx).stack@.0,
            bview(old(out)@),
            bview(final(out)@),
        ),
        r is Ok ==> final(ctx).paths() == old(ctx).paths(),
    decreases path_fuel(old(ctx).paths()), 2nat, 0nat,
{
    let ghost f0 = ctx.stack@.0;
    let ghost p0 = ctx.paths();
    let ghost fuel = path_fuel(p0);
    let ghost o0 = bview(out@);
    let mut i: usize = 0;
    assert(walk_section_items(*score, items@.subrange(0, 0), f0, p0, fuel) == Ok::<(Seq<ModSet>, Seq<BlockV>), TranslateError>((f0, Seq::empty())));
    assert(o0 =~= o0 + Seq::<BlockV>::empty());
    while i < items.len()
        invariant
            score.wf(),
            ctx.wf(score),
            ctx.paths() == p0,
            p0 == old(ctx).paths(),
            f0 == old(ctx).stack@.0,
            o0 == bview(old(out)@),
            fuel == path_fuel(p0),
            crate::model::section_items_wf(items@, score.sections@.len() as nat, score.staves@.len() as nat),
            i <= items@.len(),
            walk_section_items(*score, items@.subrange(0, i as int), f0, p0, fuel) is Ok,
            ctx.stack@.0 == walk_section_items(*score, items@.subrange(0, i as int), f0, p0, fuel)->Ok_0.0,
            bview(out@) == o0 + walk_section_items(*score, items@.subrange(0, i as int), f0, p0, fuel)->Ok_0.1,
        decreases items@.len() - i,
    {
        let ghost pre = items@.subrange(0, i as int);
        let ghost next = items@.subrange(0, i + 1);
        assert(next.drop_last() =~= pre);
        assert(next.last() == items@[i as int]);
        let r = walk_section_item_exec(score, &items[i], ctx, out);
        match r {
            Err(e) => {
                proof {
                    assert(walk_section_items(*score, next, f0, p0, fuel) == Err::<(Seq<ModSet>, Seq<BlockV>), TranslateError>(e));
                    lemma_section_items_err(*score, items@, i + 1, f0, p0, fuel);
                }
                return Err(e);
            },
            Ok(()) => {},
        }
        assert(bview(out@) =~= o0 + walk_section_items(*score, next, f0, p0, fuel)->Ok_0.1);
        i = i + 1;
    }
    assert(items@.subrange(0, items@.len() as int) =~= items@);
    Ok(())
}

/// Emits a section's tempo changes and returns how many times it plays.
fn section_mods(mods: &Vec<SectionMod>, out: &mut Vec<Block>) -> (n: u128)
    ensures
        n as nat == repeat_total(mods@),
        bview(final(out)@) == bview(old(out)@) + tempo_blocks(mods@),
{
    let ghost o0 = bview(out@);
    let mut n: u128 = 1;
    let mut i: usize = 0;
    while i < mods.len()
        invariant
            i <= mods@.len(),
            n as nat == repeat_total(mods@.subrange(0, i as int)),
            n <= 1 + 255 * i,
            bview(out@) == o0 + tempo_blocks(mods@.subrange(0, i as int)),
        decreases mods@.len() - i,
    {
        assert(mods@.subrange(0, i + 1).drop_last() =~= mods@.subrange(0, i as int));
        match mods[i] {
            SectionMod::Repeat { num_times } => {
                n = n + num_times as u128;
            },
            SectionMod::TempoExplicit { tempo } => {
                emit(out, Block::SetTempo(quarter_tempo(&tempo)));
            },
            SectionMod::TempoImplicit { bpm } => {
                emit(out, Block::SetTempo(Bpm::whole(bpm)));
            },
            SectionMod::Other => {},
        }
        i = i + 1;
        assert(bview(out@) =~= o0 + tempo_blocks(mods@.subrange(0, i as int)));
    }
    assert(mods@.subrange(0, mods@.len() as int) =~= mods@);
    n
}

pub(crate) fn walk_section_exec(score: &Score, id: usize, ctx: &mut Walk, out: &mut Vec<Block>) -> (r: Result<(), TranslateError>)
    requires
        score.wf(),
        old(ctx).wf(score),
        id < score.sections@.len(),
    ensures
        final(ctx).wf(score),
        agrees(
            r,
            walk_section(*score, id, old(ctx).stack@.0, old(ctx).paths(), path_fuel(old(ctx).paths())),
            final(ctx).stack@.0,
            bview(old(out)@),
            bview(final(out)@),
        ),
        r is Ok ==> final(ctx).paths() == old(ctx).paths(),
    decreases path_fuel(old(ctx).paths()), 0nat, 0nat,
{
    let ghost p0 = ctx.paths();
    let ghost f0 = ctx.stack@.0;
    let ghost o0 = bview(out@);
    if ctx.sections[id] {
        return Err(TranslateError::CyclicStructure);
    }
    proof {
        lemma_mark(p0.0, id as int);
    }
    let section = &score.sections[id];
    let reps = section_mods(&section.mods, out);
    let ghost o1 = bview(out@);
    ctx.sections.set(id, true);
    assert(ctx.paths() == (p0.0.update(id as int, true), p0.1, p0.2));
    assert(path_fuel(ctx.paths()) + 1 == path_fuel(p0));
    assert(crate::model::section_items_wf(score.sections@[id as int].items@, score.sections@.len() as nat, score.staves@.len() as nat));
    let r = if reps == 1 {
        let r = walk_section_items_exec(score, &section.items, ctx, out);
        if r.is_ok() {
            let ghost w = walk_section_items(*score, section.items@, f0, ctx.paths(), path_fuel(ctx.paths()));
            assert(bview(out@) =~= o0 + (tempo_blocks(section.mods@) + w->Ok_0.1));
        }
        r
    } else {
        proof {
            lemma_set_none(f0);
        }
        ctx.stack.set(ModSet::none(), out);
        let point = ctx.stack.unwind_point();
        emit(out, Block::RepeatOpen(reps));
        let r = walk_section_items_exec(score, &section.items, ctx, out);
        if r.is_ok() {
            let ghost fb = ctx.stack@.0;
            ctx.stack.unwind_to(point, out);
            assert(ctx.stack@.0 =~= Seq::<ModSet>::empty());
            emit(out, Block::Close);
            let ghost w = walk_section_items(*score, section.items@, Seq::empty(), ctx.paths(), path_fuel(ctx.paths()));
            assert(bview(out@) =~= o1 + (set_blocks(f0, ModSet::none_spec()) + seq![BlockV::RepeatOpen(reps as nat)] + w->Ok_0.1 + closes(fb.len()) + seq![BlockV::Close]));
            assert(bview(out@) =~= o0 + (tempo_blocks(section.mods@) + (set_blocks(f0, ModSet::none_spec()) + seq![BlockV::RepeatOpen(reps as nat)] + w->Ok_0.1 + closes(fb.len()) + seq![BlockV::Close])));
        }
        r
    };
    if r.is_ok() {
        ctx.sections.set(id, false);
        proof {
            lemma_unmark(p0.0, id as int);
        }
    }
    r
}

/// A section whose first element is the section itself fails with a cycle
/// error, from any walk state that does not already have it on the path.
pub proof fn lemma_self_containing_section(
    score: Score,
    id: usize,
    frames: Seq<ModSet>,
    path: Paths,
    fuel: nat,
)
    requires
        id < score.sections@.len(),
        path.0.len() == score.sections@.len(),
        !path.0[id as int],
        fuel > 0,
        score.sections@[id as int].items@.len() > 0,
        score.sections@[id as int].items@[0] == SectionItem::Section(id),
    ensures
        walk_section(score, id, frames, path, fuel) == Err::<(Seq<ModSet>, Seq<BlockV>), TranslateError>(
            TranslateError::CyclicStructure,
        ),
{
    let sec = score.sections@[id as int];
    let inner = (path.0.update(id as int, true), path.1, path.2);
    let items = sec.items@;
    let f = if repeat_total(sec.mods@) == 1 {
        frames
    } else {
        Seq::<ModSet>::empty()
    };
    let one = items.subrange(0, 1);
    assert(one.drop_last() =~= Seq::<SectionItem>::empty());
    assert(one.last() == SectionItem::Section(id));
    assert(inner.0[id as int]);
    assert(walk_section(score, id, f, inner, (fuel - 1) as nat) is Err);
    assert(walk_section_item(score, one.last(), f, inner, (fuel - 1) as nat) is Err);
    assert(walk_section_items(score, one.drop_last(), f, inner, (fuel - 1) as nat) is Ok);
    assert(walk_section_items(score, one, f, inner, (fuel - 1) as nat) is Err);
    lemma_section_items_err(score, items, 1, f, inner, (fuel - 1) as nat);
    assert(walk_section_items(score, items, f, inner, (fuel - 1) as nat) == Err::<(Seq<ModSet>, Seq<BlockV>), TranslateError>(TranslateError::CyclicStructure));
}

pub(crate) proof fn lemma_count_false_fresh(n: nat)
    ensures
        count_false(Seq::new(n, |i: int| false)) == n,
    decreases n,
{
    if n > 0 {
        assert(Seq::new(n, |i: int| false).drop_last() =~= Seq::new((n - 1) as nat, |i: int| false));
        lemma_count_false_fresh((n - 1) as nat);
    }
}

} // verus!
