use vstd::prelude::*;
use crate::blocks::BlockV;
use crate::chord::{mark_volumes, note_volumes, play_block, unit_result};
use crate::document::section_body;
use crate::model::{Item, Mark, Note, Score, SectionItem, SectionMod};
use crate::modifiers::{ModSet, after_set, closes, frames_wf, kept, lemma_kept_wf, lemma_set_wf, set_blocks, opened};
use crate::walker::{
    Paths,
    Walked,
    lemma_set_none,
    tempo_blocks,
    walk_item,
    walk_items,
    walk_phrase,
    walk_section,
    walk_section_item,
    walk_section_items,
    walk_staff,
};

verus! {

/// How a block changes the number of open scopes.
pub open spec fn step(b: BlockV) -> int {
    match b {
        BlockV::ModOpen(_) | BlockV::TupletOpen(_) | BlockV::RepeatOpen(_) => 1,
        BlockV::Close => -1,
        _ => 0,
    }
}

/// Open scopes minus closed ones over a block sequence.
pub open spec fn level(b: Seq<BlockV>) -> int
    decreases b.len(),
{
    if b.len() == 0 {
        0
    } else {
        level(b.drop_last()) + step(b.last())
    }
}

/// Starting with `d` scopes open, `b` never closes a scope that is not
/// open, and ends with `e` open.
pub open spec fn nests(d: int, b: Seq<BlockV>, e: int) -> bool {
    &&& forall|k: int| 0 <= k <= b.len() ==> d + #[trigger] level(b.take(k)) >= 0
    &&& d + level(b) == e
}

/// Every prefix closes no more scopes than it opens, and the whole opens
/// as many as it closes.
pub open spec fn balanced(b: Seq<BlockV>) -> bool {
    nests(0, b, 0)
}

proof fn lemma_level_append(a: Seq<BlockV>, b: Seq<BlockV>)
    ensures
        level(a + b) == level(a) + level(b),
    decreases b.len(),
{
    if b.len() == 0 {
        assert(a + b =~= a);
    } else {
        assert((a + b).drop_last() =~= a + b.drop_last());
        lemma_level_append(a, b.drop_last());
    }
}

proof fn lemma_nests_append(d: int, a: Seq<BlockV>, m: int, b: Seq<BlockV>, e: int)
    requires
        nests(d, a, m),
        nests(m, b, e),
    ensures
        nests(d, a + b, e),
{
    lemma_level_append(a, b);
    assert forall|k: int| 0 <= k <= (a + b).len() implies d + #[trigger] level((a + b).take(k)) >= 0 by {
        if k <= a.len() {
            assert((a + b).take(k) =~= a.take(k));
        } else {
            assert((a + b).take(k) =~= a + b.take(k - a.len()));
            lemma_level_append(a, b.take(k - a.len()));
            assert(a.take(a.len() as int) =~= a);
            assert(m + level(b.take(k - a.len())) >= 0);
        }
    }
}

proof fn lemma_nests_shift(d: int, b: Seq<BlockV>, e: int, s: int)
    requires
        nests(d, b, e),
        s >= 0,
    ensures
        nests(d + s, b, e + s),
{
    assert forall|k: int| 0 <= k <= b.len() implies d + s + #[trigger] level(b.take(k)) >= 0 by {
        assert(d + level(b.take(k)) >= 0);
    }
}

proof fn lemma_nests_one(d: int, x: BlockV)
    requires
        d + step(x) >= 0,
        d >= 0,
    ensures
        nests(d, seq![x], d + step(x)),
{
    assert(seq![x].drop_last() =~= Seq::<BlockV>::empty());
    assert(level(Seq::<BlockV>::empty()) == 0);
    assert(level(seq![x]) == step(x));
    assert forall|k: int| 0 <= k <= 1 implies d + #[trigger] level(seq![x].take(k)) >= 0 by {
        if k == 0 {
            assert(seq![x].take(0) =~= Seq::<BlockV>::empty());
        } else {
            assert(seq![x].take(1) =~= seq![x]);
        }
    }
}

/// A sequence of blocks none of which opens or closes a scope.
pub open spec fn flat(b: Seq<BlockV>) -> bool {
    forall|i: int| 0 <= i < b.len() ==> step(#[trigger] b[i]) == 0
}

proof fn lemma_flat_nests(d: int, b: Seq<BlockV>)
    requires
        flat(b),
        d >= 0,
    ensures
        nests(d, b, d),
    decreases b.len(),
{
    if b.len() > 0 {
        let p = b.drop_last();
        assert(flat(p)) by {
            assert forall|i: int| 0 <= i < p.len() implies step(#[trigger] p[i]) == 0 by {
                assert(p[i] == b[i]);
            }
        }
        lemma_flat_nests(d, p);
        assert(step(b[b.len() - 1]) == 0);
        lemma_nests_one(d, b.last());
        lemma_nests_append(d, p, d, seq![b.last()], d);
        assert(p + seq![b.last()] =~= b);
    } else {
        assert forall|k: int| 0 <= k <= b.len() implies d + #[trigger] level(b.take(k)) >= 0 by {
            assert(b.take(k) =~= Seq::<BlockV>::empty());
        }
    }
}

proof fn lemma_closes_nests(n: nat)
    ensures
        nests(n as int, closes(n), 0),
    decreases n,
{
    if n > 0 {
        lemma_closes_nests((n - 1) as nat);
        lemma_nests_shift(n - 1, closes((n - 1) as nat), 0, 1);
        lemma_nests_one(1, BlockV::Close);
        lemma_nests_append(n as int, closes((n - 1) as nat), 1, seq![BlockV::Close], 0);
        assert(closes((n - 1) as nat) + seq![BlockV::Close] =~= closes(n));
    } else {
        lemma_flat_nests(0, closes(0));
    }
}

proof fn lemma_set_nests(f: Seq<ModSet>, t: ModSet)
    requires
        frames_wf(f),
    ensures
        frames_wf(after_set(f, t)),
        nests(f.len() as int, set_blocks(f, t), after_set(f, t).len() as int),
{
    lemma_set_wf(f, t);
    lemma_kept_wf(f, t);
    let p = crate::modifiers::pops(f, t);
    let k = kept(f, t).len() as int;
    lemma_closes_nests(p);
    lemma_nests_shift(p as int, closes(p), 0, k);
    if opened(f, t).is_empty_spec() {
        assert(set_blocks(f, t) =~= closes(p));
    } else {
        lemma_nests_one(k, BlockV::ModOpen(opened(f, t)));
        lemma_nests_append(f.len() as int, closes(p), k, seq![BlockV::ModOpen(opened(f, t))], k + 1);
    }
}

proof fn lemma_mark_volumes_flat(marks: Seq<Mark>)
    ensures
        flat(mark_volumes(marks)),
    decreases marks.len(),
{
    if marks.len() > 0 {
        lemma_mark_volumes_flat(marks.drop_last());
    }
}

proof fn lemma_note_volumes_flat(notes: Seq<Note>)
    ensures
        flat(note_volumes(notes)),
    decreases notes.len(),
{
    if notes.len() > 0 {
        lemma_note_volumes_flat(notes.drop_last());
        lemma_mark_volumes_flat(notes.last().marks@);
    }
}

proof fn lemma_tempo_flat(mods: Seq<SectionMod>)
    ensures
        flat(tempo_blocks(mods)),
    decreases mods.len(),
{
    if mods.len() > 0 {
        lemma_tempo_flat(mods.drop_last());
    }
}

proof fn lemma_unit_nests(notes: Seq<Note>, marks: Seq<Mark>, f: Seq<ModSet>)
    requires
        frames_wf(f),
        unit_result(notes, marks, f) is Ok,
    ensures
        frames_wf(unit_result(notes, marks, f)->Ok_0.0),
        nests(f.len() as int, unit_result(notes, marks, f)->Ok_0.1, unit_result(notes, marks, f)->Ok_0.0.len() as int),
{
    let vol = note_volumes(notes) + mark_volumes(marks);
    lemma_note_volumes_flat(notes);
    lemma_mark_volumes_flat(marks);
    assert(flat(vol)) by {
        assert forall|i: int| 0 <= i < vol.len() implies step(#[trigger] vol[i]) == 0 by {
            if i < note_volumes(notes).len() {
                assert(vol[i] == note_volumes(notes)[i]);
            } else {
                assert(vol[i] == mark_volumes(marks)[i - note_volumes(notes).len()]);
            }
        }
    }
    let d = f.len() as int;
    lemma_flat_nests(d, vol);
    let p = crate::chord::played(notes);
    let s = crate::chord::sounding(notes);
    if p.len() == 0 {
    } else if s.len() == 0 {
        let x = BlockV::Rest(crate::duration::encoding(crate::chord::shortest(p))->Some_0);
        lemma_nests_one(d, x);
        lemma_nests_append(d, vol, d, seq![x], d);
        assert(vol + seq![x] =~= vol.push(x));
    } else {
        let req = crate::chord::notes_tags(s).union_spec(crate::chord::mark_tags(marks));
        let pb = play_block(s, crate::duration::encoding(crate::chord::shortest(p))->Some_0);
        lemma_set_nests(f, req);
        let e = after_set(f, req).len() as int;
        lemma_nests_append(d, vol, d, set_blocks(f, req), e);
        lemma_nests_one(e, pb);
        lemma_nests_append(d, vol + set_blocks(f, req), e, seq![pb], e);
    }
}

/// What the walk lemmas below state of a successful walk from frames `f`.
pub open spec fn walk_nests(f: Seq<ModSet>, w: Walked) -> bool {
    w is Ok ==> frames_wf(w->Ok_0.0) && nests(f.len() as int, w->Ok_0.1, w->Ok_0.0.len() as int)
}

proof fn lemma_scoped_nests(f: Seq<ModSet>, open: BlockV, body: Walked)
    requires
        frames_wf(f),
        step(open) == 1,
        walk_nests(Seq::empty(), body),
    ensures
        walk_nests(f, crate::walker::scoped(f, open, body)),
{
    if body is Ok {
        let (fb, b) = body->Ok_0;
        let n = fb.len();
        lemma_set_nests(f, ModSet::none_spec());
        lemma_set_none(f);
        let s = set_blocks(f, ModSet::none_spec());
        let d = f.len() as int;
        lemma_nests_one(0, open);
        lemma_nests_append(d, s, 0, seq![open], 1);
        lemma_nests_shift(0, b, n as int, 1);
        lemma_nests_append(d, s + seq![open], 1, b, n as int + 1);
        lemma_closes_nests(n);
        lemma_nests_shift(n as int, closes(n), 0, 1);
        lemma_nests_append(d, s + seq![open] + b, n as int + 1, closes(n), 1);
        lemma_nests_one(1, BlockV::Close);
        lemma_nests_append(d, s + seq![open] + b + closes(n), 1, seq![BlockV::Close], 0);
    }
}

proof fn lemma_item_nests(score: Score, item: Item, f: Seq<ModSet>, path: Paths, fuel: nat)
    requires
        frames_wf(f),
    ensures
        walk_nests(f, walk_item(score, item, f, path, fuel)),
    decreases fuel, 1nat, 0nat,
{
    match item {
        Item::Note(n) => {
            if unit_result(seq![n], Seq::empty(), f) is Ok {
                lemma_unit_nests(seq![n], Seq::empty(), f);
            }
        },
        Item::Chord(c) => {
            if unit_result(c.notes@, c.marks@, f) is Ok {
                lemma_unit_nests(c.notes@, c.marks@, f);
            }
        },
        Item::Phrase(id) => lemma_phrase_nests(score, id, f, path, fuel),
        Item::KeyChange(k) => lemma_nests_one(f.len() as int, BlockV::SetKey(k)),
        _ => lemma_flat_nests(f.len() as int, Seq::empty()),
    }
}

proof fn lemma_items_nests(score: Score, items: Seq<Item>, f: Seq<ModSet>, path: Paths, fuel: nat)
    requires
        frames_wf(f),
    ensures
        walk_nests(f, walk_items(score, items, f, path, fuel)),
    decreases fuel, 2nat, items.len(),
{
    if items.len() == 0 {
        lemma_flat_nests(f.len() as int, Seq::empty());
    } else {
        lemma_items_nests(score, items.drop_last(), f, path, fuel);
        let pre = walk_items(score, items.drop_last(), f, path, fuel);
        if pre is Ok {
            let (f1, b1) = pre->Ok_0;
            lemma_item_nests(score, items.last(), f1, path, fuel);
            let w = walk_item(score, items.last(), f1, path, fuel);
            if w is Ok {
                lemma_nests_append(f.len() as int, b1, f1.len() as int, w->Ok_0.1, w->Ok_0.0.len() as int);
            }
        }
    }
}

proof fn lemma_phrase_nests(score: Score, id: usize, f: Seq<ModSet>, path: Paths, fuel: nat)
    requires
        frames_wf(f),
    ensures
        walk_nests(f, walk_phrase(score, id, f, path, fuel)),
    decreases fuel, 0nat, 0nat,
{
    if !(id >= score.phrases@.len() || id >= path.2.len() || path.2[id as int] || fuel == 0) {
        let ph = score.phrases@[id as int];
        let inner = (path.0, path.1, path.2.update(id as int, true));
        match crate::walker::tuplet_of(ph.mods@) {
            Err(_) => {},
            Ok(None) => lemma_items_nests(score, ph.items@, f, inner, (fuel - 1) as nat),
            Ok(Some(t)) => {
                lemma_items_nests(score, ph.items@, Seq::empty(), inner, (fuel - 1) as nat);
                lemma_scoped_nests(
                    f,
                    BlockV::TupletOpen(t),
                    walk_items(score, ph.items@, Seq::empty(), inner, (fuel - 1) as nat),
                );
            },
        }
    }
}

proof fn lemma_staff_nests(score: Score, id: usize, f: Seq<ModSet>, path: Paths, fuel: nat)
    requires
        frames_wf(f),
    ensures
        walk_nests(f, walk_staff(score, id, f, path, fuel)),
    decreases fuel, 0nat, 0nat,
{
    if !(id >= score.staves@.len() || id >= path.1.len() || path.1[id as int] || fuel == 0) {
        lemma_items_nests(
            score,
            score.staves@[id as int].items@,
            f,
            (path.0, path.1.update(id as int, true), path.2),
            (fuel - 1) as nat,
        );
    }
}

proof fn lemma_section_item_nests(score: Score, item: SectionItem, f: Seq<ModSet>, path: Paths, fuel: nat)
    requires
        frames_wf(f),
    ensures
        walk_nests(f, walk_section_item(score, item, f, path, fuel)),
    decreases fuel, 1nat, 0nat,
{
    match item {
        SectionItem::Staff(id) => lemma_staff_nests(score, id, f, path, fuel),
        SectionItem::Section(id) => lemma_section_nests(score, id, f, path, fuel),
    }
}

proof fn lemma_section_items_nests(score: Score, items: Seq<SectionItem>, f: Seq<ModSet>, path: Paths, fuel: nat)
    requires
        frames_wf(f),
    ensures
        walk_nests(f, walk_section_items(score, items, f, path, fuel)),
    decreases fuel, 2nat, items.len(),
{
    if items.len() == 0 {
        lemma_flat_nests(f.len() as int, Seq::empty());
    } else {
        lemma_section_items_nests(score, items.drop_last(), f, path, fuel);
        let pre = walk_section_items(score, items.drop_last(), f, path, fuel);
        if pre is Ok {
            let (f1, b1) = pre->Ok_0;
            lemma_section_item_nests(score, items.last(), f1, path, fuel);
            let w = walk_section_item(score, items.last(), f1, path, fuel);
            if w is Ok {
                lemma_nests_append(f.len() as int, b1, f1.len() as int, w->Ok_0.1, w->Ok_0.0.len() as int);
            }
        }
    }
}

proof fn lemma_section_nests(score: Score, id: usize, f: Seq<ModSet>, path: Paths, fuel: nat)
    requires
        frames_wf(f),
    ensures
        walk_nests(f, walk_section(score, id, f, path, fuel)),
    decreases fuel, 0nat, 0nat,
{
    if !(id >= score.sections@.len() || id >= path.0.len() || path.0[id as int] || fuel == 0) {
        let sec = score.sections@[id as int];
        let inner = (path.0.update(id as int, true), path.1, path.2);
        let pre = tempo_blocks(sec.mods@);
        let d = f.len() as int;
        lemma_tempo_flat(sec.mods@);
        lemma_flat_nests(d, pre);
        let w = if crate::walker::repeat_total(sec.mods@) == 1 {
            lemma_section_items_nests(score, sec.items@, f, inner, (fuel - 1) as nat);
            walk_section_items(score, sec.items@, f, inner, (fuel - 1) as nat)
        } else {
            lemma_section_items_nests(score, sec.items@, Seq::empty(), inner, (fuel - 1) as nat);
            lemma_scoped_nests(
                f,
                BlockV::RepeatOpen(crate::walker::repeat_total(sec.mods@)),
                walk_section_items(score, sec.items@, Seq::empty(), inner, (fuel - 1) as nat),
            );
            crate::walker::scoped(
                f,
                BlockV::RepeatOpen(crate::walker::repeat_total(sec.mods@)),
                walk_section_items(score, sec.items@, Seq::empty(), inner, (fuel - 1) as nat),
            )
        };
        if w is Ok {
            lemma_nests_append(d, pre, d, w->Ok_0.1, w->Ok_0.0.len() as int);
        }
    }
}

/// The block body of every top-level section is balanced: no prefix closes
/// a scope that is not open, and all scopes (modifier, tuplet and repeat
/// scopes alike) are closed at its end.
pub proof fn lemma_section_body_balanced(score: Score, id: usize)
    requires
        section_body(score, id) is Ok,
    ensures
        balanced(section_body(score, id)->Ok_0),
{
    let p = crate::document::fresh_paths(score);
    let fuel = crate::walker::path_fuel(p);
    lemma_section_nests(score, id, Seq::empty(), p, fuel);
    let (f, b) = walk_section(score, id, Seq::empty(), p, fuel)->Ok_0;
    lemma_set_nests(f, ModSet::none_spec());
    lemma_set_none(f);
    lemma_nests_append(0, b, f.len() as int, set_blocks(f, ModSet::none_spec()), 0);
}

} // verus!
