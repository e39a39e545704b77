use vstd::prelude::*;
use crate::blocks::{Block, BlockV, bview, emit};

verus! {

/// A set of note modifier tags, the four that the target can scope.
#[derive(Clone, Copy, Debug, PartialEq, Eq, Structural)]
pub struct ModSet {
    pub accent: bool,
    pub staccato: bool,
    pub turn_upper: bool,
    pub turn_lower: bool,
}

impl ModSet {
    pub open spec fn none_spec() -> ModSet {
        ModSet { accent: false, staccato: false, turn_upper: false, turn_lower: false }
    }

    pub open spec fn is_empty_spec(self) -> bool {
        !self.accent && !self.staccato && !self.turn_upper && !self.turn_lower
    }

    pub open spec fn subset_spec(self, o: ModSet) -> bool {
        (self.accent ==> o.accent) && (self.staccato ==> o.staccato) && (self.turn_upper
            ==> o.turn_upper) && (self.turn_lower ==> o.turn_lower)
    }

    pub open spec fn union_spec(self, o: ModSet) -> ModSet {
        ModSet {
            accent: self.accent || o.accent,
            staccato: self.staccato || o.staccato,
            turn_upper: self.turn_upper || o.turn_upper,
            turn_lower: self.turn_lower || o.turn_lower,
        }
    }

    pub open spec fn minus_spec(self, o: ModSet) -> ModSet {
        ModSet {
            accent: self.accent && !o.accent,
            staccato: self.staccato && !o.staccato,
            turn_upper: self.turn_upper && !o.turn_upper,
            turn_lower: self.turn_lower && !o.turn_lower,
        }
    }

    pub open spec fn disjoint_spec(self, o: ModSet) -> bool {
        self.minus_spec(o) == self
    }

    pub fn none() -> (r: ModSet)
        ensures
            r == ModSet::none_spec(),
    {
        ModSet { accent: false, staccato: false, turn_upper: false, turn_lower: false }
    }

    pub fn is_empty(&self) -> (r: bool)
        ensures
            r == self.is_empty_spec(),
    {
        !self.accent && !self.staccato && !self.turn_upper && !self.turn_lower
    }

    pub fn subset_of(&self, o: &ModSet) -> (r: bool)
        ensures
            r == self.subset_spec(*o),
    {
        (!self.accent || o.accent) && (!self.staccato || o.staccato) && (!self.turn_upper
            || o.turn_upper) && (!self.turn_lower || o.turn_lower)
    }

    pub fn union(&self, o: &ModSet) -> (r: ModSet)
        ensures
            r == self.union_spec(*o),
    {
        ModSet {
            accent: self.accent || o.accent,
            staccato: self.staccato || o.staccato,
            turn_upper: self.turn_upper || o.turn_upper,
            turn_lower: self.turn_lower || o.turn_lower,
        }
    }

    pub fn minus(&self, o: &ModSet) -> (r: ModSet)
        ensures
            r == self.minus_spec(*o),
    {
        ModSet {
            accent: self.accent && !o.accent,
            staccato: self.staccato && !o.staccato,
            turn_upper: self.turn_upper && !o.turn_upper,
            turn_lower: self.turn_lower && !o.turn_lower,
        }
    }
}

/// The union of all frames.
pub open spec fn union_all(frames: Seq<ModSet>) -> ModSet
    decreases frames.len(),
{
    if frames.len() == 0 {
        ModSet::none_spec()
    } else {
        union_all(frames.drop_last()).union_spec(frames.last())
    }
}

/// Every frame is non-empty and no two frames share a tag.
pub open spec fn frames_wf(frames: Seq<ModSet>) -> bool {
    &&& forall|i: int| 0 <= i < frames.len() ==> !(#[trigger] frames[i]).is_empty_spec()
    &&& forall|i: int, j: int|
        0 <= i < j < frames.len() ==> (#[trigger] frames[i]).disjoint_spec(#[trigger] frames[j])
}

/// How many frames `set(target)` closes: frames come off the top until
/// what is left is a subset of the target.
pub open spec fn pops(frames: Seq<ModSet>, target: ModSet) -> nat
    decreases frames.len(),
{
    if frames.len() == 0 || union_all(frames).subset_spec(target) {
        0
    } else {
        1 + pops(frames.drop_last(), target)
    }
}

/// The frames that `set(target)` leaves in place.
pub open spec fn kept(frames: Seq<ModSet>, target: ModSet) -> Seq<ModSet> {
    frames.take(frames.len() - pops(frames, target))
}

/// The tags that `set(target)` opens one new scope for.
pub open spec fn opened(frames: Seq<ModSet>, target: ModSet) -> ModSet {
    target.minus_spec(union_all(kept(frames, target)))
}

/// The frames after `set(target)`.
pub open spec fn after_set(frames: Seq<ModSet>, target: ModSet) -> Seq<ModSet> {
    if opened(frames, target).is_empty_spec() {
        kept(frames, target)
    } else {
        kept(frames, target).push(opened(frames, target))
    }
}

pub open spec fn closes(n: nat) -> Seq<BlockV> {
    Seq::new(n, |i: int| BlockV::Close)
}

/// The blocks that `set(target)` emits: one close per frame taken off,
/// then at most one new modifier scope.
pub open spec fn set_blocks(frames: Seq<ModSet>, target: ModSet) -> Seq<BlockV> {
    closes(pops(frames, target)) + if opened(frames, target).is_empty_spec() {
        Seq::<BlockV>::empty()
    } else {
        seq![BlockV::ModOpen(opened(frames, target))]
    }
}

/// The frames and the blocks after feeding a sequence of targets to `set`.
pub open spec fn feed(frames: Seq<ModSet>, targets: Seq<ModSet>) -> (Seq<ModSet>, Seq<BlockV>)
    decreases targets.len(),
{
    if targets.len() == 0 {
        (frames, Seq::empty())
    } else {
        let (f, b) = feed(frames, targets.drop_last());
        (after_set(f, targets.last()), b + set_blocks(f, targets.last()))
    }
}

/// Number of modifier scopes that a block sequence opens.
pub open spec fn count_mod_opens(b: Seq<BlockV>) -> nat
    decreases b.len(),
{
    if b.len() == 0 {
        0
    } else {
        count_mod_opens(b.drop_last()) + if b.last() is ModOpen {
            1nat
        } else {
            0nat
        }
    }
}

/// Number of scope closes in a block sequence.
pub open spec fn count_closes(b: Seq<BlockV>) -> nat
    decreases b.len(),
{
    if b.len() == 0 {
        0
    } else {
        count_closes(b.drop_last()) + if b.last() is Close {
            1nat
        } else {
            0nat
        }
    }
}

/// The stack of open modifier scopes, each frame the tags that one scope
/// block added, with the union of all frames kept as the active set.
pub struct Modifiers {
    frames: Vec<ModSet>,
    active: ModSet,
}

impl View for Modifiers {
    type V = (Seq<ModSet>, ModSet);

    closed spec fn view(&self) -> (Seq<ModSet>, ModSet) {
        (self.frames@, self.active)
    }
}

/// The frames are well formed and the active set is their union.
pub open spec fn stack_wf(v: (Seq<ModSet>, ModSet)) -> bool {
    frames_wf(v.0) && v.1 == union_all(v.0)
}

proof fn lemma_frame_in_union(frames: Seq<ModSet>, i: int)
    requires
        0 <= i < frames.len(),
    ensures
        frames[i].subset_spec(union_all(frames)),
    decreases frames.len(),
{
    if i < frames.len() - 1 {
        lemma_frame_in_union(frames.drop_last(), i);
    }
}

proof fn lemma_disjoint_from_union(frames: Seq<ModSet>, x: ModSet)
    requires
        forall|i: int| 0 <= i < frames.len() ==> x.disjoint_spec(#[trigger] frames[i]),
    ensures
        x.disjoint_spec(union_all(frames)),
    decreases frames.len(),
{
    if frames.len() > 0 {
        let p = frames.drop_last();
        assert forall|i: int| 0 <= i < p.len() implies x.disjoint_spec(#[trigger] p[i]) by {
            assert(p[i] == frames[i]);
        }
        lemma_disjoint_from_union(p, x);
        assert(x.disjoint_spec(frames[frames.len() - 1]));
    }
}

pub(crate) proof fn lemma_union_nonempty(frames: Seq<ModSet>)
    requires
        frames_wf(frames),
        frames.len() > 0,
    ensures
        !union_all(frames).is_empty_spec(),
{
    lemma_frame_in_union(frames, frames.len() - 1);
    assert(!frames[frames.len() - 1].is_empty_spec());
}

proof fn lemma_pop_frame(frames: Seq<ModSet>)
    requires
        frames_wf(frames),
        frames.len() > 0,
    ensures
        frames_wf(frames.drop_last()),
        union_all(frames).minus_spec(frames.last()) == union_all(frames.drop_last()),
{
    let p = frames.drop_last();
    let top = frames.last();
    assert forall|i: int| 0 <= i < p.len() implies top.disjoint_spec(#[trigger] p[i]) by {
        assert(frames[i].disjoint_spec(frames[frames.len() - 1]));
        assert(p[i] == frames[i]);
    }
    lemma_disjoint_from_union(p, top);
    assert forall|i: int, j: int| 0 <= i < j < p.len() implies (#[trigger] p[i]).disjoint_spec(
        #[trigger] p[j],
    ) by {
        assert(frames[i].disjoint_spec(frames[j]));
    }
    assert forall|i: int| 0 <= i < p.len() implies !(#[trigger] p[i]).is_empty_spec() by {
        assert(!frames[i].is_empty_spec());
    }
}

proof fn lemma_push_frame(frames: Seq<ModSet>, x: ModSet)
    requires
        frames_wf(frames),
        !x.is_empty_spec(),
        x.disjoint_spec(union_all(frames)),
    ensures
        frames_wf(frames.push(x)),
        union_all(frames.push(x)) == union_all(frames).union_spec(x),
{
    let f = frames.push(x);
    assert(f.drop_last() =~= frames);
    assert forall|i: int, j: int| 0 <= i < j < f.len() implies (#[trigger] f[i]).disjoint_spec(
        #[trigger] f[j],
    ) by {
        if j == f.len() - 1 {
            lemma_frame_in_union(frames, i);
        } else {
            assert(frames[i].disjoint_spec(frames[j]));
        }
    }
    assert forall|i: int| 0 <= i < f.len() implies !(#[trigger] f[i]).is_empty_spec() by {
        if i < frames.len() {
            assert(!frames[i].is_empty_spec());
        }
    }
}

proof fn lemma_take_all(frames: Seq<ModSet>)
    ensures
        frames.take(frames.len() as int) == frames,
{
    assert(frames.take(frames.len() as int) =~= frames);
}

/// `set` keeps the frames well formed, and the scopes it opens minus the
/// ones it closes is the change in depth.
pub proof fn lemma_set_wf(frames: Seq<ModSet>, target: ModSet)
    requires
        frames_wf(frames),
    ensures
        frames_wf(after_set(frames, target)),
        kept(frames, target).len() + pops(frames, target) == frames.len(),
        count_mod_opens(set_blocks(frames, target)) + frames.len() == count_closes(
            set_blocks(frames, target),
        ) + after_set(frames, target).len(),
        union_all(kept(frames, target)).subset_spec(target),
        union_all(after_set(frames, target)) == (if opened(frames, target).is_empty_spec() {
            union_all(kept(frames, target))
        } else {
            target
        }),
    decreases frames.len(),
{
    lemma_kept_wf(frames, target);
    let k = kept(frames, target);
    let x = opened(frames, target);
    lemma_counts_closes(pops(frames, target));
    if !x.is_empty_spec() {
        lemma_push_frame(k, x);
        let tail = seq![BlockV::ModOpen(x)];
        lemma_count_append(closes(pops(frames, target)), tail);
        assert(tail.drop_last() =~= Seq::<BlockV>::empty());
        assert(count_mod_opens(Seq::<BlockV>::empty()) == 0);
        assert(count_closes(Seq::<BlockV>::empty()) == 0);
        assert(tail.last() is ModOpen);
        assert(count_mod_opens(tail) == 1);
        assert(count_closes(tail) == 0);
        assert(set_blocks(frames, target) == closes(pops(frames, target)) + tail);
    } else {
        assert(closes(pops(frames, target)) + Seq::<BlockV>::empty() =~= closes(
            pops(frames, target),
        ));
    }
}

pub(crate) proof fn lemma_kept_wf(frames: Seq<ModSet>, target: ModSet)
    requires
        frames_wf(frames),
    ensures
        frames_wf(kept(frames, target)),
        pops(frames, target) <= frames.len(),
        union_all(kept(frames, target)).subset_spec(target),
    decreases frames.len(),
{
    if frames.len() == 0 || union_all(frames).subset_spec(target) {
        lemma_take_all(frames);
    } else {
        lemma_pop_frame(frames);
        lemma_kept_wf(frames.drop_last(), target);
        assert(kept(frames, target) =~= kept(frames.drop_last(), target));
    }
}

proof fn lemma_counts_closes(n: nat)
    ensures
        count_closes(closes(n)) == n,
        count_mod_opens(closes(n)) == 0,
    decreases n,
{
    if n > 0 {
        assert(closes(n).drop_last() =~= closes((n - 1) as nat));
        lemma_counts_closes((n - 1) as nat);
    }
}

pub(crate) proof fn lemma_count_append(a: Seq<BlockV>, b: Seq<BlockV>)
    ensures
        count_closes(a + b) == count_closes(a) + count_closes(b),
        count_mod_opens(a + b) == count_mod_opens(a) + count_mod_opens(b),
    decreases b.len(),
{
    if b.len() == 0 {
        assert(a + b =~= a);
    } else {
        assert((a + b).drop_last() =~= a + b.drop_last());
        lemma_count_append(a, b.drop_last());
    }
}

/// Feeding any sequence of targets keeps every intermediate stack well
/// formed; the blocks emitted open as many scopes as they close plus the
/// final depth.
pub proof fn lemma_feed_wf(frames: Seq<ModSet>, targets: Seq<ModSet>)
    requires
        frames_wf(frames),
    ensures
        frames_wf(feed(frames, targets).0),
        count_mod_opens(feed(frames, targets).1) + frames.len() == count_closes(
            feed(frames, targets).1,
        ) + feed(frames, targets).0.len(),
    decreases targets.len(),
{
    if targets.len() > 0 {
        lemma_feed_wf(frames, targets.drop_last());
        let (f, b) = feed(frames, targets.drop_last());
        lemma_set_wf(f, targets.last());
        lemma_count_append(b, set_blocks(f, targets.last()));
    }
}

/// Starting from no open scope, feeding any sequence of modifier sets and
/// then the empty set closes every scope: the modifier scopes opened equal
/// the scopes closed, and every intermediate stack is well formed.
pub proof fn lemma_scopes_balance(targets: Seq<ModSet>)
    ensures
        forall|k: int| 0 <= k <= targets.len() ==> frames_wf(#[trigger] feed(Seq::empty(), targets.take(k)).0),
        feed(Seq::empty(), targets.push(ModSet::none_spec())).0.len() == 0,
        count_mod_opens(feed(Seq::empty(), targets.push(ModSet::none_spec())).1) == count_closes(
            feed(Seq::empty(), targets.push(ModSet::none_spec())).1,
        ),
{
    let all = targets.push(ModSet::none_spec());
    assert forall|k: int| 0 <= k <= targets.len() implies frames_wf(#[trigger] feed(Seq::empty(), targets.take(k)).0) by {
        lemma_feed_wf(Seq::empty(), targets.take(k));
    }
    assert(all.drop_last() =~= targets);
    lemma_feed_wf(Seq::empty(), all);
    let f = feed(Seq::empty(), targets).0;
    lemma_feed_wf(Seq::empty(), targets);
    lemma_set_wf(f, ModSet::none_spec());
    if f.len() > 0 {
        lemma_kept_wf(f, ModSet::none_spec());
        let k = kept(f, ModSet::none_spec());
        if k.len() > 0 {
            lemma_union_nonempty(k);
        }
    }
}

impl Modifiers {
    pub open spec fn wf(&self) -> bool {
        stack_wf(self@)
    }

    pub fn new() -> (s: Modifiers)
        ensures
            s.wf(),
            s@.0 == Seq::<ModSet>::empty(),
    {
        Modifiers { frames: Vec::new(), active: ModSet::none() }
    }

    /// Number of open modifier scopes.
    pub fn depth(&self) -> (d: usize)
        ensures
            d == self@.0.len(),
    {
        self.frames.len()
    }

    /// Closes the scopes on top that hold a tag outside `target`, then opens
    /// one scope for the tags of `target` that are not active yet.
    pub fn set(&mut self, target: ModSet, out: &mut Vec<Block>)
        requires
            old(self).wf(),
        ensures
            final(self).wf(),
            final(self)@.0 == after_set(old(self)@.0, target),
            final(self)@.1 == target,
            bview(final(out)@) == bview(old(out)@) + set_blocks(old(self)@.0, target),
    {
        let ghost f0 = self.frames@;
        let ghost o0 = bview(out@);
        proof {
            lemma_kept_wf(f0, target);
        }
        while !self.active.subset_of(&target)
            invariant
                stack_wf(self@),
                self.frames@ == f0.take(self.frames@.len() as int),
                self.frames@.len() <= f0.len(),
                pops(f0, target) == pops(self.frames@, target) + (f0.len() - self.frames@.len()),
                bview(out@) == o0 + closes((f0.len() - self.frames@.len()) as nat),
            decreases self.frames@.len(),
        {
            proof {
                if self.frames@.len() == 0 {
                    assert(union_all(self.frames@) == ModSet::none_spec());
                }
            }
            let ghost before = self.frames@;
            let top = self.frames.pop().unwrap();
            proof {
                lemma_pop_frame(before);
            }
            self.active = self.active.minus(&top);
            emit(out, Block::Close);
            assert(self.frames@ =~= f0.take(self.frames@.len() as int));
            assert(bview(out@) =~= o0 + closes((f0.len() - self.frames@.len()) as nat));
        }
        assert(self.frames@ =~= kept(f0, target));
        let new = target.minus(&self.active);
        if !new.is_empty() {
            proof {
                lemma_push_frame(self.frames@, new);
            }
            emit(out, Block::ModOpen(new));
            self.active = self.active.union(&new);
            self.frames.push(new);
        }
        assert(bview(out@) =~= o0 + set_blocks(f0, target));
    }

    /// Records the current depth, for a later `unwind_to`.
    pub fn unwind_point(&self) -> (d: usize)
        ensures
            d == self@.0.len(),
    {
        self.frames.len()
    }

    /// Closes every scope above `depth`, whatever tags it holds.
    pub fn unwind_to(&mut self, depth: usize, out: &mut Vec<Block>)
        requires
            old(self).wf(),
        ensures
            final(self).wf(),
            old(self)@.0.len() >= depth ==> final(self)@.0.len() == depth,
            old(self)@.0.len() < depth ==> final(self)@.0 == old(self)@.0,
            final(self)@.0 == old(self)@.0.take(final(self)@.0.len() as int),
            bview(final(out)@) == bview(old(out)@) + closes((old(self)@.0.len() - final(self)@.0.len()) as nat),
    {
        let ghost f0 = self.frames@;
        let ghost o0 = bview(out@);
        while self.frames.len() > depth
            invariant
                stack_wf(self@),
                self.frames@ == f0.take(self.frames@.len() as int),
                self.frames@.len() <= f0.len(),
                f0.len() >= depth ==> self.frames@.len() >= depth,
                f0.len() < depth ==> self.frames@.len() == f0.len(),
                bview(out@) == o0 + closes((f0.len() - self.frames@.len()) as nat),
            decreases self.frames@.len(),
        {
            let ghost before = self.frames@;
            let top = self.frames.pop().unwrap();
            proof {
                lemma_pop_frame(before);
            }
            self.active = self.active.minus(&top);
            emit(out, Block::Close);
            assert(self.frames@ =~= f0.take(self.frames@.len() as int));
            assert(bview(out@) =~= o0 + closes((f0.len() - self.frames@.len()) as nat));
        }
        proof {
            if f0.len() < depth {
                lemma_take_all(f0);
            }
        }
    }
}

/// The frames that `unwind_to(d)` keeps when at least `d` scopes are open
/// (whatever was pushed since `unwind_point` returned `d`): exactly `d` of
/// them, the bottom ones, still well formed.
pub proof fn lemma_unwind_restores(frames: Seq<ModSet>, d: nat)
    requires
        frames_wf(frames),
        frames.len() >= d,
    ensures
        frames.take(d as int).len() == d,
        frames_wf(frames.take(d as int)),
{
    let t = frames.take(d as int);
    assert forall|i: int, j: int| 0 <= i < j < t.len() implies (#[trigger] t[i]).disjoint_spec(
        #[trigger] t[j],
    ) by {
        assert(frames[i].disjoint_spec(frames[j]));
    }
    assert forall|i: int| 0 <= i < t.len() implies !(#[trigger] t[i]).is_empty_spec() by {
        assert(!frames[i].is_empty_spec());
    }
}

} // verus!
