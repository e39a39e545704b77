use vstd::prelude::*;
use crate::blocks::Tuplet;
use crate::model::{Duration, DurationType, TranslateError, rank, of_rank};

verus! {

/// One primitive duration token of the target: a value type from whole
/// note down to sixty-fourth note, with at most two dots.
#[derive(Clone, Copy, Debug, PartialEq, Eq, Structural)]
pub struct Token {
    pub value: DurationType,
    pub dots: u8,
}

impl Token {
    pub open spec fn wf(self) -> bool {
        3 <= rank(self.value) <= 9 && self.dots <= 2
    }
}

/// Number of whole-note tokens that make up a value type longer than a
/// whole note.
pub open spec fn whole_reps(t: DurationType) -> nat {
    match t {
        DurationType::Maxima => 8,
        DurationType::Long => 4,
        DurationType::Breve => 2,
        _ => 1,
    }
}

/// The tokens for one value type with `dots` dots (at most two): the type
/// itself, or a run of whole notes for the types longer than a whole note.
pub open spec fn expand(t: DurationType, dots: u8) -> Seq<Token> {
    if rank(t) < 3 {
        Seq::new(whole_reps(t), |i: int| Token { value: DurationType::Whole, dots })
    } else {
        seq![Token { value: t, dots }]
    }
}

/// Undotted tokens for the `n` value types starting at rank `r`, each half
/// the one before.
pub open spec fn plain_run(r: nat, n: nat) -> Seq<Token>
    decreases n,
{
    if n == 0 {
        Seq::empty()
    } else {
        plain_run(r, (n - 1) as nat) + expand(of_rank((r + n - 1) as nat), 0)
    }
}

/// The token chain for a duration, or `None` where it has none.
///
/// Up to two dots keep the value type (or its run of whole notes). With
/// three or more dots the length is split into undotted tokens at the value
/// type and each halving after it, ending with a doubly dotted token, as
/// long as no token is shorter than a sixty-fourth note.
pub open spec fn encoding(d: Duration) -> Option<Seq<Token>> {
    let r = rank(d.value);
    if d.dots <= 2 {
        if r <= 9 {
            Some(expand(d.value, d.dots))
        } else {
            None
        }
    } else if r + d.dots - 2 <= 9 {
        Some(plain_run(r, (d.dots - 2) as nat) + expand(of_rank((r + d.dots - 2) as nat), 2))
    } else {
        None
    }
}

/// Length of an undotted value type, in 2048ths of a whole note.
pub open spec fn base_ticks(t: DurationType) -> nat {
    match t {
        DurationType::Maxima => 16384,
        DurationType::Long => 8192,
        DurationType::Breve => 4096,
        DurationType::Whole => 2048,
        DurationType::Half => 1024,
        DurationType::Quarter => 512,
        DurationType::Eighth => 256,
        DurationType::Sixteenth => 128,
        DurationType::ThirtySecond => 64,
        DurationType::SixtyFourth => 32,
        DurationType::OneHundredTwentyEighth => 16,
        DurationType::TwoHundredFiftySixth => 8,
        DurationType::FiveHundredTwelfth => 4,
        DurationType::OneThousandTwentyFourth => 2,
        DurationType::TwoThousandFortyEighth => 1,
    }
}

/// Length of `base` with `dots` dots: each dot adds half of what the
/// previous one added.
pub open spec fn dotted_ticks(base: nat, dots: nat) -> nat
    decreases dots,
{
    if dots == 0 {
        base
    } else {
        base + dotted_ticks(base / 2, (dots - 1) as nat)
    }
}

/// Every halving that `dotted_ticks` performs is exact.
pub open spec fn halves_exactly(base: nat, dots: nat) -> bool
    decreases dots,
{
    if dots == 0 {
        true
    } else {
        base % 2 == 0 && halves_exactly(base / 2, (dots - 1) as nat)
    }
}

/// Length of a duration, in 2048ths of a whole note.
pub open spec fn duration_ticks(d: Duration) -> nat {
    dotted_ticks(base_ticks(d.value), d.dots as nat)
}

pub open spec fn token_ticks(t: Token) -> nat {
    dotted_ticks(base_ticks(t.value), t.dots as nat)
}

/// Combined length of a tied chain of tokens.
pub open spec fn chain_ticks(s: Seq<Token>) -> nat
    decreases s.len(),
{
    if s.len() == 0 {
        0
    } else {
        chain_ticks(s.drop_last()) + token_ticks(s.last())
    }
}

proof fn lemma_chain_ticks_append(a: Seq<Token>, b: Seq<Token>)
    ensures
        chain_ticks(a + b) == chain_ticks(a) + chain_ticks(b),
    decreases b.len(),
{
    if b.len() == 0 {
        assert(a + b =~= a);
    } else {
        assert((a + b).drop_last() =~= a + b.drop_last());
        lemma_chain_ticks_append(a, b.drop_last());
    }
}

proof fn lemma_chain_ticks_repeat(n: nat, t: Token)
    ensures
        chain_ticks(Seq::new(n, |i: int| t)) == n * token_ticks(t),
    decreases n,
{
    let s = Seq::new(n, |i: int| t);
    if n == 0 {
        assert(chain_ticks(s) == 0);
    } else {
        let p = Seq::new((n - 1) as nat, |i: int| t);
        assert(s.drop_last() =~= p);
        assert(s.last() == t);
        lemma_chain_ticks_repeat((n - 1) as nat, t);
        assert(chain_ticks(s) == chain_ticks(p) + token_ticks(t));
        assert(n * token_ticks(t) == (n - 1) * token_ticks(t) + token_ticks(t)) by (nonlinear_arith);
    }
}

proof fn lemma_whole_run(t: DurationType, k: nat)
    requires
        rank(t) < 3,
        k <= 2,
    ensures
        whole_reps(t) * dotted_ticks(2048, k) == dotted_ticks(base_ticks(t), k),
{
    reveal_with_fuel(dotted_ticks, 3);
    if k == 0 {
    } else if k == 1 {
        assert(dotted_ticks(2048, k) == 3072);
    } else {
        assert(dotted_ticks(2048, k) == 3584);
    }
}

proof fn lemma_expand_ticks(t: DurationType, dots: u8)
    requires
        rank(t) <= 9,
        dots <= 2,
    ensures
        chain_ticks(expand(t, dots)) == dotted_ticks(base_ticks(t), dots as nat),
        forall|i: int| 0 <= i < expand(t, dots).len() ==> (#[trigger] expand(t, dots)[i]).wf(),
{
    reveal_with_fuel(dotted_ticks, 3);
    if rank(t) < 3 {
        let w = Token { value: DurationType::Whole, dots };
        assert(expand(t, dots) =~= Seq::new(whole_reps(t), |i: int| w));
        lemma_chain_ticks_repeat(whole_reps(t), w);
        assert(token_ticks(w) == dotted_ticks(2048, dots as nat));
        lemma_whole_run(t, dots as nat);
        assert(chain_ticks(expand(t, dots)) == whole_reps(t) * token_ticks(w));
    } else {
        assert(expand(t, dots).drop_last() =~= Seq::<Token>::empty());
        assert(expand(t, dots).last() == Token { value: t, dots });
        assert(chain_ticks(Seq::<Token>::empty()) == 0);
    }
}

proof fn lemma_plain_run_front(r: nat, n: nat)
    ensures
        plain_run(r, n + 1) == expand(of_rank(r), 0) + plain_run(r + 1, n),
    decreases n,
{
    if n == 0 {
        assert(plain_run(r, 0) =~= Seq::<Token>::empty());
        assert(plain_run(r, 1) =~= expand(of_rank(r), 0));
        assert(expand(of_rank(r), 0) + plain_run(r + 1, 0) =~= expand(of_rank(r), 0));
    } else {
        lemma_plain_run_front(r, (n - 1) as nat);
        assert(plain_run(r, n + 1) =~= expand(of_rank(r), 0) + plain_run(r + 1, n));
    }
}

proof fn lemma_rank_halves(r: nat)
    requires
        r < 14,
    ensures
        base_ticks(of_rank(r + 1)) == base_ticks(of_rank(r)) / 2,
        base_ticks(of_rank(r)) % 2 == 0,
        rank(of_rank(r)) == r,
{
}

proof fn lemma_rank_round_trip(t: DurationType)
    ensures
        of_rank(rank(t)) == t,
{
}

proof fn lemma_halves_exactly(r: nat, dots: nat)
    requires
        r + dots <= 14,
    ensures
        halves_exactly(base_ticks(of_rank(r)), dots),
    decreases dots,
{
    if dots > 0 {
        lemma_rank_halves(r);
        lemma_halves_exactly(r + 1, (dots - 1) as nat);
    }
}

proof fn lemma_split_ticks(r: nat, dots: nat)
    requires
        dots >= 2,
        r + dots - 2 <= 9,
    ensures
        chain_ticks(plain_run(r, (dots - 2) as nat) + expand(of_rank((r + dots - 2) as nat), 2))
            == dotted_ticks(base_ticks(of_rank(r)), dots),
        forall|i: int|
            0 <= i < (plain_run(r, (dots - 2) as nat) + expand(of_rank((r + dots - 2) as nat), 2)).len()
                ==> (#[trigger] (plain_run(r, (dots - 2) as nat) + expand(
                of_rank((r + dots - 2) as nat),
                2,
            ))[i]).wf(),
    decreases dots,
{
    let tail = expand(of_rank((r + dots - 2) as nat), 2);
    lemma_rank_halves((r + dots - 2) as nat);
    if dots == 2 {
        assert(plain_run(r, 0) + tail =~= tail);
        lemma_expand_ticks(of_rank(r), 2);
    } else {
        lemma_split_ticks(r + 1, (dots - 1) as nat);
        lemma_plain_run_front(r, (dots - 3) as nat);
        let head = expand(of_rank(r), 0);
        let rest = plain_run(r + 1, (dots - 3) as nat) + expand(of_rank(((r + 1) + (dots - 1) - 2) as nat), 2);
        assert(plain_run(r, (dots - 2) as nat) + tail =~= head + rest);
        lemma_chain_ticks_append(head, rest);
        lemma_rank_halves(r);
        lemma_expand_ticks(of_rank(r), 0);
        assert forall|i: int| 0 <= i < (head + rest).len() implies (#[trigger] (head + rest)[i]).wf() by {
            if i < head.len() {
                assert((head + rest)[i] == head[i]);
            } else {
                assert((head + rest)[i] == rest[i - head.len()]);
            }
        }
    }
}

/// Every duration that has an encoding is a whole number of 2048ths of a
/// whole note, and its chain of tied tokens adds up to exactly that length.
/// Encoding is a function of the duration alone, so it is deterministic.
pub proof fn lemma_encoding_exact(d: Duration)
    requires
        encoding(d) is Some,
    ensures
        halves_exactly(base_ticks(d.value), d.dots as nat),
        chain_ticks(encoding(d)->Some_0) == duration_ticks(d),
        forall|i: int|
            0 <= i < encoding(d)->Some_0.len() ==> (#[trigger] encoding(d)->Some_0[i]).wf(),
{
    let r = rank(d.value);
    lemma_rank_round_trip(d.value);
    lemma_halves_exactly(r, d.dots as nat);
    if d.dots <= 2 {
        lemma_expand_ticks(d.value, d.dots);
    } else {
        lemma_split_ticks(r, d.dots as nat);
    }
}

/// A quarter note with three dots is a quarter note tied to a doubly dotted
/// eighth note.
pub proof fn lemma_triple_dotted_quarter()
    ensures
        encoding(Duration { value: DurationType::Quarter, dots: 3 }) == Some(
            seq![
                Token { value: DurationType::Quarter, dots: 0 },
                Token { value: DurationType::Eighth, dots: 2 },
            ],
        ),
        duration_ticks(Duration { value: DurationType::Quarter, dots: 3 }) == token_ticks(
            Token { value: DurationType::Quarter, dots: 0 },
        ) + token_ticks(Token { value: DurationType::Eighth, dots: 2 }),
{
    reveal_with_fuel(plain_run, 2);
    reveal_with_fuel(dotted_ticks, 4);
    assert(plain_run(5, 1) =~= seq![Token { value: DurationType::Quarter, dots: 0 }]);
    assert(encoding(Duration { value: DurationType::Quarter, dots: 3 })->Some_0 =~= seq![
        Token { value: DurationType::Quarter, dots: 0 },
        Token { value: DurationType::Eighth, dots: 2 },
    ]);
}

fn push_expand(out: &mut Vec<Token>, t: DurationType, dots: u8)
    requires
        rank(t) <= 9,
    ensures
        final(out)@ == old(out)@ + expand(t, dots),
{
    let reps: u8 = match t {
        DurationType::Maxima => 8,
        DurationType::Long => 4,
        DurationType::Breve => 2,
        _ => 1,
    };
    if reps == 1 {
        out.push(Token { value: t, dots });
    } else {
        let ghost start = out@;
        let w = Token { value: DurationType::Whole, dots };
        let mut i: u8 = 0;
        while i < reps
            invariant
                reps == whole_reps(t),
                rank(t) < 3,
                i <= reps,
                out@ == start + Seq::new(i as nat, |k: int| w),
            decreases reps - i,
        {
            out.push(w);
            i = i + 1;
            assert(out@ =~= start + Seq::new(i as nat, |k: int| w));
        }
        assert(expand(t, dots) =~= Seq::new(reps as nat, |k: int| w));
    }
}

/// Encodes a duration as its chain of tied primitive tokens.
pub fn encode(d: Duration) -> (r: Result<Vec<Token>, TranslateError>)
    ensures
        match r {
            Ok(v) => encoding(d) == Some(v@),
            Err(e) => encoding(d) is None && e == (TranslateError::UnsupportedDuration { duration: d }),
        },
{
    let r = d.value.rank();
    let mut out: Vec<Token> = Vec::new();
    if d.dots <= 2 {
        if r <= 9 {
            push_expand(&mut out, d.value, d.dots);
            assert(out@ =~= expand(d.value, d.dots));
            Ok(out)
        } else {
            Err(TranslateError::UnsupportedDuration { duration: d })
        }
    } else if r as u16 + d.dots as u16 - 2 <= 9 {
        let steps: u8 = d.dots - 2;
        let mut i: u8 = 0;
        while i < steps
            invariant
                steps == d.dots - 2,
                r as nat == rank(d.value),
                r + steps <= 9,
                i <= steps,
                out@ == plain_run(r as nat, i as nat),
            decreases steps - i,
        {
            push_expand(&mut out, DurationType::of_rank(r + i), 0);
            i = i + 1;
        }
        push_expand(&mut out, DurationType::of_rank(r + steps), 2);
        Ok(out)
    } else {
        Err(TranslateError::UnsupportedDuration { duration: d })
    }
}

/// The scope label of a tuplet ratio, for the supported ratios 3:2, 5:4,
/// 6:4 and 7:4.
pub open spec fn tuplet_label_of(num_beats: u8, into_beats: u8) -> Option<Tuplet> {
    if num_beats == 3 && into_beats == 2 {
        Some(Tuplet::Triplet)
    } else if num_beats == 5 && into_beats == 4 {
        Some(Tuplet::Quintuplet)
    } else if num_beats == 6 && into_beats == 4 {
        Some(Tuplet::Sextuplet)
    } else if num_beats == 7 && into_beats == 4 {
        Some(Tuplet::Septuplet)
    } else {
        None
    }
}

/// Maps a supported tuplet ratio to its scope label.
pub fn tuplet_label(num_beats: u8, into_beats: u8) -> (r: Result<Tuplet, TranslateError>)
    ensures
        match r {
            Ok(t) => tuplet_label_of(num_beats, into_beats) == Some(t),
            Err(e) => tuplet_label_of(num_beats, into_beats) is None && e == (
            TranslateError::UnsupportedTuplet { num_beats, into_beats }),
        },
{
    if num_beats == 3 && into_beats == 2 {
        Ok(Tuplet::Triplet)
    } else if num_beats == 5 && into_beats == 4 {
        Ok(Tuplet::Quintuplet)
    } else if num_beats == 6 && into_beats == 4 {
        Ok(Tuplet::Sextuplet)
    } else if num_beats == 7 && into_beats == 4 {
        Ok(Tuplet::Septuplet)
    } else {
        Err(TranslateError::UnsupportedTuplet { num_beats, into_beats })
    }
}

} // verus!
