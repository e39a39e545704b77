use vstd::prelude::*;
use crate::model::{Tempo, rank};
use crate::text::{decimal, digit_char, push_char, push_decimal};

verus! {

pub open spec fn pow2(n: nat) -> nat
    decreases n,
{
    if n == 0 {
        1
    } else {
        2 * pow2((n - 1) as nat)
    }
}

/// Dots past this many on a tempo's base note are not counted: together
/// they change the tempo by less than a billionth of a beat per minute.
pub const MAX_TEMPO_DOTS: u8 = 40;

/// A tempo in beats per minute, as the exact binary fraction
/// `num / 2^shift`.
#[derive(Clone, Copy, Debug, PartialEq, Eq)]
pub struct Bpm {
    num: u128,
    shift: u8,
}

impl View for Bpm {
    type V = (nat, nat);

    closed spec fn view(&self) -> (nat, nat) {
        (self.num as nat, self.shift as nat)
    }
}

impl Bpm {
    #[verifier::type_invariant]
    spec fn shift_bounded(self) -> bool {
        self.shift <= 100
    }

    /// A whole number of beats per minute.
    pub fn whole(bpm: u16) -> (b: Bpm)
        ensures
            b@ == (bpm as nat, 0nat),
    {
        Bpm { num: bpm as u128, shift: 0 }
    }
}

/// A tempo expressed in quarter notes per minute: the beats per minute
/// times the base note's length over a quarter note's.
pub open spec fn quarter_bpm(t: Tempo) -> (nat, nat) {
    let d: nat = if t.base_note.dots > MAX_TEMPO_DOTS {
        MAX_TEMPO_DOTS as nat
    } else {
        t.base_note.dots as nat
    };
    (
        (t.beats_per_minute * (pow2(d + 1) - 1) * pow2((14 - rank(t.base_note.value)) as nat)) as nat,
        d + 9,
    )
}

proof fn lemma_pow2_mono(a: nat, b: nat)
    requires
        a <= b,
    ensures
        1 <= pow2(a) <= pow2(b),
    decreases b,
{
    if a < b {
        lemma_pow2_mono(a, (b - 1) as nat);
    } else if b > 0 {
        lemma_pow2_mono(0, (b - 1) as nat);
    }
}

proof fn lemma_pow2_small()
    ensures
        pow2(14) == 0x4000,
        pow2(41) == 0x20000000000,
{
    reveal_with_fuel(pow2, 42);
}

proof fn lemma_pow2_100()
    ensures
        pow2(100) == 0x10000000000000000000000000,
{
    lemma_pow2_add(50, 50);
    reveal_with_fuel(pow2, 51);
    assert(pow2(50) == 0x4000000000000);
}

proof fn lemma_pow2_add(a: nat, b: nat)
    ensures
        pow2(a + b) == pow2(a) * pow2(b),
    decreases b,
{
    if b > 0 {
        lemma_pow2_add(a, (b - 1) as nat);
        assert(pow2(a + b) == 2 * pow2((a + b - 1) as nat));
        assert(pow2(b) == 2 * pow2((b - 1) as nat));
        assert((a + b - 1) as nat == a + (b - 1) as nat);
        assert(2 * (pow2(a) * pow2((b - 1) as nat)) == pow2(a) * (2 * pow2((b - 1) as nat))) by (nonlinear_arith);
    } else {
        assert(pow2(0) == 1);
        assert(a + b == a);
    }
}

fn pow2_exec(n: u8) -> (r: u128)
    requires
        n <= 100,
    ensures
        r == pow2(n as nat),
{
    let mut r: u128 = 1;
    let mut i: u8 = 0;
    while i < n
        invariant
            i <= n <= 100,
            r == pow2(i as nat),
        decreases n - i,
    {
        proof {
            lemma_pow2_mono(i as nat, 100);
            lemma_pow2_100();
        }
        r = r * 2;
        i = i + 1;
    }
    r
}

/// Normalizes a tempo to quarter notes per minute.
pub fn quarter_tempo(t: &Tempo) -> (b: Bpm)
    ensures
        b@ == quarter_bpm(*t),
{
    let d: u8 = if t.base_note.dots > MAX_TEMPO_DOTS {
        MAX_TEMPO_DOTS
    } else {
        t.base_note.dots
    };
    let r = t.base_note.value.rank();
    let p = pow2_exec(d + 1);
    let q = pow2_exec(14 - r);
    proof {
        lemma_pow2_mono((d + 1) as nat, 41);
        lemma_pow2_mono((14 - r) as nat, 14);
        lemma_pow2_small();
        let bpm = t.beats_per_minute as nat;
        assert(bpm * (p - 1) <= 0x10000 * 0x20000000000) by (nonlinear_arith)
            requires
                bpm < 0x10000,
                p - 1 < 0x20000000000,
        ;
        assert(bpm * (p - 1) * q <= 0x10000 * 0x20000000000 * 0x4000) by (nonlinear_arith)
            requires
                bpm * (p - 1) <= 0x10000 * 0x20000000000,
                q <= 0x4000,
        ;
    }
    Bpm { num: t.beats_per_minute as u128 * (p - 1) * q, shift: d + 9 }
}

/// The decimal digits after the point of `f / 2^shift` (with `f` below
/// `2^shift`), by long division, at most `fuel` of them, none after the
/// remainder runs out.
pub open spec fn frac_digits(f: nat, shift: nat, fuel: nat) -> Seq<char>
    decreases fuel,
{
    if fuel == 0 || f == 0 {
        Seq::empty()
    } else {
        seq![digit_char((f * 10) / pow2(shift))] + frac_digits(
            (f * 10) % pow2(shift),
            shift,
            (fuel - 1) as nat,
        )
    }
}

/// The decimal text of a tempo: the whole part, then a point and the
/// fractional digits if there are any.
pub open spec fn bpm_text(b: (nat, nat)) -> Seq<char> {
    let p = pow2(b.1);
    let n = b.0;
    decimal(n / p) + if n % p == 0 {
        Seq::<char>::empty()
    } else {
        "."@ + frac_digits(n % p, b.1, b.1)
    }
}

pub fn push_bpm(out: &mut String, b: &Bpm)
    ensures
        final(out)@ == old(out)@ + bpm_text(b@),
{
    proof {
        use_type_invariant(b);
    }
    let ghost start = out@;
    let p = pow2_exec(b.shift);
    proof {
        lemma_pow2_mono(0, b.shift as nat);
        lemma_pow2_mono(b.shift as nat, 100);
        lemma_pow2_100();
    }
    push_decimal(out, b.num / p);
    let mut f = b.num % p;
    if f != 0 {
        out.append(".");
        let ghost mid = out@;
        let ghost all = frac_digits(f as nat, b.shift as nat, b.shift as nat);
        let mut fuel: u8 = b.shift;
        while f != 0 && fuel > 0
            invariant
                f < p,
                p == pow2(b.shift as nat),
                p <= 0x10000000000000000000000000,
                fuel <= b.shift,
                mid + all == out@ + frac_digits(f as nat, b.shift as nat, fuel as nat),
            decreases fuel,
        {
            assert(f * 10 < 0x10000000000000000000000000 * 10) by (nonlinear_arith)
                requires
                    f < p,
                    p <= 0x10000000000000000000000000,
            ;
            let f10 = f * 10;
            let dg = f10 / p;
            assert(dg < 10) by (nonlinear_arith)
                requires
                    f < p,
                    f10 == f * 10,
                    dg == f10 / p,
                    p > 0,
            ;
            let c: char = crate::text::digit(dg);
            push_char(out, c);
            f = f10 % p;
            fuel = fuel - 1;
            assert(mid + all =~= out@ + frac_digits(f as nat, b.shift as nat, fuel as nat));
        }
        assert(frac_digits(f as nat, b.shift as nat, fuel as nat) =~= Seq::<char>::empty());
        assert(out@ =~= mid + all);
    }
    assert(out@ =~= start + bpm_text(b@));
}

} // verus!
