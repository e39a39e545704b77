use vstd::prelude::*;

verus! {

/// What `str::to_lowercase` makes of a text.
pub uninterp spec fn lower_of(s: Seq<char>) -> Seq<char>;

/// Relies on `str::to_lowercase`: the lowercase form of the text, which
/// depends on the text alone.
#[verifier::external_body]
fn lowercase(s: &str) -> (r: String)
    ensures
        r@ == lower_of(s@),
{
    s.to_lowercase()
}

/// `p` occurs in `s` as a run of consecutive characters.
pub open spec fn has_sub(s: Seq<char>, p: Seq<char>) -> bool {
    exists|i: int| 0 <= i && i + p.len() <= s.len() && #[trigger] s.subrange(i, i + p.len()) == p
}

/// Relies on `str::contains` with a `&str` pattern: true exactly when the
/// pattern occurs in the text.
#[verifier::external_body]
fn contains(s: &str, p: &str) -> (r: bool)
    ensures
        r == has_sub(s@, p@),
{
    s.contains(p)
}

/// The instrument for a lowercased part name: the first rule of the table
/// whose word occurs in the name.
pub open spec fn instrument_named(l: Seq<char>) -> Seq<char> {
    if has_sub(l, "synth"@) {
        "Synthesizer"@
    } else if has_sub(l, "bassoon"@) {
        "Bassoon"@
    } else if has_sub(l, "bass"@) {
        "Electric Bass"@
    } else if has_sub(l, "cello"@) {
        "Cello"@
    } else if has_sub(l, "guitar"@) {
        if has_sub(l, "elec"@) {
            "Electric Guitar"@
        } else if has_sub(l, "nylon"@) {
            "Nylon Guitar"@
        } else {
            "Acoustic Guitar"@
        }
    } else if has_sub(l, "harp"@) {
        "Harp"@
    } else if has_sub(l, "organ"@) {
        "Pipe Organ"@
    } else if has_sub(l, "violin"@) {
        "Violin"@
    } else {
        "Grand Piano"@
    }
}

/// Picks the instrument for an already lowercased part name.
pub fn instrument_for(lower: &str) -> (r: &'static str)
    ensures
        r@ == instrument_named(lower@),
{
    if contains(lower, "synth") {
        "Synthesizer"
    } else if contains(lower, "bassoon") {
        "Bassoon"
    } else if contains(lower, "bass") {
        "Electric Bass"
    } else if contains(lower, "cello") {
        "Cello"
    } else if contains(lower, "guitar") {
        if contains(lower, "elec") {
            "Electric Guitar"
        } else if contains(lower, "nylon") {
            "Nylon Guitar"
        } else {
            "Acoustic Guitar"
        }
    } else if contains(lower, "harp") {
        "Harp"
    } else if contains(lower, "organ") {
        "Pipe Organ"
    } else if contains(lower, "violin") {
        "Violin"
    } else {
        "Grand Piano"
    }
}

/// Infers the instrument of a part from its display name, ignoring case.
pub fn instrument(name: &str) -> (r: &'static str)
    ensures
        r@ == instrument_named(lower_of(name@)),
{
    let l = lowercase(name);
    instrument_for(l.as_str())
}

} // verus!
