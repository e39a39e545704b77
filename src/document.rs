use vstd::prelude::*;
use crate::blocks::{Block, BlockV, block_text, blocks_text, bview, key_text, push_block, push_blocks};
use crate::instrument::{instrument, instrument_named, lower_of};
use crate::model::{Part, Score, TranslateError};
use crate::modifiers::{ModSet, set_blocks};
use crate::tempo::{bpm_text, push_bpm, quarter_bpm, quarter_tempo};
use crate::text::{decimal, digit_char, escaped, push_decimal, xml_escape};
use crate::walker::{Paths, Walk, lemma_count_false_fresh, lemma_self_containing_section, lemma_set_none, path_fuel, walk_section};
use crate::model::SectionItem;

verus! {

/// The registry of reusable block bodies: each entry a unique name and
/// the text of the section body registered under it, in registration order.
pub type Registry = Seq<(Seq<char>, Seq<char>)>;

pub open spec fn reg_view(v: Seq<(String, String)>) -> Registry {
    v.map_values(|e: (String, String)| (e.0@, e.1@))
}

pub open spec fn reg_names(r: Registry) -> Seq<Seq<char>> {
    r.map_values(|e: (Seq<char>, Seq<char>)| e.0)
}

/// The `k`-th candidate name: the base itself, then `base 2`, `base 3`, ...
pub open spec fn candidate(base: Seq<char>, k: nat) -> Seq<char> {
    if k <= 1 {
        base
    } else {
        base + " "@ + decimal(k)
    }
}

/// The first candidate from the `k`-th on that is not taken, trying at most
/// `fuel` of them.
pub open spec fn first_free(names: Seq<Seq<char>>, base: Seq<char>, k: nat, fuel: nat) -> Seq<char>
    decreases fuel,
{
    if fuel == 0 || !names.contains(candidate(base, k)) {
        candidate(base, k)
    } else {
        first_free(names, base, k + 1, (fuel - 1) as nat)
    }
}

/// The name a section gets: its own, or the first free numbered variant.
pub open spec fn unique_name(names: Seq<Seq<char>>, base: Seq<char>) -> Seq<char> {
    first_free(names, base, 1, names.len() + 1)
}

pub open spec fn fresh_paths(score: Score) -> Paths {
    (
        Seq::new(score.sections@.len(), |i: int| false),
        Seq::new(score.staves@.len(), |i: int| false),
        Seq::new(score.phrases@.len(), |i: int| false),
    )
}

/// The blocks of a top-level section, walked from an empty modifier stack
/// and with every scope it leaves open closed at the end.
pub open spec fn section_body(score: Score, id: usize) -> Result<Seq<BlockV>, TranslateError> {
    let p = fresh_paths(score);
    match walk_section(score, id, Seq::empty(), p, path_fuel(p)) {
        Err(e) => Err(e),
        Ok((f, b)) => Ok(b + set_blocks(f, ModSet::none_spec())),
    }
}

/// The script of the `i`-th top-level section of a part: start, instrument,
/// tempo and key, then a call of the section's block.
pub open spec fn script_text(i: nat, instrument: Seq<char>, score: Score, name: Seq<char>) -> Seq<char> {
    "<script x=\""@ + decimal(300 * i)
        + "\" y=\"0\"><block s=\"receiveGo\"></block><block s=\"setInstrument\"><l>"@ + instrument
        + "</l></block>"@ + block_text(BlockV::SetTempo(quarter_bpm(score.tempo))) + block_text(
        BlockV::SetKey(score.key),
    ) + "<custom-block s=\""@ + escaped(name) + "\"></custom-block></script>"@
}

/// The scripts of a part's top-level sections, registering each body.
pub open spec fn scripts_of(score: Score, instrument: Seq<char>, secs: Seq<usize>, reg: Registry) -> Result<
    (Seq<char>, Registry),
    TranslateError,
>
    decreases secs.len(),
{
    if secs.len() == 0 {
        Ok((Seq::empty(), reg))
    } else {
        match scripts_of(score, instrument, secs.drop_last(), reg) {
            Err(e) => Err(e),
            Ok((t, r)) => match section_body(score, secs.last()) {
                Err(e) => Err(e),
                Ok(b) => {
                    let name = unique_name(reg_names(r), score.sections@[secs.last() as int].name@);
                    Ok(
                        (
                            t + script_text((secs.len() - 1) as nat, instrument, score, name),
                            r.push((name, blocks_text(b))),
                        ),
                    )
                },
            },
        }
    }
}

pub open spec fn sprite_open(name: Seq<char>) -> Seq<char> {
    "<sprite name=\""@ + escaped(name)
        + "\" x=\"0\" y=\"0\" heading=\"90\" scale=\"1\" volume=\"100\" pan=\"0\" rotation=\"1\" draggable=\"true\" costume=\"0\" color=\"80,80,80,1\" pen=\"tip\"><costumes><list struct=\"atomic\"></list></costumes><sounds><list struct=\"atomic\"></list></sounds><blocks></blocks><variables></variables><scripts>"@
}

/// One sprite per part, in order.
pub open spec fn parts_of(score: Score, parts: Seq<Part>, reg: Registry) -> Result<
    (Seq<char>, Registry),
    TranslateError,
>
    decreases parts.len(),
{
    if parts.len() == 0 {
        Ok((Seq::empty(), reg))
    } else {
        match parts_of(score, parts.drop_last(), reg) {
            Err(e) => Err(e),
            Ok((t, r)) => {
                let p = parts.last();
                match scripts_of(score, instrument_named(lower_of(p.name@)), p.sections@, r) {
                    Err(e) => Err(e),
                    Ok((s, r2)) => Ok((t + sprite_open(p.name@) + s + "</scripts></sprite>"@, r2)),
                }
            },
        }
    }
}

pub open spec fn definition_text(e: (Seq<char>, Seq<char>)) -> Seq<char> {
    "<block-definition s=\""@ + escaped(e.0)
        + "\" type=\"command\" category=\"custom\"><header></header><code></code><translations></translations><inputs></inputs><script>"@
        + e.1 + "</script></block-definition>"@
}

pub open spec fn definitions_text(r: Registry) -> Seq<char>
    decreases r.len(),
{
    if r.len() == 0 {
        Seq::empty()
    } else {
        definitions_text(r.drop_last()) + definition_text(r.last())
    }
}

pub open spec fn strings_view(v: Seq<String>) -> Seq<Seq<char>> {
    v.map_values(|s: String| s@)
}

pub open spec fn option_view(o: Option<String>) -> Seq<Seq<char>> {
    match o {
        Some(s) => seq![s@],
        None => Seq::empty(),
    }
}

pub open spec fn joined(v: Seq<Seq<char>>) -> Seq<char>
    decreases v.len(),
{
    if v.len() <= 1 {
        if v.len() == 0 {
            Seq::empty()
        } else {
            v[0]
        }
    } else {
        joined(v.drop_last()) + ", "@ + v.last()
    }
}

/// A list of names joined by commas, or `N/A` when empty.
pub open spec fn list_text(v: Seq<Seq<char>>) -> Seq<char> {
    if v.len() == 0 {
        "N/A"@
    } else {
        joined(v)
    }
}

/// The project notes: the composition's metadata, one field per line.
pub open spec fn notes_text(score: Score) -> Seq<char> {
    "title: "@ + score.title@ + "\ncomposers: "@ + list_text(strings_view(score.composers@))
        + "\nlyricists: "@ + list_text(strings_view(score.lyricists@)) + "\narrangers: "@
        + list_text(strings_view(score.arrangers@)) + "\npublisher: "@ + list_text(
        option_view(score.publisher),
    ) + "\ncopyright: "@ + list_text(option_view(score.copyright)) + "\n\ntempo: "@ + bpm_text(
        quarter_bpm(score.tempo),
    ) + "\ntime signature: "@ + score.time_signature@ + "\nkey: "@ + key_text(score.key)
}

pub open spec fn envelope_open(score: Score) -> Seq<char> {
    "<room name=\""@ + escaped(score.title@)
        + "\"><role name=\"myRole\"><project name=\"myRole\"><notes>"@ + escaped(notes_text(score))
        + "</notes><stage name=\"Stage\" width=\"480\" height=\"360\" costume=\"0\" color=\"255,255,255,1\" tempo=\""@
        + bpm_text(quarter_bpm(score.tempo))
        + "\" threadsafe=\"false\" penlog=\"false\" volume=\"100\" pan=\"0\" lines=\"round\" ternary=\"false\" hyperops=\"true\" codify=\"false\" inheritance=\"false\" sublistIDs=\"false\" scheduled=\"false\"><costumes><list struct=\"atomic\"></list></costumes><sounds><list struct=\"atomic\"></list></sounds><variables></variables><blocks></blocks><messageTypes><messageType><name>message</name><fields><field>msg</field></fields></messageType></messageTypes><scripts></scripts><sprites>"@
}

/// The whole project document of a score, or the error that stops it.
pub open spec fn document(score: Score) -> Result<Seq<char>, TranslateError> {
    match parts_of(score, score.parts@, Seq::empty()) {
        Err(e) => Err(e),
        Ok((t, r)) => Ok(
            envelope_open(score) + t + "</sprites></stage><blocks>"@ + definitions_text(r)
                + "</blocks><variables></variables></project><media name=\"myRole\"></media></role></room>"@,
        ),
    }
}

fn push_escaped(out: &mut String, s: &str)
    ensures
        final(out)@ == old(out)@ + escaped(s@),
{
    let e = xml_escape(s);
    out.append(e.as_str());
}

fn push_list(out: &mut String, v: &Vec<String>)
    ensures
        final(out)@ == old(out)@ + list_text(strings_view(v@)),
{
    let ghost start = out@;
    if v.len() == 0 {
        out.append("N/A");
        return;
    }
    out.append(v[0].as_str());
    let mut i: usize = 1;
    assert(strings_view(v@).subrange(0, 1) =~= seq![v@[0]@]);
    while i < v.len()
        invariant
            1 <= i <= v@.len(),
            out@ == start + joined(strings_view(v@).subrange(0, i as int)),
        decreases v@.len() - i,
    {
        out.append(", ");
        out.append(v[i].as_str());
        assert(strings_view(v@).subrange(0, i + 1).drop_last() =~= strings_view(v@).subrange(0, i as int));
        i = i + 1;
        assert(out@ =~= start + joined(strings_view(v@).subrange(0, i as int)));
    }
    assert(strings_view(v@).subrange(0, v@.len() as int) =~= strings_view(v@));
}

fn push_option_list(out: &mut String, o: &Option<String>)
    ensures
        final(out)@ == old(out)@ + list_text(option_view(*o)),
{
    match o {
        None => out.append("N/A"),
        Some(s) => out.append(s.as_str()),
    }
}

/// The project notes of a score.
pub fn notes_string(score: &Score) -> (r: String)
    ensures
        r@ == notes_text(*score),
{
    let mut t = String::new();
    t.append("title: ");
    t.append(score.title.as_str());
    t.append("\ncomposers: ");
    push_list(&mut t, &score.composers);
    t.append("\nlyricists: ");
    push_list(&mut t, &score.lyricists);
    t.append("\narrangers: ");
    push_list(&mut t, &score.arrangers);
    t.append("\npublisher: ");
    push_option_list(&mut t, &score.publisher);
    t.append("\ncopyright: ");
    push_option_list(&mut t, &score.copyright);
    t.append("\n\ntempo: ");
    push_bpm(&mut t, &quarter_tempo(&score.tempo));
    t.append("\ntime signature: ");
    t.append(score.time_signature.as_str());
    t.append("\nkey: ");
    crate::blocks::push_key(&mut t, &score.key);
    assert(t@ =~= notes_text(*score));
    t
}

fn push_envelope_open(out: &mut String, score: &Score)
    ensures
        final(out)@ == old(out)@ + envelope_open(*score),
{
    let ghost start = out@;
    out.append("<room name=\"");
    push_escaped(out, score.title.as_str());
    out.append("\"><role name=\"myRole\"><project name=\"myRole\"><notes>");
    let notes = notes_string(score);
    push_escaped(out, notes.as_str());
    out.append("</notes><stage name=\"Stage\" width=\"480\" height=\"360\" costume=\"0\" color=\"255,255,255,1\" tempo=\"");
    push_bpm(out, &quarter_tempo(&score.tempo));
    out.append("\" threadsafe=\"false\" penlog=\"false\" volume=\"100\" pan=\"0\" lines=\"round\" ternary=\"false\" hyperops=\"true\" codify=\"false\" inheritance=\"false\" sublistIDs=\"false\" scheduled=\"false\"><costumes><list struct=\"atomic\"></list></costumes><sounds><list struct=\"atomic\"></list></sounds><variables></variables><blocks></blocks><messageTypes><messageType><name>message</name><fields><field>msg</field></fields></messageType></messageTypes><scripts></scripts><sprites>");
    assert(out@ =~= start + envelope_open(*score));
}

/// Walks one top-level section into the text of its block body.
fn section_body_exec(score: &Score, id: usize, ctx: &mut Walk) -> (r: Result<String, TranslateError>)
    requires
        score.wf(),
        old(ctx).wf(score),
        old(ctx).stack@.0 == Seq::<ModSet>::empty(),
        old(ctx).paths() == fresh_paths(*score),
        id < score.sections@.len(),
    ensures
        final(ctx).wf(score),
        match r {
            Ok(t) => section_body(*score, id) is Ok && t@ == blocks_text(section_body(*score, id)->Ok_0)
                && final(ctx).stack@.0 == Seq::<ModSet>::empty() && final(ctx).paths() == fresh_paths(*score),
            Err(e) => section_body(*score, id) == Err::<Seq<BlockV>, TranslateError>(e),
        },
{
    let mut blocks: Vec<Block> = Vec::new();
    let r = crate::walker::walk_section_exec(score, id, ctx, &mut blocks);
    match r {
        Err(e) => {
            return Err(e);
        },
        Ok(()) => {},
    }
    let ghost f = ctx.stack@.0;
    proof {
        lemma_set_none(f);
    }
    ctx.stack.set(ModSet::none(), &mut blocks);
    let mut t = String::new();
    push_blocks(&mut t, &blocks);
    assert(bview(blocks@) =~= section_body(*score, id)->Ok_0);
    Ok(t)
}

fn name_taken(reg: &Vec<(String, String)>, name: &String) -> (r: bool)
    ensures
        r == reg_names(reg_view(reg@)).contains(name@),
{
    let mut i: usize = 0;
    while i < reg.len()
        invariant
            i <= reg@.len(),
            forall|k: int| 0 <= k < i ==> reg_names(reg_view(reg@))[k] != name@,
        decreases reg@.len() - i,
    {
        if reg[i].0 == *name {
            assert(reg_names(reg_view(reg@))[i as int] == name@);
            return true;
        }
        i = i + 1;
    }
    false
}

/// Chooses the registry name for a section named `base`.
fn unique_name_exec(reg: &Vec<(String, String)>, base: &String) -> (r: String)
    ensures
        r@ == unique_name(reg_names(reg_view(reg@)), base@),
{
    let ghost names = reg_names(reg_view(reg@));
    let n = reg.len();
    let mut k: u128 = 1;
    let mut fuel: u128 = n as u128 + 1;
    loop
        invariant
            n == reg@.len(),
            1 <= k,
            k + fuel == reg@.len() + 2,
            names == reg_names(reg_view(reg@)),
            names.len() == reg@.len(),
            first_free(names, base@, k as nat, fuel as nat) == unique_name(names, base@),
        decreases fuel,
    {
        let mut c = base.clone();
        if k > 1 {
            c.append(" ");
            push_decimal(&mut c, k);
        }
        assert(c@ == candidate(base@, k as nat));
        if fuel == 0 || !name_taken(reg, &c) {
            return c;
        }
        k = k + 1;
        fuel = fuel - 1;
    }
}

fn push_script(out: &mut String, i: usize, instrument: &str, score: &Score, name: &String)
    ensures
        final(out)@ == old(out)@ + script_text(i as nat, instrument@, *score, name@),
{
    let ghost start = out@;
    out.append("<script x=\"");
    push_decimal(out, 300 * (i as u128));
    out.append("\" y=\"0\"><block s=\"receiveGo\"></block><block s=\"setInstrument\"><l>");
    out.append(instrument);
    out.append("</l></block>");
    push_block(out, &Block::SetTempo(quarter_tempo(&score.tempo)));
    push_block(out, &Block::SetKey(score.key));
    out.append("<custom-block s=\"");
    push_escaped(out, name.as_str());
    out.append("\"></custom-block></script>");
    assert(out@ =~= start + script_text(i as nat, instrument@, *score, name@));
}

fn translate_part(
    score: &Score,
    part: &Part,
    ctx: &mut Walk,
    reg: &mut Vec<(String, String)>,
    out: &mut String,
) -> (r: Result<(), TranslateError>)
    requires
        score.wf(),
        old(ctx).wf(score),
        old(ctx).stack@.0 == Seq::<ModSet>::empty(),
        old(ctx).paths() == fresh_paths(*score),
        forall|j: int| 0 <= j < part.sections@.len() ==> #[trigger] part.sections@[j] < score.sections@.len(),
    ensures
        final(ctx).wf(score),
        r is Ok ==> scripts_of(*score, instrument_named(lower_of(part.name@)), part.sections@, reg_view(old(reg)@)) is Ok,
        r is Ok ==> final(out)@ == old(out)@ + sprite_open(part.name@) + scripts_of(*score, instrument_named(lower_of(part.name@)), part.sections@, reg_view(old(reg)@))->Ok_0.0 + "</scripts></sprite>"@,
        r is Ok ==> reg_view(final(reg)@) == scripts_of(*score, instrument_named(lower_of(part.name@)), part.sections@, reg_view(old(reg)@))->Ok_0.1,
        r is Ok ==> final(ctx).stack@.0 == Seq::<ModSet>::empty(),
        r is Ok ==> final(ctx).paths() == fresh_paths(*score),
        r matches Err(e) ==> scripts_of(*score, instrument_named(lower_of(part.name@)), part.sections@, reg_view(old(reg)@))
            == Err::<(Seq<char>, Registry), TranslateError>(e),
{
    let ghost start = out@;
    let ghost r0 = reg_view(reg@);
    let instr = instrument(part.name.as_str());
    let ghost ins = instrument_named(lower_of(part.name@));
    out.append("<sprite name=\"");
    push_escaped(out, part.name.as_str());
    out.append("\" x=\"0\" y=\"0\" heading=\"90\" scale=\"1\" volume=\"100\" pan=\"0\" rotation=\"1\" draggable=\"true\" costume=\"0\" color=\"80,80,80,1\" pen=\"tip\"><costumes><list struct=\"atomic\"></list></costumes><sounds><list struct=\"atomic\"></list></sounds><blocks></blocks><variables></variables><scripts>");
    let ghost mid = out@;
    assert(mid =~= start + sprite_open(part.name@));
    let mut i: usize = 0;
    assert(scripts_of(*score, ins, part.sections@.subrange(0, 0), r0) == Ok::<(Seq<char>, Registry), TranslateError>((Seq::empty(), r0)));
    while i < part.sections.len()
        invariant
            score.wf(),
            ctx.wf(score),
            ctx.stack@.0 == Seq::<ModSet>::empty(),
            ctx.paths() == fresh_paths(*score),
            forall|j: int| 0 <= j < part.sections@.len() ==> #[trigger] part.sections@[j] < score.sections@.len(),
            instr@ == ins,
            ins == instrument_named(lower_of(part.name@)),
            r0 == reg_view(old(reg)@),
            i <= part.sections@.len(),
            scripts_of(*score, ins, part.sections@.subrange(0, i as int), r0) is Ok,
            out@ == mid + scripts_of(*score, ins, part.sections@.subrange(0, i as int), r0)->Ok_0.0,
            reg_view(reg@) == scripts_of(*score, ins, part.sections@.subrange(0, i as int), r0)->Ok_0.1,
        decreases part.sections@.len() - i,
    {
        let ghost pre = part.sections@.subrange(0, i as int);
        let ghost next = part.sections@.subrange(0, i + 1);
        assert(next.drop_last() =~= pre);
        let id = part.sections[i];
        let body = match section_body_exec(score, id, ctx) {
            Err(e) => {
                proof {
                    assert(scripts_of(*score, ins, next, r0) == Err::<(Seq<char>, Registry), TranslateError>(e));
                    lemma_scripts_err(*score, ins, part.sections@, i as int + 1, r0);
                }
                return Err(e);
            },
            Ok(b) => b,
        };
        let name = unique_name_exec(reg, &score.sections[id].name);
        push_script(out, i, instr, score, &name);
        let ghost prev = reg@;
        reg.push((name, body));
        assert(reg_view(reg@) =~= reg_view(prev).push((name@, body@)));
        assert(next.len() - 1 == i);
        i = i + 1;
    }
    assert(part.sections@.subrange(0, part.sections@.len() as int) =~= part.sections@);
    out.append("</scripts></sprite>");
    assert(out@ =~= start + sprite_open(part.name@) + scripts_of(*score, ins, part.sections@, r0)->Ok_0.0 + "</scripts></sprite>"@);
    Ok(())
}

proof fn lemma_scripts_err(score: Score, ins: Seq<char>, secs: Seq<usize>, k: int, reg: Registry)
    requires
        0 <= k <= secs.len(),
        scripts_of(score, ins, secs.subrange(0, k), reg) is Err,
    ensures
        scripts_of(score, ins, secs, reg) == scripts_of(score, ins, secs.subrange(0, k), reg),
    decreases secs.len() - k,
{
    if k == secs.len() {
        assert(secs.subrange(0, k) =~= secs);
    } else {
        assert(secs.drop_last().subrange(0, k) =~= secs.subrange(0, k));
        lemma_scripts_err(score, ins, secs.drop_last(), k, reg);
    }
}

proof fn lemma_parts_err(score: Score, parts: Seq<Part>, k: int, reg: Registry)
    requires
        0 <= k <= parts.len(),
        parts_of(score, parts.subrange(0, k), reg) is Err,
    ensures
        parts_of(score, parts, reg) == parts_of(score, parts.subrange(0, k), reg),
    decreases parts.len() - k,
{
    if k == parts.len() {
        assert(parts.subrange(0, k) =~= parts);
    } else {
        assert(parts.drop_last().subrange(0, k) =~= parts.subrange(0, k));
        lemma_parts_err(score, parts.drop_last(), k, reg);
    }
}

fn push_definitions(out: &mut String, reg: &Vec<(String, String)>)
    ensures
        final(out)@ == old(out)@ + definitions_text(reg_view(reg@)),
{
    let ghost start = out@;
    let mut i: usize = 0;
    while i < reg.len()
        invariant
            i <= reg@.len(),
            out@ == start + definitions_text(reg_view(reg@).subrange(0, i as int)),
        decreases reg@.len() - i,
    {
        out.append("<block-definition s=\"");
        push_escaped(out, reg[i].0.as_str());
        out.append("\" type=\"command\" category=\"custom\"><header></header><code></code><translations></translations><inputs></inputs><script>");
        out.append(reg[i].1.as_str());
        out.append("</script></block-definition>");
        assert(reg_view(reg@).subrange(0, i + 1).drop_last() =~= reg_view(reg@).subrange(0, i as int));
        i = i + 1;
        assert(out@ =~= start + definitions_text(reg_view(reg@).subrange(0, i as int)));
    }
    assert(reg_view(reg@).subrange(0, reg@.len() as int) =~= reg_view(reg@));
}

/// Translates a score into a NetsBlox project document.
///
/// Each part becomes a sprite; each top-level section of a part becomes a
/// uniquely named custom block, defined once in the project's block area
/// and called from a script of its own. Any error ends the translation
/// with no document.
pub fn translate(score: &Score) -> (r: Result<String, TranslateError>)
    requires
        score.wf(),
    ensures
        match r {
            Ok(s) => document(*score) == Ok::<Seq<char>, TranslateError>(s@),
            Err(e) => document(*score) == Err::<Seq<char>, TranslateError>(e),
        },
{
    let mut out = String::new();
    push_envelope_open(&mut out, score);
    let ghost env = out@;
    let mut ctx = Walk::new(score);
    let mut reg: Vec<(String, String)> = Vec::new();
    assert(reg_view(reg@) =~= Seq::<(Seq<char>, Seq<char>)>::empty());
    let mut i: usize = 0;
    assert(parts_of(*score, score.parts@.subrange(0, 0), Seq::empty()) == Ok::<(Seq<char>, Registry), TranslateError>((Seq::empty(), Seq::empty())));
    while i < score.parts.len()
        invariant
            score.wf(),
            ctx.wf(score),
            ctx.stack@.0 == Seq::<ModSet>::empty(),
            ctx.paths() == fresh_paths(*score),
            i <= score.parts@.len(),
            parts_of(*score, score.parts@.subrange(0, i as int), Seq::empty()) is Ok,
            out@ == env + parts_of(*score, score.parts@.subrange(0, i as int), Seq::empty())->Ok_0.0,
            reg_view(reg@) == parts_of(*score, score.parts@.subrange(0, i as int), Seq::empty())->Ok_0.1,
        decreases score.parts@.len() - i,
    {
        let ghost pre = score.parts@.subrange(0, i as int);
        let ghost next = score.parts@.subrange(0, i + 1);
        assert(next.drop_last() =~= pre);
        let part = &score.parts[i];
        assert forall|j: int| 0 <= j < part.sections@.len() implies #[trigger] part.sections@[j] < score.sections@.len() by {
            assert(score.parts@[i as int].sections@[j] < score.sections@.len());
        }
        match translate_part(score, part, &mut ctx, &mut reg, &mut out) {
            Err(e) => {
                proof {
                    assert(parts_of(*score, next, Seq::empty()) == Err::<(Seq<char>, Registry), TranslateError>(e));
                    lemma_parts_err(*score, score.parts@, i as int + 1, Seq::empty());
                }
                return Err(e);
            },
            Ok(()) => {},
        }
        assert(out@ =~= env + parts_of(*score, next, Seq::empty())->Ok_0.0);
        i = i + 1;
    }
    assert(score.parts@.subrange(0, score.parts@.len() as int) =~= score.parts@);
    out.append("</sprites></stage><blocks>");
    push_definitions(&mut out, &reg);
    out.append("</blocks><variables></variables></project><media name=\"myRole\"></media></role></room>");
    Ok(out)
}

/// A score whose first part opens with a section that contains itself as
/// its first element yields a cycle error and no document.
pub proof fn lemma_cyclic_score(score: Score)
    requires
        score.parts@.len() > 0,
        score.parts@[0].sections@.len() > 0,
        score.parts@[0].sections@[0] < score.sections@.len(),
        score.sections@[score.parts@[0].sections@[0] as int].items@.len() > 0,
        score.sections@[score.parts@[0].sections@[0] as int].items@[0] == SectionItem::Section(
            score.parts@[0].sections@[0],
        ),
    ensures
        document(score) == Err::<Seq<char>, TranslateError>(TranslateError::CyclicStructure),
{
    let id = score.parts@[0].sections@[0];
    let p = fresh_paths(score);
    lemma_count_false_fresh(score.sections@.len() as nat);
    lemma_self_containing_section(score, id, Seq::empty(), p, path_fuel(p));
    assert(section_body(score, id) is Err);
    let part = score.parts@[0];
    let ins = instrument_named(lower_of(part.name@));
    let empty = Seq::<(Seq<char>, Seq<char>)>::empty();
    let secs1 = part.sections@.subrange(0, 1);
    assert(secs1.drop_last() =~= Seq::<usize>::empty());
    assert(secs1.last() == id);
    assert(scripts_of(score, ins, secs1.drop_last(), empty) is Ok);
    assert(scripts_of(score, ins, secs1, empty) == Err::<(Seq<char>, Registry), TranslateError>(TranslateError::CyclicStructure));
    lemma_scripts_err(score, ins, part.sections@, 1, empty);
    let parts1 = score.parts@.subrange(0, 1);
    assert(parts1.drop_last() =~= Seq::<Part>::empty());
    assert(parts1.last() == part);
    assert(parts_of(score, parts1.drop_last(), empty) == Ok::<(Seq<char>, Registry), TranslateError>((Seq::empty(), empty)));
    assert(parts_of(score, parts1, empty) == Err::<(Seq<char>, Registry), TranslateError>(TranslateError::CyclicStructure));
    lemma_parts_err(score, score.parts@, 1, empty);
}

proof fn lemma_decimal_len(n: nat)
    ensures
        decimal(n).len() >= 1,
        n >= 10 ==> decimal(n).len() >= 2,
    decreases n,
{
    if n >= 10 {
        lemma_decimal_len(n / 10);
    }
}

proof fn lemma_digit_injective(a: nat, b: nat)
    requires
        a < 10,
        b < 10,
        digit_char(a) == digit_char(b),
    ensures
        a == b,
{
}

proof fn lemma_decimal_injective(a: nat, b: nat)
    requires
        decimal(a) == decimal(b),
    ensures
        a == b,
    decreases a,
{
    lemma_decimal_len(a);
    lemma_decimal_len(b);
    if a < 10 && b < 10 {
        assert(decimal(a)[0] == digit_char(a));
        assert(decimal(b)[0] == digit_char(b));
        lemma_digit_injective(a, b);
    } else if a >= 10 && b >= 10 {
        assert(decimal(a).last() == digit_char(a % 10));
        assert(decimal(b).last() == digit_char(b % 10));
        lemma_digit_injective(a % 10, b % 10);
        assert(decimal(a).drop_last() =~= decimal(a / 10));
        assert(decimal(b).drop_last() =~= decimal(b / 10));
        lemma_decimal_injective(a / 10, b / 10);
        assert(a == 10 * (a / 10) + a % 10);
        assert(b == 10 * (b / 10) + b % 10);
    }
}

proof fn lemma_candidate_injective(base: Seq<char>, i: nat, j: nat)
    requires
        i >= 1,
        j >= 1,
        candidate(base, i) == candidate(base, j),
    ensures
        i == j,
{
    lemma_decimal_len(i);
    lemma_decimal_len(j);
    reveal_strlit(" ");
    if i >= 2 && j >= 2 {
        let c = candidate(base, i);
        assert(c.subrange(base.len() as int + 1, c.len() as int) =~= decimal(i));
        assert(candidate(base, j).subrange(base.len() as int + 1, c.len() as int) =~= decimal(j));
        lemma_decimal_injective(i, j);
    } else if i >= 2 || j >= 2 {
        assert(candidate(base, i).len() != candidate(base, j).len());
    }
}

proof fn lemma_first_free_taken(names: Seq<Seq<char>>, base: Seq<char>, k: nat, fuel: nat)
    requires
        names.contains(first_free(names, base, k, fuel)),
    ensures
        forall|j: nat| k <= j <= k + fuel ==> names.contains(#[trigger] candidate(base, j)),
    decreases fuel,
{
    if fuel > 0 && names.contains(candidate(base, k)) {
        lemma_first_free_taken(names, base, k + 1, (fuel - 1) as nat);
    }
}

/// The name a section is registered under is never one already taken.
pub proof fn lemma_unique_name_is_new(names: Seq<Seq<char>>, base: Seq<char>)
    ensures
        !names.contains(unique_name(names, base)),
{
    broadcast use vstd::seq_lib::seq_to_set_is_finite;
    let n = names.len();
    if names.contains(unique_name(names, base)) {
        lemma_first_free_taken(names, base, 1, n + 1);
        let cands = Seq::new(n + 1, |i: int| candidate(base, (i + 1) as nat));
        assert(cands.no_duplicates()) by {
            assert forall|i: int, j: int| 0 <= i < cands.len() && 0 <= j < cands.len() && i != j implies cands[i] != cands[j] by {
                if cands[i] == cands[j] {
                    lemma_candidate_injective(base, (i + 1) as nat, (j + 1) as nat);
                }
            }
        }
        cands.unique_seq_to_set();
        names.lemma_cardinality_of_set();
        assert(cands.to_set().subset_of(names.to_set())) by {
            assert forall|x: Seq<char>| cands.to_set().contains(x) implies names.to_set().contains(x) by {
                let i = choose|i: int| 0 <= i < cands.len() && cands[i] == x;
                assert(candidate(base, (i + 1) as nat) == x);
                assert(names.contains(candidate(base, (i + 1) as nat)));
            }
        }
        vstd::set_lib::lemma_len_subset(cands.to_set(), names.to_set());
    }
}

proof fn lemma_scripts_distinct(score: Score, ins: Seq<char>, secs: Seq<usize>, reg: Registry)
    requires
        reg_names(reg).no_duplicates(),
        scripts_of(score, ins, secs, reg) is Ok,
    ensures
        reg_names(scripts_of(score, ins, secs, reg)->Ok_0.1).no_duplicates(),
    decreases secs.len(),
{
    if secs.len() > 0 {
        lemma_scripts_distinct(score, ins, secs.drop_last(), reg);
        let r = scripts_of(score, ins, secs.drop_last(), reg)->Ok_0.1;
        let b = section_body(score, secs.last())->Ok_0;
        let name = unique_name(reg_names(r), score.sections@[secs.last() as int].name@);
        lemma_unique_name_is_new(reg_names(r), score.sections@[secs.last() as int].name@);
        assert(reg_names(r.push((name, blocks_text(b)))) =~= reg_names(r).push(name));
    }
}

proof fn lemma_parts_distinct(score: Score, parts: Seq<Part>, reg: Registry)
    requires
        reg_names(reg).no_duplicates(),
        parts_of(score, parts, reg) is Ok,
    ensures
        reg_names(parts_of(score, parts, reg)->Ok_0.1).no_duplicates(),
    decreases parts.len(),
{
    if parts.len() > 0 {
        lemma_parts_distinct(score, parts.drop_last(), reg);
        let r = parts_of(score, parts.drop_last(), reg)->Ok_0.1;
        let p = parts.last();
        lemma_scripts_distinct(score, instrument_named(lower_of(p.name@)), p.sections@, r);
    }
}

/// Every block registered in a translated document has a name of its own:
/// no two top-level sections share a block name, whatever their names.
pub proof fn lemma_registered_names_distinct(score: Score)
    requires
        parts_of(score, score.parts@, Seq::empty()) is Ok,
    ensures
        reg_names(parts_of(score, score.parts@, Seq::empty())->Ok_0.1).no_duplicates(),
{
    assert(reg_names(Seq::<(Seq<char>, Seq<char>)>::empty()) =~= Seq::<Seq<char>>::empty());
    lemma_parts_distinct(score, score.parts@, Seq::empty());
}

} // verus!
