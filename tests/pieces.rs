use amm_sdk_netsblox::{
    instrument, instrument_for, push_block, push_blocks, push_bpm, quarter_tempo, translate_chord, volume,
    xml_escape, Accidental, Block, Duration, DurationArg, DurationType, Dynamic, Mark, ModSet, Modifiers, Note,
    Pitch, PitchName, Tempo, Token, TranslateError,
};

fn note(name: PitchName, octave: u8, value: DurationType, dots: u8, marks: Vec<Mark>) -> Note {
    Note {
        pitch: Pitch::new(name, octave),
        duration: Duration::new(value, dots),
        accidental: Accidental::Unmarked,
        marks,
    }
}

fn text(blocks: &Vec<Block>) -> String {
    let mut s = String::new();
    push_blocks(&mut s, blocks);
    s
}

fn set(accent: bool, staccato: bool, turn_upper: bool, turn_lower: bool) -> ModSet {
    ModSet { accent, staccato, turn_upper, turn_lower }
}

fn count(blocks: &Vec<Block>) -> (usize, usize) {
    let opens = blocks.iter().filter(|b| matches!(b, Block::ModOpen(_))).count();
    let closes = blocks.iter().filter(|b| matches!(b, Block::Close)).count();
    (opens, closes)
}

const OPEN_ACCENT: &str = "<block s=\"noteMod\"><list><l><option>Accent</option></l></list><script>";
const CLOSE: &str = "</script></block>";

#[test]
fn escapes_markup_characters_and_newlines() {
    assert_eq!(xml_escape("a&b<c>'d\"e\nf"), "a&amp;b&lt;c&gt;&apos;d&quot;e&#xD;f");
    assert_eq!(xml_escape(""), "");
    assert_eq!(xml_escape("plain text"), "plain text");
}

#[test]
fn instrument_table() {
    assert_eq!(instrument("Electric Bass Intro"), "Electric Bass");
    assert_eq!(instrument("Bassoon 1"), "Bassoon");
    assert_eq!(instrument("SYNTH BASS"), "Synthesizer");
    assert_eq!(instrument("Cello"), "Cello");
    assert_eq!(instrument("Electronical Guitars"), "Electric Guitar");
    assert_eq!(instrument("Nylon Guitar"), "Nylon Guitar");
    assert_eq!(instrument("guitar"), "Acoustic Guitar");
    assert_eq!(instrument("small harping thingy"), "Harp");
    assert_eq!(instrument("Church Organ"), "Pipe Organ");
    assert_eq!(instrument("Violin II"), "Violin");
    assert_eq!(instrument("some pipes or something"), "Grand Piano");
}

#[test]
fn instrument_for_reads_lowercase_only() {
    assert_eq!(instrument_for("electric bass"), "Electric Bass");
    assert_eq!(instrument_for("BASS"), "Grand Piano");
}

#[test]
fn volumes_of_dynamics() {
    assert_eq!(volume(Dynamic::MezzoPiano), 45);
    assert_eq!(volume(Dynamic::MezzoForte), 55);
    assert_eq!(volume(Dynamic::Forte(2)), 70);
    assert_eq!(volume(Dynamic::Forte(9)), 100);
    assert_eq!(volume(Dynamic::Piano(1)), 40);
    assert_eq!(volume(Dynamic::Piano(7)), 5);
}

fn bpm_text(value: DurationType, dots: u8, bpm: u16) -> String {
    let mut s = String::new();
    push_bpm(&mut s, &quarter_tempo(&Tempo { base_note: Duration::new(value, dots), beats_per_minute: bpm }));
    s
}

#[test]
fn tempo_in_quarter_notes() {
    assert_eq!(bpm_text(DurationType::Quarter, 0, 87), "87");
    assert_eq!(bpm_text(DurationType::Quarter, 1, 87), "130.5");
    assert_eq!(bpm_text(DurationType::Half, 0, 60), "120");
    assert_eq!(bpm_text(DurationType::Eighth, 0, 90), "45");
    assert_eq!(bpm_text(DurationType::Eighth, 0, 91), "45.5");
    assert_eq!(bpm_text(DurationType::Sixteenth, 2, 100), "43.75");
    assert_eq!(bpm_text(DurationType::Whole, 0, 0), "0");
}

#[test]
fn block_texts() {
    let mut s = String::new();
    push_block(&mut s, &Block::ModOpen(set(true, false, true, false)));
    assert_eq!(
        s,
        "<block s=\"noteMod\"><list><l><option>Accent</option></l><l><option>TurnUpper</option></l></list><script>"
    );
    let mut s = String::new();
    push_block(&mut s, &Block::RepeatOpen(3));
    assert_eq!(s, "<block s=\"doRepeat\"><l>3</l><script>");
    let mut s = String::new();
    push_block(&mut s, &Block::Rest(vec![Token { value: DurationType::Whole, dots: 1 }; 2]));
    assert_eq!(
        s,
        "<block s=\"rest\"><block s=\"tieDuration\"><list><l>DottedWhole</l><l>DottedWhole</l></list></block></block>"
    );
    let mut s = String::new();
    push_block(&mut s, &Block::SetVolume(70));
    assert_eq!(s, "<block s=\"setVolume\"><l>70</l></block>");
}

#[test]
fn modifier_scopes_open_and_close_minimally() {
    let mut m = Modifiers::new();
    let mut out = Vec::new();
    m.set(set(true, false, false, false), &mut out);
    m.set(set(true, true, false, false), &mut out);
    m.set(set(true, true, false, false), &mut out);
    assert_eq!(m.depth(), 2);
    m.set(set(true, false, false, false), &mut out);
    assert_eq!(m.depth(), 1);
    assert_eq!(
        text(&out),
        format!(
            "{OPEN_ACCENT}<block s=\"noteMod\"><list><l><option>Staccato</option></l></list><script>{CLOSE}"
        )
    );
}

#[test]
fn modifier_scopes_balance_at_the_end() {
    let targets = [
        set(true, false, false, false),
        set(true, true, false, false),
        set(false, true, true, false),
        set(false, false, false, true),
        set(true, true, true, true),
        set(false, true, false, false),
    ];
    let mut m = Modifiers::new();
    let mut out = Vec::new();
    for t in targets {
        m.set(t, &mut out);
    }
    m.set(set(false, false, false, false), &mut out);
    let (opens, closes) = count(&out);
    assert_eq!(opens, closes);
    assert!(opens > 0);
    assert_eq!(m.depth(), 0);
}

#[test]
fn unwind_restores_the_recorded_depth() {
    let mut m = Modifiers::new();
    let mut out = Vec::new();
    m.set(set(true, false, false, false), &mut out);
    let point = m.unwind_point();
    m.set(set(true, true, false, false), &mut out);
    m.set(set(true, true, true, false), &mut out);
    assert_eq!(m.depth(), 3);
    let before = out.len();
    m.unwind_to(point, &mut out);
    assert_eq!(m.depth(), point);
    assert_eq!(out.len() - before, 2);
    assert!(out[before..].iter().all(|b| matches!(b, Block::Close)));
}

#[test]
fn chord_with_one_shared_duration() {
    let notes = vec![
        note(PitchName::C, 4, DurationType::Quarter, 0, vec![]),
        note(PitchName::E, 4, DurationType::Quarter, 0, vec![]),
    ];
    let mut m = Modifiers::new();
    let mut out = Vec::new();
    translate_chord(&notes, &vec![], &mut m, &mut out).unwrap();
    assert_eq!(out.len(), 1);
    match &out[0] {
        Block::Play(p, DurationArg::Shared(c)) => {
            assert_eq!(p.len(), 2);
            assert_eq!(c, &vec![Token { value: DurationType::Quarter, dots: 0 }]);
        }
        _ => panic!("expected a shared duration"),
    }
    assert_eq!(text(&out), "<block s=\"playNotes\"><l>Quarter</l><list><l>C4</l><l>E4</l></list></block>");
}

#[test]
fn chord_with_mixed_durations() {
    let mut sharp = note(PitchName::F, 3, DurationType::Eighth, 0, vec![]);
    sharp.accidental = Accidental::Sharp;
    let notes = vec![note(PitchName::C, 4, DurationType::Half, 0, vec![]), sharp];
    let mut m = Modifiers::new();
    let mut out = Vec::new();
    translate_chord(&notes, &vec![], &mut m, &mut out).unwrap();
    match &out[0] {
        Block::Play(p, DurationArg::Parallel(l)) => assert_eq!(p.len(), l.len()),
        _ => panic!("expected a parallel list"),
    }
    assert_eq!(
        text(&out),
        "<block s=\"playNotes\"><block s=\"reportNewList\"><list><l>Half</l><l>Eighth</l></list></block><list><l>C4</l><l>F3s</l></list></block>"
    );
}

#[test]
fn chord_padded_with_a_rest() {
    let notes = vec![
        note(PitchName::C, 4, DurationType::Half, 0, vec![]),
        note(PitchName::Rest, 0, DurationType::Eighth, 0, vec![]),
    ];
    let mut m = Modifiers::new();
    let mut out = Vec::new();
    translate_chord(&notes, &vec![], &mut m, &mut out).unwrap();
    assert_eq!(
        text(&out),
        "<block s=\"playNotes\"><block s=\"reportNewList\"><list><l>Half</l><l>Eighth</l></list></block><list><l>C4</l><l>rest</l></list></block>"
    );
}

#[test]
fn members_differing_in_dots_get_a_parallel_list() {
    let notes = vec![
        note(PitchName::C, 4, DurationType::Quarter, 1, vec![]),
        note(PitchName::D, 4, DurationType::Quarter, 0, vec![]),
    ];
    let mut m = Modifiers::new();
    let mut out = Vec::new();
    translate_chord(&notes, &vec![], &mut m, &mut out).unwrap();
    assert_eq!(
        text(&out),
        "<block s=\"playNotes\"><block s=\"reportNewList\"><list><l>DottedQuarter</l><l>Quarter</l></list></block><list><l>C4</l><l>D4</l></list></block>"
    );
}

#[test]
fn rests_only_make_a_rest_block() {
    let notes = vec![note(PitchName::Rest, 0, DurationType::Maxima, 0, vec![])];
    let mut m = Modifiers::new();
    let mut out = Vec::new();
    translate_chord(&notes, &vec![], &mut m, &mut out).unwrap();
    assert_eq!(
        text(&out),
        format!("<block s=\"rest\"><block s=\"tieDuration\"><list>{}</list></block></block>", "<l>Whole</l>".repeat(8))
    );
}

#[test]
fn grace_notes_keep_their_dynamics_only() {
    let notes = vec![
        note(PitchName::G, 5, DurationType::Sixteenth, 0, vec![Mark::Grace, Mark::Dynamic { dynamic: Dynamic::Forte(2) }]),
        note(PitchName::C, 4, DurationType::Quarter, 0, vec![]),
    ];
    let mut m = Modifiers::new();
    let mut out = Vec::new();
    translate_chord(&notes, &vec![], &mut m, &mut out).unwrap();
    assert_eq!(
        text(&out),
        "<block s=\"setVolume\"><l>70</l></block><block s=\"playNotes\"><l>Quarter</l><list><l>C4</l></list></block>"
    );
}

#[test]
fn only_grace_notes_emit_nothing_but_volume() {
    let notes = vec![note(PitchName::G, 5, DurationType::Eighth, 0, vec![Mark::Grace])];
    let mut m = Modifiers::new();
    let mut out = Vec::new();
    translate_chord(&notes, &vec![Mark::Dynamic { dynamic: Dynamic::MezzoPiano }], &mut m, &mut out).unwrap();
    assert_eq!(text(&out), "<block s=\"setVolume\"><l>45</l></block>");
}

#[test]
fn chord_marks_set_modifier_scopes() {
    let notes = vec![note(PitchName::A, 3, DurationType::Quarter, 0, vec![Mark::Turn { upper: false }])];
    let mut m = Modifiers::new();
    let mut out = Vec::new();
    translate_chord(&notes, &vec![Mark::Staccatissimo, Mark::SoftAccent, Mark::Other], &mut m, &mut out).unwrap();
    assert_eq!(
        text(&out),
        "<block s=\"noteMod\"><list><l><option>Accent</option></l><l><option>Staccato</option></l><l><option>TurnLower</option></l></list><script><block s=\"playNotes\"><l>Quarter</l><list><l>A3</l></list></block>"
    );
    assert_eq!(m.depth(), 1);
}

#[test]
fn unsupported_member_duration() {
    let notes = vec![
        note(PitchName::C, 4, DurationType::Quarter, 0, vec![]),
        note(PitchName::D, 4, DurationType::Quarter, 9, vec![]),
    ];
    let mut m = Modifiers::new();
    let mut out = Vec::new();
    assert_eq!(
        translate_chord(&notes, &vec![], &mut m, &mut out),
        Err(TranslateError::UnsupportedDuration { duration: Duration::new(DurationType::Quarter, 9) })
    );
}
