use amm_sdk_netsblox::{
    notes_string, translate, Accidental, Chord, Duration, DurationType, Item, Key, KeyMode, KeySignature, Mark,
    Note, Part, Phrase, PhraseMod, Pitch, PitchName, Score, Section, SectionItem, SectionMod, Staff, Tempo,
    TranslateError,
};

fn empty_score() -> Score {
    Score {
        title: "untitled".to_string(),
        composers: vec![],
        lyricists: vec![],
        arrangers: vec![],
        publisher: None,
        copyright: None,
        tempo: Tempo { base_note: Duration::new(DurationType::Quarter, 0), beats_per_minute: 120 },
        key: Key { signature: KeySignature::C, mode: KeyMode::Major },
        time_signature: "4/4".to_string(),
        parts: vec![],
        sections: vec![],
        staves: vec![],
        phrases: vec![],
    }
}

fn note(name: PitchName, octave: u8, value: DurationType, marks: Vec<Mark>) -> Note {
    Note { pitch: Pitch::new(name, octave), duration: Duration::new(value, 0), accidental: Accidental::Unmarked, marks }
}

fn section(name: &str, mods: Vec<SectionMod>, items: Vec<SectionItem>) -> Section {
    Section { name: name.to_string(), mods, items }
}

/// A score with one part whose top-level sections each hold one staff.
fn one_part(part: &str, sections: Vec<(&str, Vec<SectionMod>, Vec<Item>)>) -> Score {
    let mut score = empty_score();
    let mut ids = vec![];
    for (i, (name, mods, items)) in sections.into_iter().enumerate() {
        score.staves.push(Staff { items });
        score.sections.push(section(name, mods, vec![SectionItem::Staff(i)]));
        ids.push(i);
    }
    score.parts.push(Part { name: part.to_string(), sections: ids });
    score
}

/// The text of each registered block body, in order, with its name.
fn definitions(doc: &str) -> Vec<(String, String)> {
    let mut out = vec![];
    let mut rest = doc;
    while let Some(at) = rest.find("<block-definition s=\"") {
        rest = &rest[at + "<block-definition s=\"".len()..];
        let name_end = rest.find('"').unwrap();
        let name = rest[..name_end].to_string();
        let body_start = rest.find("<script>").unwrap() + "<script>".len();
        let body_end = rest.find("</script></block-definition>").unwrap();
        out.push((name, rest[body_start..body_end].to_string()));
        rest = &rest[body_end..];
    }
    out
}

fn play(pitch: &str, dur: &str) -> String {
    format!("<block s=\"playNotes\"><l>{dur}</l><list><l>{pitch}</l></list></block>")
}

const CLOSE: &str = "</script></block>";

#[test]
fn rest_in_an_electric_bass_part() {
    let score = one_part(
        "Electric Bass Intro",
        vec![("sec0", vec![], vec![Item::Note(note(PitchName::Rest, 0, DurationType::Quarter, vec![]))])],
    );
    let doc = translate(&score).unwrap();
    let notes = "title: untitled&#xD;composers: N/A&#xD;lyricists: N/A&#xD;arrangers: N/A&#xD;publisher: N/A&#xD;copyright: N/A&#xD;&#xD;tempo: 120&#xD;time signature: 4/4&#xD;key: CMajor";
    let expected = [
        "<room name=\"untitled\"><role name=\"myRole\"><project name=\"myRole\"><notes>",
        notes,
        "</notes><stage name=\"Stage\" width=\"480\" height=\"360\" costume=\"0\" color=\"255,255,255,1\" tempo=\"120\" threadsafe=\"false\" penlog=\"false\" volume=\"100\" pan=\"0\" lines=\"round\" ternary=\"false\" hyperops=\"true\" codify=\"false\" inheritance=\"false\" sublistIDs=\"false\" scheduled=\"false\"><costumes><list struct=\"atomic\"></list></costumes><sounds><list struct=\"atomic\"></list></sounds><variables></variables><blocks></blocks><messageTypes><messageType><name>message</name><fields><field>msg</field></fields></messageType></messageTypes><scripts></scripts><sprites>",
        "<sprite name=\"Electric Bass Intro\" x=\"0\" y=\"0\" heading=\"90\" scale=\"1\" volume=\"100\" pan=\"0\" rotation=\"1\" draggable=\"true\" costume=\"0\" color=\"80,80,80,1\" pen=\"tip\"><costumes><list struct=\"atomic\"></list></costumes><sounds><list struct=\"atomic\"></list></sounds><blocks></blocks><variables></variables><scripts>",
        "<script x=\"0\" y=\"0\"><block s=\"receiveGo\"></block><block s=\"setInstrument\"><l>Electric Bass</l></block><block s=\"setBPM\"><l>120</l></block><block s=\"setKey\"><l>CMajor</l></block><custom-block s=\"sec0\"></custom-block></script>",
        "</scripts></sprite></sprites></stage><blocks>",
        "<block-definition s=\"sec0\" type=\"command\" category=\"custom\"><header></header><code></code><translations></translations><inputs></inputs><script><block s=\"rest\"><l>Quarter</l></block></script></block-definition>",
        "</blocks><variables></variables></project><media name=\"myRole\"></media></role></room>",
    ]
    .concat();
    assert_eq!(doc, expected);
    assert_eq!(doc.matches("<block s=\"rest\">").count(), 1);
    assert!(!doc.contains("noteMod"));
    assert!(!doc.contains("doRepeat"));
}

#[test]
fn repeat_wraps_the_staff() {
    let score = one_part(
        "part0",
        vec![(
            "sec0",
            vec![SectionMod::Repeat { num_times: 2 }],
            vec![
                Item::Note(note(PitchName::C, 4, DurationType::Quarter, vec![])),
                Item::Note(note(PitchName::D, 4, DurationType::Half, vec![])),
            ],
        )],
    );
    let doc = translate(&score).unwrap();
    let defs = definitions(&doc);
    assert_eq!(
        defs,
        vec![(
            "sec0".to_string(),
            format!("<block s=\"doRepeat\"><l>3</l><script>{}{}{CLOSE}", play("C4", "Quarter"), play("D4", "Half"))
        )]
    );
}

#[test]
fn repeats_add_up_and_zero_adds_nothing() {
    let mut score = empty_score();
    score.staves.push(Staff { items: vec![Item::Note(note(PitchName::E, 2, DurationType::Whole, vec![]))] });
    score.sections.push(section("sec1", vec![SectionMod::Repeat { num_times: 0 }], vec![SectionItem::Staff(0)]));
    score.sections.push(section(
        "sec2",
        vec![SectionMod::Repeat { num_times: 1 }, SectionMod::Other, SectionMod::Repeat { num_times: 2 }],
        vec![SectionItem::Staff(0)],
    ));
    score.sections.push(section("sec0", vec![], vec![SectionItem::Section(0), SectionItem::Section(1)]));
    score.parts.push(Part { name: "part0".to_string(), sections: vec![2] });
    let doc = translate(&score).unwrap();
    let p = play("E2", "Whole");
    assert_eq!(definitions(&doc), vec![("sec0".to_string(), format!("{p}<block s=\"doRepeat\"><l>4</l><script>{p}{CLOSE}"))]);
}

#[test]
fn triplet_with_accented_middle_note() {
    let mut score = one_part("part0", vec![("sec0", vec![], vec![Item::Phrase(0)])]);
    score.phrases.push(Phrase {
        mods: vec![PhraseMod::Tuplet { num_beats: 3, into_beats: 2 }],
        items: vec![
            Item::Note(note(PitchName::C, 4, DurationType::Quarter, vec![])),
            Item::Note(note(PitchName::D, 4, DurationType::Quarter, vec![Mark::Accent])),
            Item::Note(note(PitchName::E, 4, DurationType::Quarter, vec![])),
        ],
    });
    let doc = translate(&score).unwrap();
    let body = [
        "<block s=\"noteMod\"><list><l><option>Triplet</option></l></list><script>".to_string(),
        play("C4", "Quarter"),
        "<block s=\"noteMod\"><list><l><option>Accent</option></l></list><script>".to_string(),
        play("D4", "Quarter"),
        CLOSE.to_string(),
        play("E4", "Quarter"),
        CLOSE.to_string(),
    ]
    .concat();
    assert_eq!(definitions(&doc), vec![("sec0".to_string(), body)]);
}

#[test]
fn tuplet_closes_scopes_left_open_inside() {
    let mut score = one_part(
        "part0",
        vec![(
            "sec0",
            vec![],
            vec![
                Item::Note(note(PitchName::B, 3, DurationType::Quarter, vec![Mark::Staccato])),
                Item::Phrase(0),
                Item::Note(note(PitchName::B, 3, DurationType::Quarter, vec![Mark::Staccato])),
            ],
        )],
    );
    score.phrases.push(Phrase {
        mods: vec![PhraseMod::Tuplet { num_beats: 6, into_beats: 4 }],
        items: vec![Item::Note(note(PitchName::A, 3, DurationType::Eighth, vec![Mark::Staccato, Mark::Accent]))],
    });
    let doc = translate(&score).unwrap();
    let stacc = "<block s=\"noteMod\"><list><l><option>Staccato</option></l></list><script>";
    let both = "<block s=\"noteMod\"><list><l><option>Accent</option></l><l><option>Staccato</option></l></list><script>";
    let body = [
        stacc,
        &play("B3", "Quarter"),
        CLOSE,
        "<block s=\"noteMod\"><list><l><option>Sextuplet</option></l></list><script>",
        both,
        &play("A3", "Eighth"),
        CLOSE,
        CLOSE,
        stacc,
        &play("B3", "Quarter"),
        CLOSE,
    ]
    .concat();
    assert_eq!(definitions(&doc), vec![("sec0".to_string(), body)]);
}

#[test]
fn sections_with_the_same_name_get_numbered() {
    let rest = || vec![Item::Note(note(PitchName::Rest, 0, DurationType::Half, vec![]))];
    let score = one_part("part0", vec![("verse", vec![], rest()), ("verse", vec![], rest()), ("verse", vec![], rest())]);
    let doc = translate(&score).unwrap();
    let names: Vec<String> = definitions(&doc).into_iter().map(|(n, _)| n).collect();
    assert_eq!(names, vec!["verse", "verse 2", "verse 3"]);
    let first = doc.find("<custom-block s=\"verse\"></custom-block>").unwrap();
    let second = doc.find("<custom-block s=\"verse 2\"></custom-block>").unwrap();
    assert!(first < second);
    assert!(doc.contains("<script x=\"300\" y=\"0\">"));
    assert!(doc.contains("<script x=\"600\" y=\"0\">"));
}

#[test]
fn names_are_unique_across_parts() {
    let mut score = one_part("part0", vec![("intro", vec![], vec![])]);
    score.sections.push(section("intro", vec![], vec![]));
    score.parts.push(Part { name: "part1".to_string(), sections: vec![1] });
    let doc = translate(&score).unwrap();
    let names: Vec<String> = definitions(&doc).into_iter().map(|(n, _)| n).collect();
    assert_eq!(names, vec!["intro", "intro 2"]);
    assert_eq!(doc.matches("<sprite ").count(), 2);
}

#[test]
fn section_containing_itself_is_cyclic() {
    let mut score = empty_score();
    score.sections.push(section("loop", vec![], vec![SectionItem::Section(0)]));
    score.parts.push(Part { name: "part0".to_string(), sections: vec![0] });
    assert_eq!(translate(&score), Err(TranslateError::CyclicStructure));
}

#[test]
fn phrase_containing_itself_is_cyclic() {
    let mut score = one_part("part0", vec![("sec0", vec![], vec![Item::Phrase(0)])]);
    score.phrases.push(Phrase { mods: vec![], items: vec![Item::Phrase(0)] });
    assert_eq!(translate(&score), Err(TranslateError::CyclicStructure));
}

#[test]
fn indirect_section_cycle() {
    let mut score = empty_score();
    score.sections.push(section("a", vec![], vec![SectionItem::Section(1)]));
    score.sections.push(section("b", vec![], vec![SectionItem::Section(0)]));
    score.parts.push(Part { name: "part0".to_string(), sections: vec![0] });
    assert_eq!(translate(&score), Err(TranslateError::CyclicStructure));
}

#[test]
fn shared_staff_is_not_a_cycle() {
    let mut score = empty_score();
    score.staves.push(Staff { items: vec![Item::Note(note(PitchName::C, 4, DurationType::Quarter, vec![]))] });
    score.sections.push(section("sec0", vec![], vec![SectionItem::Staff(0), SectionItem::Staff(0)]));
    score.parts.push(Part { name: "part0".to_string(), sections: vec![0, 0] });
    let doc = translate(&score).unwrap();
    let p = play("C4", "Quarter");
    assert_eq!(
        definitions(&doc),
        vec![("sec0".to_string(), format!("{p}{p}")), ("sec0 2".to_string(), format!("{p}{p}"))]
    );
}

#[test]
fn unsupported_duration_stops_translation() {
    let score = one_part(
        "part0",
        vec![("sec0", vec![], vec![Item::Note(note(PitchName::C, 4, DurationType::TwoHundredFiftySixth, vec![]))])],
    );
    assert_eq!(
        translate(&score),
        Err(TranslateError::UnsupportedDuration { duration: Duration::new(DurationType::TwoHundredFiftySixth, 0) })
    );
}

#[test]
fn unsupported_tuplet_stops_translation() {
    let mut score = one_part("part0", vec![("sec0", vec![], vec![Item::Phrase(0)])]);
    score.phrases.push(Phrase { mods: vec![PhraseMod::Tuplet { num_beats: 4, into_beats: 3 }], items: vec![] });
    assert_eq!(translate(&score), Err(TranslateError::UnsupportedTuplet { num_beats: 4, into_beats: 3 }));
}

#[test]
fn tempo_and_key_changes() {
    let score = one_part(
        "part0",
        vec![(
            "sec0",
            vec![
                SectionMod::TempoExplicit {
                    tempo: Tempo { base_note: Duration::new(DurationType::Quarter, 1), beats_per_minute: 87 },
                },
                SectionMod::TempoImplicit { bpm: 114 },
            ],
            vec![Item::KeyChange(Key { signature: KeySignature::DFlat, mode: KeyMode::Minor }), Item::Direction, Item::MultiVoice],
        )],
    );
    let doc = translate(&score).unwrap();
    assert_eq!(
        definitions(&doc),
        vec![(
            "sec0".to_string(),
            "<block s=\"setBPM\"><l>130.5</l></block><block s=\"setBPM\"><l>114</l></block><block s=\"setKey\"><l>DFlatMinor</l></block>"
                .to_string()
        )]
    );
}

#[test]
fn scopes_are_closed_at_the_end_of_each_section() {
    let score = one_part(
        "part0",
        vec![("sec0", vec![], vec![Item::Chord(Chord {
            marks: vec![Mark::Accent],
            notes: vec![note(PitchName::C, 4, DurationType::Quarter, vec![]), note(PitchName::E, 4, DurationType::Quarter, vec![])],
        })])],
    );
    let doc = translate(&score).unwrap();
    assert_eq!(
        definitions(&doc),
        vec![(
            "sec0".to_string(),
            format!(
                "<block s=\"noteMod\"><list><l><option>Accent</option></l></list><script><block s=\"playNotes\"><l>Quarter</l><list><l>C4</l><l>E4</l></list></block>{CLOSE}"
            )
        )]
    );
}

#[test]
fn notes_and_names_are_escaped() {
    let mut score = one_part("Drums & <Bass>", vec![("a\"b", vec![], vec![])]);
    score.title = "Tom's \"Song\"".to_string();
    score.composers = vec!["A".to_string(), "B".to_string()];
    score.copyright = Some("Original Music Do Not Steal (2024)".to_string());
    let notes = notes_string(&score);
    assert_eq!(
        notes,
        "title: Tom's \"Song\"\ncomposers: A, B\nlyricists: N/A\narrangers: N/A\npublisher: N/A\ncopyright: Original Music Do Not Steal (2024)\n\ntempo: 120\ntime signature: 4/4\nkey: CMajor"
    );
    let doc = translate(&score).unwrap();
    assert!(doc.starts_with("<room name=\"Tom&apos;s &quot;Song&quot;\">"));
    assert!(doc.contains("<sprite name=\"Drums &amp; &lt;Bass&gt;\""));
    assert!(doc.contains("<custom-block s=\"a&quot;b\"></custom-block>"));
    assert!(doc.contains("<block-definition s=\"a&quot;b\""));
    assert!(doc.contains("composers: A, B&#xD;"));
}

#[test]
fn well_formedness_is_checked() {
    let mut score = one_part("part0", vec![("sec0", vec![], vec![Item::Phrase(0)])]);
    assert!(!score.is_well_formed());
    score.phrases.push(Phrase { mods: vec![], items: vec![] });
    assert!(score.is_well_formed());
    score.parts[0].sections.push(7);
    assert!(!score.is_well_formed());
}

#[test]
fn every_body_is_balanced() {
    let mut score = empty_score();
    score.phrases.push(Phrase {
        mods: vec![PhraseMod::Tuplet { num_beats: 5, into_beats: 4 }],
        items: vec![
            Item::Note(note(PitchName::C, 4, DurationType::Eighth, vec![Mark::Staccato])),
            Item::Phrase(1),
            Item::Note(note(PitchName::D, 4, DurationType::Eighth, vec![Mark::Turn { upper: true }])),
        ],
    });
    score.phrases.push(Phrase {
        mods: vec![PhraseMod::Tuplet { num_beats: 3, into_beats: 2 }],
        items: vec![Item::Note(note(PitchName::E, 4, DurationType::Sixteenth, vec![Mark::Accent]))],
    });
    score.staves.push(Staff {
        items: vec![
            Item::Note(note(PitchName::G, 3, DurationType::Quarter, vec![Mark::Accent])),
            Item::Phrase(0),
            Item::Note(note(PitchName::A, 3, DurationType::Quarter, vec![Mark::Accent, Mark::Staccato])),
        ],
    });
    score.sections.push(section("inner", vec![SectionMod::Repeat { num_times: 1 }], vec![SectionItem::Staff(0)]));
    score.sections.push(section("outer", vec![SectionMod::Repeat { num_times: 3 }], vec![SectionItem::Staff(0), SectionItem::Section(0)]));
    score.parts.push(Part { name: "part0".to_string(), sections: vec![1, 0] });
    let doc = translate(&score).unwrap();
    let defs = definitions(&doc);
    assert_eq!(defs.len(), 2);
    for (_, body) in defs {
        let mut depth: i64 = 0;
        let mut i = 0;
        while i < body.len() {
            if body[i..].starts_with("<script>") {
                depth += 1;
            } else if body[i..].starts_with("</script>") {
                depth -= 1;
                assert!(depth >= 0);
            }
            i += 1;
        }
        assert_eq!(depth, 0);
    }
}
