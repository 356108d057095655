use midi_hotkey::engine::MidiHotkey;
use midi_hotkey::event::translate;
use midi_hotkey::event::MidiEventType;
use midi_hotkey::event::MidiNoteEvent;
use midi_hotkey::event::TranslationResult;
use midi_hotkey::hotkey::HotkeyEntry;
use midi_hotkey::hotkey::HotkeyMap;
use midi_hotkey::hotkey::Note;

fn entry(outputs: &[(u8, f32)]) -> HotkeyEntry {
    HotkeyEntry {
        outputs: outputs
            .iter()
            .map(|&(note, velocity)| Note {
                note,
                velocity: velocity.to_bits(),
            })
            .collect(),
    }
}

fn table(entries: &[(u8, &[(u8, f32)])]) -> HotkeyMap {
    let pairs: Vec<(u8, HotkeyEntry)> = entries
        .iter()
        .map(|&(trigger, outputs)| (trigger, entry(outputs)))
        .collect();
    HotkeyMap::from_entries(&pairs)
}

fn note_on(note: u8, timing: u32, velocity: f32) -> MidiNoteEvent {
    MidiNoteEvent {
        event_type: MidiEventType::NoteOn,
        timing,
        voice_id: Some(7),
        channel: 4,
        note,
        velocity: velocity.to_bits(),
    }
}

fn note_off(note: u8, timing: u32, velocity: f32) -> MidiNoteEvent {
    MidiNoteEvent {
        event_type: MidiEventType::NoteOff,
        timing,
        voice_id: Some(7),
        channel: 4,
        note,
        velocity: velocity.to_bits(),
    }
}

#[test]
fn translate_unmapped_is_forward() {
    let map = table(&[(60, &[(62, 0.8)])]);
    let input = note_on(61, 5, 0.5);
    assert!(matches!(translate(&map, &input), TranslationResult::Forward));

    let empty_map = table(&[]);
    assert!(matches!(
        translate(&empty_map, &input),
        TranslationResult::Forward
    ));
}

#[test]
fn translate_note_on_pair_copies_fields() {
    let map = table(&[(60, &[(62, 0.8), (64, 0.3)])]);
    let input = note_on(60, 17, 0.5);
    match translate(&map, &input) {
        TranslationResult::Expand(events) => {
            assert_eq!(events.len(), 2);
            assert_eq!(events[0], note_on(62, 17, 0.8));
            assert_eq!(events[1], note_on(64, 17, 0.3));
        }
        TranslationResult::Forward => panic!("mapped note must expand"),
    }
}

#[test]
fn translate_note_off_forces_zero_velocity() {
    let map = table(&[(60, &[(62, 0.8), (64, 0.3)])]);
    let input = note_off(60, 9, 0.77);
    match translate(&map, &input) {
        TranslationResult::Expand(events) => {
            assert_eq!(events.len(), 2);
            assert_eq!(events[0], note_off(62, 9, 0.0));
            assert_eq!(events[1], note_off(64, 9, 0.0));
            assert_eq!(events[0].velocity, 0u32);
            assert_eq!(events[1].velocity, 0u32);
        }
        TranslationResult::Forward => panic!("mapped note must expand"),
    }
}

#[test]
fn empty_entry_absorbs_event() {
    let map = table(&[(60, &[])]);
    let input = note_on(60, 0, 1.0);
    match translate(&map, &input) {
        TranslationResult::Expand(events) => assert!(events.is_empty()),
        TranslationResult::Forward => panic!("mapped note must expand"),
    }
}

#[test]
fn self_mapping_expands_once() {
    let map = table(&[(60, &[(60, 0.6)])]);
    let input = note_on(60, 0, 1.0);
    match translate(&map, &input) {
        TranslationResult::Expand(events) => {
            assert_eq!(events.len(), 1);
            assert_eq!(events[0], note_on(60, 0, 0.6));
        }
        TranslationResult::Forward => panic!("mapped note must expand"),
    }
}

#[test]
fn block_forwards_interleave_before_flush() {
    let map = table(&[(60, &[(62, 0.8), (64, 0.8)])]);
    let mut engine = MidiHotkey::new(map);
    let input = vec![note_on(60, 0, 1.0), note_on(61, 5, 1.0)];
    let out = engine.process(&input);
    assert_eq!(
        out,
        vec![
            note_on(61, 5, 1.0),
            note_on(62, 0, 0.8),
            note_on(64, 0, 0.8),
        ]
    );
}

#[test]
fn blocks_do_not_leak_queued_events() {
    let map = table(&[(60, &[(62, 0.8)])]);
    let mut engine = MidiHotkey::new(map);

    let first = vec![note_on(60, 0, 1.0)];
    let out_first = engine.process(&first);
    assert_eq!(out_first, vec![note_on(62, 0, 0.8)]);

    // Nothing queued in the first block may reappear: a block with no
    // matches emits exactly its own input.
    let second = vec![note_on(61, 3, 0.9), note_off(61, 8, 0.2)];
    let out_second = engine.process(&second);
    assert_eq!(out_second, second);

    let empty: Vec<MidiNoteEvent> = Vec::new();
    let out_third = engine.process(&empty);
    assert!(out_third.is_empty());
}

#[test]
fn fan_out_keeps_per_event_and_cross_event_order() {
    let map = table(&[(60, &[(62, 0.1), (63, 0.2)]), (70, &[(72, 0.3), (73, 0.4)])]);
    let mut engine = MidiHotkey::new(map);
    let input = vec![note_on(60, 0, 1.0), note_on(70, 1, 1.0)];
    let out = engine.process(&input);
    assert_eq!(
        out,
        vec![
            note_on(62, 0, 0.1),
            note_on(63, 0, 0.2),
            note_on(72, 1, 0.3),
            note_on(73, 1, 0.4),
        ]
    );
}

#[test]
fn handle_event_forwards_unmapped_and_queues_mapped() {
    let map = table(&[(60, &[(62, 0.8)])]);
    let mut engine = MidiHotkey::new(map);

    let unmapped = note_on(61, 2, 0.4);
    assert_eq!(engine.handle_event(&unmapped), Some(unmapped));

    let mapped = note_on(60, 3, 0.4);
    assert_eq!(engine.handle_event(&mapped), None);

    let flushed = engine.flush();
    assert_eq!(flushed, vec![note_on(62, 3, 0.8)]);

    let flushed_again = engine.flush();
    assert!(flushed_again.is_empty());
}

#[test]
fn voice_id_absence_is_preserved() {
    let map = table(&[(60, &[(62, 0.8)])]);
    let mut input = note_on(60, 0, 1.0);
    input.voice_id = None;
    match translate(&map, &input) {
        TranslationResult::Expand(events) => {
            assert_eq!(events.len(), 1);
            assert_eq!(events[0].voice_id, None);
        }
        TranslationResult::Forward => panic!("mapped note must expand"),
    }
}
