//! Note events and the event translator: one incoming note event becomes
//! either a passthrough or an ordered fan-out of generated events.

use crate::hotkey::HotkeyMap;
use crate::hotkey::Note;
use vstd::prelude::*;

verus! {

/// Whether a note event starts or ends a note.
#[derive(Clone, Copy, PartialEq, Eq, Structural, Debug)]
pub enum MidiEventType {
    NoteOn,
    NoteOff,
}

/// A plain note event: the payload of a note-on or note-off, detached from
/// any host representation.
///
/// `timing` is the sample offset within the current processing block;
/// `voice_id` is the host's optional voice correlation identifier; both are
/// copied unchanged onto every event a trigger generates. `velocity` carries
/// the bit pattern of the host's 32-bit float velocity; the engine never
/// interprets it.
#[derive(Clone, Copy, PartialEq, Eq, Structural, Debug)]
pub struct MidiNoteEvent {
    pub event_type: MidiEventType,
    pub timing: u32,
    pub voice_id: Option<i32>,
    pub channel: u8,
    pub note: u8,
    pub velocity: u32,
}

/// What the translator decided for one incoming note event.
#[derive(Debug)]
pub enum TranslationResult {
    /// No mapping exists: the caller must re-emit the original event
    /// unchanged.
    Forward,
    /// A mapping exists: the caller must emit exactly these events, in this
    /// order, in place of the input event.
    Expand(Vec<MidiNoteEvent>),
}

/// The event generated for one output note of a matched entry: note number
/// and velocity come from the output note, every other field from the input
/// event. A note-off expansion forces the velocity to zero (the bit pattern
/// of the float 0.0), whatever the output note or the input event carried.
pub open spec fn output_event(input: MidiNoteEvent, out: Note) -> MidiNoteEvent {
    MidiNoteEvent {
        event_type: input.event_type,
        timing: input.timing,
        voice_id: input.voice_id,
        channel: input.channel,
        note: out.note,
        velocity: if input.event_type is NoteOn {
            out.velocity
        } else {
            0
        },
    }
}

/// The ordered fan-out of one input event over an entry's output list.
pub open spec fn expansion(input: MidiNoteEvent, outputs: Seq<Note>) -> Seq<MidiNoteEvent> {
    outputs.map(|i: int, out: Note| output_event(input, out))
}

/// What translation yields for one event against a table: `None` means the
/// event is unmapped and passes through unchanged, `Some` gives the exact
/// sequence of generated events.
pub open spec fn translation(m: Map<u8, Seq<Note>>, input: MidiNoteEvent) -> Option<
    Seq<MidiNoteEvent>,
> {
    if m.contains_key(input.note) {
        Some(expansion(input, m[input.note]))
    } else {
        None
    }
}

/// The event translator: looks the event's note up in the table and builds
/// the fan-out. Yields `Forward` exactly when the note has no entry; on a
/// match, yields the entry's outputs in order, each copying `timing`,
/// `voice_id` and `channel` from the input and substituting note and
/// velocity from the output note (velocity forced to zero for a note-off).
pub fn translate(map: &HotkeyMap, event: &MidiNoteEvent) -> (r: TranslationResult)
    ensures
        match r {
            TranslationResult::Forward => translation(map@, *event) is None,
            TranslationResult::Expand(events) => translation(map@, *event) == Some(events@),
        },
{
    match map.lookup(event.note) {
        None => TranslationResult::Forward,
        Some(entry) => {
            let n = entry.outputs.len();
            let mut events: Vec<MidiNoteEvent> = Vec::new();
            for i in 0..n
                invariant
                    n == entry.outputs.len(),
                    map@.contains_key(event.note),
                    entry@ == map@[event.note],
                    events@.len() == i,
                    forall|j: int|
                        0 <= j < i ==> events@[j] == output_event(*event, entry.outputs@[j]),
            {
                let out = entry.outputs[i];
                let velocity: u32 = match event.event_type {
                    MidiEventType::NoteOn => out.velocity,
                    MidiEventType::NoteOff => 0,
                };
                events.push(
                    MidiNoteEvent {
                        event_type: event.event_type,
                        timing: event.timing,
                        voice_id: event.voice_id,
                        channel: event.channel,
                        note: out.note,
                        velocity,
                    },
                );
            }
            proof {
                assert(events@ =~= expansion(*event, map@[event.note]));
            }
            TranslationResult::Expand(events)
        },
    }
}

/// Law: an event whose note has no entry in the table translates to a
/// passthrough — nothing is generated, and the caller re-emits the input
/// event itself, every field as it arrived.
pub proof fn lemma_unmapped_forwards(m: Map<u8, Seq<Note>>, input: MidiNoteEvent)
    requires
        !m.contains_key(input.note),
    ensures
        translation(m, input) is None,
{
}

/// Law: a note-on whose note is mapped to the two output notes `a`, `b`
/// expands into exactly two note-ons, in that order, each copying timing,
/// voice and channel from the input and taking its note number and velocity
/// from its output note.
pub proof fn lemma_note_on_pair_expansion(
    m: Map<u8, Seq<Note>>,
    input: MidiNoteEvent,
    a: Note,
    b: Note,
)
    requires
        input.event_type is NoteOn,
        m.contains_key(input.note),
        m[input.note] == seq![a, b],
    ensures
        translation(m, input) == Some(
            seq![
                MidiNoteEvent { note: a.note, velocity: a.velocity, ..input },
                MidiNoteEvent { note: b.note, velocity: b.velocity, ..input },
            ],
        ),
{
    assert(expansion(input, m[input.note]) =~= seq![
        MidiNoteEvent { note: a.note, velocity: a.velocity, ..input },
        MidiNoteEvent { note: b.note, velocity: b.velocity, ..input },
    ]);
}

/// Law: a note-off whose note is mapped to the two output notes `a`, `b`
/// expands into exactly two note-offs, in that order, both with their
/// velocity forced to zero, whatever velocity the output notes or the input
/// event carried.
pub proof fn lemma_note_off_pair_expansion(
    m: Map<u8, Seq<Note>>,
    input: MidiNoteEvent,
    a: Note,
    b: Note,
)
    requires
        input.event_type is NoteOff,
        m.contains_key(input.note),
        m[input.note] == seq![a, b],
    ensures
        translation(m, input) == Some(
            seq![
                MidiNoteEvent { note: a.note, velocity: 0, ..input },
                MidiNoteEvent { note: b.note, velocity: 0, ..input },
            ],
        ),
{
    assert(expansion(input, m[input.note]) =~= seq![
        MidiNoteEvent { note: a.note, velocity: 0, ..input },
        MidiNoteEvent { note: b.note, velocity: 0, ..input },
    ]);
}

/// Law: a note mapped to an empty output list is absorbed — the translation
/// is an expansion of zero events, so the input event causes no emission at
/// all.
pub proof fn lemma_empty_entry_absorbs(m: Map<u8, Seq<Note>>, input: MidiNoteEvent)
    requires
        m.contains_key(input.note),
        m[input.note] == Seq::<Note>::empty(),
    ensures
        translation(m, input) == Some(Seq::<MidiNoteEvent>::empty()),
{
    assert(expansion(input, m[input.note]) =~= Seq::<MidiNoteEvent>::empty());
}

} // verus!
