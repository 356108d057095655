//! The per-block emission queue and the block driver.
//!
//! The driver runs once per processing block: it drains the block's note
//! events, forwards unmapped notes immediately, queues the expansions of
//! mapped notes, and after the input is exhausted flushes the queue to the
//! sink in insertion order, leaving it empty for the next block.

use crate::event::MidiNoteEvent;
use crate::event::TranslationResult;
use crate::event::translate;
use crate::event::translation;
use crate::hotkey::HotkeyMap;
use crate::hotkey::Note;
use vstd::prelude::*;

verus! {

/// The FIFO queue of `queues` that buffers the expansions of one block.
#[verifier::external_type_specification]
#[verifier::external_body]
#[verifier::reject_recursive_types(T)]
pub struct ExQueue<T: Clone>(queues::Queue<T>);

/// The events a queue holds, oldest first.
pub uninterp spec fn queue_events(q: queues::Queue<MidiNoteEvent>) -> Seq<MidiNoteEvent>;

/// Relies on queues::Queue::new: a new queue holds nothing.
#[verifier::external_body]
fn queue_new() -> (q: queues::Queue<MidiNoteEvent>)
    ensures
        queue_events(q) == Seq::<MidiNoteEvent>::empty(),
{
    queues::Queue::new()
}

/// Relies on queues::Queue::add (IsQueue): appends the element at the back;
/// an unbounded queue accepts every element, returning `Ok(None)`.
#[verifier::external_body]
fn queue_add(q: &mut queues::Queue<MidiNoteEvent>, event: MidiNoteEvent)
    ensures
        queue_events(*final(q)) == queue_events(*old(q)).push(event),
{
    let _ = queues::IsQueue::add(q, event);
}

/// Relies on queues::Queue::remove (IsQueue): takes the oldest element out,
/// and errs exactly when the queue is empty.
#[verifier::external_body]
fn queue_remove(q: &mut queues::Queue<MidiNoteEvent>) -> (r: Option<MidiNoteEvent>)
    ensures
        queue_events(*old(q)).len() == 0 ==> r is None && *final(q) == *old(q),
        queue_events(*old(q)).len() > 0 ==> r == Some(queue_events(*old(q))[0])
            && queue_events(*final(q)) == queue_events(*old(q)).drop_first(),
{
    match queues::IsQueue::remove(q) {
        Ok(event) => Some(event),
        Err(_) => None,
    }
}

/// Relies on queues::Queue::size (IsQueue): the number of elements held.
#[verifier::external_body]
fn queue_size(q: &queues::Queue<MidiNoteEvent>) -> (n: usize)
    ensures
        n == queue_events(*q).len(),
{
    queues::IsQueue::size(q)
}

/// The events a block forwards unchanged, in arrival order: exactly the
/// unmapped ones.
pub open spec fn forwarded_events(m: Map<u8, Seq<Note>>, input: Seq<MidiNoteEvent>) -> Seq<
    MidiNoteEvent,
>
    decreases input.len(),
{
    if input.len() == 0 {
        Seq::<MidiNoteEvent>::empty()
    } else {
        forwarded_events(m, input.drop_last()) + match translation(m, input.last()) {
            None => seq![input.last()],
            Some(_) => Seq::<MidiNoteEvent>::empty(),
        }
    }
}

/// The events a block queues for the flush phase: the expansions of the
/// mapped events, concatenated in arrival order.
pub open spec fn expanded_events(m: Map<u8, Seq<Note>>, input: Seq<MidiNoteEvent>) -> Seq<
    MidiNoteEvent,
>
    decreases input.len(),
{
    if input.len() == 0 {
        Seq::<MidiNoteEvent>::empty()
    } else {
        expanded_events(m, input.drop_last()) + match translation(m, input.last()) {
            None => Seq::<MidiNoteEvent>::empty(),
            Some(outs) => outs,
        }
    }
}

/// Everything one block emits, in order: first the forwarded events,
/// interleaved with nothing else during the drain, then the queued
/// expansions flushed after the input is exhausted.
pub open spec fn block_output(m: Map<u8, Seq<Note>>, input: Seq<MidiNoteEvent>) -> Seq<
    MidiNoteEvent,
> {
    forwarded_events(m, input) + expanded_events(m, input)
}

/// The remapping engine: the table, fixed at construction, and the reusable
/// per-block emission queue, empty between blocks.
pub struct MidiHotkey {
    hotkey_map: HotkeyMap,
    event_queue: queues::Queue<MidiNoteEvent>,
}

impl MidiHotkey {
    /// The table the engine was built with.
    pub closed spec fn map_view(&self) -> Map<u8, Seq<Note>> {
        self.hotkey_map@
    }

    /// The events waiting in the emission queue, oldest first.
    pub closed spec fn queued(&self) -> Seq<MidiNoteEvent> {
        queue_events(self.event_queue)
    }

    /// A fresh engine over a table, its emission queue empty.
    pub fn new(hotkey_map: HotkeyMap) -> (r: MidiHotkey)
        ensures
            r.map_view() == hotkey_map@,
            r.queued() == Seq::<MidiNoteEvent>::empty(),
    {
        MidiHotkey { hotkey_map, event_queue: queue_new() }
    }

    /// The drain-phase step for one note event: an unmapped event comes back
    /// as `Some` for the caller to send at once, leaving the queue as it
    /// was; a mapped event's expansion is appended to the queue, in order,
    /// and nothing is returned.
    pub fn handle_event(&mut self, event: &MidiNoteEvent) -> (forwarded: Option<MidiNoteEvent>)
        ensures
            final(self).map_view() == old(self).map_view(),
            match translation(old(self).map_view(), *event) {
                None => {
                    &&& forwarded == Some(*event)
                    &&& final(self).queued() == old(self).queued()
                },
                Some(outs) => {
                    &&& forwarded is None
                    &&& final(self).queued() == old(self).queued() + outs
                },
            },
    {
        match translate(&self.hotkey_map, event) {
            TranslationResult::Forward => Some(*event),
            TranslationResult::Expand(events) => {
                let n = events.len();
                for i in 0..n
                    invariant
                        n == events@.len(),
                        self.hotkey_map == old(self).hotkey_map,
                        translation(old(self).map_view(), *event) == Some(events@),
                        self.queued() == old(self).queued() + events@.take(i as int),
                {
                    queue_add(&mut self.event_queue, events[i]);
                    proof {
                        assert(events@.take(i + 1).drop_last() =~= events@.take(i as int));
                        assert(self.queued() =~= old(self).queued() + events@.take(i + 1));
                    }
                }
                proof {
                    assert(events@.take(n as int) =~= events@);
                }
                None
            },
        }
    }

    /// The flush-phase: empties the queue and returns its events in
    /// insertion order, leaving the queue empty for the next block.
    pub fn flush(&mut self) -> (out: Vec<MidiNoteEvent>)
        ensures
            final(self).map_view() == old(self).map_view(),
            final(self).queued() == Seq::<MidiNoteEvent>::empty(),
            out@ == old(self).queued(),
    {
        let mut out: Vec<MidiNoteEvent> = Vec::new();
        while queue_size(&self.event_queue) > 0
            invariant
                self.hotkey_map == old(self).hotkey_map,
                out@ + self.queued() == old(self).queued(),
            decreases self.queued().len(),
        {
            match queue_remove(&mut self.event_queue) {
                Some(event) => {
                    out.push(event);
                    proof {
                        assert(out@ + self.queued() =~= old(self).queued());
                    }
                },
                None => {
                    proof {
                        assert(false);
                    }
                },
            }
        }
        proof {
            assert(out@ =~= old(self).queued());
        }
        out
    }

    /// The block driver, once per processing block over the block's note
    /// events in arrival order: unmapped events go to the output at once,
    /// mapped events queue their expansions, and after the last input event
    /// the queue is flushed behind the forwarded events and left empty.
    pub fn process(&mut self, input: &Vec<MidiNoteEvent>) -> (out: Vec<MidiNoteEvent>)
        requires
            old(self).queued() == Seq::<MidiNoteEvent>::empty(),
        ensures
            final(self).map_view() == old(self).map_view(),
            final(self).queued() == Seq::<MidiNoteEvent>::empty(),
            out@ == block_output(old(self).map_view(), input@),
    {
        let mut out: Vec<MidiNoteEvent> = Vec::new();
        let n = input.len();
        for i in 0..n
            invariant
                n == input@.len(),
                self.map_view() == old(self).map_view(),
                out@ == forwarded_events(old(self).map_view(), input@.take(i as int)),
                self.queued() == expanded_events(old(self).map_view(), input@.take(i as int)),
        {
            let ghost prefix = input@.take(i as int);
            match self.handle_event(&input[i]) {
                Some(event) => out.push(event),
                None => {},
            }
            proof {
                assert(input@.take(i + 1).drop_last() =~= prefix);
                assert(input@.take(i + 1).last() == input@[i as int]);
                assert(out@ =~= forwarded_events(old(self).map_view(), input@.take(i + 1)));
                assert(self.queued() =~= expanded_events(old(self).map_view(), input@.take(i + 1)));
            }
        }
        proof {
            assert(input@.take(n as int) =~= input@);
        }
        let mut flushed = self.flush();
        out.append(&mut flushed);
        out
    }
}

/// Law: a block none of whose notes is mapped passes its input through
/// unchanged and in arrival order — the queue gathers nothing, so the flush
/// phase emits nothing and nothing can leak into the next block.
pub proof fn lemma_unmapped_block_passes_through(m: Map<u8, Seq<Note>>, input: Seq<MidiNoteEvent>)
    requires
        forall|i: int| 0 <= i < input.len() ==> !m.contains_key(#[trigger] input[i].note),
    ensures
        forwarded_events(m, input) == input,
        expanded_events(m, input) == Seq::<MidiNoteEvent>::empty(),
        block_output(m, input) == input,
    decreases input.len(),
{
    if input.len() == 0 {
        assert(forwarded_events(m, input) =~= input);
        assert(block_output(m, input) =~= input);
    } else {
        lemma_unmapped_block_passes_through(m, input.drop_last());
        assert(!m.contains_key(input[input.len() - 1].note));
        assert(forwarded_events(m, input) =~= input);
        assert(expanded_events(m, input) =~= Seq::<MidiNoteEvent>::empty());
        assert(block_output(m, input) =~= input);
    }
}

} // verus!
