//! MIDI control-change decoding and edge detection.
//!
//! `MidiMessage::new` turns a raw byte buffer into a normalized control-change
//! event; everything that is not a complete control-change message is dropped.
//! `MidiHandler` is the latest-event holder fed by the hardware callback: its
//! poll operation surfaces each distinct event exactly once.

use vstd::prelude::*;

verus! {

/// A normalized MIDI Control Change event: channel (0-15 on the wire),
/// control number and value (0-127 on the wire).
#[derive(PartialEq, Eq, Structural, Clone, Copy, Debug, Hash)]
pub struct MidiMessage {
    pub channel: u8,
    pub control: u8,
    pub value: u8,
}

impl MidiMessage {
    /// Decodes a raw MIDI byte buffer. Buffers shorter than three bytes and
    /// messages whose status nibble is not the Control Change status `0xB`
    /// yield no event; a Control Change message yields the channel from the
    /// status byte's low nibble and the control and value bytes verbatim.
    pub fn new(message: &[u8]) -> (r: Option<MidiMessage>)
        ensures
            message@.len() < 3 ==> r is None,
            message@.len() >= 3 ==> (r is Some <==> message@[0] & 0xF0 == 0xB0),
            r matches Some(m) ==> {
                &&& message@.len() >= 3
                &&& m.channel == message@[0] & 0x0F
                &&& m.control == message@[1]
                &&& m.value == message@[2]
            },
    {
        if message.len() < 3 {
            return None;
        }

        let status = message[0];
        let channel = status & 0x0F;
        let message_type = status & 0xF0;

        if message_type == 0xB0 {
            let control = message[1];
            let value = message[2];

            Some(MidiMessage { channel, control, value })
        } else {
            None
        }
    }
}

/// The Control Change status test `status & 0xF0 == 0xB0` holds exactly for
/// the status bytes `0xB0` through `0xBF`.
pub proof fn lemma_control_change_status_range(status: u8)
    ensures
        (status & 0xF0 == 0xB0) <==> (0xB0 <= status <= 0xBF),
{
    assert((status & 0xF0 == 0xB0) <==> (0xB0 <= status <= 0xBF)) by (bit_vector);
}

/// Receiver of decoded MIDI events, registered with the hardware transport.
pub trait MidiCallback: Send + 'static {
    fn handle_midi_message(&mut self, message: MidiMessage);
}

/// The edge detector's state: the event last reported to a poller and the
/// event last recorded by the hardware callback. Both default to the
/// all-zero sentinel, so the detector starts with no pending change.
#[derive(PartialEq, Eq, Structural, Clone, Copy, Debug)]
pub struct MidiHandler {
    pub previous_message: MidiMessage,
    pub last_message: MidiMessage,
}

/// The state after recording `message`: the latest event is overwritten
/// unconditionally; the engine is last-value-wins, not a queue.
pub open spec fn spec_record(s: MidiHandler, message: MidiMessage) -> MidiHandler {
    MidiHandler { previous_message: s.previous_message, last_message: message }
}

/// The state and report of one poll: a new event is surfaced, and the state
/// advanced, only if the latest event differs from the one last reported.
pub open spec fn spec_poll(s: MidiHandler) -> (MidiHandler, Option<MidiMessage>) {
    if s.previous_message != s.last_message {
        (MidiHandler { previous_message: s.last_message, last_message: s.last_message },
            Some(s.last_message))
    } else {
        (s, None)
    }
}

impl MidiHandler {
    /// A fresh detector holding the all-zero sentinel in both slots.
    pub fn new() -> (r: MidiHandler)
        ensures
            r.previous_message == (MidiMessage { channel: 0, control: 0, value: 0 }),
            r.last_message == (MidiMessage { channel: 0, control: 0, value: 0 }),
    {
        MidiHandler {
            last_message: MidiMessage { channel: 0, control: 0, value: 0 },
            previous_message: MidiMessage { channel: 0, control: 0, value: 0 },
        }
    }

    /// Called by the hardware callback on every incoming event: overwrites
    /// the latest event unconditionally.
    pub fn record(&mut self, message: MidiMessage)
        ensures
            *final(self) == spec_record(*old(self), message),
    {
        self.last_message = message;
    }

    /// True when an event has been recorded that has not yet been reported.
    pub fn is_available(&self) -> (r: bool)
        ensures
            r == (self.previous_message != self.last_message),
    {
        if self.previous_message != self.last_message {
            return true;
        }

        false
    }

    /// Returns the latest event and marks it as reported.
    pub fn get_last_message(&mut self) -> (r: MidiMessage)
        ensures
            r == old(self).last_message,
            final(self).previous_message == old(self).last_message,
            final(self).last_message == old(self).last_message,
    {
        self.previous_message = self.last_message;
        self.last_message
    }

    /// One poll of the edge detector: reports the latest event, and advances
    /// the state, only if it differs from the event last reported; polling a
    /// steady state reports nothing and changes nothing.
    pub fn poll_if_changed(&mut self) -> (r: Option<MidiMessage>)
        ensures
            (*final(self), r) == spec_poll(*old(self)),
    {
        if self.is_available() {
            Some(self.get_last_message())
        } else {
            None
        }
    }
}

impl MidiCallback for MidiHandler {
    fn handle_midi_message(&mut self, message: MidiMessage) {
        self.record(message);
    }
}

/// The trace of a record-then-poll schedule: starting from `s`, each event
/// is recorded and the detector polled once; the result is the final state
/// and the report of each poll.
pub open spec fn run_record_poll(s: MidiHandler, events: Seq<MidiMessage>) -> (
    MidiHandler,
    Seq<Option<MidiMessage>>,
)
    decreases events.len(),
{
    if events.len() == 0 {
        (s, Seq::empty())
    } else {
        let (s1, outs) = run_record_poll(s, events.drop_last());
        let (s2, o) = spec_poll(spec_record(s1, events.last()));
        (s2, outs.push(o))
    }
}

/// Edge detection reports each change exactly once: over any record-then-poll
/// schedule starting from a steady state, a poll reports an event exactly
/// when it opens a maximal run of identical consecutive events (the first
/// event of a run differs from its predecessor, or from the initial steady
/// value), and the detector is steady again after every poll, so an extra
/// poll without an intervening record reports nothing.
pub proof fn lemma_edge_detection_exactly_once(s: MidiHandler, events: Seq<MidiMessage>)
    requires
        s.previous_message == s.last_message,
    ensures
        ({
            let (s_end, outs) = run_record_poll(s, events);
            &&& outs.len() == events.len()
            &&& forall|i: int|
                0 <= i < events.len() ==> outs[i] == (if events[i] != (if i == 0 {
                    s.last_message
                } else {
                    events[i - 1]
                }) {
                    Some(events[i])
                } else {
                    None::<MidiMessage>
                })
            &&& s_end.previous_message == s_end.last_message
            &&& s_end.last_message == (if events.len() == 0 {
                s.last_message
            } else {
                events.last()
            })
        }),
    decreases events.len(),
{
    if events.len() > 0 {
        lemma_edge_detection_exactly_once(s, events.drop_last());
        let (s1, outs) = run_record_poll(s, events.drop_last());
        assert(forall|i: int|
            0 <= i < events.len() - 1 ==> events.drop_last()[i] == events[i]);
    }
}

} // verus!
