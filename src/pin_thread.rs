//! The events that the two pin observers hand to the protocol engine.
use vstd::prelude::*;

verus! {

/// The line an event was observed on.
#[derive(Clone, Copy, PartialEq, Eq, Structural, Debug)]
pub enum PinType {
    Sda,
    Scl,
}

/// A level change seen on one line: `value` is the new level, `0` low and
/// anything else high.
#[derive(Clone, Copy, PartialEq, Eq, Structural, Debug)]
pub struct Message {
    pub pin_type: PinType,
    pub value: u8,
}

/// Whether a sampled level reads as high.
pub open spec fn is_high(level: u8) -> bool {
    level != 0
}

impl PinType {
    /// The short lower-case name of the line, as used in log lines.
    pub fn name(&self) -> (r: String)
        ensures
            r@ == (match *self {
                PinType::Sda => "sda"@,
                PinType::Scl => "scl"@,
            }),
    {
        match *self {
            PinType::Sda => "sda".to_owned(),
            PinType::Scl => "scl".to_owned(),
        }
    }
}

impl Message {
    /// Builds the event for a new level on `pin_type`.
    pub fn new(pin_type: PinType, value: u8) -> (r: Message)
        ensures
            r.pin_type == pin_type,
            r.value == value,
    {
        Message { pin_type, value }
    }
}


/// What an observer reports after one read of its line: the level it now
/// remembers, and the event to send if the level differs from the last one.
pub open spec fn observe_spec(pin_type: PinType, last: u8, level: u8) -> (u8, Option<Message>) {
    (level, if level != last {
        Some(Message { pin_type, value: level })
    } else {
        None
    })
}

/// One pass of a pin observer: `last` is the level it remembers, `level` the
/// level just read. A change is reported as an event and remembered.
pub fn observe(pin_type: PinType, last: u8, level: u8) -> (r: (u8, Option<Message>))
    ensures
        r == observe_spec(pin_type, last, level),
{
    if level != last {
        (level, Some(Message { pin_type, value: level }))
    } else {
        (level, None)
    }
}

/// The events an observer sends over a sequence of reads, starting from the
/// remembered level `last`: one per change of level, in order.
pub open spec fn observed(pin_type: PinType, last: u8, reads: Seq<u8>) -> Seq<Message>
    decreases reads.len(),
{
    if reads.len() == 0 {
        Seq::empty()
    } else {
        let (next, sent) = observe_spec(pin_type, last, reads[0]);
        let rest = observed(pin_type, next, reads.drop_first());
        match sent {
            Some(m) => seq![m] + rest,
            None => rest,
        }
    }
}

/// The level an observer remembers after a sequence of reads.
pub open spec fn last_read(last: u8, reads: Seq<u8>) -> u8 {
    if reads.len() == 0 {
        last
    } else {
        reads.last()
    }
}

/// Over any sequence of reads, every event is on the observer's own line,
/// the first differs from the level remembered at the start, each differs
/// from the one before it, and the last one, if any, gives the level last read.
pub proof fn lemma_observed_changes(pin_type: PinType, last: u8, reads: Seq<u8>)
    ensures
        ({
            let ms = observed(pin_type, last, reads);
            &&& forall|i: int| 0 <= i < ms.len() ==> (#[trigger] ms[i]).pin_type == pin_type
            &&& ms.len() > 0 ==> ms[0].value != last
            &&& forall|i: int| 0 < i < ms.len() ==> #[trigger] ms[i].value != ms[i - 1].value
            &&& ms.len() > 0 ==> ms.last().value == last_read(last, reads)
            &&& ms.len() == 0 ==> last_read(last, reads) == last
            &&& ms.len() <= reads.len()
        }),
    decreases reads.len(),
{
    if reads.len() > 0 {
        let tail = reads.drop_first();
        let next = reads[0];
        lemma_observed_changes(pin_type, next, tail);
        let rest = observed(pin_type, next, tail);
        assert(last_read(next, tail) == last_read(last, reads)) by {
            if tail.len() > 0 {
                assert(tail.last() == reads.last());
            }
        }
        if next != last {
            let ms = seq![Message { pin_type, value: next }] + rest;
            assert(observed(pin_type, last, reads) == ms);
            assert forall|i: int| 0 < i < ms.len() implies #[trigger] ms[i].value != ms[i - 1].value by {
                if i > 1 {
                    assert(ms[i] == rest[i - 1] && ms[i - 1] == rest[i - 2]);
                } else {
                    assert(ms[1] == rest[0]);
                }
            }
            assert forall|i: int| 0 <= i < ms.len() implies (#[trigger] ms[i]).pin_type == pin_type by {
                if i > 0 {
                    assert(ms[i] == rest[i - 1]);
                }
            }
            if rest.len() > 0 {
                assert(ms.last() == rest.last());
            }
        }
    }
}

} // verus!
