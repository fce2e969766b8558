//! The broadcast buffer as a mathematical object: the whole stream that was
//! ever written, the trim point, and one read position per consumer, all in
//! absolute stream positions.
use std::task::Waker;
use vstd::prelude::*;

verus! {

/// What a recorder stands for.
pub struct RecorderModel {
    /// Every byte that was ever written, in write order.
    pub stream: Seq<u8>,
    /// The number of bytes that were dropped from the head of the queue.
    pub trimmed: nat,
    /// For each consumer, in order of registration, the number of bytes of
    /// `stream` that lie before its read position.
    pub offsets: Seq<nat>,
    /// For each consumer, the handle it left behind when it found nothing to
    /// read.
    pub parked: Seq<Option<Waker>>,
}

/// The least member of `offsets`; 0 for the empty sequence.
pub open spec fn least(offsets: Seq<nat>) -> nat
    decreases offsets.len(),
{
    if offsets.len() == 0 {
        0
    } else if offsets.len() == 1 {
        offsets[0]
    } else {
        let rest = least(offsets.drop_last());
        if offsets.last() < rest {
            offsets.last()
        } else {
            rest
        }
    }
}

/// `least` is a member of a non-empty sequence and no member is below it.
pub proof fn lemma_least(offsets: Seq<nat>)
    requires
        offsets.len() > 0,
    ensures
        offsets.contains(least(offsets)),
        forall|i: int| 0 <= i < offsets.len() ==> least(offsets) <= #[trigger] offsets[i],
    decreases offsets.len(),
{
    if offsets.len() == 1 {
        assert(offsets[0] == least(offsets));
    } else {
        let front = offsets.drop_last();
        lemma_least(front);
        let k = choose|k: int| 0 <= k < front.len() && front[k] == least(front);
        assert(offsets[k] == front[k]);
        assert(offsets[offsets.len() - 1] == offsets.last());
        assert forall|i: int| 0 <= i < offsets.len() implies least(offsets) <= #[trigger] offsets[i] by {
            if i < front.len() {
                assert(front[i] == offsets[i]);
            }
        }
    }
}

impl RecorderModel {
    /// The recorder that nothing was written to and nobody reads from.
    pub open spec fn empty() -> RecorderModel {
        RecorderModel { stream: Seq::empty(), trimmed: 0, offsets: Seq::empty(), parked: Seq::empty() }
    }

    /// No position lies beyond the end of the stream, no consumer is behind
    /// the trim point, and a consumer is parked only at the end of the stream.
    pub open spec fn wf(self) -> bool {
        &&& self.trimmed <= self.stream.len()
        &&& self.parked.len() == self.offsets.len()
        &&& forall|i: int|
            0 <= i < self.offsets.len() ==> self.trimmed <= #[trigger] self.offsets[i]
                <= self.stream.len()
        &&& forall|i: int|
            0 <= i < self.offsets.len() && (#[trigger] self.parked[i]) is Some
                ==> self.offsets[i] == self.stream.len()
    }

    /// The number of registered consumers.
    pub open spec fn consumers(self) -> nat {
        self.offsets.len()
    }

    /// The bytes that the queue still holds.
    pub open spec fn retained(self) -> Seq<u8> {
        self.stream.skip(self.trimmed as int)
    }

    /// The number of bytes that consumer `i` has not read yet.
    pub open spec fn available(self, i: int) -> int {
        self.stream.len() - self.offsets[i]
    }

    /// A new consumer joins at the end of the stream.
    pub open spec fn register(self) -> RecorderModel {
        RecorderModel {
            offsets: self.offsets.push(self.stream.len()),
            parked: self.parked.push(None),
            ..self
        }
    }

    /// The trim point after a write: the least read position, or the old trim
    /// point where nobody reads.
    pub open spec fn trim_point(self) -> nat {
        if self.offsets.len() > 0 {
            least(self.offsets)
        } else {
            self.trimmed
        }
    }

    /// `bytes` are appended, every parked handle is taken out, and the queue
    /// is trimmed up to the slowest consumer.
    pub open spec fn write(self, bytes: Seq<u8>) -> RecorderModel {
        RecorderModel {
            stream: self.stream + bytes,
            trimmed: self.trim_point(),
            offsets: self.offsets,
            parked: Seq::new(self.parked.len(), |i: int| None),
        }
    }

    /// The number of bytes that consumer `i` gets when `room` bytes fit into
    /// its destination: all that are available, or as many as fit.
    pub open spec fn read_len(self, i: int, room: int) -> int {
        if room <= 0 {
            0
        } else if self.available(i) <= room {
            self.available(i)
        } else {
            room
        }
    }

    /// The bytes that consumer `i` gets when `room` bytes fit into its
    /// destination: the next ones of the stream at its read position.
    pub open spec fn read_bytes(self, i: int, room: int) -> Seq<u8> {
        self.stream.subrange(self.offsets[i] as int, self.offsets[i] + self.read_len(i, room))
    }

    /// The recorder after consumer `i` has read with `room` bytes of space.
    /// With nothing available it parks `handle`; otherwise its read position
    /// moves past the bytes it got.
    pub open spec fn read(self, i: int, room: int, handle: Waker) -> RecorderModel {
        if self.available(i) == 0 {
            RecorderModel { parked: self.parked.update(i, Some(handle)), ..self }
        } else {
            RecorderModel {
                offsets: self.offsets.update(i, (self.offsets[i] + self.read_len(i, room)) as nat),
                ..self
            }
        }
    }
}

} // verus!
