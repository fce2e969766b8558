//! What holds of a recorder over any sequence of operations.
use crate::recorder::model::{lemma_least, least, RecorderModel};
use std::task::Waker;
use vstd::prelude::*;

verus! {

/// One operation on a recorder.
pub enum Step {
    /// A new consumer registers.
    Register,
    /// The producer writes these bytes.
    Write(Seq<u8>),
    /// The consumer with this index reads into a destination with this much
    /// room, and brings this handle to park.
    Read(int, int, Waker),
}

impl Step {
    /// Whether the operation may be applied to `m`: a write brings at least
    /// one byte, and a read names a registered consumer.
    pub open spec fn admitted(self, m: RecorderModel) -> bool {
        match self {
            Step::Register => true,
            Step::Write(bytes) => bytes.len() > 0,
            Step::Read(consumer, room, handle) => 0 <= consumer < m.consumers(),
        }
    }

    /// The recorder after the operation.
    pub open spec fn apply(self, m: RecorderModel) -> RecorderModel {
        match self {
            Step::Register => m.register(),
            Step::Write(bytes) => m.write(bytes),
            Step::Read(consumer, room, handle) => m.read(consumer, room, handle),
        }
    }

    /// The bytes that the operation hands to consumer `c`.
    pub open spec fn delivered(self, m: RecorderModel, c: int) -> Seq<u8> {
        match self {
            Step::Read(consumer, room, handle) if consumer == c => m.read_bytes(c, room),
            _ => Seq::empty(),
        }
    }
}

/// The recorder after `steps`, applied to `m` in order.
pub open spec fn run(m: RecorderModel, steps: Seq<Step>) -> RecorderModel
    decreases steps.len(),
{
    if steps.len() == 0 {
        m
    } else {
        steps.last().apply(run(m, steps.drop_last()))
    }
}

/// Whether each of `steps` may be applied to the recorder that it meets.
pub open spec fn admitted(m: RecorderModel, steps: Seq<Step>) -> bool
    decreases steps.len(),
{
    steps.len() == 0 || (admitted(m, steps.drop_last()) && steps.last().admitted(
        run(m, steps.drop_last()),
    ))
}

/// All the bytes that consumer `c` is handed in the course of `steps`, in the
/// order in which it gets them.
pub open spec fn observed(m: RecorderModel, steps: Seq<Step>, c: int) -> Seq<u8>
    decreases steps.len(),
{
    if steps.len() == 0 {
        Seq::empty()
    } else {
        observed(m, steps.drop_last(), c) + steps.last().delivered(run(m, steps.drop_last()), c)
    }
}

/// Registration keeps a recorder well formed, and the consumers that were
/// there keep their positions.
pub proof fn lemma_register(m: RecorderModel)
    requires
        m.wf(),
    ensures
        m.register().wf(),
        m.register().consumers() == m.consumers() + 1,
        m.register().offsets[m.consumers() as int] == m.stream.len(),
        m.register().stream == m.stream,
        forall|i: int| 0 <= i < m.consumers() ==> m.register().offsets[i] == m.offsets[i],
{
}

/// A write keeps a recorder well formed. It moves no consumer, and it leaves
/// in the queue exactly what the slowest consumer has not read.
pub proof fn lemma_write(m: RecorderModel, bytes: Seq<u8>)
    requires
        m.wf(),
    ensures
        m.write(bytes).wf(),
        m.write(bytes).offsets == m.offsets,
        m.write(bytes).stream == m.stream + bytes,
        m.consumers() > 0 ==> m.write(bytes).retained().len() == m.write(bytes).stream.len()
            - least(m.write(bytes).offsets),
{
    if m.offsets.len() > 0 {
        lemma_least(m.offsets);
    }
}

/// A read keeps a recorder well formed. The reader gets the bytes between its
/// old and its new position, and nobody else moves.
pub proof fn lemma_read(m: RecorderModel, c: int, room: int, handle: Waker)
    requires
        m.wf(),
        0 <= c < m.consumers(),
    ensures
        m.read(c, room, handle).wf(),
        m.read(c, room, handle).stream == m.stream,
        m.read(c, room, handle).trimmed == m.trimmed,
        m.read(c, room, handle).consumers() == m.consumers(),
        m.offsets[c] <= m.read(c, room, handle).offsets[c] <= m.stream.len(),
        m.read_bytes(c, room) == m.stream.subrange(
            m.offsets[c] as int,
            m.read(c, room, handle).offsets[c] as int,
        ),
        forall|i: int|
            0 <= i < m.consumers() && i != c ==> m.read(c, room, handle).offsets[i] == m.offsets[i],
{
}

/// A read with room for nothing, when bytes are there, hands out nothing and
/// changes nothing: the consumer neither moves nor parks.
pub proof fn lemma_read_without_room(m: RecorderModel, c: int, handle: Waker)
    requires
        m.wf(),
        0 <= c < m.consumers(),
        m.available(c) > 0,
    ensures
        m.read_bytes(c, 0) == Seq::<u8>::empty(),
        m.read(c, 0, handle) == m,
{
    assert(m.offsets.update(c, m.offsets[c]) =~= m.offsets);
}

/// A read with room, when bytes are there, hands out at least one byte.
pub proof fn lemma_read_progress(m: RecorderModel, c: int, room: int, handle: Waker)
    requires
        m.wf(),
        0 <= c < m.consumers(),
        m.available(c) > 0,
        room > 0,
    ensures
        m.read_bytes(c, room).len() > 0,
        m.read(c, room, handle).available(c) < m.available(c),
{
}

/// Whatever the operations and their order: the recorder stays well formed,
/// the stream only grows, no consumer moves back or past the end, and what a
/// consumer was handed, piece after piece, is the stream between the position
/// where it stood and the position where it stands now, with no gap and
/// nothing twice.
pub proof fn lemma_observed_in_order(m: RecorderModel, steps: Seq<Step>, c: int)
    requires
        m.wf(),
        admitted(m, steps),
        0 <= c < m.consumers(),
    ensures
        run(m, steps).wf(),
        run(m, steps).consumers() >= m.consumers(),
        m.stream.len() <= run(m, steps).stream.len(),
        run(m, steps).stream.take(m.stream.len() as int) == m.stream,
        m.offsets[c] <= run(m, steps).offsets[c] <= run(m, steps).stream.len(),
        observed(m, steps, c) == run(m, steps).stream.subrange(
            m.offsets[c] as int,
            run(m, steps).offsets[c] as int,
        ),
    decreases steps.len(),
{
    if steps.len() == 0 {
        assert(m.stream.take(m.stream.len() as int) =~= m.stream);
        assert(observed(m, steps, c) =~= m.stream.subrange(m.offsets[c] as int, m.offsets[c] as int));
    } else {
        let before = run(m, steps.drop_last());
        let after = run(m, steps);
        let step = steps.last();
        lemma_observed_in_order(m, steps.drop_last(), c);
        match step {
            Step::Register => {
                lemma_register(before);
            },
            Step::Write(bytes) => {
                lemma_write(before, bytes);
            },
            Step::Read(consumer, room, handle) => {
                lemma_read(before, consumer, room, handle);
            },
        }
        assert(after.stream.take(before.stream.len() as int) == before.stream);
        assert(after.stream.take(m.stream.len() as int) =~= before.stream.take(m.stream.len() as int));
        assert(before.stream.subrange(m.offsets[c] as int, before.offsets[c] as int)
            =~= after.stream.subrange(m.offsets[c] as int, before.offsets[c] as int));
        assert(step.delivered(before, c) =~= after.stream.subrange(
            before.offsets[c] as int,
            after.offsets[c] as int,
        ));
        assert(observed(m, steps, c) =~= after.stream.subrange(
            m.offsets[c] as int,
            after.offsets[c] as int,
        ));
    }
}

/// A consumer that has caught up has been handed every byte that was written
/// since the position where it stood, in write order. For a consumer that
/// registered before the first write, that is the whole stream.
pub proof fn lemma_caught_up_has_seen_all(m: RecorderModel, steps: Seq<Step>, c: int)
    requires
        m.wf(),
        admitted(m, steps),
        0 <= c < m.consumers(),
        run(m, steps).available(c) == 0,
    ensures
        observed(m, steps, c) == run(m, steps).stream.skip(m.offsets[c] as int),
{
    lemma_observed_in_order(m, steps, c);
}

/// A consumer that joins late is handed only bytes that were written after it
/// joined: what it observes starts where the stream ended at that moment.
pub proof fn lemma_late_consumer(m: RecorderModel, steps: Seq<Step>)
    requires
        m.wf(),
        admitted(m.register(), steps),
    ensures
        observed(m.register(), steps, m.consumers() as int) == run(m.register(), steps).stream.subrange(
            m.stream.len() as int,
            run(m.register(), steps).offsets[m.consumers() as int] as int,
        ),
{
    lemma_register(m);
    lemma_observed_in_order(m.register(), steps, m.consumers() as int);
}

/// Whether every one of `steps` is a read by consumer `c` with room for at
/// least one byte.
pub open spec fn reads_with_room(steps: Seq<Step>, c: int) -> bool {
    forall|k: int|
        0 <= k < steps.len() ==> match #[trigger] steps[k] {
            Step::Read(consumer, room, handle) => consumer == c && room > 0,
            _ => false,
        }
}

/// A consumer that keeps reading, with room for at least one byte each time,
/// comes closer to the end of the stream by at least one byte per read.
pub proof fn lemma_reads_advance(m: RecorderModel, steps: Seq<Step>, c: int)
    requires
        m.wf(),
        0 <= c < m.consumers(),
        reads_with_room(steps, c),
    ensures
        admitted(m, steps),
        run(m, steps).wf(),
        run(m, steps).consumers() == m.consumers(),
        run(m, steps).stream == m.stream,
        run(m, steps).available(c) == 0 || run(m, steps).available(c) <= m.available(c)
            - steps.len(),
    decreases steps.len(),
{
    if steps.len() > 0 {
        let before = run(m, steps.drop_last());
        assert(reads_with_room(steps.drop_last(), c)) by {
            assert forall|k: int| 0 <= k < steps.drop_last().len() implies match #[trigger] steps.drop_last()[k] {
                Step::Read(consumer, room, handle) => consumer == c && room > 0,
                _ => false,
            } by {
                assert(steps.drop_last()[k] == steps[k]);
            }
        }
        lemma_reads_advance(m, steps.drop_last(), c);
        assert(steps.last() == steps[steps.len() - 1]);
        match steps.last() {
            Step::Read(consumer, room, handle) => {
                lemma_read(before, c, room, handle);
                if before.available(c) > 0 {
                    lemma_read_progress(before, c, room, handle);
                }
            },
            _ => {},
        }
    }
}

/// A consumer that reads as many times as bytes await it, with room for at
/// least one byte each time, has then been handed all of them, in order.
pub proof fn lemma_reads_catch_up(m: RecorderModel, steps: Seq<Step>, c: int)
    requires
        m.wf(),
        0 <= c < m.consumers(),
        reads_with_room(steps, c),
        steps.len() >= m.available(c),
    ensures
        run(m, steps).available(c) == 0,
        observed(m, steps, c) == m.stream.skip(m.offsets[c] as int),
{
    lemma_reads_advance(m, steps, c);
    lemma_caught_up_has_seen_all(m, steps, c);
}

} // verus!
