//! The broadcast buffer: one producer, many consumers, one byte queue.
pub mod laws;
pub mod model;
pub mod read_buf;

use crate::recorder::model::{least, RecorderModel};
use crate::recorder::read_buf::{
    put_slice, read_buf_capacity, read_buf_filled, read_buf_remaining, remaining,
};
use std::collections::VecDeque;
use std::task::{Poll, Waker};
use tokio::io::ReadBuf;
use vstd::prelude::*;

verus! {

/// Index into a run of `len` bytes that starts at stream position `offset`,
/// for the stream position `pos`: positions before the run map to its start,
/// positions after it to its end.
pub open spec fn clip(pos: int, offset: int, len: int) -> int {
    if pos <= offset {
        0
    } else if pos - offset >= len {
        len
    } else {
        pos - offset
    }
}

/// The part of `run`, which starts at stream position `offset`, that lies in
/// the window of `size` bytes starting at stream position `begin`.
pub open spec fn overlap(run: Seq<u8>, offset: int, begin: int, size: int) -> Seq<u8> {
    run.subrange(
        clip(begin, offset, run.len() as int),
        clip(begin + size, offset, run.len() as int),
    )
}

/// Returns the bytes of `buf` that fall into the window `[begin, begin + size)`,
/// where `buf` holds the stream positions from `buf_offset` on.
pub fn get_overlap(buf: &[u8], buf_offset: usize, begin: usize, size: usize) -> (out: &[u8])
    ensures
        out@ == overlap(buf@, buf_offset as int, begin as int, size as int),
{
    let len: usize = buf.len();
    let (lo, hi): (usize, usize) = if begin >= buf_offset {
        let skipped: usize = begin - buf_offset;
        if skipped >= len {
            (len, len)
        } else if size >= len - skipped {
            (skipped, len)
        } else {
            (skipped, skipped + size)
        }
    } else {
        let gap: usize = buf_offset - begin;
        if size <= gap {
            (0, 0)
        } else if size - gap >= len {
            (0, len)
        } else {
            (0, size - gap)
        }
    };
    &buf[lo..hi]
}

/// `std::task::Waker`, the handle by which a waiting task is resumed. It is
/// carried from the consumer that parks it to the producer's caller, who wakes
/// it; nothing is known of its inside.
#[verifier::external_type_specification]
#[verifier::external_body]
pub struct ExWaker(Waker);

/// `std::task::Poll`, with its two variants `Ready` and `Pending`.
#[verifier::external_type_specification]
pub struct ExPoll<T>(Poll<T>);

/// `VecDeque::as_slices`: the two runs that hold the queue's bytes. The first
/// followed by the second is the queue's contents in order.
#[verifier::external_body]
fn as_slices(queue: &VecDeque<u8>) -> (runs: (&[u8], &[u8]))
    ensures
        runs.0@ + runs.1@ == queue@,
{
    queue.as_slices()
}

/// The bookkeeping for one consumer.
pub struct RecorderState {
    /// How many bytes of the queue, counted from its head, the consumer has read.
    reader_length: usize,
    /// The handle to resume the consumer by, while it waits for bytes.
    waker: Option<Waker>,
}

/// A byte queue that one producer appends to and that every registered
/// consumer reads in full, each at its own pace.
pub struct Recorder {
    buf: VecDeque<u8>,
    states: Vec<RecorderState>,
    /// The bytes that were trimmed from the head of `buf`.
    dropped: Ghost<Seq<u8>>,
}

impl View for Recorder {
    type V = RecorderModel;

    closed spec fn view(&self) -> RecorderModel {
        RecorderModel {
            stream: self.dropped@ + self.buf@,
            trimmed: self.dropped@.len(),
            offsets: Seq::new(
                self.states@.len(),
                |i: int| (self.dropped@.len() + self.states@[i].reader_length) as nat,
            ),
            parked: Seq::new(self.states@.len(), |i: int| self.states@[i].waker),
        }
    }
}

impl Recorder {
    /// No consumer has read more than the queue holds, and one that waits has
    /// read all of it.
    pub closed spec fn wf(&self) -> bool {
        forall|i: int|
            0 <= i < self.states@.len() ==> {
                &&& (#[trigger] self.states@[i]).reader_length <= self.buf@.len()
                &&& self.states@[i].waker is Some ==> self.states@[i].reader_length
                    == self.buf@.len()
            }
    }

    /// A well-formed recorder stands for a well-formed model.
    pub proof fn lemma_wf(&self)
        requires
            self.wf(),
        ensures
            self@.wf(),
    {
        assert forall|i: int| 0 <= i < self@.offsets.len() implies self@.trimmed
            <= #[trigger] self@.offsets[i] <= self@.stream.len() by {
            assert(self.states@[i].reader_length <= self.buf@.len());
        }
        assert forall|i: int|
            0 <= i < self@.offsets.len() && (#[trigger] self@.parked[i]) is Some implies self@.offsets[i]
            == self@.stream.len() by {
            assert(self.states@[i].waker is Some);
        }
    }

    /// An empty recorder without consumers.
    pub fn new() -> (recorder: Self)
        ensures
            recorder.wf(),
            recorder@ == RecorderModel::empty(),
    {
        let recorder = Self { buf: VecDeque::new(), states: Vec::new(), dropped: Ghost(Seq::empty()) };
        assert(recorder@.stream =~= Seq::<u8>::empty());
        assert(recorder@.offsets =~= Seq::<nat>::empty());
        assert(recorder@.parked =~= Seq::<Option<Waker>>::empty());
        recorder
    }

    /// The number of registered consumers.
    pub fn consumers(&self) -> (n: usize)
        ensures
            n == self@.consumers(),
    {
        self.states.len()
    }

    /// The number of bytes that the queue holds.
    pub fn retained_len(&self) -> (n: usize)
        ensures
            n == self@.retained().len(),
    {
        self.buf.len()
    }
}

/// Two adjacent runs hand out a window of the stream piece by piece: what the
/// window takes from the first run, followed by what it takes from the second,
/// is the window's part of the two runs joined.
pub proof fn lemma_overlap_stitches(front: Seq<u8>, back: Seq<u8>, begin: int, size: int)
    requires
        0 <= begin,
        0 <= size,
        begin + size <= front.len() + back.len(),
    ensures
        overlap(front, 0, begin, size) + overlap(back, front.len() as int, begin, size) == (front
            + back).subrange(begin, begin + size),
{
    assert(overlap(front, 0, begin, size) + overlap(back, front.len() as int, begin, size) =~= (
    front + back).subrange(begin, begin + size));
}

/// A consumer's handle on a recorder: its place among the consumers.
pub struct RecorderReader {
    index: usize,
}

impl View for RecorderReader {
    type V = int;

    closed spec fn view(&self) -> int {
        self.index as int
    }
}

impl RecorderReader {
    /// Registers a new consumer, which starts at the end of what was written
    /// so far.
    pub fn new(recorder: &mut Recorder) -> (reader: Self)
        requires
            old(recorder).wf(),
        ensures
            final(recorder).wf(),
            final(recorder)@ == old(recorder)@.register(),
            reader@ == old(recorder)@.consumers(),
    {
        let index: usize = recorder.states.len();
        let reader_length: usize = recorder.buf.len();
        recorder.states.push(RecorderState { reader_length, waker: None });
        assert(recorder@.offsets =~= old(recorder)@.register().offsets);
        assert(recorder@.parked =~= old(recorder)@.register().parked);
        Self { index }
    }

    /// The consumer's place among the consumers of its recorder.
    pub fn index(&self) -> (index: usize)
        ensures
            index == self@,
    {
        self.index
    }

    /// Hands the consumer its next bytes, as many as are there and fit into
    /// `buf`. Where none is there, the consumer parks `waker` and is told to
    /// wait.
    pub fn poll_read(&self, recorder: &mut Recorder, waker: Waker, buf: &mut ReadBuf) -> (poll:
        Poll<()>)
        requires
            old(recorder).wf(),
            0 <= self@ < old(recorder)@.consumers(),
        ensures
            final(recorder).wf(),
            final(recorder)@ == old(recorder)@.read(self@, read_buf_remaining(old(buf)), waker),
            poll == (if old(recorder)@.available(self@) == 0 {
                Poll::<()>::Pending
            } else {
                Poll::Ready(())
            }),
            read_buf_filled(final(buf)) == read_buf_filled(old(buf)) + old(recorder)@.read_bytes(
                self@,
                read_buf_remaining(old(buf)),
            ),
            read_buf_capacity(final(buf)) == read_buf_capacity(old(buf)),
    {
        let taken: usize = recorder.states[self.index].reader_length;
        let available: usize = recorder.buf.len() - taken;
        if available == 0 {
            recorder.states[self.index].waker = Some(waker);
            proof {
                let after = old(recorder)@.read(self@, read_buf_remaining(old(buf)), waker);
                assert(recorder@.offsets =~= after.offsets);
                assert(recorder@.parked =~= after.parked);
                assert(read_buf_filled(buf) =~= read_buf_filled(old(buf)) + Seq::<u8>::empty());
            }
            return Poll::Pending;
        }
        let room: usize = remaining(buf);
        let n: usize = if available <= room { available } else { room };
        let (front, back) = as_slices(&recorder.buf);
        put_slice(buf, get_overlap(front, 0, taken, n));
        put_slice(buf, get_overlap(back, front.len(), taken, n));
        recorder.states[self.index].reader_length = taken + n;
        proof {
            let before = old(recorder)@;
            let after = before.read(self@, read_buf_remaining(old(buf)), waker);
            assert(recorder@.offsets =~= after.offsets);
            assert(recorder@.parked =~= after.parked);
            lemma_overlap_stitches(front@, back@, taken as int, n as int);
            assert(before.read_bytes(self@, read_buf_remaining(old(buf))) =~= old(recorder).buf@.subrange(
                taken as int,
                taken + n,
            ));
            assert(read_buf_filled(buf) =~= read_buf_filled(old(buf)) + old(recorder).buf@.subrange(
                taken as int,
                taken + n,
            ));
        }
        Poll::Ready(())
    }
}

impl Recorder {
    /// Appends `bytes` to the tail of the queue.
    fn append(&mut self, bytes: &[u8])
        ensures
            final(self).buf@ == old(self).buf@ + bytes@,
            final(self).states == old(self).states,
            final(self).dropped == old(self).dropped,
    {
        let mut i: usize = 0;
        while i < bytes.len()
            invariant
                i <= bytes@.len(),
                self.buf@ == old(self).buf@ + bytes@.take(i as int),
                self.states == old(self).states,
                self.dropped == old(self).dropped,
            decreases bytes@.len() - i,
        {
            self.buf.push_back(bytes[i]);
            assert(bytes@.take(i + 1) =~= bytes@.take(i as int).push(bytes@[i as int]));
            i += 1;
        }
        assert(bytes@.take(i as int) =~= bytes@);
    }

    /// Takes every parked handle out, in the order of the consumers.
    fn take_wakers(&mut self) -> (wakers: Vec<Option<Waker>>)
        ensures
            wakers@ == old(self)@.parked,
            final(self).buf == old(self).buf,
            final(self).dropped == old(self).dropped,
            final(self).states@.len() == old(self).states@.len(),
            forall|i: int|
                0 <= i < old(self).states@.len() ==> {
                    &&& (#[trigger] final(self).states@[i]).reader_length == old(
                        self,
                    ).states@[i].reader_length
                    &&& final(self).states@[i].waker is None
                },
    {
        let mut wakers: Vec<Option<Waker>> = Vec::new();
        let mut k: usize = 0;
        while k < self.states.len()
            invariant
                k <= self.states@.len(),
                self.buf == old(self).buf,
                self.dropped == old(self).dropped,
                self.states@.len() == old(self).states@.len(),
                wakers@.len() == k,
                forall|i: int| 0 <= i < k ==> #[trigger] wakers@[i] == old(self).states@[i].waker,
                forall|i: int|
                    0 <= i < k ==> {
                        &&& (#[trigger] self.states@[i]).reader_length == old(
                            self,
                        ).states@[i].reader_length
                        &&& self.states@[i].waker is None
                    },
                forall|i: int|
                    k <= i < self.states@.len() ==> #[trigger] self.states@[i] == old(
                        self,
                    ).states@[i],
            decreases self.states@.len() - k,
        {
            let waker = self.states[k].waker.take();
            wakers.push(waker);
            k += 1;
        }
        assert(wakers@ =~= old(self)@.parked);
        wakers
    }

    /// The least number of bytes that any consumer has read of the queue.
    fn least_taken(&self) -> (taken: usize)
        requires
            self.states@.len() > 0,
        ensures
            self.dropped@.len() + taken == least(self@.offsets),
            forall|i: int| 0 <= i < self.states@.len() ==> taken <= (#[trigger] self.states@[i]).reader_length,
    {
        let mut taken: usize = self.states[0].reader_length;
        let mut k: usize = 1;
        assert(self@.offsets.take(1) =~= seq![self@.offsets[0]]);
        while k < self.states.len()
            invariant
                1 <= k <= self.states@.len(),
                self.dropped@.len() + taken == least(self@.offsets.take(k as int)),
                forall|i: int| 0 <= i < k ==> taken <= (#[trigger] self.states@[i]).reader_length,
            decreases self.states@.len() - k,
        {
            proof {
                let grown = self@.offsets.take(k + 1);
                assert(grown.drop_last() =~= self@.offsets.take(k as int));
                assert(grown.last() == self@.offsets[k as int]);
            }
            if self.states[k].reader_length < taken {
                taken = self.states[k].reader_length;
            }
            k += 1;
        }
        assert(self@.offsets.take(k as int) =~= self@.offsets);
        taken
    }

    /// Drops `count` bytes from the head of the queue and counts every
    /// consumer's position from the new head.
    fn trim(&mut self, count: usize)
        requires
            forall|i: int|
                0 <= i < old(self).states@.len() ==> count <= (#[trigger] old(
                    self,
                ).states@[i]).reader_length <= old(self).buf@.len(),
            count <= old(self).buf@.len(),
        ensures
            final(self).buf@ == old(self).buf@.skip(count as int),
            final(self).dropped@ == old(self).dropped@ + old(self).buf@.take(count as int),
            final(self).states@.len() == old(self).states@.len(),
            forall|i: int|
                0 <= i < old(self).states@.len() ==> {
                    &&& (#[trigger] final(self).states@[i]).reader_length == old(
                        self,
                    ).states@[i].reader_length - count
                    &&& final(self).states@[i].waker == old(self).states@[i].waker
                },
    {
        let mut done: usize = 0;
        while done < count
            invariant
                done <= count <= old(self).buf@.len(),
                self.buf@ == old(self).buf@.skip(done as int),
                self.dropped@ == old(self).dropped@ + old(self).buf@.take(done as int),
                self.states == old(self).states,
            decreases count - done,
        {
            let head = self.buf.pop_front();
            proof {
                let byte = old(self).buf@[done as int];
                assert(head == Some(byte));
                assert(self.buf@ =~= old(self).buf@.skip(done + 1));
                assert(old(self).buf@.take(done + 1) =~= old(self).buf@.take(done as int).push(byte));
                self.dropped@ = self.dropped@.push(byte);
            }
            done += 1;
        }
        let mut k: usize = 0;
        while k < self.states.len()
            invariant
                k <= self.states@.len(),
                self.buf@ == old(self).buf@.skip(count as int),
                self.dropped@ == old(self).dropped@ + old(self).buf@.take(count as int),
                self.states@.len() == old(self).states@.len(),
                forall|i: int|
                    0 <= i < old(self).states@.len() ==> count <= (#[trigger] old(
                        self,
                    ).states@[i]).reader_length,
                forall|i: int|
                    0 <= i < k ==> {
                        &&& (#[trigger] self.states@[i]).reader_length == old(
                            self,
                        ).states@[i].reader_length - count
                        &&& self.states@[i].waker == old(self).states@[i].waker
                    },
                forall|i: int|
                    k <= i < self.states@.len() ==> #[trigger] self.states@[i] == old(
                        self,
                    ).states@[i],
            decreases self.states@.len() - k,
        {
            let taken: usize = self.states[k].reader_length;
            self.states[k].reader_length = taken - count;
            k += 1;
        }
    }
}

/// The producing side of a recorder. It holds nothing of its own: the queue
/// is handed to each call.
pub struct RecorderWriter {}

impl RecorderWriter {
    /// Appends `buf` to the stream, takes out the handles of the consumers
    /// that wait, and trims the queue up to the slowest consumer. The handles
    /// come back to the caller, who resumes them once the recorder is free
    /// again.
    pub fn poll_write(&self, recorder: &mut Recorder, buf: &[u8]) -> (out: (
        Poll<usize>,
        Vec<Option<Waker>>,
    ))
        requires
            old(recorder).wf(),
            buf@.len() > 0,
        ensures
            final(recorder).wf(),
            final(recorder)@ == old(recorder)@.write(buf@),
            out.0 == Poll::Ready(buf.len()),
            out.1@ == old(recorder)@.parked,
    {
        recorder.append(buf);
        let wakers = recorder.take_wakers();
        let ghost after = old(recorder)@.write(buf@);
        assert(recorder@.offsets =~= after.offsets);
        if recorder.states.len() > 0 {
            let count: usize = recorder.least_taken();
            let ghost queue = recorder.buf@;
            recorder.trim(count);
            assert(recorder@.stream =~= after.stream) by {
                assert(queue =~= queue.take(count as int) + queue.skip(count as int));
            }
        }
        assert(recorder@.stream =~= after.stream);
        assert(recorder@.offsets =~= after.offsets);
        assert(recorder@.parked =~= after.parked);
        (Poll::Ready(buf.len()), wakers)
    }
}

} // verus!
