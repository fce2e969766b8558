use connect_proxy::recorder::{Recorder, RecorderReader, RecorderWriter};
use std::sync::atomic::{AtomicUsize, Ordering};
use std::sync::Arc;
use std::task::{Poll, Wake, Waker};
use tokio::io::ReadBuf;

struct Counter {
    woken: AtomicUsize,
}

impl Wake for Counter {
    fn wake(self: Arc<Self>) {
        self.woken.fetch_add(1, Ordering::SeqCst);
    }
}

fn counter() -> (Arc<Counter>, Waker) {
    let counter = Arc::new(Counter { woken: AtomicUsize::new(0) });
    (counter.clone(), Waker::from(counter))
}

fn idle() -> Waker {
    counter().1
}

/// Reads once with room for `room` bytes; `None` stands for "wait".
fn read(reader: &RecorderReader, recorder: &mut Recorder, room: usize) -> Option<Vec<u8>> {
    let mut space = vec![0u8; room];
    let mut buf = ReadBuf::new(&mut space);
    match reader.poll_read(recorder, idle(), &mut buf) {
        Poll::Ready(()) => Some(buf.filled().to_vec()),
        Poll::Pending => {
            assert_eq!(buf.filled().len(), 0);
            None
        }
    }
}

fn write(recorder: &mut Recorder, bytes: &[u8]) -> Vec<Option<Waker>> {
    let (poll, wakers) = RecorderWriter {}.poll_write(recorder, bytes);
    assert_eq!(poll, Poll::Ready(bytes.len()));
    wakers
}

#[test]
fn new_recorder_holds_nothing() {
    let recorder = Recorder::new();
    assert_eq!(recorder.retained_len(), 0);
}

#[test]
fn two_consumers_at_different_paces_see_the_same_stream() {
    let mut recorder = Recorder::new();
    let first = RecorderReader::new(&mut recorder);
    let second = RecorderReader::new(&mut recorder);
    write(&mut recorder, b"AB");
    write(&mut recorder, b"CD");
    assert_eq!(read(&first, &mut recorder, 1), Some(b"A".to_vec()));
    assert_eq!(read(&first, &mut recorder, 3), Some(b"BCD".to_vec()));
    assert_eq!(read(&second, &mut recorder, 4), Some(b"ABCD".to_vec()));
    assert_eq!(recorder.retained_len(), 4);
    write(&mut recorder, b"E");
    assert_eq!(recorder.retained_len(), 1);
    assert_eq!(read(&first, &mut recorder, 8), Some(b"E".to_vec()));
    assert_eq!(read(&second, &mut recorder, 8), Some(b"E".to_vec()));
}

#[test]
fn late_consumer_sees_only_later_bytes() {
    let mut recorder = Recorder::new();
    let early = RecorderReader::new(&mut recorder);
    write(&mut recorder, b"AB");
    assert_eq!(read(&early, &mut recorder, 2), Some(b"AB".to_vec()));
    write(&mut recorder, b"C");
    assert_eq!(recorder.retained_len(), 1);
    let late = RecorderReader::new(&mut recorder);
    assert_eq!(read(&late, &mut recorder, 8), None);
    write(&mut recorder, b"DE");
    assert_eq!(read(&late, &mut recorder, 8), Some(b"DE".to_vec()));
    assert_eq!(read(&early, &mut recorder, 8), Some(b"CDE".to_vec()));
}

#[test]
fn read_without_room_changes_nothing() {
    let mut recorder = Recorder::new();
    let reader = RecorderReader::new(&mut recorder);
    write(&mut recorder, b"AB");
    assert_eq!(read(&reader, &mut recorder, 0), Some(Vec::new()));
    assert_eq!(read(&reader, &mut recorder, 0), Some(Vec::new()));
    assert!(write(&mut recorder, b"C").iter().all(|waker| waker.is_none()));
    assert_eq!(read(&reader, &mut recorder, 8), Some(b"ABC".to_vec()));
}

#[test]
fn read_without_room_and_with_nothing_available_waits() {
    let mut recorder = Recorder::new();
    let reader = RecorderReader::new(&mut recorder);
    assert_eq!(read(&reader, &mut recorder, 0), None);
    let wakers = write(&mut recorder, b"A");
    assert_eq!(wakers.len(), 1);
    assert!(wakers[0].is_some());
    assert_eq!(read(&reader, &mut recorder, 0), Some(Vec::new()));
    assert_eq!(read(&reader, &mut recorder, 1), Some(b"A".to_vec()));
}

#[test]
fn consumers_are_numbered_in_order_of_registration() {
    let mut recorder = Recorder::new();
    assert_eq!(recorder.consumers(), 0);
    let first = RecorderReader::new(&mut recorder);
    let second = RecorderReader::new(&mut recorder);
    assert_eq!(first.index(), 0);
    assert_eq!(second.index(), 1);
    assert_eq!(recorder.consumers(), 2);
}

#[test]
fn read_with_nothing_available_parks_the_handle() {
    let mut recorder = Recorder::new();
    let reader = RecorderReader::new(&mut recorder);
    let other = RecorderReader::new(&mut recorder);
    let (count, waker) = counter();
    let mut space = [0u8; 4];
    let mut buf = ReadBuf::new(&mut space);
    assert_eq!(reader.poll_read(&mut recorder, waker, &mut buf), Poll::Pending);
    assert_eq!(buf.filled(), b"");
    let wakers = write(&mut recorder, b"xy");
    assert_eq!(wakers.len(), 2);
    assert!(wakers[0].is_some());
    assert!(wakers[1].is_none());
    for waker in wakers.into_iter().flatten() {
        waker.wake();
    }
    assert_eq!(count.woken.load(Ordering::SeqCst), 1);
    assert!(write(&mut recorder, b"z").iter().all(|waker| waker.is_none()));
    assert_eq!(read(&reader, &mut recorder, 8), Some(b"xyz".to_vec()));
    assert_eq!(read(&other, &mut recorder, 8), Some(b"xyz".to_vec()));
}

#[test]
fn read_appends_to_what_the_destination_holds() {
    let mut recorder = Recorder::new();
    let reader = RecorderReader::new(&mut recorder);
    write(&mut recorder, b"world");
    let mut space = [0u8; 8];
    let mut buf = ReadBuf::new(&mut space);
    buf.put_slice(b"hi ");
    assert_eq!(reader.poll_read(&mut recorder, idle(), &mut buf), Poll::Ready(()));
    assert_eq!(buf.filled(), b"hi world");
    assert_eq!(buf.remaining(), 0);
    assert_eq!(buf.capacity(), 8);
}

#[test]
fn write_without_consumers_keeps_everything() {
    let mut recorder = Recorder::new();
    write(&mut recorder, b"AB");
    write(&mut recorder, b"CD");
    assert_eq!(recorder.retained_len(), 4);
}

#[test]
fn queue_holds_what_the_slowest_consumer_has_not_read() {
    let mut recorder = Recorder::new();
    let fast = RecorderReader::new(&mut recorder);
    let slow = RecorderReader::new(&mut recorder);
    write(&mut recorder, b"0123456789");
    assert_eq!(read(&fast, &mut recorder, 10), Some(b"0123456789".to_vec()));
    assert_eq!(read(&slow, &mut recorder, 3), Some(b"012".to_vec()));
    write(&mut recorder, b"ab");
    assert_eq!(recorder.retained_len(), 12 - 3);
    assert_eq!(read(&slow, &mut recorder, 100), Some(b"3456789ab".to_vec()));
    assert_eq!(read(&fast, &mut recorder, 100), Some(b"ab".to_vec()));
}

#[test]
fn reads_stitch_across_the_wrap_of_the_queue() {
    let mut recorder = Recorder::new();
    let reader = RecorderReader::new(&mut recorder);
    let mut expected = Vec::new();
    let mut seen = Vec::new();
    for round in 0..200u32 {
        let chunk: Vec<u8> = (0..7).map(|i| (round * 7 + i) as u8).collect();
        write(&mut recorder, &chunk);
        expected.extend_from_slice(&chunk);
        if let Some(bytes) = read(&reader, &mut recorder, 5) {
            seen.extend_from_slice(&bytes);
        }
    }
    while let Some(bytes) = read(&reader, &mut recorder, 11) {
        seen.extend_from_slice(&bytes);
    }
    assert_eq!(seen, expected);
}
