//! What holds of the line reader whatever the sizes of the chunks in which
//! the bytes arrive.
use crate::line_reader::{
    first_crlf, free_of_crlf, is_crlf_at, lemma_first_crlf_is, lemma_first_crlf_none, line_of,
    no_crlf_before, pending_after, take_line, LineError,
};
use vstd::prelude::*;
use vstd::utf8::{encode_utf8, encode_utf8_decode_utf8, encode_utf8_valid_utf8};

verus! {

/// The delimiter: CR LF.
pub open spec fn crlf() -> Seq<u8> {
    seq![13u8, 10u8]
}

/// The wire form of `segments`: each one followed by the delimiter.
pub open spec fn join_lines(segments: Seq<Seq<u8>>) -> Seq<u8>
    decreases segments.len(),
{
    if segments.len() == 0 {
        Seq::empty()
    } else {
        segments.first() + crlf() + join_lines(segments.drop_first())
    }
}

/// The chunks laid end to end.
pub open spec fn concat(chunks: Seq<Seq<u8>>) -> Seq<u8>
    decreases chunks.len(),
{
    if chunks.len() == 0 {
        Seq::empty()
    } else {
        chunks.first() + concat(chunks.drop_first())
    }
}

/// Whether every chunk brings at least one byte.
pub open spec fn all_bring_bytes(chunks: Seq<Seq<u8>>) -> bool {
    forall|i: int| 0 <= i < chunks.len() ==> (#[trigger] chunks[i]).len() > 0
}

/// Whether none of `segments` holds the delimiter.
pub open spec fn all_free_of_crlf(segments: Seq<Seq<u8>>) -> bool {
    forall|i: int| 0 <= i < segments.len() ==> free_of_crlf(#[trigger] segments[i])
}

/// One request for a line, as the driver serves it: the line comes from the
/// pending bytes where they hold one; otherwise the next chunk is read and
/// added to them, until a line is complete or the source has ended. The result
/// is the line's bytes, the bytes then pending and the chunks not yet read.
pub open spec fn serve(pending: Seq<u8>, chunks: Seq<Seq<u8>>) -> Option<
    (Seq<u8>, Seq<u8>, Seq<Seq<u8>>),
>
    decreases chunks.len(),
{
    match take_line(pending) {
        Some((segment, rest)) => Some((segment, rest, chunks)),
        None => if chunks.len() == 0 || chunks.first().len() == 0 {
            None
        } else {
            serve(pending + chunks.first(), chunks.drop_first())
        },
    }
}

/// `count` requests in a row: the lines that went out, the bytes then
/// pending and the chunks not yet read. It stops at the first request that
/// cannot be served.
pub open spec fn serve_many(pending: Seq<u8>, chunks: Seq<Seq<u8>>, count: nat) -> (
    Seq<Seq<u8>>,
    Seq<u8>,
    Seq<Seq<u8>>,
)
    decreases count,
{
    if count == 0 {
        (Seq::empty(), pending, chunks)
    } else {
        match serve(pending, chunks) {
            None => (Seq::empty(), pending, chunks),
            Some((segment, rest, unread)) => {
                let (more, last, left) = serve_many(rest, unread, (count - 1) as nat);
                (seq![segment] + more, last, left)
            },
        }
    }
}

/// A delimiter that is found stays the first one when more bytes follow.
pub proof fn lemma_first_crlf_stays(s: Seq<u8>, more: Seq<u8>)
    requires
        first_crlf(s) is Some,
    ensures
        first_crlf(s + more) == first_crlf(s),
        take_line(s + more) == Some(
            (take_line(s)->Some_0.0, take_line(s)->Some_0.1 + more),
        ),
{
    let n = first_crlf(s)->Some_0;
    assert(is_crlf_at(s, n) && no_crlf_before(s, n));
    assert(is_crlf_at(s + more, n));
    assert(no_crlf_before(s + more, n)) by {
        assert forall|m: int| 0 <= m < n implies !is_crlf_at(s + more, m) by {
            assert(!is_crlf_at(s, m));
        }
    }
    lemma_first_crlf_is(s + more, n);
    assert((s + more).take(n) =~= s.take(n));
    assert((s + more).skip(n + 2) =~= s.skip(n + 2) + more);
}

/// A segment without a delimiter, followed by the delimiter, is the first
/// line of whatever it stands before, and the rest is left as it is.
pub proof fn lemma_take_line_of_segment(segment: Seq<u8>, rest: Seq<u8>)
    requires
        free_of_crlf(segment),
    ensures
        take_line(segment + crlf() + rest) == Some((segment, rest)),
{
    let s = segment + crlf() + rest;
    let n = segment.len() as int;
    assert(is_crlf_at(s, n));
    assert(no_crlf_before(s, n)) by {
        assert forall|m: int| 0 <= m < n implies !is_crlf_at(s, m) by {
            if m + 1 < n {
                assert(!is_crlf_at(segment, m));
            }
        }
    }
    lemma_first_crlf_is(s, n);
    assert(s.take(n) =~= segment);
    assert(s.skip(n + 2) =~= rest);
}

/// Round trip of one line of text: a text whose bytes hold no delimiter, sent
/// as its bytes and the delimiter, comes out as the same text, and what
/// followed it stays pending.
pub proof fn lemma_text_round_trip(text: Seq<char>, rest: Seq<u8>)
    requires
        free_of_crlf(encode_utf8(text)),
    ensures
        line_of(encode_utf8(text) + crlf() + rest) == Ok::<Option<Seq<char>>, LineError>(Some(text)),
        pending_after(encode_utf8(text) + crlf() + rest) == rest,
{
    lemma_take_line_of_segment(encode_utf8(text), rest);
    encode_utf8_valid_utf8(text);
    encode_utf8_decode_utf8(text);
}

/// Round trip on the wire form: from the joined segments, as many lines come
/// out as segments went in, the same ones in the same order, each without its
/// delimiter; what follows the last delimiter stays pending, and holds no
/// further line.
pub proof fn lemma_lines_round_trip(segments: Seq<Seq<u8>>, remainder: Seq<u8>)
    requires
        all_free_of_crlf(segments),
        free_of_crlf(remainder),
    ensures
        serve_many(join_lines(segments) + remainder, Seq::empty(), segments.len()) == (
            segments,
            remainder,
            Seq::<Seq<u8>>::empty(),
        ),
        take_line(remainder) is None,
    decreases segments.len(),
{
    lemma_first_crlf_none(remainder);
    let wire = join_lines(segments) + remainder;
    let none = Seq::<Seq<u8>>::empty();
    if segments.len() == 0 {
        assert(wire =~= remainder);
        assert(serve_many(wire, none, 0).0 =~= segments);
    } else {
        let head = segments.first();
        let tail = segments.drop_first();
        assert(free_of_crlf(head));
        assert(all_free_of_crlf(tail)) by {
            assert forall|i: int| 0 <= i < tail.len() implies free_of_crlf(#[trigger] tail[i]) by {
                assert(tail[i] == segments[i + 1]);
            }
        }
        let rest = join_lines(tail) + remainder;
        assert(wire =~= head + crlf() + rest);
        lemma_take_line_of_segment(head, rest);
        lemma_lines_round_trip(tail, remainder);
        assert(serve(wire, none) == Some((head, rest, none)));
        assert(seq![head] + tail =~= segments);
    }
}

/// One request is served alike whatever the chunk boundaries: where the bytes
/// pending and those still to come together hold a line, the request hands
/// out that line, and what is then pending and what is still unread together
/// make up the rest; where they hold none, the request cannot be served.
pub proof fn lemma_serve_ignores_chunking(pending: Seq<u8>, chunks: Seq<Seq<u8>>)
    requires
        all_bring_bytes(chunks),
    ensures
        match take_line(pending + concat(chunks)) {
            Some((segment, rest)) => {
                &&& serve(pending, chunks) is Some
                &&& serve(pending, chunks)->Some_0.0 == segment
                &&& serve(pending, chunks)->Some_0.1 + concat(serve(pending, chunks)->Some_0.2)
                    == rest
                &&& all_bring_bytes(serve(pending, chunks)->Some_0.2)
            },
            None => serve(pending, chunks) is None,
        },
    decreases chunks.len(),
{
    if take_line(pending) is Some {
        lemma_first_crlf_stays(pending, concat(chunks));
    } else if chunks.len() == 0 {
        assert(pending + concat(chunks) =~= pending);
    } else {
        let tail = chunks.drop_first();
        assert(chunks.first() == chunks[0]);
        assert(all_bring_bytes(tail)) by {
            assert forall|i: int| 0 <= i < tail.len() implies (#[trigger] tail[i]).len() > 0 by {
                assert(tail[i] == chunks[i + 1]);
            }
        }
        assert(pending + concat(chunks) =~= (pending + chunks.first()) + concat(tail));
        lemma_serve_ignores_chunking(pending + chunks.first(), tail);
    }
}

/// Several requests are served alike whatever the chunk boundaries: the lines
/// that go out are those that would go out had all the bytes been pending
/// from the start, and no byte of the rest is lost.
pub proof fn lemma_serve_many_ignores_chunking(
    pending: Seq<u8>,
    chunks: Seq<Seq<u8>>,
    count: nat,
)
    requires
        all_bring_bytes(chunks),
    ensures
        serve_many(pending, chunks, count).0 == serve_many(
            pending + concat(chunks),
            Seq::empty(),
            count,
        ).0,
        serve_many(pending, chunks, count).1 + concat(serve_many(pending, chunks, count).2)
            == serve_many(pending + concat(chunks), Seq::empty(), count).1,
    decreases count,
{
    let none = Seq::<Seq<u8>>::empty();
    let whole = pending + concat(chunks);
    lemma_serve_ignores_chunking(pending, chunks);
    assert(concat(none) =~= Seq::<u8>::empty());
    if count > 0 {
        match take_line(whole) {
            Some((segment, rest)) => {
                let (s, p, c) = serve(pending, chunks)->Some_0;
                assert(serve(whole, none) == Some((segment, rest, none)));
                lemma_serve_many_ignores_chunking(p, c, (count - 1) as nat);
            },
            None => {
                assert(serve(whole, none) is None);
                assert(whole + concat(none) =~= whole);
            },
        }
    } else {
        assert(whole + concat(none) =~= whole);
    }
}

/// The round trip in full: when the chunks, laid end to end, are the wire form
/// of `segments` followed by a remainder without a delimiter, then as many
/// requests as there are segments hand out exactly those segments in order,
/// whatever the chunk boundaries. The remainder is kept, partly pending and
/// partly in the chunks not yet read.
pub proof fn lemma_lines_in_equal_lines_out(
    chunks: Seq<Seq<u8>>,
    segments: Seq<Seq<u8>>,
    remainder: Seq<u8>,
)
    requires
        all_bring_bytes(chunks),
        all_free_of_crlf(segments),
        free_of_crlf(remainder),
        concat(chunks) == join_lines(segments) + remainder,
    ensures
        serve_many(Seq::empty(), chunks, segments.len()).0 == segments,
        serve_many(Seq::empty(), chunks, segments.len()).1 + concat(
            serve_many(Seq::empty(), chunks, segments.len()).2,
        ) == remainder,
{
    let start = Seq::<u8>::empty();
    assert(start + concat(chunks) =~= concat(chunks));
    lemma_serve_many_ignores_chunking(start, chunks, segments.len());
    lemma_lines_round_trip(segments, remainder);
}

} // verus!
