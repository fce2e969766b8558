//! The line reader: bytes come in chunks of any size, lines go out one at a
//! time, each ended by CR LF on the wire and handed out without it.
use std::str::Utf8Error;
use vstd::prelude::*;
use vstd::string::StringSliceAdditionalSpecFns;
use vstd::utf8::{decode_utf8, encode_utf8_decode_utf8, valid_utf8};

verus! {

/// The most bytes that the driver asks of the source in one read.
pub const CHUNK_SIZE: usize = 4096;

/// `std::str::Utf8Error`, the error of `std::str::from_utf8`. It is carried
/// to the caller as it came.
#[verifier::external_type_specification]
#[verifier::external_body]
pub struct ExUtf8Error(Utf8Error);

/// The error that `std::str::from_utf8` returns for bytes that are not valid
/// UTF-8. It says where the bytes stop being valid, and so depends on the
/// bytes alone.
pub uninterp spec fn utf8_error(bytes: Seq<u8>) -> Utf8Error;

/// `std::str::from_utf8`: succeeds exactly on valid UTF-8, and the text it
/// then returns is made of the very bytes it was given. Its error is named,
/// not described.
pub assume_specification[ core::str::from_utf8 ](v: &[u8]) -> (text: Result<&str, Utf8Error>)
    ensures
        text is Ok <==> valid_utf8(v@),
        text matches Ok(s) ==> s.spec_bytes() == v@,
        text matches Err(e) ==> e == utf8_error(v@),
;

/// Why no line could be handed out.
#[derive(Debug, PartialEq, Eq)]
pub enum LineError {
    /// The bytes before the delimiter are not valid UTF-8.
    InvalidData(Utf8Error),
    /// The source ended before the line did.
    UnexpectedEof,
}

/// Whether the two bytes CR LF stand at position `n` of `s`.
pub open spec fn is_crlf_at(s: Seq<u8>, n: int) -> bool {
    0 <= n && n + 1 < s.len() && s[n] == 13 && s[n + 1] == 10
}

/// Whether no CR LF stands before position `n` of `s`.
pub open spec fn no_crlf_before(s: Seq<u8>, n: int) -> bool {
    forall|m: int| 0 <= m < n ==> !is_crlf_at(s, m)
}

/// Whether `s` holds no CR LF at all.
pub open spec fn free_of_crlf(s: Seq<u8>) -> bool {
    no_crlf_before(s, s.len() as int)
}

/// The position of the first CR LF in `s`, if there is one.
pub open spec fn first_crlf(s: Seq<u8>) -> Option<int> {
    if exists|n: int| is_crlf_at(s, n) && no_crlf_before(s, n) {
        Some(choose|n: int| is_crlf_at(s, n) && no_crlf_before(s, n))
    } else {
        None
    }
}

/// The first CR LF is where a CR LF stands with none before it.
pub proof fn lemma_first_crlf_is(s: Seq<u8>, n: int)
    requires
        is_crlf_at(s, n),
        no_crlf_before(s, n),
    ensures
        first_crlf(s) == Some(n),
{
    let found = first_crlf(s)->Some_0;
    assert(is_crlf_at(s, found) && no_crlf_before(s, found));
    if found < n {
        assert(!is_crlf_at(s, found));
    }
    if n < found {
        assert(!is_crlf_at(s, n));
    }
}

/// There is no first CR LF exactly where there is no CR LF.
pub proof fn lemma_first_crlf_none(s: Seq<u8>)
    ensures
        first_crlf(s) is None <==> free_of_crlf(s),
{
    if first_crlf(s) is Some {
        let found = first_crlf(s)->Some_0;
        assert(is_crlf_at(s, found) && no_crlf_before(s, found));
        assert(!free_of_crlf(s));
    } else if !free_of_crlf(s) {
        let m = choose|m: int| 0 <= m < s.len() && is_crlf_at(s, m);
        lemma_least_crlf(s, m);
    }
}

/// Where a CR LF stands, a first one stands at or before it.
proof fn lemma_least_crlf(s: Seq<u8>, m: int)
    requires
        is_crlf_at(s, m),
    ensures
        exists|n: int| is_crlf_at(s, n) && no_crlf_before(s, n),
    decreases m,
{
    if !no_crlf_before(s, m) {
        let k = choose|k: int| 0 <= k < m && is_crlf_at(s, k);
        lemma_least_crlf(s, k);
    }
}

/// The first line of `pending`, without its delimiter, and what follows the
/// delimiter; `None` where `pending` holds no delimiter.
pub open spec fn take_line(pending: Seq<u8>) -> Option<(Seq<u8>, Seq<u8>)> {
    match first_crlf(pending) {
        Some(n) => Some((pending.take(n), pending.skip(n + 2))),
        None => None,
    }
}

/// What a request for a line comes to on the pending bytes `pending`: no
/// line yet, the first line's text, or the error of its decoding.
pub open spec fn line_of(pending: Seq<u8>) -> Result<Option<Seq<char>>, LineError> {
    match take_line(pending) {
        None => Ok(None),
        Some((segment, rest)) => if valid_utf8(segment) {
            Ok(Some(decode_utf8(segment)))
        } else {
            Err(LineError::InvalidData(utf8_error(segment)))
        },
    }
}

/// The bytes that stay pending after a request for a line: what follows the
/// first line, where there is one and it is text; else all of them.
pub open spec fn pending_after(pending: Seq<u8>) -> Seq<u8> {
    match take_line(pending) {
        Some((segment, rest)) if valid_utf8(segment) => rest,
        _ => pending,
    }
}

/// What `get_line_fro_vec` found: the number of bytes that the line takes
/// up in the buffer, its delimiter counted, and the line's text. A count of
/// 0 says that the buffer holds no complete line.
#[derive(Debug, PartialEq, Eq)]
pub struct GetLineResult(pub usize, pub String);

/// Looks for the first complete line in `buf`.
pub fn get_line_fro_vec(buf: &Vec<u8>) -> (found: Result<GetLineResult, LineError>)
    ensures
        match first_crlf(buf@) {
            None => found matches Ok(GetLineResult(used, line)) && used == 0 && line@.len() == 0,
            Some(n) => if valid_utf8(buf@.take(n)) {
                found matches Ok(GetLineResult(used, line)) && used == n + 2 && line@ == decode_utf8(
                    buf@.take(n),
                )
            } else {
                found == Err::<GetLineResult, LineError>(
                    LineError::InvalidData(utf8_error(buf@.take(n))),
                )
            },
        },
{
    let len: usize = buf.len();
    let mut n: usize = 0;
    while len - n > 1 && !(buf[n] == 13 && buf[n + 1] == 10)
        invariant
            len == buf@.len(),
            n <= len,
            no_crlf_before(buf@, n as int),
        decreases len - n,
    {
        n += 1;
    }
    if len - n <= 1 {
        proof {
            assert(free_of_crlf(buf@)) by {
                assert forall|m: int| 0 <= m < buf@.len() implies !is_crlf_at(buf@, m) by {
                    if m < n {
                        assert(!is_crlf_at(buf@, m));
                    }
                }
            }
            lemma_first_crlf_none(buf@);
        }
        return Ok(GetLineResult(0, String::new()));
    }
    proof {
        lemma_first_crlf_is(buf@, n as int);
        assert(buf@.subrange(0, n as int) =~= buf@.take(n as int));
    }
    match std::str::from_utf8(&buf.as_slice()[0..n]) {
        Ok(text) => {
            proof {
                encode_utf8_decode_utf8(text@);
            }
            Ok(GetLineResult(n + 2, text.to_owned()))
        },
        Err(e) => Err(LineError::InvalidData(e)),
    }
}

/// The reader's state: the bytes that came from the source and have not gone
/// out in a line yet.
pub struct HttpReader {
    buf: Vec<u8>,
}

impl View for HttpReader {
    type V = Seq<u8>;

    closed spec fn view(&self) -> Seq<u8> {
        self.buf@
    }
}

impl HttpReader {
    /// A reader that holds nothing.
    pub fn new() -> (reader: Self)
        ensures
            reader@ == Seq::<u8>::empty(),
    {
        Self { buf: Vec::new() }
    }

    /// Hands out the first complete line of the pending bytes and removes it
    /// and its delimiter from them. `Ok(None)` says that no complete line is
    /// pending: the driver then reads from the source and calls `accept`.
    pub fn read_lines(&mut self) -> (step: Result<Option<String>, LineError>)
        ensures
            match line_of(old(self)@) {
                Ok(None) => step == Ok::<Option<String>, LineError>(None),
                Ok(Some(text)) => step matches Ok(Some(line)) && line@ == text,
                Err(e) => step == Err::<Option<String>, LineError>(e),
            },
            final(self)@ == pending_after(old(self)@),
    {
        match get_line_fro_vec(&self.buf) {
            Ok(GetLineResult(used, line)) => {
                if used == 0 {
                    Ok(None)
                } else {
                    let rest = self.buf.split_off(used);
                    self.buf = rest;
                    assert(self.buf@ =~= old(self)@.skip(used as int));
                    Ok(Some(line))
                }
            },
            Err(e) => Err(e),
        }
    }

    /// Takes in what one read of the source brought. A read that brought
    /// nothing means that the source has ended, which is an error here: the
    /// line that was asked for cannot come any more.
    pub fn accept(&mut self, chunk: &[u8]) -> (taken: Result<(), LineError>)
        ensures
            chunk@.len() == 0 ==> {
                &&& taken == Err::<(), LineError>(LineError::UnexpectedEof)
                &&& final(self)@ == old(self)@
            },
            chunk@.len() > 0 ==> {
                &&& taken == Ok::<(), LineError>(())
                &&& final(self)@ == old(self)@ + chunk@
            },
    {
        if chunk.len() == 0 {
            return Err(LineError::UnexpectedEof);
        }
        self.buf.extend_from_slice(chunk);
        assert(self.buf@ =~= old(self)@ + chunk@);
        Ok(())
    }
}

} // verus!
