//! The destination of a read: `tokio::io::ReadBuf`, as far as the buffer's
//! logic needs it.
use tokio::io::ReadBuf;
use vstd::prelude::*;

verus! {

/// `tokio::io::ReadBuf`, a byte buffer that is filled from its start. Nothing
/// of its inside is known here but what the two names below say.
#[verifier::external_type_specification]
#[verifier::external_body]
pub struct ExReadBuf<'a>(ReadBuf<'a>);

/// The filled region of a `ReadBuf`: the bytes that `ReadBuf::filled` returns.
pub uninterp spec fn read_buf_filled(buf: &ReadBuf) -> Seq<u8>;

/// The total size of the slice under a `ReadBuf`: what `ReadBuf::capacity`
/// returns. It is fixed when the `ReadBuf` is made.
pub uninterp spec fn read_buf_capacity(buf: &ReadBuf) -> nat;

/// The number of bytes that still fit into `buf`.
pub open spec fn read_buf_remaining(buf: &ReadBuf) -> int {
    read_buf_capacity(buf) - read_buf_filled(buf).len()
}

/// `ReadBuf::remaining`: the capacity less the length of the filled region.
#[verifier::external_body]
pub(crate) fn remaining(buf: &ReadBuf) -> (n: usize)
    ensures
        n == read_buf_remaining(buf),
{
    buf.remaining()
}

/// `ReadBuf::put_slice`: appends `src` to the filled region and leaves the
/// capacity as it is. The call panics when `src` does not fit, so `requires`
/// leaves that out.
#[verifier::external_body]
pub(crate) fn put_slice(buf: &mut ReadBuf, src: &[u8])
    requires
        src@.len() <= read_buf_remaining(old(buf)),
    ensures
        read_buf_filled(final(buf)) == read_buf_filled(old(buf)) + src@,
        read_buf_capacity(final(buf)) == read_buf_capacity(old(buf)),
{
    buf.put_slice(src)
}

} // verus!
