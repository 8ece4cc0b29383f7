use vstd::prelude::*;
use crate::error::Error;
use crate::varint::{read_uvarint, uvarint, varint_read, write_uvarint, VarintRead};

verus! {

/// Default limit on the length of one frame: 4 MiB.
pub const DEFAULT_MAX_FRAME_SIZE: usize = 4194304;

/// A length-delimited frame: the varint of the payload's length, then the payload.
pub open spec fn ld_frame(payload: Seq<u8>) -> Seq<u8> {
    uvarint(payload.len()) + payload
}

/// What reading one frame from the front of some bytes gives.
#[derive(Debug, PartialEq, Eq, Structural)]
pub enum FrameStep {
    /// No byte at all: the end of the input, at a frame boundary.
    End,
    /// A frame: the length of its varint prefix, then the length of its payload.
    Frame(usize, usize),
    /// The prefix declares this length, beyond the limit.
    TooLarge(u64),
    /// A malformed prefix, or the input ends inside the frame.
    Malformed,
}

/// Reading one frame from the front of `s`, with frames limited to `max` bytes.
pub open spec fn frame_step(s: Seq<u8>, max: nat) -> FrameStep {
    match varint_read(s) {
        VarintRead::Eof => FrameStep::End,
        VarintRead::Value(n, k) => {
            if n > max {
                FrameStep::TooLarge(n)
            } else if k + n > s.len() {
                FrameStep::Malformed
            } else {
                FrameStep::Frame(k, n as usize)
            }
        },
        _ => FrameStep::Malformed,
    }
}

/// Appends one frame that holds `payload`.
pub fn ld_write(out: &mut Vec<u8>, payload: &[u8])
    ensures
        final(out)@ == old(out)@ + ld_frame(payload@),
{
    let ghost start = out@;
    write_uvarint(out, payload.len() as u64);
    let ghost mid = out@;
    out.extend_from_slice(payload);
    assert(out@ =~= start + ld_frame(payload@)) by {
        assert forall|i: int| 0 <= i < out@.len() implies #[trigger] out@[i] == (start
            + ld_frame(payload@))[i] by {
            if i >= mid.len() {
                assert(out@[i] == payload@[i - mid.len()]);
            }
        }
    }
}

/// Reads the frame that starts at `pos` in `data`, with frames limited to `max` bytes.
/// Returns `None` at a clean end, else the bounds of the payload in `data`.
pub fn ld_read(data: &[u8], pos: usize, max: usize) -> (r: Result<Option<(usize, usize)>, Error>)
    requires
        pos <= data@.len(),
    ensures
        ({
            let s = data@.subrange(pos as int, data@.len() as int);
            match frame_step(s, max as nat) {
                FrameStep::End => r == Ok::<Option<(usize, usize)>, Error>(None),
                FrameStep::Frame(k, n) => r matches Ok(Some((a, b))) && a == pos + k && b == pos
                    + k + n,
                FrameStep::TooLarge(n) => r == Err::<Option<(usize, usize)>, Error>(
                    Error::LdReadTooLarge(n),
                ),
                FrameStep::Malformed => r matches Err(e) && e is Parsing,
            }
        }),
        r matches Ok(Some((a, b))) ==> pos <= a <= b <= data@.len(),
{
    match read_uvarint(data, pos) {
        VarintRead::Eof => Ok(None),
        VarintRead::Truncated => Err(
            Error::Parsing(String::from_str("unexpected end of input in varint")),
        ),
        VarintRead::Overflow => Err(Error::Parsing(String::from_str("varint overflow"))),
        VarintRead::Value(n, k) => {
            if n > max as u64 {
                return Err(Error::LdReadTooLarge(n));
            }
            let rem = data.len() - pos;
            if k > rem || n as usize > rem - k {
                return Err(Error::Parsing(String::from_str("unexpected end of input in frame")));
            }
            Ok(Some((pos + k, pos + k + n as usize)))
        },
    }
}

} // verus!
