use vstd::prelude::*;
use vstd::slice::{slice_subrange, slice_to_vec};
use crate::content_id::{cid_prefix, split_cid, valid_cid, Cid};
use crate::error::Error;
use crate::header::{CarHeader, CarHeaderV1};
use crate::frame::{frame_step, ld_read, FrameStep, DEFAULT_MAX_FRAME_SIZE};

verus! {

/// Reading one block from the front of `s`: `None` on an error, `Some(None)` at a clean
/// end, else the identifier's bytes, the payload and the number of bytes the frame took.
pub open spec fn block_step(s: Seq<u8>, max: nat) -> Option<Option<(Seq<u8>, Seq<u8>, nat)>> {
    match frame_step(s, max) {
        FrameStep::End => Some(None),
        FrameStep::Frame(k, n) => {
            let f = s.subrange(k as int, k + n);
            match cid_prefix(f) {
                Some(m) => Some(Some((f.take(m as int), f.skip(m as int), (k + n) as nat))),
                None => None,
            }
        },
        _ => None,
    }
}

/// The blocks read one after another from the front of `s`, and whether an error ended
/// them (rather than a clean end).
pub open spec fn blocks_of(s: Seq<u8>, max: nat) -> (Seq<(Seq<u8>, Seq<u8>)>, bool)
    decreases s.len(),
{
    match block_step(s, max) {
        Some(Some((c, p, used))) => {
            if 0 < used <= s.len() {
                let rest = blocks_of(s.skip(used as int), max);
                (seq![(c, p)] + rest.0, rest.1)
            } else {
                (Seq::empty(), true)
            }
        },
        Some(None) => (Seq::empty(), false),
        None => (Seq::empty(), true),
    }
}

/// Reads an archive held in memory: the header frame, then one block frame at a time.
pub struct CarReader {
    data: Vec<u8>,
    pos: usize,
    header: Vec<u8>,
    max_frame_size: usize,
}

impl CarReader {
    /// The bytes not read yet.
    pub closed spec fn rest(&self) -> Seq<u8> {
        self.data@.subrange(self.pos as int, self.data@.len() as int)
    }

    /// The raw bytes of the header frame.
    pub closed spec fn header_view(&self) -> Seq<u8> {
        self.header@
    }

    /// The limit on the length of a frame.
    pub closed spec fn max_frame(&self) -> nat {
        self.max_frame_size as nat
    }

    pub closed spec fn wf(&self) -> bool {
        self.pos <= self.data@.len()
    }

    /// Reads the header frame of `data`, with the default limit on frame length.
    pub fn new(data: Vec<u8>) -> (r: Result<CarReader, Error>)
        ensures
            Self::opened(data@, DEFAULT_MAX_FRAME_SIZE as nat, r),
    {
        Self::with_max_frame_size(data, DEFAULT_MAX_FRAME_SIZE)
    }

    /// What opening an archive `data` with the limit `max` gives: the header frame is read
    /// and kept undecoded; a missing or bad header frame is an error.
    pub open spec fn opened(data: Seq<u8>, max: nat, r: Result<CarReader, Error>) -> bool {
        match frame_step(data, max) {
            FrameStep::Frame(k, n) => r matches Ok(c) && c.wf() && c.header_view() == data.subrange(
                k as int,
                k + n,
            ) && c.rest() == data.skip(k + n) && c.max_frame() == max,
            FrameStep::TooLarge(n) => r == Err::<CarReader, Error>(Error::LdReadTooLarge(n)),
            _ => r matches Err(e) && e is Parsing,
        }
    }

    /// Reads the header frame of `data`; frames longer than `max_frame_size` are refused.
    pub fn with_max_frame_size(data: Vec<u8>, max_frame_size: usize) -> (r: Result<
        CarReader,
        Error,
    >)
        ensures
            Self::opened(data@, max_frame_size as nat, r),
    {
        match ld_read(data.as_slice(), 0, max_frame_size) {
            Ok(Some((start, end))) => {
                let header = slice_to_vec(slice_subrange(data.as_slice(), start, end));
                proof {
                    assert(data@.subrange(0, data@.len() as int) =~= data@);
                    assert(data@.subrange(end as int, data@.len() as int) =~= data@.skip(
                        end as int,
                    ));
                }
                Ok(CarReader { data, pos: end, header, max_frame_size })
            },
            Ok(None) => {
                proof {
                    assert(data@.subrange(0, data@.len() as int) =~= data@);
                }
                Err(Error::Parsing(String::from_str("failed to parse uvarint for header")))
            },
            Err(e) => {
                proof {
                    assert(data@.subrange(0, data@.len() as int) =~= data@);
                }
                Err(e)
            },
        }
    }

    /// The raw bytes of the header frame, for a CBOR codec to decode.
    pub fn header_bytes(&self) -> (r: &[u8])
        ensures
            r@ == self.header_view(),
    {
        self.header.as_slice()
    }

    /// The header of this archive: `decode` (a CBOR codec) turns the header bytes into
    /// fields, then a decoding error is passed on and a version other than 1 is refused.
    pub fn header<F>(&self, decode: F) -> (r: Result<CarHeader, Error>)
        where
            F: Fn(&[u8]) -> Result<CarHeaderV1, Error>,
        requires
            forall|b: &[u8]| decode.requires((b,)),
        ensures
            exists|b: &[u8], d: Result<CarHeaderV1, Error>|
                b@ == self.header_view() && decode.ensures((b,), d) && CarHeader::checked(d, r),
    {
        let b = self.header.as_slice();
        let d = decode(b);
        CarHeader::from_decoded(d)
    }

    /// Reads the next block: `None` at a clean end of the archive.
    pub fn next_block(&mut self) -> (r: Result<Option<(Cid, Vec<u8>)>, Error>)
        requires
            old(self).wf(),
        ensures
            final(self).wf(),
            final(self).header_view() == old(self).header_view(),
            final(self).max_frame() == old(self).max_frame(),
            Self::stepped(old(self).rest(), old(self).max_frame(), r, final(self).rest()),
    {
        let ghost s = self.rest();
        match ld_read(self.data.as_slice(), self.pos, self.max_frame_size) {
            Ok(Some((start, end))) => {
                let frame = slice_subrange(self.data.as_slice(), start, end);
                match split_cid(frame) {
                    Ok(m) => {
                        let cid = Cid::from_valid(slice_to_vec(slice_subrange(frame, 0, m)));
                        let payload = slice_to_vec(slice_subrange(frame, m, frame.len()));
                        self.pos = end;
                        proof {
                            if let FrameStep::Frame(k, n) = frame_step(s, self.max_frame_size as nat) {
                                assert(frame@ =~= s.subrange(k as int, k + n));
                                assert(frame@.subrange(0, m as int) =~= frame@.take(m as int));
                                assert(frame@.subrange(m as int, frame@.len() as int)
                                    =~= frame@.skip(m as int));
                                assert(self.rest() =~= s.skip(k + n));
                            }
                        }
                        Ok(Some((cid, payload)))
                    },
                    Err(e) => {
                        proof {
                            if let FrameStep::Frame(k, n) = frame_step(s, self.max_frame_size as nat) {
                                assert(frame@ =~= s.subrange(k as int, k + n));
                            }
                        }
                        Err(e)
                    },
                }
            },
            Ok(None) => Ok(None),
            Err(e) => Err(e),
        }
    }

    /// What reading one block from `s` with the limit `max` gives, and what is left after.
    /// On an error nothing is consumed, so every later read fails the same way.
    pub open spec fn stepped(
        s: Seq<u8>,
        max: nat,
        r: Result<Option<(Cid, Vec<u8>)>, Error>,
        after: Seq<u8>,
    ) -> bool {
        &&& match block_step(s, max) {
            Some(Some((c, p, used))) => r matches Ok(Some((cid, payload))) && cid@ == c && payload@
                == p && valid_cid(c) && 0 < used <= s.len() && after == s.skip(used as int),
            Some(None) => r == Ok::<Option<(Cid, Vec<u8>)>, Error>(None) && after == s,
            None => r is Err && after == s,
        }
        &&& match frame_step(s, max) {
            FrameStep::TooLarge(n) => r == Err::<Option<(Cid, Vec<u8>)>, Error>(
                Error::LdReadTooLarge(n),
            ),
            _ => r matches Err(e) ==> e is Parsing,
        }
    }

    /// What reading every remaining block of `s` gives: one `Ok` per block in order, and a
    /// final `Err` where an error, rather than a clean end, stopped the reading.
    pub open spec fn streamed(
        s: Seq<u8>,
        max: nat,
        items: Seq<Result<(Cid, Vec<u8>), Error>>,
    ) -> bool {
        let (bs, failed) = blocks_of(s, max);
        &&& items.len() == bs.len() + (if failed {
            1int
        } else {
            0int
        })
        &&& forall|i: int|
            0 <= i < bs.len() ==> (#[trigger] items[i] matches Ok((c, p)) && c@ == bs[i].0 && p@
                == bs[i].1)
        &&& failed ==> items.last() is Err
    }

    /// Reads every remaining block, in order, stopping at the first error.
    pub fn stream(self) -> (r: Vec<Result<(Cid, Vec<u8>), Error>>)
        requires
            self.wf(),
        ensures
            Self::streamed(self.rest(), self.max_frame(), r@),
    {
        let ghost s0 = self.rest();
        let ghost max = self.max_frame();
        let ghost mut done: Seq<(Seq<u8>, Seq<u8>)> = Seq::empty();
        let mut this = self;
        let mut out: Vec<Result<(Cid, Vec<u8>), Error>> = Vec::new();
        loop
            invariant
                this.wf(),
                this.max_frame() == max,
                s0 == self.rest(),
                max == self.max_frame(),
                blocks_of(s0, max).1 == blocks_of(this.rest(), max).1,
                blocks_of(s0, max).0 == done + blocks_of(this.rest(), max).0,
                out@.len() == done.len(),
                forall|i: int|
                    0 <= i < done.len() ==> (#[trigger] out@[i] matches Ok((c, p)) && c@
                        == done[i].0 && p@ == done[i].1),
            decreases this.rest().len(),
        {
            let ghost before = this.rest();
            match this.next_block() {
                Ok(Some((cid, payload))) => {
                    proof {
                        assert(blocks_of(before, max).0 == seq![(cid@, payload@)] + blocks_of(
                            this.rest(),
                            max,
                        ).0);
                        done = done.push((cid@, payload@));
                    }
                    out.push(Ok((cid, payload)));
                    proof {
                        assert(blocks_of(s0, max).0 =~= done + blocks_of(this.rest(), max).0);
                    }
                },
                Ok(None) => {
                    proof {
                        assert(blocks_of(before, max) == (Seq::<(Seq<u8>, Seq<u8>)>::empty(), false));
                        assert(blocks_of(s0, max).0 =~= done);
                    }
                    return out;
                },
                Err(e) => {
                    let ghost old_out = out@;
                    out.push(Err(e));
                    proof {
                        assert(block_step(before, max) is None);
                        assert(blocks_of(before, max) == (Seq::<(Seq<u8>, Seq<u8>)>::empty(), true));
                        assert(blocks_of(s0, max).0 =~= done);
                        assert(out@.last() is Err);
                        assert(forall|i: int| 0 <= i < done.len() ==> out@[i] == old_out[i]);
                    }
                    return out;
                },
            }
        }
    }
}

} // verus!
