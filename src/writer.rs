use vstd::prelude::*;
use crate::content_id::Cid;
use crate::frame::{ld_frame, ld_write};

verus! {

/// The block frames of `blocks`, one after another.
pub open spec fn block_frames(blocks: Seq<(Seq<u8>, Seq<u8>)>) -> Seq<u8>
    decreases blocks.len(),
{
    if blocks.len() == 0 {
        Seq::empty()
    } else {
        ld_frame(blocks[0].0 + blocks[0].1) + block_frames(blocks.drop_first())
    }
}

/// A whole archive: the header frame, then one frame per block.
pub open spec fn archive(header: Seq<u8>, blocks: Seq<(Seq<u8>, Seq<u8>)>) -> Seq<u8> {
    ld_frame(header) + block_frames(blocks)
}

proof fn lemma_block_frames_push(blocks: Seq<(Seq<u8>, Seq<u8>)>, b: (Seq<u8>, Seq<u8>))
    ensures
        block_frames(blocks.push(b)) == block_frames(blocks) + ld_frame(b.0 + b.1),
    decreases blocks.len(),
{
    if blocks.len() == 0 {
        assert(blocks.push(b).drop_first() =~= Seq::<(Seq<u8>, Seq<u8>)>::empty());
        assert(block_frames(blocks.push(b).drop_first()) == Seq::<u8>::empty());
        assert(blocks.push(b)[0] == b);
        assert(block_frames(blocks) == Seq::<u8>::empty());
        assert(block_frames(blocks.push(b)) =~= ld_frame(b.0 + b.1));
    } else {
        lemma_block_frames_push(blocks.drop_first(), b);
        assert(blocks.push(b).drop_first() =~= blocks.drop_first().push(b));
        assert(blocks.push(b)[0] == blocks[0]);
        assert(block_frames(blocks.push(b)) =~= block_frames(blocks) + ld_frame(b.0 + b.1));
    }
}

/// Writes an archive one block at a time. Each call hands back the bytes to append to the
/// output; the header frame goes out just before the first block, or at `finish`.
pub struct CarWriter {
    header: Vec<u8>,
    started: bool,
    blocks: Ghost<Seq<(Seq<u8>, Seq<u8>)>>,
    sent: Ghost<Seq<u8>>,
}

impl CarWriter {
    /// The encoded header.
    pub closed spec fn header_view(&self) -> Seq<u8> {
        self.header@
    }

    /// The blocks written so far, as identifier bytes and payload.
    pub closed spec fn written(&self) -> Seq<(Seq<u8>, Seq<u8>)> {
        self.blocks@
    }

    /// All the bytes handed out so far.
    pub closed spec fn emitted(&self) -> Seq<u8> {
        self.sent@
    }

    /// Whether the header frame has gone out.
    pub closed spec fn started(&self) -> bool {
        self.started
    }

    pub closed spec fn wf(&self) -> bool {
        if self.started {
            self.sent@ == archive(self.header@, self.blocks@)
        } else {
            self.sent@ == Seq::<u8>::empty() && self.blocks@ == Seq::<(Seq<u8>, Seq<u8>)>::empty()
        }
    }

    /// A writer for an archive whose header encodes to `header`. Nothing is emitted yet.
    pub fn new(header: Vec<u8>) -> (r: CarWriter)
        ensures
            r.wf(),
            r.header_view() == header@,
            r.written() == Seq::<(Seq<u8>, Seq<u8>)>::empty(),
            r.emitted() == Seq::<u8>::empty(),
            !r.started(),
    {
        CarWriter { header, started: false, blocks: Ghost(Seq::empty()), sent: Ghost(Seq::empty()) }
    }

    /// Writes one block; returns the bytes to append: the header frame first when this is
    /// the first block, then the frame of the identifier's bytes followed by the payload.
    pub fn write(&mut self, cid: &Cid, payload: &[u8]) -> (r: Vec<u8>)
        requires
            old(self).wf(),
        ensures
            final(self).wf(),
            final(self).started(),
            final(self).header_view() == old(self).header_view(),
            final(self).written() == old(self).written().push((cid@, payload@)),
            final(self).emitted() == old(self).emitted() + r@,
            r@ == (if old(self).started() {
                Seq::<u8>::empty()
            } else {
                ld_frame(old(self).header_view())
            }) + ld_frame(cid@ + payload@),
    {
        let mut out: Vec<u8> = Vec::new();
        if !self.started {
            ld_write(&mut out, self.header.as_slice());
        }
        let ghost head = out@;
        let mut body = cid.to_bytes();
        body.extend_from_slice(payload);
        assert(body@ =~= cid@ + payload@);
        ld_write(&mut out, body.as_slice());
        proof {
            let b = (cid@, payload@);
            lemma_block_frames_push(self.blocks@, b);
            if !self.started {
                assert(out@ =~= archive(self.header@, self.blocks@.push(b)));
            } else {
                assert(self.sent@ + out@ =~= archive(self.header@, self.blocks@.push(b)));
            }
        }
        self.started = true;
        self.blocks = Ghost(self.blocks@.push((cid@, payload@)));
        self.sent = Ghost(self.sent@ + out@);
        out
    }

    /// Ends the archive; returns the bytes still to append: the header frame when no block
    /// was written, else nothing. All that was handed out then forms the whole archive.
    pub fn finish(self) -> (r: Vec<u8>)
        requires
            self.wf(),
        ensures
            self.emitted() + r@ == archive(self.header_view(), self.written()),
            r@ == (if self.started() {
                Seq::<u8>::empty()
            } else {
                ld_frame(self.header_view())
            }),
    {
        let mut out: Vec<u8> = Vec::new();
        if !self.started {
            ld_write(&mut out, self.header.as_slice());
            assert(block_frames(self.blocks@) =~= Seq::<u8>::empty());
            assert(self.sent@ + out@ =~= archive(self.header@, self.blocks@));
        } else {
            assert(self.sent@ + out@ =~= self.sent@);
        }
        out
    }
}

} // verus!
