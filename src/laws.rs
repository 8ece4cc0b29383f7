use vstd::prelude::*;
use crate::content_id::{cid_prefix, valid_cid};
use crate::frame::{frame_step, ld_frame, FrameStep};
use crate::reader::{block_step, blocks_of, CarReader};
use crate::varint::{lemma_uvarint_cut, lemma_uvarint_round_trip, uvarint};
use crate::writer::{archive, block_frames};

verus! {

/// Reading back a frame written around `b`, whatever follows it: within the limit it gives
/// `b` and leaves what follows; beyond the limit it fails with the length of `b`.
pub proof fn lemma_frame_round_trip(b: Seq<u8>, rest: Seq<u8>, max: nat)
    requires
        b.len() <= u64::MAX,
    ensures
        b.len() <= max ==> frame_step(ld_frame(b) + rest, max) == FrameStep::Frame(
            uvarint(b.len()).len() as usize,
            b.len() as usize,
        ),
        b.len() > max ==> frame_step(ld_frame(b) + rest, max) == FrameStep::TooLarge(
            b.len() as u64,
        ),
        (ld_frame(b) + rest).subrange(uvarint(b.len()).len() as int, ld_frame(b).len() as int)
            == b,
        (ld_frame(b) + rest).skip(ld_frame(b).len() as int) == rest,
{
    let n = b.len() as u64;
    lemma_uvarint_round_trip(n, b + rest);
    let e = uvarint(b.len());
    assert(ld_frame(b) + rest =~= e + (b + rest));
    assert((ld_frame(b) + rest).subrange(e.len() as int, ld_frame(b).len() as int) =~= b);
    assert((ld_frame(b) + rest).skip(ld_frame(b).len() as int) =~= rest);
}

/// Each block's frame is read back as the same identifier and payload, and the frames
/// of a whole sequence of blocks are read back as that sequence, ending cleanly.
pub proof fn lemma_blocks_round_trip(blocks: Seq<(Seq<u8>, Seq<u8>)>, max: nat)
    requires
        forall|i: int|
            0 <= i < blocks.len() ==> valid_cid(#[trigger] blocks[i].0) && blocks[i].0.len()
                + blocks[i].1.len() <= max,
        max <= usize::MAX,
    ensures
        blocks_of(block_frames(blocks), max) == (blocks, false),
    decreases blocks.len(),
{
    if blocks.len() == 0 {
        assert(blocks =~= Seq::<(Seq<u8>, Seq<u8>)>::empty());
    } else {
        let (c, p) = blocks[0];
        let tail = blocks.drop_first();
        let f = c + p;
        let s = block_frames(blocks);
        assert(valid_cid(blocks[0].0));
        lemma_frame_round_trip(f, block_frames(tail), max);
        let k = uvarint(f.len()).len();
        lemma_uvarint_round_trip(f.len() as u64, Seq::empty());
        assert(k <= 10);
        assert((k as usize) as nat == k);
        assert((f.len() as usize) as nat == f.len());
        assert(s == ld_frame(f) + block_frames(tail));
        assert(s.subrange(k as int, (k + f.len()) as int) == f);
        assert(f.take(c.len() as int) =~= c);
        assert(cid_prefix(f) == Some(c.len()));
        assert(f.skip(c.len() as int) =~= p);
        assert(block_step(s, max) == Some(Some((c, p, (k + f.len()) as nat))));
        lemma_blocks_round_trip(tail, max);
        assert(s.skip((k + f.len()) as int) == block_frames(tail));
        assert(blocks =~= seq![(c, p)] + tail);
    }
}

/// An archive written as a header and blocks is read back as exactly that header and
/// exactly those blocks, in order, ending cleanly.
pub proof fn lemma_archive_round_trip(
    header: Seq<u8>,
    blocks: Seq<(Seq<u8>, Seq<u8>)>,
    max: nat,
    r: Result<CarReader, crate::error::Error>,
)
    requires
        header.len() <= max,
        forall|i: int|
            0 <= i < blocks.len() ==> valid_cid(#[trigger] blocks[i].0) && blocks[i].0.len()
                + blocks[i].1.len() <= max,
        max <= usize::MAX,
        CarReader::opened(archive(header, blocks), max, r),
    ensures
        r matches Ok(reader) && reader.header_view() == header && blocks_of(reader.rest(), max)
            == (blocks, false),
{
    lemma_frame_round_trip(header, block_frames(blocks), max);
    lemma_blocks_round_trip(blocks, max);
    lemma_uvarint_round_trip(header.len() as u64, Seq::empty());
    let k = uvarint(header.len()).len();
    assert((k as usize) as nat == k);
    assert((header.len() as usize) as nat == header.len());
    let data = archive(header, blocks);
    assert(data.subrange(k as int, (k + header.len()) as int) == header);
    assert(data.skip((k + header.len()) as int) == block_frames(blocks));
}

/// An archive of a header and no blocks: opening it yields the header, and the first read
/// of a block meets the clean end.
pub proof fn lemma_empty_archive(header: Seq<u8>, max: nat, r: Result<CarReader, crate::error::Error>)
    requires
        header.len() <= max,
        max <= usize::MAX,
        CarReader::opened(archive(header, Seq::empty()), max, r),
    ensures
        r matches Ok(reader) && reader.header_view() == header && block_step(reader.rest(), max)
            == Some(None::<(Seq<u8>, Seq<u8>, nat)>),
{
    lemma_archive_round_trip(header, Seq::empty(), max, r);
    lemma_frame_round_trip(header, Seq::empty(), max);
    assert(block_frames(Seq::<(Seq<u8>, Seq<u8>)>::empty()) == Seq::<u8>::empty());
}

/// A frame that holds an identifier and nothing after it reads as that identifier with an
/// empty payload.
pub proof fn lemma_cid_only_frame(cid: Seq<u8>, rest: Seq<u8>, max: nat)
    requires
        valid_cid(cid),
        cid.len() <= max,
        max <= usize::MAX,
    ensures
        block_step(ld_frame(cid) + rest, max) == Some(
            Some((cid, Seq::<u8>::empty(), ld_frame(cid).len()))),
{
    lemma_frame_round_trip(cid, rest, max);
    lemma_uvarint_round_trip(cid.len() as u64, Seq::empty());
    let k = uvarint(cid.len()).len();
    assert((ld_frame(cid) + rest).subrange(k as int, (k + cid.len()) as int) == cid);
    assert(cid.take(cid.len() as int) =~= cid);
    assert(cid_prefix(cid) == Some(cid.len()));
    assert(cid.skip(cid.len() as int) =~= Seq::<u8>::empty());
}

/// A frame cut short anywhere, in its length prefix or in its payload, is refused as
/// malformed: no partial block is read from it.
pub proof fn lemma_truncated_frame(b: Seq<u8>, cut: nat, max: nat)
    requires
        b.len() <= max,
        max <= u64::MAX,
        0 < cut < ld_frame(b).len(),
    ensures
        frame_step(ld_frame(b).take(cut as int), max) == FrameStep::Malformed,
{
    let e = uvarint(b.len());
    let s = ld_frame(b).take(cut as int);
    if cut < e.len() {
        lemma_uvarint_cut(b.len() as u64, cut);
        assert(s =~= e.take(cut as int));
    } else {
        lemma_uvarint_round_trip(b.len() as u64, b.take(cut - e.len()));
        assert(s =~= e + b.take(cut - e.len()));
    }
}

} // verus!
