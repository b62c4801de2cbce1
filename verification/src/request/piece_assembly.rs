//! The download of one piece, block by block.

use vstd::prelude::*;
use crate::request::torrent_message::{PeerMessage, TorrentMessage};

verus! {

/// The size of a block, the unit in which a piece is requested: 16 KiB.
pub const PAYLOAD_LENGTH: u32 = 16384;

/// How many requests are sent at most before answers are awaited.
pub const MAX_REQUEST_FOR_PIECE: usize = 20;

/// The number of blocks of a piece of `piece_size` bytes; the last may be
/// short.
pub open spec fn block_count(piece_size: nat) -> nat {
    piece_size / 16384 + if piece_size % 16384 == 0 {
        0nat
    } else {
        1nat
    }
}

/// The size of block `block` of a piece of `piece_size` bytes: 16 KiB, but
/// for the last block what is left of the piece.
pub open spec fn block_size(piece_size: nat, block: int) -> int {
    if block == block_count(piece_size) - 1 {
        piece_size - block * 16384
    } else {
        16384
    }
}

/// The indices of the blocks that have not arrived, in ascending order.
pub open spec fn missing(blocks: Seq<Option<Seq<u8>>>) -> Seq<int>
    decreases blocks.len(),
{
    if blocks.len() == 0 {
        Seq::empty()
    } else if blocks.last() is None {
        missing(blocks.drop_last()).push(blocks.len() - 1)
    } else {
        missing(blocks.drop_last())
    }
}

/// The blocks that have arrived, one after the other in ascending order.
pub open spec fn assembled(blocks: Seq<Option<Seq<u8>>>) -> Seq<u8>
    decreases blocks.len(),
{
    if blocks.len() == 0 {
        Seq::empty()
    } else {
        assembled(blocks.drop_last()) + match blocks.last() {
            Some(block) => block,
            None => Seq::empty(),
        }
    }
}

/// What a `PieceAssembly` holds.
pub struct PieceAssemblyView {
    pub piece_index: nat,
    pub piece_size: nat,
    pub blocks: Seq<Option<Seq<u8>>>,
}

impl PieceAssemblyView {
    /// One slot for each block of the piece, each block that has arrived of
    /// the size that its place asks for, and index and offsets within what
    /// a request can name.
    pub open spec fn wf(self) -> bool {
        &&& 1 <= self.piece_size <= u32::MAX
        &&& self.piece_index <= u32::MAX
        &&& self.blocks.len() == block_count(self.piece_size)
        &&& forall|i: int|
            0 <= i < self.blocks.len() ==> (#[trigger] self.blocks[i] matches Some(block)
                ==> block.len() == block_size(self.piece_size, i))
    }

    /// The request for block `block` of this piece.
    pub open spec fn request_for(self, block: int) -> PeerMessage {
        PeerMessage::Request {
            index: self.piece_index as u32,
            begin: (block * 16384) as u32,
            length: block_size(self.piece_size, block) as u32,
        }
    }

    /// A block that arrived as `index`, `begin`, `block` is stored: it is of
    /// this piece, its place is still empty, and it has the size that its
    /// place asks for.
    pub open spec fn accepts(self, index: u32, begin: u32, block: Seq<u8>) -> bool {
        &&& index == self.piece_index
        &&& begin / 16384 < self.blocks.len()
        &&& self.blocks[begin as int / 16384] is None
        &&& block.len() == block_size(self.piece_size, begin as int / 16384)
    }

    /// All blocks have arrived.
    pub open spec fn complete(self) -> bool {
        missing(self.blocks).len() == 0
    }
}

/// The blocks received so far of one piece: one slot for each block, empty
/// until the block arrives.
#[derive(Debug)]
pub struct PieceAssembly {
    pub piece_index: usize,
    pub piece_size: usize,
    pub blocks: Vec<Option<Vec<u8>>>,
}

/// What the slots hold.
pub open spec fn blocks_view(blocks: Seq<Option<Vec<u8>>>) -> Seq<Option<Seq<u8>>> {
    Seq::new(
        blocks.len(),
        |i: int|
            match blocks[i] {
                Some(block) => Some(block@),
                None => None,
            },
    )
}

impl View for PieceAssembly {
    type V = PieceAssemblyView;

    open spec fn view(&self) -> PieceAssemblyView {
        PieceAssemblyView {
            piece_index: self.piece_index as nat,
            piece_size: self.piece_size as nat,
            blocks: blocks_view(self.blocks@),
        }
    }
}

/// The missing blocks of a prefix of the slots are the first of the missing
/// blocks of all slots.
pub proof fn lemma_missing_prefix(blocks: Seq<Option<Seq<u8>>>, k: int)
    requires
        0 <= k <= blocks.len(),
    ensures
        missing(blocks.subrange(0, k)).len() <= missing(blocks).len(),
        missing(blocks.subrange(0, k)) == missing(blocks).subrange(
            0,
            missing(blocks.subrange(0, k)).len() as int,
        ),
    decreases blocks.len() - k,
{
    if k == blocks.len() {
        assert(blocks.subrange(0, k) =~= blocks);
        assert(missing(blocks).subrange(0, missing(blocks).len() as int) =~= missing(blocks));
    } else {
        lemma_missing_prefix(blocks.drop_last(), k);
        assert(blocks.drop_last().subrange(0, k) =~= blocks.subrange(0, k));
        let part = missing(blocks.subrange(0, k));
        assert(part =~= missing(blocks).subrange(0, part.len() as int));
    }
}

/// The missing blocks are listed in strictly ascending order, each is a slot
/// of the piece, and each is an empty slot: so no block is listed twice.
pub proof fn lemma_missing_ascending(blocks: Seq<Option<Seq<u8>>>)
    ensures
        missing(blocks).len() <= blocks.len(),
        forall|k: int|
            0 <= k < missing(blocks).len() ==> 0 <= #[trigger] missing(blocks)[k] < blocks.len()
                && blocks[missing(blocks)[k]] is None,
        forall|j: int, k: int|
            0 <= j < k < missing(blocks).len() ==> missing(blocks)[j] < missing(blocks)[k],
    decreases blocks.len(),
{
    if blocks.len() > 0 {
        lemma_missing_ascending(blocks.drop_last());
        let before = missing(blocks.drop_last());
        assert forall|k: int| 0 <= k < missing(blocks).len() implies 0 <= #[trigger] missing(
            blocks,
        )[k] < blocks.len() && blocks[missing(blocks)[k]] is None by {
            if k < before.len() {
                assert(missing(blocks)[k] == before[k]);
                assert(blocks.drop_last()[before[k]] == blocks[before[k]]);
            }
        }
        assert forall|j: int, k: int| 0 <= j < k < missing(blocks).len() implies missing(blocks)[j]
            < missing(blocks)[k] by {
            assert(missing(blocks)[j] == before[j]);
            if k < before.len() {
                assert(missing(blocks)[k] == before[k]);
            }
        }
    }
}

/// No block is missing exactly when every slot is filled.
pub proof fn lemma_complete_iff_all_present(blocks: Seq<Option<Seq<u8>>>)
    ensures
        missing(blocks).len() == 0 <==> forall|i: int|
            0 <= i < blocks.len() ==> #[trigger] blocks[i] is Some,
    decreases blocks.len(),
{
    if blocks.len() > 0 {
        lemma_complete_iff_all_present(blocks.drop_last());
        if missing(blocks).len() == 0 {
            assert forall|i: int| 0 <= i < blocks.len() implies #[trigger] blocks[i] is Some by {
                if i < blocks.len() - 1 {
                    assert(blocks.drop_last()[i] is Some);
                }
            }
        } else if forall|i: int| 0 <= i < blocks.len() ==> #[trigger] blocks[i] is Some {
            assert(blocks.last() is Some);
            assert forall|i: int| 0 <= i < blocks.drop_last().len() implies #[trigger] blocks.drop_last()[i] is Some by {
                assert(blocks[i] is Some);
            }
        }
    }
}

/// Each block that is stored leaves one block fewer missing.
pub proof fn lemma_missing_after_store(blocks: Seq<Option<Seq<u8>>>, slot: int, block: Seq<u8>)
    requires
        0 <= slot < blocks.len(),
        blocks[slot] is None,
    ensures
        missing(blocks.update(slot, Some(block))).len() + 1 == missing(blocks).len(),
    decreases blocks.len(),
{
    let next = blocks.update(slot, Some(block));
    if slot == blocks.len() - 1 {
        assert(next.drop_last() =~= blocks.drop_last());
    } else {
        assert(next.drop_last() =~= blocks.drop_last().update(slot, Some(block)));
        lemma_missing_after_store(blocks.drop_last(), slot, block);
    }
}

/// The total size of the first `k` blocks of a piece, where each has the
/// size that its place asks for.
pub open spec fn blocks_total(piece_size: nat, k: int) -> int {
    if k == block_count(piece_size) && k > 0 {
        piece_size as int
    } else {
        k * 16384
    }
}

/// Where the first `k` slots are filled with blocks of the right sizes, what
/// is assembled from them has the total size of those blocks.
pub proof fn lemma_assembled_length(piece_size: nat, blocks: Seq<Option<Seq<u8>>>, k: int)
    requires
        0 <= k <= blocks.len(),
        blocks.len() == block_count(piece_size),
        piece_size >= 1,
        forall|i: int|
            0 <= i < k ==> (#[trigger] blocks[i] matches Some(block) && block.len() == block_size(
                piece_size,
                i,
            )),
    ensures
        assembled(blocks.subrange(0, k)).len() == blocks_total(piece_size, k),
    decreases k,
{
    if k == 0 {
        assert(blocks.subrange(0, 0).len() == 0);
    } else {
        lemma_assembled_length(piece_size, blocks, k - 1);
        let part = blocks.subrange(0, k);
        assert(part.drop_last() =~= blocks.subrange(0, k - 1));
        assert(part.last() == blocks[k - 1]);
    }
}

/// A complete piece, assembled, has the size of the piece.
pub proof fn lemma_complete_size(a: PieceAssemblyView)
    requires
        a.wf(),
        a.complete(),
    ensures
        assembled(a.blocks).len() == a.piece_size,
{
    lemma_complete_iff_all_present(a.blocks);
    assert(a.blocks.subrange(0, a.blocks.len() as int) =~= a.blocks);
    lemma_assembled_length(a.piece_size, a.blocks, a.blocks.len() as int);
}

/// The number of blocks of a piece of `piece_size` bytes.
pub fn count_blocks(piece_size: usize) -> (r: usize)
    ensures
        r == block_count(piece_size as nat),
{
    let whole: usize = piece_size / 16384;
    if piece_size % 16384 == 0 {
        whole
    } else {
        whole + 1
    }
}

impl PieceAssembly {
    /// An assembly for piece `piece_index` of `piece_size` bytes, with every
    /// block still missing.
    pub fn new(piece_index: usize, piece_size: usize) -> (r: Self)
        requires
            1 <= piece_size <= u32::MAX,
            piece_index <= u32::MAX,
        ensures
            r@.wf(),
            r@.piece_index == piece_index,
            r@.piece_size == piece_size,
            forall|i: int| 0 <= i < r@.blocks.len() ==> #[trigger] r@.blocks[i] is None,
    {
        let count: usize = count_blocks(piece_size);
        let mut blocks: Vec<Option<Vec<u8>>> = Vec::new();
        let mut i: usize = 0;
        while i < count
            invariant
                i <= count,
                blocks@.len() == i,
                forall|k: int| 0 <= k < i ==> #[trigger] blocks@[k] is None,
            decreases count - i,
        {
            blocks.push(None);
            i = i + 1;
        }
        Self { piece_index, piece_size, blocks }
    }

    /// The size that block `block` must have.
    pub fn expected_block_size(&self, block: usize) -> (r: u32)
        requires
            self@.wf(),
            block < self@.blocks.len(),
        ensures
            r == block_size(self@.piece_size, block as int),
            1 <= r <= 16384,
    {
        if block == self.blocks.len() - 1 {
            (self.piece_size - block * 16384) as u32
        } else {
            PAYLOAD_LENGTH
        }
    }

    /// Whether every block has arrived.
    pub fn is_complete(&self) -> (r: bool)
        ensures
            r == self@.complete(),
    {
        let ghost view = blocks_view(self.blocks@);
        let mut i: usize = 0;
        while i < self.blocks.len()
            invariant
                i <= self.blocks.len(),
                view == blocks_view(self.blocks@),
                forall|k: int| 0 <= k < i ==> #[trigger] view[k] is Some,
            decreases self.blocks.len() - i,
        {
            if self.blocks[i].is_none() {
                proof {
                    lemma_complete_iff_all_present(view);
                    assert(view[i as int] is None);
                }
                return false;
            }
            assert(view[i as int] is Some);
            i = i + 1;
        }
        proof {
            lemma_complete_iff_all_present(view);
        }
        true
    }

    /// The next requests to send: one for each of the first missing blocks,
    /// in ascending order, `MAX_REQUEST_FOR_PIECE` at most.
    pub fn next_requests(&self) -> (r: Vec<TorrentMessage>)
        requires
            self@.wf(),
        ensures
            r@.len() == if missing(self@.blocks).len() < MAX_REQUEST_FOR_PIECE {
                missing(self@.blocks).len()
            } else {
                MAX_REQUEST_FOR_PIECE as nat
            },
            forall|k: int|
                0 <= k < r@.len() ==> (#[trigger] r@[k])@ == self@.request_for(
                    missing(self@.blocks)[k],
                ),
    {
        let ghost view = blocks_view(self.blocks@);
        let mut out: Vec<TorrentMessage> = Vec::new();
        let mut i: usize = 0;
        assert(view.subrange(0, 0) =~= Seq::<Option<Seq<u8>>>::empty());
        while i < self.blocks.len() && out.len() < MAX_REQUEST_FOR_PIECE
            invariant
                i <= self.blocks.len(),
                self@.wf(),
                view == blocks_view(self.blocks@),
                view == self@.blocks,
                out@.len() <= MAX_REQUEST_FOR_PIECE,
                out@.len() == missing(view.subrange(0, i as int)).len(),
                forall|k: int|
                    0 <= k < out@.len() ==> (#[trigger] out@[k])@ == self@.request_for(
                        missing(view.subrange(0, i as int))[k],
                    ),
            decreases self.blocks.len() - i,
        {
            proof {
                assert(view.subrange(0, i + 1).drop_last() =~= view.subrange(0, i as int));
                assert(view.subrange(0, i + 1).last() == view[i as int]);
            }
            if self.blocks[i].is_none() {
                let length: u32 = self.expected_block_size(i);
                let request = TorrentMessage::Request {
                    index: self.piece_index as u32,
                    begin: (i * 16384) as u32,
                    length,
                };
                out.push(request);
            }
            i = i + 1;
        }
        proof {
            lemma_missing_prefix(view, i as int);
            if i == self.blocks@.len() {
                assert(view.subrange(0, i as int) =~= view);
            }
        }
        out
    }

    /// Takes a block that a peer sent as `index`, `begin`, `block`. The
    /// block is stored where it is of this piece, its slot `begin / 16384`
    /// is still empty and it has the size that the slot asks for; otherwise
    /// it is dropped. Returns whether it was stored.
    pub fn on_block(&mut self, index: u32, begin: u32, block: Vec<u8>) -> (stored: bool)
        requires
            old(self)@.wf(),
        ensures
            final(self)@.wf(),
            stored == old(self)@.accepts(index, begin, block@),
            final(self)@.piece_index == old(self)@.piece_index,
            final(self)@.piece_size == old(self)@.piece_size,
            final(self)@.blocks == if stored {
                old(self)@.blocks.update(begin as int / 16384, Some(block@))
            } else {
                old(self)@.blocks
            },
    {
        let slot: usize = (begin / PAYLOAD_LENGTH) as usize;
        if index as usize != self.piece_index || slot >= self.blocks.len() {
            return false;
        }
        assert(blocks_view(self.blocks@)[slot as int] is None == self.blocks@[slot as int] is None);
        if self.blocks[slot].is_some() {
            return false;
        }
        let expected: u32 = self.expected_block_size(slot);
        if block.len() != expected as usize {
            return false;
        }
        let ghost before = blocks_view(self.blocks@);
        self.blocks.set(slot, Some(block));
        proof {
            assert(blocks_view(self.blocks@) =~= before.update(slot as int, Some(block@)));
        }
        true
    }

    /// The piece as far as it has arrived: the blocks present, one after the
    /// other in ascending order. For a complete assembly this is the whole
    /// piece.
    pub fn build_piece_from_blocks(&self) -> (final_piece: Vec<u8>)
        ensures
            final_piece@ == assembled(self@.blocks),
    {
        let ghost view = blocks_view(self.blocks@);
        let mut final_piece: Vec<u8> = Vec::new();
        let mut i: usize = 0;
        assert(view.subrange(0, 0) =~= Seq::<Option<Seq<u8>>>::empty());
        while i < self.blocks.len()
            invariant
                i <= self.blocks.len(),
                view == blocks_view(self.blocks@),
                final_piece@ == assembled(view.subrange(0, i as int)),
            decreases self.blocks.len() - i,
        {
            proof {
                assert(view.subrange(0, i + 1).drop_last() =~= view.subrange(0, i as int));
                assert(view.subrange(0, i + 1).last() == view[i as int]);
            }
            match &self.blocks[i] {
                Some(block_data) => {
                    let ghost before = final_piece@;
                    let mut j: usize = 0;
                    while j < block_data.len()
                        invariant
                            j <= block_data.len(),
                            final_piece@ == before + block_data@.subrange(0, j as int),
                        decreases block_data.len() - j,
                    {
                        final_piece.push(block_data[j]);
                        assert(before + block_data@.subrange(0, j + 1) =~= (before
                            + block_data@.subrange(0, j as int)).push(block_data@[j as int]));
                        j = j + 1;
                    }
                    assert(block_data@.subrange(0, block_data@.len() as int) =~= block_data@);
                },
                None => {
                    assert(final_piece@ + Seq::<u8>::empty() =~= final_piece@);
                },
            }
            i = i + 1;
        }
        assert(view.subrange(0, i as int) =~= view);
        final_piece
    }
}

} // verus!
