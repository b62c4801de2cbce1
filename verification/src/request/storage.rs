//! The sink of a download: which bytes go where in the output file, and
//! what the checkpoint beside it records. The file operations themselves
//! are the caller's.

use vstd::prelude::*;
use crate::parser::torrent_file::{lemma_last_piece, pieces_needed};
use crate::request::wire::{be_bytes, be_value, lemma_be_value_of_bytes, push_be_u32, read_be_u32};

verus! {

/// The bytes of a checkpoint that lists `indices`: each index as a
/// big-endian 32-bit number.
pub open spec fn checkpoint_bytes(indices: Seq<usize>) -> Seq<u8>
    decreases indices.len(),
{
    if indices.len() == 0 {
        Seq::empty()
    } else {
        checkpoint_bytes(indices.drop_last()) + be_bytes(indices.last() as u32)
    }
}

/// The indices that the bytes of a checkpoint list, one for each group of
/// four bytes.
pub open spec fn checkpoint_indices(bytes: Seq<u8>) -> Seq<usize> {
    Seq::new(bytes.len() / 4, |i: int| be_value(bytes.subrange(4 * i, 4 * i + 4)) as usize)
}

/// A checkpoint takes four bytes for each index.
pub proof fn lemma_checkpoint_length(indices: Seq<usize>)
    ensures
        checkpoint_bytes(indices).len() == 4 * indices.len(),
    decreases indices.len(),
{
    if indices.len() > 0 {
        lemma_checkpoint_length(indices.drop_last());
    }
}

/// Round trip: reading the checkpoint written for a list of indices gives
/// the list, where each index fits in 32 bits.
pub proof fn lemma_checkpoint_round_trip(indices: Seq<usize>)
    requires
        forall|i: int| 0 <= i < indices.len() ==> #[trigger] indices[i] <= u32::MAX,
    ensures
        checkpoint_indices(checkpoint_bytes(indices)) == indices,
    decreases indices.len(),
{
    let bytes = checkpoint_bytes(indices);
    lemma_checkpoint_length(indices);
    if indices.len() > 0 {
        let before = indices.drop_last();
        lemma_checkpoint_round_trip(before);
        lemma_checkpoint_length(before);
        let head = checkpoint_bytes(before);
        assert forall|i: int| 0 <= i < indices.len() implies checkpoint_indices(bytes)[i]
            == indices[i] by {
            if i < before.len() {
                assert(bytes.subrange(4 * i, 4 * i + 4) =~= head.subrange(4 * i, 4 * i + 4));
                assert(checkpoint_indices(head)[i] == before[i]);
            } else {
                assert(bytes.subrange(4 * i, 4 * i + 4) =~= be_bytes(indices.last() as u32));
                lemma_be_value_of_bytes(indices.last() as u32);
            }
        }
    }
    assert(checkpoint_indices(bytes) =~= indices);
}

/// What a `TorrentPersisted` holds.
pub struct TorrentPersistedView {
    pub piece_length: nat,
    pub total_length: nat,
    pub staged: Seq<(usize, Seq<u8>)>,
    pub durable: Seq<usize>,
}

impl TorrentPersistedView {
    /// The number of pieces of the file.
    pub open spec fn piece_count(self) -> nat {
        pieces_needed(self.total_length, self.piece_length)
    }

    /// The size of piece `index`.
    pub open spec fn piece_size(self, index: int) -> int {
        if index == self.piece_count() - 1 {
            self.total_length - index * self.piece_length
        } else {
            self.piece_length as int
        }
    }

    /// Where piece `index` starts in the output file.
    pub open spec fn offset(self, index: int) -> int {
        index * self.piece_length
    }

    /// Every staged piece is a piece of the file and has its size, and every
    /// index recorded is one of the file; the pieces are few enough for the
    /// checkpoint to name them.
    pub open spec fn wf(self) -> bool {
        &&& self.piece_length >= 1
        &&& self.total_length >= 1
        &&& self.piece_count() <= u32::MAX
        &&& forall|k: int|
            0 <= k < self.staged.len() ==> (#[trigger] self.staged[k]).0 < self.piece_count()
                && self.staged[k].1.len() == self.piece_size(self.staged[k].0 as int)
        &&& forall|k: int| 0 <= k < self.durable.len() ==> #[trigger] self.durable[k] < self.piece_count()
    }

    /// A piece that arrives as `index` with `bytes` is one of the file and
    /// has its size.
    pub open spec fn takes(self, index: int, bytes: Seq<u8>) -> bool {
        0 <= index < self.piece_count() && bytes.len() == self.piece_size(index)
    }
}

/// A piece lies within the file, and pieces of different indices do not
/// overlap.
pub proof fn lemma_piece_extent(sink: TorrentPersistedView, index: int, other: int)
    requires
        sink.piece_length >= 1,
        sink.total_length >= 1,
        0 <= index < other < sink.piece_count(),
    ensures
        0 <= sink.offset(index),
        sink.offset(index) + sink.piece_size(index) <= sink.offset(other),
        sink.offset(other) + sink.piece_size(other) <= sink.total_length,
        sink.piece_size(index) >= 1,
        sink.piece_size(other) >= 1,
{
    let length = sink.piece_length as int;
    let count = sink.piece_count() as int;
    lemma_last_piece(sink.total_length as int, length);
    assert(index * length >= 0) by (nonlinear_arith)
        requires
            index >= 0,
            length >= 1,
    ;
    assert(index * length + length == (index + 1) * length) by (nonlinear_arith);
    assert((index + 1) * length <= other * length) by (nonlinear_arith)
        requires
            index + 1 <= other,
            length >= 1,
    ;
    if other < count - 1 {
        assert(other * length + length == (other + 1) * length) by (nonlinear_arith);
        assert((other + 1) * length <= (count - 1) * length) by (nonlinear_arith)
            requires
                other + 1 <= count - 1,
                length >= 1,
        ;
    }
}

/// The file `image` after `bytes` have been written at `offset`.
pub open spec fn overwritten(image: Seq<u8>, offset: int, bytes: Seq<u8>) -> Seq<u8> {
    Seq::new(
        image.len(),
        |i: int|
            if offset <= i < offset + bytes.len() {
                bytes[i - offset]
            } else {
                image[i]
            },
    )
}

/// The bytes of the file `image` where piece `index` lies.
pub open spec fn piece_of(sink: TorrentPersistedView, image: Seq<u8>, index: int) -> Seq<u8> {
    image.subrange(sink.offset(index), sink.offset(index) + sink.piece_size(index))
}

/// Writing a piece at its offset puts its bytes where the piece lies and
/// leaves every other piece of the file as it was: so the order in which
/// pieces are written does not matter.
pub proof fn lemma_write_piece(
    sink: TorrentPersistedView,
    image: Seq<u8>,
    index: int,
    bytes: Seq<u8>,
    other: int,
)
    requires
        sink.piece_length >= 1,
        sink.total_length >= 1,
        image.len() == sink.total_length,
        sink.takes(index, bytes),
        0 <= other < sink.piece_count(),
    ensures
        overwritten(image, sink.offset(index), bytes).len() == image.len(),
        piece_of(sink, overwritten(image, sink.offset(index), bytes), other) == if other == index {
            bytes
        } else {
            piece_of(sink, image, other)
        },
{
    let after = overwritten(image, sink.offset(index), bytes);
    let count = sink.piece_count() as int;
    lemma_last_piece(sink.total_length as int, sink.piece_length as int);
    if index < count - 1 {
        lemma_piece_extent(sink, index, count - 1);
    }
    if other < count - 1 {
        lemma_piece_extent(sink, other, count - 1);
    }
    if other < index {
        lemma_piece_extent(sink, other, index);
    } else if index < other {
        lemma_piece_extent(sink, index, other);
    }
    assert(sink.offset(index) >= 0 && sink.offset(other) >= 0) by (nonlinear_arith)
        requires
            index >= 0,
            other >= 0,
            sink.piece_length >= 1,
            sink.offset(index) == index * sink.piece_length,
            sink.offset(other) == other * sink.piece_length,
    ;
    if other == index {
        assert(piece_of(sink, after, other) =~= bytes);
    } else {
        assert(piece_of(sink, after, other) =~= piece_of(sink, image, other));
    }
}

/// The sink of one download: the sizes of the file and its pieces, the
/// pieces staged since the last flush, and the indices of the pieces that
/// earlier flushes have recorded in the checkpoint.
#[derive(Debug)]
pub struct TorrentPersisted {
    pub piece_length: usize,
    pub total_length: usize,
    pub staged: Vec<(usize, Vec<u8>)>,
    pub durable: Vec<usize>,
}

/// What one flush asks of the caller: to write each of `pieces` at the
/// offset of the same position in `offsets`, then to replace the checkpoint
/// with `checkpoint`.
#[derive(Debug)]
pub struct FlushPlan {
    pub pieces: Vec<(usize, Vec<u8>)>,
    pub offsets: Vec<u64>,
    pub checkpoint: Vec<u8>,
}

/// What the staged pieces hold.
pub open spec fn staged_view(staged: Seq<(usize, Vec<u8>)>) -> Seq<(usize, Seq<u8>)> {
    Seq::new(staged.len(), |k: int| (staged[k].0, staged[k].1@))
}

/// The indices of the staged pieces.
pub open spec fn staged_indices(staged: Seq<(usize, Seq<u8>)>) -> Seq<usize> {
    Seq::new(staged.len(), |k: int| staged[k].0)
}

impl View for TorrentPersisted {
    type V = TorrentPersistedView;

    open spec fn view(&self) -> TorrentPersistedView {
        TorrentPersistedView {
            piece_length: self.piece_length as nat,
            total_length: self.total_length as nat,
            staged: staged_view(self.staged@),
            durable: self.durable@,
        }
    }
}

/// Reads the indices out of the bytes of a checkpoint file, or returns
/// `None` where the bytes are not a whole number of 32-bit entries.
pub fn read_checkpoint(bytes: &[u8]) -> (r: Option<Vec<usize>>)
    ensures
        match r {
            Some(indices) => bytes@.len() % 4 == 0 && indices@ == checkpoint_indices(bytes@),
            None => bytes@.len() % 4 != 0,
        },
{
    let total: usize = bytes.len();
    if total % 4 != 0 {
        return None;
    }
    let count: usize = total / 4;
    let mut indices: Vec<usize> = Vec::new();
    let mut i: usize = 0;
    while i < count
        invariant
            i <= count,
            total == bytes@.len(),
            count * 4 == total,
            indices@.len() == i,
            forall|k: int| 0 <= k < i ==> #[trigger] indices@[k] == checkpoint_indices(bytes@)[k],
        decreases count - i,
    {
        let value: u32 = read_be_u32(bytes, 4 * i);
        indices.push(value as usize);
        i = i + 1;
    }
    assert(indices@ =~= checkpoint_indices(bytes@));
    Some(indices)
}

/// The bytes of the checkpoint file that lists `indices`, each of which
/// must fit in 32 bits.
pub fn write_checkpoint(indices: &Vec<usize>) -> (r: Vec<u8>)
    requires
        forall|i: int| 0 <= i < indices@.len() ==> #[trigger] indices@[i] <= u32::MAX,
    ensures
        r@ == checkpoint_bytes(indices@),
{
    let mut out: Vec<u8> = Vec::new();
    let mut i: usize = 0;
    assert(indices@.subrange(0, 0) =~= Seq::<usize>::empty());
    while i < indices.len()
        invariant
            i <= indices.len(),
            forall|i: int| 0 <= i < indices@.len() ==> #[trigger] indices@[i] <= u32::MAX,
            out@ == checkpoint_bytes(indices@.subrange(0, i as int)),
        decreases indices.len() - i,
    {
        proof {
            assert(indices@.subrange(0, i + 1).drop_last() =~= indices@.subrange(0, i as int));
            assert(indices@.subrange(0, i + 1).last() == indices@[i as int]);
        }
        push_be_u32(&mut out, indices[i] as u32);
        i = i + 1;
    }
    assert(indices@.subrange(0, i as int) =~= indices@);
    out
}

impl TorrentPersisted {
    /// The sink of a download of a file of `total_length` bytes in pieces of
    /// `piece_length` bytes, where `checkpoint` lists the pieces that are on
    /// disk already. `None` where a size is zero, the pieces are more than
    /// the checkpoint can name, or the checkpoint lists an index that is
    /// none of the file.
    pub fn new(piece_length: usize, total_length: usize, checkpoint: Vec<usize>) -> (r: Option<
        Self,
    >)
        ensures
            match r {
                Some(sink) => {
                    &&& sink@.wf()
                    &&& sink@.piece_length == piece_length
                    &&& sink@.total_length == total_length
                    &&& sink@.staged.len() == 0
                    &&& sink@.durable == checkpoint@
                },
                None => {
                    ||| piece_length == 0
                    ||| total_length == 0
                    ||| pieces_needed(total_length as nat, piece_length as nat) > u32::MAX
                    ||| exists|k: int|
                        0 <= k < checkpoint@.len() && #[trigger] checkpoint@[k] >= pieces_needed(
                            total_length as nat,
                            piece_length as nat,
                        )
                },
            },
    {
        if piece_length == 0 || total_length == 0 {
            return None;
        }
        let whole: usize = total_length / piece_length;
        let count: usize = if total_length % piece_length == 0 {
            whole
        } else {
            assert(whole < total_length) by (nonlinear_arith)
                requires
                    whole == total_length / piece_length,
                    total_length % piece_length != 0,
                    piece_length >= 1,
                    total_length >= 0,
            ;
            whole + 1
        };
        if count > u32::MAX as usize {
            return None;
        }
        let mut k: usize = 0;
        while k < checkpoint.len()
            invariant
                k <= checkpoint.len(),
                count == pieces_needed(total_length as nat, piece_length as nat),
                forall|j: int| 0 <= j < k ==> #[trigger] checkpoint@[j] < count,
            decreases checkpoint.len() - k,
        {
            if checkpoint[k] >= count {
                assert(checkpoint@[k as int] >= pieces_needed(
                    total_length as nat,
                    piece_length as nat,
                ));
                return None;
            }
            k = k + 1;
        }
        let sink = Self { piece_length, total_length, staged: Vec::new(), durable: checkpoint };
        assert(sink@.staged.len() == 0);
        Some(sink)
    }

    /// The number of pieces of the file.
    pub fn piece_count(&self) -> (r: usize)
        requires
            self@.wf(),
        ensures
            r == self@.piece_count(),
    {
        let whole: usize = self.total_length / self.piece_length;
        if self.total_length % self.piece_length == 0 {
            whole
        } else {
            whole + 1
        }
    }

    /// The size of piece `index`.
    pub fn piece_size(&self, index: usize) -> (r: usize)
        requires
            self@.wf(),
            index < self@.piece_count(),
        ensures
            r == self@.piece_size(index as int),
            index * self.piece_length + r <= self.total_length,
    {
        let count: usize = self.piece_count();
        proof {
            lemma_last_piece(self.total_length as int, self.piece_length as int);
            if index < count - 1 {
                lemma_piece_extent(self@, index as int, count - 1);
            }
        }
        if index == count - 1 {
            assert(index * self.piece_length == (count - 1) * self.piece_length) by (nonlinear_arith)
                requires
                    index == count - 1,
            ;
            self.total_length - index * self.piece_length
        } else {
            self.piece_length
        }
    }

    /// Stages a verified piece for the next flush. A piece that is none of
    /// the file or has not its size is refused, and the sink stays as it
    /// is. Returns whether the piece was staged.
    pub fn stage(&mut self, index: usize, bytes: Vec<u8>) -> (staged: bool)
        requires
            old(self)@.wf(),
        ensures
            final(self)@.wf(),
            staged == old(self)@.takes(index as int, bytes@),
            final(self)@ == if staged {
                TorrentPersistedView {
                    staged: old(self)@.staged.push((index, bytes@)),
                    ..old(self)@
                }
            } else {
                old(self)@
            },
    {
        if index >= self.piece_count() {
            return false;
        }
        if bytes.len() != self.piece_size(index) {
            return false;
        }
        let ghost before = staged_view(self.staged@);
        self.staged.push((index, bytes));
        proof {
            assert(staged_view(self.staged@) =~= before.push((index, bytes@)));
        }
        true
    }

    /// Flushes the sink: hands out the staged pieces with the offsets at
    /// which to write them, and the checkpoint that records them beside
    /// those of earlier flushes. Afterwards nothing is staged.
    pub fn write_pieces(&mut self) -> (plan: FlushPlan)
        requires
            old(self)@.wf(),
        ensures
            final(self)@.wf(),
            final(self)@.piece_length == old(self)@.piece_length,
            final(self)@.total_length == old(self)@.total_length,
            final(self)@.staged.len() == 0,
            final(self)@.durable == old(self)@.durable + staged_indices(old(self)@.staged),
            staged_view(plan.pieces@) == old(self)@.staged,
            plan.offsets@.len() == plan.pieces@.len(),
            forall|k: int|
                0 <= k < plan.offsets@.len() ==> #[trigger] plan.offsets@[k] == old(self)@.offset(
                    old(self)@.staged[k].0 as int,
                ) && plan.offsets@[k] + old(self)@.staged[k].1.len() <= old(self)@.total_length,
            plan.checkpoint@ == checkpoint_bytes(final(self)@.durable),
    {
        let mut pieces: Vec<(usize, Vec<u8>)> = Vec::new();
        core::mem::swap(&mut pieces, &mut self.staged);
        let ghost staged = staged_view(pieces@);
        let ghost start = self.durable@;
        let mut offsets: Vec<u64> = Vec::new();
        let mut k: usize = 0;
        assert(staged_view(self.staged@) =~= Seq::<(usize, Seq<u8>)>::empty());
        assert(start + staged_indices(staged).subrange(0, 0) =~= start);
        assert(self@.durable == old(self)@.durable);
        assert(self@.piece_count() == old(self)@.piece_count());
        assert(self@.wf());
        while k < pieces.len()
            invariant
                k <= pieces.len(),
                staged == staged_view(pieces@),
                staged == old(self)@.staged,
                old(self)@.wf(),
                self.piece_length == old(self).piece_length,
                self.total_length == old(self).total_length,
                self.staged@.len() == 0,
                self@.wf(),
                offsets@.len() == k,
                self.durable@ == start + staged_indices(staged).subrange(0, k as int),
                start == old(self)@.durable,
                forall|j: int|
                    0 <= j < k ==> #[trigger] offsets@[j] == old(self)@.offset(staged[j].0 as int)
                        && offsets@[j] + staged[j].1.len() <= old(self)@.total_length,
            decreases pieces.len() - k,
        {
            let index: usize = pieces[k].0;
            proof {
                assert(staged[k as int].0 == index);
                assert(staged[k as int].0 < old(self)@.piece_count());
            }
            proof {
                let count = self@.piece_count() as int;
                lemma_last_piece(self.total_length as int, self.piece_length as int);
                if index < count - 1 {
                    lemma_piece_extent(self@, index as int, count - 1);
                }
            }
            let offset: usize = index * self.piece_length;
            offsets.push(offset as u64);
            self.durable.push(index);
            proof {
                assert(staged_indices(staged).subrange(0, k + 1) =~= staged_indices(staged).subrange(
                    0,
                    k as int,
                ).push(index));
                assert(self.durable@ =~= start + staged_indices(staged).subrange(0, k + 1));
                assert(staged_view(self.staged@) =~= Seq::<(usize, Seq<u8>)>::empty());
            }
            k = k + 1;
        }
        assert(staged_indices(staged).subrange(0, k as int) =~= staged_indices(staged));
        let checkpoint: Vec<u8> = write_checkpoint(&self.durable);
        FlushPlan { pieces, offsets, checkpoint }
    }
}

} // verus!
