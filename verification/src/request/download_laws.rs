//! What holds of a whole download: of every run of the coordinator, and of
//! the output file once the pieces that the coordinator has staged are
//! written where the sink says.

use vstd::prelude::*;
use crate::digest::sha1_of;
use crate::request::client::{lemma_count_true, lemma_verdict, verdict, DownloadStateView};
use crate::request::storage::{lemma_write_piece, overwritten, piece_of, TorrentPersistedView};

verus! {

/// The coordinator's record after it has taken `deliveries` in turn, each a
/// piece index and the bytes that a worker delivered for it.
pub open spec fn after_deliveries(
    state: DownloadStateView,
    deliveries: Seq<(int, Seq<u8>)>,
) -> DownloadStateView
    decreases deliveries.len(),
{
    if deliveries.len() == 0 {
        state
    } else {
        verdict(
            after_deliveries(state, deliveries.drop_last()),
            deliveries.last().0,
            sha1_of(deliveries.last().1),
        ).1
    }
}

/// The deliveries that the coordinator has had staged, in turn.
pub open spec fn staged_of(state: DownloadStateView, deliveries: Seq<(int, Seq<u8>)>) -> Seq<
    (int, Seq<u8>),
>
    decreases deliveries.len(),
{
    if deliveries.len() == 0 {
        Seq::empty()
    } else if verdict(
        after_deliveries(state, deliveries.drop_last()),
        deliveries.last().0,
        sha1_of(deliveries.last().1),
    ).0 is Stage {
        staged_of(state, deliveries.drop_last()).push(deliveries.last())
    } else {
        staged_of(state, deliveries.drop_last())
    }
}

/// One of `pieces` is piece `index`.
pub open spec fn holds_piece(pieces: Seq<(int, Seq<u8>)>, index: int) -> bool {
    exists|k: int| 0 <= k < pieces.len() && (#[trigger] pieces[k]).0 == index
}

/// Of every run of the coordinator: the record stays consistent; what is
/// staged is a piece of the torrent that was not complete and whose bytes
/// have the published digest; no piece is staged twice; and a piece is
/// complete at the end exactly when it was at the start or has been staged.
pub proof fn lemma_run(state: DownloadStateView, deliveries: Seq<(int, Seq<u8>)>)
    requires
        state.wf(),
    ensures
        after_deliveries(state, deliveries).wf(),
        after_deliveries(state, deliveries).hashes == state.hashes,
        forall|k: int|
            0 <= k < staged_of(state, deliveries).len() ==> {
                let (index, bytes) = #[trigger] staged_of(state, deliveries)[k];
                &&& 0 <= index < state.hashes.len()
                &&& !state.completed[index]
                &&& sha1_of(bytes) == state.hashes[index]
            },
        forall|j: int, k: int|
            0 <= j < k < staged_of(state, deliveries).len() ==> (#[trigger] staged_of(
                state,
                deliveries,
            )[j]).0 != (#[trigger] staged_of(state, deliveries)[k]).0,
        forall|i: int|
            0 <= i < state.hashes.len() ==> (#[trigger] after_deliveries(
                state,
                deliveries,
            ).completed[i] <==> state.completed[i] || holds_piece(
                staged_of(state, deliveries),
                i,
            )),
    decreases deliveries.len(),
{
    if deliveries.len() > 0 {
        let earlier = deliveries.drop_last();
        let (index, bytes) = deliveries.last();
        let middle = after_deliveries(state, earlier);
        let before = staged_of(state, earlier);
        let end = after_deliveries(state, deliveries);
        let staged = staged_of(state, deliveries);
        lemma_run(state, earlier);
        lemma_verdict(middle, index, sha1_of(bytes));
        let action = verdict(middle, index, sha1_of(bytes)).0;
        if action is Stage {
            assert(staged == before.push((index, bytes)));
            assert(!middle.completed[index]);
            assert(!holds_piece(before, index));
            assert forall|k: int| 0 <= k < staged.len() implies {
                let (i, b) = #[trigger] staged[k];
                &&& 0 <= i < state.hashes.len()
                &&& !state.completed[i]
                &&& sha1_of(b) == state.hashes[i]
            } by {
                if k < before.len() {
                    assert(staged[k] == before[k]);
                }
            }
            assert forall|j: int, k: int| 0 <= j < k < staged.len() implies (#[trigger] staged[j]).0
                != (#[trigger] staged[k]).0 by {
                assert(staged[j] == before[j]);
                if k < before.len() {
                    assert(staged[k] == before[k]);
                } else {
                    assert(before[j].0 != index);
                }
            }
            assert forall|i: int| 0 <= i < state.hashes.len() implies (#[trigger] end.completed[i]
                <==> state.completed[i] || holds_piece(staged, i)) by {
                if i == index {
                    assert(staged[before.len() as int].0 == index);
                } else {
                    assert(end.completed[i] == middle.completed[i]);
                    if holds_piece(before, i) {
                        let k = choose|k: int| 0 <= k < before.len() && (#[trigger] before[k]).0 == i;
                        assert(staged[k] == before[k]);
                    }
                    if holds_piece(staged, i) {
                        let k = choose|k: int| 0 <= k < staged.len() && (#[trigger] staged[k]).0 == i;
                        assert(k < before.len());
                        assert(before[k] == staged[k]);
                    }
                }
            }
        } else {
            assert(end == middle);
            assert(staged == before);
        }
    }
}

/// The output file `image` after `pieces` have been written in turn, each
/// at the offset of its index.
pub open spec fn written(sink: TorrentPersistedView, image: Seq<u8>, pieces: Seq<(int, Seq<u8>)>) -> Seq<
    u8,
>
    decreases pieces.len(),
{
    if pieces.len() == 0 {
        image
    } else {
        overwritten(
            written(sink, image, pieces.drop_last()),
            sink.offset(pieces.last().0),
            pieces.last().1,
        )
    }
}

/// Where the pieces that have been written are pieces of the file, each
/// piece of the file holds what was last written for it, or what it held
/// before if nothing was.
pub proof fn lemma_written(
    sink: TorrentPersistedView,
    image: Seq<u8>,
    pieces: Seq<(int, Seq<u8>)>,
    index: int,
)
    requires
        sink.piece_length >= 1,
        sink.total_length >= 1,
        image.len() == sink.total_length,
        forall|k: int|
            0 <= k < pieces.len() ==> sink.takes((#[trigger] pieces[k]).0, pieces[k].1),
        0 <= index < sink.piece_count(),
    ensures
        written(sink, image, pieces).len() == image.len(),
        holds_piece(pieces, index) ==> exists|k: int|
            0 <= k < pieces.len() && (#[trigger] pieces[k]).0 == index && piece_of(
                sink,
                written(sink, image, pieces),
                index,
            ) == pieces[k].1,
        !holds_piece(pieces, index) ==> piece_of(sink, written(sink, image, pieces), index)
            == piece_of(sink, image, index),
    decreases pieces.len(),
{
    if pieces.len() > 0 {
        let earlier = pieces.drop_last();
        let (last_index, bytes) = pieces.last();
        assert forall|k: int| 0 <= k < earlier.len() implies sink.takes(
            (#[trigger] earlier[k]).0,
            earlier[k].1,
        ) by {
            assert(earlier[k] == pieces[k]);
        }
        assert(sink.takes(pieces[pieces.len() - 1].0, pieces[pieces.len() - 1].1));
        lemma_written(sink, image, earlier, index);
        let middle = written(sink, image, earlier);
        lemma_write_piece(sink, middle, last_index, bytes, index);
        if last_index == index {
            assert(pieces[pieces.len() - 1].0 == index);
        } else {
            if holds_piece(earlier, index) {
                let k = choose|k: int|
                    0 <= k < earlier.len() && (#[trigger] earlier[k]).0 == index && piece_of(
                        sink,
                        middle,
                        index,
                    ) == earlier[k].1;
                assert(pieces[k] == earlier[k]);
            }
            if holds_piece(pieces, index) {
                let k = choose|k: int| 0 <= k < pieces.len() && (#[trigger] pieces[k]).0 == index;
                assert(k < earlier.len());
                assert(earlier[k] == pieces[k]);
            }
        }
    }
}

/// Of a whole download. The coordinator starts from a record in which the
/// pieces marked complete have their published digest in the output file,
/// takes deliveries in turn, and what it has staged is written to the file
/// where the sink says. Once every piece is complete, every piece of the
/// file has its published digest.
pub proof fn lemma_finished_download(
    state: DownloadStateView,
    sink: TorrentPersistedView,
    image: Seq<u8>,
    deliveries: Seq<(int, Seq<u8>)>,
    index: int,
)
    requires
        state.wf(),
        sink.piece_length >= 1,
        sink.total_length >= 1,
        sink.piece_count() == state.hashes.len(),
        image.len() == sink.total_length,
        forall|i: int|
            0 <= i < state.hashes.len() && #[trigger] state.completed[i] ==> sha1_of(
                piece_of(sink, image, i),
            ) == state.hashes[i],
        forall|k: int|
            0 <= k < staged_of(state, deliveries).len() ==> sink.takes(
                (#[trigger] staged_of(state, deliveries)[k]).0,
                staged_of(state, deliveries)[k].1,
            ),
        after_deliveries(state, deliveries).finished(),
        0 <= index < state.hashes.len(),
    ensures
        sha1_of(piece_of(sink, written(sink, image, staged_of(state, deliveries)), index))
            == state.hashes[index],
{
    let end = after_deliveries(state, deliveries);
    let staged = staged_of(state, deliveries);
    lemma_run(state, deliveries);
    lemma_count_true(end.completed);
    assert(end.completed[index]);
    lemma_written(sink, image, staged, index);
    if holds_piece(staged, index) {
        let k = choose|k: int|
            0 <= k < staged.len() && (#[trigger] staged[k]).0 == index && piece_of(
                sink,
                written(sink, image, staged),
                index,
            ) == staged[k].1;
        assert(sha1_of(staged[k].1) == state.hashes[staged[k].0]);
    } else {
        assert(state.completed[index]);
    }
}

} // verus!
