use torrent_client::request::storage::{read_checkpoint, write_checkpoint, TorrentPersisted};

#[test]
fn checkpoint_bytes_are_exact() {
    assert_eq!(write_checkpoint(&vec![]), Vec::<u8>::new());
    assert_eq!(
        write_checkpoint(&vec![0, 1, 258, 0xffff_ffff]),
        vec![0, 0, 0, 0, 0, 0, 0, 1, 0, 0, 1, 2, 0xff, 0xff, 0xff, 0xff]
    );
}

#[test]
fn checkpoint_round_trip() {
    let lists: Vec<Vec<usize>> = vec![
        vec![],
        vec![0],
        vec![5, 3, 5, 0],
        (0..1000).map(|i| i * 4_000_000).collect(),
    ];
    for indices in lists {
        let bytes = write_checkpoint(&indices);
        assert_eq!(bytes.len(), 4 * indices.len());
        assert_eq!(read_checkpoint(&bytes), Some(indices));
    }
}

#[test]
fn checkpoint_of_ragged_length_is_refused() {
    assert_eq!(read_checkpoint(&[1]), None);
    assert_eq!(read_checkpoint(&[0, 0, 0]), None);
    assert_eq!(read_checkpoint(&[0, 0, 0, 1, 0]), None);
    assert_eq!(read_checkpoint(&[0, 0, 0, 1]), Some(vec![1]));
    assert_eq!(read_checkpoint(&[]), Some(vec![]));
}

#[test]
fn sink_needs_sizes_and_a_checkpoint_of_its_file() {
    assert!(TorrentPersisted::new(16384, 20000, vec![]).is_some());
    assert!(TorrentPersisted::new(16384, 20000, vec![1, 0]).is_some());
    assert!(TorrentPersisted::new(16384, 20000, vec![2]).is_none());
    assert!(TorrentPersisted::new(0, 20000, vec![]).is_none());
    assert!(TorrentPersisted::new(16384, 0, vec![]).is_none());
    let sink = TorrentPersisted::new(16384, 20000, vec![1]).unwrap();
    assert_eq!(sink.piece_count(), 2);
    assert_eq!(sink.piece_size(0), 16384);
    assert_eq!(sink.piece_size(1), 3616);
    assert_eq!(sink.durable, vec![1]);
    assert!(sink.staged.is_empty());
}

#[test]
fn only_pieces_of_the_file_are_staged() {
    let mut sink = TorrentPersisted::new(10, 25, vec![]).unwrap();
    assert!(!sink.stage(3, vec![0; 10]));
    assert!(!sink.stage(0, vec![0; 9]));
    assert!(!sink.stage(0, vec![0; 11]));
    assert!(!sink.stage(2, vec![0; 10]));
    assert!(!sink.stage(2, vec![]));
    assert!(sink.staged.is_empty());
    assert!(sink.stage(2, vec![2; 5]));
    assert!(sink.stage(0, vec![0; 10]));
    assert_eq!(sink.staged, vec![(2, vec![2; 5]), (0, vec![0; 10])]);
}

#[test]
fn flush_hands_out_offsets_and_checkpoint() {
    let mut sink = TorrentPersisted::new(10, 25, vec![1]).unwrap();
    assert!(sink.stage(2, vec![2; 5]));
    assert!(sink.stage(0, vec![9; 10]));
    let plan = sink.write_pieces();
    assert_eq!(plan.pieces, vec![(2, vec![2; 5]), (0, vec![9; 10])]);
    assert_eq!(plan.offsets, vec![20, 0]);
    assert_eq!(plan.checkpoint, vec![0, 0, 0, 1, 0, 0, 0, 2, 0, 0, 0, 0]);
    assert_eq!(read_checkpoint(&plan.checkpoint), Some(vec![1, 2, 0]));
    assert!(sink.staged.is_empty());
    assert_eq!(sink.durable, vec![1, 2, 0]);
    let again = sink.write_pieces();
    assert!(again.pieces.is_empty());
    assert!(again.offsets.is_empty());
    assert_eq!(again.checkpoint, plan.checkpoint);
}

#[test]
fn writes_stay_within_the_file() {
    let mut sink = TorrentPersisted::new(16384, 16384 * 3 + 1, vec![]).unwrap();
    for index in (0..4).rev() {
        let size = sink.piece_size(index);
        assert!(sink.stage(index, vec![index as u8; size]));
    }
    let plan = sink.write_pieces();
    let mut file = vec![0xeeu8; 16384 * 3 + 1];
    for (k, (index, bytes)) in plan.pieces.iter().enumerate() {
        let offset = plan.offsets[k] as usize;
        assert_eq!(offset, index * 16384);
        assert!(offset + bytes.len() <= file.len());
        file[offset..offset + bytes.len()].copy_from_slice(bytes);
    }
    for (position, byte) in file.iter().enumerate() {
        assert_eq!(*byte, (position / 16384) as u8);
    }
}
