use bitleech::error::Error;
use bitleech::hash::info_hash;
use bitleech::pieces::piece_manager::{BlockOutcome, BlockState, Piece, PieceManager, BLOCK_SIZE};

fn content_of(len: usize, seed: u8) -> Vec<u8> {
    (0..len).map(|i| (i as u8).wrapping_mul(31).wrapping_add(seed)).collect()
}

fn hashes_of(content: &[u8], piece_length: usize) -> Vec<u8> {
    let mut hashes = Vec::new();
    for piece in content.chunks(piece_length) {
        hashes.extend_from_slice(&info_hash(piece));
    }
    hashes
}

fn manager_for(content: &[u8], piece_length: usize) -> PieceManager {
    PieceManager::new(piece_length, content.len(), &hashes_of(content, piece_length)).unwrap()
}

#[test]
fn new_manager_has_untouched_pieces() {
    let content = content_of(20000, 1);
    let pm = manager_for(&content, 16384);
    assert_eq!(pm.num_pieces(), 2);
    assert_eq!(pm.piece_length(), 16384);
    assert_eq!(pm.total_length(), 20000);
    for i in 0..2 {
        let piece = pm.piece(i).unwrap();
        assert_eq!(piece.index(), i);
        assert!(!piece.is_complete());
        assert!(piece.data().is_empty());
        assert!(piece.block_status().is_empty());
    }
    assert!(pm.piece(2).is_none());
    assert_eq!(pm.piece_hash(1).unwrap(), info_hash(&content[16384..]));
    assert!(pm.piece_hash(2).is_none());
}

#[test]
fn new_manager_rejects_inconsistent_metainfo() {
    let hashes = vec![0u8; 40];
    assert_eq!(PieceManager::new(0, 20000, &hashes).err(), Some(Error::MetainfoInvalid));
    assert_eq!(PieceManager::new(16384, 20000, &hashes[..39]).err(), Some(Error::MetainfoInvalid));
    assert_eq!(PieceManager::new(16384, 20000, &hashes[..20]).err(), Some(Error::MetainfoInvalid));
    assert_eq!(PieceManager::new(16384, 40000, &hashes).err(), Some(Error::MetainfoInvalid));
    assert!(PieceManager::new(16384, 20000, &hashes).is_ok());
    assert!(PieceManager::new(16384, 0, &[]).is_ok());
}

#[test]
fn maybe_init_allocates_once() {
    let mut piece = Piece::new(3);
    piece.maybe_init(20000, 16384);
    assert_eq!(piece.data().len(), 20000);
    assert!(piece.data().iter().all(|b| *b == 0));
    assert_eq!(piece.block_status(), &vec![BlockState::NotRequested; 2]);
    assert_eq!(piece.index(), 3);
    assert!(!piece.is_complete());
    piece.maybe_init(5, 1);
    assert_eq!(piece.data().len(), 20000);
    assert_eq!(piece.block_status().len(), 2);
}

#[test]
fn maybe_init_counts_blocks_by_rounding_up() {
    for (len, blocks) in [(1usize, 1usize), (16384, 1), (16385, 2), (32768, 2), (32769, 3)] {
        let mut piece = Piece::new(0);
        piece.maybe_init(len, BLOCK_SIZE);
        assert_eq!(piece.block_status().len(), blocks);
    }
    let mut piece = Piece::new(0);
    piece.maybe_init(10, 3);
    assert_eq!(piece.block_status().len(), 4);
}

#[test]
fn piece_length_of_index_gives_the_rest_to_the_last_piece() {
    let pm = manager_for(&content_of(20000, 1), 16384);
    assert_eq!(pm.piece_length_of_index(0), 16384);
    assert_eq!(pm.piece_length_of_index(1), 20000 - 16384);
    let pm = manager_for(&content_of(32768, 1), 16384);
    assert_eq!(pm.piece_length_of_index(1), 16384);
}

#[test]
fn peer_has_piece_we_dont_looks_at_incomplete_pieces() {
    let content = content_of(20000, 2);
    let mut pm = manager_for(&content, 16384);
    assert!(!pm.peer_has_piece_we_dont(&[false, false]));
    assert!(pm.peer_has_piece_we_dont(&[false, true]));
    assert!(pm.peer_has_piece_we_dont(&[true]));
    assert!(!pm.peer_has_piece_we_dont(&[]));
    assert_eq!(pm.next_block(&[false, true]), Some((1, 0, 3616)));
    assert!(matches!(pm.add_block(1, 0, &content[16384..]), Ok(BlockOutcome::Verified(_))));
    assert!(!pm.peer_has_piece_we_dont(&[false, true]));
    assert!(pm.peer_has_piece_we_dont(&[true, true]));
}

#[test]
fn next_block_scans_pieces_and_blocks_in_order() {
    let content = content_of(3 * 40000, 3);
    let mut pm = manager_for(&content, 40000);
    let all = [true, true, true];
    let mut handed = Vec::new();
    while let Some(next) = pm.next_block(&all) {
        handed.push(next);
    }
    let expected = vec![
        (0, 0, 40000),
        (0, 16384, 40000),
        (0, 32768, 40000),
        (1, 0, 40000),
        (1, 16384, 40000),
        (1, 32768, 40000),
        (2, 0, 40000),
        (2, 16384, 40000),
        (2, 32768, 40000),
    ];
    assert_eq!(handed, expected);
    assert_eq!(pm.next_block(&all), None);
    for i in 0..3 {
        assert_eq!(pm.piece(i).unwrap().block_status(), &vec![BlockState::Requested; 3]);
    }
}

#[test]
fn next_block_skips_pieces_the_peer_lacks() {
    let content = content_of(3 * 16384, 4);
    let mut pm = manager_for(&content, 16384);
    assert_eq!(pm.next_block(&[false, false, true]), Some((2, 0, 16384)));
    assert_eq!(pm.next_block(&[false, false, true]), None);
    assert!(pm.piece(0).unwrap().data().is_empty());
    assert!(pm.piece(1).unwrap().data().is_empty());
    assert_eq!(pm.piece(2).unwrap().data().len(), 16384);
    assert_eq!(pm.next_block(&[false, true]), Some((1, 0, 16384)));
    assert_eq!(pm.next_block(&[]), None);
}

#[test]
fn next_block_never_repeats_without_a_hash_failure() {
    let content = content_of(20000, 5);
    let mut pm = manager_for(&content, 16384);
    let all = [true, true];
    assert_eq!(pm.next_block(&all), Some((0, 0, 16384)));
    assert_eq!(pm.next_block(&all), Some((1, 0, 3616)));
    assert_eq!(pm.next_block(&all), None);
    let wrong = vec![0xffu8; 3616];
    assert!(matches!(pm.add_block(1, 0, &wrong), Ok(BlockOutcome::HashMismatch)));
    assert_eq!(pm.next_block(&all), Some((1, 0, 3616)));
    assert_eq!(pm.next_block(&all), None);
}

#[test]
fn whole_piece_is_forwarded_exactly_once() {
    let content = content_of(40000, 6);
    let mut pm = manager_for(&content, 40000);
    let all = [true];
    while pm.next_block(&all).is_some() {}
    assert!(matches!(pm.add_block(0, 32768, &content[32768..]), Ok(BlockOutcome::Stored)));
    assert!(matches!(pm.add_block(0, 0, &content[..16384]), Ok(BlockOutcome::Stored)));
    assert_eq!(
        pm.piece(0).unwrap().block_status(),
        &vec![BlockState::Received, BlockState::Requested, BlockState::Received]
    );
    match pm.add_block(0, 16384, &content[16384..32768]) {
        Ok(BlockOutcome::Verified(data)) => assert_eq!(data, content),
        other => panic!("expected the piece, got {:?}", other),
    }
    let piece = pm.piece(0).unwrap();
    assert!(piece.is_complete());
    assert!(piece.data().is_empty());
    assert!(piece.block_status().is_empty());
    assert!(matches!(pm.add_block(0, 0, &content[..16384]), Ok(BlockOutcome::AlreadyComplete)));
    assert!(matches!(pm.add_block(0, 7, &content[..16384]), Ok(BlockOutcome::AlreadyComplete)));
    assert_eq!(pm.next_block(&all), None);
}

#[test]
fn hash_mismatch_resets_every_block() {
    let content = content_of(40000, 7);
    let mut pm = manager_for(&content, 40000);
    let all = [true];
    while pm.next_block(&all).is_some() {}
    let mut wrong = content.clone();
    wrong[20000] ^= 1;
    assert!(matches!(pm.add_block(0, 0, &wrong[..16384]), Ok(BlockOutcome::Stored)));
    assert!(matches!(pm.add_block(0, 16384, &wrong[16384..32768]), Ok(BlockOutcome::Stored)));
    assert!(matches!(pm.add_block(0, 32768, &wrong[32768..]), Ok(BlockOutcome::HashMismatch)));
    let piece = pm.piece(0).unwrap();
    assert!(!piece.is_complete());
    assert_eq!(piece.block_status(), &vec![BlockState::NotRequested; 3]);
    assert_eq!(piece.data(), &wrong);
    assert_eq!(pm.next_block(&all), Some((0, 0, 40000)));
}

#[test]
fn add_block_rejects_protocol_violations() {
    let content = content_of(20000, 8);
    let mut pm = manager_for(&content, 16384);
    assert_eq!(pm.add_block(2, 0, &[1, 2, 3]).err(), Some(Error::PeerProtocolError));
    assert_eq!(pm.add_block(0, 0, &content[..16384]).err(), Some(Error::PeerProtocolError));
    assert_eq!(pm.add_block(0, 0, &[]).err(), Some(Error::PeerProtocolError));
    while pm.next_block(&[true, true]).is_some() {}
    assert_eq!(pm.add_block(0, 1, &content[..10]).err(), Some(Error::PeerProtocolError));
    assert_eq!(pm.add_block(0, 16384, &[]).err(), Some(Error::PeerProtocolError));
    assert_eq!(pm.add_block(1, 0, &content[..3617]).err(), Some(Error::PeerProtocolError));
    assert_eq!(pm.add_block(1, 16384, &[1]).err(), Some(Error::PeerProtocolError));
    assert_eq!(pm.add_block(0, usize::MAX - 16383, &[1]).err(), Some(Error::PeerProtocolError));
    assert_eq!(pm.piece(0).unwrap().block_status(), &vec![BlockState::Requested; 1]);
    assert!(pm.piece(0).unwrap().data().iter().all(|b| *b == 0));
}

#[test]
fn store_block_copies_the_bytes_in_place() {
    let content = content_of(40000, 9);
    let mut pm = manager_for(&content, 40000);
    assert_eq!(pm.next_block(&[true]), Some((0, 0, 40000)));
    assert!(matches!(pm.store_block(0, 16384, &[7u8; 100]), Ok(BlockOutcome::Stored)));
    let piece = pm.piece(0).unwrap();
    assert!(piece.data()[..16384].iter().all(|b| *b == 0));
    assert!(piece.data()[16384..16484].iter().all(|b| *b == 7));
    assert!(piece.data()[16484..].iter().all(|b| *b == 0));
    assert_eq!(
        piece.block_status(),
        &vec![BlockState::Requested, BlockState::Received, BlockState::NotRequested]
    );
    assert!(!pm.is_full(0));
    assert!(!pm.is_full(1));
}

#[test]
fn settle_piece_goes_by_the_digest_it_is_given() {
    let content = content_of(20000, 10);
    let mut pm = manager_for(&content, 16384);
    let expected = pm.piece_hash(1).unwrap();
    assert!(matches!(pm.settle_piece(1, &expected), BlockOutcome::Stored));
    assert!(matches!(pm.settle_piece(5, &expected), BlockOutcome::Stored));
    assert_eq!(pm.next_block(&[false, true]), Some((1, 0, 3616)));
    assert!(matches!(pm.settle_piece(1, &expected), BlockOutcome::Stored));
    assert!(matches!(pm.store_block(1, 0, &[9u8; 3616]), Ok(BlockOutcome::Stored)));
    assert!(pm.is_full(1));
    let mut other = expected;
    other[19] ^= 0x80;
    assert!(matches!(pm.settle_piece(1, &other), BlockOutcome::HashMismatch));
    assert_eq!(pm.piece(1).unwrap().block_status(), &vec![BlockState::NotRequested]);
    assert!(!pm.is_full(1));
    assert!(matches!(pm.store_block(1, 0, &[9u8; 3616]), Ok(BlockOutcome::Stored)));
    match pm.settle_piece(1, &expected) {
        BlockOutcome::Verified(data) => assert_eq!(data, vec![9u8; 3616]),
        other => panic!("expected the piece, got {:?}", other),
    }
    assert!(pm.piece(1).unwrap().is_complete());
    assert!(matches!(pm.settle_piece(1, &expected), BlockOutcome::Stored));
}

#[test]
fn add_block_hashes_the_buffer_not_the_block() {
    let content = content_of(40000, 11);
    let mut pm = manager_for(&content, 40000);
    while pm.next_block(&[true]).is_some() {}
    assert!(matches!(pm.add_block(0, 0, &content[..16384]), Ok(BlockOutcome::Stored)));
    assert!(matches!(pm.add_block(0, 16384, &content[16384..32768]), Ok(BlockOutcome::Stored)));
    assert!(matches!(pm.add_block(0, 32768, &content[32768..]), Ok(BlockOutcome::Verified(_))));
}

#[test]
fn bytes_left_counts_the_incomplete_pieces() {
    let content = content_of(20000, 12);
    let mut pm = manager_for(&content, 16384);
    assert_eq!(pm.bytes_left(), 20000);
    while pm.next_block(&[true, true]).is_some() {}
    assert_eq!(pm.bytes_left(), 20000);
    assert!(matches!(pm.add_block(1, 0, &content[16384..]), Ok(BlockOutcome::Verified(_))));
    assert_eq!(pm.bytes_left(), 16384);
    assert!(matches!(pm.add_block(0, 0, &content[..16384]), Ok(BlockOutcome::Verified(_))));
    assert_eq!(pm.bytes_left(), 0);
    assert_eq!(PieceManager::new(16384, 0, &[]).unwrap().bytes_left(), 0);
}
