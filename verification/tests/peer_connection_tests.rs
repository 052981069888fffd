use bitleech::error::Error;
use bitleech::hash::info_hash;
use bitleech::peers::peer::PeerAddr;
use bitleech::peers::peer_connection::{
    encode_interested, encode_request, message_length, Action, PeerConnection, Request,
    HANDSHAKE_LEN, MAX_OUTGOING, PEER_ID, PROTOCOL,
};
use bitleech::pieces::piece_manager::{BlockState, PieceManager};

fn pattern(len: usize, seed: u8) -> Vec<u8> {
    (0..len).map(|i| (i as u8).wrapping_mul(17).wrapping_add(seed)).collect()
}

fn manager_of(content: &[u8], piece_length: usize) -> PieceManager {
    let mut hashes = Vec::new();
    for piece in content.chunks(piece_length) {
        hashes.extend_from_slice(&info_hash(piece));
    }
    PieceManager::new(piece_length, content.len(), &hashes).unwrap()
}

fn session(pm: &PieceManager) -> PeerConnection {
    PeerConnection::new(PeerAddr::new(10, 0, 0, 1, 6881), [0xAA; 20], pm)
}

fn piece_message(index: u32, begin: u32, data: &[u8]) -> Vec<u8> {
    let mut msg = vec![7u8];
    msg.extend_from_slice(&index.to_be_bytes());
    msg.extend_from_slice(&begin.to_be_bytes());
    msg.extend_from_slice(data);
    msg
}

fn have_message(index: u32) -> Vec<u8> {
    let mut msg = vec![4u8];
    msg.extend_from_slice(&index.to_be_bytes());
    msg
}

fn requests_in(actions: &[Action]) -> Vec<Request> {
    let mut requests = Vec::new();
    for action in actions {
        if let Action::SendRequest(request) = action {
            requests.push(*request);
        }
    }
    requests
}

fn request(piece_index: usize, begin: usize, length: usize) -> Request {
    Request { piece_index, begin, length }
}

#[test]
fn handshake_is_sixty_eight_bytes_in_order() {
    let pm = manager_of(&pattern(20000, 1), 16384);
    let conn = session(&pm);
    let mut expected = vec![0x13u8];
    expected.extend_from_slice(&[
        0x42, 0x69, 0x74, 0x54, 0x6F, 0x72, 0x72, 0x65, 0x6E, 0x74, 0x20, 0x70, 0x72, 0x6F, 0x74,
        0x6F, 0x63, 0x6F, 0x6C,
    ]);
    expected.extend_from_slice(&[0u8; 8]);
    expected.extend_from_slice(&[0xAA; 20]);
    expected.extend_from_slice(&[
        0x2D, 0x54, 0x52, 0x31, 0x30, 0x31, 0x32, 0x2D, 0x31, 0x32, 0x33, 0x34, 0x35, 0x36, 0x37,
        0x38, 0x39, 0x30, 0x31, 0x32,
    ]);
    assert_eq!(conn.handshake(), expected);
    assert_eq!(expected.len(), HANDSHAKE_LEN);
}

#[test]
fn protocol_constants_spell_their_text() {
    assert_eq!(&PROTOCOL[..], b"BitTorrent protocol");
    assert_eq!(&PEER_ID[..], b"-TR1012-123456789012");
    assert_eq!(MAX_OUTGOING, 255);
}

#[test]
fn new_session_is_choked_and_not_interested() {
    let pm = manager_of(&pattern(3 * 16384, 1), 16384);
    let conn = session(&pm);
    assert!(conn.am_choked());
    assert!(conn.peer_choked());
    assert!(!conn.am_interested());
    assert!(!conn.peer_interested());
    assert_eq!(conn.in_flight(), 0);
    assert_eq!(conn.bitfield(), &vec![false; 3]);
    assert_eq!(conn.addr(), PeerAddr::new(10, 0, 0, 1, 6881));
}

#[test]
fn handshake_of_the_same_swarm_is_accepted() {
    let pm = manager_of(&pattern(20000, 1), 16384);
    let mut conn = session(&pm);
    let mut reply = [0u8; 68];
    reply[28..48].copy_from_slice(&[0xAA; 20]);
    reply[48..68].copy_from_slice(b"-XX0001-abcdefghijkl");
    assert_eq!(conn.remote_id(), None);
    assert_eq!(conn.receive_handshake(&reply), Ok(()));
    assert_eq!(conn.remote_id(), Some(*b"-XX0001-abcdefghijkl"));
}

#[test]
fn handshake_of_another_swarm_is_a_mismatch() {
    let pm = manager_of(&pattern(20000, 1), 16384);
    let mut conn = session(&pm);
    let mut reply = [0u8; 68];
    reply[0] = 19;
    reply[1..20].copy_from_slice(b"BitTorrent protocol");
    reply[28..48].copy_from_slice(&[0xAA; 20]);
    reply[47] = 0xAB;
    assert_eq!(conn.receive_handshake(&reply), Err(Error::HandshakeMismatch));
    reply[47] = 0xAA;
    reply[28] = 0;
    assert_eq!(conn.receive_handshake(&reply), Err(Error::HandshakeMismatch));
    assert_eq!(conn.remote_id(), None);
}

#[test]
fn length_prefix_is_big_endian_and_zero_is_a_keep_alive() {
    assert_eq!(message_length(&[0, 0, 0, 0]), None);
    assert_eq!(message_length(&[0, 0, 0, 1]), Some(1));
    assert_eq!(message_length(&[0, 0, 0x40, 0x09]), Some(16393));
    assert_eq!(message_length(&[1, 2, 3, 4]), Some(0x01020304));
    assert_eq!(message_length(&[0xff, 0xff, 0xff, 0xff]), Some(u32::MAX));
}

#[test]
fn interested_message_is_five_bytes() {
    assert_eq!(encode_interested(), vec![0, 0, 0, 1, 2]);
}

#[test]
fn request_message_is_seventeen_bytes_big_endian() {
    assert_eq!(
        encode_request(&request(1, 16384, 3616)),
        vec![0, 0, 0, 13, 6, 0, 0, 0, 1, 0, 0, 0x40, 0, 0, 0, 0x0E, 0x20]
    );
    assert_eq!(
        encode_request(&request(0x01020304, 0xA0B0C0D0, 0xFFFFFFFF)),
        vec![0, 0, 0, 13, 6, 1, 2, 3, 4, 0xA0, 0xB0, 0xC0, 0xD0, 0xFF, 0xFF, 0xFF, 0xFF]
    );
}

#[test]
fn empty_and_unknown_messages_change_nothing() {
    let mut pm = manager_of(&pattern(20000, 1), 16384);
    let mut conn = session(&pm);
    for msg in [&[][..], &[6, 0, 0, 0, 0, 0, 0, 0, 0, 0, 0, 0, 0], &[8, 1, 2], &[9, 0x1A, 0xE1], &[10], &[255, 1]] {
        let actions = conn.handle_message(msg, &mut pm).unwrap();
        assert!(actions.is_empty());
        assert!(conn.am_choked());
        assert!(!conn.am_interested());
        assert!(!conn.peer_interested());
        assert_eq!(conn.bitfield(), &vec![false; 2]);
    }
}

#[test]
fn choke_and_unchoke_set_the_flag() {
    let mut pm = manager_of(&pattern(20000, 1), 16384);
    let mut conn = session(&pm);
    assert!(conn.handle_message(&[1], &mut pm).unwrap().is_empty());
    assert!(!conn.am_choked());
    assert!(conn.handle_message(&[0], &mut pm).unwrap().is_empty());
    assert!(conn.am_choked());
}

#[test]
fn interested_and_not_interested_set_the_peer_flag() {
    let mut pm = manager_of(&pattern(20000, 1), 16384);
    let mut conn = session(&pm);
    assert!(conn.handle_message(&[2], &mut pm).unwrap().is_empty());
    assert!(conn.peer_interested());
    assert!(conn.handle_message(&[3], &mut pm).unwrap().is_empty());
    assert!(!conn.peer_interested());
}

#[test]
fn bitfield_replaces_the_bits_and_raises_interest() {
    let mut pm = manager_of(&pattern(10 * 100, 1), 100);
    let mut conn = session(&pm);
    let actions = conn.handle_message(&[5, 0b1010_0001, 0b0100_0000], &mut pm).unwrap();
    assert_eq!(
        conn.bitfield(),
        &vec![true, false, true, false, false, false, false, true, false, true]
    );
    assert!(conn.am_interested());
    assert_eq!(actions.len(), 1);
    assert!(matches!(actions[0], Action::SendInterested));
    let actions = conn.handle_message(&[5, 0, 0], &mut pm).unwrap();
    assert!(actions.is_empty());
    assert_eq!(conn.bitfield(), &vec![false; 10]);
    assert!(conn.am_interested());
}

#[test]
fn bitfield_of_nothing_we_need_raises_no_interest() {
    let mut pm = manager_of(&pattern(2 * 100, 1), 100);
    let mut conn = session(&pm);
    let actions = conn.handle_message(&[5, 0b0011_1111], &mut pm).unwrap();
    assert!(actions.is_empty());
    assert!(!conn.am_interested());
    assert_eq!(conn.bitfield(), &vec![false, false]);
}

#[test]
fn bitfield_may_be_longer_but_not_shorter() {
    let mut pm = manager_of(&pattern(9 * 100, 1), 100);
    let mut conn = session(&pm);
    assert_eq!(conn.handle_message(&[5, 0xff], &mut pm).err(), Some(Error::PeerProtocolError));
    assert_eq!(conn.handle_message(&[5], &mut pm).err(), Some(Error::PeerProtocolError));
    assert_eq!(conn.bitfield(), &vec![false; 9]);
    assert!(!conn.am_interested());
    assert!(conn.handle_message(&[5, 0xff, 0x80, 0xff], &mut pm).is_ok());
    assert_eq!(conn.bitfield(), &vec![true; 9]);
}

#[test]
fn have_sets_one_bit() {
    let mut pm = manager_of(&pattern(3 * 100, 1), 100);
    let mut conn = session(&pm);
    assert!(conn.handle_message(&have_message(2), &mut pm).unwrap().is_empty());
    assert_eq!(conn.bitfield(), &vec![false, false, true]);
    assert!(!conn.am_interested());
}

#[test]
fn have_with_a_short_payload_or_unknown_piece_ends_the_session() {
    let mut pm = manager_of(&pattern(3 * 100, 1), 100);
    let mut conn = session(&pm);
    assert_eq!(conn.handle_message(&[4, 0, 0, 0], &mut pm).err(), Some(Error::PeerProtocolError));
    assert_eq!(conn.handle_message(&[4], &mut pm).err(), Some(Error::PeerProtocolError));
    assert_eq!(conn.handle_message(&have_message(3), &mut pm).err(), Some(Error::PeerProtocolError));
    assert_eq!(conn.handle_message(&have_message(u32::MAX), &mut pm).err(), Some(Error::PeerProtocolError));
    assert_eq!(conn.bitfield(), &vec![false; 3]);
}

#[test]
fn unchoke_pumps_requests_when_interested() {
    let content = pattern(20000, 1);
    let mut pm = manager_of(&content, 16384);
    let mut conn = session(&pm);
    let actions = conn.handle_message(&[5, 0b1100_0000], &mut pm).unwrap();
    assert_eq!(actions.len(), 1);
    assert!(requests_in(&actions).is_empty());
    let actions = conn.handle_message(&[1], &mut pm).unwrap();
    assert_eq!(requests_in(&actions), vec![request(0, 0, 16384), request(1, 0, 3616)]);
    assert_eq!(actions.len(), 2);
    assert_eq!(conn.in_flight(), 2);
    assert_eq!(pm.piece(0).unwrap().block_status(), &vec![BlockState::Requested]);
    assert!(conn.handle_message(&[1], &mut pm).unwrap().is_empty());
}

#[test]
fn unchoke_without_interest_pumps_nothing() {
    let mut pm = manager_of(&pattern(20000, 1), 16384);
    let mut conn = session(&pm);
    assert!(conn.handle_message(&have_message(0), &mut pm).unwrap().is_empty());
    assert!(conn.handle_message(&[1], &mut pm).unwrap().is_empty());
    assert!(pm.piece(0).unwrap().data().is_empty());
    let actions = conn.handle_message(&have_message(1), &mut pm).unwrap();
    assert_eq!(requests_in(&actions), vec![request(0, 0, 16384), request(1, 0, 3616)]);
}

#[test]
fn requests_are_clamped_to_what_is_left_of_the_piece() {
    let mut pm = manager_of(&pattern(40000 + 16385, 1), 40000);
    let mut conn = session(&pm);
    conn.handle_message(&[1], &mut pm).unwrap();
    let actions = conn.handle_message(&[5, 0b1100_0000], &mut pm).unwrap();
    assert!(matches!(actions[0], Action::SendInterested));
    assert_eq!(
        requests_in(&actions),
        vec![
            request(0, 0, 16384),
            request(0, 16384, 16384),
            request(0, 32768, 7232),
            request(1, 0, 16384),
            request(1, 16384, 1),
        ]
    );
    assert_eq!(actions.len(), 6);
}

#[test]
fn maybe_request_next_does_nothing_while_choked() {
    let mut pm = manager_of(&pattern(20000, 1), 16384);
    let mut conn = session(&pm);
    conn.handle_message(&[5, 0xff], &mut pm).unwrap();
    assert!(conn.maybe_request_next(&mut pm).is_empty());
    assert!(pm.piece(0).unwrap().data().is_empty());
    assert_eq!(conn.in_flight(), 0);
}

#[test]
fn in_flight_stops_counting_at_the_most() {
    let mut pm = manager_of(&pattern(300, 1), 1);
    let mut conn = session(&pm);
    let mut bitfield = vec![5u8];
    bitfield.extend_from_slice(&[0xff; 38]);
    conn.handle_message(&bitfield, &mut pm).unwrap();
    let actions = conn.handle_message(&[1], &mut pm).unwrap();
    assert_eq!(actions.len(), 300);
    assert_eq!(conn.in_flight(), 255);
}

#[test]
fn piece_message_delivers_the_block_and_hands_the_piece_on() {
    let content = pattern(20000, 3);
    let mut pm = manager_of(&content, 16384);
    let mut conn = session(&pm);
    conn.handle_message(&[5, 0b1100_0000], &mut pm).unwrap();
    conn.handle_message(&[1], &mut pm).unwrap();
    assert_eq!(conn.in_flight(), 2);
    let actions = conn.handle_message(&piece_message(1, 0, &content[16384..]), &mut pm).unwrap();
    assert_eq!(actions.len(), 1);
    match &actions[0] {
        Action::WritePiece(index, data) => {
            assert_eq!(*index, 1);
            assert_eq!(&data[..], &content[16384..]);
        },
        other => panic!("expected a piece to write, got {:?}", other),
    }
    assert_eq!(conn.in_flight(), 1);
    assert!(pm.piece(1).unwrap().is_complete());
    let actions = conn.handle_message(&piece_message(1, 0, &content[16384..]), &mut pm).unwrap();
    assert!(actions.is_empty());
    assert_eq!(conn.in_flight(), 0);
    let actions = conn.handle_message(&piece_message(1, 0, &content[16384..]), &mut pm).unwrap();
    assert!(actions.is_empty());
    assert_eq!(conn.in_flight(), 0);
}

#[test]
fn corrupt_piece_is_requested_again() {
    let content = pattern(20000, 4);
    let mut pm = manager_of(&content, 16384);
    let mut conn = session(&pm);
    conn.handle_message(&[5, 0b0100_0000], &mut pm).unwrap();
    let actions = conn.handle_message(&[1], &mut pm).unwrap();
    assert_eq!(requests_in(&actions), vec![request(1, 0, 3616)]);
    let wrong = vec![0u8; 3616];
    let actions = conn.handle_message(&piece_message(1, 0, &wrong), &mut pm).unwrap();
    assert_eq!(actions.len(), 1);
    assert_eq!(requests_in(&actions), vec![request(1, 0, 3616)]);
    assert!(!pm.piece(1).unwrap().is_complete());
}

#[test]
fn piece_message_that_breaks_the_protocol_ends_the_session() {
    let content = pattern(20000, 5);
    let mut pm = manager_of(&content, 16384);
    let mut conn = session(&pm);
    conn.handle_message(&[5, 0b1100_0000], &mut pm).unwrap();
    conn.handle_message(&[1], &mut pm).unwrap();
    assert_eq!(conn.handle_message(&[7, 0, 0, 0, 0, 0, 0, 0], &mut pm).err(), Some(Error::PeerProtocolError));
    assert_eq!(conn.handle_message(&[7], &mut pm).err(), Some(Error::PeerProtocolError));
    assert_eq!(conn.handle_message(&piece_message(2, 0, &[1]), &mut pm).err(), Some(Error::PeerProtocolError));
    assert_eq!(conn.handle_message(&piece_message(0, 1, &[1]), &mut pm).err(), Some(Error::PeerProtocolError));
    assert_eq!(
        conn.handle_message(&piece_message(1, 0, &content[..3617]), &mut pm).err(),
        Some(Error::PeerProtocolError)
    );
    assert_eq!(conn.in_flight(), 2);
    assert!(pm.piece(0).unwrap().data().iter().all(|b| *b == 0));
}
