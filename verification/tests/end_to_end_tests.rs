use bitleech::hash::info_hash;
use bitleech::peers::peer::{PeerAddr, Value};
use bitleech::peers::peer_connection::{
    encode_interested, encode_request, message_length, Action, PeerConnection,
};
use bitleech::pieces::file_manager::FileManager;
use bitleech::pieces::piece_manager::PieceManager;
use bitleech::swarm::{tracker_urls, PeerPool, TrackerLoop, TrackerStep};
use bitleech::torrent::{Info, Torrent};
use bitleech::trackers::http::HttpTracker;
use bitleech::trackers::TrackerResponse;

const PIECE_LENGTH: usize = 16384;
const TOTAL_LENGTH: usize = 20000;

fn synthetic_content() -> Vec<u8> {
    (0..TOTAL_LENGTH).map(|i| ((i * 7 + i / 251) % 256) as u8).collect()
}

fn synthetic_torrent(content: &[u8]) -> Torrent {
    let mut pieces = Vec::new();
    for piece in content.chunks(PIECE_LENGTH) {
        pieces.extend_from_slice(&info_hash(piece));
    }
    Torrent {
        announce: String::from("http://stub.example/announce"),
        announce_list: Some(vec![vec![
            String::from("udp://stub.example:1337"),
            String::from("http://stub.example/announce"),
        ]]),
        info: Info {
            name: String::from("synthetic.bin"),
            piece_length: PIECE_LENGTH,
            pieces,
            length: Some(content.len()),
            files: None,
        },
    }
}

/// A peer that has the whole content and answers every request, the first
/// `corrupt_first` answers for piece 1 with a flipped byte.
struct StubPeer {
    content: Vec<u8>,
    info_hash: [u8; 20],
    corrupt_first: usize,
}

impl StubPeer {
    fn handshake(&self, incoming: &[u8]) -> [u8; 68] {
        assert_eq!(incoming.len(), 68);
        assert_eq!(incoming[0], 19);
        assert_eq!(&incoming[1..20], b"BitTorrent protocol");
        assert_eq!(&incoming[28..48], &self.info_hash);
        let mut reply = [0u8; 68];
        reply[0] = 19;
        reply[1..20].copy_from_slice(b"BitTorrent protocol");
        reply[28..48].copy_from_slice(&self.info_hash);
        reply[48..68].copy_from_slice(b"-ST0001-000000000001");
        reply
    }

    fn answer(&mut self, wire: &[u8]) -> Vec<u8> {
        let mut prefix = [0u8; 4];
        prefix.copy_from_slice(&wire[..4]);
        assert_eq!(message_length(&prefix), Some(13));
        assert_eq!(wire.len(), 17);
        assert_eq!(wire[4], 6);
        let number = |at: usize| u32::from_be_bytes([wire[at], wire[at + 1], wire[at + 2], wire[at + 3]]) as usize;
        let (index, begin, length) = (number(5), number(9), number(13));
        assert!(length <= 16384);
        let start = index * PIECE_LENGTH + begin;
        let mut block = self.content[start..start + length].to_vec();
        if index == 1 && self.corrupt_first > 0 {
            self.corrupt_first -= 1;
            block[0] ^= 0xff;
        }
        let mut msg = vec![7u8];
        msg.extend_from_slice(&(index as u32).to_be_bytes());
        msg.extend_from_slice(&(begin as u32).to_be_bytes());
        msg.extend_from_slice(&block);
        msg
    }
}

/// Runs the whole client against the stub tracker and peer, with files
/// kept in memory; gives the files and the number of pieces written.
fn download(corrupt_first: usize) -> (Vec<Vec<u8>>, usize) {
    let content = synthetic_content();
    let torrent = synthetic_torrent(&content);
    assert_eq!(torrent.info.validate(), Ok(()));
    let swarm_id = info_hash(b"the bencoded info dictionary");

    let fm = FileManager::new(&torrent.info).unwrap();
    let mut disk: Vec<Vec<u8>> = fm.files.iter().map(|_| Vec::new()).collect();
    let mut pm =
        PieceManager::new(torrent.info.piece_length, torrent.total_length(), &torrent.info.pieces).unwrap();

    let urls = tracker_urls(&torrent);
    assert_eq!(urls, vec!["http://stub.example/announce"]);
    let tracker = HttpTracker::new(&urls[0]);
    assert!(tracker.announce_url(&swarm_id, TOTAL_LENGTH as u64).starts_with("http://stub.example/announce?info_hash="));
    let answer = Value::Dict(vec![
        (b"interval".to_vec(), Value::Int(60)),
        (b"peers".to_vec(), Value::Bytes(vec![127, 0, 0, 1, 0x1A, 0xE1])),
    ]);
    let response = TrackerResponse::from_value(answer).unwrap();
    let mut pool = PeerPool::new();
    let mut task = TrackerLoop::new();
    let spawn = match task.on_response(&mut pool, &response) {
        TrackerStep::Continue(spawn, wait) => {
            assert_eq!(wait, 60);
            spawn
        },
        TrackerStep::Stop => panic!("the tracker task stopped"),
    };
    assert_eq!(spawn, vec![PeerAddr::new(127, 0, 0, 1, 6881)]);

    let mut peer = StubPeer { content: content.clone(), info_hash: swarm_id, corrupt_first };
    let mut conn = PeerConnection::new(spawn[0], swarm_id, &pm);
    let reply = peer.handshake(&conn.handshake());
    assert_eq!(conn.receive_handshake(&reply), Ok(()));

    let mut inbox: Vec<Vec<u8>> = vec![vec![5, 0b1100_0000], vec![1]];
    let mut written = 0;
    let mut sent_interested = 0;
    let mut rounds = 0;
    while !inbox.is_empty() {
        rounds += 1;
        assert!(rounds < 100);
        let msg = inbox.remove(0);
        for action in conn.handle_message(&msg, &mut pm).unwrap() {
            match action {
                Action::SendInterested => {
                    assert_eq!(encode_interested(), vec![0, 0, 0, 1, 2]);
                    sent_interested += 1;
                },
                Action::SendRequest(request) => {
                    inbox.push(peer.answer(&encode_request(&request)));
                },
                Action::WritePiece(index, data) => {
                    for op in fm.write_piece(index, &data, torrent.info.piece_length).unwrap() {
                        let file = &mut disk[op.file_index];
                        if file.len() < op.file_offset + op.len {
                            file.resize(op.file_offset + op.len, 0);
                        }
                        file[op.file_offset..op.file_offset + op.len]
                            .copy_from_slice(&data[op.data_start..op.data_start + op.len]);
                    }
                    written += 1;
                },
            }
        }
    }
    assert_eq!(sent_interested, 1);
    assert!(pm.piece(0).unwrap().is_complete());
    assert!(pm.piece(1).unwrap().is_complete());
    (disk, written)
}

#[test]
fn two_piece_torrent_is_downloaded_whole() {
    let (disk, written) = download(0);
    assert_eq!(written, 2);
    assert_eq!(disk.len(), 1);
    assert_eq!(disk[0].len(), 20000);
    assert_eq!(info_hash(&disk[0]), info_hash(&synthetic_content()));
    assert_eq!(disk[0], synthetic_content());
}

#[test]
fn corrupt_piece_is_fetched_again_and_never_written() {
    let (disk, written) = download(1);
    assert_eq!(written, 2);
    assert_eq!(disk[0].len(), 20000);
    assert_eq!(info_hash(&disk[0]), info_hash(&synthetic_content()));
    assert_eq!(disk[0], synthetic_content());
}
