use std::collections::HashMap;

use bitleech::hash::info_hash;
use bitleech::torrent::HASH_LEN;
use serde_bencode::value::Value;

fn info_dict(piece_length: i64, length: i64, pieces: Vec<u8>) -> Value {
    let mut dict = HashMap::new();
    dict.insert(b"piece length".to_vec(), Value::Int(piece_length));
    dict.insert(b"pieces".to_vec(), Value::Bytes(pieces));
    dict.insert(b"name".to_vec(), Value::Bytes(b"synthetic.bin".to_vec()));
    dict.insert(b"length".to_vec(), Value::Int(length));
    Value::Dict(dict)
}

#[test]
fn info_dict_round_trips_through_the_codec() {
    let pieces: Vec<u8> = (0..2 * HASH_LEN).map(|i| i as u8).collect();
    let encoded = serde_bencode::to_bytes(&info_dict(16384, 20000, pieces.clone())).unwrap();
    let mut expected = b"d6:lengthi20000e4:name13:synthetic.bin12:piece lengthi16384e6:pieces40:".to_vec();
    expected.extend_from_slice(&pieces);
    expected.push(b'e');
    assert_eq!(encoded, expected);
    let decoded: Value = serde_bencode::from_bytes(&encoded).unwrap();
    assert_eq!(decoded, info_dict(16384, 20000, pieces));
    assert_eq!(serde_bencode::to_bytes(&decoded).unwrap(), encoded);
    assert_eq!(info_hash(&serde_bencode::to_bytes(&decoded).unwrap()), info_hash(&encoded));
}
