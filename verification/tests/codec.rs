use netcode::codec::ClientBodyElem;
use netcode::codec::ClientHeader;
use netcode::codec::ClientToServer;
use netcode::codec::PlayerInput;
use netcode::codec::ServerBodyElem;
use netcode::codec::ServerHeader;
use netcode::codec::ServerToClient;
use netcode::codec::Terrain;
use netcode::codec::decode_client_message;
use netcode::codec::decode_server_message;
use netcode::codec::encode_client_message;
use netcode::codec::encode_server_message;

fn be(v: u64) -> Vec<u8> {
    let mut out = Vec::new();
    let mut shift = 64;
    for _ in 0..8 {
        shift -= 8;
        out.push((v >> shift) as u8);
    }
    out
}

fn client_message(cur: u64, lrs: u64, bodies: Vec<ClientBodyElem>) -> ClientToServer {
    ClientToServer {
        header: ClientHeader { current_sequence: cur, last_received_sequence: lrs },
        bodies,
    }
}

#[test]
fn round_trip_client_message() {
    let m = client_message(
        3,
        1,
        vec![
            ClientBodyElem::Ping,
            ClientBodyElem::Input(PlayerInput { data: vec![1, 2, 3] }),
            ClientBodyElem::Ping,
        ],
    );
    let bytes = encode_client_message(&m);
    let decoded = decode_client_message(&bytes).unwrap();
    assert_eq!(decoded, m);
}

#[test]
fn round_trip_client_empty_bodies() {
    let m = client_message(u64::MAX, 0, vec![]);
    let bytes = encode_client_message(&m);
    assert_eq!(decode_client_message(&bytes).unwrap(), m);
}

#[test]
fn round_trip_client_empty_input_payload() {
    let m = client_message(7, 6, vec![ClientBodyElem::Input(PlayerInput { data: vec![] })]);
    let bytes = encode_client_message(&m);
    assert_eq!(decode_client_message(&bytes).unwrap(), m);
}

#[test]
fn round_trip_server_message() {
    let m = ServerToClient {
        header: ServerHeader { sequence: 42 },
        bodies: vec![
            ServerBodyElem::Pong(41),
            ServerBodyElem::Terrain(Terrain { data: vec![9, 8, 7, 6] }),
            ServerBodyElem::Pong(u64::MAX),
        ],
    };
    let bytes = encode_server_message(&m);
    assert_eq!(decode_server_message(&bytes).unwrap(), m);
}

#[test]
fn client_wire_format_is_exact() {
    let m = client_message(
        1,
        2,
        vec![ClientBodyElem::Ping, ClientBodyElem::Input(PlayerInput { data: vec![0xAB] })],
    );
    let mut expected = Vec::new();
    expected.extend(be(1));
    expected.extend(be(2));
    expected.extend(be(2)); // body count
    expected.push(0); // ping tag
    expected.push(1); // input tag
    expected.extend(be(1)); // payload length
    expected.push(0xAB);
    assert_eq!(encode_client_message(&m), expected);
}

#[test]
fn server_wire_format_is_exact() {
    let m = ServerToClient {
        header: ServerHeader { sequence: 9 },
        bodies: vec![
            ServerBodyElem::Pong(5),
            ServerBodyElem::Terrain(Terrain { data: vec![1, 2] }),
        ],
    };
    let mut expected = Vec::new();
    expected.extend(be(9));
    expected.extend(be(2)); // body count
    expected.push(0); // pong tag
    expected.extend(be(5));
    expected.push(1); // terrain tag
    expected.extend(be(2)); // payload length
    expected.push(1);
    expected.push(2);
    assert_eq!(encode_server_message(&m), expected);
}

#[test]
fn decode_rejects_short_header() {
    assert!(decode_client_message(&[0u8; 23]).is_err());
    assert!(decode_server_message(&[0u8; 15]).is_err());
}

#[test]
fn decode_rejects_truncated_message() {
    let m = client_message(1, 0, vec![ClientBodyElem::Input(PlayerInput { data: vec![5, 6] })]);
    let bytes = encode_client_message(&m);
    assert!(decode_client_message(&bytes[..bytes.len() - 1]).is_err());
}

#[test]
fn decode_rejects_trailing_bytes() {
    let m = client_message(1, 0, vec![ClientBodyElem::Ping]);
    let mut bytes = encode_client_message(&m);
    bytes.push(0);
    assert!(decode_client_message(&bytes).is_err());
}

#[test]
fn decode_rejects_unknown_tag() {
    let mut bytes = Vec::new();
    bytes.extend(be(1));
    bytes.extend(be(0));
    bytes.extend(be(1)); // one body
    bytes.push(2); // no such tag
    assert!(decode_client_message(&bytes).is_err());
}

#[test]
fn decode_rejects_count_beyond_buffer() {
    let mut bytes = Vec::new();
    bytes.extend(be(1));
    bytes.extend(be(0));
    bytes.extend(be(3)); // three bodies promised
    bytes.push(0); // only one present
    assert!(decode_client_message(&bytes).is_err());
}

#[test]
fn decode_rejects_payload_length_beyond_buffer() {
    let mut bytes = Vec::new();
    bytes.extend(be(1));
    bytes.extend(be(0));
    bytes.extend(be(1));
    bytes.push(1); // input tag
    bytes.extend(be(100)); // payload length, but no payload
    assert!(decode_client_message(&bytes).is_err());
}

#[test]
fn decode_server_rejects_truncated_pong() {
    let mut bytes = Vec::new();
    bytes.extend(be(1));
    bytes.extend(be(1));
    bytes.push(0); // pong tag, but no sequence bytes
    assert!(decode_server_message(&bytes).is_err());
}
