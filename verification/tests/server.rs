use netcode::FRAME_DIFFERENCE_BEFORE_DISCONNECT;
use netcode::GAME_TICK_HZ;
use netcode::MAX_CLIENTS;
use netcode::codec::ClientBodyElem;
use netcode::codec::ClientHeader;
use netcode::codec::ClientToServer;
use netcode::codec::PlayerInput;
use netcode::codec::ServerBodyElem;
use netcode::codec::ServerHeader;
use netcode::codec::ServerToClient;
use netcode::codec::Terrain;
use netcode::codec::decode_server_message;
use netcode::codec::encode_client_message;
use netcode::codec::encode_server_message;
use netcode::server::ReceiveError;
use netcode::server::SendError;
use netcode::server::Server;

fn datagram(cur: u64, lrs: u64, bodies: Vec<ClientBodyElem>) -> Vec<u8> {
    encode_client_message(&ClientToServer {
        header: ClientHeader { current_sequence: cur, last_received_sequence: lrs },
        bodies,
    })
}

#[test]
fn first_message_creates_session_and_counts_as_stale() {
    let mut server = Server::new(MAX_CLIENTS);
    let r = server.handle_datagram(10, &datagram(1, 0, vec![ClientBodyElem::Ping]));
    assert_eq!(r, Ok(None));
    assert_eq!(server.clients.len(), 1);
    let c = &server.clients[0];
    assert_eq!(c.addr, 10);
    // last_received_sequence 0 is not above the initial watermark 0, so
    // the message is stale: the watermark stays, but the ping is answered.
    assert_eq!(c.last_ack, 0);
    assert_eq!(c.bodies, vec![ServerBodyElem::Pong(1)]);
    assert_eq!(c.until_drop, FRAME_DIFFERENCE_BEFORE_DISCONNECT);
}

#[test]
fn second_fresh_message_advances_and_resets() {
    let mut server = Server::new(MAX_CLIENTS);
    server.handle_datagram(10, &datagram(1, 0, vec![ClientBodyElem::Ping])).unwrap();
    // age the session so the ttl reset is observable
    server.drop_disconnected_clients();
    assert_eq!(server.clients[0].until_drop, FRAME_DIFFERENCE_BEFORE_DISCONNECT - GAME_TICK_HZ);
    let r = server.handle_datagram(10, &datagram(2, 1, vec![ClientBodyElem::Ping]));
    assert_eq!(r, Ok(None));
    let c = &server.clients[0];
    assert_eq!(c.last_ack, 1);
    // the old queue was superseded; only the new pong remains
    assert_eq!(c.bodies, vec![ServerBodyElem::Pong(2)]);
    assert_eq!(c.until_drop, FRAME_DIFFERENCE_BEFORE_DISCONNECT);
}

#[test]
fn capacity_exceeded_rejects_unseen_address() {
    let mut server = Server::new(MAX_CLIENTS);
    server.handle_datagram(1, &datagram(1, 0, vec![])).unwrap();
    server.handle_datagram(2, &datagram(1, 0, vec![])).unwrap();
    let r = server.handle_datagram(3, &datagram(1, 0, vec![]));
    assert_eq!(r, Err(ReceiveError::CapacityExceeded));
    assert_eq!(server.clients.len(), MAX_CLIENTS);
    assert!(!server.has_client(3));
    // known senders still get through at capacity
    assert_eq!(server.handle_datagram(2, &datagram(2, 0, vec![])), Ok(None));
}

#[test]
fn malformed_datagram_creates_no_session() {
    let mut server = Server::new(MAX_CLIENTS);
    let r = server.handle_datagram(10, &[1, 2, 3]);
    assert_eq!(r, Err(ReceiveError::DecodeError));
    assert_eq!(server.clients.len(), 0);
}

#[test]
fn stale_pong_is_filtered_against_watermark() {
    let mut server = Server::new(MAX_CLIENTS);
    // establish watermark 6
    server.handle_datagram(10, &datagram(7, 6, vec![])).unwrap();
    assert_eq!(server.clients[0].last_ack, 6);
    // a stale message's ping would queue Pong(5), which 5 < 6 removes
    server.handle_datagram(10, &datagram(5, 0, vec![ClientBodyElem::Ping])).unwrap();
    assert_eq!(server.clients[0].last_ack, 6);
    assert_eq!(server.clients[0].bodies, Vec::<ServerBodyElem>::new());
    // a ping at the watermark survives the filter
    server.handle_datagram(10, &datagram(6, 0, vec![ClientBodyElem::Ping])).unwrap();
    assert_eq!(server.clients[0].bodies, vec![ServerBodyElem::Pong(6)]);
}

#[test]
fn watermark_is_monotonic_over_a_run() {
    let mut server = Server::new(MAX_CLIENTS);
    let reports = [0u64, 5, 3, 7, 7, 2];
    let mut acks = Vec::new();
    for (k, lrs) in reports.iter().enumerate() {
        server.handle_datagram(10, &datagram(k as u64 + 1, *lrs, vec![])).unwrap();
        acks.push(server.clients[0].last_ack);
    }
    assert_eq!(acks, vec![0, 5, 5, 7, 7, 7]);
}

#[test]
fn last_input_payload_wins() {
    let mut server = Server::new(MAX_CLIENTS);
    let r = server.handle_datagram(
        10,
        &datagram(
            1,
            0,
            vec![
                ClientBodyElem::Input(PlayerInput { data: vec![42] }),
                ClientBodyElem::Ping,
                ClientBodyElem::Input(PlayerInput { data: vec![7, 8] }),
            ],
        ),
    );
    assert_eq!(r, Ok(Some(PlayerInput { data: vec![7, 8] })));
    assert_eq!(server.clients[0].bodies, vec![ServerBodyElem::Pong(1)]);
}

#[test]
fn flush_sends_queue_and_drops_terrain() {
    let mut server = Server::new(MAX_CLIENTS);
    server.handle_datagram(10, &datagram(1, 0, vec![ClientBodyElem::Ping])).unwrap();
    server.enqueue_terrain(&Terrain { data: vec![4, 5] });
    let out = server.send_all_messages();
    assert_eq!(out.len(), 1);
    assert_eq!(out[0].0, 10);
    let sent = decode_server_message(&out[0].1).unwrap();
    assert_eq!(sent.header.sequence, 1);
    assert_eq!(
        sent.bodies,
        vec![ServerBodyElem::Pong(1), ServerBodyElem::Terrain(Terrain { data: vec![4, 5] })]
    );
    // after the flush the pong waits on, the terrain is gone
    assert_eq!(server.clients[0].bodies, vec![ServerBodyElem::Pong(1)]);
}

#[test]
fn terrain_never_accumulates_across_ticks() {
    let mut server = Server::new(MAX_CLIENTS);
    server.handle_datagram(10, &datagram(1, 0, vec![])).unwrap();
    for tick in 0..3u64 {
        server.enqueue_terrain(&Terrain { data: vec![tick as u8] });
        let out = server.send_all_messages();
        let sent = decode_server_message(&out[0].1).unwrap();
        let terrains = sent
            .bodies
            .iter()
            .filter(|b| matches!(b, ServerBodyElem::Terrain(_)))
            .count();
        // each packet carries exactly the one snapshot of its own tick
        assert_eq!(terrains, 1);
        assert_eq!(sent.bodies, vec![ServerBodyElem::Terrain(Terrain { data: vec![tick as u8] })]);
    }
}

#[test]
fn timeout_evicts_after_full_countdown() {
    let mut server = Server::new(MAX_CLIENTS);
    server.handle_datagram(10, &datagram(1, 0, vec![])).unwrap();
    let runs = FRAME_DIFFERENCE_BEFORE_DISCONNECT / GAME_TICK_HZ;
    for _ in 0..runs - 1 {
        server.drop_disconnected_clients();
        assert!(server.has_client(10));
    }
    server.drop_disconnected_clients();
    assert!(!server.has_client(10));
    assert_eq!(server.clients.len(), 0);
}

#[test]
fn fresh_message_rearms_the_countdown() {
    let mut server = Server::new(MAX_CLIENTS);
    server.handle_datagram(10, &datagram(1, 0, vec![])).unwrap();
    for _ in 0..5 {
        server.drop_disconnected_clients();
    }
    assert!(server.has_client(10));
    server.handle_datagram(10, &datagram(2, 1, vec![])).unwrap();
    assert_eq!(server.clients[0].until_drop, FRAME_DIFFERENCE_BEFORE_DISCONNECT);
    let runs = FRAME_DIFFERENCE_BEFORE_DISCONNECT / GAME_TICK_HZ;
    for _ in 0..runs - 1 {
        server.drop_disconnected_clients();
        assert!(server.has_client(10));
    }
    server.drop_disconnected_clients();
    assert!(!server.has_client(10));
}

#[test]
fn stale_message_does_not_rearm_the_countdown() {
    let mut server = Server::new(MAX_CLIENTS);
    server.handle_datagram(10, &datagram(1, 0, vec![])).unwrap();
    server.drop_disconnected_clients();
    let aged = server.clients[0].until_drop;
    server.handle_datagram(10, &datagram(2, 0, vec![])).unwrap();
    assert_eq!(server.clients[0].until_drop, aged);
}

#[test]
fn reaper_only_touches_expired_sessions() {
    let mut server = Server::new(MAX_CLIENTS);
    server.handle_datagram(1, &datagram(1, 0, vec![])).unwrap();
    let runs = FRAME_DIFFERENCE_BEFORE_DISCONNECT / GAME_TICK_HZ;
    for _ in 0..runs - 1 {
        server.drop_disconnected_clients();
    }
    // a second peer arrives just before the first one times out
    server.handle_datagram(2, &datagram(1, 0, vec![])).unwrap();
    server.drop_disconnected_clients();
    assert!(!server.has_client(1));
    assert!(server.has_client(2));
    assert_eq!(server.clients.len(), 1);
}

#[test]
fn prepare_send_refuses_unknown_peer() {
    let mut server = Server::new(MAX_CLIENTS);
    server.handle_datagram(10, &datagram(1, 0, vec![])).unwrap();
    let message = ServerToClient {
        header: ServerHeader { sequence: 1 },
        bodies: vec![ServerBodyElem::Pong(1)],
    };
    assert_eq!(server.prepare_send(11, &message), Err(SendError::NoSuchPeer));
    assert_eq!(server.prepare_send(10, &message), Ok(encode_server_message(&message)));
}

#[test]
fn remove_deletes_only_the_given_session() {
    let mut server = Server::new(MAX_CLIENTS);
    server.handle_datagram(1, &datagram(1, 0, vec![])).unwrap();
    server.handle_datagram(2, &datagram(1, 0, vec![])).unwrap();
    assert!(server.remove(1));
    assert!(!server.has_client(1));
    assert!(server.has_client(2));
    assert!(!server.remove(1));
    assert_eq!(server.clients.len(), 1);
}

#[test]
fn increase_tick_advances_sequence() {
    let mut server = Server::new(MAX_CLIENTS);
    assert_eq!(server.sequence, 1);
    server.increase_tick();
    server.increase_tick();
    assert_eq!(server.sequence, 3);
}
