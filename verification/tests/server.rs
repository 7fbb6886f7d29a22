use mc173_server::error::new_io_abort_error;
use mc173_server::net::{NetworkClient, NetworkEvent};
use mc173_server::server::{
    keepalive_due, tick_padding, ClientState, Departure, HandshakeAction, HandshakePacket,
    LoginRequest, PacketRoute, Server, ServerStep, PROTOCOL_VERSION,
};

fn login(username: &str) -> HandshakePacket {
    HandshakePacket::Login(LoginRequest {
        protocol_version: PROTOCOL_VERSION,
        username: username.to_string(),
    })
}

fn joined(action: HandshakeAction) -> (usize, usize, bool) {
    match action {
        HandshakeAction::Joined { world_index, player_index, first_login } => {
            (world_index, player_index, first_login)
        }
        other => panic!("a join was expected, got {:?}", other),
    }
}

fn server_with_worlds() -> Server {
    let mut server = Server::new();
    server.register_world("overworld".to_string());
    server.register_world("nether".to_string());
    server
}

#[test]
fn accepted_client_is_handshaking() {
    let mut server = server_with_worlds();
    let client = NetworkClient::new(1);
    assert!(!server.is_connected(client));
    server.handle_accept(client);
    assert!(server.is_connected(client));
    assert_eq!(server.handle_packet(client), PacketRoute::Handshaking);
}

#[test]
fn keep_alive_while_handshaking_does_nothing() {
    let mut server = server_with_worlds();
    let client = NetworkClient::new(1);
    server.handle_accept(client);
    let action = server.handle_handshaking(client, HandshakePacket::KeepAlive);
    assert!(matches!(action, HandshakeAction::Nothing));
    assert_eq!(server.handle_packet(client), PacketRoute::Handshaking);
}

#[test]
fn handshake_is_answered_with_a_dash() {
    let mut server = server_with_worlds();
    let client = NetworkClient::new(1);
    server.handle_accept(client);
    let action = server.handle_handshaking(client, HandshakePacket::Handshake);
    assert!(matches!(action, HandshakeAction::SendHandshake { server: "-" }));
}

#[test]
fn unexpected_packet_disconnects() {
    let mut server = server_with_worlds();
    let client = NetworkClient::new(1);
    server.handle_accept(client);
    let action = server.handle_handshaking(client, HandshakePacket::Other);
    assert!(matches!(action, HandshakeAction::SendDisconnect { reason: "Invalid packet" }));
    assert_eq!(server.handle_packet(client), PacketRoute::Handshaking);
}

#[test]
fn wrong_protocol_version_is_refused() {
    let mut server = server_with_worlds();
    let client = NetworkClient::new(1);
    server.handle_accept(client);
    let action = server.handle_login(
        client,
        LoginRequest { protocol_version: 13, username: "steve".to_string() },
    );
    assert!(matches!(
        action,
        HandshakeAction::SendDisconnect { reason: "Protocol version mismatch!" }
    ));
    assert_eq!(server.handle_packet(client), PacketRoute::Handshaking);
}

#[test]
fn first_login_joins_the_first_world() {
    let mut server = server_with_worlds();
    let client = NetworkClient::new(1);
    server.handle_accept(client);
    let (world_index, player_index, first_login) =
        joined(server.handle_handshaking(client, login("steve")));
    assert_eq!((world_index, player_index, first_login), (0, 0, true));
    assert_eq!(
        server.handle_packet(client),
        PacketRoute::Player { world_index: 0, player_index: 0 }
    );
}

#[test]
fn players_take_slots_in_order() {
    let mut server = server_with_worlds();
    for token in 1..=3 {
        let client = NetworkClient::new(token);
        server.handle_accept(client);
        let (world_index, player_index, _) =
            joined(server.handle_handshaking(client, login(&format!("player{}", token))));
        assert_eq!((world_index, player_index), (0, token - 1));
    }
}

#[test]
fn known_player_is_not_a_first_login() {
    let mut server = server_with_worlds();
    let first = NetworkClient::new(1);
    server.handle_accept(first);
    joined(server.handle_handshaking(first, login("steve")));
    assert_eq!(server.handle_lost(first), Some(Departure { world_index: 0, player_index: 0 }));
    let again = NetworkClient::new(2);
    server.handle_accept(again);
    let (world_index, player_index, first_login) =
        joined(server.handle_handshaking(again, login("steve")));
    assert_eq!((world_index, player_index, first_login), (0, 0, false));
}

#[test]
fn lost_handshaking_client_leaves_no_trace() {
    let mut server = server_with_worlds();
    let client = NetworkClient::new(1);
    server.handle_accept(client);
    assert_eq!(server.handle_lost(client), None);
    assert!(!server.is_connected(client));
}

#[test]
fn lost_player_slot_is_filled_by_the_last_player() {
    let mut server = server_with_worlds();
    let clients: Vec<NetworkClient> = (1..=3).map(NetworkClient::new).collect();
    for (i, client) in clients.iter().enumerate() {
        server.handle_accept(*client);
        joined(server.handle_handshaking(*client, login(&format!("p{}", i))));
    }
    assert_eq!(
        server.handle_lost(clients[0]),
        Some(Departure { world_index: 0, player_index: 0 })
    );
    assert!(!server.is_connected(clients[0]));
    // The last player moved into the freed slot.
    assert_eq!(
        server.handle_packet(clients[2]),
        PacketRoute::Player { world_index: 0, player_index: 0 }
    );
    assert_eq!(
        server.handle_packet(clients[1]),
        PacketRoute::Player { world_index: 0, player_index: 1 }
    );
}

#[test]
fn lost_last_player_moves_nobody() {
    let mut server = server_with_worlds();
    let a = NetworkClient::new(1);
    let b = NetworkClient::new(2);
    for (client, name) in [(a, "a"), (b, "b")] {
        server.handle_accept(client);
        joined(server.handle_handshaking(client, login(name)));
    }
    assert_eq!(server.handle_lost(b), Some(Departure { world_index: 0, player_index: 1 }));
    assert_eq!(server.handle_packet(a), PacketRoute::Player { world_index: 0, player_index: 0 });
    let c = NetworkClient::new(3);
    server.handle_accept(c);
    let (_, player_index, _) = joined(server.handle_handshaking(c, login("c")));
    assert_eq!(player_index, 1);
}

#[test]
fn join_then_leave_frees_the_slot_it_took() {
    let mut server = server_with_worlds();
    let a = NetworkClient::new(1);
    server.handle_accept(a);
    joined(server.handle_handshaking(a, login("a")));
    let b = NetworkClient::new(2);
    server.handle_accept(b);
    let (_, slot, _) = joined(server.handle_handshaking(b, login("b")));
    assert_eq!(server.handle_lost(b), Some(Departure { world_index: 0, player_index: slot }));
    assert_eq!(server.handle_packet(a), PacketRoute::Player { world_index: 0, player_index: 0 });
}

#[test]
fn connected_clients_lists_everyone_once() {
    let mut server = server_with_worlds();
    assert!(server.connected_clients().is_empty());
    for token in [5, 9, 2] {
        server.handle_accept(NetworkClient::new(token));
    }
    joined(server.handle_handshaking(NetworkClient::new(9), login("nine")));
    let mut ids: Vec<u64> = server.connected_clients().iter().map(|c| c.id()).collect();
    ids.sort();
    assert_eq!(ids, vec![2, 5, 9]);
    server.handle_lost(NetworkClient::new(5));
    let mut ids: Vec<u64> = server.connected_clients().iter().map(|c| c.id()).collect();
    ids.sort();
    assert_eq!(ids, vec![2, 9]);
}

#[test]
fn client_state_tells_the_slot() {
    let state = ClientState::Playing { world_index: 1, player_index: 2 };
    assert_ne!(state, ClientState::Handshaking);
    assert_eq!(state, ClientState::Playing { world_index: 1, player_index: 2 });
}

#[test]
fn keepalive_is_due_after_five_seconds() {
    assert!(!keepalive_due(0));
    assert!(!keepalive_due(5_000_000_000));
    assert!(keepalive_due(5_000_000_001));
}

#[test]
fn short_ticks_are_padded_to_fifty_milliseconds() {
    assert_eq!(tick_padding(0), Some(50_000_000));
    assert_eq!(tick_padding(20_000_000), Some(30_000_000));
    assert_eq!(tick_padding(50_000_000), Some(0));
    assert_eq!(tick_padding(50_000_001), None);
}

#[test]
fn network_events_drive_the_sessions() {
    let mut server = server_with_worlds();
    let client = NetworkClient::new(4);
    let step = server.handle_event::<u8>(NetworkEvent::Accept { client });
    assert!(matches!(step, ServerStep::Accepted));
    match server.handle_event(NetworkEvent::Packet { client, packet: 7u8 }) {
        ServerStep::ToHandshake { client: to, packet } => {
            assert_eq!(to, client);
            assert_eq!(packet, 7);
        }
        _ => panic!("the packet should go to the handshake"),
    }
    joined(server.handle_handshaking(client, login("four")));
    match server.handle_event(NetworkEvent::Packet { client, packet: 8u8 }) {
        ServerStep::ToPlayer { world_index, player_index, packet } => {
            assert_eq!((world_index, player_index, packet), (0, 0, 8));
        }
        _ => panic!("the packet should go to the player"),
    }
    let lost = NetworkEvent::<u8>::Lost {
        client,
        error: Some(new_io_abort_error("client side closed")),
    };
    match server.handle_event(lost) {
        ServerStep::Left(departure) => {
            assert_eq!(departure, Some(Departure { world_index: 0, player_index: 0 }))
        }
        _ => panic!("the client should have left"),
    }
    assert!(!server.is_connected(client));
}

#[test]
fn login_goes_to_the_world_the_player_last_was_in() {
    let mut server = Server::new();
    server.register_world("overworld".to_string());
    let client = NetworkClient::new(1);
    server.handle_accept(client);
    joined(server.handle_handshaking(client, login("alex")));
    // A later world does not change where a known player goes.
    server.register_world("nether".to_string());
    server.handle_lost(client);
    let again = NetworkClient::new(2);
    server.handle_accept(again);
    let (world_index, _, first_login) = joined(server.handle_handshaking(again, login("alex")));
    assert_eq!((world_index, first_login), (0, false));
}

#[test]
fn accepting_a_handshaking_client_again_restarts_its_handshake() {
    let mut server = server_with_worlds();
    let client = NetworkClient::new(3);
    server.handle_accept(client);
    server.handle_accept(client);
    assert!(server.is_connected(client));
    assert_eq!(server.handle_packet(client), PacketRoute::Handshaking);
    assert_eq!(server.connected_clients().len(), 1);
}
