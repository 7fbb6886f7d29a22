use mc173_server::error::{new_io_abort_error, NetError};
use mc173_server::net::{
    client_event_action, event_target, poll_step, ClientEventAction, ClientTable, CommandWork,
    EventTarget, NetworkClient, NetworkEvent, PollStep, Received, ThreadCommand, ThreadEvent,
    TokenAllocator, CLIENT_FIRST_TOKEN, LISTENER_TOKEN,
};

#[test]
fn abort_error_keeps_its_message() {
    let error = new_io_abort_error("client side closed");
    assert!(matches!(error, NetError::ConnectionAborted("client side closed")));
}

#[test]
fn client_id_is_its_token() {
    let client = NetworkClient::new(42);
    assert_eq!(client.id(), 42);
    assert_eq!(client.token(), 42);
    assert_eq!(client, NetworkClient::new(42));
    assert_ne!(client, NetworkClient::new(43));
    assert_eq!(format!("{:?}", client), "NetworkClient(42)");
}

#[test]
fn allocator_starts_after_the_listener() {
    let mut tokens = TokenAllocator::new();
    assert!(tokens.can_allocate());
    let first = tokens.allocate();
    let second = tokens.allocate();
    let third = tokens.allocate();
    assert_eq!(first, CLIENT_FIRST_TOKEN);
    assert_eq!((first, second, third), (1, 2, 3));
    assert_ne!(first, LISTENER_TOKEN);
}

#[test]
fn allocated_tokens_are_distinct() {
    let mut tokens = TokenAllocator::new();
    let mut seen = Vec::new();
    for _ in 0..100 {
        let token = tokens.allocate();
        assert!(!seen.contains(&token));
        assert_ne!(token, LISTENER_TOKEN);
        seen.push(token);
    }
}

#[test]
fn listener_token_targets_the_listener() {
    assert!(matches!(event_target(LISTENER_TOKEN), EventTarget::Listener));
    match event_target(7) {
        EventTarget::Client(client) => assert_eq!(client.token(), 7),
        EventTarget::Listener => panic!("token 7 is a client's"),
    }
}

#[test]
fn closed_sides_close_the_client() {
    for (read_closed, write_closed) in [(true, false), (false, true), (true, true)] {
        for readable in [false, true] {
            match client_event_action(read_closed, write_closed, readable) {
                ClientEventAction::Close(NetError::ConnectionAborted(message)) => {
                    assert_eq!(message, "client side closed")
                }
                _ => panic!("the client should be closed"),
            }
        }
    }
}

#[test]
fn readable_client_is_read_and_idle_one_ignored() {
    assert!(matches!(client_event_action(false, false, true), ClientEventAction::Read));
    assert!(matches!(client_event_action(false, false, false), ClientEventAction::Ignore));
}

#[test]
fn poll_step_skips_channel_checks() {
    let step = poll_step::<u8>(Received::Message(ThreadEvent::ChannelCheck));
    assert!(matches!(step, PollStep::Again));
}

#[test]
fn poll_step_turns_thread_events_into_network_events() {
    match poll_step::<u8>(Received::Message(ThreadEvent::Accept { token: 3 })) {
        PollStep::Event(NetworkEvent::Accept { client }) => assert_eq!(client.id(), 3),
        _ => panic!("an accept event was expected"),
    }
    match poll_step::<u8>(Received::Message(ThreadEvent::Packet { token: 4, packet: 9 })) {
        PollStep::Event(NetworkEvent::Packet { client, packet }) => {
            assert_eq!(client.id(), 4);
            assert_eq!(packet, 9);
        }
        _ => panic!("a packet event was expected"),
    }
    match poll_step::<u8>(Received::Message(ThreadEvent::Lost {
        token: 5,
        error: Some(new_io_abort_error("client side closed")),
    })) {
        PollStep::Event(NetworkEvent::Lost { client, error }) => {
            assert_eq!(client.id(), 5);
            assert!(matches!(error, Some(NetError::ConnectionAborted("client side closed"))));
        }
        _ => panic!("a lost event was expected"),
    }
    match poll_step::<u8>(Received::Message(ThreadEvent::Lost { token: 6, error: None })) {
        PollStep::Event(NetworkEvent::Lost { client, error }) => {
            assert_eq!(client.id(), 6);
            assert!(error.is_none());
        }
        _ => panic!("a lost event was expected"),
    }
}

#[test]
fn poll_step_reports_thread_errors_and_disconnection() {
    let error = NetError::Io(std::io::Error::new(std::io::ErrorKind::Other, "poll failed"));
    match poll_step::<u8>(Received::Message(ThreadEvent::Error { error })) {
        PollStep::Failed(NetError::Io(error)) => assert_eq!(error.to_string(), "poll failed"),
        _ => panic!("a failure was expected"),
    }
    match poll_step::<u8>(Received::Disconnected) {
        PollStep::Failed(NetError::ConnectionAborted(message)) => {
            assert_eq!(message, "previous error made this server unusable")
        }
        _ => panic!("a failure was expected"),
    }
    assert!(matches!(poll_step::<u8>(Received::Empty), PollStep::Idle));
}

#[test]
fn client_table_tracks_new_and_lost_clients() {
    let mut table: ClientTable<&'static str> = ClientTable::new();
    assert!(table.get(1).is_none());
    let work = table.apply::<u8>(ThreadCommand::NewClient { token: 1, shared: "one" });
    assert!(matches!(work, CommandWork::Nothing));
    assert_eq!(table.get(1), Some(&"one"));
    let work = table.apply::<u8>(ThreadCommand::LostClient { token: 1 });
    assert!(matches!(work, CommandWork::Nothing));
    assert!(table.get(1).is_none());
}

#[test]
fn client_table_sends_only_to_known_clients() {
    let mut table: ClientTable<&'static str> = ClientTable::new();
    table.apply::<u8>(ThreadCommand::NewClient { token: 2, shared: "two" });
    assert!(matches!(
        table.apply::<u8>(ThreadCommand::SingleClientPacket { token: 2, packet: 8 }),
        CommandWork::Send { token: 2, packet: 8 }
    ));
    assert!(matches!(
        table.apply::<u8>(ThreadCommand::SingleClientPacket { token: 3, packet: 8 }),
        CommandWork::Nothing
    ));
    assert!(matches!(
        table.apply::<u8>(ThreadCommand::DisconnectClient { token: 2 }),
        CommandWork::Shutdown { token: 2 }
    ));
    assert!(matches!(
        table.apply::<u8>(ThreadCommand::DisconnectClient { token: 3 }),
        CommandWork::Nothing
    ));
    assert_eq!(table.get(2), Some(&"two"));
}

#[test]
fn new_then_lost_leaves_the_table_as_it_was() {
    let mut table: ClientTable<u32> = ClientTable::new();
    table.apply::<u8>(ThreadCommand::NewClient { token: 1, shared: 10 });
    table.apply::<u8>(ThreadCommand::NewClient { token: 2, shared: 20 });
    table.apply::<u8>(ThreadCommand::LostClient { token: 2 });
    assert_eq!(table.get(1), Some(&10));
    assert!(table.get(2).is_none());
}

#[test]
fn table_holds_announced_clients_not_lost_since() {
    let mut table: ClientTable<u8> = ClientTable::new();
    let commands = vec![
        ThreadCommand::<u8, u8>::NewClient { token: 1, shared: 1 },
        ThreadCommand::NewClient { token: 2, shared: 2 },
        ThreadCommand::SingleClientPacket { token: 1, packet: 0 },
        ThreadCommand::LostClient { token: 1 },
        ThreadCommand::DisconnectClient { token: 2 },
        ThreadCommand::NewClient { token: 3, shared: 3 },
        ThreadCommand::LostClient { token: 3 },
        ThreadCommand::NewClient { token: 3, shared: 4 },
    ];
    for command in commands {
        table.apply(command);
    }
    assert!(table.get(1).is_none());
    assert_eq!(table.get(2), Some(&2));
    assert_eq!(table.get(3), Some(&4));
}
