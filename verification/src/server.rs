//! The server's book of connected clients: which are still handshaking,
//! which play in which world and in which player slot, and in which world
//! each known player last was.
use crate::net::{NetworkClient, NetworkEvent};
use std::collections::HashMap;
use vstd::hash_map::StringHashMap;
use vstd::prelude::*;
use vstd::std_specs::hash::spec_keys_iter;
use vstd::std_specs::iter::IteratorSpec;

verus! {

broadcast use vstd::std_specs::hash::group_hash_axioms;

/// The protocol version that this server speaks.
pub const PROTOCOL_VERSION: i32 = 14;

/// The length of a server tick, in nanoseconds.
pub const TICK_NANOS: u128 = 50_000_000;

/// The time between two rounds of keep-alive packets, in nanoseconds.
pub const KEEPALIVE_INTERVAL_NANOS: u128 = 5_000_000_000;

/// Whether keep-alive packets are due, `elapsed_nanos` after the last round.
pub fn keepalive_due(elapsed_nanos: u128) -> (due: bool)
    ensures
        due == (elapsed_nanos > KEEPALIVE_INTERVAL_NANOS),
{
    elapsed_nanos > KEEPALIVE_INTERVAL_NANOS
}

/// How long to sleep after a tick that took `elapsed_nanos` so that ticks
/// are a tick length apart; `None` where the tick took longer than that.
pub fn tick_padding(elapsed_nanos: u128) -> (padding: Option<u128>)
    ensures
        elapsed_nanos <= TICK_NANOS ==> padding == Some((TICK_NANOS - elapsed_nanos) as u128),
        elapsed_nanos > TICK_NANOS ==> padding is None,
{
    if elapsed_nanos <= TICK_NANOS {
        Some(TICK_NANOS - elapsed_nanos)
    } else {
        None
    }
}

/// Where a connected client is in its session.
#[derive(Clone, Copy, PartialEq, Eq, Structural, Debug)]
pub enum ClientState {
    /// The client has not logged in yet.
    Handshaking,
    /// The client plays as the player in slot `player_index` of world `world_index`.
    Playing { world_index: usize, player_index: usize },
}

/// A world and the clients of the players in it, by player slot.
struct WorldState {
    name: String,
    players: Vec<NetworkClient>,
}

/// The abstract state of a server.
#[verifier::ext_equal]
pub struct ServerView {
    /// The state of each connected client, by the client's token.
    pub clients: Map<usize, ClientState>,
    /// The name of each world, by world index.
    pub worlds: Seq<Seq<char>>,
    /// The client of each player slot, by world index.
    pub players: Seq<Seq<NetworkClient>>,
    /// The world in which each known player last was, by username.
    pub offline: Map<Seq<char>, Seq<char>>,
}

/// Whether `state` is that of the player in slot `p` of world `w`.
pub open spec fn plays_at(state: ClientState, w: int, p: int) -> bool {
    state matches ClientState::Playing { world_index, player_index } && world_index == w
        && player_index == p
}

impl ServerView {
    /// The state is consistent: every playing client sits in the player slot
    /// that its state names, every player slot holds a playing client whose
    /// state names that slot, and every known player's world exists.
    pub open spec fn well_formed(self) -> bool {
        &&& self.players.len() == self.worlds.len()
        &&& forall|t: usize| #[trigger]
            self.clients.contains_key(t) ==> match self.clients[t] {
                ClientState::Handshaking => true,
                ClientState::Playing { world_index, player_index } => {
                    &&& world_index < self.players.len()
                    &&& player_index < self.players[world_index as int].len()
                    &&& self.players[world_index as int][player_index as int]@ == t
                },
            }
        &&& forall|w: int, p: int|
            0 <= w < self.players.len() && 0 <= p < self.players[w].len() ==> {
                &&& self.clients.contains_key(#[trigger] self.players[w][p]@)
                &&& plays_at(self.clients[self.players[w][p]@], w, p)
            }
        &&& forall|u: Seq<char>| #[trigger]
            self.offline.contains_key(u) ==> self.worlds.contains(self.offline[u])
    }

    /// Whether `index` is the index of the first world named `name`.
    pub open spec fn first_world_named(self, name: Seq<char>, index: int) -> bool {
        &&& 0 <= index < self.worlds.len()
        &&& self.worlds[index] == name
        &&& forall|v: int| 0 <= v < index ==> self.worlds[v] != name
    }
}

/// The connected clients and player slots of a server.
pub struct Server {
    clients: HashMap<usize, ClientState>,
    worlds: Vec<WorldState>,
    offline_players: StringHashMap<String>,
}

impl View for Server {
    type V = ServerView;

    closed spec fn view(&self) -> ServerView {
        ServerView {
            clients: self.clients@,
            worlds: self.worlds@.map_values(|w: WorldState| w.name@),
            players: self.worlds@.map_values(|w: WorldState| w.players@),
            offline: self.offline_players@.map_values(|s: String| s@),
        }
    }
}

/// A player that left its slot.
#[derive(Clone, Copy, PartialEq, Eq, Structural, Debug)]
pub struct Departure {
    pub world_index: usize,
    pub player_index: usize,
}

/// Where a packet of a connected client goes.
#[derive(Clone, Copy, PartialEq, Eq, Structural, Debug)]
pub enum PacketRoute {
    /// To the handshake: the client has not logged in yet.
    Handshaking,
    /// To the player in slot `player_index` of world `world_index`.
    Player { world_index: usize, player_index: usize },
}


/// A login request of a handshaking client.
pub struct LoginRequest {
    pub protocol_version: i32,
    pub username: String,
}

/// A packet of a handshaking client, as far as the handshake reads it.
pub enum HandshakePacket {
    KeepAlive,
    Handshake,
    Login(LoginRequest),
    /// Any packet that has no place in a handshake.
    Other,
}

/// What the handshake of a client asks the server to do.
#[derive(Clone, Copy, Debug)]
pub enum HandshakeAction {
    /// Nothing.
    Nothing,
    /// Answer the handshake, naming the server `server`.
    SendHandshake { server: &'static str },
    /// Disconnect the client for `reason`.
    SendDisconnect { reason: &'static str },
    /// The client logged in and plays in slot `player_index` of world
    /// `world_index`; `first_login` tells that its player was not known
    /// before and starts at the spawn of the first world.
    Joined { world_index: usize, player_index: usize, first_login: bool },
}

/// How logging `client` in with `protocol_version` and `username` takes the
/// server from `before` to `after` and what it asks for: a client of another
/// protocol version is disconnected; otherwise its player, where it is not
/// known yet, is put in the first world, and it takes a new player slot at
/// the end of the first world named as the one in which its player last was.
pub open spec fn logs_in(
    before: ServerView,
    client: NetworkClient,
    protocol_version: i32,
    username: Seq<char>,
    after: ServerView,
    action: HandshakeAction,
) -> bool {
    &&& after.worlds == before.worlds
    &&& protocol_version != PROTOCOL_VERSION ==> {
        &&& action == HandshakeAction::SendDisconnect { reason: "Protocol version mismatch!" }
        &&& after == before
    }
    &&& protocol_version == PROTOCOL_VERSION ==> {
        let known = before.offline.contains_key(username);
        let offline = if known {
            before.offline
        } else {
            before.offline.insert(username, before.worlds[0])
        };
        &&& after.offline == offline
        &&& action matches HandshakeAction::Joined { world_index, player_index, first_login } && {
            &&& first_login == !known
            &&& before.first_world_named(offline[username], world_index as int)
            &&& player_index == before.players[world_index as int].len()
            &&& after.players == before.players.update(
                world_index as int,
                before.players[world_index as int].push(client),
            )
            &&& after.clients == before.clients.insert(
                client@,
                ClientState::Playing { world_index, player_index },
            )
        }
    }
}

/// What the server does with an event of the network.
pub enum ServerStep<I> {
    /// A client was accepted and handshakes.
    Accepted,
    /// A client is gone; where it played, the slot it left.
    Left(Option<Departure>),
    /// A packet for the handshake of `client`.
    ToHandshake { client: NetworkClient, packet: I },
    /// A packet for the player in slot `player_index` of world `world_index`.
    ToPlayer { world_index: usize, player_index: usize, packet: I },
}

/// How forgetting the lost `client` takes the server from `before` to
/// `after`, and which slot it reports: a handshaking client is just
/// forgotten; a playing client's slot is filled with its world's last
/// player, whose client then plays in that slot.
pub open spec fn loses(
    before: ServerView,
    client: NetworkClient,
    after: ServerView,
    departure: Option<Departure>,
) -> bool {
    &&& after.worlds == before.worlds
    &&& after.offline == before.offline
    &&& match before.clients[client@] {
        ClientState::Handshaking => {
            &&& departure is None
            &&& after.clients == before.clients.remove(client@)
            &&& after.players == before.players
        },
        ClientState::Playing { world_index, player_index } => {
            let slots = before.players[world_index as int];
            let moved = slots.last();
            &&& departure == Some(Departure { world_index, player_index })
            &&& after.players == before.players.update(
                world_index as int,
                slots.update(player_index as int, moved).drop_last(),
            )
            &&& after.clients == if player_index + 1 < slots.len() {
                before.clients.remove(client@).insert(
                    moved@,
                    ClientState::Playing { world_index, player_index },
                )
            } else {
                before.clients.remove(client@)
            }
        },
    }
}

impl Server {
    /// A server with no world and no client.
    pub fn new() -> (server: Self)
        ensures
            server@.clients == Map::<usize, ClientState>::empty(),
            server@.worlds == Seq::<Seq<char>>::empty(),
            server@.players == Seq::<Seq<NetworkClient>>::empty(),
            server@.offline == Map::<Seq<char>, Seq<char>>::empty(),
            server@.well_formed(),
    {
        let server = Server {
            clients: HashMap::new(),
            worlds: Vec::new(),
            offline_players: StringHashMap::new(),
        };
        assert(server@.offline =~= Map::<Seq<char>, Seq<char>>::empty());
        server
    }

    /// Adds a world named `name`, with no player in it.
    pub fn register_world(&mut self, name: String)
        requires
            old(self)@.well_formed(),
        ensures
            final(self)@.worlds == old(self)@.worlds.push(name@),
            final(self)@.players == old(self)@.players.push(Seq::<NetworkClient>::empty()),
            final(self)@.clients == old(self)@.clients,
            final(self)@.offline == old(self)@.offline,
            final(self)@.well_formed(),
    {
        let ghost before = self@;
        let world = WorldState { name, players: Vec::new() };
        self.worlds.push(world);
        let ghost after = self@;
        assert(after.worlds =~= before.worlds.push(world.name@));
        assert(after.players =~= before.players.push(Seq::<NetworkClient>::empty()));
        assert forall|u: Seq<char>| #[trigger] after.offline.contains_key(u) implies after.worlds.contains(
            after.offline[u],
        ) by {
            let w = choose|w: int| 0 <= w < before.worlds.len() && before.worlds[w] == before.offline[u];
            assert(after.worlds[w] == after.offline[u]);
        }
    }

    /// Whether `client` is connected.
    pub fn is_connected(&self, client: NetworkClient) -> (connected: bool)
        ensures
            connected == self@.clients.contains_key(client@),
    {
        self.clients.contains_key(&client.token())
    }

    /// The connected clients, each once, in no particular order.
    pub fn connected_clients(&self) -> (clients: Vec<NetworkClient>)
        ensures
            clients@.len() == self@.clients.dom().len(),
            forall|i: int, j: int|
                0 <= i < j < clients@.len() ==> clients@[i]@ != clients@[j]@,
            forall|i: int| 0 <= i < clients@.len() ==> self@.clients.contains_key(#[trigger] clients@[i]@),
            forall|t: usize| #[trigger]
                self@.clients.contains_key(t) ==> exists|i: int|
                    0 <= i < clients@.len() && clients@[i]@ == t,
    {
        let mut out: Vec<NetworkClient> = Vec::new();
        let ghost keys = spec_keys_iter(&self.clients).remaining();
        for t in it: self.clients.keys()
            invariant
                it.seq() == keys,
                out@.len() == it.index(),
                forall|i: int| 0 <= i < it.index() ==> out@[i]@ == *it.seq()[i],
        {
            out.push(NetworkClient::new(*t));
        }
        proof {
            let tokens = keys.unref();
            assert(tokens.to_set() == self@.clients.dom());
            assert(keys.no_duplicates());
            assert forall|i: int, j: int| 0 <= i < j < out@.len() implies out@[i]@ != out@[j]@ by {
                assert(tokens[i] == out@[i]@);
                assert(tokens[j] == out@[j]@);
            }
            assert forall|i: int| 0 <= i < out@.len() implies self@.clients.contains_key(
                #[trigger] out@[i]@,
            ) by {
                assert(tokens[i] == out@[i]@);
                assert(tokens.to_set().contains(tokens[i]));
            }
            assert forall|t: usize| #[trigger] self@.clients.contains_key(t) implies exists|i: int|
                0 <= i < out@.len() && out@[i]@ == t by {
                assert(tokens.to_set().contains(t));
                let i = choose|i: int| 0 <= i < tokens.len() && tokens[i] == t;
                assert(out@[i]@ == t);
            }
        }
        out
    }

    /// Records an accepted client, which starts handshaking; a handshaking
    /// client of the same token starts over.
    ///
    /// The client must not be playing: its player slot would then point at a
    /// handshaking client. Accepted clients carry fresh tokens (see
    /// `lemma_allocated_tokens_distinct`), so a playing client is never
    /// accepted again.
    pub fn handle_accept(&mut self, client: NetworkClient)
        requires
            old(self)@.well_formed(),
            !(old(self)@.clients.contains_key(client@) && old(self)@.clients[client@] is Playing),
        ensures
            final(self)@.clients == old(self)@.clients.insert(client@, ClientState::Handshaking),
            final(self)@.worlds == old(self)@.worlds,
            final(self)@.players == old(self)@.players,
            final(self)@.offline == old(self)@.offline,
            final(self)@.well_formed(),
    {
        let ghost before = self@;
        self.clients.insert(client.token(), ClientState::Handshaking);
        proof {
            assert forall|w: int, p: int|
                0 <= w < before.players.len() && 0 <= p < before.players[w].len() implies
                #[trigger] before.players[w][p]@ != client@ by {
                assert(before.clients.contains_key(before.players[w][p]@));
                assert(plays_at(before.clients[before.players[w][p]@], w, p));
            }
        }
    }

    /// Where a packet of `client` goes.
    pub fn handle_packet(&self, client: NetworkClient) -> (route: PacketRoute)
        requires
            self@.clients.contains_key(client@),
        ensures
            route == match self@.clients[client@] {
                ClientState::Handshaking => PacketRoute::Handshaking,
                ClientState::Playing { world_index, player_index } => PacketRoute::Player {
                    world_index,
                    player_index,
                },
            },
    {
        match self.clients.get(&client.token()) {
            Some(ClientState::Handshaking) => PacketRoute::Handshaking,
            Some(ClientState::Playing { world_index, player_index }) => PacketRoute::Player {
                world_index: *world_index,
                player_index: *player_index,
            },
            None => PacketRoute::Handshaking,
        }
    }

    /// Forgets a client that is gone. Where it was playing, its player slot
    /// is filled with the world's last player, whose client then plays in
    /// that slot; the slot it left is returned.
    #[verifier::spinoff_prover]
    pub fn handle_lost(&mut self, client: NetworkClient) -> (departure: Option<Departure>)
        requires
            old(self)@.well_formed(),
            old(self)@.clients.contains_key(client@),
        ensures
            final(self)@.well_formed(),
            loses(old(self)@, client, final(self)@, departure),
            !final(self)@.clients.contains_key(client@),
            old(self)@.clients[client@] matches ClientState::Playing { world_index, player_index }
                ==> departure == Some((Departure { world_index, player_index })),
    {
        let ghost before = self@;
        let state = self.clients.remove(&client.token());
        match state {
            Some(ClientState::Playing { world_index, player_index }) => {
                let mut world = WorldState { name: String::new(), players: Vec::new() };
                self.worlds.set_and_swap(world_index, &mut world);
                let ghost slots = world.players@;
                world.players.swap_remove(player_index);
                if player_index < world.players.len() {
                    let moved = world.players[player_index];
                    self.clients.insert(
                        moved.token(),
                        ClientState::Playing { world_index, player_index },
                    );
                }
                self.worlds.set_and_swap(world_index, &mut world);
                let ghost after = self@;
                assert(after.worlds =~= before.worlds);
                assert(after.players =~= before.players.update(
                    world_index as int,
                    slots.update(player_index as int, slots.last()).drop_last(),
                ));
                proof {
                    lemma_departure_keeps_consistency(
                        before,
                        after,
                        client@,
                        world_index,
                        player_index,
                    );
                }
                Some(Departure { world_index, player_index })
            },
            _ => {
                let ghost after = self@;
                assert(after.worlds =~= before.worlds);
                assert(after.players =~= before.players);
                proof {
                    lemma_forget_handshaking(before, after, client);
                }
                None
            },
        }
    }

    /// Takes in an event of the network: an accepted client starts
    /// handshaking, a lost client is forgotten, and a packet goes where its
    /// client is in its session.
    pub fn handle_event<I>(&mut self, event: NetworkEvent<I>) -> (step: ServerStep<I>)
        requires
            old(self)@.well_formed(),
            match event {
                NetworkEvent::Accept { client } => !(old(self)@.clients.contains_key(client@)
                    && old(self)@.clients[client@] is Playing),
                NetworkEvent::Lost { client, .. } => old(self)@.clients.contains_key(client@),
                NetworkEvent::Packet { client, .. } => old(self)@.clients.contains_key(client@),
            },
        ensures
            final(self)@.well_formed(),
            final(self)@.worlds == old(self)@.worlds,
            final(self)@.offline == old(self)@.offline,
            match event {
                NetworkEvent::Accept { client } => {
                    &&& step is Accepted
                    &&& final(self)@.clients == old(self)@.clients.insert(
                        client@,
                        ClientState::Handshaking,
                    )
                    &&& final(self)@.players == old(self)@.players
                },
                NetworkEvent::Lost { client, .. } => step matches ServerStep::Left(departure) && loses(
                    old(self)@,
                    client,
                    final(self)@,
                    departure,
                ),
                NetworkEvent::Packet { client, packet } => {
                    &&& final(self)@ == old(self)@
                    &&& match old(self)@.clients[client@] {
                        ClientState::Handshaking => step == ServerStep::ToHandshake { client, packet },
                        ClientState::Playing { world_index, player_index } => step
                            == ServerStep::ToPlayer { world_index, player_index, packet },
                    }
                },
            },
    {
        match event {
            NetworkEvent::Accept { client } => {
                self.handle_accept(client);
                ServerStep::Accepted
            },
            NetworkEvent::Lost { client, error: _ } => ServerStep::Left(self.handle_lost(client)),
            NetworkEvent::Packet { client, packet } => match self.handle_packet(client) {
                PacketRoute::Handshaking => ServerStep::ToHandshake { client, packet },
                PacketRoute::Player { world_index, player_index } => ServerStep::ToPlayer {
                    world_index,
                    player_index,
                    packet,
                },
            },
        }
    }

    /// Answers a packet of a handshaking client: a keep-alive is ignored, a
    /// handshake is answered, a login logs the client in, and any other
    /// packet disconnects it.
    pub fn handle_handshaking(&mut self, client: NetworkClient, packet: HandshakePacket) -> (action:
        HandshakeAction)
        requires
            old(self)@.well_formed(),
            old(self)@.clients.contains_key(client@),
            old(self)@.clients[client@] == ClientState::Handshaking,
            packet matches HandshakePacket::Login(login) && login.protocol_version == PROTOCOL_VERSION
                && !old(self)@.offline.contains_key(login.username@) ==> old(self)@.worlds.len() > 0,
        ensures
            final(self)@.well_formed(),
            match packet {
                HandshakePacket::KeepAlive => action is Nothing && final(self)@ == old(self)@,
                HandshakePacket::Handshake => action == HandshakeAction::SendHandshake { server: "-" }
                    && final(self)@ == old(self)@,
                HandshakePacket::Login(login) => logs_in(
                    old(self)@,
                    client,
                    login.protocol_version,
                    login.username@,
                    final(self)@,
                    action,
                ),
                HandshakePacket::Other => action == HandshakeAction::SendDisconnect {
                    reason: "Invalid packet",
                } && final(self)@ == old(self)@,
            },
            packet matches HandshakePacket::Login(login) && login.protocol_version != PROTOCOL_VERSION
                ==> action == (HandshakeAction::SendDisconnect {
                reason: "Protocol version mismatch!",
            }) && final(self)@ == old(self)@,
    {
        match packet {
            HandshakePacket::KeepAlive => HandshakeAction::Nothing,
            HandshakePacket::Handshake => HandshakeAction::SendHandshake { server: "-" },
            HandshakePacket::Login(login) => self.handle_login(client, login),
            HandshakePacket::Other => HandshakeAction::SendDisconnect { reason: "Invalid packet" },
        }
    }

    /// The index of the first world named as the one in which the known
    /// player `username` last was.
    fn world_of_player(&self, username: &str) -> (index: usize)
        requires
            self@.well_formed(),
            self@.offline.contains_key(username@),
        ensures
            self@.first_world_named(self@.offline[username@], index as int),
    {
        let name = self.offline_players.get(username).unwrap();
        assert(name@ == self@.offline[username@]);
        let mut i: usize = 0;
        while i < self.worlds.len()
            invariant
                i <= self.worlds.len(),
                self@.worlds.len() == self.worlds.len(),
                name@ == self@.offline[username@],
                forall|v: int| 0 <= v < i ==> self@.worlds[v] != name@,
            decreases self.worlds.len() - i,
        {
            if self.worlds[i].name == *name {
                return i;
            }
            i = i + 1;
        }
        proof {
            assert(self@.worlds.contains(name@));
        }
        0
    }

    /// Logs a handshaking client in. A client of another protocol version is
    /// disconnected; otherwise its player, where it is not known yet, is put
    /// in the first world, and it takes the next player slot of the world in
    /// which its player last was.
    pub fn handle_login(&mut self, client: NetworkClient, login: LoginRequest) -> (action:
        HandshakeAction)
        requires
            old(self)@.well_formed(),
            old(self)@.clients.contains_key(client@),
            old(self)@.clients[client@] == ClientState::Handshaking,
            login.protocol_version == PROTOCOL_VERSION && !old(self)@.offline.contains_key(
                login.username@,
            ) ==> old(self)@.worlds.len() > 0,
        ensures
            final(self)@.well_formed(),
            final(self)@.worlds == old(self)@.worlds,
            logs_in(old(self)@, client, login.protocol_version, login.username@, final(self)@, action),
            login.protocol_version != PROTOCOL_VERSION ==> action == (HandshakeAction::SendDisconnect {
                reason: "Protocol version mismatch!",
            }) && final(self)@ == old(self)@,
    {
        if login.protocol_version != PROTOCOL_VERSION {
            return HandshakeAction::SendDisconnect { reason: "Protocol version mismatch!" };
        }
        let ghost before = self@;
        let first_login = !self.offline_players.contains_key(login.username.as_str());
        if first_login {
            let home = self.worlds[0].name.clone();
            self.offline_players.insert(login.username.clone(), home);
            proof {
                let mid = self@;
                assert(mid.offline =~= before.offline.insert(login.username@, before.worlds[0]));
                assert forall|u: Seq<char>| #[trigger] mid.offline.contains_key(u) implies mid.worlds.contains(
                    mid.offline[u],
                ) by {
                    if u == login.username@ {
                        assert(mid.worlds[0] == mid.offline[u]);
                    }
                }
            }
        }
        let ghost mid = self@;
        let world_index = self.world_of_player(login.username.as_str());
        let mut world = WorldState { name: String::new(), players: Vec::new() };
        self.worlds.set_and_swap(world_index, &mut world);
        let player_index = world.players.len();
        world.players.push(client);
        self.worlds.set_and_swap(world_index, &mut world);
        self.clients.insert(
            client.token(),
            ClientState::Playing { world_index, player_index },
        );
        let ghost after = self@;
        assert(after.worlds =~= before.worlds);
        assert(after.players =~= before.players.update(
            world_index as int,
            before.players[world_index as int].push(client),
        ));
        proof {
            lemma_join_keeps_consistency(mid, after, client, world_index, player_index);
        }
        HandshakeAction::Joined { world_index, player_index, first_login }
    }
}

/// Forgetting a handshaking client keeps the state consistent.
proof fn lemma_forget_handshaking(before: ServerView, after: ServerView, client: NetworkClient)
    requires
        before.well_formed(),
        before.clients.contains_key(client@),
        before.clients[client@] == ClientState::Handshaking,
        after.worlds == before.worlds,
        after.offline == before.offline,
        after.players == before.players,
        after.clients == before.clients.remove(client@),
    ensures
        after.well_formed(),
{
    assert forall|w: int, p: int|
        0 <= w < after.players.len() && 0 <= p < after.players[w].len() implies {
            &&& after.clients.contains_key(#[trigger] after.players[w][p]@)
            &&& plays_at(after.clients[after.players[w][p]@], w, p)
        } by {
        assert(before.clients.contains_key(before.players[w][p]@));
        assert(plays_at(before.clients[before.players[w][p]@], w, p));
    }
}

/// Filling the slot that a departing player leaves with the world's last
/// player, and moving that player's client to the slot, keeps the state
/// consistent.
proof fn lemma_departure_keeps_consistency(
    before: ServerView,
    after: ServerView,
    c: usize,
    wi: usize,
    pi: usize,
)
    requires
        before.well_formed(),
        before.clients.contains_key(c),
        before.clients[c] == (ClientState::Playing { world_index: wi, player_index: pi }),
        after.worlds == before.worlds,
        after.offline == before.offline,
        after.players == before.players.update(
            wi as int,
            before.players[wi as int].update(pi as int, before.players[wi as int].last()).drop_last(),
        ),
        after.clients == if pi + 1 < before.players[wi as int].len() {
            before.clients.remove(c).insert(
                before.players[wi as int].last()@,
                ClientState::Playing { world_index: wi, player_index: pi },
            )
        } else {
            before.clients.remove(c)
        },
    ensures
        after.well_formed(),
{
    let w = wi as int;
    let p = pi as int;
    let slots = before.players[w];
    let len = slots.len();
    let last = len - 1;
    let moved = slots[last];
    assert(0 <= w < before.players.len() && 0 <= p < len);
    assert(before.clients.contains_key(moved@));
    assert(plays_at(before.clients[moved@], w, last));
    assert forall|t: usize| #[trigger] after.clients.contains_key(t) implies match after.clients[t] {
        ClientState::Handshaking => true,
        ClientState::Playing { world_index, player_index } => {
            &&& world_index < after.players.len()
            &&& player_index < after.players[world_index as int].len()
            &&& after.players[world_index as int][player_index as int]@ == t
        },
    } by {
        if p + 1 < len && t == moved@ {
        } else {
            assert(t != c);
            assert(before.clients.contains_key(t));
            assert(after.clients[t] == before.clients[t]);
            match before.clients[t] {
                ClientState::Handshaking => {},
                ClientState::Playing { world_index, player_index } => {
                    if world_index as int == w {
                        assert(player_index as int != p);
                        if player_index as int == last {
                            assert(before.players[w][last]@ == t);
                        }
                        assert(player_index < last);
                    }
                },
            }
        }
    }
    assert forall|w2: int, p2: int|
        0 <= w2 < after.players.len() && 0 <= p2 < after.players[w2].len() implies {
            &&& after.clients.contains_key(#[trigger] after.players[w2][p2]@)
            &&& plays_at(after.clients[after.players[w2][p2]@], w2, p2)
        } by {
        if w2 == w && p2 == p {
            assert(after.players[w2][p2] == moved);
        } else {
            assert(after.players[w2][p2] == before.players[w2][p2]);
            let t = before.players[w2][p2]@;
            assert(before.clients.contains_key(t));
            assert(plays_at(before.clients[t], w2, p2));
            assert(t != c);
            if p + 1 < len {
                assert(t != moved@);
            }
        }
    }
}


/// Putting a handshaking client in a new slot at the end of a world keeps the
/// state consistent.
proof fn lemma_join_keeps_consistency(
    before: ServerView,
    after: ServerView,
    client: NetworkClient,
    wi: usize,
    pi: usize,
)
    requires
        before.well_formed(),
        before.clients.contains_key(client@),
        before.clients[client@] == ClientState::Handshaking,
        wi < before.players.len(),
        pi == before.players[wi as int].len(),
        after.worlds == before.worlds,
        after.offline == before.offline,
        after.players == before.players.update(wi as int, before.players[wi as int].push(client)),
        after.clients == before.clients.insert(
            client@,
            ClientState::Playing { world_index: wi, player_index: pi },
        ),
    ensures
        after.well_formed(),
{
    assert forall|t: usize| #[trigger] after.clients.contains_key(t) implies match after.clients[t] {
        ClientState::Handshaking => true,
        ClientState::Playing { world_index, player_index } => {
            &&& world_index < after.players.len()
            &&& player_index < after.players[world_index as int].len()
            &&& after.players[world_index as int][player_index as int]@ == t
        },
    } by {
        if t != client@ {
            assert(before.clients.contains_key(t));
        }
    }
    assert forall|w: int, p: int|
        0 <= w < after.players.len() && 0 <= p < after.players[w].len() implies {
            &&& after.clients.contains_key(#[trigger] after.players[w][p]@)
            &&& plays_at(after.clients[after.players[w][p]@], w, p)
        } by {
        if w != wi as int || p != pi as int {
            assert(after.players[w][p] == before.players[w][p]);
            assert(before.clients.contains_key(before.players[w][p]@));
        }
    }
}

/// A login of another protocol version than the server's, above or below it,
/// is refused with "Protocol version mismatch!" and changes nothing: no
/// client, player slot, world or known player, whether the username is
/// known or not.
pub proof fn lemma_login_refuses_other_versions(
    before: ServerView,
    client: NetworkClient,
    protocol_version: i32,
    username: Seq<char>,
    after: ServerView,
    action: HandshakeAction,
)
    requires
        logs_in(before, client, protocol_version, username, after, action),
        protocol_version != PROTOCOL_VERSION,
    ensures
        action == (HandshakeAction::SendDisconnect { reason: "Protocol version mismatch!" }),
        after.clients == before.clients,
        after.players == before.players,
        after.worlds == before.worlds,
        after.offline == before.offline,
{
}

/// A login of the server's protocol version makes the client play in a new
/// slot at the end of a world: the first world for a player not known
/// before, which is then recorded there, and otherwise the first world named
/// as the one the player was recorded in. No other client and no other slot
/// changes.
pub proof fn lemma_login_takes_next_slot(
    before: ServerView,
    client: NetworkClient,
    username: Seq<char>,
    after: ServerView,
    action: HandshakeAction,
)
    requires
        before.well_formed(),
        before.clients.contains_key(client@),
        before.clients[client@] == ClientState::Handshaking,
        !before.offline.contains_key(username) ==> before.worlds.len() > 0,
        logs_in(before, client, PROTOCOL_VERSION, username, after, action),
    ensures
        action matches HandshakeAction::Joined { world_index, player_index, first_login } && {
            let home = if first_login {
                before.worlds[0]
            } else {
                before.offline[username]
            };
            &&& first_login == !before.offline.contains_key(username)
            &&& world_index < before.worlds.len()
            &&& before.worlds[world_index as int] == home
            &&& forall|v: int| 0 <= v < world_index ==> before.worlds[v] != home
            &&& player_index == before.players[world_index as int].len()
            &&& after.clients.contains_key(client@)
            &&& after.clients[client@] == (ClientState::Playing { world_index, player_index })
            &&& after.players.len() == before.players.len()
            &&& after.players[world_index as int].len() == player_index + 1
            &&& after.players[world_index as int][player_index as int] == client
            &&& forall|p: int|
                0 <= p < player_index ==> after.players[world_index as int][p]
                    == before.players[world_index as int][p]
            &&& forall|w: int|
                0 <= w < before.players.len() && w != world_index ==> after.players[w]
                    == before.players[w]
            &&& forall|t: usize|
                t != client@ ==> (after.clients.contains_key(t) == before.clients.contains_key(t)
                    && after.clients[t] == before.clients[t])
            &&& after.offline.contains_key(username)
            &&& after.offline[username] == home
            &&& forall|u: Seq<char>| u != username ==> after.offline.contains_key(u)
                == before.offline.contains_key(u) && after.offline[u] == before.offline[u]
            &&& after.worlds == before.worlds
        },
{
}

/// A lost client is no longer connected and every other client stays
/// connected. A handshaking client leaves no slot. A playing client's
/// departure names exactly the slot of its state before the loss; its world
/// has one slot fewer, and where that slot was not the last, the world's
/// last player now sits in it and plays there.
pub proof fn lemma_lost_reports_own_slot(
    before: ServerView,
    client: NetworkClient,
    after: ServerView,
    departure: Option<Departure>,
)
    requires
        before.well_formed(),
        before.clients.contains_key(client@),
        loses(before, client, after, departure),
    ensures
        !after.clients.contains_key(client@),
        forall|t: usize|
            t != client@ && before.clients.contains_key(t) ==> after.clients.contains_key(t),
        after.worlds == before.worlds,
        after.offline == before.offline,
        before.clients[client@] is Handshaking ==> departure is None && after.players
            == before.players,
        before.clients[client@] matches ClientState::Playing { world_index, player_index } ==> {
            let slots = before.players[world_index as int];
            &&& departure == Some((Departure { world_index, player_index }))
            &&& after.players[world_index as int].len() + 1 == slots.len()
            &&& player_index + 1 < slots.len() ==> {
                &&& after.players[world_index as int][player_index as int] == slots.last()
                &&& after.clients[slots.last()@] == (ClientState::Playing {
                    world_index,
                    player_index,
                })
            }
        },
{
    if let ClientState::Playing { world_index, player_index } = before.clients[client@] {
        let w = world_index as int;
        let slots = before.players[w];
        let last = slots.len() - 1;
        assert(slots[player_index as int]@ == client@);
        if player_index + 1 < slots.len() {
            assert(before.clients.contains_key(slots[last]@));
            assert(plays_at(before.clients[slots[last]@], w, last));
            assert(slots.last() == slots[last]);
            assert(slots.last()@ != client@);
        }
    }
}

/// In a consistent state, a client that is not connected sits in no player
/// slot: once a client is lost, nothing refers to it any more.
pub proof fn lemma_unconnected_client_holds_no_slot(state: ServerView, client: NetworkClient)
    requires
        state.well_formed(),
        !state.clients.contains_key(client@),
    ensures
        forall|w: int, p: int|
            0 <= w < state.players.len() && 0 <= p < state.players[w].len() ==> #[trigger] state.players[w][p]@
                != client@,
{
    assert forall|w: int, p: int|
        0 <= w < state.players.len() && 0 <= p < state.players[w].len() implies #[trigger] state.players[w][p]@
        != client@ by {
        assert(state.clients.contains_key(state.players[w][p]@));
    }
}

/// A client that is accepted and lost again leaves the connected clients as
/// they were.
pub proof fn lemma_accept_then_lost(state: ServerView, client: NetworkClient)
    requires
        !state.clients.contains_key(client@),
    ensures
        state.clients.insert(client@, ClientState::Handshaking).remove(client@) == state.clients,
{
    assert(state.clients.insert(client@, ClientState::Handshaking).remove(client@) =~= state.clients);
}

/// A client that logs in and is lost before anyone else joins its world
/// leaves that world's player slots as they were, and is no longer
/// connected: the slot it took at the end of the world is the one that its
/// departure frees, and no other player moves.
pub proof fn lemma_join_then_leave(
    players: Seq<Seq<NetworkClient>>,
    clients: Map<usize, ClientState>,
    client: NetworkClient,
    world_index: usize,
    player_index: usize,
)
    requires
        world_index < players.len(),
        player_index == players[world_index as int].len(),
    ensures
        ({
            let slots = players[world_index as int];
            let joined = players.update(world_index as int, slots.push(client));
            let joined_slots = joined[world_index as int];
            let left = joined.update(
                world_index as int,
                joined_slots.update(player_index as int, joined_slots.last()).drop_last(),
            );
            let joined_clients = clients.insert(
                client@,
                ClientState::Playing { world_index, player_index },
            );
            &&& !(player_index + 1 < joined_slots.len())
            &&& left == players
            &&& joined_clients.remove(client@) == clients.remove(client@)
        }),
{
    let slots = players[world_index as int];
    let joined = players.update(world_index as int, slots.push(client));
    let joined_slots = joined[world_index as int];
    assert(joined_slots.update(player_index as int, joined_slots.last()).drop_last() =~= slots);
    assert(joined.update(
        world_index as int,
        joined_slots.update(player_index as int, joined_slots.last()).drop_last(),
    ) =~= players);
    assert(clients.insert(client@, ClientState::Playing { world_index, player_index }).remove(
        client@,
    ) =~= clients.remove(client@));
}

} // verus!
