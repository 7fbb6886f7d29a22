//! Client handles, client tokens, and the events and commands that pass
//! between the network threads and their users.
use crate::error::{new_io_abort_error, NetError};
use std::collections::HashMap;
use vstd::prelude::*;

verus! {

broadcast use vstd::std_specs::hash::group_hash_axioms;

/// The poll token of the listening socket.
pub const LISTENER_TOKEN: usize = 0;

/// The poll token given to the first accepted client.
pub const CLIENT_FIRST_TOKEN: usize = 1;

/// A handle to a client produced by a packet server. This handle can be used
/// with a server to send packets to a client.
#[derive(Clone, Copy, PartialEq, Eq, Structural, PartialOrd, Ord, Hash, Debug)]
pub struct NetworkClient(usize);

impl View for NetworkClient {
    type V = usize;

    /// The poll token of the client.
    closed spec fn view(&self) -> usize {
        self.0
    }
}

impl NetworkClient {
    /// The handle of the client polled under `token`.
    pub fn new(token: usize) -> (client: Self)
        ensures
            client@ == token,
    {
        NetworkClient(token)
    }

    /// The poll token of the client.
    pub fn token(self) -> (token: usize)
        ensures
            token == self@,
    {
        self.0
    }

    /// The number that identifies the client.
    pub fn id(self) -> (id: u64)
        ensures
            id == self@,
    {
        self.0 as u64
    }
}

/// Two handles with the same token are the same handle.
pub broadcast proof fn lemma_client_of_token(a: NetworkClient, b: NetworkClient)
    ensures
        #![trigger a@, b@]
        a@ == b@ ==> a == b,
{
}

/// Hands out the poll tokens of accepted clients, in increasing order.
pub struct TokenAllocator {
    next: usize,
}

impl View for TokenAllocator {
    type V = usize;

    /// The token that the next allocation hands out.
    closed spec fn view(&self) -> usize {
        self.next
    }
}

impl TokenAllocator {
    #[verifier::type_invariant]
    spec fn above_listener(&self) -> bool {
        self.next >= CLIENT_FIRST_TOKEN
    }

    /// An allocator whose first token is `CLIENT_FIRST_TOKEN`.
    pub fn new() -> (allocator: Self)
        ensures
            allocator@ == CLIENT_FIRST_TOKEN,
    {
        TokenAllocator { next: CLIENT_FIRST_TOKEN }
    }

    /// Whether a token can be handed out: the one after it must fit a `usize`.
    pub fn can_allocate(&self) -> (can: bool)
        ensures
            can == (self@ < usize::MAX),
    {
        self.next < usize::MAX
    }

    /// Hands out the next token.
    pub fn allocate(&mut self) -> (token: usize)
        requires
            old(self)@ < usize::MAX,
        ensures
            token == old(self)@,
            final(self)@ == token + 1,
            token >= CLIENT_FIRST_TOKEN,
    {
        proof {
            use_type_invariant(&*self);
        }
        let token = self.next;
        self.next = token + 1;
        token
    }
}

/// Tokens that one allocator hands out in a row are pairwise distinct, and
/// none of them is the listener's token. `states[i]` is the allocator before
/// the `i`-th allocation, which handed out `tokens[i]`.
pub proof fn lemma_allocated_tokens_distinct(states: Seq<usize>, tokens: Seq<usize>)
    requires
        states.len() == tokens.len() + 1,
        states[0] >= CLIENT_FIRST_TOKEN,
        forall|i: int|
            0 <= i < tokens.len() ==> #[trigger] tokens[i] == states[i] && states[i + 1] == tokens[i]
                + 1,
    ensures
        forall|i: int, j: int| 0 <= i < j < tokens.len() ==> tokens[i] < tokens[j],
        forall|i: int| 0 <= i < tokens.len() ==> tokens[i] != LISTENER_TOKEN,
{
    lemma_allocation_offsets(states, tokens, tokens.len() as int);
}

/// The tokens that one allocator hands out in a row count up by one from the
/// allocator's next token: a fresh allocator hands out `CLIENT_FIRST_TOKEN`,
/// then one more, and so on. `states[i]` is the allocator before the `i`-th
/// allocation, which handed out `tokens[i]`.
pub proof fn lemma_allocated_tokens_count_up(states: Seq<usize>, tokens: Seq<usize>)
    requires
        states.len() == tokens.len() + 1,
        forall|i: int|
            0 <= i < tokens.len() ==> #[trigger] tokens[i] == states[i] && states[i + 1] == tokens[i]
                + 1,
    ensures
        forall|i: int| 0 <= i < tokens.len() ==> #[trigger] tokens[i] == states[0] + i,
{
    lemma_allocation_offsets(states, tokens, tokens.len() as int);
}

proof fn lemma_allocation_offsets(states: Seq<usize>, tokens: Seq<usize>, n: int)
    requires
        states.len() == tokens.len() + 1,
        0 <= n <= tokens.len(),
        forall|i: int|
            0 <= i < tokens.len() ==> #[trigger] tokens[i] == states[i] && states[i + 1] == tokens[i]
                + 1,
    ensures
        forall|i: int| 0 <= i < n ==> #[trigger] tokens[i] == states[0] + i,
    decreases n,
{
    if n > 0 {
        lemma_allocation_offsets(states, tokens, n - 1);
        assert(tokens[n - 1] == states[n - 1]);
        if n > 1 {
            assert(states[n - 1] == tokens[n - 2] + 1);
        }
    }
}

/// Whom a poll event concerns.
pub enum EventTarget {
    /// The listening socket: clients are waiting to be accepted.
    Listener,
    /// An accepted client.
    Client(NetworkClient),
}

/// Tells the listener's events from a client's by the event's token.
pub fn event_target(token: usize) -> (target: EventTarget)
    ensures
        token == LISTENER_TOKEN ==> target is Listener,
        token != LISTENER_TOKEN ==> (target matches EventTarget::Client(client) && client@ == token),
{
    if token == LISTENER_TOKEN {
        EventTarget::Listener
    } else {
        EventTarget::Client(NetworkClient::new(token))
    }
}

/// What to do on a poll event of a client.
pub enum ClientEventAction {
    /// The peer closed a side of the connection: close the client with this error.
    Close(NetError),
    /// Bytes can be read.
    Read,
    /// Nothing to do.
    Ignore,
}

/// Decides on a client's poll event from its readiness flags.
pub fn client_event_action(read_closed: bool, write_closed: bool, readable: bool) -> (action:
    ClientEventAction)
    ensures
        read_closed || write_closed ==> action == ClientEventAction::Close(
            NetError::ConnectionAborted("client side closed"),
        ),
        !read_closed && !write_closed && readable ==> action is Read,
        !read_closed && !write_closed && !readable ==> action is Ignore,
{
    if read_closed || write_closed {
        ClientEventAction::Close(new_io_abort_error("client side closed"))
    } else if readable {
        ClientEventAction::Read
    } else {
        ClientEventAction::Ignore
    }
}

/// An event that the poll thread hands to the users of the server.
pub enum ThreadEvent<I> {
    /// Sent before each poll, to learn whether anyone still listens.
    ChannelCheck,
    /// A client was accepted under `token`.
    Accept { token: usize },
    /// The client of `token` is gone, for the reason in `error` where there is one.
    Lost { token: usize, error: Option<NetError> },
    /// The client of `token` sent `packet`.
    Packet { token: usize, packet: I },
    /// The poll thread stopped on `error`.
    Error { error: NetError },
}

/// An event of the packet server.
#[derive(Debug)]
pub enum NetworkEvent<I> {
    Accept { client: NetworkClient },
    Lost { client: NetworkClient, error: Option<NetError> },
    Packet { client: NetworkClient, packet: I },
}

/// What a non-blocking receive from a channel gave.
pub enum Received<T> {
    /// A message.
    Message(T),
    /// No message is waiting.
    Empty,
    /// Every sender is gone.
    Disconnected,
}

/// One step of polling the server's events.
pub enum PollStep<I> {
    /// A channel check was received: receive again.
    Again,
    /// An event for the users of the server.
    Event(NetworkEvent<I>),
    /// No event is waiting.
    Idle,
    /// The server cannot be used any more.
    Failed(NetError),
}

/// Decides what a receive from the poll thread's event channel means.
pub fn poll_step<I>(received: Received<ThreadEvent<I>>) -> (step: PollStep<I>)
    ensures
        match received {
            Received::Message(ThreadEvent::ChannelCheck) => step is Again,
            Received::Message(ThreadEvent::Accept { token }) => step matches PollStep::Event(
                NetworkEvent::Accept { client },
            ) && client@ == token,
            Received::Message(ThreadEvent::Lost { token, error }) => step matches PollStep::Event(
                NetworkEvent::Lost { client, error: e },
            ) && client@ == token && e == error,
            Received::Message(ThreadEvent::Packet { token, packet }) => step matches PollStep::Event(
                NetworkEvent::Packet { client, packet: p },
            ) && client@ == token && p == packet,
            Received::Message(ThreadEvent::Error { error }) => step == PollStep::<I>::Failed(error),
            Received::Empty => step is Idle,
            Received::Disconnected => step == PollStep::<I>::Failed(
                NetError::ConnectionAborted("previous error made this server unusable"),
            ),
        },
{
    match received {
        Received::Message(ThreadEvent::ChannelCheck) => PollStep::Again,
        Received::Message(ThreadEvent::Accept { token }) => PollStep::Event(
            NetworkEvent::Accept { client: NetworkClient::new(token) },
        ),
        Received::Message(ThreadEvent::Lost { token, error }) => PollStep::Event(
            NetworkEvent::Lost { client: NetworkClient::new(token), error },
        ),
        Received::Message(ThreadEvent::Packet { token, packet }) => PollStep::Event(
            NetworkEvent::Packet { client: NetworkClient::new(token), packet },
        ),
        Received::Message(ThreadEvent::Error { error }) => PollStep::Failed(error),
        Received::Empty => PollStep::Idle,
        Received::Disconnected => PollStep::Failed(
            new_io_abort_error("previous error made this server unusable"),
        ),
    }
}

/// A command that the users of the server send to the command thread.
pub enum ThreadCommand<O, S> {
    /// The poll thread accepted a client under `token`; `shared` reaches its socket.
    NewClient { token: usize, shared: S },
    /// The poll thread lost the client of `token`.
    LostClient { token: usize },
    /// Shut the connection of the client of `token` down.
    DisconnectClient { token: usize },
    /// Send `packet` to the client of `token`.
    SingleClientPacket { token: usize, packet: O },
}

/// What a command makes of the table: a new client is added under its token,
/// a lost client is removed, and the other commands leave the table alone.
pub open spec fn table_step<O, S>(table: Map<usize, S>, command: ThreadCommand<O, S>) -> Map<
    usize,
    S,
> {
    match command {
        ThreadCommand::NewClient { token, shared } => table.insert(token, shared),
        ThreadCommand::LostClient { token } => table.remove(token),
        _ => table,
    }
}

/// The table that `commands`, applied in order, make of `table`.
pub open spec fn table_after<O, S>(table: Map<usize, S>, commands: Seq<ThreadCommand<O, S>>) -> Map<
    usize,
    S,
>
    decreases commands.len(),
{
    if commands.len() == 0 {
        table
    } else {
        table_step(table_after(table, commands.drop_last()), commands.last())
    }
}

/// Whether `command` announces a new client under `token`.
pub open spec fn announces<O, S>(command: ThreadCommand<O, S>, token: usize) -> bool {
    command matches ThreadCommand::NewClient { token: t, .. } && t == token
}

/// Whether `command` reports the client of `token` lost.
pub open spec fn loses_client<O, S>(command: ThreadCommand<O, S>, token: usize) -> bool {
    command matches ThreadCommand::LostClient { token: t } && t == token
}

/// Whether, among `commands`, a client is announced under `token` and not
/// reported lost after that.
pub open spec fn connected_after<O, S>(commands: Seq<ThreadCommand<O, S>>, token: usize) -> bool {
    exists|i: int|
        0 <= i < commands.len() && #[trigger] announces(commands[i], token) && forall|j: int|
            i < j < commands.len() ==> !#[trigger] loses_client(commands[j], token)
}

/// From an empty table, a sequence of commands leaves exactly the clients
/// that were announced and not reported lost since; disconnections and
/// packets change nothing.
pub proof fn lemma_table_after_commands<O, S>(commands: Seq<ThreadCommand<O, S>>)
    ensures
        forall|token: usize|
            #[trigger] table_after(Map::<usize, S>::empty(), commands).contains_key(token)
                <==> connected_after(commands, token),
    decreases commands.len(),
{
    if commands.len() > 0 {
        let before = commands.drop_last();
        let last = commands.last();
        let n = commands.len() - 1;
        lemma_table_after_commands::<O, S>(before);
        assert forall|token: usize|
            #[trigger] table_after(Map::<usize, S>::empty(), commands).contains_key(token)
                <==> connected_after(commands, token) by {
            let was = table_after(Map::<usize, S>::empty(), before).contains_key(token);
            assert(was <==> connected_after(before, token));
            if announces(last, token) {
                assert(announces(commands[n], token));
            } else if loses_client(last, token) {
                if connected_after(commands, token) {
                    let i = choose|i: int|
                        0 <= i < commands.len() && #[trigger] announces(commands[i], token)
                            && forall|j: int| i < j < commands.len() ==> !#[trigger] loses_client(commands[j], token);
                    if i < n {
                        assert(loses_client(commands[n], token));
                    }
                }
            } else {
                if connected_after(before, token) {
                    let i = choose|i: int|
                        0 <= i < before.len() && #[trigger] announces(before[i], token)
                            && forall|j: int| i < j < before.len() ==> !#[trigger] loses_client(before[j], token);
                    assert(announces(commands[i], token));
                    assert forall|j: int| i < j < commands.len() implies !#[trigger] loses_client(commands[j], token) by {
                        if j < n {
                            assert(commands[j] == before[j]);
                        }
                    }
                }
                if connected_after(commands, token) {
                    let i = choose|i: int|
                        0 <= i < commands.len() && #[trigger] announces(commands[i], token)
                            && forall|j: int| i < j < commands.len() ==> !#[trigger] loses_client(commands[j], token);
                    assert(i < n);
                    assert(announces(before[i], token));
                    assert forall|j: int| i < j < before.len() implies !#[trigger] loses_client(before[j], token) by {
                        assert(commands[j] == before[j]);
                    }
                }
            }
        }
    }
}

/// The socket work that a command leaves to do.
pub enum CommandWork<O> {
    /// Nothing: the command only changed the table, or named an unknown client.
    Nothing,
    /// Shut down the socket of the client of `token`.
    Shutdown { token: usize },
    /// Write `packet` to the socket of the client of `token`.
    Send { token: usize, packet: O },
}

/// The command thread's table of connected clients, by token.
pub struct ClientTable<S> {
    clients: HashMap<usize, S>,
}

impl<S> View for ClientTable<S> {
    type V = Map<usize, S>;

    closed spec fn view(&self) -> Map<usize, S> {
        self.clients@
    }
}

impl<S> ClientTable<S> {
    /// An empty table.
    pub fn new() -> (table: Self)
        ensures
            table@ == Map::<usize, S>::empty(),
    {
        ClientTable { clients: HashMap::new() }
    }

    /// What the table holds for `token`.
    pub fn get(&self, token: usize) -> (shared: Option<&S>)
        ensures
            match shared {
                Some(s) => self@.contains_key(token) && *s == self@[token],
                None => !self@.contains_key(token),
            },
    {
        self.clients.get(&token)
    }

    /// Applies a command to the table, and tells what remains to be done on a socket.
    pub fn apply<O>(&mut self, command: ThreadCommand<O, S>) -> (work: CommandWork<O>)
        ensures
            final(self)@ == table_step(old(self)@, command),
            match command {
                ThreadCommand::NewClient { token, shared } => final(self)@ == old(self)@.insert(
                    token,
                    shared,
                ) && work is Nothing,
                ThreadCommand::LostClient { token } => final(self)@ == old(self)@.remove(token)
                    && work is Nothing,
                ThreadCommand::DisconnectClient { token } => final(self)@ == old(self)@ && (if old(
                    self,
                )@.contains_key(token) {
                    work == CommandWork::<O>::Shutdown { token }
                } else {
                    work is Nothing
                }),
                ThreadCommand::SingleClientPacket { token, packet } => final(self)@ == old(self)@
                    && (if old(self)@.contains_key(token) {
                    work == CommandWork::Send { token, packet }
                } else {
                    work is Nothing
                }),
            },
    {
        match command {
            ThreadCommand::NewClient { token, shared } => {
                self.clients.insert(token, shared);
                CommandWork::Nothing
            },
            ThreadCommand::LostClient { token } => {
                self.clients.remove(&token);
                CommandWork::Nothing
            },
            ThreadCommand::DisconnectClient { token } => {
                if self.clients.contains_key(&token) {
                    CommandWork::Shutdown { token }
                } else {
                    CommandWork::Nothing
                }
            },
            ThreadCommand::SingleClientPacket { token, packet } => {
                if self.clients.contains_key(&token) {
                    CommandWork::Send { token, packet }
                } else {
                    CommandWork::Nothing
                }
            },
        }
    }
}

/// A client that the table learns of and then loses leaves the table as it
/// was before.
pub proof fn lemma_new_then_lost<S>(table: Map<usize, S>, token: usize, shared: S)
    requires
        !table.contains_key(token),
    ensures
        table.insert(token, shared).remove(token) == table,
{
    assert(table.insert(token, shared).remove(token) =~= table);
}

} // verus!
