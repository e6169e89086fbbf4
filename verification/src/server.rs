//! The server: the clients it knows, the topics with their last values, the
//! subscriptions, and what it does with each message that comes in.

use vstd::prelude::*;

use crate::keyed::{find_key, insert_keyed, keyed_map, keys_of, keys_unique, lemma_keyed_dom};
use crate::message::Message;
use crate::topic_list::{
    encode_topic_list, lemma_topic_list_roundtrip, spec_parse_topic_list, spec_topic_list,
};

verus! {

/// A client known to the server: the connection it registered on.
#[derive(Debug, Clone, Copy, PartialEq, Eq)]
pub struct Peer {
    pub connection: u64,
}

/// What the server keeps.
#[derive(Debug)]
pub struct ServerState {
    /// The registered clients, by name.
    clients: Vec<(String, Peer)>,
    /// The topics published on, with the last value published on each.
    topics: Vec<(String, String)>,
    /// (topic, connection) for each subscription; none occurs twice.
    subscriptions: Vec<(String, u64)>,
}

/// The central server that the clients connect to.
#[derive(Debug)]
pub struct Server {
    state: ServerState,
    next_connection: u64,
}

/// The server's state as maps and sets.
pub struct ServerView {
    pub clients: Map<Seq<char>, Peer>,
    pub topics: Map<Seq<char>, String>,
    pub subscribers: Set<(Seq<char>, u64)>,
    pub next_connection: u64,
}

/// The (topic, connection) pairs that subscription entries stand for.
pub open spec fn subscriber_set(entries: Seq<(String, u64)>) -> Set<(Seq<char>, u64)> {
    Set::new(
        |pair: (Seq<char>, u64)|
            exists|i: int|
                0 <= i < entries.len() && #[trigger] entries[i].0@ == pair.0 && entries[i].1
                    == pair.1,
    )
}

/// The subscriptions of connections other than `connection`.
pub open spec fn without_connection(subscribers: Set<(Seq<char>, u64)>, connection: u64) -> Set<
    (Seq<char>, u64),
> {
    subscribers.filter(|pair: (Seq<char>, u64)| pair.1 != connection)
}

/// No subscription occurs twice.
pub open spec fn subscriptions_unique(entries: Seq<(String, u64)>) -> bool {
    forall|i: int, j: int|
        0 <= i < j < entries.len() ==> !(#[trigger] entries[i].0@ == #[trigger] entries[j].0@
            && entries[i].1 == entries[j].1)
}

impl View for Server {
    type V = ServerView;

    closed spec fn view(&self) -> ServerView {
        ServerView {
            clients: keyed_map(self.state.clients@),
            topics: keyed_map(self.state.topics@),
            subscribers: subscriber_set(self.state.subscriptions@),
            next_connection: self.next_connection,
        }
    }
}

/// `text` lists each topic of `topics` once.
pub open spec fn lists_topics(text: Seq<char>, topics: Set<Seq<char>>) -> bool {
    exists|names: Seq<Seq<char>>|
        #![trigger spec_topic_list(names)]
        names.no_duplicates() && names.to_set() == topics && text == spec_topic_list(names)
}

/// `sends` hands `Publish { topic, value }` to each subscriber of `topic`
/// once, and to nobody else.
pub open spec fn delivers_to_subscribers(
    sends: Seq<(u64, Message)>,
    topic: String,
    value: String,
    subscribers: Set<(Seq<char>, u64)>,
) -> bool {
    &&& forall|k: int|
        0 <= k < sends.len() ==> #[trigger] sends[k].1 == (Message::Publish { topic, value })
    &&& forall|a: int, b: int|
        0 <= a < b < sends.len() ==> #[trigger] sends[a].0 != #[trigger] sends[b].0
    &&& forall|c: u64|
        #[trigger] subscribers.contains((topic@, c)) <==> exists|k: int|
            0 <= k < sends.len() && #[trigger] sends[k].0 == c
}

/// How a message from connection `from` takes the server from `before` to
/// `after`, what it sends to which connection, and whether it closes
/// `from`.
///
/// - A call is answered once, on its own connection, with its own number:
///   `register` with a name records the client under that name (answer
///   `"ok"`), `subscribe` with a topic subscribes the connection to it
///   (answer `"ok"`), `topic_list` answers the list of the topics, and any
///   other call is answered `"unknown call"`.
/// - A publication records the value as the topic's last one and goes to
///   every subscriber of the topic, once each.
/// - `bye` ends the connection's subscriptions and closes it.
/// - Anything else changes nothing and sends nothing.
///
/// A `ret` answers a call and nothing else, so a publication, an event or
/// an answer sent to the server gets no reply. The results `"ok"` and
/// `"unknown call"` are this server's own: the protocol leaves a call's
/// result to the method.
pub open spec fn server_handles(
    before: ServerView,
    from: u64,
    message: Message,
    after: ServerView,
    sends: Seq<(u64, Message)>,
    close: bool,
) -> bool {
    &&& after.next_connection == before.next_connection
    &&& match message {
        Message::RpcRequest { sequence_id, method, args } => {
            &&& !close
            &&& sends.len() == 1
            &&& sends[0].0 == from
            &&& sends[0].1 matches Message::RpcResponse { sequence_id: n, result } && n
                == sequence_id && if method@ == "register"@ && args@.len() == 1 {
                &&& result@ == "ok"@
                &&& after.clients == before.clients.insert(
                    args@[0]@,
                    Peer { connection: from },
                )
                &&& after.topics == before.topics
                &&& after.subscribers == before.subscribers
            } else if method@ == "subscribe"@ && args@.len() == 1 {
                &&& result@ == "ok"@
                &&& after.clients == before.clients
                &&& after.topics == before.topics
                &&& after.subscribers == before.subscribers.insert((args@[0]@, from))
            } else if method@ == "topic_list"@ {
                &&& lists_topics(result@, before.topics.dom())
                &&& after == before
            } else {
                &&& result@ == "unknown call"@
                &&& after == before
            }
        },
        Message::Publish { topic, value } => {
            &&& !close
            &&& after.clients == before.clients
            &&& after.topics == before.topics.insert(topic@, value)
            &&& after.subscribers == before.subscribers
            &&& delivers_to_subscribers(sends, topic, value, before.subscribers)
        },
        Message::Bye => {
            &&& close
            &&& sends.len() == 0
            &&& after.clients == before.clients
            &&& after.topics == before.topics
            &&& after.subscribers == without_connection(before.subscribers, from)
        },
        _ => !close && sends.len() == 0 && after == before,
    }
}

/// What handling one message asks of the program: the messages to send,
/// each with the connection to send it on, and whether to close the
/// connection the message came from.
#[derive(Debug)]
pub struct Outgoing {
    pub sends: Vec<(u64, Message)>,
    pub close: bool,
}

impl Server {
    /// The server's own invariant: no client name, topic or subscription is
    /// held twice.
    #[verifier::type_invariant]
    spec fn well_formed(&self) -> bool {
        &&& keys_unique(self.state.clients@)
        &&& keys_unique(self.state.topics@)
        &&& subscriptions_unique(self.state.subscriptions@)
    }

    /// Hands out the number of a new connection.
    pub fn connect(&mut self) -> (connection: u64)
        requires
            old(self)@.next_connection < u64::MAX,
        ensures
            connection == old(self)@.next_connection,
            final(self)@.next_connection == connection + 1,
            final(self)@.clients == old(self)@.clients,
            final(self)@.topics == old(self)@.topics,
            final(self)@.subscribers == old(self)@.subscribers,
    {
        proof {
            use_type_invariant(&*self);
        }
        let connection = self.next_connection;
        self.next_connection = connection + 1;
        connection
    }

    /// The number the next connection gets.
    pub fn next_connection(&self) -> (n: u64)
        ensures
            n == self@.next_connection,
    {
        self.next_connection
    }

    /// Ends every subscription of `connection`, which has gone away.
    pub fn disconnect(&mut self, connection: u64)
        ensures
            final(self)@.next_connection == old(self)@.next_connection,
            final(self)@.clients == old(self)@.clients,
            final(self)@.topics == old(self)@.topics,
            final(self)@.subscribers == without_connection(old(self)@.subscribers, connection),
    {
        proof {
            use_type_invariant(&*self);
        }
        let ghost entries = self.state.subscriptions@;
        let mut kept: Vec<(String, u64)> = Vec::new();
        let mut i: usize = 0;
        while i < self.state.subscriptions.len()
            invariant
                entries == self.state.subscriptions@,
                i <= entries.len(),
                subscriptions_unique(entries),
                subscriptions_unique(kept@),
                forall|k: int| 0 <= k < kept@.len() ==> #[trigger] kept@[k].1 != connection,
                subscriber_set(kept@) == subscriber_set(entries.take(i as int)).filter(
                    |pair: (Seq<char>, u64)| pair.1 != connection,
                ),
            decreases entries.len() - i,
        {
            let ghost before = kept@;
            if self.state.subscriptions[i].1 != connection {
                let topic = self.state.subscriptions[i].0.clone();
                kept.push((topic, self.state.subscriptions[i].1));
                assert forall|a: int, b: int| 0 <= a < b < kept@.len() implies !(
                #[trigger] kept@[a].0@ == #[trigger] kept@[b].0@ && kept@[a].1 == kept@[b].1) by {
                    if b == kept@.len() - 1 && a < b {
                        if kept@[a].0@ == kept@[b].0@ && kept@[a].1 == kept@[b].1 {
                            assert(subscriber_set(before).contains((kept@[a].0@, kept@[a].1)));
                            let j = choose|j: int|
                                0 <= j < entries.take(i as int).len() && #[trigger] entries.take(
                                    i as int,
                                )[j].0@ == kept@[a].0@ && entries.take(i as int)[j].1
                                    == kept@[a].1;
                            assert(entries[j].0@ == entries[i as int].0@);
                        }
                    }
                }
            }
            let ghost now = entries.take(i + 1);
            let ghost prev = entries.take(i as int);
            assert forall|pair: (Seq<char>, u64)|
                #[trigger] subscriber_set(now).contains(pair) && pair.1 != connection implies
                subscriber_set(kept@).contains(pair) by {
                let j = choose|j: int|
                    0 <= j < now.len() && #[trigger] now[j].0@ == pair.0 && now[j].1 == pair.1;
                if j < i {
                    assert(prev[j] == now[j]);
                    assert(subscriber_set(prev).contains(pair));
                    assert(subscriber_set(prev).filter(
                        |pair: (Seq<char>, u64)| pair.1 != connection,
                    ).contains(pair));
                    assert(subscriber_set(before).contains(pair));
                    let k = choose|k: int|
                        0 <= k < before.len() && #[trigger] before[k].0@ == pair.0 && before[k].1
                            == pair.1;
                    assert(kept@[k] == before[k]);
                } else {
                    assert(now[j] == entries[i as int]);
                    assert(kept@[kept@.len() - 1].0@ == pair.0);
                }
            }
            assert forall|pair: (Seq<char>, u64)| #[trigger]
                subscriber_set(kept@).contains(pair) implies subscriber_set(now).contains(pair)
                && pair.1 != connection by {
                let k = choose|k: int|
                    0 <= k < kept@.len() && #[trigger] kept@[k].0@ == pair.0 && kept@[k].1
                        == pair.1;
                if k < before.len() {
                    assert(before[k] == kept@[k]);
                    assert(subscriber_set(before).contains(pair));
                    assert(subscriber_set(prev).contains(pair));
                    let j = choose|j: int|
                        0 <= j < prev.len() && #[trigger] prev[j].0@ == pair.0 && prev[j].1
                            == pair.1;
                    assert(now[j] == prev[j]);
                } else {
                    assert(now[i as int] == entries[i as int]);
                }
            }
            assert(subscriber_set(kept@) =~= subscriber_set(now).filter(
                |pair: (Seq<char>, u64)| pair.1 != connection,
            ));
            i = i + 1;
        }
        assert(entries.take(i as int) =~= entries);
        self.state.subscriptions = kept;
    }

    /// Subscribes `connection` to `topic`, unless it is already.
    fn insert_subscription(&mut self, topic: String, connection: u64)
        ensures
            final(self)@.next_connection == old(self)@.next_connection,
            final(self)@.clients == old(self)@.clients,
            final(self)@.topics == old(self)@.topics,
            final(self)@.subscribers == old(self)@.subscribers.insert((topic@, connection)),
    {
        proof {
            use_type_invariant(&*self);
        }
        let ghost entries = self.state.subscriptions@;
        let mut i: usize = 0;
        while i < self.state.subscriptions.len()
            invariant
                entries == self.state.subscriptions@,
                *self == *old(self),
                subscriptions_unique(entries),
                i <= entries.len(),
                forall|j: int|
                    0 <= j < i ==> !(#[trigger] entries[j].0@ == topic@ && entries[j].1
                        == connection),
            decreases entries.len() - i,
        {
            if self.state.subscriptions[i].1 == connection && self.state.subscriptions[i].0 == topic {
                assert(subscriber_set(entries).contains((topic@, connection)));
                assert(subscriber_set(entries).insert((topic@, connection)) =~= subscriber_set(
                    entries,
                ));
                return;
            }
            i = i + 1;
        }
        let ghost now = entries.push((topic, connection));
        assert forall|a: int, b: int| 0 <= a < b < now.len() implies !(#[trigger] now[a].0@
            == #[trigger] now[b].0@ && now[a].1 == now[b].1) by {
            assert(now[a] == entries[a]);
            if b < entries.len() {
                assert(now[b] == entries[b]);
            } else {
                assert(now[b].0@ == topic@ && now[b].1 == connection);
                assert(!(entries[a].0@ == topic@ && entries[a].1 == connection));
            }
        }
        let mut subscriptions: Vec<(String, u64)> = Vec::new();
        std::mem::swap(&mut subscriptions, &mut self.state.subscriptions);
        subscriptions.push((topic, connection));
        assert(subscriptions@ == now);
        self.state.subscriptions = subscriptions;
        assert forall|pair: (Seq<char>, u64)| #[trigger]
            subscriber_set(now).contains(pair) <==> subscriber_set(entries).insert(
                (topic@, connection),
            ).contains(pair) by {
            if subscriber_set(now).contains(pair) {
                let j = choose|j: int|
                    0 <= j < now.len() && #[trigger] now[j].0@ == pair.0 && now[j].1 == pair.1;
                if j < entries.len() {
                    assert(entries[j] == now[j]);
                }
            }
            if subscriber_set(entries).contains(pair) {
                let j = choose|j: int|
                    0 <= j < entries.len() && #[trigger] entries[j].0@ == pair.0 && entries[j].1
                        == pair.1;
                assert(now[j] == entries[j]);
            }
            if pair == (topic@, connection) {
                assert(now[entries.len() as int].0@ == topic@);
            }
        }
        assert(subscriber_set(now) =~= subscriber_set(entries).insert((topic@, connection)));
    }

    /// The publication of `value` on `topic` for each subscriber of the topic.
    fn deliveries(&self, topic: &String, value: &String) -> (sends: Vec<(u64, Message)>)
        ensures
            delivers_to_subscribers(sends@, *topic, *value, self@.subscribers),
    {
        proof {
            use_type_invariant(self);
        }
        let entries = &self.state.subscriptions;
        let mut sends: Vec<(u64, Message)> = Vec::new();
        let ghost mut sources: Seq<int> = Seq::empty();
        let mut i: usize = 0;
        while i < entries.len()
            invariant
                i <= entries@.len(),
                sources.len() == sends@.len(),
                forall|k: int|
                    0 <= k < sends@.len() ==> #[trigger] sends@[k].1 == (Message::Publish {
                        topic: *topic,
                        value: *value,
                    }),
                forall|k: int|
                    0 <= k < sources.len() ==> 0 <= #[trigger] sources[k] < i && entries@[sources[k]].0@
                        == topic@ && entries@[sources[k]].1 == sends@[k].0,
                forall|a: int, b: int|
                    0 <= a < b < sources.len() ==> #[trigger] sources[a] < #[trigger] sources[b],
                forall|j: int|
                    0 <= j < i && #[trigger] entries@[j].0@ == topic@ ==> exists|k: int|
                        0 <= k < sources.len() && #[trigger] sources[k] == j,
            decreases entries@.len() - i,
        {
            if entries[i].0 == *topic {
                let c = entries[i].1;
                sends.push((c, Message::Publish { topic: topic.clone(), value: value.clone() }));
                proof {
                    let old_sources = sources;
                    sources = sources.push(i as int);
                    assert forall|j: int|
                        0 <= j < i + 1 && #[trigger] entries@[j].0@ == topic@ implies exists|k: int|
                        0 <= k < sources.len() && #[trigger] sources[k] == j by {
                        if j < i {
                            let k = choose|k: int|
                                0 <= k < old_sources.len() && #[trigger] old_sources[k] == j;
                            assert(sources[k] == j);
                        } else {
                            assert(sources[sources.len() - 1] == j);
                        }
                    }
                }
            }
            i = i + 1;
        }
        proof {
            assert forall|a: int, b: int| 0 <= a < b < sends@.len() implies #[trigger] sends@[a].0
                != #[trigger] sends@[b].0 by {
                assert(sources[a] < sources[b]);
                let ja = sources[a];
                let jb = sources[b];
                assert(entries@[ja].0@ == entries@[jb].0@);
            }
            assert forall|c: u64| #[trigger] self@.subscribers.contains((topic@, c)) implies exists|k: int|
                0 <= k < sends@.len() && #[trigger] sends@[k].0 == c by {
                let j = choose|j: int|
                    0 <= j < entries@.len() && #[trigger] entries@[j].0@ == topic@ && entries@[j].1 == c;
                let k = choose|k: int| 0 <= k < sources.len() && #[trigger] sources[k] == j;
                assert(sends@[k].0 == c);
            }
            assert forall|c: u64| (exists|k: int| 0 <= k < sends@.len() && #[trigger] sends@[k].0 == c)
                implies #[trigger] self@.subscribers.contains((topic@, c)) by {
                let k = choose|k: int| 0 <= k < sends@.len() && #[trigger] sends@[k].0 == c;
                let j = sources[k];
                assert(entries@[j].0@ == topic@ && entries@[j].1 == c);
            }
        }
        sends
    }

    /// Decides what to do with `message`, which came in on `connection`
    /// (see `server_handles`).
    pub fn handle_message(&mut self, connection: u64, message: Message) -> (out: Outgoing)
        ensures
            server_handles(old(self)@, connection, message, final(self)@, out.sends@, out.close),
    {
        proof {
            use_type_invariant(&*self);
        }
        match message {
            Message::RpcRequest { sequence_id, method, args } => {
                let register = String::from_str("register");
                let subscribe = String::from_str("subscribe");
                let topic_list = String::from_str("topic_list");
                let result: String;
                if method == register && args.len() == 1 {
                    let name = args[0].clone();
                    let mut clients: Vec<(String, Peer)> = Vec::new();
                    std::mem::swap(&mut clients, &mut self.state.clients);
                    insert_keyed(&mut clients, name, Peer { connection });
                    self.state.clients = clients;
                    result = String::from_str("ok");
                } else if method == subscribe && args.len() == 1 {
                    self.insert_subscription(args[0].clone(), connection);
                    result = String::from_str("ok");
                } else if method == topic_list {
                    result = encode_topic_list(&self.state.topics);
                    proof {
                        let names = keys_of(self.state.topics@);
                        lemma_keyed_dom(self.state.topics@);
                        assert forall|a: int, b: int|
                            0 <= a < names.len() && 0 <= b < names.len() && a != b implies names[a]
                            != names[b] by {
                            if a < b {
                                assert(self.state.topics@[a].0@ != self.state.topics@[b].0@);
                            } else {
                                assert(self.state.topics@[b].0@ != self.state.topics@[a].0@);
                            }
                        }
                        assert(names.no_duplicates());
                        assert(spec_topic_list(names) == result@);
                        assert(lists_topics(result@, self@.topics.dom()));
                    }
                } else {
                    result = String::from_str("unknown call");
                }
                let mut sends: Vec<(u64, Message)> = Vec::new();
                sends.push((connection, Message::RpcResponse { sequence_id, result }));
                Outgoing { sends, close: false }
            },
            Message::Publish { topic, value } => {
                let sends = self.deliveries(&topic, &value);
                let mut topics: Vec<(String, String)> = Vec::new();
                std::mem::swap(&mut topics, &mut self.state.topics);
                insert_keyed(&mut topics, topic, value);
                self.state.topics = topics;
                Outgoing { sends, close: false }
            },
            Message::Bye => {
                self.disconnect(connection);
                Outgoing { sends: Vec::new(), close: true }
            },
            _ => Outgoing { sends: Vec::new(), close: false },
        }
    }
}

impl Default for Server {
    fn default() -> (r: Self)
        ensures
            r@.clients == Map::<Seq<char>, Peer>::empty(),
            r@.topics == Map::<Seq<char>, String>::empty(),
            r@.subscribers == Set::<(Seq<char>, u64)>::empty(),
            r@.next_connection == 0,
    {
        let r = Server {
            state: ServerState { clients: Vec::new(), topics: Vec::new(), subscriptions: Vec::new() },
            next_connection: 0,
        };
        assert(subscriber_set(r.state.subscriptions@) =~= Set::<(Seq<char>, u64)>::empty());
        r
    }
}

/// The server as it starts: it knows no client, no topic and no
/// subscription. The program then runs it: it accepts connections and hands
/// each message to `Server::handle_message`.
pub fn start_server() -> (server: Server)
    ensures
        server@.clients == Map::<Seq<char>, Peer>::empty(),
        server@.topics == Map::<Seq<char>, String>::empty(),
        server@.subscribers == Set::<(Seq<char>, u64)>::empty(),
        server@.next_connection == 0,
{
    Server::default()
}

/// The client reads back the server's list of topics as each topic once,
/// whatever the names hold.
pub proof fn lemma_topic_list_reads_back(text: Seq<char>, topics: Set<Seq<char>>)
    requires
        lists_topics(text, topics),
    ensures
        spec_parse_topic_list(text).no_duplicates(),
        spec_parse_topic_list(text).to_set() == topics,
{
    let names = choose|names: Seq<Seq<char>>|
        #![trigger spec_topic_list(names)]
        names.no_duplicates() && names.to_set() == topics && text == spec_topic_list(names);
    lemma_topic_list_roundtrip(names);
}

/// A connection that asked to subscribe to a topic receives every value
/// published on it next, whoever publishes it, and receives it once.
pub proof fn lemma_subscriber_receives_publication(
    before: ServerView,
    subscriber: u64,
    sequence_id: u32,
    method: String,
    args: Vec<String>,
    subscribed: ServerView,
    answers: Seq<(u64, Message)>,
    closed: bool,
    publisher: u64,
    topic: String,
    value: String,
    after: ServerView,
    sends: Seq<(u64, Message)>,
    closes: bool,
)
    requires
        method@ == "subscribe"@,
        args@.len() == 1,
        args@[0]@ == topic@,
        server_handles(
            before,
            subscriber,
            Message::RpcRequest { sequence_id, method, args },
            subscribed,
            answers,
            closed,
        ),
        server_handles(subscribed, publisher, Message::Publish { topic, value }, after, sends, closes),
    ensures
        exists|k: int|
            0 <= k < sends.len() && #[trigger] sends[k] == (subscriber, Message::Publish { topic, value }),
        forall|a: int, b: int| 0 <= a < b < sends.len() ==> #[trigger] sends[a].0 != #[trigger] sends[b].0,
{
    reveal_strlit("register");
    reveal_strlit("subscribe");
    assert("register"@[0] != "subscribe"@[0]);
    assert(subscribed.subscribers.contains((topic@, subscriber)));
    let k = choose|k: int| 0 <= k < sends.len() && #[trigger] sends[k].0 == subscriber;
    assert(sends[k] == (subscriber, Message::Publish { topic, value }));
}

proof fn lemma_flatten_single<A>(parts: Seq<Seq<A>>)
    requires
        forall|i: int| 0 <= i < parts.len() ==> #[trigger] parts[i].len() == 1,
    ensures
        parts.flatten().len() == parts.len(),
        forall|i: int| 0 <= i < parts.len() ==> parts.flatten()[i] == #[trigger] parts[i][0],
    decreases parts.len(),
{
    if parts.len() > 0 {
        let rest = parts.drop_first();
        assert forall|i: int| 0 <= i < rest.len() implies #[trigger] rest[i].len() == 1 by {
            assert(rest[i] == parts[i + 1]);
        }
        lemma_flatten_single(rest);
        assert forall|i: int| 0 <= i < parts.len() implies parts.flatten()[i] == #[trigger] parts[i][0] by {
            if i > 0 {
                assert(rest[i - 1] == parts[i]);
            }
        }
    }
}

/// Calls that come in on one connection are answered one each, in the
/// order they came, on that connection, each with its own number; nothing
/// else is sent and the connection stays open.
pub proof fn lemma_calls_answered_in_order(
    states: Seq<ServerView>,
    connection: u64,
    calls: Seq<Message>,
    sends: Seq<Seq<(u64, Message)>>,
    closes: Seq<bool>,
)
    requires
        states.len() == calls.len() + 1,
        sends.len() == calls.len(),
        closes.len() == calls.len(),
        forall|i: int| 0 <= i < calls.len() ==> #[trigger] calls[i] is RpcRequest,
        forall|i: int|
            0 <= i < calls.len() ==> server_handles(
                states[i],
                connection,
                #[trigger] calls[i],
                states[i + 1],
                sends[i],
                closes[i],
            ),
    ensures
        sends.flatten().len() == calls.len(),
        forall|i: int|
            0 <= i < calls.len() ==> #[trigger] sends.flatten()[i].0 == connection && (sends.flatten()[
                i].1 matches Message::RpcResponse { sequence_id, .. } && sequence_id
                == calls[i]->RpcRequest_sequence_id),
        forall|i: int| 0 <= i < calls.len() ==> !#[trigger] closes[i],
{
    assert forall|i: int| 0 <= i < sends.len() implies #[trigger] sends[i].len() == 1 by {
        assert(calls[i] is RpcRequest);
    }
    lemma_flatten_single(sends);
    assert forall|i: int| 0 <= i < calls.len() implies #[trigger] sends.flatten()[i].0 == connection
        && (sends.flatten()[i].1 matches Message::RpcResponse { sequence_id, .. } && sequence_id
        == calls[i]->RpcRequest_sequence_id) by {
        assert(calls[i] is RpcRequest);
        assert(sends.flatten()[i] == sends[i][0]);
    }
    assert forall|i: int| 0 <= i < calls.len() implies !#[trigger] closes[i] by {
        assert(calls[i] is RpcRequest);
    }
}

} // verus!
