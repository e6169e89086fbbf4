//! The client's bookkeeping: the sequence numbers of its calls, the calls
//! waiting for an answer, its subscriptions, and what to do with each message
//! that comes in.
//!
//! A waiting call is represented by a slot of type `S` (where the answer is
//! to be handed), a subscription by a queue of type `Q` (where published
//! values are to be handed). The program around the library chooses them.

use std::collections::HashMap;
use vstd::prelude::*;

use crate::keyed::{find_key, insert_keyed, keyed_map, lemma_keyed_absent, lemma_keyed_found};
use crate::message::Message;
use crate::topic_list::{parse_topic_list, spec_parse_topic_list};

verus! {

broadcast use vstd::std_specs::hash::group_hash_axioms;

/// The sequence number of a client's first call.
pub const FIRST_SEQUENCE_ID: u32 = 42;

/// What the client does with a message that came in.
#[derive(Debug)]
pub enum Action<S, Q> {
    /// Hand the published `value` to the queue of the topic's subscriber.
    Deliver { queue: Q, value: String },
    /// A value was published on a topic this client is not subscribed to.
    NotSubscribed { topic: String },
    /// Hand `response` to the call that waits on `slot`.
    Respond { slot: S, response: Message },
    /// An answer that no call is waiting for.
    Spurious { sequence_id: u32 },
    /// A message the client does not handle.
    Unhandled(Message),
}

/// The state that the client shares with the task that reads its messages.
#[derive(Debug)]
pub struct ClientData<S, Q> {
    response_queues: HashMap<u32, S>,
    subscriptions: Vec<(String, Q)>,
}

/// The calls waiting for an answer, by sequence number, and the
/// subscriptions, by topic.
pub struct ClientDataView<S, Q> {
    pub pending: Map<u32, S>,
    pub subscriptions: Map<Seq<char>, Q>,
}

impl<S, Q> View for ClientData<S, Q> {
    type V = ClientDataView<S, Q>;

    closed spec fn view(&self) -> ClientDataView<S, Q> {
        ClientDataView {
            pending: self.response_queues@,
            subscriptions: keyed_map(self.subscriptions@),
        }
    }
}

/// How handling `message` takes the client's state from `before` to `after`
/// and what it asks to be done.
pub open spec fn handles_message<S, Q: Clone>(
    before: ClientDataView<S, Q>,
    message: Message,
    after: ClientDataView<S, Q>,
    action: Action<S, Q>,
) -> bool {
    match message {
        Message::Publish { topic, value } => {
            &&& after == before
            &&& if before.subscriptions.contains_key(topic@) {
                action matches Action::Deliver { queue, value: delivered } && delivered == value
                    && cloned(before.subscriptions[topic@], queue)
            } else {
                action == Action::<S, Q>::NotSubscribed { topic }
            }
        },
        Message::RpcResponse { sequence_id, result } => {
            &&& after.subscriptions == before.subscriptions
            &&& if before.pending.contains_key(sequence_id) {
                &&& after.pending == before.pending.remove(sequence_id)
                &&& action == Action::<S, Q>::Respond {
                    slot: before.pending[sequence_id],
                    response: Message::RpcResponse { sequence_id, result },
                }
            } else {
                &&& after.pending == before.pending
                &&& action == Action::<S, Q>::Spurious { sequence_id }
            }
        },
        _ => after == before && action == Action::<S, Q>::Unhandled(message),
    }
}

impl<S, Q> ClientData<S, Q> {
    /// No call waiting, no subscription.
    pub fn new() -> (r: Self)
        ensures
            r@.pending == Map::<u32, S>::empty(),
            r@.subscriptions == Map::<Seq<char>, Q>::empty(),
    {
        ClientData { response_queues: HashMap::new(), subscriptions: Vec::new() }
    }

    /// Records `queue` as the subscriber of `topic`, in place of any earlier
    /// one.
    fn insert_subscription(&mut self, topic: String, queue: Q)
        ensures
            final(self)@.pending == old(self)@.pending,
            final(self)@.subscriptions == old(self)@.subscriptions.insert(topic@, queue),
    {
        insert_keyed(&mut self.subscriptions, topic, queue);
    }

    /// Records `slot` as the call waiting for the answer numbered
    /// `sequence_id`.
    fn insert_pending(&mut self, sequence_id: u32, slot: S)
        ensures
            final(self)@.pending == old(self)@.pending.insert(sequence_id, slot),
            final(self)@.subscriptions == old(self)@.subscriptions,
    {
        self.response_queues.insert(sequence_id, slot);
    }
}

/// Decides what to do with a message that came in: a published value goes to
/// the topic's subscriber, an answer to the call that waits for it (which then
/// waits no more); anything else is left alone.
pub fn handle_message<S, Q: Clone>(client_data: &mut ClientData<S, Q>, message: Message) -> (action:
    Action<S, Q>)
    ensures
        handles_message(old(client_data)@, message, final(client_data)@, action),
{
    match message {
        Message::Publish { topic, value } => {
            match find_key(&client_data.subscriptions, &topic) {
                Some(i) => {
                    proof {
                        lemma_keyed_found(client_data.subscriptions@, topic@, i as int);
                    }
                    let queue = client_data.subscriptions[i].1.clone();
                    Action::Deliver { queue, value }
                },
                None => {
                    proof {
                        lemma_keyed_absent(client_data.subscriptions@, topic@);
                    }
                    Action::NotSubscribed { topic }
                },
            }
        },
        Message::RpcResponse { sequence_id, result } => {
            match client_data.response_queues.remove(&sequence_id) {
                Some(slot) => Action::Respond {
                    slot,
                    response: Message::RpcResponse { sequence_id, result },
                },
                None => {
                    assert(client_data@.pending =~= old(client_data)@.pending);
                    Action::Spurious { sequence_id }
                },
            }
        },
        other => Action::Unhandled(other),
    }
}


/// A client node: the number of its next call and the shared state.
#[derive(Debug)]
pub struct ClientNode<S, Q> {
    seq_nr: u32,
    client_data: ClientData<S, Q>,
}

/// The number the next call gets, and the shared state.
pub struct ClientNodeView<S, Q> {
    pub next_sequence_id: u32,
    pub data: ClientDataView<S, Q>,
}

impl<S, Q> ClientNodeView<S, Q> {
    /// Every waiting call has a number below the next one, so a new call
    /// never takes the place of a waiting one.
    pub open spec fn well_formed(self) -> bool {
        forall|k: u32| #[trigger] self.data.pending.contains_key(k) ==> k < self.next_sequence_id
    }
}

impl<S, Q> View for ClientNode<S, Q> {
    type V = ClientNodeView<S, Q>;

    closed spec fn view(&self) -> ClientNodeView<S, Q> {
        ClientNodeView { next_sequence_id: self.seq_nr, data: self.client_data@ }
    }
}

/// A call from the client in state `before` that waits on `slot` leaves it
/// in state `after`: the call takes the next number and waits under it.
pub open spec fn registers_call<S, Q>(
    before: ClientNodeView<S, Q>,
    slot: S,
    after: ClientNodeView<S, Q>,
) -> bool {
    &&& after.next_sequence_id == before.next_sequence_id + 1
    &&& after.data.pending == before.data.pending.insert(before.next_sequence_id, slot)
    &&& after.data.subscriptions == before.data.subscriptions
}

/// `request` calls `method` with `args` under number `sequence_id`.
pub open spec fn is_request(
    request: Message,
    sequence_id: u32,
    method: Seq<char>,
    args: Seq<Seq<char>>,
) -> bool {
    request matches Message::RpcRequest { sequence_id: n, method: m, args: a } && n == sequence_id
        && m@ == method && a@.map_values(|arg: String| arg@) == args
}

impl<S, Q> ClientNode<S, Q> {
    /// Every waiting call has a number below the next one.
    #[verifier::type_invariant]
    spec fn numbers_below_next(&self) -> bool {
        self@.well_formed()
    }

    /// A fresh client: its first call is numbered 42; no call waits and
    /// nothing is subscribed.
    pub fn new() -> (r: Self)
        ensures
            r@.next_sequence_id == FIRST_SEQUENCE_ID,
            r@.data.pending == Map::<u32, S>::empty(),
            r@.data.subscriptions == Map::<Seq<char>, Q>::empty(),
            r@.well_formed(),
    {
        ClientNode { seq_nr: FIRST_SEQUENCE_ID, client_data: ClientData::new() }
    }

    /// The number the next call gets.
    pub fn next_sequence_id(&self) -> (n: u32)
        ensures
            n == self@.next_sequence_id,
    {
        self.seq_nr
    }

    /// Takes the next sequence number: hands it out and counts one up.
    pub fn get_seq_nr(&mut self) -> (n: u32)
        requires
            old(self)@.next_sequence_id < u32::MAX,
        ensures
            n == old(self)@.next_sequence_id,
            final(self)@.next_sequence_id == n + 1,
            final(self)@.data == old(self)@.data,
            final(self)@.well_formed(),
    {
        proof {
            use_type_invariant(&*self);
        }
        let seq_nr = self.seq_nr;
        assert forall|k: u32| #[trigger] self.client_data@.pending.contains_key(k) implies k
            < seq_nr + 1 by {
            assert(self@.data.pending.contains_key(k));
        }
        self.seq_nr = seq_nr + 1;
        seq_nr
    }

    /// Starts a call of `method_name` with `args` that waits on `slot`:
    /// the call takes the next sequence number and waits under it; the
    /// request to send is returned.
    pub fn call_method(&mut self, method_name: String, args: Vec<String>, slot: S) -> (request:
        Message)
        requires
            old(self)@.next_sequence_id < u32::MAX,
        ensures
            registers_call(old(self)@, slot, final(self)@),
            !old(self)@.data.pending.contains_key(old(self)@.next_sequence_id),
            final(self)@.well_formed(),
            request == (Message::RpcRequest {
                sequence_id: old(self)@.next_sequence_id,
                method: method_name,
                args,
            }),
    {
        proof {
            use_type_invariant(&*self);
        }
        let seq_nr = self.get_seq_nr();
        let mut data = ClientData::new();
        std::mem::swap(&mut data, &mut self.client_data);
        data.insert_pending(seq_nr, slot);
        self.client_data = data;
        proof {
            use_type_invariant(&*self);
        }
        Message::RpcRequest { sequence_id: seq_nr, method: method_name, args }
    }

    /// Starts the call that registers the client under `name`.
    pub fn register(&mut self, name: String, slot: S) -> (request: Message)
        requires
            old(self)@.next_sequence_id < u32::MAX,
        ensures
            registers_call(old(self)@, slot, final(self)@),
            final(self)@.well_formed(),
            is_request(request, old(self)@.next_sequence_id, "register"@, seq![name@]),
    {
        let args = vec![name];
        let request = self.call_method(String::from_str("register"), args, slot);
        proof {
            reveal_strlit("register");
            assert(args@.map_values(|arg: String| arg@) =~= seq![name@]);
        }
        request
    }

    /// Subscribes `queue` to `topic`, in place of any earlier subscriber of
    /// it, and starts the call that tells the server.
    pub fn subscribe(&mut self, topic: String, queue: Q, slot: S) -> (request: Message)
        requires
            old(self)@.next_sequence_id < u32::MAX,
        ensures
            final(self)@.next_sequence_id == old(self)@.next_sequence_id + 1,
            final(self)@.data.pending == old(self)@.data.pending.insert(
                old(self)@.next_sequence_id,
                slot,
            ),
            final(self)@.data.subscriptions == old(self)@.data.subscriptions.insert(topic@, queue),
            final(self)@.well_formed(),
            is_request(request, old(self)@.next_sequence_id, "subscribe"@, seq![topic@]),
    {
        proof {
            use_type_invariant(&*self);
        }
        let mut data = ClientData::new();
        std::mem::swap(&mut data, &mut self.client_data);
        data.insert_subscription(topic.clone(), queue);
        assert forall|k: u32| #[trigger] data@.pending.contains_key(k) implies k < self.seq_nr by {
            assert(old(self)@.data.pending.contains_key(k));
        }
        self.client_data = data;
        assert(self@.data.pending == old(self)@.data.pending);
        let args = vec![topic];
        let request = self.call_method(String::from_str("subscribe"), args, slot);
        proof {
            reveal_strlit("subscribe");
            assert(args@.map_values(|arg: String| arg@) =~= seq![topic@]);
        }
        request
    }

    /// Starts the call that asks the server for its topics.
    pub fn topic_list(&mut self, slot: S) -> (request: Message)
        requires
            old(self)@.next_sequence_id < u32::MAX,
        ensures
            registers_call(old(self)@, slot, final(self)@),
            final(self)@.well_formed(),
            is_request(request, old(self)@.next_sequence_id, "topic_list"@, Seq::empty()),
    {
        let args: Vec<String> = Vec::new();
        let request = self.call_method(String::from_str("topic_list"), args, slot);
        proof {
            reveal_strlit("topic_list");
            assert(args@.map_values(|arg: String| arg@) =~= Seq::<Seq<char>>::empty());
        }
        request
    }

    /// The message that publishes `value` on `topic`.
    pub fn publish(&self, topic: String, value: String) -> (message: Message)
        ensures
            message == (Message::Publish { topic, value }),
    {
        Message::Publish { topic, value }
    }

    /// The message that says goodbye to the server.
    pub fn bye(&self) -> (message: Message)
        ensures
            message == Message::Bye,
    {
        Message::Bye
    }

    /// Handles a message that came in (see `handle_message`).
    pub fn handle_message(&mut self, message: Message) -> (action: Action<S, Q>)
        where Q: Clone
        ensures
            handles_message(old(self)@.data, message, final(self)@.data, action),
            final(self)@.next_sequence_id == old(self)@.next_sequence_id,
            final(self)@.well_formed(),
    {
        proof {
            use_type_invariant(&*self);
        }
        let ghost before = self@;
        let mut data = ClientData::new();
        std::mem::swap(&mut data, &mut self.client_data);
        let action = handle_message(&mut data, message);
        assert forall|k: u32| #[trigger] data@.pending.contains_key(k) implies k
            < self.seq_nr by {
            assert(before.data.pending.contains_key(k));
        }
        self.client_data = data;
        action
    }
}

/// An answer reaches the call that waits under its number, and only once.
/// A call started from `before` waits on `slot`; the answer that carries its
/// number is handed to `slot`, after which the client waits for exactly what
/// it waited for before the call, so the same answer again is spurious.
pub proof fn lemma_answer_reaches_caller<S, Q: Clone>(
    before: ClientNodeView<S, Q>,
    slot: S,
    called: ClientNodeView<S, Q>,
    result: String,
    answered: ClientDataView<S, Q>,
    action: Action<S, Q>,
    again: ClientDataView<S, Q>,
    repeated: Action<S, Q>,
)
    requires
        before.well_formed(),
        registers_call(before, slot, called),
        handles_message(
            called.data,
            Message::RpcResponse { sequence_id: before.next_sequence_id, result },
            answered,
            action,
        ),
        handles_message(
            answered,
            Message::RpcResponse { sequence_id: before.next_sequence_id, result },
            again,
            repeated,
        ),
    ensures
        action == (Action::<S, Q>::Respond {
            slot,
            response: Message::RpcResponse { sequence_id: before.next_sequence_id, result },
        }),
        answered.pending == before.data.pending,
        repeated == (Action::<S, Q>::Spurious { sequence_id: before.next_sequence_id }),
{
    let n = before.next_sequence_id;
    assert(!before.data.pending.contains_key(n));
    assert(called.data.pending.contains_key(n));
    assert(answered.pending =~= before.data.pending);
}

/// A value published on a topic reaches the queue that subscribed to it
/// last; on another topic, the subscription changes nothing.
pub proof fn lemma_publication_reaches_subscriber<S, Q: Clone>(
    before: ClientDataView<S, Q>,
    topic: String,
    queue: Q,
    subscribed: ClientDataView<S, Q>,
    published: String,
    value: String,
    after: ClientDataView<S, Q>,
    action: Action<S, Q>,
)
    requires
        subscribed.subscriptions == before.subscriptions.insert(topic@, queue),
        handles_message(subscribed, Message::Publish { topic: published, value }, after, action),
    ensures
        after == subscribed,
        published@ == topic@ ==> (action matches Action::Deliver { queue: q, value: v } && v
            == value && cloned(queue, q)),
        published@ != topic@ ==> (action is Deliver <==> before.subscriptions.contains_key(
            published@,
        )),
{
}

/// The result that an answer carries back to its call.
pub fn rpc_result(response: Message) -> (result: String)
    requires
        response is RpcResponse,
    ensures
        result == response->RpcResponse_result,
{
    match response {
        Message::RpcResponse { result, .. } => result,
        _ => {
            proof {
                assert(false);
            }
            String::new()
        },
    }
}

/// The topics that the answer `result` to a topic-list call names: each
/// escaped name ends at a newline (see `topic_list`).
pub fn topic_list_result(result: String) -> (topics: Vec<String>)
    ensures
        topics@.map_values(|topic: String| topic@) == spec_parse_topic_list(result@),
{
    parse_topic_list(&result)
}

/// Get the number of `count` calls in a row, each from the state the one
/// before left: the numbers are consecutive, from the first the node had.
pub proof fn lemma_sequence_numbers_consecutive<S, Q>(
    states: Seq<ClientNodeView<S, Q>>,
    numbers: Seq<u32>,
)
    requires
        states.len() == numbers.len() + 1,
        forall|i: int|
            0 <= i < numbers.len() ==> #[trigger] numbers[i] == states[i].next_sequence_id
                && states[i + 1].next_sequence_id == numbers[i] + 1,
    ensures
        forall|i: int| 0 <= i < numbers.len() ==> #[trigger] numbers[i] == states[0].next_sequence_id + i,
        states.last().next_sequence_id == states[0].next_sequence_id + numbers.len(),
    decreases numbers.len(),
{
    if numbers.len() > 0 {
        let n = numbers.len() - 1;
        lemma_sequence_numbers_consecutive(states.take(n + 1), numbers.take(n));
        assert forall|i: int| 0 <= i < numbers.len() implies #[trigger] numbers[i]
            == states[0].next_sequence_id + i by {
            if i < n {
                assert(numbers.take(n)[i] == numbers[i]);
            } else {
                assert(states.take(n + 1).last() == states[n]);
            }
        }
        assert(numbers[n] == states[n].next_sequence_id);
    }
}

} // verus!
