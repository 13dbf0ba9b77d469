//! The chat transport, without the wire: what to ask of the remote service,
//! and what to make of its answers.
//!
//! The caller owns the connections. For the history of a channel it calls
//! [`fetch_messages`], performs each request that comes back, and hands the
//! answer to [`HistoryFetch::advance`] until the messages are there. For
//! the live stream it connects as [`start_gateway`] says and lets
//! [`forward`] decide what to do with each item that the stream yields.

use crate::model::views;
use vstd::prelude::*;
use vstd::string::StringExecFns;

verus! {

/// The largest number of messages that one request may ask for.
pub const PAGE_LIMIT: usize = 100;

/// The number of events that the queue between the stream and its reader holds.
pub const EVENT_QUEUE_CAPACITY: usize = 1000;

/// One inbound chat message, as its readers see it.
#[derive(Clone, Debug)]
pub struct ChatEvent {
    pub channel_id: u64,
    pub author_id: u64,
    pub author: String,
    pub content: String,
}

/// What a [`ChatEvent`] holds.
pub struct ChatEventView {
    pub channel_id: u64,
    pub author_id: u64,
    pub author: Seq<char>,
    pub content: Seq<char>,
}

impl View for ChatEvent {
    type V = ChatEventView;

    open spec fn view(&self) -> ChatEventView {
        ChatEventView {
            channel_id: self.channel_id,
            author_id: self.author_id,
            author: self.author@,
            content: self.content@,
        }
    }
}

/// A message as the remote service delivers it, reduced to what is read of it.
#[derive(Clone, Debug)]
pub struct Message {
    pub id: u64,
    pub channel_id: u64,
    pub author_id: u64,
    pub author_name: String,
    pub content: String,
}

/// What a [`Message`] holds.
pub struct MessageView {
    pub id: u64,
    pub channel_id: u64,
    pub author_id: u64,
    pub author_name: Seq<char>,
    pub content: Seq<char>,
}

impl View for Message {
    type V = MessageView;

    open spec fn view(&self) -> MessageView {
        MessageView {
            id: self.id,
            channel_id: self.channel_id,
            author_id: self.author_id,
            author_name: self.author_name@,
            content: self.content@,
        }
    }
}

/// The event that a message becomes.
pub open spec fn event_of(m: MessageView) -> ChatEventView {
    ChatEventView {
        channel_id: m.channel_id,
        author_id: m.author_id,
        author: m.author_name,
        content: m.content,
    }
}

/// The events of `newest_first`, oldest first.
pub open spec fn oldest_first(newest_first: Seq<MessageView>) -> Seq<ChatEventView> {
    Seq::new(
        newest_first.len(),
        |i: int| event_of(newest_first[newest_first.len() - 1 - i]),
    )
}

/// What can go wrong between here and the remote service.
#[derive(Debug)]
pub enum TransportError {
    /// A request failed on its way; the cause.
    Http(String),
    /// An answer came and could not be read; the cause.
    Model(String),
}

impl TransportError {
    /// The error in words.
    pub open spec fn text(self) -> Seq<char> {
        match self {
            TransportError::Http(cause) => "Discord HTTP error: "@ + cause@,
            TransportError::Model(cause) => "Discord HTTP model error: "@ + cause@,
        }
    }

    /// Renders the error in words.
    pub fn message(&self) -> (m: String)
        ensures
            m@ == self.text(),
    {
        match self {
            TransportError::Http(cause) => "Discord HTTP error: ".to_owned().concat(
                cause.as_str(),
            ),
            TransportError::Model(cause) => "Discord HTTP model error: ".to_owned().concat(
                cause.as_str(),
            ),
        }
    }
}

/// Turns a message into the event that is handed on.
pub fn convert_message_create(msg: Message) -> (event: ChatEvent)
    ensures
        event@ == event_of(msg@),
{
    ChatEvent {
        channel_id: msg.channel_id,
        author_id: msg.author_id,
        author: msg.author_name,
        content: msg.content,
    }
}

/// One request for a page of a channel's history: at most `limit` messages,
/// the newest first, all of them older than the message `before` where one is named.
#[derive(Clone, Copy, Debug, PartialEq, Eq, Structural)]
pub struct PageRequest {
    pub channel_id: u64,
    pub before: Option<u64>,
    pub limit: u16,
}

/// The answer to a [`PageRequest`].
pub enum PageOutcome {
    /// The page, newest message first; empty where the history is exhausted.
    Page(Vec<Message>),
    /// The request failed on its way; the cause.
    RequestFailed(String),
    /// The answer could not be read; the cause.
    DecodeFailed(String),
}

/// How far a fetch has come once a page is in.
pub enum Progress {
    /// Nothing more is asked; the messages that were collected, newest first.
    Finished(Seq<MessageView>),
    /// Another page is asked for; the messages collected so far, newest first.
    Pending(Seq<MessageView>),
}

/// The identifier that the next request is anchored before: that of the
/// oldest message collected, none at the start.
pub open spec fn cursor(collected: Seq<MessageView>) -> Option<u64> {
    if collected.len() == 0 {
        None
    } else {
        Some(collected.last().id)
    }
}

/// The number of messages that the next request asks for: what is still
/// wanted, and no more than a page.
pub open spec fn page_size(collected: Seq<MessageView>, limit: nat) -> int {
    if limit - collected.len() < PAGE_LIMIT {
        limit - collected.len()
    } else {
        PAGE_LIMIT as int
    }
}

/// The request that a fetch of `limit` messages of a channel makes when it
/// has `collected` some.
pub open spec fn request_for(channel_id: u64, collected: Seq<MessageView>, limit: nat) -> PageRequest {
    PageRequest {
        channel_id,
        before: cursor(collected),
        limit: page_size(collected, limit) as u16,
    }
}

/// The rule of the fetch. An empty page ends it with what was collected. Any
/// other page is added behind what was collected; the fetch ends once that
/// reaches the wanted number, and asks on until then.
pub open spec fn progress(collected: Seq<MessageView>, limit: nat, batch: Seq<MessageView>) -> Progress {
    if batch.len() == 0 {
        Progress::Finished(collected)
    } else if (collected + batch).len() >= limit {
        Progress::Finished(collected + batch)
    } else {
        Progress::Pending(collected + batch)
    }
}

/// A fetch of a channel's history that waits for the answer to a request.
pub struct HistoryFetch {
    channel_id: u64,
    limit: usize,
    collected: Vec<Message>,
}

/// Where a fetch stands after a step.
pub enum FetchStep {
    /// The request to perform next, and the fetch that takes its answer.
    Ask(HistoryFetch, PageRequest),
    /// The fetch is over; the events, oldest first.
    Done(Vec<ChatEvent>),
    /// The fetch is over and has failed; nothing of what was collected is handed out.
    Failed(TransportError),
}

impl HistoryFetch {
    /// The channel whose history is fetched.
    pub closed spec fn channel_id(self) -> u64 {
        self.channel_id
    }

    /// The number of messages wanted.
    pub closed spec fn limit(self) -> nat {
        self.limit as nat
    }

    /// The messages collected so far, newest first.
    pub closed spec fn collected(self) -> Seq<MessageView> {
        views(self.collected@)
    }

    /// A waiting fetch still wants messages.
    #[verifier::type_invariant]
    spec fn still_wanting(self) -> bool {
        self.collected@.len() < self.limit
    }

    /// The request whose answer the fetch waits for.
    pub open spec fn request(self) -> PageRequest {
        request_for(self.channel_id(), self.collected(), self.limit())
    }

    /// Takes the answer to the pending request and says what follows. A
    /// failure ends the fetch with an error. A page goes by the rule of
    /// [`progress`]: the fetch ends with the events, oldest first, or asks
    /// for the page before the oldest message that it holds.
    pub fn advance(self, outcome: PageOutcome) -> (step: FetchStep)
        ensures
            match outcome {
                PageOutcome::Page(batch) => match progress(
                    self.collected(),
                    self.limit(),
                    views(batch@),
                ) {
                    Progress::Finished(all) => step matches FetchStep::Done(events) && views(
                        events@,
                    ) == oldest_first(all),
                    Progress::Pending(all) => step matches FetchStep::Ask(next, request)
                        && next.channel_id() == self.channel_id() && next.limit() == self.limit()
                        && next.collected() == all && request == next.request() && 1
                        <= request.limit <= PAGE_LIMIT,
                },
                PageOutcome::RequestFailed(cause) => step matches FetchStep::Failed(
                    TransportError::Http(c),
                ) && c@ == cause@,
                PageOutcome::DecodeFailed(cause) => step matches FetchStep::Failed(
                    TransportError::Model(c),
                ) && c@ == cause@,
            },
    {
        proof {
            use_type_invariant(&self);
        }
        match outcome {
            PageOutcome::Page(batch) => {
                let HistoryFetch { channel_id, limit, collected } = self;
                let mut collected = collected;
                let mut batch = batch;
                if batch.len() == 0 {
                    return FetchStep::Done(into_events(collected));
                }
                let ghost before = views(collected@);
                let ghost added = views(batch@);
                collected.append(&mut batch);
                proof {
                    assert(views(collected@) =~= before + added);
                }
                if collected.len() >= limit {
                    FetchStep::Done(into_events(collected))
                } else {
                    let request = next_request(channel_id, limit, &collected);
                    FetchStep::Ask(HistoryFetch { channel_id, limit, collected }, request)
                }
            },
            PageOutcome::RequestFailed(cause) => FetchStep::Failed(TransportError::Http(cause)),
            PageOutcome::DecodeFailed(cause) => FetchStep::Failed(TransportError::Model(cause)),
        }
    }
}

/// Builds the request that follows what was collected.
fn next_request(channel_id: u64, limit: usize, collected: &Vec<Message>) -> (request: PageRequest)
    requires
        collected@.len() < limit,
    ensures
        request == request_for(channel_id, views(collected@), limit as nat),
        1 <= request.limit <= PAGE_LIMIT,
{
    let have = collected.len();
    let remaining = limit - have;
    let size: u16 = if remaining < PAGE_LIMIT {
        remaining as u16
    } else {
        PAGE_LIMIT as u16
    };
    let before = if have == 0 {
        None
    } else {
        assert(views(collected@).last() == collected@[have - 1]@);
        Some(collected[have - 1].id)
    };
    PageRequest { channel_id, before, limit: size }
}

/// Turns the messages collected, newest first, into events, oldest first.
fn into_events(collected: Vec<Message>) -> (events: Vec<ChatEvent>)
    ensures
        views(events@) == oldest_first(views(collected@)),
{
    let mut rest = collected;
    let ghost all = views(rest@);
    let mut events: Vec<ChatEvent> = Vec::new();
    while rest.len() > 0
        invariant
            rest@.len() + events@.len() == all.len(),
            views(rest@) == all.take(rest@.len() as int),
            forall|i: int|
                0 <= i < events@.len() ==> (#[trigger] events@[i])@ == event_of(
                    all[all.len() - 1 - i],
                ),
        decreases rest@.len(),
    {
        let ghost longer = rest@;
        let ghost n = rest@.len() as int;
        let msg = rest.pop().unwrap();
        proof {
            assert(views(longer)[n - 1] == msg@);
            assert(all.take(n)[n - 1] == all[n - 1]);
            assert forall|i: int| 0 <= i < n - 1 implies views(rest@)[i] == all.take(n - 1)[i] by {
                assert(views(longer)[i] == all.take(n)[i]);
            }
            assert(views(rest@) =~= all.take(n - 1));
        }
        events.push(convert_message_create(msg));
    }
    proof {
        assert(views(events@) =~= oldest_first(all));
    }
    events
}

/// Begins to fetch the `limit` most recent messages of a channel. Where
/// none is wanted the fetch is over at once; otherwise the first request asks
/// for the newest messages, anchored nowhere.
pub fn fetch_messages(channel_id: u64, limit: usize) -> (step: FetchStep)
    ensures
        limit == 0 ==> (step matches FetchStep::Done(events) && events@.len() == 0),
        limit > 0 ==> (step matches FetchStep::Ask(fetch, request) && fetch.channel_id()
            == channel_id && fetch.limit() == limit && fetch.collected() == Seq::<
            MessageView,
        >::empty() && request == fetch.request() && 1 <= request.limit <= PAGE_LIMIT),
{
    if limit == 0 {
        FetchStep::Done(Vec::new())
    } else {
        let collected: Vec<Message> = Vec::new();
        let request = next_request(channel_id, limit, &collected);
        proof {
            assert(views(collected@) =~= Seq::<MessageView>::empty());
        }
        FetchStep::Ask(HistoryFetch { channel_id, limit, collected }, request)
    }
}

/// Says what came of sending a message: success, or the failure of the
/// request with its cause.
pub fn send_message(outcome: Result<(), String>) -> (sent: Result<(), TransportError>)
    ensures
        match outcome {
            Ok(_) => sent is Ok,
            Err(cause) => sent matches Err(TransportError::Http(c)) && c@ == cause@,
        },
{
    match outcome {
        Ok(_) => Ok(()),
        Err(cause) => Err(TransportError::Http(cause)),
    }
}

/// How to connect to the live stream of events.
pub struct GatewaySetup {
    /// The credential to sign in with.
    pub token: String,
    /// Whether to ask for the messages of guild channels.
    pub guild_messages: bool,
    /// Whether to ask for the content of messages.
    pub message_content: bool,
    /// The number of events that the queue to the reader holds.
    pub queue_capacity: usize,
}

/// Says how to connect to the live stream with the credential `token`: with
/// the messages of guild channels and their content asked for, and a queue
/// of [`EVENT_QUEUE_CAPACITY`] events to the reader.
pub fn start_gateway(token: String) -> (setup: GatewaySetup)
    ensures
        setup.token@ == token@,
        setup.guild_messages,
        setup.message_content,
        setup.queue_capacity == EVENT_QUEUE_CAPACITY,
{
    GatewaySetup {
        token,
        guild_messages: true,
        message_content: true,
        queue_capacity: EVENT_QUEUE_CAPACITY,
    }
}

/// Whether the forwarding of the live stream still runs.
#[derive(Clone, Copy, Debug, PartialEq, Eq, Structural)]
pub enum Forwarder {
    Running,
    Ended,
}

/// What the live stream yields when it is asked for its next item.
pub enum GatewayItem {
    /// The stream is over.
    EndOfStream,
    /// An item could not be received; the cause.
    ReceiveError(String),
    /// A message was created.
    MessageCreate(Message),
    /// Any other event.
    Other,
}

/// What to do with an item of the live stream.
pub enum ForwarderAction {
    /// Offer the event to the queue without waiting. An event that the queue
    /// does not take, being full or closed, is dropped.
    Forward(ChatEvent),
    /// Report the failure and wait for the next item.
    Report(String),
    /// Wait for the next item.
    Skip,
    /// Stop asking the stream.
    Stop,
}

/// Decides what to do with the item that the live stream yielded. The
/// forwarding ends when the stream does, and at nothing else: a created
/// message is forwarded, a failure to receive is reported, any other event is
/// passed over, and each time the forwarding runs on. Once ended it stays so.
pub fn forward(state: Forwarder, item: GatewayItem) -> (next: (Forwarder, ForwarderAction))
    ensures
        next.0 == (if state == Forwarder::Running && !(item is EndOfStream) {
            Forwarder::Running
        } else {
            Forwarder::Ended
        }),
        state == Forwarder::Ended ==> next.1 is Stop,
        state == Forwarder::Running ==> match item {
            GatewayItem::EndOfStream => next.1 is Stop,
            GatewayItem::ReceiveError(cause) => next.1 matches ForwarderAction::Report(c) && c@
                == cause@,
            GatewayItem::MessageCreate(msg) => next.1 matches ForwarderAction::Forward(event)
                && event@ == event_of(msg@),
            GatewayItem::Other => next.1 is Skip,
        },
{
    match state {
        Forwarder::Ended => (Forwarder::Ended, ForwarderAction::Stop),
        Forwarder::Running => match item {
            GatewayItem::EndOfStream => (Forwarder::Ended, ForwarderAction::Stop),
            GatewayItem::ReceiveError(cause) => (
                Forwarder::Running,
                ForwarderAction::Report(cause),
            ),
            GatewayItem::MessageCreate(msg) => (
                Forwarder::Running,
                ForwarderAction::Forward(convert_message_create(msg)),
            ),
            GatewayItem::Other => (Forwarder::Running, ForwarderAction::Skip),
        },
    }
}

} // verus!
