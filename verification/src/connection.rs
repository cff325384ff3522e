//! One connection: it registers its client, relays what the client sends,
//! and removes the client again, once, when the stream ends.

use vstd::prelude::*;
use crate::broadcast::broadcast;
use crate::broadcast::is_relayable;
use crate::broadcast::spec_broadcast;
use crate::broadcast::Outcome;
use crate::broadcast::lemma_no_self_delivery;
use crate::frame::lemma_decode_encoded;
use crate::frame::lemma_decode_with_more;
use crate::frame::lemma_decoded_was_encoded;
use crate::frame::lemma_round_trip;
use crate::frame::spec_encode;
use crate::frame::MAX_PAYLOAD_LEN;
use crate::message::lemma_malformed_iff_no_delimiter;
use crate::message::DELIMITER;
use crate::registry::distinct_ids;
use crate::registry::lemma_deliver_to_nobody;
use crate::registry::lemma_deregister_at;
use crate::registry::lemma_deregister_keeps_others;
use crate::registry::outbox_of;
use crate::frame::spec_decode;
use crate::frame::FrameDecoder;
use crate::message::spec_parse;
use crate::message::Message;
use crate::registry::is_registered;
use crate::registry::spec_deregister;
use crate::registry::spec_register;
use crate::registry::AlreadyRegistered;
use crate::registry::ClientId;
use crate::registry::ClientState;
use crate::registry::Registry;

verus! {

/// Why a connection was closed.
#[derive(Debug, Clone, Copy, PartialEq, Eq, Structural)]
pub enum CloseReason {
    /// The peer closed the stream, or sent an empty payload.
    EndOfStream,
    /// Reading from the stream failed.
    StreamError,
    /// The peer sent a payload without a delimiter byte.
    MalformedFrame,
}

/// Where a connection stands.
#[derive(Debug, Clone, Copy, PartialEq, Eq, Structural)]
pub enum Phase {
    /// The client is registered, and what it sends is relayed.
    Relaying,
    /// The client was removed from the registry. Nothing follows.
    Closed(CloseReason),
}

/// What a connection is made of: whose it is, where it stands, and the
/// bytes that arrived and do not yet make a whole frame.
pub struct ConnectionState {
    pub id: ClientId,
    pub phase: Phase,
    pub pending: Seq<u8>,
}

/// What processing the bytes of one connection comes to: the registry and
/// the unprocessed bytes afterwards, where the connection then stands, and
/// the messages that were relayed, in order.
pub struct Run {
    pub registry: Seq<ClientState>,
    pub pending: Seq<u8>,
    pub phase: Phase,
    pub relayed: Seq<(Seq<u8>, Seq<u8>)>,
}

/// Processes the whole frames at the front of `pending`, one after the
/// other, for the connection of `id`.
///
/// Each payload is broadcast. An empty payload stands for the end of the
/// stream, and a payload without a delimiter byte is a violation: either
/// removes the client and closes the connection, and what follows it is not
/// looked at. Bytes that make no whole frame stay for later.
pub open spec fn spec_run(registry: Seq<ClientState>, id: ClientId, pending: Seq<u8>) -> Run
    decreases pending.len(),
{
    match spec_decode(pending) {
        None => Run { registry, pending, phase: Phase::Relaying, relayed: Seq::empty() },
        Some((payload, rest)) => {
            if payload.len() == 0 {
                Run {
                    registry: spec_deregister(registry, id),
                    pending: rest,
                    phase: Phase::Closed(CloseReason::EndOfStream),
                    relayed: Seq::empty(),
                }
            } else {
                match spec_parse(payload) {
                    None => Run {
                        registry: spec_deregister(registry, id),
                        pending: rest,
                        phase: Phase::Closed(CloseReason::MalformedFrame),
                        relayed: Seq::empty(),
                    },
                    Some((tag, body)) => {
                        let next = spec_run(spec_broadcast(registry, id, payload), id, rest);
                        if is_relayable(tag, body) {
                            spec_after(seq![(tag, body)], next)
                        } else {
                            next
                        }
                    },
                }
            }
        },
    }
}

/// The run `run` with `earlier` in front of what it relayed.
pub open spec fn spec_after(earlier: Seq<(Seq<u8>, Seq<u8>)>, run: Run) -> Run {
    Run {
        registry: run.registry,
        pending: run.pending,
        phase: run.phase,
        relayed: earlier + run.relayed,
    }
}

/// The connection `c` after it was closed for `reason`. One that was closed
/// before stays as it was.
pub open spec fn spec_closed(c: ConnectionState, reason: CloseReason) -> ConnectionState {
    match c.phase {
        Phase::Relaying => ConnectionState {
            id: c.id,
            phase: Phase::Closed(reason),
            pending: c.pending,
        },
        Phase::Closed(_) => c,
    }
}

/// The registry after the connection `c` was closed: without its client,
/// unless the connection was closed before, and the client removed then.
pub open spec fn spec_closed_registry(registry: Seq<ClientState>, c: ConnectionState) -> Seq<
    ClientState,
> {
    match c.phase {
        Phase::Relaying => spec_deregister(registry, c.id),
        Phase::Closed(_) => registry,
    }
}

/// Tags and bodies of a list of messages.
pub open spec fn spec_messages(messages: Seq<Message>) -> Seq<(Seq<u8>, Seq<u8>)> {
    messages.map_values(|m: Message| m@)
}

/// The state of one connection.
///
/// A connection that was accepted is merely connected until `open` has
/// registered its client; from then on it is relaying, until it is closed.
pub struct Connection {
    id: ClientId,
    phase: Phase,
    decoder: FrameDecoder,
}

impl View for Connection {
    type V = ConnectionState;

    closed spec fn view(&self) -> ConnectionState {
        ConnectionState { id: self.id, phase: self.phase, pending: self.decoder@ }
    }
}

impl Connection {
    /// Opens the connection of `id`: registers the client and starts
    /// relaying. Fails, and changes nothing, where the identity is already
    /// present.
    pub fn open(registry: &mut Registry, id: ClientId) -> (r: Result<Connection, AlreadyRegistered>)
        requires
            old(registry).wf(),
        ensures
            final(registry).wf(),
            match r {
                Ok(c) => !is_registered(old(registry)@, id) && final(registry)@ == spec_register(
                    old(registry)@,
                    id,
                ) && c@ == (ConnectionState {
                    id,
                    phase: Phase::Relaying,
                    pending: Seq::empty(),
                }),
                Err(_) => is_registered(old(registry)@, id) && final(registry)@ == old(registry)@,
            },
    {
        match registry.register(id) {
            Ok(_) => Ok(Connection { id, phase: Phase::Relaying, decoder: FrameDecoder::new() }),
            Err(e) => Err(e),
        }
    }

    /// Whose connection this is.
    pub fn id(&self) -> (id: ClientId)
        ensures
            id == self@.id,
    {
        self.id
    }

    /// Where the connection stands.
    pub fn phase(&self) -> (phase: Phase)
        ensures
            phase == self@.phase,
    {
        self.phase
    }

    /// Whether the connection was closed.
    pub fn is_closed(&self) -> (closed: bool)
        ensures
            closed == (self@.phase is Closed),
    {
        match self.phase {
            Phase::Relaying => false,
            Phase::Closed(_) => true,
        }
    }

    /// Closes the connection for `reason`: removes the client from the
    /// registry. A connection that is closed already stays as it is, and the
    /// registry with it, so that a client is removed once and no more.
    fn close(&mut self, registry: &mut Registry, reason: CloseReason)
        requires
            old(registry).wf(),
        ensures
            final(registry).wf(),
            final(self)@ == spec_closed(old(self)@, reason),
            final(registry)@ == spec_closed_registry(old(registry)@, old(self)@),
    {
        match self.phase {
            Phase::Relaying => {
                let _ = registry.deregister(self.id);
                self.phase = Phase::Closed(reason);
            },
            Phase::Closed(_) => {},
        }
    }

    /// The peer closed the stream. Whatever had arrived of an unfinished
    /// frame is of no use any more.
    pub fn on_end_of_stream(&mut self, registry: &mut Registry)
        requires
            old(registry).wf(),
        ensures
            final(registry).wf(),
            final(self)@ == spec_closed(old(self)@, CloseReason::EndOfStream),
            final(registry)@ == spec_closed_registry(old(registry)@, old(self)@),
    {
        self.close(registry, CloseReason::EndOfStream);
    }

    /// Reading from the stream failed.
    pub fn on_stream_error(&mut self, registry: &mut Registry)
        requires
            old(registry).wf(),
        ensures
            final(registry).wf(),
            final(self)@ == spec_closed(old(self)@, CloseReason::StreamError),
            final(registry)@ == spec_closed_registry(old(registry)@, old(self)@),
    {
        self.close(registry, CloseReason::StreamError);
    }

    /// Bytes arrived from the peer, cut however the stream cut them.
    ///
    /// They are put behind what arrived before, and every whole frame that
    /// is there now is processed in order. Returns the messages that were
    /// relayed. A closed connection takes nothing in and changes nothing.
    pub fn on_data(&mut self, registry: &mut Registry, chunk: &[u8]) -> (relayed: Vec<Message>)
        requires
            old(registry).wf(),
        ensures
            final(registry).wf(),
            final(self)@.id == old(self)@.id,
            match old(self)@.phase {
                Phase::Relaying => {
                    let run = spec_run(
                        old(registry)@,
                        old(self)@.id,
                        old(self)@.pending + chunk@,
                    );
                    &&& final(registry)@ == run.registry
                    &&& final(self)@.pending == run.pending
                    &&& final(self)@.phase == run.phase
                    &&& spec_messages(relayed@) == run.relayed
                },
                Phase::Closed(_) => {
                    &&& final(registry)@ == old(registry)@
                    &&& final(self)@ == old(self)@
                    &&& relayed@.len() == 0
                },
            },
    {
        let mut relayed: Vec<Message> = Vec::new();
        if self.is_closed() {
            return relayed;
        }
        self.decoder.feed(chunk);
        let ghost total = spec_run(old(registry)@, self.id, old(self)@.pending + chunk@);
        let mut more: bool = true;
        proof {
            assert(spec_messages(relayed@) =~= Seq::empty());
            assert(spec_after(Seq::empty(), total).relayed =~= total.relayed);
        }
        while more
            invariant
                registry.wf(),
                self.id == old(self).id,
                more ==> self.phase == Phase::Relaying,
                total == spec_after(
                    spec_messages(relayed@),
                    if more {
                        spec_run(registry@, self.id, self.decoder@)
                    } else {
                        Run {
                            registry: registry@,
                            pending: self.decoder@,
                            phase: self.phase,
                            relayed: Seq::empty(),
                        }
                    },
                ),
            decreases self.decoder@.len() + if more { 1int } else { 0int },
        {
            let ghost before = self.decoder@;
            let ghost log = spec_messages(relayed@);
            match self.decoder.next_frame() {
                None => {
                    more = false;
                },
                Some(payload) => {
                    proof {
                        lemma_decoded_was_encoded(before);
                    }
                    if payload.len() == 0 {
                        self.close(registry, CloseReason::EndOfStream);
                        more = false;
                    } else {
                        match broadcast(registry, self.id, payload.as_slice()) {
                            Err(_) => {
                                self.close(registry, CloseReason::MalformedFrame);
                                more = false;
                            },
                            Ok(Outcome::Discarded) => {},
                            Ok(Outcome::Relayed { message, recipients: _ }) => {
                                relayed.push(message);
                                proof {
                                    let next = spec_run(registry@, self.id, self.decoder@);
                                    assert(spec_messages(relayed@) =~= log.push(message@));
                                    assert(log + (seq![message@] + next.relayed) =~= log.push(
                                        message@,
                                    ) + next.relayed);
                                }
                            },
                        }
                    }
                },
            }
        }
        proof {
            assert(spec_messages(relayed@) + Seq::empty() =~= spec_messages(relayed@));
        }
        relayed
    }
}

/// Processing keeps the identities in a registry distinct.
pub proof fn lemma_run_keeps_distinct(registry: Seq<ClientState>, id: ClientId, pending: Seq<u8>)
    requires
        distinct_ids(registry),
    ensures
        distinct_ids(spec_run(registry, id, pending).registry),
    decreases pending.len(),
{
    match spec_decode(pending) {
        None => {},
        Some((payload, rest)) => {
            lemma_deregister_keeps_others(registry, id, id);
            if payload.len() != 0 && spec_parse(payload) is Some {
                lemma_no_self_delivery(registry, id, payload, id);
                lemma_run_keeps_distinct(spec_broadcast(registry, id, payload), id, rest);
            }
        },
    }
}

/// While a frame is incomplete nothing happens: the bytes wait, the
/// registry stays as it is, and the connection goes on relaying.
pub proof fn lemma_run_waits_for_whole_frame(
    registry: Seq<ClientState>,
    id: ClientId,
    pending: Seq<u8>,
)
    requires
        spec_decode(pending) is None,
    ensures
        spec_run(registry, id, pending) == (Run {
            registry,
            pending,
            phase: Phase::Relaying,
            relayed: Seq::empty(),
        }),
{
}

/// One whole relayable payload, arrived in full and with nothing behind it,
/// is broadcast once, and the connection goes on relaying.
pub proof fn lemma_run_relays_one(registry: Seq<ClientState>, id: ClientId, payload: Seq<u8>)
    requires
        payload.len() <= MAX_PAYLOAD_LEN,
        spec_parse(payload) matches Some((tag, body)) && is_relayable(tag, body),
    ensures
        spec_run(registry, id, spec_encode(payload)) == (Run {
            registry: spec_broadcast(registry, id, payload),
            pending: Seq::empty(),
            phase: Phase::Relaying,
            relayed: seq![spec_parse(payload).unwrap()],
        }),
{
    lemma_round_trip(payload);
    lemma_malformed_iff_no_delimiter(payload);
    let next = spec_run(spec_broadcast(registry, id, payload), id, Seq::empty());
    assert(seq![spec_parse(payload).unwrap()] + next.relayed =~= seq![
        spec_parse(payload).unwrap(),
    ]);
}

/// An empty payload closes the connection as the end of the stream does:
/// the client is removed, and what follows in the stream is not processed.
pub proof fn lemma_run_empty_payload_ends(
    registry: Seq<ClientState>,
    id: ClientId,
    rest: Seq<u8>,
)
    ensures
        spec_run(registry, id, spec_encode(Seq::empty()) + rest) == (Run {
            registry: spec_deregister(registry, id),
            pending: rest,
            phase: Phase::Closed(CloseReason::EndOfStream),
            relayed: Seq::empty(),
        }),
{
    lemma_decode_encoded(Seq::empty(), rest);
}

/// Malformed-frame isolation: a payload without a delimiter byte closes the
/// connection that sent it and no other. The sender is removed; every other
/// client is registered as before, with the queue it had, and a relayable
/// payload that a client sends afterwards still reaches it.
pub proof fn lemma_malformed_frame_isolation(
    registry: Seq<ClientState>,
    offender: ClientId,
    payload: Seq<u8>,
    rest: Seq<u8>,
    other: ClientId,
    later_sender: ClientId,
    later: Seq<u8>,
)
    requires
        distinct_ids(registry),
        0 < payload.len() <= MAX_PAYLOAD_LEN,
        !payload.contains(DELIMITER),
        other != offender,
        is_registered(registry, other),
        later_sender != other,
        spec_parse(later) matches Some((tag, body)) && is_relayable(tag, body),
    ensures
        ({
            let run = spec_run(registry, offender, spec_encode(payload) + rest);
            &&& run.phase == Phase::Closed(CloseReason::MalformedFrame)
            &&& run.relayed == Seq::<(Seq<u8>, Seq<u8>)>::empty()
            &&& run.registry == spec_deregister(registry, offender)
            &&& !is_registered(run.registry, offender)
            &&& is_registered(run.registry, other)
            &&& outbox_of(run.registry, other) == outbox_of(registry, other)
            &&& outbox_of(spec_broadcast(run.registry, later_sender, later), other) == outbox_of(
                registry,
                other,
            ) + spec_encode(later)
        }),
{
    lemma_decode_encoded(payload, rest);
    lemma_malformed_iff_no_delimiter(payload);
    lemma_deregister_keeps_others(registry, offender, other);
    lemma_no_self_delivery(spec_deregister(registry, offender), later_sender, later, other);
}

/// After a client left, what another client sends reaches nobody if those
/// two were the only ones, and the registry holds one client.
pub proof fn lemma_last_client_talks_to_nobody(a: ClientId, b: ClientId, payload: Seq<u8>)
    requires
        a != b,
    ensures
        ({
            let both = spec_register(spec_register(Seq::empty(), a), b);
            let alone = spec_deregister(both, b);
            &&& alone.len() == 1
            &&& is_registered(alone, a)
            &&& spec_broadcast(alone, a, payload) == alone
        }),
{
    let first = spec_register(Seq::empty(), a);
    let both = spec_register(first, b);
    assert(both[0].id == a && both[1].id == b);
    assert(distinct_ids(both));
    lemma_deregister_at(both, 1, b);
    let alone = spec_deregister(both, b);
    assert(alone =~= first);
    assert(alone[0].id == a);
    lemma_deliver_to_nobody(alone, a, spec_encode(payload));
}

/// Fragmentation robustness of a connection: bytes that arrive in two reads
/// are processed as if they had arrived in one. While the connection is
/// still relaying after the first read, the second read goes on where the
/// first stopped; once the first read closed the connection, the second
/// changes nothing.
pub proof fn lemma_run_in_two_reads(
    registry: Seq<ClientState>,
    id: ClientId,
    first: Seq<u8>,
    second: Seq<u8>,
)
    ensures
        ({
            let one = spec_run(registry, id, first);
            let whole = spec_run(registry, id, first + second);
            match one.phase {
                Phase::Relaying => whole == spec_after(
                    one.relayed,
                    spec_run(one.registry, id, one.pending + second),
                ),
                Phase::Closed(_) => whole == (Run {
                    registry: one.registry,
                    pending: one.pending + second,
                    phase: one.phase,
                    relayed: one.relayed,
                }),
            }
        }),
    decreases first.len(),
{
    let one = spec_run(registry, id, first);
    let whole = spec_run(registry, id, first + second);
    match spec_decode(first) {
        None => {
            assert(Seq::<(Seq<u8>, Seq<u8>)>::empty() + whole.relayed =~= whole.relayed);
        },
        Some((payload, rest)) => {
            lemma_decode_with_more(first, second);
            lemma_decoded_was_encoded(first);
            if payload.len() != 0 {
                match spec_parse(payload) {
                    None => {},
                    Some((tag, body)) => {
                        let after = spec_broadcast(registry, id, payload);
                        lemma_run_in_two_reads(after, id, rest, second);
                        let one_next = spec_run(after, id, rest);
                        let then = spec_run(one_next.registry, id, one_next.pending + second);
                        if is_relayable(tag, body) {
                            let m = seq![(tag, body)];
                            assert(m + (one_next.relayed + then.relayed) =~= (m
                                + one_next.relayed) + then.relayed);
                        }
                    },
                }
            }
        },
    }
}

} // verus!
