//! The fan-out step: one payload from one client, queued for all others.

use vstd::prelude::*;
use crate::frame::encode;
use crate::frame::spec_encode;
use crate::frame::MAX_PAYLOAD_LEN;
use crate::message::lemma_parse_composed;
use crate::message::parse;
use crate::message::spec_compose;
use crate::message::spec_parse;
use crate::message::MalformedFrame;
use crate::message::Message;
use crate::message::DELIMITER;
use crate::registry::distinct_ids;
use crate::registry::is_registered;
use crate::registry::lemma_deliver_reaches_others_only;
use crate::registry::outbox_of;
use crate::registry::spec_deliver;
use crate::registry::spec_others;
use crate::registry::ClientId;
use crate::registry::ClientState;
use crate::registry::Registry;
use crate::text::is_blank;
use crate::text::lemma_empty_is_blank;
use crate::text::spec_is_blank;

verus! {

/// What became of a well-formed payload.
#[derive(Debug)]
pub enum Outcome {
    /// The payload was queued for `recipients` clients. `message` is what it
    /// carried, for the caller's records.
    Relayed { message: Message, recipients: usize },
    /// The payload carried nothing to relay and was dropped.
    Discarded,
}

/// Whether a message is passed on: its tag is not empty, and its body,
/// read as text, is not blank.
pub open spec fn is_relayable(tag: Seq<u8>, body: Seq<u8>) -> bool {
    tag.len() > 0 && !spec_is_blank(body)
}

/// The registry after `sender` sent `payload`: where the payload carries a
/// relayable message, its unchanged bytes, framed, are queued for every
/// other client; else nothing changes.
pub open spec fn spec_broadcast(s: Seq<ClientState>, sender: ClientId, payload: Seq<u8>) -> Seq<
    ClientState,
> {
    match spec_parse(payload) {
        Some((tag, body)) => if is_relayable(tag, body) {
            spec_deliver(s, sender, spec_encode(payload))
        } else {
            s
        },
        None => s,
    }
}

/// Relays one payload from `sender`.
///
/// A payload without a delimiter byte is an error, and nothing is queued. A
/// message with an empty tag or a blank body is dropped without an error.
/// Any other payload is framed as it came and queued for every registered
/// client but `sender`.
pub fn broadcast(registry: &mut Registry, sender: ClientId, payload: &[u8]) -> (r: Result<
    Outcome,
    MalformedFrame,
>)
    requires
        old(registry).wf(),
        payload@.len() <= MAX_PAYLOAD_LEN,
    ensures
        final(registry).wf(),
        final(registry)@ == spec_broadcast(old(registry)@, sender, payload@),
        match r {
            Err(_) => spec_parse(payload@) is None,
            Ok(Outcome::Discarded) => spec_parse(payload@) matches Some((tag, body))
                && !is_relayable(tag, body),
            Ok(Outcome::Relayed { message, recipients }) => spec_parse(payload@) matches Some(
                (tag, body),
            ) && is_relayable(tag, body) && message.sender_tag@ == tag && message.body@ == body
                && recipients == spec_others(old(registry)@, sender).len(),
        },
{
    let message: Message = match parse(payload) {
        Ok(m) => m,
        Err(e) => {
            return Err(e);
        },
    };
    if message.sender_tag.len() == 0 || is_blank(message.body.as_slice()) {
        return Ok(Outcome::Discarded);
    }
    let wire: Vec<u8> = encode(payload);
    let recipients: usize = registry.deliver_to_others(sender, wire.as_slice());
    Ok(Outcome::Relayed { message, recipients })
}

/// Empty-body suppression: a payload whose body is blank is queued for
/// nobody.
pub proof fn lemma_blank_body_is_suppressed(
    s: Seq<ClientState>,
    sender: ClientId,
    payload: Seq<u8>,
)
    requires
        spec_parse(payload) matches Some((tag, body)) && spec_is_blank(body),
    ensures
        spec_broadcast(s, sender, payload) == s,
{
}

/// A payload made of a tag and an empty body is queued for nobody.
pub proof fn lemma_empty_body_is_suppressed(s: Seq<ClientState>, sender: ClientId, tag: Seq<u8>)
    requires
        !tag.contains(DELIMITER),
    ensures
        spec_broadcast(s, sender, spec_compose(tag, Seq::empty())) == s,
{
    lemma_parse_composed(tag, Seq::empty());
    lemma_empty_is_blank();
}

/// A payload without a delimiter byte is queued for nobody.
pub proof fn lemma_malformed_is_not_relayed(s: Seq<ClientState>, sender: ClientId, payload: Seq<u8>)
    requires
        !payload.contains(DELIMITER),
    ensures
        spec_broadcast(s, sender, payload) == s,
{
    crate::message::lemma_malformed_iff_no_delimiter(payload);
}

/// No self-delivery: whatever a client sends, its own queue stays as it
/// was and nobody's registration changes; and a relayable payload arrives,
/// framed and otherwise unchanged, at the end of the queue of every other
/// registered client.
pub proof fn lemma_no_self_delivery(
    s: Seq<ClientState>,
    sender: ClientId,
    payload: Seq<u8>,
    id: ClientId,
)
    requires
        distinct_ids(s),
    ensures
        distinct_ids(spec_broadcast(s, sender, payload)),
        is_registered(spec_broadcast(s, sender, payload), id) == is_registered(s, id),
        outbox_of(spec_broadcast(s, sender, payload), sender) == outbox_of(s, sender),
        is_registered(s, id) && id != sender ==> outbox_of(spec_broadcast(s, sender, payload), id)
            == if spec_parse(payload) matches Some((tag, body)) && is_relayable(tag, body) {
            outbox_of(s, id) + spec_encode(payload)
        } else {
            outbox_of(s, id)
        },
{
    lemma_deliver_reaches_others_only(s, sender, spec_encode(payload), id);
}

} // verus!
