//! The client registry: who is connected, and what is waiting to be written
//! to each of them.

use vstd::prelude::*;

verus! {

/// Identity of one connection: the peer's address and port. It stays the
/// same while the connection lives, and no two connected clients share one.
#[derive(Debug, Clone, Copy, PartialEq, Eq, Hash, Structural)]
pub struct ClientId {
    /// The peer's host address as a number.
    pub host: u128,
    /// The peer's port.
    pub port: u16,
}

/// A client was registered under an identity that is already present.
#[derive(Debug, Clone, Copy, PartialEq, Eq, Structural)]
pub struct AlreadyRegistered;

/// What the registry knows of one client: its identity and the wire bytes
/// that were queued for it and not yet taken for writing.
pub struct ClientState {
    pub id: ClientId,
    pub outbox: Seq<u8>,
}

/// Whether a client is registered under `id`.
pub open spec fn is_registered(s: Seq<ClientState>, id: ClientId) -> bool {
    exists|i: int| 0 <= i < s.len() && (#[trigger] s[i]).id == id
}

/// Whether no two clients share an identity.
pub open spec fn distinct_ids(s: Seq<ClientState>) -> bool {
    forall|i: int, j: int| 0 <= i < j < s.len() ==> (#[trigger] s[i]).id != (#[trigger] s[j]).id
}

/// The bytes queued for the client registered under `id`; empty where there
/// is no such client.
pub open spec fn outbox_of(s: Seq<ClientState>, id: ClientId) -> Seq<u8> {
    if is_registered(s, id) {
        s[choose|i: int| 0 <= i < s.len() && (#[trigger] s[i]).id == id].outbox
    } else {
        Seq::empty()
    }
}

/// The registry after a client joined under `id` with an empty queue.
pub open spec fn spec_register(s: Seq<ClientState>, id: ClientId) -> Seq<ClientState> {
    s.push(ClientState { id, outbox: Seq::empty() })
}

/// The registry without the client under `id`.
pub open spec fn spec_deregister(s: Seq<ClientState>, id: ClientId) -> Seq<ClientState> {
    s.filter(|c: ClientState| c.id != id)
}

/// The identities of all clients but `excluding`, in the order in which
/// they registered.
pub open spec fn spec_others(s: Seq<ClientState>, excluding: ClientId) -> Seq<ClientId> {
    spec_deregister(s, excluding).map_values(|c: ClientState| c.id)
}

/// The registry after `wire` was queued for every client but `sender`.
pub open spec fn spec_deliver(s: Seq<ClientState>, sender: ClientId, wire: Seq<u8>) -> Seq<
    ClientState,
> {
    s.map_values(
        |c: ClientState|
            if c.id == sender {
                c
            } else {
                ClientState { id: c.id, outbox: c.outbox + wire }
            },
    )
}

/// The registry after the queue of the client under `id` was emptied.
pub open spec fn spec_drain(s: Seq<ClientState>, id: ClientId) -> Seq<ClientState> {
    s.map_values(
        |c: ClientState|
            if c.id == id {
                ClientState { id: c.id, outbox: Seq::empty() }
            } else {
                c
            },
    )
}

struct Client {
    id: ClientId,
    outbox: Vec<u8>,
}

impl View for Client {
    type V = ClientState;

    closed spec fn view(&self) -> ClientState {
        ClientState { id: self.id, outbox: self.outbox@ }
    }
}

/// The set of connected clients, each with its outbound queue.
///
/// Its view lists the clients in the order in which they registered.
pub struct Registry {
    clients: Vec<Client>,
}

impl View for Registry {
    type V = Seq<ClientState>;

    closed spec fn view(&self) -> Seq<ClientState> {
        self.clients@.map_values(|c: Client| c@)
    }
}

impl Registry {
    /// What holds of every registry: no two clients share an identity.
    pub open spec fn wf(&self) -> bool {
        distinct_ids(self@)
    }

    /// A registry without clients.
    pub fn new() -> (r: Registry)
        ensures
            r.wf(),
            r@ == Seq::<ClientState>::empty(),
    {
        let r = Registry { clients: Vec::new() };
        assert(r@ =~= Seq::<ClientState>::empty());
        r
    }

    /// Number of registered clients.
    pub fn len(&self) -> (n: usize)
        ensures
            n == self@.len(),
    {
        self.clients.len()
    }

    /// Position of the client under `id`, if it is registered.
    fn position(&self, id: ClientId) -> (r: Option<usize>)
        ensures
            match r {
                Some(i) => i < self@.len() && self@[i as int].id == id,
                None => !is_registered(self@, id),
            },
    {
        let mut i: usize = 0;
        while i < self.clients.len()
            invariant
                i <= self.clients@.len(),
                forall|j: int| 0 <= j < i ==> (#[trigger] self@[j]).id != id,
            decreases self.clients@.len() - i,
        {
            if self.clients[i].id == id {
                return Some(i);
            }
            i += 1;
        }
        None
    }

    /// Whether a client is registered under `id`.
    pub fn contains(&self, id: ClientId) -> (r: bool)
        ensures
            r == is_registered(self@, id),
    {
        self.position(id).is_some()
    }

    /// Adds a client with an empty queue. Fails, and changes nothing, where
    /// the identity is already present.
    pub fn register(&mut self, id: ClientId) -> (r: Result<(), AlreadyRegistered>)
        requires
            old(self).wf(),
        ensures
            final(self).wf(),
            match r {
                Ok(_) => !is_registered(old(self)@, id) && final(self)@ == spec_register(
                    old(self)@,
                    id,
                ),
                Err(_) => is_registered(old(self)@, id) && final(self)@ == old(self)@,
            },
    {
        match self.position(id) {
            Some(_) => Err(AlreadyRegistered),
            None => {
                self.clients.push(Client { id, outbox: Vec::new() });
                assert(self@ =~= spec_register(old(self)@, id));
                Ok(())
            },
        }
    }

    /// Removes the client under `id`, together with what was queued for it.
    /// Where there is no such client nothing changes. Tells whether there
    /// was one.
    pub fn deregister(&mut self, id: ClientId) -> (removed: bool)
        requires
            old(self).wf(),
        ensures
            final(self).wf(),
            final(self)@ == spec_deregister(old(self)@, id),
            removed == is_registered(old(self)@, id),
    {
        match self.position(id) {
            Some(i) => {
                proof {
                    lemma_deregister_at(self@, i as int, id);
                }
                let _ = self.clients.remove(i);
                assert(self@ =~= old(self)@.remove(i as int));
                true
            },
            None => {
                proof {
                    lemma_deregister_absent(self@, id);
                }
                false
            },
        }
    }

    /// The identities of all clients but `excluding`, as they are now, in
    /// the order in which they registered.
    pub fn snapshot_others(&self, excluding: ClientId) -> (others: Vec<ClientId>)
        ensures
            others@ == spec_others(self@, excluding),
    {
        let mut others: Vec<ClientId> = Vec::new();
        let mut i: usize = 0;
        proof {
            lemma_others_empty(excluding);
            assert(self@.subrange(0, 0) =~= Seq::<ClientState>::empty());
        }
        while i < self.clients.len()
            invariant
                i <= self.clients@.len(),
                others@ == spec_others(self@.subrange(0, i as int), excluding),
            decreases self.clients@.len() - i,
        {
            let id: ClientId = self.clients[i].id;
            proof {
                lemma_others_push(self@.subrange(0, i as int), self@[i as int], excluding);
                assert(self@.subrange(0, i as int).push(self@[i as int]) =~= self@.subrange(
                    0,
                    i + 1,
                ));
            }
            if id != excluding {
                others.push(id);
            }
            i += 1;
        }
        proof {
            assert(self@.subrange(0, i as int) =~= self@);
        }
        others
    }

    /// Queues `wire` for every client but `sender`, behind what is already
    /// queued. Returns the number of clients it was queued for.
    pub fn deliver_to_others(&mut self, sender: ClientId, wire: &[u8]) -> (count: usize)
        requires
            old(self).wf(),
        ensures
            final(self).wf(),
            final(self)@ == spec_deliver(old(self)@, sender, wire@),
            count == spec_others(old(self)@, sender).len(),
    {
        let mut count: usize = 0;
        let mut i: usize = 0;
        proof {
            lemma_others_empty(sender);
            assert(self@.subrange(0, 0) =~= Seq::<ClientState>::empty());
        }
        while i < self.clients.len()
            invariant
                i <= self.clients@.len(),
                count <= i,
                self@.len() == old(self)@.len(),
                forall|j: int|
                    0 <= j < i ==> (#[trigger] self@[j]) == spec_deliver(
                        old(self)@,
                        sender,
                        wire@,
                    )[j],
                forall|j: int| i <= j < self@.len() ==> (#[trigger] self@[j]) == old(self)@[j],
                count == spec_others(old(self)@.subrange(0, i as int), sender).len(),
            decreases self.clients@.len() - i,
        {
            let ghost start = old(self)@;
            let ghost pre = self@;
            let ghost target = spec_deliver(start, sender, wire@);
            proof {
                lemma_others_push(start.subrange(0, i as int), start[i as int], sender);
                assert(start.subrange(0, i as int).push(start[i as int]) =~= start.subrange(
                    0,
                    i + 1,
                ));
            }
            assert(pre[i as int] == start[i as int]);
            if self.clients[i].id != sender {
                self.clients[i].outbox.extend_from_slice(wire);
                assert(self@[i as int].outbox =~= pre[i as int].outbox + wire@);
                count += 1;
            }
            assert(self@[i as int] == target[i as int]);
            assert forall|j: int| 0 <= j < i + 1 implies (#[trigger] self@[j]) == target[j] by {
                if j < i {
                    assert(self@[j] == pre[j]);
                }
            }
            assert forall|j: int| i + 1 <= j < self@.len() implies (#[trigger] self@[j])
                == start[j] by {
                assert(self@[j] == pre[j]);
            }
            i += 1;
        }
        proof {
            assert(old(self)@.subrange(0, i as int) =~= old(self)@);
            assert(self@ =~= spec_deliver(old(self)@, sender, wire@));
        }
        count
    }

    /// Takes what is queued for the client under `id`, for the caller to
    /// write to that client, and leaves its queue empty. `None`, and nothing
    /// changes, where no client is registered under `id`.
    pub fn take_outbox(&mut self, id: ClientId) -> (r: Option<Vec<u8>>)
        requires
            old(self).wf(),
        ensures
            final(self).wf(),
            match r {
                Some(bytes) => is_registered(old(self)@, id) && bytes@ == outbox_of(
                    old(self)@,
                    id,
                ) && final(self)@ == spec_drain(old(self)@, id),
                None => !is_registered(old(self)@, id) && final(self)@ == old(self)@,
            },
    {
        match self.position(id) {
            Some(i) => {
                proof {
                    lemma_outbox_at(self@, i as int);
                }
                let mut bytes: Vec<u8> = Vec::new();
                core::mem::swap(&mut bytes, &mut self.clients[i].outbox);
                assert(self@ =~= spec_drain(old(self)@, id));
                Some(bytes)
            },
            None => None,
        }
    }
}

/// Where clients have distinct identities, the queue of the client under an
/// identity is the queue of the one entry that carries it.
pub proof fn lemma_outbox_at(s: Seq<ClientState>, i: int)
    requires
        distinct_ids(s),
        0 <= i < s.len(),
    ensures
        is_registered(s, s[i].id),
        outbox_of(s, s[i].id) == s[i].outbox,
{
    let id = s[i].id;
    let k = choose|k: int| 0 <= k < s.len() && (#[trigger] s[k]).id == id;
    if k < i {
        assert(s[k].id != s[i].id);
    } else if i < k {
        assert(s[i].id != s[k].id);
    }
}

/// Nobody is left of an empty registry.
pub proof fn lemma_others_empty(excluding: ClientId)
    ensures
        spec_deregister(Seq::empty(), excluding) == Seq::<ClientState>::empty(),
        spec_others(Seq::empty(), excluding) == Seq::<ClientId>::empty(),
{
    reveal(Seq::filter);
    assert(spec_others(Seq::empty(), excluding) =~= Seq::<ClientId>::empty());
}

/// Removing an identity from a registry with one more client: the new
/// client stays unless it carries that identity.
pub proof fn lemma_deregister_push(s: Seq<ClientState>, c: ClientState, id: ClientId)
    ensures
        spec_deregister(s.push(c), id) == if c.id == id {
            spec_deregister(s, id)
        } else {
            spec_deregister(s, id).push(c)
        },
{
    reveal(Seq::filter);
    assert(s.push(c).drop_last() =~= s);
}

/// The others of a registry with one more client.
pub proof fn lemma_others_push(s: Seq<ClientState>, c: ClientState, excluding: ClientId)
    ensures
        spec_others(s.push(c), excluding) == if c.id == excluding {
            spec_others(s, excluding)
        } else {
            spec_others(s, excluding).push(c.id)
        },
{
    lemma_deregister_push(s, c, excluding);
    if c.id != excluding {
        assert(spec_others(s.push(c), excluding) =~= spec_others(s, excluding).push(c.id));
    }
}

/// Removing an identity that no client carries changes nothing.
pub proof fn lemma_deregister_absent(s: Seq<ClientState>, id: ClientId)
    requires
        !is_registered(s, id),
    ensures
        spec_deregister(s, id) == s,
    decreases s.len(),
{
    if s.len() == 0 {
        lemma_others_empty(id);
        assert(s =~= Seq::<ClientState>::empty());
    } else {
        let front = s.drop_last();
        assert forall|j: int| 0 <= j < front.len() implies (#[trigger] front[j]).id != id by {
            assert(s[j].id != id);
        }
        lemma_deregister_absent(front, id);
        assert(s.last().id != id);
        lemma_deregister_push(front, s.last(), id);
        assert(front.push(s.last()) =~= s);
    }
}

/// Where clients have distinct identities, removing the identity of the
/// client at `i` removes that one entry and no other.
pub proof fn lemma_deregister_at(s: Seq<ClientState>, i: int, id: ClientId)
    requires
        distinct_ids(s),
        0 <= i < s.len(),
        s[i].id == id,
    ensures
        spec_deregister(s, id) == s.remove(i),
    decreases s.len(),
{
    let front = s.drop_last();
    lemma_deregister_push(front, s.last(), id);
    assert(front.push(s.last()) =~= s);
    if i == s.len() - 1 {
        assert forall|j: int| 0 <= j < front.len() implies (#[trigger] front[j]).id != id by {
            assert(s[j].id != s[i].id);
        }
        lemma_deregister_absent(front, id);
        assert(front =~= s.remove(i));
    } else {
        assert(s[i].id != s[s.len() - 1].id);
        assert(front[i].id == id);
        lemma_deregister_at(front, i, id);
        assert(front.remove(i).push(s.last()) =~= s.remove(i));
    }
}

/// Removing an identity leaves no client under it, keeps the identities
/// distinct, and leaves every other client as it was: still registered or
/// still absent, with the same queue.
pub proof fn lemma_deregister_keeps_others(s: Seq<ClientState>, id: ClientId, other: ClientId)
    requires
        distinct_ids(s),
    ensures
        distinct_ids(spec_deregister(s, id)),
        !is_registered(spec_deregister(s, id), id),
        other != id ==> is_registered(spec_deregister(s, id), other) == is_registered(s, other),
        other != id ==> outbox_of(spec_deregister(s, id), other) == outbox_of(s, other),
{
    let t = spec_deregister(s, id);
    if is_registered(s, id) {
        let i = choose|i: int| 0 <= i < s.len() && (#[trigger] s[i]).id == id;
        lemma_deregister_at(s, i, id);
        assert forall|a: int, b: int| 0 <= a < b < t.len() implies (#[trigger] t[a]).id != (
        #[trigger] t[b]).id by {
            let a0 = if a < i { a } else { a + 1 };
            let b0 = if b < i { b } else { b + 1 };
            assert(t[a] == s[a0] && t[b] == s[b0]);
        }
        assert forall|k: int| 0 <= k < t.len() implies (#[trigger] t[k]).id != id by {
            let k0 = if k < i { k } else { k + 1 };
            assert(t[k] == s[k0]);
            if k0 < i {
                assert(s[k0].id != s[i].id);
            } else {
                assert(s[i].id != s[k0].id);
            }
        }
        if other != id {
            if is_registered(s, other) {
                let k = choose|k: int| 0 <= k < s.len() && (#[trigger] s[k]).id == other;
                let k1 = if k < i { k } else { k - 1 };
                assert(t[k1] == s[k]);
                lemma_outbox_at(s, k);
                lemma_outbox_at(t, k1);
            }
            if is_registered(t, other) {
                let k = choose|k: int| 0 <= k < t.len() && (#[trigger] t[k]).id == other;
                let k0 = if k < i { k } else { k + 1 };
                assert(t[k] == s[k0]);
            }
        }
    } else {
        lemma_deregister_absent(s, id);
    }
}

/// Disconnect cleanup is idempotent: removing an identity a second time
/// changes nothing.
pub proof fn lemma_deregister_idempotent(s: Seq<ClientState>, id: ClientId)
    requires
        distinct_ids(s),
    ensures
        spec_deregister(spec_deregister(s, id), id) == spec_deregister(s, id),
{
    lemma_deregister_keeps_others(s, id, id);
    lemma_deregister_absent(spec_deregister(s, id), id);
}

/// A client that joins is registered with an empty queue, and every other
/// identity is as it was.
pub proof fn lemma_register_adds(s: Seq<ClientState>, id: ClientId, other: ClientId)
    requires
        distinct_ids(s),
        !is_registered(s, id),
    ensures
        distinct_ids(spec_register(s, id)),
        is_registered(spec_register(s, id), id),
        outbox_of(spec_register(s, id), id) == Seq::<u8>::empty(),
        other != id ==> is_registered(spec_register(s, id), other) == is_registered(s, other),
        other != id ==> outbox_of(spec_register(s, id), other) == outbox_of(s, other),
{
    let t = spec_register(s, id);
    let last = s.len() as int;
    assert(t[last].id == id);
    assert forall|a: int, b: int| 0 <= a < b < t.len() implies (#[trigger] t[a]).id != (
    #[trigger] t[b]).id by {
        assert(t[a] == s[a]);
        if b < last {
            assert(t[b] == s[b]);
        }
    }
    lemma_outbox_at(t, last);
    if other != id {
        if is_registered(s, other) {
            let k = choose|k: int| 0 <= k < s.len() && (#[trigger] s[k]).id == other;
            assert(t[k] == s[k]);
            lemma_outbox_at(s, k);
            lemma_outbox_at(t, k);
        }
        if is_registered(t, other) {
            let k = choose|k: int| 0 <= k < t.len() && (#[trigger] t[k]).id == other;
            assert(t[k] == s[k]);
        }
    }
}

/// No self-delivery: a delivery changes nobody's registration, adds the
/// bytes to the queue of every registered client but the sender, and leaves
/// the sender's own queue as it was.
pub proof fn lemma_deliver_reaches_others_only(
    s: Seq<ClientState>,
    sender: ClientId,
    wire: Seq<u8>,
    id: ClientId,
)
    requires
        distinct_ids(s),
    ensures
        distinct_ids(spec_deliver(s, sender, wire)),
        spec_deliver(s, sender, wire).len() == s.len(),
        is_registered(spec_deliver(s, sender, wire), id) == is_registered(s, id),
        outbox_of(spec_deliver(s, sender, wire), sender) == outbox_of(s, sender),
        is_registered(s, id) && id != sender ==> outbox_of(spec_deliver(s, sender, wire), id)
            == outbox_of(s, id) + wire,
{
    let t = spec_deliver(s, sender, wire);
    assert forall|a: int, b: int| 0 <= a < b < t.len() implies (#[trigger] t[a]).id != (
    #[trigger] t[b]).id by {
        assert(t[a].id == s[a].id && t[b].id == s[b].id);
    }
    lemma_deliver_keeps_identity(s, sender, wire, id);
    lemma_deliver_keeps_identity(s, sender, wire, sender);
    if is_registered(s, sender) {
        let k = choose|k: int| 0 <= k < s.len() && (#[trigger] s[k]).id == sender;
        assert(t[k].id == sender);
        lemma_outbox_at(s, k);
        lemma_outbox_at(t, k);
    }
    if is_registered(s, id) && id != sender {
        let k = choose|k: int| 0 <= k < s.len() && (#[trigger] s[k]).id == id;
        assert(t[k].id == id);
        lemma_outbox_at(s, k);
        lemma_outbox_at(t, k);
    }
}

/// A delivery changes nobody's registration.
proof fn lemma_deliver_keeps_identity(
    s: Seq<ClientState>,
    sender: ClientId,
    wire: Seq<u8>,
    id: ClientId,
)
    ensures
        is_registered(spec_deliver(s, sender, wire), id) == is_registered(s, id),
{
    let t = spec_deliver(s, sender, wire);
    if is_registered(s, id) {
        let k = choose|k: int| 0 <= k < s.len() && (#[trigger] s[k]).id == id;
        assert(t[k].id == id);
    }
    if is_registered(t, id) {
        let k = choose|k: int| 0 <= k < t.len() && (#[trigger] t[k]).id == id;
        assert(s[k].id == id);
    }
}

/// With nobody but the sender registered, a delivery changes nothing.
pub proof fn lemma_deliver_to_nobody(s: Seq<ClientState>, sender: ClientId, wire: Seq<u8>)
    requires
        forall|i: int| 0 <= i < s.len() ==> (#[trigger] s[i]).id == sender,
    ensures
        spec_deliver(s, sender, wire) == s,
{
    assert(spec_deliver(s, sender, wire) =~= s);
}

} // verus!
