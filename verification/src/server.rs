//! The server: session registry, tick entry points and the reaper.
//!
//! The registry maps transport addresses to sessions, keys unique,
//! size bounded by a fixed maximum. A datagram from an unseen address
//! admits a new session only under capacity; the excess is rejected.
//! Each network tick the caller enqueues the terrain snapshot, flushes
//! one packet per session, and runs the reaper, which counts every
//! session down and evicts the ones that have gone silent too long.
//! All socket work stays with the caller: inbound bytes come in
//! through [`Server::handle_datagram`], outbound packets leave as
//! `(address, bytes)` pairs.

use vstd::prelude::*;

use crate::FRAME_DIFFERENCE_BEFORE_DISCONNECT;
use crate::GAME_TICK_HZ;
use crate::codec::PlayerInput;
use crate::codec::ServerBodyElem;
use crate::codec::ServerBodyView;
use crate::codec::ServerHeader;
use crate::codec::ServerToClient;
use crate::codec::ServerToClientView;
use crate::codec::Terrain;
use crate::codec::decode_client_message;
use crate::codec::encode_server_message;
use crate::codec::server_bodies_view;
use crate::codec::spec_decode_client_message;
use crate::codec::spec_encode_server_message;
use crate::session::ClientInfo;
use crate::session::SessionView;
use crate::session::clone_server_body;
use crate::session::clone_terrain;
use crate::session::compute_new_bodies;
use crate::session::spec_after_send;
use crate::session::spec_apply_message;
use crate::session::spec_last_input;
use crate::session::spec_new_session;

verus! {

/// Why an inbound datagram was rejected. Transport-level conditions
/// (an empty receive queue, an I/O fault) never reach the library and
/// stay with the caller that owns the socket.
#[derive(Debug, PartialEq, Eq, Structural, Clone, Copy)]
pub enum ReceiveError {
    /// The datagram is not the encoding of a client message; it is
    /// discarded and no session is created or touched.
    DecodeError,
    /// The sender is unknown and the registry is full; no session is
    /// created or touched.
    CapacityExceeded,
}

/// Why an outbound packet could not be prepared.
#[derive(Debug, PartialEq, Eq, Structural, Clone, Copy)]
pub enum SendError {
    /// The address is not a known session; the server never sends to
    /// unknown peers.
    NoSuchPeer,
}

/// The whole server: the session registry, the global sequence
/// counter, and the capacity bound.
#[derive(Debug)]
pub struct Server {
    /// The sessions, at most `max_clients` of them, addresses unique.
    pub clients: Vec<ClientInfo>,
    /// The current sequence/tick number.
    pub sequence: u64,
    /// The most sessions the registry will hold at once.
    pub max_clients: usize,
}

/// The models of a sequence of sessions.
pub open spec fn sessions_of(s: Seq<ClientInfo>) -> Seq<SessionView> {
    s.map_values(|c: ClientInfo| c@)
}

/// One reaper step on one session: count it down by the game ticks
/// that pass in one network tick.
pub open spec fn spec_tick_down(c: SessionView) -> SessionView {
    SessionView {
        until_drop: if c.until_drop >= GAME_TICK_HZ {
            (c.until_drop - GAME_TICK_HZ) as u64
        } else {
            0
        },
        ..c
    }
}

/// Whether a session survives one reaper run: after counting down it
/// must still have one more full step left.
pub open spec fn spec_keep_session(c: SessionView) -> bool {
    c.until_drop >= 2 * GAME_TICK_HZ
}

/// The registry after one reaper run: every surviving session counted
/// down, the rest evicted, order kept.
pub open spec fn spec_reaped(s: Seq<SessionView>) -> Seq<SessionView>
    decreases s.len(),
{
    if s.len() == 0 {
        Seq::empty()
    } else {
        spec_reaped(s.drop_last()) + (if spec_keep_session(s.last()) {
            seq![spec_tick_down(s.last())]
        } else {
            Seq::empty()
        })
    }
}

/// The reaper never grows the registry.
proof fn lemma_reaped_len(s: Seq<SessionView>)
    ensures
        spec_reaped(s).len() <= s.len(),
    decreases s.len(),
{
    if s.len() == 0 {
    } else {
        lemma_reaped_len(s.drop_last());
    }
}

/// The session the reaper keeps at position `i` is the counted-down
/// version of a session that was there before the run: this returns
/// that session's old position.
proof fn lemma_reaped_source_at(s: Seq<SessionView>, i: int) -> (j: int)
    requires
        0 <= i < spec_reaped(s).len(),
    ensures
        0 <= j < s.len(),
        spec_keep_session(s[j]),
        spec_reaped(s)[i] == spec_tick_down(s[j]),
    decreases s.len(),
{
    let dl = s.drop_last();
    if i < spec_reaped(dl).len() {
        let j = lemma_reaped_source_at(dl, i);
        assert(s[j] == dl[j]);
        assert(spec_reaped(s)[i] == spec_reaped(dl)[i]);
        j
    } else {
        assert(spec_keep_session(s.last()));
        assert(spec_reaped(s)[i] == spec_tick_down(s[s.len() - 1]));
        s.len() - 1
    }
}

/// The reaper keeps addresses unique.
proof fn lemma_reaped_unique(s: Seq<SessionView>)
    requires
        forall|i: int, j: int| 0 <= i < j < s.len() ==> s[i].addr != s[j].addr,
    ensures
        forall|i: int, j: int|
            0 <= i < j < spec_reaped(s).len() ==> spec_reaped(s)[i].addr != spec_reaped(
                s,
            )[j].addr,
    decreases s.len(),
{
    if s.len() == 0 {
    } else {
        let dl = s.drop_last();
        lemma_reaped_unique(dl);
        assert forall|i: int, j: int|
            0 <= i < j < spec_reaped(s).len() implies spec_reaped(s)[i].addr != spec_reaped(
            s,
        )[j].addr by {
            if j < spec_reaped(dl).len() {
                assert(spec_reaped(s)[i] == spec_reaped(dl)[i]);
                assert(spec_reaped(s)[j] == spec_reaped(dl)[j]);
            } else {
                assert(spec_reaped(s)[i] == spec_reaped(dl)[i]);
                assert(spec_reaped(s)[j] == spec_tick_down(s.last()));
                let w = lemma_reaped_source_at(dl, i);
                assert(s[w] == dl[w]);
                assert(s[w].addr != s[s.len() - 1].addr);
            }
        }
    }
}

/// Timeout eviction: an address is still registered after a reaper
/// run exactly when its session had at least one full step left.
pub proof fn lemma_reaped_membership(s: Seq<SessionView>, addr: u64)
    ensures
        (exists|i: int|
            0 <= i < spec_reaped(s).len() && #[trigger] spec_reaped(s)[i].addr == addr) <==> (
        exists|j: int|
            0 <= j < s.len() && #[trigger] s[j].addr == addr && spec_keep_session(s[j])),
    decreases s.len(),
{
    if s.len() == 0 {
    } else {
        let dl = s.drop_last();
        lemma_reaped_membership(dl, addr);
        if exists|i: int|
            0 <= i < spec_reaped(s).len() && #[trigger] spec_reaped(s)[i].addr == addr {
            let i = choose|i: int|
                0 <= i < spec_reaped(s).len() && #[trigger] spec_reaped(s)[i].addr == addr;
            if i < spec_reaped(dl).len() {
                assert(spec_reaped(dl)[i].addr == addr);
                let j = choose|j: int|
                    0 <= j < dl.len() && #[trigger] dl[j].addr == addr && spec_keep_session(
                        dl[j],
                    );
                assert(s[j].addr == addr && spec_keep_session(s[j]));
            } else {
                assert(spec_reaped(s)[i] == spec_tick_down(s.last()));
                assert(s[s.len() - 1].addr == addr && spec_keep_session(s[s.len() - 1]));
            }
        }
        if exists|j: int|
            0 <= j < s.len() && #[trigger] s[j].addr == addr && spec_keep_session(s[j]) {
            let j = choose|j: int|
                0 <= j < s.len() && #[trigger] s[j].addr == addr && spec_keep_session(s[j]);
            if j < s.len() - 1 {
                assert(dl[j].addr == addr && spec_keep_session(dl[j]));
                let i = choose|i: int|
                    0 <= i < spec_reaped(dl).len() && #[trigger] spec_reaped(dl)[i].addr == addr;
                assert(spec_reaped(s)[i].addr == addr);
            } else {
                assert(spec_keep_session(s.last()));
                assert(spec_reaped(s)[spec_reaped(s).len() - 1] == spec_tick_down(s.last()));
                assert(spec_reaped(s)[spec_reaped(s).len() - 1].addr == addr);
            }
        }
    }
}

/// Whether a session that receives no fresh message survives `k`
/// consecutive reaper runs, starting from this countdown value.
pub open spec fn spec_survives_reaps(until_drop: u64, k: nat) -> bool
    decreases k,
{
    if k == 0 {
        true
    } else if until_drop < 2 * GAME_TICK_HZ {
        false
    } else {
        spec_survives_reaps((until_drop - GAME_TICK_HZ) as u64, (k - 1) as nat)
    }
}

/// A silent session survives `k` reaper runs exactly when its
/// countdown covers them all with one full step to spare.
proof fn lemma_survives_iff(t: u64, k: nat)
    ensures
        spec_survives_reaps(t, k) <==> (k == 0 || t >= (k + 1) * GAME_TICK_HZ),
    decreases k,
{
    if k > 0 && t >= 2 * GAME_TICK_HZ {
        lemma_survives_iff((t - GAME_TICK_HZ) as u64, (k - 1) as nat);
    }
}

/// Timeout eviction: a session with no fresh inbound message is still
/// present after `k` reaper runs exactly while fewer game ticks than
/// its whole starting countdown have elapsed; the run that crosses the
/// countdown evicts it.
pub proof fn lemma_timeout_eviction(k: nat)
    ensures
        spec_survives_reaps(FRAME_DIFFERENCE_BEFORE_DISCONNECT, k) <==> k * GAME_TICK_HZ
            < FRAME_DIFFERENCE_BEFORE_DISCONNECT,
{
    lemma_survives_iff(FRAME_DIFFERENCE_BEFORE_DISCONNECT, k);
}

/// Capacity bound: a well-formed registry never holds more sessions
/// than its configured maximum.
pub proof fn lemma_capacity_bound(s: &Server)
    requires
        s.wf(),
    ensures
        s.sessions().len() <= s.max_clients,
{
}

/// Build one packet for a session — the current sequence number and a
/// copy of its whole queue — and apply the post-send retention: pongs
/// stay until acknowledged, terrain never survives the flush.
fn flush_client(c: &mut ClientInfo, sequence: u64) -> (bytes: Vec<u8>)
    ensures
        bytes@ == spec_encode_server_message(
            ServerToClientView { sequence, bodies: old(c)@.queue },
        ),
        final(c)@ == (SessionView { queue: spec_after_send(old(c)@.queue), ..old(c)@ }),
{
    let ghost queue = server_bodies_view(c.bodies@);
    let mut msg_bodies: Vec<ServerBodyElem> = Vec::new();
    let mut j: usize = 0;
    proof {
        assert(server_bodies_view(msg_bodies@) =~= queue.take(0));
    }
    while j < c.bodies.len()
        invariant
            j <= c.bodies@.len(),
            queue == server_bodies_view(c.bodies@),
            server_bodies_view(msg_bodies@) == queue.take(j as int),
        decreases c.bodies@.len() - j,
    {
        let ghost before = server_bodies_view(msg_bodies@);
        let copy = clone_server_body(&c.bodies[j]);
        msg_bodies.push(copy);
        proof {
            assert(server_bodies_view(msg_bodies@) =~= before + seq![queue[j as int]]);
            assert(server_bodies_view(msg_bodies@) =~= queue.take(j as int + 1));
        }
        j = j + 1;
    }
    proof {
        assert(queue.take(c.bodies@.len() as int) =~= queue);
    }
    let message = ServerToClient { header: ServerHeader { sequence }, bodies: msg_bodies };
    let bytes = encode_server_message(&message);
    proof {
        assert(message@ =~= (ServerToClientView { sequence, bodies: old(c)@.queue }));
    }
    let ghost full = server_bodies_view(c.bodies@);
    let mut kept: Vec<ServerBodyElem> = Vec::new();
    let mut j2: usize = 0;
    proof {
        assert(server_bodies_view(kept@) =~= spec_after_send(full.take(0)));
    }
    while j2 < c.bodies.len()
        invariant
            j2 <= c.bodies@.len(),
            full == server_bodies_view(c.bodies@),
            server_bodies_view(kept@) == spec_after_send(full.take(j2 as int)),
        decreases c.bodies@.len() - j2,
    {
        let ghost before = server_bodies_view(kept@);
        let keep = match &c.bodies[j2] {
            ServerBodyElem::Pong(_) => true,
            ServerBodyElem::Terrain(_) => false,
        };
        if keep {
            let copy = clone_server_body(&c.bodies[j2]);
            kept.push(copy);
            proof {
                assert(server_bodies_view(kept@) =~= before + seq![full[j2 as int]]);
            }
        }
        proof {
            assert(full.take(j2 as int + 1).drop_last() =~= full.take(j2 as int));
            assert(full.take(j2 as int + 1).last() == full[j2 as int]);
            assert(server_bodies_view(kept@) =~= spec_after_send(full.take(j2 as int + 1)));
        }
        j2 = j2 + 1;
    }
    proof {
        assert(full.take(c.bodies@.len() as int) =~= full);
    }
    c.bodies = kept;
    proof {
        assert(c@ =~= (SessionView { queue: spec_after_send(old(c)@.queue), ..old(c)@ }));
    }
    bytes
}

impl Server {
    /// The registry as a sequence of session models.
    pub open spec fn sessions(&self) -> Seq<SessionView> {
        sessions_of(self.clients@)
    }

    /// Registry invariant: size bounded, addresses unique.
    pub open spec fn wf(&self) -> bool {
        &&& self.sessions().len() <= self.max_clients
        &&& forall|i: int, j: int|
            0 <= i < j < self.sessions().len() ==> self.sessions()[i].addr != self.sessions()[
                j
            ].addr
    }

    /// Whether some session has this address.
    pub open spec fn spec_has_client(&self, addr: u64) -> bool {
        exists|i: int| 0 <= i < self.sessions().len() && self.sessions()[i].addr == addr
    }

    /// The index of the session with this address.
    pub open spec fn spec_index_of(&self, addr: u64) -> int {
        choose|i: int| 0 <= i < self.sessions().len() && self.sessions()[i].addr == addr
    }

    /// A fresh server: no sessions, sequence counter started at one.
    pub fn new(max_clients: usize) -> (s: Self)
        ensures
            s.wf(),
            s.sessions().len() == 0,
            s.sequence == 1,
            s.max_clients == max_clients,
    {
        Server { clients: Vec::new(), sequence: 1, max_clients }
    }

    /// Advance the global sequence/tick counter by one.
    pub fn increase_tick(&mut self)
        requires
            old(self).sequence < u64::MAX,
        ensures
            final(self).sequence == old(self).sequence + 1,
            final(self).sessions() == old(self).sessions(),
            final(self).max_clients == old(self).max_clients,
    {
        self.sequence = self.sequence + 1;
    }

    /// Find the session with this address, if any.
    fn find_client(&self, addr: u64) -> (r: Option<usize>)
        ensures
            match r {
                Some(i) => i < self.sessions().len() && self.sessions()[i as int].addr == addr,
                None => !self.spec_has_client(addr),
            },
    {
        let mut i: usize = 0;
        while i < self.clients.len()
            invariant
                i <= self.sessions().len(),
                self.sessions().len() == self.clients@.len(),
                forall|j: int| 0 <= j < i ==> self.sessions()[j].addr != addr,
            decreases self.clients@.len() - i,
        {
            if self.clients[i].addr == addr {
                return Some(i);
            }
            i = i + 1;
        }
        None
    }

    /// Whether this address currently has a session.
    pub fn has_client(&self, addr: u64) -> (r: bool)
        ensures
            r == self.spec_has_client(addr),
    {
        self.find_client(addr).is_some()
    }

    /// Return the index of the session for `addr`, admitting a fresh
    /// one if the address is unseen and the registry is under
    /// capacity. A full registry rejects an unseen address and
    /// mutates nothing.
    pub fn lookup_or_admit(&mut self, addr: u64) -> (r: Result<usize, ReceiveError>)
        requires
            old(self).wf(),
        ensures
            final(self).wf(),
            final(self).sequence == old(self).sequence,
            final(self).max_clients == old(self).max_clients,
            match r {
                Ok(i) => {
                    &&& i < final(self).sessions().len()
                    &&& final(self).sessions()[i as int].addr == addr
                    &&& if old(self).spec_has_client(addr) {
                        final(self).sessions() == old(self).sessions()
                    } else {
                        &&& old(self).sessions().len() < old(self).max_clients
                        &&& i == old(self).sessions().len()
                        &&& final(self).sessions() == old(self).sessions().push(
                            spec_new_session(addr),
                        )
                    }
                },
                Err(e) => {
                    &&& e == ReceiveError::CapacityExceeded
                    &&& !old(self).spec_has_client(addr)
                    &&& old(self).sessions().len() == old(self).max_clients
                    &&& final(self).sessions() == old(self).sessions()
                },
            },
    {
        match self.find_client(addr) {
            Some(i) => Ok(i),
            None => {
                if self.clients.len() == self.max_clients {
                    Err(ReceiveError::CapacityExceeded)
                } else {
                    let i = self.clients.len();
                    self.clients.push(ClientInfo::new(addr));
                    proof {
                        assert(self.sessions() =~= old(self).sessions().push(
                            spec_new_session(addr),
                        ));
                    }
                    Ok(i)
                }
            },
        }
    }

    /// Remove the session with this address, if there is one.
    pub fn remove(&mut self, addr: u64) -> (removed: bool)
        requires
            old(self).wf(),
        ensures
            final(self).wf(),
            final(self).sequence == old(self).sequence,
            final(self).max_clients == old(self).max_clients,
            removed == old(self).spec_has_client(addr),
            !final(self).spec_has_client(addr),
            removed ==> final(self).sessions() == old(self).sessions().remove(
                old(self).spec_index_of(addr),
            ),
            !removed ==> final(self).sessions() == old(self).sessions(),
    {
        match self.find_client(addr) {
            Some(i) => {
                let ghost idx = old(self).spec_index_of(addr);
                proof {
                    assert(old(self).spec_has_client(addr));
                    assert(old(self).sessions()[idx].addr == addr);
                    assert(idx == i as int);
                }
                self.clients.remove(i);
                proof {
                    assert(self.sessions() =~= old(self).sessions().remove(i as int));
                    assert forall|k: int|
                        0 <= k < self.sessions().len()
                            implies self.sessions()[k].addr != addr by {
                        if k < i as int {
                            assert(self.sessions()[k] == old(self).sessions()[k]);
                        } else {
                            assert(self.sessions()[k] == old(self).sessions()[k + 1]);
                        }
                    }
                }
                true
            },
            None => false,
        }
    }

    /// Integrate one received datagram: decode it, admit the sender if
    /// it is new and capacity allows, and run the message through the
    /// sender's session. Returns the message's last input payload, if
    /// any, for the caller's input store. A datagram that does not
    /// decode, or an unseen sender hitting a full registry, changes
    /// nothing.
    pub fn handle_datagram(&mut self, sender: u64, bytes: &[u8]) -> (r: Result<
        Option<PlayerInput>,
        ReceiveError,
    >)
        requires
            old(self).wf(),
        ensures
            final(self).wf(),
            final(self).sequence == old(self).sequence,
            final(self).max_clients == old(self).max_clients,
            match r {
                Ok(input) => {
                    &&& spec_decode_client_message(bytes@) matches Some(m) && ({
                        let updated = if old(self).spec_has_client(sender) {
                            old(self).sessions().update(
                                old(self).spec_index_of(sender),
                                spec_apply_message(
                                    old(self).sessions()[old(self).spec_index_of(sender)],
                                    m,
                                ),
                            )
                        } else {
                            old(self).sessions().push(
                                spec_apply_message(spec_new_session(sender), m),
                            )
                        };
                        &&& final(self).sessions() == updated
                        &&& match input {
                            Some(p) => spec_last_input(m.bodies) == Some(p@),
                            None => spec_last_input(m.bodies) is None,
                        }
                    })
                },
                Err(ReceiveError::DecodeError) => {
                    &&& spec_decode_client_message(bytes@) is None
                    &&& final(self).sessions() == old(self).sessions()
                },
                Err(ReceiveError::CapacityExceeded) => {
                    &&& spec_decode_client_message(bytes@) is Some
                    &&& !old(self).spec_has_client(sender)
                    &&& old(self).sessions().len() == old(self).max_clients
                    &&& final(self).sessions() == old(self).sessions()
                },
            },
    {
        let message = match decode_client_message(bytes) {
            Ok(m) => m,
            Err(_) => {
                return Err(ReceiveError::DecodeError);
            },
        };
        let ghost had = self.spec_has_client(sender);
        let ghost idx = self.spec_index_of(sender);
        let i = match self.lookup_or_admit(sender) {
            Ok(i) => i,
            Err(e) => {
                return Err(e);
            },
        };
        proof {
            if had {
                assert(old(self).sessions()[idx].addr == sender);
                assert(idx == i as int);
            }
        }
        let ghost admitted = self.clients@;
        let mut c = self.clients.remove(i);
        let ghost cpre = c@;
        let input = compute_new_bodies(&mut c, &message);
        self.clients.insert(i, c);
        proof {
            assert(self.clients@ =~= admitted.update(i as int, c));
            assert(sessions_of(admitted) == old(self).sessions().push(spec_new_session(sender))
                || sessions_of(admitted) == old(self).sessions());
            assert(cpre == sessions_of(admitted)[i as int]);
            assert forall|j: int| 0 <= j < self.sessions().len() implies self.sessions()[j] == (
                if j == i as int {
                    c@
                } else {
                    sessions_of(admitted)[j]
                }
            ) by {
                assert(self.clients@[j] == if j == i as int { c } else { admitted[j] });
                assert(self.sessions()[j] == self.clients@[j]@);
                if j != i as int {
                    assert(sessions_of(admitted)[j] == admitted[j]@);
                }
            }
            if had {
                assert(cpre == old(self).sessions()[idx]);
                assert(self.sessions() =~= old(self).sessions().update(
                    idx,
                    spec_apply_message(old(self).sessions()[idx], message@),
                ));
            } else {
                assert(cpre == spec_new_session(sender));
                assert(self.sessions() =~= old(self).sessions().push(
                    spec_apply_message(spec_new_session(sender), message@),
                ));
            }
            assert forall|a: int, b: int|
                0 <= a < b < self.sessions().len()
                    implies self.sessions()[a].addr != self.sessions()[b].addr by {}
        }
        Ok(input)
    }

    /// Append one terrain snapshot to every session's queue; the
    /// terrain goes out with the next flush and never outlives it.
    pub fn enqueue_terrain(&mut self, terrain: &Terrain)
        requires
            old(self).wf(),
        ensures
            final(self).wf(),
            final(self).sequence == old(self).sequence,
            final(self).max_clients == old(self).max_clients,
            final(self).sessions().len() == old(self).sessions().len(),
            forall|i: int|
                0 <= i < old(self).sessions().len() ==> #[trigger] final(self).sessions()[i]
                    == (SessionView {
                    queue: old(self).sessions()[i].queue + seq![
                        ServerBodyView::Terrain(terrain@),
                    ],
                    ..old(self).sessions()[i]
                }),
    {
        let mut i: usize = 0;
        while i < self.clients.len()
            invariant
                i <= self.clients@.len(),
                self.clients@.len() == old(self).clients@.len(),
                self.sequence == old(self).sequence,
                self.max_clients == old(self).max_clients,
                forall|j: int|
                    i <= j < self.sessions().len() ==> #[trigger] self.sessions()[j] == old(
                        self,
                    ).sessions()[j],
                forall|j: int|
                    0 <= j < i ==> #[trigger] self.sessions()[j] == (SessionView {
                        queue: old(self).sessions()[j].queue + seq![
                            ServerBodyView::Terrain(terrain@),
                        ],
                        ..old(self).sessions()[j]
                    }),
            decreases self.clients@.len() - i,
        {
            let ghost prev = self.clients@;
            let ghost prev_sessions = self.sessions();
            let mut c = self.clients.remove(i);
            let ghost before = c@;
            c.bodies.push(ServerBodyElem::Terrain(clone_terrain(terrain)));
            proof {
                assert(c@.queue =~= before.queue + seq![ServerBodyView::Terrain(terrain@)]);
            }
            self.clients.insert(i, c);
            proof {
                assert(self.clients@ =~= prev.update(i as int, c));
                assert(before == prev_sessions[i as int]);
                assert forall|j: int|
                    0 <= j < self.sessions().len() && j != i
                        implies #[trigger] self.sessions()[j] == prev_sessions[j] by {
                    assert(self.clients@[j] == prev[j]);
                }
                assert(self.sessions()[i as int] =~= (SessionView {
                    queue: old(self).sessions()[i as int].queue + seq![
                        ServerBodyView::Terrain(terrain@),
                    ],
                    ..old(self).sessions()[i as int]
                }));
            }
            i = i + 1;
        }
        proof {
            assert(self.wf());
        }
    }

    /// Build, encode and apply the post-send retention for every
    /// session: each gets one packet carrying the current sequence
    /// number and its whole queue, and afterwards only pongs stay
    /// queued — terrain never survives a flush. Returns the encoded
    /// packets as `(address, bytes)` pairs for the caller's socket.
    pub fn send_all_messages(&mut self) -> (out: Vec<(u64, Vec<u8>)>)
        requires
            old(self).wf(),
        ensures
            final(self).wf(),
            final(self).sequence == old(self).sequence,
            final(self).max_clients == old(self).max_clients,
            final(self).sessions().len() == old(self).sessions().len(),
            out@.len() == old(self).sessions().len(),
            forall|i: int|
                0 <= i < old(self).sessions().len() ==> (#[trigger] out@[i]).0 == old(
                    self,
                ).sessions()[i].addr && out@[i].1@ == spec_encode_server_message(
                    ServerToClientView {
                        sequence: old(self).sequence,
                        bodies: old(self).sessions()[i].queue,
                    },
                ),
            forall|i: int|
                0 <= i < old(self).sessions().len() ==> #[trigger] final(self).sessions()[i]
                    == (SessionView {
                    queue: spec_after_send(old(self).sessions()[i].queue),
                    ..old(self).sessions()[i]
                }),
    {
        let mut out: Vec<(u64, Vec<u8>)> = Vec::new();
        let mut i: usize = 0;
        while i < self.clients.len()
            invariant
                i <= self.clients@.len(),
                self.clients@.len() == old(self).clients@.len(),
                self.sequence == old(self).sequence,
                self.max_clients == old(self).max_clients,
                out@.len() == i,
                forall|j: int|
                    i <= j < self.sessions().len() ==> #[trigger] self.sessions()[j] == old(
                        self,
                    ).sessions()[j],
                forall|j: int|
                    0 <= j < i ==> (#[trigger] out@[j]).0 == old(self).sessions()[j].addr
                        && out@[j].1@ == spec_encode_server_message(
                        ServerToClientView {
                            sequence: old(self).sequence,
                            bodies: old(self).sessions()[j].queue,
                        },
                    ),
                forall|j: int|
                    0 <= j < i ==> #[trigger] self.sessions()[j] == (SessionView {
                        queue: spec_after_send(old(self).sessions()[j].queue),
                        ..old(self).sessions()[j]
                    }),
            decreases self.clients@.len() - i,
        {
            let ghost prev = self.clients@;
            let ghost prev_sessions = self.sessions();
            let mut c = self.clients.remove(i);
            let addr = c.addr;
            let bytes = flush_client(&mut c, self.sequence);
            out.push((addr, bytes));
            self.clients.insert(i, c);
            proof {
                assert(self.clients@ =~= prev.update(i as int, c));
                assert(prev_sessions[i as int] == prev[i as int]@);
                assert forall|j: int|
                    0 <= j < self.sessions().len() && j != i
                        implies #[trigger] self.sessions()[j] == prev_sessions[j] by {
                    assert(self.clients@[j] == prev[j]);
                }
                assert(self.sessions()[i as int] == c@);
            }
            i = i + 1;
        }
        proof {
            assert forall|a: int, b: int|
                0 <= a < b < self.sessions().len()
                    implies self.sessions()[a].addr != self.sessions()[b].addr by {
                assert(self.sessions()[a].addr == old(self).sessions()[a].addr);
                assert(self.sessions()[b].addr == old(self).sessions()[b].addr);
            }
        }
        out
    }

    /// Count every session down by one network tick's worth of game
    /// ticks and evict those whose countdown has fallen below one more
    /// such step. Eviction is silent: nothing is sent to the peer.
    pub fn drop_disconnected_clients(&mut self)
        requires
            old(self).wf(),
        ensures
            final(self).wf(),
            final(self).sequence == old(self).sequence,
            final(self).max_clients == old(self).max_clients,
            final(self).sessions() == spec_reaped(old(self).sessions()),
    {
        let ghost all = old(self).sessions();
        let mut i: usize = 0;
        let mut k_counter: Ghost<int> = Ghost(0);
        while i < self.clients.len()
            invariant
                0 <= i <= self.clients@.len(),
                0 <= k_counter@ <= old(self).clients@.len(),
                all == old(self).sessions(),
                self.clients@.len() == i + (old(self).clients@.len() - k_counter@),
                self.sequence == old(self).sequence,
                self.max_clients == old(self).max_clients,
                forall|j: int|
                    i <= j < self.clients@.len() ==> self.clients@[j] == old(self).clients@[j - i
                        + k_counter@],
                self.sessions().take(i as int) == spec_reaped(all.take(k_counter@)),
            decreases self.clients@.len() - i,
        {
            let ghost kk = k_counter@;
            let ghost prev = self.clients@;
            let ghost prev_sessions = self.sessions();
            proof {
                assert(prev[i as int] == old(self).clients@[kk]);
                assert(prev_sessions[i as int] == all[kk]);
                assert(all.take(kk + 1).drop_last() =~= all.take(kk));
                assert(all.take(kk + 1).last() == all[kk]);
            }
            let keep = self.clients[i].until_drop >= 2 * GAME_TICK_HZ;
            if keep {
                let mut c = self.clients.remove(i);
                c.until_drop = c.until_drop - GAME_TICK_HZ;
                self.clients.insert(i, c);
                proof {
                    assert(self.clients@ =~= prev.update(i as int, c));
                    assert(c@ =~= spec_tick_down(all[kk]));
                    assert forall|j: int|
                        0 <= j < self.sessions().len() && j != i
                            implies #[trigger] self.sessions()[j] == prev_sessions[j] by {
                        assert(self.clients@[j] == prev[j]);
                    }
                    assert(self.sessions()[i as int] == c@);
                    assert(self.sessions().take(i as int + 1) =~= spec_reaped(all.take(kk + 1)));
                }
                i = i + 1;
            } else {
                self.clients.remove(i);
                proof {
                    assert(self.clients@ =~= prev.remove(i as int));
                    assert forall|j: int|
                        0 <= j < i implies #[trigger] self.sessions()[j] == prev_sessions[j] by {
                        assert(self.clients@[j] == prev[j]);
                    }
                    assert(self.sessions().take(i as int) =~= prev_sessions.take(i as int));
                    assert(self.sessions().take(i as int) =~= spec_reaped(all.take(kk + 1)));
                }
            }
            k_counter = Ghost(kk + 1);
        }
        proof {
            assert(k_counter@ == old(self).clients@.len());
            assert(all.take(k_counter@) =~= all);
            assert(self.sessions().take(i as int) =~= self.sessions());
            assert(self.sessions() == spec_reaped(old(self).sessions()));
            lemma_reaped_unique(all);
            lemma_reaped_len(all);
            assert(self.wf());
        }
    }

    /// Check the address and encode one message for it. The server
    /// never prepares a packet for an unknown peer.
    pub fn prepare_send(&self, addr: u64, message: &ServerToClient) -> (r: Result<
        Vec<u8>,
        SendError,
    >)
        ensures
            match r {
                Ok(b) => self.spec_has_client(addr) && b@ == spec_encode_server_message(message@),
                Err(e) => e == SendError::NoSuchPeer && !self.spec_has_client(addr),
            },
    {
        match self.find_client(addr) {
            Some(_) => Ok(encode_server_message(message)),
            None => Err(SendError::NoSuchPeer),
        }
    }
}

} // verus!
