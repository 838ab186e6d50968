//! Per-client session state and inbound message processing.
//!
//! A session tracks one remote peer: the highest sequence number the
//! peer has acknowledged, the body elements queued for its next
//! packets, and a countdown until the peer is considered gone. An
//! inbound message is integrated here: a fresh one advances the
//! acknowledgment watermark, supersedes the queue and rearms the
//! countdown; a stale one leaves all three alone. Either way the
//! message's pings are answered with pongs and its last input payload
//! is handed back for the caller's input store.

use vstd::prelude::*;

use crate::FRAME_DIFFERENCE_BEFORE_DISCONNECT;
use crate::codec::ClientBodyElem;
use crate::codec::ClientBodyView;
use crate::codec::ClientToServer;
use crate::codec::ClientToServerView;
use crate::codec::PlayerInput;
use crate::codec::ServerBodyElem;
use crate::codec::ServerBodyView;
use crate::codec::Terrain;
use crate::codec::client_bodies_view;
use crate::codec::server_bodies_view;

verus! {

/// Mathematical model of a session.
#[verifier::ext_equal]
pub struct SessionView {
    pub addr: u64,
    pub last_ack: u64,
    pub queue: Seq<ServerBodyView>,
    pub until_drop: u64,
}

/// Per-client state: the registry key, the acknowledgment watermark,
/// the queued outbound body elements, and the disconnect countdown in
/// game ticks.
#[derive(Debug)]
pub struct ClientInfo {
    /// The transport address this session belongs to; the registry key.
    pub addr: u64,
    /// The highest `last_received_sequence` seen in a fresh message.
    pub last_ack: u64,
    /// Body elements queued for the next packets to this client.
    pub bodies: Vec<ServerBodyElem>,
    /// Remaining game ticks before the session is considered abandoned.
    pub until_drop: u64,
}

impl View for ClientInfo {
    type V = SessionView;

    open spec fn view(&self) -> SessionView {
        SessionView {
            addr: self.addr,
            last_ack: self.last_ack,
            queue: server_bodies_view(self.bodies@),
            until_drop: self.until_drop,
        }
    }
}

/// The session a previously unseen address starts with.
pub open spec fn spec_new_session(addr: u64) -> SessionView {
    SessionView {
        addr,
        last_ack: 0,
        queue: Seq::empty(),
        until_drop: FRAME_DIFFERENCE_BEFORE_DISCONNECT,
    }
}

/// One pong per ping, each echoing the incoming message's sequence
/// number; inputs produce nothing here.
pub open spec fn spec_pongs(bodies: Seq<ClientBodyView>, cur: u64) -> Seq<ServerBodyView>
    decreases bodies.len(),
{
    if bodies.len() == 0 {
        Seq::empty()
    } else {
        spec_pongs(bodies.drop_last(), cur) + (match bodies.last() {
            ClientBodyView::Ping => seq![ServerBodyView::Pong(cur)],
            ClientBodyView::Input(_) => Seq::empty(),
        })
    }
}

/// The payload of the last input element of a message, if any; later
/// writes win.
pub open spec fn spec_last_input(bodies: Seq<ClientBodyView>) -> Option<Seq<u8>>
    decreases bodies.len(),
{
    if bodies.len() == 0 {
        None
    } else {
        match bodies.last() {
            ClientBodyView::Input(data) => Some(data),
            ClientBodyView::Ping => spec_last_input(bodies.drop_last()),
        }
    }
}

/// Whether a queued element survives the acknowledgment-driven filter:
/// a pong only while it answers a ping at or above the watermark,
/// terrain always.
pub open spec fn keep_after_ack(b: ServerBodyView, ack: u64) -> bool {
    match b {
        ServerBodyView::Pong(seq) => seq >= ack,
        ServerBodyView::Terrain(_) => true,
    }
}

/// The queue after the acknowledgment-driven filter, order kept.
pub open spec fn spec_retained(q: Seq<ServerBodyView>, ack: u64) -> Seq<ServerBodyView>
    decreases q.len(),
{
    if q.len() == 0 {
        Seq::empty()
    } else {
        spec_retained(q.drop_last(), ack) + (if keep_after_ack(q.last(), ack) {
            seq![q.last()]
        } else {
            Seq::empty()
        })
    }
}

/// Whether a queued element survives an outbound flush: pongs wait for
/// their acknowledgment, terrain is transient and never carried over.
pub open spec fn keep_after_send(b: ServerBodyView) -> bool {
    b is Pong
}

/// The queue after an outbound flush, order kept.
pub open spec fn spec_after_send(q: Seq<ServerBodyView>) -> Seq<ServerBodyView>
    decreases q.len(),
{
    if q.len() == 0 {
        Seq::empty()
    } else {
        spec_after_send(q.drop_last()) + (if keep_after_send(q.last()) {
            seq![q.last()]
        } else {
            Seq::empty()
        })
    }
}

/// The session after integrating one inbound message. A fresh message
/// (one whose reported last received sequence exceeds the watermark)
/// advances the watermark, supersedes the queue and rearms the
/// disconnect countdown; a stale one changes none of the three. The
/// message's pings are answered either way, and the whole queue then
/// passes the acknowledgment filter.
pub open spec fn spec_apply_message(s: SessionView, m: ClientToServerView) -> SessionView {
    let fresh = m.last_received_sequence > s.last_ack;
    let ack = if fresh {
        m.last_received_sequence
    } else {
        s.last_ack
    };
    SessionView {
        addr: s.addr,
        last_ack: ack,
        queue: spec_retained(
            (if fresh {
                Seq::empty()
            } else {
                s.queue
            }) + spec_pongs(m.bodies, m.current_sequence),
            ack,
        ),
        until_drop: if fresh {
            FRAME_DIFFERENCE_BEFORE_DISCONNECT
        } else {
            s.until_drop
        },
    }
}

/// The session after integrating a whole run of inbound messages, in
/// order.
pub open spec fn spec_session_after(s: SessionView, msgs: Seq<ClientToServerView>) -> SessionView
    decreases msgs.len(),
{
    if msgs.len() == 0 {
        s
    } else {
        spec_apply_message(spec_session_after(s, msgs.drop_last()), msgs.last())
    }
}

/// Whether the `i`-th message of a run arrives fresh: its reported last
/// received sequence exceeds the watermark the session has by then.
pub open spec fn spec_fresh_at(s: SessionView, msgs: Seq<ClientToServerView>, i: int) -> bool
    recommends
        0 <= i < msgs.len(),
{
    msgs[i].last_received_sequence > spec_session_after(s, msgs.take(i)).last_ack
}

/// The acknowledgment watermark after a run of inbound messages:
/// each fresh message raises it to its reported last received
/// sequence, every other message leaves it alone.
pub open spec fn spec_ack_after(ack: u64, msgs: Seq<ClientToServerView>) -> u64
    decreases msgs.len(),
{
    if msgs.len() == 0 {
        ack
    } else {
        let prev = spec_ack_after(ack, msgs.drop_last());
        if msgs.last().last_received_sequence > prev {
            msgs.last().last_received_sequence
        } else {
            prev
        }
    }
}

/// The session model's watermark follows the watermark fold.
proof fn lemma_ack_bridge(s: SessionView, msgs: Seq<ClientToServerView>)
    ensures
        spec_session_after(s, msgs).last_ack == spec_ack_after(s.last_ack, msgs),
    decreases msgs.len(),
{
    if msgs.len() == 0 {
    } else {
        lemma_ack_bridge(s, msgs.drop_last());
    }
}

/// The watermark fold never decreases, and ends at the largest fresh
/// report.
#[verifier::rlimit(50)]
proof fn lemma_ack_after_properties(ack: u64, msgs: Seq<ClientToServerView>)
    ensures
        spec_ack_after(ack, msgs) >= ack,
        forall|i: int|
            0 <= i < msgs.len() ==> spec_ack_after(ack, #[trigger] msgs.take(i)) <= spec_ack_after(
                ack,
                msgs.take(i + 1),
            ),
        forall|i: int|
            0 <= i < msgs.len() ==> #[trigger] msgs[i].last_received_sequence <= spec_ack_after(
                ack,
                msgs,
            ) || msgs[i].last_received_sequence <= spec_ack_after(ack, msgs.take(i)),
        spec_ack_after(ack, msgs) == ack || exists|i: int|
            0 <= i < msgs.len() && #[trigger] msgs[i].last_received_sequence == spec_ack_after(
                ack,
                msgs,
            ) && msgs[i].last_received_sequence > spec_ack_after(ack, msgs.take(i)),
    decreases msgs.len(),
{
    if msgs.len() == 0 {
    } else {
        let pre = msgs.drop_last();
        let prev = spec_ack_after(ack, pre);
        let res = spec_ack_after(ack, msgs);
        lemma_ack_after_properties(ack, pre);
        assert forall|i: int| 0 <= i <= pre.len() implies spec_ack_after(ack, msgs.take(i))
            == spec_ack_after(ack, #[trigger] pre.take(i)) by {
            assert(msgs.take(i) =~= pre.take(i));
        }
        assert(msgs.take(msgs.len() - 1) =~= pre);
        assert(msgs.take(msgs.len() as int) =~= msgs);
        if res != prev {
            assert(msgs[msgs.len() - 1].last_received_sequence == res);
        }
    }
}

/// Freshness monotonicity: over any run of inbound messages the
/// acknowledgment watermark never decreases, and it ends at the
/// largest `last_received_sequence` among the messages that arrived
/// fresh — or where it started, if none did.
pub proof fn lemma_freshness_monotonic(s: SessionView, msgs: Seq<ClientToServerView>)
    ensures
        spec_session_after(s, msgs).last_ack >= s.last_ack,
        forall|i: int|
            0 <= i < msgs.len() ==> spec_session_after(s, #[trigger] msgs.take(i)).last_ack
                <= spec_session_after(s, msgs.take(i + 1)).last_ack,
        forall|i: int|
            0 <= i < msgs.len() && spec_fresh_at(s, msgs, i)
                ==> #[trigger] msgs[i].last_received_sequence <= spec_session_after(
                s,
                msgs,
            ).last_ack,
        spec_session_after(s, msgs).last_ack == s.last_ack || exists|i: int|
            0 <= i < msgs.len() && #[trigger] spec_fresh_at(s, msgs, i)
                && msgs[i].last_received_sequence == spec_session_after(s, msgs).last_ack,
{
    lemma_ack_bridge(s, msgs);
    lemma_ack_after_properties(s.last_ack, msgs);
    assert forall|i: int| 0 <= i <= msgs.len() implies spec_session_after(
        s,
        #[trigger] msgs.take(i),
    ).last_ack == spec_ack_after(s.last_ack, msgs.take(i)) by {
        lemma_ack_bridge(s, msgs.take(i));
    }
    assert(msgs.take(msgs.len() as int) =~= msgs);
    assert forall|i: int|
        0 <= i < msgs.len() && spec_fresh_at(s, msgs, i)
            implies #[trigger] msgs[i].last_received_sequence <= spec_session_after(
        s,
        msgs,
    ).last_ack by {
        assert(msgs[i].last_received_sequence > spec_ack_after(s.last_ack, msgs.take(i)));
    }
    if spec_session_after(s, msgs).last_ack != s.last_ack {
        let w = choose|i: int|
            0 <= i < msgs.len() && #[trigger] msgs[i].last_received_sequence == spec_ack_after(
                s.last_ack,
                msgs,
            ) && msgs[i].last_received_sequence > spec_ack_after(s.last_ack, msgs.take(i));
        assert(spec_fresh_at(s, msgs, w));
    }
}

/// Pong retention: a pong survives the acknowledgment filter exactly
/// when it was queued and answers a ping at or above the watermark.
pub proof fn lemma_pong_retention(q: Seq<ServerBodyView>, ack: u64, seq: u64)
    ensures
        spec_retained(q, ack).contains(ServerBodyView::Pong(seq)) <==> q.contains(
            ServerBodyView::Pong(seq),
        ) && seq >= ack,
    decreases q.len(),
{
    let x = ServerBodyView::Pong(seq);
    if q.len() == 0 {
        assert(!q.contains(x));
        assert(!spec_retained(q, ack).contains(x));
    } else {
        let dl = q.drop_last();
        lemma_pong_retention(dl, ack, seq);
        let r = spec_retained(q, ack);
        let rdl = spec_retained(dl, ack);
        if r.contains(x) {
            let i = choose|i: int| 0 <= i < r.len() && r[i] == x;
            if i < rdl.len() {
                assert(rdl[i] == x);
                assert(rdl.contains(x));
                let j = choose|j: int| 0 <= j < dl.len() && dl[j] == x;
                assert(q[j] == x);
                assert(q.contains(x));
            } else {
                assert(r[i] == q.last());
                assert(keep_after_ack(q.last(), ack));
                assert(q[q.len() - 1] == x);
                assert(q.contains(x));
            }
        }
        if q.contains(x) && seq >= ack {
            let j = choose|j: int| 0 <= j < q.len() && q[j] == x;
            if j < q.len() - 1 {
                assert(dl[j] == x);
                assert(dl.contains(x));
                let i = choose|i: int| 0 <= i < rdl.len() && rdl[i] == x;
                assert(r[i] == x);
                assert(r.contains(x));
            } else {
                assert(q.last() == x);
                assert(keep_after_ack(q.last(), ack));
                assert(r[r.len() - 1] == x);
                assert(r.contains(x));
            }
        }
    }
}

/// After an outbound flush nothing but pongs stays queued: every
/// terrain element is transient and dropped by the flush.
pub proof fn lemma_after_send_only_pongs(q: Seq<ServerBodyView>)
    ensures
        forall|i: int|
            0 <= i < spec_after_send(q).len() ==> (#[trigger] spec_after_send(q)[i]) is Pong,
    decreases q.len(),
{
    if q.len() == 0 {
    } else {
        lemma_after_send_only_pongs(q.drop_last());
    }
}

impl ClientInfo {
    /// A fresh session for a newly seen address.
    pub fn new(addr: u64) -> (c: Self)
        ensures
            c@ == spec_new_session(addr),
    {
        let c = ClientInfo {
            addr,
            last_ack: 0,
            bodies: Vec::new(),
            until_drop: FRAME_DIFFERENCE_BEFORE_DISCONNECT,
        };
        proof {
            assert(c@ =~= spec_new_session(addr));
        }
        c
    }
}

/// Copy a byte vector.
fn clone_bytes(v: &Vec<u8>) -> (r: Vec<u8>)
    ensures
        r@ == v@,
{
    let mut out: Vec<u8> = Vec::new();
    let mut i: usize = 0;
    while i < v.len()
        invariant
            i <= v@.len(),
            out@ == v@.take(i as int),
        decreases v@.len() - i,
    {
        out.push(v[i]);
        proof {
            assert(out@ =~= v@.take(i as int + 1));
        }
        i = i + 1;
    }
    proof {
        assert(v@.take(v@.len() as int) =~= v@);
    }
    out
}

/// Copy an input payload.
pub fn clone_player_input(p: &PlayerInput) -> (r: PlayerInput)
    ensures
        r@ == p@,
{
    PlayerInput { data: clone_bytes(&p.data) }
}

/// Copy a terrain snapshot.
pub fn clone_terrain(t: &Terrain) -> (r: Terrain)
    ensures
        r@ == t@,
{
    Terrain { data: clone_bytes(&t.data) }
}

/// Copy a queued body element.
pub fn clone_server_body(b: &ServerBodyElem) -> (r: ServerBodyElem)
    ensures
        r@ == b@,
{
    match b {
        ServerBodyElem::Pong(seq) => ServerBodyElem::Pong(*seq),
        ServerBodyElem::Terrain(t) => ServerBodyElem::Terrain(
            Terrain { data: clone_bytes(&t.data) },
        ),
    }
}

/// Integrate one inbound message into a session, as
/// [`spec_apply_message`] describes, and return the message's last
/// input payload, if any, for the caller's input store.
///
/// Whether the disconnect countdown should also be rearmed by stale
/// messages is a policy choice; this implementation rearms it only on
/// fresh ones.
pub fn compute_new_bodies(client: &mut ClientInfo, message: &ClientToServer) -> (input: Option<
    PlayerInput,
>)
    ensures
        final(client)@ == spec_apply_message(old(client)@, message@),
        match input {
            Some(p) => spec_last_input(message@.bodies) == Some(p@),
            None => spec_last_input(message@.bodies) is None,
        },
{
    if message.header.last_received_sequence > client.last_ack {
        client.last_ack = message.header.last_received_sequence;
        client.bodies = Vec::new();
        client.until_drop = FRAME_DIFFERENCE_BEFORE_DISCONNECT;
    }
    let ghost base = server_bodies_view(client.bodies@);
    let ghost ack = client.last_ack;
    let ghost ud = client.until_drop;
    let cur = message.header.current_sequence;
    let mut input: Option<PlayerInput> = None;
    let mut i: usize = 0;
    proof {
        assert(base + spec_pongs(message@.bodies.take(0), cur) =~= base);
    }
    while i < message.bodies.len()
        invariant
            i <= message.bodies@.len(),
            message@.bodies == client_bodies_view(message.bodies@),
            cur == message@.current_sequence,
            client.addr == old(client).addr,
            client.last_ack == ack,
            client.until_drop == ud,
            server_bodies_view(client.bodies@) == base + spec_pongs(
                message@.bodies.take(i as int),
                cur,
            ),
            match input {
                Some(p) => spec_last_input(message@.bodies.take(i as int)) == Some(p@),
                None => spec_last_input(message@.bodies.take(i as int)) is None,
            },
        decreases message.bodies@.len() - i,
    {
        let ghost before = server_bodies_view(client.bodies@);
        match &message.bodies[i] {
            ClientBodyElem::Ping => {
                client.bodies.push(ServerBodyElem::Pong(cur));
                proof {
                    assert(server_bodies_view(client.bodies@) =~= before + seq![
                        ServerBodyView::Pong(cur),
                    ]);
                }
            },
            ClientBodyElem::Input(p) => {
                input = Some(clone_player_input(p));
            },
        }
        proof {
            assert(message@.bodies.take(i as int + 1).drop_last() =~= message@.bodies.take(
                i as int,
            ));
            assert(message@.bodies.take(i as int + 1).last() == message@.bodies[i as int]);
            assert(server_bodies_view(client.bodies@) =~= base + spec_pongs(
                message@.bodies.take(i as int + 1),
                cur,
            ));
        }
        i = i + 1;
    }
    proof {
        assert(message@.bodies.take(message.bodies@.len() as int) =~= message@.bodies);
    }
    let ghost full = server_bodies_view(client.bodies@);
    let mut kept: Vec<ServerBodyElem> = Vec::new();
    let mut j: usize = 0;
    proof {
        assert(server_bodies_view(kept@) =~= spec_retained(full.take(0), ack));
    }
    while j < client.bodies.len()
        invariant
            j <= client.bodies@.len(),
            full == server_bodies_view(client.bodies@),
            ack == client.last_ack,
            server_bodies_view(kept@) == spec_retained(full.take(j as int), ack),
        decreases client.bodies@.len() - j,
    {
        let ghost before = server_bodies_view(kept@);
        let keep = match &client.bodies[j] {
            ServerBodyElem::Pong(seq) => *seq >= client.last_ack,
            ServerBodyElem::Terrain(_) => true,
        };
        if keep {
            let copy = clone_server_body(&client.bodies[j]);
            kept.push(copy);
            proof {
                assert(server_bodies_view(kept@) =~= before + seq![full[j as int]]);
            }
        }
        proof {
            assert(full.take(j as int + 1).drop_last() =~= full.take(j as int));
            assert(full.take(j as int + 1).last() == full[j as int]);
            assert(server_bodies_view(kept@) =~= spec_retained(full.take(j as int + 1), ack));
        }
        j = j + 1;
    }
    proof {
        assert(full.take(client.bodies@.len() as int) =~= full);
    }
    client.bodies = kept;
    proof {
        assert(client@ =~= spec_apply_message(old(client)@, message@));
    }
    input
}

} // verus!
