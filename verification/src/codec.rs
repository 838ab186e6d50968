//! Wire message model and codec.
//!
//! One datagram carries one message. All numeric fields are fixed-width
//! unsigned integers in network byte order; body elements are tagged so
//! the set of variants can grow without breaking old decoders. Decoding
//! is strict: a buffer decodes successfully exactly when it is the
//! encoding of some message, so `decode` inverts `encode`.

use vstd::prelude::*;

verus! {

/// Opaque player-input payload carried by a client message.
#[derive(Debug, PartialEq, Eq)]
pub struct PlayerInput {
    pub data: Vec<u8>,
}

impl View for PlayerInput {
    type V = Seq<u8>;

    open spec fn view(&self) -> Seq<u8> {
        self.data@
    }
}

/// Opaque terrain snapshot carried by a server message.
#[derive(Debug, PartialEq, Eq)]
pub struct Terrain {
    pub data: Vec<u8>,
}

impl View for Terrain {
    type V = Seq<u8>;

    open spec fn view(&self) -> Seq<u8> {
        self.data@
    }
}

/// One payload unit of a client-to-server message.
#[derive(Debug, PartialEq, Eq)]
pub enum ClientBodyElem {
    Ping,
    Input(PlayerInput),
}

/// Mathematical model of a `ClientBodyElem`.
pub enum ClientBodyView {
    Ping,
    Input(Seq<u8>),
}

impl View for ClientBodyElem {
    type V = ClientBodyView;

    open spec fn view(&self) -> ClientBodyView {
        match self {
            ClientBodyElem::Ping => ClientBodyView::Ping,
            ClientBodyElem::Input(p) => ClientBodyView::Input(p@),
        }
    }
}

/// One payload unit of a server-to-client message.
#[derive(Debug, PartialEq, Eq)]
pub enum ServerBodyElem {
    Pong(u64),
    Terrain(Terrain),
}

/// Mathematical model of a `ServerBodyElem`.
pub enum ServerBodyView {
    Pong(u64),
    Terrain(Seq<u8>),
}

impl View for ServerBodyElem {
    type V = ServerBodyView;

    open spec fn view(&self) -> ServerBodyView {
        match self {
            ServerBodyElem::Pong(seq) => ServerBodyView::Pong(*seq),
            ServerBodyElem::Terrain(t) => ServerBodyView::Terrain(t@),
        }
    }
}

/// Header of a client-to-server message.
#[derive(Debug, PartialEq, Eq, Clone, Copy)]
pub struct ClientHeader {
    /// The sender's current sequence number.
    pub current_sequence: u64,
    /// The highest server sequence number the sender has received.
    pub last_received_sequence: u64,
}

/// Header of a server-to-client message.
#[derive(Debug, PartialEq, Eq, Clone, Copy)]
pub struct ServerHeader {
    /// The server's current sequence number.
    pub sequence: u64,
}

/// A message from a client to the server.
#[derive(Debug, PartialEq, Eq)]
pub struct ClientToServer {
    pub header: ClientHeader,
    pub bodies: Vec<ClientBodyElem>,
}

/// Mathematical model of a `ClientToServer` message.
#[verifier::ext_equal]
pub struct ClientToServerView {
    pub current_sequence: u64,
    pub last_received_sequence: u64,
    pub bodies: Seq<ClientBodyView>,
}

/// The views of a sequence of client body elements.
pub open spec fn client_bodies_view(s: Seq<ClientBodyElem>) -> Seq<ClientBodyView> {
    s.map_values(|b: ClientBodyElem| b@)
}

/// The views of a sequence of server body elements.
pub open spec fn server_bodies_view(s: Seq<ServerBodyElem>) -> Seq<ServerBodyView> {
    s.map_values(|b: ServerBodyElem| b@)
}

impl View for ClientToServer {
    type V = ClientToServerView;

    open spec fn view(&self) -> ClientToServerView {
        ClientToServerView {
            current_sequence: self.header.current_sequence,
            last_received_sequence: self.header.last_received_sequence,
            bodies: client_bodies_view(self.bodies@),
        }
    }
}

/// A message from the server to a client.
#[derive(Debug, PartialEq, Eq)]
pub struct ServerToClient {
    pub header: ServerHeader,
    pub bodies: Vec<ServerBodyElem>,
}

/// Mathematical model of a `ServerToClient` message.
#[verifier::ext_equal]
pub struct ServerToClientView {
    pub sequence: u64,
    pub bodies: Seq<ServerBodyView>,
}

impl View for ServerToClient {
    type V = ServerToClientView;

    open spec fn view(&self) -> ServerToClientView {
        ServerToClientView {
            sequence: self.header.sequence,
            bodies: server_bodies_view(self.bodies@),
        }
    }
}

/// A buffer did not parse as a message.
#[derive(Debug, PartialEq, Eq, Structural, Clone, Copy)]
pub struct DecodeError;

/// The eight bytes of `v` in network byte order, most significant first.
pub open spec fn spec_u64_bytes(v: u64) -> Seq<u8> {
    seq![
        (v >> 56) as u8,
        (v >> 48) as u8,
        (v >> 40) as u8,
        (v >> 32) as u8,
        (v >> 24) as u8,
        (v >> 16) as u8,
        (v >> 8) as u8,
        v as u8,
    ]
}

/// The value read from eight bytes in network byte order.
pub open spec fn spec_u64_from_bytes(s: Seq<u8>) -> u64
    recommends
        s.len() == 8,
{
    (((s[0] as u64) << 56) | ((s[1] as u64) << 48) | ((s[2] as u64) << 40) | ((s[3] as u64) << 32)
        | ((s[4] as u64) << 24) | ((s[5] as u64) << 16) | ((s[6] as u64) << 8) | (s[7] as u64)) as u64
}

/// Reading back the network-byte-order encoding of `v` yields `v`.
proof fn lemma_u64_bytes_inverse(v: u64)
    ensures
        spec_u64_from_bytes(spec_u64_bytes(v)) == v,
{
    assert((((((v >> 56) as u8) as u64) << 56) | ((((v >> 48) as u8) as u64) << 48)
        | ((((v >> 40) as u8) as u64) << 40) | ((((v >> 32) as u8) as u64) << 32)
        | ((((v >> 24) as u8) as u64) << 24) | ((((v >> 16) as u8) as u64) << 16)
        | ((((v >> 8) as u8) as u64) << 8) | ((v as u8) as u64)) as u64 == v) by (bit_vector);
}

/// Append the network-byte-order encoding of `v`.
fn push_u64(out: &mut Vec<u8>, v: u64)
    ensures
        final(out)@ == old(out)@ + spec_u64_bytes(v),
{
    out.push(#[verifier::truncate] ((v >> 56) as u8));
    out.push(#[verifier::truncate] ((v >> 48) as u8));
    out.push(#[verifier::truncate] ((v >> 40) as u8));
    out.push(#[verifier::truncate] ((v >> 32) as u8));
    out.push(#[verifier::truncate] ((v >> 24) as u8));
    out.push(#[verifier::truncate] ((v >> 16) as u8));
    out.push(#[verifier::truncate] ((v >> 8) as u8));
    out.push(#[verifier::truncate] (v as u8));
    proof {
        assert(out@ =~= old(out)@ + spec_u64_bytes(v));
    }
}

/// Read a network-byte-order integer from `b` at offset `i`.
fn read_u64(b: &[u8], i: usize) -> (v: u64)
    requires
        i + 8 <= b@.len(),
    ensures
        v == spec_u64_from_bytes(b@.subrange(i as int, i as int + 8)),
{
    let v: u64 = ((b[i] as u64) << 56) | ((b[i + 1] as u64) << 48) | ((b[i + 2] as u64) << 40)
        | ((b[i + 3] as u64) << 32) | ((b[i + 4] as u64) << 24) | ((b[i + 5] as u64) << 16)
        | ((b[i + 6] as u64) << 8) | (b[i + 7] as u64);
    proof {
        let s = b@.subrange(i as int, i as int + 8);
        assert(s[0] == b@[i as int]);
        assert(s[1] == b@[i as int + 1]);
        assert(s[2] == b@[i as int + 2]);
        assert(s[3] == b@[i as int + 3]);
        assert(s[4] == b@[i as int + 4]);
        assert(s[5] == b@[i as int + 5]);
        assert(s[6] == b@[i as int + 6]);
        assert(s[7] == b@[i as int + 7]);
    }
    v
}

/// Copy all of `data` onto the end of `out`.
fn push_bytes(out: &mut Vec<u8>, data: &Vec<u8>)
    ensures
        final(out)@ == old(out)@ + data@,
{
    let mut i: usize = 0;
    while i < data.len()
        invariant
            i <= data@.len(),
            out@ == old(out)@ + data@.take(i as int),
        decreases data@.len() - i,
    {
        out.push(data[i]);
        proof {
            assert(out@ =~= old(out)@ + data@.take(i as int + 1));
        }
        i = i + 1;
    }
    proof {
        assert(data@.take(data@.len() as int) =~= data@);
    }
}

/// Tag byte that introduces a `Ping` or a `Pong` on the wire.
pub const TAG_KEEPALIVE: u8 = 0;

/// Tag byte that introduces an `Input` or a `Terrain` on the wire.
pub const TAG_PAYLOAD: u8 = 1;

/// Whether a body element's payload fits the wire's length field.
pub open spec fn client_body_fits(b: ClientBodyView) -> bool {
    match b {
        ClientBodyView::Ping => true,
        ClientBodyView::Input(data) => data.len() <= u64::MAX,
    }
}

/// Whether a body element's payload fits the wire's length field.
pub open spec fn server_body_fits(b: ServerBodyView) -> bool {
    match b {
        ServerBodyView::Pong(_) => true,
        ServerBodyView::Terrain(data) => data.len() <= u64::MAX,
    }
}

/// Whether a message fits the wire's length and count fields. Every
/// message built from executable values does.
pub open spec fn client_message_fits(m: ClientToServerView) -> bool {
    &&& m.bodies.len() <= u64::MAX
    &&& forall|i: int| 0 <= i < m.bodies.len() ==> client_body_fits(#[trigger] m.bodies[i])
}

/// Whether a message fits the wire's length and count fields. Every
/// message built from executable values does.
pub open spec fn server_message_fits(m: ServerToClientView) -> bool {
    &&& m.bodies.len() <= u64::MAX
    &&& forall|i: int| 0 <= i < m.bodies.len() ==> server_body_fits(#[trigger] m.bodies[i])
}

/// Wire bytes of one client body element: a tag, then any payload,
/// length-prefixed.
pub open spec fn spec_encode_client_body(b: ClientBodyView) -> Seq<u8> {
    match b {
        ClientBodyView::Ping => seq![TAG_KEEPALIVE],
        ClientBodyView::Input(data) => seq![TAG_PAYLOAD] + spec_u64_bytes(data.len() as u64)
            + data,
    }
}

/// Wire bytes of one server body element: a tag, then the payload,
/// length-prefixed where it is not fixed-width.
pub open spec fn spec_encode_server_body(b: ServerBodyView) -> Seq<u8> {
    match b {
        ServerBodyView::Pong(seq) => seq![TAG_KEEPALIVE] + spec_u64_bytes(seq),
        ServerBodyView::Terrain(data) => seq![TAG_PAYLOAD] + spec_u64_bytes(data.len() as u64)
            + data,
    }
}

/// Wire bytes of a sequence of client body elements, in order.
pub open spec fn spec_encode_client_bodies(bs: Seq<ClientBodyView>) -> Seq<u8>
    decreases bs.len(),
{
    if bs.len() == 0 {
        Seq::empty()
    } else {
        spec_encode_client_body(bs[0]) + spec_encode_client_bodies(bs.skip(1))
    }
}

/// Wire bytes of a sequence of server body elements, in order.
pub open spec fn spec_encode_server_bodies(bs: Seq<ServerBodyView>) -> Seq<u8>
    decreases bs.len(),
{
    if bs.len() == 0 {
        Seq::empty()
    } else {
        spec_encode_server_body(bs[0]) + spec_encode_server_bodies(bs.skip(1))
    }
}

/// Wire bytes of a whole client-to-server message: both header fields,
/// the body count, then the bodies.
pub open spec fn spec_encode_client_message(m: ClientToServerView) -> Seq<u8> {
    spec_u64_bytes(m.current_sequence) + spec_u64_bytes(m.last_received_sequence)
        + spec_u64_bytes(m.bodies.len() as u64) + spec_encode_client_bodies(m.bodies)
}

/// Wire bytes of a whole server-to-client message: the header field,
/// the body count, then the bodies.
pub open spec fn spec_encode_server_message(m: ServerToClientView) -> Seq<u8> {
    spec_u64_bytes(m.sequence) + spec_u64_bytes(m.bodies.len() as u64)
        + spec_encode_server_bodies(m.bodies)
}

/// Encoding a sequence of bodies with one more at the end appends that
/// element's bytes.
proof fn lemma_encode_client_bodies_push(bs: Seq<ClientBodyView>, b: ClientBodyView)
    ensures
        spec_encode_client_bodies(bs.push(b)) == spec_encode_client_bodies(bs)
            + spec_encode_client_body(b),
    decreases bs.len(),
{
    reveal_with_fuel(spec_encode_client_bodies, 3);
    if bs.len() == 0 {
        assert(bs.push(b).skip(1) =~= Seq::<ClientBodyView>::empty());
        assert(spec_encode_client_bodies(bs.push(b)) =~= spec_encode_client_bodies(bs)
            + spec_encode_client_body(b));
    } else {
        assert((bs.push(b))[0] == bs[0]);
        assert(bs.push(b).skip(1) =~= bs.skip(1).push(b));
        lemma_encode_client_bodies_push(bs.skip(1), b);
        assert(spec_encode_client_bodies(bs.push(b)) == spec_encode_client_body(bs[0])
            + spec_encode_client_bodies(bs.skip(1).push(b)));
        assert(spec_encode_client_bodies(bs.push(b)) =~= spec_encode_client_bodies(bs)
            + spec_encode_client_body(b));
    }
}

/// Encoding a sequence of bodies with one more at the end appends that
/// element's bytes.
proof fn lemma_encode_server_bodies_push(bs: Seq<ServerBodyView>, b: ServerBodyView)
    ensures
        spec_encode_server_bodies(bs.push(b)) == spec_encode_server_bodies(bs)
            + spec_encode_server_body(b),
    decreases bs.len(),
{
    reveal_with_fuel(spec_encode_server_bodies, 3);
    if bs.len() == 0 {
        assert(bs.push(b).skip(1) =~= Seq::<ServerBodyView>::empty());
        assert(spec_encode_server_bodies(bs.push(b)) =~= spec_encode_server_bodies(bs)
            + spec_encode_server_body(b));
    } else {
        assert((bs.push(b))[0] == bs[0]);
        assert(bs.push(b).skip(1) =~= bs.skip(1).push(b));
        lemma_encode_server_bodies_push(bs.skip(1), b);
        assert(spec_encode_server_bodies(bs.push(b)) == spec_encode_server_body(bs[0])
            + spec_encode_server_bodies(bs.skip(1).push(b)));
        assert(spec_encode_server_bodies(bs.push(b)) =~= spec_encode_server_bodies(bs)
            + spec_encode_server_body(b));
    }
}

/// Parse `n` client body elements from the front of `b`; yields the
/// elements and the unread remainder, or nothing if `b` does not start
/// with `n` well-formed elements.
pub open spec fn spec_decode_client_bodies(b: Seq<u8>, n: nat) -> Option<
    (Seq<ClientBodyView>, Seq<u8>),
>
    decreases n,
{
    if n == 0 {
        Some((Seq::empty(), b))
    } else if b.len() < 1 {
        None
    } else if b[0] == TAG_KEEPALIVE {
        match spec_decode_client_bodies(b.skip(1), (n - 1) as nat) {
            Some(p) => Some((seq![ClientBodyView::Ping] + p.0, p.1)),
            None => None,
        }
    } else if b[0] == TAG_PAYLOAD {
        if b.len() < 9 {
            None
        } else {
            let len = spec_u64_from_bytes(b.subrange(1, 9)) as int;
            if b.len() - 9 < len {
                None
            } else {
                match spec_decode_client_bodies(b.skip(9 + len), (n - 1) as nat) {
                    Some(p) => Some(
                        (seq![ClientBodyView::Input(b.subrange(9, 9 + len))] + p.0, p.1),
                    ),
                    None => None,
                }
            }
        }
    } else {
        None
    }
}

/// Parse `n` server body elements from the front of `b`; yields the
/// elements and the unread remainder, or nothing if `b` does not start
/// with `n` well-formed elements.
pub open spec fn spec_decode_server_bodies(b: Seq<u8>, n: nat) -> Option<
    (Seq<ServerBodyView>, Seq<u8>),
>
    decreases n,
{
    if n == 0 {
        Some((Seq::empty(), b))
    } else if b.len() < 1 {
        None
    } else if b[0] == TAG_KEEPALIVE {
        if b.len() < 9 {
            None
        } else {
            match spec_decode_server_bodies(b.skip(9), (n - 1) as nat) {
                Some(p) => Some(
                    (seq![ServerBodyView::Pong(spec_u64_from_bytes(b.subrange(1, 9)))] + p.0, p.1),
                ),
                None => None,
            }
        }
    } else if b[0] == TAG_PAYLOAD {
        if b.len() < 9 {
            None
        } else {
            let len = spec_u64_from_bytes(b.subrange(1, 9)) as int;
            if b.len() - 9 < len {
                None
            } else {
                match spec_decode_server_bodies(b.skip(9 + len), (n - 1) as nat) {
                    Some(p) => Some(
                        (seq![ServerBodyView::Terrain(b.subrange(9, 9 + len))] + p.0, p.1),
                    ),
                    None => None,
                }
            }
        }
    } else {
        None
    }
}

/// Parse a whole client-to-server message. A buffer parses exactly when
/// it is, byte for byte, the encoding of one message.
pub open spec fn spec_decode_client_message(b: Seq<u8>) -> Option<ClientToServerView> {
    if b.len() < 24 {
        None
    } else {
        let cur = spec_u64_from_bytes(b.subrange(0, 8));
        let lrs = spec_u64_from_bytes(b.subrange(8, 16));
        let n = spec_u64_from_bytes(b.subrange(16, 24));
        match spec_decode_client_bodies(b.skip(24), n as nat) {
            Some(p) => if p.1.len() == 0 {
                Some(
                    ClientToServerView {
                        current_sequence: cur,
                        last_received_sequence: lrs,
                        bodies: p.0,
                    },
                )
            } else {
                None
            },
            None => None,
        }
    }
}

/// Parse a whole server-to-client message. A buffer parses exactly when
/// it is, byte for byte, the encoding of one message.
pub open spec fn spec_decode_server_message(b: Seq<u8>) -> Option<ServerToClientView> {
    if b.len() < 16 {
        None
    } else {
        let seq = spec_u64_from_bytes(b.subrange(0, 8));
        let n = spec_u64_from_bytes(b.subrange(8, 16));
        match spec_decode_server_bodies(b.skip(16), n as nat) {
            Some(p) => if p.1.len() == 0 {
                Some(ServerToClientView { sequence: seq, bodies: p.0 })
            } else {
                None
            },
            None => None,
        }
    }
}

/// Encode a client-to-server message for the wire.
pub fn encode_client_message(m: &ClientToServer) -> (r: Vec<u8>)
    ensures
        r@ == spec_encode_client_message(m@),
{
    let mut out: Vec<u8> = Vec::new();
    push_u64(&mut out, m.header.current_sequence);
    push_u64(&mut out, m.header.last_received_sequence);
    push_u64(&mut out, m.bodies.len() as u64);
    let ghost prefix = out@;
    let mut i: usize = 0;
    while i < m.bodies.len()
        invariant
            i <= m.bodies@.len(),
            m@.bodies == client_bodies_view(m.bodies@),
            m@.bodies.len() == m.bodies@.len(),
            out@ == prefix + spec_encode_client_bodies(m@.bodies.take(i as int)),
        decreases m.bodies@.len() - i,
    {
        let ghost done = m@.bodies.take(i as int);
        match &m.bodies[i] {
            ClientBodyElem::Ping => {
                out.push(TAG_KEEPALIVE);
            },
            ClientBodyElem::Input(p) => {
                out.push(TAG_PAYLOAD);
                push_u64(&mut out, p.data.len() as u64);
                push_bytes(&mut out, &p.data);
            },
        }
        proof {
            lemma_encode_client_bodies_push(done, m@.bodies[i as int]);
            assert(done.push(m@.bodies[i as int]) =~= m@.bodies.take(i as int + 1));
            assert(out@ =~= prefix + spec_encode_client_bodies(m@.bodies.take(i as int + 1)));
        }
        i = i + 1;
    }
    proof {
        assert(m@.bodies.take(m.bodies@.len() as int) =~= m@.bodies);
        assert(out@ =~= spec_encode_client_message(m@));
    }
    out
}

/// Encode a server-to-client message for the wire.
pub fn encode_server_message(m: &ServerToClient) -> (r: Vec<u8>)
    ensures
        r@ == spec_encode_server_message(m@),
{
    let mut out: Vec<u8> = Vec::new();
    push_u64(&mut out, m.header.sequence);
    push_u64(&mut out, m.bodies.len() as u64);
    let ghost prefix = out@;
    let mut i: usize = 0;
    while i < m.bodies.len()
        invariant
            i <= m.bodies@.len(),
            m@.bodies == server_bodies_view(m.bodies@),
            m@.bodies.len() == m.bodies@.len(),
            out@ == prefix + spec_encode_server_bodies(m@.bodies.take(i as int)),
        decreases m.bodies@.len() - i,
    {
        let ghost done = m@.bodies.take(i as int);
        match &m.bodies[i] {
            ServerBodyElem::Pong(seq) => {
                out.push(TAG_KEEPALIVE);
                push_u64(&mut out, *seq);
            },
            ServerBodyElem::Terrain(t) => {
                out.push(TAG_PAYLOAD);
                push_u64(&mut out, t.data.len() as u64);
                push_bytes(&mut out, &t.data);
            },
        }
        proof {
            lemma_encode_server_bodies_push(done, m@.bodies[i as int]);
            assert(done.push(m@.bodies[i as int]) =~= m@.bodies.take(i as int + 1));
            assert(out@ =~= prefix + spec_encode_server_bodies(m@.bodies.take(i as int + 1)));
        }
        i = i + 1;
    }
    proof {
        assert(m@.bodies.take(m.bodies@.len() as int) =~= m@.bodies);
        assert(out@ =~= spec_encode_server_message(m@));
    }
    out
}

/// Parsing the encoding of `bs` followed by `rest` finds exactly `bs`
/// and leaves `rest` unread.
proof fn lemma_decode_encode_client_bodies(bs: Seq<ClientBodyView>, rest: Seq<u8>)
    requires
        forall|i: int| 0 <= i < bs.len() ==> client_body_fits(#[trigger] bs[i]),
    ensures
        spec_decode_client_bodies(spec_encode_client_bodies(bs) + rest, bs.len()) == Some(
            (bs, rest),
        ),
    decreases bs.len(),
{
    reveal_with_fuel(spec_decode_client_bodies, 2);
    let b = spec_encode_client_bodies(bs) + rest;
    if bs.len() == 0 {
        assert(b =~= rest);
    } else {
        match bs[0] {
            ClientBodyView::Ping => {
                assert(b[0] == TAG_KEEPALIVE);
                assert(b.skip(1) =~= spec_encode_client_bodies(bs.skip(1)) + rest);
                lemma_decode_encode_client_bodies(bs.skip(1), rest);
                assert(seq![ClientBodyView::Ping] + bs.skip(1) =~= bs);
            },
            ClientBodyView::Input(data) => {
                let lenb = spec_u64_bytes(data.len() as u64);
                assert(b[0] == TAG_PAYLOAD);
                assert(b.len() >= 9 + data.len());
                assert(b.subrange(1, 9) =~= lenb);
                lemma_u64_bytes_inverse(data.len() as u64);
                let len = spec_u64_from_bytes(b.subrange(1, 9)) as int;
                assert(len == data.len());
                assert(b.subrange(9, 9 + len) =~= data);
                assert(b.skip(9 + len) =~= spec_encode_client_bodies(bs.skip(1)) + rest);
                lemma_decode_encode_client_bodies(bs.skip(1), rest);
                assert(seq![ClientBodyView::Input(data)] + bs.skip(1) =~= bs);
            },
        }
    }
}

/// Parsing the encoding of `bs` followed by `rest` finds exactly `bs`
/// and leaves `rest` unread.
proof fn lemma_decode_encode_server_bodies(bs: Seq<ServerBodyView>, rest: Seq<u8>)
    requires
        forall|i: int| 0 <= i < bs.len() ==> server_body_fits(#[trigger] bs[i]),
    ensures
        spec_decode_server_bodies(spec_encode_server_bodies(bs) + rest, bs.len()) == Some(
            (bs, rest),
        ),
    decreases bs.len(),
{
    reveal_with_fuel(spec_decode_server_bodies, 2);
    let b = spec_encode_server_bodies(bs) + rest;
    if bs.len() == 0 {
        assert(b =~= rest);
    } else {
        match bs[0] {
            ServerBodyView::Pong(seq) => {
                assert(b[0] == TAG_KEEPALIVE);
                assert(b.len() >= 9);
                assert(b.subrange(1, 9) =~= spec_u64_bytes(seq));
                lemma_u64_bytes_inverse(seq);
                assert(b.skip(9) =~= spec_encode_server_bodies(bs.skip(1)) + rest);
                lemma_decode_encode_server_bodies(bs.skip(1), rest);
                assert(seq![ServerBodyView::Pong(seq)] + bs.skip(1) =~= bs);
            },
            ServerBodyView::Terrain(data) => {
                let lenb = spec_u64_bytes(data.len() as u64);
                assert(b[0] == TAG_PAYLOAD);
                assert(b.len() >= 9 + data.len());
                assert(b.subrange(1, 9) =~= lenb);
                lemma_u64_bytes_inverse(data.len() as u64);
                let len = spec_u64_from_bytes(b.subrange(1, 9)) as int;
                assert(len == data.len());
                assert(b.subrange(9, 9 + len) =~= data);
                assert(b.skip(9 + len) =~= spec_encode_server_bodies(bs.skip(1)) + rest);
                lemma_decode_encode_server_bodies(bs.skip(1), rest);
                assert(seq![ServerBodyView::Terrain(data)] + bs.skip(1) =~= bs);
            },
        }
    }
}

/// Parsing state of the body loop: the elements found so far, then
/// whatever `n` elements parse out of the unread remainder.
pub open spec fn client_parse_state(b: Seq<u8>, n: nat, prefix: Seq<ClientBodyView>) -> Option<
    (Seq<ClientBodyView>, Seq<u8>),
> {
    match spec_decode_client_bodies(b, n) {
        Some(p) => Some((prefix + p.0, p.1)),
        None => None,
    }
}

/// Parsing state of the body loop: the elements found so far, then
/// whatever `n` elements parse out of the unread remainder.
pub open spec fn server_parse_state(b: Seq<u8>, n: nat, prefix: Seq<ServerBodyView>) -> Option<
    (Seq<ServerBodyView>, Seq<u8>),
> {
    match spec_decode_server_bodies(b, n) {
        Some(p) => Some((prefix + p.0, p.1)),
        None => None,
    }
}

/// Consuming a leading keepalive tag moves one `Ping` into the prefix.
proof fn lemma_client_parse_ping(b: Seq<u8>, n: nat, prefix: Seq<ClientBodyView>)
    requires
        n > 0,
        b.len() >= 1,
        b[0] == TAG_KEEPALIVE,
    ensures
        client_parse_state(b, n, prefix) == client_parse_state(
            b.skip(1),
            (n - 1) as nat,
            prefix.push(ClientBodyView::Ping),
        ),
{
    match spec_decode_client_bodies(b.skip(1), (n - 1) as nat) {
        Some(p) => {
            assert(prefix + (seq![ClientBodyView::Ping] + p.0) =~= prefix.push(
                ClientBodyView::Ping,
            ) + p.0);
        },
        None => {},
    }
}

/// Consuming a leading payload tag with its length-prefixed bytes moves
/// one `Input` into the prefix.
proof fn lemma_client_parse_input(b: Seq<u8>, n: nat, prefix: Seq<ClientBodyView>)
    requires
        n > 0,
        b.len() >= 9,
        b[0] == TAG_PAYLOAD,
        b.len() - 9 >= spec_u64_from_bytes(b.subrange(1, 9)),
    ensures
        client_parse_state(b, n, prefix) == client_parse_state(
            b.skip(9 + spec_u64_from_bytes(b.subrange(1, 9)) as int),
            (n - 1) as nat,
            prefix.push(
                ClientBodyView::Input(
                    b.subrange(9, 9 + spec_u64_from_bytes(b.subrange(1, 9)) as int),
                ),
            ),
        ),
{
    let len = spec_u64_from_bytes(b.subrange(1, 9)) as int;
    match spec_decode_client_bodies(b.skip(9 + len), (n - 1) as nat) {
        Some(p) => {
            assert(prefix + (seq![ClientBodyView::Input(b.subrange(9, 9 + len))] + p.0)
                =~= prefix.push(ClientBodyView::Input(b.subrange(9, 9 + len))) + p.0);
        },
        None => {},
    }
}

/// Consuming a leading keepalive tag with its sequence number moves one
/// `Pong` into the prefix.
proof fn lemma_server_parse_pong(b: Seq<u8>, n: nat, prefix: Seq<ServerBodyView>)
    requires
        n > 0,
        b.len() >= 9,
        b[0] == TAG_KEEPALIVE,
    ensures
        server_parse_state(b, n, prefix) == server_parse_state(
            b.skip(9),
            (n - 1) as nat,
            prefix.push(ServerBodyView::Pong(spec_u64_from_bytes(b.subrange(1, 9)))),
        ),
{
    let seq = spec_u64_from_bytes(b.subrange(1, 9));
    match spec_decode_server_bodies(b.skip(9), (n - 1) as nat) {
        Some(p) => {
            assert(prefix + (seq![ServerBodyView::Pong(seq)] + p.0) =~= prefix.push(
                ServerBodyView::Pong(seq),
            ) + p.0);
        },
        None => {},
    }
}

/// Consuming a leading payload tag with its length-prefixed bytes moves
/// one `Terrain` into the prefix.
proof fn lemma_server_parse_terrain(b: Seq<u8>, n: nat, prefix: Seq<ServerBodyView>)
    requires
        n > 0,
        b.len() >= 9,
        b[0] == TAG_PAYLOAD,
        b.len() - 9 >= spec_u64_from_bytes(b.subrange(1, 9)),
    ensures
        server_parse_state(b, n, prefix) == server_parse_state(
            b.skip(9 + spec_u64_from_bytes(b.subrange(1, 9)) as int),
            (n - 1) as nat,
            prefix.push(
                ServerBodyView::Terrain(
                    b.subrange(9, 9 + spec_u64_from_bytes(b.subrange(1, 9)) as int),
                ),
            ),
        ),
{
    let len = spec_u64_from_bytes(b.subrange(1, 9)) as int;
    match spec_decode_server_bodies(b.skip(9 + len), (n - 1) as nat) {
        Some(p) => {
            assert(prefix + (seq![ServerBodyView::Terrain(b.subrange(9, 9 + len))] + p.0)
                =~= prefix.push(ServerBodyView::Terrain(b.subrange(9, 9 + len))) + p.0);
        },
        None => {},
    }
}

/// Copy `len` bytes of `b` starting at `start` into a fresh vector.
fn copy_bytes(b: &[u8], start: usize, len: usize) -> (r: Vec<u8>)
    requires
        start + len <= b@.len(),
    ensures
        r@ == b@.subrange(start as int, start as int + len as int),
{
    let total = b.len();
    let mut data: Vec<u8> = Vec::new();
    let mut j: usize = 0;
    while j < len
        invariant
            j <= len,
            start + len <= b@.len(),
            b@.len() == total,
            data@ == b@.subrange(start as int, start as int + j as int),
        decreases len - j,
    {
        data.push(b[start + j]);
        proof {
            assert(data@ =~= b@.subrange(start as int, start as int + j as int + 1));
        }
        j = j + 1;
    }
    data
}

/// Decode a client-to-server message from one datagram's bytes.
/// Succeeds exactly when the buffer is the encoding of a message, and
/// then returns that message; anything else is a `DecodeError`.
pub fn decode_client_message(b: &[u8]) -> (r: Result<ClientToServer, DecodeError>)
    ensures
        match r {
            Ok(m) => spec_decode_client_message(b@) == Some(m@),
            Err(_) => spec_decode_client_message(b@) is None,
        },
{
    if b.len() < 24 {
        return Err(DecodeError);
    }
    let cur = read_u64(b, 0);
    let lrs = read_u64(b, 8);
    let count = read_u64(b, 16);
    let mut bodies: Vec<ClientBodyElem> = Vec::new();
    let mut i: usize = 24;
    let mut k: u64 = 0;
    proof {
        assert(client_bodies_view(bodies@) =~= Seq::<ClientBodyView>::empty());
        match spec_decode_client_bodies(b@.skip(24), count as nat) {
            Some(p) => {
                assert(Seq::<ClientBodyView>::empty() + p.0 =~= p.0);
            },
            None => {},
        }
    }
    while k < count
        invariant
            24 <= i <= b@.len(),
            k <= count,
            cur == spec_u64_from_bytes(b@.subrange(0, 8)),
            lrs == spec_u64_from_bytes(b@.subrange(8, 16)),
            count == spec_u64_from_bytes(b@.subrange(16, 24)),
            spec_decode_client_bodies(b@.skip(24), count as nat) == client_parse_state(
                b@.skip(i as int),
                (count - k) as nat,
                client_bodies_view(bodies@),
            ),
        decreases count - k,
    {
        let ghost prefix = client_bodies_view(bodies@);
        let ghost s = b@.skip(i as int);
        if i == b.len() {
            proof {
                assert(s.len() == 0);
            }
            return Err(DecodeError);
        }
        let tag = b[i];
        proof {
            assert(s[0] == b@[i as int]);
        }
        if tag == TAG_KEEPALIVE {
            proof {
                lemma_client_parse_ping(s, (count - k) as nat, prefix);
                assert(s.skip(1) =~= b@.skip(i as int + 1));
                assert(prefix.push(ClientBodyView::Ping) =~= client_bodies_view(
                    bodies@.push(ClientBodyElem::Ping),
                ));
            }
            bodies.push(ClientBodyElem::Ping);
            i = i + 1;
        } else if tag == TAG_PAYLOAD {
            if b.len() - i < 9 {
                proof {
                    assert(s.len() < 9);
                }
                return Err(DecodeError);
            }
            let len64 = read_u64(b, i + 1);
            proof {
                assert(s.subrange(1, 9) =~= b@.subrange(i as int + 1, i as int + 9));
            }
            if len64 > (b.len() - i - 9) as u64 {
                proof {
                    assert(s.len() - 9 < spec_u64_from_bytes(s.subrange(1, 9)));
                }
                return Err(DecodeError);
            }
            let len = len64 as usize;
            let data = copy_bytes(b, i + 9, len);
            proof {
                lemma_client_parse_input(s, (count - k) as nat, prefix);
                assert(s.skip(9 + len64 as int) =~= b@.skip(i as int + 9 + len64 as int));
                assert(s.subrange(9, 9 + len64 as int) =~= b@.subrange(
                    i as int + 9,
                    i as int + 9 + len64 as int,
                ));
                assert(prefix.push(ClientBodyView::Input(data@)) =~= client_bodies_view(
                    bodies@.push(ClientBodyElem::Input(PlayerInput { data })),
                ));
            }
            bodies.push(ClientBodyElem::Input(PlayerInput { data }));
            i = i + 9 + len;
        } else {
            return Err(DecodeError);
        }
        k = k + 1;
    }
    proof {
        match spec_decode_client_bodies(b@.skip(i as int), 0) {
            Some(p) => {
                assert(client_bodies_view(bodies@) + p.0 =~= client_bodies_view(bodies@));
            },
            None => {},
        }
    }
    if i != b.len() {
        return Err(DecodeError);
    }
    let m = ClientToServer {
        header: ClientHeader { current_sequence: cur, last_received_sequence: lrs },
        bodies,
    };
    proof {
        assert(spec_decode_client_message(b@) == Some(m@));
    }
    Ok(m)
}

/// Decode a server-to-client message from one datagram's bytes.
/// Succeeds exactly when the buffer is the encoding of a message, and
/// then returns that message; anything else is a `DecodeError`.
pub fn decode_server_message(b: &[u8]) -> (r: Result<ServerToClient, DecodeError>)
    ensures
        match r {
            Ok(m) => spec_decode_server_message(b@) == Some(m@),
            Err(_) => spec_decode_server_message(b@) is None,
        },
{
    if b.len() < 16 {
        return Err(DecodeError);
    }
    let seq = read_u64(b, 0);
    let count = read_u64(b, 8);
    let mut bodies: Vec<ServerBodyElem> = Vec::new();
    let mut i: usize = 16;
    let mut k: u64 = 0;
    proof {
        assert(server_bodies_view(bodies@) =~= Seq::<ServerBodyView>::empty());
        match spec_decode_server_bodies(b@.skip(16), count as nat) {
            Some(p) => {
                assert(Seq::<ServerBodyView>::empty() + p.0 =~= p.0);
            },
            None => {},
        }
    }
    while k < count
        invariant
            16 <= i <= b@.len(),
            k <= count,
            seq == spec_u64_from_bytes(b@.subrange(0, 8)),
            count == spec_u64_from_bytes(b@.subrange(8, 16)),
            spec_decode_server_bodies(b@.skip(16), count as nat) == server_parse_state(
                b@.skip(i as int),
                (count - k) as nat,
                server_bodies_view(bodies@),
            ),
        decreases count - k,
    {
        let ghost prefix = server_bodies_view(bodies@);
        let ghost s = b@.skip(i as int);
        if i == b.len() {
            proof {
                assert(s.len() == 0);
            }
            return Err(DecodeError);
        }
        let tag = b[i];
        proof {
            assert(s[0] == b@[i as int]);
        }
        if tag == TAG_KEEPALIVE {
            if b.len() - i < 9 {
                proof {
                    assert(s.len() < 9);
                }
                return Err(DecodeError);
            }
            let pong = read_u64(b, i + 1);
            proof {
                assert(s.subrange(1, 9) =~= b@.subrange(i as int + 1, i as int + 9));
                lemma_server_parse_pong(s, (count - k) as nat, prefix);
                assert(s.skip(9) =~= b@.skip(i as int + 9));
                assert(prefix.push(ServerBodyView::Pong(pong)) =~= server_bodies_view(
                    bodies@.push(ServerBodyElem::Pong(pong)),
                ));
            }
            bodies.push(ServerBodyElem::Pong(pong));
            i = i + 9;
        } else if tag == TAG_PAYLOAD {
            if b.len() - i < 9 {
                proof {
                    assert(s.len() < 9);
                }
                return Err(DecodeError);
            }
            let len64 = read_u64(b, i + 1);
            proof {
                assert(s.subrange(1, 9) =~= b@.subrange(i as int + 1, i as int + 9));
            }
            if len64 > (b.len() - i - 9) as u64 {
                proof {
                    assert(s.len() - 9 < spec_u64_from_bytes(s.subrange(1, 9)));
                }
                return Err(DecodeError);
            }
            let len = len64 as usize;
            let data = copy_bytes(b, i + 9, len);
            proof {
                lemma_server_parse_terrain(s, (count - k) as nat, prefix);
                assert(s.skip(9 + len64 as int) =~= b@.skip(i as int + 9 + len64 as int));
                assert(s.subrange(9, 9 + len64 as int) =~= b@.subrange(
                    i as int + 9,
                    i as int + 9 + len64 as int,
                ));
                assert(prefix.push(ServerBodyView::Terrain(data@)) =~= server_bodies_view(
                    bodies@.push(ServerBodyElem::Terrain(Terrain { data })),
                ));
            }
            bodies.push(ServerBodyElem::Terrain(Terrain { data }));
            i = i + 9 + len;
        } else {
            return Err(DecodeError);
        }
        k = k + 1;
    }
    proof {
        match spec_decode_server_bodies(b@.skip(i as int), 0) {
            Some(p) => {
                assert(server_bodies_view(bodies@) + p.0 =~= server_bodies_view(bodies@));
            },
            None => {},
        }
    }
    if i != b.len() {
        return Err(DecodeError);
    }
    let m = ServerToClient { header: ServerHeader { sequence: seq }, bodies };
    proof {
        assert(spec_decode_server_message(b@) == Some(m@));
    }
    Ok(m)
}

/// Round trip: every client-to-server message that fits the wire's
/// count and length fields decodes from its own encoding, unchanged.
pub proof fn lemma_round_trip_client(m: ClientToServerView)
    requires
        client_message_fits(m),
    ensures
        spec_decode_client_message(spec_encode_client_message(m)) == Some(m),
{
    let b = spec_encode_client_message(m);
    assert(b.len() >= 24);
    assert(b.subrange(0, 8) =~= spec_u64_bytes(m.current_sequence));
    assert(b.subrange(8, 16) =~= spec_u64_bytes(m.last_received_sequence));
    assert(b.subrange(16, 24) =~= spec_u64_bytes(m.bodies.len() as u64));
    lemma_u64_bytes_inverse(m.current_sequence);
    lemma_u64_bytes_inverse(m.last_received_sequence);
    lemma_u64_bytes_inverse(m.bodies.len() as u64);
    assert(b.skip(24) =~= spec_encode_client_bodies(m.bodies) + Seq::<u8>::empty());
    lemma_decode_encode_client_bodies(m.bodies, Seq::empty());
    assert(spec_decode_client_message(b) == Some(m));
}

/// Round trip: every server-to-client message that fits the wire's
/// count and length fields decodes from its own encoding, unchanged.
pub proof fn lemma_round_trip_server(m: ServerToClientView)
    requires
        server_message_fits(m),
    ensures
        spec_decode_server_message(spec_encode_server_message(m)) == Some(m),
{
    let b = spec_encode_server_message(m);
    assert(b.len() >= 16);
    assert(b.subrange(0, 8) =~= spec_u64_bytes(m.sequence));
    assert(b.subrange(8, 16) =~= spec_u64_bytes(m.bodies.len() as u64));
    lemma_u64_bytes_inverse(m.sequence);
    lemma_u64_bytes_inverse(m.bodies.len() as u64);
    assert(b.skip(16) =~= spec_encode_server_bodies(m.bodies) + Seq::<u8>::empty());
    lemma_decode_encode_server_bodies(m.bodies, Seq::empty());
    assert(spec_decode_server_message(b) == Some(m));
}

} // verus!
