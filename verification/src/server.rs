//! The server: the registry of sessions, the dispatcher that turns one
//! HTTP request into a response and a list of callbacks for the embedder to
//! run, and the heartbeat pass that pings live sessions and evicts dead
//! ones. Requests and responses are plain values; the embedding HTTP
//! server reads and writes the wire.
use vstd::prelude::*;
use vstd::slice::slice_to_vec;

use crate::config::Config;
use crate::packet::{views, Packet, PacketV, ID};
use crate::socket::{CloseReason, Socket};

verus! {

/// The method of a dispatched request.
#[derive(Copy, Clone, Debug, PartialEq, Eq, Structural)]
pub enum Method {
    Get,
    Post,
    Other,
}

/// One request, reduced to plain values: its method, its query and cookie
/// pairs, and its body.
pub struct HttpRequest {
    pub method: Method,
    pub query: Vec<(String, String)>,
    pub cookies: Vec<(String, String)>,
    pub body: Vec<u8>,
}

/// The content type of a response.
#[derive(Copy, Clone, Debug, PartialEq, Eq, Structural)]
pub enum ContentType {
    Unset,
    Javascript,
    OctetStream,
    Html,
}

/// One response, as plain values the embedder writes out.
pub struct HttpResponse {
    pub status: u16,
    pub body: Vec<u8>,
    pub content_type: ContentType,
    pub set_cookie: Option<(String, String)>,
    pub keep_alive: bool,
}

/// A callback for the embedder to invoke once the response is on its way,
/// in list order.
pub enum Action {
    /// The server-level connection callback, with the new session's id.
    Connection { handler: u64, sid: String },
    /// A session's message callback, with one inbound message.
    Message { handler: u64, data: Vec<u8> },
    /// A session's close callback.
    Close { handler: u64, reason: CloseReason },
    /// A session's flush callback, with the packets just handed out.
    Flush { handler: u64, packets: Vec<Packet> },
}

/// The model of an action.
pub enum ActionV {
    Connection { handler: u64, sid: Seq<char> },
    Message { handler: u64, data: Seq<u8> },
    Close { handler: u64, reason: CloseReason },
    Flush { handler: u64, packets: Seq<PacketV> },
}

impl View for Action {
    type V = ActionV;

    open spec fn view(&self) -> ActionV {
        match self {
            Action::Connection { handler, sid } => ActionV::Connection {
                handler: *handler,
                sid: sid@,
            },
            Action::Message { handler, data } => ActionV::Message {
                handler: *handler,
                data: data@,
            },
            Action::Close { handler, reason } => ActionV::Close {
                handler: *handler,
                reason: *reason,
            },
            Action::Flush { handler, packets } => ActionV::Flush {
                handler: *handler,
                packets: views(packets@),
            },
        }
    }
}

/// The models of a list of actions.
pub open spec fn action_views(acts: Seq<Action>) -> Seq<ActionV> {
    acts.map_values(|a: Action| a@)
}

/// The first value paired with `name`, scanning left to right.
pub open spec fn spec_lookup(pairs: Seq<(String, String)>, name: Seq<char>) -> Option<Seq<char>>
    decreases pairs.len(),
{
    if pairs.len() == 0 {
        None
    } else if pairs[0].0@ == name {
        Some(pairs[0].1@)
    } else {
        spec_lookup(pairs.skip(1), name)
    }
}

/// Looks a name up among parsed pairs; the first match wins.
pub fn query_get(pairs: &Vec<(String, String)>, name: &String) -> (r: Option<String>)
    ensures
        match r {
            Some(v) => spec_lookup(pairs@, name@) == Some(v@),
            None => spec_lookup(pairs@, name@) is None,
        },
{
    let mut i: usize = 0;
    proof {
        assert(pairs@.skip(0) =~= pairs@);
    }
    while i < pairs.len()
        invariant
            0 <= i <= pairs@.len(),
            spec_lookup(pairs@, name@) == spec_lookup(pairs@.skip(i as int), name@),
        decreases pairs@.len() - i,
    {
        proof {
            assert(pairs@.skip(i as int)[0] == pairs@[i as int]);
            assert(pairs@.skip(i as int).skip(1) =~= pairs@.skip(i as int + 1));
        }
        if pairs[i].0 == *name {
            return Some(pairs[i].1.clone());
        }
        i = i + 1;
    }
    proof {
        assert(pairs@.skip(pairs@.len() as int) =~= Seq::<(String, String)>::empty());
    }
    None
}

/// What url's `form_urlencoded::parse` reads out of these bytes: the
/// `name=value` pairs in order, percent- and plus-decoded.
pub uninterp spec fn query_pairs_of(s: Seq<u8>) -> Seq<(Seq<char>, Seq<char>)>;

/// The models of parsed pairs.
pub open spec fn pair_views(pairs: Seq<(String, String)>) -> Seq<(Seq<char>, Seq<char>)> {
    pairs.map_values(|p: (String, String)| (p.0@, p.1@))
}

/// Relies on url's `form_urlencoded::parse`: it splits the input into
/// `name=value` pairs on `'&'` and `'='` and percent- and plus-decodes each
/// side, in input order; the result is a function of the bytes alone.
#[verifier::external_body]
pub fn parse_query(input: &[u8]) -> (r: Vec<(String, String)>)
    ensures
        pair_views(r@) == query_pairs_of(input@),
{
    url::form_urlencoded::parse(input).into_owned().collect()
}

/// What a JSONP index parameter reads as: the value of a non-empty
/// all-digit string, as long as it fits an `i32`.
pub open spec fn spec_parse_index(b: Seq<u8>) -> Option<i32> {
    if b.len() > 0 && (forall|i: int|
        0 <= i < b.len() ==> crate::decimal::is_ascii_digit(#[trigger] b[i])) && crate::decimal::dec_value(
        b,
    ) <= i32::MAX as nat {
        Some(crate::decimal::dec_value(b) as i32)
    } else {
        None
    }
}

/// Parses a JSONP index: the string's UTF-8 bytes must be decimal digits,
/// at least one, and the value must fit an `i32`. The result is never
/// negative.
pub fn parse_jsonp_index(s: &String) -> (r: Option<i32>)
    ensures
        r == spec_parse_index(vstd::utf8::encode_utf8(s@)),
        r matches Some(v) ==> v >= 0,
{
    let bytes = s.as_str().as_bytes();
    let ghost b = vstd::utf8::encode_utf8(s@);
    let len = bytes.len();
    if len == 0 {
        return None;
    }
    let mut i: usize = 0;
    let mut acc: u32 = 0;
    let mut overflow: bool = false;
    while i < len
        invariant
            0 <= i <= len,
            len == b.len(),
            bytes@ == b,
            b == vstd::utf8::encode_utf8(s@),
            forall|m: int| 0 <= m < i ==> crate::decimal::is_ascii_digit(#[trigger] b[m]),
            !overflow ==> acc as nat == crate::decimal::dec_value(b.take(i as int)) && acc
                <= i32::MAX,
            overflow ==> crate::decimal::dec_value(b.take(i as int)) > i32::MAX as nat,
        decreases len - i,
    {
        let c = bytes[i];
        if c < 0x30 || c > 0x39 {
            proof {
                assert(!crate::decimal::is_ascii_digit(b[i as int]));
                assert(spec_parse_index(b) is None);
            }
            return None;
        }
        let d = (c - 0x30) as u32;
        let ghost prevv = crate::decimal::dec_value(b.take(i as int));
        proof {
            assert(b.take(i as int + 1).drop_last() =~= b.take(i as int));
            assert(b.take(i as int + 1).last() == b[i as int]);
            assert(crate::decimal::dec_value(b.take(i as int + 1)) == prevv * 10 + d);
        }
        if !overflow && acc <= (0x7fffffffu32 - d) / 10 {
            proof {
                assert(acc * 10 + d <= 0x7fffffff) by (nonlinear_arith)
                    requires
                        acc <= (0x7fffffffu32 - d) / 10,
                        d <= 9,
                ;
            }
            acc = acc * 10 + d;
        } else {
            proof {
                if overflow {
                    assert(prevv * 10 + d > i32::MAX as nat) by (nonlinear_arith)
                        requires
                            prevv > i32::MAX as nat,
                            d >= 0,
                    ;
                } else {
                    assert(acc * 10 + d > 0x7fffffff) by (nonlinear_arith)
                        requires
                            acc > (0x7fffffffu32 - d) / 10,
                            0 <= d <= 9,
                            acc <= 0x7fffffff,
                    ;
                }
            }
            overflow = true;
        }
        i = i + 1;
    }
    proof {
        assert(b.take(len as int) =~= b);
    }
    if overflow {
        return None;
    }
    Some(acc as i32)
}

/// The handshake rejection body for an unknown transport.
pub open spec fn spec_transport_unknown_body() -> Seq<u8> {
    vstd::utf8::encode_utf8("{\"code\":0,\"message\":\"Transport unknown\"}"@)
}

/// The rejection body for an unknown session id.
pub open spec fn spec_sid_unknown_body() -> Seq<u8> {
    vstd::utf8::encode_utf8("{\"code\":1,\"message\":\"Session ID unknown\"}"@)
}

/// The handshake packet's JSON: the fresh sid, no upgrades, and the
/// heartbeat timing in milliseconds.
pub open spec fn spec_open_json(sid_bytes: Seq<u8>, interval: u64, timeout: u64) -> Seq<u8> {
    vstd::utf8::encode_utf8("{\"sid\":\""@) + sid_bytes + vstd::utf8::encode_utf8(
        "\",\"upgrades\":[],\"pingInterval\":"@,
    ) + crate::decimal::dec_digits(interval as nat) + vstd::utf8::encode_utf8(
        ",\"pingTimeout\":"@,
    ) + crate::decimal::dec_digits(timeout as nat) + vstd::utf8::encode_utf8("}"@)
}

/// Whether two byte strings hold the same bytes.
fn bytes_eq(a: &[u8], b: &[u8]) -> (r: bool)
    ensures
        r == (a@ == b@),
{
    if a.len() != b.len() {
        return false;
    }
    let mut i: usize = 0;
    while i < a.len()
        invariant
            0 <= i <= a@.len(),
            a@.len() == b@.len(),
            forall|m: int| 0 <= m < i ==> a@[m] == b@[m],
        decreases a@.len() - i,
    {
        if a[i] != b[i] {
            return false;
        }
        i = i + 1;
    }
    proof {
        assert(a@ =~= b@);
    }
    true
}

/// The bytes of the probe string that upgrade negotiation pings carry.
pub open spec fn probe_bytes() -> Seq<u8> {
    vstd::utf8::encode_utf8("probe"@)
}

/// The bytes of the data that server-initiated pings carry.
pub open spec fn ping_bytes() -> Seq<u8> {
    vstd::utf8::encode_utf8("ping"@)
}

/// The body of every successful POST answer.
pub open spec fn ok_bytes() -> Seq<u8> {
    vstd::utf8::encode_utf8("ok"@)
}

/// `\n` restored from its `\\n` escape, left to right.
pub open spec fn spec_unescape(s: Seq<u8>) -> Seq<u8>
    decreases s.len(),
{
    if s.len() == 0 {
        Seq::<u8>::empty()
    } else if s.len() >= 2 && s[0] == 0x5c && s[1] == 0x6e {
        seq![0x0au8] + spec_unescape(s.skip(2))
    } else {
        seq![s[0]] + spec_unescape(s.skip(1))
    }
}

/// Restores `\n` from `\\n`, as the `d` form field carries it.
pub fn unescape_newlines(data: &[u8]) -> (r: Vec<u8>)
    ensures
        r@ == spec_unescape(data@),
{
    let mut r: Vec<u8> = Vec::new();
    let mut i: usize = 0;
    let len = data.len();
    proof {
        assert(data@.skip(0) =~= data@);
        assert(r@ + spec_unescape(data@) =~= spec_unescape(data@));
    }
    while i < len
        invariant
            0 <= i <= len,
            len == data@.len(),
            spec_unescape(data@) == r@ + spec_unescape(data@.skip(i as int)),
        decreases len - i,
    {
        let ghost suffix = data@.skip(i as int);
        let ghost pre = r@;
        proof {
            assert(suffix[0] == data@[i as int]);
            if i + 1 < len {
                assert(suffix[1] == data@[i as int + 1]);
            }
            assert(suffix.skip(1) =~= data@.skip(i as int + 1));
            if suffix.len() >= 2 {
                assert(suffix.skip(2) =~= data@.skip(i as int + 2));
            }
        }
        if data[i] == 0x5c && i + 1 < len && data[i + 1] == 0x6e {
            r.push(0x0a);
            proof {
                assert(r@ =~= pre + seq![0x0au8]);
                assert(pre + (seq![0x0au8] + spec_unescape(suffix.skip(2))) =~= r@ + spec_unescape(
                    suffix.skip(2),
                ));
            }
            i = i + 2;
        } else {
            let b = data[i];
            r.push(b);
            proof {
                assert(r@ =~= pre + seq![b]);
                assert(pre + (seq![b] + spec_unescape(suffix.skip(1))) =~= r@ + spec_unescape(
                    suffix.skip(1),
                ));
            }
            i = i + 1;
        }
    }
    proof {
        assert(data@.skip(len as int) =~= Seq::<u8>::empty());
        assert(r@ + spec_unescape(Seq::<u8>::empty()) =~= r@);
    }
    r
}

/// The first value paired with `name` among parsed pair models.
pub open spec fn spec_lookup_v(pairs: Seq<(Seq<char>, Seq<char>)>, name: Seq<char>) -> Option<
    Seq<char>,
>
    decreases pairs.len(),
{
    if pairs.len() == 0 {
        None
    } else if pairs[0].0 == name {
        Some(pairs[0].1)
    } else {
        spec_lookup_v(pairs.skip(1), name)
    }
}

/// Looking a name up among pairs is looking it up among their models.
pub proof fn lemma_lookup_views(pairs: Seq<(String, String)>, name: Seq<char>)
    ensures
        spec_lookup(pairs, name) == spec_lookup_v(pair_views(pairs), name),
    decreases pairs.len(),
{
    if pairs.len() > 0 {
        lemma_lookup_views(pairs.skip(1), name);
        assert(pair_views(pairs)[0] == (pairs[0].0@, pairs[0].1@));
        assert(pair_views(pairs).skip(1) =~= pair_views(pairs.skip(1)));
    }
}

/// The running outcome of delivering a POST body's packets to one session:
/// whether it stands closed, its pong timestamp, its outbound queue, and
/// the callbacks to fire, in order.
pub struct IngestV {
    pub closed: bool,
    pub last_pong: u64,
    pub buf: Seq<PacketV>,
    pub actions: Seq<ActionV>,
}

/// Delivery of one decoded packet, per the session state machine: a Close
/// closes the session (firing the close callback the first time and
/// discarding the queue); a Pong moves the pong timestamp forward; a Ping
/// carrying the probe string is answered with a probe Pong on the queue;
/// a Message fires the message callback; everything else is ignored.
/// A closed session fires nothing and queues nothing.
pub open spec fn spec_deliver(
    st: IngestV,
    on_close: Option<u64>,
    on_message: Option<u64>,
    p: PacketV,
    now: u64,
) -> IngestV {
    match p.id {
        ID::Close => IngestV {
            closed: true,
            buf: if st.closed {
                st.buf
            } else {
                Seq::<PacketV>::empty()
            },
            actions: if !st.closed && on_close is Some {
                st.actions.push(
                    ActionV::Close {
                        handler: on_close.unwrap(),
                        reason: CloseReason::ClientRequested,
                    },
                )
            } else {
                st.actions
            },
            ..st
        },
        ID::Pong => IngestV {
            last_pong: if now > st.last_pong {
                now
            } else {
                st.last_pong
            },
            ..st
        },
        ID::Ping => if p.data == probe_bytes() && !st.closed {
            IngestV { buf: st.buf.push(PacketV { id: ID::Pong, data: probe_bytes() }), ..st }
        } else {
            st
        },
        ID::Message => if !st.closed && on_message is Some {
            IngestV {
                actions: st.actions.push(
                    ActionV::Message { handler: on_message.unwrap(), data: p.data },
                ),
                ..st
            }
        } else {
            st
        },
        _ => st,
    }
}

/// Delivery of a whole decoded body, packet by packet, in order.
pub open spec fn spec_ingest(
    st: IngestV,
    on_close: Option<u64>,
    on_message: Option<u64>,
    ps: Seq<PacketV>,
    now: u64,
) -> IngestV
    decreases ps.len(),
{
    if ps.len() == 0 {
        st
    } else {
        spec_ingest(spec_deliver(st, on_close, on_message, ps[0], now), on_close, on_message, ps.skip(1), now)
    }
}

/// Delivering one more packet delivers it to the fold's outcome.
proof fn lemma_ingest_snoc(
    st: IngestV,
    on_close: Option<u64>,
    on_message: Option<u64>,
    ps: Seq<PacketV>,
    now: u64,
)
    requires
        ps.len() > 0,
    ensures
        spec_ingest(st, on_close, on_message, ps, now) == spec_deliver(
            spec_ingest(st, on_close, on_message, ps.drop_last(), now),
            on_close,
            on_message,
            ps.last(),
            now,
        ),
    decreases ps.len(),
{
    let st1 = spec_deliver(st, on_close, on_message, ps[0], now);
    if ps.len() == 1 {
        assert(ps.drop_last() =~= Seq::<PacketV>::empty());
        assert(ps.skip(1) =~= Seq::<PacketV>::empty());
        assert(spec_ingest(st, on_close, on_message, ps, now) == spec_ingest(
            st1,
            on_close,
            on_message,
            ps.skip(1),
            now,
        ));
        assert(spec_ingest(st1, on_close, on_message, ps.skip(1), now) == st1);
        assert(spec_ingest(st, on_close, on_message, ps.drop_last(), now) == st);
        assert(ps.last() == ps[0]);
    } else {
        lemma_ingest_snoc(st1, on_close, on_message, ps.skip(1), now);
        assert(ps.skip(1).drop_last() =~= ps.drop_last().skip(1));
        assert(ps.skip(1).last() == ps.last());
        assert(ps.drop_last()[0] == ps[0]);
        assert(ps.drop_last().len() > 0);
        assert(spec_ingest(st, on_close, on_message, ps, now) == spec_ingest(
            st1,
            on_close,
            on_message,
            ps.skip(1),
            now,
        ));
        assert(spec_ingest(st, on_close, on_message, ps.drop_last(), now) == spec_ingest(
            st1,
            on_close,
            on_message,
            ps.drop_last().skip(1),
            now,
        ));
    }
}

/// The server: the registry of sessions, the connection callback slot, and
/// the configuration.
pub struct Server {
    pub clients: Vec<Socket>,
    pub on_connection: Option<u64>,
    pub config: Config,
}

/// Whether some session in the registry carries this id.
pub open spec fn spec_has_sid(clients: Seq<Socket>, sid: Seq<char>) -> bool {
    exists|i: int| 0 <= i < clients.len() && clients[i].sid@ == sid
}

/// Session uniqueness: in a well-formed server no two registered sessions
/// share a sid. Every operation keeps the server well-formed, and a
/// handshake whose fresh sid collides with a registered one is refused
/// with a 500 and registers nothing.
pub proof fn lemma_session_uniqueness(s: Server, i: int, j: int)
    requires
        s.wf(),
        0 <= i < s.clients@.len(),
        0 <= j < s.clients@.len(),
        i != j,
    ensures
        s.clients@[i].sid@ != s.clients@[j].sid@,
{
}

impl Server {
    /// Well-formed: no two sessions share an id, and each session is
    /// itself well-formed.
    pub open spec fn wf(&self) -> bool {
        &&& forall|i: int, j: int|
            0 <= i < j < self.clients@.len() ==> self.clients@[i].sid@ != self.clients@[j].sid@
        &&& forall|i: int| 0 <= i < self.clients@.len() ==> (#[trigger] self.clients@[i]).wf()
    }

    /// A server with the default configuration and no sessions.
    pub fn new() -> (r: Server)
        ensures
            r.wf(),
            r.clients@.len() == 0,
            r.on_connection is None,
            r.config.ping_timeout == 60000,
            r.config.ping_interval == 25000,
    {
        Server::with_config(Config::default())
    }

    /// A server with the given configuration and no sessions.
    pub fn with_config(config: Config) -> (r: Server)
        ensures
            r.wf(),
            r.clients@.len() == 0,
            r.on_connection is None,
            r.config == config,
    {
        Server { clients: Vec::new(), on_connection: None, config }
    }

    /// Registers the connection callback slot, replacing any earlier one.
    pub fn on_connection(&mut self, handler: u64)
        ensures
            *final(self) == (Server { on_connection: Some(handler), ..*old(self) }),
    {
        self.on_connection = Some(handler);
    }

    /// The index of the session with this id, if one is registered.
    pub fn find_socket(&self, sid: &String) -> (r: Option<usize>)
        ensures
            r matches Some(i) ==> i < self.clients@.len() && self.clients@[i as int].sid@ == sid@,
            r is None ==> !spec_has_sid(self.clients@, sid@),
    {
        let mut i: usize = 0;
        while i < self.clients.len()
            invariant
                0 <= i <= self.clients@.len(),
                forall|k: int| 0 <= k < i ==> self.clients@[k].sid@ != sid@,
            decreases self.clients@.len() - i,
        {
            if self.clients[i].sid == *sid {
                return Some(i);
            }
            i = i + 1;
        }
        None
    }

    /// The first `io` cookie's value, as the fallback session key.
    pub open spec fn spec_cookie_sid(cookies: Seq<(String, String)>) -> Option<Seq<char>> {
        spec_lookup(cookies, "io"@)
    }

    /// Looks a session up by the `io` cookie among the request's cookie
    /// pairs.
    pub fn get_socket(&self, cookies: &Vec<(String, String)>) -> (r: Option<usize>)
        ensures
            match Self::spec_cookie_sid(cookies@) {
                None => r is None,
                Some(sid) => {
                    &&& (r matches Some(i) ==> i < self.clients@.len()
                        && self.clients@[i as int].sid@ == sid)
                    &&& (r is None ==> !spec_has_sid(self.clients@, sid))
                },
            },
    {
        let io = String::from_str("io");
        match query_get(cookies, &io) {
            Some(sid) => self.find_socket(&sid),
            None => None,
        }
    }

    /// The handshake packet: an Open tag and the JSON that tells the
    /// client its sid and the heartbeat timing.
    pub fn open_json(&self, sid_bytes: &Vec<u8>) -> (r: Packet)
        requires
            sid_bytes@.len() <= 400000,
        ensures
            r@.id == ID::Open,
            r@.data == spec_open_json(
                sid_bytes@,
                self.config.ping_interval,
                self.config.ping_timeout,
            ),
            r@.data.len() <= sid_bytes@.len() + 100,
    {
        proof {
            reveal_strlit("{\"sid\":\"");
            reveal_strlit("\",\"upgrades\":[],\"pingInterval\":");
            reveal_strlit(",\"pingTimeout\":");
            reveal_strlit("}");
            vstd::utf8::is_ascii_chars_encode_utf8("{\"sid\":\""@);
            vstd::utf8::is_ascii_chars_encode_utf8("\",\"upgrades\":[],\"pingInterval\":"@);
            vstd::utf8::is_ascii_chars_encode_utf8(",\"pingTimeout\":"@);
            vstd::utf8::is_ascii_chars_encode_utf8("}"@);
            crate::decimal::lemma_dec_digits_len_u64(self.config.ping_interval);
            crate::decimal::lemma_dec_digits_len_u64(self.config.ping_timeout);
        }
        let mut data: Vec<u8> = Vec::new();
        crate::packet::push_all(&mut data, "{\"sid\":\"".as_bytes_vec().as_slice());
        crate::packet::push_all(&mut data, sid_bytes.as_slice());
        crate::packet::push_all(
            &mut data,
            "\",\"upgrades\":[],\"pingInterval\":".as_bytes_vec().as_slice(),
        );
        crate::packet::push_all(
            &mut data,
            crate::decimal::u64_to_decimal(self.config.ping_interval).as_slice(),
        );
        crate::packet::push_all(&mut data, ",\"pingTimeout\":".as_bytes_vec().as_slice());
        crate::packet::push_all(
            &mut data,
            crate::decimal::u64_to_decimal(self.config.ping_timeout).as_slice(),
        );
        crate::packet::push_all(&mut data, "}".as_bytes_vec().as_slice());
        proof {
            assert(data@ =~= spec_open_json(
                sid_bytes@,
                self.config.ping_interval,
                self.config.ping_timeout,
            ));
        }
        Packet { id: ID::Open, data }
    }

    /// Whether this handshake query names the one supported transport.
    pub open spec fn spec_transport_ok(query: Seq<(String, String)>) -> bool {
        spec_lookup(query, "transport"@) == Some("polling"@)
    }

    /// What the handshake reads the `j` parameter as: `None` when the
    /// parameter is malformed and the request must be rejected, otherwise
    /// the index, if one was given.
    pub open spec fn spec_jsonp_of(query: Seq<(String, String)>) -> Option<Option<i32>> {
        match spec_lookup(query, "j"@) {
            None => Some(None),
            Some(j) => match spec_parse_index(vstd::utf8::encode_utf8(j)) {
                Some(v) => Some(Some(v)),
                None => None,
            },
        }
    }

    /// Whether this handshake query forces Base64 for binary data.
    pub open spec fn spec_b64_of(query: Seq<(String, String)>) -> bool {
        spec_lookup(query, "b64"@) is Some
    }

    /// The whole outcome of a handshake: an unknown transport or a
    /// malformed JSONP index is rejected with 400 and changes nothing; a
    /// fresh sid colliding with a registered session is an internal fault,
    /// answered 500, and changes nothing — no two sessions ever share an
    /// id; otherwise the new session is registered open with both
    /// timestamps at `now`, the response carries the handshake payload and
    /// the sid cookie, and the connection callback is handed back if one
    /// is registered.
    pub open spec fn spec_handshake(
        pre: Server,
        post: Server,
        query: Seq<(String, String)>,
        fresh_sid: Seq<char>,
        now: u64,
        resp: HttpResponse,
        actions: Seq<Action>,
    ) -> bool {
        &&& post.config == pre.config
        &&& post.on_connection == pre.on_connection
        &&& resp.keep_alive
        &&& (!Self::spec_transport_ok(query) ==> post == pre && resp.status == 400 && resp.body@
            == spec_transport_unknown_body() && actions.len() == 0 && resp.set_cookie is None)
        &&& (Self::spec_transport_ok(query) && Self::spec_jsonp_of(query) is None ==> post == pre
            && resp.status == 400 && resp.body@.len() == 0 && actions.len() == 0
            && resp.set_cookie is None)
        &&& (Self::spec_transport_ok(query) && Self::spec_jsonp_of(query) is Some && spec_has_sid(
            pre.clients@,
            fresh_sid,
        ) ==> post == pre && resp.status == 500 && resp.body@.len() == 0 && actions.len() == 0
            && resp.set_cookie is None)
        &&& (Self::spec_jsonp_of(query) matches Some(jsonp) ==> Self::spec_transport_ok(query)
            && !spec_has_sid(pre.clients@, fresh_sid) ==> {
            let b64 = Self::spec_b64_of(query);
            let sock = post.clients@.last();
            &&& resp.status == 200
            &&& post.clients@.len() == pre.clients@.len() + 1
            &&& post.clients@.take(pre.clients@.len() as int) == pre.clients@
            &&& sock.sid@ == fresh_sid
            &&& sock.b64 == b64
            &&& sock.xhr2 == !b64
            &&& sock.jsonp == jsonp
            &&& !sock.closed
            &&& sock.last_pong == now
            &&& sock.last_ping == now
            &&& sock.write_buf() == Seq::<PacketV>::empty()
            &&& sock.on_close is None && sock.on_message is None && sock.on_packet is None
                && sock.on_flush is None
            &&& resp.body@ == crate::packet::spec_encode_payload(
                seq![
                    PacketV {
                        id: ID::Open,
                        data: spec_open_json(
                            vstd::utf8::encode_utf8(fresh_sid),
                            pre.config.ping_interval,
                            pre.config.ping_timeout,
                        ),
                    },
                ],
                jsonp,
                b64,
                !b64,
            )
            &&& resp.content_type == (if jsonp is Some {
                ContentType::Javascript
            } else {
                ContentType::OctetStream
            })
            &&& (match pre.config.cookie {
                Some(name) => resp.set_cookie matches Some(c) && c.0@ == name@ && c.1@
                    == fresh_sid,
                None => resp.set_cookie is None,
            })
            &&& action_views(actions) == (match pre.on_connection {
                Some(h) => seq![ActionV::Connection { handler: h, sid: fresh_sid }],
                None => Seq::<ActionV>::empty(),
            })
        })
    }

    /// Opens a new session from a handshake request; `spec_handshake`
    /// states the whole outcome.
    #[verifier::rlimit(100)]
    pub fn open_connection(&mut self, query: &Vec<(String, String)>, fresh_sid: String, now: u64)
        -> (r: (HttpResponse, Vec<Action>))
        requires
            old(self).wf(),
            fresh_sid@.len() <= 100000,
        ensures
            final(self).wf(),
            Self::spec_handshake(*old(self), *final(self), query@, fresh_sid@, now, r.0, r.1@),
    {
        let transport = query_get(query, &String::from_str("transport"));
        let transport_ok = match transport {
            Some(t) => t == String::from_str("polling"),
            None => false,
        };
        if !transport_ok {
            let resp = HttpResponse {
                status: 400,
                body: "{\"code\":0,\"message\":\"Transport unknown\"}".as_bytes_vec(),
                content_type: ContentType::Unset,
                set_cookie: None,
                keep_alive: true,
            };
            return (resp, Vec::new());
        }
        let jsonp: Option<i32> = match query_get(query, &String::from_str("j")) {
            Some(j) => match parse_jsonp_index(&j) {
                Some(v) => Some(v),
                None => {
                    let resp = HttpResponse {
                        status: 400,
                        body: Vec::new(),
                        content_type: ContentType::Unset,
                        set_cookie: None,
                        keep_alive: true,
                    };
                    return (resp, Vec::new());
                },
            },
            None => None,
        };
        let b64 = match query_get(query, &String::from_str("b64")) {
            Some(_) => true,
            None => false,
        };
        if let Some(_) = self.find_socket(&fresh_sid) {
            let resp = HttpResponse {
                status: 500,
                body: Vec::new(),
                content_type: ContentType::Unset,
                set_cookie: None,
                keep_alive: true,
            };
            return (resp, Vec::new());
        }
        let sid_bytes = fresh_sid.as_str().as_bytes_vec();
        proof {
            crate::packet::lemma_encode_utf8_len(fresh_sid@);
        }
        let open_packet = self.open_json(&sid_bytes);
        let mut payload_packets: Vec<Packet> = Vec::new();
        payload_packets.push(open_packet);
        let body = crate::packet::encode_payload(&payload_packets, jsonp, b64, !b64);
        let sock = Socket::new(fresh_sid.clone(), b64, jsonp, now);
        let ghost pre_clients = self.clients@;
        self.clients.push(sock);
        proof {
            assert(self.clients@.take(pre_clients.len() as int) =~= pre_clients);
            assert forall|i: int, j: int|
                0 <= i < j < self.clients@.len() implies self.clients@[i].sid@
                != self.clients@[j].sid@ by {
                if j < pre_clients.len() {
                } else {
                    assert(self.clients@[j].sid@ == fresh_sid@);
                    assert(self.clients@[i] == pre_clients[i]);
                    assert(!spec_has_sid(pre_clients, fresh_sid@));
                }
            }
        }
        let set_cookie = match &self.config.cookie {
            Some(name) => Some((name.clone(), fresh_sid.clone())),
            None => None,
        };
        let content_type = if jsonp.is_some() {
            ContentType::Javascript
        } else {
            ContentType::OctetStream
        };
        let mut actions: Vec<Action> = Vec::new();
        if let Some(h) = self.on_connection {
            actions.push(Action::Connection { handler: h, sid: fresh_sid });
            proof {
                assert(action_views(actions@) =~= seq![
                    ActionV::Connection { handler: h, sid: fresh_sid@ },
                ]);
            }
        } else {
            proof {
                assert(action_views(actions@) =~= Seq::<ActionV>::empty());
            }
        }
        let resp = HttpResponse {
            status: 200,
            body: body.0,
            content_type,
            set_cookie,
            keep_alive: true,
        };
        proof {
            assert(views(payload_packets@) =~= seq![
                PacketV {
                    id: ID::Open,
                    data: spec_open_json(
                        vstd::utf8::encode_utf8(fresh_sid@),
                        old(self).config.ping_interval,
                        old(self).config.ping_timeout,
                    ),
                },
            ]);
        }
        (resp, actions)
    }

    /// Delivers decoded packets to the session at index `i`, in order, per
    /// the state machine: Close closes it and fires its close callback
    /// once, Pong refreshes its pong timestamp, a probe Ping queues a probe
    /// Pong, a Message fires its message callback. The returned actions
    /// are the callbacks to run. The session stays in the registry; the
    /// caller evicts it when it ends up closed.
    #[verifier::rlimit(100)]
    pub fn ingest(&mut self, i: usize, packets: &Vec<Packet>, now: u64) -> (r: Vec<Action>)
        requires
            old(self).wf(),
            i < old(self).clients@.len(),
        ensures
            final(self).wf(),
            final(self).on_connection == old(self).on_connection,
            final(self).config == old(self).config,
            final(self).clients@.len() == old(self).clients@.len(),
            forall|j: int|
                0 <= j < old(self).clients@.len() && j != i ==> final(self).clients@[j] == old(
                    self,
                ).clients@[j],
            ({
                let s0 = old(self).clients@[i as int];
                let st = spec_ingest(
                    IngestV {
                        closed: s0.closed,
                        last_pong: s0.last_pong,
                        buf: s0.write_buf(),
                        actions: Seq::<ActionV>::empty(),
                    },
                    s0.on_close,
                    s0.on_message,
                    views(packets@),
                    now,
                );
                let sf = final(self).clients@[i as int];
                &&& action_views(r@) == st.actions
                &&& sf.closed == st.closed
                &&& sf.last_pong == st.last_pong
                &&& sf.write_buf() == st.buf
                &&& sf.sid@ == s0.sid@
                &&& sf.last_ping == s0.last_ping
                &&& sf.b64 == s0.b64
                &&& sf.xhr2 == s0.xhr2
                &&& sf.jsonp == s0.jsonp
                &&& sf.on_close == s0.on_close
                &&& sf.on_message == s0.on_message
                &&& sf.on_packet == s0.on_packet
                &&& sf.on_flush == s0.on_flush
            }),
    {
        let ghost s0 = self.clients@[i as int];
        let ghost ps = views(packets@);
        let ghost st0 = IngestV {
            closed: s0.closed,
            last_pong: s0.last_pong,
            buf: s0.write_buf(),
            actions: Seq::<ActionV>::empty(),
        };
        let probe = "probe".as_bytes_vec();
        let mut actions: Vec<Action> = Vec::new();
        let mut k: usize = 0;
        proof {
            assert(ps.take(0) =~= Seq::<PacketV>::empty());
            assert(action_views(actions@) =~= Seq::<ActionV>::empty());
        }
        while k < packets.len()
            invariant
                old(self).wf(),
                i < old(self).clients@.len(),
                0 <= k <= packets@.len(),
                ps == views(packets@),
                probe@ == probe_bytes(),
                s0 == old(self).clients@[i as int],
                st0 == (IngestV {
                    closed: s0.closed,
                    last_pong: s0.last_pong,
                    buf: s0.write_buf(),
                    actions: Seq::<ActionV>::empty(),
                }),
                self.wf(),
                self.on_connection == old(self).on_connection,
                self.config == old(self).config,
                self.clients@.len() == old(self).clients@.len(),
                forall|j: int|
                    0 <= j < old(self).clients@.len() && j != i ==> self.clients@[j] == old(
                        self,
                    ).clients@[j],
                ({
                    let st = spec_ingest(st0, s0.on_close, s0.on_message, ps.take(k as int), now);
                    let sc = self.clients@[i as int];
                    &&& action_views(actions@) == st.actions
                    &&& sc.closed == st.closed
                    &&& sc.last_pong == st.last_pong
                    &&& sc.write_buf() == st.buf
                    &&& sc.sid@ == s0.sid@
                    &&& sc.last_ping == s0.last_ping
                    &&& sc.b64 == s0.b64
                    &&& sc.xhr2 == s0.xhr2
                    &&& sc.jsonp == s0.jsonp
                    &&& sc.on_close == s0.on_close
                    &&& sc.on_message == s0.on_message
                    &&& sc.on_packet == s0.on_packet
                    &&& sc.on_flush == s0.on_flush
                }),
            decreases packets@.len() - k,
        {
            let ghost st_pre = spec_ingest(st0, s0.on_close, s0.on_message, ps.take(k as int), now);
            let ghost pv = ps[k as int];
            let ghost pre_actions = actions@;
            let p = &packets[k];
            proof {
                assert(pv == p@);
            }
            match p.id {
                ID::Close => {
                    let fired = self.clients[i].close(CloseReason::ClientRequested);
                    if let Some(h) = fired {
                        actions.push(Action::Close { handler: h, reason: CloseReason::ClientRequested });
                        proof {
                            assert(action_views(actions@) =~= action_views(pre_actions).push(
                                ActionV::Close {
                                    handler: h,
                                    reason: CloseReason::ClientRequested,
                                },
                            ));
                        }
                    }
                },
                ID::Pong => {
                    self.clients[i].reset_timeout(now);
                },
                ID::Ping => {
                    if bytes_eq(p.data.as_slice(), probe.as_slice()) {
                        let pong = Packet { id: ID::Pong, data: slice_to_vec(probe.as_slice()) };
                        proof {
                            reveal_strlit("probe");
                            vstd::utf8::is_ascii_chars_encode_utf8("probe"@);
                            assert(pong@.data =~= probe_bytes());
                            assert(pong@ == (PacketV { id: ID::Pong, data: probe_bytes() }));
                            assert(probe_bytes().len() < usize::MAX);
                        }
                        self.clients[i].emit(pong);
                    }
                },
                ID::Message => {
                    let slot = self.clients[i].call_on_message();
                    if let Some(h) = slot {
                        let data = slice_to_vec(p.data.as_slice());
                        actions.push(Action::Message { handler: h, data });
                        proof {
                            assert(action_views(actions@) =~= action_views(pre_actions).push(
                                ActionV::Message { handler: h, data: pv.data },
                            ));
                        }
                    }
                },
                _ => {},
            }
            proof {
                lemma_ingest_snoc(st0, s0.on_close, s0.on_message, ps.take(k as int + 1), now);
                assert(ps.take(k as int + 1).drop_last() =~= ps.take(k as int));
                assert(ps.take(k as int + 1).last() == pv);
            }
            k = k + 1;
        }
        proof {
            assert(ps.take(packets@.len() as int) =~= ps);
        }
        actions
    }

    /// The whole outcome of a poll: liveness is refreshed, the outbound
    /// queue is drained into the response body under the session's
    /// options, the queue ends empty, and the flush callback is handed
    /// back with the drained packets when the open session has one.
    pub open spec fn spec_poll(
        pre: Server,
        post: Server,
        i: int,
        now: u64,
        resp: HttpResponse,
        actions: Seq<Action>,
    ) -> bool {
        let s0 = pre.clients@[i];
        let sf = post.clients@[i];
        &&& post.config == pre.config
        &&& post.on_connection == pre.on_connection
        &&& post.clients@.len() == pre.clients@.len()
        &&& (forall|j: int| 0 <= j < pre.clients@.len() && j != i ==> post.clients@[j] == pre.clients@[j])
        &&& resp.status == 200
        &&& resp.keep_alive
        &&& resp.set_cookie is None
        &&& resp.body@ == crate::packet::spec_encode_payload(
            s0.write_buf(),
            s0.jsonp,
            s0.b64,
            s0.xhr2,
        )
        &&& resp.content_type == (if s0.jsonp is Some {
            ContentType::Javascript
        } else {
            ContentType::OctetStream
        })
        &&& sf.write_buf() == Seq::<PacketV>::empty()
        &&& sf.last_pong == (if now > s0.last_pong {
            now
        } else {
            s0.last_pong
        })
        &&& sf.sid@ == s0.sid@
        &&& sf.closed == s0.closed
        &&& sf.last_ping == s0.last_ping
        &&& sf.b64 == s0.b64
        &&& sf.xhr2 == s0.xhr2
        &&& sf.jsonp == s0.jsonp
        &&& sf.on_close == s0.on_close
        &&& sf.on_message == s0.on_message
        &&& sf.on_packet == s0.on_packet
        &&& sf.on_flush == s0.on_flush
        &&& action_views(actions) == (if !s0.closed && s0.on_flush is Some {
            seq![ActionV::Flush { handler: s0.on_flush.unwrap(), packets: s0.write_buf() }]
        } else {
            Seq::<ActionV>::empty()
        })
    }

    /// Answers a poll for the session at index `i`; `spec_poll` states the
    /// whole outcome.
    pub fn handle_get(&mut self, i: usize, now: u64) -> (r: (HttpResponse, Vec<Action>))
        requires
            old(self).wf(),
            i < old(self).clients@.len(),
        ensures
            final(self).wf(),
            Self::spec_poll(*old(self), *final(self), i as int, now, r.0, r.1@),
    {
        self.clients[i].reset_timeout(now);
        let drain = self.clients[i].encode_write_buffer();
        let jsonp_on = self.clients[i].jsonp_index().is_some();
        let mut actions: Vec<Action> = Vec::new();
        let ghost s0 = old(self).clients@[i as int];
        if let Some(h) = drain.on_flush {
            actions.push(Action::Flush { handler: h, packets: drain.packets });
            proof {
                assert(action_views(actions@) =~= seq![
                    ActionV::Flush { handler: h, packets: s0.write_buf() },
                ]);
            }
        } else {
            proof {
                assert(action_views(actions@) =~= Seq::<ActionV>::empty());
            }
        }
        let resp = HttpResponse {
            status: 200,
            body: drain.payload.0,
            content_type: if jsonp_on {
                ContentType::Javascript
            } else {
                ContentType::OctetStream
            },
            set_cookie: None,
            keep_alive: true,
        };
        (resp, actions)
    }

    /// The whole outcome of one POST: without a `d` field nothing happens
    /// and the answer is `ok`; a body that does not decode is answered 400
    /// and changes nothing; a decoded body is delivered packet by packet
    /// as `spec_ingest` folds it, the answer is `ok`, the connection stays
    /// alive unless the session ended up closed, and a session that ended
    /// up closed leaves the registry.
    pub open spec fn spec_post(
        pre: Server,
        post: Server,
        i: int,
        body: Seq<u8>,
        now: u64,
        resp: HttpResponse,
        actions: Seq<Action>,
    ) -> bool {
        let s0 = pre.clients@[i];
        &&& post.config == pre.config
        &&& post.on_connection == pre.on_connection
        &&& (match spec_lookup_v(query_pairs_of(body), "d"@) {
            None => post == pre && resp.status == 200 && resp.body@ == ok_bytes()
                && resp.keep_alive && resp.content_type == ContentType::Html && actions.len()
                == 0,
            Some(d) => {
                let raw = spec_unescape(vstd::utf8::encode_utf8(d));
                match crate::packet::spec_decode_payload(raw, s0.b64, s0.xhr2) {
                    Err(_) => post == pre && resp.status == 400 && resp.body@.len() == 0
                        && resp.keep_alive && actions.len() == 0,
                    Ok(psv) => {
                        let st = spec_ingest(
                            IngestV {
                                closed: s0.closed,
                                last_pong: s0.last_pong,
                                buf: s0.write_buf(),
                                actions: Seq::<ActionV>::empty(),
                            },
                            s0.on_close,
                            s0.on_message,
                            psv,
                            now,
                        );
                        &&& action_views(actions) == st.actions
                        &&& resp.status == 200
                        &&& resp.body@ == ok_bytes()
                        &&& resp.content_type == ContentType::Html
                        &&& resp.keep_alive == !st.closed
                        &&& (st.closed ==> post.clients@ == pre.clients@.remove(i))
                        &&& (!st.closed ==> {
                            let sf = post.clients@[i];
                            &&& post.clients@.len() == pre.clients@.len()
                            &&& (forall|j: int|
                                0 <= j < pre.clients@.len() && j != i ==> post.clients@[j]
                                    == pre.clients@[j])
                            &&& sf.closed == st.closed
                            &&& sf.last_pong == st.last_pong
                            &&& sf.write_buf() == st.buf
                            &&& sf.sid@ == s0.sid@
                            &&& sf.last_ping == s0.last_ping
                            &&& sf.b64 == s0.b64
                            &&& sf.xhr2 == s0.xhr2
                            &&& sf.jsonp == s0.jsonp
                            &&& sf.on_close == s0.on_close
                            &&& sf.on_message == s0.on_message
                            &&& sf.on_packet == s0.on_packet
                            &&& sf.on_flush == s0.on_flush
                        })
                    },
                }
            },
        })
    }

    /// Takes one POST body for the session at index `i`; `spec_post`
    /// states the whole outcome.
    #[verifier::rlimit(100)]
    pub fn handle_post(&mut self, i: usize, body: &Vec<u8>, now: u64) -> (r: (HttpResponse, Vec<
        Action,
    >))
        requires
            old(self).wf(),
            i < old(self).clients@.len(),
        ensures
            final(self).wf(),
            Self::spec_post(*old(self), *final(self), i as int, body@, now, r.0, r.1@),
    {
        let form = parse_query(body.as_slice());
        proof {
            lemma_lookup_views(form@, "d"@);
        }
        let d = match query_get(&form, &String::from_str("d")) {
            Some(d) => d,
            None => {
                let resp = HttpResponse {
                    status: 200,
                    body: "ok".as_bytes_vec(),
                    content_type: ContentType::Html,
                    set_cookie: None,
                    keep_alive: true,
                };
                return (resp, Vec::new());
            },
        };
        let raw = unescape_newlines(d.as_str().as_bytes());
        let b64 = self.clients[i].b64();
        let xhr2 = self.clients[i].xhr2();
        let packets = match crate::packet::decode_payload(raw, b64, xhr2) {
            Ok(ps) => ps,
            Err(_) => {
                let resp = HttpResponse {
                    status: 400,
                    body: Vec::new(),
                    content_type: ContentType::Unset,
                    set_cookie: None,
                    keep_alive: true,
                };
                return (resp, Vec::new());
            },
        };
        let actions = self.ingest(i, &packets, now);
        let closed_now = self.clients[i].closed();
        if closed_now {
            let ghost mid = self.clients@;
            self.clients.remove(i);
            proof {
                assert(self.clients@ =~= mid.remove(i as int));
                assert(self.clients@ =~= old(self).clients@.remove(i as int)) by {
                    assert(mid.len() == old(self).clients@.len());
                    assert(forall|j: int|
                        0 <= j < mid.len() && j != i ==> mid[j] == old(self).clients@[j]);
                    assert(mid.remove(i as int).len() == old(self).clients@.remove(
                        i as int,
                    ).len());
                    assert(forall|j: int|
                        0 <= j < mid.remove(i as int).len() ==> #[trigger] mid.remove(i as int)[j]
                            == old(self).clients@.remove(i as int)[j]);
                }
            }
        }
        let resp = HttpResponse {
            status: 200,
            body: "ok".as_bytes_vec(),
            content_type: ContentType::Html,
            set_cookie: None,
            keep_alive: !closed_now,
        };
        (resp, actions)
    }

    /// Dispatches one request: no session id anywhere means a handshake;
    /// an id that is not registered is answered 400; a registered id is
    /// polled on GET, fed on POST, and anything else is answered 405. The
    /// id is the `sid` query parameter, or failing that the `io` cookie.
    pub open spec fn spec_req_sid(req: HttpRequest) -> Option<Seq<char>> {
        match spec_lookup(req.query@, "sid"@) {
            Some(s) => Some(s),
            None => Self::spec_cookie_sid(req.cookies@),
        }
    }

    /// Dispatches one request; which of the four ways it goes is stated
    /// case by case over `spec_req_sid`. The fresh sid, drawn by the
    /// caller for a possible handshake, must leave the handshake body room
    /// in one allocation; the default generator's 64 characters always do.
    pub fn handle(&mut self, req: &HttpRequest, fresh_sid: String, now: u64) -> (r: (HttpResponse,
        Vec<Action>))
        requires
            old(self).wf(),
            fresh_sid@.len() <= 100000,
        ensures
            final(self).wf(),
            Self::spec_req_sid(*req) is None ==> Self::spec_handshake(
                *old(self),
                *final(self),
                req.query@,
                fresh_sid@,
                now,
                r.0,
                r.1@,
            ),
            Self::spec_req_sid(*req) matches Some(sid) ==> !spec_has_sid(old(self).clients@, sid)
                ==> *final(self) == *old(self) && r.0.status == 400 && r.0.body@
                == spec_sid_unknown_body() && r.1@.len() == 0 && r.0.keep_alive,
            Self::spec_req_sid(*req) matches Some(sid) ==> spec_has_sid(old(self).clients@, sid)
                ==> forall|i: int|
                0 <= i < old(self).clients@.len() && (#[trigger] old(self).clients@[i]).sid@ == sid
                    ==> {
                    (match req.method {
                        Method::Get => Self::spec_poll(
                            *old(self),
                            *final(self),
                            i,
                            now,
                            r.0,
                            r.1@,
                        ),
                        Method::Post => Self::spec_post(
                            *old(self),
                            *final(self),
                            i,
                            req.body@,
                            now,
                            r.0,
                            r.1@,
                        ),
                        Method::Other => *final(self) == *old(self) && r.0.status == 405
                            && r.1@.len() == 0,
                    })
                },
    {
        let sid = match query_get(&req.query, &String::from_str("sid")) {
            Some(s) => Some(s),
            None => query_get(&req.cookies, &String::from_str("io")),
        };
        let sid = match sid {
            None => {
                return self.open_connection(&req.query, fresh_sid, now);
            },
            Some(s) => s,
        };
        let i = match self.find_socket(&sid) {
            Some(i) => i,
            None => {
                let resp = HttpResponse {
                    status: 400,
                    body: "{\"code\":1,\"message\":\"Session ID unknown\"}".as_bytes_vec(),
                    content_type: ContentType::Unset,
                    set_cookie: None,
                    keep_alive: true,
                };
                return (resp, Vec::new());
            },
        };
        match req.method {
            Method::Get => self.handle_get(i, now),
            Method::Post => self.handle_post(i, &req.body, now),
            Method::Other => {
                let resp = HttpResponse {
                    status: 405,
                    body: Vec::new(),
                    content_type: ContentType::Unset,
                    set_cookie: None,
                    keep_alive: true,
                };
                (resp, Vec::new())
            },
        }
    }

    /// Whether a session has gone too long without a pong.
    pub open spec fn spec_timed_out(s: Socket, timeout: u64, now: u64) -> bool {
        now > s.last_pong + timeout
    }

    /// Whether a session is due another ping.
    pub open spec fn spec_needs_ping(s: Socket, interval: u64, now: u64) -> bool {
        now > s.last_ping + interval
    }

    /// The sessions a heartbeat pass keeps: those with a recent enough
    /// pong, in order, as they stood before the pass.
    pub open spec fn spec_survivors(clients: Seq<Socket>, timeout: u64, now: u64) -> Seq<Socket>
        decreases clients.len(),
    {
        if clients.len() == 0 {
            Seq::<Socket>::empty()
        } else {
            (if !Self::spec_timed_out(clients[0], timeout, now) {
                seq![clients[0]]
            } else {
                Seq::<Socket>::empty()
            }) + Self::spec_survivors(clients.skip(1), timeout, now)
        }
    }

    /// The close callbacks one heartbeat pass fires: exactly one per
    /// evicted session that was open with a close callback registered, in
    /// registry order.
    pub open spec fn spec_evict_actions(clients: Seq<Socket>, timeout: u64, now: u64) -> Seq<
        ActionV,
    >
        decreases clients.len(),
    {
        if clients.len() == 0 {
            Seq::<ActionV>::empty()
        } else {
            (if Self::spec_timed_out(clients[0], timeout, now) {
                match clients[0].spec_close_fires() {
                    Some(h) => seq![
                        ActionV::Close { handler: h, reason: CloseReason::PingTimeout },
                    ],
                    None => Seq::<ActionV>::empty(),
                }
            } else {
                Seq::<ActionV>::empty()
            }) + Self::spec_evict_actions(clients.skip(1), timeout, now)
        }
    }

    /// A sid among the survivors was among the sessions.
    proof fn lemma_survivor_sid(clients: Seq<Socket>, timeout: u64, now: u64, t: Seq<char>)
        requires
            spec_has_sid(Self::spec_survivors(clients, timeout, now), t),
        ensures
            spec_has_sid(clients, t),
        decreases clients.len(),
    {
        if clients.len() > 0 {
            let survivors = Self::spec_survivors(clients, timeout, now);
            let rest = Self::spec_survivors(clients.skip(1), timeout, now);
            let w = choose|w: int| 0 <= w < survivors.len() && survivors[w].sid@ == t;
            if !Self::spec_timed_out(clients[0], timeout, now) && w == 0 {
                assert(clients[0].sid@ == t);
            } else {
                let head: int = if Self::spec_timed_out(clients[0], timeout, now) {
                    0
                } else {
                    1
                };
                assert(rest[w - head].sid@ == t);
                Self::lemma_survivor_sid(clients.skip(1), timeout, now, t);
                let v = choose|v: int|
                    0 <= v < clients.skip(1).len() && clients.skip(1)[v].sid@ == t;
                assert(clients[v + 1].sid@ == t);
            }
        }
    }

    /// One more session extends the survivors and the evictions by its own
    /// contribution.
    proof fn lemma_heartbeat_snoc(clients: Seq<Socket>, timeout: u64, now: u64)
        requires
            clients.len() > 0,
        ensures
            Self::spec_survivors(clients, timeout, now) == Self::spec_survivors(
                clients.drop_last(),
                timeout,
                now,
            ) + (if !Self::spec_timed_out(clients.last(), timeout, now) {
                seq![clients.last()]
            } else {
                Seq::<Socket>::empty()
            }),
            Self::spec_evict_actions(clients, timeout, now) == Self::spec_evict_actions(
                clients.drop_last(),
                timeout,
                now,
            ) + (if Self::spec_timed_out(clients.last(), timeout, now) {
                match clients.last().spec_close_fires() {
                    Some(h) => seq![
                        ActionV::Close { handler: h, reason: CloseReason::PingTimeout },
                    ],
                    None => Seq::<ActionV>::empty(),
                }
            } else {
                Seq::<ActionV>::empty()
            }),
        decreases clients.len(),
    {
        if clients.len() == 1 {
            assert(clients.drop_last() =~= Seq::<Socket>::empty());
            assert(clients.skip(1) =~= Seq::<Socket>::empty());
            assert(clients.last() == clients[0]);
            assert(Self::spec_survivors(clients, timeout, now) =~= Self::spec_survivors(
                clients.drop_last(),
                timeout,
                now,
            ) + (if !Self::spec_timed_out(clients.last(), timeout, now) {
                seq![clients.last()]
            } else {
                Seq::<Socket>::empty()
            }));
            assert(Self::spec_evict_actions(clients, timeout, now) =~= Self::spec_evict_actions(
                clients.drop_last(),
                timeout,
                now,
            ) + (if Self::spec_timed_out(clients.last(), timeout, now) {
                match clients.last().spec_close_fires() {
                    Some(h) => seq![
                        ActionV::Close { handler: h, reason: CloseReason::PingTimeout },
                    ],
                    None => Seq::<ActionV>::empty(),
                }
            } else {
                Seq::<ActionV>::empty()
            }));
        } else {
            Self::lemma_heartbeat_snoc(clients.skip(1), timeout, now);
            assert(clients.skip(1).drop_last() =~= clients.drop_last().skip(1));
            assert(clients.skip(1).last() == clients.last());
            assert(clients.drop_last()[0] == clients[0]);
            assert(clients.drop_last().len() > 0);
            assert(Self::spec_survivors(clients, timeout, now) =~= Self::spec_survivors(
                clients.drop_last(),
                timeout,
                now,
            ) + (if !Self::spec_timed_out(clients.last(), timeout, now) {
                seq![clients.last()]
            } else {
                Seq::<Socket>::empty()
            }));
            assert(Self::spec_evict_actions(clients, timeout, now) =~= Self::spec_evict_actions(
                clients.drop_last(),
                timeout,
                now,
            ) + (if Self::spec_timed_out(clients.last(), timeout, now) {
                match clients.last().spec_close_fires() {
                    Some(h) => seq![
                        ActionV::Close { handler: h, reason: CloseReason::PingTimeout },
                    ],
                    None => Seq::<ActionV>::empty(),
                }
            } else {
                Seq::<ActionV>::empty()
            }));
        }
    }

    /// One heartbeat pass at time `now`. Every session whose pong is older
    /// than the timeout is evicted, firing its close callback with the
    /// ping-timeout reason — once, and never again, for it is no longer
    /// registered; every surviving session that has gone a ping interval
    /// without a ping gets a Ping packet queued and its ping timestamp
    /// reset.
    #[verifier::rlimit(100)]
    pub fn heartbeat_pass(&mut self, now: u64) -> (r: Vec<Action>)
        requires
            old(self).wf(),
        ensures
            final(self).wf(),
            final(self).config == old(self).config,
            final(self).on_connection == old(self).on_connection,
            action_views(r@) == Self::spec_evict_actions(
                old(self).clients@,
                old(self).config.ping_timeout,
                now,
            ),
            ({
                let survivors = Self::spec_survivors(
                    old(self).clients@,
                    old(self).config.ping_timeout,
                    now,
                );
                let interval = old(self).config.ping_interval;
                &&& final(self).clients@.len() == survivors.len()
                &&& forall|j: int|
                    #![trigger survivors[j]]
                    0 <= j < survivors.len() ==> {
                        let s0 = survivors[j];
                        let sf = final(self).clients@[j];
                        &&& sf.sid@ == s0.sid@
                        &&& sf.closed == s0.closed
                        &&& sf.last_pong == s0.last_pong
                        &&& sf.b64 == s0.b64
                        &&& sf.xhr2 == s0.xhr2
                        &&& sf.jsonp == s0.jsonp
                        &&& sf.on_close == s0.on_close
                        &&& sf.on_message == s0.on_message
                        &&& sf.on_packet == s0.on_packet
                        &&& sf.on_flush == s0.on_flush
                        &&& (Self::spec_needs_ping(s0, interval, now) ==> sf.last_ping == now
                            && (!s0.closed ==> sf.write_buf() == s0.write_buf().push(
                            PacketV { id: ID::Ping, data: ping_bytes() },
                        )) && (s0.closed ==> sf.write_buf() == s0.write_buf()))
                        &&& (!Self::spec_needs_ping(s0, interval, now) ==> sf.last_ping
                            == s0.last_ping && sf.write_buf() == s0.write_buf())
                    }
            }),
    {
        let timeout = self.config.ping_timeout;
        let interval = self.config.ping_interval;
        let mut pending: Vec<Socket> = Vec::new();
        core::mem::swap(&mut self.clients, &mut pending);
        let mut actions: Vec<Action> = Vec::new();
        let ghost all = pending@;
        let ghost mut done: int = 0;
        proof {
            assert(all.take(0) =~= Seq::<Socket>::empty());
            assert(self.clients@ =~= Seq::<Socket>::empty());
            assert(action_views(actions@) =~= Seq::<ActionV>::empty());
        }
        while pending.len() > 0
            invariant
                old(self).wf(),
                timeout == old(self).config.ping_timeout,
                interval == old(self).config.ping_interval,
                all == old(self).clients@,
                0 <= done <= all.len(),
                pending@ == all.skip(done),
                self.config == old(self).config,
                self.on_connection == old(self).on_connection,
                action_views(actions@) == Self::spec_evict_actions(
                    all.take(done),
                    timeout,
                    now,
                ),
                ({
                    let survivors = Self::spec_survivors(all.take(done), timeout, now);
                    &&& self.clients@.len() == survivors.len()
                    &&& forall|j: int|
                        #![trigger survivors[j]]
                        0 <= j < survivors.len() ==> {
                            let s0 = survivors[j];
                            let sf = self.clients@[j];
                            &&& sf.sid@ == s0.sid@
                            &&& sf.closed == s0.closed
                            &&& sf.last_pong == s0.last_pong
                            &&& sf.b64 == s0.b64
                            &&& sf.xhr2 == s0.xhr2
                            &&& sf.jsonp == s0.jsonp
                            &&& sf.on_close == s0.on_close
                            &&& sf.on_message == s0.on_message
                            &&& sf.on_packet == s0.on_packet
                            &&& sf.on_flush == s0.on_flush
                            &&& sf.wf()
                            &&& (Self::spec_needs_ping(s0, interval, now) ==> sf.last_ping == now
                                && (!s0.closed ==> sf.write_buf() == s0.write_buf().push(
                                PacketV { id: ID::Ping, data: ping_bytes() },
                            )) && (s0.closed ==> sf.write_buf() == s0.write_buf()))
                            &&& (!Self::spec_needs_ping(s0, interval, now) ==> sf.last_ping
                                == s0.last_ping && sf.write_buf() == s0.write_buf())
                        }
                }),
                forall|a: int, b: int|
                    0 <= a < b < self.clients@.len() ==> self.clients@[a].sid@
                        != self.clients@[b].sid@,
            decreases pending@.len(),
        {
            let mut s = pending.remove(0);
            let ghost s0 = all[done];
            let ghost pre_survivors = Self::spec_survivors(all.take(done), timeout, now);
            let ghost pre_actions = actions@;
            proof {
                assert(all.skip(done)[0] == all[done]);
                assert(s == s0);
                assert(pending@ =~= all.skip(done + 1));
                assert(s0.wf()) by {
                    assert(old(self).clients@[done] == s0);
                }
                Self::lemma_heartbeat_snoc(all.take(done + 1), timeout, now);
                assert(all.take(done + 1).drop_last() =~= all.take(done));
                assert(all.take(done + 1).last() == s0);
            }
            let lp = s.get_last_pong();
            if now > lp && now - lp > timeout {
                proof {
                    assert(Self::spec_timed_out(s0, timeout, now));
                }
                match s.close(CloseReason::PingTimeout) {
                    Some(h) => {
                        actions.push(Action::Close { handler: h, reason: CloseReason::PingTimeout });
                        proof {
                            assert(action_views(actions@) =~= action_views(pre_actions).push(
                                ActionV::Close { handler: h, reason: CloseReason::PingTimeout },
                            ));
                            assert(action_views(actions@) =~= Self::spec_evict_actions(
                                all.take(done + 1),
                                timeout,
                                now,
                            ));
                        }
                    },
                    None => {
                        proof {
                            assert(action_views(actions@) =~= Self::spec_evict_actions(
                                all.take(done + 1),
                                timeout,
                                now,
                            ));
                        }
                    },
                }
                proof {
                    assert(Self::spec_survivors(all.take(done + 1), timeout, now)
                        =~= pre_survivors);
                }
            } else {
                proof {
                    assert(!Self::spec_timed_out(s0, timeout, now));
                    assert(Self::spec_survivors(all.take(done + 1), timeout, now) =~= pre_survivors
                        + seq![s0]);
                    assert(action_views(actions@) =~= Self::spec_evict_actions(
                        all.take(done + 1),
                        timeout,
                        now,
                    ));
                }
                let lping = s.get_last_ping();
                if now > lping && now - lping > interval {
                    proof {
                        assert(Self::spec_needs_ping(s0, interval, now));
                        reveal_strlit("ping");
                        vstd::utf8::is_ascii_chars_encode_utf8("ping"@);
                    }
                    let ping = Packet { id: ID::Ping, data: "ping".as_bytes_vec() };
                    proof {
                        assert(ping@ == (PacketV { id: ID::Ping, data: ping_bytes() }));
                    }
                    s.emit(ping);
                    s.reset_last_ping(now);
                } else {
                    proof {
                        assert(!Self::spec_needs_ping(s0, interval, now));
                    }
                }
                proof {
                    assert(!spec_has_sid(pre_survivors, s0.sid@)) by {
                        if spec_has_sid(pre_survivors, s0.sid@) {
                            Self::lemma_survivor_sid(all.take(done), timeout, now, s0.sid@);
                            let w = choose|w: int|
                                0 <= w < all.take(done).len() && all.take(done)[w].sid@
                                    == s0.sid@;
                            assert(old(self).clients@[w].sid@ == old(self).clients@[done].sid@);
                        }
                    }
                    assert(forall|j: int|
                        0 <= j < self.clients@.len() ==> self.clients@[j].sid@
                            == pre_survivors[j].sid@);
                }
                let ghost pre_cl = self.clients@;
                self.clients.push(s);
                proof {
                    let cl = self.clients@;
                    assert(s.sid@ == s0.sid@);
                    assert forall|a: int, b: int| 0 <= a < b < cl.len() implies cl[a].sid@
                        != cl[b].sid@ by {
                        if b == cl.len() - 1 {
                            assert(cl[a] == pre_cl[a]);
                            assert(cl[b] == s);
                            if cl[a].sid@ == s0.sid@ {
                                assert(pre_survivors[a].sid@ == s0.sid@);
                                assert(spec_has_sid(pre_survivors, s0.sid@));
                            }
                        } else {
                            assert(cl[a] == pre_cl[a] && cl[b] == pre_cl[b]);
                        }
                    }
                }
            }
            proof {
                done = done + 1;
            }
        }
        proof {
            assert(done == all.len()) by {
                if done < all.len() {
                    assert(all.skip(done).len() > 0);
                }
            }
            assert(all.take(all.len() as int) =~= all);
            let survivors = Self::spec_survivors(all, timeout, now);
            assert(Self::spec_survivors(all.take(done), timeout, now) == survivors);
            assert forall|i: int| 0 <= i < self.clients@.len() implies (
            #[trigger] self.clients@[i]).wf() by {
                let s0 = survivors[i];
                assert(self.clients@[i].wf());
            }
        }
        actions
    }

    /// Heartbeat eviction holds of every pass: a session whose pong is
    /// older than the timeout is not among the survivors — its sid is
    /// gone from the registry, so no later pass can fire it again — and
    /// `spec_evict_actions` holds exactly one close per evicted session
    /// that had a close callback to fire.
    pub proof fn lemma_heartbeat_eviction(clients: Seq<Socket>, timeout: u64, now: u64, i: int)
        requires
            0 <= i < clients.len(),
            Self::spec_timed_out(clients[i], timeout, now),
            forall|a: int, b: int|
                0 <= a < b < clients.len() ==> clients[a].sid@ != clients[b].sid@,
        ensures
            !spec_has_sid(Self::spec_survivors(clients, timeout, now), clients[i].sid@),
        decreases clients.len(),
    {
        let t = clients[i].sid@;
        let survivors = Self::spec_survivors(clients, timeout, now);
        let rest = Self::spec_survivors(clients.skip(1), timeout, now);
        assert(forall|a: int|
            0 <= a < clients.skip(1).len() ==> #[trigger] clients.skip(1)[a] == clients[a + 1]);
        if i == 0 {
            // the head is evicted; no later session shares its sid, so no
            // survivor carries it
            assert(!spec_has_sid(rest, t)) by {
                if spec_has_sid(rest, t) {
                    Self::lemma_survivor_sid(clients.skip(1), timeout, now, t);
                    let v = choose|v: int|
                        0 <= v < clients.skip(1).len() && clients.skip(1)[v].sid@ == t;
                    assert(clients[v + 1].sid@ == clients[0].sid@);
                }
            }
            assert(survivors =~= rest);
            assert(!spec_has_sid(survivors, t)) by {
                if spec_has_sid(survivors, t) {
                    let w = choose|w: int| 0 <= w < survivors.len() && survivors[w].sid@ == t;
                    assert(rest[w].sid@ == t);
                }
            }
        } else {
            Self::lemma_heartbeat_eviction(clients.skip(1), timeout, now, i - 1);
            assert(!spec_has_sid(rest, t));
            assert(!spec_has_sid(survivors, t)) by {
                if spec_has_sid(survivors, t) {
                    let w = choose|w: int| 0 <= w < survivors.len() && survivors[w].sid@ == t;
                    if !Self::spec_timed_out(clients[0], timeout, now) && w == 0 {
                        assert(clients[0].sid@ == t);
                        assert(clients[0].sid@ != clients[i].sid@);
                    } else {
                        let head: int = if Self::spec_timed_out(clients[0], timeout, now) {
                            0
                        } else {
                            1
                        };
                        assert(rest[w - head].sid@ == t);
                    }
                }
            }
        }
    }

    /// Closes every session, firing each registered close callback with
    /// the server-closing reason, and empties the registry.
    pub fn close(&mut self) -> (r: Vec<Action>)
        requires
            old(self).wf(),
        ensures
            final(self).wf(),
            final(self).clients@.len() == 0,
            final(self).config == old(self).config,
            final(self).on_connection == old(self).on_connection,
            action_views(r@) == Self::spec_close_all(old(self).clients@),
    {
        let mut actions: Vec<Action> = Vec::new();
        let mut pending: Vec<Socket> = Vec::new();
        core::mem::swap(&mut self.clients, &mut pending);
        let ghost all = pending@;
        let ghost mut done: int = 0;
        proof {
            assert(all.take(0) =~= Seq::<Socket>::empty());
            assert(action_views(actions@) =~= Seq::<ActionV>::empty());
        }
        while pending.len() > 0
            invariant
                0 <= done <= all.len(),
                pending@ == all.skip(done),
                self.clients@.len() == 0,
                self.config == old(self).config,
                self.on_connection == old(self).on_connection,
                action_views(actions@) == Self::spec_close_all_prefix(all, done),
            decreases pending@.len(),
        {
            let mut s = pending.remove(0);
            let ghost pre_actions = actions@;
            proof {
                assert(all.skip(done)[0] == all[done]);
                assert(s == all[done]);
                assert(pending@ =~= all.skip(done + 1));
            }
            match s.close(CloseReason::ServerClosing) {
                Some(h) => {
                    actions.push(Action::Close { handler: h, reason: CloseReason::ServerClosing });
                    proof {
                        assert(action_views(actions@) =~= action_views(pre_actions).push(
                            ActionV::Close { handler: h, reason: CloseReason::ServerClosing },
                        ));
                    }
                },
                None => {},
            }
            proof {
                done = done + 1;
            }
        }
        proof {
            assert(all.skip(done) =~= Seq::<Socket>::empty());
            assert(done == all.len());
        }
        actions
    }

    /// The close callbacks fired by closing the first `k` sessions.
    pub open spec fn spec_close_all_prefix(clients: Seq<Socket>, k: int) -> Seq<ActionV>
        decreases k,
    {
        if k <= 0 {
            Seq::<ActionV>::empty()
        } else {
            Self::spec_close_all_prefix(clients, k - 1) + (match clients[k
                - 1].spec_close_fires() {
                Some(h) => seq![ActionV::Close { handler: h, reason: CloseReason::ServerClosing }],
                None => Seq::<ActionV>::empty(),
            })
        }
    }

    /// The close callbacks that closing every session fires, in registry
    /// order.
    pub open spec fn spec_close_all(clients: Seq<Socket>) -> Seq<ActionV> {
        Self::spec_close_all_prefix(clients, clients.len() as int)
    }

    /// Removes the session with this id, if one is registered; the rest
    /// keep their order.
    pub fn remove_socket(&mut self, sid: &String) -> (r: Option<Socket>)
        requires
            old(self).wf(),
        ensures
            final(self).wf(),
            final(self).on_connection == old(self).on_connection,
            final(self).config == old(self).config,
            !spec_has_sid(old(self).clients@, sid@) ==> *final(self) == *old(self) && r is None,
            r matches Some(s) ==> s.sid@ == sid@ && !spec_has_sid(final(self).clients@, sid@),
            spec_has_sid(old(self).clients@, sid@) ==> r is Some && final(self).clients@.len()
                + 1 == old(self).clients@.len(),
            forall|t: Seq<char>|
                t != sid@ ==> (spec_has_sid(final(self).clients@, t) == spec_has_sid(
                    old(self).clients@,
                    t,
                )),
    {
        match self.find_socket(sid) {
            Some(i) => {
                let s = self.clients.remove(i);
                proof {
                    let pre = old(self).clients@;
                    let post = self.clients@;
                    assert(post =~= pre.remove(i as int));
                    assert forall|t: Seq<char>|
                        t != sid@ implies (spec_has_sid(post, t) == spec_has_sid(pre, t)) by {
                        if spec_has_sid(pre, t) {
                            let w = choose|w: int| 0 <= w < pre.len() && pre[w].sid@ == t;
                            if w < i {
                                assert(post[w].sid@ == t);
                            } else {
                                assert(w != i);
                                assert(post[w - 1].sid@ == t);
                            }
                        }
                        if spec_has_sid(post, t) {
                            let w = choose|w: int| 0 <= w < post.len() && post[w].sid@ == t;
                            if w < i {
                                assert(pre[w].sid@ == t);
                            } else {
                                assert(pre[w + 1].sid@ == t);
                            }
                        }
                    }
                    assert(!spec_has_sid(post, sid@)) by {
                        if spec_has_sid(post, sid@) {
                            let w = choose|w: int| 0 <= w < post.len() && post[w].sid@ == sid@;
                            if w < i {
                                assert(pre[w].sid@ == sid@);
                                assert(pre[i as int].sid@ == sid@);
                            } else {
                                assert(pre[w + 1].sid@ == sid@);
                                assert(pre[i as int].sid@ == sid@);
                            }
                        }
                    }
                }
                Some(s)
            },
            None => None,
        }
    }
}

} // verus!
