//! The server's rules: who may connect, who is authenticated by the token,
//! whose messages reach whom, and who is struck and banned for sending too
//! fast or sending text that is not UTF-8.
//!
//! The server holds one connection handle `C` per client and decides; the
//! caller does the writing and the closing that each outcome asks for.

use vstd::prelude::*;
use vstd::utf8::{valid_utf8, decode_utf8, encode_utf8};
use vstd::string::StringSliceAdditionalSpecFns;
use crate::assoc::{
    keys_unique,
    has_key,
    assoc_map,
    lemma_assoc_index,
    lemma_assoc_absent,
    lemma_assoc_empty,
    lemma_assoc_push,
    lemma_assoc_update,
    lemma_assoc_remove,
};

verus! {

/// How long a ban lasts, in nanoseconds (ten minutes).
pub const BAN_LIMIT_NS: u64 = 600_000_000_000;

/// The least time between two messages of a client, in nanoseconds (one second).
pub const MESSAGE_RATE_NS: u64 = 1_000_000_000;

/// How many strikes get a client banned.
pub const STRIKE_LIMIT: u64 = 10;

/// An IP address.
#[derive(Clone, Copy, Debug, PartialEq, Eq, Hash, Structural)]
pub enum Ip {
    V4(u32),
    V6(u128),
}

/// A socket address: an IP address and a port.
#[derive(Clone, Copy, Debug, PartialEq, Eq, Hash, Structural)]
pub struct Addr {
    pub ip: Ip,
    pub port: u16,
}

/// A wall-clock reading: `secs` whole seconds and `nanos` nanoseconds after
/// the Unix epoch; `secs` is negative for readings before it.
#[derive(Clone, Copy, Debug, PartialEq, Eq, Structural)]
pub struct Time {
    pub secs: i64,
    pub nanos: u32,
}

/// What the server knows of a connected client. Times are nanoseconds from
/// the Unix epoch, negative before it.
pub struct Client<C> {
    pub conn: C,
    pub last_message: i128,
    pub strike_count: u64,
    pub authenticated: bool,
}

/// The server's state as mathematical values.
pub struct ServerView<C> {
    pub clients: Map<Addr, Client<C>>,
    pub banned_clients: Map<Ip, i128>,
    pub token: Seq<char>,
}

/// The chat server's state: its clients, the banned addresses with the time
/// of their ban, and the access token.
pub struct Server<C> {
    clients: Vec<(Addr, Client<C>)>,
    banned_clients: Vec<(Ip, i128)>,
    token: String,
}

/// What a connection attempt comes to.
pub enum Connection<C> {
    /// The client was registered and is to be asked for the token.
    Accepted,
    /// The address is banned: the connection is handed back to be told how
    /// long the ban still lasts and to be closed.
    Banned { conn: C, remaining_ns: u64 },
}

/// What a message comes to.
pub enum MessageOutcome<C> {
    /// No client has this address; nothing changed.
    UnknownClient,
    /// The message goes to these clients.
    Broadcast(Vec<Addr>),
    /// The token was right; the client may now send messages.
    Authenticated,
    /// The token was wrong: the client was removed and its connection is
    /// handed back to be told so and closed.
    AuthFailed(C),
    /// The client got a strike and was not banned.
    Strike,
    /// The client got its last strike and its address is banned; its
    /// connection is to be closed. `invalid_text` tells whether the strike was
    /// for text that is not UTF-8 (else for sending too fast).
    Banned { remaining_ns: u64, invalid_text: bool },
}

/// The kind of a [`MessageOutcome`], without the values it hands out.
pub enum MessageEffect {
    UnknownClient,
    Broadcast,
    Authenticated,
    AuthFailed,
    Strike,
    Banned { remaining_ns: u64, invalid_text: bool },
}

/// Why handling a message cannot go on: the clock went back behind the
/// client's last message, the strike count cannot grow, or a ban's remaining
/// time would be negative.
#[derive(Clone, Copy, Debug, PartialEq, Eq, Structural)]
pub enum Fault {
    ClockWentBackwards,
    StrikeCountOverflow,
    BanTimeOverflow,
}

/// The kind of an outcome.
pub open spec fn effect_of<C>(r: MessageOutcome<C>) -> MessageEffect {
    match r {
        MessageOutcome::UnknownClient => MessageEffect::UnknownClient,
        MessageOutcome::Broadcast(_) => MessageEffect::Broadcast,
        MessageOutcome::Authenticated => MessageEffect::Authenticated,
        MessageOutcome::AuthFailed(_) => MessageEffect::AuthFailed,
        MessageOutcome::Strike => MessageEffect::Strike,
        MessageOutcome::Banned { remaining_ns, invalid_text } => MessageEffect::Banned {
            remaining_ns,
            invalid_text,
        },
    }
}

/// A reading in nanoseconds from the Unix epoch.
pub open spec fn ns(t: Time) -> int {
    t.secs * 1_000_000_000 + t.nanos
}

/// A bound on every time the server keeps, far beyond any reading.
pub open spec fn time_bound() -> int {
    100_000_000_000_000_000_000_000_000_000
}

/// The time since a ban, or zero when the clock is behind it.
pub open spec fn ban_elapsed(banned_at: int, now: int) -> int {
    if now >= banned_at {
        now - banned_at
    } else {
        0
    }
}

/// Whether `ip` is banned at `now`.
pub open spec fn is_banned(banned: Map<Ip, i128>, ip: Ip, now: int) -> bool {
    banned.contains_key(ip) && ban_elapsed(banned[ip] as int, now) < BAN_LIMIT_NS
}

/// A client that has just connected at `now`: not authenticated, no strikes,
/// and a last message two message periods back, so that its first message
/// is on time.
pub open spec fn fresh_client<C>(conn: C, now: int) -> Client<C> {
    Client {
        conn,
        last_message: (now - 2 * MESSAGE_RATE_NS) as i128,
        strike_count: 0,
        authenticated: false,
    }
}

/// What a connection from `addr` at `now` does to the server, and its
/// outcome: a banned address is turned away and nothing changes; otherwise
/// an expired ban is lifted and a fresh client registered, replacing any
/// client of the same address.
pub open spec fn connect_step<C>(s: ServerView<C>, addr: Addr, conn: C, now: int) -> (
    ServerView<C>,
    Connection<C>,
) {
    if is_banned(s.banned_clients, addr.ip, now) {
        (
            s,
            Connection::Banned {
                conn,
                remaining_ns: (BAN_LIMIT_NS - ban_elapsed(
                    s.banned_clients[addr.ip] as int,
                    now,
                )) as u64,
            },
        )
    } else {
        (
            ServerView {
                clients: s.clients.insert(addr, fresh_client(conn, now)),
                banned_clients: s.banned_clients.remove(addr.ip),
                token: s.token,
            },
            Connection::Accepted,
        )
    }
}

/// The authenticated clients other than `author`: who receives its message.
pub open spec fn recipients<C>(s: ServerView<C>, author: Addr) -> Set<Addr> {
    Set::new(|a: Addr| s.clients.contains_key(a) && a != author && s.clients[a].authenticated)
}

/// Whether a message is handled as accepted text: on time and valid UTF-8.
pub open spec fn accepted_text(last: int, bytes: Seq<u8>, now: int) -> bool {
    now - last >= MESSAGE_RATE_NS && valid_utf8(bytes)
}

/// What stops a message from being handled, if anything.
pub open spec fn spec_message_fault<C>(s: ServerView<C>, addr: Addr, bytes: Seq<u8>, now: int) -> Option<
    Fault,
> {
    if !s.clients.contains_key(addr) {
        None
    } else {
        let c = s.clients[addr];
        if now < c.last_message {
            Some(Fault::ClockWentBackwards)
        } else if accepted_text(c.last_message as int, bytes, now) {
            None
        } else if c.strike_count == u64::MAX {
            Some(Fault::StrikeCountOverflow)
        } else if c.strike_count + 1 >= STRIKE_LIMIT && now - c.last_message > BAN_LIMIT_NS {
            Some(Fault::BanTimeOverflow)
        } else {
            None
        }
    }
}

/// A strike for `addr`, whose client is `c`: counted, and a ban at
/// `STRIKE_LIMIT` strikes.
pub open spec fn strike<C>(
    s: ServerView<C>,
    addr: Addr,
    c: Client<C>,
    now: int,
    invalid_text: bool,
) -> (ServerView<C>, MessageEffect) {
    let struck = Client {
        conn: c.conn,
        last_message: c.last_message,
        strike_count: (c.strike_count + 1) as u64,
        authenticated: c.authenticated,
    };
    let s1 = ServerView { clients: s.clients.insert(addr, struck), ..s };
    if struck.strike_count >= STRIKE_LIMIT {
        (
            ServerView { banned_clients: s1.banned_clients.insert(addr.ip, now as i128), ..s1 },
            MessageEffect::Banned {
                remaining_ns: (BAN_LIMIT_NS - (now - c.last_message)) as u64,
                invalid_text,
            },
        )
    } else {
        (s1, MessageEffect::Strike)
    }
}

/// What a message `bytes` from `addr` at `now` does to the server, and its kind.
pub open spec fn message_step<C>(s: ServerView<C>, addr: Addr, bytes: Seq<u8>, now: int) -> (
    ServerView<C>,
    MessageEffect,
) {
    if !s.clients.contains_key(addr) {
        (s, MessageEffect::UnknownClient)
    } else {
        let c = s.clients[addr];
        if now - c.last_message >= MESSAGE_RATE_NS {
            if valid_utf8(bytes) {
                let on_time = Client {
                    conn: c.conn,
                    last_message: now as i128,
                    strike_count: c.strike_count,
                    authenticated: c.authenticated,
                };
                if c.authenticated {
                    (
                        ServerView { clients: s.clients.insert(addr, on_time), ..s },
                        MessageEffect::Broadcast,
                    )
                } else if decode_utf8(bytes) == s.token {
                    (
                        ServerView {
                            clients: s.clients.insert(
                                addr,
                                Client { authenticated: true, ..on_time },
                            ),
                            ..s
                        },
                        MessageEffect::Authenticated,
                    )
                } else {
                    (
                        ServerView { clients: s.clients.remove(addr), ..s },
                        MessageEffect::AuthFailed,
                    )
                }
            } else {
                strike(s, addr, c, now, true)
            }
        } else {
            strike(s, addr, c, now, false)
        }
    }
}

/// What the server's thread receives, with the reading of the clock where
/// the event uses one.
pub enum ServerEvent<C> {
    Connect { addr: Addr, conn: C, now: int },
    Disconnect { addr: Addr },
    Message { addr: Addr, bytes: Seq<u8>, now: int },
}

/// What one event does to the server.
pub open spec fn event_step<C>(s: ServerView<C>, e: ServerEvent<C>) -> ServerView<C> {
    match e {
        ServerEvent::Connect { addr, conn, now } => connect_step(s, addr, conn, now).0,
        ServerEvent::Disconnect { addr } => ServerView { clients: s.clients.remove(addr), ..s },
        ServerEvent::Message { addr, bytes, now } => message_step(s, addr, bytes, now).0,
    }
}

/// What a run of events does to the server, the first event first.
pub open spec fn run<C>(s: ServerView<C>, events: Seq<ServerEvent<C>>) -> ServerView<C>
    decreases events.len(),
{
    if events.len() == 0 {
        s
    } else {
        run(event_step(s, events[0]), events.drop_first())
    }
}

/// `std::str::from_utf8`: it succeeds exactly when the bytes are valid UTF-8.
#[verifier::external_body]
fn is_utf8(bytes: &[u8]) -> (r: bool)
    ensures
        r == valid_utf8(bytes@),
{
    std::str::from_utf8(bytes).is_ok()
}

proof fn lemma_token_text(bytes: Seq<u8>, token: Seq<char>)
    ensures
        (valid_utf8(bytes) && decode_utf8(bytes) == token) <==> bytes == encode_utf8(token),
{
    vstd::utf8::encode_utf8_valid_utf8(token);
    vstd::utf8::encode_utf8_decode_utf8(token);
    if valid_utf8(bytes) {
        vstd::utf8::decode_utf8_encode_utf8(bytes);
    }
}

/// The reading `t` in nanoseconds from the Unix epoch.
fn time_ns(t: Time) -> (r: i128)
    ensures
        r == ns(t),
        -10_000_000_000_000_000_000_000_000_000 <= r <= 10_000_000_000_000_000_000_000_000_000,
{
    assert(-10_000_000_000_000_000_000_000_000_000 <= t.secs * 1_000_000_000 + t.nanos
        <= 10_000_000_000_000_000_000_000_000_000) by (nonlinear_arith)
        requires
            -0x8000_0000_0000_0000 <= t.secs < 0x8000_0000_0000_0000,
            0 <= t.nanos < 0x1_0000_0000,
    ;
    t.secs as i128 * 1_000_000_000 + t.nanos as i128
}

/// The times kept are within [`time_bound`].
pub open spec fn times_bounded<C>(
    clients: Seq<(Addr, Client<C>)>,
    bans: Seq<(Ip, i128)>,
) -> bool {
    &&& forall|i: int|
        0 <= i < clients.len() ==> -time_bound() <= #[trigger] clients[i].1.last_message
            <= time_bound()
    &&& forall|i: int| 0 <= i < bans.len() ==> -time_bound() <= #[trigger] bans[i].1 <= time_bound()
}

impl<C> View for Server<C> {
    type V = ServerView<C>;

    closed spec fn view(&self) -> ServerView<C> {
        ServerView {
            clients: assoc_map(self.clients@),
            banned_clients: assoc_map(self.banned_clients@),
            token: self.token@,
        }
    }
}

impl<C> Server<C> {
    /// No address occurs twice among the clients or among the bans, and
    /// every time kept is within [`time_bound`].
    pub closed spec fn wf(&self) -> bool {
        &&& keys_unique(self.clients@)
        &&& keys_unique(self.banned_clients@)
        &&& times_bounded(self.clients@, self.banned_clients@)
    }

    /// A server with no clients and no bans that accepts `token`.
    pub fn with_token(token: String) -> (r: Self)
        ensures
            r.wf(),
            r@.clients == Map::<Addr, Client<C>>::empty(),
            r@.banned_clients == Map::<Ip, i128>::empty(),
            r@.token == token@,
    {
        proof {
            lemma_assoc_empty::<Addr, Client<C>>();
            lemma_assoc_empty::<Ip, i128>();
        }
        Server { clients: Vec::new(), banned_clients: Vec::new(), token }
    }

    fn find_client(&self, addr: Addr) -> (r: Option<usize>)
        requires
            self.wf(),
        ensures
            match r {
                Some(i) => i < self.clients@.len() && self.clients@[i as int].0 == addr,
                None => !has_key(self.clients@, addr),
            },
    {
        let mut i: usize = 0;
        while i < self.clients.len()
            invariant
                i <= self.clients@.len(),
                forall|j: int| 0 <= j < i ==> self.clients@[j].0 != addr,
            decreases self.clients@.len() - i,
        {
            if self.clients[i].0 == addr {
                return Some(i);
            }
            i = i + 1;
        }
        None
    }

    fn find_ban(&self, ip: Ip) -> (r: Option<usize>)
        requires
            self.wf(),
        ensures
            match r {
                Some(i) => i < self.banned_clients@.len() && self.banned_clients@[i as int].0 == ip,
                None => !has_key(self.banned_clients@, ip),
            },
    {
        let mut i: usize = 0;
        while i < self.banned_clients.len()
            invariant
                i <= self.banned_clients@.len(),
                forall|j: int| 0 <= j < i ==> self.banned_clients@[j].0 != ip,
            decreases self.banned_clients@.len() - i,
        {
            if self.banned_clients[i].0 == ip {
                return Some(i);
            }
            i = i + 1;
        }
        None
    }

    /// The connection of the client at `addr`, if there is one.
    pub fn connection(&self, addr: Addr) -> (r: Option<&C>)
        requires
            self.wf(),
        ensures
            r is Some <==> self@.clients.contains_key(addr),
            r matches Some(c) ==> *c == self@.clients[addr].conn,
    {
        match self.find_client(addr) {
            Some(i) => {
                proof {
                    lemma_assoc_index(self.clients@, i as int);
                }
                Some(&self.clients[i].1.conn)
            },
            None => None,
        }
    }

    fn insert_ban(&mut self, ip: Ip, at: i128)
        requires
            old(self).wf(),
            -time_bound() <= at <= time_bound(),
        ensures
            final(self).wf(),
            final(self).clients == old(self).clients,
            final(self).token == old(self).token,
            final(self)@.banned_clients == old(self)@.banned_clients.insert(ip, at),
    {
        match self.find_ban(ip) {
            Some(j) => {
                proof {
                    lemma_assoc_update(self.banned_clients@, j as int, at);
                }
                self.banned_clients.set(j, (ip, at));
            },
            None => {
                proof {
                    lemma_assoc_push(self.banned_clients@, ip, at);
                }
                self.banned_clients.push((ip, at));
            },
        }
    }

    /// A client connects from `author_addr` at `now`: a banned address is
    /// turned away, its ban kept; otherwise an expired ban is lifted and the
    /// client is registered, replacing any client of the same address (see
    /// [`connect_step`]).
    pub fn client_connected(&mut self, author_addr: Addr, author: C, now: Time) -> (r: Connection<C>)
        requires
            old(self).wf(),
        ensures
            final(self).wf(),
            (final(self)@, r) == connect_step(old(self)@, author_addr, author, ns(now)),
    {
        let now = time_ns(now);
        let ip = author_addr.ip;
        if let Some(j) = self.find_ban(ip) {
            proof {
                lemma_assoc_index(self.banned_clients@, j as int);
            }
            let banned_at = self.banned_clients[j].1;
            let diff = if now >= banned_at {
                now - banned_at
            } else {
                0
            };
            if diff < BAN_LIMIT_NS as i128 {
                return Connection::Banned {
                    conn: author,
                    remaining_ns: (BAN_LIMIT_NS as i128 - diff) as u64,
                };
            }
            proof {
                lemma_assoc_remove(self.banned_clients@, j as int);
            }
            self.banned_clients.remove(j);
        } else {
            proof {
                lemma_assoc_absent(self.banned_clients@, ip);
                assert(assoc_map(self.banned_clients@).remove(ip) =~= assoc_map(
                    self.banned_clients@,
                ));
            }
        }
        let client = Client {
            conn: author,
            last_message: now - 2 * MESSAGE_RATE_NS as i128,
            strike_count: 0,
            authenticated: false,
        };
        match self.find_client(author_addr) {
            Some(i) => {
                proof {
                    lemma_assoc_update(self.clients@, i as int, client);
                }
                self.clients.set(i, (author_addr, client));
            },
            None => {
                proof {
                    lemma_assoc_push(self.clients@, author_addr, client);
                }
                self.clients.push((author_addr, client));
            },
        }
        Connection::Accepted
    }

    /// The client at `author_addr` has gone.
    pub fn client_disconnected(&mut self, author_addr: Addr)
        requires
            old(self).wf(),
        ensures
            final(self).wf(),
            final(self)@ == (ServerView {
                clients: old(self)@.clients.remove(author_addr),
                ..old(self)@
            }),
    {
        match self.find_client(author_addr) {
            Some(i) => {
                proof {
                    lemma_assoc_remove(self.clients@, i as int);
                }
                self.clients.remove(i);
            },
            None => {
                proof {
                    lemma_assoc_absent(self.clients@, author_addr);
                    assert(assoc_map(self.clients@).remove(author_addr) =~= assoc_map(
                        self.clients@,
                    ));
                }
            },
        }
    }

    /// Puts a client taken out at index `i` back in its place.
    fn put_back(
        &mut self,
        i: usize,
        a: Addr,
        c: Client<C>,
        Ghost(v): Ghost<Seq<(Addr, Client<C>)>>,
    )
        requires
            keys_unique(v),
            i < v.len(),
            v[i as int].0 == a,
            old(self).clients@ == v.remove(i as int),
            keys_unique(old(self).banned_clients@),
            times_bounded(old(self).clients@, old(self).banned_clients@),
            -time_bound() <= c.last_message <= time_bound(),
        ensures
            final(self).wf(),
            final(self)@ == (ServerView { clients: assoc_map(v).insert(a, c), ..old(self)@ }),
    {
        self.clients.insert(i, (a, c));
        proof {
            assert(self.clients@ =~= v.update(i as int, (a, c)));
            lemma_assoc_update(v, i as int, c);
        }
    }

    fn token_matches(&self, bytes: &[u8]) -> (r: bool)
        ensures
            r == (bytes@ == encode_utf8(self@.token)),
    {
        let t = self.token.as_str().as_bytes();
        if t.len() != bytes.len() {
            return false;
        }
        let mut i: usize = 0;
        while i < t.len()
            invariant
                i <= t@.len(),
                t@.len() == bytes@.len(),
                t@ == encode_utf8(self@.token),
                forall|j: int| 0 <= j < i ==> t@[j] == bytes@[j],
            decreases t@.len() - i,
        {
            if t[i] != bytes[i] {
                return false;
            }
            i = i + 1;
        }
        assert(t@ =~= bytes@);
        true
    }

    fn recipients_of(&self, author: Addr) -> (r: Vec<Addr>)
        requires
            self.wf(),
        ensures
            r@.no_duplicates(),
            r@.to_set() == recipients(self@, author),
    {
        let mut r: Vec<Addr> = Vec::new();
        let ghost mut idx: Seq<int> = Seq::empty();
        let mut i: usize = 0;
        while i < self.clients.len()
            invariant
                self.wf(),
                i <= self.clients@.len(),
                idx.len() == r@.len(),
                forall|k: int|
                    0 <= k < idx.len() ==> 0 <= #[trigger] idx[k] < i && self.clients@[idx[k]].0
                        == r@[k] && r@[k] != author && self.clients@[idx[k]].1.authenticated,
                forall|k1: int, k2: int| 0 <= k1 < k2 < idx.len() ==> idx[k1] < idx[k2],
                forall|j: int|
                    0 <= j < i && self.clients@[j].0 != author && self.clients@[j].1.authenticated
                        ==> r@.contains(#[trigger] self.clients@[j].0),
            decreases self.clients@.len() - i,
        {
            if self.clients[i].0 != author && self.clients[i].1.authenticated {
                let ghost r0 = r@;
                r.push(self.clients[i].0);
                proof {
                    idx = idx.push(i as int);
                    let k = (r@.len() - 1) as int;
                    assert(r@[k] == self.clients@[i as int].0);
                    assert forall|j: int|
                        0 <= j < i + 1 && self.clients@[j].0 != author
                            && self.clients@[j].1.authenticated implies r@.contains(
                        #[trigger] self.clients@[j].0,
                    ) by {
                        if j == i {
                            assert(r@[k] == self.clients@[j].0);
                        } else {
                            assert(r0.contains(self.clients@[j].0));
                            let m = choose|m: int| 0 <= m < r0.len() && r0[m] == self.clients@[j].0;
                            assert(r@[m] == self.clients@[j].0);
                        }
                    }
                }
            }
            i = i + 1;
        }
        proof {
            assert forall|k1: int, k2: int| 0 <= k1 < r@.len() && 0 <= k2 < r@.len() && k1 != k2 implies r@[k1]
                != r@[k2] by {
                assert(idx[k1] != idx[k2]);
            }
            assert forall|a: Addr| #[trigger] r@.to_set().contains(a) == recipients(self@, author).contains(a) by {
                if r@.contains(a) {
                    let k = choose|k: int| 0 <= k < r@.len() && r@[k] == a;
                    lemma_assoc_index(self.clients@, idx[k]);
                }
                if recipients(self@, author).contains(a) {
                    assert(has_key(self.clients@, a));
                    let j = choose|j: int| 0 <= j < self.clients@.len() && self.clients@[j].0 == a;
                    lemma_assoc_index(self.clients@, j);
                }
            }
            assert(r@.to_set() =~= recipients(self@, author));
        }
        r
    }

    /// What stops a message of `author_addr` at `now` from being handled, if
    /// anything: the conditions under which [`Server::new_message`] cannot
    /// be called, which are those on which the message handling would
    /// overflow.
    pub fn message_fault(&self, author_addr: Addr, bytes: &[u8], now: Time) -> (r: Option<Fault>)
        requires
            self.wf(),
        ensures
            r == spec_message_fault(self@, author_addr, bytes@, ns(now)),
    {
        let now = time_ns(now);
        match self.find_client(author_addr) {
            None => {
                proof {
                    lemma_assoc_absent(self.clients@, author_addr);
                }
                None
            },
            Some(i) => {
                proof {
                    lemma_assoc_index(self.clients@, i as int);
                }
                let c = &self.clients[i].1;
                if now < c.last_message {
                    Some(Fault::ClockWentBackwards)
                } else if now - c.last_message >= MESSAGE_RATE_NS as i128 && is_utf8(bytes) {
                    None
                } else if c.strike_count == u64::MAX {
                    Some(Fault::StrikeCountOverflow)
                } else if c.strike_count + 1 >= STRIKE_LIMIT && now - c.last_message
                    > BAN_LIMIT_NS as i128 {
                    Some(Fault::BanTimeOverflow)
                } else {
                    None
                }
            },
        }
    }

    /// A message `bytes` from `author_addr` arrives at `now`. A message at
    /// least [`MESSAGE_RATE_NS`] after the client's last one and in valid
    /// UTF-8 is taken: an authenticated client's message goes to every other
    /// authenticated client; from any other client it is a try of the token,
    /// which authenticates the client or removes it. Any other message is a
    /// strike, and the [`STRIKE_LIMIT`]th strike bans the client's IP address
    /// (see [`message_step`]).
    pub fn new_message(&mut self, author_addr: Addr, bytes: &[u8], now: Time) -> (r: MessageOutcome<C>)
        requires
            old(self).wf(),
            spec_message_fault(old(self)@, author_addr, bytes@, ns(now)) is None,
        ensures
            final(self).wf(),
            (final(self)@, effect_of(r)) == message_step(old(self)@, author_addr, bytes@, ns(now)),
            r matches MessageOutcome::Broadcast(to) ==> to@.no_duplicates() && to@.to_set()
                == recipients(old(self)@, author_addr),
            r matches MessageOutcome::AuthFailed(conn) ==> conn == old(self)@.clients[author_addr].conn,
    {
        let now = time_ns(now);
        let i = match self.find_client(author_addr) {
            Some(i) => i,
            None => {
                proof {
                    lemma_assoc_absent(self.clients@, author_addr);
                }
                return MessageOutcome::UnknownClient;
            },
        };
        let ghost s0 = self@;
        let ghost v = self.clients@;
        proof {
            lemma_assoc_index(v, i as int);
            lemma_assoc_remove(v, i as int);
        }
        let (a, c) = self.clients.remove(i);
        proof {
            assert(v[i as int].1 == c);
            assert(-time_bound() <= c.last_message <= time_bound());
            assert forall|k: int| 0 <= k < self.clients@.len() implies -time_bound()
                <= #[trigger] self.clients@[k].1.last_message <= time_bound() by {
                let kk = if k < i { k } else { k + 1 };
                assert(self.clients@[k] == v[kk]);
            }
        }
        let diff = now - c.last_message;
        if diff >= MESSAGE_RATE_NS as i128 && is_utf8(bytes) {
            if c.authenticated {
                let on_time = Client {
                    conn: c.conn,
                    last_message: now,
                    strike_count: c.strike_count,
                    authenticated: true,
                };
                self.put_back(i, a, on_time, Ghost(v));
                let to = self.recipients_of(author_addr);
                proof {
                    assert(recipients(self@, author_addr) =~= recipients(s0, author_addr));
                }
                MessageOutcome::Broadcast(to)
            } else if self.token_matches(bytes) {
                proof {
                    lemma_token_text(bytes@, s0.token);
                }
                let welcomed = Client {
                    conn: c.conn,
                    last_message: now,
                    strike_count: c.strike_count,
                    authenticated: true,
                };
                self.put_back(i, a, welcomed, Ghost(v));
                MessageOutcome::Authenticated
            } else {
                proof {
                    lemma_token_text(bytes@, s0.token);
                }
                MessageOutcome::AuthFailed(c.conn)
            }
        } else {
            let invalid_text = diff >= MESSAGE_RATE_NS as i128;
            let strike_count = c.strike_count + 1;
            let struck = Client {
                conn: c.conn,
                last_message: c.last_message,
                strike_count,
                authenticated: c.authenticated,
            };
            self.put_back(i, a, struck, Ghost(v));
            if strike_count >= STRIKE_LIMIT {
                self.insert_ban(author_addr.ip, now);
                MessageOutcome::Banned {
                    remaining_ns: (BAN_LIMIT_NS as i128 - diff) as u64,
                    invalid_text,
                }
            } else {
                MessageOutcome::Strike
            }
        }
    }
}


/// The bytes of a read that the server keeps: control characters (below 32)
/// are dropped.
pub open spec fn printable(b: Seq<u8>) -> Seq<u8> {
    b.filter(|x: u8| x >= 32)
}

/// What a read of `read` from a client's connection comes to: `None` when
/// the read is empty (the client has gone), else the bytes without control
/// characters, which make the client's message.
pub fn received_bytes(read: &[u8]) -> (r: Option<Vec<u8>>)
    ensures
        r is None <==> read@.len() == 0,
        r matches Some(v) ==> v@ == printable(read@),
{
    if read.len() == 0 {
        return None;
    }
    let mut bytes: Vec<u8> = Vec::new();
    let mut i: usize = 0;
    while i < read.len()
        invariant
            i <= read@.len(),
            bytes@ == printable(read@.take(i as int)),
        decreases read@.len() - i,
    {
        proof {
            reveal_with_fuel(Seq::<_>::filter, 1);
            assert(read@.take(i + 1).drop_last() =~= read@.take(i as int));
            assert(read@.take(i + 1).last() == read@[i as int]);
        }
        if read[i] >= 32 {
            bytes.push(read[i]);
        }
        i = i + 1;
    }
    assert(read@.take(read@.len() as int) =~= read@);
    Some(bytes)
}

/// What is shown in place of a sensitive value: in sensitive mode the text
/// `[REDACTED]`; otherwise nothing takes its place (`None`), and the value
/// is shown as it is.
pub fn redaction(sensitive_mode: bool) -> (r: Option<String>)
    ensures
        sensitive_mode ==> (r matches Some(t) && t@ == "[REDACTED]"@),
        !sensitive_mode ==> r is None,
{
    if sensitive_mode {
        Some("[REDACTED]".to_owned())
    } else {
        None
    }
}

/// A client that has not sent the token never has its messages passed on:
/// its accepted text is a try of the token.
pub proof fn lemma_unauthenticated_never_broadcast<C>(
    s: ServerView<C>,
    addr: Addr,
    bytes: Seq<u8>,
    now: int,
)
    requires
        s.clients.contains_key(addr),
        !s.clients[addr].authenticated,
    ensures
        message_step(s, addr, bytes, now).1 != MessageEffect::Broadcast,
{
}

/// A message is passed on only to authenticated clients, and never back to
/// its author.
pub proof fn lemma_recipients_authenticated<C>(s: ServerView<C>, author: Addr, a: Addr)
    requires
        recipients(s, author).contains(a),
    ensures
        a != author,
        s.clients.contains_key(a),
        s.clients[a].authenticated,
{
}

/// A client becomes authenticated only by sending exactly the token, on
/// time and in valid UTF-8.
pub proof fn lemma_authentication_needs_token<C>(
    s: ServerView<C>,
    addr: Addr,
    bytes: Seq<u8>,
    now: int,
)
    requires
        s.clients.contains_key(addr),
        !s.clients[addr].authenticated,
        ({
            let t = message_step(s, addr, bytes, now).0;
            t.clients.contains_key(addr) && t.clients[addr].authenticated
        }),
    ensures
        valid_utf8(bytes),
        decode_utf8(bytes) == s.token,
        now - s.clients[addr].last_message >= MESSAGE_RATE_NS,
{
}

/// A wrong token ends the client: after it the server no longer knows it.
pub proof fn lemma_wrong_token_removes<C>(s: ServerView<C>, addr: Addr, bytes: Seq<u8>, now: int)
    requires
        s.clients.contains_key(addr),
        !s.clients[addr].authenticated,
        accepted_text(s.clients[addr].last_message as int, bytes, now),
        decode_utf8(bytes) != s.token,
    ensures
        !message_step(s, addr, bytes, now).0.clients.contains_key(addr),
        message_step(s, addr, bytes, now).1 == MessageEffect::AuthFailed,
{
}

/// A message changes no client but its author, and never touches the token.
pub proof fn lemma_message_touches_only_author<C>(
    s: ServerView<C>,
    addr: Addr,
    bytes: Seq<u8>,
    now: int,
    other: Addr,
)
    requires
        other != addr,
    ensures
        message_step(s, addr, bytes, now).0.clients.contains_key(other) == s.clients.contains_key(
            other,
        ),
        s.clients.contains_key(other) ==> message_step(s, addr, bytes, now).0.clients[other]
            == s.clients[other],
        message_step(s, addr, bytes, now).0.token == s.token,
{
}

/// A message sent sooner than [`MESSAGE_RATE_NS`] after the client's last
/// one is not passed on: it is a strike, and changes nothing else of the
/// client.
pub proof fn lemma_too_fast_is_strike<C>(s: ServerView<C>, addr: Addr, bytes: Seq<u8>, now: int)
    requires
        s.clients.contains_key(addr),
        spec_message_fault(s, addr, bytes, now) is None,
        now - s.clients[addr].last_message < MESSAGE_RATE_NS,
    ensures
        ({
            let (t, e) = message_step(s, addr, bytes, now);
            &&& e is Strike || e is Banned
            &&& t.clients[addr].strike_count == s.clients[addr].strike_count + 1
            &&& t.clients[addr].last_message == s.clients[addr].last_message
            &&& t.clients[addr].authenticated == s.clients[addr].authenticated
        }),
{
}

/// Strikes only grow: a message leaves the author with at least as many.
pub proof fn lemma_strikes_never_decrease<C>(s: ServerView<C>, addr: Addr, bytes: Seq<u8>, now: int)
    requires
        s.clients.contains_key(addr),
        spec_message_fault(s, addr, bytes, now) is None,
        message_step(s, addr, bytes, now).0.clients.contains_key(addr),
    ensures
        message_step(s, addr, bytes, now).0.clients[addr].strike_count >= s.clients[addr].strike_count,
{
}

/// The strike that brings a client to [`STRIKE_LIMIT`] bans its IP address
/// from that moment.
pub proof fn lemma_strike_limit_bans<C>(s: ServerView<C>, addr: Addr, bytes: Seq<u8>, now: int)
    requires
        s.clients.contains_key(addr),
        !accepted_text(s.clients[addr].last_message as int, bytes, now),
        spec_message_fault(s, addr, bytes, now) is None,
        s.clients[addr].strike_count + 1 >= STRIKE_LIMIT,
        -time_bound() <= now <= time_bound(),
    ensures
        message_step(s, addr, bytes, now).1 is Banned,
        message_step(s, addr, bytes, now).0.banned_clients == s.banned_clients.insert(addr.ip, now as i128),
        is_banned(message_step(s, addr, bytes, now).0.banned_clients, addr.ip, now),
{
}

/// A ban holds for [`BAN_LIMIT_NS`]: an address banned at `at` is turned
/// away at any time from `at` until the ban's end.
pub proof fn lemma_ban_holds(banned: Map<Ip, i128>, ip: Ip, at: i128, now: int)
    requires
        at <= now < at + BAN_LIMIT_NS,
    ensures
        is_banned(banned.insert(ip, at), ip, now),
{
}

/// A ban ends: from [`BAN_LIMIT_NS`] after it, the address is let in.
pub proof fn lemma_ban_expires(banned: Map<Ip, i128>, ip: Ip, at: i128, now: int)
    requires
        now >= at + BAN_LIMIT_NS,
    ensures
        !is_banned(banned.insert(ip, at), ip, now),
{
}

/// A client that has just connected may send at once: its first message is
/// never too fast, whenever it comes.
pub proof fn lemma_first_message_on_time<C>(conn: C, connected_at: int, now: int)
    requires
        -time_bound() <= connected_at <= time_bound(),
        now >= connected_at,
    ensures
        now - fresh_client(conn, connected_at).last_message >= MESSAGE_RATE_NS,
        !fresh_client(conn, connected_at).authenticated,
        fresh_client(conn, connected_at).strike_count == 0,
{
}

/// Once gone, a client's messages change nothing.
pub proof fn lemma_disconnected_ignored<C>(s: ServerView<C>, addr: Addr, bytes: Seq<u8>, now: int)
    ensures
        ({
            let gone = ServerView { clients: s.clients.remove(addr), ..s };
            message_step(gone, addr, bytes, now) == (gone, MessageEffect::UnknownClient)
        }),
{
}

/// A ban covers the whole IP address: two connections from the same address
/// at the same moment, whatever their ports, are both turned away or both
/// let in.
pub proof fn lemma_ban_covers_ip<C>(s: ServerView<C>, a1: Addr, a2: Addr, c1: C, c2: C, now: int)
    requires
        a1.ip == a2.ip,
    ensures
        connect_step(s, a1, c1, now).1 is Banned <==> connect_step(s, a2, c2, now).1 is Banned,
{
}

/// A connection changes nothing but its own address's client and its own IP
/// address's ban, which it only ever lifts; the token stays.
pub proof fn lemma_connect_touches_only_author<C>(
    s: ServerView<C>,
    addr: Addr,
    conn: C,
    now: int,
    other: Addr,
    ip: Ip,
)
    requires
        other != addr,
        ip != addr.ip,
    ensures
        ({
            let t = connect_step(s, addr, conn, now).0;
            &&& t.token == s.token
            &&& t.clients.contains_key(other) == s.clients.contains_key(other)
            &&& s.clients.contains_key(other) ==> t.clients[other] == s.clients[other]
            &&& t.banned_clients.contains_key(ip) == s.banned_clients.contains_key(ip)
            &&& s.banned_clients.contains_key(ip) ==> t.banned_clients[ip] == s.banned_clients[ip]
            &&& t.banned_clients.contains_key(addr.ip) ==> s.banned_clients.contains_key(addr.ip)
                && t.banned_clients[addr.ip] == s.banned_clients[addr.ip]
        }),
{
}

/// From [`BAN_LIMIT_NS`] after a ban the address is let in: the ban is
/// dropped and a fresh client registered.
pub proof fn lemma_ban_lifted<C>(s: ServerView<C>, addr: Addr, conn: C, now: int)
    requires
        s.banned_clients.contains_key(addr.ip),
        now >= s.banned_clients[addr.ip] + BAN_LIMIT_NS,
    ensures
        connect_step(s, addr, conn, now).1 == Connection::<C>::Accepted,
        !connect_step(s, addr, conn, now).0.banned_clients.contains_key(addr.ip),
        connect_step(s, addr, conn, now).0.clients[addr] == fresh_client(conn, now),
{
}

/// The events of a run, taken from `s`, leave the ban of `ip` at `at`
/// alone: every connection from `ip` comes within [`BAN_LIMIT_NS`] from
/// `at`, and no message from `ip` gets its author banned anew.
pub open spec fn respects_ban<C>(s: ServerView<C>, events: Seq<ServerEvent<C>>, ip: Ip, at: int) -> bool {
    forall|k: int|
        0 <= k < events.len() ==> match #[trigger] events[k] {
            ServerEvent::Connect { addr, now, .. } => addr.ip == ip ==> at <= now < at
                + BAN_LIMIT_NS,
            ServerEvent::Message { addr, bytes, now } => addr.ip == ip ==> !(message_step(
                run(s, events.take(k)),
                addr,
                bytes,
                now,
            ).1 is Banned),
            ServerEvent::Disconnect { .. } => true,
        }
}

/// Running a prefix of `k` events is running the first one, then the next
/// `k - 1`.
proof fn lemma_run_prefix<C>(s: ServerView<C>, events: Seq<ServerEvent<C>>, k: int)
    requires
        1 <= k <= events.len(),
    ensures
        run(s, events.take(k)) == run(event_step(s, events[0]), events.drop_first().take(k - 1)),
{
    let prefix = events.take(k);
    assert(prefix.drop_first() =~= events.drop_first().take(k - 1));
    assert(prefix[0] == events[0]);
}

/// A ban holds over a run: while no message bans the address anew, the ban
/// keeps its time, and every connection from the address within
/// [`BAN_LIMIT_NS`] of it is turned away, whatever its port, changing
/// nothing and told how long the ban still lasts.
pub proof fn lemma_ban_persists<C>(s: ServerView<C>, events: Seq<ServerEvent<C>>, ip: Ip, at: i128)
    requires
        s.banned_clients.contains_key(ip),
        s.banned_clients[ip] == at,
        respects_ban(s, events, ip, at as int),
    ensures
        run(s, events).banned_clients.contains_key(ip),
        run(s, events).banned_clients[ip] == at,
        forall|k: int|
            0 <= k < events.len() ==> match #[trigger] events[k] {
                ServerEvent::Connect { addr, conn, now } => addr.ip == ip ==> connect_step(
                    run(s, events.take(k)),
                    addr,
                    conn,
                    now,
                ) == (
                    run(s, events.take(k)),
                    Connection::Banned {
                        conn,
                        remaining_ns: (BAN_LIMIT_NS - (now - at)) as u64,
                    },
                ),
                _ => true,
            },
    decreases events.len(),
{
    if events.len() > 0 {
        let s1 = event_step(s, events[0]);
        assert(events.take(0) =~= Seq::<ServerEvent<C>>::empty());
        assert(run(s, events.take(0)) == s);
        assert(respects_ban(s1, events.drop_first(), ip, at as int)) by {
            assert forall|k: int| 0 <= k < events.drop_first().len() implies match #[trigger] events.drop_first()[k] {
                ServerEvent::Connect { addr, now, .. } => addr.ip == ip ==> at <= now < at
                    + BAN_LIMIT_NS,
                ServerEvent::Message { addr, bytes, now } => addr.ip == ip ==> !(message_step(
                    run(s1, events.drop_first().take(k)),
                    addr,
                    bytes,
                    now,
                ).1 is Banned),
                ServerEvent::Disconnect { .. } => true,
            } by {
                assert(events.drop_first()[k] == events[k + 1]);
                lemma_run_prefix(s, events, k + 1);
            }
        }
        match events[0] {
            ServerEvent::Connect { addr, conn, now } => {},
            ServerEvent::Disconnect { addr } => {},
            ServerEvent::Message { addr, bytes, now } => {},
        }
        assert(s1.banned_clients.contains_key(ip) && s1.banned_clients[ip] == at);
        lemma_ban_persists(s1, events.drop_first(), ip, at);
        assert forall|k: int| 0 <= k < events.len() implies match #[trigger] events[k] {
            ServerEvent::Connect { addr, conn, now } => addr.ip == ip ==> connect_step(
                run(s, events.take(k)),
                addr,
                conn,
                now,
            ) == (
                run(s, events.take(k)),
                Connection::Banned { conn, remaining_ns: (BAN_LIMIT_NS - (now - at)) as u64 },
            ),
            _ => true,
        } by {
            if k > 0 {
                lemma_run_prefix(s, events, k);
                assert(events.drop_first()[k - 1] == events[k]);
            }
        }
    }
}

/// Authenticate, then relay: two clients connect, each sends the token, and
/// then a message of the first, at least [`MESSAGE_RATE_NS`] after its
/// token, is passed on to the second and not back to the first. A first
/// message is never too fast: the tokens may even come up to
/// [`MESSAGE_RATE_NS`] before the connections by the clock.
pub proof fn lemma_authenticate_then_relay<C>(
    s0: ServerView<C>,
    a: Addr,
    b: Addr,
    ca: C,
    cb: C,
    t0: int,
    t1: int,
    t2: int,
    t3: int,
    m: Seq<u8>,
)
    requires
        a != b,
        !is_banned(s0.banned_clients, a.ip, t0),
        !is_banned(s0.banned_clients, b.ip, t0),
        -time_bound() <= t0,
        t0 - MESSAGE_RATE_NS <= t1,
        t0 - MESSAGE_RATE_NS <= t2,
        t1 + MESSAGE_RATE_NS <= t3 <= time_bound(),
        t2 <= time_bound(),
        valid_utf8(m),
    ensures
        ({
            let token = encode_utf8(s0.token);
            let (s1, r1) = connect_step(s0, a, ca, t0);
            let (s2, r2) = connect_step(s1, b, cb, t0);
            let (s3, e3) = message_step(s2, a, token, t1);
            let (s4, e4) = message_step(s3, b, token, t2);
            let (s5, e5) = message_step(s4, a, m, t3);
            &&& r1 == Connection::<C>::Accepted
            &&& r2 == Connection::<C>::Accepted
            &&& e3 == MessageEffect::Authenticated
            &&& e4 == MessageEffect::Authenticated
            &&& e5 == MessageEffect::Broadcast
            &&& recipients(s4, a).contains(b)
            &&& !recipients(s4, a).contains(a)
        }),
{
    let token = encode_utf8(s0.token);
    lemma_token_text(token, s0.token);
    let (s1, r1) = connect_step(s0, a, ca, t0);
    assert(!is_banned(s1.banned_clients, b.ip, t0));
    let (s2, r2) = connect_step(s1, b, cb, t0);
    assert(s2.clients[a] == fresh_client(ca, t0));
    let (s3, e3) = message_step(s2, a, token, t1);
    assert(s3.clients[b] == s2.clients[b]);
    let (s4, e4) = message_step(s3, b, token, t2);
    assert(s4.clients[a] == s3.clients[a]);
    assert(s4.clients[a].authenticated);
    assert(s4.clients.contains_key(b) && s4.clients[b].authenticated);
}

/// A message changes at most its author's client and its author's IP
/// address's ban, which it can only set to the message's time; the author's
/// strikes grow by at most one, its last message only moves forward, and an
/// authenticated author stays so. The token stays.
pub proof fn lemma_message_frame<C>(
    s: ServerView<C>,
    addr: Addr,
    bytes: Seq<u8>,
    now: int,
    other: Addr,
    ip: Ip,
)
    requires
        spec_message_fault(s, addr, bytes, now) is None,
        -time_bound() <= now <= time_bound(),
        other != addr,
        ip != addr.ip,
    ensures
        ({
            let t = message_step(s, addr, bytes, now).0;
            &&& t.token == s.token
            &&& t.clients.contains_key(other) == s.clients.contains_key(other)
            &&& s.clients.contains_key(other) ==> t.clients[other] == s.clients[other]
            &&& t.banned_clients.contains_key(ip) == s.banned_clients.contains_key(ip)
            &&& s.banned_clients.contains_key(ip) ==> t.banned_clients[ip] == s.banned_clients[ip]
            &&& t.banned_clients.contains_key(addr.ip) ==> t.banned_clients[addr.ip] == now || (
            s.banned_clients.contains_key(addr.ip) && t.banned_clients[addr.ip]
                == s.banned_clients[addr.ip])
            &&& t.clients.contains_key(addr) ==> {
                &&& s.clients.contains_key(addr)
                &&& s.clients[addr].strike_count <= t.clients[addr].strike_count
                    <= s.clients[addr].strike_count + 1
                &&& t.clients[addr].last_message >= s.clients[addr].last_message
                &&& s.clients[addr].authenticated ==> t.clients[addr].authenticated
            }
        }),
{
}

/// An accepted message restarts the client's message period: after an
/// on-time message in valid UTF-8 from an authenticated client at `now`, the
/// client's last message is at `now`, so that a second message less than
/// [`MESSAGE_RATE_NS`] later is a strike (or the ban), never passed on.
pub proof fn lemma_accepted_message_restarts_rate<C>(
    s: ServerView<C>,
    addr: Addr,
    bytes: Seq<u8>,
    now: int,
    bytes2: Seq<u8>,
    later: int,
)
    requires
        s.clients.contains_key(addr),
        s.clients[addr].authenticated,
        now - s.clients[addr].last_message >= MESSAGE_RATE_NS,
        valid_utf8(bytes),
        -time_bound() <= now <= time_bound(),
        now <= later < now + MESSAGE_RATE_NS,
    ensures
        message_step(s, addr, bytes, now).1 == MessageEffect::Broadcast,
        message_step(s, addr, bytes, now).0.clients.contains_key(addr),
        message_step(s, addr, bytes, now).0.clients[addr].last_message == now,
        ({
            let e2 = message_step(message_step(s, addr, bytes, now).0, addr, bytes2, later).1;
            e2 is Strike || e2 is Banned
        }),
{
}

/// Every connected, authenticated client other than the author receives the
/// author's message, whatever its strikes or the time of its last message.
pub proof fn lemma_every_authenticated_client_receives<C>(s: ServerView<C>, author: Addr, a: Addr)
    requires
        s.clients.contains_key(a),
        a != author,
        s.clients[a].authenticated,
    ensures
        recipients(s, author).contains(a),
{
}

/// Keeping the printable bytes of two reads one after the other is keeping
/// those of each read and joining them: nothing after a control byte is lost.
pub proof fn lemma_printable_concat(a: Seq<u8>, b: Seq<u8>)
    ensures
        printable(a + b) == printable(a) + printable(b),
{
    Seq::filter_distributes_over_add(a, b, |x: u8| x >= 32);
}

/// A single byte is kept exactly when it is 32 or more.
pub proof fn lemma_printable_byte(x: u8)
    ensures
        printable(seq![x]) == if x >= 32 {
            seq![x]
        } else {
            Seq::<u8>::empty()
        },
{
    reveal_with_fuel(Seq::<_>::filter, 2);
    assert(seq![x].drop_last() =~= Seq::<u8>::empty());
    if x >= 32 {
        assert(Seq::<u8>::empty().push(x) =~= seq![x]);
    }
}

/// The bytes kept are exactly the bytes of 32 or more, in their order: each
/// kept byte is one, and their number is that of such bytes in the read.
pub proof fn lemma_printable_keeps_all(b: Seq<u8>)
    ensures
        forall|i: int| 0 <= i < printable(b).len() ==> printable(b)[i] >= 32,
        printable(b).len() == b.filter(|x: u8| x >= 32).len(),
        forall|i: int| 0 <= i < b.len() && b[i] >= 32 ==> printable(b).contains(b[i]),
{
    let p = |x: u8| x >= 32;
    assert forall|i: int| 0 <= i < printable(b).len() implies printable(b)[i] >= 32 by {
        b.lemma_filter_pred(p, i);
    }
    assert forall|i: int| 0 <= i < b.len() && b[i] >= 32 implies printable(b).contains(b[i]) by {
        b.lemma_filter_contains(p, i);
    }
}

} // verus!
