use vstd::prelude::*;
use crate::msg::{
    encode, encode_opts, try_from_bytes, try_into_bytes, wf_msg, Addr, Addressed, Code, Message,
    MessageParseError, MessageToBytesError, MessageV, Type, MAX_DGRAM,
};
use crate::req::{option_value, read_req, Req};
use crate::resp::Resp;
use crate::retry::{Attempts, RetryTimer, Strategy, YouShould};
use crate::time::{latest, later_eq, PeerHistory, Stamped};

verus! {

/// How many entries each queue of the engine holds.
pub const CAP: usize = 16;

/// What an operation of the socket may report besides success.
#[derive(Clone, Copy, Debug, PartialEq, Eq, Structural)]
pub enum Nb<E> {
    /// Nothing can be done now; try again later.
    WouldBlock,
    /// A failure.
    Other(E),
}

/// A failure reported by a socket.
#[derive(Clone, Copy, Debug, PartialEq, Eq, Structural)]
pub struct SocketError(pub u32);

/// The clock could not tell the time.
#[derive(Clone, Copy, Debug, PartialEq, Eq, Structural)]
pub struct ClockError;

/// A datagram socket.
pub trait Socket {
    /// Send `bytes` to `addr` without blocking.
    fn send(&mut self, addr: Addr, bytes: &[u8]) -> Result<(), Nb<SocketError>>;

    /// Take one received datagram, if there is one.
    fn poll(&mut self) -> Result<Option<Addressed<Vec<u8>>>, SocketError>;
}

/// A monotonic clock in milliseconds.
pub trait Clock {
    fn try_now(&self) -> Result<u64, ClockError>;
}

/// What the engine was doing when it failed.
#[derive(Clone, Debug, PartialEq, Eq)]
pub enum When {
    Polling,
    /// Sending the message with this id and token, to this address when it was known.
    SendingMessage(Option<Addr>, u16, Vec<u8>),
}

/// Why the engine failed.
#[derive(Clone, Copy, Debug, PartialEq, Eq, Structural)]
pub enum What {
    SockError(SocketError),
    ClockError,
    FromBytes(MessageParseError),
    ToBytes(MessageToBytesError),
    HostInvalidUtf8,
    HostInvalidIpAddress,
    MessageNeverAcked,
    /// A bounded queue is full even after its empty slots were removed.
    BufferFull,
}

/// A failure of the engine.
#[derive(Clone, Debug, PartialEq, Eq)]
pub struct Error {
    pub when: When,
    pub what: What,
}

/// A message waiting for its acknowledgement, with the timer that says when to send it again.
#[derive(Debug)]
pub struct Retryable {
    pub msg: Addressed<Message>,
    pub timer: RetryTimer,
}

/// The present entries of a queue, in order.
pub open spec fn somes<T>(s: Seq<Option<T>>) -> Seq<T>
    decreases s.len(),
{
    if s.len() == 0 {
        seq![]
    } else {
        match s.last() {
            Some(v) => somes(s.drop_last()).push(v),
            None => somes(s.drop_last()),
        }
    }
}

pub open spec fn all_some<T>(s: Seq<Option<T>>) -> bool {
    forall|i: int| 0 <= i < s.len() ==> (#[trigger] s[i]) is Some
}

proof fn lemma_somes_all_some<T>(s: Seq<Option<T>>)
    requires
        all_some(s),
    ensures
        somes(s).len() == s.len(),
        forall|i: int| 0 <= i < s.len() ==> s[i] == Some(#[trigger] somes(s)[i]),
    decreases s.len(),
{
    if s.len() > 0 {
        let t = s.drop_last();
        assert forall|i: int| 0 <= i < t.len() implies (#[trigger] t[i]) is Some by {
            assert(t[i] == s[i]);
        }
        lemma_somes_all_some(t);
    }
}

proof fn lemma_somes_len<T>(s: Seq<Option<T>>)
    ensures
        somes(s).len() <= s.len(),
        somes(s).len() == s.len() ==> all_some(s),
    decreases s.len(),
{
    if s.len() > 0 {
        let t = s.drop_last();
        lemma_somes_len(t);
        if somes(s).len() == s.len() {
            assert forall|i: int| 0 <= i < s.len() implies (#[trigger] s[i]) is Some by {
                if i < t.len() {
                    assert(t[i] == s[i]);
                }
            }
        }
    }
}

/// Remove the empty slots, keeping the present entries in order.
pub fn compact<T>(buf: &mut Vec<Option<T>>)
    ensures
        final(buf)@ == somes(old(buf)@).map_values(|v: T| Some(v)),
{
    let mut out: Vec<Option<T>> = Vec::new();
    let ghost orig = buf@;
    let n = buf.len();
    let mut k: usize = 0;
    while buf.len() > 0
        invariant
            k + buf@.len() == orig.len(),
            orig.len() == n,
            buf@ == orig.subrange(k as int, orig.len() as int),
            out@ == somes(orig.subrange(0, k as int)).map_values(|v: T| Some(v)),
        decreases buf@.len(),
    {
        let o = buf.remove(0);
        proof {
            let p = orig.subrange(0, k + 1);
            assert(p.drop_last() =~= orig.subrange(0, k as int));
            assert(p.last() == o);
        }
        match o {
            Some(v) => {
                out.push(Some(v));
                proof {
                    assert(out@ =~= somes(orig.subrange(0, k + 1)).map_values(|v: T| Some(v)));
                }
            },
            None => {},
        }
        k = k + 1;
    }
    assert(orig.subrange(0, k as int) =~= orig);
    *buf = out;
}

/// A queue of `CAP` slots that cannot take one more entry: full, with no empty slot.
pub open spec fn full<T>(s: Seq<Option<T>>) -> bool {
    s.len() >= CAP && all_some(s)
}

/// The queue after pushing `v`: appended when there is room, appended after compaction when
/// the queue is full but has empty slots, unchanged when it is full with no empty slot.
pub open spec fn push_result<T>(s: Seq<Option<T>>, v: T) -> Seq<Option<T>> {
    if s.len() < CAP {
        s.push(Some(v))
    } else if !all_some(s) {
        somes(s).map_values(|x: T| Some(x)).push(Some(v))
    } else {
        s
    }
}

/// Append `v` to a queue of `CAP` slots. A full queue is compacted first; if it is still full,
/// `v` comes back.
pub fn push_slot<T>(buf: &mut Vec<Option<T>>, v: T) -> (r: Option<T>)
    requires
        old(buf)@.len() <= CAP,
    ensures
        final(buf)@.len() <= CAP,
        old(buf)@.len() < CAP ==> r is None && final(buf)@ == old(buf)@.push(Some(v)),
        old(buf)@.len() == CAP && !all_some(old(buf)@) ==> r is None && final(buf)@ == somes(
            old(buf)@,
        ).map_values(|x: T| Some(x)).push(Some(v)),
        old(buf)@.len() == CAP && all_some(old(buf)@) ==> r == Some(v) && final(buf)@ == old(buf)@,
        final(buf)@ == push_result(old(buf)@, v),
        r is Some <==> full(old(buf)@),
        r is None ==> final(buf)@.last() == Some(v),
{
    if buf.len() < CAP {
        buf.push(Some(v));
        return None;
    }
    let ghost orig = buf@;
    compact(buf);
    proof {
        lemma_somes_len(orig);
        if all_some(orig) {
            lemma_somes_all_some(orig);
            assert(buf@ =~= orig);
        }
    }
    if buf.len() < CAP {
        buf.push(Some(v));
        None
    } else {
        Some(v)
    }
}

/// The name of the 8-byte BLAKE2b digest of the big-endian bytes of a counter.
pub uninterp spec fn blake2b_token(counter: u32) -> Seq<u8>;

/// Relies on blake2's `Blake2b<U8>` through `Digest::digest`: an 8-byte digest of the four
/// big-endian bytes of `data`, a function of them alone.
#[verifier::external_body]
fn hash_token(data: u32) -> (r: Vec<u8>)
    ensures
        r@ == blake2b_token(data),
        r@.len() == 8,
{
    <blake2::Blake2b<blake2::digest::consts::U8> as blake2::Digest>::digest(data.to_be_bytes()).to_vec()
}

pub open spec fn is_digit(c: char) -> bool {
    '0' as u32 <= c as u32 <= '9' as u32
}

/// The decimal value of a run of digits.
pub open spec fn digits_value(g: Seq<char>) -> int
    decreases g.len(),
{
    if g.len() == 0 {
        0
    } else {
        digits_value(g.drop_last()) * 10 + (g.last() as u32 - '0' as u32)
    }
}

/// One group of a dotted IPv4 literal: digits (at least one) of value at most 255, with a
/// leading `0` only when the value is 0.
pub open spec fn octet_of(g: Seq<char>) -> Option<u8> {
    if g.len() > 0 && (forall|i: int| 0 <= i < g.len() ==> is_digit(#[trigger] g[i])) && digits_value(g) <= 255
        && !(g[0] == '0' && digits_value(g) != 0) {
        Some(digits_value(g) as u8)
    } else {
        None
    }
}

/// The parts of `s` between its dots.
pub open spec fn dot_split(s: Seq<char>) -> Seq<Seq<char>>
    decreases s.len(),
{
    if s.len() == 0 {
        seq![seq![]]
    } else {
        let t = dot_split(s.drop_last());
        if s.last() == '.' {
            t.push(seq![])
        } else {
            t.update(t.len() - 1, t.last().push(s.last()))
        }
    }
}

/// The octets of a dotted IPv4 literal: exactly four groups, each an octet.
pub open spec fn ipv4_of(host: Seq<char>) -> Option<(u8, u8, u8, u8)> {
    let g = dot_split(host);
    if g.len() == 4 && octet_of(g[0]) is Some && octet_of(g[1]) is Some && octet_of(g[2]) is Some && octet_of(g[3]) is Some {
        Some((octet_of(g[0])->Some_0, octet_of(g[1])->Some_0, octet_of(g[2])->Some_0, octet_of(g[3])->Some_0))
    } else {
        None
    }
}

proof fn lemma_dot_split_no_dot(s: Seq<char>)
    requires
        forall|i: int| 0 <= i < s.len() ==> s[i] != '.',
    ensures
        dot_split(s).len() == 1,
    decreases s.len(),
{
    if s.len() > 0 {
        let t = s.drop_last();
        assert forall|i: int| 0 <= i < t.len() implies t[i] != '.' by {
            assert(t[i] == s[i]);
        }
        lemma_dot_split_no_dot(t);
    }
}

/// A host with no dot (a name such as `localhost`) is not an IPv4 literal, so sending to it
/// fails with `HostInvalidIpAddress`.
pub proof fn lemma_no_dot_not_ipv4(host: Seq<char>)
    requires
        forall|i: int| 0 <= i < host.len() ==> host[i] != '.',
    ensures
        ipv4_of(host) is None,
{
    lemma_dot_split_no_dot(host);
}

/// Relies on no_std_net's `Ipv4Addr::from_str` (parser.rs, `read_ipv4_addr`): four groups of
/// decimal digits separated by dots, each read with checked `u8` arithmetic, a group that
/// starts with `0` refused unless its value is 0, and the whole input consumed.
#[verifier::external_body]
fn parse_ipv4(host: &str) -> (r: Option<(u8, u8, u8, u8)>)
    ensures
        r == ipv4_of(host@),
{
    match <no_std_net::Ipv4Addr as core::str::FromStr>::from_str(host) {
        Ok(ip) => {
            let o = ip.octets();
            Some((o[0], o[1], o[2], o[3]))
        },
        Err(_) => None,
    }
}

/// The name of what `str::from_utf8` makes of bytes: the text, or nothing when they are not UTF-8.
pub uninterp spec fn utf8_of(bytes: Seq<u8>) -> Option<Seq<char>>;

/// Every byte is ASCII.
pub open spec fn all_ascii(b: Seq<u8>) -> bool {
    forall|i: int| 0 <= i < b.len() ==> #[trigger] b[i] < 128
}

/// ASCII bytes read as text, one character per byte.
pub open spec fn ascii_text(b: Seq<u8>) -> Seq<char> {
    b.map_values(|x: u8| x as char)
}

/// Relies on core's `str::from_utf8` to read bytes as text: bytes that are all ASCII are
/// valid UTF-8, one character per byte.
#[verifier::external_body]
pub(crate) fn decode_utf8(bytes: &[u8]) -> (r: Option<String>)
    ensures
        r matches Some(s) ==> utf8_of(bytes@) == Some(s@),
        r is None ==> utf8_of(bytes@) is None,
        r is None ==> !all_ascii(bytes@),
        r matches Some(s) ==> (all_ascii(bytes@) ==> s@ == ascii_text(bytes@)),
{
    match core::str::from_utf8(bytes) {
        Ok(s) => Some(s.to_string()),
        Err(_) => None,
    }
}

/// The address with the octets `o` and `port`.
pub open spec fn addr_of(o: (u8, u8, u8, u8), port: u16) -> Addr {
    Addr { ip: (o.0 as int * 0x1000000 + o.1 as int * 0x10000 + o.2 as int * 0x100 + o.3 as int) as u32, port }
}

/// The id that follows a history: one more than the latest (wrapping), or 0.
pub open spec fn next_id_of(h: Seq<Stamped<u16>>) -> u16 {
    match latest(h) {
        None => 0,
        Some(p) => ((p.0 + 1) % 0x10000) as u16,
    }
}

/// The token counter that follows a history: one more than the latest (wrapping), or 0.
pub open spec fn next_counter_of(h: Seq<Stamped<u32>>) -> u32 {
    match latest(h) {
        None => 0,
        Some(p) => ((p.0 + 1) % 0x1_0000_0000) as u32,
    }
}

/// For one peer, when an id is stamped no earlier than the latest one (a clock that does not
/// run backwards), the id allocated after it is one more (modulo 2^16): ids increase between
/// wraps.
pub proof fn lemma_ids_increase(h: Seq<Stamped<u16>>, now: u64)
    requires
        latest(h) matches Some(p) ==> later_eq(now, p.1),
    ensures
        next_id_of(h.push(Stamped(next_id_of(h), now))) == (next_id_of(h) + 1) % 0x10000,
{
    crate::time::lemma_latest_push(h, Stamped(next_id_of(h), now));
}

/// For one peer, when a token counter is stamped no earlier than the latest one, the counter
/// of the next token is one more (modulo 2^32).
pub proof fn lemma_counters_step(h: Seq<Stamped<u32>>, now: u64)
    requires
        latest(h) matches Some(p) ==> later_eq(now, p.1),
    ensures
        next_counter_of(h.push(Stamped(next_counter_of(h), now))) == (next_counter_of(h) + 1)
            % 0x1_0000_0000,
{
    crate::time::lemma_latest_push(h, Stamped(next_counter_of(h), now));
}

/// Where the first entry queued for `(id, addr)` stands, or -1.
pub open spec fn retry_match(s: Seq<Option<Retryable>>, id: u16, addr: Addr) -> int
    decreases s.len(),
{
    if s.len() == 0 {
        -1
    } else if retry_match(s.drop_last(), id, addr) >= 0 {
        retry_match(s.drop_last(), id, addr)
    } else if s.last() matches Some(e) && e.msg.0.id == id && e.msg.1 == addr {
        s.len() - 1
    } else {
        -1
    }
}

/// Where the first stored response with `token` from `addr` stands, or -1.
pub open spec fn resp_match(s: Seq<Option<Addressed<Resp>>>, token: Seq<u8>, addr: Addr) -> int
    decreases s.len(),
{
    if s.len() == 0 {
        -1
    } else if resp_match(s.drop_last(), token, addr) >= 0 {
        resp_match(s.drop_last(), token, addr)
    } else if s.last() matches Some(r) && r.0.msg.token@ == token && r.1 == addr {
        s.len() - 1
    } else {
        -1
    }
}

proof fn lemma_retry_match(s: Seq<Option<Retryable>>, id: u16, addr: Addr)
    ensures
        -1 <= retry_match(s, id, addr) < s.len(),
        retry_match(s, id, addr) >= 0 ==> (s[retry_match(s, id, addr)] matches Some(e) && e.msg.0.id
            == id && e.msg.1 == addr),
        forall|i: int|
            0 <= i < s.len() && (i < retry_match(s, id, addr) || retry_match(s, id, addr) < 0) ==> !(
            #[trigger] s[i] matches Some(e) && e.msg.0.id == id && e.msg.1 == addr),
    decreases s.len(),
{
    if s.len() > 0 {
        let t = s.drop_last();
        lemma_retry_match(t, id, addr);
        assert forall|i: int| 0 <= i < t.len() implies s[i] == t[i] by {}
    }
}

proof fn lemma_resp_match(s: Seq<Option<Addressed<Resp>>>, token: Seq<u8>, addr: Addr)
    ensures
        -1 <= resp_match(s, token, addr) < s.len(),
        resp_match(s, token, addr) >= 0 ==> (s[resp_match(s, token, addr)] matches Some(r)
            && r.0.msg.token@ == token && r.1 == addr),
        forall|i: int|
            0 <= i < s.len() && (i < resp_match(s, token, addr) || resp_match(s, token, addr) < 0)
                ==> !(#[trigger] s[i] matches Some(r) && r.0.msg.token@ == token && r.1 == addr),
    decreases s.len(),
{
    if s.len() > 0 {
        let t = s.drop_last();
        lemma_resp_match(t, token, addr);
        assert forall|i: int| 0 <= i < t.len() implies s[i] == t[i] by {}
    }
}

/// The retry queue `q` after the inbound message `m` from `addr` was matched against it.
pub open spec fn acked(q: Seq<Option<Retryable>>, m: Message, addr: Addr) -> Seq<Option<Retryable>> {
    let i = retry_match(q, m.id, addr);
    if (m.ty == Type::Ack || m.ty == Type::Reset) && i >= 0 {
        q.update(i, None)
    } else {
        q
    }
}

/// Some entry is still queued for `(id, addr)`.
pub open spec fn still_queued(s: Seq<Option<Retryable>>, id: u16, addr: Addr) -> bool {
    exists|i: int| 0 <= i < s.len() && (#[trigger] s[i] matches Some(e) && e.msg.0.id == id && e.msg.1 == addr)
}

/// A timer after the walk of the retry queue at `now`.
pub open spec fn stepped(t: RetryTimer, now: u64) -> RetryTimer {
    if t.decide(now) == YouShould::Retry {
        RetryTimer {
            delay: crate::retry::sat_add(t.delay, t.delay),
            next: crate::retry::sat_add(t.next, crate::retry::sat_add(t.delay, t.delay)),
            attempts: (t.attempts + 1) as u16,
            ..t
        }
    } else {
        t
    }
}

/// The entry `b` is the entry `a` after a walk that read `now` for it and found it waiting or
/// resent it.
pub open spec fn walked(a: Option<Retryable>, b: Option<Retryable>, now: u64) -> bool {
    match a {
        None => b is None,
        Some(e) => b matches Some(f) && f.msg == e.msg && sendable(e.msg.0) && e.timer.decide(now)
            != YouShould::GiveUp && f.timer == stepped(e.timer, now),
    }
}

/// The response store `r0` became `r1` on receiving `m` from `a`: a response is pushed on it,
/// read as `read_form` says; anything else leaves it.
pub open spec fn resp_after(r0: Seq<Option<Addressed<Resp>>>, r1: Seq<Option<Addressed<Resp>>>, m: Message, a: Addr) -> bool {
    if m.code.is_response_spec() {
        exists|p: Addressed<Resp>| crate::resp::read_form(p.0, m) && p.1 == a && r1 == #[trigger] push_result(r0, p)
    } else {
        r1 == r0
    }
}

/// What handling the datagram `polled` (if any) did: the retry queue `q` became `mid` and the
/// response store `r0` became `r1`, as the message that the datagram encodes asks; with no
/// datagram, nothing changed.
pub open spec fn handled(
    q: Seq<Option<Retryable>>,
    mid: Seq<Option<Retryable>>,
    r0: Seq<Option<Addressed<Resp>>>,
    r1: Seq<Option<Addressed<Resp>>>,
    polled: Option<Addressed<Vec<u8>>>,
) -> bool {
    &&& polled is None ==> mid == q && r1 == r0
    &&& polled is Some ==> got_msg(q, mid, r0, r1, polled->Some_0)
}

/// The datagram `d` is the wire form of a message that took the retry queue `q` to `mid` and
/// the response store `r0` to `r1`.
pub open spec fn got_msg(
    q: Seq<Option<Retryable>>,
    mid: Seq<Option<Retryable>>,
    r0: Seq<Option<Addressed<Resp>>>,
    r1: Seq<Option<Addressed<Resp>>>,
    d: Addressed<Vec<u8>>,
) -> bool {
    exists|m: Message| wf_msg(m@) && encode(m@) == d.0@ && mid == #[trigger] acked(q, m, d.1) && resp_after(r0, r1, m, d.1)
}

/// How a step of the engine can fail with `e`, taking the queue `q0` to `q1` and the store
/// `r0` to `r1`: the socket's poll failed, or the datagram was no message (nothing changed),
/// or a later part failed after the datagram was handled, which no later part undoes.
pub open spec fn tick_failed(
    q0: Seq<Option<Retryable>>,
    q1: Seq<Option<Retryable>>,
    r0: Seq<Option<Addressed<Resp>>>,
    r1: Seq<Option<Addressed<Resp>>>,
    e: Error,
) -> bool {
    ||| (e.when == When::Polling && (e.what matches What::SockError(_)) && q1 == q0 && r1 == r0)
    ||| (e.when == When::Polling && (e.what matches What::FromBytes(_)) && q1 == q0 && r1 == r0)
    ||| exists|p: Option<Addressed<Vec<u8>>>, mid: Seq<Option<Retryable>>|
        #[trigger] handled(q0, mid, r0, r1, p) && kept_empty(mid, q1)
}

/// What a caller waiting for requests gets from the datagram `d` (if any): `WouldBlock` when
/// nothing came, the request read from the message when the bytes are a message's wire form,
/// `FromBytes` otherwise.
pub open spec fn req_result(d: Option<Addressed<Vec<u8>>>, r: Result<Addressed<Req>, Nb<Error>>) -> bool {
    match d {
        None => r matches Err(Nb::WouldBlock),
        Some(x) => ((exists|m: MessageV| wf_msg(m) && #[trigger] encode(m) == x.0@) <==> r is Ok) && (r matches Ok(a)
            ==> a.0.wf() && a.1 == x.1 && exists|m: Message| wf_msg(m@) && encode(m@) == x.0@ && #[trigger] read_req(a.0, m))
            && (r is Err ==> (r matches Err(Nb::Other(e)) && e.when == When::Polling && (e.what matches What::FromBytes(_)))),
    }
}

/// From the store `mid`, the first response with `token` from `addr` was claimed, leaving
/// `fin` and giving `r`; with none there, `r` is `WouldBlock` and the store stays.
pub open spec fn claimed(
    mid: Seq<Option<Addressed<Resp>>>,
    fin: Seq<Option<Addressed<Resp>>>,
    token: Seq<u8>,
    addr: Addr,
    r: Result<Resp, Nb<Error>>,
) -> bool {
    let i = resp_match(mid, token, addr);
    if i >= 0 {
        r == Ok::<Resp, Nb<Error>>(mid[i]->Some_0.0) && fin == mid.update(i, None)
    } else {
        r == Err::<Resp, Nb<Error>>(Nb::WouldBlock) && fin == mid
    }
}

/// Every empty slot of `a` is still empty in `b`.
pub open spec fn kept_empty(a: Seq<Option<Retryable>>, b: Seq<Option<Retryable>>) -> bool {
    &&& a.len() == b.len()
    &&& forall|k: int| 0 <= k < a.len() && (#[trigger] a[k]) is None ==> b[k] is None
}

/// A walk that stopped at slot `i` with the entry kept leaves the queue as it was when every
/// entry before `i` was waiting.
proof fn lemma_walk_all_waiting(a: Seq<Option<Retryable>>, b: Seq<Option<Retryable>>, i: int, nows: Seq<u64>)
    requires
        0 <= i < a.len(),
        a.len() == b.len(),
        nows.len() == a.len(),
        forall|k: int| 0 <= k < i ==> walked(#[trigger] a[k], b[k], nows[k]),
        forall|k: int| i < k < a.len() ==> #[trigger] b[k] == a[k],
        b[i] == a[i],
    ensures
        (forall|k: int| 0 <= k < a.len() ==> (#[trigger] a[k] matches Some(en) ==> sendable(en.msg.0)
            && en.timer.decide(nows[k]) == YouShould::Wait)) ==> b == a,
{
    if forall|k: int| 0 <= k < a.len() ==> (#[trigger] a[k] matches Some(en) ==> sendable(en.msg.0)
        && en.timer.decide(nows[k]) == YouShould::Wait) {
        assert forall|k: int| 0 <= k < a.len() implies b[k] == a[k] by {
            if k < i {
                assert(walked(a[k], b[k], nows[k]));
            }
        }
        assert(b =~= a);
    }
}

/// A walk never fills an empty slot.
pub proof fn lemma_walk_keeps_empty(a: Seq<Option<Retryable>>, b: Seq<Option<Retryable>>, r: Result<(), Error>, nows: Seq<u64>)
    requires
        retry_walk(a, b, r, nows),
    ensures
        kept_empty(a, b),
{
    if r is Ok {
        assert forall|k: int| 0 <= k < a.len() && (#[trigger] a[k]) is None implies b[k] is None by {
            assert(walked(a[k], b[k], nows[k]));
        }
    } else {
        let e = r->Err_0;
        let i = choose|i: int| #[trigger] retry_failed(a, b, i, e, nows);
        assert forall|k: int| 0 <= k < a.len() && (#[trigger] a[k]) is None implies b[k] is None by {
            if k < i {
                assert(walked(a[k], b[k], nows[k]));
            }
        }
    }
}

/// Every entry of `b` is the entry of `a` in the same slot after a walk that read the instant
/// `nows[k]` for slot `k`.
pub open spec fn walked_all(a: Seq<Option<Retryable>>, b: Seq<Option<Retryable>>, nows: Seq<u64>) -> bool {
    &&& a.len() == b.len()
    &&& nows.len() == a.len()
    &&& forall|k: int| 0 <= k < a.len() ==> walked(#[trigger] a[k], b[k], nows[k])
}

/// `e` names the message `d`, sent to its address.
pub open spec fn names_msg(e: Error, d: Addressed<Message>) -> bool {
    e.when matches When::SendingMessage(Some(x), id, t) && x == d.1 && id == d.0.id && t@ == d.0.token@
}

/// The message can be written in a datagram.
pub open spec fn sendable(m: Message) -> bool {
    wf_msg(m@) && encode(m@).len() <= MAX_DGRAM
}

/// The walk of the fling queue `a` failed with `e` at slot `i`, leaving `b`: every slot up to
/// `i` is emptied, the rest untouched; the failure is `ToBytes` exactly when that message
/// cannot be written, and otherwise the socket's.
pub open spec fn fling_failed(a: Seq<Option<Addressed<Message>>>, b: Seq<Option<Addressed<Message>>>, i: int, e: Error) -> bool {
    &&& 0 <= i < a.len()
    &&& a[i] matches Some(d) && names_msg(e, d) && ((e.what matches What::ToBytes(_)) <==> !sendable(d.0))
        && (!(e.what matches What::ToBytes(_)) ==> (e.what matches What::SockError(_)))
    &&& a.len() == b.len()
    &&& forall|k: int| 0 <= k <= i ==> (#[trigger] b[k]) is None
    &&& forall|k: int| i < k < a.len() ==> #[trigger] b[k] == a[k]
}

/// The walk of the retry queue `a` failed with `e` at slot `i`, leaving `b`: the slots before
/// `i` were walked (slot `k` at the instant `nows[k]`), the later ones are untouched, and at
/// `i` the message could not be written or the clock failed (entry kept), or its timer gave
/// up at `nows[i]` (entry removed), or it was due and the socket failed (entry walked).
pub open spec fn retry_failed(a: Seq<Option<Retryable>>, b: Seq<Option<Retryable>>, i: int, e: Error, nows: Seq<u64>) -> bool {
    &&& 0 <= i < a.len()
    &&& a.len() == b.len()
    &&& nows.len() == a.len()
    &&& forall|k: int| 0 <= k < i ==> walked(#[trigger] a[k], b[k], nows[k])
    &&& forall|k: int| i < k < a.len() ==> #[trigger] b[k] == a[k]
    &&& a[i] matches Some(en) && names_msg(e, en.msg) && (
        (!sendable(en.msg.0) && (e.what matches What::ToBytes(_)) && b[i] == a[i])
        || (sendable(en.msg.0) && e.what == What::ClockError && b[i] == a[i])
        || (sendable(en.msg.0) && en.timer.decide(nows[i]) == YouShould::GiveUp && e.what == What::MessageNeverAcked
            && b[i] is None)
        || (sendable(en.msg.0) && en.timer.decide(nows[i]) == YouShould::Retry && (e.what matches What::SockError(_))
            && walked(a[i], b[i], nows[i])))
}

/// What a walk of the retry queue does: `a` becomes `b` and `r` comes back, slot `k` judged
/// at the instant `nows[k]` read for it.
pub open spec fn retry_walk(a: Seq<Option<Retryable>>, b: Seq<Option<Retryable>>, r: Result<(), Error>, nows: Seq<u64>) -> bool {
    &&& b.len() == a.len()
    &&& nows.len() == a.len()
    &&& r is Ok ==> walked_all(a, b, nows)
    &&& r matches Err(e) ==> exists|i: int| #[trigger] retry_failed(a, b, i, e, nows)
    &&& (forall|k: int| 0 <= k < a.len() ==> (#[trigger] a[k] matches Some(en) ==> sendable(en.msg.0)
        && en.timer.decide(nows[k]) == YouShould::Wait)) ==> b == a && (r is Ok || (r matches Err(e) && e.what
        == What::ClockError))
    &&& (forall|k: int| 0 <= k < a.len() ==> (#[trigger] a[k]) is None) ==> r is Ok && b == a
}

fn bytes_eq(a: &Vec<u8>, b: &Vec<u8>) -> (r: bool)
    ensures
        r == (a@ == b@),
{
    if a.len() != b.len() {
        return false;
    }
    let mut i: usize = 0;
    while i < a.len()
        invariant
            i <= a@.len(),
            a@.len() == b@.len(),
            forall|k: int| 0 <= k < i ==> a@[k] == b@[k],
        decreases a.len() - i,
    {
        if a[i] != b[i] {
            return false;
        }
        i = i + 1;
    }
    assert(a@ =~= b@);
    true
}

/// A copy of a message.
pub fn copy_msg(m: &Message) -> (r: Message)
    ensures
        r@ == m@,
{
    let mut opts: Vec<crate::msg::Opt> = Vec::new();
    let mut i: usize = 0;
    while i < m.opts.len()
        invariant
            i <= m.opts@.len(),
            opts@.map_values(|o: crate::msg::Opt| o.view_opt()) == m.opts@.subrange(0, i as int).map_values(
                |o: crate::msg::Opt| o.view_opt(),
            ),
        decreases m.opts.len() - i,
    {
        let o = crate::msg::Opt { delta: m.opts[i].delta, value: crate::resp::copy_bytes(&m.opts[i].value) };
        let ghost before = opts@;
        assert(o.view_opt() == m.opts@[i as int].view_opt());
        opts.push(o);
        proof {
            let f = |o: crate::msg::Opt| o.view_opt();
            assert(m.opts@.subrange(0, i + 1) =~= m.opts@.subrange(0, i as int).push(m.opts@[i as int]));
            assert(opts@ == before.push(o));
            assert(opts@.map_values(f) =~= before.map_values(f).push(f(o)));
            assert(m.opts@.subrange(0, i + 1).map_values(f) =~= m.opts@.subrange(0, i as int).map_values(f).push(
                f(m.opts@[i as int]),
            ));
        }
        i = i + 1;
    }
    assert(m.opts@.subrange(0, m.opts@.len() as int) == m.opts@);
    Message {
        ver: m.ver,
        ty: m.ty,
        id: m.id,
        token: crate::resp::copy_bytes(&m.token),
        code: m.code,
        opts,
        payload: crate::resp::copy_bytes(&m.payload),
    }
}

fn sending(m: &Message, addr: Option<Addr>, what: What) -> (r: Error)
    ensures
        r.what == what,
        r.when == When::SendingMessage(addr, m.id, r.when->SendingMessage_2),
        r.when->SendingMessage_2@ == m.token@,
{
    Error { when: When::SendingMessage(addr, m.id, crate::resp::copy_bytes(&m.token)), what }
}

/// The CoAP message engine: per-peer id and token histories, the queues of outbound
/// messages, and the responses received and not yet claimed.
pub struct Core<S: Socket, C: Clock> {
    pub msg_ids: PeerHistory<u16>,
    pub msg_tokens: PeerHistory<u32>,
    pub sock: S,
    pub clock: C,
    pub resps: Vec<Option<Addressed<Resp>>>,
    pub fling_q: Vec<Option<Addressed<Message>>>,
    pub retry_q: Vec<Option<Retryable>>,
}

impl<S: Socket, C: Clock> Core<S, C> {
    pub open spec fn wf(self) -> bool {
        &&& self.msg_ids.wf()
        &&& self.msg_tokens.wf()
        &&& self.resps@.len() <= CAP
        &&& self.fling_q@.len() <= CAP
        &&& self.retry_q@.len() <= CAP
    }

    /// An engine with no history and empty queues.
    pub fn new(clock: C, sock: S) -> (r: Self)
        ensures
            r.wf(),
            r.sock == sock,
            r.clock == clock,
            r.resps@.len() == 0,
            r.fling_q@.len() == 0,
            r.retry_q@.len() == 0,
            forall|a: Addr| r.msg_ids.hist(a) == Seq::<Stamped<u16>>::empty(),
            forall|a: Addr| r.msg_tokens.hist(a) == Seq::<Stamped<u32>>::empty(),
    {
        Core {
            msg_ids: PeerHistory::new(),
            msg_tokens: PeerHistory::new(),
            sock,
            clock,
            resps: Vec::new(),
            fling_q: Vec::new(),
            retry_q: Vec::new(),
        }
    }

    /// Allocate the next message id for `addr` at the instant `now`.
    pub fn next_id_at(&mut self, addr: Addr, now: u64) -> (r: u16)
        requires
            old(self).wf(),
        ensures
            final(self).wf(),
            r == next_id_of(old(self).msg_ids.hist(addr)),
            final(self).msg_ids.hist(addr) == old(self).msg_ids.hist(addr).push(Stamped(r, now)),
            forall|b: Addr| b != addr ==> final(self).msg_ids.hist(b) == old(self).msg_ids.hist(b),
            final(self).msg_tokens == old(self).msg_tokens,
            final(self).resps == old(self).resps,
            final(self).fling_q == old(self).fling_q,
            final(self).retry_q == old(self).retry_q,
    {
        let id: u16 = match self.msg_ids.latest_of(addr) {
            Some(p) => if p.0 == u16::MAX { 0 } else { p.0 + 1 },
            None => 0,
        };
        self.msg_ids.record(addr, Stamped(id, now));
        id
    }

    /// Allocate the next message id for `addr`, stamped with the clock's time.
    pub fn next_id(&mut self, addr: Addr) -> (r: Result<u16, Error>)
        requires
            old(self).wf(),
        ensures
            final(self).wf(),
            r matches Ok(id) ==> id == next_id_of(old(self).msg_ids.hist(addr)) && exists|now: u64|
                final(self).msg_ids.hist(addr) == old(self).msg_ids.hist(addr).push(Stamped(id, now)),
            r matches Err(e) ==> e == (Error { when: When::Polling, what: What::ClockError })
                && final(self).msg_ids == old(self).msg_ids,
            forall|b: Addr| b != addr ==> final(self).msg_ids.hist(b) == old(self).msg_ids.hist(b),
            final(self).msg_tokens == old(self).msg_tokens,
            final(self).resps == old(self).resps,
            final(self).fling_q == old(self).fling_q,
            final(self).retry_q == old(self).retry_q,
    {
        match self.clock.try_now() {
            Ok(now) => Ok(self.next_id_at(addr, now)),
            Err(_) => Err(Error { when: When::Polling, what: What::ClockError }),
        }
    }

    /// Allocate the next token for `addr` at the instant `now`: the digest of the next counter.
    pub fn next_token_at(&mut self, addr: Addr, now: u64) -> (r: Vec<u8>)
        requires
            old(self).wf(),
        ensures
            final(self).wf(),
            r@ == blake2b_token(next_counter_of(old(self).msg_tokens.hist(addr))),
            final(self).msg_tokens.hist(addr) == old(self).msg_tokens.hist(addr).push(
                Stamped(next_counter_of(old(self).msg_tokens.hist(addr)), now),
            ),
            forall|b: Addr| b != addr ==> final(self).msg_tokens.hist(b) == old(self).msg_tokens.hist(b),
            final(self).msg_ids == old(self).msg_ids,
            final(self).resps == old(self).resps,
            final(self).fling_q == old(self).fling_q,
            final(self).retry_q == old(self).retry_q,
    {
        let counter: u32 = match self.msg_tokens.latest_of(addr) {
            Some(p) => if p.0 == u32::MAX { 0 } else { p.0 + 1 },
            None => 0,
        };
        let token = hash_token(counter);
        self.msg_tokens.record(addr, Stamped(counter, now));
        token
    }

    /// Allocate the next token for `addr`, stamped with the clock's time.
    pub fn next_token(&mut self, addr: Addr) -> (r: Result<Vec<u8>, Error>)
        requires
            old(self).wf(),
        ensures
            final(self).wf(),
            r matches Ok(t) ==> t@ == blake2b_token(next_counter_of(old(self).msg_tokens.hist(addr)))
                && exists|now: u64|
                final(self).msg_tokens.hist(addr) == old(self).msg_tokens.hist(addr).push(
                    Stamped(next_counter_of(old(self).msg_tokens.hist(addr)), now),
                ),
            r matches Err(e) ==> e == (Error { when: When::Polling, what: What::ClockError })
                && final(self).msg_tokens == old(self).msg_tokens,
            forall|b: Addr| b != addr ==> final(self).msg_tokens.hist(b) == old(self).msg_tokens.hist(b),
            final(self).msg_ids == old(self).msg_ids,
            final(self).resps == old(self).resps,
            final(self).fling_q == old(self).fling_q,
            final(self).retry_q == old(self).retry_q,
    {
        match self.clock.try_now() {
            Ok(now) => Ok(self.next_token_at(addr, now)),
            Err(_) => Err(Error { when: When::Polling, what: What::ClockError }),
        }
    }

    /// Keep a received response until a caller claims it; when the store is full even after
    /// compaction, the response comes back.
    pub fn store_resp(&mut self, resp: Addressed<Resp>) -> (r: Option<Addressed<Resp>>)
        requires
            old(self).wf(),
        ensures
            final(self).wf(),
            old(self).resps@.len() < CAP ==> r is None && final(self).resps@ == old(self).resps@.push(
                Some(resp),
            ),
            old(self).resps@.len() == CAP && !all_some(old(self).resps@) ==> r is None
                && final(self).resps@ == somes(old(self).resps@).map_values(|x: Addressed<Resp>| Some(x)).push(
                Some(resp),
            ),
            old(self).resps@.len() == CAP && all_some(old(self).resps@) ==> r == Some(resp)
                && final(self).resps@ == old(self).resps@,
            final(self).resps@ == push_result(old(self).resps@, resp),
            r is Some <==> full(old(self).resps@),
            final(self).retry_q == old(self).retry_q,
            final(self).fling_q == old(self).fling_q,
            final(self).msg_ids == old(self).msg_ids,
            final(self).msg_tokens == old(self).msg_tokens,
    {
        push_slot(&mut self.resps, resp)
    }

    /// Remove the first queued confirmable message that an inbound ACK or RESET answers.
    pub fn process_acks(&mut self, msg: &Addressed<Message>)
        requires
            old(self).wf(),
        ensures
            final(self).wf(),
            ({
                let i = retry_match(old(self).retry_q@, msg.0.id, msg.1);
                if (msg.0.ty == Type::Ack || msg.0.ty == Type::Reset) && i >= 0 {
                    final(self).retry_q@ == old(self).retry_q@.update(i, None)
                } else {
                    final(self).retry_q@ == old(self).retry_q@
                }
            }),
            final(self).resps == old(self).resps,
            final(self).fling_q == old(self).fling_q,
            final(self).msg_ids == old(self).msg_ids,
            final(self).msg_tokens == old(self).msg_tokens,
    {
        if msg.0.ty != Type::Ack && msg.0.ty != Type::Reset {
            return;
        }
        let id = msg.0.id;
        let addr = msg.1;
        proof {
            lemma_retry_match(self.retry_q@, id, addr);
        }
        let mut i: usize = 0;
        while i < self.retry_q.len()
            invariant
                self.wf(),
                msg.0.ty == Type::Ack || msg.0.ty == Type::Reset,
                id == msg.0.id,
                addr == msg.1,
                self.retry_q@ == old(self).retry_q@,
                self.resps == old(self).resps,
                self.fling_q == old(self).fling_q,
                self.msg_ids == old(self).msg_ids,
                self.msg_tokens == old(self).msg_tokens,
                i <= self.retry_q@.len(),
                retry_match(self.retry_q@, id, addr) < 0 || i <= retry_match(self.retry_q@, id, addr),
            decreases self.retry_q.len() - i,
        {
            proof {
                lemma_retry_match(self.retry_q@, id, addr);
            }
            let hit = match &self.retry_q[i] {
                Some(e) => e.msg.0.id == id && e.msg.1 == addr,
                None => false,
            };
            if hit {
                assert(self.retry_q@[i as int] matches Some(e) && e.msg.0.id == id && e.msg.1 == addr);
                assert(i as int == retry_match(self.retry_q@, id, addr));
                self.retry_q.set(i, None);
                assert(self.retry_q@ == old(self).retry_q@.update(i as int, None));
                return;
            }
            i = i + 1;
        }
    }

    /// Take the first stored response with `token` from `addr`.
    fn try_get_resp(&mut self, token: &Vec<u8>, addr: Addr) -> (r: Option<Resp>)
        requires
            old(self).wf(),
        ensures
            final(self).wf(),
            ({
                let i = resp_match(old(self).resps@, token@, addr);
                if i >= 0 {
                    r == Some(old(self).resps@[i]->Some_0.0) && final(self).resps@ == old(self).resps@.update(
                        i,
                        None,
                    )
                } else {
                    r is None && final(self).resps@ == old(self).resps@
                }
            }),
            final(self).retry_q == old(self).retry_q,
            final(self).fling_q == old(self).fling_q,
            final(self).msg_ids == old(self).msg_ids,
            final(self).msg_tokens == old(self).msg_tokens,
    {
        proof {
            lemma_resp_match(self.resps@, token@, addr);
        }
        let mut i: usize = 0;
        while i < self.resps.len()
            invariant
                self.wf(),
                self.resps@ == old(self).resps@,
                self.retry_q == old(self).retry_q,
                self.fling_q == old(self).fling_q,
                self.msg_ids == old(self).msg_ids,
                self.msg_tokens == old(self).msg_tokens,
                i <= self.resps@.len(),
                resp_match(self.resps@, token@, addr) < 0 || i <= resp_match(self.resps@, token@, addr),
            decreases self.resps.len() - i,
        {
            proof {
                lemma_resp_match(self.resps@, token@, addr);
            }
            let hit = match &self.resps[i] {
                Some(r) => r.1 == addr && bytes_eq(&r.0.msg.token, token),
                None => false,
            };
            if hit {
                let slot = self.resps.remove(i);
                self.resps.insert(i, None);
                assert(self.resps@ =~= old(self).resps@.update(i as int, None));
                return match slot {
                    Some(r) => Some(r.0),
                    None => None,
                };
            }
            i = i + 1;
        }
        None
    }

    /// Whether a message for `(id, addr)` is still waiting for its acknowledgement.
    fn check_ping(&self, id: u16, addr: Addr) -> (r: bool)
        ensures
            r == still_queued(self.retry_q@, id, addr),
    {
        let mut i: usize = 0;
        while i < self.retry_q.len()
            invariant
                i <= self.retry_q@.len(),
                forall|k: int| 0 <= k < i ==> !(#[trigger] self.retry_q@[k] matches Some(e) && e.msg.0.id == id
                    && e.msg.1 == addr),
            decreases self.retry_q.len() - i,
        {
            let hit = match &self.retry_q[i] {
                Some(e) => e.msg.0.id == id && e.msg.1 == addr,
                None => false,
            };
            if hit {
                return true;
            }
            i = i + 1;
        }
        false
    }

    /// Send `bytes` to `addr`; a socket that would block is not a failure.
    fn send(sock: &mut S, m: &Message, addr: Addr, bytes: &Vec<u8>) -> (r: Result<(), Error>)
        ensures
            r matches Err(e) ==> (e.what matches What::SockError(_)) && e.when == When::SendingMessage(
                Some(addr),
                m.id,
                e.when->SendingMessage_2,
            ) && e.when->SendingMessage_2@ == m.token@,
    {
        match sock.send(addr, bytes.as_slice()) {
            Ok(()) => Ok(()),
            Err(Nb::WouldBlock) => Ok(()),
            Err(Nb::Other(e)) => Err(sending(m, Some(addr), What::SockError(e))),
        }
    }

    /// Send every queued fling once, taking each out of its slot first.
    pub fn send_flings(&mut self) -> (r: Result<(), Error>)
        requires
            old(self).wf(),
        ensures
            final(self).wf(),
            final(self).fling_q@.len() == old(self).fling_q@.len(),
            r is Ok ==> forall|i: int| 0 <= i < final(self).fling_q@.len() ==> (#[trigger] final(self).fling_q@[i]) is None,
            (forall|i: int| 0 <= i < old(self).fling_q@.len() ==> (#[trigger] old(self).fling_q@[i]) is None) ==> r is Ok,
            r matches Err(e) ==> exists|i: int| #[trigger] fling_failed(old(self).fling_q@, final(self).fling_q@, i, e),
            r is Ok ==> forall|i: int| 0 <= i < old(self).fling_q@.len() ==> (#[trigger] old(self).fling_q@[i] matches Some(d)
                ==> sendable(d.0)),
            forall|i: int| 0 <= i < final(self).fling_q@.len() ==> (#[trigger] final(self).fling_q@[i] is Some
                ==> final(self).fling_q@[i] == old(self).fling_q@[i]),
            final(self).retry_q == old(self).retry_q,
            final(self).resps == old(self).resps,
            final(self).msg_ids == old(self).msg_ids,
            final(self).msg_tokens == old(self).msg_tokens,
    {
        let mut i: usize = 0;
        while i < self.fling_q.len()
            invariant
                self.wf(),
                i <= self.fling_q@.len(),
                self.fling_q@.len() == old(self).fling_q@.len(),
                forall|k: int| 0 <= k < i ==> (#[trigger] self.fling_q@[k]) is None,
                forall|k: int| 0 <= k < i ==> (#[trigger] old(self).fling_q@[k] matches Some(d) ==> sendable(d.0)),
                forall|k: int| i <= k < self.fling_q@.len() ==> #[trigger] self.fling_q@[k] == old(self).fling_q@[k],
                self.retry_q == old(self).retry_q,
                self.resps == old(self).resps,
                self.msg_ids == old(self).msg_ids,
                self.msg_tokens == old(self).msg_tokens,
            decreases self.fling_q.len() - i,
        {
            let slot = self.fling_q.remove(i);
            self.fling_q.insert(i, None);
            let ghost ii = i as int;
            if let Some(Addressed(m, addr)) = slot {
                match try_into_bytes(&m, MAX_DGRAM) {
                    Ok(bytes) => {
                        let sent = Self::send(&mut self.sock, &m, addr, &bytes);
                        if let Err(e) = sent {
                            assert(fling_failed(old(self).fling_q@, self.fling_q@, ii, e));
                            return Err(e);
                        }
                    },
                    Err(e) => {
                        let err = sending(&m, Some(addr), What::ToBytes(e));
                        assert(fling_failed(old(self).fling_q@, self.fling_q@, ii, err));
                        return Err(err);
                    },
                }
            }
            i = i + 1;
        }
        Ok(())
    }

    /// Walk the retry queue: for each present entry, write its message, read the clock, and
    /// resend it when due; leave what is waiting; fail with `MessageNeverAcked` on an entry
    /// whose timer gives up, removing it. A clock that cannot tell the time fails the walk at
    /// that entry, which stays.
    pub fn send_retrys(&mut self) -> (r: Result<(), Error>)
        requires
            old(self).wf(),
        ensures
            final(self).wf(),
            final(self).retry_q@.len() == old(self).retry_q@.len(),
            exists|nows: Seq<u64>| #[trigger] retry_walk(old(self).retry_q@, final(self).retry_q@, r, nows),
            final(self).fling_q == old(self).fling_q,
            final(self).resps == old(self).resps,
            final(self).msg_ids == old(self).msg_ids,
            final(self).msg_tokens == old(self).msg_tokens,
    {
        let ghost mut nows: Seq<u64> = seq![];
        let mut i: usize = 0;
        while i < self.retry_q.len()
            invariant
                self.wf(),
                i <= self.retry_q@.len(),
                nows.len() == i,
                self.retry_q@.len() == old(self).retry_q@.len(),
                forall|k: int| 0 <= k < i ==> walked(#[trigger] old(self).retry_q@[k], self.retry_q@[k], nows[k]),
                forall|k: int| i <= k < self.retry_q@.len() ==> #[trigger] self.retry_q@[k] == old(self).retry_q@[k],
                self.fling_q == old(self).fling_q,
                self.resps == old(self).resps,
                self.msg_ids == old(self).msg_ids,
                self.msg_tokens == old(self).msg_tokens,
            decreases self.retry_q.len() - i,
        {
            let slot = self.retry_q.remove(i);
            match slot {
                None => {
                    self.retry_q.insert(i, None);
                    proof {
                        nows = nows.push(0);
                    }
                },
                Some(mut e) => {
                    let ghost ii = i as int;
                    let bytes = match try_into_bytes(&e.msg.0, MAX_DGRAM) {
                        Ok(b) => b,
                        Err(err) => {
                            let ret = sending(&e.msg.0, Some(e.msg.1), What::ToBytes(err));
                            self.retry_q.insert(i, Some(e));
                            let ghost all = nows + Seq::new((old(self).retry_q@.len() - i) as nat, |k: int| 0u64);
                            assert(retry_failed(old(self).retry_q@, self.retry_q@, ii, ret, all));
                            assert(retry_walk(old(self).retry_q@, self.retry_q@, Err(ret), all));
                            return Err(ret);
                        },
                    };
                    let now = match self.clock.try_now() {
                        Ok(now) => now,
                        Err(_) => {
                            let ret = sending(&e.msg.0, Some(e.msg.1), What::ClockError);
                            self.retry_q.insert(i, Some(e));
                            let ghost all = nows + Seq::new((old(self).retry_q@.len() - i) as nat, |k: int| 0u64);
                            assert(retry_failed(old(self).retry_q@, self.retry_q@, ii, ret, all));
                            proof {
                                lemma_walk_all_waiting(old(self).retry_q@, self.retry_q@, ii, all);
                            }
                            assert(retry_walk(old(self).retry_q@, self.retry_q@, Err(ret), all));
                            return Err(ret);
                        },
                    };
                    let ghost before = e;
                    let should = e.timer.what_should_i_do(now);
                    let ghost all = nows + Seq::new((old(self).retry_q@.len() - i) as nat, |k: int| now);
                    match should {
                        YouShould::Wait => {
                            self.retry_q.insert(i, Some(e));
                        },
                        YouShould::Retry => {
                            let sent = Self::send(&mut self.sock, &e.msg.0, e.msg.1, &bytes);
                            self.retry_q.insert(i, Some(e));
                            if let Err(err) = sent {
                                assert(retry_failed(old(self).retry_q@, self.retry_q@, ii, err, all));
                                assert(retry_walk(old(self).retry_q@, self.retry_q@, Err(err), all));
                                return Err(err);
                            }
                        },
                        YouShould::GiveUp => {
                            let ret = sending(&e.msg.0, Some(e.msg.1), What::MessageNeverAcked);
                            self.retry_q.insert(i, None);
                            assert(old(self).retry_q@[i as int] == Some(before));
                            assert(retry_failed(old(self).retry_q@, self.retry_q@, ii, ret, all));
                            assert(retry_walk(old(self).retry_q@, self.retry_q@, Err(ret), all));
                            return Err(ret);
                        },
                    }
                    proof {
                        nows = nows.push(now);
                    }
                },
            }
            i = i + 1;
        }
        proof {
            if forall|k: int| 0 <= k < old(self).retry_q@.len() ==> (#[trigger] old(self).retry_q@[k] matches Some(en)
                ==> sendable(en.msg.0) && en.timer.decide(nows[k]) == YouShould::Wait) {
                assert forall|k: int| 0 <= k < old(self).retry_q@.len() implies self.retry_q@[k] == old(self).retry_q@[k] by {
                    assert(walked(old(self).retry_q@[k], self.retry_q@[k], nows[k]));
                }
                assert(self.retry_q@ =~= old(self).retry_q@);
            }
            if forall|k: int| 0 <= k < old(self).retry_q@.len() ==> (#[trigger] old(self).retry_q@[k]) is None {
                assert forall|k: int| 0 <= k < old(self).retry_q@.len() implies self.retry_q@[k] == old(self).retry_q@[k] by {
                    assert(walked(old(self).retry_q@[k], self.retry_q@[k], nows[k]));
                }
                assert(self.retry_q@ =~= old(self).retry_q@);
            }
            assert(retry_walk(old(self).retry_q@, self.retry_q@, Ok(()), nows));
        }
        Ok(())
    }

    /// Handle an inbound message: match it against the retry queue, and keep it if it is a
    /// response.
    pub fn msg_recvd(&mut self, msg: Addressed<Message>) -> (r: Result<(), Error>)
        requires
            old(self).wf(),
        ensures
            final(self).wf(),
            ({
                let i = retry_match(old(self).retry_q@, msg.0.id, msg.1);
                if (msg.0.ty == Type::Ack || msg.0.ty == Type::Reset) && i >= 0 {
                    final(self).retry_q@ == old(self).retry_q@.update(i, None)
                } else {
                    final(self).retry_q@ == old(self).retry_q@
                }
            }),
            !msg.0.code.is_response_spec() ==> final(self).resps == old(self).resps && r is Ok,
            msg.0.code.is_response_spec() ==> exists|p: Addressed<Resp>| crate::resp::read_form(p.0, msg.0) && p.1
                == msg.1 && final(self).resps@ == #[trigger] push_result(old(self).resps@, p),
            r is Err <==> msg.0.code.is_response_spec() && full(old(self).resps@),
            msg.0.code.is_response_spec() && r is Ok ==> exists|j: int| 0 <= j < final(self).resps@.len()
                && (#[trigger] final(self).resps@[j] matches Some(p) && crate::resp::read_form(p.0, msg.0) && p.1 == msg.1),
            r matches Err(e) ==> e == (Error { when: When::Polling, what: What::BufferFull }),
            final(self).fling_q == old(self).fling_q,
            final(self).msg_ids == old(self).msg_ids,
            final(self).msg_tokens == old(self).msg_tokens,
    {
        self.process_acks(&msg);
        if msg.0.code.is_response() {
            let Addressed(m, addr) = msg;
            let ghost mm = m;
            let resp = Resp::from_message(m);
            let ghost p = Addressed(resp, addr);
            match self.store_resp(Addressed(resp, addr)) {
                Some(_) => {
                    return Err(Error { when: When::Polling, what: What::BufferFull });
                },
                None => {
                    proof {
                        let j = self.resps@.len() - 1;
                        assert(self.resps@[j] matches Some(p) && crate::resp::read_form(p.0, mm) && p.1 == addr);
                    }
                },
            }
        }
        Ok(())
    }

    /// Parse a received datagram and handle it.
    pub fn dgram_recvd(&mut self, dgram: &Addressed<Vec<u8>>) -> (r: Result<(), Error>)
        requires
            old(self).wf(),
        ensures
            final(self).wf(),
            final(self).retry_q@.len() == old(self).retry_q@.len(),
            r matches Err(e) && (e.what matches What::FromBytes(_)) ==> final(self).retry_q == old(self).retry_q
                && final(self).resps == old(self).resps,
            (exists|m: MessageV| wf_msg(m) && #[trigger] encode(m) == dgram.0@) ==> (r is Ok || (r == Err::<(), Error>(
                Error { when: When::Polling, what: What::BufferFull },
            ) && full(old(self).resps@))),
            !(exists|m: MessageV| wf_msg(m) && #[trigger] encode(m) == dgram.0@) ==> (r matches Err(e) && e.when
                == When::Polling && (e.what matches What::FromBytes(_)) && final(self).retry_q == old(self).retry_q
                && final(self).resps == old(self).resps),
            r matches Err(e) && e.what == What::BufferFull ==> full(old(self).resps@),
            r matches Err(e) ==> (e.what matches What::FromBytes(_)) || e.what == What::BufferFull,
            r matches Err(e) ==> ((e.what matches What::FromBytes(_)) ==> e.when == When::Polling),
            !(r matches Err(e) && (e.what matches What::FromBytes(_))) ==> handled(
                old(self).retry_q@,
                final(self).retry_q@,
                old(self).resps@,
                final(self).resps@,
                Some(*dgram),
            ),
            final(self).fling_q == old(self).fling_q,
            final(self).msg_ids == old(self).msg_ids,
            final(self).msg_tokens == old(self).msg_tokens,
    {
        match try_from_bytes(dgram.0.as_slice()) {
            Ok(m) => {
                let ghost mm = m;
                proof {
                    lemma_retry_match(self.retry_q@, m.id, dgram.1);
                }
                let r = self.msg_recvd(Addressed(m, dgram.1));
                assert(self.retry_q@ == acked(old(self).retry_q@, mm, dgram.1));
                assert(resp_after(old(self).resps@, self.resps@, mm, dgram.1));
                assert(wf_msg(mm@));
                assert(encode(mm@) == dgram.0@);
                assert(wf_msg(mm@) && encode(mm@) == dgram.0@ && self.retry_q@ == acked(old(self).retry_q@, mm, dgram.1)
                    && resp_after(old(self).resps@, self.resps@, mm, dgram.1));
                let ghost d = *dgram;
                assert(got_msg(old(self).retry_q@, self.retry_q@, old(self).resps@, self.resps@, d));
                assert(handled(old(self).retry_q@, self.retry_q@, old(self).resps@, self.resps@, Some(d)));
                r
            },
            Err(e) => Err(Error { when: When::Polling, what: What::FromBytes(e) }),
        }
    }

    /// Handle what one poll of the socket gave: parse and match the datagram, if any, then
    /// send the flings and walk the retry queue.
    pub fn step(&mut self, polled: &Option<Addressed<Vec<u8>>>) -> (r: Result<(), Error>)
        requires
            old(self).wf(),
        ensures
            final(self).wf(),
            final(self).msg_ids == old(self).msg_ids,
            final(self).msg_tokens == old(self).msg_tokens,
            r matches Err(e) ==> (e.what matches What::FromBytes(_)) ==> e.when == When::Polling && final(self).retry_q
                == old(self).retry_q && final(self).resps == old(self).resps && (polled matches Some(d) && !(exists|
                m: MessageV,
            | wf_msg(m) && #[trigger] encode(m) == d.0@)),
            !(r matches Err(e) && (e.what matches What::FromBytes(_))) ==> exists|mid: Seq<Option<Retryable>>|
                #[trigger] handled(old(self).retry_q@, mid, old(self).resps@, final(self).resps@, *polled) && kept_empty(
                    mid,
                    final(self).retry_q@,
                ) && (r is Ok ==> exists|nows: Seq<u64>| #[trigger] walked_all(mid, final(self).retry_q@, nows)),
    {
        match polled {
            Some(d) => {
                let got = self.dgram_recvd(d);
                if let Err(e) = got {
                    if e.what == What::BufferFull {
                        proof {
                            assert(kept_empty(self.retry_q@, self.retry_q@));
                            assert(handled(old(self).retry_q@, self.retry_q@, old(self).resps@, self.resps@, *polled));
                        }
                    }
                    return Err(e);
                }
            },
            None => {
                assert(handled(old(self).retry_q@, self.retry_q@, old(self).resps@, self.resps@, *polled));
            },
        }
        let ghost mid = self.retry_q@;
        let ghost rs = self.resps@;
        assert(handled(old(self).retry_q@, mid, old(self).resps@, rs, *polled));
        let flung = self.send_flings();
        if let Err(e) = flung {
            assert(kept_empty(mid, self.retry_q@));
            return Err(e);
        }
        let retried = self.send_retrys();
        proof {
            let nows = choose|nows: Seq<u64>| #[trigger] retry_walk(mid, self.retry_q@, retried, nows);
            lemma_walk_keeps_empty(mid, self.retry_q@, retried, nows);
            if retried is Ok {
                assert(walked_all(mid, self.retry_q@, nows));
            }
        }
        retried
    }

    /// One step of the engine: take at most one datagram from the socket and handle it, send
    /// the flings, then walk the retry queue. Returns the datagram received, if any.
    pub fn tick(&mut self) -> (r: Result<Option<Addressed<Vec<u8>>>, Error>)
        requires
            old(self).wf(),
        ensures
            final(self).wf(),
            final(self).msg_ids == old(self).msg_ids,
            final(self).msg_tokens == old(self).msg_tokens,
            r matches Ok(p) ==> exists|mid: Seq<Option<Retryable>>, nows: Seq<u64>|
                #[trigger] handled(old(self).retry_q@, mid, old(self).resps@, final(self).resps@, p) && #[trigger] walked_all(
                    mid,
                    final(self).retry_q@,
                    nows,
                ),
            r matches Err(e) ==> tick_failed(old(self).retry_q@, final(self).retry_q@, old(self).resps@, final(self).resps@, e),
    {
        let polled = match self.sock.poll() {
            Ok(p) => p,
            Err(e) => {
                return Err(Error { when: When::Polling, what: What::SockError(e) });
            },
        };
        match self.step(&polled) {
            Ok(()) => Ok(polled),
            Err(e) => Err(e),
        }
    }

    /// Drive the engine one step, then claim the response with `token` from `addr`.
    pub fn poll_resp(&mut self, token: &Vec<u8>, addr: Addr) -> (r: Result<Resp, Nb<Error>>)
        requires
            old(self).wf(),
        ensures
            final(self).wf(),
            r matches Ok(p) ==> p.msg.token@ == token@,
            r matches Err(Nb::WouldBlock) ==> resp_match(final(self).resps@, token@, addr) < 0,
            (r matches Err(Nb::Other(e)) && tick_failed(
                old(self).retry_q@,
                final(self).retry_q@,
                old(self).resps@,
                final(self).resps@,
                e,
            )) || exists|p: Option<Addressed<Vec<u8>>>, q: Seq<Option<Retryable>>, rs: Seq<Option<Addressed<Resp>>>|
                #[trigger] handled(old(self).retry_q@, q, old(self).resps@, rs, p) && claimed(rs, final(self).resps@, token@, addr, r),
    {
        match self.tick() {
            Err(e) => Err(Nb::Other(e)),
            Ok(p) => {
                let ghost rs = self.resps@;
                let ghost q = choose|mid: Seq<Option<Retryable>>|
                    exists|nows: Seq<u64>| #[trigger] handled(old(self).retry_q@, mid, old(self).resps@, rs, p)
                        && #[trigger] walked_all(mid, self.retry_q@, nows);
                proof {
                    lemma_resp_match(self.resps@, token@, addr);
                }
                let res = match self.try_get_resp(token, addr) {
                    Some(p) => Ok(p),
                    None => Err(Nb::WouldBlock),
                };
                proof {
                    lemma_resp_match(rs, token@, addr);
                    assert(handled(old(self).retry_q@, q, old(self).resps@, rs, p));
                    assert(claimed(rs, self.resps@, token@, addr, res));
                    if res is Err {
                        assert(resp_match(self.resps@, token@, addr) < 0);
                    }
                }
                res
            },
        }
    }

    /// Drive the engine one step, then hand out the datagram received, read as a request.
    pub fn poll_req(&mut self) -> (r: Result<Addressed<Req>, Nb<Error>>)
        requires
            old(self).wf(),
        ensures
            final(self).wf(),
            r matches Ok(q) ==> q.0.wf(),
            (r matches Err(Nb::Other(e)) && tick_failed(
                old(self).retry_q@,
                final(self).retry_q@,
                old(self).resps@,
                final(self).resps@,
                e,
            )) || exists|p: Option<Addressed<Vec<u8>>>, mid: Seq<Option<Retryable>>, nows: Seq<u64>|
                #[trigger] handled(old(self).retry_q@, mid, old(self).resps@, final(self).resps@, p) && #[trigger] walked_all(
                    mid,
                    final(self).retry_q@,
                    nows,
                ) && req_result(p, r),
    {
        match self.tick() {
            Err(e) => Err(Nb::Other(e)),
            Ok(p) => {
                let ghost pp = p;
                let r = req_of_dgram(p);
                assert(req_result(pp, r));
                r
            },
        }
    }

    /// Drive the engine one step, then succeed when nothing is queued for `(id, addr)` any more.
    pub fn poll_ping(&mut self, id: u16, addr: Addr) -> (r: Result<(), Nb<Error>>)
        requires
            old(self).wf(),
        ensures
            final(self).wf(),
            r is Ok ==> !still_queued(final(self).retry_q@, id, addr),
            r matches Err(Nb::WouldBlock) ==> still_queued(final(self).retry_q@, id, addr),
            (r matches Err(Nb::Other(e)) && tick_failed(
                old(self).retry_q@,
                final(self).retry_q@,
                old(self).resps@,
                final(self).resps@,
                e,
            )) || exists|p: Option<Addressed<Vec<u8>>>, mid: Seq<Option<Retryable>>, nows: Seq<u64>|
                #[trigger] handled(old(self).retry_q@, mid, old(self).resps@, final(self).resps@, p) && #[trigger] walked_all(
                    mid,
                    final(self).retry_q@,
                    nows,
                ),
    {
        match self.tick() {
            Err(e) => Err(Nb::Other(e)),
            Ok(_) => if self.check_ping(id, addr) {
                Err(Nb::WouldBlock)
            } else {
                Ok(())
            },
        }
    }

    /// Acknowledge a confirmable response: queue an empty ACK with a fresh id and its token.
    /// A full fling queue gives `BufferFull` and is left as it was.
    pub fn ack(&mut self, resp: &Addressed<Resp>) -> (r: Result<(), Error>)
        requires
            old(self).wf(),
        ensures
            final(self).wf(),
            resp.0.msg.ty != Type::Con ==> r is Ok && final(self).fling_q == old(self).fling_q
                && final(self).msg_ids == old(self).msg_ids,
            resp.0.msg.ty == Type::Con ==> (r == Err::<(), Error>(Error { when: When::Polling, what: What::ClockError })
                && final(self).fling_q == old(self).fling_q && final(self).msg_ids == old(self).msg_ids) || (
            exists|a: Addressed<Message>|
                #[trigger] ack_entry(a, resp, next_id_of(old(self).msg_ids.hist(resp.1))) && final(self).fling_q@
                    == push_result(old(self).fling_q@, a) && (r is Err <==> full(old(self).fling_q@)) && (r matches Err(
                    e,
                ) ==> e == (Error { when: When::Polling, what: What::BufferFull }))),
            final(self).retry_q == old(self).retry_q,
            final(self).resps == old(self).resps,
    {
        if resp.0.msg.ty != Type::Con {
            return Ok(());
        }
        let id = match self.next_id(resp.1) {
            Ok(id) => id,
            Err(e) => {
                return Err(e);
            },
        };
        let m = Message {
            ver: 1,
            ty: Type::Ack,
            id,
            token: crate::resp::copy_bytes(&resp.0.msg.token),
            code: Code { class: 0, detail: 0 },
            opts: Vec::new(),
            payload: Vec::new(),
        };
        let ghost a = Addressed(m, resp.1);
        assert(m@.opts =~= Seq::<(u16, Seq<u8>)>::empty());
        assert(m@.payload =~= Seq::<u8>::empty());
        assert(ack_entry(a, resp, id));
        match push_slot(&mut self.fling_q, Addressed(m, resp.1)) {
            Some(_) => Err(Error { when: When::Polling, what: What::BufferFull }),
            None => Ok(()),
        }
    }

    /// Send one message now, with no retry.
    pub fn send_msg(&mut self, msg: Addressed<Message>) -> (r: Result<(), Error>)
        requires
            old(self).wf(),
        ensures
            final(self).wf(),
            !wf_msg(msg.0@) ==> (r matches Err(e) && e.what == What::ToBytes(MessageToBytesError::Invalid)),
            wf_msg(msg.0@) && encode(msg.0@).len() > MAX_DGRAM ==> (r matches Err(e) && (e.what matches What::ToBytes(
                MessageToBytesError::TooLong { .. },
            ))),
            wf_msg(msg.0@) && encode(msg.0@).len() <= MAX_DGRAM ==> (r is Ok || (r matches Err(e) && (e.what matches What::SockError(_)))),
            r matches Err(e) ==> names_msg(e, msg),
            final(self).retry_q == old(self).retry_q,
            final(self).fling_q == old(self).fling_q,
            final(self).resps == old(self).resps,
            final(self).msg_ids == old(self).msg_ids,
            final(self).msg_tokens == old(self).msg_tokens,
    {
        let Addressed(m, addr) = msg;
        match try_into_bytes(&m, MAX_DGRAM) {
            Ok(bytes) => Self::send(&mut self.sock, &m, addr, &bytes),
            Err(e) => Err(sending(&m, Some(addr), What::ToBytes(e))),
        }
    }

    /// Queue `m` for `addr` with a retry timer started at `now` (100 ms, doubling, 5 attempts).
    pub fn enqueue_retry_at(&mut self, m: Message, addr: Addr, now: u64) -> (r: Result<(), Error>)
        requires
            old(self).wf(),
        ensures
            final(self).wf(),
            final(self).retry_q@ == push_result(
                old(self).retry_q@,
                Retryable { msg: Addressed(m, addr), timer: new_timer(now) },
            ),
            r is Err <==> full(old(self).retry_q@),
            r matches Err(e) ==> e.what == What::BufferFull && (e.when matches When::SendingMessage(None, id, t)
                && id == m.id && t@ == m.token@),
            final(self).fling_q == old(self).fling_q,
            final(self).resps == old(self).resps,
            final(self).msg_ids == old(self).msg_ids,
            final(self).msg_tokens == old(self).msg_tokens,
    {
        let timer = RetryTimer::new(now, Strategy::Exponential { init_min: 100, init_max: 100 }, Attempts(5));
        match push_slot(&mut self.retry_q, Retryable { msg: Addressed(m, addr), timer }) {
            Some(e) => Err(sending(&e.msg.0, None, What::BufferFull)),
            None => Ok(()),
        }
    }

    /// Send a request to the host and port of its Uri-Host and Uri-Port options, queued for
    /// retry until it is acknowledged. Returns its token and the address.
    pub fn send_req(&mut self, req: Req) -> (r: Result<(Vec<u8>, Addr), Error>)
        requires
            old(self).wf(),
            req.wf(),
            option_value(crate::option::nvs(req.opts@), 3) is Some,
            option_value(crate::option::nvs(req.opts@), 7) is Some,
        ensures
            final(self).wf(),
            final(self).fling_q == old(self).fling_q,
            final(self).resps == old(self).resps,
            final(self).msg_ids == old(self).msg_ids,
            final(self).msg_tokens == old(self).msg_tokens,
            utf8_of(req_host(req)) is None ==> (r matches Err(e) && e.what == What::HostInvalidUtf8 && unaddressed(
                e,
                req.msg.id,
                req.msg.token@,
            ) && final(self).retry_q == old(self).retry_q),
            utf8_of(req_host(req)) is Some && req_octets(req) is None ==> (r matches Err(e) && e.what
                == What::HostInvalidIpAddress && unaddressed(e, req.msg.id, req.msg.token@) && final(self).retry_q
                == old(self).retry_q),
            req_octets(req) matches Some(o) ==> (r matches Err(e) && e.what
                == What::ClockError && unaddressed(e, req.msg.id, req.msg.token@) && final(self).retry_q
                == old(self).retry_q) || (exists|en: Retryable|
                #[trigger] req_entry(en, req, addr_of(o, port_of(req_port(req)))) && req_sent(
                    old(self).retry_q@,
                    final(self).retry_q@,
                    en,
                    r,
                    req.msg.token@,
                )),
    {
        let token = crate::resp::copy_bytes(&req.msg.token);
        let port = match req.get_option(7) {
            Some(p) => read_port(p),
            None => 0,
        };
        let ghost req0 = req;
        let host = match req.get_option(3) {
            Some(h) => {
                assert(h@ == req_host(req0));
                decode_utf8(h.as_slice())
            },
            None => None,
        };
        assert(host matches Some(t) ==> utf8_of(req_host(req0)) == Some(t@));
        assert(host is None ==> utf8_of(req_host(req0)) is None);
        let msg = req.into_message();
        let host = match host {
            Some(h) => h,
            None => {
                return Err(sending(&msg, None, What::HostInvalidUtf8));
            },
        };
        let octets = match parse_ipv4(host.as_str()) {
            Some(o) => o,
            None => {
                return Err(sending(&msg, None, What::HostInvalidIpAddress));
            },
        };
        let addr = Addr::new(octets.0, octets.1, octets.2, octets.3, port);
        let now = match self.clock.try_now() {
            Ok(now) => now,
            Err(_) => {
                return Err(sending(&msg, None, What::ClockError));
            },
        };
        let bytes = try_into_bytes(&msg, MAX_DGRAM);
        let copy = copy_msg(&msg);
        let ghost en = Retryable { msg: Addressed(copy, addr), timer: new_timer(now) };
        assert(addr == addr_of(octets, port_of(req_port(req0))));
        assert(req_entry(en, req0, addr_of(octets, port_of(req_port(req0)))));
        let res = match self.enqueue_retry_at(copy, addr, now) {
            Err(e) => Err(e),
            Ok(()) => match bytes {
                Err(e) => Err(sending(&msg, None, What::ToBytes(e))),
                Ok(b) => match Self::send(&mut self.sock, &msg, addr, &b) {
                    Ok(()) => Ok((token, addr)),
                    Err(e) => Err(sending(&msg, None, e.what)),
                },
            },
        };
        assert(req_sent(old(self).retry_q@, self.retry_q@, en, res, req0.msg.token@));
        res
    }

    /// Ping `host:port`: send an empty confirmable message with a fresh id, queued for retry
    /// until the peer answers. Returns the id and the address.
    pub fn ping(&mut self, host: &str, port: u16) -> (r: Result<(u16, Addr), Error>)
        requires
            old(self).wf(),
        ensures
            final(self).wf(),
            final(self).fling_q == old(self).fling_q,
            final(self).resps == old(self).resps,
            final(self).msg_tokens == old(self).msg_tokens,
            ipv4_of(host@) is None ==> (r matches Err(e) && e.what == What::HostInvalidIpAddress && unaddressed(e, 0, seq![])
                && final(self).retry_q == old(self).retry_q && final(self).msg_ids == old(self).msg_ids),
            ipv4_of(host@) matches Some(o) ==> (r matches Err(e) && e.what == What::ClockError && final(self).retry_q
                == old(self).retry_q && final(self).msg_ids == old(self).msg_ids) || (exists|en: Retryable|
                #[trigger] ping_entry(en, next_id_of(old(self).msg_ids.hist(addr_of(o, port))), addr_of(o, port))
                    && final(self).msg_ids.hist(addr_of(o, port)) == old(self).msg_ids.hist(addr_of(o, port)).push(
                    Stamped(next_id_of(old(self).msg_ids.hist(addr_of(o, port))), en.timer.start),
                ) && ping_sent(old(self).retry_q@, final(self).retry_q@, en, r)),
    {
        let octets = match parse_ipv4(host) {
            Some(o) => o,
            None => {
                return Err(Error {
                    when: When::SendingMessage(None, 0, Vec::new()),
                    what: What::HostInvalidIpAddress,
                });
            },
        };
        let addr = Addr::new(octets.0, octets.1, octets.2, octets.3, port);
        let now = match self.clock.try_now() {
            Ok(now) => now,
            Err(_) => {
                return Err(Error { when: When::Polling, what: What::ClockError });
            },
        };
        let id = self.next_id_at(addr, now);
        let msg = Message {
            ver: 1,
            ty: Type::Con,
            id,
            token: Vec::new(),
            code: Code { class: 0, detail: 0 },
            opts: Vec::new(),
            payload: Vec::new(),
        };
        proof {
            assert(msg@.opts =~= Seq::<(u16, Seq<u8>)>::empty());
            assert(encode_opts(msg@.opts) =~= Seq::<u8>::empty());
            assert(encode(msg@).len() == 4);
        }
        let bytes = match try_into_bytes(&msg, 13) {
            Ok(b) => b,
            Err(e) => {
                return Err(sending(&msg, Some(addr), What::ToBytes(e)));
            },
        };
        let copy = copy_msg(&msg);
        let ghost en = Retryable { msg: Addressed(copy, addr), timer: new_timer(now) };
        assert(addr == addr_of(octets, port));
        assert(msg@.payload =~= Seq::<u8>::empty());
        assert(ping_entry(en, id, addr));
        let ghost ids_after = self.msg_ids;
        let res = match self.enqueue_retry_at(copy, addr, now) {
            Err(e) => Err(e),
            Ok(()) => match Self::send(&mut self.sock, &msg, addr, &bytes) {
                Ok(()) => Ok((id, addr)),
                Err(e) => Err(e),
            },
        };
        assert(self.msg_ids == ids_after);
        assert(ping_sent(old(self).retry_q@, self.retry_q@, en, res));
        res
    }
}

/// The Uri-Host bytes of a request.
pub open spec fn req_host(req: Req) -> Seq<u8> {
    option_value(crate::option::nvs(req.opts@), 3)->Some_0
}

/// The IPv4 octets that the Uri-Host of a request reads as.
pub open spec fn req_octets(req: Req) -> Option<(u8, u8, u8, u8)> {
    match utf8_of(req_host(req)) {
        Some(h) => ipv4_of(h),
        None => None,
    }
}

/// The Uri-Port bytes of a request.
pub open spec fn req_port(req: Req) -> Seq<u8> {
    option_value(crate::option::nvs(req.opts@), 7)->Some_0
}

/// After the request's entry `en` was pushed on `q0`, giving `q1`: a full queue gives
/// `BufferFull`; a message that cannot be written gives `ToBytes`; otherwise the token and
/// address come back, or the socket failed. A request's errors name no address.
pub open spec fn req_sent(
    q0: Seq<Option<Retryable>>,
    q1: Seq<Option<Retryable>>,
    en: Retryable,
    r: Result<(Vec<u8>, Addr), Error>,
    token: Seq<u8>,
) -> bool {
    &&& q1 == push_result(q0, en)
    &&& full(q0) ==> (r matches Err(e) && e.what == What::BufferFull)
    &&& !full(q0) && !sendable(en.msg.0) ==> (r matches Err(e) && (e.what matches What::ToBytes(_)) && unaddressed(
        e,
        en.msg.0.id,
        en.msg.0.token@,
    ))
    &&& !full(q0) && sendable(en.msg.0) ==> (r matches Ok(p) && p.0@ == token && p.1 == en.msg.1) || (r matches Err(e)
        && (e.what matches What::SockError(_)) && unaddressed(e, en.msg.0.id, en.msg.0.token@))
}

/// After the ping's entry `en` was pushed on `q0`, giving `q1`: a full queue gives
/// `BufferFull`; otherwise the id and address come back, or the socket failed.
pub open spec fn ping_sent(q0: Seq<Option<Retryable>>, q1: Seq<Option<Retryable>>, en: Retryable, r: Result<(u16, Addr), Error>) -> bool {
    &&& q1 == push_result(q0, en)
    &&& full(q0) ==> (r matches Err(e) && e.what == What::BufferFull)
    &&& !full(q0) ==> r == Ok::<(u16, Addr), Error>((en.msg.0.id, en.msg.1)) || (r matches Err(e) && (e.what matches What::SockError(_))
        && names_msg(e, en.msg))
}

/// The timer of a message queued at `now`: 100 ms, doubling, 5 attempts.
pub open spec fn new_timer(now: u64) -> RetryTimer {
    RetryTimer { start: now, delay: 100, next: crate::retry::sat_add(now, 100), attempts: 1, max_attempts: 5 }
}

/// An error raised before the address was known, for the message with `id` and `token`.
pub open spec fn unaddressed(e: Error, id: u16, token: Seq<u8>) -> bool {
    e.when matches When::SendingMessage(None, i, t) && i == id && t@ == token
}

/// The empty ACK for a confirmable response, with the id `id`.
pub open spec fn ack_entry(a: Addressed<Message>, resp: &Addressed<Resp>, id: u16) -> bool {
    &&& a.1 == resp.1
    &&& a.0@ == (MessageV {
        ver: 1,
        ty: Type::Ack,
        id,
        token: resp.0.msg.token@,
        code: Code { class: 0, detail: 0 },
        opts: seq![],
        payload: seq![],
    })
}

/// The retry entry for a request sent to `a`: its message with the options delta-encoded,
/// and a fresh timer.
pub open spec fn req_entry(en: Retryable, req: Req, a: Addr) -> bool {
    &&& en.msg.1 == a
    &&& en.timer == new_timer(en.timer.start)
    &&& en.msg.0.ver == req.msg.ver
    &&& en.msg.0.ty == req.msg.ty
    &&& en.msg.0.id == req.msg.id
    &&& en.msg.0.code == req.msg.code
    &&& en.msg.0.token@ == req.msg.token@
    &&& en.msg.0.payload@ == req.msg.payload@
    &&& crate::option::is_normalization(crate::option::nvs(req.opts@), crate::option::opt_views(en.msg.0.opts@))
}

/// The retry entry for a ping to `a` with the id `id`: an empty CON and a fresh timer.
pub open spec fn ping_entry(en: Retryable, id: u16, a: Addr) -> bool {
    &&& en.msg.1 == a
    &&& en.timer == new_timer(en.timer.start)
    &&& en.msg.0@ == (MessageV {
        ver: 1,
        ty: Type::Con,
        id,
        token: seq![],
        code: Code { class: 0, detail: 0 },
        opts: seq![],
        payload: seq![],
    })
}

/// After a walk of the retry queue, each entry still present either was waiting (its timer
/// untouched) or was due and sent again (one more attempt counted); none that gave up is left.
pub proof fn lemma_walk_waited_or_resent(a: Seq<Option<Retryable>>, b: Seq<Option<Retryable>>, nows: Seq<u64>, i: int)
    requires
        walked_all(a, b, nows),
        0 <= i < b.len(),
        b[i] is Some,
    ensures
        a[i] matches Some(e) && ((e.timer.decide(nows[i]) == YouShould::Wait && b[i]->Some_0.timer == e.timer) || (
        e.timer.decide(nows[i]) == YouShould::Retry && b[i]->Some_0.timer.attempts == e.timer.attempts + 1)),
{
    assert(walked(a[i], b[i], nows[i]));
}

/// What a received datagram gives a caller waiting for requests: `WouldBlock` when nothing
/// came, the request read from the message when the bytes are one's wire form, `FromBytes`
/// otherwise.
pub fn req_of_dgram(d: Option<Addressed<Vec<u8>>>) -> (r: Result<Addressed<Req>, Nb<Error>>)
    ensures
        req_result(d, r),
        d is None ==> (r matches Err(Nb::WouldBlock)),
{
    match d {
        None => Err(Nb::WouldBlock),
        Some(x) => match try_from_bytes(x.0.as_slice()) {
            Ok(m) => {
                let ghost mm = m;
                let q = Req::from_message(m);
                assert(read_req(q, mm));
                Ok(Addressed(q, x.1))
            },
            Err(e) => Err(Nb::Other(Error { when: When::Polling, what: What::FromBytes(e) })),
        },
    }
}

/// The port that the bytes of a Uri-Port option give: an unsigned integer in as few
/// big-endian bytes as it needs (none for 0); only the first two bytes count.
pub open spec fn port_of(b: Seq<u8>) -> u16 {
    if b.len() == 0 {
        0
    } else if b.len() == 1 {
        b[0] as u16
    } else {
        (b[0] as int * 256 + b[1] as int) as u16
    }
}

fn read_port(b: &Vec<u8>) -> (r: u16)
    ensures
        r == port_of(b@),
{
    if b.len() == 0 {
        0
    } else if b.len() == 1 {
        b[0] as u16
    } else {
        b[0] as u16 * 256 + b[1] as u16
    }
}

/// A response is claimed at most once: once taken, the slot it stood in is empty, so a
/// second claim with the same token and address cannot return it again.
pub proof fn lemma_take_on_match(s: Seq<Option<Addressed<Resp>>>, token: Seq<u8>, addr: Addr)
    requires
        resp_match(s, token, addr) >= 0,
    ensures
        s.update(resp_match(s, token, addr), None)[resp_match(s, token, addr)] is None,
        resp_match(s.update(resp_match(s, token, addr), None), token, addr) != resp_match(s, token, addr),
{
    let i = resp_match(s, token, addr);
    lemma_resp_match(s, token, addr);
    lemma_resp_match(s.update(i, None), token, addr);
}

/// An ACK or RESET that answers a queued message removes it: whatever the rest of the same
/// step does (a walk that succeeds or fails never refills a slot), its slot stays empty.
pub proof fn lemma_ack_removes(q: Seq<Option<Retryable>>, fin: Seq<Option<Retryable>>, m: Message, addr: Addr)
    requires
        m.ty == Type::Ack || m.ty == Type::Reset,
        retry_match(q, m.id, addr) >= 0,
        kept_empty(acked(q, m, addr), fin),
    ensures
        fin[retry_match(q, m.id, addr)] is None,
{
    lemma_retry_match(q, m.id, addr);
    let i = retry_match(q, m.id, addr);
    assert(acked(q, m, addr)[i] is None);
}

} // verus!
