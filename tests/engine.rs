use blake2::Digest;
use kwap::engine::{Clock, ClockError, Core, Nb, Retryable, Socket, SocketError, What};
use kwap::msg::{try_from_bytes, try_into_bytes, Addr, Addressed, Code, Message, Type};
use kwap::req::Req;
use kwap::resp::Resp;
use kwap::retry::{Attempts, RetryTimer, Strategy};

struct SockMock {
    rx: Vec<Addressed<Vec<u8>>>,
    tx: Vec<(Addr, Vec<u8>)>,
}

impl SockMock {
    fn new() -> SockMock {
        SockMock { rx: Vec::new(), tx: Vec::new() }
    }
}

impl Socket for SockMock {
    fn send(&mut self, addr: Addr, bytes: &[u8]) -> Result<(), Nb<SocketError>> {
        self.tx.push((addr, bytes.to_vec()));
        Ok(())
    }

    fn poll(&mut self) -> Result<Option<Addressed<Vec<u8>>>, SocketError> {
        if self.rx.is_empty() {
            Ok(None)
        } else {
            Ok(Some(self.rx.remove(0)))
        }
    }
}

struct FakeClock {
    now: u64,
}

impl Clock for FakeClock {
    fn try_now(&self) -> Result<u64, ClockError> {
        Ok(self.now)
    }
}

fn client() -> Core<SockMock, FakeClock> {
    Core::new(FakeClock { now: 0 }, SockMock::new())
}

fn empty(ty: Type, id: u16) -> Message {
    Message { ver: 1, ty, id, token: vec![], code: Code { class: 0, detail: 0 }, opts: vec![], payload: vec![] }
}

#[test]
fn ping() {
    let mut client = client();
    let (id, addr) = client.ping("0.0.0.0", 5632).unwrap();
    assert_eq!(id, 0);
    assert_eq!(addr, Addr::new(0, 0, 0, 0, 5632));
    assert_eq!(client.sock.tx, vec![(addr, vec![0x40, 0x00, 0x00, 0x00])]);

    let resp = empty(Type::Reset, id);
    let bytes = try_into_bytes(&resp, 1152).unwrap();
    client.sock.rx.push(Addressed(bytes, addr));
    client.poll_ping(id, addr).unwrap();
    assert!(client.retry_q.iter().all(|e| e.is_none()));
}

#[test]
fn ping_waits_until_reset() {
    let mut client = client();
    let (id, addr) = client.ping("0.0.0.0", 5632).unwrap();
    assert!(matches!(client.poll_ping(id, addr), Err(Nb::WouldBlock)));
}

#[test]
fn client_flow() {
    let mut req = Req::get(b"0.0.0.0".to_vec(), 1234, vec![]);
    req.set_msg_token(vec![1, 2, 3, 4, 5, 6, 7, 8]);
    let token = req.msg.token.clone();
    let resp = Resp::for_request(&req.msg).unwrap();
    let bytes = try_into_bytes(&resp.into_message(), 1152).unwrap();

    let addr = Addr::new(0, 0, 0, 0, 1234);
    let mut client = client();
    client.sock.rx.push(Addressed(bytes.clone(), addr));

    let rep = client.poll_resp(&token, addr).unwrap();
    assert_eq!(bytes, try_into_bytes(&rep.into_message(), 1152).unwrap());
}

#[test]
fn get_flow_claims_response_once() {
    let mut client = client();
    let mut req = Req::get(b"0.0.0.0".to_vec(), 1234, vec![]);
    req.set_msg_token(vec![9, 9]);
    req.set_msg_id(41);
    let sent_msg = req.msg.token.clone();
    let (token, addr) = client.send_req(req).unwrap();
    assert_eq!(token, sent_msg);
    assert_eq!(addr, Addr::new(0, 0, 0, 0, 1234));
    let sent = try_from_bytes(&client.sock.tx[0].1).unwrap();
    assert_eq!(sent.id, 41);
    assert_eq!(sent.code, Code { class: 0, detail: 1 });

    let reply = Message {
        ver: 1,
        ty: Type::Ack,
        id: 41,
        token: token.clone(),
        code: Code { class: 2, detail: 5 },
        opts: vec![],
        payload: b"ok".to_vec(),
    };
    client.sock.rx.push(Addressed(try_into_bytes(&reply, 1152).unwrap(), addr));
    let got = client.poll_resp(&token, addr).unwrap();
    assert_eq!(got.payload(), &b"ok".to_vec());
    assert!(client.retry_q.iter().all(|e| e.is_none()));
    assert!(matches!(client.poll_resp(&token, addr), Err(Nb::WouldBlock)));
}

#[test]
fn retry_exhaustion_never_acked() {
    let mut client = client();
    let addr = Addr::new(10, 0, 0, 1, 5683);
    let msg = Message { token: vec![7], ..empty(Type::Con, 3) };
    let timer = RetryTimer::new(0, Strategy::Exponential { init_min: 10, init_max: 10 }, Attempts(2));
    client.retry_q.push(Some(Retryable { msg: Addressed(msg, addr), timer }));
    client.clock.now = 10;
    client.send_retrys().unwrap();
    assert_eq!(client.sock.tx.len(), 1);
    client.clock.now = 20;
    client.send_retrys().unwrap();
    assert_eq!(client.sock.tx.len(), 1);
    client.clock.now = 30;
    let err = client.send_retrys().unwrap_err();
    assert_eq!(err.what, What::MessageNeverAcked);
    assert_eq!(err.when, kwap::engine::When::SendingMessage(Some(addr), 3, vec![7]));
    assert!(client.retry_q[0].is_none());
}

#[test]
fn unknown_ack_is_ignored() {
    let mut client = client();
    let (id, addr) = client.ping("127.0.0.1", 5683).unwrap();
    assert_eq!(addr, Addr::new(127, 0, 0, 1, 5683));
    let ack = empty(Type::Ack, 999);
    client.sock.rx.push(Addressed(try_into_bytes(&ack, 1152).unwrap(), addr));
    client.tick().unwrap();
    assert!(client.retry_q.iter().any(|e| matches!(e, Some(r) if r.msg.0.id == id)));
    assert!(client.tick().unwrap().is_none());
}

#[test]
fn fling_queue_compacts_when_full() {
    let mut client = client();
    let addr = Addr::new(1, 1, 1, 1, 5683);
    let con = Resp::from_message(Message { token: vec![1], ..empty(Type::Con, 5) });
    let held = Addressed(con, addr);
    for _ in 0..16 {
        client.ack(&held).unwrap();
    }
    assert_eq!(client.fling_q.len(), 16);
    let full = client.ack(&held).unwrap_err();
    assert_eq!(full.what, What::BufferFull);
    client.send_flings().unwrap();
    assert_eq!(client.sock.tx.len(), 16);
    assert!(client.fling_q.iter().all(|e| e.is_none()));
    client.ack(&held).unwrap();
    assert_eq!(client.fling_q.len(), 1);
    let sent = try_from_bytes(&client.sock.tx[0].1).unwrap();
    assert_eq!(sent.ty, Type::Ack);
    assert_eq!(sent.token, vec![1]);
}

#[test]
fn ack_skips_non_confirmable() {
    let mut client = client();
    let addr = Addr::new(1, 1, 1, 1, 5683);
    let non = Resp::from_message(empty(Type::Non, 5));
    client.ack(&Addressed(non, addr)).unwrap();
    assert!(client.fling_q.is_empty());
}

#[test]
fn invalid_host_is_rejected() {
    let mut client = client();
    let err = client.ping("not.an.ip", 1).unwrap_err();
    assert_eq!(err.what, What::HostInvalidIpAddress);
    let req = Req::get(b"localhost".to_vec(), 1, vec![]);
    assert_eq!(client.send_req(req).unwrap_err().what, What::HostInvalidIpAddress);
    let req = Req::get(vec![0xFF, 0xFE], 1, vec![]);
    assert_eq!(client.send_req(req).unwrap_err().what, What::HostInvalidUtf8);
}

#[test]
fn ids_increase_per_peer() {
    let mut client = client();
    let a = Addr::new(1, 2, 3, 4, 1);
    let b = Addr::new(1, 2, 3, 4, 2);
    assert_eq!(client.next_id_at(a, 1), 0);
    assert_eq!(client.next_id_at(a, 2), 1);
    assert_eq!(client.next_id_at(b, 3), 0);
    assert_eq!(client.next_id_at(a, 4), 2);
}

#[test]
fn tokens_hash_consecutive_counters() {
    let mut client = client();
    let a = Addr::new(1, 2, 3, 4, 1);
    let t0 = client.next_token_at(a, 1);
    let t1 = client.next_token_at(a, 2);
    let expect0 = blake2::Blake2b::<blake2::digest::consts::U8>::digest(0u32.to_be_bytes()).to_vec();
    let expect1 = blake2::Blake2b::<blake2::digest::consts::U8>::digest(1u32.to_be_bytes()).to_vec();
    assert_eq!(t0, expect0);
    assert_eq!(t1, expect1);
    assert_eq!(t0.len(), 8);
    assert_ne!(t0, t1);
}

#[test]
fn bad_datagram_fails_one_tick() {
    let mut client = client();
    let addr = Addr::new(1, 1, 1, 1, 5683);
    client.sock.rx.push(Addressed(vec![0x40], addr));
    let err = client.tick().unwrap_err();
    assert!(matches!(err.what, What::FromBytes(_)));
    assert!(client.tick().is_ok());
}

#[test]
fn slot_buffer_compacts_only_when_full() {
    let mut buf: Vec<Option<u8>> = (0..16).map(Some).collect();
    assert_eq!(kwap::engine::push_slot(&mut buf, 99), Some(99));
    assert_eq!(buf.len(), 16);
    buf[3] = None;
    buf[10] = None;
    assert_eq!(kwap::engine::push_slot(&mut buf, 99), None);
    let expect: Vec<Option<u8>> = vec![0, 1, 2, 4, 5, 6, 7, 8, 9, 11, 12, 13, 14, 15, 99].into_iter().map(Some).collect();
    assert_eq!(buf, expect);
    let mut small: Vec<Option<u8>> = vec![None, Some(1)];
    assert_eq!(kwap::engine::push_slot(&mut small, 2), None);
    assert_eq!(small, vec![None, Some(1), Some(2)]);
}

#[test]
fn resp_payload_string_and_bytes() {
    let mut resp = Resp::from_message(empty(Type::Ack, 4));
    resp.set_payload(b"hello!".to_vec());
    assert_eq!(resp.payload_string(), Some("hello!".to_string()));
    resp.set_code(Code { class: 4, detail: 4 });
    let bytes = resp.try_into_bytes(1152).unwrap();
    assert_eq!(bytes, vec![0x60, 0x84, 0x00, 0x04, 0xFF, b'h', b'e', b'l', b'l', b'o', b'!']);
    let mut bad = Resp::from_message(empty(Type::Ack, 4));
    bad.set_payload(vec![0xC3, 0x28]);
    assert_eq!(bad.payload_string(), None);
}

struct FailingSock;

impl Socket for FailingSock {
    fn send(&mut self, _addr: Addr, _bytes: &[u8]) -> Result<(), Nb<SocketError>> {
        Err(Nb::Other(SocketError(7)))
    }

    fn poll(&mut self) -> Result<Option<Addressed<Vec<u8>>>, SocketError> {
        Ok(None)
    }
}

#[test]
fn one_byte_port_is_the_port() {
    let mut client = client();
    let mut req = Req::get(b"10.0.0.1".to_vec(), 0, vec![]);
    req.opts[1].1 = vec![80];
    let (_, addr) = client.send_req(req).unwrap();
    assert_eq!(addr, Addr::new(10, 0, 0, 1, 80));
}

#[test]
fn send_req_with_full_retry_queue_is_refused() {
    let mut client = client();
    for i in 0..16u16 {
        let mut req = Req::get(b"10.0.0.1".to_vec(), 5683, vec![]);
        req.set_msg_id(i);
        client.send_req(req).unwrap();
    }
    assert_eq!(client.sock.tx.len(), 16);
    let req = Req::get(b"10.0.0.1".to_vec(), 5683, vec![]);
    let err = client.send_req(req).unwrap_err();
    assert_eq!(err.what, What::BufferFull);
    assert_eq!(client.sock.tx.len(), 16);
    assert_eq!(client.retry_q.len(), 16);
    // an acknowledgement frees a slot; the next request compacts the queue
    let ack = empty(Type::Ack, 3);
    client.sock.rx.push(Addressed(try_into_bytes(&ack, 1152).unwrap(), Addr::new(10, 0, 0, 1, 5683)));
    client.tick().unwrap();
    let mut req = Req::get(b"10.0.0.1".to_vec(), 5683, vec![]);
    req.set_msg_id(99);
    client.send_req(req).unwrap();
    assert_eq!(client.retry_q.len(), 16);
    assert_eq!(client.retry_q[15].as_ref().unwrap().msg.0.id, 99);
    assert_eq!(client.retry_q[3].as_ref().unwrap().msg.0.id, 4);
}

#[test]
fn ping_to_dotted_non_ip_is_rejected() {
    let mut client = client();
    for host in ["1.2.3", "1.2.3.256", "01.2.3.4", "1.2.3.4.5", "a.b.c.d"] {
        let err = client.ping(host, 1).unwrap_err();
        assert_eq!(err.what, What::HostInvalidIpAddress);
        assert_eq!(err.when, kwap::engine::When::SendingMessage(None, 0, vec![]));
    }
    assert!(client.retry_q.is_empty());
    assert!(client.sock.tx.is_empty());
    assert_eq!(client.ping("0.0.0.0", 1).unwrap().1, Addr::new(0, 0, 0, 0, 1));
}

#[test]
fn socket_failure_names_the_message() {
    let mut client = Core::new(FakeClock { now: 0 }, FailingSock);
    let addr = Addr::new(1, 1, 1, 1, 5683);
    let err = client.send_msg(Addressed(Message { token: vec![5], ..empty(Type::Non, 12) }, addr)).unwrap_err();
    assert_eq!(err.what, What::SockError(SocketError(7)));
    assert_eq!(err.when, kwap::engine::When::SendingMessage(Some(addr), 12, vec![5]));
    // the ping is queued even though the send failed
    assert!(client.ping("1.1.1.1", 5683).is_err());
    assert!(client.retry_q[0].is_some());
}

#[test]
fn datagram_to_request() {
    let addr = Addr::new(1, 1, 1, 1, 5683);
    assert!(matches!(kwap::engine::req_of_dgram(None), Err(Nb::WouldBlock)));
    let m = empty(Type::Con, 9);
    let got = kwap::engine::req_of_dgram(Some(Addressed(try_into_bytes(&m, 1152).unwrap(), addr))).unwrap();
    assert_eq!(got.0.msg, m);
    assert!(got.0.opts.is_empty());
    assert_eq!(got.1, addr);
    let with_opts = Message {
        opts: vec![kwap::msg::Opt { delta: 3, value: b"h".to_vec() }, kwap::msg::Opt { delta: 8, value: b"p".to_vec() }],
        code: Code { class: 0, detail: 1 },
        ..empty(Type::Con, 10)
    };
    let got = kwap::engine::req_of_dgram(Some(Addressed(try_into_bytes(&with_opts, 1152).unwrap(), addr))).unwrap();
    assert_eq!(got.0.get_option(3), Some(&b"h".to_vec()));
    assert_eq!(got.0.get_option(11), Some(&b"p".to_vec()));
    assert!(got.0.msg.opts.is_empty());
    let bad = kwap::engine::req_of_dgram(Some(Addressed(vec![0x40], addr)));
    assert!(matches!(bad, Err(Nb::Other(e)) if matches!(e.what, What::FromBytes(_))));
}

#[test]
fn received_options_survive_set_option() {
    let m = Message {
        opts: vec![kwap::msg::Opt { delta: 12, value: vec![50] }],
        code: Code { class: 2, detail: 5 },
        ..empty(Type::Ack, 1)
    };
    let mut resp = Resp::from_message(m);
    resp.set_option(17, vec![1]);
    let out = resp.into_message();
    assert_eq!(
        out.opts,
        vec![kwap::msg::Opt { delta: 12, value: vec![50] }, kwap::msg::Opt { delta: 5, value: vec![1] }]
    );
}

struct BrokenClock;

impl Clock for BrokenClock {
    fn try_now(&self) -> Result<u64, ClockError> {
        Err(ClockError)
    }
}

#[test]
fn send_req_errors_name_no_address() {
    let mut client = Core::new(FakeClock { now: 0 }, FailingSock);
    let mut req = Req::get(b"10.0.0.1".to_vec(), 5683, vec![]);
    req.set_msg_id(8);
    req.set_msg_token(vec![4]);
    let err = client.send_req(req).unwrap_err();
    assert_eq!(err.what, What::SockError(SocketError(7)));
    assert_eq!(err.when, kwap::engine::When::SendingMessage(None, 8, vec![4]));
    assert!(client.retry_q[0].is_some());
}

#[test]
fn clock_failure_in_retry_walk_names_the_entry() {
    let mut client = Core::new(BrokenClock, SockMock::new());
    client.send_retrys().unwrap();
    client.tick().unwrap();
    let addr = Addr::new(10, 0, 0, 1, 5683);
    let timer = RetryTimer::new(0, Strategy::Exponential { init_min: 10, init_max: 10 }, Attempts(2));
    client.retry_q.push(Some(Retryable { msg: Addressed(Message { token: vec![2], ..empty(Type::Con, 6) }, addr), timer }));
    let err = client.send_retrys().unwrap_err();
    assert_eq!(err.what, What::ClockError);
    assert_eq!(err.when, kwap::engine::When::SendingMessage(Some(addr), 6, vec![2]));
    assert!(client.retry_q[0].is_some());
}
