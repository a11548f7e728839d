use kwap::msg::Opt;
use kwap::option::{add, normalize, ToOptionValue};
use kwap::req::Req;
use kwap::resp::Resp;
use kwap::msg::{Message, Type, Code};

#[test]
fn add_updates_when_exist() {
    let mut opts: Vec<(u32, Vec<u8>)> = vec![(0, vec![])];
    let out = add(&mut opts, None, 0, vec![1]);
    assert!(out.is_none());
    assert_eq!(opts.len(), 1);
    assert_eq!(opts[0].1, vec![1]);
}

#[test]
fn add_adds_when_not_exist() {
    let mut opts: Vec<(u32, Vec<u8>)> = Vec::new();
    let out = add(&mut opts, None, 0, vec![1]);
    assert!(out.is_none());
    assert_eq!(opts.len(), 1);
    assert_eq!(opts[0].1, vec![1]);
}

#[test]
fn add_rets_some_when_full() {
    let mut opts: Vec<(u32, Vec<u8>)> = vec![(1, vec![])];
    let out = add(&mut opts, Some(1), 0, vec![1]);
    assert_eq!(out, Some((0, vec![1])));
    assert_eq!(opts, vec![(1, vec![])]);
}

#[test]
fn normalize_opts_echoes_when_empty() {
    let opts: Vec<(u32, Vec<u8>)> = Vec::new();
    let out = normalize(opts);
    assert!(out.is_empty())
}

#[test]
fn normalize_opts_works() {
    let opts: Vec<(u32, Vec<u8>)> = vec![(32, vec![]), (1, vec![]), (3, vec![])];
    let expect: Vec<Opt> = vec![
        Opt { delta: 1, value: vec![] },
        Opt { delta: 2, value: vec![] },
        Opt { delta: 29, value: vec![] },
    ];
    let actual = normalize(opts);
    assert_eq!(actual, expect)
}

#[test]
fn normalize_keeps_values_with_their_numbers() {
    let opts: Vec<(u32, Vec<u8>)> = vec![(11, vec![b'a']), (3, vec![b'h']), (7, vec![0x04, 0xD2])];
    let out = normalize(opts);
    assert_eq!(
        out,
        vec![
            Opt { delta: 3, value: vec![b'h'] },
            Opt { delta: 4, value: vec![0x04, 0xD2] },
            Opt { delta: 4, value: vec![b'a'] },
        ]
    );
}

#[test]
fn normalize_twice_gives_same_deltas() {
    let once = normalize(vec![(32, vec![9]), (1, vec![]), (3, vec![5])]);
    let mut n: u32 = 0;
    let renumbered: Vec<(u32, Vec<u8>)> = once
        .iter()
        .map(|o| {
            n += o.delta as u32;
            (n, o.value.clone())
        })
        .collect();
    let twice = normalize(renumbered);
    assert_eq!(once, twice);
}

#[test]
fn u16_option_value_is_big_endian() {
    assert_eq!(1234u16.to_option_value(), vec![0x04, 0xD2]);
    let b: &[u8] = &[1, 2, 3];
    assert_eq!(b.to_option_value(), vec![1, 2, 3]);
}

#[test]
fn resp_set_option_then_into_message() {
    let req = Message {
        ver: 1,
        ty: Type::Con,
        id: 7,
        token: vec![1, 2],
        code: Code { class: 0, detail: 1 },
        opts: vec![],
        payload: vec![],
    };
    let mut resp = Resp::for_request(&req).unwrap();
    assert_eq!(resp.set_option(17, vec![50]), None);
    assert_eq!(resp.set_option(12, vec![50]), None);
    assert_eq!(resp.set_option(17, vec![51]), None);
    resp.set_payload(b"hi".to_vec());
    let m = resp.into_message();
    assert_eq!(m.ty, Type::Ack);
    assert_eq!(m.id, 7);
    assert_eq!(m.token, vec![1, 2]);
    assert_eq!(m.opts, vec![Opt { delta: 12, value: vec![50] }, Opt { delta: 5, value: vec![51] }]);
    assert_eq!(m.payload, b"hi".to_vec());
}

#[test]
fn resp_kinds_for_request_types() {
    let mut req = Message {
        ver: 1,
        ty: Type::Non,
        id: 7,
        token: vec![3],
        code: Code { class: 0, detail: 1 },
        opts: vec![],
        payload: vec![],
    };
    let non = Resp::for_request(&req).unwrap();
    assert_eq!(non.msg_type(), Type::Non);
    assert_eq!(non.msg_id(), 0);
    assert_eq!(non.token(), vec![3]);
    assert_eq!(non.code(), Code { class: 2, detail: 5 });
    req.ty = Type::Reset;
    assert!(Resp::for_request(&req).is_none());
    let con = Resp::con(&req);
    assert_eq!(con.msg_type(), Type::Con);
}

#[test]
fn req_get_sets_uri_options() {
    let req = Req::get(b"1.2.3.4".to_vec(), 5683, b"hello".to_vec());
    assert_eq!(req.get_option(3), Some(&b"1.2.3.4".to_vec()));
    assert_eq!(req.get_option(7), Some(&vec![0x16, 0x33]));
    assert_eq!(req.get_option(11), Some(&b"hello".to_vec()));
    assert_eq!(req.get_option(12), None);
}

#[test]
fn normalize_keeps_order_of_repeated_options() {
    let out = normalize(vec![(11, b"b".to_vec()), (3, b"h".to_vec()), (11, b"a".to_vec())]);
    assert_eq!(
        out,
        vec![
            Opt { delta: 3, value: b"h".to_vec() },
            Opt { delta: 8, value: b"b".to_vec() },
            Opt { delta: 0, value: b"a".to_vec() },
        ]
    );
}
