use vstd::prelude::*;
use crate::msg::{Code, Message, Type};
use crate::option::{index_of_number, is_normalization, normalize, nvs, opt_views, NumberedOpt};
use crate::resp::numbers_fit;

verus! {

/// A request: a message, and its options by number.
#[derive(Debug)]
pub struct Req {
    pub msg: Message,
    pub opts: Vec<NumberedOpt>,
}

/// The value of option `number` in `os`, if it is set.
pub open spec fn option_value(os: Seq<(u32, Seq<u8>)>, number: u32) -> Option<Seq<u8>> {
    let i = index_of_number(os, number);
    if i >= 0 { Some(os[i].1) } else { None }
}

/// `q` is the request read from the message `m`.
pub open spec fn read_req(q: Req, m: Message) -> bool {
    &&& q.msg.ver == m.ver
    &&& q.msg.ty == m.ty
    &&& q.msg.id == m.id
    &&& q.msg.token == m.token
    &&& q.msg.code == m.code
    &&& q.msg.payload == m.payload
    &&& if crate::resp::numbers_overflow(opt_views(m.opts@)) {
        q.opts@.len() == 0 && q.msg.opts == m.opts
    } else {
        q.msg.opts@.len() == 0 && nvs(q.opts@) == crate::option::numbered(opt_views(m.opts@))
    }
}

impl Req {
    pub open spec fn wf(self) -> bool {
        numbers_fit(self.opts@)
    }

    /// A confirmable GET of `path` on `host:port` (Uri-Host 3, Uri-Port 7, Uri-Path 11), with
    /// id 0 and an empty token.
    pub fn get(host: Vec<u8>, port: u16, path: Vec<u8>) -> (r: Req)
        ensures
            r.wf(),
            r.msg.ty == Type::Con,
            r.msg.code == (Code { class: 0, detail: 1 }),
            r.msg.id == 0,
            r.msg.token@.len() == 0,
            option_value(nvs(r.opts@), 3) == Some(host@),
            option_value(nvs(r.opts@), 7) == Some(seq![(port / 256) as u8, (port % 256) as u8]),
            option_value(nvs(r.opts@), 11) == Some(path@),
    {
        let mut opts: Vec<NumberedOpt> = Vec::new();
        let ghost h = host@;
        let ghost p = path@;
        opts.push((3, host));
        let mut pb: Vec<u8> = Vec::new();
        pb.push((port / 256) as u8);
        pb.push((port % 256) as u8);
        let ghost pv = pb@;
        opts.push((7, pb));
        opts.push((11, path));
        let msg = Message {
            ver: 1,
            ty: Type::Con,
            id: 0,
            token: Vec::new(),
            code: Code { class: 0, detail: 1 },
            opts: Vec::new(),
            payload: Vec::new(),
        };
        let r = Req { msg, opts };
        proof {
            let s = nvs(r.opts@);
            assert(s =~= seq![(3u32, h), (7u32, pv), (11u32, p)]);
            let s1 = s.drop_last();
            let s2 = s1.drop_last();
            let s3 = s2.drop_last();
            assert(s1 =~= seq![(3u32, h), (7u32, pv)]);
            assert(s2 =~= seq![(3u32, h)]);
            assert(s3 =~= Seq::<(u32, Seq<u8>)>::empty());
            assert(index_of_number(s3, 3) == -1);
            assert(index_of_number(s2, 3) == 0);
            assert(index_of_number(s1, 3) == 0);
            assert(index_of_number(s, 3) == 0);
            assert(index_of_number(s3, 7) == -1);
            assert(index_of_number(s2, 7) == -1);
            assert(index_of_number(s1, 7) == 1);
            assert(index_of_number(s, 7) == 1);
            assert(index_of_number(s3, 11) == -1);
            assert(index_of_number(s2, 11) == -1);
            assert(index_of_number(s1, 11) == -1);
            assert(index_of_number(s, 11) == 2);
            assert(pv =~= seq![(port / 256) as u8, (port % 256) as u8]);
        }
        r
    }

    pub fn set_msg_id(&mut self, id: u16)
        ensures
            final(self).msg == (Message { id, ..old(self).msg }),
            final(self).opts == old(self).opts,
    {
        self.msg.id = id;
    }

    pub fn set_msg_token(&mut self, token: Vec<u8>)
        ensures
            final(self).msg == (Message { token, ..old(self).msg }),
            final(self).opts == old(self).opts,
    {
        self.msg.token = token;
    }

    /// The value of option `number`.
    pub fn get_option(&self, number: u32) -> (r: Option<&Vec<u8>>)
        ensures
            r matches Some(v) ==> option_value(nvs(self.opts@), number) == Some(v@),
            r is None ==> option_value(nvs(self.opts@), number) is None,
    {
        proof {
            crate::option::lemma_index_of_number(nvs(self.opts@), number);
        }
        let mut i: usize = 0;
        while i < self.opts.len()
            invariant
                i <= self.opts@.len(),
                forall|k: int| 0 <= k < i ==> #[trigger] self.opts@[k].0 != number,
            decreases self.opts.len() - i,
        {
            if self.opts[i].0 == number {
                proof {
                    let s = nvs(self.opts@);
                    crate::option::lemma_index_of_number(s, number);
                    let j = index_of_number(s, number);
                    assert(s[i as int].0 == number);
                    assert(j == i as int) by {
                        if j < i {
                            assert(s[j].0 == self.opts@[j].0);
                        }
                        if j > i || j < 0 {
                            assert(s[i as int].0 != number);
                        }
                    }
                }
                return Some(&self.opts[i].1);
            }
            i = i + 1;
        }
        proof {
            let s = nvs(self.opts@);
            crate::option::lemma_index_of_number(s, number);
            let j = index_of_number(s, number);
            if j >= 0 {
                assert(s[j].0 == self.opts@[j].0);
            }
        }
        None
    }

    /// A request read from the wire: its options move to the numbered options when their
    /// numbers fit 16 bits; otherwise they stay in the message and no numbered option is set.
    pub fn from_message(msg: Message) -> (r: Req)
        ensures
            read_req(r, msg),
            r.wf(),
    {
        let mut msg = msg;
        match crate::resp::numbered_opts(&msg.opts) {
            Some(v) => {
                msg.opts = Vec::new();
                Req { msg, opts: v }
            },
            None => Req { msg, opts: Vec::new() },
        }
    }

    /// The message to send: the options delta-encoded in order of number.
    pub fn into_message(self) -> (r: Message)
        requires
            self.wf(),
        ensures
            is_normalization(nvs(self.opts@), opt_views(r.opts@)),
            r.ty == self.msg.ty,
            r.id == self.msg.id,
            r.token == self.msg.token,
            r.code == self.msg.code,
            r.ver == self.msg.ver,
            r.payload == self.msg.payload,
    {
        let mut msg = self.msg;
        msg.opts = normalize(self.opts);
        msg
    }
}

} // verus!
