use vstd::prelude::*;
use crate::msg::{Code, Message, Type};
use crate::option::{is_normalization, normalize, numbered, nvs, opt_views, sum_deltas, NumberedOpt};
use crate::msg::Opt;

verus! {

/// A response: a message, and the options set on it that are not yet delta-encoded.
#[derive(Debug, PartialEq, Eq)]
pub struct Resp {
    pub msg: Message,
    pub opts: Option<Vec<NumberedOpt>>,
}

/// Options whose numbers fit the 16-bit deltas of the wire form.
pub open spec fn numbers_fit(os: Seq<NumberedOpt>) -> bool {
    forall|i: int| 0 <= i < os.len() ==> #[trigger] os[i].0 <= u16::MAX
}

pub fn copy_bytes(b: &Vec<u8>) -> (r: Vec<u8>)
    ensures
        r@ == b@,
{
    let mut out: Vec<u8> = Vec::new();
    let mut i: usize = 0;
    while i < b.len()
        invariant
            i <= b@.len(),
            out@ == b@.subrange(0, i as int),
        decreases b.len() - i,
    {
        out.push(b[i]);
        proof {
            assert(b@.subrange(0, i + 1) == b@.subrange(0, i as int).push(b@[i as int]));
        }
        i = i + 1;
    }
    assert(b@.subrange(0, b@.len() as int) == b@);
    out
}

/// `m` is the message sent for the response `p`: its fields, with the options set on `p`
/// delta-encoded.
pub open spec fn sent_form(m: Message, p: Resp) -> bool {
    &&& m.ver == p.msg.ver
    &&& m.ty == p.msg.ty
    &&& m.id == p.msg.id
    &&& m.token == p.msg.token
    &&& m.code == p.msg.code
    &&& m.payload == p.msg.payload
    &&& (p.opts matches Some(os) ==> is_normalization(nvs(os@), opt_views(m.opts@)))
    &&& (p.opts is None ==> m.opts == p.msg.opts)
}

impl Resp {
    pub open spec fn wf(self) -> bool {
        self.opts matches Some(os) ==> numbers_fit(os@)
    }

    /// A response to `req` with type `ty` and id `id`, code 2.05 and the request's token.
    fn reply(req: &Message, ty: Type, id: u16) -> (r: Resp)
        ensures
            r.msg.ty == ty,
            r.msg.id == id,
            r.msg.token@ == req.token@,
            r.msg.code == (Code { class: 2, detail: 5 }),
            r.msg.ver == 1,
            r.msg.opts@.len() == 0,
            r.msg.payload@.len() == 0,
            r.opts is None,
    {
        let msg = Message {
            ver: 1,
            ty,
            id,
            token: copy_bytes(&req.token),
            code: Code::content(),
            opts: Vec::new(),
            payload: Vec::new(),
        };
        Resp { msg, opts: None }
    }

    /// The response for an incoming request: an ACK for a CON, a NON for a NON, none otherwise.
    pub fn for_request(req: &Message) -> (r: Option<Resp>)
        ensures
            req.ty == Type::Con ==> (r matches Some(p) && p.msg.ty == Type::Ack && p.msg.id == req.id
                && p.msg.token@ == req.token@),
            req.ty == Type::Non ==> (r matches Some(p) && p.msg.ty == Type::Non && p.msg.id == 0
                && p.msg.token@ == req.token@),
            (req.ty == Type::Ack || req.ty == Type::Reset) ==> r is None,
            r matches Some(p) ==> p.msg.code == (Code { class: 2, detail: 5 }) && p.opts is None,
    {
        match req.ty {
            Type::Con => Some(Resp::ack(req)),
            Type::Non => Some(Resp::non(req)),
            _ => None,
        }
    }

    /// An ACK carrying the response: same id and token as the request.
    pub fn ack(req: &Message) -> (r: Resp)
        ensures
            r.msg.ty == Type::Ack,
            r.msg.id == req.id,
            r.msg.token@ == req.token@,
            r.msg.code == (Code { class: 2, detail: 5 }),
            r.msg.opts@.len() == 0,
            r.msg.payload@.len() == 0,
            r.opts is None,
    {
        Resp::reply(req, Type::Ack, req.id)
    }

    /// A confirmable response with the request's token.
    pub fn con(req: &Message) -> (r: Resp)
        ensures
            r.msg.ty == Type::Con,
            r.msg.id == 0,
            r.msg.token@ == req.token@,
            r.msg.code == (Code { class: 2, detail: 5 }),
            r.msg.opts@.len() == 0,
            r.msg.payload@.len() == 0,
            r.opts is None,
    {
        Resp::reply(req, Type::Con, 0)
    }

    /// A non-confirmable response with the request's token.
    pub fn non(req: &Message) -> (r: Resp)
        ensures
            r.msg.ty == Type::Non,
            r.msg.id == 0,
            r.msg.token@ == req.token@,
            r.msg.code == (Code { class: 2, detail: 5 }),
            r.msg.opts@.len() == 0,
            r.msg.payload@.len() == 0,
            r.opts is None,
    {
        Resp::reply(req, Type::Non, 0)
    }

    /// The payload's bytes.
    pub fn payload(&self) -> (r: &Vec<u8>)
        ensures
            r@ == self.msg.payload@,
    {
        &self.msg.payload
    }

    pub fn msg_type(&self) -> (r: Type)
        ensures
            r == self.msg.ty,
    {
        self.msg.ty
    }

    pub fn msg_id(&self) -> (r: u16)
        ensures
            r == self.msg.id,
    {
        self.msg.id
    }

    pub fn token(&self) -> (r: Vec<u8>)
        ensures
            r@ == self.msg.token@,
    {
        copy_bytes(&self.msg.token)
    }

    /// The payload read as UTF-8 text, if it is.
    pub fn payload_string(&self) -> (r: Option<String>)
        ensures
            r matches Some(t) ==> crate::engine::utf8_of(self.msg.payload@) == Some(t@),
            r is None ==> crate::engine::utf8_of(self.msg.payload@) is None,
    {
        crate::engine::decode_utf8(self.msg.payload.as_slice())
    }

    pub fn code(&self) -> (r: Code)
        ensures
            r == self.msg.code,
    {
        self.msg.code
    }

    pub fn set_code(&mut self, code: Code)
        ensures
            final(self).msg.code == code,
            final(self).msg.ty == old(self).msg.ty,
            final(self).msg.id == old(self).msg.id,
            final(self).msg.token == old(self).msg.token,
            final(self).msg.payload == old(self).msg.payload,
            final(self).msg.opts == old(self).msg.opts,
            final(self).opts == old(self).opts,
    {
        self.msg.code = code;
    }

    /// Set option `number` to `value`; the options of a response have no bound, so this
    /// always succeeds and returns `None`.
    pub fn set_option(&mut self, number: u32, value: Vec<u8>) -> (r: Option<NumberedOpt>)
        requires
            old(self).wf(),
            number <= u16::MAX,
        ensures
            r is None,
            final(self).wf(),
            final(self).msg == old(self).msg,
            ({
                let before = match old(self).opts { Some(os) => nvs(os@), None => seq![] };
                let i = crate::option::index_of_number(before, number);
                final(self).opts matches Some(os) && if i >= 0 {
                    nvs(os@) == before.update(i, (number, value@))
                } else {
                    nvs(os@) == before.push((number, value@))
                }
            }),
    {
        let mut os: Vec<NumberedOpt> = match self.opts.take() {
            Some(os) => os,
            None => Vec::new(),
        };
        let ghost before = os@;
        let r = crate::option::add(&mut os, None, number, value);
        proof {
            assert(numbers_fit(before));
            assert(nvs(os@).len() == os@.len());
            assert(nvs(before).len() == before.len());
            crate::option::lemma_index_of_number(nvs(before), number);
            let j = crate::option::index_of_number(nvs(before), number);
            assert forall|i: int| 0 <= i < os@.len() implies #[trigger] os@[i].0 <= u16::MAX by {
                assert(nvs(os@)[i].0 == os@[i].0);
                if i < before.len() {
                    assert(nvs(before)[i].0 == before[i].0);
                    assert(before[i].0 <= u16::MAX);
                }
                if j >= 0 {
                    assert(nvs(os@) == nvs(before).update(j, (number, nvs(os@)[j].1)));
                } else {
                    assert(nvs(os@) == nvs(before).push((number, nvs(os@).last().1)));
                }
            }
        }
        self.opts = Some(os);
        r
    }

    /// Replace the payload.
    pub fn set_payload(&mut self, payload: Vec<u8>)
        ensures
            final(self).msg.payload == payload,
            final(self).msg.ty == old(self).msg.ty,
            final(self).msg.id == old(self).msg.id,
            final(self).msg.token == old(self).msg.token,
            final(self).msg.code == old(self).msg.code,
            final(self).msg.opts == old(self).msg.opts,
            final(self).opts == old(self).opts,
    {
        self.msg.payload = payload;
    }

    /// Move the options set on the response into the message, delta-encoded.
    pub fn normalize_opts(&mut self)
        requires
            old(self).wf(),
        ensures
            final(self).opts is None,
            final(self).wf(),
            old(self).opts matches Some(os) ==> is_normalization(nvs(os@), opt_views(final(self).msg.opts@)),
            old(self).opts is None ==> final(self).msg == old(self).msg,
            final(self).msg.ver == old(self).msg.ver,
            final(self).msg.ty == old(self).msg.ty,
            final(self).msg.id == old(self).msg.id,
            final(self).msg.token == old(self).msg.token,
            final(self).msg.code == old(self).msg.code,
            final(self).msg.payload == old(self).msg.payload,
    {
        if let Some(os) = self.opts.take() {
            self.msg.opts = normalize(os);
        }
    }

    /// The message to send for this response.
    pub fn into_message(self) -> (r: Message)
        requires
            self.wf(),
        ensures
            self.opts matches Some(os) ==> is_normalization(nvs(os@), opt_views(r.opts@)),
            self.opts is None ==> r == self.msg,
            r.ver == self.msg.ver,
            r.ty == self.msg.ty,
            r.id == self.msg.id,
            r.token == self.msg.token,
            r.code == self.msg.code,
            r.payload == self.msg.payload,
    {
        let mut s = self;
        s.normalize_opts();
        s.msg
    }

    /// The wire form of the message for this response, which must fit in `capacity` bytes.
    pub fn try_into_bytes(self, capacity: usize) -> (r: Result<Vec<u8>, crate::msg::MessageToBytesError>)
        requires
            self.wf(),
        ensures
            exists|m: Message|
                #[trigger] sent_form(m, self) && (r matches Ok(b) ==> crate::msg::wf_msg(m@) && b@ == crate::msg::encode(
                    m@,
                )) && (crate::msg::wf_msg(m@) && crate::msg::encode(m@).len() <= capacity ==> r is Ok) && (
                !crate::msg::wf_msg(m@) ==> r == Err::<Vec<u8>, crate::msg::MessageToBytesError>(
                    crate::msg::MessageToBytesError::Invalid,
                )),
    {
        let ghost s0 = self;
        let m = self.into_message();
        assert(sent_form(m, s0));
        crate::msg::try_into_bytes(&m, capacity)
    }

    /// A response read from the wire: its options move to the numbered options when their
    /// numbers fit 16 bits, and otherwise stay in the message.
    pub fn from_message(msg: Message) -> (r: Resp)
        ensures
            read_form(r, msg),
            r.wf(),
    {
        let mut msg = msg;
        let ghost m0 = msg;
        match numbered_opts(&msg.opts) {
            Some(v) => {
                msg.opts = Vec::new();
                Resp { msg, opts: Some(v) }
            },
            None => Resp { msg, opts: None },
        }
    }
}

/// Some option of `os` has a number above 16 bits.
pub open spec fn numbers_overflow(os: Seq<(u16, Seq<u8>)>) -> bool {
    exists|k: int| 0 < k <= os.len() && #[trigger] sum_deltas(os.subrange(0, k)) > u16::MAX
}

/// `p` is the response read from the message `m`.
pub open spec fn read_form(p: Resp, m: Message) -> bool {
    &&& p.msg.ver == m.ver
    &&& p.msg.ty == m.ty
    &&& p.msg.id == m.id
    &&& p.msg.token == m.token
    &&& p.msg.code == m.code
    &&& p.msg.payload == m.payload
    &&& match p.opts {
        Some(os) => p.msg.opts@.len() == 0 && nvs(os@) == numbered(opt_views(m.opts@)) && !numbers_overflow(
            opt_views(m.opts@),
        ),
        None => p.msg.opts == m.opts && numbers_overflow(opt_views(m.opts@)),
    }
}

/// The options of a message with their numbers, when every number fits 16 bits.
pub(crate) fn numbered_opts(os: &Vec<Opt>) -> (r: Option<Vec<NumberedOpt>>)
    ensures
        r matches Some(v) ==> nvs(v@) == numbered(opt_views(os@)) && numbers_fit(v@) && !numbers_overflow(opt_views(os@)),
        r is None ==> numbers_overflow(opt_views(os@)),
{
    let ghost vs = opt_views(os@);
    let mut out: Vec<NumberedOpt> = Vec::new();
    let mut sum: u32 = 0;
    let mut i: usize = 0;
    assert(vs.subrange(0, 0) =~= Seq::<(u16, Seq<u8>)>::empty());
    assert(nvs(out@) =~= Seq::<(u32, Seq<u8>)>::empty());
    while i < os.len()
        invariant
            i <= os@.len(),
            vs == opt_views(os@),
            sum <= u16::MAX,
            sum == sum_deltas(vs.subrange(0, i as int)),
            nvs(out@) == numbered(vs.subrange(0, i as int)),
            numbers_fit(out@),
            forall|k: int| 0 < k <= i ==> #[trigger] sum_deltas(vs.subrange(0, k)) <= u16::MAX,
        decreases os.len() - i,
    {
        let next: u32 = sum + os[i].delta as u32;
        let ghost t = vs.subrange(0, i + 1);
        assert(t.drop_last() =~= vs.subrange(0, i as int));
        assert(t.last() == os@[i as int].view_opt());
        if next > u16::MAX as u32 {
            assert(sum_deltas(t) > u16::MAX);
            return None;
        }
        let value = copy_bytes(&os[i].value);
        let ghost before = out@;
        out.push((next, value));
        assert(nvs(out@) =~= nvs(before).push((next, value@)));
        sum = next;
        i = i + 1;
    }
    assert(vs.subrange(0, os@.len() as int) =~= vs);
    Some(out)
}

} // verus!
