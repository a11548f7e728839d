use vstd::prelude::*;

verus! {

/// An IPv4 socket address: the host as a big-endian `u32` and a port.
#[derive(Clone, Copy, Debug, PartialEq, Eq, Structural)]
pub struct Addr {
    pub ip: u32,
    pub port: u16,
}

impl Addr {
    /// The address `a.b.c.d:port`.
    pub fn new(a: u8, b: u8, c: u8, d: u8, port: u16) -> (r: Addr)
        ensures
            r.ip == a as int * 0x1000000 + b as int * 0x10000 + c as int * 0x100 + d as int,
            r.port == port,
    {
        let ip: u32 = (a as u32) * 0x1000000 + (b as u32) * 0x10000 + (c as u32) * 0x100 + d as u32;
        Addr { ip, port }
    }
}

/// Something paired with the remote address it came from or goes to.
#[derive(Clone, Debug)]
pub struct Addressed<T>(pub T, pub Addr);

/// Message type.
#[derive(Clone, Copy, Debug, PartialEq, Eq, Structural)]
pub enum Type {
    Con,
    Non,
    Ack,
    Reset,
}

pub open spec fn type_num(t: Type) -> u8 {
    match t {
        Type::Con => 0,
        Type::Non => 1,
        Type::Ack => 2,
        Type::Reset => 3,
    }
}

/// Message code: a class (0 to 7) and a detail (0 to 31).
#[derive(Clone, Copy, Debug, PartialEq, Eq, Structural)]
pub struct Code {
    pub class: u8,
    pub detail: u8,
}

impl Code {
    pub fn new(class: u8, detail: u8) -> (r: Code)
        ensures
            r == (Code { class, detail }),
    {
        Code { class, detail }
    }

    /// 2.05 Content.
    pub fn content() -> (r: Code)
        ensures
            r == (Code { class: 2, detail: 5 }),
    {
        Code { class: 2, detail: 5 }
    }

    /// Classes 2, 4 and 5 are responses.
    pub open spec fn is_response_spec(self) -> bool {
        self.class == 2 || self.class == 4 || self.class == 5
    }

    pub fn is_response(&self) -> (r: bool)
        ensures
            r == self.is_response_spec(),
    {
        self.class == 2 || self.class == 4 || self.class == 5
    }
}


/// An option as it stands in a message: its number minus the previous option's number,
/// and its value.
#[derive(Clone, Debug, PartialEq, Eq)]
pub struct Opt {
    pub delta: u16,
    pub value: Vec<u8>,
}

impl Opt {
    pub open spec fn view_opt(self) -> (u16, Seq<u8>) {
        (self.delta, self.value@)
    }
}

/// A CoAP message.
#[derive(Clone, Debug, PartialEq, Eq)]
pub struct Message {
    pub ver: u8,
    pub ty: Type,
    pub id: u16,
    pub token: Vec<u8>,
    pub code: Code,
    pub opts: Vec<Opt>,
    pub payload: Vec<u8>,
}

/// The plain value of a message.
pub struct MessageV {
    pub ver: u8,
    pub ty: Type,
    pub id: u16,
    pub token: Seq<u8>,
    pub code: Code,
    pub opts: Seq<(u16, Seq<u8>)>,
    pub payload: Seq<u8>,
}

impl View for Message {
    type V = MessageV;

    open spec fn view(&self) -> MessageV {
        MessageV {
            ver: self.ver,
            ty: self.ty,
            id: self.id,
            token: self.token@,
            code: self.code,
            opts: self.opts@.map_values(|o: Opt| o.view_opt()),
            payload: self.payload@,
        }
    }
}

/// The longest datagram: every serialized message fits in this many bytes.
pub const MAX_DGRAM: usize = 1152;

/// The longest option value that the 4-bit length with its extension bytes can express.
pub const MAX_OPT_LEN: u64 = 65804;

/// A message that can be written on the wire.
pub open spec fn wf_msg(m: MessageV) -> bool {
    &&& m.ver < 4
    &&& m.token.len() <= 8
    &&& m.code.class < 8
    &&& m.code.detail < 32
    &&& forall|i: int| 0 <= i < m.opts.len() ==> #[trigger] m.opts[i].1.len() <= MAX_OPT_LEN
}

/// The 4-bit field for a delta or a length.
pub open spec fn nibble(n: nat) -> nat {
    if n < 13 { n } else if n < 269 { 13 } else { 14 }
}

/// The extension bytes that follow the first byte of an option.
pub open spec fn ext_bytes(n: nat) -> Seq<u8> {
    if n < 13 {
        seq![]
    } else if n < 269 {
        seq![(n - 13) as u8]
    } else {
        seq![((n - 269) / 256) as u8, ((n - 269) % 256) as u8]
    }
}

pub open spec fn encode_opt(o: (u16, Seq<u8>)) -> Seq<u8> {
    seq![(nibble(o.0 as nat) * 16 + nibble(o.1.len())) as u8] + ext_bytes(o.0 as nat) + ext_bytes(
        o.1.len(),
    ) + o.1
}

pub open spec fn encode_opts(os: Seq<(u16, Seq<u8>)>) -> Seq<u8>
    decreases os.len(),
{
    if os.len() == 0 {
        seq![]
    } else {
        encode_opts(os.drop_last()) + encode_opt(os.last())
    }
}

pub open spec fn encode_header(m: MessageV) -> Seq<u8> {
    seq![
        (m.ver * 64 + type_num(m.ty) * 16 + m.token.len()) as u8,
        (m.code.class * 32 + m.code.detail) as u8,
        (m.id / 256) as u8,
        (m.id % 256) as u8,
    ]
}

pub open spec fn encode_payload(p: Seq<u8>) -> Seq<u8> {
    if p.len() == 0 { seq![] } else { seq![0xFFu8] + p }
}

/// The wire form of a message: header, token, options, then the payload behind a marker.
pub open spec fn encode(m: MessageV) -> Seq<u8> {
    encode_header(m) + m.token + encode_opts(m.opts) + encode_payload(m.payload)
}

/// Why a message could not be written.
#[derive(Clone, Copy, Debug, PartialEq, Eq, Structural)]
pub enum MessageToBytesError {
    /// A field is out of its range (version, token length, code, option length).
    Invalid,
    /// The message does not fit in the buffer.
    TooLong { capacity: usize, size: usize },
}

/// Why bytes could not be read as a message.
#[derive(Clone, Copy, Debug, PartialEq, Eq, Structural)]
pub enum MessageParseError {
    UnexpectedEndOfStream,
    InvalidTokenLength(u8),
    OptionDeltaReservedValue(u8),
    ValueLengthReservedValue(u8),
    OptionDeltaTooLarge,
    PayloadMarkerWithoutPayload,
}

fn push_ext(out: &mut Vec<u8>, n: usize)
    requires
        n <= MAX_OPT_LEN,
    ensures
        final(out)@ == old(out)@ + ext_bytes(n as nat),
{
    if n < 13 {
    } else if n < 269 {
        out.push((n - 13) as u8);
    } else {
        out.push(((n - 269) / 256) as u8);
        out.push(((n - 269) % 256) as u8);
    }
}

fn nibble_of(n: usize) -> (r: u8)
    ensures
        r as nat == nibble(n as nat),
{
    if n < 13 { n as u8 } else if n < 269 { 13 } else { 14 }
}

/// Write the wire form of `m`, which must fit in `capacity` bytes.
pub fn try_into_bytes(m: &Message, capacity: usize) -> (r: Result<Vec<u8>, MessageToBytesError>)
    ensures
        !wf_msg(m@) ==> r == Err::<Vec<u8>, MessageToBytesError>(MessageToBytesError::Invalid),
        wf_msg(m@) && encode(m@).len() > capacity ==> (r matches Err(
            MessageToBytesError::TooLong { .. },
        )),
        wf_msg(m@) && encode(m@).len() <= capacity ==> (r matches Ok(b) && b@ == encode(m@)),
{
    if m.ver >= 4 || m.token.len() > 8 || m.code.class >= 8 || m.code.detail >= 32 {
        return Err(MessageToBytesError::Invalid);
    }
    let mut k: usize = 0;
    while k < m.opts.len()
        invariant
            k <= m.opts.len(),
            forall|i: int| 0 <= i < k ==> #[trigger] m.opts@[i].value@.len() <= MAX_OPT_LEN,
        decreases m.opts.len() - k,
    {
        if m.opts[k].value.len() as u64 > MAX_OPT_LEN {
            proof {
                assert(m@.opts[k as int].1.len() > MAX_OPT_LEN);
            }
            return Err(MessageToBytesError::Invalid);
        }
        k = k + 1;
    }
    assert(wf_msg(m@)) by {
        assert forall|i: int| 0 <= i < m@.opts.len() implies #[trigger] m@.opts[i].1.len()
            <= MAX_OPT_LEN by {
            assert(m.opts@[i].value@.len() <= MAX_OPT_LEN);
        }
    }
    let ty: u8 = match m.ty {
        Type::Con => 0,
        Type::Non => 1,
        Type::Ack => 2,
        Type::Reset => 3,
    };
    let mut out: Vec<u8> = Vec::new();
    out.push(m.ver * 64 + ty * 16 + m.token.len() as u8);
    out.push(m.code.class * 32 + m.code.detail);
    out.push((m.id / 256) as u8);
    out.push((m.id % 256) as u8);
    assert(out@ == encode_header(m@));
    let mut i: usize = 0;
    while i < m.token.len()
        invariant
            i <= m.token.len(),
            out@ == encode_header(m@) + m.token@.subrange(0, i as int),
        decreases m.token.len() - i,
    {
        out.push(m.token[i]);
        proof {
            assert(m.token@.subrange(0, i + 1) == m.token@.subrange(0, i as int).push(m.token@[i as int]));
        }
        i = i + 1;
    }
    assert(m.token@.subrange(0, m.token.len() as int) == m.token@);
    let mut j: usize = 0;
    while j < m.opts.len()
        invariant
            j <= m.opts.len(),
            wf_msg(m@),
            out@ == encode_header(m@) + m.token@ + encode_opts(m@.opts.subrange(0, j as int)),
        decreases m.opts.len() - j,
    {
        let o = &m.opts[j];
        let vlen = o.value.len();
        assert(m@.opts[j as int].1.len() <= MAX_OPT_LEN);
        let before = Ghost(out@);
        out.push(nibble_of(o.delta as usize) * 16 + nibble_of(vlen));
        push_ext(&mut out, o.delta as usize);
        push_ext(&mut out, vlen);
        let mut p: usize = 0;
        while p < vlen
            invariant
                p <= vlen,
                vlen == o.value.len(),
                out@ == before@ + seq![(nibble(o.delta as nat) * 16 + nibble(vlen as nat)) as u8]
                    + ext_bytes(o.delta as nat) + ext_bytes(vlen as nat) + o.value@.subrange(0, p as int),
            decreases vlen - p,
        {
            out.push(o.value[p]);
            proof {
                assert(o.value@.subrange(0, p + 1) == o.value@.subrange(0, p as int).push(o.value@[p as int]));
            }
            p = p + 1;
        }
        proof {
            assert(o.value@.subrange(0, vlen as int) == o.value@);
            let s = m@.opts.subrange(0, j + 1);
            assert(s.drop_last() == m@.opts.subrange(0, j as int));
            assert(s.last() == o.view_opt());
            assert(out@ == before@ + encode_opt(o.view_opt()));
        }
        j = j + 1;
    }
    assert(m@.opts.subrange(0, m.opts.len() as int) == m@.opts);
    if m.payload.len() > 0 {
        out.push(0xFF);
        let mut q: usize = 0;
        while q < m.payload.len()
            invariant
                q <= m.payload.len(),
                out@ == encode_header(m@) + m.token@ + encode_opts(m@.opts) + seq![0xFFu8]
                    + m.payload@.subrange(0, q as int),
            decreases m.payload.len() - q,
        {
            out.push(m.payload[q]);
            proof {
                assert(m.payload@.subrange(0, q + 1) == m.payload@.subrange(0, q as int).push(m.payload@[q as int]));
            }
            q = q + 1;
        }
        assert(m.payload@.subrange(0, m.payload.len() as int) == m.payload@);
    }
    assert(out@ == encode(m@));
    if out.len() > capacity {
        return Err(MessageToBytesError::TooLong { capacity, size: out.len() });
    }
    Ok(out)
}

/// Read the extension of a 4-bit delta or length field `nib` at `at`.
fn read_ext(bytes: &[u8], at: usize, nib: u8) -> (r: Option<(usize, usize)>)
    requires
        nib < 15,
        at <= bytes@.len(),
    ensures
        r matches Some((n, next)) ==> at <= next <= bytes@.len() && n <= MAX_OPT_LEN && nibble(
            n as nat,
        ) == nib as nat && ext_bytes(n as nat) == bytes@.subrange(at as int, next as int),
        r is None ==> (nib == 13 && at + 1 > bytes@.len()) || (nib == 14 && at + 2 > bytes@.len()),
        forall|n0: nat|
            n0 <= MAX_OPT_LEN && nibble(n0) == nib as nat && at + (#[trigger] ext_bytes(n0)).len() <= bytes@.len()
                && bytes@.subrange(at as int, at + ext_bytes(n0).len()) == ext_bytes(n0) ==> r == Some(
                (n0 as usize, (at + ext_bytes(n0).len()) as usize),
            ),
{
    if nib < 13 {
        assert(bytes@.subrange(at as int, at as int) =~= seq![]);
        Some((nib as usize, at))
    } else if nib == 13 {
        if at >= bytes.len() {
            return None;
        }
        let e = bytes[at];
        assert(bytes@.subrange(at as int, at + 1) =~= seq![e]);
        assert forall|n0: nat|
            n0 <= MAX_OPT_LEN && nibble(n0) == nib as nat && at + (#[trigger] ext_bytes(n0)).len() <= bytes@.len()
                && bytes@.subrange(at as int, at + ext_bytes(n0).len()) == ext_bytes(n0) implies n0 == e + 13
            && ext_bytes(n0).len() == 1 by {
            assert(ext_bytes(n0)[0] == bytes@.subrange(at as int, at + 1)[0]);
        }
        Some((e as usize + 13, at + 1))
    } else {
        if bytes.len() - at < 2 {
            return None;
        }
        let hi = bytes[at];
        let lo = bytes[at + 1];
        let n: usize = hi as usize * 256 + lo as usize + 269;
        assert((n - 269) / 256 == hi as int && (n - 269) % 256 == lo as int);
        assert(bytes@.subrange(at as int, at + 2) =~= seq![hi, lo]);
        assert forall|n0: nat|
            n0 <= MAX_OPT_LEN && nibble(n0) == nib as nat && at + (#[trigger] ext_bytes(n0)).len() <= bytes@.len()
                && bytes@.subrange(at as int, at + ext_bytes(n0).len()) == ext_bytes(n0) implies n0 == n
            && ext_bytes(n0).len() == 2 by {
            assert(ext_bytes(n0)[0] == bytes@.subrange(at as int, at + 2)[0]);
            assert(ext_bytes(n0)[1] == bytes@.subrange(at as int, at + 2)[1]);
            assert((n0 - 269) / 256 < 256);
        }
        Some((n, at + 2))
    }
}

/// Copy `bytes[from..to]`.
fn copy_range(bytes: &[u8], from: usize, to: usize) -> (r: Vec<u8>)
    requires
        from <= to <= bytes@.len(),
    ensures
        r@ == bytes@.subrange(from as int, to as int),
{
    let mut out: Vec<u8> = Vec::new();
    let mut k: usize = from;
    while k < to
        invariant
            from <= k <= to,
            to <= bytes@.len(),
            out@ == bytes@.subrange(from as int, k as int),
        decreases to - k,
    {
        out.push(bytes[k]);
        proof {
            assert(bytes@.subrange(from as int, k + 1) == bytes@.subrange(from as int, k as int).push(bytes@[k as int]));
        }
        k = k + 1;
    }
    out
}

proof fn lemma_encode_opts_push(os: Seq<(u16, Seq<u8>)>, o: (u16, Seq<u8>))
    ensures
        encode_opts(os.push(o)) == encode_opts(os) + encode_opt(o),
{
    assert(os.push(o).drop_last() == os);
}

proof fn lemma_encode_opts_prepend(o: (u16, Seq<u8>), s: Seq<(u16, Seq<u8>)>)
    ensures
        encode_opts(seq![o] + s) == encode_opt(o) + encode_opts(s),
    decreases s.len(),
{
    if s.len() == 0 {
        let t = seq![o] + s;
        assert(t =~= seq![o]);
        assert(t.drop_last() =~= Seq::<(u16, Seq<u8>)>::empty());
        assert(t.last() == o);
        assert(encode_opts(t) == encode_opts(t.drop_last()) + encode_opt(o));
        assert(encode_opts(t.drop_last()) =~= Seq::<u8>::empty());
        assert(encode_opts(t) =~= encode_opt(o));
        assert(encode_opts(s) =~= Seq::<u8>::empty());
        assert(encode_opt(o) + encode_opts(s) =~= encode_opt(o));
    } else {
        assert((seq![o] + s).drop_last() =~= seq![o] + s.drop_last());
        assert((seq![o] + s).last() == s.last());
        lemma_encode_opts_prepend(o, s.drop_last());
        assert(encode_opts(seq![o] + s) =~= encode_opt(o) + encode_opts(s.drop_last()) + encode_opt(s.last()));
    }
}

proof fn lemma_encode_opts_front(os: Seq<(u16, Seq<u8>)>, n: int)
    requires
        0 <= n < os.len(),
    ensures
        encode_opts(os.skip(n)) == encode_opt(os[n]) + encode_opts(os.skip(n + 1)),
{
    assert(os.skip(n) =~= seq![os[n]] + os.skip(n + 1));
    lemma_encode_opts_prepend(os[n], os.skip(n + 1));
}

/// Read one option at `i`.
#[verifier::rlimit(60)]
fn read_opt(bytes: &[u8], i: usize) -> (r: Result<(Opt, usize), MessageParseError>)
    requires
        i < bytes@.len(),
    ensures
        r matches Ok((o, j)) ==> i < j <= bytes@.len() && o.value@.len() <= MAX_OPT_LEN && bytes@.subrange(
            i as int,
            j as int,
        ) == encode_opt(o.view_opt()),
        forall|o: (u16, Seq<u8>)|
            o.1.len() <= MAX_OPT_LEN && i + (#[trigger] encode_opt(o)).len() <= bytes@.len() && bytes@.subrange(
                i as int,
                i + encode_opt(o).len(),
            ) == encode_opt(o) ==> (r matches Ok((p, j)) && p.view_opt() == o && j == i + encode_opt(o).len()),
{
    let b = bytes[i];
    let dn = b / 16;
    let ln = b % 16;
    proof {
        assert forall|o: (u16, Seq<u8>)|
            o.1.len() <= MAX_OPT_LEN && i + (#[trigger] encode_opt(o)).len() <= bytes@.len() && bytes@.subrange(
                i as int,
                i + encode_opt(o).len(),
            ) == encode_opt(o) implies dn as nat == nibble(o.0 as nat) && ln as nat == nibble(o.1.len())
            && bytes@.subrange(i + 1, i + 1 + ext_bytes(o.0 as nat).len()) == ext_bytes(o.0 as nat)
            && bytes@.subrange(
            i + 1 + ext_bytes(o.0 as nat).len(),
            i + 1 + ext_bytes(o.0 as nat).len() + ext_bytes(o.1.len()).len(),
        ) == ext_bytes(o.1.len()) && bytes@.subrange(
            i + 1 + ext_bytes(o.0 as nat).len() + ext_bytes(o.1.len()).len(),
            i + encode_opt(o).len(),
        ) == o.1 by {
            let e = encode_opt(o);
            let e1 = ext_bytes(o.0 as nat);
            let e2 = ext_bytes(o.1.len());
            let l1 = e1.len() as int;
            let l2 = e2.len() as int;
            let le = e.len() as int;
            let ii = i as int;
            assert(e[0] == bytes@.subrange(ii, ii + le)[0]);
            assert(b == e[0]);
            assert(bytes@.subrange(ii + 1, ii + 1 + l1) =~= bytes@.subrange(ii, ii + le).subrange(1, 1 + l1));
            assert(e.subrange(1, 1 + l1) =~= e1);
            assert(bytes@.subrange(ii + 1 + l1, ii + 1 + l1 + l2) =~= bytes@.subrange(ii, ii + le).subrange(
                1 + l1,
                1 + l1 + l2,
            ));
            assert(e.subrange(1 + l1, 1 + l1 + l2) =~= e2);
            assert(bytes@.subrange(ii + 1 + l1 + l2, ii + le) =~= bytes@.subrange(ii, ii + le).subrange(
                1 + l1 + l2,
                le,
            ));
            assert(e.subrange(1 + l1 + l2, le) =~= o.1);
        }
    }
    if dn == 15 {
        return Err(MessageParseError::OptionDeltaReservedValue(dn));
    }
    if ln == 15 {
        return Err(MessageParseError::ValueLengthReservedValue(ln));
    }
    let (delta, at1) = match read_ext(bytes, i + 1, dn) {
        Some(p) => p,
        None => {
            return Err(MessageParseError::UnexpectedEndOfStream);
        },
    };
    if delta > 65535 {
        return Err(MessageParseError::OptionDeltaTooLarge);
    }
    let (len, at2) = match read_ext(bytes, at1, ln) {
        Some(p) => p,
        None => {
            return Err(MessageParseError::UnexpectedEndOfStream);
        },
    };
    if len > bytes.len() - at2 {
        return Err(MessageParseError::UnexpectedEndOfStream);
    }
    let value = copy_range(bytes, at2, at2 + len);
    let o = Opt { delta: delta as u16, value };
    proof {
        assert(bytes@.subrange(i as int, i + 1) =~= seq![b]);
        assert((dn * 16 + ln) as u8 == b);
        assert(bytes@.subrange(i as int, (at2 + len) as int) =~= bytes@.subrange(i as int, i + 1)
            + bytes@.subrange(i + 1, at1 as int) + bytes@.subrange(at1 as int, at2 as int)
            + bytes@.subrange(at2 as int, (at2 + len) as int));
        assert(bytes@.subrange(i as int, (at2 + len) as int) == encode_opt(o.view_opt()));
        assert forall|q: (u16, Seq<u8>)|
            q.1.len() <= MAX_OPT_LEN && i + (#[trigger] encode_opt(q)).len() <= bytes@.len() && bytes@.subrange(
                i as int,
                i + encode_opt(q).len(),
            ) == encode_opt(q) implies o.view_opt() == q && at2 + len == i + encode_opt(q).len() by {
            let e1 = ext_bytes(q.0 as nat);
            let e2 = ext_bytes(q.1.len());
            assert(at1 == i + 1 + e1.len());
            assert(delta == q.0);
            assert(at2 == at1 + e2.len());
            assert(len == q.1.len());
            assert(o.value@ =~= q.1);
        }
    }
    Ok((o, at2 + len))
}

pub open spec fn opt_views(os: Seq<Opt>) -> Seq<(u16, Seq<u8>)> {
    os.map_values(|o: Opt| o.view_opt())
}

/// Read options from `start` up to the payload marker or the end. When the bytes there are
/// the options `target.0` followed by the payload `target.1`, that is what is read.
fn read_opts(bytes: &[u8], start: usize, Ghost(target): Ghost<Option<(Seq<(u16, Seq<u8>)>, Seq<u8>)>>) -> (r:
    Result<(Vec<Opt>, usize), MessageParseError>)
    requires
        start <= bytes@.len(),
        target matches Some(t) ==> (forall|k: int| 0 <= k < t.0.len() ==> (#[trigger] t.0[k]).1.len() <= MAX_OPT_LEN)
            && bytes@.subrange(start as int, bytes@.len() as int) == encode_opts(t.0) + encode_payload(t.1),
    ensures
        r matches Ok((opts, i)) ==> start <= i <= bytes@.len() && (i == bytes@.len() || bytes@[i as int] == 0xFF)
            && bytes@.subrange(start as int, i as int) == encode_opts(opt_views(opts@)) && (forall|k: int|
            0 <= k < opts@.len() ==> #[trigger] opts@[k].value@.len() <= MAX_OPT_LEN),
        target matches Some(t) ==> (r matches Ok((opts, i)) && opt_views(opts@) == t.0 && bytes@.subrange(
            i as int,
            bytes@.len() as int,
        ) == encode_payload(t.1)),
{
    let mut opts: Vec<Opt> = Vec::new();
    let mut i: usize = start;
    proof {
        if target is Some {
            let t = target->Some_0;
            assert(t.0.skip(0) =~= t.0);
        }
    }
    assert(opt_views(opts@) =~= Seq::<(u16, Seq<u8>)>::empty());
    assert(bytes@.subrange(start as int, start as int) =~= Seq::<u8>::empty());
    while i < bytes.len() && bytes[i] != 0xFF
        invariant
            start <= i <= bytes@.len(),
            bytes@.subrange(start as int, i as int) == encode_opts(opt_views(opts@)),
            forall|k: int| 0 <= k < opts@.len() ==> #[trigger] opts@[k].value@.len() <= MAX_OPT_LEN,
            target matches Some(t) ==> (forall|k: int| 0 <= k < t.0.len() ==> (#[trigger] t.0[k]).1.len()
                <= MAX_OPT_LEN) && opts@.len() <= t.0.len() && opt_views(opts@) == t.0.take(opts@.len() as int)
                && bytes@.subrange(i as int, bytes@.len() as int) == encode_opts(t.0.skip(opts@.len() as int))
                + encode_payload(t.1),
        decreases bytes@.len() - i,
    {
        let ghost n = opts@.len() as int;
        let ghost t = target->Some_0;
        let ghost o = t.0[n];
        let ghost eo = encode_opt(o);
        proof {
            if target is Some {
                if n == t.0.len() {
                    assert(t.0.skip(n) =~= Seq::<(u16, Seq<u8>)>::empty());
                    assert(encode_opts(t.0.skip(n)) =~= Seq::<u8>::empty());
                    let rest = bytes@.subrange(i as int, bytes@.len() as int);
                    assert(rest =~= encode_payload(t.1));
                    assert(rest[0] == bytes@[i as int]);
                    assert(false);
                }
                lemma_encode_opts_front(t.0, n);
                let rest = bytes@.subrange(i as int, bytes@.len() as int);
                assert(rest =~= eo + (encode_opts(t.0.skip(n + 1)) + encode_payload(t.1)));
                assert(rest.subrange(0, eo.len() as int) =~= eo);
                assert(bytes@.subrange(i as int, i + eo.len()) =~= rest.subrange(0, eo.len() as int));
            }
        }
        assert(target is Some ==> (o.1.len() <= MAX_OPT_LEN && i + eo.len() <= bytes@.len() && bytes@.subrange(
            i as int,
            i + eo.len(),
        ) == eo));
        let (op, next) = match read_opt(bytes, i) {
            Ok(p) => p,
            Err(e) => {
                assert(target is None) by {
                    if target is Some {
                        assert(encode_opt(o) == eo);
                    }
                }
                return Err(e);
            },
        };
        proof {
            assert(bytes@.subrange(start as int, next as int) =~= bytes@.subrange(start as int, i as int)
                + bytes@.subrange(i as int, next as int));
            lemma_encode_opts_push(opt_views(opts@), op.view_opt());
            if target is Some {
                assert(encode_opt(o) == eo);
                assert(op.view_opt() == o);
                assert(t.0.take(n + 1) =~= t.0.take(n).push(o));
                lemma_encode_opts_front(t.0, n);
                let rest = bytes@.subrange(i as int, bytes@.len() as int);
                assert(rest =~= eo + (encode_opts(t.0.skip(n + 1)) + encode_payload(t.1)));
                assert(bytes@.subrange(next as int, bytes@.len() as int) =~= rest.subrange(
                    eo.len() as int,
                    rest.len() as int,
                ));
            }
        }
        let ghost prev = opts@;
        opts.push(op);
        assert(opt_views(opts@) =~= opt_views(prev).push(op.view_opt()));
        i = next;
    }
    proof {
        if target is Some {
            let t = target->Some_0;
            let n = opts@.len() as int;
            if n < t.0.len() {
                lemma_encode_opts_front(t.0, n);
                let rest = bytes@.subrange(i as int, bytes@.len() as int);
                assert(rest =~= encode_opt(t.0[n]) + (encode_opts(t.0.skip(n + 1)) + encode_payload(t.1)));
                assert(rest[0] == encode_opt(t.0[n])[0]);
                assert(rest[0] == bytes@[i as int]);
                assert(false);
            }
            assert(t.0.take(n) =~= t.0);
            assert(t.0.skip(n) =~= Seq::<(u16, Seq<u8>)>::empty());
            assert(encode_opts(t.0.skip(n)) =~= Seq::<u8>::empty());
            assert(bytes@.subrange(i as int, bytes@.len() as int) =~= encode_payload(t.1));
        }
    }
    Ok((opts, i))
}

/// Read a message from its wire form: what is read has that wire form, and the wire form of
/// every well-formed message is read back as that message.
#[verifier::rlimit(100)]
#[verifier::spinoff_prover]
pub fn try_from_bytes(bytes: &[u8]) -> (r: Result<Message, MessageParseError>)
    ensures
        r matches Ok(m) ==> wf_msg(m@) && encode(m@) == bytes@,
        forall|mv: MessageV| wf_msg(mv) && #[trigger] encode(mv) == bytes@ ==> (r matches Ok(m) && m@ == mv),
        bytes@.len() < 4 ==> r == Err::<Message, MessageParseError>(
            MessageParseError::UnexpectedEndOfStream,
        ),
{
    let ghost enc = exists|mv: MessageV| wf_msg(mv) && #[trigger] encode(mv) == bytes@;
    let ghost mv = choose|mv: MessageV| wf_msg(mv) && #[trigger] encode(mv) == bytes@;
    proof {
        if enc {
            assert(encode(mv) =~= encode_header(mv) + mv.token + encode_opts(mv.opts) + encode_payload(mv.payload));
        }
    }
    if bytes.len() < 4 {
        return Err(MessageParseError::UnexpectedEndOfStream);
    }
    let b0 = bytes[0];
    let b1 = bytes[1];
    let ver = b0 / 64;
    let tyn = (b0 / 16) % 4;
    let tkl = b0 % 16;
    proof {
        if enc {
            assert(bytes@[0] == encode_header(mv)[0]);
            assert(tkl == mv.token.len());
        }
    }
    if tkl > 8 {
        return Err(MessageParseError::InvalidTokenLength(tkl));
    }
    let ty = if tyn == 0 {
        Type::Con
    } else if tyn == 1 {
        Type::Non
    } else if tyn == 2 {
        Type::Ack
    } else {
        Type::Reset
    };
    let code = Code { class: b1 / 32, detail: b1 % 32 };
    let id: u16 = bytes[2] as u16 * 256 + bytes[3] as u16;
    if bytes.len() < 4 + tkl as usize {
        return Err(MessageParseError::UnexpectedEndOfStream);
    }
    let token = copy_range(bytes, 4, 4 + tkl as usize);
    let ghost hdr = MessageV {
        ver,
        ty,
        id,
        token: token@,
        code,
        opts: seq![],
        payload: seq![],
    };
    assert(type_num(ty) == tyn);
    assert(encode_header(hdr) =~= bytes@.subrange(0, 4));
    let start: usize = 4 + tkl as usize;
    let ghost target: Option<(Seq<(u16, Seq<u8>)>, Seq<u8>)> = if enc { Some((mv.opts, mv.payload)) } else { None };
    proof {
        if enc {
            assert(bytes@.subrange(start as int, bytes@.len() as int) =~= encode_opts(mv.opts) + encode_payload(
                mv.payload,
            ));
        }
    }
    let (opts, i) = match read_opts(bytes, start, Ghost(target)) {
        Ok(p) => p,
        Err(e) => {
            return Err(e);
        },
    };
    let mut payload: Vec<u8> = Vec::new();
    if i < bytes.len() {
        if i + 1 == bytes.len() {
            proof {
                if enc {
                    assert(bytes@.subrange(i as int, bytes@.len() as int) =~= encode_payload(mv.payload));
                }
            }
            return Err(MessageParseError::PayloadMarkerWithoutPayload);
        }
        payload = copy_range(bytes, i + 1, bytes.len());
        assert(bytes@.subrange(i as int, bytes@.len() as int) =~= seq![0xFFu8] + payload@);
    }
    assert(bytes@ =~= bytes@.subrange(0, 4) + token@ + bytes@.subrange(start as int, i as int) + bytes@.subrange(
        i as int,
        bytes@.len() as int,
    ));
    let m = Message { ver, ty, id, token, code, opts, payload };
    assert(encode_header(m@) == encode_header(hdr));
    assert(m@.opts == opt_views(m.opts@));
    assert(bytes@.subrange(i as int, bytes@.len() as int) =~= encode_payload(m@.payload));
    assert(wf_msg(m@)) by {
        assert forall|k: int| 0 <= k < m@.opts.len() implies #[trigger] m@.opts[k].1.len()
            <= MAX_OPT_LEN by {
            assert(m.opts@[k].value@.len() <= MAX_OPT_LEN);
        }
    }
    proof {
        lemma_only_reading(m@, bytes@);
    }
    Ok(m)
}

proof fn lemma_ext_injective(n1: nat, n2: nat)
    requires
        n1 <= MAX_OPT_LEN,
        n2 <= MAX_OPT_LEN,
        nibble(n1) == nibble(n2),
        ext_bytes(n1) == ext_bytes(n2),
    ensures
        n1 == n2,
{
    if nibble(n1) == 13 {
        assert(ext_bytes(n1)[0] == ext_bytes(n2)[0]);
        assert(ext_bytes(n1)[0] == (n1 - 13) as u8);
        assert(ext_bytes(n2)[0] == (n2 - 13) as u8);
        assert(n1 - 13 < 256 && n2 - 13 < 256);
    } else if nibble(n1) == 14 {
        let x1 = (n1 - 269) as int;
        let x2 = (n2 - 269) as int;
        assert(ext_bytes(n1)[0] == ext_bytes(n2)[0]);
        assert(ext_bytes(n1)[1] == ext_bytes(n2)[1]);
        assert(0 <= x1 / 256 < 256 && 0 <= x2 / 256 < 256);
        assert(ext_bytes(n1)[0] == (x1 / 256) as u8);
        assert(ext_bytes(n2)[0] == (x2 / 256) as u8);
        assert(x1 / 256 == x2 / 256);
        assert(ext_bytes(n1)[1] == (x1 % 256) as u8);
        assert(ext_bytes(n2)[1] == (x2 % 256) as u8);
        assert(x1 % 256 == x2 % 256);
        assert(x1 == 256 * (x1 / 256) + x1 % 256);
        assert(x2 == 256 * (x2 / 256) + x2 % 256);
    }
}

/// Two options whose wire forms start the same bytes are the same option.
proof fn lemma_opt_prefix_injective(o1: (u16, Seq<u8>), r1: Seq<u8>, o2: (u16, Seq<u8>), r2: Seq<u8>)
    requires
        o1.1.len() <= MAX_OPT_LEN,
        o2.1.len() <= MAX_OPT_LEN,
        encode_opt(o1) + r1 == encode_opt(o2) + r2,
    ensures
        o1 == o2,
        r1 == r2,
{
    let s = encode_opt(o1) + r1;
    let e1 = encode_opt(o1);
    let e2 = encode_opt(o2);
    assert(s[0] == e1[0]);
    assert(s[0] == e2[0]);
    assert(nibble(o1.0 as nat) == nibble(o2.0 as nat));
    assert(nibble(o1.1.len()) == nibble(o2.1.len()));
    let a1 = ext_bytes(o1.0 as nat).len() as int;
    let b1 = ext_bytes(o1.1.len()).len() as int;
    assert(ext_bytes(o2.0 as nat).len() == a1);
    assert(ext_bytes(o2.1.len()).len() == b1);
    assert(ext_bytes(o1.0 as nat) =~= s.subrange(1, 1 + a1));
    assert(ext_bytes(o2.0 as nat) =~= s.subrange(1, 1 + a1));
    lemma_ext_injective(o1.0 as nat, o2.0 as nat);
    assert(ext_bytes(o1.1.len()) =~= s.subrange(1 + a1, 1 + a1 + b1));
    assert(ext_bytes(o2.1.len()) =~= s.subrange(1 + a1, 1 + a1 + b1));
    lemma_ext_injective(o1.1.len(), o2.1.len());
    let v = 1 + a1 + b1;
    assert(o1.1 =~= s.subrange(v, v + o1.1.len()));
    assert(o2.1 =~= s.subrange(v, v + o1.1.len()));
    assert(e1 =~= e2);
    assert(r1 =~= s.subrange(e1.len() as int, s.len() as int));
    assert(r2 =~= s.subrange(e1.len() as int, s.len() as int));
}

/// Options followed by a payload are read back the same way from the same bytes.
proof fn lemma_opts_injective(a: Seq<(u16, Seq<u8>)>, pa: Seq<u8>, b: Seq<(u16, Seq<u8>)>, pb: Seq<u8>)
    requires
        forall|k: int| 0 <= k < a.len() ==> (#[trigger] a[k]).1.len() <= MAX_OPT_LEN,
        forall|k: int| 0 <= k < b.len() ==> (#[trigger] b[k]).1.len() <= MAX_OPT_LEN,
        encode_opts(a) + encode_payload(pa) == encode_opts(b) + encode_payload(pb),
    ensures
        a == b,
        pa == pb,
    decreases a.len() + b.len(),
{
    if a.len() > 0 {
        lemma_encode_opts_front(a, 0);
        assert(a.skip(0) =~= a);
    }
    if b.len() > 0 {
        lemma_encode_opts_front(b, 0);
        assert(b.skip(0) =~= b);
    }
    if a.len() == 0 && b.len() == 0 {
        assert(encode_opts(a) =~= Seq::<u8>::empty());
        assert(encode_opts(b) =~= Seq::<u8>::empty());
        assert(encode_opts(a) + encode_payload(pa) =~= encode_payload(pa));
        assert(encode_opts(b) + encode_payload(pb) =~= encode_payload(pb));
        if pa.len() > 0 && pb.len() > 0 {
            assert(pa =~= encode_payload(pa).subrange(1, encode_payload(pa).len() as int));
            assert(pb =~= encode_payload(pb).subrange(1, encode_payload(pb).len() as int));
        }
        assert(a =~= b);
        assert(pa =~= pb);
    } else if a.len() == 0 {
        let s = encode_opts(b) + encode_payload(pb);
        assert(encode_opts(a) =~= Seq::<u8>::empty());
        assert(s =~= encode_payload(pa));
        assert(s =~= encode_opt(b[0]) + (encode_opts(b.skip(1)) + encode_payload(pb)));
        assert(s[0] == encode_opt(b[0])[0]);
        assert(false);
    } else if b.len() == 0 {
        let s = encode_opts(a) + encode_payload(pa);
        assert(encode_opts(b) =~= Seq::<u8>::empty());
        assert(s =~= encode_payload(pb));
        assert(s =~= encode_opt(a[0]) + (encode_opts(a.skip(1)) + encode_payload(pa)));
        assert(s[0] == encode_opt(a[0])[0]);
        assert(false);
    } else {
        let s = encode_opts(a) + encode_payload(pa);
        assert(s =~= encode_opt(a[0]) + (encode_opts(a.skip(1)) + encode_payload(pa)));
        assert(s =~= encode_opt(b[0]) + (encode_opts(b.skip(1)) + encode_payload(pb)));
        lemma_opt_prefix_injective(
            a[0],
            encode_opts(a.skip(1)) + encode_payload(pa),
            b[0],
            encode_opts(b.skip(1)) + encode_payload(pb),
        );
        lemma_opts_injective(a.skip(1), pa, b.skip(1), pb);
        assert(a =~= seq![a[0]] + a.skip(1));
        assert(b =~= seq![b[0]] + b.skip(1));
    }
}

proof fn lemma_only_reading(m: MessageV, b: Seq<u8>)
    requires
        wf_msg(m),
        encode(m) == b,
    ensures
        forall|mv: MessageV| wf_msg(mv) && #[trigger] encode(mv) == b ==> m == mv,
{
    assert forall|mv: MessageV| wf_msg(mv) && #[trigger] encode(mv) == b implies m == mv by {
        lemma_encode_injective(m, mv);
    }
}

/// Two well-formed messages with the same wire form are the same message, so writing a
/// message and reading it back gives that message.
pub proof fn lemma_encode_injective(a: MessageV, b: MessageV)
    requires
        wf_msg(a),
        wf_msg(b),
        encode(a) == encode(b),
    ensures
        a == b,
{
    let s = encode(a);
    assert(s =~= encode_header(a) + a.token + encode_opts(a.opts) + encode_payload(a.payload));
    assert(s =~= encode_header(b) + b.token + encode_opts(b.opts) + encode_payload(b.payload));
    assert(s[0] == encode_header(a)[0] && s[0] == encode_header(b)[0]);
    assert(s[1] == encode_header(a)[1] && s[1] == encode_header(b)[1]);
    assert(s[2] == encode_header(a)[2] && s[2] == encode_header(b)[2]);
    assert(s[3] == encode_header(a)[3] && s[3] == encode_header(b)[3]);
    assert(a.ver == b.ver);
    assert(a.token.len() == b.token.len());
    assert(type_num(a.ty) == type_num(b.ty));
    assert(a.ty == b.ty);
    assert(a.code == b.code);
    assert(a.id == b.id);
    let t = a.token.len() as int;
    assert(a.token =~= s.subrange(4, 4 + t));
    assert(b.token =~= s.subrange(4, 4 + t));
    assert(encode_opts(a.opts) + encode_payload(a.payload) =~= s.subrange(4 + t, s.len() as int));
    assert(encode_opts(b.opts) + encode_payload(b.payload) =~= s.subrange(4 + t, s.len() as int));
    lemma_opts_injective(a.opts, a.payload, b.opts, b.payload);
}

} // verus!
