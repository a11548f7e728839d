use vstd::prelude::*;
use crate::msg::Addr;

verus! {

/// Half of the range of a millisecond timestamp.
pub const HALF: u64 = 0x8000_0000_0000_0000;

/// A value with the instant (in milliseconds) at which it was recorded.
#[derive(Clone, Copy, Debug, PartialEq, Eq, Structural)]
pub struct Stamped<T>(pub T, pub u64);

/// `a` is at or after `b` on a clock that wraps: `(a - b) mod 2^64` is in the lower half.
pub open spec fn later_eq(a: u64, b: u64) -> bool {
    if a >= b { a - b < HALF } else { b - a > HALF }
}

pub fn is_later_eq(a: u64, b: u64) -> (r: bool)
    ensures
        r == later_eq(a, b),
{
    if a >= b { a - b < HALF } else { b - a > HALF }
}

/// The latest stamp of a history: a later (or equally late) stamp replaces the one held so far.
pub open spec fn latest<T>(h: Seq<Stamped<T>>) -> Option<Stamped<T>>
    decreases h.len(),
{
    if h.len() == 0 {
        None
    } else {
        match latest(h.drop_last()) {
            None => Some(h.last()),
            Some(p) => if later_eq(h.last().1, p.1) { Some(h.last()) } else { Some(p) },
        }
    }
}

/// Find the latest stamp of `h`.
pub fn find_latest<T: Copy>(h: &Vec<Stamped<T>>) -> (r: Option<Stamped<T>>)
    ensures
        r == latest(h@),
{
    let mut best: Option<Stamped<T>> = None;
    let mut i: usize = 0;
    while i < h.len()
        invariant
            i <= h@.len(),
            best == latest(h@.subrange(0, i as int)),
        decreases h.len() - i,
    {
        let s = h[i];
        proof {
            let p = h@.subrange(0, i + 1);
            assert(p.drop_last() == h@.subrange(0, i as int));
            assert(p.last() == h@[i as int]);
        }
        best = match best {
            None => Some(s),
            Some(p) => if is_later_eq(s.1, p.1) { Some(s) } else { Some(p) },
        };
        i = i + 1;
    }
    assert(h@.subrange(0, h@.len() as int) == h@);
    best
}

/// Where `a` first stands in `s`, or -1.
pub open spec fn first_index(s: Seq<Addr>, a: Addr) -> int
    decreases s.len(),
{
    if s.len() == 0 {
        -1
    } else if first_index(s.drop_last(), a) >= 0 {
        first_index(s.drop_last(), a)
    } else if s.last() == a {
        s.len() - 1
    } else {
        -1
    }
}

proof fn lemma_first_index_range(s: Seq<Addr>, a: Addr)
    ensures
        -1 <= first_index(s, a) < s.len(),
        first_index(s, a) >= 0 ==> s[first_index(s, a)] == a,
    decreases s.len(),
{
    if s.len() > 0 {
        lemma_first_index_range(s.drop_last(), a);
    }
}

proof fn lemma_first_index_prefix(s: Seq<Addr>, a: Addr, n: int)
    requires
        0 <= n <= s.len(),
        first_index(s.subrange(0, n), a) >= 0,
    ensures
        first_index(s, a) == first_index(s.subrange(0, n), a),
    decreases s.len() - n,
{
    if n < s.len() {
        let t = s.subrange(0, n + 1);
        assert(t.drop_last() == s.subrange(0, n));
        assert(t.subrange(0, n) == s.subrange(0, n));
        lemma_first_index_prefix(s, a, n + 1);
    } else {
        assert(s.subrange(0, n) == s);
    }
}

/// The stamped values recorded for each peer.
pub struct PeerHistory<T> {
    pub peers: Vec<Addr>,
    pub stamps: Vec<Vec<Stamped<T>>>,
}

impl<T: Copy> PeerHistory<T> {
    pub open spec fn wf(self) -> bool {
        self.peers@.len() == self.stamps@.len()
    }

    /// What was recorded for `a`, oldest first.
    pub open spec fn hist(self, a: Addr) -> Seq<Stamped<T>> {
        let i = first_index(self.peers@, a);
        if i < 0 { seq![] } else { self.stamps@[i]@ }
    }

    pub fn new() -> (r: Self)
        ensures
            r.wf(),
            forall|a: Addr| r.hist(a) == Seq::<Stamped<T>>::empty(),
    {
        PeerHistory { peers: Vec::new(), stamps: Vec::new() }
    }

    fn find(&self, a: Addr) -> (r: Option<usize>)
        requires
            self.wf(),
        ensures
            r matches Some(i) ==> i == first_index(self.peers@, a) && i < self.peers@.len(),
            r is None ==> first_index(self.peers@, a) < 0,
    {
        let mut i: usize = 0;
        while i < self.peers.len()
            invariant
                i <= self.peers@.len(),
                first_index(self.peers@.subrange(0, i as int), a) < 0,
            decreases self.peers.len() - i,
        {
            let p = self.peers[i];
            proof {
                let t = self.peers@.subrange(0, i + 1);
                assert(t.drop_last() == self.peers@.subrange(0, i as int));
            }
            if p == a {
                proof {
                    lemma_first_index_prefix(self.peers@, a, i + 1);
                }
                return Some(i);
            }
            i = i + 1;
        }
        assert(self.peers@.subrange(0, i as int) == self.peers@);
        None
    }

    /// The latest value recorded for `a`.
    pub fn latest_of(&self, a: Addr) -> (r: Option<Stamped<T>>)
        requires
            self.wf(),
        ensures
            r == latest(self.hist(a)),
    {
        match self.find(a) {
            Some(i) => find_latest(&self.stamps[i]),
            None => None,
        }
    }

    /// Record `s` for `a`.
    pub fn record(&mut self, a: Addr, s: Stamped<T>)
        requires
            old(self).wf(),
        ensures
            final(self).wf(),
            final(self).hist(a) == old(self).hist(a).push(s),
            forall|b: Addr| b != a ==> final(self).hist(b) == old(self).hist(b),
    {
        proof {
            lemma_first_index_range(self.peers@, a);
        }
        match self.find(a) {
            Some(i) => {
                let mut v = self.stamps.remove(i);
                v.push(s);
                self.stamps.insert(i, v);
                proof {
                    assert forall|b: Addr| b != a implies final(self).hist(b) == old(self).hist(b) by {
                        lemma_first_index_range(self.peers@, b);
                    }
                }
            },
            None => {
                let ghost old_peers = self.peers@;
                self.peers.push(a);
                let mut v: Vec<Stamped<T>> = Vec::new();
                v.push(s);
                self.stamps.push(v);
                proof {
                    assert(self.peers@.drop_last() == old_peers);
                    assert forall|b: Addr| b != a implies final(self).hist(b) == old(self).hist(b) by {
                        assert(self.peers@.drop_last() == old_peers);
                        lemma_first_index_range(old_peers, b);
                    }
                    assert(v@ == seq![s]);
                    assert(seq![s] =~= Seq::<Stamped<T>>::empty().push(s));
                }
            },
        }
    }
}

/// A stamp at or after the latest one becomes the latest.
pub proof fn lemma_latest_push<T>(h: Seq<Stamped<T>>, s: Stamped<T>)
    requires
        latest(h) matches Some(p) ==> later_eq(s.1, p.1),
    ensures
        latest(h.push(s)) == Some(s),
{
    assert(h.push(s).drop_last() == h);
}

} // verus!
