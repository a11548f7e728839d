use vstd::prelude::*;
use crate::msg::Opt;
pub use crate::msg::opt_views;

verus! {

/// An option as a number and a value.
pub type NumberedOpt = (u32, Vec<u8>);

pub open spec fn nv(p: NumberedOpt) -> (u32, Seq<u8>) {
    (p.0, p.1@)
}

pub open spec fn nvs(s: Seq<NumberedOpt>) -> Seq<(u32, Seq<u8>)> {
    s.map_values(|p: NumberedOpt| nv(p))
}

/// Something that can be stored as an option value.
pub trait ToOptionValue {
    /// The bytes of the value.
    fn to_option_value(self) -> Vec<u8>;
}

impl ToOptionValue for u16 {
    /// The big-endian bytes.
    fn to_option_value(self) -> (r: Vec<u8>)
        ensures
            r@ == seq![(self / 256) as u8, (self % 256) as u8],
    {
        let mut v: Vec<u8> = Vec::new();
        v.push((self / 256) as u8);
        v.push((self % 256) as u8);
        v
    }
}

impl<'a> ToOptionValue for &'a [u8] {
    /// The bytes themselves.
    fn to_option_value(self) -> (r: Vec<u8>)
        ensures
            r@ == self@,
    {
        let mut v: Vec<u8> = Vec::new();
        let mut i: usize = 0;
        while i < self.len()
            invariant
                i <= self@.len(),
                v@ == self@.subrange(0, i as int),
            decreases self.len() - i,
        {
            v.push(self[i]);
            proof {
                assert(self@.subrange(0, i + 1) == self@.subrange(0, i as int).push(self@[i as int]));
            }
            i = i + 1;
        }
        assert(self@.subrange(0, self@.len() as int) == self@);
        v
    }
}

/// Where the option `number` first stands in `s`, or -1.
pub open spec fn index_of_number(s: Seq<(u32, Seq<u8>)>, number: u32) -> int
    decreases s.len(),
{
    if s.len() == 0 {
        -1
    } else if index_of_number(s.drop_last(), number) >= 0 {
        index_of_number(s.drop_last(), number)
    } else if s.last().0 == number {
        s.len() - 1
    } else {
        -1
    }
}

pub proof fn lemma_index_of_number(s: Seq<(u32, Seq<u8>)>, number: u32)
    ensures
        -1 <= index_of_number(s, number) < s.len(),
        index_of_number(s, number) >= 0 ==> s[index_of_number(s, number)].0 == number,
        index_of_number(s, number) < 0 ==> forall|i: int| 0 <= i < s.len() ==> s[i].0 != number,
        forall|i: int| 0 <= i < index_of_number(s, number) ==> s[i].0 != number,
    decreases s.len(),
{
    if s.len() > 0 {
        let t = s.drop_last();
        lemma_index_of_number(t, number);
        assert forall|i: int| 0 <= i < t.len() implies s[i] == t[i] by {}
    }
}

/// Set option `number` to `value`: an option already there gets the new value; otherwise it
/// is appended, unless `max_size` leaves no room, and then the arguments come back.
pub fn add(opts: &mut Vec<NumberedOpt>, max_size: Option<usize>, number: u32, value: Vec<u8>) -> (r:
    Option<NumberedOpt>)
    ensures
        ({
            let i = index_of_number(nvs(old(opts)@), number);
            if i >= 0 {
                r is None && nvs(final(opts)@) == nvs(old(opts)@).update(i, (number, value@))
            } else if max_size matches Some(m) && m < old(opts)@.len() + 1 {
                r == Some((number, value)) && final(opts)@ == old(opts)@
            } else {
                r is None && nvs(final(opts)@) == nvs(old(opts)@).push((number, value@))
            }
        }),
{
    proof {
        lemma_index_of_number(nvs(opts@), number);
    }
    let mut i: usize = 0;
    while i < opts.len()
        invariant
            i <= opts@.len(),
            opts@ == old(opts)@,
            -1 <= index_of_number(nvs(opts@), number) < opts@.len(),
            index_of_number(nvs(opts@), number) >= 0 ==> nvs(opts@)[index_of_number(nvs(opts@), number)].0
                == number,
            index_of_number(nvs(opts@), number) < 0 ==> forall|k: int|
                0 <= k < opts@.len() ==> nvs(opts@)[k].0 != number,
            forall|k: int| 0 <= k < index_of_number(nvs(opts@), number) ==> nvs(opts@)[k].0 != number,
            forall|k: int| 0 <= k < i ==> opts@[k].0 != number,
        decreases opts.len() - i,
    {
        if opts[i].0 == number {
            proof {
                let s = nvs(opts@);
                assert(s[i as int].0 == number);
                let j = index_of_number(s, number);
                assert(j >= 0);
                assert(j == i as int) by {
                    if j < i {
                        assert(s[j].0 == opts@[j].0);
                    }
                    if j > i {
                        assert(s[i as int].0 != number);
                    }
                }
            }
            let ghost before = opts@;
            opts.set(i, (number, value));
            assert(nvs(opts@) =~= nvs(before).update(i as int, (number, opts@[i as int].1@)));
            return None;
        }
        i = i + 1;
    }
    proof {
        let s = nvs(opts@);
        if index_of_number(s, number) >= 0 {
            let j = index_of_number(s, number);
            assert(opts@[j].0 == s[j].0);
        }
    }
    let no_room = match max_size {
        Some(m) => opts.len() >= m,
        None => false,
    };
    if no_room {
        return Some((number, value));
    }
    let ghost before = opts@;
    opts.push((number, value));
    assert(nvs(opts@) =~= nvs(before).push((number, opts@.last().1@)));
    None
}

/// The sum of the deltas of `os`: the number of its last option.
pub open spec fn sum_deltas(os: Seq<(u16, Seq<u8>)>) -> int
    decreases os.len(),
{
    if os.len() == 0 { 0 } else { sum_deltas(os.drop_last()) + os.last().0 }
}

/// The options that delta-encoded `os` stand for, with their numbers.
pub open spec fn numbered(os: Seq<(u16, Seq<u8>)>) -> Seq<(u32, Seq<u8>)>
    decreases os.len(),
{
    if os.len() == 0 {
        seq![]
    } else {
        numbered(os.drop_last()).push((sum_deltas(os) as u32, os.last().1))
    }
}

pub open spec fn sorted_by_number(s: Seq<(u32, Seq<u8>)>) -> bool {
    forall|i: int, j: int| 0 <= i < j < s.len() ==> s[i].0 <= s[j].0
}

/// `out` is a delta encoding of the options `os`: the options it stands for are those of `os`,
/// ordered by number.
pub open spec fn is_normalization(os: Seq<(u32, Seq<u8>)>, out: Seq<(u16, Seq<u8>)>) -> bool {
    &&& numbered(out).to_multiset() == os.to_multiset()
    &&& sorted_by_number(numbered(out))
}


/// `x` placed after every item of the ordered `t` whose number is not greater.
pub open spec fn insert_by_number(t: Seq<(u32, Seq<u8>)>, x: (u32, Seq<u8>)) -> Seq<(u32, Seq<u8>)>
    decreases t.len(),
{
    if t.len() == 0 || t.last().0 <= x.0 {
        t.push(x)
    } else {
        insert_by_number(t.drop_last(), x).push(t.last())
    }
}

/// `s` ordered by number, items with equal numbers kept in their order (a stable sort).
pub open spec fn stable_sorted(s: Seq<(u32, Seq<u8>)>) -> Seq<(u32, Seq<u8>)>
    decreases s.len(),
{
    if s.len() == 0 {
        seq![]
    } else {
        insert_by_number(stable_sorted(s.drop_last()), s.last())
    }
}

/// The delta encoding of options ordered by number: each number minus the one before.
pub open spec fn deltas_of(s: Seq<(u32, Seq<u8>)>) -> Seq<(u16, Seq<u8>)>
    decreases s.len(),
{
    if s.len() == 0 {
        seq![]
    } else {
        let prev: int = if s.len() == 1 { 0 } else { s[s.len() - 2].0 as int };
        deltas_of(s.drop_last()).push(((s.last().0 - prev) as u16, s.last().1))
    }
}

/// Relies on slice::sort_by_key, a stable sort: afterwards the items are ordered by their
/// number, items with equal numbers keep their order, and they are the items that were there.
#[verifier::external_body]
fn sort_by_number(v: &mut Vec<NumberedOpt>)
    ensures
        nvs(final(v)@) == stable_sorted(nvs(old(v)@)),
        nvs(final(v)@).to_multiset() == nvs(old(v)@).to_multiset(),
        forall|i: int, j: int| 0 <= i < j < final(v)@.len() ==> final(v)@[i].0 <= final(v)@[j].0,
{
    v.sort_by_key(|p| p.0)
}

/// Turn options with numbers into options with deltas, ordered by number.
pub fn normalize(os: Vec<NumberedOpt>) -> (r: Vec<Opt>)
    requires
        forall|i: int| 0 <= i < os@.len() ==> #[trigger] os@[i].0 <= u16::MAX,
    ensures
        is_normalization(nvs(os@), opt_views(r@)),
        numbered(opt_views(r@)) == stable_sorted(nvs(os@)),
        opt_views(r@) == deltas_of(stable_sorted(nvs(os@))),
{
    let mut os = os;
    let ghost orig = os@;
    if os.len() == 0 {
        let r: Vec<Opt> = Vec::new();
        assert(opt_views(r@) =~= seq![]);
        assert(nvs(orig) =~= seq![]);
        assert(deltas_of(stable_sorted(nvs(orig))) =~= seq![]);
        return r;
    }
    sort_by_number(&mut os);
    proof {
        assert forall|i: int| 0 <= i < os@.len() implies #[trigger] os@[i].0 <= u16::MAX by {
            let x = nvs(os@)[i];
            vstd::seq_lib::to_multiset_contains(nvs(os@), x);
            vstd::seq_lib::to_multiset_contains(nvs(orig), x);
            assert(nvs(os@).contains(x));
            assert(nvs(orig).contains(x));
            let k = choose|k: int| 0 <= k < nvs(orig).len() && nvs(orig)[k] == x;
            assert(orig[k].0 <= u16::MAX);
        }
    }
    let ghost sorted = os@;
    let mut out: Vec<Opt> = Vec::new();
    let mut prev: u32 = 0;
    let mut rest = os;
    while rest.len() > 0
        invariant
            out@.len() + rest@.len() == sorted.len(),
            rest@ == sorted.subrange(out@.len() as int, sorted.len() as int),
            forall|i: int| 0 <= i < sorted.len() ==> #[trigger] sorted[i].0 <= u16::MAX,
            forall|i: int, j: int| 0 <= i < j < sorted.len() ==> sorted[i].0 <= sorted[j].0,
            numbered(opt_views(out@)) == nvs(sorted).subrange(0, out@.len() as int),
            opt_views(out@) == deltas_of(nvs(sorted).subrange(0, out@.len() as int)),
            out@.len() == 0 ==> prev == 0,
            out@.len() > 0 ==> prev == sorted[out@.len() - 1].0,
            sum_deltas(opt_views(out@)) == prev,
        decreases rest@.len(),
    {
        let ghost k = out@.len() as int;
        let ghost old_out = out@;
        let (num, value) = rest.remove(0);
        assert((num, value) == sorted[k]);
        assert(num >= prev) by {
            if k > 0 {
                assert(sorted[k - 1].0 <= sorted[k].0);
            }
        }
        let delta: u16 = (num - prev) as u16;
        out.push(Opt { delta, value });
        proof {
            let ov = opt_views(out@);
            assert(ov.drop_last() =~= opt_views(old_out));
            assert(sum_deltas(ov) == num);
            assert(nvs(sorted).subrange(0, k + 1) =~= nvs(sorted).subrange(0, k).push(nv(sorted[k])));
            let t = nvs(sorted).subrange(0, k + 1);
            assert(t.drop_last() == nvs(sorted).subrange(0, k));
            if k > 0 {
                assert(t[t.len() - 2] == nv(sorted[k - 1]));
            }
            assert(ov =~= opt_views(old_out).push((delta, out@.last().value@)));
        }
        prev = num;
    }
    proof {
        assert(nvs(sorted).subrange(0, sorted.len() as int) =~= nvs(sorted));
    }
    out
}

/// Options already ordered by number are left as they are by the stable sort.
pub proof fn lemma_sorted_fixed(s: Seq<(u32, Seq<u8>)>)
    requires
        sorted_by_number(s),
    ensures
        stable_sorted(s) == s,
    decreases s.len(),
{
    if s.len() > 0 {
        let t = s.drop_last();
        assert(sorted_by_number(t));
        lemma_sorted_fixed(t);
        if t.len() > 0 {
            assert(t.last().0 <= s.last().0);
        }
        assert(t.push(s.last()) =~= s);
    }
}

/// Normalizing the options that a normalized list stands for gives that same delta list back
/// (and normalizing the same options twice gives the same result, since the deltas are a
/// function of the options).
pub proof fn lemma_normalize_idempotent(os: Seq<(u32, Seq<u8>)>, out: Seq<(u16, Seq<u8>)>)
    requires
        is_normalization(os, out),
        numbered(out) == stable_sorted(os),
        out == deltas_of(stable_sorted(os)),
    ensures
        is_normalization(numbered(out), out),
        deltas_of(stable_sorted(numbered(out))) == out,
{
    lemma_sorted_fixed(numbered(out));
}

} // verus!
