//! The price session: nine-byte records that insert a timestamped price or
//! ask for the mean price over a time range.
use vstd::prelude::*;
use vstd::arithmetic::div_mod::{lemma_div_by_multiple, lemma_div_is_ordered};

verus! {

/// The kind byte of a record that inserts a price: ASCII `I`.
pub const INSERT: u8 = 73;

/// The kind byte of a record that asks for a mean: ASCII `Q`.
pub const QUERY: u8 = 81;

/// One record: its kind byte `c`, then two big-endian signed integers.
#[derive(Debug, Clone, Copy, PartialEq, Eq, Structural)]
pub struct Msg {
    pub c: u8,
    pub a: i32,
    pub b: i32,
}

/// The signed 32-bit integer whose big-endian two's-complement bytes are
/// `b0 b1 b2 b3`.
pub open spec fn be_i32(b0: u8, b1: u8, b2: u8, b3: u8) -> int {
    let u = b0 as int * 0x1000000 + b1 as int * 0x10000 + b2 as int * 0x100 + b3 as int;
    if u >= 0x80000000 {
        u - 0x100000000
    } else {
        u
    }
}

fn read_be_i32(b0: u8, b1: u8, b2: u8, b3: u8) -> (r: i32)
    ensures
        r as int == be_i32(b0, b1, b2, b3),
{
    let u: u32 = (b0 as u32) * 0x1000000 + (b1 as u32) * 0x10000 + (b2 as u32) * 0x100
        + (b3 as u32);
    if u >= 0x80000000 {
        ((u - 0x80000000) as i32) + i32::MIN
    } else {
        u as i32
    }
}

/// Decodes a record: the kind byte, then `a` and `b` in big-endian order.
pub fn parse_msg(buf: &[u8; 9]) -> (r: Msg)
    ensures
        r.c == buf@[0],
        r.a as int == be_i32(buf@[1], buf@[2], buf@[3], buf@[4]),
        r.b as int == be_i32(buf@[5], buf@[6], buf@[7], buf@[8]),
{
    let c = buf[0];
    let a = read_be_i32(buf[1], buf[2], buf[3], buf[4]);
    let b = read_be_i32(buf[5], buf[6], buf[7], buf[8]);
    Msg { c, a, b }
}

/// The sum of the prices in `s` whose time lies in `[lo, hi]`.
pub open spec fn range_sum(s: Seq<(i32, i32)>, lo: int, hi: int) -> int
    decreases s.len(),
{
    if s.len() == 0 {
        0
    } else {
        range_sum(s.drop_last(), lo, hi) + if lo <= s.last().0 <= hi {
            s.last().1 as int
        } else {
            0
        }
    }
}

/// How many prices in `s` have their time in `[lo, hi]`.
pub open spec fn range_count(s: Seq<(i32, i32)>, lo: int, hi: int) -> int
    decreases s.len(),
{
    if s.len() == 0 {
        0
    } else {
        range_count(s.drop_last(), lo, hi) + if lo <= s.last().0 <= hi {
            1int
        } else {
            0
        }
    }
}

/// Integer division that rounds toward zero, for a positive divisor.
pub open spec fn div_toward_zero(x: int, d: int) -> int {
    if x >= 0 {
        x / d
    } else {
        -((-x) / d)
    }
}

/// The answer to a query over `[lo, hi]`: 0 for an empty or reversed range,
/// else the mean price rounded toward zero.
pub open spec fn mean_price(s: Seq<(i32, i32)>, lo: int, hi: int) -> int {
    if lo > hi || range_count(s, lo, hi) == 0 {
        0
    } else {
        div_toward_zero(range_sum(s, lo, hi), range_count(s, lo, hi))
    }
}

/// Some entry of `s` has time `t`.
pub open spec fn has_time(s: Seq<(i32, i32)>, t: i32) -> bool {
    exists|i: int| 0 <= i < s.len() && (#[trigger] s[i]).0 == t
}

/// Each time occurs at most once in `s`.
pub open spec fn times_unique(s: Seq<(i32, i32)>) -> bool {
    forall|i: int, j: int|
        0 <= i < s.len() && 0 <= j < s.len() && i != j ==> (#[trigger] s[i]).0 != (#[trigger] s[j]).0
}

/// The price recorded for time `t`.
pub open spec fn price_at(s: Seq<(i32, i32)>, t: i32) -> i32 {
    s[choose|i: int| 0 <= i < s.len() && (#[trigger] s[i]).0 == t].1
}

/// The prices of one session, at most one per time.
pub struct SessionHandler {
    time_price_map: Vec<(i32, i32)>,
}

impl Default for SessionHandler {
    /// An empty session.
    fn default() -> (r: SessionHandler)
        ensures
            r.wf(),
            r.view() == Seq::<(i32, i32)>::empty(),
    {
        SessionHandler::new()
    }
}

proof fn lemma_range_bounds(s: Seq<(i32, i32)>, lo: int, hi: int)
    ensures
        0 <= range_count(s, lo, hi) <= s.len(),
        -0x80000000 * range_count(s, lo, hi) <= range_sum(s, lo, hi),
        range_sum(s, lo, hi) <= 0x7fffffff * range_count(s, lo, hi),
    decreases s.len(),
{
    if s.len() > 0 {
        lemma_range_bounds(s.drop_last(), lo, hi);
    }
}

impl SessionHandler {
    /// The recorded (time, price) pairs.
    pub closed spec fn view(&self) -> Seq<(i32, i32)> {
        self.time_price_map@
    }

    /// At most one price per time.
    pub closed spec fn wf(&self) -> bool {
        times_unique(self.time_price_map@)
    }

    /// An empty session.
    pub fn new() -> (r: SessionHandler)
        ensures
            r.wf(),
            r.view() == Seq::<(i32, i32)>::empty(),
    {
        SessionHandler { time_price_map: Vec::new() }
    }

    /// Records `price` at time `t`, replacing an earlier price at that time.
    fn insert(&mut self, t: i32, price: i32)
        requires
            old(self).wf(),
        ensures
            final(self).wf(),
            forall|u: i32| has_time(final(self).view(), u) == (has_time(old(self).view(), u) || u == t),
            price_at(final(self).view(), t) == price,
            forall|u: i32| u != t && has_time(old(self).view(), u) ==> price_at(final(self).view(), u) == price_at(old(self).view(), u),
    {
        let ghost s0 = self.time_price_map@;
        let mut i: usize = 0;
        while i < self.time_price_map.len()
            invariant
                self.time_price_map@ == s0,
                old(self).time_price_map@ == s0,
                times_unique(s0),
                forall|j: int| 0 <= j < i ==> (#[trigger] s0[j]).0 != t,
            decreases self.time_price_map.len() - i,
        {
            if self.time_price_map[i].0 == t {
                self.time_price_map.set(i, (t, price));
                proof {
                    let s1 = self.time_price_map@;
                    assert forall|u: i32| has_time(s1, u) == (has_time(s0, u) || u == t) by {
                        if has_time(s0, u) {
                            let j = choose|j: int| 0 <= j < s0.len() && (#[trigger] s0[j]).0 == u;
                            assert(s1[j].0 == u);
                        }
                        if u == t {
                            assert(s1[i as int].0 == u);
                        }
                        if has_time(s1, u) {
                            let j = choose|j: int| 0 <= j < s1.len() && (#[trigger] s1[j]).0 == u;
                            assert(s0[j].0 == u || j == i);
                        }
                    }
                    assert(s1[i as int].0 == t);
                    assert forall|u: i32| u != t && has_time(s0, u) implies price_at(s1, u) == price_at(s0, u) by {
                        let j = choose|j: int| 0 <= j < s0.len() && (#[trigger] s0[j]).0 == u;
                        assert(s1[j].0 == u);
                    }
                }
                return;
            }
            i = i + 1;
        }
        self.time_price_map.push((t, price));
        proof {
            let s1 = self.time_price_map@;
            assert(s1[s0.len() as int].0 == t);
            assert forall|u: i32| has_time(s1, u) == (has_time(s0, u) || u == t) by {
                if has_time(s0, u) {
                    let j = choose|j: int| 0 <= j < s0.len() && (#[trigger] s0[j]).0 == u;
                    assert(s1[j].0 == u);
                }
                if has_time(s1, u) {
                    let j = choose|j: int| 0 <= j < s1.len() && (#[trigger] s1[j]).0 == u;
                    assert(j < s0.len() ==> s0[j].0 == u);
                }
            }
            assert forall|u: i32| u != t && has_time(s0, u) implies price_at(s1, u) == price_at(s0, u) by {
                let j = choose|j: int| 0 <= j < s0.len() && (#[trigger] s0[j]).0 == u;
                assert(s1[j].0 == u);
            }
        }
    }

    /// The mean price over `[lo, hi]`, rounded toward zero; 0 where the range
    /// is reversed or holds no price.
    fn mean(&self, lo: i32, hi: i32) -> (r: i32)
        ensures
            r as int == mean_price(self.view(), lo as int, hi as int),
    {
        if lo > hi {
            return 0;
        }
        let ghost s = self.time_price_map@;
        let mut count: u64 = 0;
        let mut sum: i128 = 0;
        let mut i: usize = 0;
        while i < self.time_price_map.len()
            invariant
                s == self.time_price_map@,
                i <= s.len(),
                count as int == range_count(s.subrange(0, i as int), lo as int, hi as int),
                sum as int == range_sum(s.subrange(0, i as int), lo as int, hi as int),
                count <= i,
                -0x80000000 * count <= sum <= 0x7fffffff * count,
            decreases s.len() - i,
        {
            proof {
                assert(s.subrange(0, i + 1).drop_last() =~= s.subrange(0, i as int));
            }
            let (t, p) = self.time_price_map[i];
            if lo <= t && t <= hi {
                count = count + 1;
                sum = sum + p as i128;
            }
            i = i + 1;
        }
        proof {
            assert(s.subrange(0, s.len() as int) =~= s);
        }
        if count == 0 {
            return 0;
        }
        let c: i128 = count as i128;
        if sum >= 0 {
            proof {
                lemma_div_is_ordered(sum as int, 0x7fffffff * count, c as int);
                lemma_div_by_multiple(0x7fffffff, c as int);
            }
            (sum / c) as i32
        } else {
            proof {
                lemma_div_is_ordered(-sum as int, 0x80000000 * count, c as int);
                lemma_div_by_multiple(0x80000000, c as int);
            }
            let q: i128 = (-sum) / c;
            (-q) as i32
        }
    }

    /// Handles one record: `I` records price `b` at time `a` and answers
    /// nothing; `Q` answers the mean price over `[a, b]`; any other kind is
    /// ignored.
    pub fn handle_msg(&mut self, msg: Msg) -> (r: Option<i32>)
        requires
            old(self).wf(),
        ensures
            final(self).wf(),
            msg.c == INSERT ==> r is None && (forall|u: i32| has_time(final(self).view(), u) == (has_time(old(self).view(), u) || u == msg.a))
                && price_at(final(self).view(), msg.a) == msg.b
                && (forall|u: i32| u != msg.a && has_time(old(self).view(), u) ==> price_at(final(self).view(), u) == price_at(old(self).view(), u)),
            msg.c == QUERY ==> final(self).view() == old(self).view() && r == Some(mean_price(old(self).view(), msg.a as int, msg.b as int) as i32),
            msg.c != INSERT && msg.c != QUERY ==> final(self).view() == old(self).view() && r is None,
    {
        if msg.c == INSERT {
            self.insert(msg.a, msg.b);
            None
        } else if msg.c == QUERY {
            Some(self.mean(msg.a, msg.b))
        } else {
            None
        }
    }
}

} // verus!
