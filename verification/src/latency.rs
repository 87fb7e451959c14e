//! Power-of-two latency histogram buckets and the ranges they select.
use vstd::prelude::*;
use crate::text::{decimal, push_decimal, push_str, string_from_chars};
use vstd::arithmetic::power2::{pow2, lemma2_to64, lemma2_to64_rest, lemma_pow2_strictly_increases, lemma_pow2_unfold};

verus! {

/// Bucket `b` holds latencies in `[2^b, 2^(b+1))`; bucket 0 also holds 0 ns.
pub open spec fn in_bucket(ns: u64, b: nat) -> bool {
    let v = if ns == 0 { 1nat } else { ns as nat };
    pow2(b) <= v < pow2(b + 1)
}

pub fn latency_bucket(ns: u64) -> (b: u32)
    ensures
        b <= 63,
        in_bucket(ns, b as nat),
{
    let v: u64 = if ns == 0 { 1 } else { ns };
    let mut b: u32 = 0;
    let mut p: u64 = 1;
    proof { lemma2_to64(); lemma2_to64_rest(); }
    while b < 63 && p * 2 <= v
        invariant
            b <= 63,
            p == pow2(b as nat),
            p <= v,
            v >= 1,
            p <= 0x8000_0000_0000_0000u64,
            b < 63 ==> p <= 0x4000_0000_0000_0000u64,
        decreases 63 - b,
    {
        proof { lemma_pow2_unfold((b + 1) as nat); }
        p = p * 2;
        b = b + 1;
        proof {
            lemma2_to64_rest();
            if b < 62 {
                lemma_pow2_strictly_increases(b as nat, 62);
            }
        }
    }
    proof {
        lemma_pow2_unfold((b + 1) as nat);
        if b == 63 {
            assert(pow2(64) == 0x1_0000_0000_0000_0000nat);
        }
    }
    b
}

} // verus!

verus! {

/// A contiguous run of latency buckets: `[min_ns, max_exclusive_ns)`, open
/// ended when the last bucket is 63.
#[derive(Debug, Clone, Copy, PartialEq, Eq)]
pub struct LatencyRange {
    pub min_ns: u64,
    pub max_exclusive_ns: Option<u64>,
}

/// Lower edge of bucket `first`; bucket 0 starts at 0 ns.
pub open spec fn bucket_floor(first: nat) -> nat {
    if first == 0 { 0 } else { pow2(first) }
}

/// Exclusive upper edge after bucket `last`, absent when it does not fit in 64 bits.
pub open spec fn bucket_ceiling(last: nat) -> Option<u64> {
    if last + 1 < 64 { Some(pow2(last + 1) as u64) } else { None }
}

pub open spec fn range_contains(r: LatencyRange, latency: Option<u64>) -> bool {
    match latency {
        None => false,
        Some(ns) => ns >= r.min_ns && match r.max_exclusive_ns {
            None => true,
            Some(end) => ns < end,
        },
    }
}

pub open spec fn range_label(r: LatencyRange) -> Seq<char> {
    match r.max_exclusive_ns {
        None => "≥ "@ + decimal(r.min_ns as nat) + " ns"@,
        Some(end) => "["@ + decimal(r.min_ns as nat) + ", "@ + decimal(end as nat) + ") ns"@,
    }
}

proof fn lemma_pow2_u64(e: nat)
    requires e < 64,
    ensures pow2(e) < 0x1_0000_0000_0000_0000nat, pow2(e) >= 1,
{
    lemma2_to64();
    lemma2_to64_rest();
    if e < 63 {
        lemma_pow2_strictly_increases(e, 63);
    }
    vstd::arithmetic::power2::lemma_pow2_pos(e);
}

fn pow2_u64(e: u32) -> (p: u64)
    requires e < 64,
    ensures p == pow2(e as nat),
{
    let mut p: u64 = 1;
    let mut i: u32 = 0;
    proof { lemma2_to64(); }
    while i < e
        invariant
            i <= e < 64,
            p == pow2(i as nat),
        decreases e - i,
    {
        proof {
            lemma_pow2_unfold((i + 1) as nat);
            lemma_pow2_u64((i + 1) as nat);
        }
        p = p * 2;
        i = i + 1;
    }
    p
}

impl LatencyRange {
    /// Buckets `first..=last`; `None` when the run is reversed or leaves 0..=63.
    pub fn from_buckets(first: u32, last: u32) -> (r: Option<LatencyRange>)
        ensures
            r is None <==> (first > last || last > 63),
            r matches Some(range) ==> range.min_ns == bucket_floor(first as nat)
                && range.max_exclusive_ns == bucket_ceiling(last as nat),
    {
        if first > last || last > 63 {
            return None;
        }
        let min_ns: u64 = if first == 0 { 0 } else { pow2_u64(first) };
        let max_exclusive_ns = if last + 1 < 64 { Some(pow2_u64(last + 1)) } else { None };
        Some(LatencyRange { min_ns, max_exclusive_ns })
    }

    /// Whether a measured latency falls in the range; unknown latency never does.
    pub fn contains(self, latency: Option<u64>) -> (b: bool)
        ensures
            b == range_contains(self, latency),
    {
        match latency {
            None => false,
            Some(ns) => ns >= self.min_ns && match self.max_exclusive_ns {
                None => true,
                Some(end) => ns < end,
            },
        }
    }

    /// Human-readable interval, e.g. `[2, 16) ns` or `≥ 8 ns`.
    pub fn label(self) -> (s: String)
        ensures
            s@ == range_label(self),
    {
        let mut out: Vec<char> = Vec::new();
        match self.max_exclusive_ns {
            None => {
                push_str(&mut out, "≥ ");
                push_decimal(&mut out, self.min_ns);
                push_str(&mut out, " ns");
            }
            Some(end) => {
                push_str(&mut out, "[");
                push_decimal(&mut out, self.min_ns);
                push_str(&mut out, ", ");
                push_decimal(&mut out, end);
                push_str(&mut out, ") ns");
            }
        }
        string_from_chars(out.as_slice())
    }
}

proof fn lemma_pow2_le(a: nat, b: nat)
    requires
        a <= b,
    ensures
        pow2(a) <= pow2(b),
{
    if a < b {
        lemma_pow2_strictly_increases(a, b);
    }
}

/// A range built from buckets `first..=last` holds exactly the latencies
/// whose bucket lies in `first..=last`; an unknown latency is never held.
pub proof fn law_range_selects_its_buckets(first: nat, last: nat, ns: u64, b: nat)
    requires
        first <= last <= 63,
        b <= 63,
        in_bucket(ns, b),
    ensures
        range_contains(LatencyRange { min_ns: bucket_floor(first) as u64, max_exclusive_ns: bucket_ceiling(last) }, Some(ns))
            <==> (first <= b && b <= last),
        !range_contains(LatencyRange { min_ns: bucket_floor(first) as u64, max_exclusive_ns: bucket_ceiling(last) }, None),
{
    lemma2_to64();
    lemma_pow2_u64(first);
    lemma_pow2_u64(b);
    if b > 0 {
        lemma_pow2_strictly_increases(0, b);
    }
    if first > 0 {
        lemma_pow2_strictly_increases(0, first);
    }
    if last < 63 {
        lemma_pow2_u64(last + 1);
    }
    if b < first {
        lemma_pow2_le(b + 1, first);
    }
    if first <= b {
        lemma_pow2_le(first, b);
    }
    if b <= last {
        lemma_pow2_le(b + 1, last + 1);
    }
    if last < b {
        lemma_pow2_le(last + 1, b);
    }
    vstd::arithmetic::power2::lemma_pow2_pos(b);
}

} // verus!
