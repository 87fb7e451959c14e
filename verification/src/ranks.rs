//! Rank arithmetic of sorted samples: which position holds a percentile,
//! and which positions an evenly spread rendering of them shows.
use vstd::prelude::*;

verus! {

/// The nearest-rank position of percentile `p` (at most 100) among `n`
/// sorted values: the `ceil(n * p / 100)`-th value, and the first for P0.
pub open spec fn nearest_rank(n: nat, p: nat) -> int {
    let q: nat = if p < 100 { p } else { 100 };
    let c = (n * q + 99) / 100;
    if c == 0 { 0 } else { c - 1 }
}

/// Position of percentile `p` among `n` sorted values; `None` when there
/// are none. P0 is the minimum and P100 (or more) the maximum.
pub fn percentile_index(n: usize, p: usize) -> (r: Option<usize>)
    requires
        n <= usize::MAX / 100,
    ensures
        r is None <==> n == 0,
        r matches Some(i) ==> i == nearest_rank(n as nat, p as nat) && i < n,
{
    let q = if p < 100 { p } else { 100 };
    assert(n * q <= n * 100) by (nonlinear_arith) requires q <= 100;
    let scaled = n * q;
    let c = scaled / 100 + if scaled % 100 == 0 { 0 } else { 1 };
    assert(c == (n * q + 99) / 100) by (nonlinear_arith)
        requires scaled == n * q, c == scaled / 100 + if scaled % 100 == 0 { 0int } else { 1int };
    assert(c <= n) by (nonlinear_arith) requires c == (n * q + 99) / 100, q <= 100;
    let i = if c == 0 { 0 } else { c - 1 };
    if i < n { Some(i) } else { None }
}

/// How many values an evenly spread rendering of `n` values shows: all of
/// them, or `limit` but at least two.
pub open spec fn spread_count(n: nat, limit: nat) -> nat {
    let l: nat = if limit < 2 { 2 } else { limit };
    if n < l { n } else { l }
}

/// The `i`-th shown position: both ends and evenly spaced positions between.
pub open spec fn spread_position(n: nat, count: nat, i: nat) -> int {
    if count <= 1 { 0 } else { (i * (n - 1)) / (count - 1) as int }
}

/// The positions an evenly spread rendering of `n` sorted values shows.
pub fn spread_positions(n: usize, limit: usize) -> (r: Vec<usize>)
    requires
        n > 0 ==> (n - 1) * (spread_count(n as nat, limit as nat) - 1) <= usize::MAX,
    ensures
        r@.len() == spread_count(n as nat, limit as nat),
        forall|i: int| 0 <= i < r@.len() ==> r@[i] == spread_position(n as nat, r@.len(), i as nat),
        forall|i: int| 0 <= i < r@.len() ==> r@[i] < n,
{
    let l = if limit < 2 { 2 } else { limit };
    let count = if n < l { n } else { l };
    let mut out: Vec<usize> = Vec::new();
    let mut i: usize = 0;
    while i < count
        invariant
            count == spread_count(n as nat, limit as nat),
            count <= n,
            n > 0 ==> (n - 1) * (count - 1) <= usize::MAX,
            i <= count,
            out@.len() == i,
            forall|k: int| 0 <= k < i ==> out@[k] == spread_position(n as nat, count as nat, k as nat),
            forall|k: int| 0 <= k < i ==> out@[k] < n,
        decreases count - i,
    {
        let pos = if count == 1 {
            0
        } else {
            assert(i * (n - 1) <= (count - 1) * (n - 1)) by (nonlinear_arith) requires i < count, n >= 1;
            assert((count - 1) * (n - 1) == (n - 1) * (count - 1)) by (nonlinear_arith);
            let prod = i * (n - 1);
            let d = count - 1;
            assert(prod as int / d as int <= n - 1) by (nonlinear_arith)
                requires prod == i * (n - 1), i <= d, d >= 1, n >= 1;
            prod / (count - 1)
        };
        out.push(pos);
        i += 1;
    }
    out
}

} // verus!
