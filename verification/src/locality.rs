//! Reuse of start addresses: for every read or write of a device, how long
//! after the previous request of the same direction at the same start
//! sector it was issued. Requests are taken in issue-time order, those
//! without an issue time first, ties in the order they were recorded.
use vstd::prelude::*;

verus! {

/// A read or write of one device as the locality summary reads it.
#[derive(Debug, Clone, Copy, PartialEq, Eq)]
pub struct LocalityRow {
    pub sector: u64,
    pub bytes: u64,
    pub write: bool,
    pub issue_ts_ns: Option<u64>,
}

/// Row `j` has an issue time and comes before row `i` (issued at `t`) in
/// issue order, on the same sector and in the same direction.
pub open spec fn earlier_same_address(rows: Seq<LocalityRow>, j: int, i: int, t: u64) -> bool {
    &&& 0 <= j < rows.len()
    &&& rows[j].sector == rows[i].sector
    &&& rows[j].write == rows[i].write
    &&& rows[j].issue_ts_ns matches Some(u) && (u < t || (u == t && j < i))
}

/// `u` is the issue time of the latest request before row `i` (issued at
/// `t`) at the same address and direction.
pub open spec fn latest_earlier(rows: Seq<LocalityRow>, i: int, t: u64, u: int) -> bool {
    &&& exists|j: int| #[trigger] earlier_same_address(rows, j, i, t) && rows[j].issue_ts_ns == Some(u as u64)
    &&& forall|k: int| #[trigger] earlier_same_address(rows, k, i, t) ==> rows[k].issue_ts_ns->0 <= u
}

/// The gap of a row: none without an issue time or an earlier request at
/// its address and direction, else its issue time minus the latest such
/// request's.
pub open spec fn gap_of(rows: Seq<LocalityRow>, i: int, g: Option<u64>) -> bool {
    match rows[i].issue_ts_ns {
        None => g is None,
        Some(t) => match g {
            None => forall|j: int| !#[trigger] earlier_same_address(rows, j, i, t),
            Some(d) => d <= t && latest_earlier(rows, i, t, t - d),
        },
    }
}

/// The reuse gap of every row, in row order.
pub fn reuse_gaps(rows: &[LocalityRow]) -> (r: Vec<Option<u64>>)
    ensures
        r@.len() == rows@.len(),
        forall|i: int| 0 <= i < rows@.len() ==> #[trigger] gap_of(rows@, i, r@[i]),
{
    let mut out: Vec<Option<u64>> = Vec::new();
    let mut i: usize = 0;
    while i < rows.len()
        invariant
            i <= rows@.len(),
            out@.len() == i,
            forall|p: int| 0 <= p < i ==> #[trigger] gap_of(rows@, p, out@[p]),
        decreases rows.len() - i,
    {
        let gap = match rows[i].issue_ts_ns {
            None => None,
            Some(t) => {
                let mut best: Option<u64> = None;
                let mut j: usize = 0;
                while j < rows.len()
                    invariant
                        i < rows@.len(),
                        j <= rows@.len(),
                        rows@[i as int].issue_ts_ns == Some(t),
                        match best {
                            None => forall|k: int| 0 <= k < j ==> !#[trigger] earlier_same_address(rows@, k, i as int, t),
                            Some(u) => u <= t && (exists|k: int| 0 <= k < j && #[trigger] earlier_same_address(rows@, k, i as int, t)
                                && rows@[k].issue_ts_ns == Some(u))
                                && forall|k: int| 0 <= k < j && #[trigger] earlier_same_address(rows@, k, i as int, t)
                                    ==> rows@[k].issue_ts_ns->0 <= u,
                        },
                    decreases rows.len() - j,
                {
                    let r = rows[j];
                    let earlier = match r.issue_ts_ns {
                        Some(u) => r.sector == rows[i].sector && r.write == rows[i].write && (u < t || (u == t && j < i)),
                        None => false,
                    };
                    assert(earlier == earlier_same_address(rows@, j as int, i as int, t));
                    if earlier {
                        if let Some(u) = r.issue_ts_ns {
                            best = match best {
                                Some(b) => if u > b { Some(u) } else { Some(b) },
                                None => Some(u),
                            };
                        }
                    }
                    j += 1;
                }
                match best {
                    None => None,
                    Some(u) => Some(t - u),
                }
            },
        };
        let ghost before = out@;
        out.push(gap);
        proof {
            assert(out@[i as int] == gap);
            assert(gap_of(rows@, i as int, gap));
            assert forall|p: int| 0 <= p < i implies out@[p] == before[p] by {}
        }
        i += 1;
    }
    out
}

} // verus!
