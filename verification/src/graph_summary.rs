//! Address overlap summary: for each device, the sector runs that one or
//! more read or write requests covered, with how many of each covered every
//! sector of the run. Reads and writes are counted independently and devices
//! are never mixed.
use vstd::prelude::*;
use crate::host_bw::{Device, IoOperation};

verus! {

/// One run of sectors `[start_sector, end_sector)` of a device, every sector
/// of which was covered by `reads` read and `writes` write requests.
#[derive(Debug, Clone, Copy, PartialEq, Eq)]
pub struct AddressCount {
    pub device: Device,
    pub start_sector: u64,
    pub end_sector: u64,
    pub reads: u64,
    pub writes: u64,
}

pub open spec fn sat_sum(a: u64, b: u64) -> int {
    if a + b > u64::MAX { u64::MAX as int } else { a + b }
}

impl AddressCount {
    /// More than one request covered the run.
    pub fn repeated(&self) -> (r: bool)
        ensures
            r == (sat_sum(self.reads, self.writes) > 1),
    {
        self.reads.saturating_add(self.writes) > 1
    }
}

/// A recorded request: device, first sector, end sector, and whether it
/// wrote.
pub type AddressRequest = (Device, u64, u64, bool);

pub open spec fn covers_sector(r: AddressRequest, d: Device, x: int) -> bool {
    r.0 == d && r.1 <= x < r.2
}

/// Read requests of `d` covering sector `x`.
pub open spec fn reads_at(reqs: Seq<AddressRequest>, d: Device, x: int) -> nat
    decreases reqs.len(),
{
    if reqs.len() == 0 {
        0
    } else {
        reads_at(reqs.drop_last(), d, x) + (if covers_sector(reqs.last(), d, x) && !reqs.last().3 { 1nat } else { 0nat })
    }
}

/// Write requests of `d` covering sector `x`.
pub open spec fn writes_at(reqs: Seq<AddressRequest>, d: Device, x: int) -> nat
    decreases reqs.len(),
{
    if reqs.len() == 0 {
        0
    } else {
        writes_at(reqs.drop_last(), d, x) + (if covers_sector(reqs.last(), d, x) && reqs.last().3 { 1nat } else { 0nat })
    }
}

pub open spec fn busy_at(reqs: Seq<AddressRequest>, d: Device, x: int) -> bool {
    reads_at(reqs, d, x) > 0 || writes_at(reqs, d, x) > 0
}

pub open spec fn has_counts(reqs: Seq<AddressRequest>, d: Device, x: int, reads: u64, writes: u64) -> bool {
    reads_at(reqs, d, x) == reads && writes_at(reqs, d, x) == writes
}

/// A maximal run: non-empty, covered, with the same counts on every sector,
/// and different counts just before and just after it.
pub open spec fn maximal_run(reqs: Seq<AddressRequest>, row: AddressCount) -> bool {
    &&& row.start_sector < row.end_sector
    &&& (row.reads > 0 || row.writes > 0)
    &&& forall|x: int| row.start_sector <= x < row.end_sector ==> #[trigger] has_counts(reqs, row.device, x, row.reads, row.writes)
    &&& (row.start_sector == 0 || !has_counts(reqs, row.device, row.start_sector - 1, row.reads, row.writes))
    &&& !has_counts(reqs, row.device, row.end_sector as int, row.reads, row.writes)
}

/// Devices in (major, minor) order.
pub open spec fn device_key(d: Device) -> int {
    d.0 * 0x1_0000_0000 + d.1
}

/// Rows by device, then by sector, never overlapping.
pub open spec fn rows_ordered(rows: Seq<AddressCount>) -> bool {
    forall|i: int, j: int| 0 <= i < j < rows.len() ==> device_key((#[trigger] rows[i]).device) < device_key((#[trigger] rows[j]).device)
        || (rows[i].device == rows[j].device && rows[i].end_sector <= rows[j].start_sector)
}

pub open spec fn row_holds(row: AddressCount, d: Device, x: int) -> bool {
    row.device == d && row.start_sector <= x < row.end_sector
}

/// Every covered sector lies in a row.
pub open spec fn rows_cover(reqs: Seq<AddressRequest>, rows: Seq<AddressCount>) -> bool {
    forall|d: Device, x: int| #[trigger] busy_at(reqs, d, x) ==> exists|i: int| 0 <= i < rows.len() && #[trigger] row_holds(rows[i], d, x)
}

/// Read and write requests, kept for the overlap summary.
#[derive(Debug)]
pub struct AddressAccumulator {
    requests: Vec<AddressRequest>,
    unknown_or_empty: usize,
}

impl AddressAccumulator {
    /// The recorded requests.
    pub closed spec fn requests(&self) -> Seq<AddressRequest> {
        self.requests@
    }

    /// Reads and writes whose extent was empty or unknown.
    pub closed spec fn unknown(&self) -> usize {
        self.unknown_or_empty
    }

    pub fn unknown_or_empty(&self) -> (r: usize)
        ensures
            r == self.unknown(),
    {
        self.unknown_or_empty
    }

    #[verifier::type_invariant]
    spec fn well_formed(self) -> bool {
        forall|i: int| 0 <= i < self.requests@.len() ==> (#[trigger] self.requests@[i]).1 < self.requests@[i].2
    }

    pub fn new() -> (a: Self)
        ensures
            a.requests().len() == 0,
            a.unknown() == 0,
    {
        AddressAccumulator { requests: Vec::new(), unknown_or_empty: 0 }
    }

    /// Records a read or write of `sectors` sectors from `sector`; other
    /// operations are ignored, and an empty or wrapped extent is counted as
    /// unknown. The issue's own sector count is the only extent used.
    pub fn observe(&mut self, device: Device, operation: IoOperation, sector: u64, sectors: u32)
        requires
            old(self).unknown() < usize::MAX,
        ensures
            ({
                let end = if sector + sectors > u64::MAX { u64::MAX as int } else { sector + sectors };
                if operation != IoOperation::Read && operation != IoOperation::Write {
                    final(self).requests() == old(self).requests() && final(self).unknown() == old(self).unknown()
                } else if end <= sector {
                    final(self).requests() == old(self).requests() && final(self).unknown() == old(self).unknown() + 1
                } else {
                    final(self).requests() == old(self).requests().push((device, sector, end as u64, operation == IoOperation::Write))
                        && final(self).unknown() == old(self).unknown()
                }
            }),
    {
        proof { use_type_invariant(&*self); }
        let write = match operation {
            IoOperation::Read => false,
            IoOperation::Write => true,
            _ => return,
        };
        let end = sector.saturating_add(sectors as u64);
        if end <= sector {
            self.unknown_or_empty = self.unknown_or_empty + 1;
            return;
        }
        let mut reqs: Vec<AddressRequest> = Vec::new();
        std::mem::swap(&mut reqs, &mut self.requests);
        reqs.push((device, sector, end, write));
        self.requests = reqs;
    }

    /// The overlap summary: the maximal runs of sectors that share their
    /// read and write counts, for every device in (major, minor) order and
    /// by sector within a device; sectors no request covered have no row.
    pub fn finish(self) -> (rows: Vec<AddressCount>)
        ensures
            forall|i: int| 0 <= i < rows@.len() ==> #[trigger] maximal_run(self.requests(), rows@[i]),
            rows_ordered(rows@),
            rows_cover(self.requests(), rows@),
    {
        let reqs = self.requests;
        let mut rows: Vec<AddressCount> = Vec::new();
        let mut after: Option<Device> = None;
        proof { lemma_count_upto_mono(reqs@, -1, -1); }
        loop
            invariant
                rows_done(reqs@, lower(after), rows@),
                count_upto(reqs@, lower(after)) <= reqs@.len(),
            ensures
                rows_done(reqs@, lower(after), rows@),
                forall|i: int| 0 <= i < reqs@.len() ==> device_key((#[trigger] reqs@[i]).0) <= lower(after),
            decreases reqs@.len() - count_upto(reqs@, lower(after)),
        {
            match next_device(&reqs, after) {
                None => break,
                Some((d, k)) => {
                    device_rows(&reqs, d, k, &mut rows, Ghost(lower(after)));
                    proof {
                        lemma_count_upto_grows(reqs@, lower(after), device_key(d), k as int);
                        lemma_count_upto_mono(reqs@, device_key(d), device_key(d));
                    }
                    after = Some(d);
                },
            }
        }
        proof {
            assert forall|d: Device, x: int| #[trigger] busy_at(reqs@, d, x) implies
                exists|i: int| 0 <= i < rows@.len() && #[trigger] row_holds(rows@[i], d, x) by {
                lemma_busy_has_request(reqs@, d, x);
                let j = choose|j: int| 0 <= j < reqs@.len() && (#[trigger] reqs@[j]).0 == d;
                assert(device_key(reqs@[j].0) <= lower(after));
            }
        }
        rows
    }
}

proof fn lemma_counts_bound(reqs: Seq<AddressRequest>, d: Device, x: int)
    ensures
        reads_at(reqs, d, x) <= reqs.len(),
        writes_at(reqs, d, x) <= reqs.len(),
    decreases reqs.len(),
{
    if reqs.len() > 0 {
        lemma_counts_bound(reqs.drop_last(), d, x);
    }
}

/// Counts are constant between consecutive boundaries of a device: no
/// request of `d` starts or ends strictly inside `(b, nb)`.
proof fn lemma_segment_constant(reqs: Seq<AddressRequest>, d: Device, b: int, nb: int, x: int)
    requires
        b <= x < nb,
        forall|i: int| 0 <= i < reqs.len() && (#[trigger] reqs[i]).0 == d ==>
            !(b < reqs[i].1 < nb) && !(b < reqs[i].2 < nb),
    ensures
        reads_at(reqs, d, x) == reads_at(reqs, d, b),
        writes_at(reqs, d, x) == writes_at(reqs, d, b),
    decreases reqs.len(),
{
    if reqs.len() > 0 {
        let init = reqs.drop_last();
        assert forall|i: int| 0 <= i < init.len() && (#[trigger] init[i]).0 == d implies
            !(b < init[i].1 < nb) && !(b < init[i].2 < nb) by {
            assert(init[i] == reqs[i]);
        }
        lemma_segment_constant(init, d, b, nb, x);
        let r = reqs.last();
        assert(r == reqs[reqs.len() - 1]);
    }
}

/// No request of `d` covers a sector outside all of its extents.
proof fn lemma_outside_idle(reqs: Seq<AddressRequest>, d: Device, x: int)
    requires
        forall|i: int| 0 <= i < reqs.len() && (#[trigger] reqs[i]).0 == d ==> !(reqs[i].1 <= x < reqs[i].2),
    ensures
        reads_at(reqs, d, x) == 0,
        writes_at(reqs, d, x) == 0,
    decreases reqs.len(),
{
    if reqs.len() > 0 {
        let init = reqs.drop_last();
        assert forall|i: int| 0 <= i < init.len() && (#[trigger] init[i]).0 == d implies !(init[i].1 <= x < init[i].2) by {
            assert(init[i] == reqs[i]);
        }
        lemma_outside_idle(init, d, x);
        assert(reqs.last() == reqs[reqs.len() - 1]);
    }
}

/// The read and write requests of `d` covering sector `x`.
fn counts_at(reqs: &Vec<AddressRequest>, d: Device, x: u64) -> (r: (u64, u64))
    ensures
        r.0 == reads_at(reqs@, d, x as int),
        r.1 == writes_at(reqs@, d, x as int),
{
    let mut reads: u64 = 0;
    let mut writes: u64 = 0;
    let mut i: usize = 0;
    while i < reqs.len()
        invariant
            i <= reqs@.len(),
            reads == reads_at(reqs@.take(i as int), d, x as int),
            writes == writes_at(reqs@.take(i as int), d, x as int),
        decreases reqs.len() - i,
    {
        let r = reqs[i];
        proof {
            let t = reqs@.take(i + 1);
            assert(t.drop_last() == reqs@.take(i as int));
            assert(t.last() == r);
            lemma_counts_bound(reqs@.take(i as int), d, x as int);
        }
        if r.0.0 == d.0 && r.0.1 == d.1 && r.1 <= x && x < r.2 {
            if r.3 {
                writes = writes + 1;
            } else {
                reads = reads + 1;
            }
        }
        i += 1;
    }
    proof { assert(reqs@.take(reqs@.len() as int) == reqs@); }
    (reads, writes)
}

/// The smallest start of a request of `d`, which one exists at `k`.
fn first_boundary(reqs: &Vec<AddressRequest>, d: Device, k: usize) -> (b: u64)
    requires
        k < reqs@.len(),
        reqs@[k as int].0 == d,
    ensures
        forall|i: int| 0 <= i < reqs@.len() && (#[trigger] reqs@[i]).0 == d ==> b <= reqs@[i].1,
        exists|i: int| 0 <= i < reqs@.len() && (#[trigger] reqs@[i]).0 == d && reqs@[i].1 == b,
{
    let mut b = reqs[k].1;
    let mut i: usize = 0;
    while i < reqs.len()
        invariant
            i <= reqs@.len(),
            k < reqs@.len(),
            reqs@[k as int].0 == d,
            forall|j: int| 0 <= j < i && (#[trigger] reqs@[j]).0 == d ==> b <= reqs@[j].1,
            exists|j: int| 0 <= j < reqs@.len() && (#[trigger] reqs@[j]).0 == d && reqs@[j].1 == b,
        decreases reqs.len() - i,
    {
        let r = reqs[i];
        if r.0.0 == d.0 && r.0.1 == d.1 && r.1 < b {
            b = r.1;
        }
        i += 1;
    }
    b
}

/// The smallest start or end of a request of `d` above `b`, if any.
fn next_boundary(reqs: &Vec<AddressRequest>, d: Device, b: u64) -> (r: Option<u64>)
    ensures
        match r {
            Some(nb) => b < nb && forall|i: int| 0 <= i < reqs@.len() && (#[trigger] reqs@[i]).0 == d ==>
                !(b < reqs@[i].1 < nb) && !(b < reqs@[i].2 < nb),
            None => forall|i: int| 0 <= i < reqs@.len() && (#[trigger] reqs@[i]).0 == d ==>
                reqs@[i].1 <= b && reqs@[i].2 <= b,
        },
{
    let mut best: Option<u64> = None;
    let mut i: usize = 0;
    while i < reqs.len()
        invariant
            i <= reqs@.len(),
            match best {
                Some(nb) => b < nb && forall|j: int| 0 <= j < i && (#[trigger] reqs@[j]).0 == d ==>
                    !(b < reqs@[j].1 < nb) && !(b < reqs@[j].2 < nb),
                None => forall|j: int| 0 <= j < i && (#[trigger] reqs@[j]).0 == d ==>
                    reqs@[j].1 <= b && reqs@[j].2 <= b,
            },
        decreases reqs.len() - i,
    {
        let r = reqs[i];
        if r.0.0 == d.0 && r.0.1 == d.1 {
            if r.1 > b {
                best = match best {
                    Some(nb) => if r.1 < nb { Some(r.1) } else { Some(nb) },
                    None => Some(r.1),
                };
            }
            if r.2 > b {
                best = match best {
                    Some(nb) => if r.2 < nb { Some(r.2) } else { Some(nb) },
                    None => Some(r.2),
                };
            }
        }
        i += 1;
    }
    assert(i == reqs@.len());
    best
}

impl Default for AddressAccumulator {
    fn default() -> (a: Self)
        ensures
            a.requests().len() == 0,
            a.unknown() == 0,
    {
        AddressAccumulator::new()
    }
}

/// The key bound below which devices are already done: none at the start.
spec fn lower(after: Option<Device>) -> int {
    match after {
        Some(a) => device_key(a),
        None => -1,
    }
}

/// The device with the smallest key above `after` (any device when there
/// is no bound), with the position of one of its requests.
fn next_device(reqs: &Vec<AddressRequest>, after: Option<Device>) -> (r: Option<(Device, usize)>)
    ensures
        match r {
            Some((d, k)) => k < reqs@.len() && reqs@[k as int].0 == d && lower(after) < device_key(d)
                && forall|i: int| 0 <= i < reqs@.len() && lower(after) < device_key((#[trigger] reqs@[i]).0)
                    ==> device_key(d) <= device_key(reqs@[i].0),
            None => forall|i: int| 0 <= i < reqs@.len() ==> device_key((#[trigger] reqs@[i]).0) <= lower(after),
        },
{
    let mut best: Option<(Device, usize)> = None;
    let mut i: usize = 0;
    while i < reqs.len()
        invariant
            i <= reqs@.len(),
            match best {
                Some((d, k)) => k < reqs@.len() && reqs@[k as int].0 == d && lower(after) < device_key(d)
                    && forall|j: int| 0 <= j < i && lower(after) < device_key((#[trigger] reqs@[j]).0)
                        ==> device_key(d) <= device_key(reqs@[j].0),
                None => forall|j: int| 0 <= j < i ==> device_key((#[trigger] reqs@[j]).0) <= lower(after),
            },
        decreases reqs.len() - i,
    {
        let d = reqs[i].0;
        let above = match after {
            Some(a) => a.0 < d.0 || (a.0 == d.0 && a.1 < d.1),
            None => true,
        };
        assert(above == (lower(after) < device_key(d)));
        if above {
            best = match best {
                Some((b, k)) => if d.0 < b.0 || (d.0 == b.0 && d.1 < b.1) { Some((d, i)) } else { Some((b, k)) },
                None => Some((d, i)),
            };
        }
        i += 1;
    }
    best
}

/// Requests whose device key is at most `lim`.
spec fn count_upto(reqs: Seq<AddressRequest>, lim: int) -> nat
    decreases reqs.len(),
{
    if reqs.len() == 0 {
        0
    } else {
        count_upto(reqs.drop_last(), lim) + (if device_key(reqs.last().0) <= lim { 1nat } else { 0nat })
    }
}

proof fn lemma_count_upto_mono(reqs: Seq<AddressRequest>, l1: int, l2: int)
    requires
        l1 <= l2,
    ensures
        count_upto(reqs, l1) <= count_upto(reqs, l2) <= reqs.len(),
    decreases reqs.len(),
{
    if reqs.len() > 0 {
        lemma_count_upto_mono(reqs.drop_last(), l1, l2);
    }
}

proof fn lemma_count_upto_grows(reqs: Seq<AddressRequest>, l1: int, l2: int, k: int)
    requires
        0 <= k < reqs.len(),
        l1 < device_key(reqs[k].0) <= l2,
    ensures
        count_upto(reqs, l1) < count_upto(reqs, l2),
    decreases reqs.len(),
{
    let init = reqs.drop_last();
    if k == reqs.len() - 1 {
        lemma_count_upto_mono(init, l1, l2);
    } else {
        assert(init[k] == reqs[k]);
        lemma_count_upto_grows(init, l1, l2, k);
    }
}

proof fn lemma_key_injective(a: Device, b: Device)
    requires
        device_key(a) == device_key(b),
    ensures
        a == b,
{
}

/// A run that has its counts on every sector and starts where they begin.
spec fn run_open(reqs: Seq<AddressRequest>, row: AddressCount) -> bool {
    &&& row.start_sector < row.end_sector
    &&& (row.reads > 0 || row.writes > 0)
    &&& forall|x: int| row.start_sector <= x < row.end_sector ==> #[trigger] has_counts(reqs, row.device, x, row.reads, row.writes)
    &&& (row.start_sector == 0 || !has_counts(reqs, row.device, row.start_sector - 1, row.reads, row.writes))
}

spec fn run_closed(reqs: Seq<AddressRequest>, row: AddressCount) -> bool {
    !has_counts(reqs, row.device, row.end_sector as int, row.reads, row.writes)
}

/// Rows of every device with key at most `lim` are complete.
spec fn rows_done(reqs: Seq<AddressRequest>, lim: int, rows: Seq<AddressCount>) -> bool {
    &&& forall|i: int| 0 <= i < rows.len() ==> #[trigger] maximal_run(reqs, rows[i])
    &&& rows_ordered(rows)
    &&& forall|i: int| 0 <= i < rows.len() ==> device_key((#[trigger] rows[i]).device) <= lim
    &&& forall|d: Device, x: int| device_key(d) <= lim && #[trigger] busy_at(reqs, d, x) ==>
        exists|i: int| 0 <= i < rows.len() && #[trigger] row_holds(rows[i], d, x)
}

/// Rows of device `d` are complete below sector `b`; the last row may still
/// grow from `b`.
spec fn rows_upto(reqs: Seq<AddressRequest>, d: Device, b: int, rows: Seq<AddressCount>) -> bool {
    &&& forall|i: int| 0 <= i < rows.len() ==> #[trigger] run_open(reqs, rows[i])
    &&& forall|i: int| 0 <= i < rows.len() ==> #[trigger] run_closed(reqs, rows[i])
        || (i == rows.len() - 1 && rows[i].device == d && rows[i].end_sector == b)
    &&& rows_ordered(rows)
    &&& forall|i: int| 0 <= i < rows.len() ==> device_key((#[trigger] rows[i]).device) < device_key(d)
        || (rows[i].device == d && rows[i].end_sector <= b)
    &&& (b > 0 && busy_at(reqs, d, b - 1)) ==> (rows.len() > 0 && rows.last().device == d
        && rows.last().end_sector == b && has_counts(reqs, d, b - 1, rows.last().reads, rows.last().writes))
    &&& forall|x: int| x < b && #[trigger] busy_at(reqs, d, x) ==>
        exists|i: int| 0 <= i < rows.len() && #[trigger] row_holds(rows[i], d, x)
    &&& forall|e: Device, x: int| device_key(e) < device_key(d) && #[trigger] busy_at(reqs, e, x) ==>
        exists|i: int| 0 <= i < rows.len() && #[trigger] row_holds(rows[i], e, x)
}

/// A run `[b, nb)` of device `d` with no request covering it leaves the
/// rows as they are.
proof fn lemma_idle_segment(reqs: Seq<AddressRequest>, d: Device, b: u64, nb: u64, rows: Seq<AddressCount>)
    requires
        b < nb,
        forall|x: int| b <= x < nb ==> #[trigger] reads_at(reqs, d, x) == 0 && writes_at(reqs, d, x) == 0,
        rows_upto(reqs, d, b as int, rows),
    ensures
        rows_upto(reqs, d, nb as int, rows),
{
    assert(reads_at(reqs, d, b as int) == 0);
    assert(reads_at(reqs, d, nb - 1) == 0);
    assert forall|i: int| 0 <= i < rows.len() implies #[trigger] run_closed(reqs, rows[i])
        || (i == rows.len() - 1 && rows[i].device == d && rows[i].end_sector == nb) by {
        assert(run_open(reqs, rows[i]));
    }
    assert forall|i: int| 0 <= i < rows.len() implies device_key((#[trigger] rows[i]).device) < device_key(d)
        || (rows[i].device == d && rows[i].end_sector <= nb) by {}
    assert forall|x: int| x < nb && #[trigger] busy_at(reqs, d, x) implies
        exists|i: int| 0 <= i < rows.len() && #[trigger] row_holds(rows[i], d, x) by {
        if x >= b {
            assert(reads_at(reqs, d, x) == 0);
        }
    }
}

/// The run `[b, nb)` continues the last row, which ends at `b` with the
/// same counts: the row grows to `nb`.
proof fn lemma_extend_segment(reqs: Seq<AddressRequest>, d: Device, b: u64, nb: u64, r: u64, w: u64, rows: Seq<AddressCount>)
    requires
        b < nb,
        forall|x: int| b <= x < nb ==> #[trigger] reads_at(reqs, d, x) == r && writes_at(reqs, d, x) == w,
        rows_upto(reqs, d, b as int, rows),
        rows.len() > 0,
        rows.last().device == d,
        rows.last().end_sector == b,
        rows.last().reads == r,
        rows.last().writes == w,
    ensures
        rows_upto(reqs, d, nb as int, rows.update(rows.len() - 1, (AddressCount {
            device: d, start_sector: rows.last().start_sector, end_sector: nb, reads: r, writes: w,
        }))),
{
    let n = rows.len() - 1;
    let last = rows[n];
    let row = AddressCount { device: d, start_sector: last.start_sector, end_sector: nb, reads: r, writes: w };
    let out = rows.update(n, row);
    assert(run_open(reqs, last));
    assert(reads_at(reqs, d, nb - 1) == r);
    assert forall|x: int| row.start_sector <= x < row.end_sector implies #[trigger] has_counts(reqs, d, x, r, w) by {
        if x < b {
            assert(has_counts(reqs, last.device, x, last.reads, last.writes));
        } else {
            assert(reads_at(reqs, d, x) == r);
        }
    }
    assert(run_open(reqs, row));
    assert forall|i: int| 0 <= i < out.len() implies #[trigger] run_open(reqs, out[i]) by {
        if i < n {
            assert(out[i] == rows[i]);
        }
    }
    assert forall|i: int| 0 <= i < out.len() implies #[trigger] run_closed(reqs, out[i])
        || (i == out.len() - 1 && out[i].device == d && out[i].end_sector == nb) by {
        if i < n {
            assert(out[i] == rows[i]);
            assert(run_closed(reqs, rows[i]));
        }
    }
    assert forall|i: int, j: int| 0 <= i < j < out.len() implies device_key((#[trigger] out[i]).device) < device_key((#[trigger] out[j]).device)
        || (out[i].device == out[j].device && out[i].end_sector <= out[j].start_sector) by {
        assert(out[i] == rows[i]);
        if j < n {
            assert(out[j] == rows[j]);
        }
        assert(device_key(rows[i].device) < device_key(rows[j].device)
            || (rows[i].device == rows[j].device && rows[i].end_sector <= rows[j].start_sector));
    }
    assert forall|i: int| 0 <= i < out.len() implies device_key((#[trigger] out[i]).device) < device_key(d)
        || (out[i].device == d && out[i].end_sector <= nb) by {
        if i < n {
            assert(out[i] == rows[i]);
            assert(device_key(rows[i].device) < device_key(d) || (rows[i].device == d && rows[i].end_sector <= b));
        }
    }
    assert forall|x: int| x < nb && #[trigger] busy_at(reqs, d, x) implies
        exists|i: int| 0 <= i < out.len() && #[trigger] row_holds(out[i], d, x) by {
        if x < b {
            let i = choose|i: int| 0 <= i < rows.len() && #[trigger] row_holds(rows[i], d, x);
            assert(row_holds(out[i], d, x));
        } else {
            assert(row_holds(out[n], d, x));
        }
    }
    assert forall|e: Device, x: int| device_key(e) < device_key(d) && #[trigger] busy_at(reqs, e, x) implies
        exists|i: int| 0 <= i < out.len() && #[trigger] row_holds(out[i], e, x) by {
        let i = choose|i: int| 0 <= i < rows.len() && #[trigger] row_holds(rows[i], e, x);
        assert(i != n);
        assert(out[i] == rows[i]);
        assert(row_holds(out[i], e, x));
    }
}

/// The run `[b, nb)` is covered and does not continue the last row: it
/// becomes a row of its own.
proof fn lemma_new_segment(reqs: Seq<AddressRequest>, d: Device, b: u64, nb: u64, r: u64, w: u64, rows: Seq<AddressCount>)
    requires
        b < nb,
        r > 0 || w > 0,
        forall|x: int| b <= x < nb ==> #[trigger] reads_at(reqs, d, x) == r && writes_at(reqs, d, x) == w,
        rows_upto(reqs, d, b as int, rows),
        !(rows.len() > 0 && rows.last().device == d && rows.last().end_sector == b
            && rows.last().reads == r && rows.last().writes == w),
    ensures
        rows_upto(reqs, d, nb as int, rows.push((AddressCount {
            device: d, start_sector: b, end_sector: nb, reads: r, writes: w,
        }))),
{
    let row = AddressCount { device: d, start_sector: b, end_sector: nb, reads: r, writes: w };
    let out = rows.push(row);
    let n = rows.len() as int;
    assert(reads_at(reqs, d, b as int) == r);
    assert(reads_at(reqs, d, nb - 1) == r);
    assert forall|x: int| row.start_sector <= x < row.end_sector implies #[trigger] has_counts(reqs, d, x, r, w) by {
        assert(reads_at(reqs, d, x) == r);
    }
    assert(run_open(reqs, row));
    assert forall|i: int| 0 <= i < out.len() implies #[trigger] run_open(reqs, out[i]) by {
        if i < n {
            assert(out[i] == rows[i]);
        }
    }
    assert forall|i: int| 0 <= i < out.len() implies #[trigger] run_closed(reqs, out[i])
        || (i == out.len() - 1 && out[i].device == d && out[i].end_sector == nb) by {
        if i < n {
            assert(out[i] == rows[i]);
            assert(run_open(reqs, rows[i]));
            if !run_closed(reqs, rows[i]) {
                assert(rows.last() == rows[i]);
            }
        }
    }
    assert forall|i: int, j: int| 0 <= i < j < out.len() implies device_key((#[trigger] out[i]).device) < device_key((#[trigger] out[j]).device)
        || (out[i].device == out[j].device && out[i].end_sector <= out[j].start_sector) by {
        assert(out[i] == rows[i]);
        if j < n {
            assert(out[j] == rows[j]);
            assert(device_key(rows[i].device) < device_key(rows[j].device)
                || (rows[i].device == rows[j].device && rows[i].end_sector <= rows[j].start_sector));
        } else {
            assert(device_key(rows[i].device) < device_key(d) || (rows[i].device == d && rows[i].end_sector <= b));
        }
    }
    assert forall|i: int| 0 <= i < out.len() implies device_key((#[trigger] out[i]).device) < device_key(d)
        || (out[i].device == d && out[i].end_sector <= nb) by {
        if i < n {
            assert(out[i] == rows[i]);
            assert(device_key(rows[i].device) < device_key(d) || (rows[i].device == d && rows[i].end_sector <= b));
        }
    }
    assert forall|x: int| x < nb && #[trigger] busy_at(reqs, d, x) implies
        exists|i: int| 0 <= i < out.len() && #[trigger] row_holds(out[i], d, x) by {
        if x < b {
            let i = choose|i: int| 0 <= i < rows.len() && #[trigger] row_holds(rows[i], d, x);
            assert(out[i] == rows[i]);
            assert(row_holds(out[i], d, x));
        } else {
            assert(row_holds(out[n], d, x));
        }
    }
    assert forall|e: Device, x: int| device_key(e) < device_key(d) && #[trigger] busy_at(reqs, e, x) implies
        exists|i: int| 0 <= i < out.len() && #[trigger] row_holds(out[i], e, x) by {
        let i = choose|i: int| 0 <= i < rows.len() && #[trigger] row_holds(rows[i], e, x);
        assert(out[i] == rows[i]);
        assert(row_holds(out[i], e, x));
    }
}

/// Starting device `d`, the next above `lim`: nothing of it is below its
/// first start sector `b0`.
proof fn lemma_device_start(reqs: Seq<AddressRequest>, lim: int, d: Device, k: int, b0: u64, rows: Seq<AddressCount>)
    requires
        rows_done(reqs, lim, rows),
        0 <= k < reqs.len(),
        reqs[k].0 == d,
        lim < device_key(d),
        forall|i: int| 0 <= i < reqs.len() && lim < device_key((#[trigger] reqs[i]).0) ==> device_key(d) <= device_key(reqs[i].0),
        forall|i: int| 0 <= i < reqs.len() && (#[trigger] reqs[i]).0 == d ==> b0 <= reqs[i].1,
    ensures
        rows_upto(reqs, d, b0 as int, rows),
{
    assert forall|i: int| 0 <= i < rows.len() implies #[trigger] run_open(reqs, rows[i]) by {
        assert(maximal_run(reqs, rows[i]));
    }
    assert forall|i: int| 0 <= i < rows.len() implies #[trigger] run_closed(reqs, rows[i])
        || (i == rows.len() - 1 && rows[i].device == d && rows[i].end_sector == b0) by {
        assert(maximal_run(reqs, rows[i]));
    }
    assert forall|i: int| 0 <= i < rows.len() implies device_key((#[trigger] rows[i]).device) < device_key(d)
        || (rows[i].device == d && rows[i].end_sector <= b0) by {}
    assert forall|x: int| x < b0 implies !#[trigger] busy_at(reqs, d, x) by {
        lemma_outside_idle(reqs, d, x);
    }
    assert forall|e: Device, x: int| device_key(e) < device_key(d) && #[trigger] busy_at(reqs, e, x) implies
        exists|i: int| 0 <= i < rows.len() && #[trigger] row_holds(rows[i], e, x) by {
        if device_key(e) > lim {
            assert forall|i: int| 0 <= i < reqs.len() && (#[trigger] reqs[i]).0 == e implies !(reqs[i].1 <= x < reqs[i].2) by {}
            lemma_outside_idle(reqs, e, x);
        }
    }
}

/// Ending device `d` at a sector `b` that every one of its requests ends
/// by: all of its rows are complete.
proof fn lemma_device_end(reqs: Seq<AddressRequest>, d: Device, b: u64, rows: Seq<AddressCount>)
    requires
        rows_upto(reqs, d, b as int, rows),
        forall|i: int| 0 <= i < reqs.len() && (#[trigger] reqs[i]).0 == d ==> reqs[i].1 <= b && reqs[i].2 <= b,
    ensures
        rows_done(reqs, device_key(d), rows),
{
    assert forall|x: int| x >= b implies !#[trigger] busy_at(reqs, d, x) by {
        lemma_outside_idle(reqs, d, x);
    }
    assert(!busy_at(reqs, d, b as int));
    assert forall|i: int| 0 <= i < rows.len() implies #[trigger] maximal_run(reqs, rows[i]) by {
        assert(run_open(reqs, rows[i]));
        assert(run_closed(reqs, rows[i]) || (i == rows.len() - 1 && rows[i].device == d && rows[i].end_sector == b));
    }
    assert forall|i: int| 0 <= i < rows.len() implies device_key((#[trigger] rows[i]).device) <= device_key(d) by {
        assert(device_key(rows[i].device) < device_key(d) || (rows[i].device == d && rows[i].end_sector <= b));
    }
    assert forall|e: Device, x: int| device_key(e) <= device_key(d) && #[trigger] busy_at(reqs, e, x) implies
        exists|i: int| 0 <= i < rows.len() && #[trigger] row_holds(rows[i], e, x) by {
        if device_key(e) == device_key(d) {
            lemma_key_injective(e, d);
        }
    }
}

/// A covered sector has a request of its device.
proof fn lemma_busy_has_request(reqs: Seq<AddressRequest>, d: Device, x: int)
    requires
        busy_at(reqs, d, x),
    ensures
        exists|i: int| 0 <= i < reqs.len() && (#[trigger] reqs[i]).0 == d,
{
    if !exists|i: int| 0 <= i < reqs.len() && (#[trigger] reqs[i]).0 == d {
        lemma_outside_idle(reqs, d, x);
    }
}

/// Appends the rows of device `d`, the next one above `lim`, which has a
/// request at `k`.
fn device_rows(reqs: &Vec<AddressRequest>, d: Device, k: usize, rows: &mut Vec<AddressCount>, Ghost(lim): Ghost<int>)
    requires
        rows_done(reqs@, lim, old(rows)@),
        k < reqs@.len(),
        reqs@[k as int].0 == d,
        lim < device_key(d),
        forall|i: int| 0 <= i < reqs@.len() && lim < device_key((#[trigger] reqs@[i]).0) ==> device_key(d) <= device_key(reqs@[i].0),
    ensures
        rows_done(reqs@, device_key(d), final(rows)@),
{
    let b0 = first_boundary(reqs, d, k);
    proof { lemma_device_start(reqs@, lim, d, k as int, b0, rows@); }
    let mut b = b0;
    loop
        invariant
            rows_upto(reqs@, d, b as int, rows@),
        ensures
            rows_done(reqs@, device_key(d), rows@),
        decreases u64::MAX - b,
    {
        match next_boundary(reqs, d, b) {
            None => {
                proof { lemma_device_end(reqs@, d, b, rows@); }
                break;
            },
            Some(nb) => {
                let (r, w) = counts_at(reqs, d, b);
                proof {
                    assert forall|x: int| b <= x < nb implies #[trigger] reads_at(reqs@, d, x) == r && writes_at(reqs@, d, x) == w by {
                        lemma_segment_constant(reqs@, d, b as int, nb as int, x);
                    }
                }
                if r == 0 && w == 0 {
                    proof { lemma_idle_segment(reqs@, d, b, nb, rows@); }
                } else {
                    let n = rows.len();
                    if n > 0 && rows[n - 1].device.0 == d.0 && rows[n - 1].device.1 == d.1 && rows[n - 1].end_sector == b
                        && rows[n - 1].reads == r && rows[n - 1].writes == w {
                        proof { lemma_extend_segment(reqs@, d, b, nb, r, w, rows@); }
                        let start = rows[n - 1].start_sector;
                        rows.set(n - 1, AddressCount { device: d, start_sector: start, end_sector: nb, reads: r, writes: w });
                    } else {
                        proof { lemma_new_segment(reqs@, d, b, nb, r, w, rows@); }
                        rows.push(AddressCount { device: d, start_sector: b, end_sector: nb, reads: r, writes: w });
                    }
                }
                b = nb;
            },
        }
    }
}

/// The summary partitions the covered sectors: a sector lies in a row
/// exactly when some read or write of its device covered it, it lies in one
/// row only, and that row's counts are the sector's own read and write
/// counts.
pub proof fn law_rows_partition_covered_sectors(reqs: Seq<AddressRequest>, rows: Seq<AddressCount>)
    requires
        forall|i: int| 0 <= i < rows.len() ==> #[trigger] maximal_run(reqs, rows[i]),
        rows_ordered(rows),
        rows_cover(reqs, rows),
    ensures
        forall|d: Device, x: int, i: int| 0 <= i < rows.len() && #[trigger] row_holds(rows[i], d, x) ==>
            reads_at(reqs, d, x) == rows[i].reads && writes_at(reqs, d, x) == rows[i].writes,
        forall|d: Device, x: int, i: int, j: int| 0 <= i < rows.len() && 0 <= j < rows.len()
            && #[trigger] row_holds(rows[i], d, x) && #[trigger] row_holds(rows[j], d, x) ==> i == j,
        forall|d: Device, x: int| #[trigger] busy_at(reqs, d, x) <==>
            exists|i: int| 0 <= i < rows.len() && #[trigger] row_holds(rows[i], d, x),
{
    assert forall|d: Device, x: int, i: int| 0 <= i < rows.len() && #[trigger] row_holds(rows[i], d, x) implies
        reads_at(reqs, d, x) == rows[i].reads && writes_at(reqs, d, x) == rows[i].writes by {
        assert(maximal_run(reqs, rows[i]));
        assert(has_counts(reqs, rows[i].device, x, rows[i].reads, rows[i].writes));
    }
    assert forall|d: Device, x: int, i: int, j: int| 0 <= i < rows.len() && 0 <= j < rows.len()
        && #[trigger] row_holds(rows[i], d, x) && #[trigger] row_holds(rows[j], d, x) implies i == j by {
        if i < j {
            assert(device_key(rows[i].device) < device_key(rows[j].device)
                || (rows[i].device == rows[j].device && rows[i].end_sector <= rows[j].start_sector));
        } else if j < i {
            assert(device_key(rows[j].device) < device_key(rows[i].device)
                || (rows[j].device == rows[i].device && rows[j].end_sector <= rows[i].start_sector));
        }
    }
    assert forall|d: Device, x: int| #[trigger] busy_at(reqs, d, x) <==>
        exists|i: int| 0 <= i < rows.len() && #[trigger] row_holds(rows[i], d, x) by {
        if exists|i: int| 0 <= i < rows.len() && #[trigger] row_holds(rows[i], d, x) {
            let i = choose|i: int| 0 <= i < rows.len() && #[trigger] row_holds(rows[i], d, x);
            assert(maximal_run(reqs, rows[i]));
            assert(has_counts(reqs, rows[i].device, x, rows[i].reads, rows[i].writes));
        }
    }
}

} // verus!
