//! Which file operations of a session relate to a cohort of block requests:
//! those the requests' transaction graphs name directly, and those on a file
//! identity the requests were attributed to, within 30 s of a request.
use vstd::prelude::*;

verus! {

/// How far before its start and after its completion a request still
/// relates to a file operation on the same file.
pub const RELATED_WINDOW_NS: u64 = 30_000_000_000;

/// A file as the kernel identifies it.
#[derive(Debug, Clone, Copy)]
pub struct FileIdentity {
    pub fs_device_major: u32,
    pub fs_device_minor: u32,
    pub inode: u64,
    pub inode_generation: Option<u64>,
    pub mount_id: Option<u64>,
}

/// What the relation reads of one block request of the cohort: its issue,
/// insert and completion times, the file operations (start, end, pid, tid)
/// of its transaction graph, and the files it was attributed to.
pub struct CohortRequest {
    pub issue_ts_ns: u64,
    pub insert_ts_ns: Option<u64>,
    pub completion_ts_ns: u64,
    pub file_operations: Vec<(u64, u64, u32, u32)>,
    pub origins: Vec<FileIdentity>,
}

/// A recorded file operation of the session.
pub struct FileEvidence {
    pub start_ts_ns: u64,
    pub end_ts_ns: u64,
    pub pid: u32,
    pub tid: u32,
    pub file_identity: Option<FileIdentity>,
}

/// The time window around a request: from its insert (or issue) minus the
/// window to its completion plus the window, both saturating.
pub open spec fn window_low(r: CohortRequest) -> int {
    let s: int = match r.insert_ts_ns {
        Some(t) => t as int,
        None => r.issue_ts_ns as int,
    };
    if s >= RELATED_WINDOW_NS { s - RELATED_WINDOW_NS } else { 0 }
}

pub open spec fn window_high(r: CohortRequest) -> int {
    if r.completion_ts_ns + RELATED_WINDOW_NS > u64::MAX { u64::MAX as int } else { r.completion_ts_ns + RELATED_WINDOW_NS }
}

pub open spec fn attributed(r: CohortRequest, c: FileIdentity) -> bool {
    exists|j: int| 0 <= j < r.origins@.len() && #[trigger] r.origins@[j] == c
}

/// A transaction graph of the cohort names the operation itself.
pub open spec fn directly_linked(reqs: Seq<CohortRequest>, f: FileEvidence) -> bool {
    exists|i: int, j: int| 0 <= i < reqs.len() && 0 <= j < reqs[i].file_operations@.len()
        && #[trigger] reqs[i].file_operations@[j] == (f.start_ts_ns, f.end_ts_ns, f.pid, f.tid)
}

/// Same device and inode, and no known generation or mount that differs.
pub open spec fn compatible(id: FileIdentity, c: FileIdentity) -> bool {
    &&& c.fs_device_major == id.fs_device_major
    &&& c.fs_device_minor == id.fs_device_minor
    &&& c.inode == id.inode
    &&& !(id.inode_generation is Some && c.inode_generation is Some && id.inode_generation != c.inode_generation)
    &&& !(id.mount_id is Some && c.mount_id is Some && id.mount_id != c.mount_id)
}

/// The windows of the requests attributed to `c`, taken as closed
/// intervals, meet the operation's span `[start, end]`; when the operation
/// ends before it starts, they must cover `[end, start]` without a gap.
pub open spec fn windows_reach(reqs: Seq<CohortRequest>, c: FileIdentity, start: u64, end: u64) -> bool {
    if start <= end {
        exists|i: int| 0 <= i < reqs.len() && #[trigger] attributed(reqs[i], c)
            && window_low(reqs[i]) <= end && window_high(reqs[i]) >= start
    } else {
        forall|t: int| end <= t < start ==> #[trigger] covers_step(reqs, c, t)
    }
}

/// Some window of a request attributed to `c` spans `[t, t + 1]`.
pub open spec fn covers_step(reqs: Seq<CohortRequest>, c: FileIdentity, t: int) -> bool {
    exists|i: int| 0 <= i < reqs.len() && #[trigger] attributed(reqs[i], c)
        && window_low(reqs[i]) <= t && window_high(reqs[i]) >= t + 1
}

pub open spec fn linked_by_identity(reqs: Seq<CohortRequest>, f: FileEvidence) -> bool {
    match f.file_identity {
        Some(id) => exists|c: FileIdentity| compatible(id, c) && #[trigger] windows_reach(reqs, c, f.start_ts_ns, f.end_ts_ns),
        None => false,
    }
}

pub open spec fn related(reqs: Seq<CohortRequest>, f: FileEvidence) -> bool {
    directly_linked(reqs, f) || linked_by_identity(reqs, f)
}

/// Positions below `n` of the related operations, ascending.
pub open spec fn related_positions(reqs: Seq<CohortRequest>, files: Seq<FileEvidence>, n: int) -> Seq<usize>
    decreases n,
{
    if n <= 0 {
        seq![]
    } else if related(reqs, files[n - 1]) {
        related_positions(reqs, files, n - 1).push((n - 1) as usize)
    } else {
        related_positions(reqs, files, n - 1)
    }
}

fn same_option(a: Option<u64>, b: Option<u64>) -> (r: bool)
    ensures
        r == (a == b),
{
    match (a, b) {
        (Some(x), Some(y)) => x == y,
        (None, None) => true,
        _ => false,
    }
}

fn same_identity(a: &FileIdentity, b: &FileIdentity) -> (r: bool)
    ensures
        r == (*a == *b),
{
    a.fs_device_major == b.fs_device_major && a.fs_device_minor == b.fs_device_minor && a.inode == b.inode
        && same_option(a.inode_generation, b.inode_generation) && same_option(a.mount_id, b.mount_id)
}

fn is_compatible(id: &FileIdentity, c: &FileIdentity) -> (r: bool)
    ensures
        r == compatible(*id, *c),
{
    let generation_differs = match (id.inode_generation, c.inode_generation) {
        (Some(x), Some(y)) => x != y,
        _ => false,
    };
    let mount_differs = match (id.mount_id, c.mount_id) {
        (Some(x), Some(y)) => x != y,
        _ => false,
    };
    c.fs_device_major == id.fs_device_major && c.fs_device_minor == id.fs_device_minor && c.inode == id.inode
        && !generation_differs && !mount_differs
}

fn is_attributed(r: &CohortRequest, c: &FileIdentity) -> (b: bool)
    ensures
        b == attributed(*r, *c),
{
    let mut j: usize = 0;
    while j < r.origins.len()
        invariant
            j <= r.origins@.len(),
            forall|k: int| 0 <= k < j ==> r.origins@[k] != *c,
        decreases r.origins.len() - j,
    {
        if same_identity(&r.origins[j], c) {
            return true;
        }
        j += 1;
    }
    false
}

fn window_of(r: &CohortRequest) -> (w: (u64, u64))
    ensures
        w.0 == window_low(*r),
        w.1 == window_high(*r),
{
    let s = match r.insert_ts_ns {
        Some(t) => t,
        None => r.issue_ts_ns,
    };
    (s.saturating_sub(RELATED_WINDOW_NS), r.completion_ts_ns.saturating_add(RELATED_WINDOW_NS))
}

fn is_directly_linked(reqs: &[CohortRequest], f: &FileEvidence) -> (b: bool)
    ensures
        b == directly_linked(reqs@, *f),
{
    let key = (f.start_ts_ns, f.end_ts_ns, f.pid, f.tid);
    let mut i: usize = 0;
    while i < reqs.len()
        invariant
            i <= reqs@.len(),
            key == (f.start_ts_ns, f.end_ts_ns, f.pid, f.tid),
            forall|a: int, b: int| 0 <= a < i && 0 <= b < reqs@[a].file_operations@.len()
                ==> #[trigger] reqs@[a].file_operations@[b] != key,
        decreases reqs.len() - i,
    {
        let ops = &reqs[i].file_operations;
        let mut j: usize = 0;
        while j < ops.len()
            invariant
                i < reqs@.len(),
                j <= ops@.len(),
                ops@ == reqs@[i as int].file_operations@,
                key == (f.start_ts_ns, f.end_ts_ns, f.pid, f.tid),
                forall|b: int| 0 <= b < j ==> ops@[b] != key,
            decreases ops.len() - j,
        {
            let op = ops[j];
            if op.0 == key.0 && op.1 == key.1 && op.2 == key.2 && op.3 == key.3 {
                return true;
            }
            j += 1;
        }
        i += 1;
    }
    false
}

fn identity_reaches(reqs: &[CohortRequest], c: &FileIdentity, start: u64, end: u64) -> (b: bool)
    ensures
        b == windows_reach(reqs@, *c, start, end),
{
    if start <= end {
        let mut i: usize = 0;
        while i < reqs.len()
            invariant
                i <= reqs@.len(),
                forall|a: int| 0 <= a < i ==> !(#[trigger] attributed(reqs@[a], *c)
                    && window_low(reqs@[a]) <= end && window_high(reqs@[a]) >= start),
            decreases reqs.len() - i,
        {
            let w = window_of(&reqs[i]);
            if is_attributed(&reqs[i], c) && w.0 <= end && w.1 >= start {
                return true;
            }
            i += 1;
        }
        return false;
    }
    let mut cur: u64 = end;
    loop
        invariant
            end <= cur < start,
            forall|t: int| end <= t < cur ==> #[trigger] covers_step(reqs@, *c, t),
        decreases start - cur,
    {
        let mut best: Option<u64> = None;
        let mut i: usize = 0;
        while i < reqs.len()
            invariant
                i <= reqs@.len(),
                end <= cur < start,
                match best {
                    Some(h) => h > cur && exists|a: int| 0 <= a < i && #[trigger] attributed(reqs@[a], *c)
                        && window_low(reqs@[a]) <= cur && window_high(reqs@[a]) == h,
                    None => forall|a: int| 0 <= a < i ==> !(#[trigger] attributed(reqs@[a], *c)
                        && window_low(reqs@[a]) <= cur && window_high(reqs@[a]) >= cur + 1),
                },
            decreases reqs.len() - i,
        {
            let w = window_of(&reqs[i]);
            if w.0 <= cur && w.1 > cur && is_attributed(&reqs[i], c) {
                best = match best {
                    Some(h) => if w.1 > h { Some(w.1) } else { Some(h) },
                    None => Some(w.1),
                };
            }
            i += 1;
        }
        match best {
            None => {
                assert(!covers_step(reqs@, *c, cur as int));
                return false;
            },
            Some(h) => {
                proof {
                    let a = choose|a: int| 0 <= a < reqs@.len() && #[trigger] attributed(reqs@[a], *c)
                        && window_low(reqs@[a]) <= cur && window_high(reqs@[a]) == h;
                    assert forall|t: int| end <= t < h implies #[trigger] covers_step(reqs@, *c, t) by {
                        if t >= cur {
                            assert(attributed(reqs@[a], *c) && window_low(reqs@[a]) <= t && window_high(reqs@[a]) >= t + 1);
                        }
                    }
                }
                if h >= start {
                    return true;
                }
                cur = h;
            },
        }
    }
}

/// A request attributed to `c` is behind every reach of its windows.
proof fn lemma_reach_has_origin(reqs: Seq<CohortRequest>, c: FileIdentity, start: u64, end: u64)
    requires
        windows_reach(reqs, c, start, end),
    ensures
        exists|i: int, j: int| 0 <= i < reqs.len() && 0 <= j < reqs[i].origins@.len() && #[trigger] reqs[i].origins@[j] == c,
{
    if start > end {
        assert(covers_step(reqs, c, end as int));
    }
    let i = choose|i: int| 0 <= i < reqs.len() && #[trigger] attributed(reqs[i], c);
    let j = choose|j: int| 0 <= j < reqs[i].origins@.len() && #[trigger] reqs[i].origins@[j] == c;
    assert(reqs[i].origins@[j] == c);
}

fn is_related(reqs: &[CohortRequest], f: &FileEvidence) -> (b: bool)
    ensures
        b == related(reqs@, *f),
{
    if is_directly_linked(reqs, f) {
        return true;
    }
    let id = match f.file_identity {
        Some(id) => id,
        None => return false,
    };
    let mut i: usize = 0;
    while i < reqs.len()
        invariant
            i <= reqs@.len(),
            f.file_identity == Some(id),
            forall|a: int, b: int| 0 <= a < i && 0 <= b < reqs@[a].origins@.len()
                && compatible(id, #[trigger] reqs@[a].origins@[b])
                ==> !windows_reach(reqs@, reqs@[a].origins@[b], f.start_ts_ns, f.end_ts_ns),
        decreases reqs.len() - i,
    {
        let origins = &reqs[i].origins;
        let mut j: usize = 0;
        while j < origins.len()
            invariant
                i < reqs@.len(),
                j <= origins@.len(),
                f.file_identity == Some(id),
                origins@ == reqs@[i as int].origins@,
                forall|b: int| 0 <= b < j && compatible(id, #[trigger] origins@[b])
                    ==> !windows_reach(reqs@, origins@[b], f.start_ts_ns, f.end_ts_ns),
            decreases origins.len() - j,
        {
            let c = origins[j];
            if is_compatible(&id, &c) && identity_reaches(reqs, &c, f.start_ts_ns, f.end_ts_ns) {
                assert(compatible(id, c) && windows_reach(reqs@, c, f.start_ts_ns, f.end_ts_ns));
                assert(linked_by_identity(reqs@, *f));
                return true;
            }
            j += 1;
        }
        i += 1;
    }
    proof {
        if linked_by_identity(reqs@, *f) {
            let c = choose|c: FileIdentity| compatible(id, c) && #[trigger] windows_reach(reqs@, c, f.start_ts_ns, f.end_ts_ns);
            lemma_reach_has_origin(reqs@, c, f.start_ts_ns, f.end_ts_ns);
            let (a, b) = choose|a: int, b: int| 0 <= a < reqs@.len() && 0 <= b < reqs@[a].origins@.len()
                && #[trigger] reqs@[a].origins@[b] == c;
            assert(compatible(id, reqs@[a].origins@[b]));
        }
    }
    false
}

/// The positions of the file operations related to the cohort, ascending:
/// those a request's transaction graph names, and those on a compatible
/// file identity within the window of a request attributed to it.
pub fn related_file_positions(requests: &[CohortRequest], files: &[FileEvidence]) -> (r: Vec<usize>)
    ensures
        r@ == related_positions(requests@, files@, files@.len() as int),
{
    let mut out: Vec<usize> = Vec::new();
    let mut k: usize = 0;
    while k < files.len()
        invariant
            k <= files@.len(),
            out@ == related_positions(requests@, files@, k as int),
        decreases files.len() - k,
    {
        if is_related(requests, &files[k]) {
            out.push(k);
        }
        k += 1;
    }
    out
}

/// Widening the cohort never drops a related file operation: what relates
/// to some requests relates to them together with any others.
pub proof fn law_larger_cohort_keeps_related_files(reqs: Seq<CohortRequest>, more: Seq<CohortRequest>, f: FileEvidence)
    requires
        related(reqs, f),
    ensures
        related(reqs + more, f),
{
    let all = reqs + more;
    if directly_linked(reqs, f) {
        let (i, j) = choose|i: int, j: int| 0 <= i < reqs.len() && 0 <= j < reqs[i].file_operations@.len()
            && #[trigger] reqs[i].file_operations@[j] == (f.start_ts_ns, f.end_ts_ns, f.pid, f.tid);
        assert(all[i] == reqs[i]);
        assert(all[i].file_operations@[j] == (f.start_ts_ns, f.end_ts_ns, f.pid, f.tid));
    } else {
        let id = f.file_identity->0;
        let c = choose|c: FileIdentity| compatible(id, c) && #[trigger] windows_reach(reqs, c, f.start_ts_ns, f.end_ts_ns);
        if f.start_ts_ns <= f.end_ts_ns {
            let i = choose|i: int| 0 <= i < reqs.len() && #[trigger] attributed(reqs[i], c)
                && window_low(reqs[i]) <= f.end_ts_ns && window_high(reqs[i]) >= f.start_ts_ns;
            assert(all[i] == reqs[i]);
            assert(attributed(all[i], c));
        } else {
            assert forall|t: int| f.end_ts_ns <= t < f.start_ts_ns implies #[trigger] covers_step(all, c, t) by {
                assert(covers_step(reqs, c, t));
                let i = choose|i: int| 0 <= i < reqs.len() && #[trigger] attributed(reqs[i], c)
                    && window_low(reqs[i]) <= t && window_high(reqs[i]) >= t + 1;
                assert(all[i] == reqs[i]);
                assert(attributed(all[i], c));
            }
        }
        assert(windows_reach(all, c, f.start_ts_ns, f.end_ts_ns));
    }
}

} // verus!
