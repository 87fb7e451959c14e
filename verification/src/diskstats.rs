//! `/proc/diskstats` sector counters, the deltas between two samples, and
//! the running projection of a session's snapshots. A counter that went
//! backwards is a reset, never a zero delta, and no delta is ever taken
//! across a reboot, a clock that did not advance, or a device that was not
//! in the previous snapshot.
use vstd::prelude::*;
use crate::text_order::{keyed_view, keys_ascending, lemma_put_ascending, lemma_put_get, lemma_slot_prefix, text_map_get, text_map_lookup, text_map_put, text_map_set, text_slot};
use crate::text::{chars_of, lines_of, split_lines, split_words, str_chars, string_from_chars, words_of};

verus! {

/// The value of a digit character.
pub open spec fn digit_value(c: char) -> int {
    (c as u32) - ('0' as u32)
}

pub open spec fn is_digit(c: char) -> bool {
    '0' <= c <= '9'
}

/// The number written by decimal digits.
pub open spec fn digits_value(s: Seq<char>) -> int
    decreases s.len(),
{
    if s.len() == 0 { 0 } else { digits_value(s.drop_last()) * 10 + digit_value(s.last()) }
}

/// `str::parse::<u64>`: an optional `+`, then one or more ASCII digits whose
/// value fits in `u64`.
pub open spec fn parse_u64(s: Seq<char>) -> Option<u64> {
    let body = unsigned_body(s);
    if body.len() == 0 || !all_digits(body) {
        None
    } else if digits_value(body) > u64::MAX {
        None
    } else {
        Some(digits_value(body) as u64)
    }
}

/// The digits after an optional leading `+`.
pub open spec fn unsigned_body(s: Seq<char>) -> Seq<char> {
    if s.len() > 0 && s[0] == '+' { s.skip(1) } else { s }
}

pub open spec fn all_digits(s: Seq<char>) -> bool {
    forall|i: int| 0 <= i < s.len() ==> is_digit(#[trigger] s[i])
}

proof fn lemma_digits_grow(s: Seq<char>, i: int)
    requires
        0 <= i <= s.len(),
        forall|k: int| 0 <= k < s.len() ==> is_digit(#[trigger] s[k]),
    ensures
        digits_value(s.take(i)) <= digits_value(s),
        0 <= digits_value(s.take(i)),
    decreases s.len() - i,
{
    if i == s.len() {
        assert(s.take(i) == s);
        lemma_digits_nonneg(s);
    } else {
        lemma_digits_grow(s, i + 1);
        assert(s.take(i + 1).drop_last() == s.take(i));
        lemma_digits_nonneg(s.take(i));
    }
}

proof fn lemma_digits_nonneg(s: Seq<char>)
    requires
        forall|k: int| 0 <= k < s.len() ==> is_digit(#[trigger] s[k]),
    ensures
        0 <= digits_value(s),
    decreases s.len(),
{
    if s.len() > 0 {
        let t = s.drop_last();
        assert forall|k: int| 0 <= k < t.len() implies is_digit(#[trigger] t[k]) by {
            assert(t[k] == s[k]);
        }
        lemma_digits_nonneg(t);
    }
}

/// Parses an unsigned decimal as `str::parse::<u64>` does.
pub fn parse_u64_chars(s: &[char]) -> (r: Option<u64>)
    ensures
        r == parse_u64(s@),
{
    let start: usize = if s.len() > 0 && s[0] == '+' { 1 } else { 0 };
    let ghost body = unsigned_body(s@);
    proof {
        assert(body == s@.skip(start as int));
    }
    if start == s.len() {
        assert(body.len() == 0);
        return None;
    }
    let mut i: usize = start;
    while i < s.len()
        invariant
            start <= i <= s@.len(),
            body == s@.skip(start as int),
            body == unsigned_body(s@),
            forall|k: int| 0 <= k < i - start ==> is_digit(#[trigger] body[k]),
        decreases s.len() - i,
    {
        if !('0' <= s[i] && s[i] <= '9') {
            assert(body[i - start] == s@[i as int]);
            assert(!is_digit(body[i - start]));
            assert(!all_digits(body));
            return None;
        }
        assert(body[i - start] == s@[i as int]);
        i += 1;
    }
    let mut value: u64 = 0;
    let mut j: usize = start;
    while j < s.len()
        invariant
            start <= j <= s@.len(),
            body == s@.skip(start as int),
            body == unsigned_body(s@),
            forall|k: int| 0 <= k < body.len() ==> is_digit(#[trigger] body[k]),
            value == digits_value(body.take(j - start)),
        decreases s.len() - j,
    {
        proof {
            assert(body[j - start] == s@[j as int]);
            assert(is_digit(body[j - start]));
        }
        let d = (s[j] as u32 - '0' as u32) as u64;
        proof {
            assert(body.take(j - start + 1).drop_last() == body.take(j - start));
            assert(body.take(j - start + 1).last() == s@[j as int]);
        }
        if value > (u64::MAX - d) / 10 {
            proof {
                lemma_digits_grow(body, j - start + 1);
                assert(value * 10 + d > u64::MAX) by (nonlinear_arith)
                    requires value > (u64::MAX - d) / 10, d <= 9;
            }
            return None;
        }
        assert(value * 10 + d <= u64::MAX) by (nonlinear_arith)
            requires value <= (u64::MAX - d) / 10, d <= 9;
        value = value * 10 + d;
        j += 1;
    }
    proof {
        assert(body.take(body.len() as int) == body);
    }
    Some(value)
}

/// The counters of one diskstats row, fields 3, 5, 7 and 9: reads
/// completed, sectors read, writes completed and sectors written.
pub open spec fn row_counters(w: Seq<Seq<char>>) -> Option<Seq<u64>> {
    match (parse_u64(w[3]), parse_u64(w[5]), parse_u64(w[7]), parse_u64(w[9])) {
        (Some(a), Some(b), Some(c), Some(d)) => Some(seq![a, b, c, d]),
        _ => None,
    }
}

/// A row's key `MAJOR:MINOR NAME` and counters; rows with fewer than 14
/// fields or unreadable counters are skipped.
pub open spec fn diskstats_row(line: Seq<char>) -> Option<(Seq<char>, Seq<u64>)> {
    let w = words_of(line);
    if w.len() < 14 {
        None
    } else {
        match row_counters(w) {
            Some(c) => Some((w[0] + seq![':'] + w[1] + seq![' '] + w[2], c)),
            None => None,
        }
    }
}

/// The rows by key, in ascending key order; a later row for the same key
/// replaces the earlier one.
pub open spec fn diskstats_rows(lines: Seq<Seq<char>>) -> Seq<(Seq<char>, Seq<u64>)>
    decreases lines.len(),
{
    if lines.len() == 0 {
        seq![]
    } else {
        let m = diskstats_rows(lines.drop_last());
        match diskstats_row(lines.last()) {
            Some((k, c)) => text_map_put(m, k, c),
            None => m,
        }
    }
}

/// The rows keep their keys strictly ascending.
pub proof fn lemma_rows_ascending(lines: Seq<Seq<char>>)
    ensures
        keys_ascending(diskstats_rows(lines)),
    decreases lines.len(),
{
    if lines.len() > 0 {
        lemma_rows_ascending(lines.drop_last());
        if let Some((k, c)) = diskstats_row(lines.last()) {
            lemma_put_ascending(diskstats_rows(lines.drop_last()), k, c);
        }
    }
}

fn row_of(line: &Vec<char>) -> (r: Option<(String, [u64; 4])>)
    ensures
        match r {
            Some(e) => diskstats_row(line@) == Some((e.0@, e.1@)),
            None => diskstats_row(line@) is None,
        },
{
    let w = split_words(line.as_slice());
    if w.len() < 14 {
        return None;
    }
    let ghost ws = chars_of(w@);
    proof {
        assert(ws[3] == w@[3]@ && ws[5] == w@[5]@ && ws[7] == w@[7]@ && ws[9] == w@[9]@);
        assert(ws[0] == w@[0]@ && ws[1] == w@[1]@ && ws[2] == w@[2]@);
    }
    let a = match parse_u64_chars(w[3].as_slice()) { Some(x) => x, None => return None };
    let b = match parse_u64_chars(w[5].as_slice()) { Some(x) => x, None => return None };
    let c = match parse_u64_chars(w[7].as_slice()) { Some(x) => x, None => return None };
    let d = match parse_u64_chars(w[9].as_slice()) { Some(x) => x, None => return None };
    let mut key: Vec<char> = Vec::new();
    let mut i: usize = 0;
    while i < w[0].len()
        invariant
            w@.len() >= 14,
            i <= w@[0]@.len(),
            key@ == w@[0]@.take(i as int),
        decreases w[0].len() - i,
    {
        key.push(w[0][i]);
        i += 1;
        assert(key@ == w@[0]@.take(i as int));
    }
    assert(w@[0]@.take(w@[0]@.len() as int) == w@[0]@);
    key.push(':');
    let mut i: usize = 0;
    let ghost k1 = key@;
    while i < w[1].len()
        invariant
            w@.len() >= 14,
            i <= w@[1]@.len(),
            key@ == k1 + w@[1]@.take(i as int),
        decreases w[1].len() - i,
    {
        key.push(w[1][i]);
        i += 1;
        assert(key@ =~= k1 + w@[1]@.take(i as int));
    }
    assert(w@[1]@.take(w@[1]@.len() as int) == w@[1]@);
    key.push(' ');
    let mut i: usize = 0;
    let ghost k2 = key@;
    while i < w[2].len()
        invariant
            w@.len() >= 14,
            i <= w@[2]@.len(),
            key@ == k2 + w@[2]@.take(i as int),
        decreases w[2].len() - i,
    {
        key.push(w[2][i]);
        i += 1;
        assert(key@ =~= k2 + w@[2]@.take(i as int));
    }
    assert(w@[2]@.take(w@[2]@.len() as int) == w@[2]@);
    let counters: [u64; 4] = [a, b, c, d];
    assert(counters@ =~= seq![a, b, c, d]);
    Some((string_from_chars(key.as_slice()), counters))
}

/// Reads the sector counters of every well-formed diskstats row.
pub fn parse_diskstats(raw: &str) -> (r: Vec<(String, [u64; 4])>)
    ensures
        keyed_view(r@) == diskstats_rows(lines_of(raw@)),
        keys_ascending(keyed_view(r@)),
{
    let chars = str_chars(raw);
    let lines = split_lines(chars.as_slice());
    let ghost ls = chars_of(lines@);
    let mut out: Vec<(String, [u64; 4])> = Vec::new();
    let mut i: usize = 0;
    while i < lines.len()
        invariant
            i <= lines@.len(),
            ls == chars_of(lines@),
            keyed_view(out@) == diskstats_rows(ls.take(i as int)),
        decreases lines.len() - i,
    {
        proof {
            assert(ls.take(i + 1).drop_last() == ls.take(i as int));
            assert(ls.take(i + 1).last() == lines@[i as int]@);
        }
        match row_of(&lines[i]) {
            Some((k, c)) => text_map_set(&mut out, k, c),
            None => {},
        }
        i += 1;
    }
    proof {
        assert(ls.take(lines@.len() as int) == ls);
        lemma_rows_ascending(ls);
    }
    out
}

/// The counters recorded for `key`.
pub fn diskstat(rows: &Vec<(String, [u64; 4])>, key: &str) -> (r: Option<[u64; 4]>)
    ensures
        match text_map_get(keyed_view(rows@), key@) {
            Some(c) => r matches Some(x) && x@ == c,
            None => r is None,
        },
{
    text_map_lookup(rows, key)
}

/// Counter growth between two samples; `None` when any counter went
/// backwards, which marks a reset rather than a zero delta.
pub fn disk_delta(before: &[u64; 4], after: &[u64; 4]) -> (r: Option<[u64; 4]>)
    ensures
        (forall|i: int| 0 <= i < 4 ==> after@[i] >= before@[i]) <==> r is Some,
        r matches Some(d) ==> forall|i: int| 0 <= i < 4 ==> d@[i] == after@[i] - before@[i],
{
    let a = match after[0].checked_sub(before[0]) { Some(x) => x, None => return None };
    let b = match after[1].checked_sub(before[1]) { Some(x) => x, None => return None };
    let c = match after[2].checked_sub(before[2]) { Some(x) => x, None => return None };
    let d = match after[3].checked_sub(before[3]) { Some(x) => x, None => return None };
    let r: [u64; 4] = [a, b, c, d];
    proof {
        assert(r@ =~= seq![a, b, c, d]);
        assert forall|i: int| 0 <= i < 4 implies after@[i] >= before@[i] by {
            if i == 0 {} else if i == 1 {} else if i == 2 {} else {}
        }
    }
    Some(r)
}

/// A session record as the counter projection reads it: a diskstats
/// snapshot taken `elapsed_ms` into boot `boot_id`, or any other record.
pub enum SessionRecord {
    DiskStats { boot_id: String, elapsed_ms: u64, raw: String },
    Other,
}

/// One transfer sample of a device: `sectors` read and written during the
/// `interval_ms` that ended `elapsed_ms` into the boot.
#[derive(Debug, Clone, Copy, PartialEq, Eq, Structural)]
pub struct DiskRate {
    pub elapsed_ms: u64,
    pub interval_ms: u64,
    pub sectors: u64,
}

/// Append-only projection of a session's diskstats snapshots: the summed
/// deltas and per-interval samples of every device, and how many intervals
/// were excluded as resets.
pub struct DiskStatsView {
    pub processed: usize,
    pub previous: Option<(String, u64, Vec<(String, [u64; 4])>)>,
    pub totals: Vec<(String, [u64; 4])>,
    pub samples: Vec<(String, Vec<DiskRate>)>,
    pub reset_intervals: usize,
}

/// The projection as values: the previous snapshot (boot, time, rows), the
/// totals, the samples and the reset count.
pub type ProjectionState = (
    Option<(Seq<char>, u64, Seq<(Seq<char>, Seq<u64>)>)>,
    Seq<(Seq<char>, Seq<u64>)>,
    Seq<(Seq<char>, Seq<DiskRate>)>,
    nat,
);

pub open spec fn projection_state(v: DiskStatsView) -> ProjectionState {
    (
        match v.previous {
            Some((b, t, rows)) => Some((b@, t, keyed_view(rows@))),
            None => None,
        },
        keyed_view(v.totals@),
        keyed_view(v.samples@),
        v.reset_intervals as nat,
    )
}

pub open spec fn empty_projection() -> ProjectionState {
    (None, seq![], seq![], 0)
}

pub open spec fn sat_add(a: u64, b: u64) -> u64 {
    if a + b > u64::MAX { u64::MAX } else { (a + b) as u64 }
}

/// The reset count saturates at `usize::MAX`.
pub open spec fn sat_inc(n: nat) -> nat {
    if n < usize::MAX { n + 1 } else { n }
}

/// Growth of every counter, or `None` when one went backwards.
pub open spec fn counters_delta(before: Seq<u64>, after: Seq<u64>) -> Option<Seq<u64>> {
    if forall|i: int| 0 <= i < 4 ==> after[i] >= before[i] {
        Some(Seq::new(4, |i: int| (after[i] - before[i]) as u64))
    } else {
        None
    }
}

/// The running total of `k`, zero before its first delta.
pub open spec fn total_of(totals: Seq<(Seq<char>, Seq<u64>)>, k: Seq<char>) -> Seq<u64> {
    match text_map_get(totals, k) {
        Some(c) => c,
        None => seq![0u64, 0, 0, 0],
    }
}

pub open spec fn add_counters(a: Seq<u64>, d: Seq<u64>) -> Seq<u64> {
    Seq::new(4, |i: int| sat_add(a[i], d[i]))
}

/// Appends `r` to the samples of `k`.
pub open spec fn push_sample(s: Seq<(Seq<char>, Seq<DiskRate>)>, k: Seq<char>, r: DiskRate) -> Seq<(Seq<char>, Seq<DiskRate>)> {
    text_map_put(s, k, samples_of(s, k).push(r))
}

/// Folds the rows of a snapshot taken `interval_ms` after `before` on the
/// same boot into the totals, samples and reset count: a device absent from
/// `before` contributes nothing, and one with a counter that went backwards
/// counts as a reset.
pub open spec fn apply_rows(
    before: Seq<(Seq<char>, Seq<u64>)>,
    rows: Seq<(Seq<char>, Seq<u64>)>,
    elapsed_ms: u64,
    interval_ms: u64,
    totals: Seq<(Seq<char>, Seq<u64>)>,
    samples: Seq<(Seq<char>, Seq<DiskRate>)>,
    resets: nat,
) -> (Seq<(Seq<char>, Seq<u64>)>, Seq<(Seq<char>, Seq<DiskRate>)>, nat)
    decreases rows.len(),
{
    if rows.len() == 0 {
        (totals, samples, resets)
    } else {
        let acc = apply_rows(before, rows.drop_last(), elapsed_ms, interval_ms, totals, samples, resets);
        let k = rows.last().0;
        match text_map_get(before, k) {
            None => acc,
            Some(b) => match counters_delta(b, rows.last().1) {
                Some(d) => (
                    text_map_put(acc.0, k, add_counters(total_of(acc.0, k), d)),
                    push_sample(acc.1, k, DiskRate { elapsed_ms, interval_ms, sectors: sat_add(d[1], d[3]) }),
                    acc.2,
                ),
                None => (acc.0, acc.1, sat_inc(acc.2)),
            },
        }
    }
}

/// One record folded into the projection. A snapshot is compared with the
/// previous one only on the same boot and a later clock; otherwise the
/// interval counts as a reset. Either way it becomes the previous snapshot.
pub open spec fn record_step(st: ProjectionState, rec: SessionRecord) -> ProjectionState {
    match rec {
        SessionRecord::Other => st,
        SessionRecord::DiskStats { boot_id, elapsed_ms, raw } => {
            let current = diskstats_rows(lines_of(raw@));
            let acc = match st.0 {
                Some((boot, time, before)) => if boot == boot_id@ && elapsed_ms > time {
                    apply_rows(before, current, elapsed_ms, (elapsed_ms - time) as u64, st.1, st.2, st.3)
                } else {
                    (st.1, st.2, sat_inc(st.3))
                },
                None => (st.1, st.2, st.3),
            };
            (Some((boot_id@, elapsed_ms, current)), acc.0, acc.1, acc.2)
        },
    }
}

pub open spec fn records_fold(st: ProjectionState, recs: Seq<SessionRecord>) -> ProjectionState
    decreases recs.len(),
{
    if recs.len() == 0 {
        st
    } else {
        record_step(records_fold(st, recs.drop_last()), recs.last())
    }
}

fn add_sample(s: &mut Vec<(String, Vec<DiskRate>)>, k: &String, r: DiskRate)
    ensures
        keyed_view(final(s)@) == push_sample(keyed_view(old(s)@), k@, r),
{
    let ghost kv = keyed_view(s@);
    let (i, found) = text_slot(s, k.as_str());
    proof {
        lemma_slot_prefix(kv, i as int, k@, samples_of(kv, k@).push(r));
    }
    if found {
        let (key, mut series) = s.remove(i);
        proof {
            assert(kv.skip(i as int)[0] == kv[i as int]);
            assert(kv[i as int] == (key@, series@));
        }
        series.push(r);
        s.insert(i, (key, series));
        assert(keyed_view(s@) =~= kv.take(i as int) + (seq![(k@, samples_of(kv, k@).push(r))] + kv.skip(i as int).skip(1)));
    } else {
        proof {
            if i < kv.len() {
                assert(kv.skip(i as int)[0] == kv[i as int]);
            } else {
                assert(kv.skip(i as int) =~= Seq::<(Seq<char>, Seq<DiskRate>)>::empty());
            }
        }
        let mut series: Vec<DiskRate> = Vec::new();
        series.push(r);
        assert(series@ =~= seq![r]);
        s.insert(i, (k.clone(), series));
        assert(keyed_view(s@) =~= kv.take(i as int) + (seq![(k@, seq![r])] + kv.skip(i as int)));
    }
}

/// Folds the rows of a snapshot into the totals, samples and reset count,
/// against the previous snapshot `before` of the same boot.
fn apply_snapshot(
    before: &Vec<(String, [u64; 4])>,
    rows: &Vec<(String, [u64; 4])>,
    elapsed_ms: u64,
    interval_ms: u64,
    totals: &mut Vec<(String, [u64; 4])>,
    samples: &mut Vec<(String, Vec<DiskRate>)>,
    resets: &mut usize,
)
    ensures
        (keyed_view(final(totals)@), keyed_view(final(samples)@), *final(resets) as nat)
            == apply_rows(keyed_view(before@), keyed_view(rows@), elapsed_ms, interval_ms,
                keyed_view(old(totals)@), keyed_view(old(samples)@), *old(resets) as nat),
{
    let ghost bv = keyed_view(before@);
    let ghost rv = keyed_view(rows@);
    let mut j: usize = 0;
    while j < rows.len()
        invariant
            j <= rows@.len(),
            bv == keyed_view(before@),
            rv == keyed_view(rows@),
            (keyed_view(totals@), keyed_view(samples@), *resets as nat)
                == apply_rows(bv, rv.take(j as int), elapsed_ms, interval_ms,
                    keyed_view(old(totals)@), keyed_view(old(samples)@), *old(resets) as nat),
        decreases rows.len() - j,
    {
        proof {
            assert(rv.take(j + 1).drop_last() == rv.take(j as int));
            assert(rv.take(j + 1).last() == rv[j as int]);
        }
        let key = &rows[j].0;
        let after = rows[j].1;
        match diskstat(before, key.as_str()) {
            None => {},
            Some(prev) => {
                match disk_delta(&prev, &after) {
                    Some(d) => {
                        proof {
                            assert(d@ =~= Seq::new(4, |i: int| (after@[i] - prev@[i]) as u64));
                        }
                        let cur = match diskstat(totals, key.as_str()) {
                            Some(t) => t,
                            None => [0u64, 0, 0, 0],
                        };
                        let sum: [u64; 4] = [
                            cur[0].saturating_add(d[0]),
                            cur[1].saturating_add(d[1]),
                            cur[2].saturating_add(d[2]),
                            cur[3].saturating_add(d[3]),
                        ];
                        proof {
                            let z: [u64; 4] = [0u64, 0, 0, 0];
                            assert(z@ =~= seq![0u64, 0, 0, 0]);
                            assert(cur@ == total_of(keyed_view(totals@), key@));
                            assert(sum@ =~= add_counters(cur@, d@));
                        }
                        text_map_set(totals, key.clone(), sum);
                        add_sample(samples, key, DiskRate { elapsed_ms, interval_ms, sectors: d[1].saturating_add(d[3]) });
                    },
                    None => {
                        if *resets < usize::MAX {
                            *resets = *resets + 1;
                        }
                    },
                }
            },
        }
        j += 1;
    }
    proof { assert(rv.take(rows@.len() as int) == rv); }
}

impl DiskStatsView {
    pub fn new() -> (v: Self)
        ensures
            v.processed == 0,
            projection_state(v) == empty_projection(),
    {
        let v = DiskStatsView { processed: 0, previous: None, totals: Vec::new(), samples: Vec::new(), reset_intervals: 0 };
        assert(projection_state(v) =~= empty_projection());
        v
    }

    fn apply(&mut self, rec: &SessionRecord)
        ensures
            final(self).processed == old(self).processed,
            projection_state(*final(self)) == record_step(projection_state(*old(self)), *rec),
    {
        match rec {
            SessionRecord::Other => {},
            SessionRecord::DiskStats { boot_id, elapsed_ms, raw } => {
                let current = parse_diskstats(raw.as_str());
                let mut previous = None;
                std::mem::swap(&mut previous, &mut self.previous);
                match previous {
                    Some((boot, time, before)) => {
                        if boot == *boot_id && *elapsed_ms > time {
                            apply_snapshot(&before, &current, *elapsed_ms, *elapsed_ms - time,
                                &mut self.totals, &mut self.samples, &mut self.reset_intervals);
                        } else if self.reset_intervals < usize::MAX {
                            self.reset_intervals = self.reset_intervals + 1;
                        }
                    },
                    None => {},
                }
                self.previous = Some((boot_id.clone(), *elapsed_ms, current));
            },
        }
    }

    /// Folds in the records not seen yet; a shorter record list than
    /// already processed means a new session, and the projection restarts.
    pub fn sync(&mut self, records: &[SessionRecord])
        ensures
            final(self).processed == records@.len(),
            projection_state(*final(self)) == (if old(self).processed > records@.len() {
                records_fold(empty_projection(), records@)
            } else {
                records_fold(projection_state(*old(self)), records@.skip(old(self).processed as int))
            }),
    {
        let start = if self.processed > records.len() {
            *self = DiskStatsView::new();
            0
        } else {
            self.processed
        };
        let ghost base = projection_state(*self);
        let mut i = start;
        proof { assert(records@.subrange(start as int, start as int) =~= Seq::<SessionRecord>::empty()); }
        while i < records.len()
            invariant
                start <= i <= records@.len(),
                projection_state(*self) == records_fold(base, records@.subrange(start as int, i as int)),
            decreases records.len() - i,
        {
            proof {
                assert(records@.subrange(start as int, i + 1).drop_last() =~= records@.subrange(start as int, i as int));
            }
            self.apply(&records[i]);
            i += 1;
        }
        self.processed = records.len();
        proof {
            assert(records@.subrange(start as int, records@.len() as int) =~= records@.skip(start as int));
            if start == 0 {
                assert(records@.skip(0) =~= records@);
            }
        }
    }
}

impl Default for DiskStatsView {
    fn default() -> (v: Self)
        ensures
            v.processed == 0,
            projection_state(v) == empty_projection(),
    {
        DiskStatsView::new()
    }
}

/// The samples recorded for `k`.
pub open spec fn samples_of(s: Seq<(Seq<char>, Seq<DiskRate>)>, k: Seq<char>) -> Seq<DiskRate> {
    match text_map_get(s, k) {
        Some(x) => x,
        None => seq![],
    }
}

/// A device absent from the previous snapshot keeps its totals and samples.
proof fn lemma_apply_rows_absent(
    before: Seq<(Seq<char>, Seq<u64>)>,
    rows: Seq<(Seq<char>, Seq<u64>)>,
    elapsed_ms: u64,
    interval_ms: u64,
    totals: Seq<(Seq<char>, Seq<u64>)>,
    samples: Seq<(Seq<char>, Seq<DiskRate>)>,
    resets: nat,
    k: Seq<char>,
)
    requires
        text_map_get(before, k) is None,
    ensures
        total_of(apply_rows(before, rows, elapsed_ms, interval_ms, totals, samples, resets).0, k) == total_of(totals, k),
        samples_of(apply_rows(before, rows, elapsed_ms, interval_ms, totals, samples, resets).1, k) == samples_of(samples, k),
    decreases rows.len(),
{
    if rows.len() > 0 {
        lemma_apply_rows_absent(before, rows.drop_last(), elapsed_ms, interval_ms, totals, samples, resets, k);
        let acc = apply_rows(before, rows.drop_last(), elapsed_ms, interval_ms, totals, samples, resets);
        let k2 = rows.last().0;
        if let Some(b) = text_map_get(before, k2) {
            if let Some(d) = counters_delta(b, rows.last().1) {
                lemma_put_get(acc.0, k2, add_counters(total_of(acc.0, k2), d), k);
                lemma_put_get(acc.1, k2, samples_of(acc.1, k2).push(DiskRate { elapsed_ms, interval_ms, sectors: sat_add(d[1], d[3]) }), k);
            }
        }
    }
}

/// Totals only grow while a snapshot is folded in.
proof fn lemma_apply_rows_grow(
    before: Seq<(Seq<char>, Seq<u64>)>,
    rows: Seq<(Seq<char>, Seq<u64>)>,
    elapsed_ms: u64,
    interval_ms: u64,
    totals: Seq<(Seq<char>, Seq<u64>)>,
    samples: Seq<(Seq<char>, Seq<DiskRate>)>,
    resets: nat,
    k: Seq<char>,
    c: int,
)
    requires
        0 <= c < 4,
    ensures
        total_of(apply_rows(before, rows, elapsed_ms, interval_ms, totals, samples, resets).0, k)[c] >= total_of(totals, k)[c],
    decreases rows.len(),
{
    if rows.len() > 0 {
        lemma_apply_rows_grow(before, rows.drop_last(), elapsed_ms, interval_ms, totals, samples, resets, k, c);
        let acc = apply_rows(before, rows.drop_last(), elapsed_ms, interval_ms, totals, samples, resets);
        let k2 = rows.last().0;
        if let Some(b) = text_map_get(before, k2) {
            if let Some(d) = counters_delta(b, rows.last().1) {
                lemma_put_get(acc.0, k2, add_counters(total_of(acc.0, k2), d), k);
            }
        }
    }
}

/// Folding records in two steps gives what folding them at once gives: the
/// projection is append-only, and records already folded in are never
/// counted again.
pub proof fn law_projection_appends(st: ProjectionState, a: Seq<SessionRecord>, b: Seq<SessionRecord>)
    ensures
        records_fold(records_fold(st, a), b) == records_fold(st, a + b),
    decreases b.len(),
{
    if b.len() == 0 {
        assert(a + b =~= a);
    } else {
        law_projection_appends(st, a, b.drop_last());
        assert((a + b).drop_last() =~= a + b.drop_last());
        assert((a + b).last() == b.last());
    }
}

/// A snapshot from another boot, or one whose clock did not advance past
/// the previous snapshot, adds no delta and counts one reset interval.
pub proof fn law_no_delta_across_reboot(st: ProjectionState, rec: SessionRecord)
    requires
        rec matches SessionRecord::DiskStats { boot_id, elapsed_ms, .. }
            && st.0 matches Some((boot, time, _))
            && (boot != boot_id@ || elapsed_ms <= time),
    ensures
        record_step(st, rec).1 == st.1,
        record_step(st, rec).2 == st.2,
        record_step(st, rec).3 == sat_inc(st.3),
{
}

/// A device that was not in the previous snapshot gains no delta and no
/// sample from the next one.
pub proof fn law_new_device_has_no_delta(st: ProjectionState, rec: SessionRecord, k: Seq<char>)
    requires
        st.0 matches Some((_, _, before)) && text_map_get(before, k) is None,
    ensures
        total_of(record_step(st, rec).1, k) == total_of(st.1, k),
        samples_of(record_step(st, rec).2, k) == samples_of(st.2, k),
{
    if let SessionRecord::DiskStats { boot_id, elapsed_ms, raw } = rec {
        if let Some((boot, time, before)) = st.0 {
            if boot == boot_id@ && elapsed_ms > time {
                lemma_apply_rows_absent(before, diskstats_rows(lines_of(raw@)), elapsed_ms,
                    (elapsed_ms - time) as u64, st.1, st.2, st.3, k);
            }
        }
    }
}

/// No record ever lowers a device's total counters.
pub proof fn law_totals_never_decrease(st: ProjectionState, rec: SessionRecord, k: Seq<char>, c: int)
    requires
        0 <= c < 4,
    ensures
        total_of(record_step(st, rec).1, k)[c] >= total_of(st.1, k)[c],
{
    if let SessionRecord::DiskStats { boot_id, elapsed_ms, raw } = rec {
        if let Some((boot, time, before)) = st.0 {
            if boot == boot_id@ && elapsed_ms > time {
                lemma_apply_rows_grow(before, diskstats_rows(lines_of(raw@)), elapsed_ms,
                    (elapsed_ms - time) as u64, st.1, st.2, st.3, k, c);
            }
        }
    }
}


proof fn lemma_apply_rows_ascending(
    before: Seq<(Seq<char>, Seq<u64>)>,
    rows: Seq<(Seq<char>, Seq<u64>)>,
    elapsed_ms: u64,
    interval_ms: u64,
    totals: Seq<(Seq<char>, Seq<u64>)>,
    samples: Seq<(Seq<char>, Seq<DiskRate>)>,
    resets: nat,
)
    requires
        keys_ascending(totals),
        keys_ascending(samples),
    ensures
        keys_ascending(apply_rows(before, rows, elapsed_ms, interval_ms, totals, samples, resets).0),
        keys_ascending(apply_rows(before, rows, elapsed_ms, interval_ms, totals, samples, resets).1),
    decreases rows.len(),
{
    if rows.len() > 0 {
        lemma_apply_rows_ascending(before, rows.drop_last(), elapsed_ms, interval_ms, totals, samples, resets);
        let acc = apply_rows(before, rows.drop_last(), elapsed_ms, interval_ms, totals, samples, resets);
        let k = rows.last().0;
        if let Some(b) = text_map_get(before, k) {
            if let Some(d) = counters_delta(b, rows.last().1) {
                lemma_put_ascending(acc.0, k, add_counters(total_of(acc.0, k), d));
                lemma_put_ascending(acc.1, k, samples_of(acc.1, k).push(DiskRate { elapsed_ms, interval_ms, sectors: sat_add(d[1], d[3]) }));
            }
        }
    }
}

/// The totals and samples stay keyed by device in strictly ascending order,
/// as a `BTreeMap` keeps them.
pub proof fn law_projection_in_key_order(st: ProjectionState, recs: Seq<SessionRecord>)
    requires
        keys_ascending(st.1),
        keys_ascending(st.2),
    ensures
        keys_ascending(records_fold(st, recs).1),
        keys_ascending(records_fold(st, recs).2),
    decreases recs.len(),
{
    if recs.len() > 0 {
        law_projection_in_key_order(st, recs.drop_last());
        let s = records_fold(st, recs.drop_last());
        if let SessionRecord::DiskStats { boot_id, elapsed_ms, raw } = recs.last() {
            if let Some((boot, time, before)) = s.0 {
                if boot == boot_id@ && elapsed_ms > time {
                    lemma_apply_rows_ascending(before, diskstats_rows(lines_of(raw@)), elapsed_ms,
                        (elapsed_ms - time) as u64, s.1, s.2, s.3);
                }
            }
        }
    }
}

/// A record that is not a diskstats snapshot changes nothing: the previous
/// snapshot, totals, samples and reset count all stay as they were.
pub proof fn law_other_records_change_nothing(st: ProjectionState)
    ensures
        record_step(st, SessionRecord::Other) == st,
{
}

/// Records that are not snapshots may stand anywhere in a session without
/// changing the projection, so the interval between two snapshots is never
/// lost to a record between them.
pub proof fn law_other_records_are_skipped(st: ProjectionState, a: Seq<SessionRecord>, b: Seq<SessionRecord>)
    ensures
        records_fold(st, a + seq![SessionRecord::Other] + b) == records_fold(st, a + b),
{
    law_projection_appends(st, a + seq![SessionRecord::Other], b);
    law_projection_appends(st, a, seq![SessionRecord::Other]);
    law_projection_appends(st, a, b);
    let s1 = records_fold(st, a);
    let o = seq![SessionRecord::Other];
    assert(o.drop_last() =~= Seq::<SessionRecord>::empty());
    assert(o.last() == SessionRecord::Other);
    assert(records_fold(s1, o.drop_last()) == s1);
    assert(records_fold(s1, o) == record_step(s1, SessionRecord::Other));
}

} // verus!
