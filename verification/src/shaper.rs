//! The decisions taken for each intercepted packet: which process owns it,
//! which bucket pays for it, how long it waits, and the traffic counted in
//! the current statistics window.

use vstd::prelude::*;
use crate::assoc::{
    assoc_map, keys_distinct, lemma_assoc_absent, lemma_assoc_empty, lemma_assoc_index,
    lemma_assoc_push, lemma_assoc_update,
};
use crate::flow_table::FlowTable;
use crate::packet::{packet_flow_key, parse_flow_key_from_packet, FlowKey};
use crate::rules::{find_rule, has_rule, is_first_rule_for, rule_for, ProcessRule};
use crate::text::{lowercase, same_name, to_lowercase};
use crate::token_bucket::{capacity, consumed, TokenBucket, MAX_WAIT_NANOS, NANOS_PER_SECOND};

verus! {

/// A bucket's state as (tokens, rate, time of last refill).
pub type BucketView = (int, nat, nat);

/// The download and upload buckets of one process rule.
#[derive(Clone, Copy)]
struct ProcessBuckets {
    dl_bucket: TokenBucket,
    ul_bucket: TokenBucket,
}

impl View for ProcessBuckets {
    type V = (BucketView, BucketView);

    closed spec fn view(&self) -> (BucketView, BucketView) {
        (self.dl_bucket@, self.ul_bucket@)
    }
}

/// A pair of full buckets for the given download and upload rates, made at
/// time `now`.
pub open spec fn fresh_buckets(download_rate: u64, upload_rate: u64, now: nat) -> (
    BucketView,
    BucketView,
) {
    (
        (capacity(download_rate as nat), download_rate as nat, now),
        (capacity(upload_rate as nat), upload_rate as nat, now),
    )
}

/// `total + size`, held at `u64::MAX` rather than past it.
pub open spec fn saturating_sum(total: u64, size: nat) -> u64 {
    if total + size > u64::MAX {
        u64::MAX
    } else {
        (total + size) as u64
    }
}

/// A (download, upload) byte count after a packet of `size` bytes in the
/// given direction.
pub open spec fn count_packet(counts: (u64, u64), outbound: bool, size: nat) -> (u64, u64) {
    if outbound {
        (counts.0, saturating_sum(counts.1, size))
    } else {
        (saturating_sum(counts.0, size), counts.1)
    }
}

/// How a pair of (download, upload) buckets goes from `before` to `after`
/// for a packet arriving at time `now`: the bucket of the packet's direction
/// pays for it when its limit applies, the other one is untouched, and `wait`
/// is what the paying bucket asks (none when no bucket pays).
pub open spec fn pair_charged(
    before: (BucketView, BucketView),
    after: (BucketView, BucketView),
    outbound: bool,
    limit_applies: bool,
    now: nat,
    size: nat,
    wait: nat,
) -> bool {
    if outbound {
        after.0 == before.0 && if limit_applies {
            consumed(before.1, after.1, now, size, wait)
        } else {
            after.1 == before.1 && wait == 0
        }
    } else {
        after.1 == before.1 && if limit_applies {
            consumed(before.0, after.0, now, size, wait)
        } else {
            after.0 == before.0 && wait == 0
        }
    }
}

/// The name of the process that owns a packet, if its flow is known.
pub open spec fn packet_owner(
    data: Seq<u8>,
    outbound: bool,
    flows: Map<FlowKey, (u32, Seq<char>)>,
) -> Option<Seq<char>> {
    match packet_flow_key(data, outbound) {
        Some(k) => if flows.contains_key(k) {
            Some(flows[k].1)
        } else {
            None
        },
        None => None,
    }
}

/// The rule that governs a packet: the first rule for its owner's name,
/// ignoring case.
pub open spec fn governing_rule(
    data: Seq<u8>,
    outbound: bool,
    flows: Map<FlowKey, (u32, Seq<char>)>,
    rules: Seq<ProcessRule>,
) -> Option<int> {
    match packet_owner(data, outbound, flows) {
        Some(name) => rule_for(rules, name),
        None => None,
    }
}

/// Whether a rule limits traffic in the given direction.
pub open spec fn rule_limits(rule: ProcessRule, outbound: bool) -> bool {
    if outbound {
        rule.upload_limit > 0
    } else {
        rule.download_limit > 0
    }
}

/// Waits longer than this many nanoseconds (1 ms) are worth sleeping for.
pub const MIN_DELAY_NANOS: u64 = 1_000_000;

/// Whether a packet told to wait `wait_nanos` is held back before it is sent.
pub fn needs_delay(wait_nanos: u64) -> (r: bool)
    ensures
        r == (wait_nanos > MIN_DELAY_NANOS),
{
    wait_nanos > MIN_DELAY_NANOS
}

/// Whether a statistics window that began `elapsed_nanos` ago has lasted its
/// second and is to be reported.
pub fn window_is_over(elapsed_nanos: u128) -> (r: bool)
    ensures
        r == (elapsed_nanos >= NANOS_PER_SECOND),
{
    elapsed_nanos >= 1_000_000_000
}

/// The download plus upload bytes of a report row (a process, the bytes it
/// downloaded and the bytes it uploaded in the window).
pub open spec fn row_total(row: (Seq<char>, u64, u64)) -> int {
    row.1 + row.2
}

/// The views of report rows.
pub open spec fn row_views(rows: Seq<(String, u64, u64)>) -> Seq<(Seq<char>, u64, u64)> {
    rows.map_values(|r: (String, u64, u64)| (r.0@, r.1, r.2))
}

/// `rows` lists each process of `counters` that moved any bytes, once, with
/// its counts, busiest first (by download plus upload bytes).
pub open spec fn is_window_report(
    counters: Map<Seq<char>, (u64, u64)>,
    rows: Seq<(Seq<char>, u64, u64)>,
) -> bool {
    &&& forall|i: int|
        0 <= i < rows.len() ==> {
            &&& counters.contains_key(#[trigger] rows[i].0)
            &&& counters[rows[i].0] == (rows[i].1, rows[i].2)
            &&& rows[i].1 > 0 || rows[i].2 > 0
        }
    &&& forall|name: Seq<char>|
        counters.contains_key(name) && (counters[name].0 > 0 || counters[name].1 > 0) ==> exists|
            i: int,
        |
            0 <= i < rows.len() && #[trigger] rows[i].0 == name
    &&& forall|i: int, j: int| 0 <= i < j < rows.len() ==> #[trigger] rows[i].0 != #[trigger] rows[j].0
    &&& busiest_first(rows)
}

/// Rows in order of download plus upload bytes, most first.
pub open spec fn busiest_first(rows: Seq<(Seq<char>, u64, u64)>) -> bool {
    forall|i: int, j: int|
        0 <= i < j < rows.len() ==> row_total(#[trigger] rows[i]) >= row_total(#[trigger] rows[j])
}

/// Inserts a row where its total keeps the rows busiest first, after every
/// row with as much traffic.
fn insert_by_total(rows: &mut Vec<(String, u64, u64)>, name: String, dl: u64, ul: u64)
    requires
        busiest_first(row_views(old(rows)@)),
    ensures
        busiest_first(row_views(final(rows)@)),
        exists|p: int|
            0 <= p <= old(rows)@.len() && row_views(final(rows)@) == row_views(old(rows)@).insert(
                p,
                (name@, dl, ul),
            ),
{
    let total: u128 = dl as u128 + ul as u128;
    let mut p: usize = 0;
    while p < rows.len() && (rows[p].1 as u128 + rows[p].2 as u128) >= total
        invariant
            p <= rows@.len(),
            forall|q: int| 0 <= q < p ==> row_total(#[trigger] row_views(rows@)[q]) >= total,
        decreases rows@.len() - p,
    {
        p = p + 1;
    }
    let ghost before = row_views(rows@);
    let ghost row = (name@, dl, ul);
    rows.insert(p, (name, dl, ul));
    proof {
        let after = row_views(rows@);
        assert(after =~= before.insert(p as int, row));
        assert forall|a: int, b: int| 0 <= a < b < after.len() implies row_total(
            #[trigger] after[a],
        ) >= row_total(#[trigger] after[b]) by {
            if a == p {
                assert(after[b] == before[b - 1]);
                if p < before.len() {
                    assert(row_total(before[p as int]) < total);
                    if b - 1 > p {
                        assert(row_total(before[p as int]) >= row_total(before[b - 1]));
                    }
                }
            } else if b == p {
                assert(after[a] == before[a]);
            } else {
                let a2 = if a < p {
                    a
                } else {
                    a - 1
                };
                let b2 = if b < p {
                    b
                } else {
                    b - 1
                };
                assert(after[a] == before[a2] && after[b] == before[b2]);
            }
        }
    }
}

/// A counter with traffic, inserted into a report where the order allows,
/// keeps it a report of the counters with that counter added.
proof fn lemma_report_extend(
    m: Map<Seq<char>, (u64, u64)>,
    rows: Seq<(Seq<char>, u64, u64)>,
    name: Seq<char>,
    counts: (u64, u64),
    p: int,
    rows2: Seq<(Seq<char>, u64, u64)>,
)
    requires
        is_window_report(m, rows),
        !m.contains_key(name),
        counts.0 > 0 || counts.1 > 0,
        0 <= p <= rows.len(),
        rows2 == rows.insert(p, (name, counts.0, counts.1)),
        busiest_first(rows2),
    ensures
        is_window_report(m.insert(name, counts), rows2),
{
    let m2 = m.insert(name, counts);
    assert forall|a: int| 0 <= a < rows2.len() implies {
        &&& m2.contains_key(#[trigger] rows2[a].0)
        &&& m2[rows2[a].0] == (rows2[a].1, rows2[a].2)
        &&& rows2[a].1 > 0 || rows2[a].2 > 0
    } by {
        if a != p {
            let a2 = if a < p {
                a
            } else {
                a - 1
            };
            assert(rows2[a] == rows[a2]);
            assert(m.contains_key(rows[a2].0));
        }
    }
    assert forall|x: Seq<char>|
        m2.contains_key(x) && (m2[x].0 > 0 || m2[x].1 > 0) implies exists|a: int|
            0 <= a < rows2.len() && #[trigger] rows2[a].0 == x by {
        if x == name {
            assert(rows2[p].0 == x);
        } else {
            let a = choose|a: int| 0 <= a < rows.len() && #[trigger] rows[a].0 == x;
            if a < p {
                assert(rows2[a] == rows[a]);
            } else {
                assert(rows2[a + 1] == rows[a]);
            }
        }
    }
    assert forall|a: int, b: int| 0 <= a < b < rows2.len() implies #[trigger] rows2[a].0
        != #[trigger] rows2[b].0 by {
        let a2 = if a < p {
            a
        } else {
            a - 1
        };
        let b2 = if b < p {
            b
        } else {
            b - 1
        };
        if a == p {
            assert(rows2[b] == rows[b2]);
            assert(m.contains_key(rows[b2].0));
        } else if b == p {
            assert(rows2[a] == rows[a2]);
            assert(m.contains_key(rows[a2].0));
        } else {
            assert(rows2[a] == rows[a2] && rows2[b] == rows[b2]);
        }
    }
}

/// A counter without traffic leaves a report as it is.
proof fn lemma_report_skip(
    m: Map<Seq<char>, (u64, u64)>,
    rows: Seq<(Seq<char>, u64, u64)>,
    name: Seq<char>,
    counts: (u64, u64),
)
    requires
        is_window_report(m, rows),
        !m.contains_key(name),
        counts.0 == 0 && counts.1 == 0,
    ensures
        is_window_report(m.insert(name, counts), rows),
{
    let m2 = m.insert(name, counts);
    assert forall|a: int| 0 <= a < rows.len() implies m2.contains_key(#[trigger] rows[a].0) && m2[rows[a].0]
        == (rows[a].1, rows[a].2) by {
        assert(m.contains_key(rows[a].0));
    }
}

/// The traffic of one statistics window.
pub struct WindowReport {
    /// Bytes received in the window.
    pub download_bytes: u64,
    /// Bytes sent in the window.
    pub upload_bytes: u64,
    /// The processes that moved bytes in the window, busiest first.
    pub processes: Vec<(String, u64, u64)>,
}

/// The state of the shaping loop: the global buckets, the buckets of each
/// process rule met so far (by lowercased rule name), and the byte counts of
/// the current statistics window.
pub struct ShapingState {
    dl_bucket: TokenBucket,
    ul_bucket: TokenBucket,
    process_buckets: Vec<(String, ProcessBuckets)>,
    dl_bytes_window: u64,
    ul_bytes_window: u64,
    process_counters: Vec<(String, (u64, u64))>,
}

impl ShapingState {
    closed spec fn bucket_views(v: Seq<(String, ProcessBuckets)>) -> Seq<
        (Seq<char>, (BucketView, BucketView)),
    > {
        v.map_values(|e: (String, ProcessBuckets)| (e.0@, e.1@))
    }

    closed spec fn counter_views(v: Seq<(String, (u64, u64))>) -> Seq<(Seq<char>, (u64, u64))> {
        v.map_values(|e: (String, (u64, u64))| (e.0@, e.1))
    }

    closed spec fn bucket_entries(&self) -> Seq<(Seq<char>, (BucketView, BucketView))> {
        Self::bucket_views(self.process_buckets@)
    }

    closed spec fn counter_entries(&self) -> Seq<(Seq<char>, (u64, u64))> {
        Self::counter_views(self.process_counters@)
    }

    /// The global (download, upload) buckets.
    pub closed spec fn global_buckets(&self) -> (BucketView, BucketView) {
        (self.dl_bucket@, self.ul_bucket@)
    }

    /// The buckets of each rule met so far, by lowercased rule name.
    pub closed spec fn rule_buckets(&self) -> Map<Seq<char>, (BucketView, BucketView)> {
        assoc_map(self.bucket_entries())
    }

    /// The (download, upload) bytes of each process in the current window.
    pub closed spec fn process_counts(&self) -> Map<Seq<char>, (u64, u64)> {
        assoc_map(self.counter_entries())
    }

    /// The (download, upload) bytes of all traffic in the current window.
    pub closed spec fn window_totals(&self) -> (u64, u64) {
        (self.dl_bytes_window, self.ul_bytes_window)
    }

    /// The state's invariant: each rule and each process occurs once.
    #[verifier::type_invariant]
    closed spec fn wf(&self) -> bool {
        &&& keys_distinct(self.bucket_entries())
        &&& keys_distinct(self.counter_entries())
    }

    /// A fresh state with full global buckets for the given rates in bytes
    /// per second (0 for no limit), no rule buckets, and nothing counted.
    pub fn new(download_rate: u64, upload_rate: u64, now_nanos: u128) -> (s: Self)
        ensures
            s.global_buckets() == fresh_buckets(download_rate, upload_rate, now_nanos as nat),
            s.rule_buckets() == Map::<Seq<char>, (BucketView, BucketView)>::empty(),
            s.process_counts() == Map::<Seq<char>, (u64, u64)>::empty(),
            s.window_totals() == (0u64, 0u64),
    {
        let s = ShapingState {
            dl_bucket: TokenBucket::new(download_rate, now_nanos),
            ul_bucket: TokenBucket::new(upload_rate, now_nanos),
            process_buckets: Vec::new(),
            dl_bytes_window: 0,
            ul_bytes_window: 0,
            process_counters: Vec::new(),
        };
        proof {
            assert(s.bucket_entries() =~= Seq::<(Seq<char>, (BucketView, BucketView))>::empty());
            assert(s.counter_entries() =~= Seq::<(Seq<char>, (u64, u64))>::empty());
            lemma_assoc_empty::<Seq<char>, (BucketView, BucketView)>();
            lemma_assoc_empty::<Seq<char>, (u64, u64)>();
        }
        s
    }

    /// Where the buckets of rule key `key` stand, if they exist.
    fn bucket_position(&self, key: &String) -> (r: Option<usize>)
        ensures
            match r {
                Some(i) => i < self.process_buckets@.len() && self.process_buckets@[i as int].0@
                    == key@,
                None => !self.rule_buckets().contains_key(key@),
            },
    {
        let mut i: usize = 0;
        while i < self.process_buckets.len()
            invariant
                i <= self.process_buckets@.len(),
                forall|j: int| 0 <= j < i ==> self.process_buckets@[j].0@ != key@,
            decreases self.process_buckets@.len() - i,
        {
            if self.process_buckets[i].0 == *key {
                return Some(i);
            }
            i = i + 1;
        }
        proof {
            assert forall|j: int| 0 <= j < self.bucket_entries().len() implies self.bucket_entries()[j].0
                != key@ by {
                assert(self.process_buckets@[j].0@ != key@);
            }
            lemma_assoc_absent(self.bucket_entries(), key@);
        }
        None
    }

    /// Where the counter of process `name` stands, if it exists.
    fn counter_position(&self, name: &String) -> (r: Option<usize>)
        ensures
            match r {
                Some(i) => i < self.process_counters@.len() && self.process_counters@[i as int].0@
                    == name@,
                None => !self.process_counts().contains_key(name@),
            },
    {
        let mut i: usize = 0;
        while i < self.process_counters.len()
            invariant
                i <= self.process_counters@.len(),
                forall|j: int| 0 <= j < i ==> self.process_counters@[j].0@ != name@,
            decreases self.process_counters@.len() - i,
        {
            if self.process_counters[i].0 == *name {
                return Some(i);
            }
            i = i + 1;
        }
        proof {
            assert forall|j: int| 0 <= j < self.counter_entries().len() implies self.counter_entries()[j].0
                != name@ by {
                assert(self.process_counters@[j].0@ != name@);
            }
            lemma_assoc_absent(self.counter_entries(), name@);
        }
        None
    }

    /// Charges a packet to the global bucket of its direction.
    fn charge_global(&mut self, outbound: bool, now_nanos: u128, size: usize) -> (wait: u64)
        ensures
            pair_charged(
                old(self).global_buckets(),
                final(self).global_buckets(),
                outbound,
                true,
                now_nanos as nat,
                size as nat,
                wait as nat,
            ),
            wait <= MAX_WAIT_NANOS,
            final(self).rule_buckets() == old(self).rule_buckets(),
            final(self).process_counts() == old(self).process_counts(),
            final(self).window_totals() == old(self).window_totals(),
    {
        proof {
            use_type_invariant(&*self);
        }
        if outbound {
            if self.ul_bucket.rate() > 0 {
                let mut bucket: TokenBucket = self.ul_bucket;
                let wait: u64 = bucket.consume(now_nanos, size);
                self.ul_bucket = bucket;
                wait
            } else {
                0
            }
        } else if self.dl_bucket.rate() > 0 {
            let mut bucket: TokenBucket = self.dl_bucket;
            let wait: u64 = bucket.consume(now_nanos, size);
            self.dl_bucket = bucket;
            wait
        } else {
            0
        }
    }

    /// Charges a packet to the buckets of `rule`, creating full ones for it
    /// first if the rule has none yet.
    fn charge_rule(
        &mut self,
        rule: &ProcessRule,
        outbound: bool,
        now_nanos: u128,
        size: usize,
    ) -> (wait: u64)
        ensures
            ({
                let key = lowercase(rule.process_name@);
                let before = if old(self).rule_buckets().contains_key(key) {
                    old(self).rule_buckets()[key]
                } else {
                    fresh_buckets(rule.download_limit, rule.upload_limit, now_nanos as nat)
                };
                &&& final(self).rule_buckets().contains_key(key)
                &&& final(self).rule_buckets() == old(self).rule_buckets().insert(
                    key,
                    final(self).rule_buckets()[key],
                )
                &&& pair_charged(
                    before,
                    final(self).rule_buckets()[key],
                    outbound,
                    rule_limits(*rule, outbound),
                    now_nanos as nat,
                    size as nat,
                    wait as nat,
                )
            }),
            wait <= MAX_WAIT_NANOS,
            final(self).global_buckets() == old(self).global_buckets(),
            final(self).process_counts() == old(self).process_counts(),
            final(self).window_totals() == old(self).window_totals(),
    {
        proof {
            use_type_invariant(&*self);
        }
        let key: String = to_lowercase(rule.process_name.as_str());
        let ghost before = if old(self).rule_buckets().contains_key(key@) {
            old(self).rule_buckets()[key@]
        } else {
            fresh_buckets(rule.download_limit, rule.upload_limit, now_nanos as nat)
        };
        let position: Option<usize> = self.bucket_position(&key);
        let ghost old_entries = self.bucket_entries();
        let mut buckets: Vec<(String, ProcessBuckets)> = Vec::new();
        std::mem::swap(&mut buckets, &mut self.process_buckets);
        let p: usize = match position {
            Some(p) => {
                proof {
                    lemma_assoc_index(old_entries, p as int);
                }
                p
            },
            None => {
                let fresh = ProcessBuckets {
                    dl_bucket: TokenBucket::new(rule.download_limit, now_nanos),
                    ul_bucket: TokenBucket::new(rule.upload_limit, now_nanos),
                };
                proof {
                    lemma_assoc_push(old_entries, key@, fresh@);
                }
                buckets.push((key.clone(), fresh));
                proof {
                    assert(Self::bucket_views(buckets@) =~= old_entries.push((key@, fresh@)));
                    lemma_assoc_index(
                        Self::bucket_views(buckets@),
                        Self::bucket_views(buckets@).len() - 1,
                    );
                }
                buckets.len() - 1
            },
        };
        let ghost mid_entries = Self::bucket_views(buckets@);
        let ghost mid = assoc_map(mid_entries);
        assert(keys_distinct(mid_entries));
        assert(mid_entries[p as int].0 == key@);
        assert(mid.contains_key(key@) && mid[key@] == before) by {
            lemma_assoc_index(mid_entries, p as int);
        }
        let mut pb: ProcessBuckets = buckets[p].1;
        let wait: u64 = if outbound {
            if rule.upload_limit > 0 {
                pb.ul_bucket.consume(now_nanos, size)
            } else {
                0
            }
        } else if rule.download_limit > 0 {
            pb.dl_bucket.consume(now_nanos, size)
        } else {
            0
        };
        proof {
            lemma_assoc_update(mid_entries, p as int, pb@);
        }
        buckets.set(p, (key, pb));
        proof {
            assert(Self::bucket_views(buckets@) =~= mid_entries.update(p as int, (key@, pb@)));
            assert(mid.insert(key@, pb@) =~= old(self).rule_buckets().insert(key@, pb@));
        }
        self.process_buckets = buckets;
        wait
    }

    /// Counts a packet in the window totals and, when its owner is known, in
    /// the owner's counter.
    fn count_traffic(&mut self, owner: &Option<String>, outbound: bool, size: usize)
        ensures
            final(self).window_totals() == count_packet(
                old(self).window_totals(),
                outbound,
                size as nat,
            ),
            final(self).process_counts() == match owner {
                Some(name) => old(self).process_counts().insert(
                    name@,
                    count_packet(
                        if old(self).process_counts().contains_key(name@) {
                            old(self).process_counts()[name@]
                        } else {
                            (0u64, 0u64)
                        },
                        outbound,
                        size as nat,
                    ),
                ),
                None => old(self).process_counts(),
            },
            final(self).global_buckets() == old(self).global_buckets(),
            final(self).rule_buckets() == old(self).rule_buckets(),
    {
        proof {
            use_type_invariant(&*self);
        }
        let bytes: u64 = size as u64;
        if let Some(name) = owner {
            let ghost entries = self.counter_entries();
            let position: Option<usize> = self.counter_position(name);
            let mut counters: Vec<(String, (u64, u64))> = Vec::new();
            std::mem::swap(&mut counters, &mut self.process_counters);
            match position {
                Some(p) => {
                    let c: (u64, u64) = counters[p].1;
                    proof {
                        lemma_assoc_index(entries, p as int);
                    }
                    let updated: (u64, u64) = if outbound {
                        (c.0, c.1.saturating_add(bytes))
                    } else {
                        (c.0.saturating_add(bytes), c.1)
                    };
                    proof {
                        lemma_assoc_update(entries, p as int, updated);
                    }
                    counters.set(p, (name.clone(), updated));
                    assert(Self::counter_views(counters@) =~= entries.update(
                        p as int,
                        (name@, updated),
                    ));
                },
                None => {
                    let updated: (u64, u64) = if outbound {
                        (0, bytes)
                    } else {
                        (bytes, 0)
                    };
                    proof {
                        lemma_assoc_push(entries, name@, updated);
                    }
                    counters.push((name.clone(), updated));
                    assert(Self::counter_views(counters@) =~= entries.push((name@, updated)));
                },
            }
            self.process_counters = counters;
        }
        if outbound {
            self.ul_bytes_window = self.ul_bytes_window.saturating_add(bytes);
        } else {
            self.dl_bytes_window = self.dl_bytes_window.saturating_add(bytes);
        }
    }

    /// Takes the decisions for one intercepted packet of `data`, travelling in
    /// the given direction and arriving at time `now_nanos`: finds the process that owns its flow, charges the
    /// packet to the buckets of the first rule for that process (ignoring
    /// case) or else to the global bucket, counts its bytes, and returns the
    /// nanoseconds it is to wait before it is sent.
    pub fn on_packet(
        &mut self,
        data: &[u8],
        is_outbound: bool,
        now_nanos: u128,
        flows: &FlowTable,
        rules: &Vec<ProcessRule>,
    ) -> (wait: u64)
        ensures
            wait <= MAX_WAIT_NANOS,
            ({
                let size = data@.len();
                let owner = packet_owner(data@, is_outbound, flows@);
                match governing_rule(data@, is_outbound, flows@, rules@) {
                    Some(i) => {
                        let rule = rules@[i];
                        let key = lowercase(rule.process_name@);
                        let before = if old(self).rule_buckets().contains_key(key) {
                            old(self).rule_buckets()[key]
                        } else {
                            fresh_buckets(
                                rule.download_limit,
                                rule.upload_limit,
                                now_nanos as nat,
                            )
                        };
                        &&& final(self).global_buckets() == old(self).global_buckets()
                        &&& final(self).rule_buckets().contains_key(key)
                        &&& final(self).rule_buckets() == old(self).rule_buckets().insert(
                            key,
                            final(self).rule_buckets()[key],
                        )
                        &&& pair_charged(
                            before,
                            final(self).rule_buckets()[key],
                            is_outbound,
                            rule_limits(rule, is_outbound),
                            now_nanos as nat,
                            size,
                            wait as nat,
                        )
                    },
                    None => {
                        &&& final(self).rule_buckets() == old(self).rule_buckets()
                        &&& pair_charged(
                            old(self).global_buckets(),
                            final(self).global_buckets(),
                            is_outbound,
                            true,
                            now_nanos as nat,
                            size,
                            wait as nat,
                        )
                    },
                }
            }),
            final(self).window_totals() == count_packet(
                old(self).window_totals(),
                is_outbound,
                data@.len(),
            ),
            final(self).process_counts() == match packet_owner(data@, is_outbound, flows@) {
                Some(name) => old(self).process_counts().insert(
                    name,
                    count_packet(
                        if old(self).process_counts().contains_key(name) {
                            old(self).process_counts()[name]
                        } else {
                            (0u64, 0u64)
                        },
                        is_outbound,
                        data@.len(),
                    ),
                ),
                None => old(self).process_counts(),
            },
    {
        let size: usize = data.len();
        let owner: Option<String> = match parse_flow_key_from_packet(data, is_outbound) {
            Some(key) => match flows.lookup(&key) {
                Some(info) => Some(info.name),
                None => None,
            },
            None => None,
        };
        assert(owner matches Some(n) ==> packet_owner(data@, is_outbound, flows@) == Some(n@));
        assert(owner is None ==> packet_owner(data@, is_outbound, flows@) is None);
        let rule_index: Option<usize> = match &owner {
            Some(name) => find_rule(rules, name.as_str()),
            None => None,
        };
        let wait: u64 = match rule_index {
            Some(i) => self.charge_rule(&rules[i], is_outbound, now_nanos, size),
            None => self.charge_global(is_outbound, now_nanos, size),
        };
        self.count_traffic(&owner, is_outbound, size);
        wait
    }

    /// Ends the current statistics window: returns its totals and the
    /// processes that moved bytes in it, busiest first, and starts a new
    /// window with nothing counted. The buckets are untouched.
    pub fn close_window(&mut self) -> (r: WindowReport)
        ensures
            r.download_bytes == old(self).window_totals().0,
            r.upload_bytes == old(self).window_totals().1,
            is_window_report(old(self).process_counts(), row_views(r.processes@)),
            final(self).window_totals() == (0u64, 0u64),
            final(self).process_counts() == Map::<Seq<char>, (u64, u64)>::empty(),
            final(self).global_buckets() == old(self).global_buckets(),
            final(self).rule_buckets() == old(self).rule_buckets(),
    {
        proof {
            use_type_invariant(&*self);
        }
        let ghost ev = self.counter_entries();
        let n: usize = self.process_counters.len();
        let mut rows: Vec<(String, u64, u64)> = Vec::new();
        let mut i: usize = 0;
        proof {
            assert(ev.take(0) =~= Seq::<(Seq<char>, (u64, u64))>::empty());
            lemma_assoc_empty::<Seq<char>, (u64, u64)>();
            assert(row_views(rows@) =~= Seq::<(Seq<char>, u64, u64)>::empty());
        }
        while i < n
            invariant
                n == self.process_counters@.len(),
                ev == self.counter_entries(),
                keys_distinct(ev),
                i <= n,
                is_window_report(assoc_map(ev.take(i as int)), row_views(rows@)),
            decreases n - i,
        {
            let name: &String = &self.process_counters[i].0;
            let counts: (u64, u64) = self.process_counters[i].1;
            let ghost m = assoc_map(ev.take(i as int));
            proof {
                assert(ev[i as int] == (name@, counts));
                assert(ev.take(i + 1) =~= ev.take(i as int).push((name@, counts)));
                assert(keys_distinct(ev.take(i as int)));
                assert forall|j: int| 0 <= j < ev.take(i as int).len() implies ev.take(
                    i as int,
                )[j].0 != name@ by {
                    assert(ev[j].0 != ev[i as int].0);
                }
                lemma_assoc_absent(ev.take(i as int), name@);
                lemma_assoc_push(ev.take(i as int), name@, counts);
            }
            if counts.0 > 0 || counts.1 > 0 {
                let ghost before = row_views(rows@);
                insert_by_total(&mut rows, name.clone(), counts.0, counts.1);
                proof {
                    let p = choose|p: int|
                        0 <= p <= before.len() && row_views(rows@) == before.insert(
                            p,
                            (name@, counts.0, counts.1),
                        );
                    lemma_report_extend(m, before, name@, counts, p, row_views(rows@));
                }
            } else {
                proof {
                    lemma_report_skip(m, row_views(rows@), name@, counts);
                }
            }
            i = i + 1;
        }
        proof {
            assert(ev.take(n as int) =~= ev);
        }
        let report = WindowReport {
            download_bytes: self.dl_bytes_window,
            upload_bytes: self.ul_bytes_window,
            processes: rows,
        };
        self.process_counters = Vec::new();
        self.dl_bytes_window = 0;
        self.ul_bytes_window = 0;
        proof {
            assert(self.counter_entries() =~= Seq::<(Seq<char>, (u64, u64))>::empty());
            lemma_assoc_empty::<Seq<char>, (u64, u64)>();
        }
        report
    }
}

/// A rule added for a process that had none governs that process's packets:
/// once `rule` is appended to rules where no rule names the packet's owner
/// (ignoring case), the packet is charged to `rule`.
pub proof fn lemma_added_rule_governs_packets(
    data: Seq<u8>,
    outbound: bool,
    flows: Map<FlowKey, (u32, Seq<char>)>,
    rules: Seq<ProcessRule>,
    rule: ProcessRule,
)
    requires
        packet_owner(data, outbound, flows) is Some,
        same_name(rule.process_name@, packet_owner(data, outbound, flows)->0),
        !has_rule(rules, packet_owner(data, outbound, flows)->0),
    ensures
        governing_rule(data, outbound, flows, rules.push(rule)) == Some(rules.len() as int),
{
    let owner = packet_owner(data, outbound, flows)->0;
    let r2 = rules.push(rule);
    assert forall|j: int| 0 <= j < rules.len() implies !same_name(
        #[trigger] r2[j].process_name@,
        owner,
    ) by {
        assert(r2[j] == rules[j]);
    }
    assert(is_first_rule_for(r2, owner, rules.len() as int));
    let k = choose|k: int| is_first_rule_for(r2, owner, k);
    if k < rules.len() {
        assert(!same_name(r2[k].process_name@, owner));
    }
}

/// A rule limits each direction on its own: a packet charged under `rule` is
/// paid for by the bucket of its direction exactly when the rule's limit for
/// that direction is above 0, whatever the other limit is; otherwise neither
/// bucket changes and the packet does not wait.
pub proof fn lemma_rule_limits_each_direction(
    rule: ProcessRule,
    outbound: bool,
    before: (BucketView, BucketView),
    after: (BucketView, BucketView),
    now: nat,
    size: nat,
    wait: nat,
)
    requires
        pair_charged(before, after, outbound, rule_limits(rule, outbound), now, size, wait),
    ensures
        !outbound && rule.download_limit > 0 ==> after.1 == before.1 && consumed(
            before.0,
            after.0,
            now,
            size,
            wait,
        ),
        !outbound && rule.download_limit == 0 ==> after == before && wait == 0,
        outbound && rule.upload_limit > 0 ==> after.0 == before.0 && consumed(
            before.1,
            after.1,
            now,
            size,
            wait,
        ),
        outbound && rule.upload_limit == 0 ==> after == before && wait == 0,
{
}

} // verus!
