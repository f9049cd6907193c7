//! The traffic ledger: cumulative bytes per process, speeds over the last
//! tick, and eviction of idle entries.
//!
//! Clock readings are microseconds; speeds are whole bytes per second.

use dashmap::DashMap;
use vstd::prelude::*;

use crate::clock::now_micros;
use crate::process_mapper::{capped_count, count_owned, ProcessMapper};
use crate::shared_map::lists_entries;
use crate::text::{decimal, push_decimal};
use vstd::string::StringExecFns;

verus! {

/// Running byte counters of one process.
#[derive(Clone, Copy, Debug, PartialEq, Eq, Structural)]
pub struct TrafficCounters {
    pub bytes_sent: u64,
    pub bytes_recv: u64,
    pub prev_sent: u64,
    pub prev_recv: u64,
    /// Clock reading of the last tick, if there was one.
    pub last_tick: Option<u64>,
    /// Upload speed over the last tick, in bytes per second.
    pub upload_speed: u64,
    /// Download speed over the last tick, in bytes per second.
    pub download_speed: u64,
    pub connection_count: u32,
}

/// Snapshot of one process's traffic, joined with its identity.
#[derive(Clone, Debug)]
pub struct ProcessTrafficSnapshot {
    pub pid: u32,
    pub name: String,
    pub exe_path: String,
    /// Upload speed in bytes per second.
    pub upload_speed: u64,
    /// Download speed in bytes per second.
    pub download_speed: u64,
    /// Cumulative bytes sent since monitoring started.
    pub bytes_sent: u64,
    /// Cumulative bytes received since monitoring started.
    pub bytes_recv: u64,
    /// Number of open connections (TCP and UDP).
    pub connection_count: u32,
}

pub open spec fn sat_add(a: u64, b: u64) -> u64 {
    if a + b > u64::MAX {
        u64::MAX
    } else {
        (a + b) as u64
    }
}

/// Counters of a process seen for the first time.
pub open spec fn fresh_counters(sent: u64, recv: u64) -> TrafficCounters {
    TrafficCounters {
        bytes_sent: sent,
        bytes_recv: recv,
        prev_sent: 0,
        prev_recv: 0,
        last_tick: None,
        upload_speed: 0,
        download_speed: 0,
        connection_count: 0,
    }
}

/// The counters after recording bytes; the sums saturate.
pub open spec fn recorded(m: Map<u32, TrafficCounters>, pid: u32, sent: u64, recv: u64) -> TrafficCounters {
    if m.contains_key(pid) {
        TrafficCounters {
            bytes_sent: sat_add(m[pid].bytes_sent, sent),
            bytes_recv: sat_add(m[pid].bytes_recv, recv),
            ..m[pid]
        }
    } else {
        fresh_counters(sent, recv)
    }
}

/// Bytes per second for `delta` bytes over `elapsed` microseconds, rounded
/// down and capped at the largest `u64`.
pub open spec fn speed(delta: int, elapsed: int) -> u64 {
    let s = delta * 1000000 / elapsed;
    if s > u64::MAX {
        u64::MAX
    } else {
        s as u64
    }
}

pub open spec fn sat_sub(a: u64, b: u64) -> int {
    if a > b {
        a - b
    } else {
        0
    }
}

/// The counters after a tick at `now`: the speeds cover the bytes since the
/// previous tick (the first tick only sets the baseline), and the baseline
/// moves to the current totals.
pub open spec fn ticked(c: TrafficCounters, now: u64) -> TrafficCounters {
    let (up, down) = match c.last_tick {
        Some(last) => if now > last {
            (
                speed(sat_sub(c.bytes_sent, c.prev_sent), now - last),
                speed(sat_sub(c.bytes_recv, c.prev_recv), now - last),
            )
        } else {
            (c.upload_speed, c.download_speed)
        },
        None => (c.upload_speed, c.download_speed),
    };
    TrafficCounters {
        prev_sent: c.bytes_sent,
        prev_recv: c.bytes_recv,
        last_tick: Some(now),
        upload_speed: up,
        download_speed: down,
        ..c
    }
}

/// Whether an entry survives eviction at `now`: it is moving, has never
/// been ticked, or its last tick is younger than `max_idle` microseconds.
pub open spec fn retained(c: TrafficCounters, max_idle: u64, now: u64) -> bool {
    c.upload_speed > 0 || c.download_speed > 0 || match c.last_tick {
        None => true,
        Some(last) => (if now > last {
            now - last
        } else {
            0
        }) < max_idle,
    }
}

/// Every entry ticked at `now`.
pub open spec fn ticked_all(m: Map<u32, TrafficCounters>, now: u64) -> Map<u32, TrafficCounters> {
    m.map_values(|c: TrafficCounters| ticked(c, now))
}

/// Every entry with the connection count of its process in the port map.
pub open spec fn with_connection_counts(
    m: Map<u32, TrafficCounters>,
    ports: Map<(u8, u16), u32>,
) -> Map<u32, TrafficCounters> {
    Map::new(
        |pid: u32| m.contains_key(pid),
        |pid: u32| TrafficCounters { connection_count: capped_count(count_owned(ports, pid)), ..m[pid] },
    )
}

/// The entries that survive eviction at `now`.
pub open spec fn evicted(m: Map<u32, TrafficCounters>, max_idle: u64, now: u64) -> Map<
    u32,
    TrafficCounters,
> {
    m.restrict(m.dom().filter(|k: u32| retained(m[k], max_idle, now)))
}

/// Microseconds in `secs` seconds, capped at the largest `u64`.
pub open spec fn secs_to_micros(secs: u64) -> u64 {
    if secs > u64::MAX / 1000000 {
        u64::MAX
    } else {
        (secs * 1000000) as u64
    }
}

/// The name a snapshot shows for a process: its own, or `PID <n>` when
/// the directory does not know it.
pub open spec fn display_name(infos: Map<u32, (Seq<char>, Seq<char>)>, pid: u32) -> Seq<char> {
    if infos.contains_key(pid) {
        infos[pid].0
    } else {
        "PID "@ + decimal(pid as nat)
    }
}

/// The path a snapshot shows for a process: its own, or empty.
pub open spec fn display_path(infos: Map<u32, (Seq<char>, Seq<char>)>, pid: u32) -> Seq<char> {
    if infos.contains_key(pid) {
        infos[pid].1
    } else {
        Seq::empty()
    }
}

/// `s` is the snapshot of one process with counters `c`.
pub open spec fn snapshot_of(
    s: ProcessTrafficSnapshot,
    c: TrafficCounters,
    infos: Map<u32, (Seq<char>, Seq<char>)>,
) -> bool {
    &&& s.name@ == display_name(infos, s.pid)
    &&& s.exe_path@ == display_path(infos, s.pid)
    &&& s.upload_speed == c.upload_speed
    &&& s.download_speed == c.download_speed
    &&& s.bytes_sent == c.bytes_sent
    &&& s.bytes_recv == c.bytes_recv
    &&& s.connection_count == c.connection_count
}

/// `s` has one row per tracked process, each the snapshot of its counters.
pub open spec fn lists_snapshot(
    s: Seq<ProcessTrafficSnapshot>,
    counters: Map<u32, TrafficCounters>,
    infos: Map<u32, (Seq<char>, Seq<char>)>,
) -> bool {
    &&& forall|i: int|
        0 <= i < s.len() ==> counters.contains_key(#[trigger] s[i].pid) && snapshot_of(
            s[i],
            counters[s[i].pid],
            infos,
        )
    &&& forall|pid: u32| #[trigger]
        counters.contains_key(pid) ==> exists|i: int| 0 <= i < s.len() && s[i].pid == pid
    &&& forall|i: int, j: int| 0 <= i < j < s.len() ==> #[trigger] s[i].pid != #[trigger] s[j].pid
}

impl Default for TrafficCounters {
    fn default() -> (r: TrafficCounters)
        ensures
            r == fresh_counters(0, 0),
    {
        TrafficCounters {
            bytes_sent: 0,
            bytes_recv: 0,
            prev_sent: 0,
            prev_recv: 0,
            last_tick: None,
            upload_speed: 0,
            download_speed: 0,
            connection_count: 0,
        }
    }
}

/// The counters of every tracked process.
pub uninterp spec fn counter_entries(m: DashMap<u32, TrafficCounters>) -> Map<u32, TrafficCounters>;

/// Relies on `DashMap::new`: a map with no entries.
#[verifier::external_body]
fn new_counter_map() -> (r: DashMap<u32, TrafficCounters>)
    ensures
        counter_entries(r).is_empty(),
{
    DashMap::new()
}

/// Relies on `DashMap::get`: the value of the key, if it has one.
#[verifier::external_body]
fn counter_get(m: &DashMap<u32, TrafficCounters>, pid: u32) -> (r: Option<TrafficCounters>)
    ensures
        r == (if counter_entries(*m).contains_key(pid) {
            Some(counter_entries(*m)[pid])
        } else {
            None::<TrafficCounters>
        }),
{
    m.get(&pid).map(|e| *e.value())
}

/// Relies on `DashMap::insert`: the key is mapped to the value afterwards.
#[verifier::external_body]
fn counter_insert(m: &mut DashMap<u32, TrafficCounters>, pid: u32, c: TrafficCounters)
    ensures
        counter_entries(*final(m)) == counter_entries(*old(m)).insert(pid, c),
{
    m.insert(pid, c);
}

/// Relies on `DashMap::remove`: the key has no value afterwards.
#[verifier::external_body]
fn counter_remove(m: &mut DashMap<u32, TrafficCounters>, pid: u32)
    ensures
        counter_entries(*final(m)) == counter_entries(*old(m)).remove(pid),
{
    m.remove(&pid);
}

/// Relies on `DashMap::iter`: every entry once.
#[verifier::external_body]
fn counter_list(m: &DashMap<u32, TrafficCounters>) -> (r: Vec<(u32, TrafficCounters)>)
    ensures
        lists_entries(r@, counter_entries(*m)),
{
    m.iter().map(|e| (*e.key(), *e.value())).collect()
}

fn add_saturating(a: u64, b: u64) -> (r: u64)
    ensures
        r == sat_add(a, b),
{
    if a > u64::MAX - b {
        u64::MAX
    } else {
        a + b
    }
}

fn speed_of(delta: u64, elapsed: u64) -> (r: u64)
    requires
        elapsed > 0,
    ensures
        r == speed(delta as int, elapsed as int),
{
    let s: u128 = (delta as u128) * 1000000 / (elapsed as u128);
    if s > u64::MAX as u128 {
        u64::MAX
    } else {
        s as u64
    }
}

fn tick_one(c: TrafficCounters, now: u64) -> (r: TrafficCounters)
    ensures
        r == ticked(c, now),
{
    let mut n = c;
    match c.last_tick {
        Some(last) => {
            if now > last {
                let ds: u64 = if c.bytes_sent > c.prev_sent {
                    c.bytes_sent - c.prev_sent
                } else {
                    0
                };
                let dr: u64 = if c.bytes_recv > c.prev_recv {
                    c.bytes_recv - c.prev_recv
                } else {
                    0
                };
                n.upload_speed = speed_of(ds, now - last);
                n.download_speed = speed_of(dr, now - last);
            }
        },
        None => {},
    }
    n.prev_sent = c.bytes_sent;
    n.prev_recv = c.bytes_recv;
    n.last_tick = Some(now);
    n
}

fn keeps(c: TrafficCounters, max_idle: u64, now: u64) -> (r: bool)
    ensures
        r == retained(c, max_idle, now),
{
    if c.upload_speed > 0 || c.download_speed > 0 {
        return true;
    }
    match c.last_tick {
        None => true,
        Some(last) => {
            let age: u64 = if now > last {
                now - last
            } else {
                0
            };
            age < max_idle
        },
    }
}

/// Per-process traffic ledger.
pub struct TrafficTracker {
    counters: DashMap<u32, TrafficCounters>,
}

impl TrafficTracker {
    /// The counters of each tracked process.
    pub closed spec fn counters(&self) -> Map<u32, TrafficCounters> {
        counter_entries(self.counters)
    }

    pub fn new() -> (r: TrafficTracker)
        ensures
            r.counters() == Map::<u32, TrafficCounters>::empty(),
    {
        let r = TrafficTracker { counters: new_counter_map() };
        assert(r.counters() =~= Map::<u32, TrafficCounters>::empty());
        r
    }

    /// Adds bytes to a process's totals, creating its entry on first use.
    pub fn record_bytes(&mut self, pid: u32, sent: u64, recv: u64)
        ensures
            final(self).counters() == old(self).counters().insert(
                pid,
                recorded(old(self).counters(), pid, sent, recv),
            ),
    {
        let c = match counter_get(&self.counters, pid) {
            Some(c) => TrafficCounters {
                bytes_sent: add_saturating(c.bytes_sent, sent),
                bytes_recv: add_saturating(c.bytes_recv, recv),
                ..c
            },
            None => TrafficCounters {
                bytes_sent: sent,
                bytes_recv: recv,
                prev_sent: 0,
                prev_recv: 0,
                last_tick: None,
                upload_speed: 0,
                download_speed: 0,
                connection_count: 0,
            },
        };
        counter_insert(&mut self.counters, pid, c);
    }

    /// Recomputes every tracked process's speeds at clock reading `now`.
    pub fn tick_speeds_at(&mut self, now: u64)
        ensures
            final(self).counters() == ticked_all(old(self).counters(), now),
    {
        let entries = counter_list(&self.counters);
        let ghost start = self.counters();
        let mut i: usize = 0;
        while i < entries.len()
            invariant
                i <= entries@.len(),
                lists_entries(entries@, start),
                self.counters().dom() == start.dom(),
                forall|j: int| 0 <= j < i ==> self.counters()[#[trigger] entries@[j].0] == ticked(start[entries@[j].0], now),
                forall|k: u32| #[trigger] start.contains_key(k) && (forall|j: int| 0 <= j < i ==> entries@[j].0 != k) ==> self.counters()[k] == start[k],
            decreases entries@.len() - i,
        {
            let (pid, c) = entries[i];
            counter_insert(&mut self.counters, pid, tick_one(c, now));
            assert(self.counters().dom() =~= start.dom());
            i = i + 1;
        }
        assert forall|k: u32| #[trigger] start.contains_key(k) implies self.counters()[k] == ticked(start[k], now) by {
            let j = choose|j: int| 0 <= j < entries@.len() && entries@[j].0 == k;
            assert(self.counters()[entries@[j].0] == ticked(start[entries@[j].0], now));
        }
        assert(self.counters() =~= start.map_values(|c: TrafficCounters| ticked(c, now)));
    }

    /// Sets each tracked process's connection count from the directory.
    pub fn update_connection_counts(&mut self, mapper: &ProcessMapper)
        ensures
            final(self).counters() == with_connection_counts(old(self).counters(), mapper.ports()),
    {
        let counts = mapper.connection_counts();
        let entries = counter_list(&self.counters);
        let ghost start = self.counters();
        let mut i: usize = 0;
        while i < entries.len()
            invariant
                i <= entries@.len(),
                lists_entries(entries@, start),
                self.counters().dom() == start.dom(),
                forall|pid: u32| #[trigger]
                    counts@.contains_key(pid) <==> count_owned(mapper.ports(), pid) > 0,
                forall|pid: u32| #[trigger]
                    counts@.contains_key(pid) ==> counts@[pid] == capped_count(count_owned(mapper.ports(), pid)),
                forall|j: int| 0 <= j < i ==> self.counters()[#[trigger] entries@[j].0] == with_connection_counts(start, mapper.ports())[entries@[j].0],
                forall|k: u32| #[trigger] start.contains_key(k) && (forall|j: int| 0 <= j < i ==> entries@[j].0 != k) ==> self.counters()[k] == start[k],
            decreases entries@.len() - i,
        {
            let (pid, c) = entries[i];
            let n: u32 = match counts.get(&pid) {
                Some(v) => *v,
                None => 0,
            };
            proof {
                if !counts@.contains_key(pid) {
                    assert(capped_count(count_owned(mapper.ports(), pid)) == 0);
                }
            }
            counter_insert(&mut self.counters, pid, TrafficCounters { connection_count: n, ..c });
            assert(self.counters().dom() =~= start.dom());
            i = i + 1;
        }
        assert forall|k: u32| #[trigger] start.contains_key(k) implies self.counters()[k] == with_connection_counts(start, mapper.ports())[k] by {
            let j = choose|j: int| 0 <= j < entries@.len() && entries@[j].0 == k;
            assert(self.counters()[entries@[j].0] == with_connection_counts(start, mapper.ports())[entries@[j].0]);
        }
        assert(self.counters() =~= with_connection_counts(start, mapper.ports()));
    }

    /// Recomputes every speed on the wall clock.
    pub fn tick_speeds(&mut self)
        ensures
            exists|now: u64| final(self).counters() == #[trigger] ticked_all(old(self).counters(), now),
    {
        let ghost before = self.counters();
        let now = now_micros();
        self.tick_speeds_at(now);
        assert(self.counters() == ticked_all(before, now));
    }

    /// Evicts, at clock reading `now`, every entry with both speeds zero
    /// whose last tick is at least `max_idle` microseconds old.
    pub fn remove_stale_at(&mut self, max_idle: u64, now: u64)
        ensures
            final(self).counters() == evicted(old(self).counters(), max_idle, now),
    {
        let entries = counter_list(&self.counters);
        let ghost start = self.counters();
        let mut i: usize = 0;
        while i < entries.len()
            invariant
                i <= entries@.len(),
                lists_entries(entries@, start),
                forall|k: u32| #[trigger] self.counters().contains_key(k) ==> start.contains_key(k) && self.counters()[k] == start[k],
                forall|j: int| 0 <= j < i ==> (self.counters().contains_key(#[trigger] entries@[j].0) == retained(start[entries@[j].0], max_idle, now)),
                forall|k: u32| #[trigger] start.contains_key(k) && (forall|j: int| 0 <= j < i ==> entries@[j].0 != k) ==> self.counters().contains_key(k),
            decreases entries@.len() - i,
        {
            let (pid, c) = entries[i];
            if !keeps(c, max_idle, now) {
                counter_remove(&mut self.counters, pid);
            }
            i = i + 1;
        }
        assert forall|k: u32| #[trigger] self.counters().contains_key(k) == (start.contains_key(k) && retained(start[k], max_idle, now)) by {
            if start.contains_key(k) {
                let j = choose|j: int| 0 <= j < entries@.len() && entries@[j].0 == k;
                assert(self.counters().contains_key(entries@[j].0) == retained(start[entries@[j].0], max_idle, now));
            }
        }
        assert(self.counters() =~= evicted(start, max_idle, now));
    }

    /// Evicts idle entries on the wall clock; `max_idle_secs` in seconds.
    pub fn remove_stale(&mut self, max_idle_secs: u64)
        ensures
            exists|now: u64|
                final(self).counters() == #[trigger] evicted(
                    old(self).counters(),
                    secs_to_micros(max_idle_secs),
                    now,
                ),
    {
        let max_idle: u64 = if max_idle_secs > u64::MAX / 1000000 {
            u64::MAX
        } else {
            max_idle_secs * 1000000
        };
        let ghost before = self.counters();
        let now = now_micros();
        self.remove_stale_at(max_idle, now);
        assert(max_idle == secs_to_micros(max_idle_secs));
        assert(self.counters() == evicted(before, secs_to_micros(max_idle_secs), now));
    }

    /// One row per tracked process, joined with the directory's identity.
    pub fn snapshot(&self, process_mapper: &ProcessMapper) -> (r: Vec<ProcessTrafficSnapshot>)
        ensures
            lists_snapshot(r@, self.counters(), process_mapper.infos()),
    {
        let entries = counter_list(&self.counters);
        let mut out: Vec<ProcessTrafficSnapshot> = Vec::new();
        let mut i: usize = 0;
        while i < entries.len()
            invariant
                i <= entries@.len(),
                lists_entries(entries@, self.counters()),
                out@.len() == i,
                forall|j: int| 0 <= j < i ==> (#[trigger] out@[j]).pid == entries@[j].0 && snapshot_of(
                    out@[j],
                    entries@[j].1,
                    process_mapper.infos(),
                ),
            decreases entries@.len() - i,
        {
            let (pid, c) = entries[i];
            let (name, exe_path) = match process_mapper.get_process_info(pid) {
                Some(info) => (info.name, info.exe_path),
                None => {
                    let mut n = String::from_str("PID ");
                    push_decimal(&mut n, pid as u128);
                    (n, String::new())
                },
            };
            out.push(
                ProcessTrafficSnapshot {
                    pid,
                    name,
                    exe_path,
                    upload_speed: c.upload_speed,
                    download_speed: c.download_speed,
                    bytes_sent: c.bytes_sent,
                    bytes_recv: c.bytes_recv,
                    connection_count: c.connection_count,
                },
            );
            i = i + 1;
        }
        assert forall|pid: u32| #[trigger] self.counters().contains_key(pid) implies exists|i: int|
            0 <= i < out@.len() && out@[i].pid == pid by {
            let j = choose|j: int| 0 <= j < entries@.len() && entries@[j].0 == pid;
            assert(out@[j].pid == pid);
        }
        out
    }
}


/// Idle eviction: a process whose totals have not moved since its last tick
/// drops to zero speed on the next tick, and is evicted once that tick is at
/// least `max_idle` microseconds old.
pub proof fn lemma_idle_evicted(
    m: Map<u32, TrafficCounters>,
    pid: u32,
    tick: u64,
    max_idle: u64,
    now: u64,
)
    requires
        m.contains_key(pid),
        m[pid].last_tick is Some,
        m[pid].last_tick.unwrap() < tick,
        m[pid].bytes_sent == m[pid].prev_sent,
        m[pid].bytes_recv == m[pid].prev_recv,
        now >= tick + max_idle,
    ensures
        ticked_all(m, tick)[pid].upload_speed == 0,
        ticked_all(m, tick)[pid].download_speed == 0,
        !evicted(ticked_all(m, tick), max_idle, now).contains_key(pid),
{
    let c = ticked_all(m, tick)[pid];
    assert(c == ticked(m[pid], tick));
    assert(speed(0, tick - m[pid].last_tick.unwrap()) == 0);
}

/// A process that is moving is never evicted, however old its last tick,
/// and keeps its counters.
pub proof fn lemma_active_retained(m: Map<u32, TrafficCounters>, pid: u32, max_idle: u64, now: u64)
    requires
        m.contains_key(pid),
        m[pid].upload_speed > 0 || m[pid].download_speed > 0,
    ensures
        evicted(m, max_idle, now).contains_key(pid),
        evicted(m, max_idle, now)[pid] == m[pid],
{
}

} // verus!
