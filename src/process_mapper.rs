//! The process/port directory: which process owns each local port, and
//! the name and executable path of each process.

use dashmap::DashMap;
use vstd::prelude::*;

use std::collections::HashMap;
use vstd::std_specs::hash::group_hash_axioms;

use crate::capture::{protocol_number, Protocol};
use crate::net_table::{all_rows, decode_all_tables};
use crate::shared_map::lists_entries;

verus! {

broadcast use group_hash_axioms;

/// Name and executable path of a process.
#[derive(Clone, Debug)]
pub struct ProcessInfo {
    pub name: String,
    pub exe_path: String,
}

/// One row of an OS connection table: a local port and its owner.
#[derive(Clone, Copy, Debug, PartialEq, Eq, Structural)]
pub struct PortOwner {
    pub protocol: Protocol,
    pub port: u16,
    pub pid: u32,
}

/// The directory key of a protocol and local port.
pub open spec fn port_key(p: Protocol, port: u16) -> (u8, u16) {
    (protocol_number(p), port)
}

/// The port map that a list of connection-table rows builds: a later row
/// for the same key wins.
pub open spec fn port_map_of(rows: Seq<PortOwner>) -> Map<(u8, u16), u32>
    decreases rows.len(),
{
    if rows.len() == 0 {
        Map::empty()
    } else {
        let last = rows.last();
        port_map_of(rows.drop_last()).insert(port_key(last.protocol, last.port), last.pid)
    }
}

/// Name and path of each process, as character sequences.
pub open spec fn info_view(m: Map<u32, ProcessInfo>) -> Map<u32, (Seq<char>, Seq<char>)> {
    m.map_values(|i: ProcessInfo| (i.name@, i.exe_path@))
}

/// The identities after one process-list entry is taken in: a known
/// process takes the listed name and keeps its path; a new one takes both.
pub open spec fn upsert_one(m: Map<u32, (Seq<char>, Seq<char>)>, pid: u32, name: Seq<char>, exe: Seq<
    char,
>) -> Map<u32, (Seq<char>, Seq<char>)> {
    if m.contains_key(pid) {
        m.insert(pid, (name, m[pid].1))
    } else {
        m.insert(pid, (name, exe))
    }
}

/// The identities after a whole process list is taken in, in order.
pub open spec fn upsert_all(m: Map<u32, (Seq<char>, Seq<char>)>, procs: Seq<(u32, ProcessInfo)>) -> Map<
    u32,
    (Seq<char>, Seq<char>),
>
    decreases procs.len(),
{
    if procs.len() == 0 {
        m
    } else {
        let last = procs.last();
        upsert_one(upsert_all(m, procs.drop_last()), last.0, last.1.name@, last.1.exe_path@)
    }
}

/// The keys among `keys` that `pid` owns.
pub open spec fn owned_keys(m: Map<(u8, u16), u32>, keys: Set<(u8, u16)>, pid: u32) -> Set<(u8, u16)> {
    keys.filter(|k: (u8, u16)| m[k] == pid)
}

/// Number of directory entries owned by `pid`.
pub open spec fn count_owned(m: Map<(u8, u16), u32>, pid: u32) -> nat {
    owned_keys(m, m.dom(), pid).len()
}

/// A count capped at the largest `u32`.
pub open spec fn capped_count(n: nat) -> u32 {
    if n > u32::MAX {
        u32::MAX
    } else {
        n as u32
    }
}

/// The entries of the port map.
pub uninterp spec fn port_entries(m: DashMap<(u8, u16), u32>) -> Map<(u8, u16), u32>;

/// The entries of the process-information map.
pub uninterp spec fn info_entries(m: DashMap<u32, ProcessInfo>) -> Map<u32, ProcessInfo>;

/// Relies on `DashMap::new`: a map with no entries.
#[verifier::external_body]
fn new_port_map() -> (r: DashMap<(u8, u16), u32>)
    ensures
        port_entries(r).is_empty(),
{
    DashMap::new()
}

/// Relies on `DashMap::insert`: the key is mapped to the value afterwards.
#[verifier::external_body]
fn port_map_insert(m: &mut DashMap<(u8, u16), u32>, k: (u8, u16), pid: u32)
    ensures
        port_entries(*final(m)) == port_entries(*old(m)).insert(k, pid),
{
    m.insert(k, pid);
}

/// Relies on `DashMap::get`: the value of the key, if it has one.
#[verifier::external_body]
fn port_map_get(m: &DashMap<(u8, u16), u32>, k: (u8, u16)) -> (r: Option<u32>)
    ensures
        r == (if port_entries(*m).contains_key(k) {
            Some(port_entries(*m)[k])
        } else {
            None::<u32>
        }),
{
    m.get(&k).map(|e| *e.value())
}

/// Relies on `DashMap::iter`: every entry once.
#[verifier::external_body]
fn port_map_entries(m: &DashMap<(u8, u16), u32>) -> (r: Vec<((u8, u16), u32)>)
    ensures
        lists_entries(r@, port_entries(*m)),
{
    m.iter().map(|e| (*e.key(), *e.value())).collect()
}

/// Relies on `DashMap::new`: a map with no entries.
#[verifier::external_body]
fn new_info_map() -> (r: DashMap<u32, ProcessInfo>)
    ensures
        info_entries(r).is_empty(),
{
    DashMap::new()
}

/// Relies on `DashMap::insert`: the key is mapped to the value afterwards.
#[verifier::external_body]
fn info_map_insert(m: &mut DashMap<u32, ProcessInfo>, pid: u32, info: ProcessInfo)
    ensures
        info_entries(*final(m)) == info_entries(*old(m)).insert(pid, info),
{
    m.insert(pid, info);
}

/// Relies on `DashMap::get`, cloning the value found: the name and path
/// of the key's entry, if it has one.
#[verifier::external_body]
fn info_map_get(m: &DashMap<u32, ProcessInfo>, pid: u32) -> (r: Option<ProcessInfo>)
    ensures
        r.is_some() == info_entries(*m).contains_key(pid),
        r.is_some() ==> r.unwrap().name@ == info_entries(*m)[pid].name@ && r.unwrap().exe_path@
            == info_entries(*m)[pid].exe_path@,
{
    m.get(&pid).map(|e| e.value().clone())
}

/// Maps (protocol, local port) to the owning process and each process to
/// its name and path.
pub struct ProcessMapper {
    port_map: DashMap<(u8, u16), u32>,
    process_info: DashMap<u32, ProcessInfo>,
}

impl ProcessMapper {
    /// Owner of each (protocol number, local port).
    pub closed spec fn ports(&self) -> Map<(u8, u16), u32> {
        port_entries(self.port_map)
    }

    /// Name and executable path of each known process.
    pub closed spec fn infos(&self) -> Map<u32, (Seq<char>, Seq<char>)> {
        info_view(info_entries(self.process_info))
    }

    /// An empty directory.
    pub fn new() -> (r: ProcessMapper)
        ensures
            r.ports() == Map::<(u8, u16), u32>::empty(),
            r.infos() == Map::<u32, (Seq<char>, Seq<char>)>::empty(),
    {
        let r = ProcessMapper { port_map: new_port_map(), process_info: new_info_map() };
        assert(r.infos() =~= Map::<u32, (Seq<char>, Seq<char>)>::empty());
        r
    }

    /// The process that owns a local port.
    pub fn lookup_pid(&self, proto: Protocol, local_port: u16) -> (r: Option<u32>)
        ensures
            r == (if self.ports().contains_key(port_key(proto, local_port)) {
                Some(self.ports()[port_key(proto, local_port)])
            } else {
                None::<u32>
            }),
    {
        let key: (u8, u16) = (
            match proto {
                Protocol::Tcp => 6u8,
                Protocol::Udp => 17u8,
            },
            local_port,
        );
        port_map_get(&self.port_map, key)
    }

    /// The name and path of a process.
    pub fn get_process_info(&self, pid: u32) -> (r: Option<ProcessInfo>)
        ensures
            r.is_some() == self.infos().contains_key(pid),
            r.is_some() ==> (r.unwrap().name@, r.unwrap().exe_path@) == self.infos()[pid],
    {
        info_map_get(&self.process_info, pid)
    }

    /// Replaces the whole port map with the one that this cycle's
    /// connection-table rows build. Nothing of the previous cycle survives.
    pub fn replace_port_map(&mut self, rows: &Vec<PortOwner>)
        ensures
            final(self).ports() == port_map_of(rows@),
            final(self).infos() == old(self).infos(),
    {
        let mut fresh = new_port_map();
        let mut i: usize = 0;
        while i < rows.len()
            invariant
                i <= rows@.len(),
                port_entries(fresh) == port_map_of(rows@.take(i as int)),
            decreases rows@.len() - i,
        {
            let row = rows[i];
            let key: (u8, u16) = (
                match row.protocol {
                    Protocol::Tcp => 6u8,
                    Protocol::Udp => 17u8,
                },
                row.port,
            );
            port_map_insert(&mut fresh, key, row.pid);
            proof {
                assert(rows@.take(i as int + 1).drop_last() =~= rows@.take(i as int));
            }
            i = i + 1;
        }
        assert(rows@.take(rows@.len() as int) =~= rows@);
        self.port_map = fresh;
    }

    /// Takes in this cycle's process list: each listed process gets its
    /// current name; the path is kept from the first time it was seen.
    pub fn refresh_process_info(&mut self, procs: &Vec<(u32, ProcessInfo)>)
        ensures
            final(self).infos() == upsert_all(old(self).infos(), procs@),
            final(self).ports() == old(self).ports(),
    {
        let mut i: usize = 0;
        while i < procs.len()
            invariant
                i <= procs@.len(),
                self.infos() == upsert_all(old(self).infos(), procs@.take(i as int)),
                self.ports() == old(self).ports(),
            decreases procs@.len() - i,
        {
            let pid = procs[i].0;
            let listed = &procs[i].1;
            let ghost before = info_entries(self.process_info);
            match info_map_get(&self.process_info, pid) {
                Some(known) => {
                    if known.name != listed.name {
                        let updated = ProcessInfo { name: listed.name.clone(), exe_path: known.exe_path };
                        info_map_insert(&mut self.process_info, pid, updated);
                        assert(info_view(info_entries(self.process_info)) =~= info_view(before).insert(
                            pid,
                            (listed.name@, info_view(before)[pid].1),
                        ));
                    }
                },
                None => {
                    let fresh = ProcessInfo {
                        name: listed.name.clone(),
                        exe_path: listed.exe_path.clone(),
                    };
                    info_map_insert(&mut self.process_info, pid, fresh);
                    assert(info_view(info_entries(self.process_info)) =~= info_view(before).insert(
                        pid,
                        (listed.name@, listed.exe_path@),
                    ));
                },
            }
            proof {
                assert(procs@.take(i as int + 1).drop_last() =~= procs@.take(i as int));
                assert(upsert_one(info_view(before), pid, listed.name@, listed.exe_path@) =~= info_view(
                    info_entries(self.process_info),
                ));
            }
            i = i + 1;
        }
        assert(procs@.take(procs@.len() as int) =~= procs@);
    }

    /// Rebuilds the port map from this cycle's four owner tables (IPv4 TCP,
    /// IPv4 UDP, IPv6 TCP, IPv6 UDP). When any table could not be read, the
    /// previous map is kept whole rather than cleared.
    pub fn refresh_port_map(
        &mut self,
        tcp: Option<&[u8]>,
        udp: Option<&[u8]>,
        tcp6: Option<&[u8]>,
        udp6: Option<&[u8]>,
    )
        ensures
            final(self).infos() == old(self).infos(),
            match (tcp, udp, tcp6, udp6) {
                (Some(a), Some(b), Some(c), Some(d)) => final(self).ports() == port_map_of(
                    all_rows(a@, b@, c@, d@),
                ),
                _ => final(self).ports() == old(self).ports(),
            },
    {
        match (tcp, udp, tcp6, udp6) {
            (Some(a), Some(b), Some(c), Some(d)) => {
                let rows = decode_all_tables(a, b, c, d);
                self.replace_port_map(&rows);
            },
            _ => {},
        }
    }

    /// Number of directory entries of each process that owns any, capped
    /// at the largest `u32`.
    pub fn connection_counts(&self) -> (r: HashMap<u32, u32>)
        ensures
            forall|pid: u32| #[trigger]
                r@.contains_key(pid) <==> count_owned(self.ports(), pid) > 0,
            forall|pid: u32| #[trigger]
                r@.contains_key(pid) ==> r@[pid] == capped_count(count_owned(self.ports(), pid)),
    {
        let entries = port_map_entries(&self.port_map);
        let ghost m = self.ports();
        let ghost mut seen: Set<(u8, u16)> = Set::empty();
        let mut counts: HashMap<u32, u32> = HashMap::new();
        assert forall|pid: u32| #[trigger] owned_keys(m, seen, pid).len() == 0 by {
            assert(owned_keys(m, seen, pid) =~= Set::<(u8, u16)>::empty());
        }
        let mut i: usize = 0;
        while i < entries.len()
            invariant
                i <= entries@.len(),
                m == self.ports(),
                lists_entries(entries@, m),
                seen.finite(),
                forall|k: (u8, u16)| #[trigger] seen.contains(k) <==> exists|j: int| 0 <= j < i && entries@[j].0 == k,
                forall|pid: u32| #[trigger]
                    counts@.contains_key(pid) <==> owned_keys(m, seen, pid).len() > 0,
                forall|pid: u32| #[trigger]
                    counts@.contains_key(pid) ==> counts@[pid] == capped_count(owned_keys(m, seen, pid).len()),
            decreases entries@.len() - i,
        {
            let (key, owner) = entries[i];
            let ghost old_seen = seen;
            proof {
                assert(!old_seen.contains(key)) by {
                    if old_seen.contains(key) {
                        let j = choose|j: int| 0 <= j < i && entries@[j].0 == key;
                        assert(entries@[j].0 != entries@[i as int].0);
                    }
                }
                seen = seen.insert(key);
                assert(m[key] == owner);
                assert forall|pid: u32| #[trigger] owned_keys(m, seen, pid) == (if pid == owner {
                    owned_keys(m, old_seen, pid).insert(key)
                } else {
                    owned_keys(m, old_seen, pid)
                }) by {
                    assert(owned_keys(m, seen, pid) =~= (if pid == owner {
                        owned_keys(m, old_seen, pid).insert(key)
                    } else {
                        owned_keys(m, old_seen, pid)
                    }));
                }
                assert(owned_keys(m, old_seen, owner).finite());
                assert(!owned_keys(m, old_seen, owner).contains(key));
                assert(owned_keys(m, seen, owner).len() == owned_keys(m, old_seen, owner).len() + 1);
                assert forall|k: (u8, u16)| #[trigger] seen.contains(k) <==> exists|j: int| 0 <= j < i + 1 && entries@[j].0 == k by {
                    if k == key {
                        assert(entries@[i as int].0 == k);
                    }
                }
            }
            let current: u32 = match counts.get(&owner) {
                Some(c) => *c,
                None => 0,
            };
            let next: u32 = if current == u32::MAX {
                u32::MAX
            } else {
                current + 1
            };
            counts.insert(owner, next);
            i = i + 1;
        }
        proof {
            assert(seen =~= m.dom()) by {
                assert forall|k: (u8, u16)| seen.contains(k) <==> m.dom().contains(k) by {
                    if m.contains_key(k) {
                        let j = choose|j: int| 0 <= j < entries@.len() && entries@[j].0 == k;
                    }
                }
            }
        }
        counts
    }
}

/// Epoch replacement: the port map after a refresh is built from that
/// refresh's rows alone. A (protocol, port) resolves afterwards exactly when
/// some row of the cycle lists it, whatever the previous map held, so a
/// closed port stops resolving and an opened one starts, in one refresh.
pub proof fn lemma_epoch_replacement(rows: Seq<PortOwner>, p: Protocol, port: u16)
    ensures
        port_map_of(rows).contains_key(port_key(p, port)) <==> exists|i: int|
            0 <= i < rows.len() && rows[i].protocol == p && rows[i].port == port,
    decreases rows.len(),
{
    if rows.len() > 0 {
        let last = rows.last();
        lemma_epoch_replacement(rows.drop_last(), p, port);
        if rows.last().protocol == p && rows.last().port == port {
            assert(rows[rows.len() - 1].protocol == p && rows[rows.len() - 1].port == port);
        }
        if exists|i: int| 0 <= i < rows.len() && rows[i].protocol == p && rows[i].port == port {
            let i = choose|i: int| 0 <= i < rows.len() && rows[i].protocol == p && rows[i].port == port;
            if i < rows.len() - 1 {
                assert(rows.drop_last()[i] == rows[i]);
            }
        }
        if exists|i: int| 0 <= i < rows.drop_last().len() && rows.drop_last()[i].protocol == p && rows.drop_last()[i].port == port {
            let i = choose|i: int| 0 <= i < rows.drop_last().len() && rows.drop_last()[i].protocol == p && rows.drop_last()[i].port == port;
            assert(rows[i] == rows.drop_last()[i]);
        }
        assert(port_key(last.protocol, last.port) == port_key(p, port) <==> (last.protocol == p
            && last.port == port));
    }
}

} // verus!
