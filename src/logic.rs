//! Command-layer logic on plain values: building a profile from the
//! current limits and blocks, matching saved rules to running processes,
//! and the checks around intercept mode.

use std::collections::HashMap;
use vstd::prelude::*;
use vstd::std_specs::hash::group_hash_axioms;
use vstd::std_specs::iter::IteratorSpec;
use vstd::string::StringExecFns;

use crate::error::AppError;
use crate::process_mapper::ProcessMapper;
use crate::rate_limiter::{BandwidthLimit, RateLimiterManager};
use crate::traffic::{display_path, lists_snapshot, snapshot_of, ProcessTrafficSnapshot, TrafficTracker};

verus! {

broadcast use group_hash_axioms;

/// A rule entry to be saved in a profile.
#[derive(Clone, Debug)]
pub struct RuleEntry {
    pub exe_path: String,
    pub process_name: String,
    pub download_bps: u64,
    pub upload_bps: u64,
    pub blocked: bool,
}

/// A saved bandwidth rule of a profile.
#[derive(Clone, Debug)]
pub struct SavedRule {
    pub exe_path: String,
    pub process_name: String,
    pub download_bps: u64,
    pub upload_bps: u64,
    pub blocked: bool,
}

/// Total traffic of one executable over a period.
#[derive(Clone, Debug)]
pub struct TrafficSummary {
    pub process_name: String,
    pub exe_path: String,
    pub total_sent: u64,
    pub total_recv: u64,
    pub total_bytes: u64,
}

/// An action on a running process when a profile is activated.
#[derive(Clone, Copy, Debug, PartialEq, Eq, Structural)]
pub enum ApplyAction {
    Block { pid: u32 },
    Limit { pid: u32, download_bps: u64, upload_bps: u64 },
}

pub open spec fn rule_view(r: RuleEntry) -> (Seq<char>, Seq<char>, u64, u64, bool) {
    (r.exe_path@, r.process_name@, r.download_bps, r.upload_bps, r.blocked)
}

/// Position of the last snapshot row of `pid`, or -1.
pub open spec fn last_row_of(snap: Seq<ProcessTrafficSnapshot>, pid: u32) -> int
    decreases snap.len(),
{
    if snap.len() == 0 {
        -1
    } else if snap.last().pid == pid {
        snap.len() - 1
    } else {
        last_row_of(snap.drop_last(), pid)
    }
}

/// The saved form of a process's limit, named after its snapshot row.
pub open spec fn limit_rule(snap: Seq<ProcessTrafficSnapshot>, pid: u32, l: BandwidthLimit) -> (
    Seq<char>,
    Seq<char>,
    u64,
    u64,
    bool,
) {
    let row = snap[last_row_of(snap, pid)];
    (row.exe_path@, row.name@, l.download_bps, l.upload_bps, false)
}

/// The saved form of the blocks, in order, for the pids the snapshot knows.
pub open spec fn block_rules(blocked: Seq<u32>, snap: Seq<ProcessTrafficSnapshot>) -> Seq<
    (Seq<char>, Seq<char>, u64, u64, bool),
>
    decreases blocked.len(),
{
    if blocked.len() == 0 {
        Seq::empty()
    } else {
        let pid = blocked.last();
        let rest = block_rules(blocked.drop_last(), snap);
        if last_row_of(snap, pid) >= 0 {
            let row = snap[last_row_of(snap, pid)];
            rest.push((row.exe_path@, row.name@, 0, 0, true))
        } else {
            rest
        }
    }
}

fn find_row(snapshot: &[ProcessTrafficSnapshot], pid: u32) -> (r: Option<usize>)
    ensures
        match r {
            Some(i) => i as int == last_row_of(snapshot@, pid) && i < snapshot@.len(),
            None => last_row_of(snapshot@, pid) == -1,
        },
{
    let mut n: usize = snapshot.len();
    assert(snapshot@.take(n as int) =~= snapshot@);
    while n > 0
        invariant
            n <= snapshot@.len(),
            last_row_of(snapshot@, pid) == last_row_of(snapshot@.take(n as int), pid),
        decreases n,
    {
        let ghost pre = snapshot@.take(n as int);
        assert(pre.drop_last() =~= snapshot@.take(n as int - 1));
        if snapshot[n - 1].pid == pid {
            return Some(n - 1);
        }
        n = n - 1;
    }
    None
}

fn entry_from_row(row: &ProcessTrafficSnapshot, download_bps: u64, upload_bps: u64, blocked: bool) -> (r:
    RuleEntry)
    ensures
        rule_view(r) == (row.exe_path@, row.name@, download_bps, upload_bps, blocked),
{
    RuleEntry {
        exe_path: row.exe_path.clone(),
        process_name: row.name.clone(),
        download_bps,
        upload_bps,
        blocked,
    }
}

/// The rules that save the current limits and blocks: one per limited
/// process the snapshot knows (in no particular order), then one per
/// blocked pid the snapshot knows, in order. Pids the snapshot does not
/// know are skipped.
pub fn build_profile_rules(
    limits: &HashMap<u32, BandwidthLimit>,
    blocked_pids: &[u32],
    snapshot: &[ProcessTrafficSnapshot],
) -> (r: Vec<RuleEntry>)
    ensures
        exists|ps: Seq<u32>|
            {
                &&& ps.no_duplicates()
                &&& forall|pid: u32| #[trigger]
                    ps.contains(pid) <==> (limits@.contains_key(pid) && last_row_of(snapshot@, pid)
                        >= 0)
                &&& r@.map_values(|e: RuleEntry| rule_view(e)) == ps.map_values(
                    |pid: u32| limit_rule(snapshot@, pid, limits@[pid]),
                ) + block_rules(blocked_pids@, snapshot@)
            },
{
    let mut rules: Vec<RuleEntry> = Vec::new();
    let iter = limits.iter();
    let ghost kv = iter.remaining();
    let ghost mut ps: Seq<u32> = Seq::empty();
    for x in it: iter
        invariant
            it.seq() == kv,
            kv.no_duplicates(),
            forall|k: int| 0 <= k < kv.len() ==> limits@.contains_key(*(#[trigger] kv[k]).0)
                && limits@[*kv[k].0] == *kv[k].1,
            forall|pid: u32| #[trigger]
                limits@.contains_key(pid) ==> kv.contains((&pid, &limits@[pid])),
            ps.no_duplicates(),
            forall|pid: u32| #[trigger]
                ps.contains(pid) <==> (exists|k: int| 0 <= k < it.index() && *kv[k].0 == pid)
                    && last_row_of(snapshot@, pid) >= 0,
            rules@.map_values(|e: RuleEntry| rule_view(e)) == ps.map_values(
                |pid: u32| limit_rule(snapshot@, pid, limits@[pid]),
            ),
    {
        let ghost idx = it.index();
        let (pid_ref, limit_ref) = x;
        let pid = *pid_ref;
        assert(kv[idx] == x);
        match find_row(snapshot, pid) {
            Some(i) => {
                let e = entry_from_row(&snapshot[i], limit_ref.download_bps, limit_ref.upload_bps, false);
                let ghost before = rules@.map_values(|e: RuleEntry| rule_view(e));
                rules.push(e);
                proof {
                    assert(!ps.contains(pid)) by {
                        if ps.contains(pid) {
                            let k = choose|k: int| 0 <= k < idx && *kv[k].0 == pid;
                            assert(kv[k] == kv[idx]);
                        }
                    }
                    let ghost old_ps = ps;
                    ps = ps.push(pid);
                    assert(ps.drop_last() =~= old_ps);
                    assert(rules@.map_values(|e: RuleEntry| rule_view(e)) =~= before.push(rule_view(e)));
                    assert(ps.map_values(|p: u32| limit_rule(snapshot@, p, limits@[p])) =~= ps.drop_last().map_values(|p: u32| limit_rule(snapshot@, p, limits@[p])).push(limit_rule(snapshot@, pid, limits@[pid])));
                    assert(ps.drop_last() =~= ps.take(ps.len() - 1));
                    assert forall|q: u32| #[trigger] ps.contains(q) <==> (exists|k: int| 0 <= k < idx + 1 && *kv[k].0 == q) && last_row_of(snapshot@, q) >= 0 by {
                        if ps.contains(q) && q != pid {
                            let j = choose|j: int| 0 <= j < ps.len() && ps[j] == q;
                            assert(old_ps[j] == q);
                            assert(old_ps.contains(q));
                        }
                        if q == pid {
                            assert(ps[ps.len() - 1] == pid);
                        }
                        if (exists|k: int| 0 <= k < idx + 1 && *kv[k].0 == q) && last_row_of(snapshot@, q) >= 0 && q != pid {
                            let k = choose|k: int| 0 <= k < idx + 1 && *kv[k].0 == q;
                            assert(k < idx);
                            assert(old_ps.contains(q));
                            let j = choose|j: int| 0 <= j < old_ps.len() && old_ps[j] == q;
                            assert(ps[j] == q);
                        }
                    }
                }
            },
            None => {
                proof {
                    assert forall|q: u32| #[trigger] ps.contains(q) <==> (exists|k: int| 0 <= k < idx + 1 && *kv[k].0 == q) && last_row_of(snapshot@, q) >= 0 by {
                        if (exists|k: int| 0 <= k < idx + 1 && *kv[k].0 == q) && last_row_of(snapshot@, q) >= 0 {
                            let k = choose|k: int| 0 <= k < idx + 1 && *kv[k].0 == q;
                            assert(k < idx);
                        }
                    }
                }
            },
        }
    }
    proof {
        assert forall|pid: u32| #[trigger] ps.contains(pid) <==> (limits@.contains_key(pid) && last_row_of(snapshot@, pid) >= 0) by {
            if limits@.contains_key(pid) {
                assert(kv.contains((&pid, &limits@[pid])));
                let k = choose|k: int| 0 <= k < kv.len() && kv[k] == (&pid, &limits@[pid]);
                assert(*kv[k].0 == pid);
            }
        }
    }
    let ghost lim = rules@.map_values(|e: RuleEntry| rule_view(e));
    let mut j: usize = 0;
    while j < blocked_pids.len()
        invariant
            j <= blocked_pids@.len(),
            rules@.map_values(|e: RuleEntry| rule_view(e)) == lim + block_rules(
                blocked_pids@.take(j as int),
                snapshot@,
            ),
        decreases blocked_pids@.len() - j,
    {
        let pid = blocked_pids[j];
        assert(blocked_pids@.take(j as int + 1).drop_last() =~= blocked_pids@.take(j as int));
        match find_row(snapshot, pid) {
            Some(i) => {
                let e = entry_from_row(&snapshot[i], 0, 0, true);
                let ghost before = rules@.map_values(|e: RuleEntry| rule_view(e));
                rules.push(e);
                assert(rules@.map_values(|e: RuleEntry| rule_view(e)) =~= before.push(rule_view(e)));
            },
            None => {},
        }
        j = j + 1;
    }
    assert(blocked_pids@.take(blocked_pids@.len() as int) =~= blocked_pids@);
    rules
}


/// What a saved rule asks of one running process: nothing unless it runs
/// the rule's executable; then a block, or a limit when either rate is set.
pub open spec fn action_for(rule: SavedRule, p: ProcessTrafficSnapshot) -> Seq<ApplyAction> {
    if p.exe_path@ != rule.exe_path@ {
        Seq::empty()
    } else if rule.blocked {
        seq![ApplyAction::Block { pid: p.pid }]
    } else if rule.download_bps > 0 || rule.upload_bps > 0 {
        seq![
            ApplyAction::Limit {
                pid: p.pid,
                download_bps: rule.download_bps,
                upload_bps: rule.upload_bps,
            },
        ]
    } else {
        Seq::empty()
    }
}

/// The actions of one rule over the processes, in order.
pub open spec fn actions_for_rule(rule: SavedRule, snap: Seq<ProcessTrafficSnapshot>) -> Seq<
    ApplyAction,
>
    decreases snap.len(),
{
    if snap.len() == 0 {
        Seq::empty()
    } else {
        actions_for_rule(rule, snap.drop_last()) + action_for(rule, snap.last())
    }
}

/// The actions of all rules, rule by rule.
pub open spec fn actions_for(rules: Seq<SavedRule>, snap: Seq<ProcessTrafficSnapshot>) -> Seq<
    ApplyAction,
>
    decreases rules.len(),
{
    if rules.len() == 0 {
        Seq::empty()
    } else {
        actions_for(rules.drop_last(), snap) + actions_for_rule(rules.last(), snap)
    }
}

/// The actions that activating a profile takes on the running processes:
/// for each rule in order, for each process running its executable, in
/// order, a block or a limit.
pub fn match_rules_to_processes(rules: &[SavedRule], snapshot: &[ProcessTrafficSnapshot]) -> (r:
    Vec<ApplyAction>)
    ensures
        r@ == actions_for(rules@, snapshot@),
{
    let mut actions: Vec<ApplyAction> = Vec::new();
    let mut i: usize = 0;
    while i < rules.len()
        invariant
            i <= rules@.len(),
            actions@ == actions_for(rules@.take(i as int), snapshot@),
        decreases rules@.len() - i,
    {
        let rule = &rules[i];
        let ghost base = actions@;
        let mut j: usize = 0;
        while j < snapshot.len()
            invariant
                i < rules@.len(),
                *rule == rules@[i as int],
                j <= snapshot@.len(),
                actions@ == base + actions_for_rule(*rule, snapshot@.take(j as int)),
            decreases snapshot@.len() - j,
        {
            let p = &snapshot[j];
            let ghost before = actions@;
            if p.exe_path == rule.exe_path {
                if rule.blocked {
                    actions.push(ApplyAction::Block { pid: p.pid });
                } else if rule.download_bps > 0 || rule.upload_bps > 0 {
                    actions.push(
                        ApplyAction::Limit {
                            pid: p.pid,
                            download_bps: rule.download_bps,
                            upload_bps: rule.upload_bps,
                        },
                    );
                }
            }
            proof {
                assert(snapshot@.take(j as int + 1).drop_last() =~= snapshot@.take(j as int));
                assert(actions@ =~= before + action_for(*rule, snapshot@[j as int]));
                assert(actions@ =~= base + actions_for_rule(*rule, snapshot@.take(j as int + 1)));
            }
            j = j + 1;
        }
        proof {
            assert(snapshot@.take(snapshot@.len() as int) =~= snapshot@);
            assert(rules@.take(i as int + 1).drop_last() =~= rules@.take(i as int));
        }
        i = i + 1;
    }
    assert(rules@.take(rules@.len() as int) =~= rules@);
    actions
}

/// Intercept mode can be turned on only when it is off.
pub fn validate_intercept_enable(is_active: bool) -> (r: Result<(), AppError>)
    ensures
        !is_active ==> r is Ok,
        is_active ==> r is Err && (match r {
            Err(AppError::InvalidInput(m)) => m@ == "Intercept mode is already active"@,
            _ => false,
        }),
{
    if is_active {
        return Err(AppError::InvalidInput(String::from_str("Intercept mode is already active")));
    }
    Ok(())
}

/// The capture filter to intercept with: the one given, else all TCP and
/// UDP traffic.
pub fn resolve_intercept_filter(filter: Option<String>) -> (r: String)
    ensures
        r@ == match filter {
            Some(f) => f@,
            None => "tcp or udp"@,
        },
{
    match filter {
        Some(f) => f,
        None => String::from_str("tcp or udp"),
    }
}

/// Applies saved rules to the running processes the ledger knows: a
/// process running a blocked rule's executable is blocked; one running a
/// rule's executable with a rate set, and not yet limited, gets that limit
/// (rules are taken in order, so the first such rule wins). Existing
/// limits and blocks are kept.
pub fn apply_persistent_rules(
    tracker: &TrafficTracker,
    mapper: &ProcessMapper,
    limiter: &mut RateLimiterManager,
    rules: &Vec<SavedRule>,
)
    requires
        old(limiter).wf(),
    ensures
        final(limiter).wf(),
        old(limiter).blocked().subset_of(final(limiter).blocked()),
        forall|pid: u32| #[trigger]
            old(limiter).limits().contains_key(pid) ==> final(limiter).limits().contains_key(pid)
                && final(limiter).limits()[pid] == old(limiter).limits()[pid],
        forall|pid: u32| #[trigger]
            final(limiter).limits().contains_key(pid) && !old(limiter).limits().contains_key(pid)
                ==> exists|k: int|
                0 <= k < rules@.len() && (rules@[k].download_bps > 0 || rules@[k].upload_bps > 0)
                    && final(limiter).limits()[pid] == (BandwidthLimit {
                    download_bps: rules@[k].download_bps,
                    upload_bps: rules@[k].upload_bps,
                }),
        forall|pid: u32| #[trigger]
            final(limiter).blocked().contains(pid) && !old(limiter).blocked().contains(pid)
                ==> exists|k: int| 0 <= k < rules@.len() && rules@[k].blocked,
        forall|pid: u32, k: int|
            #![trigger tracker.counters().contains_key(pid), rules@[k]]
            tracker.counters().contains_key(pid) && 0 <= k < rules@.len() && rules@[k].exe_path@
                == display_path(mapper.infos(), pid) ==> (rules@[k].blocked
                ==> final(limiter).blocked().contains(pid)) && (!rules@[k].blocked && (rules@[k].download_bps > 0
                || rules@[k].upload_bps > 0) ==> final(limiter).limits().contains_key(pid)),
{
    if rules.len() == 0 {
        return;
    }
    let snapshot = tracker.snapshot(mapper);
    let mut i: usize = 0;
    while i < snapshot.len()
        invariant
            i <= snapshot@.len(),
            limiter.wf(),
            old(limiter).blocked().subset_of(limiter.blocked()),
            forall|pid: u32| #[trigger]
                old(limiter).limits().contains_key(pid) ==> limiter.limits().contains_key(pid)
                    && limiter.limits()[pid] == old(limiter).limits()[pid],
            forall|pid: u32| #[trigger]
                limiter.limits().contains_key(pid) && !old(limiter).limits().contains_key(pid)
                    ==> exists|k: int|
                    0 <= k < rules@.len() && (rules@[k].download_bps > 0 || rules@[k].upload_bps
                        > 0) && limiter.limits()[pid] == (BandwidthLimit {
                        download_bps: rules@[k].download_bps,
                        upload_bps: rules@[k].upload_bps,
                    }),
            forall|pid: u32| #[trigger]
                limiter.blocked().contains(pid) && !old(limiter).blocked().contains(pid)
                    ==> exists|k: int| 0 <= k < rules@.len() && rules@[k].blocked,
            forall|j: int, k: int|
                #![trigger snapshot@[j], rules@[k]]
                0 <= j < i && 0 <= k < rules@.len() && rules@[k].exe_path@ == snapshot@[j].exe_path@
                    ==> (rules@[k].blocked ==> limiter.blocked().contains(snapshot@[j].pid)) && (
                !rules@[k].blocked && (rules@[k].download_bps > 0 || rules@[k].upload_bps > 0)
                    ==> limiter.limits().contains_key(snapshot@[j].pid)),
        decreases snapshot@.len() - i,
    {
        let pid = snapshot[i].pid;
        let mut k: usize = 0;
        while k < rules.len()
            invariant
                k <= rules@.len(),
                limiter.wf(),
                old(limiter).blocked().subset_of(limiter.blocked()),
                forall|pid: u32| #[trigger]
                    old(limiter).limits().contains_key(pid) ==> limiter.limits().contains_key(pid)
                        && limiter.limits()[pid] == old(limiter).limits()[pid],
                forall|pid: u32| #[trigger]
                    limiter.limits().contains_key(pid) && !old(limiter).limits().contains_key(pid)
                        ==> exists|k: int|
                        0 <= k < rules@.len() && (rules@[k].download_bps > 0
                            || rules@[k].upload_bps > 0) && limiter.limits()[pid] == (BandwidthLimit {
                            download_bps: rules@[k].download_bps,
                            upload_bps: rules@[k].upload_bps,
                        }),
                forall|pid: u32| #[trigger]
                    limiter.blocked().contains(pid) && !old(limiter).blocked().contains(pid)
                        ==> exists|k: int| 0 <= k < rules@.len() && rules@[k].blocked,
                i < snapshot@.len(),
                pid == snapshot@[i as int].pid,
                forall|j: int, k: int|
                    #![trigger snapshot@[j], rules@[k]]
                    0 <= j < i && 0 <= k < rules@.len() && rules@[k].exe_path@
                        == snapshot@[j].exe_path@ ==> (rules@[k].blocked ==> limiter.blocked().contains(
                        snapshot@[j].pid,
                    )) && (!rules@[k].blocked && (rules@[k].download_bps > 0
                        || rules@[k].upload_bps > 0) ==> limiter.limits().contains_key(
                        snapshot@[j].pid,
                    )),
                forall|kk: int|
                    #![trigger rules@[kk]]
                    0 <= kk < k && rules@[kk].exe_path@ == snapshot@[i as int].exe_path@ ==> (
                    rules@[kk].blocked ==> limiter.blocked().contains(pid)) && (!rules@[kk].blocked
                        && (rules@[kk].download_bps > 0 || rules@[kk].upload_bps > 0)
                        ==> limiter.limits().contains_key(pid)),
            decreases rules@.len() - k,
        {
            let rule = &rules[k];
            if snapshot[i].exe_path == rule.exe_path {
                if rule.blocked && !limiter.is_blocked(pid) {
                    limiter.block_process(pid);
                    assert(rules@[k as int].blocked);
                } else if (rule.download_bps > 0 || rule.upload_bps > 0) && !limiter.is_limited(pid) {
                    let limit = BandwidthLimit {
                        download_bps: rule.download_bps,
                        upload_bps: rule.upload_bps,
                    };
                    limiter.set_limit(pid, limit);
                    assert(rules@[k as int].download_bps > 0 || rules@[k as int].upload_bps > 0);
                }
            }
            k = k + 1;
        }
        i = i + 1;
    }
    proof {
        assert forall|p: u32, k: int|
            #![trigger tracker.counters().contains_key(p), rules@[k]]
            tracker.counters().contains_key(p) && 0 <= k < rules@.len() && rules@[k].exe_path@
                == display_path(mapper.infos(), p) implies (rules@[k].blocked ==> limiter.blocked().contains(p)) && (!rules@[k].blocked && (rules@[k].download_bps > 0
                || rules@[k].upload_bps > 0) ==> limiter.limits().contains_key(p)) by {
            let j = choose|j: int| 0 <= j < snapshot@.len() && snapshot@[j].pid == p;
            assert(snapshot_of(snapshot@[j], tracker.counters()[p], mapper.infos()));
            assert(rules@[k].exe_path@ == snapshot@[j].exe_path@);
        }
    }
}


/// The blocks after taking a list of actions in order.
pub open spec fn blocks_after(base: Set<u32>, a: Seq<ApplyAction>) -> Set<u32>
    decreases a.len(),
{
    if a.len() == 0 {
        base
    } else {
        let before = blocks_after(base, a.drop_last());
        match a.last() {
            ApplyAction::Block { pid } => before.insert(pid),
            ApplyAction::Limit { .. } => before,
        }
    }
}

/// The limits after taking a list of actions in order.
pub open spec fn limits_after(base: Map<u32, BandwidthLimit>, a: Seq<ApplyAction>) -> Map<
    u32,
    BandwidthLimit,
>
    decreases a.len(),
{
    if a.len() == 0 {
        base
    } else {
        let before = limits_after(base, a.drop_last());
        match a.last() {
            ApplyAction::Block { .. } => before,
            ApplyAction::Limit { pid, download_bps, upload_bps } => before.insert(
                pid,
                BandwidthLimit { download_bps, upload_bps },
            ),
        }
    }
}

/// Takes a list of actions in order: blocks, and limits set.
pub fn apply_actions(limiter: &mut RateLimiterManager, actions: &Vec<ApplyAction>)
    requires
        old(limiter).wf(),
    ensures
        final(limiter).wf(),
        final(limiter).blocked() == blocks_after(old(limiter).blocked(), actions@),
        final(limiter).limits() == limits_after(old(limiter).limits(), actions@),
{
    let mut i: usize = 0;
    while i < actions.len()
        invariant
            i <= actions@.len(),
            limiter.wf(),
            limiter.blocked() == blocks_after(old(limiter).blocked(), actions@.take(i as int)),
            limiter.limits() == limits_after(old(limiter).limits(), actions@.take(i as int)),
        decreases actions@.len() - i,
    {
        assert(actions@.take(i as int + 1).drop_last() =~= actions@.take(i as int));
        match actions[i] {
            ApplyAction::Block { pid } => limiter.block_process(pid),
            ApplyAction::Limit { pid, download_bps, upload_bps } => {
                limiter.set_limit(pid, BandwidthLimit { download_bps, upload_bps });
            },
        }
        i = i + 1;
    }
    assert(actions@.take(actions@.len() as int) =~= actions@);
}

/// Activates a profile's saved rules: every limit and block is dropped,
/// then the rules are matched against the processes the ledger knows and
/// the resulting actions are taken. Returns the number of actions.
pub fn apply_profile_rules(
    tracker: &TrafficTracker,
    mapper: &ProcessMapper,
    limiter: &mut RateLimiterManager,
    rules: &Vec<SavedRule>,
) -> (r: usize)
    requires
        old(limiter).wf(),
    ensures
        final(limiter).wf(),
        exists|snap: Seq<ProcessTrafficSnapshot>|
            {
                &&& lists_snapshot(snap, tracker.counters(), mapper.infos())
                &&& r == actions_for(rules@, snap).len()
                &&& final(limiter).blocked() == blocks_after(
                    Set::empty(),
                    actions_for(rules@, snap),
                )
                &&& final(limiter).limits() == limits_after(
                    Map::empty(),
                    actions_for(rules@, snap),
                )
            },
{
    limiter.clear_all();
    let snapshot = tracker.snapshot(mapper);
    let actions = match_rules_to_processes(rules.as_slice(), snapshot.as_slice());
    apply_actions(limiter, &actions);
    assert(lists_snapshot(snapshot@, tracker.counters(), mapper.infos()));
    actions.len()
}

} // verus!

