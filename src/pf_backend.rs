//! The firewall-pipe reconciler's state: dummynet pipe pairs of the
//! limited processes, drop entries of the blocked ones, the anchor's rule
//! text, and the commands that bring the packet filter in line.
//!
//! Nothing here runs a command: each operation updates the state and
//! returns the commands and rule text for the caller to apply.

use std::collections::{HashMap, HashSet};
use vstd::prelude::*;
use vstd::std_specs::hash::group_hash_axioms;
use vstd::std_specs::iter::IteratorSpec;

use crate::rate_limiter::BandwidthLimit;
use crate::text::{chars_of, contains_text, decimal, has_substring, push_decimal, push_str};

verus! {

broadcast use group_hash_axioms;

/// `s` is in strictly increasing order.
pub open spec fn strictly_sorted(s: Seq<u16>) -> bool {
    forall|i: int, j: int| 0 <= i < j < s.len() ==> s[i] < s[j]
}

/// `s` holds exactly the ports of `set`.
pub open spec fn same_ports(s: Seq<u16>, set: Set<u16>) -> bool {
    forall|p: u16| #[trigger] s.contains(p) <==> set.contains(p)
}

/// Two strictly increasing sequences of the same ports are equal.
proof fn lemma_sorted_unique(a: Seq<u16>, b: Seq<u16>)
    requires
        strictly_sorted(a),
        strictly_sorted(b),
        forall|p: u16| #[trigger] a.contains(p) <==> b.contains(p),
    ensures
        a == b,
    decreases a.len(),
{
    if a.len() == 0 {
        if b.len() > 0 {
            assert(b.contains(b[0]));
            assert(a.contains(b[0]));
            assert(false);
        }
        assert(b =~= a);
    } else if b.len() == 0 {
        assert(a.contains(a[0]));
    } else {
        assert(a.contains(a[0]));
        assert(b.contains(b[0]));
        assert(b.contains(a[0]));
        assert(a.contains(b[0]));
        let ja = choose|j: int| 0 <= j < b.len() && b[j] == a[0];
        let jb = choose|j: int| 0 <= j < a.len() && a[j] == b[0];
        if ja > 0 {
            assert(b[0] < b[ja]);
        }
        if jb > 0 {
            assert(a[0] < a[jb]);
        }
        assert(a[0] == b[0]);
        let a1 = a.subrange(1, a.len() as int);
        let b1 = b.subrange(1, b.len() as int);
        assert forall|p: u16| #[trigger] a1.contains(p) <==> b1.contains(p) by {
            if a1.contains(p) {
                let k = choose|k: int| 0 <= k < a1.len() && a1[k] == p;
                assert(a[k + 1] == p);
                assert(a[0] < a[k + 1]);
                assert(a.contains(p));
                assert(b.contains(p));
                let m = choose|m: int| 0 <= m < b.len() && b[m] == p;
                assert(m != 0);
                assert(b1[m - 1] == p);
            }
            if b1.contains(p) {
                let k = choose|k: int| 0 <= k < b1.len() && b1[k] == p;
                assert(b[k + 1] == p);
                assert(b[0] < b[k + 1]);
                assert(b.contains(p));
                assert(a.contains(p));
                let m = choose|m: int| 0 <= m < a.len() && a[m] == p;
                assert(m != 0);
                assert(a1[m - 1] == p);
            }
        }
        lemma_sorted_unique(a1, b1);
        assert forall|i: int| 0 <= i < a.len() implies a[i] == b[i] by {
            if i > 0 {
                assert(a[i] == a1[i - 1]);
                assert(b[i] == b1[i - 1]);
            }
        }
        assert(a =~= b);
    }
}

fn same_list(a: &Vec<u16>, b: &Vec<u16>) -> (r: bool)
    ensures
        r == (a@ == b@),
{
    if a.len() != b.len() {
        return false;
    }
    let mut i: usize = 0;
    while i < a.len()
        invariant
            a@.len() == b@.len(),
            i <= a@.len(),
            forall|k: int| 0 <= k < i ==> a@[k] == b@[k],
        decreases a@.len() - i,
    {
        if a[i] != b[i] {
            return false;
        }
        i = i + 1;
    }
    assert(a@ =~= b@);
    true
}

fn copy_list(a: &Vec<u16>) -> (r: Vec<u16>)
    ensures
        r@ == a@,
{
    let mut r: Vec<u16> = Vec::new();
    let mut i: usize = 0;
    while i < a.len()
        invariant
            i <= a@.len(),
            r@ == a@.take(i as int),
        decreases a@.len() - i,
    {
        r.push(a[i]);
        assert(a@.take(i as int + 1) =~= a@.take(i as int).push(a@[i as int]));
        i = i + 1;
    }
    assert(a@.take(a@.len() as int) =~= a@);
    r
}

/// The ports of a set in increasing order.
pub open spec fn sorted_of(set: Set<u16>) -> Seq<u16> {
    choose|s: Seq<u16>| strictly_sorted(s) && same_ports(s, set)
}

/// The ports of a set in increasing order.
pub fn sorted_ports(ports: &HashSet<u16>) -> (r: Vec<u16>)
    ensures
        strictly_sorted(r@),
        same_ports(r@, ports@),
        r@ == sorted_of(ports@),
{
    let mut out: Vec<u16> = Vec::new();
    let ghost all = ports.iter().remaining().unref();
    for p in it: ports.iter()
        invariant
            it.seq().unref() == all,
            all.to_set() == ports@,
            all.no_duplicates(),
            strictly_sorted(out@),
            forall|y: u16| #[trigger] out@.contains(y) <==> all.take(it.index() as int).contains(y),
    {
        let ghost idx = it.index() as int;
        let x: u16 = *p;
        assert(all[idx] == x);
        let mut j: usize = 0;
        while j < out.len() && out[j] < x
            invariant
                j <= out@.len(),
                forall|k: int| 0 <= k < j ==> out@[k] < x,
            decreases out@.len() - j,
        {
            j = j + 1;
        }
        proof {
            assert(!all.take(idx).contains(x)) by {
                if all.take(idx).contains(x) {
                    let k = choose|k: int| 0 <= k < idx && #[trigger] all.take(idx)[k] == x;
                    assert(all[k] == all[idx]);
                }
            }
            assert forall|k: int| j <= k < out@.len() implies out@[k] > x by {
                assert(out@[j as int] >= x);
                if k > j {
                    assert(out@[j as int] < out@[k]);
                }
                assert(out@.contains(out@[k]));
            }
        }
        let ghost before = out@;
        out.insert(j, x);
        proof {
            assert forall|y: u16| #[trigger] out@.contains(y) <==> (before.contains(y) || y == x) by {
                if out@.contains(y) {
                    let k = choose|k: int| 0 <= k < out@.len() && out@[k] == y;
                    if k < j {
                        assert(before[k] == y);
                    } else if k > j {
                        assert(before[k - 1] == y);
                    }
                }
                if before.contains(y) {
                    let k = choose|k: int| 0 <= k < before.len() && before[k] == y;
                    if k < j {
                        assert(out@[k] == y);
                    } else {
                        assert(out@[k + 1] == y);
                    }
                }
                if y == x {
                    assert(out@[j as int] == x);
                }
            }
            assert forall|y: u16| #[trigger]
                all.take(idx + 1).contains(y) <==> (all.take(idx).contains(y) || y == x) by {
                if all.take(idx + 1).contains(y) {
                    let k = choose|k: int| 0 <= k < idx + 1 && #[trigger] all.take(idx + 1)[k] == y;
                    if k < idx {
                        assert(all.take(idx)[k] == y);
                    }
                }
                if all.take(idx).contains(y) {
                    let k = choose|k: int| 0 <= k < idx && #[trigger] all.take(idx)[k] == y;
                    assert(all.take(idx + 1)[k] == y);
                }
                if y == x {
                    assert(all.take(idx + 1)[idx] == x);
                }
            }
        }
    }
    proof {
        assert forall|y: u16| #[trigger] out@.contains(y) <==> ports@.contains(y) by {
            assert(all.take(all.len() as int) =~= all);
            if ports@.contains(y) {
                assert(all.to_set().contains(y));
            }
        }
        let c = sorted_of(ports@);
        assert(strictly_sorted(out@) && same_ports(out@, ports@));
        lemma_sorted_unique(out@, c);
    }
    out
}


/// First pipe number handed out.
pub const PIPE_BASE: u32 = 10000;

/// Pipe numbers stay below this bound.
pub const PIPE_MAX: u32 = 60000;

/// Why a change to the packet filter's state was refused.
#[derive(Clone, Copy, Debug, PartialEq, Eq, Structural)]
pub enum PfError {
    /// No pipe pair is left below the pipe-number bound.
    PipesExhausted,
}

/// A command of the packet-filter tools: the program and its arguments.
#[derive(Clone, Debug)]
pub struct PfCommand {
    pub program: String,
    pub args: Vec<String>,
}

/// Program and arguments of a command, as character sequences.
pub open spec fn command_view(c: PfCommand) -> (Seq<char>, Seq<Seq<char>>) {
    (c.program@, c.args@.map_values(|a: String| a@))
}

/// What to apply to the packet filter after a change of state: commands
/// to run in order, then, when present, the anchor's new rule text to load.
#[derive(Clone, Debug)]
pub struct PfPlan {
    pub commands: Vec<PfCommand>,
    pub rules: Option<String>,
}

/// The comma-separated decimal list of a sequence of ports.
pub open spec fn port_list_text(s: Seq<u16>) -> Seq<char>
    decreases s.len(),
{
    if s.len() == 0 {
        Seq::empty()
    } else if s.len() == 1 {
        decimal(s[0] as nat)
    } else {
        port_list_text(s.drop_last()) + ", "@ + decimal(s.last() as nat)
    }
}

fn write_port_list(out: &mut String, ports: &Vec<u16>)
    ensures
        final(out)@ == old(out)@ + port_list_text(ports@),
{
    let mut i: usize = 0;
    while i < ports.len()
        invariant
            i <= ports@.len(),
            out@ == old(out)@ + port_list_text(ports@.take(i as int)),
        decreases ports@.len() - i,
    {
        proof {
            assert(ports@.take(i as int + 1).drop_last() =~= ports@.take(i as int));
            if i == 0 {
                assert(port_list_text(ports@.take(0)) =~= Seq::<char>::empty());
            }
        }
        if i > 0 {
            push_str(out, ", ");
        }
        push_decimal(out, ports[i] as u128);
        proof {
            if i == 0 {
                assert(out@ =~= old(out)@ + port_list_text(ports@.take(1)));
            } else {
                assert(out@ =~= old(out)@ + port_list_text(ports@.take(i as int + 1)));
            }
        }
        i = i + 1;
    }
    assert(ports@.take(ports@.len() as int) =~= ports@);
}

/// Formats a set of ports as a comma-separated list in increasing order.
pub fn format_port_list(ports: &HashSet<u16>) -> (r: String)
    ensures
        r@ == port_list_text(sorted_of(ports@)),
{
    let sorted = sorted_ports(ports);
    let mut out = String::new();
    write_port_list(&mut out, &sorted);
    out
}

/// A pipe pair as seen by the rules: pid, download pipe, upload pipe,
/// download and upload rates in bytes per second, and the sorted ports.
pub type PipeView = (u32, u32, u32, u64, u64, Seq<u16>);

/// A blocked process as seen by the rules: pid and sorted ports.
pub type BlockView = (u32, Seq<u16>);

/// A dummynet pipe pair for a single process.
#[derive(Clone, Debug)]
pub struct PipeAllocation {
    pub pid: u32,
    pub download_pipe: u32,
    pub upload_pipe: u32,
    pub download_bps: u64,
    pub upload_bps: u64,
    /// Local ports of the process, in increasing order.
    pub ports: Vec<u16>,
}

/// A blocked process and its local ports, in increasing order.
#[derive(Clone, Debug)]
pub struct BlockEntry {
    pub pid: u32,
    pub ports: Vec<u16>,
}

pub open spec fn pipe_view(a: PipeAllocation) -> PipeView {
    (a.pid, a.download_pipe, a.upload_pipe, a.download_bps, a.upload_bps, a.ports@)
}

pub open spec fn block_view(b: BlockEntry) -> BlockView {
    (b.pid, b.ports@)
}

/// The two rules that send a process's traffic through its pipes; none
/// when it has no ports.
pub open spec fn pipe_rules_text(e: PipeView) -> Seq<char> {
    if e.5.len() == 0 {
        Seq::empty()
    } else {
        "dummynet in proto { tcp, udp } from any to any port { "@ + port_list_text(e.5)
            + " } pipe "@ + decimal(e.1 as nat) + "\n"@
            + "dummynet out proto { tcp, udp } from any port { "@ + port_list_text(e.5)
            + " } to any pipe "@ + decimal(e.2 as nat) + "\n"@
    }
}

/// The two rules that drop a blocked process's traffic; none when it has no
/// ports.
pub open spec fn block_rules_text(e: BlockView) -> Seq<char> {
    if e.1.len() == 0 {
        Seq::empty()
    } else {
        "block drop in proto { tcp, udp } from any to any port { "@ + port_list_text(e.1)
            + " }\n"@ + "block drop out proto { tcp, udp } from any port { "@
            + port_list_text(e.1) + " } to any\n"@
    }
}

pub open spec fn pipes_text(s: Seq<PipeView>) -> Seq<char>
    decreases s.len(),
{
    if s.len() == 0 {
        Seq::empty()
    } else {
        pipes_text(s.drop_last()) + pipe_rules_text(s.last())
    }
}

pub open spec fn blocks_text(s: Seq<BlockView>) -> Seq<char>
    decreases s.len(),
{
    if s.len() == 0 {
        Seq::empty()
    } else {
        blocks_text(s.drop_last()) + block_rules_text(s.last())
    }
}

/// Comment lines that open the anchor's rule text.
pub open spec fn rules_header() -> Seq<char> {
    "# NetGuard pf rules \u{2014} auto-generated, do not edit\n# Flush and reload atomically via pfctl -a netguard\n\n"@
}

/// The anchor's whole rule text: the header, the pipe rules of every
/// process, then the drop rules of every blocked process.
pub open spec fn rules_text(pipes: Seq<PipeView>, blocked: Seq<BlockView>) -> Seq<char> {
    rules_header() + pipes_text(pipes) + blocks_text(blocked)
}

fn push_pipe_rules(out: &mut String, a: &PipeAllocation)
    ensures
        final(out)@ == old(out)@ + pipe_rules_text(pipe_view(*a)),
{
    if a.ports.len() == 0 {
        assert(old(out)@ + pipe_rules_text(pipe_view(*a)) =~= old(out)@);
        return;
    }
    push_str(out, "dummynet in proto { tcp, udp } from any to any port { ");
    write_port_list(out, &a.ports);
    push_str(out, " } pipe ");
    push_decimal(out, a.download_pipe as u128);
    push_str(out, "\n");
    push_str(out, "dummynet out proto { tcp, udp } from any port { ");
    write_port_list(out, &a.ports);
    push_str(out, " } to any pipe ");
    push_decimal(out, a.upload_pipe as u128);
    push_str(out, "\n");
    assert(out@ =~= old(out)@ + pipe_rules_text(pipe_view(*a)));
}

fn push_block_rules(out: &mut String, b: &BlockEntry)
    ensures
        final(out)@ == old(out)@ + block_rules_text(block_view(*b)),
{
    if b.ports.len() == 0 {
        assert(old(out)@ + block_rules_text(block_view(*b)) =~= old(out)@);
        return;
    }
    push_str(out, "block drop in proto { tcp, udp } from any to any port { ");
    write_port_list(out, &b.ports);
    push_str(out, " }\n");
    push_str(out, "block drop out proto { tcp, udp } from any port { ");
    write_port_list(out, &b.ports);
    push_str(out, " } to any\n");
    assert(out@ =~= old(out)@ + block_rules_text(block_view(*b)));
}


/// Whether some entry of `s` belongs to `pid`.
pub open spec fn has_pipe(s: Seq<PipeView>, pid: u32) -> bool {
    exists|i: int| 0 <= i < s.len() && (#[trigger] s[i]).0 == pid
}

/// The position of `pid`'s entry in `s`, when it has one.
pub open spec fn pipe_index(s: Seq<PipeView>, pid: u32) -> int {
    choose|i: int| 0 <= i < s.len() && (#[trigger] s[i]).0 == pid
}

pub open spec fn has_block(s: Seq<BlockView>, pid: u32) -> bool {
    exists|i: int| 0 <= i < s.len() && (#[trigger] s[i]).0 == pid
}

pub open spec fn block_index(s: Seq<BlockView>, pid: u32) -> int {
    choose|i: int| 0 <= i < s.len() && (#[trigger] s[i]).0 == pid
}

proof fn lemma_pipe_index(s: Seq<PipeView>, pid: u32, i: int)
    requires
        0 <= i < s.len(),
        s[i].0 == pid,
        forall|a: int, b: int| 0 <= a < b < s.len() ==> #[trigger] s[a].0 != #[trigger] s[b].0,
    ensures
        pipe_index(s, pid) == i,
{
    let c = pipe_index(s, pid);
    assert(s[i].0 == pid);
    assert(0 <= c < s.len() && s[c].0 == pid);
    if c < i {
        assert(s[c].0 != s[i].0);
    } else if c > i {
        assert(s[i].0 != s[c].0);
    }
}

proof fn lemma_block_index(s: Seq<BlockView>, pid: u32, i: int)
    requires
        0 <= i < s.len(),
        s[i].0 == pid,
        forall|a: int, b: int| 0 <= a < b < s.len() ==> #[trigger] s[a].0 != #[trigger] s[b].0,
    ensures
        block_index(s, pid) == i,
{
    let c = block_index(s, pid);
    assert(s[i].0 == pid);
    assert(0 <= c < s.len() && s[c].0 == pid);
    if c < i {
        assert(s[c].0 != s[i].0);
    } else if c > i {
        assert(s[i].0 != s[c].0);
    }
}

/// Pipe pairs have distinct owners and sorted ports, and are consecutive
/// numbers handed out in increasing order below `next`.
pub open spec fn pipes_wf(p: Seq<PipeView>, next: u32) -> bool {
    &&& forall|i: int, j: int| 0 <= i < j < p.len() ==> #[trigger] p[i].0 != #[trigger] p[j].0
    &&& forall|i: int, j: int| 0 <= i < j < p.len() ==> #[trigger] p[i].2 < #[trigger] p[j].1
    &&& forall|i: int| 0 <= i < p.len() ==> {
        &&& PIPE_BASE <= (#[trigger] p[i]).1
        &&& p[i].2 == p[i].1 + 1
        &&& p[i].2 < next
        &&& strictly_sorted(p[i].5)
    }
}

/// Drop entries have distinct owners and sorted ports.
pub open spec fn blocked_wf(b: Seq<BlockView>) -> bool {
    &&& forall|i: int, j: int| 0 <= i < j < b.len() ==> #[trigger] b[i].0 != #[trigger] b[j].0
    &&& forall|i: int| 0 <= i < b.len() ==> strictly_sorted((#[trigger] b[i]).1)
}

/// The argument list of a pipe's configuration: its number and bandwidth,
/// `0` for no limit, else the rate in bits per second.
pub open spec fn configure_args(pipe: u32, bps: u64) -> Seq<Seq<char>> {
    seq![
        "pipe"@,
        decimal(pipe as nat),
        "config"@,
        "bw"@,
        if bps == 0 {
            "0"@
        } else {
            decimal((bps * 8) as nat) + "bit/s"@
        },
    ]
}

pub open spec fn configure_view(pipe: u32, bps: u64) -> (Seq<char>, Seq<Seq<char>>) {
    ("dnctl"@, configure_args(pipe, bps))
}

pub open spec fn delete_view(pipe: u32) -> (Seq<char>, Seq<Seq<char>>) {
    ("dnctl"@, seq!["pipe"@, decimal(pipe as nat), "delete"@])
}

fn owned(s: &str) -> (r: String)
    ensures
        r@ == s@,
{
    String::from_str(s)
}

fn decimal_string(n: u128) -> (r: String)
    ensures
        r@ == decimal(n as nat),
{
    let mut s = String::new();
    push_decimal(&mut s, n);
    s
}

/// The command that configures a dummynet pipe's bandwidth.
pub fn configure_pipe_command(pipe: u32, bps: u64) -> (r: PfCommand)
    ensures
        command_view(r) == configure_view(pipe, bps),
{
    let bw = if bps == 0 {
        owned("0")
    } else {
        let mut t = decimal_string((bps as u128) * 8);
        push_str(&mut t, "bit/s");
        t
    };
    let args = vec![owned("pipe"), decimal_string(pipe as u128), owned("config"), owned("bw"), bw];
    let r = PfCommand { program: owned("dnctl"), args };
    assert(command_view(r).1 =~= configure_args(pipe, bps));
    r
}

/// The command that deletes a dummynet pipe.
pub fn delete_pipe_command(pipe: u32) -> (r: PfCommand)
    ensures
        command_view(r) == delete_view(pipe),
{
    let args = vec![owned("pipe"), decimal_string(pipe as u128), owned("delete")];
    let r = PfCommand { program: owned("dnctl"), args };
    assert(command_view(r).1 =~= seq!["pipe"@, decimal(pipe as nat), "delete"@]);
    r
}

fn flush_anchor_command() -> (r: PfCommand)
    ensures
        command_view(r) == flush_anchor_view(),
{
    let r = PfCommand {
        program: owned("pfctl"),
        args: vec![owned("-a"), owned("netguard"), owned("-F"), owned("all")],
    };
    assert(command_view(r).1 =~= flush_anchor_view().1);
    r
}

fn flush_pipes_command() -> (r: PfCommand)
    ensures
        command_view(r) == flush_pipes_view(),
{
    let r = PfCommand { program: owned("dnctl"), args: vec![owned("-f"), owned("flush")] };
    assert(command_view(r).1 =~= flush_pipes_view().1);
    r
}

fn enable_command() -> (r: PfCommand)
    ensures
        command_view(r) == enable_view(),
{
    let r = PfCommand { program: owned("pfctl"), args: vec![owned("-e")] };
    assert(command_view(r).1 =~= enable_view().1);
    r
}

/// Pipe pairs, blocked processes and bookkeeping of the packet filter.
pub struct PfState {
    pipes: Vec<PipeAllocation>,
    blocked: Vec<BlockEntry>,
    next_pipe: u32,
    anchor_registered: bool,
    active: bool,
}

impl PfState {
    /// The pipe pairs, in allocation order.
    pub closed spec fn pipes(&self) -> Seq<PipeView> {
        self.pipes@.map_values(|a: PipeAllocation| pipe_view(a))
    }

    /// The blocked processes, in the order they were first blocked.
    pub closed spec fn blocked(&self) -> Seq<BlockView> {
        self.blocked@.map_values(|b: BlockEntry| block_view(b))
    }

    pub closed spec fn next(&self) -> u32 {
        self.next_pipe
    }

    pub closed spec fn registered(&self) -> bool {
        self.anchor_registered
    }

    pub closed spec fn is_on(&self) -> bool {
        self.active
    }

    /// Each process has at most one pipe pair and one drop entry; port lists
    /// are sorted; pipe pairs are consecutive numbers, handed out in
    /// increasing order below the next free number.
    pub open spec fn wf(&self) -> bool {
        &&& PIPE_BASE <= self.next() <= PIPE_MAX
        &&& pipes_wf(self.pipes(), self.next())
        &&& blocked_wf(self.blocked())
    }

    pub fn new() -> (r: PfState)
        ensures
            r.wf(),
            r.pipes() == Seq::<PipeView>::empty(),
            r.blocked() == Seq::<BlockView>::empty(),
            r.next() == PIPE_BASE,
            !r.registered(),
            !r.is_on(),
    {
        let r = PfState {
            pipes: Vec::new(),
            blocked: Vec::new(),
            next_pipe: PIPE_BASE,
            anchor_registered: false,
            active: false,
        };
        assert(r.pipes() =~= Seq::<PipeView>::empty());
        assert(r.blocked() =~= Seq::<BlockView>::empty());
        r
    }

    /// Number of processes with a pipe pair.
    pub fn pipe_count(&self) -> (r: usize)
        ensures
            r == self.pipes().len(),
    {
        self.pipes.len()
    }

    /// Number of blocked processes.
    pub fn blocked_count(&self) -> (r: usize)
        ensures
            r == self.blocked().len(),
    {
        self.blocked.len()
    }

    /// The next pipe number to hand out.
    pub fn next_pipe(&self) -> (r: u32)
        ensures
            r == self.next(),
    {
        self.next_pipe
    }

    /// Whether the anchor has been registered with the packet filter.
    pub fn anchor_registered(&self) -> (r: bool)
        ensures
            r == self.registered(),
    {
        self.anchor_registered
    }

    /// Whether intercept mode is on.
    pub fn is_active(&self) -> (r: bool)
        ensures
            r == self.is_on(),
    {
        self.active
    }

    /// Hands out the next pipe pair (download, upload). Fails, changing
    /// nothing, when the upload pipe would reach the bound.
    pub fn allocate_pipe_pair(&mut self) -> (r: Result<(u32, u32), PfError>)
        requires
            old(self).wf(),
        ensures
            final(self).wf(),
            final(self).pipes() == old(self).pipes(),
            final(self).blocked() == old(self).blocked(),
            final(self).registered() == old(self).registered(),
            final(self).is_on() == old(self).is_on(),
            old(self).next() + 1 >= PIPE_MAX ==> r == Err::<(u32, u32), PfError>(
                PfError::PipesExhausted,
            ) && final(self).next() == old(self).next(),
            old(self).next() + 1 < PIPE_MAX ==> r == Ok::<(u32, u32), PfError>(
                (old(self).next(), (old(self).next() + 1) as u32),
            ) && final(self).next() == old(self).next() + 2,
    {
        let dl = self.next_pipe;
        let ul = self.next_pipe + 1;
        if ul >= PIPE_MAX {
            return Err(PfError::PipesExhausted);
        }
        let ghost before = self.pipes();
        let ghost before_blocked = self.blocked();
        self.next_pipe = self.next_pipe + 2;
        assert(self.pipes() == before);
        assert(self.blocked() == before_blocked);
        assert(forall|i: int, j: int| 0 <= i < j < before.len() ==> #[trigger] before[i].0 != #[trigger] before[j].0);
        assert(forall|i: int, j: int| 0 <= i < j < before.len() ==> #[trigger] before[i].2 < #[trigger] before[j].1);
        assert forall|i: int| 0 <= i < self.pipes().len() implies (#[trigger] self.pipes()[i]).2 < self.next() by {
            assert(before[i].2 < old(self).next());
        }
        Ok((dl, ul))
    }

    fn find_pipe(&self, pid: u32) -> (r: Option<usize>)
        requires
            self.wf(),
        ensures
            r is None <==> !has_pipe(self.pipes(), pid),
            r is Some ==> r.unwrap() < self.pipes().len() && self.pipes()[r.unwrap() as int].0 == pid
                && pipe_index(self.pipes(), pid) == r.unwrap(),
    {
        let mut i: usize = 0;
        while i < self.pipes.len()
            invariant
                self.wf(),
                i <= self.pipes@.len(),
                forall|k: int| 0 <= k < i ==> self.pipes()[k].0 != pid,
            decreases self.pipes@.len() - i,
        {
            if self.pipes[i].pid == pid {
                proof {
                    lemma_pipe_index(self.pipes(), pid, i as int);
                }
                return Some(i);
            }
            i = i + 1;
        }
        None
    }

    fn find_block(&self, pid: u32) -> (r: Option<usize>)
        requires
            self.wf(),
        ensures
            r is None <==> !has_block(self.blocked(), pid),
            r is Some ==> r.unwrap() < self.blocked().len() && self.blocked()[r.unwrap() as int].0
                == pid && block_index(self.blocked(), pid) == r.unwrap(),
    {
        let mut i: usize = 0;
        while i < self.blocked.len()
            invariant
                self.wf(),
                i <= self.blocked@.len(),
                forall|k: int| 0 <= k < i ==> self.blocked()[k].0 != pid,
            decreases self.blocked@.len() - i,
        {
            if self.blocked[i].pid == pid {
                proof {
                    lemma_block_index(self.blocked(), pid, i as int);
                }
                return Some(i);
            }
            i = i + 1;
        }
        None
    }

    /// The anchor's rule text for the current state.
    pub fn generate_pf_rules(&self) -> (r: String)
        ensures
            r@ == rules_text(self.pipes(), self.blocked()),
    {
        let mut out = owned(
            "# NetGuard pf rules \u{2014} auto-generated, do not edit\n# Flush and reload atomically via pfctl -a netguard\n\n",
        );
        let mut i: usize = 0;
        while i < self.pipes.len()
            invariant
                i <= self.pipes@.len(),
                out@ == rules_header() + pipes_text(self.pipes().take(i as int)),
            decreases self.pipes@.len() - i,
        {
            push_pipe_rules(&mut out, &self.pipes[i]);
            assert(self.pipes().take(i as int + 1).drop_last() =~= self.pipes().take(i as int));
            i = i + 1;
        }
        assert(self.pipes().take(self.pipes@.len() as int) =~= self.pipes());
        let mut j: usize = 0;
        while j < self.blocked.len()
            invariant
                j <= self.blocked@.len(),
                out@ == rules_header() + pipes_text(self.pipes()) + blocks_text(
                    self.blocked().take(j as int),
                ),
            decreases self.blocked@.len() - j,
        {
            push_block_rules(&mut out, &self.blocked[j]);
            assert(self.blocked().take(j as int + 1).drop_last() =~= self.blocked().take(j as int));
            j = j + 1;
        }
        assert(self.blocked().take(self.blocked@.len() as int) =~= self.blocked());
        out
    }

    fn rules_plan(&self, commands: Vec<PfCommand>) -> (r: PfPlan)
        ensures
            plan_view(r) == (
                commands@.map_values(|c: PfCommand| command_view(c)),
                Some(rules_text(self.pipes(), self.blocked())),
            ),
    {
        let rules = self.generate_pf_rules();
        PfPlan { commands, rules: Some(rules) }
    }

    fn remove_pipe_at(&mut self, i: usize)
        requires
            old(self).wf(),
            i < old(self).pipes().len(),
        ensures
            final(self).wf(),
            final(self).pipes() == old(self).pipes().remove(i as int),
            final(self).blocked() == old(self).blocked(),
            final(self).next() == old(self).next(),
            final(self).registered() == old(self).registered(),
            final(self).is_on() == old(self).is_on(),
    {
        let ghost before = self.pipes();
        self.pipes.remove(i);
        proof {
            assert(self.pipes() =~= before.remove(i as int));
            assert forall|a: int, b: int| 0 <= a < b < self.pipes().len() implies #[trigger] self.pipes()[a].0 != #[trigger] self.pipes()[b].0 by {
                if a < i {
                    if b < i {
                        assert(before[a].0 != before[b].0);
                    } else {
                        assert(before[a].0 != before[b + 1].0);
                    }
                } else {
                    assert(before[a + 1].0 != before[b + 1].0);
                }
            }
            assert forall|a: int, b: int| 0 <= a < b < self.pipes().len() implies #[trigger] self.pipes()[a].2 < #[trigger] self.pipes()[b].1 by {
                if a < i {
                    if b < i {
                        assert(before[a].2 < before[b].1);
                    } else {
                        assert(before[a].2 < before[b + 1].1);
                    }
                } else {
                    assert(before[a + 1].2 < before[b + 1].1);
                }
            }
            assert forall|a: int| 0 <= a < self.pipes().len() implies strictly_sorted((#[trigger] self.pipes()[a]).5) && PIPE_BASE <= self.pipes()[a].1 && self.pipes()[a].2 == self.pipes()[a].1 + 1 && self.pipes()[a].2 < self.next() by {
                if a >= i {
                    assert(self.pipes()[a] == before[a + 1]);
                }
            }
        }
    }

    fn remove_block_at(&mut self, i: usize)
        requires
            old(self).wf(),
            i < old(self).blocked().len(),
        ensures
            final(self).wf(),
            final(self).blocked() == old(self).blocked().remove(i as int),
            final(self).pipes() == old(self).pipes(),
            final(self).next() == old(self).next(),
            final(self).registered() == old(self).registered(),
            final(self).is_on() == old(self).is_on(),
    {
        let ghost before = self.blocked();
        self.blocked.remove(i);
        proof {
            assert(self.blocked() =~= before.remove(i as int));
            assert forall|a: int, b: int| 0 <= a < b < self.blocked().len() implies #[trigger] self.blocked()[a].0 != #[trigger] self.blocked()[b].0 by {
                if a < i {
                    if b < i {
                        assert(before[a].0 != before[b].0);
                    } else {
                        assert(before[a].0 != before[b + 1].0);
                    }
                } else {
                    assert(before[a + 1].0 != before[b + 1].0);
                }
            }
            assert forall|a: int| 0 <= a < self.blocked().len() implies strictly_sorted((#[trigger] self.blocked()[a]).1) by {
                if a >= i {
                    assert(self.blocked()[a] == before[a + 1]);
                }
            }
        }
    }

    fn apply_rate_limit(
        &mut self,
        pid: u32,
        download_bps: u64,
        upload_bps: u64,
        sorted: Vec<u16>,
    ) -> (r: Result<Vec<PfCommand>, PfError>)
        requires
            old(self).wf(),
            strictly_sorted(sorted@),
        ensures
            final(self).wf(),
            final(self).blocked() == old(self).blocked(),
            final(self).registered() == old(self).registered(),
            final(self).is_on() == old(self).is_on(),
            has_pipe(old(self).pipes(), pid) ==> {
                let i = pipe_index(old(self).pipes(), pid);
                let e = old(self).pipes()[i];
                let s = sorted@;
                &&& final(self).pipes() == old(self).pipes().update(
                    i,
                    (pid, e.1, e.2, download_bps, upload_bps, s),
                )
                &&& final(self).next() == old(self).next()
                &&& r is Ok
                &&& (r->Ok_0)@.map_values(|c: PfCommand| command_view(c)) == seq![
                    configure_view(e.1, download_bps),
                    configure_view(e.2, upload_bps),
                ]
            },
            !has_pipe(old(self).pipes(), pid) && old(self).next() + 1 >= PIPE_MAX ==> {
                &&& r == Err::<Vec<PfCommand>, PfError>(PfError::PipesExhausted)
                &&& final(self).pipes() == old(self).pipes()
                &&& final(self).next() == old(self).next()
            },
            !has_pipe(old(self).pipes(), pid) && old(self).next() + 1 < PIPE_MAX ==> {
                let n = old(self).next();
                let s = sorted@;
                &&& final(self).pipes() == old(self).pipes().push(
                    (pid, n, (n + 1) as u32, download_bps, upload_bps, s),
                )
                &&& final(self).next() == n + 2
                &&& r is Ok
                &&& (r->Ok_0)@.map_values(|c: PfCommand| command_view(c)) == seq![
                    configure_view(n, download_bps),
                    configure_view((n + 1) as u32, upload_bps),
                ]
            },
    {
        let ghost before = self.pipes();
        match self.find_pipe(pid) {
            Some(i) => {
                let dl_pipe = self.pipes[i].download_pipe;
                let ul_pipe = self.pipes[i].upload_pipe;
                let e = PipeAllocation {
                    pid,
                    download_pipe: dl_pipe,
                    upload_pipe: ul_pipe,
                    download_bps,
                    upload_bps,
                    ports: sorted,
                };
                self.pipes.remove(i);
                self.pipes.insert(i, e);
                proof {
                    assert(self.pipes() =~= before.update(i as int, pipe_view(e)));
                    assert forall|a: int, b: int| 0 <= a < b < self.pipes().len() implies #[trigger] self.pipes()[a].2 < #[trigger] self.pipes()[b].1 by {
                        assert(before[a].2 < before[b].1);
                    }
                    assert forall|a: int, b: int| 0 <= a < b < self.pipes().len() implies #[trigger] self.pipes()[a].0 != #[trigger] self.pipes()[b].0 by {
                        assert(before[a].0 != before[b].0);
                    }
                }
                let commands = vec![
                    configure_pipe_command(dl_pipe, download_bps),
                    configure_pipe_command(ul_pipe, upload_bps),
                ];
                assert(commands@.map_values(|c: PfCommand| command_view(c)) =~= seq![configure_view(dl_pipe, download_bps), configure_view(ul_pipe, upload_bps)]);
                Ok(commands)
            },
            None => {
                let (dl_pipe, ul_pipe) = match self.allocate_pipe_pair() {
                    Ok(pair) => pair,
                    Err(e) => return Err(e),
                };
                let e = PipeAllocation {
                    pid,
                    download_pipe: dl_pipe,
                    upload_pipe: ul_pipe,
                    download_bps,
                    upload_bps,
                    ports: sorted,
                };
                self.pipes.push(e);
                proof {
                    assert(self.pipes() =~= before.push(pipe_view(e)));
                    assert forall|a: int, b: int| 0 <= a < b < self.pipes().len() implies #[trigger] self.pipes()[a].0 != #[trigger] self.pipes()[b].0 by {
                        if b < before.len() {
                            assert(before[a].0 != before[b].0);
                        } else {
                            assert(before[a].0 != pid);
                        }
                    }
                    assert forall|a: int, b: int| 0 <= a < b < self.pipes().len() implies #[trigger] self.pipes()[a].2 < #[trigger] self.pipes()[b].1 by {
                        if b < before.len() {
                            assert(before[a].2 < before[b].1);
                        }
                    }
                }
                let commands = vec![
                    configure_pipe_command(dl_pipe, download_bps),
                    configure_pipe_command(ul_pipe, upload_bps),
                ];
                assert(commands@.map_values(|c: PfCommand| command_view(c)) =~= seq![configure_view(dl_pipe, download_bps), configure_view(ul_pipe, upload_bps)]);
                Ok(commands)
            },
        }
    }

    /// Gives a process a pipe pair at the given rates over the given ports:
    /// a process that has one keeps its pipe numbers and gets new rates and
    /// ports; a new one gets the next pair, or the state is left as it is
    /// when the pipe numbers are exhausted. The plan configures both pipes
    /// and loads the new rules.
    pub fn set_rate_limit(
        &mut self,
        pid: u32,
        download_bps: u64,
        upload_bps: u64,
        ports: HashSet<u16>,
    ) -> (r: Result<PfPlan, PfError>)
        requires
            old(self).wf(),
        ensures
            final(self).wf(),
            final(self).blocked() == old(self).blocked(),
            final(self).registered() == old(self).registered(),
            final(self).is_on() == old(self).is_on(),
            has_pipe(old(self).pipes(), pid) ==> {
                let i = pipe_index(old(self).pipes(), pid);
                let e = old(self).pipes()[i];
                let s = sorted_of(ports@);
                &&& final(self).pipes() == old(self).pipes().update(
                    i,
                    (pid, e.1, e.2, download_bps, upload_bps, s),
                )
                &&& final(self).next() == old(self).next()
                &&& r is Ok
                &&& plan_view(r->Ok_0) == (
                    seq![configure_view(e.1, download_bps), configure_view(e.2, upload_bps)],
                    Some(rules_text(final(self).pipes(), final(self).blocked())),
                )
            },
            !has_pipe(old(self).pipes(), pid) && old(self).next() + 1 >= PIPE_MAX ==> {
                &&& r == Err::<PfPlan, PfError>(PfError::PipesExhausted)
                &&& final(self).pipes() == old(self).pipes()
                &&& final(self).next() == old(self).next()
            },
            !has_pipe(old(self).pipes(), pid) && old(self).next() + 1 < PIPE_MAX ==> {
                let n = old(self).next();
                let s = sorted_of(ports@);
                &&& final(self).pipes() == old(self).pipes().push(
                    (pid, n, (n + 1) as u32, download_bps, upload_bps, s),
                )
                &&& final(self).next() == n + 2
                &&& r is Ok
                &&& plan_view(r->Ok_0) == (
                    seq![configure_view(n, download_bps), configure_view((n + 1) as u32, upload_bps)],
                    Some(rules_text(final(self).pipes(), final(self).blocked())),
                )
            },
    {
        let sorted = sorted_ports(&ports);
        match self.apply_rate_limit(pid, download_bps, upload_bps, sorted) {
            Ok(commands) => Ok(self.rules_plan(commands)),
            Err(e) => Err(e),
        }
    }

    /// Drops a process's pipe pair: the plan deletes both pipes and loads
    /// the new rules. A process without one changes nothing.
    pub fn remove_rate_limit(&mut self, pid: u32) -> (r: PfPlan)
        requires
            old(self).wf(),
        ensures
            final(self).wf(),
            final(self).blocked() == old(self).blocked(),
            final(self).next() == old(self).next(),
            final(self).registered() == old(self).registered(),
            final(self).is_on() == old(self).is_on(),
            has_pipe(old(self).pipes(), pid) ==> {
                let i = pipe_index(old(self).pipes(), pid);
                let e = old(self).pipes()[i];
                &&& final(self).pipes() == old(self).pipes().remove(i)
                &&& plan_view(r) == (
                    seq![delete_view(e.1), delete_view(e.2)],
                    Some(rules_text(final(self).pipes(), final(self).blocked())),
                )
            },
            !has_pipe(old(self).pipes(), pid) ==> final(self).pipes() == old(self).pipes()
                && plan_view(r) == empty_plan_view(),
    {
        let ghost before = self.pipes();
        match self.find_pipe(pid) {
            Some(i) => {
                let dl_pipe = self.pipes[i].download_pipe;
                let ul_pipe = self.pipes[i].upload_pipe;
                self.remove_pipe_at(i);
                let commands = vec![delete_pipe_command(dl_pipe), delete_pipe_command(ul_pipe)];
                let plan = self.rules_plan(commands);
                assert(plan_view(plan).0 =~= seq![delete_view(dl_pipe), delete_view(ul_pipe)]);
                plan
            },
            None => {
                let plan = PfPlan { commands: Vec::new(), rules: None };
                assert(plan_view(plan).0 =~= Seq::<(Seq<char>, Seq<Seq<char>>)>::empty());
                plan
            },
        }
    }

    fn apply_block(&mut self, pid: u32, sorted: Vec<u16>)
        requires
            old(self).wf(),
            strictly_sorted(sorted@),
        ensures
            final(self).wf(),
            final(self).pipes() == old(self).pipes(),
            final(self).next() == old(self).next(),
            final(self).registered() == old(self).registered(),
            final(self).is_on() == old(self).is_on(),
            has_block(old(self).blocked(), pid) ==> final(self).blocked() == old(self).blocked().update(
                block_index(old(self).blocked(), pid),
                (pid, sorted@),
            ),
            !has_block(old(self).blocked(), pid) ==> final(self).blocked() == old(self).blocked().push(
                (pid, sorted@),
            ),
    {
        let ghost before = self.blocked();
        let e = BlockEntry { pid, ports: sorted };
        match self.find_block(pid) {
            Some(i) => {
                self.blocked.remove(i);
                self.blocked.insert(i, e);
                proof {
                    assert(self.blocked() =~= before.update(i as int, block_view(e)));
                    assert forall|a: int, b: int| 0 <= a < b < self.blocked().len() implies #[trigger] self.blocked()[a].0 != #[trigger] self.blocked()[b].0 by {
                        assert(before[a].0 != before[b].0);
                    }
                }
            },
            None => {
                self.blocked.push(e);
                proof {
                    assert(self.blocked() =~= before.push(block_view(e)));
                    assert forall|a: int, b: int| 0 <= a < b < self.blocked().len() implies #[trigger] self.blocked()[a].0 != #[trigger] self.blocked()[b].0 by {
                        if b < before.len() {
                            assert(before[a].0 != before[b].0);
                        } else {
                            assert(before[a].0 != pid);
                        }
                    }
                }
            },
        }
    }

    /// Drops all traffic on a process's ports: its drop entry is created or
    /// its ports replaced, and the plan loads the new rules.
    pub fn block_process(&mut self, pid: u32, ports: HashSet<u16>) -> (r: PfPlan)
        requires
            old(self).wf(),
        ensures
            final(self).wf(),
            final(self).pipes() == old(self).pipes(),
            final(self).next() == old(self).next(),
            final(self).registered() == old(self).registered(),
            final(self).is_on() == old(self).is_on(),
            has_block(old(self).blocked(), pid) ==> final(self).blocked() == old(self).blocked().update(
                block_index(old(self).blocked(), pid),
                (pid, sorted_of(ports@)),
            ),
            !has_block(old(self).blocked(), pid) ==> final(self).blocked() == old(self).blocked().push(
                (pid, sorted_of(ports@)),
            ),
            plan_view(r) == (
                Seq::<(Seq<char>, Seq<Seq<char>>)>::empty(),
                Some(rules_text(final(self).pipes(), final(self).blocked())),
            ),
    {
        let sorted = sorted_ports(&ports);
        self.apply_block(pid, sorted);
        let plan = self.rules_plan(Vec::new());
        assert(plan_view(plan).0 =~= Seq::<(Seq<char>, Seq<Seq<char>>)>::empty());
        plan
    }

    /// Lifts a process's drop entry; the plan loads the new rules. A process
    /// that is not blocked changes nothing.
    pub fn unblock_process(&mut self, pid: u32) -> (r: PfPlan)
        requires
            old(self).wf(),
        ensures
            final(self).wf(),
            final(self).pipes() == old(self).pipes(),
            final(self).next() == old(self).next(),
            final(self).registered() == old(self).registered(),
            final(self).is_on() == old(self).is_on(),
            has_block(old(self).blocked(), pid) ==> final(self).blocked() == old(self).blocked().remove(
                block_index(old(self).blocked(), pid),
            ) && plan_view(r) == (
                Seq::<(Seq<char>, Seq<Seq<char>>)>::empty(),
                Some(rules_text(final(self).pipes(), final(self).blocked())),
            ),
            !has_block(old(self).blocked(), pid) ==> final(self).blocked() == old(self).blocked()
                && plan_view(r) == empty_plan_view(),
    {
        let ghost before = self.blocked();
        match self.find_block(pid) {
            Some(i) => {
                self.remove_block_at(i);
                let plan = self.rules_plan(Vec::new());
                assert(plan_view(plan).0 =~= Seq::<(Seq<char>, Seq<Seq<char>>)>::empty());
                plan
            },
            None => {
                let plan = PfPlan { commands: Vec::new(), rules: None };
                assert(plan_view(plan).0 =~= Seq::<(Seq<char>, Seq<Seq<char>>)>::empty());
                plan
            },
        }
    }

    /// Records a process's current ports on its pipe pair and its drop
    /// entry, where it has them. When either changed, the plan loads the
    /// new rules; otherwise it is empty.
    pub fn update_ports(&mut self, pid: u32, ports: HashSet<u16>) -> (r: PfPlan)
        requires
            old(self).wf(),
        ensures
            final(self).wf(),
            final(self).next() == old(self).next(),
            final(self).registered() == old(self).registered(),
            final(self).is_on() == old(self).is_on(),
            final(self).pipes() == (if has_pipe(old(self).pipes(), pid) {
                let i = pipe_index(old(self).pipes(), pid);
                let e = old(self).pipes()[i];
                old(self).pipes().update(i, (e.0, e.1, e.2, e.3, e.4, sorted_of(ports@)))
            } else {
                old(self).pipes()
            }),
            final(self).blocked() == (if has_block(old(self).blocked(), pid) {
                old(self).blocked().update(
                    block_index(old(self).blocked(), pid),
                    (pid, sorted_of(ports@)),
                )
            } else {
                old(self).blocked()
            }),
            plan_view(r) == (if final(self).pipes() == old(self).pipes() && final(self).blocked()
                == old(self).blocked() {
                empty_plan_view()
            } else {
                (
                    Seq::<(Seq<char>, Seq<Seq<char>>)>::empty(),
                    Some(rules_text(final(self).pipes(), final(self).blocked())),
                )
            }),
    {
        let sorted = sorted_ports(&ports);
        let ghost before_p = self.pipes();
        let ghost before_b = self.blocked();
        let mut changed = false;
        match self.find_pipe(pid) {
            Some(i) => {
                if !same_list(&self.pipes[i].ports, &sorted) {
                    let e = PipeAllocation {
                        pid: self.pipes[i].pid,
                        download_pipe: self.pipes[i].download_pipe,
                        upload_pipe: self.pipes[i].upload_pipe,
                        download_bps: self.pipes[i].download_bps,
                        upload_bps: self.pipes[i].upload_bps,
                        ports: copy_list(&sorted),
                    };
                    self.pipes.remove(i);
                    self.pipes.insert(i, e);
                    changed = true;
                    proof {
                        assert(self.pipes() =~= before_p.update(i as int, pipe_view(e)));
                        assert(self.pipes() != before_p) by {
                            assert(self.pipes()[i as int].5 != before_p[i as int].5);
                        }
                        assert forall|a: int, b: int| 0 <= a < b < self.pipes().len() implies #[trigger] self.pipes()[a].2 < #[trigger] self.pipes()[b].1 by {
                            assert(before_p[a].2 < before_p[b].1);
                        }
                        assert forall|a: int, b: int| 0 <= a < b < self.pipes().len() implies #[trigger] self.pipes()[a].0 != #[trigger] self.pipes()[b].0 by {
                            assert(before_p[a].0 != before_p[b].0);
                        }
                    }
                } else {
                    assert(before_p.update(i as int, (before_p[i as int].0, before_p[i as int].1, before_p[i as int].2, before_p[i as int].3, before_p[i as int].4, sorted@)) =~= before_p);
                }
            },
            None => {},
        }
        let ghost mid_p = self.pipes();
        match self.find_block(pid) {
            Some(i) => {
                if !same_list(&self.blocked[i].ports, &sorted) {
                    let e = BlockEntry { pid, ports: sorted };
                    self.blocked.remove(i);
                    self.blocked.insert(i, e);
                    changed = true;
                    proof {
                        assert(self.blocked() =~= before_b.update(i as int, block_view(e)));
                        assert(self.blocked() != before_b) by {
                            assert(self.blocked()[i as int].1 != before_b[i as int].1);
                        }
                        assert forall|a: int, b: int| 0 <= a < b < self.blocked().len() implies #[trigger] self.blocked()[a].0 != #[trigger] self.blocked()[b].0 by {
                            assert(before_b[a].0 != before_b[b].0);
                        }
                    }
                } else {
                    assert(before_b.update(i as int, (pid, sorted@)) =~= before_b);
                }
            },
            None => {},
        }
        assert(self.pipes() == mid_p);
        if changed {
            let plan = self.rules_plan(Vec::new());
            assert(plan_view(plan).0 =~= Seq::<(Seq<char>, Seq<Seq<char>>)>::empty());
            plan
        } else {
            let plan = PfPlan { commands: Vec::new(), rules: None };
            assert(plan_view(plan).0 =~= Seq::<(Seq<char>, Seq<Seq<char>>)>::empty());
            plan
        }
    }

    /// Forgets every pipe pair and drop entry and leaves intercept mode. The
    /// returned commands flush the anchor's rules, delete each pipe, and
    /// flush all dummynet pipes as a safety net.
    pub fn cleanup(&mut self) -> (r: Vec<PfCommand>)
        requires
            old(self).wf(),
        ensures
            final(self).wf(),
            final(self).pipes() == Seq::<PipeView>::empty(),
            final(self).blocked() == Seq::<BlockView>::empty(),
            final(self).next() == old(self).next(),
            !final(self).registered(),
            !final(self).is_on(),
            r@.map_values(|c: PfCommand| command_view(c)) == seq![flush_anchor_view()] + deletes_of(
                old(self).pipes(),
            ) + seq![flush_pipes_view()],
    {
        let mut cmds: Vec<PfCommand> = Vec::new();
        cmds.push(flush_anchor_command());
        proof {
            assert(cmds@.map_values(|c: PfCommand| command_view(c)) =~= seq![flush_anchor_view()]);
        }
        let mut i: usize = 0;
        while i < self.pipes.len()
            invariant
                i <= self.pipes@.len(),
                cmds@.map_values(|c: PfCommand| command_view(c)) == seq![flush_anchor_view()]
                    + deletes_of(self.pipes().take(i as int)),
            decreases self.pipes@.len() - i,
        {
            let ghost before = cmds@.map_values(|c: PfCommand| command_view(c));
            cmds.push(delete_pipe_command(self.pipes[i].download_pipe));
            cmds.push(delete_pipe_command(self.pipes[i].upload_pipe));
            proof {
                assert(self.pipes().take(i as int + 1).drop_last() =~= self.pipes().take(i as int));
                assert(cmds@.map_values(|c: PfCommand| command_view(c)) =~= before.push(
                    delete_view(self.pipes()[i as int].1),
                ).push(delete_view(self.pipes()[i as int].2)));
                assert(cmds@.map_values(|c: PfCommand| command_view(c)) =~= seq![flush_anchor_view()]
                    + deletes_of(self.pipes().take(i as int + 1)));
            }
            i = i + 1;
        }
        let ghost before = cmds@.map_values(|c: PfCommand| command_view(c));
        cmds.push(flush_pipes_command());
        proof {
            assert(self.pipes().take(self.pipes@.len() as int) =~= self.pipes());
            assert(cmds@.map_values(|c: PfCommand| command_view(c)) =~= before.push(flush_pipes_view()));
            assert(cmds@.map_values(|c: PfCommand| command_view(c)) =~= seq![flush_anchor_view()]
                + deletes_of(old(self).pipes()) + seq![flush_pipes_view()]);
        }
        self.pipes = Vec::new();
        self.blocked = Vec::new();
        self.active = false;
        self.anchor_registered = false;
        assert(self.pipes() =~= Seq::<PipeView>::empty());
        assert(self.blocked() =~= Seq::<BlockView>::empty());
        cmds
    }

    /// Registers the anchor, given what `pfctl -s info` printed: the
    /// returned commands enable the packet filter when that output does not
    /// say it is enabled. Once registered, nothing more is needed.
    pub fn register_anchor(&mut self, pf_info: &str) -> (r: Vec<PfCommand>)
        requires
            old(self).wf(),
        ensures
            final(self).wf(),
            final(self).pipes() == old(self).pipes(),
            final(self).blocked() == old(self).blocked(),
            final(self).next() == old(self).next(),
            final(self).is_on() == old(self).is_on(),
            final(self).registered(),
            r@.map_values(|c: PfCommand| command_view(c)) == (if old(self).registered()
                || has_substring(pf_info@, "Status: Enabled"@) {
                Seq::<(Seq<char>, Seq<Seq<char>>)>::empty()
            } else {
                seq![enable_view()]
            }),
    {
        let mut cmds: Vec<PfCommand> = Vec::new();
        if !self.anchor_registered && !contains_text(pf_info, "Status: Enabled") {
            cmds.push(enable_command());
            assert(cmds@.map_values(|c: PfCommand| command_view(c)) =~= seq![enable_view()]);
        } else {
            assert(cmds@.map_values(|c: PfCommand| command_view(c)) =~= Seq::<(Seq<char>, Seq<Seq<char>>)>::empty());
        }
        self.anchor_registered = true;
        cmds
    }
}

/// Deletion of both pipes of every pair, in order.
pub open spec fn deletes_of(p: Seq<PipeView>) -> Seq<(Seq<char>, Seq<Seq<char>>)>
    decreases p.len(),
{
    if p.len() == 0 {
        Seq::empty()
    } else {
        deletes_of(p.drop_last()).push(delete_view(p.last().1)).push(delete_view(p.last().2))
    }
}

pub open spec fn flush_anchor_view() -> (Seq<char>, Seq<Seq<char>>) {
    ("pfctl"@, seq!["-a"@, "netguard"@, "-F"@, "all"@])
}

pub open spec fn flush_pipes_view() -> (Seq<char>, Seq<Seq<char>>) {
    ("dnctl"@, seq!["-f"@, "flush"@])
}

pub open spec fn enable_view() -> (Seq<char>, Seq<Seq<char>>) {
    ("pfctl"@, seq!["-e"@])
}

/// Commands and rule text of a plan, as character sequences.
pub open spec fn plan_view(p: PfPlan) -> (Seq<(Seq<char>, Seq<Seq<char>>)>, Option<Seq<char>>) {
    (
        p.commands@.map_values(|c: PfCommand| command_view(c)),
        match p.rules {
            Some(t) => Some(t@),
            None => None,
        },
    )
}

/// A plan that changes nothing.
pub open spec fn empty_plan_view() -> (Seq<(Seq<char>, Seq<Seq<char>>)>, Option<Seq<char>>) {
    (Seq::empty(), None)
}


/// The single owner of the packet filter's state: every change to the
/// filter goes through it, together with the intercept-mode flag.
pub struct PfHandle {
    state: PfState,
    active: bool,
}

impl PfHandle {
    /// The packet filter's state.
    pub closed spec fn pf(&self) -> PfState {
        self.state
    }

    /// Whether intercept mode is on.
    pub closed spec fn active_flag(&self) -> bool {
        self.active
    }

    pub open spec fn wf(&self) -> bool {
        self.pf().wf()
    }

    pub fn new() -> (r: PfHandle)
        ensures
            r.wf(),
            r.pf().pipes() == Seq::<PipeView>::empty(),
            r.pf().blocked() == Seq::<BlockView>::empty(),
            r.pf().next() == PIPE_BASE,
            !r.pf().registered(),
            !r.active_flag(),
    {
        PfHandle { state: PfState::new(), active: false }
    }

    /// Gives a process a pipe pair at the given rates over the given ports:
    /// a process that has one keeps its pipe numbers and gets new rates and
    /// ports; a new one gets the next pair, or the state is left as it is
    /// when the pipe numbers are exhausted. The plan configures both pipes
    /// and loads the new rules.
    pub fn set_rate_limit(
        &mut self,
        pid: u32,
        download_bps: u64,
        upload_bps: u64,
        ports: HashSet<u16>,
    ) -> (r: Result<PfPlan, PfError>)
        requires
            old(self).wf(),
        ensures
            final(self).wf(),
            final(self).active_flag() == old(self).active_flag(),
            final(self).pf().blocked() == old(self).pf().blocked(),
            final(self).pf().registered() == old(self).pf().registered(),
            final(self).pf().is_on() == old(self).pf().is_on(),
            has_pipe(old(self).pf().pipes(), pid) ==> {
                let i = pipe_index(old(self).pf().pipes(), pid);
                let e = old(self).pf().pipes()[i];
                let s = sorted_of(ports@);
                &&& final(self).pf().pipes() == old(self).pf().pipes().update(
                    i,
                    (pid, e.1, e.2, download_bps, upload_bps, s),
                )
                &&& final(self).pf().next() == old(self).pf().next()
                &&& r is Ok
                &&& plan_view(r->Ok_0) == (
                    seq![configure_view(e.1, download_bps), configure_view(e.2, upload_bps)],
                    Some(rules_text(final(self).pf().pipes(), final(self).pf().blocked())),
                )
            },
            !has_pipe(old(self).pf().pipes(), pid) && old(self).pf().next() + 1 >= PIPE_MAX ==> {
                &&& r == Err::<PfPlan, PfError>(PfError::PipesExhausted)
                &&& final(self).pf().pipes() == old(self).pf().pipes()
                &&& final(self).pf().next() == old(self).pf().next()
            },
            !has_pipe(old(self).pf().pipes(), pid) && old(self).pf().next() + 1 < PIPE_MAX ==> {
                let n = old(self).pf().next();
                let s = sorted_of(ports@);
                &&& final(self).pf().pipes() == old(self).pf().pipes().push(
                    (pid, n, (n + 1) as u32, download_bps, upload_bps, s),
                )
                &&& final(self).pf().next() == n + 2
                &&& r is Ok
                &&& plan_view(r->Ok_0) == (
                    seq![configure_view(n, download_bps), configure_view((n + 1) as u32, upload_bps)],
                    Some(rules_text(final(self).pf().pipes(), final(self).pf().blocked())),
                )
            },
    {
        self.state.set_rate_limit(pid, download_bps, upload_bps, ports)
    }

    /// Drops a process's pipe pair: the plan deletes both pipes and loads
    /// the new rules. A process without one changes nothing.
    pub fn remove_rate_limit(&mut self, pid: u32) -> (r: PfPlan)
        requires
            old(self).wf(),
        ensures
            final(self).wf(),
            final(self).active_flag() == old(self).active_flag(),
            final(self).pf().blocked() == old(self).pf().blocked(),
            final(self).pf().next() == old(self).pf().next(),
            final(self).pf().registered() == old(self).pf().registered(),
            final(self).pf().is_on() == old(self).pf().is_on(),
            has_pipe(old(self).pf().pipes(), pid) ==> {
                let i = pipe_index(old(self).pf().pipes(), pid);
                let e = old(self).pf().pipes()[i];
                &&& final(self).pf().pipes() == old(self).pf().pipes().remove(i)
                &&& plan_view(r) == (
                    seq![delete_view(e.1), delete_view(e.2)],
                    Some(rules_text(final(self).pf().pipes(), final(self).pf().blocked())),
                )
            },
            !has_pipe(old(self).pf().pipes(), pid) ==> final(self).pf().pipes() == old(self).pf().pipes()
                && plan_view(r) == empty_plan_view(),
    {
        self.state.remove_rate_limit(pid)
    }

    /// Drops all traffic on a process's ports: its drop entry is created or
    /// its ports replaced, and the plan loads the new rules.
    pub fn block_process(&mut self, pid: u32, ports: HashSet<u16>) -> (r: PfPlan)
        requires
            old(self).wf(),
        ensures
            final(self).wf(),
            final(self).active_flag() == old(self).active_flag(),
            final(self).pf().pipes() == old(self).pf().pipes(),
            final(self).pf().next() == old(self).pf().next(),
            final(self).pf().registered() == old(self).pf().registered(),
            final(self).pf().is_on() == old(self).pf().is_on(),
            has_block(old(self).pf().blocked(), pid) ==> final(self).pf().blocked() == old(self).pf().blocked().update(
                block_index(old(self).pf().blocked(), pid),
                (pid, sorted_of(ports@)),
            ),
            !has_block(old(self).pf().blocked(), pid) ==> final(self).pf().blocked() == old(self).pf().blocked().push(
                (pid, sorted_of(ports@)),
            ),
            plan_view(r) == (
                Seq::<(Seq<char>, Seq<Seq<char>>)>::empty(),
                Some(rules_text(final(self).pf().pipes(), final(self).pf().blocked())),
            ),
    {
        self.state.block_process(pid, ports)
    }

    /// Lifts a process's drop entry; the plan loads the new rules. A process
    /// that is not blocked changes nothing.
    pub fn unblock_process(&mut self, pid: u32) -> (r: PfPlan)
        requires
            old(self).wf(),
        ensures
            final(self).wf(),
            final(self).active_flag() == old(self).active_flag(),
            final(self).pf().pipes() == old(self).pf().pipes(),
            final(self).pf().next() == old(self).pf().next(),
            final(self).pf().registered() == old(self).pf().registered(),
            final(self).pf().is_on() == old(self).pf().is_on(),
            has_block(old(self).pf().blocked(), pid) ==> final(self).pf().blocked() == old(self).pf().blocked().remove(
                block_index(old(self).pf().blocked(), pid),
            ) && plan_view(r) == (
                Seq::<(Seq<char>, Seq<Seq<char>>)>::empty(),
                Some(rules_text(final(self).pf().pipes(), final(self).pf().blocked())),
            ),
            !has_block(old(self).pf().blocked(), pid) ==> final(self).pf().blocked() == old(self).pf().blocked()
                && plan_view(r) == empty_plan_view(),
    {
        self.state.unblock_process(pid)
    }

    /// Records a process's current ports on its pipe pair and its drop
    /// entry, where it has them. When either changed, the plan loads the
    /// new rules; otherwise it is empty.
    pub fn update_ports(&mut self, pid: u32, ports: HashSet<u16>) -> (r: PfPlan)
        requires
            old(self).wf(),
        ensures
            final(self).wf(),
            final(self).active_flag() == old(self).active_flag(),
            final(self).pf().next() == old(self).pf().next(),
            final(self).pf().registered() == old(self).pf().registered(),
            final(self).pf().is_on() == old(self).pf().is_on(),
            final(self).pf().pipes() == (if has_pipe(old(self).pf().pipes(), pid) {
                let i = pipe_index(old(self).pf().pipes(), pid);
                let e = old(self).pf().pipes()[i];
                old(self).pf().pipes().update(i, (e.0, e.1, e.2, e.3, e.4, sorted_of(ports@)))
            } else {
                old(self).pf().pipes()
            }),
            final(self).pf().blocked() == (if has_block(old(self).pf().blocked(), pid) {
                old(self).pf().blocked().update(
                    block_index(old(self).pf().blocked(), pid),
                    (pid, sorted_of(ports@)),
                )
            } else {
                old(self).pf().blocked()
            }),
            plan_view(r) == (if final(self).pf().pipes() == old(self).pf().pipes() && final(self).pf().blocked()
                == old(self).pf().blocked() {
                empty_plan_view()
            } else {
                (
                    Seq::<(Seq<char>, Seq<Seq<char>>)>::empty(),
                    Some(rules_text(final(self).pf().pipes(), final(self).pf().blocked())),
                )
            }),
    {
        self.state.update_ports(pid, ports)
    }

    /// Forgets every pipe pair and drop entry of the state. The returned
    /// commands flush the anchor's rules, delete each pipe, and flush all
    /// dummynet pipes as a safety net. The intercept-mode flag is left as
    /// it is.
    pub fn cleanup(&mut self) -> (r: Vec<PfCommand>)
        requires
            old(self).wf(),
        ensures
            final(self).wf(),
            final(self).active_flag() == old(self).active_flag(),
            final(self).pf().pipes() == Seq::<PipeView>::empty(),
            final(self).pf().blocked() == Seq::<BlockView>::empty(),
            final(self).pf().next() == old(self).pf().next(),
            !final(self).pf().registered(),
            !final(self).pf().is_on(),
            r@.map_values(|c: PfCommand| command_view(c)) == seq![flush_anchor_view()] + deletes_of(
                old(self).pf().pipes(),
            ) + seq![flush_pipes_view()],
    {
        self.state.cleanup()
    }

    /// Registers the anchor on the state, given what `pfctl -s info` printed.
    pub fn register_anchor(&mut self, pf_info: &str) -> (r: Vec<PfCommand>)
        requires
            old(self).wf(),
        ensures
            final(self).wf(),
            final(self).active_flag() == old(self).active_flag(),
            final(self).pf().pipes() == old(self).pf().pipes(),
            final(self).pf().blocked() == old(self).pf().blocked(),
            final(self).pf().registered(),
            r@.map_values(|c: PfCommand| command_view(c)) == (if old(self).pf().registered()
                || has_substring(pf_info@, "Status: Enabled"@) {
                Seq::<(Seq<char>, Seq<Seq<char>>)>::empty()
            } else {
                seq![enable_view()]
            }),
    {
        self.state.register_anchor(pf_info)
    }

    /// The state's current rule text.
    pub fn generate_pf_rules(&self) -> (r: String)
        ensures
            r@ == rules_text(self.pf().pipes(), self.pf().blocked()),
    {
        self.state.generate_pf_rules()
    }

    /// Whether the anchor has been registered with the packet filter.
    pub fn anchor_registered(&self) -> (r: bool)
        ensures
            r == self.pf().registered(),
    {
        self.state.anchor_registered()
    }

    /// Whether intercept mode is on.
    pub fn is_active(&self) -> (r: bool)
        ensures
            r == self.active_flag(),
    {
        self.active
    }

    /// Turns intercept mode on or off.
    pub fn set_active(&mut self, active: bool)
        ensures
            final(self).active_flag() == active,
            final(self).pf() == old(self).pf(),
    {
        self.active = active;
    }
}

/// Where the local side of an address ends: at the first `->` from `i`
/// on, or at the end.
pub open spec fn arrow_from(s: Seq<char>, i: int) -> int
    decreases s.len() - i,
{
    if i < 0 || i + 1 >= s.len() {
        s.len() as int
    } else if s[i] == '-' && s[i + 1] == '>' {
        i
    } else {
        arrow_from(s, i + 1)
    }
}

/// The position of the last `:` before position `n`, or -1.
pub open spec fn last_colon_before(s: Seq<char>, n: int) -> int
    decreases n,
{
    if n <= 0 {
        -1
    } else if s[n - 1] == ':' {
        n - 1
    } else {
        last_colon_before(s, n - 1)
    }
}

pub open spec fn is_digit(c: char) -> bool {
    '0' <= c && c <= '9'
}

pub open spec fn digit_value(c: char) -> int {
    c as int - '0' as int
}

/// The value of a string of decimal digits.
pub open spec fn digits_value(d: Seq<char>) -> int
    decreases d.len(),
{
    if d.len() == 0 {
        0
    } else {
        digits_value(d.drop_last()) * 10 + digit_value(d.last())
    }
}

/// A number's text without its optional leading `+`.
pub open spec fn unsigned_part(t: Seq<char>) -> Seq<char> {
    if t.len() > 0 && t[0] == '+' {
        t.drop_first()
    } else {
        t
    }
}

pub open spec fn all_digits(d: Seq<char>) -> bool {
    forall|i: int| 0 <= i < d.len() ==> is_digit(#[trigger] d[i])
}

/// `u16` parsing of a decimal number: an optional `+`, then one or more
/// digits, with a value that fits.
pub open spec fn parse_u16_text(t: Seq<char>) -> Option<u16> {
    let d = unsigned_part(t);
    if d.len() == 0 || !all_digits(d) {
        None
    } else if digits_value(d) > 65535 {
        None
    } else {
        Some(digits_value(d) as u16)
    }
}

/// The local port of an lsof network address (`*:8080`, `[::1]:443`,
/// `10.0.0.2:51000->1.2.3.4:443`): what follows the last `:` of the part
/// before any `->`.
pub open spec fn local_port_spec(a: Seq<char>) -> Option<u16> {
    let local = a.take(arrow_from(a, 0));
    let c = last_colon_before(local, local.len() as int);
    if c < 0 {
        None
    } else {
        parse_u16_text(local.subrange(c + 1, local.len() as int))
    }
}

pub open spec fn capped_value(d: Seq<char>) -> int
    decreases d.len(),
{
    if d.len() == 0 {
        0
    } else {
        let v = capped_value(d.drop_last()) * 10 + digit_value(d.last());
        if v > 65536 {
            65536
        } else {
            v
        }
    }
}

proof fn lemma_capped_value(d: Seq<char>)
    requires
        forall|i: int| 0 <= i < d.len() ==> is_digit(#[trigger] d[i]),
    ensures
        capped_value(d) == (if digits_value(d) > 65536 {
            65536
        } else {
            digits_value(d)
        }),
        digits_value(d) >= 0,
    decreases d.len(),
{
    if d.len() > 0 {
        assert(is_digit(d[d.len() - 1]));
        lemma_capped_value(d.drop_last());
    }
}

fn parse_port(t: &Vec<char>, from: usize) -> (r: Option<u16>)
    requires
        from <= t@.len(),
    ensures
        r == parse_u16_text(t@.subrange(from as int, t@.len() as int)),
{
    let ghost text = t@.subrange(from as int, t@.len() as int);
    assert(text.len() == t@.len() - from);
    assert(text.len() > 0 ==> text[0] == t@[from as int]);
    let mut start = from;
    if start < t.len() && t[start] == '+' {
        start = start + 1;
    }
    let ghost d = t@.subrange(start as int, t@.len() as int);
    proof {
        if text.len() > 0 && text[0] == '+' {
            assert(d =~= text.drop_first());
        } else {
            assert(d =~= text);
        }
    }
    if start == t.len() {
        assert(d.len() == 0);
        assert(parse_u16_text(text) is None);
        return None;
    }
    let mut v: u32 = 0;
    let mut i = start;
    while i < t.len()
        invariant
            start <= i <= t@.len(),
            d == t@.subrange(start as int, t@.len() as int),
            d == unsigned_part(text),
            d.len() > 0,
            from <= t@.len(),
            text == t@.subrange(from as int, t@.len() as int),
            forall|k: int| 0 <= k < i - start ==> is_digit(#[trigger] d[k]),
            v == capped_value(d.take(i - start)),
        decreases t@.len() - i,
    {
        let c = t[i];
        if !('0' <= c && c <= '9') {
            proof {
                assert(d[i - start] == c);
                assert(!is_digit(d[i - start]));
                assert(!(forall|k: int| 0 <= k < d.len() ==> is_digit(#[trigger] d[k])));
                assert(parse_u16_text(text) is None);
            }
            return None;
        }
        proof {
            assert(d.take(i - start + 1).drop_last() =~= d.take(i - start));
        }
        let next: u32 = v * 10 + (c as u32 - '0' as u32);
        v = if next > 65536 {
            65536
        } else {
            next
        };
        i = i + 1;
    }
    proof {
        assert(d.take(d.len() as int) =~= d);
        lemma_capped_value(d);
    }
    if v > 65535 {
        None
    } else {
        Some(v as u16)
    }
}

/// The local port of an lsof network address, or `None` when it has no
/// `:` before any `->` or what follows is not a port number.
pub fn extract_local_port(addr: &str) -> (r: Option<u16>)
    ensures
        r == local_port_spec(addr@),
{
    let a = chars_of(addr);
    let alen: usize = a.len();
    let mut end: usize = 0;
    while end < alen && end + 1 < alen && !(a[end] == '-' && a[end + 1] == '>')
        invariant
            alen == a@.len(),
            end <= a@.len(),
            a@ == addr@,
            arrow_from(a@, end as int) == arrow_from(a@, 0),
        decreases a@.len() - end,
    {
        end = end + 1;
    }
    if end >= alen || end + 1 >= alen {
        end = alen;
    }
    assert(end == arrow_from(a@, 0));
    let ghost local = a@.take(end as int);
    let mut n: usize = end;
    while n > 0 && a[n - 1] != ':'
        invariant
            n <= end,
            end <= a@.len(),
            local == a@.take(end as int),
            last_colon_before(local, n as int) == last_colon_before(local, end as int),
        decreases n,
    {
        n = n - 1;
    }
    if n == 0 {
        return None;
    }
    assert(local.subrange(n as int, end as int) =~= a@.subrange(n as int, end as int));
    let mut local_vec: Vec<char> = Vec::new();
    let mut k: usize = 0;
    while k < end
        invariant
            k <= end,
            end <= a@.len(),
            local_vec@ == a@.take(k as int),
        decreases end - k,
    {
        local_vec.push(a[k]);
        assert(a@.take(k as int + 1) =~= a@.take(k as int).push(a@[k as int]));
        k = k + 1;
    }
    assert(local_vec@ =~= local);
    parse_port(&local_vec, n)
}

/// Sniff mode needs no packet-filter rules: traffic is observed through
/// the process scan alone, so starting it always succeeds.
pub fn start_sniff() -> (r: Result<(), PfError>)
    ensures
        r is Ok,
{
    Ok(())
}


/// The ports the reconciler wants for `pid` this cycle, in increasing
/// order; none when the process has no open ports.
pub open spec fn wanted_ports(ports: Map<u32, HashSet<u16>>, pid: u32) -> Seq<u16> {
    if ports.contains_key(pid) {
        sorted_of(ports[pid]@)
    } else {
        Seq::empty()
    }
}

/// `pid` has the same pipe pair, or none, in both.
pub open spec fn same_pipe(p: Seq<PipeView>, q: Seq<PipeView>, pid: u32) -> bool {
    &&& has_pipe(p, pid) == has_pipe(q, pid)
    &&& has_pipe(p, pid) ==> p[pipe_index(p, pid)] == q[pipe_index(q, pid)]
}

/// `pid` has the same drop entry, or none, in both.
pub open spec fn same_block(p: Seq<BlockView>, q: Seq<BlockView>, pid: u32) -> bool {
    &&& has_block(p, pid) == has_block(q, pid)
    &&& has_block(p, pid) ==> p[block_index(p, pid)] == q[block_index(q, pid)]
}

/// `pid`'s pipe pair has the limit's rates and the wanted ports; it lacks
/// one only when the pipe numbers ran out.
pub open spec fn pipe_reconciled(
    p: Seq<PipeView>,
    pid: u32,
    l: BandwidthLimit,
    wanted: Seq<u16>,
    next: u32,
) -> bool {
    &&& has_pipe(p, pid) ==> {
        let e = p[pipe_index(p, pid)];
        e.3 == l.download_bps && e.4 == l.upload_bps && e.5 == wanted
    }
    &&& !has_pipe(p, pid) ==> next + 1 >= PIPE_MAX
}

/// `pid` has a drop entry over the wanted ports.
pub open spec fn block_reconciled(b: Seq<BlockView>, pid: u32, wanted: Seq<u16>) -> bool {
    has_block(b, pid) && b[block_index(b, pid)].1 == wanted
}

proof fn lemma_pipes_frame(p: Seq<PipeView>, q: Seq<PipeView>, changed: u32, pid: u32)
    requires
        pid != changed,
        forall|a: int, b: int| 0 <= a < b < p.len() ==> #[trigger] p[a].0 != #[trigger] p[b].0,
        forall|a: int, b: int| 0 <= a < b < q.len() ==> #[trigger] q[a].0 != #[trigger] q[b].0,
        forall|v: PipeView| v.0 != changed ==> (p.contains(v) <==> q.contains(v)),
    ensures
        same_pipe(p, q, pid),
{
    if has_pipe(p, pid) {
        let i = pipe_index(p, pid);
        assert(p.contains(p[i]));
        let j = choose|j: int| 0 <= j < q.len() && q[j] == p[i];
        lemma_pipe_index(q, pid, j);
    }
    if has_pipe(q, pid) {
        let j = pipe_index(q, pid);
        assert(q.contains(q[j]));
        let i = choose|i: int| 0 <= i < p.len() && p[i] == q[j];
        lemma_pipe_index(p, pid, i);
    }
}

proof fn lemma_blocks_frame(p: Seq<BlockView>, q: Seq<BlockView>, changed: u32, pid: u32)
    requires
        pid != changed,
        forall|a: int, b: int| 0 <= a < b < p.len() ==> #[trigger] p[a].0 != #[trigger] p[b].0,
        forall|a: int, b: int| 0 <= a < b < q.len() ==> #[trigger] q[a].0 != #[trigger] q[b].0,
        forall|v: BlockView| v.0 != changed ==> (p.contains(v) <==> q.contains(v)),
    ensures
        same_block(p, q, pid),
{
    if has_block(p, pid) {
        let i = block_index(p, pid);
        assert(p.contains(p[i]));
        let j = choose|j: int| 0 <= j < q.len() && q[j] == p[i];
        lemma_block_index(q, pid, j);
    }
    if has_block(q, pid) {
        let j = block_index(q, pid);
        assert(q.contains(q[j]));
        let i = choose|i: int| 0 <= i < p.len() && p[i] == q[j];
        lemma_block_index(p, pid, i);
    }
}


proof fn lemma_pipe_update_contains(p: Seq<PipeView>, i: int, e: PipeView)
    requires
        0 <= i < p.len(),
        p[i].0 == e.0,
    ensures
        forall|v: PipeView| v.0 != e.0 ==> (#[trigger] p.update(i, e).contains(v) <==> p.contains(v)),
{
    assert forall|v: PipeView| v.0 != e.0 implies (#[trigger] p.update(i, e).contains(v) <==> p.contains(v)) by {
        if p.update(i, e).contains(v) {
            let k = choose|k: int| 0 <= k < p.len() && p.update(i, e)[k] == v;
            assert(p[k] == v);
        }
        if p.contains(v) {
            let k = choose|k: int| 0 <= k < p.len() && p[k] == v;
            assert(p.update(i, e)[k] == v);
        }
    }
}

proof fn lemma_pipe_push_contains(p: Seq<PipeView>, e: PipeView)
    ensures
        forall|v: PipeView| v.0 != e.0 ==> (#[trigger] p.push(e).contains(v) <==> p.contains(v)),
{
    assert forall|v: PipeView| v.0 != e.0 implies (#[trigger] p.push(e).contains(v) <==> p.contains(v)) by {
        if p.push(e).contains(v) {
            let k = choose|k: int| 0 <= k < p.len() + 1 && p.push(e)[k] == v;
            assert(p[k] == v);
        }
        if p.contains(v) {
            let k = choose|k: int| 0 <= k < p.len() && p[k] == v;
            assert(p.push(e)[k] == v);
        }
    }
}

proof fn lemma_pipe_remove_contains(p: Seq<PipeView>, i: int)
    requires
        0 <= i < p.len(),
    ensures
        forall|v: PipeView| v.0 != p[i].0 ==> (#[trigger] p.remove(i).contains(v) <==> p.contains(v)),
{
    assert forall|v: PipeView| v.0 != p[i].0 implies (#[trigger] p.remove(i).contains(v) <==> p.contains(v)) by {
        if p.remove(i).contains(v) {
            let k = choose|k: int| 0 <= k < p.len() - 1 && p.remove(i)[k] == v;
            if k < i {
                assert(p[k] == v);
            } else {
                assert(p[k + 1] == v);
            }
        }
        if p.contains(v) {
            let k = choose|k: int| 0 <= k < p.len() && p[k] == v;
            assert(k != i);
            if k < i {
                assert(p.remove(i)[k] == v);
            } else {
                assert(p.remove(i)[k - 1] == v);
            }
        }
    }
}

proof fn lemma_block_update_contains(p: Seq<BlockView>, i: int, e: BlockView)
    requires
        0 <= i < p.len(),
        p[i].0 == e.0,
    ensures
        forall|v: BlockView| v.0 != e.0 ==> (#[trigger] p.update(i, e).contains(v) <==> p.contains(v)),
{
    assert forall|v: BlockView| v.0 != e.0 implies (#[trigger] p.update(i, e).contains(v) <==> p.contains(v)) by {
        if p.update(i, e).contains(v) {
            let k = choose|k: int| 0 <= k < p.len() && p.update(i, e)[k] == v;
            assert(p[k] == v);
        }
        if p.contains(v) {
            let k = choose|k: int| 0 <= k < p.len() && p[k] == v;
            assert(p.update(i, e)[k] == v);
        }
    }
}

proof fn lemma_block_push_contains(p: Seq<BlockView>, e: BlockView)
    ensures
        forall|v: BlockView| v.0 != e.0 ==> (#[trigger] p.push(e).contains(v) <==> p.contains(v)),
{
    assert forall|v: BlockView| v.0 != e.0 implies (#[trigger] p.push(e).contains(v) <==> p.contains(v)) by {
        if p.push(e).contains(v) {
            let k = choose|k: int| 0 <= k < p.len() + 1 && p.push(e)[k] == v;
            assert(p[k] == v);
        }
        if p.contains(v) {
            let k = choose|k: int| 0 <= k < p.len() && p[k] == v;
            assert(p.push(e)[k] == v);
        }
    }
}

proof fn lemma_block_remove_contains(p: Seq<BlockView>, i: int)
    requires
        0 <= i < p.len(),
    ensures
        forall|v: BlockView| v.0 != p[i].0 ==> (#[trigger] p.remove(i).contains(v) <==> p.contains(v)),
{
    assert forall|v: BlockView| v.0 != p[i].0 implies (#[trigger] p.remove(i).contains(v) <==> p.contains(v)) by {
        if p.remove(i).contains(v) {
            let k = choose|k: int| 0 <= k < p.len() - 1 && p.remove(i)[k] == v;
            if k < i {
                assert(p[k] == v);
            } else {
                assert(p[k + 1] == v);
            }
        }
        if p.contains(v) {
            let k = choose|k: int| 0 <= k < p.len() && p[k] == v;
            assert(k != i);
            if k < i {
                assert(p.remove(i)[k] == v);
            } else {
                assert(p.remove(i)[k - 1] == v);
            }
        }
    }
}


/// What phase one leaves for a limited process: a reconciled pipe pair when
/// it has ports, its old entry otherwise.
pub open spec fn limit_settled(
    cur: Seq<PipeView>,
    old: Seq<PipeView>,
    next: u32,
    limits: Map<u32, BandwidthLimit>,
    ports: Map<u32, HashSet<u16>>,
    pid: u32,
) -> bool {
    if wanted_ports(ports, pid).len() > 0 {
        pipe_reconciled(cur, pid, limits[pid], wanted_ports(ports, pid), next)
    } else {
        same_pipe(cur, old, pid)
    }
}

/// What phase two leaves for a blocked process: a drop entry over its
/// ports when it has ports, its old entry otherwise.
pub open spec fn block_settled(
    cur: Seq<BlockView>,
    old: Seq<BlockView>,
    ports: Map<u32, HashSet<u16>>,
    pid: u32,
) -> bool {
    if wanted_ports(ports, pid).len() > 0 {
        block_reconciled(cur, pid, wanted_ports(ports, pid))
    } else {
        same_block(cur, old, pid)
    }
}

fn wanted_of(ports: &HashMap<u32, HashSet<u16>>, pid: u32) -> (r: Vec<u16>)
    ensures
        r@ == wanted_ports(ports@, pid),
        strictly_sorted(r@),
{
    match ports.get(&pid) {
        Some(set) => sorted_ports(set),
        None => {
            let r: Vec<u16> = Vec::new();
            assert(r@ =~= Seq::<u16>::empty());
            r
        },
    }
}

fn contains_pid(v: &Vec<u32>, x: u32) -> (r: bool)
    ensures
        r == v@.contains(x),
{
    let mut i: usize = 0;
    while i < v.len()
        invariant
            i <= v@.len(),
            forall|k: int| 0 <= k < i ==> v@[k] != x,
        decreases v@.len() - i,
    {
        if v[i] == x {
            assert(v@[i as int] == x);
            return true;
        }
        i = i + 1;
    }
    false
}

/// The commands configure both pipes of a pair at its rates.
pub open spec fn configures(cmds: Seq<(Seq<char>, Seq<Seq<char>>)>, e: PipeView) -> bool {
    cmds.contains(configure_view(e.1, e.3)) && cmds.contains(configure_view(e.2, e.4))
}

/// The commands delete both pipes of a pair.
pub open spec fn deletes(cmds: Seq<(Seq<char>, Seq<Seq<char>>)>, e: PipeView) -> bool {
    cmds.contains(delete_view(e.1)) && cmds.contains(delete_view(e.2))
}

proof fn lemma_commands_grow(
    a: Seq<(Seq<char>, Seq<Seq<char>>)>,
    b: Seq<(Seq<char>, Seq<Seq<char>>)>,
)
    ensures
        forall|c: (Seq<char>, Seq<Seq<char>>)| #[trigger] a.contains(c) ==> (a + b).contains(c),
        forall|c: (Seq<char>, Seq<Seq<char>>)| #[trigger] b.contains(c) ==> (a + b).contains(c),
{
    assert forall|c: (Seq<char>, Seq<Seq<char>>)| #[trigger] a.contains(c) implies (a + b).contains(c) by {
        let k = choose|k: int| 0 <= k < a.len() && a[k] == c;
        assert((a + b)[k] == c);
    }
    assert forall|c: (Seq<char>, Seq<Seq<char>>)| #[trigger] b.contains(c) implies (a + b).contains(c) by {
        let k = choose|k: int| 0 <= k < b.len() && b[k] == c;
        assert((a + b)[a.len() + k] == c);
    }
}

/// `pid` has a pipe pair at the limit's rates over the wanted ports.
pub open spec fn pipe_matches(p: Seq<PipeView>, pid: u32, l: BandwidthLimit, wanted: Seq<u16>) -> bool {
    &&& has_pipe(p, pid)
    &&& p[pipe_index(p, pid)].3 == l.download_bps
    &&& p[pipe_index(p, pid)].4 == l.upload_bps
    &&& p[pipe_index(p, pid)].5 == wanted
}

/// The packet filter's state already is what a pass would make of it:
/// every pipe pair and drop entry belongs to a limited or blocked process,
/// and every limited or blocked process with open ports has its pair or
/// entry as wanted.
pub open spec fn already_reconciled(
    p: Seq<PipeView>,
    b: Seq<BlockView>,
    limits: Map<u32, BandwidthLimit>,
    blocked: Seq<u32>,
    ports: Map<u32, HashSet<u16>>,
) -> bool {
    &&& forall|i: int| 0 <= i < p.len() ==> limits.contains_key(#[trigger] p[i].0)
    &&& forall|pid: u32| #[trigger]
        limits.contains_key(pid) && wanted_ports(ports, pid).len() > 0 ==> pipe_matches(
            p,
            pid,
            limits[pid],
            wanted_ports(ports, pid),
        )
    &&& forall|i: int| 0 <= i < b.len() ==> blocked.contains(#[trigger] b[i].0)
    &&& forall|pid: u32| #[trigger]
        blocked.contains(pid) && wanted_ports(ports, pid).len() > 0 ==> block_reconciled(
            b,
            pid,
            wanted_ports(ports, pid),
        )
}

fn copy_pipes(a: &Vec<PipeAllocation>) -> (r: Vec<PipeAllocation>)
    ensures
        r@.map_values(|x: PipeAllocation| pipe_view(x)) == a@.map_values(
            |x: PipeAllocation| pipe_view(x),
        ),
{
    let mut r: Vec<PipeAllocation> = Vec::new();
    let mut i: usize = 0;
    while i < a.len()
        invariant
            i <= a@.len(),
            r@.map_values(|x: PipeAllocation| pipe_view(x)) == a@.take(i as int).map_values(
                |x: PipeAllocation| pipe_view(x),
            ),
        decreases a@.len() - i,
    {
        let e = PipeAllocation {
            pid: a[i].pid,
            download_pipe: a[i].download_pipe,
            upload_pipe: a[i].upload_pipe,
            download_bps: a[i].download_bps,
            upload_bps: a[i].upload_bps,
            ports: copy_list(&a[i].ports),
        };
        assert(pipe_view(e) == pipe_view(a@[i as int]));
        let ghost before = r@.map_values(|x: PipeAllocation| pipe_view(x));
        r.push(e);
        assert(r@.map_values(|x: PipeAllocation| pipe_view(x)) =~= before.push(pipe_view(e)));
        assert(a@.take(i as int + 1).map_values(|x: PipeAllocation| pipe_view(x)) =~= a@.take(
            i as int,
        ).map_values(|x: PipeAllocation| pipe_view(x)).push(pipe_view(a@[i as int])));
        assert(r@.map_values(|x: PipeAllocation| pipe_view(x)) =~= a@.take(i as int + 1).map_values(
            |x: PipeAllocation| pipe_view(x),
        ));
        i = i + 1;
    }
    assert(a@.take(a@.len() as int) =~= a@);
    r
}

fn copy_blocks(a: &Vec<BlockEntry>) -> (r: Vec<BlockEntry>)
    ensures
        r@.map_values(|x: BlockEntry| block_view(x)) == a@.map_values(|x: BlockEntry| block_view(x)),
{
    let mut r: Vec<BlockEntry> = Vec::new();
    let mut i: usize = 0;
    while i < a.len()
        invariant
            i <= a@.len(),
            r@.map_values(|x: BlockEntry| block_view(x)) == a@.take(i as int).map_values(
                |x: BlockEntry| block_view(x),
            ),
        decreases a@.len() - i,
    {
        let e = BlockEntry { pid: a[i].pid, ports: copy_list(&a[i].ports) };
        assert(block_view(e) == block_view(a@[i as int]));
        let ghost before = r@.map_values(|x: BlockEntry| block_view(x));
        r.push(e);
        assert(r@.map_values(|x: BlockEntry| block_view(x)) =~= before.push(block_view(e)));
        assert(a@.take(i as int + 1).map_values(|x: BlockEntry| block_view(x)) =~= a@.take(
            i as int,
        ).map_values(|x: BlockEntry| block_view(x)).push(block_view(a@[i as int])));
        assert(r@.map_values(|x: BlockEntry| block_view(x)) =~= a@.take(i as int + 1).map_values(
            |x: BlockEntry| block_view(x),
        ));
        i = i + 1;
    }
    assert(a@.take(a@.len() as int) =~= a@);
    r
}

fn same_pipes(a: &Vec<PipeAllocation>, b: &Vec<PipeAllocation>) -> (r: bool)
    ensures
        r == (a@.map_values(|x: PipeAllocation| pipe_view(x)) == b@.map_values(
            |x: PipeAllocation| pipe_view(x),
        )),
{
    let ghost va = a@.map_values(|x: PipeAllocation| pipe_view(x));
    let ghost vb = b@.map_values(|x: PipeAllocation| pipe_view(x));
    if a.len() != b.len() {
        assert(va.len() != vb.len());
        return false;
    }
    let mut i: usize = 0;
    while i < a.len()
        invariant
            a@.len() == b@.len(),
            i <= a@.len(),
            va == a@.map_values(|x: PipeAllocation| pipe_view(x)),
            vb == b@.map_values(|x: PipeAllocation| pipe_view(x)),
            forall|k: int| 0 <= k < i ==> va[k] == vb[k],
        decreases a@.len() - i,
    {
        let x = &a[i];
        let y = &b[i];
        if x.pid != y.pid || x.download_pipe != y.download_pipe || x.upload_pipe != y.upload_pipe
            || x.download_bps != y.download_bps || x.upload_bps != y.upload_bps || !same_list(
            &x.ports,
            &y.ports,
        ) {
            assert(va[i as int] != vb[i as int]);
            return false;
        }
        i = i + 1;
    }
    assert(va =~= vb);
    true
}

fn same_blocks(a: &Vec<BlockEntry>, b: &Vec<BlockEntry>) -> (r: bool)
    ensures
        r == (a@.map_values(|x: BlockEntry| block_view(x)) == b@.map_values(
            |x: BlockEntry| block_view(x),
        )),
{
    let ghost va = a@.map_values(|x: BlockEntry| block_view(x));
    let ghost vb = b@.map_values(|x: BlockEntry| block_view(x));
    if a.len() != b.len() {
        assert(va.len() != vb.len());
        return false;
    }
    let mut i: usize = 0;
    while i < a.len()
        invariant
            a@.len() == b@.len(),
            i <= a@.len(),
            va == a@.map_values(|x: BlockEntry| block_view(x)),
            vb == b@.map_values(|x: BlockEntry| block_view(x)),
            forall|k: int| 0 <= k < i ==> va[k] == vb[k],
        decreases a@.len() - i,
    {
        if a[i].pid != b[i].pid || !same_list(&a[i].ports, &b[i].ports) {
            assert(va[i as int] != vb[i as int]);
            return false;
        }
        i = i + 1;
    }
    assert(va =~= vb);
    true
}

/// One reconciliation pass against the governor's limits and blocks and
/// each process's current ports. Every limited process with open ports
/// gets a pipe pair at its rates over those ports; one that already has
/// such a pair keeps it untouched, and one left without a pair is left so
/// only because the pipe numbers ran out, the pass itself taking at most
/// one pair per limited process. Every blocked process with open ports gets
/// a drop entry over them, an existing matching entry being kept. A process
/// without open ports keeps what it had. Pipe pairs and drop entries of
/// processes no longer limited or blocked are removed, their pipes deleted.
/// The plan carries rule text exactly when the state changed, and is empty
/// otherwise; a state that is already reconciled is left as it is.
pub fn sync_pf_state(
    pf_handle: &mut PfHandle,
    limits: &HashMap<u32, BandwidthLimit>,
    blocked_pids: &Vec<u32>,
    ports: &HashMap<u32, HashSet<u16>>,
) -> (r: PfPlan)
    requires
        old(pf_handle).wf(),
    ensures
        final(pf_handle).wf(),
        final(pf_handle).active_flag() == old(pf_handle).active_flag(),
        final(pf_handle).pf().registered() == old(pf_handle).pf().registered(),
        forall|i: int|
            0 <= i < final(pf_handle).pf().pipes().len() ==> limits@.contains_key(
                #[trigger] final(pf_handle).pf().pipes()[i].0,
            ),
        forall|pid: u32| #[trigger]
            limits@.contains_key(pid) ==> limit_settled(
                final(pf_handle).pf().pipes(),
                old(pf_handle).pf().pipes(),
                final(pf_handle).pf().next(),
                limits@,
                ports@,
                pid,
            ),
        forall|i: int|
            0 <= i < final(pf_handle).pf().blocked().len() ==> blocked_pids@.contains(
                #[trigger] final(pf_handle).pf().blocked()[i].0,
            ),
        forall|pid: u32| #[trigger]
            blocked_pids@.contains(pid) ==> block_settled(
                final(pf_handle).pf().blocked(),
                old(pf_handle).pf().blocked(),
                ports@,
                pid,
            ),
        forall|i: int|
            0 <= i < final(pf_handle).pf().pipes().len() && !old(pf_handle).pf().pipes().contains(
                #[trigger] final(pf_handle).pf().pipes()[i],
            ) ==> configures(
                r.commands@.map_values(|c: PfCommand| command_view(c)),
                final(pf_handle).pf().pipes()[i],
            ),
        forall|k: int|
            0 <= k < old(pf_handle).pf().pipes().len() && !limits@.contains_key(
                (#[trigger] old(pf_handle).pf().pipes()[k]).0,
            ) ==> deletes(
                r.commands@.map_values(|c: PfCommand| command_view(c)),
                old(pf_handle).pf().pipes()[k],
            ),
        old(pf_handle).pf().next() <= final(pf_handle).pf().next(),
        final(pf_handle).pf().next() <= old(pf_handle).pf().next() + 2 * limits@.dom().len(),
        forall|pid: u32| #[trigger]
            limits@.contains_key(pid) && wanted_ports(ports@, pid).len() > 0 && pipe_matches(
                old(pf_handle).pf().pipes(),
                pid,
                limits@[pid],
                wanted_ports(ports@, pid),
            ) ==> same_pipe(final(pf_handle).pf().pipes(), old(pf_handle).pf().pipes(), pid),
        forall|pid: u32| #[trigger]
            blocked_pids@.contains(pid) && wanted_ports(ports@, pid).len() > 0 && block_reconciled(
                old(pf_handle).pf().blocked(),
                pid,
                wanted_ports(ports@, pid),
            ) ==> same_block(final(pf_handle).pf().blocked(), old(pf_handle).pf().blocked(), pid),
        already_reconciled(
            old(pf_handle).pf().pipes(),
            old(pf_handle).pf().blocked(),
            limits@,
            blocked_pids@,
            ports@,
        ) ==> final(pf_handle).pf().pipes() == old(pf_handle).pf().pipes()
            && final(pf_handle).pf().blocked() == old(pf_handle).pf().blocked()
            && r.rules is None,
        r.rules is None <==> (final(pf_handle).pf().pipes() == old(pf_handle).pf().pipes()
            && final(pf_handle).pf().blocked() == old(pf_handle).pf().blocked()),
        r.rules is None ==> r.commands@.len() == 0,
        r.rules is Some ==> r.rules.unwrap()@ == rules_text(
            final(pf_handle).pf().pipes(),
            final(pf_handle).pf().blocked(),
        ),
{
    let mut commands: Vec<PfCommand> = Vec::new();
    let ghost mut changed = false;
    let old_pipes = copy_pipes(&pf_handle.state.pipes);
    let old_blocked = copy_blocks(&pf_handle.state.blocked);
    let ghost old_p = pf_handle.state.pipes();
    let ghost old_b = pf_handle.state.blocked();
    let ghost old_next = pf_handle.state.next();
    let ghost kv = limits.iter().remaining();
    assert(kv.len() == limits@.dom().len());
    for x in it: limits.iter()
        invariant
            it.seq() == kv,
            pf_handle.wf(),
            old_pipes@.map_values(|x: PipeAllocation| pipe_view(x)) == old_p,
            old_blocked@.map_values(|x: BlockEntry| block_view(x)) == old_b,
            old_next == old(pf_handle).pf().next(),
            already_reconciled(old_p, old_b, limits@, blocked_pids@, ports@) ==> !changed,
            pf_handle.state.next() <= old_next + 2 * it.index(),
            kv.len() == limits@.dom().len(),
            forall|k: int|
                0 <= k < it.index() && wanted_ports(ports@, *(#[trigger] kv[k]).0).len() > 0
                    && pipe_matches(
                    old_p,
                    *kv[k].0,
                    limits@[*kv[k].0],
                    wanted_ports(ports@, *kv[k].0),
                ) ==> same_pipe(pf_handle.state.pipes(), old_p, *kv[k].0),
            pf_handle.active_flag() == old(pf_handle).active_flag(),
            pf_handle.state.registered() == old(pf_handle).pf().registered(),
            old_p == old(pf_handle).pf().pipes(),
            old_b == old(pf_handle).pf().blocked(),
            pf_handle.state.blocked() == old_b,
            pf_handle.state.next() >= old_next,
            forall|k: int| 0 <= k < kv.len() ==> limits@.contains_key(*(#[trigger] kv[k]).0)
                && limits@[*kv[k].0] == *kv[k].1,
            forall|k: int|
                0 <= k < it.index() ==> limit_settled(
                    pf_handle.state.pipes(),
                    old_p,
                    pf_handle.state.next(),
                    limits@,
                    ports@,
                    *(#[trigger] kv[k]).0,
                ),
            forall|q: u32|
                #![trigger same_pipe(pf_handle.state.pipes(), old_p, q)]
                (forall|k: int| 0 <= k < it.index() ==> *(#[trigger] kv[k]).0 != q) ==> same_pipe(
                    pf_handle.state.pipes(),
                    old_p,
                    q,
                ),
            !changed ==> pf_handle.state.pipes() == old_p && commands@.len() == 0,
            forall|i: int|
                0 <= i < pf_handle.state.pipes().len() && !old_p.contains(
                    #[trigger] pf_handle.state.pipes()[i],
                ) ==> configures(
                    commands@.map_values(|c: PfCommand| command_view(c)),
                    pf_handle.state.pipes()[i],
                ),
    {
        let ghost idx = it.index();
        let ghost cur = pf_handle.state.pipes();
        let ghost cur_next = pf_handle.state.next();
        let (pid_ref, limit_ref) = x;
        let pid: u32 = *pid_ref;
        let limit: BandwidthLimit = *limit_ref;
        assert(kv[idx] == x);
        let wanted = wanted_of(ports, pid);
        let ghost w = wanted@;
        proof {
            assert(limit == limits@[pid]);
            if w.len() > 0 && pipe_matches(old_p, pid, limit, w) {
                if exists|k: int| 0 <= k < idx && *kv[k].0 == pid {
                    let k = choose|k: int| 0 <= k < idx && *kv[k].0 == pid;
                    assert(same_pipe(cur, old_p, *kv[k].0));
                } else {
                    assert(same_pipe(cur, old_p, pid));
                }
                assert(pipe_matches(cur, pid, limit, w));
            }
            if already_reconciled(old_p, old_b, limits@, blocked_pids@, ports@) && !changed {
                assert(limits@.contains_key(pid));
            }
        }
        if wanted.len() > 0 {
            let needs = match pf_handle.state.find_pipe(pid) {
                Some(i) => {
                    pf_handle.state.pipes[i].download_bps != limit.download_bps
                        || pf_handle.state.pipes[i].upload_bps != limit.upload_bps || !same_list(
                        &pf_handle.state.pipes[i].ports,
                        &wanted,
                    )
                },
                None => true,
            };
            if needs {
                match pf_handle.state.apply_rate_limit(
                    pid,
                    limit.download_bps,
                    limit.upload_bps,
                    wanted,
                ) {
                    Ok(mut cmds) => {
                        let ghost cv0 = commands@.map_values(|c: PfCommand| command_view(c));
                        let ghost cv1 = cmds@.map_values(|c: PfCommand| command_view(c));
                        commands.append(&mut cmds);
                        proof {
                    changed = true;
                }
                        proof {
                            let new = pf_handle.state.pipes();
                            let cv = commands@.map_values(|c: PfCommand| command_view(c));
                            assert(cv =~= cv0 + cv1);
                            lemma_commands_grow(cv0, cv1);
                            if has_pipe(cur, pid) {
                                let i = pipe_index(cur, pid);
                                lemma_pipe_update_contains(cur, i, new[i]);
                                lemma_pipe_index(new, pid, i);
                            } else {
                                lemma_pipe_push_contains(cur, new.last());
                                lemma_pipe_index(new, pid, new.len() - 1);
                            }
                            assert forall|q: u32| q != pid implies same_pipe(new, cur, q) by {
                                lemma_pipes_frame(new, cur, pid, q);
                            }
                            assert forall|i: int|
                                0 <= i < new.len() && !old_p.contains(#[trigger] new[i]) implies configures(cv, new[i]) by {
                                if new[i].0 == pid {
                                    let j = pipe_index(new, pid);
                                    assert(new[j].0 == pid);
                                    lemma_pipe_index(new, pid, i);
                                    assert(cv1.contains(configure_view(new[i].1, new[i].3)) && cv1.contains(configure_view(new[i].2, new[i].4))) by {
                                        assert(cv1[0] == configure_view(new[i].1, new[i].3));
                                        assert(cv1[1] == configure_view(new[i].2, new[i].4));
                                    }
                                } else {
                                    assert(new.contains(new[i]));
                                    assert(cur.contains(new[i]));
                                    let j = choose|j: int| 0 <= j < cur.len() && cur[j] == new[i];
                                    assert(configures(cv0, cur[j]));
                                }
                            }
                        }
                    },
                    Err(_) => {},
                }
            } else {
                proof {
                    let i = pipe_index(cur, pid);
                    assert(cur[i].3 == limit.download_bps && cur[i].4 == limit.upload_bps);
                }
            }
        }
        proof {
            let new = pf_handle.state.pipes();
            assert(limit_settled(new, old_p, pf_handle.state.next(), limits@, ports@, pid)) by {
                if wanted@.len() == 0 {
                    if exists|k: int| 0 <= k < idx && *kv[k].0 == pid {
                        let k = choose|k: int| 0 <= k < idx && *kv[k].0 == pid;
                        assert(limit_settled(cur, old_p, cur_next, limits@, ports@, *kv[k].0));
                    }
                }
            }
            assert forall|k: int| 0 <= k < idx + 1 implies limit_settled(
                new,
                old_p,
                pf_handle.state.next(),
                limits@,
                ports@,
                *(#[trigger] kv[k]).0,
            ) by {
                if k < idx && *kv[k].0 != pid {
                    assert(limit_settled(cur, old_p, cur_next, limits@, ports@, *kv[k].0));
                    if new != cur {
                        lemma_pipes_frame(new, cur, pid, *kv[k].0);
                    }
                }
            }
            assert forall|q: u32|
                (forall|k: int| 0 <= k < idx + 1 ==> *(#[trigger] kv[k]).0 != q) implies same_pipe(
                new,
                old_p,
                q,
            ) by {
                assert(*kv[idx].0 != q);
                assert(same_pipe(cur, old_p, q));
                if new != cur {
                    lemma_pipes_frame(new, cur, pid, q);
                }
            }
            assert forall|k: int|
                0 <= k < idx + 1 && wanted_ports(ports@, *(#[trigger] kv[k]).0).len() > 0
                    && pipe_matches(
                    old_p,
                    *kv[k].0,
                    limits@[*kv[k].0],
                    wanted_ports(ports@, *kv[k].0),
                ) implies same_pipe(new, old_p, *kv[k].0) by {
                let q = *kv[k].0;
                if q == pid {
                    assert(same_pipe(cur, old_p, pid));
                } else {
                    if k < idx {
                        assert(same_pipe(cur, old_p, q));
                    }
                    if new != cur {
                        lemma_pipes_frame(new, cur, pid, q);
                    }
                }
            }
        }
    }
    let ghost after1 = pf_handle.state.pipes();
    let ghost next1 = pf_handle.state.next();
    proof {
        assert forall|q: u32| #[trigger]
            limits@.contains_key(q) && wanted_ports(ports@, q).len() > 0 && pipe_matches(
                old_p,
                q,
                limits@[q],
                wanted_ports(ports@, q),
            ) implies same_pipe(after1, old_p, q) by {
            assert(kv.contains((&q, &limits@[q])));
            let k = choose|k: int| 0 <= k < kv.len() && kv[k] == (&q, &limits@[q]);
            assert(*kv[k].0 == q);
        }
    }
    proof {
        assert forall|pid: u32| #[trigger] limits@.contains_key(pid) implies limit_settled(
            after1,
            old_p,
            next1,
            limits@,
            ports@,
            pid,
        ) by {
            assert(kv.contains((&pid, &limits@[pid])));
            let k = choose|k: int| 0 <= k < kv.len() && kv[k] == (&pid, &limits@[pid]);
            assert(*kv[k].0 == pid);
        }
        assert forall|k: int|
            0 <= k < old_p.len() && !limits@.contains_key((#[trigger] old_p[k]).0) implies after1.contains(
            old_p[k],
        ) by {
            let q = old_p[k].0;
            assert forall|j: int| 0 <= j < kv.len() implies *(#[trigger] kv[j]).0 != q by {
                assert(limits@.contains_key(*kv[j].0));
            }
            assert(same_pipe(after1, old_p, q));
            lemma_pipe_index(old_p, q, k);
            let a = pipe_index(after1, q);
            assert(after1[a] == old_p[k]);
        }
    }
    let mut j: usize = 0;
    while j < blocked_pids.len()
        invariant
            j <= blocked_pids@.len(),
            pf_handle.wf(),
            old_pipes@.map_values(|x: PipeAllocation| pipe_view(x)) == old_p,
            old_blocked@.map_values(|x: BlockEntry| block_view(x)) == old_b,
            old_next == old(pf_handle).pf().next(),
            next1 <= old_next + 2 * limits@.dom().len(),
            old_next <= next1,
            already_reconciled(old_p, old_b, limits@, blocked_pids@, ports@) ==> !changed,
            already_reconciled(old_p, old_b, limits@, blocked_pids@, ports@) ==> after1 == old_p,
            forall|q: u32| #[trigger]
                limits@.contains_key(q) && wanted_ports(ports@, q).len() > 0 && pipe_matches(
                    old_p,
                    q,
                    limits@[q],
                    wanted_ports(ports@, q),
                ) ==> same_pipe(after1, old_p, q),
            forall|k: int|
                0 <= k < j && wanted_ports(ports@, #[trigger] blocked_pids@[k]).len() > 0
                    && block_reconciled(old_b, blocked_pids@[k], wanted_ports(ports@, blocked_pids@[k]))
                    ==> same_block(pf_handle.state.blocked(), old_b, blocked_pids@[k]),
            pf_handle.active_flag() == old(pf_handle).active_flag(),
            pf_handle.state.registered() == old(pf_handle).pf().registered(),
            pf_handle.state.pipes() == after1,
            pf_handle.state.next() == next1,
            forall|pid: u32| #[trigger]
                limits@.contains_key(pid) ==> limit_settled(after1, old_p, next1, limits@, ports@, pid),
            forall|k: int|
                0 <= k < j ==> block_settled(
                    pf_handle.state.blocked(),
                    old_b,
                    ports@,
                    #[trigger] blocked_pids@[k],
                ),
            forall|q: u32|
                #![trigger same_block(pf_handle.state.blocked(), old_b, q)]
                (forall|k: int| 0 <= k < j ==> #[trigger] blocked_pids@[k] != q) ==> same_block(
                    pf_handle.state.blocked(),
                    old_b,
                    q,
                ),
            !changed ==> pf_handle.state.pipes() == old_p && pf_handle.state.blocked() == old_b
                && commands@.len() == 0,
            forall|i: int|
                0 <= i < pf_handle.state.pipes().len() && !old_p.contains(
                    #[trigger] pf_handle.state.pipes()[i],
                ) ==> configures(
                    commands@.map_values(|c: PfCommand| command_view(c)),
                    pf_handle.state.pipes()[i],
                ),
            forall|k: int|
                0 <= k < old_p.len() && !limits@.contains_key((#[trigger] old_p[k]).0)
                    ==> pf_handle.state.pipes().contains(old_p[k]) || deletes(
                    commands@.map_values(|c: PfCommand| command_view(c)),
                    old_p[k],
                ),
            old_p == old(pf_handle).pf().pipes(),
            pipes_wf(old_p, old(pf_handle).pf().next()),
        decreases blocked_pids@.len() - j,
    {
        let ghost cur = pf_handle.state.blocked();
        let pid = blocked_pids[j];
        let wanted = wanted_of(ports, pid);
        let ghost w = wanted@;
        proof {
            if w.len() > 0 && block_reconciled(old_b, pid, w) {
                if exists|k: int| 0 <= k < j && blocked_pids@[k] == pid {
                    let k = choose|k: int| 0 <= k < j && blocked_pids@[k] == pid;
                    assert(same_block(cur, old_b, blocked_pids@[k]));
                } else {
                    assert(same_block(cur, old_b, pid));
                }
                assert(block_reconciled(cur, pid, w));
            }
            if already_reconciled(old_p, old_b, limits@, blocked_pids@, ports@) && !changed {
                assert(blocked_pids@.contains(pid)) by {
                    assert(blocked_pids@[j as int] == pid);
                }
            }
        }
        if wanted.len() > 0 {
            let needs = match pf_handle.state.find_block(pid) {
                Some(i) => !same_list(&pf_handle.state.blocked[i].ports, &wanted),
                None => true,
            };
            if needs {
                pf_handle.state.apply_block(pid, wanted);
                proof {
                    changed = true;
                }
                proof {
                    let new = pf_handle.state.blocked();
                    if has_block(cur, pid) {
                        let i = block_index(cur, pid);
                        lemma_block_update_contains(cur, i, new[i]);
                        lemma_block_index(new, pid, i);
                    } else {
                        lemma_block_push_contains(cur, new.last());
                        lemma_block_index(new, pid, new.len() - 1);
                    }
                }
            }
        }
        proof {
            let new = pf_handle.state.blocked();
            if new != cur {
                assert forall|q: u32| q != pid implies same_block(new, cur, q) by {
                    lemma_blocks_frame(new, cur, pid, q);
                }
            }
            assert(block_settled(new, old_b, ports@, pid)) by {
                if wanted@.len() == 0 {
                    if exists|k: int| 0 <= k < j && blocked_pids@[k] == pid {
                        let k = choose|k: int| 0 <= k < j && blocked_pids@[k] == pid;
                        assert(block_settled(cur, old_b, ports@, blocked_pids@[k]));
                    }
                }
            }
            assert forall|k: int| 0 <= k < j + 1 implies block_settled(
                new,
                old_b,
                ports@,
                #[trigger] blocked_pids@[k],
            ) by {
                if k < j && blocked_pids@[k] != pid {
                    assert(block_settled(cur, old_b, ports@, blocked_pids@[k]));
                    if new != cur {
                        lemma_blocks_frame(new, cur, pid, blocked_pids@[k]);
                    }
                }
            }
            assert forall|q: u32|
                (forall|k: int| 0 <= k < j + 1 ==> #[trigger] blocked_pids@[k] != q) implies same_block(
                new,
                old_b,
                q,
            ) by {
                assert(blocked_pids@[j as int] != q);
                assert(same_block(cur, old_b, q));
                if new != cur {
                    lemma_blocks_frame(new, cur, pid, q);
                }
            }
        }
        proof {
            let new = pf_handle.state.blocked();
            assert forall|k: int|
                0 <= k < j + 1 && wanted_ports(ports@, #[trigger] blocked_pids@[k]).len() > 0
                    && block_reconciled(old_b, blocked_pids@[k], wanted_ports(ports@, blocked_pids@[k]))
                    implies same_block(new, old_b, blocked_pids@[k]) by {
                let q = blocked_pids@[k];
                if q == pid {
                    assert(same_block(cur, old_b, pid));
                } else {
                    if k < j {
                        assert(same_block(cur, old_b, q));
                    }
                    if new != cur {
                        lemma_blocks_frame(new, cur, pid, q);
                    }
                }
            }
        }
        j = j + 1;
    }
    let ghost after2 = pf_handle.state.blocked();
    proof {
        assert forall|q: u32| #[trigger]
            blocked_pids@.contains(q) && wanted_ports(ports@, q).len() > 0 && block_reconciled(
                old_b,
                q,
                wanted_ports(ports@, q),
            ) implies same_block(after2, old_b, q) by {
            let k = choose|k: int| 0 <= k < blocked_pids@.len() && blocked_pids@[k] == q;
            assert(blocked_pids@[k] == q);
        }
    }
    proof {
        assert forall|pid: u32| #[trigger] blocked_pids@.contains(pid) implies block_settled(
            after2,
            old_b,
            ports@,
            pid,
        ) by {
            let k = choose|k: int| 0 <= k < blocked_pids@.len() && blocked_pids@[k] == pid;
            assert(block_settled(after2, old_b, ports@, blocked_pids@[k]));
        }
    }
    let mut i: usize = 0;
    while i < pf_handle.state.pipes.len()
        invariant
            pf_handle.wf(),
            pf_handle.active_flag() == old(pf_handle).active_flag(),
            pf_handle.state.registered() == old(pf_handle).pf().registered(),
            pf_handle.state.blocked() == after2,
            old_pipes@.map_values(|x: PipeAllocation| pipe_view(x)) == old_p,
            old_blocked@.map_values(|x: BlockEntry| block_view(x)) == old_b,
            old_next == old(pf_handle).pf().next(),
            next1 <= old_next + 2 * limits@.dom().len(),
            old_next <= next1,
            already_reconciled(old_p, old_b, limits@, blocked_pids@, ports@) ==> !changed,
            already_reconciled(old_p, old_b, limits@, blocked_pids@, ports@) ==> after1 == old_p,
            forall|q: u32| #[trigger]
                limits@.contains_key(q) && wanted_ports(ports@, q).len() > 0 && pipe_matches(
                    old_p,
                    q,
                    limits@[q],
                    wanted_ports(ports@, q),
                ) ==> same_pipe(after1, old_p, q),
            forall|q: u32| #[trigger]
                blocked_pids@.contains(q) && wanted_ports(ports@, q).len() > 0 && block_reconciled(
                    old_b,
                    q,
                    wanted_ports(ports@, q),
                ) ==> same_block(after2, old_b, q),
            already_reconciled(old_p, old_b, limits@, blocked_pids@, ports@) ==> after2 == old_b,
            pf_handle.state.next() == next1,
            i <= pf_handle.state.pipes().len(),
            forall|k: int| 0 <= k < i ==> limits@.contains_key(#[trigger] pf_handle.state.pipes()[k].0),
            forall|q: u32| #[trigger]
                limits@.contains_key(q) ==> same_pipe(pf_handle.state.pipes(), after1, q),
            !changed ==> pf_handle.state.pipes() == old_p && pf_handle.state.blocked() == old_b
                && commands@.len() == 0,
            forall|i: int|
                0 <= i < pf_handle.state.pipes().len() && !old_p.contains(
                    #[trigger] pf_handle.state.pipes()[i],
                ) ==> configures(
                    commands@.map_values(|c: PfCommand| command_view(c)),
                    pf_handle.state.pipes()[i],
                ),
            forall|k: int|
                0 <= k < old_p.len() && !limits@.contains_key((#[trigger] old_p[k]).0)
                    ==> pf_handle.state.pipes().contains(old_p[k]) || deletes(
                    commands@.map_values(|c: PfCommand| command_view(c)),
                    old_p[k],
                ),
            old_p == old(pf_handle).pf().pipes(),
            pipes_wf(old_p, old(pf_handle).pf().next()),
        decreases pf_handle.state.pipes().len() - i,
    {
        let pid = pf_handle.state.pipes[i].pid;
        if !limits.contains_key(&pid) {
            let ghost cur = pf_handle.state.pipes();
            proof {
                if already_reconciled(old_p, old_b, limits@, blocked_pids@, ports@) {
                    assert(!changed);
                    assert(limits@.contains_key(cur[i as int].0));
                }
            }
            let ghost cv0 = commands@.map_values(|c: PfCommand| command_view(c));
            commands.push(delete_pipe_command(pf_handle.state.pipes[i].download_pipe));
            commands.push(delete_pipe_command(pf_handle.state.pipes[i].upload_pipe));
            let ghost cv = commands@.map_values(|c: PfCommand| command_view(c));
            proof {
                let e = cur[i as int];
                assert(cv =~= cv0 + seq![delete_view(e.1), delete_view(e.2)]);
                lemma_commands_grow(cv0, seq![delete_view(e.1), delete_view(e.2)]);
                assert(seq![delete_view(e.1), delete_view(e.2)][0] == delete_view(e.1));
                assert(seq![delete_view(e.1), delete_view(e.2)][1] == delete_view(e.2));
            }
            pf_handle.state.remove_pipe_at(i);
            proof {
                    changed = true;
                }
            proof {
                let new = pf_handle.state.pipes();
                lemma_pipe_remove_contains(cur, i as int);
                let e = cur[i as int];
                assert forall|j: int|
                    0 <= j < new.len() && !old_p.contains(#[trigger] new[j]) implies configures(cv, new[j]) by {
                    assert(new[j].0 != e.0) by {
                        if j < i {
                            assert(cur[j] == new[j]);
                        } else {
                            assert(cur[j + 1] == new[j]);
                        }
                    }
                    assert(new.contains(new[j]));
                    assert(cur.contains(new[j]));
                    let m = choose|m: int| 0 <= m < cur.len() && cur[m] == new[j];
                    assert(configures(cv0, cur[m]));
                }
                assert forall|k: int|
                    0 <= k < old_p.len() && !limits@.contains_key((#[trigger] old_p[k]).0) implies new.contains(old_p[k]) || deletes(cv, old_p[k]) by {
                    let o = old_p[k];
                    if cur.contains(o) {
                        if o.0 == e.0 {
                            let m = choose|m: int| 0 <= m < cur.len() && cur[m] == o;
                            if m != i {
                                if m < i {
                                    assert(cur[m].0 != cur[i as int].0);
                                } else {
                                    assert(cur[i as int].0 != cur[m].0);
                                }
                            }
                            assert(o == e);
                            let b = seq![delete_view(e.1), delete_view(e.2)];
                            assert(b[0] == delete_view(e.1));
                            assert(b[1] == delete_view(e.2));
                            assert(b.contains(delete_view(e.1)));
                            assert(b.contains(delete_view(e.2)));
                            lemma_commands_grow(cv0, b);
                            assert(cv =~= cv0 + b);
                            assert(deletes(cv, o));
                        } else {
                            assert(new.contains(o));
                        }
                    } else {
                        assert(deletes(cv0, o));
                        assert(deletes(cv, o));
                    }
                }
                assert forall|q: u32| #[trigger] limits@.contains_key(q) implies same_pipe(new, after1, q) by {
                    lemma_pipes_frame(new, cur, pid, q);
                }
                assert forall|k: int| 0 <= k < i implies limits@.contains_key(#[trigger] new[k].0) by {
                    assert(new[k] == cur[k]);
                }
            }
        } else {
            i = i + 1;
        }
    }
    let mut b: usize = 0;
    while b < pf_handle.state.blocked.len()
        invariant
            pf_handle.wf(),
            pf_handle.active_flag() == old(pf_handle).active_flag(),
            pf_handle.state.registered() == old(pf_handle).pf().registered(),
            b <= pf_handle.state.blocked().len(),
            old_pipes@.map_values(|x: PipeAllocation| pipe_view(x)) == old_p,
            old_blocked@.map_values(|x: BlockEntry| block_view(x)) == old_b,
            old_next == old(pf_handle).pf().next(),
            next1 <= old_next + 2 * limits@.dom().len(),
            old_next <= next1,
            already_reconciled(old_p, old_b, limits@, blocked_pids@, ports@) ==> !changed,
            already_reconciled(old_p, old_b, limits@, blocked_pids@, ports@) ==> after1 == old_p,
            forall|q: u32| #[trigger]
                limits@.contains_key(q) && wanted_ports(ports@, q).len() > 0 && pipe_matches(
                    old_p,
                    q,
                    limits@[q],
                    wanted_ports(ports@, q),
                ) ==> same_pipe(after1, old_p, q),
            forall|q: u32| #[trigger]
                blocked_pids@.contains(q) && wanted_ports(ports@, q).len() > 0 && block_reconciled(
                    old_b,
                    q,
                    wanted_ports(ports@, q),
                ) ==> same_block(after2, old_b, q),
            already_reconciled(old_p, old_b, limits@, blocked_pids@, ports@) ==> after2 == old_b,
            pf_handle.state.next() == next1,
            forall|k: int| 0 <= k < pf_handle.state.pipes().len() ==> limits@.contains_key(#[trigger] pf_handle.state.pipes()[k].0),
            forall|q: u32| #[trigger]
                limits@.contains_key(q) ==> same_pipe(pf_handle.state.pipes(), after1, q),
            forall|k: int| 0 <= k < b ==> blocked_pids@.contains(#[trigger] pf_handle.state.blocked()[k].0),
            forall|q: u32| #[trigger]
                blocked_pids@.contains(q) ==> same_block(pf_handle.state.blocked(), after2, q),
            !changed ==> pf_handle.state.pipes() == old_p && pf_handle.state.blocked() == old_b
                && commands@.len() == 0,
            forall|i: int|
                0 <= i < pf_handle.state.pipes().len() && !old_p.contains(
                    #[trigger] pf_handle.state.pipes()[i],
                ) ==> configures(
                    commands@.map_values(|c: PfCommand| command_view(c)),
                    pf_handle.state.pipes()[i],
                ),
            forall|k: int|
                0 <= k < old_p.len() && !limits@.contains_key((#[trigger] old_p[k]).0)
                    ==> pf_handle.state.pipes().contains(old_p[k]) || deletes(
                    commands@.map_values(|c: PfCommand| command_view(c)),
                    old_p[k],
                ),
            old_p == old(pf_handle).pf().pipes(),
            pipes_wf(old_p, old(pf_handle).pf().next()),
        decreases pf_handle.state.blocked().len() - b,
    {
        let pid = pf_handle.state.blocked[b].pid;
        if !contains_pid(blocked_pids, pid) {
            let ghost cur = pf_handle.state.blocked();
            proof {
                if already_reconciled(old_p, old_b, limits@, blocked_pids@, ports@) {
                    assert(!changed);
                    assert(blocked_pids@.contains(cur[b as int].0));
                }
            }
            pf_handle.state.remove_block_at(b);
            proof {
                    changed = true;
                }
            proof {
                let new = pf_handle.state.blocked();
                lemma_block_remove_contains(cur, b as int);
                assert forall|q: u32| #[trigger] blocked_pids@.contains(q) implies same_block(new, after2, q) by {
                    lemma_blocks_frame(new, cur, pid, q);
                }
                assert forall|k: int| 0 <= k < b implies blocked_pids@.contains(#[trigger] new[k].0) by {
                    assert(new[k] == cur[k]);
                }
            }
        } else {
            b = b + 1;
        }
    }
    proof {
        let fp = pf_handle.state.pipes();
        let fb = pf_handle.state.blocked();
        assert forall|pid: u32| #[trigger] limits@.contains_key(pid) implies limit_settled(
            fp,
            old_p,
            next1,
            limits@,
            ports@,
            pid,
        ) by {
            assert(limit_settled(after1, old_p, next1, limits@, ports@, pid));
            assert(same_pipe(fp, after1, pid));
        }
        assert forall|pid: u32| #[trigger] blocked_pids@.contains(pid) implies block_settled(
            fb,
            old_b,
            ports@,
            pid,
        ) by {
            assert(block_settled(after2, old_b, ports@, pid));
            assert(same_block(fb, after2, pid));
        }
        let cvf = commands@.map_values(|c: PfCommand| command_view(c));
        assert forall|k: int|
            0 <= k < old_p.len() && !limits@.contains_key((#[trigger] old_p[k]).0) implies deletes(cvf, old_p[k]) by {
            if fp.contains(old_p[k]) {
                let m = choose|m: int| 0 <= m < fp.len() && fp[m] == old_p[k];
                assert(limits@.contains_key(fp[m].0));
            }
        }
    }
    proof {
        let fp = pf_handle.state.pipes();
        let fb = pf_handle.state.blocked();
        assert forall|pid: u32| #[trigger]
            limits@.contains_key(pid) && wanted_ports(ports@, pid).len() > 0 && pipe_matches(
                old_p,
                pid,
                limits@[pid],
                wanted_ports(ports@, pid),
            ) implies same_pipe(fp, old_p, pid) by {
            assert(same_pipe(after1, old_p, pid));
            assert(same_pipe(fp, after1, pid));
        }
        assert forall|pid: u32| #[trigger]
            blocked_pids@.contains(pid) && wanted_ports(ports@, pid).len() > 0 && block_reconciled(
                old_b,
                pid,
                wanted_ports(ports@, pid),
            ) implies same_block(fb, old_b, pid) by {
            assert(same_block(after2, old_b, pid));
            assert(same_block(fb, after2, pid));
        }
    }
    let unchanged = same_pipes(&pf_handle.state.pipes, &old_pipes) && same_blocks(
        &pf_handle.state.blocked,
        &old_blocked,
    );
    if unchanged {
        proof {
            let fp = pf_handle.state.pipes();
            assert forall|i: int| 0 <= i < fp.len() implies old_p.contains(#[trigger] fp[i]) by {
                assert(old_p[i] == fp[i]);
            }
            assert forall|k: int| 0 <= k < old_p.len() implies limits@.contains_key(
                (#[trigger] old_p[k]).0,
            ) by {
                assert(limits@.contains_key(fp[k].0));
            }
        }
        let empty: Vec<PfCommand> = Vec::new();
        PfPlan { commands: empty, rules: None }
    } else {
        let rules = pf_handle.state.generate_pf_rules();
        PfPlan { commands, rules: Some(rules) }
    }
}

} // verus!

