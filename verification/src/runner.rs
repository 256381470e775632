//! What the daemon decides as it runs: its options, when it looks for new applications, when it
//! puts threads on their CPUs, and how long it waits.

use vstd::prelude::*;

use crate::cpuset::CpuSet;
use crate::numeral;
use crate::process;
use crate::text;

verus! {

/// How many rounds pass from one search for new applications to the next.
pub const SCAN_ROUNDS: i32 = 30;

/// How many passes over the threads are made before all of them are put on their CPUs anew.
pub const BIND_PASSES: i32 = 30;

/// The seconds of a round where the options do not say how many.
pub const DEFAULT_INTERVAL: u64 = 2;

/// The options of the daemon.
pub struct Options {
    pub config_path: String,
    pub interval: u64,
}

/// What `Options` say.
pub struct OptionsView {
    pub config_path: Seq<char>,
    pub interval: int,
}

impl View for Options {
    type V = OptionsView;

    open spec fn view(&self) -> OptionsView {
        OptionsView { config_path: self.config_path@, interval: self.interval as int }
    }
}

/// The seconds that `s` gives; the default where it is no number.
pub open spec fn interval_in(s: Seq<char>) -> int {
    match numeral::unsigned_value(s, u64::MAX as int) {
        Some(n) => n,
        None => DEFAULT_INTERVAL as int,
    }
}

/// What the arguments from `i` on change in the options `o`: `-c` is followed by the path of the
/// configuration, `-s` by the seconds of a round. The last of each counts; what else there is does
/// not.
pub open spec fn chosen(args: Seq<Seq<char>>, i: int, o: OptionsView) -> OptionsView
    decreases
            (if i < args.len() {
                args.len() - i
            } else {
                0
            }),
{
    if i >= args.len() {
        o
    } else if args[i] == "-c"@ {
        if i + 1 < args.len() {
            chosen(args, i + 2, OptionsView { config_path: args[i + 1], ..o })
        } else {
            o
        }
    } else if args[i] == "-s"@ {
        if i + 1 < args.len() {
            chosen(args, i + 2, OptionsView { interval: interval_in(args[i + 1]), ..o })
        } else {
            o
        }
    } else {
        chosen(args, i + 1, o)
    }
}

/// The options that the arguments `args` give, of which the first is the name of the program. A
/// round takes a second at least.
pub open spec fn options_of(args: Seq<Seq<char>>) -> OptionsView {
    let o = chosen(
        args,
        1,
        OptionsView {
            config_path: "/sdcard/Android/Aether/threads.json"@,
            interval: DEFAULT_INTERVAL as int,
        },
    );
    OptionsView {
        interval: if o.interval < 1 {
            1
        } else {
            o.interval
        },
        ..o
    }
}

/// The options that the arguments `args` give.
pub fn parse_args(args: &[String]) -> (r: Options)
    ensures
        r@ == options_of(text::views(args@)),
{
    let ghost all = text::views(args@);
    let size: usize = args.len();
    let mut config_path: String = "/sdcard/Android/Aether/threads.json".to_owned();
    let mut interval: u64 = DEFAULT_INTERVAL;
    let ghost goal = chosen(
        all,
        1,
        OptionsView { config_path: config_path@, interval: interval as int },
    );
    let mut i: usize = 1;
    while i < size
        invariant
            size == args@.len(),
            all == text::views(args@),
            goal == chosen(
                all,
                i as int,
                OptionsView { config_path: config_path@, interval: interval as int },
            ),
        decreases size - i,
    {
        assert(all[i as int] == args@[i as int]@);
        if text::same(args[i].as_str(), "-c") {
            if size - i < 2 {
                proof {
                    reveal_with_fuel(chosen, 2);
                }
                i = size;
            } else {
                config_path = args[i + 1].as_str().to_owned();
                assert(all[i + 1] == args@[i + 1]@);
                if size - i == 2 {
                    proof {
                        reveal_with_fuel(chosen, 2);
                    }
                    i = size;
                } else {
                    i += 2;
                }
            }
        } else if text::same(args[i].as_str(), "-s") {
            if size - i < 2 {
                proof {
                    reveal_with_fuel(chosen, 2);
                }
                i = size;
            } else {
                assert(all[i + 1] == args@[i + 1]@);
                interval = match numeral::parse_unsigned(
                    args[i + 1].as_str(),
                    0xffff_ffff_ffff_ffff,
                ) {
                    Some(n) => n,
                    None => DEFAULT_INTERVAL,
                };
                if size - i == 2 {
                    proof {
                        reveal_with_fuel(chosen, 2);
                    }
                    i = size;
                } else {
                    i += 2;
                }
            }
        } else {
            i += 1;
        }
    }
    proof {
        reveal_with_fuel(chosen, 2);
    }
    if interval < 1 {
        interval = 1;
    }
    Options { config_path, interval }
}

/// Whether the daemon puts itself on the small CPUs `little`: not where there are none, or only
/// the first CPU.
pub fn binds_itself(little: &str) -> (r: bool)
    ensures
        r == (little@.len() > 0 && little@ != "0"@),
{
    !little.is_empty() && !text::same(little, "0")
}

/// Whether the configuration is to be read again: its file could be asked when it was changed, and
/// that is `changed`, later than `loaded`.
pub fn reload_due(changed: Option<i128>, loaded: i128) -> (r: bool)
    ensures
        r == (changed matches Some(t) && t > loaded),
{
    match changed {
        Some(t) => t > loaded,
        None => false,
    }
}

/// The milliseconds of half a round of `interval` seconds.
pub fn half_round(interval: u64) -> (r: u64)
    requires
        interval * 500 <= u64::MAX,
    ensures
        r == interval * 500,
{
    interval * 500
}

/// How many milliseconds an event is waited for at most in the second half of a round of
/// `interval` seconds: those of half a round, or as many as 31 bits hold where those are fewer.
pub open spec fn timeout_of(interval: int) -> int {
    if interval * 500 <= i32::MAX {
        interval * 500
    } else {
        i32::MAX as int
    }
}

/// How many milliseconds an event is waited for at most in the second half of a round.
pub fn event_timeout(interval: u64) -> (r: i32)
    requires
        interval * 500 <= u64::MAX,
    ensures
        r == timeout_of(interval as int),
{
    let half: u64 = half_round(interval);
    if half <= 0x7fff_ffff {
        half as i32
    } else {
        i32::MAX
    }
}

/// A round takes no more than the seconds that the options say, half of them asleep and at most
/// half of them waiting for an event; and it takes just as many, where half a round has no more
/// milliseconds than 31 bits hold. The wait for an event always ends.
pub proof fn law_round_length(interval: u64)
    ensures
        0 <= timeout_of(interval as int) <= i32::MAX,
        interval * 500 + timeout_of(interval as int) <= 1000 * interval,
        interval * 500 <= i32::MAX ==> interval * 500 + timeout_of(interval as int) == 1000
            * interval,
{
}

/// The first of the processes `seen` with the number `pid`; their number where there is none.
pub open spec fn place_of(seen: Seq<process::ProcessView>, pid: int) -> int
    decreases seen.len(),
{
    if seen.len() == 0 || seen[0].pid == pid {
        0
    } else {
        1 + place_of(seen.drop_first(), pid)
    }
}

/// The processes `seen` with what is now known of the process `p`: it takes the place of the first
/// with its number, or comes last where there is none.
pub open spec fn with_process(
    seen: Seq<process::ProcessView>,
    p: process::ProcessView,
) -> Seq<process::ProcessView> {
    let at = place_of(seen, p.pid);
    if at < seen.len() {
        seen.update(at, p)
    } else {
        seen.push(p)
    }
}

/// What `place_of` says of the positions.
proof fn lemma_place_of(seen: Seq<process::ProcessView>, pid: int, at: int)
    requires
        0 <= at <= seen.len(),
        forall|i: int| 0 <= i < at ==> (#[trigger] seen[i]).pid != pid,
        at < seen.len() ==> seen[at].pid == pid,
    ensures
        place_of(seen, pid) == at,
    decreases seen.len(),
{
    if at > 0 {
        assert(seen[0].pid != pid);
        assert forall|i: int| 0 <= i < at - 1 implies (#[trigger] seen.drop_first()[i]).pid
            != pid by {
            assert(seen.drop_first()[i] == seen[i + 1]);
        }
        lemma_place_of(seen.drop_first(), pid, at - 1);
    }
}

/// Keeps what is now known of a process among the processes `seen`.
pub fn note_process(
    seen: &mut Vec<(i32, String, Vec<(i32, String, CpuSet)>)>,
    entry: (i32, String, Vec<(i32, String, CpuSet)>),
)
    ensures
        process::process_views(final(seen)@) == with_process(
            process::process_views(old(seen)@),
            process::process_view(entry),
        ),
{
    let ghost before = process::process_views(seen@);
    let ghost now = process::process_view(entry);
    let mut i: usize = 0;
    while i < seen.len()
        invariant
            i <= seen@.len(),
            seen@ == old(seen)@,
            before == process::process_views(seen@),
            now == process::process_view(entry),
            forall|j: int| 0 <= j < i ==> (#[trigger] before[j]).pid != now.pid,
        decreases seen@.len() - i,
    {
        assert(before[i as int].pid == seen@[i as int].0);
        if seen[i].0 == entry.0 {
            proof {
                lemma_place_of(before, now.pid, i as int);
            }
            seen.set(i, entry);
            assert(process::process_views(seen@) =~= before.update(i as int, now));
            return;
        }
        i += 1;
    }
    proof {
        lemma_place_of(before, now.pid, i as int);
    }
    seen.push(entry);
    assert(process::process_views(seen@) =~= before.push(now));
}

/// What the daemon counts from round to round.
#[derive(Clone, Copy, Debug, PartialEq, Eq, Structural)]
pub struct Counters {
    /// The rounds before the next pass over the threads.
    pub rounds: i32,
    /// The rounds since the last search for new applications.
    pub since_scan: i32,
    /// The passes since all threads were last put on their CPUs anew.
    pub since_rebind: i32,
}

impl Counters {
    /// The counters are within their bounds.
    pub open spec fn wf(self) -> bool {
        &&& 0 <= self.rounds <= 1
        &&& 0 <= self.since_scan < SCAN_ROUNDS
        &&& 0 <= self.since_rebind < BIND_PASSES
    }

    /// At the start.
    pub fn new() -> (r: Counters)
        ensures
            r == (Counters { rounds: 1, since_scan: 0, since_rebind: 0 }),
            r.wf(),
    {
        Counters { rounds: 1, since_scan: 0, since_rebind: 0 }
    }

    /// A new process was seen: the threads are put on their CPUs at once.
    pub fn hurry(&mut self)
        requires
            old(self).wf(),
        ensures
            *final(self) == (Counters { rounds: 0, ..*old(self) }),
            final(self).wf(),
    {
        self.rounds = 0;
    }

    /// Counts a round. Says whether new applications are to be searched for in it.
    pub fn scan_due(&mut self) -> (r: bool)
        requires
            old(self).wf(),
        ensures
            r == (old(self).since_scan + 1 >= SCAN_ROUNDS),
            *final(self) == (Counters {
                since_scan: next_count(old(self).since_scan as int, SCAN_ROUNDS as int) as i32,
                ..*old(self)
            }),
            final(self).wf(),
    {
        let n: i32 = self.since_scan + 1;
        if n >= SCAN_ROUNDS {
            self.since_scan = 0;
            true
        } else {
            self.since_scan = n;
            false
        }
    }

    /// Says whether a pass over the threads is to be made in this round: it is in every round.
    pub fn bind_due(&mut self) -> (r: bool)
        requires
            old(self).wf(),
        ensures
            r,
            *final(self) == (Counters { rounds: 1, ..*old(self) }),
            final(self).wf(),
    {
        self.rounds = self.rounds - 1;
        if self.rounds < 1 {
            self.rounds = 1;
            true
        } else {
            false
        }
    }

    /// Counts a pass over the threads. Says whether in the next one all threads are put on their
    /// CPUs anew.
    pub fn rebind_due(&mut self) -> (r: bool)
        requires
            old(self).wf(),
        ensures
            r == (old(self).since_rebind + 1 >= BIND_PASSES),
            *final(self) == (Counters {
                since_rebind: next_count(old(self).since_rebind as int, BIND_PASSES as int) as i32,
                ..*old(self)
            }),
            final(self).wf(),
    {
        let n: i32 = self.since_rebind + 1;
        if n >= BIND_PASSES {
            self.since_rebind = 0;
            true
        } else {
            self.since_rebind = n;
            false
        }
    }
}

/// What follows the count `n`, which starts anew at `limit`.
pub open spec fn next_count(n: int, limit: int) -> int {
    if n + 1 >= limit {
        0
    } else {
        n + 1
    }
}

/// The count that starts at 0, after `rounds` rounds.
pub open spec fn count_after(rounds: nat, limit: int) -> int
    decreases rounds,
{
    if rounds == 0 {
        0
    } else {
        next_count(count_after((rounds - 1) as nat, limit), limit)
    }
}

/// A count that starts anew at `limit` does so every `limit` rounds, and at no other time: that is
/// when new applications are searched for, and when threads are put on their CPUs anew.
pub proof fn law_periodic(rounds: nat, limit: int)
    requires
        limit > 0,
    ensures
        count_after(rounds, limit) == rounds as int % limit,
        (count_after(rounds, limit) + 1 >= limit) <==> (rounds as int + 1) % limit == 0,
    decreases rounds,
{
    let n = rounds as int;
    if rounds > 0 {
        law_periodic((rounds - 1) as nat, limit);
        assert((n - 1) % limit + 1 >= limit ==> n % limit == 0 && (n - 1) % limit + 1 == limit)
            by (nonlinear_arith)
            requires
                limit > 0,
        ;
        assert((n - 1) % limit + 1 < limit ==> n % limit == (n - 1) % limit + 1)
            by (nonlinear_arith)
            requires
                limit > 0,
        ;
    } else {
        assert(0int % limit == 0) by (nonlinear_arith)
            requires
                limit > 0,
        ;
    }
    assert(n % limit + 1 >= limit <==> (n + 1) % limit == 0) by (nonlinear_arith)
        requires
            limit > 0,
    ;
}

/// No process is held twice.
pub open spec fn pids_apart(seen: Seq<process::ProcessView>) -> bool {
    forall|i: int, j: int|
        0 <= i < j < seen.len() ==> (#[trigger] seen[i]).pid != (#[trigger] seen[j]).pid
}

/// Noting a process keeps every other one, in its place, and holds no process twice.
pub proof fn law_noting_keeps_others(
    seen: Seq<process::ProcessView>,
    p: process::ProcessView,
)
    ensures
        with_process(seen, p).contains(p),
        pids_apart(seen) ==> pids_apart(with_process(seen, p)),
        forall|i: int|
            0 <= i < seen.len() && (#[trigger] seen[i]).pid != p.pid ==> with_process(seen, p)[i]
                == seen[i],
    decreases seen.len(),
{
    lemma_place_holds(seen, p.pid);
    let at = place_of(seen, p.pid);
    let now = with_process(seen, p);
    if at < seen.len() {
        assert(now[at] == p);
    } else {
        assert(now[seen.len() as int] == p);
    }
}

/// `place_of` gives the first place of the process, or the end.
proof fn lemma_place_holds(seen: Seq<process::ProcessView>, pid: int)
    ensures
        0 <= place_of(seen, pid) <= seen.len(),
        place_of(seen, pid) < seen.len() ==> seen[place_of(seen, pid)].pid == pid,
        forall|i: int| 0 <= i < place_of(seen, pid) ==> (#[trigger] seen[i]).pid != pid,
    decreases seen.len(),
{
    if seen.len() > 0 && seen[0].pid != pid {
        let rest = seen.drop_first();
        lemma_place_holds(rest, pid);
        assert forall|i: int| 0 <= i < place_of(seen, pid) implies (#[trigger] seen[i]).pid
            != pid by {
            if i > 0 {
                assert(rest[i - 1] == seen[i]);
            }
        }
    }
}

/// What the daemon does next in a round.
#[derive(Clone, Copy, Debug, PartialEq, Eq, Structural)]
pub enum Step {
    /// Note the processes that the kernel reports.
    Poll,
    /// Ask when the configuration was changed.
    AskChanged,
    /// Read the configuration again; the old one stays where that fails.
    Reload,
    /// Scan the processes with the new configuration.
    Rescan,
    /// Hand the rules for threads to the kernel.
    Sync,
    /// Merge the rules that were made up for applications into the new configuration.
    Merge,
    /// Forget which threads are on their CPUs, for the new configuration.
    Forget,
    /// Make rules up for the applications without any.
    Adopt,
    /// Merge the rules that were just made up.
    MergeAdopted,
    /// Put the threads on their CPUs.
    Bind,
    /// Forget which threads are on their CPUs, so that all are put there anew.
    ForgetAll,
    /// Sleep for half a round.
    Sleep,
    /// Wait for an event of the kernel for at most half a round.
    AwaitEvent,
}

/// What was seen in a step.
#[derive(Clone, Copy, Debug, PartialEq, Eq, Structural)]
pub enum Seen {
    /// Nothing that the next step depends on.
    Nothing,
    /// Whether a process of the configuration was reported.
    Reported(bool),
    /// When the file of the configuration was changed, if it could be asked, and when the one that
    /// is loaded was.
    Changed(Option<i128>, i128),
    /// Whether the configuration could be read again.
    Loaded(bool),
    /// How many applications without rules there were.
    Adopted(usize),
}

/// The daemon in a round: what it does next, and what it counts.
#[derive(Clone, Copy, Debug, PartialEq, Eq, Structural)]
pub struct Round {
    pub step: Step,
    pub counters: Counters,
    /// Whether programs are loaded into the kernel.
    pub bpf: bool,
    /// Whether events of the kernel can be waited for.
    pub events: bool,
}

/// The counters after a round was counted, in which a new process was `reported` or not.
pub open spec fn counted(c: Counters, reported: bool) -> Counters {
    Counters {
        rounds: if reported {
            0
        } else {
            c.rounds
        },
        since_scan: next_count(c.since_scan as int, SCAN_ROUNDS as int) as i32,
        ..c
    }
}

/// The counters after a pass over the threads.
pub open spec fn passed(c: Counters) -> Counters {
    Counters {
        rounds: 1,
        since_rebind: next_count(c.since_rebind as int, BIND_PASSES as int) as i32,
        ..c
    }
}

/// What follows a step.
pub open spec fn step_after(r: Round, seen: Seen) -> Step {
    match r.step {
        Step::Poll => if r.counters.since_scan + 1 >= SCAN_ROUNDS {
            Step::AskChanged
        } else {
            Step::Bind
        },
        Step::AskChanged => if seen matches Seen::Changed(Some(changed), loaded) && changed > loaded {
            Step::Reload
        } else {
            Step::Adopt
        },
        Step::Reload => if seen == Seen::Loaded(true) {
            Step::Rescan
        } else {
            Step::Adopt
        },
        Step::Rescan => if r.bpf {
            Step::Sync
        } else {
            Step::Merge
        },
        Step::Sync => Step::Merge,
        Step::Merge => Step::Forget,
        Step::Forget => Step::Adopt,
        Step::Adopt => if seen matches Seen::Adopted(n) && n > 0 {
            Step::MergeAdopted
        } else {
            Step::Bind
        },
        Step::MergeAdopted => Step::Bind,
        Step::Bind => if r.counters.since_rebind + 1 >= BIND_PASSES {
            Step::ForgetAll
        } else {
            Step::Sleep
        },
        Step::ForgetAll => Step::Sleep,
        Step::Sleep => if r.events {
            Step::AwaitEvent
        } else {
            Step::Poll
        },
        Step::AwaitEvent => Step::Poll,
    }
}

/// The daemon after a step.
pub open spec fn round_after(r: Round, seen: Seen) -> Round {
    Round {
        step: step_after(r, seen),
        counters: match r.step {
            Step::Poll => counted(r.counters, seen == Seen::Reported(true)),
            Step::Bind => passed(r.counters),
            _ => r.counters,
        },
        ..r
    }
}

impl Round {
    /// The daemon at the start of its first round.
    pub fn new(bpf: bool, events: bool) -> (r: Round)
        ensures
            r.step is Poll,
            r.counters == (Counters { rounds: 1, since_scan: 0, since_rebind: 0 }),
            r.counters.wf(),
            r.bpf == bpf,
            r.events == events,
    {
        Round { step: Step::Poll, counters: Counters::new(), bpf, events }
    }

    /// Goes on after a step, in which `seen` was seen.
    pub fn advance(&mut self, seen: Seen)
        requires
            old(self).counters.wf(),
        ensures
            *final(self) == round_after(*old(self), seen),
            final(self).counters.wf(),
    {
        let mut counters: Counters = self.counters;
        let step: Step = match self.step {
            Step::Poll => {
                if let Seen::Reported(true) = seen {
                    counters.hurry();
                }
                if counters.scan_due() {
                    Step::AskChanged
                } else {
                    Step::Bind
                }
            },
            Step::AskChanged => {
                let due: bool = match seen {
                    Seen::Changed(changed, loaded) => reload_due(changed, loaded),
                    _ => false,
                };
                if due {
                    Step::Reload
                } else {
                    Step::Adopt
                }
            },
            Step::Reload => match seen {
                Seen::Loaded(true) => Step::Rescan,
                _ => Step::Adopt,
            },
            Step::Rescan => if self.bpf {
                Step::Sync
            } else {
                Step::Merge
            },
            Step::Sync => Step::Merge,
            Step::Merge => Step::Forget,
            Step::Forget => Step::Adopt,
            Step::Adopt => {
                let some: bool = match seen {
                    Seen::Adopted(n) => n > 0,
                    _ => false,
                };
                if some {
                    Step::MergeAdopted
                } else {
                    Step::Bind
                }
            },
            Step::MergeAdopted => Step::Bind,
            Step::Bind => {
                let due: bool = counters.bind_due();
                assert(due);
                if counters.rebind_due() {
                    Step::ForgetAll
                } else {
                    Step::Sleep
                }
            },
            Step::ForgetAll => Step::Sleep,
            Step::Sleep => if self.events {
                Step::AwaitEvent
            } else {
                Step::Poll
            },
            Step::AwaitEvent => Step::Poll,
        };
        self.counters = counters;
        self.step = step;
    }
}

/// The place of a step in a round.
pub open spec fn place_in_round(step: Step) -> int {
    match step {
        Step::Poll => 0,
        Step::AskChanged => 1,
        Step::Reload => 2,
        Step::Rescan => 3,
        Step::Sync => 4,
        Step::Merge => 5,
        Step::Forget => 6,
        Step::Adopt => 7,
        Step::MergeAdopted => 8,
        Step::Bind => 9,
        Step::ForgetAll => 10,
        Step::Sleep => 11,
        Step::AwaitEvent => 12,
    }
}

/// In every round the steps come in one order and each at most once, whatever is seen; and no round
/// goes by without putting the threads on their CPUs, nor without sleep.
pub proof fn law_round_order(r: Round, seen: Seen)
    ensures
        ({
            let now = place_in_round(r.step);
            let next = place_in_round(step_after(r, seen));
            &&& next > now || step_after(r, seen) is Poll
            &&& now < place_in_round(Step::Bind) ==> next <= place_in_round(Step::Bind) && next > now
            &&& now < place_in_round(Step::Sleep) ==> next <= place_in_round(Step::Sleep) && next
                > now
        }),
{
}

/// When a changed configuration was read again, the processes are scanned with it, its rules are
/// handed to the kernel where programs are loaded, the rules that were made up are merged into it
/// and what was held of the old one is forgotten, in this order, before new applications are
/// searched for. Where it could not be read, nothing of that is done.
pub proof fn law_reload_order(
    r: Round,
    changed: i128,
    loaded: i128,
    a: Seen,
    b: Seen,
    c: Seen,
    d: Seen,
)
    requires
        r.step is AskChanged,
        changed > loaded,
    ensures
        ({
            let reload = round_after(r, Seen::Changed(Some(changed), loaded));
            let rescan = round_after(reload, Seen::Loaded(true));
            let x = round_after(rescan, a);
            let merge = if r.bpf {
                round_after(x, b)
            } else {
                x
            };
            let forget = round_after(merge, c);
            let adopt = round_after(forget, d);
            &&& reload.step is Reload
            &&& rescan.step is Rescan
            &&& r.bpf ==> x.step is Sync
            &&& merge.step is Merge
            &&& forget.step is Forget
            &&& adopt.step is Adopt
            &&& round_after(reload, Seen::Loaded(false)).step is Adopt
        }),
{
}

} // verus!
