//! How the daemon is told what to do, and how its rounds go.

use vstd::prelude::*;

use crate::numeral;
use crate::process::ProcessView;
use crate::runner;
use crate::runner::{Counters, Options, OptionsView, Round, Seen};

verus! {

/// Without arguments, with the name of the program alone, or with an option at the end that lacks
/// its value, the configuration is that of the device and a round takes two seconds.
pub proof fn law_default_options(prog: Seq<char>)
    ensures
        ({
            let o = runner::options_of(Seq::empty());
            o.config_path == "/sdcard/Android/Aether/threads.json"@ && o.interval == 2
        }),
        runner::options_of(seq![prog]) == runner::options_of(Seq::empty()),
        runner::options_of(seq![prog, "-c"@]) == runner::options_of(Seq::empty()),
        runner::options_of(seq![prog, "-s"@]) == runner::options_of(Seq::empty()),
{
}

/// An argument that is no option changes nothing.
pub proof fn law_other_argument(prog: Seq<char>, x: Seq<char>, rest: Seq<Seq<char>>)
    requires
        x != "-c"@,
        x != "-s"@,
    ensures
        runner::options_of(seq![prog, x] + rest) == runner::options_of(seq![prog] + rest),
{
    let o = lemma_start();
    lemma_chosen_behind(seq![prog, x], rest, 0, o);
    lemma_chosen_behind(seq![prog], rest, 0, o);
    let all = seq![prog, x] + rest;
    assert(all[1] == x);
    assert(runner::chosen(all, 1, o) == runner::chosen(all, 2, o));
}

/// `-c` gives the path of the configuration, whatever the arguments after it say of the seconds,
/// and leaves these. A later `-c` with a path takes the place of an earlier one.
pub proof fn law_path_argument(
    prog: Seq<char>,
    path: Seq<char>,
    other: Seq<char>,
    rest: Seq<Seq<char>>,
)
    ensures
        !rest.contains("-c"@) ==> runner::options_of(
            seq![prog, "-c"@, path] + rest,
        ).config_path == path,
        runner::options_of(seq![prog, "-c"@, path] + rest).interval == runner::options_of(
            seq![prog] + rest,
        ).interval,
        runner::options_of(seq![prog, "-c"@, path, "-c"@, other] + rest) == runner::options_of(
            seq![prog, "-c"@, other] + rest,
        ),
        runner::options_of(seq![prog, "-c"@, path, "-c"@]) == runner::options_of(
            seq![prog, "-c"@, path],
        ),
{
    let end = seq![prog, "-c"@, path, "-c"@];
    let cut = seq![prog, "-c"@, path];
    assert(runner::options_of(end) == runner::options_of(cut)) by {
        let o = lemma_start();
        let p = OptionsView { config_path: path, ..o };
        assert(end[1] == "-c"@ && end[2] == path && end[3] == "-c"@);
        assert(cut[1] == "-c"@ && cut[2] == path);
        assert(runner::chosen(end, 1, o) == runner::chosen(end, 3, p));
        assert(runner::chosen(end, 3, p) == p);
        assert(runner::chosen(cut, 1, o) == runner::chosen(cut, 3, p));
        assert(runner::chosen(cut, 3, p) == p);
    }
    let o = lemma_start();
    let p = OptionsView { config_path: path, ..o };
    let q = OptionsView { config_path: other, ..o };
    let all = seq![prog, "-c"@, path] + rest;
    lemma_chosen_behind(seq![prog, "-c"@, path], rest, 0, p);
    lemma_chosen_behind(seq![prog], rest, 0, o);
    assert(all[1] == "-c"@ && all[2] == path);
    assert(runner::chosen(all, 1, o) == runner::chosen(rest, 0, p));
    lemma_chosen_apart(rest, 0, o, p);
    lemma_path_stays(rest, 0, p);
    let long = seq![prog, "-c"@, path, "-c"@, other] + rest;
    lemma_chosen_behind(seq![prog, "-c"@, path, "-c"@, other], rest, 0, q);
    assert(long[1] == "-c"@ && long[2] == path && long[3] == "-c"@ && long[4] == other);
    assert(runner::chosen(long, 1, o) == runner::chosen(long, 3, p));
    assert(runner::chosen(long, 3, p) == runner::chosen(long, 5, q));
    let short = seq![prog, "-c"@, other] + rest;
    lemma_chosen_behind(seq![prog, "-c"@, other], rest, 0, q);
    assert(short[1] == "-c"@ && short[2] == other);
    assert(runner::chosen(short, 1, o) == runner::chosen(short, 3, q));
}

/// `-s` gives the seconds of a round, one at least and two where it gives no number, whatever the
/// arguments after it say of the configuration, and leaves that. A later `-s` with a value
/// takes the place of an earlier one.
pub proof fn law_seconds_argument(
    prog: Seq<char>,
    secs: Seq<char>,
    other: Seq<char>,
    rest: Seq<Seq<char>>,
)
    ensures
        !rest.contains("-s"@) ==> runner::options_of(seq![prog, "-s"@, secs] + rest).interval == (
        match numeral::unsigned_value(secs, 18446744073709551615) {
            Some(n) => if n == 0 {
                1
            } else {
                n
            },
            None => 2,
        }),
        runner::options_of(seq![prog, "-s"@, secs] + rest).config_path == runner::options_of(
            seq![prog] + rest,
        ).config_path,
        runner::options_of(seq![prog, "-s"@, secs, "-s"@, other] + rest) == runner::options_of(
            seq![prog, "-s"@, other] + rest,
        ),
        runner::options_of(seq![prog, "-s"@, secs, "-s"@]) == runner::options_of(
            seq![prog, "-s"@, secs],
        ),
{
    reveal_strlit("-c");
    reveal_strlit("-s");
    assert("-c"@[1] == 'c' && "-s"@[1] == 's');
    let end = seq![prog, "-s"@, secs, "-s"@];
    let cut = seq![prog, "-s"@, secs];
    assert(runner::options_of(end) == runner::options_of(cut)) by {
        let o = lemma_start();
        let p = OptionsView { interval: runner::interval_in(secs), ..o };
        assert(end[1] == "-s"@ && end[2] == secs && end[3] == "-s"@);
        assert(cut[1] == "-s"@ && cut[2] == secs);
        assert(runner::chosen(end, 1, o) == runner::chosen(end, 3, p));
        assert(runner::chosen(end, 3, p) == p);
        assert(runner::chosen(cut, 1, o) == runner::chosen(cut, 3, p));
        assert(runner::chosen(cut, 3, p) == p);
    }
    let o = lemma_start();
    let p = OptionsView { interval: runner::interval_in(secs), ..o };
    let q = OptionsView { interval: runner::interval_in(other), ..o };
    let all = seq![prog, "-s"@, secs] + rest;
    lemma_chosen_behind(seq![prog, "-s"@, secs], rest, 0, p);
    lemma_chosen_behind(seq![prog], rest, 0, o);
    assert(all[1] == "-s"@ && all[2] == secs);
    assert(runner::chosen(all, 1, o) == runner::chosen(rest, 0, p));
    lemma_chosen_apart(rest, 0, o, p);
    lemma_seconds_stay(rest, 0, p);
    lemma_interval_in(secs);
    let long = seq![prog, "-s"@, secs, "-s"@, other] + rest;
    lemma_chosen_behind(seq![prog, "-s"@, secs, "-s"@, other], rest, 0, q);
    assert(long[1] == "-s"@ && long[2] == secs && long[3] == "-s"@ && long[4] == other);
    assert(runner::chosen(long, 1, o) == runner::chosen(long, 3, p));
    assert(runner::chosen(long, 3, p) == runner::chosen(long, 5, q));
    let short = seq![prog, "-s"@, other] + rest;
    lemma_chosen_behind(seq![prog, "-s"@, other], rest, 0, q);
    assert(short[1] == "-s"@ && short[2] == other);
    assert(runner::chosen(short, 1, o) == runner::chosen(short, 3, q));
}

/// It does not matter whether `-c` with its path stands before or after `-s` with its seconds, or
/// before or after an argument that is no option.
pub proof fn law_order_of_options(
    prog: Seq<char>,
    path: Seq<char>,
    secs: Seq<char>,
    x: Seq<char>,
    rest: Seq<Seq<char>>,
)
    requires
        x != "-c"@,
        x != "-s"@,
    ensures
        runner::options_of(seq![prog, "-c"@, path, "-s"@, secs] + rest) == runner::options_of(
            seq![prog, "-s"@, secs, "-c"@, path] + rest,
        ),
        runner::options_of(seq![prog, "-c"@, path, x] + rest) == runner::options_of(
            seq![prog, "-c"@, path] + rest,
        ),
        runner::options_of(seq![prog, "-s"@, secs, x] + rest) == runner::options_of(
            seq![prog, "-s"@, secs] + rest,
        ),
{
    reveal_strlit("-c");
    reveal_strlit("-s");
    assert("-c"@[1] == 'c' && "-s"@[1] == 's');
    let o = lemma_start();
    let p = OptionsView { config_path: path, ..o };
    let s = OptionsView { interval: runner::interval_in(secs), ..o };
    let both = OptionsView { config_path: path, interval: runner::interval_in(secs) };
    let a = seq![prog, "-c"@, path, "-s"@, secs] + rest;
    let b = seq![prog, "-s"@, secs, "-c"@, path] + rest;
    lemma_chosen_behind(seq![prog, "-c"@, path, "-s"@, secs], rest, 0, both);
    lemma_chosen_behind(seq![prog, "-s"@, secs, "-c"@, path], rest, 0, both);
    assert(a[1] == "-c"@ && a[2] == path && a[3] == "-s"@ && a[4] == secs);
    assert(b[1] == "-s"@ && b[2] == secs && b[3] == "-c"@ && b[4] == path);
    assert(runner::chosen(a, 1, o) == runner::chosen(a, 3, p));
    assert(runner::chosen(a, 3, p) == runner::chosen(a, 5, both));
    assert(runner::chosen(b, 1, o) == runner::chosen(b, 3, s));
    assert(runner::chosen(b, 3, s) == runner::chosen(b, 5, both));
    let c = seq![prog, "-c"@, path, x] + rest;
    let d = seq![prog, "-c"@, path] + rest;
    lemma_chosen_behind(seq![prog, "-c"@, path, x], rest, 0, p);
    lemma_chosen_behind(seq![prog, "-c"@, path], rest, 0, p);
    assert(c[1] == "-c"@ && c[2] == path && c[3] == x);
    assert(d[1] == "-c"@ && d[2] == path);
    assert(runner::chosen(c, 1, o) == runner::chosen(c, 3, p));
    assert(runner::chosen(c, 3, p) == runner::chosen(c, 4, p));
    assert(runner::chosen(d, 1, o) == runner::chosen(d, 3, p));
    let e = seq![prog, "-s"@, secs, x] + rest;
    let f = seq![prog, "-s"@, secs] + rest;
    lemma_chosen_behind(seq![prog, "-s"@, secs, x], rest, 0, s);
    lemma_chosen_behind(seq![prog, "-s"@, secs], rest, 0, s);
    assert(e[1] == "-s"@ && e[2] == secs && e[3] == x);
    assert(f[1] == "-s"@ && f[2] == secs);
    assert(runner::chosen(e, 1, o) == runner::chosen(e, 3, s));
    assert(runner::chosen(e, 3, s) == runner::chosen(e, 4, s));
    assert(runner::chosen(f, 1, o) == runner::chosen(f, 3, s));
}

/// The options before any argument is read.
proof fn lemma_start() -> (o: OptionsView)
    ensures
        o.config_path == "/sdcard/Android/Aether/threads.json"@,
        o.interval == 2,
{
    OptionsView { config_path: "/sdcard/Android/Aether/threads.json"@, interval: 2 }
}

/// The seconds in a text are not negative.
proof fn lemma_interval_in(s: Seq<char>)
    ensures
        runner::interval_in(s) >= 0,
{
    let body = if s.len() > 0 && s[0] == '+' {
        s.drop_first()
    } else {
        s
    };
    if numeral::digits(body) {
        lemma_value(body);
    }
}

/// Digits stand for a number that is not negative.
proof fn lemma_value(s: Seq<char>)
    requires
        forall|i: int| 0 <= i < s.len() ==> numeral::digit(#[trigger] s[i]),
    ensures
        numeral::value_of(s) >= 0,
    decreases s.len(),
{
    if s.len() > 0 {
        assert(numeral::digit(s[s.len() - 1]));
        lemma_value(s.drop_last());
    }
}

/// What arguments choose does not depend on those before them.
proof fn lemma_chosen_behind(a: Seq<Seq<char>>, b: Seq<Seq<char>>, i: int, o: OptionsView)
    requires
        0 <= i,
    ensures
        runner::chosen(a + b, a.len() + i, o) == runner::chosen(b, i, o),
    decreases
            (if i < b.len() {
                b.len() - i
            } else {
                0
            }),
{
    let all = a + b;
    if i < b.len() {
        assert(all[a.len() + i] == b[i]);
        if i + 1 < b.len() {
            assert(all[a.len() + i + 1] == b[i + 1]);
            lemma_chosen_behind(a, b, i + 2, OptionsView { config_path: b[i + 1], ..o });
            lemma_chosen_behind(
                a,
                b,
                i + 2,
                OptionsView { interval: runner::interval_in(b[i + 1]), ..o },
            );
        }
        lemma_chosen_behind(a, b, i + 1, o);
    }
}

/// What arguments choose of the one option does not depend on what the other is.
proof fn lemma_chosen_apart(args: Seq<Seq<char>>, i: int, o: OptionsView, p: OptionsView)
    requires
        0 <= i,
    ensures
        o.interval == p.interval ==> runner::chosen(args, i, o).interval == runner::chosen(
            args,
            i,
            p,
        ).interval,
        o.config_path == p.config_path ==> runner::chosen(args, i, o).config_path
            == runner::chosen(args, i, p).config_path,
    decreases
            (if i < args.len() {
                args.len() - i
            } else {
                0
            }),
{
    if i < args.len() {
        if i + 1 < args.len() {
            lemma_chosen_apart(
                args,
                i + 2,
                OptionsView { config_path: args[i + 1], ..o },
                OptionsView { config_path: args[i + 1], ..p },
            );
            lemma_chosen_apart(
                args,
                i + 2,
                OptionsView { interval: runner::interval_in(args[i + 1]), ..o },
                OptionsView { interval: runner::interval_in(args[i + 1]), ..p },
            );
        }
        lemma_chosen_apart(args, i + 1, o, p);
    }
}

/// Without `-c` the path stays.
proof fn lemma_path_stays(args: Seq<Seq<char>>, i: int, o: OptionsView)
    requires
        0 <= i,
    ensures
        !args.contains("-c"@) ==> runner::chosen(args, i, o).config_path == o.config_path,
    decreases
            (if i < args.len() {
                args.len() - i
            } else {
                0
            }),
{
    if i < args.len() {
        assert(args.contains(args[i]));
        if i + 1 < args.len() {
            lemma_path_stays(
                args,
                i + 2,
                OptionsView { interval: runner::interval_in(args[i + 1]), ..o },
            );
        }
        lemma_path_stays(args, i + 1, o);
    }
}

/// Without `-s` the seconds stay.
proof fn lemma_seconds_stay(args: Seq<Seq<char>>, i: int, o: OptionsView)
    requires
        0 <= i,
    ensures
        !args.contains("-s"@) ==> runner::chosen(args, i, o).interval == o.interval,
    decreases
            (if i < args.len() {
                args.len() - i
            } else {
                0
            }),
{
    if i < args.len() {
        assert(args.contains(args[i]));
        if i + 1 < args.len() {
            lemma_seconds_stay(args, i + 2, OptionsView { config_path: args[i + 1], ..o });
        }
        lemma_seconds_stay(args, i + 1, o);
    }
}

/// Options say what they hold.
pub proof fn law_options_say(o: Options)
    ensures
        o@.config_path == o.config_path@,
        o@.interval == o.interval,
{
}

/// A process that is noted takes the place of the first with its number, and comes last where
/// none has it.
pub proof fn law_noted_in_place(seen: Seq<ProcessView>, p: ProcessView, i: int)
    requires
        0 <= i <= seen.len(),
        forall|j: int| 0 <= j < i ==> (#[trigger] seen[j]).pid != p.pid,
    ensures
        i < seen.len() && seen[i].pid == p.pid ==> runner::with_process(seen, p) == seen.update(
            i,
            p,
        ),
        i == seen.len() ==> runner::with_process(seen, p) == seen.push(p),
{
    if i == seen.len() || seen[i].pid == p.pid {
        lemma_place(seen, p.pid, i);
    }
}

/// Where the first process with a number is.
proof fn lemma_place(seen: Seq<ProcessView>, pid: int, i: int)
    requires
        0 <= i <= seen.len(),
        forall|j: int| 0 <= j < i ==> (#[trigger] seen[j]).pid != pid,
        i < seen.len() ==> seen[i].pid == pid,
    ensures
        runner::place_of(seen, pid) == i,
    decreases seen.len(),
{
    if i > 0 {
        assert(seen[0].pid != pid);
        let rest = seen.drop_first();
        assert forall|j: int| 0 <= j < i - 1 implies (#[trigger] rest[j]).pid != pid by {
            assert(rest[j] == seen[j + 1]);
        }
        lemma_place(rest, pid, i - 1);
    }
}

/// An event is waited for 500 milliseconds for each second of a round, but no longer than 31 bits
/// hold.
pub proof fn law_waiting(interval: nat)
    ensures
        500 * interval <= 2147483647 ==> runner::timeout_of(interval as int) == 500 * interval,
        500 * interval > 2147483647 ==> runner::timeout_of(interval as int) == 2147483647,
{
}

/// Every round counts one of the 30 after which the configuration is asked for and applications
/// are searched for, and then the count begins anew; in the other rounds the threads are put on
/// their CPUs at once. A report lets the next pass come at once.
pub proof fn law_round_counted(r: Round, seen: Seen)
    requires
        r.step is Poll,
        r.counters.wf(),
    ensures
        ({
            let next = runner::round_after(r, seen);
            let n = r.counters.since_scan;
            &&& 0 <= n < 30
            &&& n == 29 ==> next.step is AskChanged && next.counters.since_scan == 0
            &&& n < 29 ==> next.step is Bind && next.counters.since_scan == n + 1
            &&& next.counters.since_rebind == r.counters.since_rebind
            &&& seen == Seen::Reported(true) ==> next.counters.rounds == 0
            &&& seen != Seen::Reported(true) ==> next.counters.rounds == r.counters.rounds
        }),
{
}

/// Every pass over the threads counts one of the 30 after which all of them are put on their CPUs
/// anew, and then the count begins anew.
pub proof fn law_pass_counted(r: Round, seen: Seen)
    requires
        r.step is Bind,
        r.counters.wf(),
    ensures
        ({
            let next = runner::round_after(r, seen);
            let n = r.counters.since_rebind;
            &&& 0 <= n < 30
            &&& n == 29 ==> next.step is ForgetAll && next.counters.since_rebind == 0
            &&& n < 29 ==> next.step is Sleep && next.counters.since_rebind == n + 1
            &&& next.counters.since_scan == r.counters.since_scan
            &&& next.counters.rounds == 1
        }),
{
}

/// The other steps count nothing, and no step changes what is loaded into the kernel.
pub proof fn law_steps_count_nothing(r: Round, seen: Seen)
    ensures
        !(r.step is Poll) && !(r.step is Bind) ==> runner::round_after(r, seen).counters
            == r.counters,
        runner::round_after(r, seen).bpf == r.bpf,
        runner::round_after(r, seen).events == r.events,
{
}

/// The configuration is read again just where it was changed after it was loaded.
pub proof fn law_reload_where_changed(r: Round, changed: i128, loaded: i128, seen: Seen)
    requires
        r.step is AskChanged,
    ensures
        changed > loaded ==> runner::round_after(
            r,
            Seen::Changed(Some(changed), loaded),
        ).step is Reload,
        changed <= loaded ==> runner::round_after(
            r,
            Seen::Changed(Some(changed), loaded),
        ).step is Adopt,
        runner::round_after(r, Seen::Changed(None, loaded)).step is Adopt,
        !(seen is Changed) ==> runner::round_after(r, seen).step is Adopt,
{
}

/// From a search for applications a round goes on, with what was found merged where there was
/// anything, to the pass over the threads, to sleep, to an event where those can be waited for,
/// and to the next round.
pub proof fn law_rest_of_round(r: Round, found: usize, a: Seen)
    ensures
        r.step is Adopt && found > 0 ==> runner::round_after(
            r,
            Seen::Adopted(found),
        ).step is MergeAdopted,
        r.step is Adopt ==> runner::round_after(r, Seen::Adopted(0)).step is Bind,
        r.step is Adopt && !(a is Adopted) ==> runner::round_after(r, a).step is Bind,
        r.step is MergeAdopted ==> runner::round_after(r, a).step is Bind,
        r.step is ForgetAll ==> runner::round_after(r, a).step is Sleep,
        r.step is Sleep && r.events ==> runner::round_after(r, a).step is AwaitEvent,
        r.step is Sleep && !r.events ==> runner::round_after(r, a).step is Poll,
        r.step is AwaitEvent ==> runner::round_after(r, a).step is Poll,
{
}

/// Counters that go round after 30 are within their bounds, and stay there.
pub proof fn law_counters(c: Counters, reported: bool)
    ensures
        c.wf() <==> 0 <= c.rounds <= 1 && 0 <= c.since_scan < 30 && 0 <= c.since_rebind < 30,
        c.wf() ==> runner::counted(c, reported).wf() && runner::passed(c).wf(),
{
}

/// Where the configuration was read again the processes are scanned with it, its rules go to the
/// kernel if programs are loaded there, the rules that were made up are merged, and what was held
/// is forgotten. Where it could not be read the search for applications comes next.
pub proof fn law_reload_steps(r: Round, a: Seen)
    ensures
        r.step is Reload && a == Seen::Loaded(true) ==> runner::round_after(r, a).step is Rescan,
        r.step is Reload && a != Seen::Loaded(true) ==> runner::round_after(r, a).step is Adopt,
        r.step is Rescan && r.bpf ==> runner::round_after(r, a).step is Sync,
        r.step is Rescan && !r.bpf ==> runner::round_after(r, a).step is Merge,
        r.step is Sync ==> runner::round_after(r, a).step is Merge,
        r.step is Merge ==> runner::round_after(r, a).step is Forget,
        r.step is Forget ==> runner::round_after(r, a).step is Adopt,
{
}

} // verus!
