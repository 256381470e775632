//! Which processes are found, and with which threads.

use vstd::prelude::*;

use crate::bytes;
use crate::bytes::ByteOrder;
use crate::config;
use crate::cpuset;
use crate::laws::placing;
use crate::laws::texts;
use crate::numeral;
use crate::process;
use crate::process::{ProcDir, Snapshot, Task};
use crate::text;

verus! {

/// A file `cmdline` with the text `s` names the process `name`: it is the name, alone or with a
/// NUL and anything after it.
pub open spec fn names(s: Seq<char>, name: Seq<char>) -> bool {
    &&& name.len() > 0
    &&& !name.contains('\0')
    &&& s == name || exists|rest: Seq<char>| s == #[trigger] (name + seq!['\0'] + rest)
}

/// The configuration knows the process `name`: by its name, by the package of which it is a part,
/// or by a pattern.
pub open spec fn known(name: Seq<char>, set: Set<Seq<char>>, wild: Seq<Seq<char>>) -> bool {
    ||| set.contains(name)
    ||| exists|pkg: Seq<char>, part: Seq<char>|
        name == #[trigger] (pkg + seq![':'] + part) && !pkg.contains(':') && set.contains(pkg)
    ||| exists|i: int|
        0 <= i < wild.len() && (placing::says(#[trigger] wild[i], name) || placing::part_of(
            wild[i],
            name,
        ))
}

/// The directory of a thread shows the number `tid` and the name `comm`: the number that the
/// directory is named by, or 0, and the text of its file without white space round it, or
/// nothing.
pub open spec fn shows(t: Task, tid: int, comm: Seq<char>) -> bool {
    &&& numeral::i32_value(t.name@) == Some(tid) || (numeral::i32_value(t.name@) is None && tid
        == 0)
    &&& match t.comm {
        Some(s) => comm == text::trimmed(s@),
        None => comm == Seq::<char>::empty(),
    }
}

/// The name of a process is the front of its command line up to the first NUL, and a process
/// whose command line is missing or begins with a NUL has none.
pub proof fn law_command_line(name: Seq<char>, rest: Seq<char>)
    requires
        !name.contains('\0'),
    ensures
        name.len() > 0 ==> process::cmdline_pkg(Some(name)) == Some(name),
        name.len() > 0 ==> process::cmdline_pkg(Some(name + seq!['\0'] + rest)) == Some(name),
        process::cmdline_pkg(Some(Seq::<char>::empty())) is None,
        process::cmdline_pkg(Some(seq!['\0'] + rest)) is None,
        process::cmdline_pkg(None) is None,
{
    texts::law_pieces(name, '\0', rest);
    texts::law_pieces(Seq::empty(), '\0', rest);
    assert(Seq::<char>::empty() + seq!['\0'] + rest =~= seq!['\0'] + rest);
}

/// A process is configured just where the configuration knows it.
pub proof fn law_configured(name: Seq<char>, set: Set<Seq<char>>, wild: Seq<Seq<char>>)
    ensures
        process::configured(name, set, wild) <==> known(name, set, wild),
{
    assert forall|i: int| 0 <= i < wild.len() implies (process::pkg_pattern(
        #[trigger] wild[i],
        name,
    ) <==> (placing::says(wild[i], name) || placing::part_of(wild[i], name))) by {
        placing::law_process_of_pattern(wild[i], name);
    }
    if name.contains(':') {
        name.index_of_first_ensures(':');
        let n = name.index_of_first(':').unwrap();
        let pkg = name.take(n);
        let part = name.skip(n + 1);
        assert(!pkg.contains(':')) by {
            if pkg.contains(':') {
                let k = choose|k: int| 0 <= k < pkg.len() && pkg[k] == ':';
                assert(name[k] == ':');
            }
        }
        assert(name =~= pkg + seq![':'] + part);
        texts::law_pieces(pkg, ':', part);
        assert(text::head_piece(name, ':') == pkg);
    } else {
        texts::law_pieces(name, ':', Seq::empty());
    }
    assert forall|pkg: Seq<char>, part: Seq<char>|
        name == #[trigger] (pkg + seq![':'] + part) && !pkg.contains(':') implies text::head_piece(
        name,
        ':',
    ) == pkg by {
        texts::law_pieces(pkg, ':', part);
    }
}

/// A process that is looked at is seen just where its number is at least 1000, its command line
/// names it, the configuration knows it, and it has threads. It is seen with all its threads, in
/// their order, each with its number, its name and the CPUs of its rule.
pub proof fn law_process_seen(
    pid: int,
    cmdline: Seq<char>,
    name: Seq<char>,
    tasks: Seq<Task>,
    rules: Seq<config::RuleView>,
    set: Set<Seq<char>>,
    wild: Seq<Seq<char>>,
)
    requires
        names(cmdline, name),
    ensures
        process::seen_process(pid, Some(cmdline), Some(tasks), rules, set, wild) is Some <==> pid
            >= 1000 && known(name, set, wild) && tasks.len() > 0,
        process::seen_process(pid, Some(cmdline), Some(tasks), rules, set, wild) matches Some(p)
            ==> p.pid == pid && p.pkg == name && p.threads.len() == tasks.len() && forall|j: int|
            0 <= j < tasks.len() ==> shows(
                tasks[j],
                (#[trigger] p.threads[j]).tid,
                p.threads[j].comm,
            ) && p.threads[j].mask == process::placement(rules, name, p.threads[j].comm),
{
    law_configured(name, set, wild);
    law_command_line(name, Seq::empty());
    if cmdline != name {
        let rest = choose|rest: Seq<char>| cmdline == #[trigger] (name + seq!['\0'] + rest);
        law_command_line(name, rest);
    }
}

/// A process is a target just where its number is at least 1000, its command line names it and
/// the configuration knows it; the target is its whole name.
pub proof fn law_target(
    pid: int,
    cmdline: Seq<char>,
    name: Seq<char>,
    set: Set<Seq<char>>,
    wild: Seq<Seq<char>>,
)
    requires
        names(cmdline, name),
    ensures
        process::target(pid, Some(cmdline), set, wild) == (if pid >= 1000 && known(
            name,
            set,
            wild,
        ) {
            Some(name)
        } else {
            None
        }),
        process::target(pid, None, set, wild) is None,
        process::target(pid, Some(Seq::<char>::empty()), set, wild) is None,
        process::target(pid, Some(seq!['\0'] + cmdline), set, wild) is None,
{
    law_configured(name, set, wild);
    law_command_line(Seq::empty(), cmdline);
    law_command_line(name, Seq::empty());
    if cmdline != name {
        let rest = choose|rest: Seq<char>| cmdline == #[trigger] (name + seq!['\0'] + rest);
        law_command_line(name, rest);
    }
}

/// What could be read is taken as it is, and what could not be read is missing.
pub proof fn law_read_or_missing(s: String, t: &str, v: Vec<Task>, w: &[Task])
    ensures
        process::opt_view(Some(s)) == Some(s@) && process::opt_view(None) is None,
        process::opt_str(Some(t)) == Some(t@) && process::opt_str(None) is None,
        process::opt_vec(Some(v)) == Some(v@) && process::opt_vec(None) is None,
        process::opt_tasks(Some(w)) == Some(w@) && process::opt_tasks(None) is None,
{
}

/// A process without a command line, or without a directory of threads, is not seen.
pub proof fn law_process_unseen(
    pid: int,
    cmdline: Option<Seq<char>>,
    tasks: Option<Seq<Task>>,
    rules: Seq<config::RuleView>,
    set: Set<Seq<char>>,
    wild: Seq<Seq<char>>,
)
    requires
        cmdline is None || cmdline->0.len() == 0 || cmdline->0[0] == '\0' || tasks is None,
    ensures
        process::seen_process(pid, cmdline, tasks, rules, set, wild) is None,
{
    if cmdline is Some {
        let s = cmdline->0;
        if s.len() == 0 {
            assert(s =~= Seq::empty());
            law_command_line(Seq::empty(), Seq::empty());
        } else if s[0] == '\0' {
            assert(s =~= seq!['\0'] + s.drop_first());
            law_command_line(Seq::empty(), s.drop_first());
        }
    }
}

/// What is seen of two groups of processes, one after the other, is what is seen of each; one
/// process alone is seen or not.
pub proof fn law_scan_splits(
    a: Seq<Snapshot>,
    b: Seq<Snapshot>,
    one: Snapshot,
    rules: Seq<config::RuleView>,
    set: Set<Seq<char>>,
    wild: Seq<Seq<char>>,
)
    ensures
        process::seen_processes(a + b, rules, set, wild) == process::seen_processes(
            a,
            rules,
            set,
            wild,
        ) + process::seen_processes(b, rules, set, wild),
        process::seen_processes(seq![one], rules, set, wild) == (match (one.cmdline, one.tasks) {
            (Some(s), Some(v)) => match process::seen_process(
                one.pid as int,
                Some(s@),
                Some(v@),
                rules,
                set,
                wild,
            ) {
                Some(p) => seq![p],
                None => Seq::empty(),
            },
            _ => Seq::empty(),
        }),
    decreases b.len(),
{
    let none = Seq::<Snapshot>::empty();
    assert(seq![one].drop_last() =~= none);
    assert(process::seen_processes(none, rules, set, wild) =~= Seq::empty());
    if b.len() == 0 {
        assert(a + b =~= a);
    } else {
        law_scan_splits(a, b.drop_last(), one, rules, set, wild);
        assert((a + b).drop_last() =~= a + b.drop_last());
        assert((a + b).last() == b.last());
    }
}

/// Every process that is seen alone is seen among the others.
pub proof fn law_every_process_seen(
    found: Seq<Snapshot>,
    i: int,
    cmdline: Seq<char>,
    tasks: Seq<Task>,
    rules: Seq<config::RuleView>,
    set: Set<Seq<char>>,
    wild: Seq<Seq<char>>,
)
    requires
        0 <= i < found.len(),
        found[i].cmdline matches Some(s) && s@ == cmdline,
        found[i].tasks matches Some(v) && v@ == tasks,
        process::seen_process(found[i].pid as int, Some(cmdline), Some(tasks), rules, set, wild)
            is Some,
    ensures
        process::seen_processes(found, rules, set, wild).contains(
            process::seen_process(
                found[i].pid as int,
                Some(cmdline),
                Some(tasks),
                rules,
                set,
                wild,
            )->0,
        ),
{
    let a = found.take(i);
    let one = found[i];
    let b = found.skip(i + 1);
    law_scan_splits(a, seq![one] + b, one, rules, set, wild);
    law_scan_splits(seq![one], b, one, rules, set, wild);
    assert(found =~= a + (seq![one] + b));
    let x = process::seen_processes(a, rules, set, wild);
    assert(process::seen_processes(found, rules, set, wild)[x.len() as int]
        == process::seen_processes(seq![one], rules, set, wild)[0]);
}

/// A process directory is found as an unknown process just where it is named by a number of at
/// least 1000, its command line names it, the name has a dot and no slash, the configuration has
/// neither the name nor a pattern for it, it runs as an application and it has threads. It is
/// found with all its threads, in their order, each with its number and its name.
pub proof fn law_unknown_found(
    d: ProcDir,
    cmdline: Seq<char>,
    name: Seq<char>,
    status: Seq<char>,
    tasks: Seq<Task>,
    set: Set<Seq<char>>,
    wild: Seq<Seq<char>>,
)
    requires
        d.cmdline matches Some(s) && s@ == cmdline,
        d.status matches Some(s) && s@ == status,
        d.tasks matches Some(v) && v@ == tasks,
        names(cmdline, name),
    ensures
        process::unknown_process(d, set, wild) is Some <==> {
            &&& numeral::i32_value(d.name@) matches Some(pid) && pid >= 1000
            &&& name.contains('.') && !name.contains('/')
            &&& !set.contains(name)
            &&& forall|i: int| 0 <= i < wild.len() ==> !placing::says(#[trigger] wild[i], name)
            &&& process::runs_as_app(status)
            &&& tasks.len() > 0
        },
        process::unknown_process(d, set, wild) matches Some(p) ==> numeral::i32_value(d.name@)
            == Some(p.pid) && p.pkg == name && p.threads.len() == tasks.len() && forall|j: int|
            0 <= j < tasks.len() ==> shows(
                tasks[j],
                (#[trigger] p.threads[j]).tid,
                p.threads[j].comm,
            ),
{
    law_command_line(name, Seq::empty());
    if cmdline != name {
        let rest = choose|rest: Seq<char>| cmdline == #[trigger] (name + seq!['\0'] + rest);
        law_command_line(name, rest);
    }
    assert forall|i: int| 0 <= i < wild.len() implies (config::pattern_matches(
        #[trigger] wild[i],
        name,
    ) <==> placing::says(wild[i], name)) by {
        placing::law_pattern_says(wild[i], name);
    }
}

/// A process directory without a command line, a status or a directory of threads, or with a
/// command line that begins with a NUL, is not found.
pub proof fn law_unknown_not_found(d: ProcDir, set: Set<Seq<char>>, wild: Seq<Seq<char>>)
    requires
        d.cmdline is None || d.status is None || d.tasks is None || d.cmdline->0@.len() == 0
            || d.cmdline->0@[0] == '\0',
    ensures
        process::unknown_process(d, set, wild) is None,
{
    if d.cmdline is Some {
        let s = d.cmdline->0@;
        if s.len() == 0 {
            assert(s =~= Seq::empty());
            law_command_line(Seq::empty(), Seq::empty());
        } else if s[0] == '\0' {
            assert(s =~= seq!['\0'] + s.drop_first());
            law_command_line(Seq::empty(), s.drop_first());
        }
    }
}

/// What is found in two groups of directories, one after the other, is what is found in each; one
/// directory alone is found or not.
pub proof fn law_unknown_splits(
    a: Seq<ProcDir>,
    b: Seq<ProcDir>,
    one: ProcDir,
    set: Set<Seq<char>>,
    wild: Seq<Seq<char>>,
)
    ensures
        process::unknown_processes(a + b, set, wild) == process::unknown_processes(a, set, wild)
            + process::unknown_processes(b, set, wild),
        process::unknown_processes(seq![one], set, wild) == (match process::unknown_process(
            one,
            set,
            wild,
        ) {
            Some(p) => seq![p],
            None => Seq::empty(),
        }),
    decreases b.len(),
{
    let none = Seq::<ProcDir>::empty();
    assert(seq![one].drop_last() =~= none);
    assert(process::unknown_processes(none, set, wild) =~= Seq::empty());
    if b.len() == 0 {
        assert(a + b =~= a);
    } else {
        law_unknown_splits(a, b.drop_last(), one, set, wild);
        assert((a + b).drop_last() =~= a + b.drop_last());
        assert((a + b).last() == b.last());
    }
}

/// Every unknown process that is found alone is found among the others.
pub proof fn law_every_unknown_found(
    found: Seq<ProcDir>,
    i: int,
    set: Set<Seq<char>>,
    wild: Seq<Seq<char>>,
)
    requires
        0 <= i < found.len(),
        process::unknown_process(found[i], set, wild) is Some,
    ensures
        process::unknown_processes(found, set, wild).contains(
            process::unknown_process(found[i], set, wild)->0,
        ),
{
    let a = found.take(i);
    let one = found[i];
    let b = found.skip(i + 1);
    law_unknown_splits(a, seq![one] + b, one, set, wild);
    law_unknown_splits(seq![one], b, one, set, wild);
    assert(found =~= a + (seq![one] + b));
    let x = process::unknown_processes(a, set, wild);
    assert(process::unknown_processes(found, set, wild)[x.len() as int]
        == process::unknown_processes(seq![one], set, wild)[0]);
}

/// The threads of an unknown process are those of its directory, one for one.
pub proof fn law_named_threads(tasks: Seq<Task>, j: int)
    ensures
        process::named_threads(tasks).len() == tasks.len(),
        0 <= j < tasks.len() ==> shows(
            tasks[j],
            process::named_threads(tasks)[j].tid,
            process::named_threads(tasks)[j].comm,
        ),
{
}

/// The user of a process stands in the first line of its status that starts with `Uid:`; lines
/// before it do not count, and without it the process is no application.
pub proof fn law_status_lines(line: Seq<char>, rest: Seq<char>)
    requires
        !line.contains('\n'),
        !"Uid:"@.is_prefix_of(line),
    ensures
        !process::runs_as_app(line),
        process::runs_as_app(line + seq!['\n'] + rest) == process::runs_as_app(rest),
{
    texts::law_pieces(line, '\n', rest);
    let whole = text::pieces(line + seq!['\n'] + rest, '\n');
    assert(whole.drop_first() =~= text::pieces(rest, '\n'));
    assert(seq![line].drop_first() =~= Seq::<Seq<char>>::empty());
    assert(process::uid_line(Seq::<Seq<char>>::empty()) is None);
    assert(process::uid_line(seq![line]) is None);
}

/// A process runs as an application just where the second word of the line with `Uid:` is a number
/// of at least 10000 in 32 bits.
pub proof fn law_application_user(
    more: Seq<char>,
    gap: Seq<char>,
    number: Seq<char>,
    tail: Seq<char>,
    rest: Seq<char>,
)
    requires
        texts::solid(more),
        texts::blank(gap),
        gap.len() > 0,
        texts::solid(number),
        number.len() > 0,
        tail.len() > 0 ==> text::white(tail[0]),
        !gap.contains('\n'),
        !tail.contains('\n'),
    ensures
        process::runs_as_app("Uid:"@ + more + gap + number + tail) <==> (numeral::unsigned_value(
            number,
            4294967295,
        ) matches Some(uid) && uid >= 10000),
        process::runs_as_app("Uid:"@ + more + gap + number + tail + seq!['\n'] + rest) <==> (
        numeral::unsigned_value(number, 4294967295) matches Some(uid) && uid >= 10000),
{
    let key = "Uid:"@ + more;
    let after = gap + number + tail;
    let line = "Uid:"@ + more + gap + number + tail;
    assert(line =~= key + after);
    assert(!after.contains('\n')) by {
        if after.contains('\n') {
            let k = choose|k: int| 0 <= k < after.len() && after[k] == '\n';
            if k < gap.len() {
                assert(gap.contains(gap[k]));
            } else if k < gap.len() + number.len() {
                assert(!text::white(number[k - gap.len()]));
            } else {
                assert(tail.contains(tail[k - gap.len() - number.len()]));
            }
        }
    }
    assert(after[0] == gap[0]);
    lemma_uid_line(more, after, rest);
    texts::law_words(gap, number, tail);
    assert(text::words(line) =~= seq![key] + (seq![number] + text::words(tail)));
    assert(text::words(line)[1] == number);
}

/// A line with `Uid:` and no second word says of no application.
pub proof fn law_no_user(more: Seq<char>, gap: Seq<char>, rest: Seq<char>)
    requires
        texts::solid(more),
        texts::blank(gap),
        !gap.contains('\n'),
    ensures
        !process::runs_as_app("Uid:"@ + more + gap),
        !process::runs_as_app("Uid:"@ + more + gap + seq!['\n'] + rest),
{
    lemma_uid_line(more, gap, rest);
    assert("Uid:"@ + more + gap =~= ("Uid:"@ + more) + gap);
    texts::law_no_words(gap);
    assert(text::words("Uid:"@ + more + gap) =~= seq!["Uid:"@ + more]);
}

/// The line with `Uid:` is found, and its first word goes up to the first white space.
proof fn lemma_uid_line(more: Seq<char>, after: Seq<char>, rest: Seq<char>)
    requires
        texts::solid(more),
        after.len() > 0 ==> text::white(after[0]),
        !after.contains('\n'),
    ensures
        ({
            let line = ("Uid:"@ + more) + after;
            &&& process::uid_line(text::pieces(line, '\n')) == Some(line)
            &&& process::uid_line(text::pieces(line + seq!['\n'] + rest, '\n')) == Some(line)
            &&& text::words(line) == seq!["Uid:"@ + more] + text::words(after)
        }),
{
    reveal_strlit("Uid:");
    let key = "Uid:"@ + more;
    let line = key + after;
    assert forall|i: int| 0 <= i < key.len() implies !text::white(#[trigger] key[i]) by {
        if i < 4 {
            assert(key[i] == "Uid:"@[i]);
        } else {
            assert(key[i] == more[i - 4]);
        }
    }
    assert(!line.contains('\n')) by {
        if line.contains('\n') {
            let k = choose|k: int| 0 <= k < line.len() && line[k] == '\n';
            if k < key.len() {
                assert(!text::white(key[k]));
            } else {
                assert(after.contains(after[k - key.len()]));
            }
        }
    }
    texts::law_pieces(line, '\n', rest);
    assert(line.take(4) =~= "Uid:"@);
    assert("Uid:"@.is_prefix_of(line));
    assert(process::uid_line(seq![line]) == Some(line));
    assert(process::uid_line(seq![line] + text::pieces(rest, '\n')) == Some(line));
    texts::law_words(Seq::empty(), key, after);
    assert(Seq::<char>::empty() + key + after =~= line);
}

/// Of names of directories, those that are signed numbers of 32 bits are numbers of threads, in
/// their order.
pub proof fn law_thread_numbers(a: Seq<Seq<char>>, b: Seq<Seq<char>>, one: Seq<char>)
    ensures
        process::tids_among(a + b) == process::tids_among(a) + process::tids_among(b),
        process::tids_among(seq![one]) == (match numeral::i32_value(one) {
            Some(n) => seq![n],
            None => Seq::empty(),
        }),
    decreases b.len(),
{
    let none = Seq::<Seq<char>>::empty();
    assert(seq![one].drop_last() =~= none);
    assert(process::tids_among(none) =~= Seq::empty());
    if b.len() == 0 {
        assert(a + b =~= a);
    } else {
        law_thread_numbers(a, b.drop_last(), one);
        assert((a + b).drop_last() =~= a + b.drop_last());
        assert((a + b).last() == b.last());
    }
}

/// The directory record at `off` holds the name `name`: it has a number of its own, and the bytes
/// from the nineteenth on are those of the name and a zero within the record.
pub open spec fn record_names(
    buf: Seq<u8>,
    off: int,
    len: int,
    order: ByteOrder,
    name: Seq<u8>,
) -> bool {
    &&& 0 <= off
    &&& bytes::number_at(buf, off + 16, 2, order) == len
    &&& bytes::number_at(buf, off, 8, order) != 0
    &&& off + len <= buf.len()
    &&& 19 + name.len() < len
    &&& !name.contains(0u8)
    &&& buf.subrange(off + 19, off + 20 + name.len()) == name.push(0u8)
}

/// A record of a directory whose name is a number of at least 1000 adds that number to the list,
/// another one adds nothing; the list goes on behind the record.
pub proof fn law_listed_record(
    buf: Seq<u8>,
    n: int,
    off: int,
    len: int,
    order: ByteOrder,
    name: Seq<u8>,
)
    requires
        off < n,
        record_names(buf, off, len, order, name),
    ensures
        process::listed(buf, n, off, order) == (match numeral::i32_value(
            name.map_values(|x: u8| x as char),
        ) {
            Some(pid) => if pid >= 1000 {
                seq![pid]
            } else {
                Seq::empty()
            },
            None => Seq::empty(),
        }) + process::listed(buf, n, off + len, order),
{
    let room = buf.subrange(off + 19, off + len);
    let k = name.len() as int;
    let part = buf.subrange(off + 19, off + 20 + k);
    assert forall|i: int| 0 <= i < k implies room[i] != 0 by {
        assert(room[i] == part[i]);
        assert(part[i] == name[i]);
        assert(name.contains(name[i]));
    }
    assert(room[k] == part[k]);
    lemma_first_zero(room, k);
    assert(room.take(k) =~= name) by {
        assert forall|i: int| 0 <= i < k implies room[i] == name[i] by {
            assert(room[i] == part[i]);
        }
    }
    assert(process::byte_chars(name) =~= name.map_values(|x: u8| x as char));
    let rest = process::listed(buf, n, off + len, order);
    assert(Seq::<int>::empty() + rest =~= rest);
}

/// A record whose bytes from the nineteenth on hold no zero has all of them but the last for its
/// name.
pub proof fn law_listed_unended(
    buf: Seq<u8>,
    n: int,
    off: int,
    len: int,
    order: ByteOrder,
    name: Seq<u8>,
    last: u8,
)
    requires
        0 <= off < n,
        bytes::number_at(buf, off + 16, 2, order) == len,
        bytes::number_at(buf, off, 8, order) != 0,
        off + len <= buf.len(),
        19 + name.len() + 1 == len,
        !name.contains(0u8),
        last != 0,
        buf.subrange(off + 19, off + len) == name.push(last),
    ensures
        process::listed(buf, n, off, order) == (match numeral::i32_value(
            name.map_values(|x: u8| x as char),
        ) {
            Some(pid) => if pid >= 1000 {
                seq![pid]
            } else {
                Seq::empty()
            },
            None => Seq::empty(),
        }) + process::listed(buf, n, off + len, order),
{
    let room = buf.subrange(off + 19, off + len);
    assert forall|i: int| 0 <= i < room.len() implies room[i] != 0 by {
        if i < name.len() {
            assert(room[i] == name[i]);
            assert(name.contains(name[i]));
        }
    }
    lemma_no_zero(room);
    assert(room.drop_last() =~= name);
    assert(process::byte_chars(name) =~= name.map_values(|x: u8| x as char));
    let rest = process::listed(buf, n, off + len, order);
    assert(Seq::<int>::empty() + rest =~= rest);
}

/// Without a zero the first one is at the end.
proof fn lemma_no_zero(b: Seq<u8>)
    requires
        forall|i: int| 0 <= i < b.len() ==> b[i] != 0,
    ensures
        process::first_zero(b) == b.len(),
    decreases b.len(),
{
    if b.len() > 0 {
        let t = b.drop_first();
        assert forall|i: int| 0 <= i < t.len() implies t[i] != 0 by {
            assert(t[i] == b[i + 1]);
        }
        lemma_no_zero(t);
    }
}

/// A record without a number of its own, or too short for a name, is passed over; behind the end
/// there are no records.
pub proof fn law_listed_void(buf: Seq<u8>, n: int, off: int, len: int, order: ByteOrder)
    requires
        bytes::number_at(buf, off + 16, 2, order) == len,
    ensures
        off >= n || len == 0 ==> process::listed(buf, n, off, order) == Seq::<int>::empty(),
        off < n && len > 0 && (len < 19 || bytes::number_at(buf, off, 8, order) == 0)
            ==> process::listed(buf, n, off, order) == process::listed(buf, n, off + len, order),
{
}

/// A buffer of directory records can be walked just where each record before its end is there
/// with its head, says a length that is not 0 and, unless it is passed over, has room for a name
/// and lies within the buffer.
pub proof fn law_walkable(buf: Seq<u8>, n: int, off: int, len: int, order: ByteOrder)
    requires
        bytes::number_at(buf, off + 16, 2, order) == len,
    ensures
        off >= n ==> process::walkable(buf, n, off, order),
        off < n && (off + 18 > buf.len() || len == 0) ==> !process::walkable(buf, n, off, order),
        off < n && off + 18 <= buf.len() && 0 < len < 19 ==> process::walkable(buf, n, off, order)
            == process::walkable(buf, n, off + len, order),
        off < n && off + 18 <= buf.len() && 0 < len && bytes::number_at(buf, off, 8, order) == 0
            ==> process::walkable(buf, n, off, order) == process::walkable(
            buf,
            n,
            off + len,
            order,
        ),
        off < n && len >= 19 && bytes::number_at(buf, off, 8, order) != 0 && (len == 19 || off
            + len > buf.len()) ==> !process::walkable(buf, n, off, order),
        off < n && len >= 20 && off + len <= buf.len() ==> process::walkable(buf, n, off, order)
            == process::walkable(buf, n, off + len, order),
{
}

/// What a list of processes with their threads holds, one for one.
pub proof fn law_process_views(
    v: Seq<(i32, String, Vec<(i32, String, cpuset::CpuSet)>)>,
    i: int,
    j: int,
)
    requires
        0 <= i < v.len(),
    ensures
        process::process_views(v).len() == v.len(),
        process::process_views(v)[i].pid == v[i].0,
        process::process_views(v)[i].pkg == v[i].1@,
        process::process_views(v)[i].threads.len() == v[i].2@.len(),
        0 <= j < v[i].2@.len() ==> {
            let t = process::process_views(v)[i].threads[j];
            t.tid == v[i].2@[j].0 && t.comm == v[i].2@[j].1@ && t.mask == v[i].2@[j].2.mask
        },
{
}

/// What a list of unknown processes with their threads holds, one for one.
pub proof fn law_unknown_views(v: Seq<(i32, String, Vec<(i32, String)>)>, i: int, j: int)
    requires
        0 <= i < v.len(),
    ensures
        process::unknown_views(v).len() == v.len(),
        process::unknown_views(v)[i].pid == v[i].0,
        process::unknown_views(v)[i].pkg == v[i].1@,
        process::unknown_views(v)[i].threads.len() == v[i].2@.len(),
        0 <= j < v[i].2@.len() ==> {
            let t = process::unknown_views(v)[i].threads[j];
            t.tid == v[i].2@[j].0 && t.comm == v[i].2@[j].1@
        },
{
}

/// Where the first zero is.
proof fn lemma_first_zero(b: Seq<u8>, k: int)
    requires
        0 <= k < b.len(),
        b[k] == 0,
        forall|i: int| 0 <= i < k ==> b[i] != 0,
    ensures
        process::first_zero(b) == k,
    decreases k,
{
    if k > 0 {
        let t = b.drop_first();
        assert forall|i: int| 0 <= i < k - 1 implies t[i] != 0 by {
            assert(t[i] == b[i + 1]);
        }
        lemma_first_zero(t, k - 1);
    }
}

} // verus!
