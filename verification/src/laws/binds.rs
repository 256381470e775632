//! How threads are put on their CPUs.

use vstd::prelude::*;

use crate::binding;
use crate::binding::{
    BindAction, BindKey, BindStep, BindView, FsAction, FsView, StepView,
};
use crate::cpuset;
use crate::cpuset::CpuSet;
use crate::numeral;
use crate::process::{ProcessView, ThreadView};
use crate::text;

verus! {

/// The thread with the list of the CPUs that it is to be on.
pub open spec fn wish(t: ThreadView) -> BindKey {
    BindKey { tid: t.tid, cpus: cpuset::range_list(t.mask, 0) }
}

/// The thread is to be put on its CPUs: there are some, it was not seen on them, and it was not
/// put on them before.
pub open spec fn due(bound: Set<BindKey>, t: ThreadView, seen: Option<u64>) -> bool {
    t.mask != 0 && seen != Some(t.mask) && !bound.contains(wish(t))
}

/// A pass over one thread more puts that thread on its CPUs just where it is due, after all that
/// it does for the others. Its directory is made just where no thread before it in the pass has
/// the same CPUs.
pub proof fn law_next_thread(
    bound: Set<BindKey>,
    th: Seq<ThreadView>,
    seen: Seq<Option<u64>>,
    t: ThreadView,
    s: Option<u64>,
)
    requires
        seen.len() == th.len(),
    ensures
        !due(bound, t, s) ==> binding::bind_steps(bound, th.push(t), seen.push(s))
            == binding::bind_steps(bound, th, seen),
        due(bound, t, s) ==> {
            let before = binding::bind_steps(bound, th, seen);
            let after = binding::bind_steps(bound, th.push(t), seen.push(s));
            &&& after.len() == before.len() + 1
            &&& after.drop_last() == before
            &&& after.last().tid == t.tid
            &&& after.last().mask == t.mask
            &&& after.last().list == cpuset::range_list(t.mask, 0)
            &&& after.last().make_dir <==> forall|i: int|
                0 <= i < binding::bind_steps(bound, th, seen).len() ==> (
                #[trigger] binding::bind_steps(bound, th, seen)[i]).list != cpuset::range_list(
                    t.mask,
                    0,
                )
        },
        binding::bind_steps(bound, Seq::empty(), Seq::empty()).len() == 0,
{
    let before = binding::bind_steps(bound, th, seen);
    assert(th.push(t).drop_last() =~= th);
    assert(seen.push(s).take(th.len() as int) =~= seen);
    binding::lemma_lists_of_steps(bound, th, seen, cpuset::range_list(t.mask, 0));
    if due(bound, t, s) {
        assert(binding::bind_steps(bound, th.push(t), seen.push(s)).drop_last() =~= before);
    }
}

/// A pass settles just the threads that have CPUs and were seen on them or are put on them.
pub proof fn law_settled(
    bound: Set<BindKey>,
    th: Seq<ThreadView>,
    seen: Seq<Option<u64>>,
    key: BindKey,
)
    ensures
        binding::settled_keys(bound, th, seen).contains(key) <==> exists|i: int|
            0 <= i < th.len() && wish(#[trigger] th[i]) == key && th[i].mask != 0 && (seen[i]
                == Some(th[i].mask) || !bound.contains(key)),
{
    if exists|i: int|
        0 <= i < th.len() && wish(#[trigger] th[i]) == key && th[i].mask != 0 && (seen[i] == Some(
            th[i].mask,
        ) || !bound.contains(key)) {
        let i = choose|i: int|
            0 <= i < th.len() && wish(#[trigger] th[i]) == key && th[i].mask != 0 && (seen[i]
                == Some(th[i].mask) || !bound.contains(key));
        assert(binding::thread_key(th[i]) == key);
    }
    if binding::settled_keys(bound, th, seen).contains(key) {
        let i = choose|i: int|
            0 <= i < th.len() && (#[trigger] th[i]).mask != 0 && (seen[i] == Some(th[i].mask)
                || binding::to_bind(bound, th[i], seen[i])) && binding::thread_key(th[i]) == key;
        assert(wish(th[i]) == key);
    }
}

/// What became of putting a thread on its CPUs: without an error it is on them, with error 3 it
/// is gone, and any other error is a failure, the first or a further one.
pub proof fn law_outcomes(failed: Set<BindKey>, key: BindKey, code: i32)
    ensures
        binding::outcome(failed, key, None) is Bound,
        binding::outcome(failed, key, Some(Some(3))) is Gone,
        code != 3 && failed.contains(key) ==> binding::outcome(failed, key, Some(Some(code)))
            is FailedAgain,
        code != 3 && !failed.contains(key) ==> binding::outcome(failed, key, Some(Some(code)))
            is Failed,
        failed.contains(key) ==> binding::outcome(failed, key, Some(None)) is FailedAgain,
        !failed.contains(key) ==> binding::outcome(failed, key, Some(None)) is Failed,
{
}

/// A pass over one thread more tells of that thread just where it was due, was refused with
/// another error than 3, and neither an earlier pass nor this one has told of it with the same
/// CPUs.
pub proof fn law_next_failure(
    bound: Set<BindKey>,
    failed: Set<BindKey>,
    th: Seq<ThreadView>,
    seen: Seq<Option<u64>>,
    answers: Seq<Option<Option<i32>>>,
    t: ThreadView,
    s: Option<u64>,
    answer: Option<Option<i32>>,
)
    requires
        seen.len() == th.len(),
        answers.len() == th.len(),
    ensures
        ({
            let before = binding::failures(bound, failed, th, seen, answers);
            let after = binding::failures(
                bound,
                failed,
                th.push(t),
                seen.push(s),
                answers.push(answer),
            );
            if due(bound, t, s) && answer is Some && answer != Some(Some(3i32)) && !failed.contains(
                wish(t),
            ) && !before.contains(wish(t)) {
                after == before.push(wish(t))
            } else {
                after == before
            }
        }),
        binding::failures(bound, failed, Seq::empty(), Seq::empty(), Seq::empty()).len() == 0,
{
    assert(th.push(t).drop_last() =~= th);
    assert(seen.push(s).take(th.len() as int) =~= seen);
    assert(answers.push(answer).take(th.len() as int) =~= answers);
}

/// The threads of processes are those of each of them, one after the other.
pub proof fn law_threads_of_processes(a: Seq<ProcessView>, b: Seq<ProcessView>, one: ProcessView)
    ensures
        binding::all_threads(a + b) == binding::all_threads(a) + binding::all_threads(b),
        binding::all_threads(seq![one]) == one.threads,
    decreases b.len(),
{
    let none = Seq::<ProcessView>::empty();
    assert(seq![one].drop_last() =~= none);
    assert(binding::all_threads(none) =~= Seq::empty());
    assert(binding::all_threads(seq![one]) =~= one.threads);
    if b.len() == 0 {
        assert(a + b =~= a);
        assert(binding::all_threads(a) + binding::all_threads(b) =~= binding::all_threads(a));
    } else {
        law_threads_of_processes(a, b.drop_last(), one);
        assert((a + b).drop_last() =~= a + b.drop_last());
        assert((a + b).last() == b.last());
        assert(binding::all_threads(a + b) =~= binding::all_threads(a) + binding::all_threads(b));
    }
}

/// The directory of the cpuset for a list of CPUs: below the base, named by the list with dots
/// for its commas.
pub open spec fn home(list: Seq<char>) -> Seq<char> {
    "/dev/cpuset/AppOpt/"@ + text::dotted(list)
}

/// Where cpusets and threads have their files, and what is written for a thread.
pub proof fn law_paths(list: Seq<char>, base: Seq<char>, dir: Seq<char>, tid: int)
    ensures
        binding::base_dir() == "/dev/cpuset/AppOpt"@,
        binding::list_dir(list) == home(list),
        binding::tasks_path(base, Seq::empty()) == base + "/tasks"@,
        dir.len() > 0 ==> binding::tasks_path(base, dir) == base + seq!['/'] + dir + "/tasks"@,
        binding::tid_line(tid) == numeral::signed_decimal(tid) + seq!['\n'],
{
    reveal_strlit("/dev/cpuset/AppOpt");
    reveal_strlit("/dev/cpuset/AppOpt/");
    reveal_strlit("/");
    reveal_strlit("\n");
    assert("/"@ =~= seq!['/']);
    assert("\n"@ =~= seq!['\n']);
    assert(binding::list_dir(list) =~= home(list));
}

/// A cpuset is made by making its directory and writing its CPUs and, where the memory nodes are
/// known, these without white space round them.
pub proof fn law_making_a_cpuset(dir: Seq<char>, cpus: Seq<char>, mems: Seq<char>)
    ensures
        binding::cpuset_steps(dir, cpus, None) == seq![
            FsView::MakeDir(dir),
            FsView::Write(dir + "/cpus"@, cpus),
        ],
        binding::cpuset_steps(dir, cpus, Some(mems)) == seq![
            FsView::MakeDir(dir),
            FsView::Write(dir + "/cpus"@, cpus),
            FsView::Write(dir + "/mems"@, text::trimmed(mems)),
        ],
        binding::present_list(Some(cpus)) == text::trimmed(cpus),
        binding::present_list(None) == Seq::<char>::empty(),
{
    assert(binding::cpuset_steps(dir, cpus, Some(mems)) =~= seq![
        FsView::MakeDir(dir),
        FsView::Write(dir + "/cpus"@, cpus),
        FsView::Write(dir + "/mems"@, text::trimmed(mems)),
    ]);
}

/// What is done for one thread: it is put on its CPUs; where cpusets are in use its directory is
/// made, if that is due, and the thread is written into it.
pub proof fn law_steps_for_a_thread(b: BindView, mems: Seq<char>)
    ensures
        binding::action_steps(b, false, None) == seq![StepView::SetAffinity(b.tid, b.mask)],
        binding::action_steps(b, false, Some(mems)) == seq![StepView::SetAffinity(b.tid, b.mask)],
        !b.make_dir ==> binding::action_steps(b, true, Some(mems)) == seq![
            StepView::SetAffinity(b.tid, b.mask),
            StepView::Enter(
                FsView::Write(
                    home(b.list) + "/tasks"@,
                    numeral::signed_decimal(b.tid) + seq!['\n'],
                ),
            ),
        ],
        b.make_dir ==> binding::action_steps(b, true, Some(mems)) == seq![
            StepView::SetAffinity(b.tid, b.mask),
            StepView::Prepare(FsView::MakeDir(home(b.list))),
            StepView::Prepare(FsView::Write(home(b.list) + "/cpus"@, b.list)),
            StepView::Prepare(FsView::Write(home(b.list) + "/mems"@, text::trimmed(mems))),
            StepView::Enter(
                FsView::Write(
                    home(b.list) + "/tasks"@,
                    numeral::signed_decimal(b.tid) + seq!['\n'],
                ),
            ),
        ],
        !b.make_dir ==> binding::action_steps(b, true, None) == binding::action_steps(
            b,
            true,
            Some(mems),
        ),
        b.make_dir ==> binding::action_steps(b, true, None) == binding::action_steps(
            b,
            true,
            Some(mems),
        ).remove(3),
{
    law_paths(b.list, Seq::empty(), Seq::empty(), b.tid);
    law_making_a_cpuset(home(b.list), b.list, mems);
    let all = binding::action_steps(b, true, Some(mems));
    let few = binding::action_steps(b, true, None);
    assert(binding::action_steps(b, false, None) =~= seq![StepView::SetAffinity(b.tid, b.mask)]);
    assert(binding::action_steps(b, false, Some(mems)) =~= seq![
        StepView::SetAffinity(b.tid, b.mask),
    ]);
    if b.make_dir {
        assert(few =~= all.remove(3));
    } else {
        assert(few =~= all);
    }
}

/// What is done for threads is what is done for each of them, in their order.
pub proof fn law_steps_split(
    a: Seq<BindView>,
    b: Seq<BindView>,
    one: BindView,
    cpusets: bool,
    mems: Option<Seq<char>>,
)
    ensures
        binding::all_steps(a + b, cpusets, mems) == binding::all_steps(a, cpusets, mems)
            + binding::all_steps(b, cpusets, mems),
        binding::all_steps(seq![one], cpusets, mems) == binding::action_steps(one, cpusets, mems),
    decreases b.len(),
{
    let none = Seq::<BindView>::empty();
    assert(seq![one].drop_last() =~= none);
    assert(binding::all_steps(none, cpusets, mems) =~= Seq::empty());
    assert(binding::all_steps(seq![one], cpusets, mems) =~= binding::action_steps(
        one,
        cpusets,
        mems,
    ));
    if b.len() == 0 {
        assert(a + b =~= a);
        assert(binding::all_steps(a, cpusets, mems) + binding::all_steps(b, cpusets, mems)
            =~= binding::all_steps(a, cpusets, mems));
    } else {
        law_steps_split(a, b.drop_last(), one, cpusets, mems);
        assert((a + b).drop_last() =~= a + b.drop_last());
        assert((a + b).last() == b.last());
        assert(binding::all_steps(a + b, cpusets, mems) =~= binding::all_steps(a, cpusets, mems)
            + binding::all_steps(b, cpusets, mems));
    }
}

/// What is done, seen and told says what it holds, one for one.
pub proof fn law_bindings_say(
    action: BindAction,
    file: FsAction,
    step: BindStep,
    files: Seq<FsAction>,
    steps: Seq<BindStep>,
    seen: Seq<Option<CpuSet>>,
    told: Seq<(i32, String)>,
    i: int,
)
    ensures
        action@.tid == action.tid && action@.mask == action.cpus.mask && action@.list
            == action.list@ && action@.make_dir == action.make_dir,
        file matches FsAction::MakeDir(p) ==> file@ == FsView::MakeDir(p@),
        file matches FsAction::Write(p, s) ==> file@ == FsView::Write(p@, s@),
        file matches FsAction::Append(p, s) ==> file@ == FsView::Append(p@, s@),
        step matches BindStep::SetAffinity(tid, cpus) ==> step@ == StepView::SetAffinity(
            tid as int,
            cpus.mask,
        ),
        step matches BindStep::Prepare(a) ==> step@ == StepView::Prepare(a@),
        step matches BindStep::Enter(a) ==> step@ == StepView::Enter(a@),
        binding::fs_views(files).len() == files.len(),
        0 <= i < files.len() ==> binding::fs_views(files)[i] == files[i]@,
        binding::step_views(steps).len() == steps.len(),
        0 <= i < steps.len() ==> binding::step_views(steps)[i] == steps[i]@,
        binding::seen_masks(seen).len() == seen.len(),
        0 <= i < seen.len() && seen[i] is None ==> binding::seen_masks(seen)[i] is None,
        0 <= i < seen.len() && seen[i] is Some ==> binding::seen_masks(seen)[i] == Some(
            seen[i]->0.mask,
        ),
        binding::entry_keys(told).len() == told.len(),
        0 <= i < told.len() ==> binding::entry_keys(told)[i].tid == told[i].0
            && binding::entry_keys(told)[i].cpus == told[i].1@,
{
}

/// One thread alone, in a pass of its own: it is put on its CPUs just where it is due.
pub proof fn law_thread_due(bound: Set<BindKey>, t: ThreadView, seen: Option<u64>)
    ensures
        binding::to_bind(bound, t, seen) <==> due(bound, t, seen),
        binding::thread_key(t) == wish(t),
        forall|made: Set<Seq<char>>| #[trigger]
            binding::bind_view(made, t).make_dir <==> !made.contains(cpuset::range_list(t.mask, 0)),
        forall|made: Set<Seq<char>>|
            (#[trigger] binding::bind_view(made, t)).tid == t.tid && binding::bind_view(
                made,
                t,
            ).mask == t.mask && binding::bind_view(made, t).list == cpuset::range_list(t.mask, 0),
{
}

} // verus!
