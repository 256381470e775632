//! Putting threads on their CPUs: what is left to do for each thread, which files of the cpuset
//! file system are written for it, and what is said of a failure.

use vstd::hash_set::StringHashSet;
use vstd::prelude::*;

use crate::cpuset;
use crate::cpuset::{CpuSet, CpuTopology};
use crate::numeral;
use crate::process;
use crate::text;

verus! {

/// A thread together with the list of the CPUs that it is put on.
pub struct BindKey {
    pub tid: int,
    pub cpus: Seq<char>,
}

/// The key of a stored entry.
pub open spec fn entry_key(e: (i32, String)) -> BindKey {
    BindKey { tid: e.0 as int, cpus: e.1@ }
}

/// A set of threads, each with the list of the CPUs that it is put on. None is held twice.
pub struct BoundSet {
    entries: Vec<(i32, String)>,
}

impl View for BoundSet {
    type V = Set<BindKey>;

    closed spec fn view(&self) -> Set<BindKey> {
        Set::new(
            |k: BindKey|
                exists|i: int|
                    0 <= i < self.entries@.len() && entry_key(#[trigger] self.entries@[i]) == k,
        )
    }
}

impl BoundSet {
    #[verifier::type_invariant]
    spec fn held_once(self) -> bool {
        forall|i: int, j: int|
            0 <= i < j < self.entries@.len() ==> entry_key(#[trigger] self.entries@[i])
                != entry_key(#[trigger] self.entries@[j])
    }

    /// The empty set.
    pub fn new() -> (r: BoundSet)
        ensures
            r@ == Set::<BindKey>::empty(),
    {
        let r = BoundSet { entries: Vec::new() };
        assert(r@ =~= Set::<BindKey>::empty());
        r
    }

    /// Whether the set holds the thread `tid` with the list `cpus`.
    pub fn contains(&self, tid: i32, cpus: &str) -> (r: bool)
        ensures
            r == self@.contains(BindKey { tid: tid as int, cpus: cpus@ }),
    {
        let ghost key = BindKey { tid: tid as int, cpus: cpus@ };
        let mut i: usize = 0;
        while i < self.entries.len()
            invariant
                i <= self.entries@.len(),
                key == (BindKey { tid: tid as int, cpus: cpus@ }),
                forall|j: int| 0 <= j < i ==> entry_key(#[trigger] self.entries@[j]) != key,
            decreases self.entries@.len() - i,
        {
            if self.entries[i].0 == tid && text::same(self.entries[i].1.as_str(), cpus) {
                assert(entry_key(self.entries@[i as int]) == key);
                return true;
            }
            i += 1;
        }
        false
    }

    /// Adds the thread `tid` with the list `cpus`. Says whether the set did not hold it before.
    pub fn insert(&mut self, tid: i32, cpus: String) -> (r: bool)
        ensures
            final(self)@ == old(self)@.insert(BindKey { tid: tid as int, cpus: cpus@ }),
            r == !old(self)@.contains(BindKey { tid: tid as int, cpus: cpus@ }),
    {
        let ghost key = BindKey { tid: tid as int, cpus: cpus@ };
        let ghost before = self@;
        if self.contains(tid, cpus.as_str()) {
            assert(self@ =~= before.insert(key));
            return false;
        }
        proof {
            use_type_invariant(&*self);
        }
        let ghost had = self.entries@;
        let mut entries: Vec<(i32, String)> = Vec::new();
        std::mem::swap(&mut entries, &mut self.entries);
        entries.push((tid, cpus));
        proof {
            assert(entries@ =~= had.push((tid, cpus)));
            assert forall|i: int, j: int| 0 <= i < j < entries@.len() implies entry_key(
                #[trigger] entries@[i],
            ) != entry_key(#[trigger] entries@[j]) by {
                assert(entries@[i] == had[i]);
                if j < had.len() {
                    assert(entries@[j] == had[j]);
                } else {
                    assert(!before.contains(key));
                }
            }
        }
        self.entries = entries;
        proof {
            assert forall|k: BindKey| #[trigger] self@.contains(k) <==> before.insert(
                key,
            ).contains(k) by {
                if before.contains(k) {
                    let i = choose|i: int|
                        0 <= i < had.len() && entry_key(#[trigger] had[i]) == k;
                    assert(entry_key(self.entries@[i]) == k);
                }
                if k == key {
                    assert(entry_key(self.entries@[had.len() as int]) == k);
                }
                if self@.contains(k) {
                    let i = choose|i: int|
                        0 <= i < self.entries@.len() && entry_key(#[trigger] self.entries@[i]) == k;
                    if i < had.len() {
                        assert(entry_key(had[i]) == k);
                    }
                }
            }
            assert(self@ =~= before.insert(key));
        }
        true
    }

    /// Empties the set.
    pub fn clear(&mut self)
        ensures
            final(self)@ == Set::<BindKey>::empty(),
    {
        let entries: Vec<(i32, String)> = Vec::new();
        self.entries = entries;
        assert(self@ =~= Set::<BindKey>::empty());
    }

    /// Adds all of `other`.
    pub fn extend(&mut self, other: BoundSet)
        ensures
            final(self)@ == old(self)@.union(other@),
    {
        let ghost before = self@;
        let ghost all = other.entries@;
        let mut rest: Vec<(i32, String)> = other.entries;
        while rest.len() > 0
            invariant
                rest@.len() <= all.len(),
                rest@ == all.take(rest@.len() as int),
                forall|k: BindKey| #[trigger]
                    self@.contains(k) <==> before.contains(k) || exists|i: int|
                        rest@.len() <= i < all.len() && entry_key(#[trigger] all[i]) == k,
            decreases rest@.len(),
        {
            let ghost size = rest@.len();
            let ghost mid = self@;
            let last: Option<(i32, String)> = rest.pop();
            if let Some(e) = last {
                assert(entry_key(all[size - 1]) == entry_key(e));
                self.insert(e.0, e.1);
                assert(rest@ =~= all.take(rest@.len() as int));
                assert forall|k: BindKey| #[trigger]
                    self@.contains(k) implies before.contains(k) || exists|i: int|
                        rest@.len() <= i < all.len() && entry_key(#[trigger] all[i]) == k by {
                    if !mid.contains(k) {
                        assert(entry_key(all[size - 1]) == k);
                    }
                }
                assert forall|k: BindKey|
                    before.contains(k) || (exists|i: int|
                        rest@.len() <= i < all.len() && entry_key(#[trigger] all[i]) == k) implies
                    #[trigger] self@.contains(k) by {
                    if !before.contains(k) {
                        let i = choose|i: int|
                            rest@.len() <= i < all.len() && entry_key(#[trigger] all[i]) == k;
                        if i >= size {
                            assert(mid.contains(k));
                        }
                    }
                }
            }
        }
        assert(self@ =~= before.union(other@));
    }
}

/// The key under which the thread `t` is held once it is on its CPUs.
pub open spec fn thread_key(t: process::ThreadView) -> BindKey {
    BindKey { tid: t.tid, cpus: cpuset::range_list(t.mask, 0) }
}

/// What the CPUs of a thread were seen to be, as a mask.
pub open spec fn seen_mask(seen: Option<CpuSet>) -> Option<u64> {
    match seen {
        Some(c) => Some(c.mask),
        None => None,
    }
}

/// What the CPUs of threads were seen to be, as masks.
pub open spec fn seen_masks(seen: Seq<Option<CpuSet>>) -> Seq<Option<u64>> {
    seen.map_values(|s: Option<CpuSet>| seen_mask(s))
}

/// The thread `t`, whose CPUs were seen to be `seen`, is to be put on its CPUs: it has some, is not
/// on them, and is not held in `bound`.
pub open spec fn to_bind(bound: Set<BindKey>, t: process::ThreadView, seen: Option<u64>) -> bool {
    t.mask != 0 && seen != Some(t.mask) && !bound.contains(thread_key(t))
}

/// The lists of the CPUs of the threads that are to be put on their CPUs.
pub open spec fn made_lists(
    bound: Set<BindKey>,
    th: Seq<process::ThreadView>,
    seen: Seq<Option<u64>>,
) -> Set<Seq<char>> {
    Set::new(
        |list: Seq<char>|
            exists|i: int|
                0 <= i < th.len() && to_bind(bound, #[trigger] th[i], seen[i]) && thread_key(
                    th[i],
                ).cpus == list,
    )
}

/// A thread that is to be put on its CPUs. `make_dir` says that it is the first with this list of
/// CPUs in its pass.
pub struct BindAction {
    pub tid: i32,
    pub cpus: CpuSet,
    pub list: String,
    pub make_dir: bool,
}

/// What a `BindAction` says.
pub struct BindView {
    pub tid: int,
    pub mask: u64,
    pub list: Seq<char>,
    pub make_dir: bool,
}

impl View for BindAction {
    type V = BindView;

    open spec fn view(&self) -> BindView {
        BindView {
            tid: self.tid as int,
            mask: self.cpus.mask,
            list: self.list@,
            make_dir: self.make_dir,
        }
    }
}

/// What is to be done for the thread `t` after those with the lists `made`.
pub open spec fn bind_view(made: Set<Seq<char>>, t: process::ThreadView) -> BindView {
    BindView {
        tid: t.tid,
        mask: t.mask,
        list: thread_key(t).cpus,
        make_dir: !made.contains(thread_key(t).cpus),
    }
}

/// What is to be done for the threads `th`, whose CPUs were seen to be `seen`.
pub open spec fn bind_steps(
    bound: Set<BindKey>,
    th: Seq<process::ThreadView>,
    seen: Seq<Option<u64>>,
) -> Seq<BindView>
    decreases th.len(),
{
    if th.len() == 0 {
        Seq::empty()
    } else {
        let n = th.len() - 1;
        let before = bind_steps(bound, th.drop_last(), seen.take(n));
        if to_bind(bound, th[n], seen[n]) {
            before.push(bind_view(made_lists(bound, th.drop_last(), seen.take(n)), th[n]))
        } else {
            before
        }
    }
}

/// The keys that a pass over the threads `th` adds to those that are held.
pub open spec fn settled_keys(
    bound: Set<BindKey>,
    th: Seq<process::ThreadView>,
    seen: Seq<Option<u64>>,
) -> Set<BindKey> {
    Set::new(
        |k: BindKey|
            exists|i: int|
                0 <= i < th.len() && (#[trigger] th[i]).mask != 0 && (seen[i] == Some(th[i].mask)
                    || to_bind(bound, th[i], seen[i])) && thread_key(th[i]) == k,
    )
}

/// One pass over the threads: what it has settled so far.
pub struct BindPass {
    count: usize,
    made: StringHashSet,
    fresh: BoundSet,
}

impl BindPass {
    /// How many threads were to be put on their CPUs.
    pub closed spec fn count(&self) -> int {
        self.count as int
    }

    /// The lists of the CPUs of those threads.
    pub closed spec fn made(&self) -> Set<Seq<char>> {
        self.made@
    }

    /// The threads that are on their CPUs, or were to be put there.
    pub closed spec fn fresh(&self) -> Set<BindKey> {
        self.fresh@
    }

    /// A pass that has seen no thread.
    pub fn new() -> (r: BindPass)
        ensures
            r.count() == 0,
            r.made() == Set::<Seq<char>>::empty(),
            r.fresh() == Set::<BindKey>::empty(),
    {
        BindPass { count: 0, made: StringHashSet::new(), fresh: BoundSet::new() }
    }

    /// What is to be done for the thread `tid` with the CPUs `cpus`, when the CPUs that it is on
    /// were seen to be `seen` and the threads `bound` were settled in earlier passes.
    pub fn step(
        &mut self,
        bound: &BoundSet,
        tid: i32,
        cpus: CpuSet,
        seen: Option<CpuSet>,
    ) -> (r: Option<BindAction>)
        requires
            old(self).count() < usize::MAX,
        ensures
            ({
                let t = process::ThreadView { tid: tid as int, comm: Seq::empty(), mask: cpus.mask };
                if to_bind(bound@, t, seen_mask(seen)) {
                    &&& r matches Some(a) && a@ == bind_view(old(self).made(), t)
                    &&& final(self).count() == old(self).count() + 1
                    &&& final(self).made() == old(self).made().insert(thread_key(t).cpus)
                    &&& final(self).fresh() == old(self).fresh().insert(thread_key(t))
                } else {
                    &&& r is None
                    &&& final(self).count() == old(self).count()
                    &&& final(self).made() == old(self).made()
                    &&& final(self).fresh() == (if t.mask != 0 && seen_mask(seen) == Some(t.mask) {
                        old(self).fresh().insert(thread_key(t))
                    } else {
                        old(self).fresh()
                    })
                }
            }),
    {
        if cpus.is_zero() {
            return None;
        }
        let list: String = cpus.to_range_string();
        let settled: bool = match seen {
            Some(c) => c == cpus,
            None => false,
        };
        if settled {
            self.fresh.insert(tid, list);
            return None;
        }
        if bound.contains(tid, list.as_str()) {
            return None;
        }
        self.count = self.count + 1;
        let make_dir: bool = self.made.insert(list.as_str().to_owned());
        self.fresh.insert(tid, list.as_str().to_owned());
        Some(BindAction { tid, cpus, list, make_dir })
    }

    /// How many threads were to be put on their CPUs.
    pub fn new_count(&self) -> (r: usize)
        ensures
            r == self.count(),
    {
        self.count
    }

    /// Ends the pass: what it has settled is held from now on.
    pub fn finish(self, bound: &mut BoundSet)
        ensures
            final(bound)@ == old(bound)@.union(self.fresh()),
    {
        bound.extend(self.fresh);
    }
}

/// The threads of the processes `procs`, one process after the other.
pub open spec fn all_threads(procs: Seq<process::ProcessView>) -> Seq<process::ThreadView>
    decreases procs.len(),
{
    if procs.len() == 0 {
        Seq::empty()
    } else {
        all_threads(procs.drop_last()) + procs.last().threads
    }
}

/// Where the threads of process `p` stand among those of all processes.
proof fn lemma_threads_at(procs: Seq<process::ProcessView>, p: int)
    requires
        0 <= p < procs.len(),
    ensures
        all_threads(procs.take(p + 1)) == all_threads(procs.take(p)) + procs[p].threads,
        all_threads(procs.take(p)).len() + procs[p].threads.len() <= all_threads(procs).len(),
        forall|j: int|
            0 <= j < procs[p].threads.len() ==> #[trigger] all_threads(procs)[all_threads(
                procs.take(p),
            ).len() + j] == procs[p].threads[j],
    decreases procs.len(),
{
    assert(procs.take(p + 1).drop_last() =~= procs.take(p));
    let front = procs.drop_last();
    if p == procs.len() - 1 {
        assert(procs.take(p) =~= front);
    } else {
        lemma_threads_at(front, p);
        assert(front.take(p) =~= procs.take(p));
        assert(front[p] == procs[p]);
        assert forall|j: int| 0 <= j < procs[p].threads.len() implies #[trigger] all_threads(
            procs,
        )[all_threads(procs.take(p)).len() + j] == procs[p].threads[j] by {
            assert(all_threads(front)[all_threads(front.take(p)).len() + j] == procs[p].threads[j]);
        }
    }
}

/// What one more thread adds to a pass.
proof fn lemma_one_more(
    bound: Set<BindKey>,
    th: Seq<process::ThreadView>,
    seen: Seq<Option<u64>>,
    k: int,
)
    requires
        0 <= k < th.len(),
        th.len() == seen.len(),
    ensures
        ({
            let a = th.take(k);
            let s = seen.take(k);
            let a1 = th.take(k + 1);
            let s1 = seen.take(k + 1);
            let key = thread_key(th[k]);
            &&& bind_steps(bound, a1, s1) == (if to_bind(bound, th[k], seen[k]) {
                bind_steps(bound, a, s).push(bind_view(made_lists(bound, a, s), th[k]))
            } else {
                bind_steps(bound, a, s)
            })
            &&& made_lists(bound, a1, s1) == (if to_bind(bound, th[k], seen[k]) {
                made_lists(bound, a, s).insert(key.cpus)
            } else {
                made_lists(bound, a, s)
            })
            &&& settled_keys(bound, a1, s1) == (if th[k].mask != 0 && (seen[k] == Some(th[k].mask)
                || to_bind(bound, th[k], seen[k])) {
                settled_keys(bound, a, s).insert(key)
            } else {
                settled_keys(bound, a, s)
            })
        }),
{
    let a = th.take(k);
    let s = seen.take(k);
    let a1 = th.take(k + 1);
    let s1 = seen.take(k + 1);
    let key = thread_key(th[k]);
    assert(a1.drop_last() =~= a);
    assert(s1.take(k) =~= s);
    assert(a1[k] == th[k] && s1[k] == seen[k]);
    let binds = to_bind(bound, th[k], seen[k]);
    let counts = th[k].mask != 0 && (seen[k] == Some(th[k].mask) || binds);
    assert forall|list: Seq<char>| #[trigger] made_lists(bound, a1, s1).contains(list) <==> (
    made_lists(bound, a, s).contains(list) || (binds && list == key.cpus)) by {
        if made_lists(bound, a, s).contains(list) {
            let i = choose|i: int|
                0 <= i < a.len() && to_bind(bound, #[trigger] a[i], s[i]) && thread_key(a[i]).cpus
                    == list;
            assert(a1[i] == a[i] && s1[i] == s[i]);
        }
        if made_lists(bound, a1, s1).contains(list) {
            let i = choose|i: int|
                0 <= i < a1.len() && to_bind(bound, #[trigger] a1[i], s1[i]) && thread_key(
                    a1[i],
                ).cpus == list;
            if i < k {
                assert(a1[i] == a[i] && s1[i] == s[i]);
            }
        }
    }
    assert forall|x: BindKey| #[trigger] settled_keys(bound, a1, s1).contains(x) <==> (settled_keys(
        bound,
        a,
        s,
    ).contains(x) || (counts && x == key)) by {
        if settled_keys(bound, a, s).contains(x) {
            let i = choose|i: int|
                0 <= i < a.len() && (#[trigger] a[i]).mask != 0 && (s[i] == Some(a[i].mask)
                    || to_bind(bound, a[i], s[i])) && thread_key(a[i]) == x;
            assert(a1[i] == a[i] && s1[i] == s[i]);
        }
        if settled_keys(bound, a1, s1).contains(x) {
            let i = choose|i: int|
                0 <= i < a1.len() && (#[trigger] a1[i]).mask != 0 && (s1[i] == Some(a1[i].mask)
                    || to_bind(bound, a1[i], s1[i])) && thread_key(a1[i]) == x;
            if i < k {
                assert(a1[i] == a[i] && s1[i] == s[i]);
            }
        }
    }
    assert(made_lists(bound, a1, s1) =~= (if binds {
        made_lists(bound, a, s).insert(key.cpus)
    } else {
        made_lists(bound, a, s)
    }));
    assert(settled_keys(bound, a1, s1) =~= (if counts {
        settled_keys(bound, a, s).insert(key)
    } else {
        settled_keys(bound, a, s)
    }));
}

/// One step of putting a thread on its CPUs.
pub enum BindStep {
    /// Put the thread on the CPUs.
    SetAffinity(i32, CpuSet),
    /// Part of making the cpuset for the CPUs.
    Prepare(FsAction),
    /// Put the thread into its cpuset.
    Enter(FsAction),
}

/// What a `BindStep` says.
pub enum StepView {
    SetAffinity(int, u64),
    Prepare(FsView),
    Enter(FsView),
}

impl View for BindStep {
    type V = StepView;

    open spec fn view(&self) -> StepView {
        match self {
            BindStep::SetAffinity(tid, cpus) => StepView::SetAffinity(*tid as int, cpus.mask),
            BindStep::Prepare(a) => StepView::Prepare(a@),
            BindStep::Enter(a) => StepView::Enter(a@),
        }
    }
}

/// What the steps `v` say.
pub open spec fn step_views(v: Seq<BindStep>) -> Seq<StepView> {
    v.map_values(|s: BindStep| s@)
}

/// Actions that make a cpuset, as steps.
pub open spec fn prepare_steps(v: Seq<FsView>) -> Seq<StepView> {
    v.map_values(|a: FsView| StepView::Prepare(a))
}

/// What makes the cpuset for the list of CPUs of `b`, where it is the first with this list.
pub open spec fn preparation(b: BindView, cpusets: bool, mems: Option<Seq<char>>) -> Seq<FsView> {
    if cpusets && b.make_dir {
        cpuset_steps(list_dir(b.list), b.list, mems)
    } else {
        Seq::empty()
    }
}

/// What puts the thread of `b` into its cpuset.
pub open spec fn entering(b: BindView) -> FsView {
    FsView::Write(list_dir(b.list) + "/tasks"@, tid_line(b.tid))
}

/// The steps for the thread of `b`, in their order: first the thread is put on its CPUs, and then,
/// on a machine where threads are put into cpusets, into the cpuset for them, which is made before
/// that where it is the first.
pub open spec fn action_steps(b: BindView, cpusets: bool, mems: Option<Seq<char>>) -> Seq<
    StepView,
> {
    let first = seq![StepView::SetAffinity(b.tid, b.mask)] + prepare_steps(
        preparation(b, cpusets, mems),
    );
    if cpusets {
        first.push(StepView::Enter(entering(b)))
    } else {
        first
    }
}

/// The steps for all threads of `v`, one thread after the other.
pub open spec fn all_steps(v: Seq<BindView>, cpusets: bool, mems: Option<Seq<char>>) -> Seq<
    StepView,
>
    decreases v.len(),
{
    if v.len() == 0 {
        Seq::empty()
    } else {
        all_steps(v.drop_last(), cpusets, mems) + action_steps(v.last(), cpusets, mems)
    }
}

impl BindAction {
    /// The steps for the thread, in their order: first it is put on its CPUs, and then, on a machine
    /// where threads are put into `cpusets`, into the cpuset for them. A new cpuset gets the memory
    /// nodes `mems`, where those could be read.
    pub fn steps(&self, cpusets: bool, mems: Option<&str>) -> (r: Vec<BindStep>)
        ensures
            step_views(r@) == action_steps(self@, cpusets, process::opt_str(mems)),
    {
        let ghost nodes = process::opt_str(mems);
        let ghost first = seq![StepView::SetAffinity(self.tid as int, self.cpus.mask)];
        let mut r: Vec<BindStep> = Vec::new();
        r.push(BindStep::SetAffinity(self.tid, self.cpus));
        assert(step_views(r@) =~= first);
        let ghost made = prepare_steps(preparation(self@, cpusets, nodes));
        if self.make_dir {
            let files: Vec<FsAction> = ensure_cpuset(cpusets, self.list.as_str(), mems);
            push_files(&mut r, files);
        }
        assert(step_views(r@) =~= first + made);
        if let Some(a) = cpuset_add(cpusets, self.tid, self.list.as_str()) {
            let ghost had = r@;
            let ghost view = a@;
            r.push(BindStep::Enter(a));
            assert(step_views(r@) =~= step_views(had).push(StepView::Enter(view)));
        }
        r
    }
}

/// Adds the actions `files` to the steps.
fn push_files(steps: &mut Vec<BindStep>, files: Vec<FsAction>)
    ensures
        step_views(final(steps)@) == step_views(old(steps)@) + prepare_steps(fs_views(files@)),
{
    let ghost before = step_views(steps@);
    let ghost all = files@;
    let mut rest: Vec<FsAction> = files;
    let ghost mut done: int = 0;
    assert(before + prepare_steps(fs_views(all.take(0))) =~= before);
    while rest.len() > 0
        invariant
            0 <= done <= all.len(),
            rest@ == all.skip(done),
            step_views(steps@) == before + prepare_steps(fs_views(all.take(done))),
        decreases rest@.len(),
    {
        let ghost had = steps@;
        let a: FsAction = rest.remove(0);
        let ghost view = a@;
        assert(a == all[done]);
        steps.push(BindStep::Prepare(a));
        assert(step_views(steps@) =~= step_views(had).push(StepView::Prepare(view)));
        assert(prepare_steps(fs_views(all.take(done + 1))) =~= prepare_steps(
            fs_views(all.take(done)),
        ).push(StepView::Prepare(view)));
        proof {
            done = done + 1;
        }
        assert(rest@ =~= all.skip(done));
        assert(step_views(steps@) =~= before + prepare_steps(fs_views(all.take(done))));
    }
    assert(all.take(done) =~= all);
}

/// Adds the steps `more` to the steps.
fn push_steps(steps: &mut Vec<BindStep>, more: Vec<BindStep>)
    ensures
        step_views(final(steps)@) == step_views(old(steps)@) + step_views(more@),
{
    let ghost before = steps@;
    let ghost all = more@;
    let mut more: Vec<BindStep> = more;
    steps.append(&mut more);
    assert(steps@ =~= before + all);
    assert(step_views(steps@) =~= step_views(before) + step_views(all));
}

/// The kernel refused, and not for the thread being gone.
pub open spec fn refused(answer: Option<Option<i32>>) -> bool {
    answer matches Some(code) && code != Some(NO_SUCH_THREAD)
}

/// The failures that a pass over the threads `th` tells, in their order, when `answers` is what the
/// kernel answers for each of them and the failures `failed` were told before.
pub open spec fn failures(
    bound: Set<BindKey>,
    failed: Set<BindKey>,
    th: Seq<process::ThreadView>,
    seen: Seq<Option<u64>>,
    answers: Seq<Option<Option<i32>>>,
) -> Seq<BindKey>
    decreases th.len(),
{
    if th.len() == 0 {
        Seq::empty()
    } else {
        let n = th.len() - 1;
        let before = failures(bound, failed, th.drop_last(), seen.take(n), answers.take(n));
        let key = thread_key(th[n]);
        if to_bind(bound, th[n], seen[n]) && outcome(
            failed.union(before.to_set()),
            key,
            answers[n],
        ) is Failed {
            before.push(key)
        } else {
            before
        }
    }
}

/// The keys of the entries `v`.
pub open spec fn entry_keys(v: Seq<(i32, String)>) -> Seq<BindKey> {
    v.map_values(|e: (i32, String)| entry_key(e))
}

/// One pass over the threads of the processes `procs`, whose CPUs were seen to be `seen`, one
/// after the other. `answers` is what the kernel answers when a thread is put on its CPUs: nothing
/// where it does so, else the number of the error where it has one. Threads are put into `cpusets`,
/// where the machine has those, with the memory nodes `mems`.
///
/// Gives how many processes and threads there are and how many of the threads are put on their
/// CPUs, the steps for those, and the failures that are told. What the pass has settled is added to
/// `bound_set`, and what it tells to `failed`.
pub fn apply(
    procs: &[(i32, String, Vec<(i32, String, CpuSet)>)],
    seen: &[Option<CpuSet>],
    answers: &[Option<Option<i32>>],
    cpusets: bool,
    mems: Option<&str>,
    bound_set: &mut BoundSet,
    failed: &mut BoundSet,
) -> (r: ((usize, usize, usize), Vec<BindStep>, Vec<(i32, String)>))
    requires
        seen@.len() == all_threads(process::process_views(procs@)).len(),
        answers@.len() == seen@.len(),
    ensures
        ({
            let th = all_threads(process::process_views(procs@));
            let masks = seen_masks(seen@);
            let steps = bind_steps(old(bound_set)@, th, masks);
            let told = failures(old(bound_set)@, old(failed)@, th, masks, answers@);
            &&& r.0.0 == procs@.len()
            &&& r.0.1 == th.len()
            &&& r.0.2 == steps.len()
            &&& step_views(r.1@) == all_steps(steps, cpusets, process::opt_str(mems))
            &&& entry_keys(r.2@) == told
            &&& final(bound_set)@ == old(bound_set)@.union(
                settled_keys(old(bound_set)@, th, masks),
            )
            &&& final(failed)@ == old(failed)@.union(told.to_set())
        }),
{
    let ghost all = process::process_views(procs@);
    let ghost th = all_threads(all);
    let ghost masks = seen_masks(seen@);
    let ghost bound = bound_set@;
    let ghost known = failed@;
    let ghost nodes = process::opt_str(mems);
    let size: usize = seen.len();
    let mut pass: BindPass = BindPass::new();
    let mut steps: Vec<BindStep> = Vec::new();
    let mut told: Vec<(i32, String)> = Vec::new();
    let mut k: usize = 0;
    let mut p: usize = 0;
    assert(all.take(0) =~= Seq::empty());
    assert(th.take(0) =~= Seq::empty());
    assert(step_views(steps@) =~= Seq::empty());
    assert(entry_keys(told@) =~= Seq::empty());
    assert(known =~= known.union(Seq::<BindKey>::empty().to_set()));
    assert(made_lists(bound, th.take(0), masks.take(0)) =~= Set::empty());
    assert(settled_keys(bound, th.take(0), masks.take(0)) =~= Set::empty());
    while p < procs.len()
        invariant
            p <= procs@.len(),
            all == process::process_views(procs@),
            th == all_threads(all),
            masks == seen_masks(seen@),
            nodes == process::opt_str(mems),
            size == seen@.len(),
            size == th.len(),
            size == answers@.len(),
            bound == bound_set@,
            bound_set@ == old(bound_set)@,
            known == old(failed)@,
            k == all_threads(all.take(p as int)).len(),
            k <= size,
            pass.count() <= k,
            passed_so_far(
                bound,
                known,
                th.take(k as int),
                masks.take(k as int),
                answers@.take(k as int),
                cpusets,
                nodes,
                pass,
                step_views(steps@),
                entry_keys(told@),
                failed@,
            ),
        decreases procs@.len() - p,
    {
        let list: &Vec<(i32, String, CpuSet)> = &procs[p].2;
        let ghost first = k as int;
        let mut t: usize = 0;
        proof {
            lemma_threads_at(all, p as int);
            assert(all[p as int].threads == process::thread_views(list@));
        }
        while t < list.len()
            invariant
                t <= list@.len(),
                th == all_threads(all),
                masks == seen_masks(seen@),
                nodes == process::opt_str(mems),
                size == seen@.len(),
                size == th.len(),
                size == answers@.len(),
                bound == bound_set@,
                bound_set@ == old(bound_set)@,
                known == old(failed)@,
                k == first + t,
                first + list@.len() <= size,
                forall|j: int|
                    0 <= j < list@.len() ==> #[trigger] th[first + j] == process::thread_views(
                        list@,
                    )[j],
                pass.count() <= k,
                passed_so_far(
                    bound,
                    known,
                    th.take(k as int),
                    masks.take(k as int),
                    answers@.take(k as int),
                    cpusets,
                    nodes,
                    pass,
                    step_views(steps@),
                    entry_keys(told@),
                    failed@,
                ),
            decreases list@.len() - t,
        {
            let ghost now = bind_steps(bound, th.take(k as int), masks.take(k as int));
            let ghost next = bind_steps(bound, th.take(k + 1), masks.take(k + 1));
            proof {
                lemma_one_more(bound, th, masks, k as int);
                lemma_one_more_failure(bound, known, th, masks, answers@, k as int);
                assert(th[first + t] == process::thread_views(list@)[t as int]);
                assert(masks[k as int] == seen_mask(seen@[k as int]));
            }
            if let Some(a) = pass.step(bound_set, list[t].0, list[t].2, seen[k]) {
                let ghost had_told = told@;
                let ghost fs = entry_keys(told@);
                let ghost key = thread_key(th[k as int]);
                assert(next.drop_last() =~= now);
                push_steps(&mut steps, a.steps(cpusets, mems));
                let result: BindOutcome = bind_outcome(failed, a.tid, &a.cpus, answers[k]);
                let tell: bool = match result {
                    BindOutcome::Failed => true,
                    _ => false,
                };
                if tell {
                    told.push((a.tid, a.list));
                    assert(entry_keys(told@) =~= fs.push(key));
                    proof {
                        fs.lemma_push_to_set_commute(key);
                    }
                    assert(failed@ =~= known.union(fs.push(key).to_set()));
                }
            }
            t += 1;
            k += 1;
        }
        p += 1;
    }
    assert(all.take(p as int) =~= all);
    assert(th.take(k as int) =~= th);
    assert(masks.take(k as int) =~= masks);
    assert(answers@.take(k as int) =~= answers@);
    let n: usize = pass.new_count();
    pass.finish(bound_set);
    ((procs.len(), k, n), steps, told)
}

/// What a pass has done after the threads `th`.
spec fn passed_so_far(
    bound: Set<BindKey>,
    known: Set<BindKey>,
    th: Seq<process::ThreadView>,
    seen: Seq<Option<u64>>,
    answers: Seq<Option<Option<i32>>>,
    cpusets: bool,
    mems: Option<Seq<char>>,
    pass: BindPass,
    steps: Seq<StepView>,
    told: Seq<BindKey>,
    failed: Set<BindKey>,
) -> bool {
    &&& pass.count() == bind_steps(bound, th, seen).len()
    &&& pass.made() == made_lists(bound, th, seen)
    &&& pass.fresh() == settled_keys(bound, th, seen)
    &&& steps == all_steps(bind_steps(bound, th, seen), cpusets, mems)
    &&& told == failures(bound, known, th, seen, answers)
    &&& failed == known.union(told.to_set())
}

/// What one more thread adds to the failures of a pass.
proof fn lemma_one_more_failure(
    bound: Set<BindKey>,
    failed: Set<BindKey>,
    th: Seq<process::ThreadView>,
    seen: Seq<Option<u64>>,
    answers: Seq<Option<Option<i32>>>,
    k: int,
)
    requires
        0 <= k < th.len(),
        th.len() == seen.len(),
        th.len() == answers.len(),
    ensures
        ({
            let before = failures(bound, failed, th.take(k), seen.take(k), answers.take(k));
            failures(bound, failed, th.take(k + 1), seen.take(k + 1), answers.take(k + 1)) == (
            if to_bind(bound, th[k], seen[k]) && outcome(
                failed.union(before.to_set()),
                thread_key(th[k]),
                answers[k],
            ) is Failed {
                before.push(thread_key(th[k]))
            } else {
                before
            })
        }),
{
    assert(th.take(k + 1).drop_last() =~= th.take(k));
    assert(seen.take(k + 1).take(k) =~= seen.take(k));
    assert(answers.take(k + 1).take(k) =~= answers.take(k));
}

/// A pass leaves nothing to do: every thread that has CPUs is held after it, so that the next pass
/// over the same threads puts none of them on its CPUs, whatever CPUs it sees them on.
pub proof fn law_pass_settles(
    bound: Set<BindKey>,
    th: Seq<process::ThreadView>,
    seen: Seq<Option<u64>>,
    later: Seq<Option<u64>>,
)
    requires
        seen.len() == th.len(),
        later.len() == th.len(),
    ensures
        forall|i: int|
            0 <= i < th.len() && (#[trigger] th[i]).mask != 0 ==> bound.union(
                settled_keys(bound, th, seen),
            ).contains(thread_key(th[i])),
        bind_steps(bound.union(settled_keys(bound, th, seen)), th, later).len() == 0,
{
    let after = bound.union(settled_keys(bound, th, seen));
    assert forall|i: int| 0 <= i < th.len() && (#[trigger] th[i]).mask != 0 implies after.contains(
        thread_key(th[i]),
    ) by {
        if !bound.contains(thread_key(th[i])) {
            assert(seen[i] == Some(th[i].mask) || to_bind(bound, th[i], seen[i]));
            assert(settled_keys(bound, th, seen).contains(thread_key(th[i])));
        }
    }
    lemma_nothing_left(after, th, later);
}

/// Step `j` puts the thread `t` on its CPUs.
pub open spec fn binds(steps: Seq<BindView>, j: int, t: process::ThreadView) -> bool {
    0 <= j < steps.len() && steps[j].tid == t.tid && steps[j].mask == t.mask
}

/// Once nothing is held, every thread that has CPUs and is not on them is put there.
pub proof fn law_all_bound_anew(th: Seq<process::ThreadView>, seen: Seq<Option<u64>>, i: int)
    requires
        seen.len() == th.len(),
        0 <= i < th.len(),
        th[i].mask != 0,
        seen[i] != Some(th[i].mask),
    ensures
        exists|j: int| #[trigger] binds(bind_steps(Set::empty(), th, seen), j, th[i]),
    decreases th.len(),
{
    let n = th.len() - 1;
    let front = bind_steps(Set::empty(), th.drop_last(), seen.take(n));
    let steps = bind_steps(Set::empty(), th, seen);
    if i == n {
        assert(binds(steps, front.len() as int, th[i]));
    } else {
        assert(th.drop_last()[i] == th[i]);
        law_all_bound_anew(th.drop_last(), seen.take(n), i);
        let j = choose|j: int| #[trigger] binds(front, j, th[i]);
        assert(binds(steps, j, th[i]));
    }
}

/// Where every thread that has CPUs is held there is nothing to do.
proof fn lemma_nothing_left(
    bound: Set<BindKey>,
    th: Seq<process::ThreadView>,
    seen: Seq<Option<u64>>,
)
    requires
        seen.len() == th.len(),
        forall|i: int|
            0 <= i < th.len() && (#[trigger] th[i]).mask != 0 ==> bound.contains(thread_key(th[i])),
    ensures
        bind_steps(bound, th, seen).len() == 0,
    decreases th.len(),
{
    if th.len() > 0 {
        let n = th.len() - 1;
        assert forall|i: int| 0 <= i < n && (#[trigger] th.drop_last()[i]).mask != 0 implies
            bound.contains(thread_key(th.drop_last()[i])) by {
            assert(th.drop_last()[i] == th[i]);
        }
        lemma_nothing_left(bound, th.drop_last(), seen.take(n));
        assert(!to_bind(bound, th[n], seen[n]));
    }
}

/// The lists in what is to be done are those of the threads to put on their CPUs.
pub proof fn lemma_lists_of_steps(
    bound: Set<BindKey>,
    th: Seq<process::ThreadView>,
    seen: Seq<Option<u64>>,
    list: Seq<char>,
)
    requires
        seen.len() == th.len(),
    ensures
        made_lists(bound, th, seen).contains(list) <==> exists|i: int|
            0 <= i < bind_steps(bound, th, seen).len() && (#[trigger] bind_steps(
                bound,
                th,
                seen,
            )[i]).list == list,
    decreases th.len(),
{
    if th.len() > 0 {
        let n = th.len() - 1;
        let front = bind_steps(bound, th.drop_last(), seen.take(n));
        let steps = bind_steps(bound, th, seen);
        lemma_lists_of_steps(bound, th.drop_last(), seen.take(n), list);
        lemma_one_more(bound, th, seen, n);
        assert(th.take(n + 1) =~= th);
        assert(seen.take(n + 1) =~= seen);
        assert(th.take(n) =~= th.drop_last());
        if exists|i: int| 0 <= i < front.len() && (#[trigger] front[i]).list == list {
            let i = choose|i: int| 0 <= i < front.len() && (#[trigger] front[i]).list == list;
            assert(steps[i].list == list);
        }
        if to_bind(bound, th[n], seen[n]) && thread_key(th[n]).cpus == list {
            assert(steps[front.len() as int].list == list);
        }
        if exists|i: int| 0 <= i < steps.len() && (#[trigger] steps[i]).list == list {
            let i = choose|i: int| 0 <= i < steps.len() && (#[trigger] steps[i]).list == list;
            if i < front.len() {
                assert(front[i].list == list);
            }
        }
    }
}

/// Step `j` of a pass makes the directory of its list just where no earlier step has that list,
/// and its list names the CPUs that its thread is put on, which are not none.
pub open spec fn makes_new_directory(steps: Seq<BindView>, j: int) -> bool {
    &&& steps[j].make_dir <==> (forall|i: int|
        0 <= i < j ==> (#[trigger] steps[i]).list != steps[j].list)
    &&& steps[j].mask != 0
    &&& cpuset::list_mask(steps[j].list) == steps[j].mask
}

/// Within a pass the directory of a list of CPUs is made once, for the first thread with that
/// list; each list names the CPUs that its thread is put on, and they are not none.
pub proof fn law_pass_makes_each_directory_once(
    bound: Set<BindKey>,
    th: Seq<process::ThreadView>,
    seen: Seq<Option<u64>>,
)
    requires
        seen.len() == th.len(),
    ensures
        forall|j: int|
            0 <= j < bind_steps(bound, th, seen).len() ==> #[trigger] makes_new_directory(
                bind_steps(bound, th, seen),
                j,
            ),
    decreases th.len(),
{
    if th.len() > 0 {
        let n = th.len() - 1;
        let front = bind_steps(bound, th.drop_last(), seen.take(n));
        let steps = bind_steps(bound, th, seen);
        law_pass_makes_each_directory_once(bound, th.drop_last(), seen.take(n));
        lemma_lists_of_steps(bound, th.drop_last(), seen.take(n), thread_key(th[n]).cpus);
        cpuset::law_from_range_inverts(CpuSet { mask: th[n].mask });
        assert forall|j: int| 0 <= j < steps.len() implies #[trigger] makes_new_directory(
            steps,
            j,
        ) by {
            assert forall|i: int| 0 <= i < front.len() implies #[trigger] steps[i] == front[i] by {}
            if j < front.len() {
                assert(makes_new_directory(front, j));
                if !steps[j].make_dir {
                    let i = choose|i: int| 0 <= i < j && (#[trigger] front[i]).list == front[j].list;
                    assert(steps[i].list == steps[j].list);
                }
            } else if !steps[j].make_dir {
                let i = choose|i: int|
                    0 <= i < front.len() && (#[trigger] front[i]).list == thread_key(th[n]).cpus;
                assert(steps[i].list == steps[j].list);
            }
        }
    }
}

/// The error with which the kernel says that a thread is gone.
pub const NO_SUCH_THREAD: i32 = 3;

/// What became of putting a thread on its CPUs.
#[derive(Clone, Copy, Debug, PartialEq, Eq, Structural)]
pub enum BindOutcome {
    /// The thread is on its CPUs.
    Bound,
    /// The thread is gone.
    Gone,
    /// It failed, for the first time for this thread and these CPUs.
    Failed,
    /// It failed again.
    FailedAgain,
}

/// What became of putting the thread of `key` on its CPUs, when the failures `failed` were told
/// before. `error` is what the kernel answered, where it refused, with its number where it has one.
pub open spec fn outcome(
    failed: Set<BindKey>,
    key: BindKey,
    error: Option<Option<i32>>,
) -> BindOutcome {
    match error {
        None => BindOutcome::Bound,
        Some(code) => if code == Some(NO_SUCH_THREAD) {
            BindOutcome::Gone
        } else if failed.contains(key) {
            BindOutcome::FailedAgain
        } else {
            BindOutcome::Failed
        },
    }
}

/// What became of putting the thread `tid` on the CPUs `cpus`, after the kernel answered `error`:
/// nothing where it did, else the number of the error where it has one. A failure is kept in
/// `failed`, so that it is told once.
pub fn bind_outcome(
    failed: &mut BoundSet,
    tid: i32,
    cpus: &CpuSet,
    error: Option<Option<i32>>,
) -> (r: BindOutcome)
    ensures
        ({
            let key = BindKey { tid: tid as int, cpus: cpuset::range_list(cpus.mask, 0) };
            &&& r == outcome(old(failed)@, key, error)
            &&& final(failed)@ == (if r is Failed {
                old(failed)@.insert(key)
            } else {
                old(failed)@
            })
        }),
{
    let code: Option<i32> = match error {
        None => {
            return BindOutcome::Bound;
        },
        Some(c) => c,
    };
    if let Some(n) = code {
        if n == NO_SUCH_THREAD {
            return BindOutcome::Gone;
        }
    }
    let ghost before = failed@;
    let list: String = cpus.to_range_string();
    if failed.insert(tid, list) {
        BindOutcome::Failed
    } else {
        assert(failed@ =~= before);
        BindOutcome::FailedAgain
    }
}

/// The kernel refuses to put thread `i` of a pass on its CPUs, which the pass tries.
pub open spec fn refused_at(
    bound: Set<BindKey>,
    th: Seq<process::ThreadView>,
    seen: Seq<Option<u64>>,
    answers: Seq<Option<Option<i32>>>,
    key: BindKey,
    i: int,
) -> bool {
    &&& 0 <= i < th.len()
    &&& to_bind(bound, th[i], seen[i])
    &&& thread_key(th[i]) == key
    &&& refused(answers[i])
}

/// What one pass tells: each key at most once, and just those that were not told before and were
/// refused.
proof fn lemma_failures(
    bound: Set<BindKey>,
    failed: Set<BindKey>,
    th: Seq<process::ThreadView>,
    seen: Seq<Option<u64>>,
    answers: Seq<Option<Option<i32>>>,
)
    requires
        th.len() == seen.len(),
        th.len() == answers.len(),
    ensures
        failures(bound, failed, th, seen, answers).no_duplicates(),
        forall|key: BindKey| #[trigger]
            failures(bound, failed, th, seen, answers).contains(key) <==> !failed.contains(key)
                && exists|i: int| #[trigger] refused_at(bound, th, seen, answers, key, i),
    decreases th.len(),
{
    let all = failures(bound, failed, th, seen, answers);
    if th.len() > 0 {
        let n = th.len() - 1;
        let a = th.drop_last();
        let s = seen.take(n);
        let w = answers.take(n);
        let before = failures(bound, failed, a, s, w);
        lemma_failures(bound, failed, a, s, w);
        let last = thread_key(th[n]);
        assert forall|key: BindKey|
            (exists|i: int| #[trigger] refused_at(bound, th, seen, answers, key, i)) <==> (
            exists|i: int| #[trigger] refused_at(bound, a, s, w, key, i)) || refused_at(
                bound,
                th,
                seen,
                answers,
                key,
                n,
            ) by {
            if exists|i: int| #[trigger] refused_at(bound, th, seen, answers, key, i) {
                let i = choose|i: int| #[trigger] refused_at(bound, th, seen, answers, key, i);
                if i < n {
                    assert(refused_at(bound, a, s, w, key, i));
                }
            }
            if exists|i: int| #[trigger] refused_at(bound, a, s, w, key, i) {
                let i = choose|i: int| #[trigger] refused_at(bound, a, s, w, key, i);
                assert(refused_at(bound, th, seen, answers, key, i));
            }
        }
        assert(before.to_set().contains(last) <==> before.contains(last));
        if all.len() > before.len() {
            assert(all == before.push(last));
            assert forall|key: BindKey| #[trigger] all.contains(key) <==> before.contains(key)
                || key == last by {
                if before.contains(key) {
                    let i = choose|i: int| 0 <= i < before.len() && before[i] == key;
                    assert(all[i] == key);
                }
                assert(all[before.len() as int] == last);
            }
        }
        assert forall|key: BindKey| #[trigger] all.contains(key) <==> !failed.contains(key)
            && exists|i: int| #[trigger] refused_at(bound, th, seen, answers, key, i) by {
            if refused_at(bound, th, seen, answers, key, n) {
                assert(key == last);
            }
        }
    } else {
        assert forall|key: BindKey| #[trigger] all.contains(key) <==> !failed.contains(key)
            && exists|i: int| #[trigger] refused_at(bound, th, seen, answers, key, i) by {}
    }
}

/// What one of several passes is made over: the threads that are held before it, the threads, the
/// CPUs that they are seen on and what the kernel answers for each of them.
pub struct PassView {
    pub bound: Set<BindKey>,
    pub threads: Seq<process::ThreadView>,
    pub seen: Seq<Option<u64>>,
    pub answers: Seq<Option<Option<i32>>>,
}

impl PassView {
    /// There is something seen and answered for each thread.
    pub open spec fn wf(self) -> bool {
        self.seen.len() == self.threads.len() && self.answers.len() == self.threads.len()
    }

    /// The kernel refuses to put the thread of `key` on its CPUs in this pass.
    pub open spec fn refuses(self, key: BindKey) -> bool {
        exists|i: int|
            #[trigger] refused_at(self.bound, self.threads, self.seen, self.answers, key, i)
    }
}

/// The failures that several passes tell, in their order, when the failures `failed` were told
/// before.
pub open spec fn told_in(failed: Set<BindKey>, passes: Seq<PassView>) -> Seq<BindKey>
    decreases passes.len(),
{
    if passes.len() == 0 {
        Seq::empty()
    } else {
        let before = told_in(failed, passes.drop_last());
        let p = passes.last();
        before + failures(
            p.bound,
            failed.union(before.to_set()),
            p.threads,
            p.seen,
            p.answers,
        )
    }
}

/// A failure is told once, over any number of passes and whatever is forgotten between them of the
/// threads that are on their CPUs: what is told is told once, and it is just what was not told
/// before and was refused in some pass. A thread that is gone is never told of.
pub proof fn law_failure_told_once(failed: Set<BindKey>, passes: Seq<PassView>)
    requires
        forall|p: int| 0 <= p < passes.len() ==> (#[trigger] passes[p]).wf(),
    ensures
        told_in(failed, passes).no_duplicates(),
        forall|key: BindKey| #[trigger]
            told_in(failed, passes).contains(key) <==> !failed.contains(key) && exists|p: int|
                0 <= p < passes.len() && (#[trigger] passes[p]).refuses(key),
    decreases passes.len(),
{
    let all = told_in(failed, passes);
    if passes.len() > 0 {
        let n = passes.len() - 1;
        let front = passes.drop_last();
        let last = passes.last();
        assert forall|p: int| 0 <= p < front.len() implies (#[trigger] front[p]).wf() by {
            assert(front[p] == passes[p]);
        }
        law_failure_told_once(failed, front);
        let before = told_in(failed, front);
        let now = failed.union(before.to_set());
        let more = failures(last.bound, now, last.threads, last.seen, last.answers);
        assert(passes[n].wf());
        lemma_failures(last.bound, now, last.threads, last.seen, last.answers);
        assert forall|key: BindKey| #[trigger] all.contains(key) <==> before.contains(key)
            || more.contains(key) by {
            if before.contains(key) {
                let i = choose|i: int| 0 <= i < before.len() && before[i] == key;
                assert(all[i] == key);
            }
            if more.contains(key) {
                let i = choose|i: int| 0 <= i < more.len() && more[i] == key;
                assert(all[before.len() + i] == key);
            }
        }
        assert forall|i: int, j: int| 0 <= i < j < all.len() implies all[i] != all[j] by {
            if i < before.len() && j >= before.len() {
                assert(before.contains(before[i]));
                assert(more.contains(more[j - before.len()]));
                assert(before.to_set().contains(before[i]));
            }
        }
        assert forall|key: BindKey| #[trigger] all.contains(key) <==> !failed.contains(key)
            && exists|p: int| 0 <= p < passes.len() && (#[trigger] passes[p]).refuses(key) by {
            if exists|p: int| 0 <= p < front.len() && (#[trigger] front[p]).refuses(key) {
                let p = choose|p: int| 0 <= p < front.len() && (#[trigger] front[p]).refuses(key);
                assert(passes[p].refuses(key));
            }
            if last.refuses(key) {
                assert(passes[n].refuses(key));
            }
            if exists|p: int| 0 <= p < passes.len() && (#[trigger] passes[p]).refuses(key) {
                let p = choose|p: int| 0 <= p < passes.len() && (#[trigger] passes[p]).refuses(key);
                if p < n {
                    assert(front[p].refuses(key));
                }
            }
            assert(before.to_set().contains(key) <==> before.contains(key));
        }
    } else {
        assert forall|key: BindKey| #[trigger] all.contains(key) <==> !failed.contains(key)
            && exists|p: int| 0 <= p < passes.len() && (#[trigger] passes[p]).refuses(key) by {}
    }
}

/// How often the attempts to put the thread of `key` on its CPUs come out as a failure that is told,
/// when the kernel answers `answers` one after the other.
pub open spec fn told_count(
    failed: Set<BindKey>,
    key: BindKey,
    answers: Seq<Option<Option<i32>>>,
) -> nat
    decreases answers.len(),
{
    if answers.len() == 0 {
        0
    } else {
        let rest = answers.drop_first();
        if outcome(failed, key, answers[0]) is Failed {
            1 + told_count(failed.insert(key), key, rest)
        } else {
            told_count(failed, key, rest)
        }
    }
}

/// Of any number of attempts for one thread and its CPUs one is told as a failure where the kernel
/// refuses any of them, and none where it refuses none or the thread is gone.
pub proof fn law_attempts_told_once(
    failed: Set<BindKey>,
    key: BindKey,
    answers: Seq<Option<Option<i32>>>,
)
    ensures
        told_count(failed, key, answers) == (if !failed.contains(key) && (exists|i: int|
            0 <= i < answers.len() && refused(#[trigger] answers[i])) {
            1nat
        } else {
            0nat
        }),
    decreases answers.len(),
{
    if answers.len() > 0 {
        let rest = answers.drop_first();
        law_attempts_told_once(failed, key, rest);
        law_attempts_told_once(failed.insert(key), key, rest);
        if exists|i: int| 0 <= i < rest.len() && refused(#[trigger] rest[i]) {
            let i = choose|i: int| 0 <= i < rest.len() && refused(#[trigger] rest[i]);
            assert(refused(answers[i + 1]));
        }
        if exists|i: int| 0 <= i < answers.len() && refused(#[trigger] answers[i]) {
            let i = choose|i: int| 0 <= i < answers.len() && refused(#[trigger] answers[i]);
            if i > 0 {
                assert(refused(rest[i - 1]));
            }
        }
    }
}

/// In the steps for one thread the CPUs come before the cpuset, and are set once: the first step is
/// the only one that sets them, and the last puts the thread into its cpuset where there are
/// cpusets.
pub proof fn law_affinity_before_cpuset(b: BindView, cpusets: bool, mems: Option<Seq<char>>)
    ensures
        ({
            let steps = action_steps(b, cpusets, mems);
            &&& steps.len() > 0
            &&& steps[0] == StepView::SetAffinity(b.tid, b.mask)
            &&& forall|i: int| 0 < i < steps.len() ==> !(#[trigger] steps[i] is SetAffinity)
            &&& cpusets ==> steps.len() > 1 && steps.last() == StepView::Enter(entering(b))
            &&& !cpusets ==> steps.len() == 1
        }),
{
    let steps = action_steps(b, cpusets, mems);
    let made = preparation(b, cpusets, mems);
    assert forall|i: int| 0 < i < steps.len() implies !(#[trigger] steps[i] is SetAffinity) by {
        if i <= made.len() {
            assert(steps[i] == StepView::Prepare(made[i - 1]));
        }
    }
}

/// Something that is to be done in the file system.
pub enum FsAction {
    /// Make the directory, with those above it.
    MakeDir(String),
    /// Write the file with the text.
    Write(String, String),
    /// Add the text to the end of the file.
    Append(String, String),
}

/// What an `FsAction` says.
pub enum FsView {
    MakeDir(Seq<char>),
    Write(Seq<char>, Seq<char>),
    Append(Seq<char>, Seq<char>),
}

impl View for FsAction {
    type V = FsView;

    open spec fn view(&self) -> FsView {
        match self {
            FsAction::MakeDir(path) => FsView::MakeDir(path@),
            FsAction::Write(path, s) => FsView::Write(path@, s@),
            FsAction::Append(path, s) => FsView::Append(path@, s@),
        }
    }
}

/// What the actions `v` say.
pub open spec fn fs_views(v: Seq<FsAction>) -> Seq<FsView> {
    v.map_values(|a: FsAction| a@)
}

/// `a` and `b`, one after the other.
fn joined(a: &str, b: &str) -> (r: String)
    ensures
        r@ == a@ + b@,
{
    let mut r: String = a.to_owned();
    r.append(b);
    r
}

/// What makes the cpuset in the directory `dir` with the CPUs `cpus`, and with the memory nodes
/// `mems` where those are known.
pub open spec fn cpuset_steps(
    dir: Seq<char>,
    cpus: Seq<char>,
    mems: Option<Seq<char>>,
) -> Seq<FsView> {
    let made = seq![FsView::MakeDir(dir), FsView::Write(dir + "/cpus"@, cpus)];
    match mems {
        Some(m) => made.push(FsView::Write(dir + "/mems"@, text::trimmed(m))),
        None => made,
    }
}

/// What makes the cpuset in the directory `dir`.
fn make_cpuset(dir: &str, cpus: String, mems: Option<&str>) -> (r: Vec<FsAction>)
    ensures
        fs_views(r@) == cpuset_steps(dir@, cpus@, process::opt_str(mems)),
{
    let ghost list = cpus@;
    let mut r: Vec<FsAction> = Vec::new();
    r.push(FsAction::MakeDir(dir.to_owned()));
    r.push(FsAction::Write(joined(dir, "/cpus"), cpus));
    if let Some(m) = mems {
        r.push(FsAction::Write(joined(dir, "/mems"), text::trim(m)));
    }
    assert(fs_views(r@) =~= cpuset_steps(dir@, list, process::opt_str(mems)));
    r
}

/// The cpuset that holds those of the lists of CPUs.
pub open spec fn base_dir() -> Seq<char> {
    "/dev/cpuset/AppOpt"@
}

/// The directory of the cpuset for the list `cpus`: its name has dots for the commas.
pub open spec fn list_dir(cpus: Seq<char>) -> Seq<char> {
    base_dir() + "/"@ + text::dotted(cpus)
}

/// The directory of the cpuset for the list `cpus`.
fn dir_of_list(cpus: &str) -> (r: String)
    ensures
        r@ == list_dir(cpus@),
{
    let mut r: String = joined("/dev/cpuset/AppOpt", "/");
    r.append(text::dots_for_commas(cpus).as_str());
    r
}

/// The list of the CPUs of the machine, from the text `present`; empty where it could not be read.
pub open spec fn present_list(present: Option<Seq<char>>) -> Seq<char> {
    match present {
        Some(s) => text::trimmed(s),
        None => Seq::empty(),
    }
}

/// What makes the base cpuset, on a machine where the cpuset file system `exists`: it gets the
/// CPUs `present`, where those could be read, and the memory nodes `mems`, where those could be.
/// `None` where there is no such file system: then threads are put into no cpuset.
pub fn init_cpuset(exists: bool, present: Option<&str>, mems: Option<&str>) -> (r: Option<
    Vec<FsAction>,
>)
    ensures
        r is Some <==> exists,
        r matches Some(v) ==> fs_views(v@) == cpuset_steps(
            base_dir(),
            present_list(process::opt_str(present)),
            process::opt_str(mems),
        ),
{
    if !exists {
        return None;
    }
    let cpus: String = match present {
        Some(s) => text::trim(s),
        None => String::new(),
    };
    Some(make_cpuset("/dev/cpuset/AppOpt", cpus, mems))
}

/// What makes the cpuset for the list `cpus` with the memory nodes `mems`, where those could be
/// read; nothing where threads are put into no cpuset.
pub fn ensure_cpuset(enabled: bool, cpus: &str, mems: Option<&str>) -> (r: Vec<FsAction>)
    ensures
        fs_views(r@) == (if enabled {
            cpuset_steps(list_dir(cpus@), cpus@, process::opt_str(mems))
        } else {
            Seq::empty()
        }),
{
    if !enabled {
        let r: Vec<FsAction> = Vec::new();
        assert(fs_views(r@) =~= Seq::empty());
        return r;
    }
    let dir: String = dir_of_list(cpus);
    make_cpuset(dir.as_str(), cpus.to_owned(), mems)
}

/// `tid` on a line of its own.
pub open spec fn tid_line(tid: int) -> Seq<char> {
    numeral::signed_decimal(tid) + "\n"@
}

/// `tid` on a line of its own.
fn line_of_tid(tid: i32) -> (r: String)
    ensures
        r@ == tid_line(tid as int),
{
    let mut r: String = numeral::i32_text(tid);
    r.append("\n");
    r
}

/// What puts the thread `tid` into the cpuset for the list `cpus`; nothing where threads are put
/// into no cpuset.
pub fn cpuset_add(enabled: bool, tid: i32, cpus: &str) -> (r: Option<FsAction>)
    ensures
        r is Some <==> enabled,
        r matches Some(a) ==> a@ == FsView::Write(list_dir(cpus@) + "/tasks"@, tid_line(tid as int)),
{
    if !enabled {
        return None;
    }
    let dir: String = dir_of_list(cpus);
    Some(FsAction::Write(joined(dir.as_str(), "/tasks"), line_of_tid(tid)))
}

/// Whether a failure to put a thread into a cpuset is told, when the kernel answered with the error
/// `code`, where it has a number: it is not where the thread is gone.
pub fn add_failure_told(code: Option<i32>) -> (r: bool)
    ensures
        r == (code != Some(NO_SUCH_THREAD)),
{
    match code {
        Some(n) => n != NO_SUCH_THREAD,
        None => true,
    }
}

/// The file `tasks` of the cpuset `dir` under `base`; that of `base` itself where `dir` is empty.
pub open spec fn tasks_path(base: Seq<char>, dir: Seq<char>) -> Seq<char> {
    if dir.len() == 0 {
        base + "/tasks"@
    } else {
        base + "/"@ + dir + "/tasks"@
    }
}

/// What comes before putting the thread `tid` on the CPUs `cpus`, when the CPUs that it is on were
/// seen to be `seen`. `None` where it is on them already, and nothing is left to do. Else the
/// thread is put into the cpuset `cpuset_dir` under `base`, or into `base` itself where
/// `cpuset_dir` is empty, on a machine where that can be done.
pub fn affinity_set(
    tid: i32,
    cpus: &CpuSet,
    cpuset_dir: &str,
    topo: &CpuTopology,
    base: &str,
    seen: Option<CpuSet>,
) -> (r: Option<Option<FsAction>>)
    ensures
        r is None <==> seen_mask(seen) == Some(cpus.mask),
        r matches Some(write) ==> {
            &&& write is Some <==> topo.cpuset_enabled
            &&& write matches Some(a) ==> a@ == FsView::Append(
                tasks_path(base@, cpuset_dir@),
                tid_line(tid as int),
            )
        },
{
    if let Some(c) = seen {
        if c == *cpus {
            return None;
        }
    }
    if !topo.cpuset_enabled {
        return Some(None);
    }
    let path: String = if cpuset_dir.is_empty() {
        joined(base, "/tasks")
    } else {
        let mut p: String = joined(base, "/");
        p.append(cpuset_dir);
        p.append("/tasks");
        p
    };
    Some(Some(FsAction::Append(path, line_of_tid(tid))))
}

/// Whether a thread is gone, after what became of putting it on its CPUs.
pub fn thread_gone(outcome: BindOutcome) -> (r: bool)
    ensures
        r == (outcome is Gone),
{
    match outcome {
        BindOutcome::Gone => true,
        _ => false,
    }
}

} // verus!
