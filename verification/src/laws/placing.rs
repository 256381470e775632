//! Which rule places a thread.

use vstd::prelude::*;

use crate::config;
use crate::cpuset;
use crate::process;

verus! {

/// `s` is what the pattern `pat` says: `pat` itself, or `pat` with some text in the place of its
/// first star. The empty pattern says nothing.
pub open spec fn says(pat: Seq<char>, s: Seq<char>) -> bool {
    ||| pat.len() > 0 && !pat.contains('*') && s == pat
    ||| exists|front: Seq<char>, mid: Seq<char>, back: Seq<char>|
        !front.contains('*') && pat == front + seq!['*'] + back && s == #[trigger] ((front + mid)
            + back)
}

/// `name` is a part of the package `pkg`: its name, a colon and the name of the part.
pub open spec fn part_of(pkg: Seq<char>, name: Seq<char>) -> bool {
    exists|part: Seq<char>| name == #[trigger] (pkg + seq![':'] + part)
}

/// The rule is meant for the thread `comm` of the process `pkg`.
pub open spec fn meant_for(rule: config::RuleView, pkg: Seq<char>, comm: Seq<char>) -> bool {
    &&& says(rule.pkg, pkg) || part_of(rule.pkg, pkg)
    &&& rule.thread == Seq::<char>::empty() || says(rule.thread, comm)
}

/// The weight of a rule: 200 for a whole package, else its priority.
pub open spec fn weight(rule: config::RuleView) -> int {
    if rule.thread == Seq::<char>::empty() {
        200
    } else {
        rule.prio
    }
}

/// A pattern matches just the texts that it says.
pub proof fn law_pattern_says(pat: Seq<char>, s: Seq<char>)
    ensures
        config::pattern_matches(pat, s) <==> says(pat, s),
{
    if pat.contains('*') {
        let n = pat.index_of_first('*').unwrap();
        pat.index_of_first_ensures('*');
        let front = pat.take(n);
        let back = pat.skip(n + 1);
        assert(pat =~= front + seq!['*'] + back);
        assert(!front.contains('*')) by {
            if front.contains('*') {
                let k = choose|k: int| 0 <= k < front.len() && front[k] == '*';
                assert(pat[k] == '*');
            }
        }
        config::law_patterns(front, back, s);
        if config::pattern_matches(pat, s) {
            let mid = choose|mid: Seq<char>| s == #[trigger] (front + mid) + back;
            assert(s == ((front + mid) + back));
        }
        if says(pat, s) {
            let (f, m, b) = choose|f: Seq<char>, m: Seq<char>, b: Seq<char>|
                !f.contains('*') && pat == f + seq!['*'] + b && s == #[trigger] ((f + m) + b);
            assert(f + seq!['*'] + b == pat);
            assert(pat[f.len() as int] == '*');
            if f.len() > n {
                assert(f[n] == pat[n]);
                assert(f.contains(f[n]));
            }
            if f.len() < n {
                assert(front[f.len() as int] == pat[f.len() as int]);
                assert(front.contains(front[f.len() as int]));
            }
            assert(f =~= front);
            assert(b =~= back) by {
                assert(pat.skip(n + 1) =~= b);
            }
            assert(s == (front + m) + back);
        }
    } else {
        if says(pat, s) && !(pat.len() > 0 && s == pat) {
            let (f, m, b) = choose|f: Seq<char>, m: Seq<char>, b: Seq<char>|
                !f.contains('*') && pat == f + seq!['*'] + b && s == #[trigger] ((f + m) + b);
            assert(pat[f.len() as int] == '*');
            assert(pat.contains(pat[f.len() as int]));
        }
        if pat.len() > 0 {
            config::law_patterns(pat, Seq::empty(), s);
        }
    }
}

/// A pattern is for a process just where it says its name, or where the process is a part of the
/// package of that name.
pub proof fn law_process_of_pattern(pat: Seq<char>, name: Seq<char>)
    ensures
        process::pkg_pattern(pat, name) <==> says(pat, name) || part_of(pat, name),
{
    law_pattern_says(pat, name);
    let n = pat.len() as int;
    if name.len() > n && name[n] == ':' && pat.is_prefix_of(name) {
        assert(name =~= pat + seq![':'] + name.skip(n + 1));
    }
    if part_of(pat, name) {
        let part = choose|part: Seq<char>| name == #[trigger] (pat + seq![':'] + part);
        assert(name.take(n) =~= pat);
    }
}

/// A rule is for a thread just where its package says the name of the process, or the process is
/// a part of it, and it has no name of a thread or one that says the name of the thread. So a
/// rule for a thread of a package is for that thread in each part of the package too.
pub proof fn law_rule_is_for(rule: config::RuleView, pkg: Seq<char>, comm: Seq<char>)
    ensures
        process::rule_applies(rule, pkg, comm) <==> meant_for(rule, pkg, comm),
{
    law_process_of_pattern(rule.pkg, pkg);
    law_pattern_says(rule.thread, comm);
    if rule.thread.len() == 0 {
        assert(rule.thread =~= Seq::<char>::empty());
    }
}

/// Of the rules that are meant for a thread, the heaviest places it, the first of them where
/// several weigh the same.
pub proof fn law_heaviest_rule_places(
    rules: Seq<config::RuleView>,
    pkg: Seq<char>,
    comm: Seq<char>,
    i: int,
)
    requires
        0 <= i < rules.len(),
        meant_for(rules[i], pkg, comm),
        weight(rules[i]) >= 0,
        forall|j: int|
            0 <= j < rules.len() && meant_for(#[trigger] rules[j], pkg, comm) ==> weight(rules[j])
                < weight(rules[i]) || (weight(rules[j]) == weight(rules[i]) && i <= j),
    ensures
        process::placement(rules, pkg, comm) == cpuset::list_mask(rules[i].cpus),
{
    assert forall|j: int| 0 <= j < rules.len() implies (process::rule_applies(
        #[trigger] rules[j],
        pkg,
        comm,
    ) <==> meant_for(rules[j], pkg, comm)) && process::rule_rank(rules[j]) == weight(rules[j]) by {
        law_rule_is_for(rules[j], pkg, comm);
        if rules[j].thread.len() == 0 {
            assert(rules[j].thread =~= Seq::<char>::empty());
        }
    }
    assert(process::rule_counts(rules, pkg, comm, i));
    let k = choose|k: int| process::rule_counts(rules, pkg, comm, k);
    process::lemma_rule_counts_once(rules, pkg, comm, i, k);
}

/// A thread that no rule is meant for has no CPUs of its own.
pub proof fn law_no_rule_no_cpus(rules: Seq<config::RuleView>, pkg: Seq<char>, comm: Seq<char>)
    requires
        forall|j: int|
            0 <= j < rules.len() ==> !meant_for(#[trigger] rules[j], pkg, comm) || weight(rules[j])
                < 0,
    ensures
        process::placement(rules, pkg, comm) == 0,
{
    assert forall|i: int| !process::rule_counts(rules, pkg, comm, i) by {
        if process::rule_counts(rules, pkg, comm, i) {
            law_rule_is_for(rules[i], pkg, comm);
            if rules[i].thread.len() == 0 {
                assert(rules[i].thread =~= Seq::<char>::empty());
            }
        }
    }
}

/// A rule that names a thread outright, and that none outweighs, places that thread in the
/// package of the rule and in every part of it; of rules with the same weight the first does.
pub proof fn law_named_thread_in_every_part(
    rules: Seq<config::RuleView>,
    i: int,
    part: Seq<char>,
)
    requires
        0 <= i < rules.len(),
        rules[i].pkg.len() > 0,
        !rules[i].pkg.contains('*'),
        !rules[i].pkg.contains(':'),
        rules[i].thread.len() > 0,
        !rules[i].thread.contains('*'),
        rules[i].prio >= 0,
        forall|j: int|
            0 <= j < rules.len() && j != i ==> weight(#[trigger] rules[j]) < rules[i].prio || (weight(
                rules[j],
            ) == rules[i].prio && i < j),
    ensures
        process::placement(rules, rules[i].pkg, rules[i].thread) == cpuset::list_mask(
            rules[i].cpus,
        ),
        process::placement(rules, rules[i].pkg + seq![':'] + part, rules[i].thread)
            == cpuset::list_mask(rules[i].cpus),
{
    assert(says(rules[i].pkg, rules[i].pkg));
    assert(says(rules[i].thread, rules[i].thread));
    assert(part_of(rules[i].pkg, rules[i].pkg + seq![':'] + part));
    assert(weight(rules[i]) == rules[i].prio);
    law_heaviest_rule_places(rules, rules[i].pkg, rules[i].thread, i);
    law_heaviest_rule_places(rules, rules[i].pkg + seq![':'] + part, rules[i].thread, i);
}

/// A thread has the same CPUs in the package and in a part of it, where every rule names its
/// package outright and none is for the part alone.
pub proof fn law_parts_are_placed_alike(
    rules: Seq<config::RuleView>,
    pkg: Seq<char>,
    part: Seq<char>,
    comm: Seq<char>,
)
    requires
        pkg.len() > 0,
        forall|j: int|
            0 <= j < rules.len() ==> !(#[trigger] rules[j]).pkg.contains('*')
                && !rules[j].pkg.contains(':'),
        !pkg.contains(':'),
        forall|j: int| 0 <= j < rules.len() ==> (#[trigger] rules[j]).pkg.len() > 0,
    ensures
        process::placement(rules, pkg + seq![':'] + part, comm) == process::placement(
            rules,
            pkg,
            comm,
        ),
{
    let name = pkg + seq![':'] + part;
    assert forall|j: int| 0 <= j < rules.len() implies (meant_for(#[trigger] rules[j], name, comm)
        <==> meant_for(rules[j], pkg, comm)) by {
        let r = rules[j];
        lemma_plain_pattern(r.pkg, pkg);
        lemma_plain_pattern(r.pkg, name);
        assert(name[pkg.len() as int] == ':');
        assert(name.contains(name[pkg.len() as int]));
        if part_of(r.pkg, pkg) {
            let p = choose|p: Seq<char>| pkg == #[trigger] (r.pkg + seq![':'] + p);
            assert(pkg[r.pkg.len() as int] == ':');
            assert(pkg.contains(pkg[r.pkg.len() as int]));
        }
        if part_of(r.pkg, name) {
            let p = choose|p: Seq<char>| name == #[trigger] (r.pkg + seq![':'] + p);
            assert(name[r.pkg.len() as int] == ':');
            if r.pkg.len() < pkg.len() {
                assert(pkg[r.pkg.len() as int] == ':');
                assert(pkg.contains(pkg[r.pkg.len() as int]));
            }
            if r.pkg.len() > pkg.len() {
                assert((r.pkg + seq![':'] + p)[pkg.len() as int] == r.pkg[pkg.len() as int]);
                assert(r.pkg.contains(r.pkg[pkg.len() as int]));
            }
            assert(r.pkg =~= name.take(r.pkg.len() as int));
            assert(r.pkg =~= pkg);
        }
        if r.pkg == pkg {
            assert(part_of(r.pkg, r.pkg + seq![':'] + part));
        }
    }
    assert forall|i: int|
        process::rule_counts(rules, name, comm, i) <==> process::rule_counts(
            rules,
            pkg,
            comm,
            i,
        ) by {
        assert forall|j: int| 0 <= j < rules.len() implies (process::rule_applies(
            #[trigger] rules[j],
            name,
            comm,
        ) <==> process::rule_applies(rules[j], pkg, comm)) by {
            law_rule_is_for(rules[j], name, comm);
            law_rule_is_for(rules[j], pkg, comm);
        }
    }
    if exists|i: int| process::rule_counts(rules, pkg, comm, i) {
        let a = choose|i: int| process::rule_counts(rules, pkg, comm, i);
        assert(process::rule_counts(rules, name, comm, a));
        let b = choose|i: int| process::rule_counts(rules, name, comm, i);
        process::lemma_rule_counts_once(rules, pkg, comm, a, b);
    }
}

/// A pattern without a star says itself alone.
pub proof fn lemma_plain_pattern(pat: Seq<char>, s: Seq<char>)
    requires
        pat.len() > 0,
        !pat.contains('*'),
    ensures
        says(pat, s) <==> s == pat,
{
    if says(pat, s) && s != pat {
        let (f, m, b) = choose|f: Seq<char>, m: Seq<char>, b: Seq<char>|
            !f.contains('*') && pat == f + seq!['*'] + b && s == #[trigger] ((f + m) + b);
        assert(pat[f.len() as int] == '*');
        assert(pat.contains(pat[f.len() as int]));
    }
}

} // verus!
