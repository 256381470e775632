//! What a configuration says, from the entries that are written in it.

use vstd::prelude::*;

use crate::config;
use crate::config::AppConfig;
use crate::cpuset;
use crate::document;
use crate::document::{Field, Tree};
use crate::laws::documents;
use crate::laws::placing;
use crate::process;
use crate::text;

verus! {

/// Of the characters of a pattern those count that are no star, question mark or bracket.
pub proof fn law_plain_characters(a: Seq<char>, b: Seq<char>, c: char)
    ensures
        config::plain_count(a + b) == config::plain_count(a) + config::plain_count(b),
        config::plain_count(seq![c]) == (if c == '*' || c == '?' || c == '[' || c == ']' {
            0int
        } else {
            1int
        }),
    decreases b.len(),
{
    assert(seq![c].drop_last() =~= Seq::<char>::empty());
    assert(config::plain_count(Seq::<char>::empty()) == 0);
    if b.len() == 0 {
        assert(a + b =~= a);
    } else {
        law_plain_characters(a, b.drop_last(), c);
        assert((a + b).drop_last() =~= a + b.drop_last());
        assert((a + b).last() == b.last());
    }
}

/// The priority of a pattern: 200 for none, 1000 and the bytes for a plain name, and for a
/// pattern 500, 300 or 100 with its plain characters, as it has a bracket, a question mark or
/// only stars.
pub proof fn law_priorities(pat: Seq<char>)
    requires
        vstd::utf8::encode_utf8(pat).len() <= 2147480000,
        config::plain_count(pat) <= 2147480000,
    ensures
        pat.len() == 0 ==> config::prio_of(pat) == 200,
        pat.len() > 0 && !pat.contains('*') && !pat.contains('?') ==> config::prio_of(pat) == 1000
            + vstd::utf8::encode_utf8(pat).len(),
        (pat.contains('*') || pat.contains('?')) && pat.contains('[') ==> config::prio_of(pat)
            == 500 + config::plain_count(pat),
        pat.contains('?') && !pat.contains('[') ==> config::prio_of(pat) == 300
            + config::plain_count(pat),
        pat.contains('*') && !pat.contains('?') && !pat.contains('[') ==> config::prio_of(pat)
            == 100 + config::plain_count(pat),
{
}

/// The packages of an entry are the texts of its array `packages`, and the CPUs of the package
/// the text `other` of its `cpuset`, which is CPU 0 where it has none.
pub proof fn law_entry_head(e: Tree)
    ensures
        e.get("packages"@) matches Tree::Array(v) ==> config::packages(e) == document::texts(v),
        !(e.get("packages"@) is Array) ==> config::packages(e).len() == 0,
        e.get("cpuset"@).get("other"@) matches Tree::Text(s) ==> config::other_cpus(e) == s,
        !(e.get("cpuset"@).get("other"@) is Text) ==> config::other_cpus(e) == seq!['0'],
{
    reveal_strlit("0");
    assert("0"@ =~= seq!['0']);
}

/// The rules for threads of two groups of lists, one after the other, are those of each. A list
/// alone gives one rule for each of its texts, in their order: for that thread of the package, on
/// the CPUs that the list stands under, with the priority of the text and no cpuset.
pub proof fn law_thread_rules(pkg: Seq<char>, a: Seq<Field>, b: Seq<Field>, f: Field, i: int)
    ensures
        config::thread_rules(pkg, a + b) == config::thread_rules(pkg, a) + config::thread_rules(
            pkg,
            b,
        ),
        !(f.value is Array) ==> config::thread_rules(pkg, seq![f]).len() == 0,
        f.value matches Tree::Array(v) ==> config::thread_rules(pkg, seq![f]).len()
            == document::texts(v).len(),
        f.value matches Tree::Array(v) ==> 0 <= i < document::texts(v).len() ==> {
            let r = config::thread_rules(pkg, seq![f])[i];
            r.pkg == pkg && r.thread == document::texts(v)[i] && r.cpus == f.key && r.prio
                == config::prio_of(document::texts(v)[i]) && r.cpuset_dir == Seq::<char>::empty()
        },
    decreases b.len(),
{
    let none = Seq::<Field>::empty();
    assert(seq![f].drop_last() =~= none);
    assert(config::thread_rules(pkg, none) =~= Seq::empty());
    if b.len() == 0 {
        assert(a + b =~= a);
        assert(config::thread_rules(pkg, a) + config::thread_rules(pkg, b)
            =~= config::thread_rules(pkg, a));
    } else {
        law_thread_rules(pkg, a, b.drop_last(), f, i);
        assert((a + b).drop_last() =~= a + b.drop_last());
        assert((a + b).last() == b.last());
        assert(config::thread_rules(pkg, a + b) =~= config::thread_rules(pkg, a)
            + config::thread_rules(pkg, b));
    }
}

/// An entry without a package gives no rule. Another gives first the rule for its first package
/// as a whole, with the weight 200, and after it the rules for threads that stand in `comm` of
/// its `cpuset`.
pub proof fn law_entry_rules(e: Tree, dir: Seq<char>)
    ensures
        config::packages(e).len() == 0 ==> config::entry_rules(e, dir).len() == 0,
        config::packages(e).len() > 0 ==> {
            let all = config::entry_rules(e, dir);
            &&& all.len() > 0
            &&& all[0].pkg == config::packages(e)[0]
            &&& all[0].thread == Seq::<char>::empty()
            &&& all[0].cpus == config::other_cpus(e)
            &&& all[0].prio == 200
            &&& all[0].cpuset_dir == dir
            &&& e.get("cpuset"@).get("comm"@) matches Tree::Object(lists) ==> all.drop_first()
                == config::thread_rules(config::packages(e)[0], lists)
            &&& !(e.get("cpuset"@).get("comm"@) is Object) ==> all.len() == 1
        },
{
    if config::packages(e).len() > 0 {
        let lists = e.get("cpuset"@).get("comm"@).entries();
        assert(config::entry_rules(e, dir).drop_first() =~= config::thread_rules(
            config::packages(e)[0],
            lists,
        ));
        if !(e.get("cpuset"@).get("comm"@) is Object) {
            assert(config::thread_rules(config::packages(e)[0], lists).len() == 0);
        }
    }
}

/// Every text of every list of an entry is the thread of a rule, on the CPUs of its list.
pub proof fn law_every_listed_thread(e: Tree, dir: Seq<char>, lists: Seq<Field>, k: int, i: int)
    requires
        config::packages(e).len() > 0,
        e.get("cpuset"@).get("comm"@) == Tree::Object(lists),
        0 <= k < lists.len(),
        lists[k].value is Array,
        0 <= i < lists[k].value->Array_0.len(),
        lists[k].value->Array_0[i] is Text,
    ensures
        exists|m: int|
            0 < m < config::entry_rules(e, dir).len() && {
                let r = #[trigger] config::entry_rules(e, dir)[m];
                r.pkg == config::packages(e)[0] && r.thread == lists[k].value->Array_0[i]->Text_0
                    && r.cpus == lists[k].key && r.prio == config::prio_of(r.thread)
            },
{
    let pkg = config::packages(e)[0];
    let v = lists[k].value->Array_0;
    let a = v.take(i);
    let b = v.skip(i + 1);
    documents::law_texts(a, seq![v[i]] + b, v[i]);
    documents::law_texts(seq![v[i]], b, v[i]);
    assert(v =~= a + (seq![v[i]] + b));
    let at = document::texts(a).len() as int;
    assert(document::texts(v)[at] == v[i]->Text_0);
    let x = lists.take(k);
    let y = lists.skip(k + 1);
    law_thread_rules(pkg, x, seq![lists[k]] + y, lists[k], at);
    law_thread_rules(pkg, seq![lists[k]], y, lists[k], at);
    assert(lists =~= x + (seq![lists[k]] + y));
    law_entry_rules(e, dir);
    let m = config::thread_rules(pkg, x).len() + at;
    assert(config::thread_rules(pkg, lists)[m as int] == config::thread_rules(
        pkg,
        seq![lists[k]],
    )[at]);
    assert(config::entry_rules(e, dir)[m + 1] == config::entry_rules(e, dir).drop_first()[m
        as int]);
}

/// The answers for the entries behind the first `n` that take one.
pub open spec fn later(made: Seq<bool>, n: nat) -> Seq<bool> {
    if n <= made.len() {
        made.skip(n as int)
    } else {
        Seq::empty()
    }
}

/// Entries in two groups, one after the other, say what each group says; each entry with a
/// package takes one of the answers on directories. One entry alone keeps its package's cpuset
/// where its answer is that the directory is there, and has none otherwise.
pub proof fn law_entries_split(a: Seq<Tree>, b: Seq<Tree>, e: Tree, made: Seq<bool>)
    ensures
        config::kept_count(a + b) == config::kept_count(a) + config::kept_count(b),
        config::kept_count(seq![e]) == (if config::packages(e).len() > 0 {
            1int
        } else {
            0int
        }),
        config::all_packages(a + b) == config::all_packages(a) + config::all_packages(b),
        config::all_packages(seq![e]) == config::packages(e),
        config::all_rules(a + b, made) == config::all_rules(a, made) + config::all_rules(
            b,
            later(made, config::kept_count(a)),
        ),
        made.len() > 0 && made[0] ==> config::all_rules(seq![e], made) == config::entry_rules(
            e,
            config::cpuset_name(config::other_cpus(e)),
        ),
        made.len() == 0 || !made[0] ==> config::all_rules(seq![e], made) == config::entry_rules(
            e,
            Seq::empty(),
        ),
    decreases b.len(),
{
    let none = Seq::<Tree>::empty();
    assert(seq![e].drop_last() =~= none);
    assert(config::all_rules(none, made) =~= Seq::empty());
    assert(config::all_packages(none) =~= Seq::empty());
    assert(config::kept_count(none) == 0);
    assert(config::all_packages(seq![e]) =~= config::packages(e));
    assert(config::all_rules(seq![e], made) =~= config::entry_rules(
        e,
        config::made_dir(e, made, 0),
    ));
    let rest = later(made, config::kept_count(a));
    if b.len() == 0 {
        assert(a + b =~= a);
        assert(config::all_rules(a, made) + config::all_rules(b, rest) =~= config::all_rules(
            a,
            made,
        ));
        assert(config::all_packages(a) + config::all_packages(b) =~= config::all_packages(a));
    } else {
        let w = b.drop_last();
        law_entries_split(a, w, e, made);
        assert((a + b).drop_last() =~= a + w);
        assert((a + b).last() == b.last());
        assert(config::made_dir(b.last(), made, config::kept_count(a + w)) =~= config::made_dir(
            b.last(),
            rest,
            config::kept_count(w),
        ));
        assert(config::all_rules(a + b, made) =~= config::all_rules(a, made) + config::all_rules(
            b,
            rest,
        ));
        assert(config::all_packages(a + b) =~= config::all_packages(a) + config::all_packages(b));
    }
}

/// Of the packages those with a star or a question mark are patterns, in their order.
pub proof fn law_patterns_among(a: Seq<Seq<char>>, b: Seq<Seq<char>>, one: Seq<char>)
    ensures
        config::wild_among(a + b) == config::wild_among(a) + config::wild_among(b),
        one.contains('*') || one.contains('?') ==> config::wild_among(seq![one]) == seq![one],
        !one.contains('*') && !one.contains('?') ==> config::wild_among(seq![one]) == Seq::<
            Seq<char>,
        >::empty(),
    decreases b.len(),
{
    let none = Seq::<Seq<char>>::empty();
    assert(seq![one].drop_last() =~= none);
    assert(config::wild_among(none) =~= none);
    assert(none.push(one) =~= seq![one]);
    if b.len() == 0 {
        assert(a + b =~= a);
    } else {
        law_patterns_among(a, b.drop_last(), one);
        assert((a + b).drop_last() =~= a + b.drop_last());
        assert((a + b).last() == b.last());
    }
}

/// The directories that entries want: for each entry with a package one below the base, named
/// by its CPUs, with these CPUs and the memory nodes of the machine.
pub proof fn law_wanted_directories(
    a: Seq<Tree>,
    b: Seq<Tree>,
    e: Tree,
    base: Seq<char>,
    mems: Seq<char>,
)
    ensures
        config::wanted_dirs(a + b, base, mems) == config::wanted_dirs(a, base, mems)
            + config::wanted_dirs(b, base, mems),
        config::packages(e).len() == 0 ==> config::wanted_dirs(seq![e], base, mems).len() == 0,
        config::packages(e).len() > 0 ==> {
            let all = config::wanted_dirs(seq![e], base, mems);
            &&& all.len() == 1
            &&& all[0].path == base + seq!['/'] + config::cpuset_name(config::other_cpus(e))
            &&& all[0].cpus == config::cpuset_name(config::other_cpus(e))
            &&& all[0].mems == mems
        },
    decreases b.len(),
{
    let none = Seq::<Tree>::empty();
    assert(seq![e].drop_last() =~= none);
    assert(config::wanted_dirs(none, base, mems) =~= Seq::empty());
    if b.len() == 0 {
        assert(a + b =~= a);
    } else {
        law_wanted_directories(a, b.drop_last(), e, base, mems);
        assert((a + b).drop_last() =~= a + b.drop_last());
        assert((a + b).last() == b.last());
    }
}

/// Directories are asked for just where cpusets are in use and the document is a configuration.
pub proof fn law_requests(
    root: Tree,
    v: Seq<Tree>,
    base: Seq<char>,
    mems: Seq<char>,
)
    ensures
        config::requests_of(root, false, base, mems).len() == 0,
        config::config_entries(root) is None ==> config::requests_of(root, true, base, mems).len()
            == 0,
        config::config_entries(root) == Some(v) ==> config::requests_of(root, true, base, mems)
            == config::wanted_dirs(v, base, mems),
{
}

/// A configuration is an array of entries, or an object with such an array under `rules`. Nothing
/// else is one.
pub proof fn law_configuration(root: Tree)
    ensures
        root matches Tree::Array(v) ==> config::config_entries(root) == Some(v),
        root is Object ==> match root.get("rules"@) {
            Tree::Array(v) => config::config_entries(root) == Some(v),
            _ => config::config_entries(root) is None,
        },
        !(root is Array) && !(root is Object) ==> config::config_entries(root) is None,
{
    reveal_strlit("rules");
    reveal_strlit("nekonemo");
    if root is Object && root.get("rules"@) is Array && config::only_greets(root) {
        documents::law_got_from_entry(root, "rules"@);
        documents::law_got_from_entry(root, "nekonemo"@);
        let v = root->Object_0;
        let i = choose|i: int| #[trigger]
            documents::first_with_key(v, i) && v[i].key == "rules"@ && v[i].value == root.get(
                "rules"@,
            );
        let j = choose|j: int| #[trigger]
            documents::first_with_key(v, j) && v[j].key == "nekonemo"@ && v[j].value == root.get(
                "nekonemo"@,
            );
        assert(i == j);
        assert("rules"@.len() != "nekonemo"@.len());
    }
}

/// A document only greets just where `nekonemo` with the text `meow` is all that it says.
pub proof fn law_greeting(root: Tree)
    ensures
        config::only_greets(root) <==> (root matches Tree::Object(v) && v.len() == 1 && v[0].key
            == "nekonemo"@ && v[0].value == Tree::Text("meow"@)),
{
    if config::only_greets(root) {
        documents::law_got_from_entry(root, "nekonemo"@);
        let v = root->Object_0;
        let i = choose|i: int| #[trigger]
            documents::first_with_key(v, i) && v[i].key == "nekonemo"@ && v[i].value == root.get(
                "nekonemo"@,
            );
        assert(i == 0);
    }
    if let Tree::Object(v) = root {
        if v.len() == 1 && v[0].key == "nekonemo"@ {
            documents::law_get_entry(v, 0);
        }
    }
}

/// New processes are to be reported by the kernel just where `ebpf` under `features` is `true`:
/// not where it is `false`, no boolean or missing.
pub proof fn law_kernel_switch(c: AppConfig, root: Tree, made: Seq<bool>)
    requires
        c.describes(root, made),
    ensures
        c.ebpf <==> root.get("features"@).get("ebpf"@) == Tree::Bool(true),
        root.get("features"@).get("ebpf"@) == Tree::Bool(false) ==> !c.ebpf,
        !(root.get("features"@).get("ebpf"@) is Bool) ==> !c.ebpf,
        !(root.get("features"@) is Object) ==> !c.ebpf,
        root is Array ==> !c.ebpf,
        forall|v: Seq<Field>, i: int, w: Seq<Field>, j: int|
            root == Tree::Object(v) && #[trigger] documents::first_with_key(v, i) && v[i].key
                == "features"@ && v[i].value == Tree::Object(w) && #[trigger]
                documents::first_with_key(w, j) && w[j].key == "ebpf"@ ==> (c.ebpf <==> w[j].value
                == Tree::Bool(true)),
{
    assert forall|v: Seq<Field>, i: int, w: Seq<Field>, j: int|
        root == Tree::Object(v) && #[trigger] documents::first_with_key(v, i) && v[i].key
            == "features"@ && v[i].value == Tree::Object(w) && #[trigger] documents::first_with_key(
            w,
            j,
        ) && w[j].key == "ebpf"@ implies (c.ebpf <==> w[j].value == Tree::Bool(true)) by {
        documents::law_get_entry(v, i);
        documents::law_get_entry(w, j);
    }
}

/// What a loaded configuration holds: the rules of its entries, the packages that any of them
/// names, and those of these that are patterns.
pub proof fn law_loaded(c: AppConfig, root: Tree, v: Seq<Tree>, made: Seq<bool>, pkg: Seq<char>)
    requires
        c.describes(root, made),
        config::config_entries(root) == Some(v),
    ensures
        config::rule_views(c.rules@) == config::all_rules(v, made),
        c.pkg_set@.contains(pkg) <==> exists|i: int|
            0 <= i < v.len() && config::packages(#[trigger] v[i]).contains(pkg),
        text::views(c.wild@) == config::wild_among(config::all_packages(v)),
{
    lemma_packages_of(v, pkg);
}

/// A thread that an entry of the configuration lists by its plain name runs on the CPUs that the
/// list stands under, in the first package of the entry and in every part of it, unless a rule
/// for other CPUs that is meant for it weighs as much.
pub proof fn law_listed_thread_runs(
    c: AppConfig,
    root: Tree,
    v: Seq<Tree>,
    made: Seq<bool>,
    k: int,
    lists: Seq<Field>,
    m: int,
    i: int,
    proc: Seq<char>,
)
    requires
        c.describes(root, made),
        config::config_entries(root) == Some(v),
        0 <= k < v.len(),
        config::packages(v[k]).len() > 0,
        config::packages(v[k])[0].len() > 0,
        !config::packages(v[k])[0].contains('*'),
        v[k].get("cpuset"@).get("comm"@) == Tree::Object(lists),
        0 <= m < lists.len(),
        lists[m].value is Array,
        0 <= i < lists[m].value->Array_0.len(),
        lists[m].value->Array_0[i] is Text,
        lists[m].value->Array_0[i]->Text_0.len() > 0,
        !lists[m].value->Array_0[i]->Text_0.contains('*'),
        config::prio_of(lists[m].value->Array_0[i]->Text_0) >= 0,
        proc == config::packages(v[k])[0] || placing::part_of(config::packages(v[k])[0], proc),
        forall|j: int|
            0 <= j < c.rules@.len() && placing::meant_for(
                #[trigger] config::rule_views(c.rules@)[j],
                proc,
                lists[m].value->Array_0[i]->Text_0,
            ) ==> c.rules@[j].cpus@ == lists[m].key || placing::weight(
                config::rule_views(c.rules@)[j],
            ) < config::prio_of(lists[m].value->Array_0[i]->Text_0),
    ensures
        process::placement(
            config::rule_views(c.rules@),
            proc,
            lists[m].value->Array_0[i]->Text_0,
        ) == cpuset::list_mask(lists[m].key),
{
    let all = config::rule_views(c.rules@);
    let t = lists[m].value->Array_0[i]->Text_0;
    let pkg = config::packages(v[k])[0];
    let rest = later(made, config::kept_count(v.take(k)));
    let dir = if rest.len() > 0 && rest[0] {
        config::cpuset_name(config::other_cpus(v[k]))
    } else {
        Seq::empty()
    };
    let x = config::all_rules(v.take(k), made);
    let y = config::entry_rules(v[k], dir);
    law_entries_split(v.take(k), seq![v[k]] + v.skip(k + 1), v[k], made);
    law_entries_split(seq![v[k]], v.skip(k + 1), v[k], rest);
    assert(v =~= v.take(k) + (seq![v[k]] + v.skip(k + 1)));
    law_every_listed_thread(v[k], dir, lists, m, i);
    let n = choose|n: int|
        0 < n < config::entry_rules(v[k], dir).len() && {
            let r = #[trigger] config::entry_rules(v[k], dir)[n];
            r.pkg == pkg && r.thread == t && r.cpus == lists[m].key && r.prio == config::prio_of(
                r.thread,
            )
        };
    let at = x.len() + n;
    assert(all[at as int] == y[n]);
    assert(placing::says(pkg, pkg));
    assert(placing::says(t, t));
    assert(placing::meant_for(all[at as int], proc, t));
    placing::law_rule_is_for(all[at as int], proc, t);
    process::law_placement(all, proc, t);
    let b = choose|b: int| #[trigger]
        process::rule_counts(all, proc, t, b) && process::placement(all, proc, t)
            == cpuset::list_mask(all[b].cpus);
    placing::law_rule_is_for(all[b], proc, t);
    assert(process::rule_applies(all[at as int], proc, t));
    assert(process::rule_rank(all[b]) >= config::prio_of(t));
    assert(all[b].cpus == c.rules@[b].cpus@);
    if all[b].thread.len() == 0 {
        assert(all[b].thread =~= Seq::<char>::empty());
    }
}

/// The packages of entries are those of any of them.
proof fn lemma_packages_of(v: Seq<Tree>, pkg: Seq<char>)
    ensures
        config::all_packages(v).contains(pkg) <==> exists|i: int|
            0 <= i < v.len() && config::packages(#[trigger] v[i]).contains(pkg),
    decreases v.len(),
{
    if v.len() > 0 {
        let w = v.drop_last();
        lemma_packages_of(w, pkg);
        let x = config::all_packages(w);
        let y = config::packages(v.last());
        if config::all_packages(v).contains(pkg) {
            let k = choose|k: int| 0 <= k < (x + y).len() && (x + y)[k] == pkg;
            if k < x.len() {
                assert(x.contains(x[k]));
                let i = choose|i: int|
                    0 <= i < w.len() && config::packages(#[trigger] w[i]).contains(pkg);
                assert(v[i] == w[i]);
            } else {
                assert(y.contains(y[k - x.len()]));
                assert(v[v.len() - 1] == v.last());
            }
        }
        if exists|i: int| 0 <= i < v.len() && config::packages(#[trigger] v[i]).contains(pkg) {
            let i = choose|i: int|
                0 <= i < v.len() && config::packages(#[trigger] v[i]).contains(pkg);
            if i < w.len() {
                assert(w[i] == v[i]);
                let k = choose|k: int| 0 <= k < x.len() && x[k] == pkg;
                assert((x + y)[k] == pkg);
            } else {
                let k = choose|k: int| 0 <= k < y.len() && y[k] == pkg;
                assert((x + y)[x.len() + k] == pkg);
            }
        }
    }
}

/// The rules in memory say what they hold, one for one; so do the requests for directories.
pub proof fn law_rules_say(v: Seq<config::Rule>, w: Seq<config::DirRequest>, i: int)
    ensures
        config::rule_views(v).len() == v.len(),
        0 <= i < v.len() ==> {
            let r = config::rule_views(v)[i];
            r.pkg == v[i].pkg@ && r.thread == v[i].thread@ && r.cpus == v[i].cpus@ && r.prio
                == v[i].prio && r.cpuset_dir == v[i].cpuset_dir@
        },
        config::request_views(w).len() == w.len(),
        0 <= i < w.len() ==> {
            let r = config::request_views(w)[i];
            r.path == w[i].path@ && r.cpus == w[i].cpus@ && r.mems == w[i].mems@
        },
{
}

} // verus!
