//! The rules that were made up for applications without rules of their own,
//! kept as a JSON array in a file.

use vstd::hash_set::StringHashSet;
use vstd::prelude::*;

use super::Rule;
use crate::config;
use crate::document;
use crate::document::{Field, Json, Tree};
use crate::text;

verus! {

/// The name of a service of the system, for which no rules are made up.
pub open spec fn blacklisted(pkg: Seq<char>) -> bool {
    ||| ":widgetProvider"@.is_suffix_of(pkg)
    ||| ":searchDataService"@.is_suffix_of(pkg)
    ||| ":coreService"@.is_suffix_of(pkg)
    ||| ":cognitionService"@.is_suffix_of(pkg)
    ||| ":bert"@.is_suffix_of(pkg)
    ||| ":bertAlgo"@.is_suffix_of(pkg)
    ||| ":privacy"@.is_suffix_of(pkg)
    ||| ":kit7"@.is_suffix_of(pkg)
    ||| ":services"@.is_suffix_of(pkg)
    ||| ":daemon"@.is_suffix_of(pkg)
    ||| pkg == "android.process.media"@
    ||| pkg == "android.process.acore"@
    ||| "com.qualcomm."@.is_prefix_of(pkg)
    ||| ".qti"@.is_prefix_of(pkg)
    ||| ".qms"@.is_prefix_of(pkg)
    ||| ".cacert"@.is_prefix_of(pkg)
    ||| ".dataservices"@.is_prefix_of(pkg)
}

/// How much a thread with the name `name` has to do, as far as its name tells.
pub open spec fn load_of(name: Seq<char>) -> int {
    if text::has_text(name, "Render"@) || text::has_text(name, "Gfx"@) || text::has_text(name, "GL"@)
        || text::has_text(name, "Vulkan"@) {
        10
    } else if text::has_text(name, "Decode"@) || text::has_text(name, "Codec"@) || text::has_text(
        name,
        "Video"@,
    ) || text::has_text(name, "Audio"@) {
        8
    } else if text::has_text(name, "Main"@) || text::has_text(name, "Unity"@) || text::has_text(
        name,
        "Game"@,
    ) || text::has_text(name, "Native"@) || text::has_text(name, "RHI"@) || text::has_text(
        name,
        "TaskGraph"@,
    ) {
        9
    } else if text::has_text(name, "Worker"@) || text::has_text(name, "Thread"@) || text::has_text(
        name,
        "Job"@,
    ) {
        5
    } else if text::has_text(name, "Io"@) || text::has_text(name, "Network"@) || text::has_text(
        name,
        "Http"@,
    ) {
        3
    } else if text::has_text(name, "Background"@) || text::has_text(name, "Idle"@)
        || text::has_text(name, "Pool"@) {
        1
    } else {
        5
    }
}

/// Whether `pkg` is a service of the system, for which no rules are made up.
pub fn is_blacklisted(pkg: &str) -> (r: bool)
    ensures
        r == blacklisted(pkg@),
{
    text::ends_with(pkg, ":widgetProvider") || text::ends_with(pkg, ":searchDataService")
        || text::ends_with(pkg, ":coreService") || text::ends_with(pkg, ":cognitionService")
        || text::ends_with(pkg, ":bert") || text::ends_with(pkg, ":bertAlgo") || text::ends_with(
        pkg,
        ":privacy",
    ) || text::ends_with(pkg, ":kit7") || text::ends_with(pkg, ":services") || text::ends_with(
        pkg,
        ":daemon",
    ) || text::same(pkg, "android.process.media") || text::same(pkg, "android.process.acore")
        || text::starts_with(pkg, "com.qualcomm.") || text::starts_with(pkg, ".qti")
        || text::starts_with(pkg, ".qms") || text::starts_with(pkg, ".cacert") || text::starts_with(
        pkg,
        ".dataservices",
    )
}

/// How much a thread with the name `name` has to do, as far as its name tells.
pub fn est_load(name: &str) -> (r: i32)
    ensures
        r == load_of(name@),
{
    if text::contains_text(name, "Render") || text::contains_text(name, "Gfx")
        || text::contains_text(name, "GL") || text::contains_text(name, "Vulkan") {
        return 10;
    }
    if text::contains_text(name, "Decode") || text::contains_text(name, "Codec")
        || text::contains_text(name, "Video") || text::contains_text(name, "Audio") {
        return 8;
    }
    if text::contains_text(name, "Main") || text::contains_text(name, "Unity")
        || text::contains_text(name, "Game") || text::contains_text(name, "Native")
        || text::contains_text(name, "RHI") || text::contains_text(name, "TaskGraph") {
        return 9;
    }
    if text::contains_text(name, "Worker") || text::contains_text(name, "Thread")
        || text::contains_text(name, "Job") {
        return 5;
    }
    if text::contains_text(name, "Io") || text::contains_text(name, "Network")
        || text::contains_text(name, "Http") {
        return 3;
    }
    if text::contains_text(name, "Background") || text::contains_text(name, "Idle")
        || text::contains_text(name, "Pool") {
        return 1;
    }
    5
}

/// Entry `i` counts: it names a package, and no later entry has the same first package.
pub open spec fn counts(v: Seq<Tree>, i: int) -> bool {
    &&& 0 <= i < v.len()
    &&& config::packages(v[i]).len() > 0
    &&& forall|j: int|
        i < j < v.len() && config::packages(#[trigger] v[j]).len() > 0 ==> config::packages(
            v[j],
        )[0] != config::packages(v[i])[0]
}

/// The rules of the entries of `v` that count, in the order of the entries.
pub open spec fn cached_rules(v: Seq<Tree>) -> Seq<config::RuleView>
    decreases v.len(),
{
    if v.len() == 0 {
        Seq::empty()
    } else if counts(v, 0) {
        config::entry_rules(v[0], Seq::empty()) + cached_rules(v.drop_first())
    } else {
        cached_rules(v.drop_first())
    }
}

/// The packages of the entries of `v` that count.
pub open spec fn cached_packages(v: Seq<Tree>) -> Set<Seq<char>>
    decreases v.len(),
{
    if v.len() == 0 {
        Set::empty()
    } else if counts(v, 0) {
        config::packages(v[0]).to_set().union(cached_packages(v.drop_first()))
    } else {
        cached_packages(v.drop_first())
    }
}

/// How many entries of `v` count.
pub open spec fn cached_count(v: Seq<Tree>) -> nat
    decreases v.len(),
{
    if v.len() == 0 {
        0
    } else if counts(v, 0) {
        cached_count(v.drop_first()) + 1
    } else {
        cached_count(v.drop_first())
    }
}

/// The first package of the entry `e` that is a text is `pkg`.
pub open spec fn for_package(e: Tree, pkg: Seq<char>) -> bool {
    config::packages(e).len() > 0 && config::packages(e)[0] == pkg
}

/// The first packages of the entries of `v`.
pub open spec fn leaders(v: Seq<Tree>) -> Set<Seq<char>> {
    Set::new(|p: Seq<char>| exists|j: int| 0 <= j < v.len() && for_package(#[trigger] v[j], p))
}

/// Whether an entry counts does not depend on what comes before it.
proof fn lemma_counts_in_tail(v: Seq<Tree>, i: int)
    requires
        0 <= i < v.len(),
    ensures
        counts(v.skip(i), 0) == counts(v, i),
{
    let w = v.skip(i);
    if counts(w, 0) {
        assert forall|j: int|
            i < j < v.len() && config::packages(#[trigger] v[j]).len() > 0 implies config::packages(
            v[j],
        )[0] != config::packages(v[i])[0] by {
            assert(w[j - i] == v[j]);
        }
    }
    if counts(v, i) {
        assert forall|j: int|
            0 < j < w.len() && config::packages(#[trigger] w[j]).len() > 0 implies config::packages(
            w[j],
        )[0] != config::packages(w[0])[0] by {
            assert(w[j] == v[i + j]);
        }
    }
}

/// An entry counts where its first package is none of the leaders after it, and it adds its first
/// package to them.
proof fn lemma_leaders(v: Seq<Tree>, i: int)
    requires
        0 <= i < v.len(),
    ensures
        config::packages(v[i]).len() > 0 ==> {
            &&& counts(v, i) <==> !leaders(v.skip(i + 1)).contains(config::packages(v[i])[0])
            &&& leaders(v.skip(i)) == leaders(v.skip(i + 1)).insert(config::packages(v[i])[0])
        },
        config::packages(v[i]).len() == 0 ==> !counts(v, i) && leaders(v.skip(i)) == leaders(
            v.skip(i + 1),
        ),
{
    let a = v.skip(i);
    let b = v.skip(i + 1);
    assert forall|p: Seq<char>| #[trigger]
        leaders(a).contains(p) <==> leaders(b).contains(p) || for_package(v[i], p) by {
        if leaders(b).contains(p) {
            let j = choose|j: int| 0 <= j < b.len() && for_package(#[trigger] b[j], p);
            assert(a[j + 1] == b[j]);
        }
        if for_package(v[i], p) {
            assert(a[0] == v[i]);
        }
        if leaders(a).contains(p) {
            let j = choose|j: int| 0 <= j < a.len() && for_package(#[trigger] a[j], p);
            if j > 0 {
                assert(b[j - 1] == a[j]);
            }
        }
    }
    if config::packages(v[i]).len() > 0 {
        let first = config::packages(v[i])[0];
        if leaders(b).contains(first) {
            let j = choose|j: int| 0 <= j < b.len() && for_package(#[trigger] b[j], first);
            assert(v[i + 1 + j] == b[j]);
        } else {
            assert forall|j: int|
                i < j < v.len() && config::packages(#[trigger] v[j]).len()
                    > 0 implies config::packages(v[j])[0] != first by {
                assert(b[j - i - 1] == v[j]);
                assert(!for_package(b[j - i - 1], first));
            }
        }
        assert(leaders(a) =~= leaders(b).insert(first));
    } else {
        assert(leaders(a) =~= leaders(b));
    }
}

/// Which entries of `list` count, the last one first.
fn mark_counting(list: &Vec<Json>, all: Ghost<Seq<Tree>>) -> (r: Vec<bool>)
    requires
        all@.len() == list@.len(),
        forall|j: int| 0 <= j < list@.len() ==> (#[trigger] all@[j]) == list@[j]@,
    ensures
        r@.len() == list@.len(),
        forall|k: int| 0 <= k < r@.len() ==> #[trigger] r@[k] == counts(all@, r@.len() - 1 - k),
{
    let n: usize = list.len();
    let mut r: Vec<bool> = Vec::new();
    let mut seen: StringHashSet = StringHashSet::new();
    let mut i: usize = n;
    assert(seen@ =~= leaders(all@.skip(n as int)));
    while i > 0
        invariant
            n == list@.len(),
            all@.len() == n,
            forall|j: int| 0 <= j < list@.len() ==> (#[trigger] all@[j]) == list@[j]@,
            i <= n,
            r@.len() == n - i,
            seen@ == leaders(all@.skip(i as int)),
            forall|k: int| 0 <= k < r@.len() ==> #[trigger] r@[k] == counts(all@, n - 1 - k),
        decreases i,
    {
        i -= 1;
        proof {
            lemma_leaders(all@, i as int);
        }
        let names: Vec<String> = document::texts_in(list[i].get("packages"));
        assert(all@[i as int] == list@[i as int]@);
        assert(text::views(names@) == config::packages(all@[i as int]));
        assert(config::packages(all@[i as int]).len() == names@.len());
        if names.len() > 0 {
            assert(config::packages(all@[i as int])[0] == names@[0]@);
            let fresh: bool = seen.insert(names[0].clone());
            r.push(fresh);
        } else {
            r.push(false);
        }
    }
    r
}

/// Adds the packages and the rules that the cache `root` holds, and says how many of its entries
/// count: for each package the last entry, which is the newest.
pub fn merge_document(set: &mut StringHashSet, rules: &mut Vec<Rule>, root: &Json) -> (r: usize)
    ensures
        r == cached_count(root@.members()),
        final(set)@ == old(set)@.union(cached_packages(root@.members())),
        config::rule_views(final(rules)@) == config::rule_views(old(rules)@) + cached_rules(
            root@.members(),
        ),
{
    let ghost all = root@.members();
    let ghost set_goal = set@.union(cached_packages(all));
    let ghost rules_goal = config::rule_views(rules@) + cached_rules(all);
    let mut loaded: usize = 0;
    match root {
        Json::Array(list) => {
            proof {
                document::lemma_array_view(*root, *list);
            }
            let n: usize = list.len();
            let marks: Vec<bool> = mark_counting(list, Ghost(all));
            let mut i: usize = 0;
            assert(all.skip(0) =~= all);
            while i < n
                invariant
                    n == list@.len(),
                    all.len() == n,
                    forall|j: int| 0 <= j < list@.len() ==> (#[trigger] all[j]) == list@[j]@,
                    marks@.len() == n,
                    forall|k: int|
                        0 <= k < marks@.len() ==> #[trigger] marks@[k] == counts(all, n - 1 - k),
                    i <= n,
                    loaded <= i,
                    loaded + cached_count(all.skip(i as int)) == cached_count(all),
                    set@.union(cached_packages(all.skip(i as int))) == set_goal,
                    config::rule_views(rules@) + cached_rules(all.skip(i as int)) == rules_goal,
                decreases n - i,
            {
                let ghost rest = all.skip(i as int);
                proof {
                    assert(rest.drop_first() =~= all.skip(i + 1));
                    lemma_counts_in_tail(all, i as int);
                    assert(rest[0] == list@[i as int]@);
                }
                let counted: bool = marks[n - 1 - i];
                assert(counted == counts(all, i as int));
                if counted {
                    let entry: &Json = &list[i];
                    let names: Vec<String> = document::texts_in(entry.get("packages"));
                    assert(text::views(names@) == config::packages(entry@));
                    assert(config::packages(entry@).len() == names@.len());
                    assert(config::packages(entry@)[0] == names@[0]@);
                    let ghost had_set = set@;
                    let ghost had_rules = config::rule_views(rules@);
                    let ghost later = all.skip(i + 1);
                    add_packages(set, &names);
                    assert(set@.union(cached_packages(later)) =~= had_set.union(
                        cached_packages(rest),
                    ));
                    config::push_entry_rules(rules, names[0].as_str(), entry, String::new());
                    assert(config::rule_views(rules@) + cached_rules(later) =~= had_rules
                        + cached_rules(rest));
                    loaded += 1;
                }
                i += 1;
            }
            assert(all.skip(n as int) =~= Seq::empty());
            assert(set@ =~= set_goal);
            assert(config::rule_views(rules@) =~= rules_goal);
        },
        _ => {
            assert(set@ =~= set_goal);
            assert(config::rule_views(rules@) =~= rules_goal);
        },
    }
    loaded
}

/// Adds the packages `names` to the set.
fn add_packages(set: &mut StringHashSet, names: &Vec<String>)
    ensures
        final(set)@ == old(set)@.union(text::views(names@).to_set()),
{
    let ghost before = set@;
    let ghost all = text::views(names@);
    let mut i: usize = 0;
    assert(set@ =~= before.union(all.take(0).to_set()));
    while i < names.len()
        invariant
            i <= names@.len(),
            all == text::views(names@),
            set@ == before.union(all.take(i as int).to_set()),
        decreases names@.len() - i,
    {
        set.insert(names[i].clone());
        assert(all.take(i + 1) =~= all.take(i as int).push(names@[i as int]@));
        proof {
            all.take(i as int).lemma_push_to_set_commute(names@[i as int]@);
        }
        assert(set@ =~= before.union(all.take(i + 1).to_set()));
        i += 1;
    }
    assert(all.take(i as int) =~= all);
}

/// Adds the packages and the rules that the cache in the text `data` holds, and says how many of
/// its entries count. A text that is no JSON array adds nothing.
pub fn merge(set: &mut StringHashSet, rules: &mut Vec<Rule>, data: &str) -> (r: usize)
    requires
        document::readable(data@),
    ensures
        match document::json_document(data@) {
            Some(root) => {
                &&& r == cached_count(root.members())
                &&& final(set)@ == old(set)@.union(cached_packages(root.members()))
                &&& config::rule_views(final(rules)@) == config::rule_views(old(rules)@)
                    + cached_rules(root.members())
            },
            None => r == 0 && final(set)@ == old(set)@ && final(rules)@ == old(rules)@,
        },
{
    match document::parse(data) {
        Some(root) => merge_document(set, rules, &root),
        None => 0,
    }
}

/// The names of the threads `threads`.
pub open spec fn thread_names(threads: Seq<(i32, String)>) -> Seq<Seq<char>> {
    threads.map_values(|t: (i32, String)| t.1@)
}

/// The names of the threads of all processes in `all` that run the package `pkg`.
pub open spec fn package_threads(
    all: Seq<(i32, String, Vec<(i32, String)>)>,
    pkg: Seq<char>,
) -> Seq<Seq<char>>
    decreases all.len(),
{
    if all.len() == 0 {
        Seq::empty()
    } else if all.last().1@ == pkg {
        package_threads(all.drop_last(), pkg) + thread_names(all.last().2@)
    } else {
        package_threads(all.drop_last(), pkg)
    }
}

/// Those of `names` whose load is at least `low` and below `high`, in their order.
pub open spec fn loaded_between(names: Seq<Seq<char>>, low: int, high: int) -> Seq<Seq<char>>
    decreases names.len(),
{
    if names.len() == 0 {
        Seq::empty()
    } else if low <= load_of(names.last()) < high {
        loaded_between(names.drop_last(), low, high).push(names.last())
    } else {
        loaded_between(names.drop_last(), low, high)
    }
}

/// The threads for the big cores.
pub open spec fn big_threads(names: Seq<Seq<char>>) -> Seq<Seq<char>> {
    loaded_between(names, 8, 11)
}

/// The threads for the cores in the middle, where there are such cores.
pub open spec fn mid_threads(names: Seq<Seq<char>>, mid: Seq<char>) -> Seq<Seq<char>> {
    if mid.len() > 0 {
        loaded_between(names, 5, 8)
    } else {
        Seq::empty()
    }
}

/// An array of texts.
pub open spec fn text_array(names: Seq<Seq<char>>) -> Tree {
    Tree::Array(names.map_values(|s: Seq<char>| Tree::Text(s)))
}

/// A field of an object.
pub open spec fn field(key: Seq<char>, value: Tree) -> Field {
    Field { key, value }
}

/// The threads for the big cores `big` and those for the cores `mid`, as fields in dictionary
/// order of the lists of cores. A list that gets no threads is left out.
pub open spec fn core_fields(
    big: Seq<char>,
    mid: Seq<char>,
    on_big: Seq<Seq<char>>,
    on_mid: Seq<Seq<char>>,
) -> Seq<Field> {
    if on_big.len() == 0 && on_mid.len() == 0 {
        Seq::empty()
    } else if on_mid.len() == 0 {
        seq![field(big, text_array(on_big))]
    } else if on_big.len() == 0 {
        seq![field(mid, text_array(on_mid))]
    } else if big == mid {
        seq![field(big, text_array(on_big + on_mid))]
    } else if text::text_before(big, mid) {
        seq![field(big, text_array(on_big)), field(mid, text_array(on_mid))]
    } else {
        seq![field(mid, text_array(on_mid)), field(big, text_array(on_big))]
    }
}

/// The part of an entry that says on which CPUs threads run: those in `cores` where it says so,
/// all others on the little cores.
pub open spec fn cpuset_tree(little: Seq<char>, cores: Seq<Field>) -> Tree {
    let other = field("other"@, Tree::Text(little));
    if cores.len() == 0 {
        Tree::Object(seq![other])
    } else {
        Tree::Object(seq![other, field("comm"@, Tree::Object(cores))])
    }
}

/// The entry that is made up for the package `pkg` with the threads `names`.
pub open spec fn made_entry(
    pkg: Seq<char>,
    names: Seq<Seq<char>>,
    big: Seq<char>,
    mid: Seq<char>,
    little: Seq<char>,
) -> Tree {
    Tree::Object(
        seq![
            field("friendly"@, Tree::Text("[auto] "@ + pkg)),
            field("packages"@, text_array(seq![pkg])),
            field(
                "cpuset"@,
                cpuset_tree(
                    little,
                    core_fields(big, mid, big_threads(names), mid_threads(names, mid)),
                ),
            ),
        ],
    )
}

/// The first package of the entry `e` is `pkg`.
pub open spec fn leads(e: Tree, pkg: Seq<char>) -> bool {
    e.get("packages"@).at(0).text() == Some(pkg)
}

/// The entries of `v` whose first package is not `pkg`, in their order.
pub open spec fn without(v: Seq<Tree>, pkg: Seq<char>) -> Seq<Tree>
    decreases v.len(),
{
    if v.len() == 0 {
        Seq::empty()
    } else if leads(v.last(), pkg) {
        without(v.drop_last(), pkg)
    } else {
        without(v.drop_last(), pkg).push(v.last())
    }
}

/// The cache `old` with `entry` as its only entry for the package `pkg`.
pub open spec fn saved(old: Tree, pkg: Seq<char>, entry: Tree) -> Tree {
    Tree::Array(without(old.members(), pkg).push(entry))
}

/// The documents that `v` holds.
pub open spec fn trees(v: Seq<Json>) -> Seq<Tree> {
    v.map_values(|j: Json| j@)
}

/// An array of texts.
fn text_list(names: &Vec<String>) -> (r: Json)
    ensures
        r@ == text_array(text::views(names@)),
{
    let mut v: Vec<Json> = Vec::new();
    let mut i: usize = 0;
    while i < names.len()
        invariant
            i <= names@.len(),
            v@.len() == i,
            forall|j: int| 0 <= j < i ==> (#[trigger] v@[j])@ == Tree::Text(names@[j]@),
        decreases names@.len() - i,
    {
        v.push(Json::Text(names[i].clone()));
        i += 1;
    }
    let r: Json = Json::Array(v);
    proof {
        document::lemma_array_view(r, v);
    }
    assert(r@->Array_0 =~= text_array(text::views(names@))->Array_0);
    r
}

/// An object with the fields `fields`.
fn object(fields: Vec<(String, Json)>) -> (r: Json)
    ensures
        r@ is Object,
        r@->Object_0.len() == fields@.len(),
        forall|i: int|
            0 <= i < fields@.len() ==> (#[trigger] r@->Object_0[i]) == field(
                fields@[i].0@,
                fields@[i].1@,
            ),
{
    let r: Json = Json::Object(fields);
    proof {
        document::lemma_object_view(r);
    }
    r
}

/// Those threads of `all` that run the package `pkg` and have a load of at least `low` and below
/// `high`.
fn select_threads(
    pkg: &str,
    all: &[(i32, String, Vec<(i32, String)>)],
    low: i32,
    high: i32,
) -> (r: Vec<String>)
    ensures
        text::views(r@) == loaded_between(
            package_threads(all@, pkg@),
            low as int,
            high as int,
        ),
{
    let mut r: Vec<String> = Vec::new();
    let mut i: usize = 0;
    assert(all@.take(0) =~= Seq::empty());
    assert(text::views(r@) =~= Seq::empty());
    while i < all.len()
        invariant
            i <= all@.len(),
            text::views(r@) == loaded_between(
                package_threads(all@.take(i as int), pkg@),
                low as int,
                high as int,
            ),
        decreases all@.len() - i,
    {
        assert(all@.take(i + 1).drop_last() =~= all@.take(i as int));
        let ghost before = package_threads(all@.take(i as int), pkg@);
        if text::same(all[i].1.as_str(), pkg) {
            let threads: &Vec<(i32, String)> = &all[i].2;
            let ghost names = thread_names(threads@);
            let mut k: usize = 0;
            assert(before + names.take(0) =~= before);
            while k < threads.len()
                invariant
                    k <= threads@.len(),
                    names == thread_names(threads@),
                    text::views(r@) == loaded_between(
                        before + names.take(k as int),
                        low as int,
                        high as int,
                    ),
                decreases threads@.len() - k,
            {
                let ghost now = before + names.take(k + 1);
                assert(now.drop_last() =~= before + names.take(k as int));
                assert(now.last() == threads@[k as int].1@);
                let ghost had = r@;
                let load: i32 = est_load(threads[k].1.as_str());
                if low <= load && load < high {
                    r.push(threads[k].1.clone());
                    assert(text::views(r@) =~= text::views(had).push(threads@[k as int].1@));
                }
                k += 1;
            }
            assert(names.take(k as int) =~= names);
        }
        i += 1;
    }
    assert(all@.take(i as int) =~= all@);
    r
}

/// The threads for the big cores and those for the cores `mid`, as fields.
fn core_list(big: &str, mid: &str, on_big: &Vec<String>, on_mid: &Vec<String>) -> (r: Vec<
    (String, Json),
>)
    ensures
        r@.len() == core_fields(big@, mid@, text::views(on_big@), text::views(on_mid@)).len(),
        forall|i: int|
            0 <= i < r@.len() ==> field((#[trigger] r@[i]).0@, r@[i].1@) == core_fields(
                big@,
                mid@,
                text::views(on_big@),
                text::views(on_mid@),
            )[i],
{
    let mut r: Vec<(String, Json)> = Vec::new();
    assert(text::views(on_big@).len() == on_big@.len());
    assert(text::views(on_mid@).len() == on_mid@.len());
    if on_big.len() == 0 && on_mid.len() == 0 {
        return r;
    }
    if on_mid.len() == 0 {
        r.push((big.to_owned(), text_list(on_big)));
    } else if on_big.len() == 0 {
        r.push((mid.to_owned(), text_list(on_mid)));
    } else if text::same(big, mid) {
        let mut both: Vec<String> = Vec::new();
        append_all(&mut both, on_big);
        append_all(&mut both, on_mid);
        assert(text::views(both@) =~= text::views(on_big@) + text::views(on_mid@));
        r.push((big.to_owned(), text_list(&both)));
    } else if text::comes_before(big, mid) {
        r.push((big.to_owned(), text_list(on_big)));
        r.push((mid.to_owned(), text_list(on_mid)));
    } else {
        r.push((mid.to_owned(), text_list(on_mid)));
        r.push((big.to_owned(), text_list(on_big)));
    }
    r
}

/// Adds the strings `more` to `v`.
fn append_all(v: &mut Vec<String>, more: &Vec<String>)
    ensures
        text::views(final(v)@) == text::views(old(v)@) + text::views(more@),
{
    let ghost before = text::views(v@);
    let mut i: usize = 0;
    assert(text::views(v@) =~= before + text::views(more@).take(0));
    while i < more.len()
        invariant
            i <= more@.len(),
            text::views(v@) == before + text::views(more@).take(i as int),
        decreases more@.len() - i,
    {
        let ghost had = v@;
        v.push(more[i].clone());
        assert(text::views(v@) =~= text::views(had).push(more@[i as int]@));
        assert(text::views(v@) =~= before + text::views(more@).take(i + 1));
        i += 1;
    }
    assert(text::views(more@).take(i as int) =~= text::views(more@));
}

/// The entry for the package `pkg` with the threads that `all` tells of.
fn make_entry(
    pkg: &str,
    all: &[(i32, String, Vec<(i32, String)>)],
    big: &str,
    mid: &str,
    little: &str,
) -> (r: Json)
    ensures
        r@ == made_entry(pkg@, package_threads(all@, pkg@), big@, mid@, little@),
{
    let ghost names = package_threads(all@, pkg@);
    let on_big: Vec<String> = select_threads(pkg, all, 8, 11);
    let on_mid: Vec<String> = if mid.is_empty() {
        Vec::new()
    } else {
        select_threads(pkg, all, 5, 8)
    };
    assert(text::views(on_big@) == big_threads(names));
    assert(text::views(on_mid@) =~= mid_threads(names, mid@));
    let cores: Vec<(String, Json)> = core_list(big, mid, &on_big, &on_mid);
    let ghost core_view = core_fields(big@, mid@, big_threads(names), mid_threads(names, mid@));
    let mut cpuset: Vec<(String, Json)> = Vec::new();
    cpuset.push(("other".to_owned(), Json::Text(little.to_owned())));
    if cores.len() > 0 {
        let comm: Json = object(cores);
        assert(comm@->Object_0 =~= core_view);
        cpuset.push(("comm".to_owned(), comm));
    }
    let cpuset_json: Json = object(cpuset);
    assert(cpuset_json@->Object_0 =~= cpuset_tree(little@, core_view)->Object_0);
    let mut packages: Vec<String> = Vec::new();
    packages.push(pkg.to_owned());
    assert(text::views(packages@) =~= seq![pkg@]);
    let mut friendly: String = "[auto] ".to_owned();
    friendly.append(pkg);
    let mut fields: Vec<(String, Json)> = Vec::new();
    fields.push(("friendly".to_owned(), Json::Text(friendly)));
    fields.push(("packages".to_owned(), text_list(&packages)));
    fields.push(("cpuset".to_owned(), cpuset_json));
    let r: Json = object(fields);
    assert(r@->Object_0 =~= made_entry(pkg@, names, big@, mid@, little@)->Object_0);
    r
}

/// The entries of `old` whose first package is not `pkg`.
fn drop_package(old: Json, pkg: &str) -> (r: Vec<Json>)
    ensures
        trees(r@) == without(old@.members(), pkg@),
{
    let ghost all = old@.members();
    let mut r: Vec<Json> = Vec::new();
    assert(trees(r@) =~= Seq::empty());
    match old {
        Json::Array(v) => {
            let ghost whole = v@;
            proof {
                document::lemma_array_view(old, v);
            }
            let mut rest: Vec<Json> = v;
            let ghost mut done: int = 0;
            assert(all.take(0) =~= Seq::empty());
            while rest.len() > 0
                invariant
                    all.len() == whole.len(),
                    forall|j: int| 0 <= j < whole.len() ==> (#[trigger] all[j]) == whole[j]@,
                    0 <= done <= whole.len(),
                    rest@ == whole.skip(done),
                    trees(r@) == without(all.take(done), pkg@),
                decreases rest@.len(),
            {
                let entry: Json = rest.remove(0);
                assert(entry == whole[done]);
                assert(all.take(done + 1).drop_last() =~= all.take(done));
                let same: bool = match document::text_of(first_of(entry.get("packages"))) {
                    Some(name) => text::same(name, pkg),
                    None => false,
                };
                assert(same == leads(entry@, pkg@));
                let ghost had = r@;
                let ghost tree = entry@;
                if !same {
                    r.push(entry);
                    assert(trees(r@) =~= trees(had).push(tree));
                }
                proof {
                    done = done + 1;
                }
                assert(rest@ =~= whole.skip(done));
            }
            assert(all.take(done) =~= all);
        },
        _ => {},
    }
    r
}

/// The first element of a value, where it is an array that has one.
fn first_of(value: Option<&Json>) -> (r: Option<&Json>)
    ensures
        document::held(r) == document::held(value).at(0),
{
    match value {
        Some(v) => v.at(0),
        None => None,
    }
}

/// The cache `old` with the rules that are made up for the package `pkg` and the threads that
/// `all` tells of: those with much to do run on the cores `big`, others with something to do on
/// the cores `mid` where there are such cores, and the rest on the cores `little`. What `old`
/// held for the package is gone. For a service of the system there is none.
pub fn save_document(
    pkg: &str,
    all: &[(i32, String, Vec<(i32, String)>)],
    big: &str,
    mid: &str,
    little: &str,
    old: Json,
) -> (r: Option<Json>)
    ensures
        match r {
            Some(doc) => !blacklisted(pkg@) && doc@ == saved(
                old@,
                pkg@,
                made_entry(pkg@, package_threads(all@, pkg@), big@, mid@, little@),
            ),
            None => blacklisted(pkg@),
        },
{
    if is_blacklisted(pkg) {
        return None;
    }
    let entry: Json = make_entry(pkg, all, big, mid, little);
    let mut v: Vec<Json> = drop_package(old, pkg);
    let ghost had = v@;
    let ghost tree = entry@;
    v.push(entry);
    let doc: Json = Json::Array(v);
    proof {
        document::lemma_array_view(doc, v);
    }
    assert(doc@->Array_0 =~= trees(had).push(tree));
    Some(doc)
}

/// What a cache with the text `text` says: an empty array where there is no array to read.
pub open spec fn old_cache(text: Seq<char>) -> Tree {
    let t = text::trimmed(text);
    if t.len() > 0 && t[0] == '[' {
        match document::json_document(text) {
            Some(root) => root,
            None => Tree::Array(Seq::empty()),
        }
    } else {
        Tree::Array(Seq::empty())
    }
}

/// A made-up entry nests four levels deep.
proof fn lemma_entry_fits(
    pkg: Seq<char>,
    names: Seq<Seq<char>>,
    big: Seq<char>,
    mid: Seq<char>,
    little: Seq<char>,
)
    ensures
        document::fits(made_entry(pkg, names, big, mid, little), 4),
{
    reveal_strlit("friendly");
    reveal_strlit("packages");
    reveal_strlit("cpuset");
    reveal_strlit("other");
    reveal_strlit("comm");
    let on_big = big_threads(names);
    let on_mid = mid_threads(names, mid);
    let cores = core_fields(big, mid, on_big, on_mid);
    let cpuset = cpuset_tree(little, cores);
    let entry = made_entry(pkg, names, big, mid, little);
    assert("friendly"@.len() == 8 && "packages"@.len() == 8 && "cpuset"@.len() == 6);
    assert("friendly"@[0] == 'f' && "packages"@[0] == 'p');
    assert("other"@.len() == 5 && "comm"@.len() == 4);
    assert forall|v: Seq<Seq<char>>| #[trigger]
        document::fits(text_array(v), 1) by {
        let inner = text_array(v)->Array_0;
        assert forall|i: int| 0 <= i < inner.len() implies document::fits(#[trigger] inner[i], 0)
            by {
            assert(inner[i] == Tree::Text(v[i]));
        }
    }
    assert(document::keys_distinct(cores));
    assert forall|i: int| 0 <= i < cores.len() implies document::fits(
        (#[trigger] cores[i]).value,
        1,
    ) by {
        assert(document::fits(text_array(on_big), 1));
        assert(document::fits(text_array(on_mid), 1));
        assert(document::fits(text_array(on_big + on_mid), 1));
    }
    let comm = Tree::Object(cores);
    assert(document::fits(comm, 2));
    let parts = cpuset->Object_0;
    assert(document::keys_distinct(parts));
    assert forall|i: int| 0 <= i < parts.len() implies document::fits(
        (#[trigger] parts[i]).value,
        2,
    ) by {}
    assert(document::fits(cpuset, 3));
    let fields = entry->Object_0;
    assert(document::keys_distinct(fields));
    assert(document::fits(text_array(seq![pkg]), 1));
    document::lemma_fits_deeper(text_array(seq![pkg]), 1, 3);
    assert forall|i: int| 0 <= i < fields.len() implies document::fits(
        (#[trigger] fields[i]).value,
        3,
    ) by {}
}

/// Leaving entries out leaves what nests no deeper and holds no more.
proof fn lemma_without(v: Seq<Tree>, pkg: Seq<char>)
    ensures
        forall|i: int|
            0 <= i < without(v, pkg).len() ==> v.contains(#[trigger] without(v, pkg)[i]) && !leads(
                without(v, pkg)[i],
                pkg,
            ),
    decreases v.len(),
{
    if v.len() > 0 {
        let w = v.drop_last();
        lemma_without(w, pkg);
        assert forall|i: int| 0 <= i < without(v, pkg).len() implies v.contains(
            #[trigger] without(v, pkg)[i],
        ) && !leads(without(v, pkg)[i], pkg) by {
            if i < without(w, pkg).len() {
                assert(without(v, pkg)[i] == without(w, pkg)[i]);
                let k = choose|k: int| 0 <= k < w.len() && w[k] == without(w, pkg)[i];
                assert(v[k] == w[k]);
            } else {
                assert(v[v.len() - 1] == v.last());
            }
        }
    }
}

/// A cache with one more entry nests as deep as a text may.
proof fn lemma_saved_fits(old: Tree, pkg: Seq<char>, entry: Tree, depth: nat)
    requires
        document::fits(old, depth),
        document::fits(entry, 4),
        depth >= 5,
    ensures
        document::fits(saved(old, pkg, entry), depth),
{
    let kept = without(old.members(), pkg);
    let all = kept.push(entry);
    lemma_without(old.members(), pkg);
    document::lemma_fits_deeper(entry, 4, (depth - 1) as nat);
    document::lemma_fits_inside(old, depth);
    assert forall|i: int| 0 <= i < all.len() implies document::fits(
        #[trigger] all[i],
        (depth - 1) as nat,
    ) by {
        if i < kept.len() {
            assert(all[i] == kept[i]);
            let k = choose|k: int| 0 <= k < old.members().len() && old.members()[k] == kept[i];
            assert(document::fits(old.members()[k], (depth - 1) as nat));
        }
    }
}

/// The text of the cache that had the text `old`, with the rules that are made up for the
/// package `pkg`; `None` for a service of the system, for which nothing is kept. Reading the
/// text gives the cache back, save for the form of numbers, and it can be read: it can be merged,
/// and be the old text of the next save.
pub fn save(
    pkg: &str,
    all: &[(i32, String, Vec<(i32, String)>)],
    big: &str,
    mid: &str,
    little: &str,
    old: &str,
) -> (r: Option<String>)
    requires
        document::readable(old@),
    ensures
        match r {
            Some(text) => {
                let doc = saved(
                    old_cache(old@),
                    pkg@,
                    made_entry(pkg@, package_threads(all@, pkg@), big@, mid@, little@),
                );
                &&& !blacklisted(pkg@)
                &&& text@ == document::json_pretty(doc, 2)
                &&& document::reads_as(text@, doc)
                &&& document::settled(doc) ==> document::json_document(text@) == Some(doc)
                &&& document::fits(doc, document::read_depth())
                &&& document::readable(text@)
                &&& text@.len() > 0 && text@[0] == '['
            },
            None => blacklisted(pkg@),
        },
{
    let t: String = text::trim(old);
    let empty: Json = Json::Array(Vec::new());
    proof {
        document::lemma_array_view(empty, empty->Array_0);
        assert(empty@->Array_0 =~= Seq::empty());
    }
    let doc: Json = if !t.as_str().is_empty() && t.as_str().get_char(0) == '[' {
        match document::parse(old) {
            Some(root) => root,
            None => empty,
        }
    } else {
        empty
    };
    assert(doc@ == old_cache(old@));
    assert(document::fits(doc@, document::read_depth()));
    proof {
        lemma_entry_fits(pkg@, package_threads(all@, pkg@), big@, mid@, little@);
        lemma_saved_fits(
            doc@,
            pkg@,
            made_entry(pkg@, package_threads(all@, pkg@), big@, mid@, little@),
            document::read_depth(),
        );
    }
    match save_document(pkg, all, big, mid, little, doc) {
        Some(new) => {
            proof {
                document::lemma_fits_deeper(new@, document::read_depth(), 600);
            }
            Some(document::pretty(&new, 2))
        },
        None => None,
    }
}

/// Entries that say the same, save for their numbers, name the same packages and give the same
/// rules.
proof fn lemma_alike_entry(a: Tree, b: Tree, dir: Seq<char>)
    requires
        document::alike(a, b),
    ensures
        config::packages(a) == config::packages(b),
        config::entry_rules(a, dir) == config::entry_rules(b, dir),
{
    document::lemma_alike_get(a, b, "packages"@);
    document::lemma_alike_texts(
        a.get("packages"@).members(),
        b.get("packages"@).members(),
    );
    document::lemma_alike_get(a, b, "cpuset"@);
    let x = a.get("cpuset"@);
    let y = b.get("cpuset"@);
    document::lemma_alike_get(x, y, "other"@);
    document::lemma_alike_get(x, y, "comm"@);
    if config::packages(a).len() > 0 {
        lemma_alike_thread_rules(
            config::packages(a)[0],
            x.get("comm"@).entries(),
            y.get("comm"@).entries(),
        );
    }
}

/// Fields that say the same, save for their numbers, give the same rules for threads.
proof fn lemma_alike_thread_rules(pkg: Seq<char>, v: Seq<Field>, w: Seq<Field>)
    requires
        v.len() == w.len(),
        forall|i: int|
            0 <= i < v.len() ==> (#[trigger] v[i]).key == w[i].key && document::alike(
                v[i].value,
                w[i].value,
            ),
    ensures
        config::thread_rules(pkg, v) == config::thread_rules(pkg, w),
    decreases v.len(),
{
    if v.len() > 0 {
        let a = v.drop_last();
        let b = w.drop_last();
        assert forall|i: int| 0 <= i < a.len() implies (#[trigger] a[i]).key == b[i].key
            && document::alike(a[i].value, b[i].value) by {
            assert(a[i] == v[i]);
        }
        lemma_alike_thread_rules(pkg, a, b);
        assert(v[v.len() - 1].key == w[v.len() - 1].key);
        document::lemma_alike_texts(v.last().value.members(), w.last().value.members());
    }
}

/// Caches that say the same, save for their numbers, are merged with the same outcome.
proof fn lemma_alike_cache(v: Seq<Tree>, w: Seq<Tree>)
    requires
        v.len() == w.len(),
        forall|i: int| 0 <= i < v.len() ==> document::alike(#[trigger] v[i], w[i]),
    ensures
        cached_rules(v) == cached_rules(w),
        cached_packages(v) == cached_packages(w),
        cached_count(v) == cached_count(w),
    decreases v.len(),
{
    if v.len() > 0 {
        let a = v.drop_first();
        let b = w.drop_first();
        assert forall|i: int| 0 <= i < a.len() implies document::alike(#[trigger] a[i], b[i]) by {
            assert(a[i] == v[i + 1]);
        }
        lemma_alike_cache(a, b);
        assert forall|i: int| 0 <= i < v.len() implies config::packages(#[trigger] v[i])
            == config::packages(w[i]) by {
            lemma_alike_entry(v[i], w[i], Seq::empty());
        }
        lemma_alike_entry(v[0], w[0], Seq::empty());
        if counts(v, 0) {
            assert forall|j: int|
                0 < j < w.len() && config::packages(#[trigger] w[j]).len()
                    > 0 implies config::packages(w[j])[0] != config::packages(w[0])[0] by {
                assert(config::packages(v[j]) == config::packages(w[j]));
            }
            assert(counts(w, 0));
        }
        if counts(w, 0) {
            assert forall|j: int|
                0 < j < v.len() && config::packages(#[trigger] v[j]).len()
                    > 0 implies config::packages(v[j])[0] != config::packages(v[0])[0] by {
                assert(config::packages(v[j]) == config::packages(w[j]));
            }
            assert(counts(v, 0));
        }
    }
}

/// The values under the keys of a made-up entry.
pub proof fn lemma_made_entry(
    pkg: Seq<char>,
    names: Seq<Seq<char>>,
    big: Seq<char>,
    mid: Seq<char>,
    little: Seq<char>,
)
    ensures
        ({
            let e = made_entry(pkg, names, big, mid, little);
            let cores = core_fields(big, mid, big_threads(names), mid_threads(names, mid));
            &&& e.get("packages"@) == text_array(seq![pkg])
            &&& e.get("cpuset"@) == cpuset_tree(little, cores)
            &&& e.get("cpuset"@).get("other"@) == Tree::Text(little)
            &&& e.get("cpuset"@).get("comm"@).entries() == cores
        }),
{
    reveal_strlit("friendly");
    reveal_strlit("packages");
    reveal_strlit("cpuset");
    reveal_strlit("other");
    reveal_strlit("comm");
    assert("friendly"@.len() == 8 && "packages"@.len() == 8 && "cpuset"@.len() == 6);
    assert("friendly"@[0] == 'f' && "packages"@[0] == 'p');
    assert("other"@.len() == 5 && "comm"@.len() == 4);
    let e = made_entry(pkg, names, big, mid, little);
    let v = e->Object_0;
    assert(v[0].key == "friendly"@ && v[1].key == "packages"@ && v[2].key == "cpuset"@);
    document::lemma_first_key(v, "packages"@, 1);
    document::lemma_first_key(v, "cpuset"@, 2);
    let cores = core_fields(big, mid, big_threads(names), mid_threads(names, mid));
    let c = cpuset_tree(little, cores);
    let w = c->Object_0;
    assert(w[0].key == "other"@);
    document::lemma_first_key(w, "other"@, 0);
    if cores.len() > 0 {
        assert(w[1].key == "comm"@);
        document::lemma_first_key(w, "comm"@, 1);
    } else {
        assert(w.len() == 1);
        assert(c.get("comm"@) is Null);
        assert(c.get("comm"@).entries() =~= cores);
    }
}

/// An array of texts holds those texts.
pub proof fn lemma_text_array(names: Seq<Seq<char>>)
    ensures
        document::texts(text_array(names).members()) == names,
    decreases names.len(),
{
    let v = text_array(names).members();
    if names.len() > 0 {
        lemma_text_array(names.drop_last());
        assert(v.drop_last() =~= text_array(names.drop_last()).members());
        assert(v.last() == Tree::Text(names.last()));
        assert(names.drop_last().push(names.last()) =~= names);
    } else {
        assert(document::texts(v) =~= names);
    }
}

/// What the entry that is made up for a package says: it is for that package alone, its threads run
/// on the little cores, save for those with much to do, which run on the big cores, and where there
/// are cores in the middle those with something to do, which run there.
pub proof fn law_made_rules(
    pkg: Seq<char>,
    names: Seq<Seq<char>>,
    big: Seq<char>,
    mid: Seq<char>,
    little: Seq<char>,
)
    ensures
        ({
            let e = made_entry(pkg, names, big, mid, little);
            &&& config::packages(e) == seq![pkg]
            &&& leads(e, pkg)
            &&& config::other_cpus(e) == little
            &&& config::entry_rules(e, Seq::empty()) == seq![
                config::RuleView {
                    pkg,
                    thread: Seq::empty(),
                    cpus: little,
                    prio: 200,
                    cpuset_dir: Seq::empty(),
                },
            ] + config::thread_rules(
                pkg,
                core_fields(big, mid, big_threads(names), mid_threads(names, mid)),
            )
        }),
{
    lemma_made_entry(pkg, names, big, mid, little);
    lemma_text_array(seq![pkg]);
    assert(text_array(seq![pkg]).members()[0] == Tree::Text(pkg));
}

/// The entries of `v` that are not for the package `pkg`, in their order.
pub open spec fn of_others(v: Seq<Tree>, pkg: Seq<char>) -> Seq<Tree> {
    v.filter(|e: Tree| !for_package(e, pkg))
}

/// What `of_others` makes of the first entry.
proof fn lemma_of_others_step(v: Seq<Tree>, pkg: Seq<char>)
    requires
        v.len() > 0,
    ensures
        of_others(v, pkg) == (if for_package(v[0], pkg) {
            of_others(v.drop_first(), pkg)
        } else {
            seq![v[0]] + of_others(v.drop_first(), pkg)
        }),
{
    let keep = |e: Tree| !for_package(e, pkg);
    let one = seq![v[0]];
    assert(v =~= one + v.drop_first());
    Seq::filter_distributes_over_add(one, v.drop_first(), keep);
    reveal(Seq::filter);
    assert(one.drop_last() =~= Seq::empty());
    assert(one.drop_last().filter(keep) =~= Seq::empty());
    assert(one.last() == v[0]);
    assert(one.filter(keep) =~= (if keep(v[0]) {
        one
    } else {
        Seq::empty()
    }));
    assert(Seq::<Tree>::empty() + of_others(v.drop_first(), pkg) =~= of_others(
        v.drop_first(),
        pkg,
    ));
}

/// The entries of others have the same first packages, save for `pkg`.
proof fn lemma_leaders_of_others(v: Seq<Tree>, pkg: Seq<char>, p: Seq<char>)
    requires
        p != pkg,
    ensures
        leaders(of_others(v, pkg)).contains(p) <==> leaders(v).contains(p),
    decreases v.len(),
{
    reveal(Seq::filter);
    if v.len() > 0 {
        let rest = v.drop_first();
        lemma_of_others_step(v, pkg);
        lemma_leaders_of_others(rest, pkg, p);
        lemma_leaders(v, 0);
        assert(v.skip(0) =~= v);
        assert(v.skip(1) =~= rest);
        let kept = of_others(v, pkg);
        if !for_package(v[0], pkg) {
            lemma_leaders(kept, 0);
            assert(kept.skip(0) =~= kept);
            assert(kept.skip(1) =~= of_others(rest, pkg));
        }
    } else {
        assert(of_others(v, pkg) =~= v);
    }
}

/// The last entry counts, and leaves of the others those that are not for its package.
pub proof fn lemma_last_counts(v: Seq<Tree>, e: Tree, pkg: Seq<char>)
    requires
        for_package(e, pkg),
    ensures
        ({
            let others = of_others(v, pkg);
            &&& cached_rules(v.push(e)) == cached_rules(others) + config::entry_rules(
                e,
                Seq::empty(),
            )
            &&& cached_packages(v.push(e)) == cached_packages(others).union(
                config::packages(e).to_set(),
            )
            &&& cached_count(v.push(e)) == cached_count(others) + 1
        }),
    decreases v.len(),
{
    let all = v.push(e);
    let others = of_others(v, pkg);
    let own = config::entry_rules(e, Seq::empty());
    if v.len() == 0 {
        reveal(Seq::filter);
        assert(others =~= Seq::empty());
        assert(all[0] == e);
        assert(counts(all, 0));
        assert(all.drop_first() =~= Seq::empty());
        assert(cached_rules(all) =~= cached_rules(others) + own);
        assert(cached_packages(all) =~= cached_packages(others).union(
            config::packages(e).to_set(),
        ));
    } else {
        let rest = v.drop_first();
        assert(all.drop_first() =~= rest.push(e));
        assert(all[0] == v[0]);
        lemma_last_counts(rest, e, pkg);
        lemma_of_others_step(v, pkg);
        lemma_leaders(all, 0);
        assert(all.skip(1) =~= rest.push(e));
        let later = rest.push(e);
        assert(later[rest.len() as int] == e);
        if for_package(v[0], pkg) {
            assert(leaders(later).contains(pkg));
        } else {
            let kept = of_others(rest, pkg);
            assert(others.drop_first() =~= kept);
            assert(others[0] == v[0]);
            lemma_leaders(others, 0);
            assert(others.skip(1) =~= kept);
            if config::packages(v[0]).len() > 0 {
                let p = config::packages(v[0])[0];
                lemma_leaders_of_others(rest, pkg, p);
                assert(leaders(later).contains(p) <==> leaders(rest).contains(p)) by {
                    if leaders(rest).contains(p) {
                        let j = choose|j: int|
                            0 <= j < rest.len() && for_package(#[trigger] rest[j], p);
                        assert(later[j] == rest[j]);
                    }
                    if leaders(later).contains(p) {
                        let j = choose|j: int|
                            0 <= j < later.len() && for_package(#[trigger] later[j], p);
                        assert(j < rest.len());
                        assert(rest[j] == later[j]);
                    }
                }
            }
            assert(cached_rules(all) =~= cached_rules(others) + own);
            assert(cached_packages(all) =~= cached_packages(others).union(
                config::packages(e).to_set(),
            ));
        }
    }
}

/// An entry whose list starts with the text `pkg` is for the package `pkg`.
proof fn lemma_leads(e: Tree, pkg: Seq<char>)
    requires
        leads(e, pkg),
    ensures
        for_package(e, pkg),
{
    document::lemma_first_text(e.get("packages"@).members(), pkg);
}

/// What is not for a package stays when that package is left out.
proof fn lemma_others_stay(v: Seq<Tree>, pkg: Seq<char>)
    ensures
        of_others(without(v, pkg), pkg) == of_others(v, pkg),
    decreases v.len(),
{
    reveal(Seq::filter);
    if v.len() > 0 {
        let w = v.drop_last();
        lemma_others_stay(w, pkg);
        if leads(v.last(), pkg) {
            lemma_leads(v.last(), pkg);
        } else {
            assert(without(w, pkg).push(v.last()).drop_last() =~= without(w, pkg));
        }
    }
}

/// What is kept for a package is what is read back: after the rules for a package were saved, the
/// text that was written adds the package, the rules that were made up for it and those of the other
/// packages when it is merged, and nothing of what was kept for it before.
pub proof fn law_saved_is_merged(
    text: Seq<char>,
    old: Tree,
    pkg: Seq<char>,
    names: Seq<Seq<char>>,
    big: Seq<char>,
    mid: Seq<char>,
    little: Seq<char>,
)
    requires
        document::reads_as(text, saved(old, pkg, made_entry(pkg, names, big, mid, little))),
    ensures
        ({
            let e = made_entry(pkg, names, big, mid, little);
            let others = of_others(old.members(), pkg);
            document::json_document(text) matches Some(root) && {
                &&& cached_packages(root.members()) == cached_packages(others).insert(pkg)
                &&& cached_rules(root.members()) == cached_rules(others) + config::entry_rules(
                    e,
                    Seq::empty(),
                )
                &&& cached_count(root.members()) == cached_count(others) + 1
            }
        }),
{
    let e = made_entry(pkg, names, big, mid, little);
    let kept = without(old.members(), pkg);
    let others = of_others(old.members(), pkg);
    let root = document::json_document(text)->0;
    lemma_alike_cache(kept.push(e), root.members());
    law_made_rules(pkg, names, big, mid, little);
    lemma_last_counts(kept, e, pkg);
    lemma_others_stay(old.members(), pkg);
    assert(cached_packages(others).union(config::packages(e).to_set()) =~= cached_packages(
        others,
    ).insert(pkg)) by {
        assert(seq![pkg][0] == pkg);
    }
}

/// The rules that put the threads `on_big` on the cores `big` and the threads `on_mid` on the cores
/// `mid`, in dictionary order of the lists of cores.
pub open spec fn core_rules(
    pkg: Seq<char>,
    big: Seq<char>,
    mid: Seq<char>,
    on_big: Seq<Seq<char>>,
    on_mid: Seq<Seq<char>>,
) -> Seq<config::RuleView> {
    if text::text_before(big, mid) {
        config::name_rules(pkg, big, on_big) + config::name_rules(pkg, mid, on_mid)
    } else {
        config::name_rules(pkg, mid, on_mid) + config::name_rules(pkg, big, on_big)
    }
}

/// The rules of one field.
proof fn lemma_one_field(pkg: Seq<char>, key: Seq<char>, names: Seq<Seq<char>>)
    ensures
        config::thread_rules(pkg, seq![field(key, text_array(names))]) == config::name_rules(
            pkg,
            key,
            names,
        ),
{
    let v = seq![field(key, text_array(names))];
    lemma_text_array(names);
    assert(v.drop_last() =~= Seq::empty());
    assert(v.last() == field(key, text_array(names)));
    assert(config::thread_rules(pkg, v.drop_last()) =~= Seq::empty());
    assert(config::thread_rules(pkg, v) =~= config::name_rules(pkg, key, names));
}

/// The rules of two fields.
proof fn lemma_two_fields(
    pkg: Seq<char>,
    a: Seq<char>,
    on_a: Seq<Seq<char>>,
    b: Seq<char>,
    on_b: Seq<Seq<char>>,
)
    ensures
        config::thread_rules(
            pkg,
            seq![field(a, text_array(on_a)), field(b, text_array(on_b))],
        ) == config::name_rules(pkg, a, on_a) + config::name_rules(pkg, b, on_b),
{
    let v = seq![field(a, text_array(on_a)), field(b, text_array(on_b))];
    lemma_one_field(pkg, a, on_a);
    lemma_text_array(on_b);
    assert(v.drop_last() =~= seq![field(a, text_array(on_a))]);
    assert(v.last() == field(b, text_array(on_b)));
}

/// The rules for the threads of a made-up entry, where the lists of cores differ.
proof fn lemma_core_rules(
    pkg: Seq<char>,
    big: Seq<char>,
    mid: Seq<char>,
    on_big: Seq<Seq<char>>,
    on_mid: Seq<Seq<char>>,
)
    requires
        big != mid,
    ensures
        config::thread_rules(pkg, core_fields(big, mid, on_big, on_mid)) == core_rules(
            pkg,
            big,
            mid,
            on_big,
            on_mid,
        ),
{
    let rules = config::thread_rules(pkg, core_fields(big, mid, on_big, on_mid));
    let goal = core_rules(pkg, big, mid, on_big, on_mid);
    lemma_one_field(pkg, big, on_big);
    lemma_one_field(pkg, mid, on_mid);
    lemma_two_fields(pkg, big, on_big, mid, on_mid);
    lemma_two_fields(pkg, mid, on_mid, big, on_big);
    assert(on_big.len() == 0 ==> config::name_rules(pkg, big, on_big) =~= Seq::empty());
    assert(on_mid.len() == 0 ==> config::name_rules(pkg, mid, on_mid) =~= Seq::empty());
    assert(rules =~= goal);
}

/// What was saved to a cache that held nothing is merged as the rules that were made up: the one for
/// the whole package on the little cores, those for the threads with much to do on the big cores,
/// and those for the threads with something to do on the cores in the middle, where there are such.
pub proof fn law_first_save_is_merged(
    text: Seq<char>,
    pkg: Seq<char>,
    names: Seq<Seq<char>>,
    big: Seq<char>,
    mid: Seq<char>,
    little: Seq<char>,
)
    requires
        document::reads_as(
            text,
            saved(old_cache(Seq::empty()), pkg, made_entry(pkg, names, big, mid, little)),
        ),
        big != mid,
    ensures
        document::json_document(text) matches Some(root) && {
            &&& cached_packages(root.members()) == Set::empty().insert(pkg)
            &&& cached_count(root.members()) == 1
            &&& cached_rules(root.members()) == seq![
                config::RuleView {
                    pkg,
                    thread: Seq::empty(),
                    cpus: little,
                    prio: 200,
                    cpuset_dir: Seq::empty(),
                },
            ] + core_rules(pkg, big, mid, big_threads(names), mid_threads(names, mid))
        },
{
    let old = old_cache(Seq::empty());
    reveal(Seq::filter);
    assert(old == Tree::Array(Seq::empty()));
    law_saved_is_merged(text, old, pkg, names, big, mid, little);
    law_made_rules(pkg, names, big, mid, little);
    lemma_core_rules(pkg, big, mid, big_threads(names), mid_threads(names, mid));
    assert(of_others(old.members(), pkg) =~= Seq::empty());
    let root = document::json_document(text)->0;
    assert(cached_rules(root.members()) =~= config::entry_rules(
        made_entry(pkg, names, big, mid, little),
        Seq::empty(),
    ));
}

/// Entries that say the same, save for their numbers, lead with the same package.
proof fn lemma_alike_leads(x: Tree, y: Tree, pkg: Seq<char>)
    requires
        document::alike(x, y),
    ensures
        leads(x, pkg) == leads(y, pkg),
{
    document::lemma_alike_get(x, y, "packages"@);
    let p = x.get("packages"@);
    let q = y.get("packages"@);
    if p.members().len() > 0 {
        assert(document::alike(p.members()[0], q.members()[0]));
    }
}

/// Saving the same again changes nothing, and so a cache does not grow: what the next save takes for
/// the old cache is what the last one wrote, it puts just that into the new text `again`, and that
/// is what is read in it. So the text of every later save is `again` too. It is `text` itself where
/// the cache held no numbers before, as one that only saves have written; the form of numbers may
/// change from the first text to the second, and what is read in the two is the same.
pub proof fn law_saving_twice(
    text: Seq<char>,
    again: Seq<char>,
    old: Tree,
    pkg: Seq<char>,
    names: Seq<Seq<char>>,
    big: Seq<char>,
    mid: Seq<char>,
    little: Seq<char>,
)
    requires
        ({
            let e = made_entry(pkg, names, big, mid, little);
            let first = saved(old, pkg, e);
            let second = saved(old_cache(text), pkg, e);
            &&& text == document::json_pretty(first, 2)
            &&& document::reads_as(text, first)
            &&& document::fits(first, document::read_depth())
            &&& text.len() > 0 && text[0] == '['
            &&& again == document::json_pretty(second, 2)
            &&& document::settled(second) ==> document::json_document(again) == Some(second)
            &&& again.len() > 0 && again[0] == '['
        }),
    ensures
        ({
            let e = made_entry(pkg, names, big, mid, little);
            let first = saved(old, pkg, e);
            let second = saved(old_cache(text), pkg, e);
            &&& second == old_cache(text)
            &&& old_cache(again) == old_cache(text)
            &&& document::json_document(again) == document::json_document(text)
            &&& document::json_pretty(saved(old_cache(again), pkg, e), 2) == again
            &&& document::alike(first, second)
            &&& first.members().len() == second.members().len()
            &&& document::plain(old) ==> second == first && again == text
        }),
{
    let e = made_entry(pkg, names, big, mid, little);
    let first = saved(old, pkg, e);
    let kept = without(old.members(), pkg);
    let root = old_cache(text);
    let second = saved(root, pkg, e);
    text::lemma_trim_keeps_front(text);
    text::lemma_trim_keeps_front(again);
    law_made_rules(pkg, names, big, mid, little);
    lemma_made_entry_plain(pkg, names, big, mid, little);
    let x = first.members();
    let r = root.members();
    let n = kept.len() as int;
    assert(document::alike(x[n], r[n]));
    document::lemma_alike_plain(e, r[n]);
    assert(r.drop_last().push(e) =~= r);
    lemma_without(old.members(), pkg);
    assert forall|i: int| 0 <= i < n implies !leads(#[trigger] r.drop_last()[i], pkg) by {
        assert(x[i] == kept[i]);
        assert(document::alike(x[i], r[i]));
        lemma_alike_leads(x[i], r[i], pkg);
    }
    lemma_without_none(r.drop_last(), pkg);
    assert(without(r, pkg) == r.drop_last());
    assert(second == root);
    assert(document::settled(second)) by {
        document::lemma_fits_deeper(first, document::read_depth(), 600);
        assert(document::json_document(document::json_pretty(first, 2)) == Some(second));
    }
    if document::plain(old) {
        assert forall|i: int| 0 <= i < x.len() implies document::plain(#[trigger] x[i]) by {
            if i < n {
                assert(x[i] == kept[i]);
                let k = choose|k: int| 0 <= k < old.members().len() && old.members()[k] == kept[i];
                assert(document::plain(old.members()[k]));
            }
        }
        document::lemma_alike_plain(first, second);
    }
}

/// Leaving out a package that no entry leads with leaves everything.
proof fn lemma_without_none(v: Seq<Tree>, pkg: Seq<char>)
    requires
        forall|i: int| 0 <= i < v.len() ==> !leads(#[trigger] v[i], pkg),
    ensures
        without(v, pkg) == v,
    decreases v.len(),
{
    if v.len() > 0 {
        let w = v.drop_last();
        assert forall|i: int| 0 <= i < w.len() implies !leads(#[trigger] w[i], pkg) by {
            assert(w[i] == v[i]);
        }
        lemma_without_none(w, pkg);
        assert(!leads(v[v.len() - 1], pkg));
        assert(w.push(v.last()) =~= v);
    } else {
        assert(without(v, pkg) =~= v);
    }
}

/// A made-up entry holds no numbers.
proof fn lemma_made_entry_plain(
    pkg: Seq<char>,
    names: Seq<Seq<char>>,
    big: Seq<char>,
    mid: Seq<char>,
    little: Seq<char>,
)
    ensures
        document::plain(made_entry(pkg, names, big, mid, little)),
{
    let on_big = big_threads(names);
    let on_mid = mid_threads(names, mid);
    let cores = core_fields(big, mid, on_big, on_mid);
    let cpuset = cpuset_tree(little, cores);
    let entry = made_entry(pkg, names, big, mid, little);
    assert forall|v: Seq<Seq<char>>| document::plain(#[trigger] text_array(v)) by {
        let inner = text_array(v)->Array_0;
        assert forall|i: int| 0 <= i < inner.len() implies document::plain(#[trigger] inner[i]) by {
            assert(inner[i] == Tree::Text(v[i]));
        }
    }
    assert forall|i: int| 0 <= i < cores.len() implies document::plain(
        (#[trigger] cores[i]).value,
    ) by {
        assert(document::plain(text_array(on_big)));
        assert(document::plain(text_array(on_mid)));
        assert(document::plain(text_array(on_big + on_mid)));
    }
    assert(document::plain(Tree::Object(cores)));
    let parts = cpuset->Object_0;
    assert forall|i: int| 0 <= i < parts.len() implies document::plain(
        (#[trigger] parts[i]).value,
    ) by {}
    assert(document::plain(cpuset));
    assert(document::plain(text_array(seq![pkg])));
    let fields = entry->Object_0;
    assert forall|i: int| 0 <= i < fields.len() implies document::plain(
        (#[trigger] fields[i]).value,
    ) by {}
}

/// Leaving a package out of a cache that was saved for it leaves what the old one held of others.
proof fn lemma_without_push(v: Seq<Tree>, pkg: Seq<char>, e: Tree)
    requires
        leads(e, pkg),
    ensures
        without(without(v, pkg).push(e), pkg) == without(v, pkg),
    decreases v.len(),
{
    let w = without(v, pkg);
    assert(w.push(e).drop_last() =~= w);
    lemma_without_twice(v, pkg);
}

/// Leaving a package out a second time changes nothing.
proof fn lemma_without_twice(v: Seq<Tree>, pkg: Seq<char>)
    ensures
        without(without(v, pkg), pkg) == without(v, pkg),
    decreases v.len(),
{
    if v.len() > 0 {
        let a = without(v.drop_last(), pkg);
        lemma_without_twice(v.drop_last(), pkg);
        if !leads(v.last(), pkg) {
            assert(a.push(v.last()).drop_last() =~= a);
        }
    }
}

/// The cache does not grow when a package is saved again: the later entry takes the place of the
/// earlier one, and it is the only one for the package.
pub proof fn law_saving_again_replaces(old: Tree, pkg: Seq<char>, first: Tree, second: Tree)
    requires
        leads(first, pkg),
        leads(second, pkg),
    ensures
        saved(saved(old, pkg, first), pkg, second) == saved(old, pkg, second),
        forall|i: int|
            0 <= i < saved(old, pkg, first).members().len() ==> (leads(
                #[trigger] saved(old, pkg, first).members()[i],
                pkg,
            ) <==> i == saved(old, pkg, first).members().len() - 1),
{
    lemma_without_push(old.members(), pkg, first);
    lemma_without(old.members(), pkg);
    let kept = without(old.members(), pkg);
    let all = saved(old, pkg, first).members();
    assert forall|i: int| 0 <= i < all.len() implies (leads(#[trigger] all[i], pkg) <==> i
        == all.len() - 1) by {
        if i < kept.len() {
            assert(all[i] == kept[i]);
        }
    }
}

/// Saving a package keeps the entries of all others, in their order.
pub proof fn law_saving_keeps_others(old: Tree, pkg: Seq<char>, entry: Tree)
    requires
        leads(entry, pkg),
    ensures
        without(saved(old, pkg, entry).members(), pkg) == without(old.members(), pkg),
        without(old.members(), pkg) == old.members().filter(|e: Tree| !leads(e, pkg)),
{
    lemma_without_push(old.members(), pkg, entry);
    lemma_without_is_filter(old.members(), pkg);
}

/// Leaving a package out is a filter.
proof fn lemma_without_is_filter(v: Seq<Tree>, pkg: Seq<char>)
    ensures
        without(v, pkg) == v.filter(|e: Tree| !leads(e, pkg)),
    decreases v.len(),
{
    reveal(Seq::filter);
    if v.len() > 0 {
        lemma_without_is_filter(v.drop_last(), pkg);
    }
}

/// Every rule that is merged is for a package that is merged with it, and has the priority of its
/// thread.
pub proof fn law_merged_rules_sound(v: Seq<Tree>)
    ensures
        forall|i: int|
            0 <= i < cached_rules(v).len() ==> cached_packages(v).contains(
                (#[trigger] cached_rules(v)[i]).pkg,
            ) && cached_rules(v)[i].prio == config::prio_of(cached_rules(v)[i].thread),
    decreases v.len(),
{
    if v.len() > 0 {
        let w = v.drop_first();
        law_merged_rules_sound(w);
        let later = cached_rules(w);
        let all = cached_rules(v);
        if counts(v, 0) {
            let e = v[0];
            config::lemma_entry_rules_sound(e, Seq::empty());
            let own = config::entry_rules(e, Seq::empty());
            assert forall|i: int| 0 <= i < all.len() implies cached_packages(v).contains(
                (#[trigger] all[i]).pkg,
            ) && all[i].prio == config::prio_of(all[i].thread) by {
                if i < own.len() {
                    assert(all[i] == own[i]);
                    assert(config::rule_sound(own[i], config::packages(e)));
                    assert(config::packages(e).to_set().contains(all[i].pkg));
                } else {
                    assert(all[i] == later[i - own.len()]);
                }
            }
        }
    }
}

} // verus!
