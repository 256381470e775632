//! What a document holds where.

use vstd::prelude::*;

use crate::document;
use crate::document::{Field, Json, Tree};

verus! {

/// `v[i]` is the first of the entries `v` with its key.
pub open spec fn first_with_key(v: Seq<Field>, i: int) -> bool {
    0 <= i < v.len() && forall|j: int| 0 <= j < i ==> (#[trigger] v[j]).key != v[i].key
}

/// An object has under a key the value of the first entry with that key.
pub proof fn law_get_entry(v: Seq<Field>, i: int)
    requires
        first_with_key(v, i),
    ensures
        Tree::Object(v).get(v[i].key) == v[i].value,
{
    lemma_first_key(v, i);
}

/// Under a key that it does not have an object has nothing, and what is no object has nothing
/// under any key.
pub proof fn law_get_nothing(t: Tree, key: Seq<char>)
    requires
        t matches Tree::Object(v) ==> forall|i: int| 0 <= i < v.len() ==> (#[trigger] v[i]).key
            != key,
    ensures
        t.get(key) is Null,
{
}

/// Where an object has something under a key, that is the value of its first entry with the key.
pub proof fn law_got_from_entry(t: Tree, key: Seq<char>)
    requires
        !(t.get(key) is Null),
    ensures
        t is Object,
        exists|i: int| #[trigger]
            first_with_key(t->Object_0, i) && t->Object_0[i].key == key && t->Object_0[i].value
                == t.get(key),
{
    let v = t->Object_0;
    let k = choose|i: int| 0 <= i < v.len() && (#[trigger] v[i]).key == key;
    let i = lemma_some_first(v, key, k);
    lemma_first_key(v, i);
}

/// There is a first entry with a key where there is one.
proof fn lemma_some_first(v: Seq<Field>, key: Seq<char>, k: int) -> (i: int)
    requires
        0 <= k < v.len(),
        v[k].key == key,
    ensures
        first_with_key(v, i),
        v[i].key == key,
    decreases k,
{
    if exists|j: int| 0 <= j < k && (#[trigger] v[j]).key == key {
        let j = choose|j: int| 0 <= j < k && (#[trigger] v[j]).key == key;
        lemma_some_first(v, key, j)
    } else {
        k
    }
}

/// Where the first entry with a key is.
proof fn lemma_first_key(v: Seq<Field>, i: int)
    requires
        first_with_key(v, i),
    ensures
        document::first_key(v, v[i].key) == i,
    decreases i,
{
    if i > 0 {
        assert(v[0].key != v[i].key);
        let w = v.drop_first();
        assert(w[i - 1] == v[i]);
        assert forall|j: int| 0 <= j < i - 1 implies (#[trigger] w[j]).key != w[i - 1].key by {
            assert(w[j] == v[j + 1]);
        }
        lemma_first_key(w, i - 1);
    }
}

/// What a tree is made of: the elements of an array, the entries of an object, the text of a
/// string, and nothing of these for another.
pub proof fn law_parts_of_tree(t: Tree, v: Seq<Tree>, w: Seq<Field>, s: Seq<char>, i: int)
    ensures
        Tree::Array(v).members() == v,
        !(t is Array) ==> t.members() == Seq::<Tree>::empty() && t.at(i) is Null,
        0 <= i < v.len() ==> Tree::Array(v).at(i) == v[i],
        i < 0 || i >= v.len() ==> Tree::Array(v).at(i) is Null,
        Tree::Object(w).entries() == w,
        !(t is Object) ==> t.entries() == Seq::<Field>::empty(),
        Tree::Text(s).text() == Some(s),
        !(t is Text) ==> t.text() is None,
        Tree::Bool(true).holds() && !Tree::Bool(false).holds(),
        !(t is Bool) ==> !t.holds(),
{
}

/// The texts among two groups of values, one after the other, are those of each; of one value
/// alone it is its text where it is one.
pub proof fn law_texts(a: Seq<Tree>, b: Seq<Tree>, t: Tree)
    ensures
        document::texts(a + b) == document::texts(a) + document::texts(b),
        document::texts(seq![t]) == (match t {
            Tree::Text(s) => seq![s],
            _ => Seq::empty(),
        }),
    decreases b.len(),
{
    let none = Seq::<Tree>::empty();
    assert(seq![t].drop_last() =~= none);
    assert(document::texts(none) =~= Seq::empty());
    if b.len() == 0 {
        assert(a + b =~= a);
    } else {
        law_texts(a, b.drop_last(), t);
        assert((a + b).drop_last() =~= a + b.drop_last());
        assert((a + b).last() == b.last());
    }
}

/// Documents that are alike are of one kind, with the same texts and booleans, as many elements
/// and entries, and the same keys; a number may be another one, or nothing.
pub proof fn law_alike(a: Tree, b: Tree, i: int)
    requires
        document::alike(a, b),
    ensures
        a is Null ==> b is Null,
        a is Bool ==> b == a,
        a is Text ==> b == a,
        a is Number ==> b is Number || b is Null,
        a matches Tree::Array(v) ==> b is Array && b->Array_0.len() == v.len(),
        a matches Tree::Array(v) ==> 0 <= i < v.len() ==> document::alike(v[i], b->Array_0[i]),
        a matches Tree::Object(v) ==> b is Object && b->Object_0.len() == v.len(),
        a matches Tree::Object(v) ==> 0 <= i < v.len() ==> v[i].key == b->Object_0[i].key
            && document::alike(v[i].value, b->Object_0[i].value),
{
}

/// A document that fits has no more levels than it may, and no object in it has a key twice.
pub proof fn law_fits(t: Tree, depth: nat, i: int, j: int)
    requires
        document::fits(t, depth),
    ensures
        t matches Tree::Array(v) ==> 0 <= i < v.len() ==> depth > 0 && document::fits(
            v[i],
            (depth - 1) as nat,
        ),
        t matches Tree::Object(v) ==> 0 <= i < v.len() ==> depth > 0 && document::fits(
            v[i].value,
            (depth - 1) as nat,
        ),
        t matches Tree::Object(v) ==> 0 <= i < j < v.len() ==> v[i].key != v[j].key,
        document::read_depth() == 512,
{
}

/// A text can be read unless a point follows a number that is a zero alone, outside of every
/// string, and 32749 zeros follow the point.
pub proof fn law_readable(s: Seq<char>)
    ensures
        !document::readable(s) <==> exists|at: int|
            1 <= at && at + 32749 < s.len() && s[at] == '.' && s[at - 1] == '0' && (at == 1 || !(
            '0' <= s[at - 2] <= '9')) && #[trigger] document::place_after(s.take(at)) is Outside && (
            forall|j: int| at < j <= at + 32749 ==> s[j] == '0'),
{
    if !document::readable(s) {
        let at = choose|at: int| #[trigger] document::long_fraction_at(s, at);
        assert(document::place_after(s.take(at)) is Outside);
    }
    if exists|at: int|
        1 <= at && at + 32749 < s.len() && s[at] == '.' && s[at - 1] == '0' && (at == 1 || !('0'
            <= s[at - 2] <= '9')) && #[trigger] document::place_after(s.take(at)) is Outside && (
        forall|j: int| at < j <= at + 32749 ==> s[j] == '0') {
        let at = choose|at: int|
            1 <= at && at + 32749 < s.len() && s[at] == '.' && s[at - 1] == '0' && (at == 1 || !(
            '0' <= s[at - 2] <= '9')) && #[trigger] document::place_after(s.take(at)) is Outside && (
            forall|j: int| at < j <= at + 32749 ==> s[j] == '0');
        assert(document::long_fraction_at(s, at));
    }
}

/// A quote begins a string and the next one ends it, unless a backslash stands before it; other
/// characters change nothing, and a text begins outside of every string.
pub proof fn law_strings(s: Seq<char>, c: char)
    ensures
        document::place_after(Seq::empty()) is Outside,
        document::place_after(s) is Outside && c == '"' ==> document::place_after(s.push(c))
            is Inside,
        document::place_after(s) is Outside && c != '"' ==> document::place_after(s.push(c))
            is Outside,
        document::place_after(s) is Inside && c == '"' ==> document::place_after(s.push(c))
            is Outside,
        document::place_after(s) is Inside && c == '\\' ==> document::place_after(s.push(c))
            is Escaped,
        document::place_after(s) is Inside && c != '"' && c != '\\' ==> document::place_after(
            s.push(c),
        ) is Inside,
        document::place_after(s) is Escaped ==> document::place_after(s.push(c)) is Inside,
{
    assert(s.push(c).drop_last() =~= s);
}

/// A value in memory says what it holds, down to each element and entry.
pub proof fn law_value_says(j: Json, i: int)
    ensures
        j is Null ==> j@ == Tree::Null,
        j matches Json::Bool(b) ==> j@ == Tree::Bool(b),
        j matches Json::Number(n) ==> j@ == Tree::Number(n),
        j matches Json::Text(s) ==> j@ == Tree::Text(s@),
        j matches Json::Array(v) ==> j@ is Array && j@->Array_0.len() == v@.len(),
        j matches Json::Array(v) ==> 0 <= i < v@.len() ==> j@->Array_0[i] == v@[i]@,
        j matches Json::Object(v) ==> j@ is Object && j@->Object_0.len() == v@.len(),
        j matches Json::Object(v) ==> 0 <= i < v@.len() ==> j@->Object_0[i].key == v@[i].0@
            && j@->Object_0[i].value == v@[i].1@,
        document::held(Some(&j)) == j@,
        document::held(None) is Null,
{
}

} // verus!
