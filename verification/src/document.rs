//! JSON documents as plain values, read and written by the `json` crate.

use vstd::prelude::*;

use crate::numeral;
use crate::text;

verus! {

/// A JSON value of the `json` crate.
#[verifier::external_type_specification]
#[verifier::external_body]
pub struct ExJsonValue(json::JsonValue);

/// The error with which the `json` crate refuses a text.
#[verifier::external_type_specification]
#[verifier::external_body]
pub struct ExJsonError(json::Error);

/// A number of the `json` crate, which keeps the digits that were written.
#[verifier::external_type_specification]
#[verifier::external_body]
pub struct ExNumber(json::number::Number);

/// What a JSON document says.
pub enum Tree {
    Null,
    Bool(bool),
    Number(json::number::Number),
    Text(Seq<char>),
    Array(Seq<Tree>),
    Object(Seq<Field>),
}

/// An entry of a JSON object.
pub struct Field {
    pub key: Seq<char>,
    pub value: Tree,
}

/// A JSON document.
pub enum Json {
    Null,
    Bool(bool),
    Number(json::number::Number),
    Text(String),
    Array(Vec<Json>),
    Object(Vec<(String, Json)>),
}

impl View for Json {
    type V = Tree;

    open spec fn view(&self) -> Tree
        decreases self,
    {
        match *self {
            Json::Null => Tree::Null,
            Json::Bool(b) => Tree::Bool(b),
            Json::Number(n) => Tree::Number(n),
            Json::Text(s) => Tree::Text(s@),
            Json::Array(v) => Tree::Array(
                Seq::new(
                    v@.len(),
                    |i: int|
                        if 0 <= i < v@.len() {
                            v@[i].view()
                        } else {
                            Tree::Null
                        },
                ),
            ),
            Json::Object(v) => Tree::Object(
                Seq::new(
                    v@.len(),
                    |i: int|
                        if 0 <= i < v@.len() {
                            Field { key: v@[i].0@, value: v@[i].1.view() }
                        } else {
                            Field { key: Seq::empty(), value: Tree::Null }
                        },
                ),
            ),
        }
    }
}

/// One level of a JSON value: its own content, with the values inside it as they are.
pub enum Node {
    Null,
    Bool(bool),
    Number(json::number::Number),
    Text(String),
    Array(Vec<json::JsonValue>),
    Object(Vec<(String, json::JsonValue)>),
}

/// What a value of the `json` crate says.
pub uninterp spec fn json_content(value: json::JsonValue) -> Tree;

/// What `json::parse` reads in a text; `None` where it refuses the text.
pub uninterp spec fn json_document(text: Seq<char>) -> Option<Tree>;

/// What `json::stringify_pretty` writes for a document, with `indent` spaces for each level.
pub uninterp spec fn json_pretty(content: Tree, indent: u16) -> Seq<char>;

/// What one level of a JSON value says, with the values inside it.
pub open spec fn node_content(node: Node) -> Tree {
    match node {
        Node::Null => Tree::Null,
        Node::Bool(b) => Tree::Bool(b),
        Node::Number(n) => Tree::Number(n),
        Node::Text(s) => Tree::Text(s@),
        Node::Array(v) => Tree::Array(v@.map_values(|x: json::JsonValue| json_content(x))),
        Node::Object(v) => Tree::Object(
            v@.map_values(|x: (String, json::JsonValue)| (Field { key: x.0@, value: json_content(x.1) })),
        ),
    }
}

/// No key occurs twice.
pub open spec fn keys_distinct(entries: Seq<Field>) -> bool {
    forall|i: int, j: int|
        0 <= i < j < entries.len() ==> (#[trigger] entries[i]).key != (#[trigger] entries[j]).key
}

/// Arrays and objects that hold something are nested at most `depth` deep, and no object has a
/// key twice.
pub open spec fn fits(t: Tree, depth: nat) -> bool
    decreases depth,
{
    match t {
        Tree::Array(v) => v.len() == 0 || depth > 0 && forall|i: int|
            0 <= i < v.len() ==> fits(#[trigger] v[i], (depth - 1) as nat),
        Tree::Object(v) => v.len() == 0 || depth > 0 && keys_distinct(v) && forall|i: int|
            0 <= i < v.len() ==> fits((#[trigger] v[i]).value, (depth - 1) as nat),
        _ => true,
    }
}

/// The documents say the same, save for their numbers.
pub open spec fn alike(a: Tree, b: Tree) -> bool
    decreases a,
{
    match a {
        Tree::Null => b is Null,
        Tree::Bool(x) => b == Tree::Bool(x),
        Tree::Number(_) => b is Number || b is Null,
        Tree::Text(s) => b == Tree::Text(s),
        Tree::Array(v) => b matches Tree::Array(w) && v.len() == w.len() && forall|i: int|
            0 <= i < v.len() ==> alike(#[trigger] v[i], w[i]),
        Tree::Object(v) => b matches Tree::Object(w) && v.len() == w.len() && forall|i: int|
            0 <= i < v.len() ==> (#[trigger] v[i]).key == w[i].key && alike(v[i].value, w[i].value),
    }
}

/// How deep a document nests that `json::parse` reads.
pub open spec fn read_depth() -> nat {
    512
}

/// What `json::parse` reads in the text `text` is the document `doc`, save for its numbers.
pub open spec fn reads_as(text: Seq<char>, doc: Tree) -> bool {
    json_document(text) matches Some(t) && alike(doc, t)
}

/// The document `doc` is what `json::parse` reads in a text that `json::stringify_pretty` writes.
pub open spec fn settled(doc: Tree) -> bool {
    exists|t: Tree, indent: u16|
        fits(t, 600) && indent <= 100 && #[trigger] json_document(json_pretty(t, indent)) == Some(
            doc,
        )
}

/// Where a position in a JSON text stands with regard to its strings.
#[derive(Clone, Copy, Debug, PartialEq, Eq, Structural)]
pub enum Place {
    /// Outside of every string.
    Outside,
    /// Inside a string.
    Inside,
    /// Inside a string, after the backslash of an escape.
    Escaped,
}

/// What the character `c` makes of the place before it.
pub open spec fn next_place(before: Place, c: char) -> Place {
    match before {
        Place::Outside => if c == '"' {
            Place::Inside
        } else {
            Place::Outside
        },
        Place::Inside => if c == '"' {
            Place::Outside
        } else if c == '\\' {
            Place::Escaped
        } else {
            Place::Inside
        },
        Place::Escaped => Place::Inside,
    }
}

/// The place after the text `s`.
pub open spec fn place_after(s: Seq<char>) -> Place
    decreases s.len(),
{
    if s.len() == 0 {
        Place::Outside
    } else {
        next_place(place_after(s.drop_last()), s.last())
    }
}

/// At `at` in `s`, outside of strings, stands the point of a number that begins with `0.`.
pub open spec fn point_after_zero(s: Seq<char>, at: int) -> bool {
    &&& 0 < at < s.len()
    &&& s[at] == '.'
    &&& s[at - 1] == '0'
    &&& at == 1 || !numeral::digit(s[at - 2])
    &&& place_after(s.take(at)) is Outside
}

/// How many zeros after the point a number cannot have.
pub const LONG_FRACTION: usize = 32749;

/// The point at `at` in `s` is that of a number that begins with `0.`, and is followed by at least
/// `LONG_FRACTION` zeros.
pub open spec fn long_fraction_at(s: Seq<char>, at: int) -> bool {
    point_after_zero(s, at) && at + LONG_FRACTION < s.len() && forall|j: int|
        at < j <= at + LONG_FRACTION ==> s[j] == '0'
}

/// A text in which no number begins with `0.` and `LONG_FRACTION` zeros. The `json` crate counts
/// the digits of a fraction in 16 bits, the zeros and at most 20 digits after them: with more
/// zeros the count can overflow.
pub open spec fn readable(s: Seq<char>) -> bool {
    forall|at: int| !(#[trigger] long_fraction_at(s, at))
}

/// `json::parse`. It reads the same document in the same text. In it at most 512 arrays and
/// objects that hold something stand inside each other, and a key that the text gives twice in
/// an object stands there once.
#[verifier::external_body]
fn json_parse(text: &str) -> (r: Result<json::JsonValue, json::Error>)
    requires
        readable(text@),
    ensures
        match r {
            Ok(v) => json_document(text@) == Some(json_content(v)) && fits(
                json_content(v),
                read_depth(),
            ),
            Err(_) => json_document(text@) is None,
        },
{
    json::parse(text)
}

/// The variants of `json::JsonValue`, taken apart with `Object::iter` and `String::from`: what the
/// value says is what stands in this level and in the values inside it, in their order. The values
/// inside an object are cloned, level by level.
#[verifier::external_body]
fn json_open(value: json::JsonValue) -> (r: Node)
    requires
        fits(json_content(value), 600),
    ensures
        node_content(r) == json_content(value),
{
    match value {
        json::JsonValue::Null => Node::Null,
        json::JsonValue::Boolean(b) => Node::Bool(b),
        json::JsonValue::Number(n) => Node::Number(n),
        json::JsonValue::Short(s) => Node::Text(String::from(s)),
        json::JsonValue::String(s) => Node::Text(s),
        json::JsonValue::Array(v) => Node::Array(v),
        json::JsonValue::Object(o) => Node::Object(
            o.iter().map(|(k, v)| (String::from(k), v.clone())).collect(),
        ),
    }
}

/// The variants of `json::JsonValue`, put together with `Object::from_iter`: an object keeps the
/// entries in the order in which they come, where no key comes twice.
#[verifier::external_body]
fn json_close(node: Node) -> (r: json::JsonValue)
    requires
        node_content(node) matches Tree::Object(v) ==> keys_distinct(v),
    ensures
        json_content(r) == node_content(node),
{
    match node {
        Node::Null => json::JsonValue::Null,
        Node::Bool(b) => json::JsonValue::Boolean(b),
        Node::Number(n) => json::JsonValue::Number(n),
        Node::Text(s) => json::JsonValue::String(s),
        Node::Array(v) => json::JsonValue::Array(v),
        Node::Object(v) => json::JsonValue::Object(v.into_iter().collect()),
    }
}

/// `json::stringify_pretty`. It writes the same text for the same document, and `json::parse`
/// reads in that text the same document, where it does not nest too deep to be read. The text of an
/// array begins with its bracket. No number in the text has more than 20 digits after its point.
///
/// Of a number the first such text does not always keep the form in which the digits are held: a
/// zero loses its exponent, zeros at the end may go from the exponent to the digits, an exponent at
/// the edge of the 16 bits that hold it is cut, and for what is not a number the text says null. But
/// what was read in such a text comes back just as it is from the next: its digits and its exponent
/// are written so that the same are read.
#[verifier::external_body]
fn json_print(value: json::JsonValue, indent: u16) -> (r: String)
    requires
        fits(json_content(value), 600),
        indent <= 100,
    ensures
        r@ == json_pretty(json_content(value), indent),
        fits(json_content(value), read_depth()) ==> reads_as(r@, json_content(value)),
        settled(json_content(value)) ==> json_document(r@) == Some(json_content(value)),
        json_content(value) is Array ==> r@.len() > 0 && r@[0] == '[',
        readable(r@),
{
    json::stringify_pretty(value, indent)
}

impl Tree {
    /// The value under `key`, the first where there are several; null where there is none.
    pub open spec fn get(self, key: Seq<char>) -> Tree {
        match self {
            Tree::Object(v) => {
                if exists|i: int| 0 <= i < v.len() && (#[trigger] v[i]).key == key {
                    v[first_key(v, key)].value
                } else {
                    Tree::Null
                }
            },
            _ => Tree::Null,
        }
    }

    /// The value at position `i`; null where there is none.
    pub open spec fn at(self, i: int) -> Tree {
        match self {
            Tree::Array(v) => if 0 <= i < v.len() {
                v[i]
            } else {
                Tree::Null
            },
            _ => Tree::Null,
        }
    }

    /// The elements of an array; none for anything else.
    pub open spec fn members(self) -> Seq<Tree> {
        match self {
            Tree::Array(v) => v,
            _ => Seq::empty(),
        }
    }

    /// The entries of an object; none for anything else.
    pub open spec fn entries(self) -> Seq<Field> {
        match self {
            Tree::Object(v) => v,
            _ => Seq::empty(),
        }
    }

    /// The text of a string.
    pub open spec fn text(self) -> Option<Seq<char>> {
        match self {
            Tree::Text(s) => Some(s),
            _ => None,
        }
    }

    /// Whether this is the boolean `true`.
    pub open spec fn holds(self) -> bool {
        self == Tree::Bool(true)
    }
}

/// The position of the first entry with the key `key`; the number of entries where there is none.
pub open spec fn first_key(entries: Seq<Field>, key: Seq<char>) -> int
    decreases entries.len(),
{
    if entries.len() == 0 || entries[0].key == key {
        0
    } else {
        1 + first_key(entries.drop_first(), key)
    }
}

/// A position with the properties of the first entry with a key is that position.
pub proof fn lemma_first_key(entries: Seq<Field>, key: Seq<char>, at: int)
    requires
        0 <= at <= entries.len(),
        forall|j: int| 0 <= j < at ==> (#[trigger] entries[j]).key != key,
        at < entries.len() ==> entries[at].key == key,
    ensures
        first_key(entries, key) == at,
    decreases entries.len(),
{
    if at > 0 {
        assert(entries[0].key != key);
        assert forall|j: int| 0 <= j < at - 1 implies (#[trigger] entries.drop_first()[j]).key
            != key by {
            assert(entries.drop_first()[j] == entries[j + 1]);
        }
        lemma_first_key(entries.drop_first(), key, at - 1);
    }
}

/// The document that a value of the `json` crate holds.
fn import(value: json::JsonValue) -> (r: Json)
    requires
        fits(json_content(value), 600),
    ensures
        r@ == json_content(value),
    decreases json_content(value),
{
    match json_open(value) {
        Node::Null => Json::Null,
        Node::Bool(b) => Json::Bool(b),
        Node::Number(n) => Json::Number(n),
        Node::Text(s) => Json::Text(s),
        Node::Array(v) => {
            let ghost whole = v@;
            let ghost inner = json_content(value)->Array_0;
            let mut rest: Vec<json::JsonValue> = v;
            let mut r: Vec<Json> = Vec::new();
            while rest.len() > 0
                invariant
                    fits(json_content(value), 600),
                    json_content(value) == Tree::Array(inner),
                    inner == whole.map_values(|x: json::JsonValue| json_content(x)),
                    rest@.len() + r@.len() == whole.len(),
                    rest@ == whole.skip(r@.len() as int),
                    forall|i: int| 0 <= i < r@.len() ==> (#[trigger] r@[i])@ == inner[i],
                decreases rest@.len(),
            {
                let ghost at = r@.len();
                let x: json::JsonValue = rest.remove(0);
                assert(x == whole[at as int]);
                assert(json_content(x) == inner[at as int]);
                assert(decreases_to!(json_content(value) => json_content(value)->Array_0));
                assert(decreases_to!(json_content(value)->Array_0 => json_content(value)->Array_0[at as int]));
                proof {
                    lemma_fits_inside(json_content(value), 600);
                    assert(fits(inner[at as int], 599));
                    lemma_fits_deeper(inner[at as int], 599, 600);
                }
                r.push(import(x));
                assert(rest@ =~= whole.skip(r@.len() as int));
            }
            let done: Json = Json::Array(r);
            assert(done@->Array_0 =~= inner);
            done
        },
        Node::Object(v) => {
            let ghost whole = v@;
            let ghost inner = json_content(value)->Object_0;
            let mut rest: Vec<(String, json::JsonValue)> = v;
            let mut r: Vec<(String, Json)> = Vec::new();
            while rest.len() > 0
                invariant
                    fits(json_content(value), 600),
                    json_content(value) == Tree::Object(inner),
                    inner == whole.map_values(
                        |x: (String, json::JsonValue)| (Field { key: x.0@, value: json_content(x.1) }),
                    ),
                    rest@.len() + r@.len() == whole.len(),
                    rest@ == whole.skip(r@.len() as int),
                    forall|i: int|
                        0 <= i < r@.len() ==> (Field { key: (#[trigger] r@[i]).0@, value: r@[i].1@ }) == inner[i],
                decreases rest@.len(),
            {
                let ghost at = r@.len();
                let x: (String, json::JsonValue) = rest.remove(0);
                assert(x == whole[at as int]);
                assert(json_content(x.1) == inner[at as int].value);
                assert(decreases_to!(json_content(value) => json_content(value)->Object_0));
                assert(decreases_to!(json_content(value)->Object_0 => json_content(value)->Object_0[at as int]));
                assert(decreases_to!(json_content(value)->Object_0[at as int] => json_content(value)->Object_0[at as int].value));
                proof {
                    lemma_fits_inside(json_content(value), 600);
                    assert(fits(inner[at as int].value, 599));
                    lemma_fits_deeper(inner[at as int].value, 599, 600);
                }
                let y: Json = import(x.1);
                r.push((x.0, y));
                assert(rest@ =~= whole.skip(r@.len() as int));
            }
            let done: Json = Json::Object(r);
            assert(done@->Object_0 =~= inner);
            done
        },
    }
}

/// What nests at most `depth` deep nests at most `more` deep.
pub proof fn lemma_fits_deeper(t: Tree, depth: nat, more: nat)
    requires
        fits(t, depth),
        depth <= more,
    ensures
        fits(t, more),
    decreases depth,
{
    match t {
        Tree::Array(v) => {
            assert forall|i: int| 0 <= i < v.len() implies fits(#[trigger] v[i], (more - 1) as nat) by {
                lemma_fits_deeper(v[i], (depth - 1) as nat, (more - 1) as nat);
            }
        },
        Tree::Object(v) => {
            assert forall|i: int| 0 <= i < v.len() implies fits(
                (#[trigger] v[i]).value,
                (more - 1) as nat,
            ) by {
                lemma_fits_deeper(v[i].value, (depth - 1) as nat, (more - 1) as nat);
            }
        },
        _ => {},
    }
}

/// What stands in a document nests one level less deep.
pub proof fn lemma_fits_inside(t: Tree, depth: nat)
    requires
        fits(t, depth),
    ensures
        t matches Tree::Array(v) ==> v.len() == 0 || depth > 0 && forall|i: int|
            0 <= i < v.len() ==> fits(#[trigger] v[i], (depth - 1) as nat),
        t matches Tree::Object(v) ==> v.len() == 0 || depth > 0 && keys_distinct(v) && forall|i: int|
            0 <= i < v.len() ==> fits((#[trigger] v[i]).value, (depth - 1) as nat),
{
}

/// The entries of an object, one by one.
pub proof fn lemma_object_view(doc: Json)
    requires
        doc is Object,
    ensures
        doc@ is Object,
        doc@->Object_0.len() == doc->Object_0@.len(),
        forall|i: int|
            0 <= i < doc->Object_0@.len() ==> (#[trigger] doc@->Object_0[i]) == (Field {
                key: doc->Object_0@[i].0@,
                value: doc->Object_0@[i].1@,
            }),
{
}

/// The elements of an array, one by one.
pub proof fn lemma_array_view(doc: Json, v: Vec<Json>)
    requires
        doc == Json::Array(v),
    ensures
        doc@ is Array,
        doc@->Array_0.len() == v@.len(),
        forall|i: int| 0 <= i < v@.len() ==> (#[trigger] doc@->Array_0[i]) == v@[i]@,
{
}

/// The document `doc` as a value of the `json` crate.
fn export(doc: &Json) -> (r: json::JsonValue)
    requires
        fits(doc@, 600),
    ensures
        json_content(r) == doc@,
    decreases doc,
{
    match doc {
        Json::Null => json_close(Node::Null),
        Json::Bool(b) => json_close(Node::Bool(*b)),
        Json::Number(n) => json_close(Node::Number(*n)),
        Json::Text(s) => json_close(Node::Text(s.clone())),
        Json::Array(v) => {
            let ghost inner = doc@->Array_0;
            proof {
                lemma_array_view(*doc, *v);
            }
            let mut r: Vec<json::JsonValue> = Vec::new();
            let mut i: usize = 0;
            while i < v.len()
                invariant
                    *doc == Json::Array(*v),
                    doc@ == Tree::Array(inner),
                    fits(doc@, 600),
                    i <= v@.len(),
                    r@.len() == i,
                    inner.len() == v@.len(),
                    forall|j: int| 0 <= j < inner.len() ==> (#[trigger] inner[j]) == v@[j]@,
                    forall|j: int| 0 <= j < i ==> json_content(#[trigger] r@[j]) == inner[j],
                decreases v@.len() - i,
            {
                proof {
                    lemma_fits_inside(doc@, 600);
                    assert(fits(inner[i as int], 599));
                    lemma_fits_deeper(inner[i as int], 599, 600);
                }
                r.push(export(&v[i]));
                i += 1;
            }
            let node: Node = Node::Array(r);
            assert(node_content(node)->Array_0 =~= inner);
            json_close(node)
        },
        Json::Object(v) => {
            let ghost inner = doc@->Object_0;
            proof {
                lemma_object_view(*doc);
            }
            let mut r: Vec<(String, json::JsonValue)> = Vec::new();
            let mut i: usize = 0;
            while i < v.len()
                invariant
                    *doc == Json::Object(*v),
                    doc@ == Tree::Object(inner),
                    fits(doc@, 600),
                    i <= v@.len(),
                    r@.len() == i,
                    inner.len() == v@.len(),
                    forall|j: int|
                        0 <= j < inner.len() ==> (#[trigger] inner[j]) == (Field { key: v@[j].0@, value: v@[j].1@ }),
                    forall|j: int|
                        0 <= j < i ==> (Field { key: (#[trigger] r@[j]).0@, value: json_content(r@[j].1) }) == inner[j],
                decreases v@.len() - i,
            {
                proof {
                    lemma_fits_inside(doc@, 600);
                    assert(fits(inner[i as int].value, 599));
                    lemma_fits_deeper(inner[i as int].value, 599, 600);
                }
                let key: String = v[i].0.clone();
                let value: json::JsonValue = export(&v[i].1);
                r.push((key, value));
                i += 1;
            }
            let node: Node = Node::Object(r);
            assert(node_content(node)->Object_0 =~= inner);
            json_close(node)
        },
    }
}

/// The document that the text `text` holds; `None` where it is not JSON.
pub fn parse(text: &str) -> (r: Option<Json>)
    requires
        readable(text@),
    ensures
        match r {
            Some(doc) => json_document(text@) == Some(doc@) && fits(doc@, read_depth()),
            None => json_document(text@) is None,
        },
{
    match json_parse(text) {
        Ok(value) => {
            proof {
                lemma_fits_deeper(json_content(value), read_depth(), 600);
            }
            Some(import(value))
        },
        Err(_) => None,
    }
}

/// The document `doc` as text, with `indent` spaces for each level.
pub fn pretty(doc: &Json, indent: u16) -> (r: String)
    requires
        fits(doc@, 600),
        indent <= 100,
    ensures
        r@ == json_pretty(doc@, indent),
        fits(doc@, read_depth()) ==> reads_as(r@, doc@),
        settled(doc@) ==> json_document(r@) == Some(doc@),
        doc@ is Array ==> r@.len() > 0 && r@[0] == '[',
        readable(r@),
{
    json_print(export(doc), indent)
}

/// What the character `c` makes of the place before it.
fn step_place(before: Place, c: char) -> (r: Place)
    ensures
        r == next_place(before, c),
{
    match before {
        Place::Outside => if c == '"' {
            Place::Inside
        } else {
            Place::Outside
        },
        Place::Inside => if c == '"' {
            Place::Outside
        } else if c == '\\' {
            Place::Escaped
        } else {
            Place::Inside
        },
        Place::Escaped => Place::Inside,
    }
}

/// Whether `parse` can be asked for the document in `text`: no number in it begins with `0.` and
/// `LONG_FRACTION` zeros.
pub fn is_readable(text: &str) -> (r: bool)
    ensures
        r == readable(text@),
{
    let x: Vec<char> = text::chars_of(text);
    let ghost s = x@;
    let mut i: usize = 0;
    let mut place: Place = Place::Outside;
    // The number of zeros before `i`, where the point of a number that begins with `0.` stands
    // before those.
    let mut zeros: Option<usize> = None;
    while i < x.len()
        invariant
            s == x@,
            s == text@,
            i <= s.len(),
            place == place_after(s.take(i as int)),
            forall|at: int| at + LONG_FRACTION < i ==> !(#[trigger] long_fraction_at(s, at)),
            match zeros {
                Some(n) => n < LONG_FRACTION && n < i && point_after_zero(s, i - n - 1)
                    && forall|j: int| i - n <= j < i ==> s[j] == '0',
                None => true,
            },
            forall|at: int|
                at < i && point_after_zero(s, at) && (forall|j: int| at < j < i ==> s[j] == '0')
                    ==> #[trigger] dot_counted(zeros, i as int, at),
        decreases s.len() - i,
    {
        let c: char = x[i];
        let ghost before = zeros;
        assert(s.take(i + 1).drop_last() =~= s.take(i as int));
        if c == '.' {
            let outside: bool = match place {
                Place::Outside => true,
                _ => false,
            };
            let zero: bool = outside && i > 0 && x[i - 1] == '0' && (i == 1 || !('0' <= x[i - 2]
                && x[i - 2] <= '9'));
            assert(zero == point_after_zero(s, i as int));
            zeros = if zero {
                Some(0)
            } else {
                None
            };
        } else if c == '0' {
            zeros = match zeros {
                Some(n) => {
                    if n == LONG_FRACTION - 1 {
                        assert(long_fraction_at(s, i - n - 1));
                        return false;
                    }
                    Some(n + 1)
                },
                None => None,
            };
        } else {
            zeros = None;
        }
        assert forall|at: int| at + LONG_FRACTION < i + 1 implies !(#[trigger] long_fraction_at(
            s,
            at,
        )) by {
            if at + LONG_FRACTION == i && long_fraction_at(s, at) {
                assert(s[i as int] == '0');
                assert(dot_counted(before, i as int, at));
            }
        }
        assert forall|at: int|
            at < i + 1 && point_after_zero(s, at) && (forall|j: int| at < j < i + 1 ==> s[j]
                == '0') implies #[trigger] dot_counted(zeros, i + 1, at) by {
            if at < i {
                assert(s[i as int] == '0');
                assert(dot_counted(before, i as int, at));
            }
        }
        place = step_place(place, c);
        i += 1;
    }
    true
}

/// The count of zeros before `i` goes back to the `.` at `at`.
spec fn dot_counted(zeros: Option<usize>, i: int, at: int) -> bool {
    zeros matches Some(n) && at == i - n - 1
}

/// What an optional value says: null where there is none.
pub open spec fn held(value: Option<&Json>) -> Tree {
    match value {
        Some(v) => v@,
        None => Tree::Null,
    }
}

impl Json {
    /// The value under `key`, where the document is an object that has it.
    pub fn get(&self, key: &str) -> (r: Option<&Json>)
        ensures
            held(r) == self@.get(key@),
    {
        match self {
            Json::Object(v) => {
                let ghost entries = self@->Object_0;
                proof {
                    lemma_object_view(*self);
                }
                let mut i: usize = 0;
                while i < v.len()
                    invariant
                        *self == Json::Object(*v),
                        self@ == Tree::Object(entries),
                        entries.len() == v@.len(),
                        forall|j: int|
                            0 <= j < entries.len() ==> (#[trigger] entries[j]) == (Field {
                                key: v@[j].0@,
                                value: v@[j].1@,
                            }),
                        i <= v@.len(),
                        forall|j: int| 0 <= j < i ==> (#[trigger] entries[j]).key != key@,
                    decreases v@.len() - i,
                {
                    if text::same(v[i].0.as_str(), key) {
                        proof {
                            lemma_first_key(entries, key@, i as int);
                        }
                        return Some(&v[i].1);
                    }
                    i += 1;
                }
                None
            },
            _ => None,
        }
    }

    /// The element at position `i`, where the document is an array that has it.
    pub fn at(&self, i: usize) -> (r: Option<&Json>)
        ensures
            held(r) == self@.at(i as int),
    {
        match self {
            Json::Array(v) => {
                if i < v.len() {
                    assert(self@->Array_0[i as int] == v@[i as int]@);
                    Some(&v[i])
                } else {
                    None
                }
            },
            _ => None,
        }
    }

    /// The text, where the document is a string.
    pub fn as_text(&self) -> (r: Option<&str>)
        ensures
            match r {
                Some(s) => self@.text() == Some(s@),
                None => self@.text() is None,
            },
    {
        match self {
            Json::Text(s) => Some(s.as_str()),
            _ => None,
        }
    }
}

/// The value under `key` in a value, where there is one.
pub fn get_in<'a>(value: Option<&'a Json>, key: &str) -> (r: Option<&'a Json>)
    ensures
        held(r) == held(value).get(key@),
{
    match value {
        Some(v) => v.get(key),
        None => None,
    }
}

/// The text of a value, where there is a value and it is a string.
pub fn text_of(value: Option<&Json>) -> (r: Option<&str>)
    ensures
        match r {
            Some(s) => held(value).text() == Some(s@),
            None => held(value).text() is None,
        },
{
    match value {
        Some(v) => v.as_text(),
        None => None,
    }
}

/// The texts among the values `v`, in their order.
pub open spec fn texts(v: Seq<Tree>) -> Seq<Seq<char>>
    decreases v.len(),
{
    if v.len() == 0 {
        Seq::empty()
    } else {
        match v.last().text() {
            Some(s) => texts(v.drop_last()).push(s),
            None => texts(v.drop_last()),
        }
    }
}

/// The texts among the elements of a value, in their order; none where it is no array.
pub fn texts_in(value: Option<&Json>) -> (r: Vec<String>)
    ensures
        text::views(r@) == texts(held(value).members()),
{
    let mut r: Vec<String> = Vec::new();
    assert(text::views(r@) =~= Seq::empty());
    match value {
        Some(Json::Array(v)) => {
            let ghost all = held(value).members();
            proof {
                lemma_array_view(*value->0, *v);
            }
            let mut i: usize = 0;
            assert(all.take(0) =~= Seq::<Tree>::empty());
            while i < v.len()
                invariant
                    i <= v@.len(),
                    all.len() == v@.len(),
                    forall|j: int| 0 <= j < v@.len() ==> (#[trigger] all[j]) == v@[j]@,
                    text::views(r@) == texts(all.take(i as int)),
                decreases v@.len() - i,
            {
                assert(all.take(i + 1).drop_last() =~= all.take(i as int));
                let ghost before = r@;
                if let Some(s) = v[i].as_text() {
                    let owned: String = s.to_owned();
                    r.push(owned);
                    assert(text::views(r@) =~= text::views(before).push(owned@));
                }
                i += 1;
            }
            assert(all.take(i as int) =~= all);
        },
        _ => {},
    }
    r
}

/// Objects with the same keys have each key first at the same position.
proof fn lemma_same_first_key(v: Seq<Field>, w: Seq<Field>, key: Seq<char>)
    requires
        v.len() == w.len(),
        forall|i: int| 0 <= i < v.len() ==> (#[trigger] v[i]).key == w[i].key,
    ensures
        first_key(v, key) == first_key(w, key),
        0 <= first_key(v, key) <= v.len(),
        first_key(v, key) < v.len() <==> exists|i: int|
            0 <= i < v.len() && (#[trigger] v[i]).key == key,
    decreases v.len(),
{
    if v.len() > 0 {
        assert(v[0].key == w[0].key);
        if v[0].key != key {
            let a = v.drop_first();
            let b = w.drop_first();
            assert forall|i: int| 0 <= i < a.len() implies (#[trigger] a[i]).key == b[i].key by {
                assert(a[i] == v[i + 1]);
            }
            lemma_same_first_key(a, b, key);
            if exists|i: int| 0 <= i < v.len() && (#[trigger] v[i]).key == key {
                let i = choose|i: int| 0 <= i < v.len() && (#[trigger] v[i]).key == key;
                assert(a[i - 1].key == key);
            }
            if exists|i: int| 0 <= i < a.len() && (#[trigger] a[i]).key == key {
                let i = choose|i: int| 0 <= i < a.len() && (#[trigger] a[i]).key == key;
                assert(v[i + 1].key == key);
            }
        }
    }
}

/// Documents that say the same, save for their numbers, do so under each key.
pub proof fn lemma_alike_get(a: Tree, b: Tree, key: Seq<char>)
    requires
        alike(a, b),
    ensures
        alike(a.get(key), b.get(key)),
{
    if let Tree::Object(v) = a {
        if let Tree::Object(w) = b {
            lemma_same_first_key(v, w, key);
            lemma_same_first_key(w, v, key);
            let at = first_key(v, key);
            if at < v.len() {
                assert(v[at].key == w[at].key && alike(v[at].value, w[at].value));
            }
        }
    }
}

/// Arrays that say the same, save for their numbers, hold the same texts.
pub proof fn lemma_alike_texts(v: Seq<Tree>, w: Seq<Tree>)
    requires
        v.len() == w.len(),
        forall|i: int| 0 <= i < v.len() ==> alike(#[trigger] v[i], w[i]),
    ensures
        texts(v) == texts(w),
    decreases v.len(),
{
    if v.len() > 0 {
        let a = v.drop_last();
        let b = w.drop_last();
        assert forall|i: int| 0 <= i < a.len() implies alike(#[trigger] a[i], b[i]) by {
            assert(a[i] == v[i]);
        }
        lemma_alike_texts(a, b);
        assert(alike(v[v.len() - 1], w[v.len() - 1]));
    }
}

/// A document without numbers.
pub open spec fn plain(t: Tree) -> bool
    decreases t,
{
    match t {
        Tree::Number(_) => false,
        Tree::Array(v) => forall|i: int| 0 <= i < v.len() ==> plain(#[trigger] v[i]),
        Tree::Object(v) => forall|i: int| 0 <= i < v.len() ==> plain((#[trigger] v[i]).value),
        _ => true,
    }
}

/// A document without numbers says the same as another only where they are equal.
pub proof fn lemma_alike_plain(a: Tree, b: Tree)
    requires
        plain(a),
        alike(a, b),
    ensures
        a == b,
    decreases a,
{
    match (a, b) {
        (Tree::Array(v), Tree::Array(w)) => {
            assert forall|i: int| 0 <= i < v.len() implies v[i] == w[i] by {
                assert(plain(v[i]) && alike(v[i], w[i]));
                lemma_alike_plain(v[i], w[i]);
            }
            assert(v =~= w);
        },
        (Tree::Object(v), Tree::Object(w)) => {
            assert forall|i: int| 0 <= i < v.len() implies v[i] == w[i] by {
                assert(plain(v[i].value) && alike(v[i].value, w[i].value));
                lemma_alike_plain(v[i].value, w[i].value);
            }
            assert(v =~= w);
        },
        _ => {},
    }
}

/// Where the first of some values is a text, it is the first of the texts.
pub proof fn lemma_first_text(v: Seq<Tree>, s: Seq<char>)
    requires
        v.len() > 0,
        v[0] == Tree::Text(s),
    ensures
        texts(v).len() > 0,
        texts(v)[0] == s,
    decreases v.len(),
{
    if v.len() > 1 {
        lemma_first_text(v.drop_last(), s);
    } else {
        assert(texts(v.drop_last()) =~= Seq::empty());
    }
}

} // verus!
