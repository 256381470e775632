//! How texts are taken apart.

use vstd::prelude::*;

use crate::text;

verus! {

/// Every character of `s` is white space.
pub open spec fn blank(s: Seq<char>) -> bool {
    forall|i: int| 0 <= i < s.len() ==> text::white(#[trigger] s[i])
}

/// No character of `s` is white space.
pub open spec fn solid(s: Seq<char>) -> bool {
    forall|i: int| 0 <= i < s.len() ==> !text::white(#[trigger] s[i])
}

/// White space is the tab and the line ends up to the carriage return, the space, and the spaces
/// and separators of Unicode.
pub proof fn law_white(c: char)
    ensures
        text::white(c) <==> (9 <= c as u32 <= 13 || c as u32 == 32 || c as u32 == 133 || c as u32
            == 160 || c as u32 == 5760 || 8192 <= c as u32 <= 8202 || c as u32 == 8232 || c as u32
            == 8233 || c as u32 == 8239 || c as u32 == 8287 || c as u32 == 12288),
{
}

/// Trimming takes away the white space at both ends, and nothing else.
pub proof fn law_trimmed(front: Seq<char>, body: Seq<char>, back: Seq<char>)
    requires
        blank(front),
        blank(back),
        body.len() > 0,
        !text::white(body[0]),
        !text::white(body.last()),
    ensures
        text::trimmed(front + body + back) == body,
{
    lemma_trim_front(front, body + back);
    assert(front + body + back =~= front + (body + back));
    assert((body + back)[0] == body[0]);
    lemma_trim_back(body, back);
    assert(text::trimmed(front + body + back) =~= body) by {
        lemma_trim_back(front + body, back);
        assert((front + body).last() == body.last());
        lemma_trim_front(front, body);
        assert(front + body =~= front + body);
    }
}

/// Of a text that is all white space nothing is left.
pub proof fn law_trimmed_blank(s: Seq<char>)
    requires
        blank(s),
    ensures
        text::trimmed(s) == Seq::<char>::empty(),
{
    lemma_trim_front(s, Seq::empty());
    lemma_trim_back(Seq::empty(), s);
    assert(s + Seq::<char>::empty() =~= s);
    assert(Seq::<char>::empty() + s =~= s);
    assert(text::trim_front(Seq::<char>::empty()) =~= Seq::<char>::empty());
    assert(text::trim_back(Seq::<char>::empty()) =~= Seq::<char>::empty());
}

/// White space in front of a text is taken away.
proof fn lemma_trim_front(front: Seq<char>, rest: Seq<char>)
    requires
        blank(front),
        rest.len() > 0 ==> !text::white(rest[0]),
    ensures
        text::trim_front(front + rest) == rest,
    decreases front.len(),
{
    let s = front + rest;
    if front.len() == 0 {
        assert(s =~= rest);
    } else {
        assert(text::white(front[0]));
        let f = front.drop_first();
        assert forall|i: int| 0 <= i < f.len() implies text::white(#[trigger] f[i]) by {
            assert(f[i] == front[i + 1]);
        }
        lemma_trim_front(f, rest);
        assert(s.drop_first() =~= f + rest);
    }
}

/// White space behind a text is taken away.
proof fn lemma_trim_back(rest: Seq<char>, back: Seq<char>)
    requires
        blank(back),
        rest.len() > 0 ==> !text::white(rest.last()),
    ensures
        text::trim_back(rest + back) == rest,
    decreases back.len(),
{
    let s = rest + back;
    if back.len() == 0 {
        assert(s =~= rest);
    } else {
        assert(text::white(back[back.len() - 1]));
        let b = back.drop_last();
        assert forall|i: int| 0 <= i < b.len() implies text::white(#[trigger] b[i]) by {
            assert(b[i] == back[i]);
        }
        lemma_trim_back(rest, b);
        assert(s.drop_last() =~= rest + b);
    }
}

/// The pieces of a text: what stands before the first separator, and the pieces of what follows
/// it; a text without the separator is its own only piece.
pub proof fn law_pieces(front: Seq<char>, c: char, rest: Seq<char>)
    requires
        !front.contains(c),
    ensures
        text::pieces(front, c) == seq![front],
        text::pieces(front + seq![c] + rest, c) == seq![front] + text::pieces(rest, c),
        text::head_piece(front, c) == front,
        text::head_piece(front + seq![c] + rest, c) == front,
{
    let n = front.len() as int;
    let s = front + seq![c] + rest;
    assert forall|j: int| 0 <= j < n implies front[j] != c && s[j] != c by {
        assert(front.contains(front[j]));
        assert(s[j] == front[j]);
    }
    text::lemma_first_of_unique(front, c, n);
    text::lemma_first_of_unique(s, c, n);
    assert(s.take(n) =~= front);
    assert(front.take(n) =~= front);
    assert(s.skip(n + 1) =~= rest);
}

/// A text that is all white space has no words.
pub proof fn law_no_words(gap: Seq<char>)
    requires
        blank(gap),
    ensures
        text::words(gap) == Seq::<Seq<char>>::empty(),
{
    lemma_trim_front(gap, Seq::empty());
    assert(gap + Seq::<char>::empty() =~= gap);
}

/// The words of a text: after white space a word up to the next white space, and the words of
/// what follows.
pub proof fn law_words(gap: Seq<char>, word: Seq<char>, rest: Seq<char>)
    requires
        blank(gap),
        solid(word),
        word.len() > 0,
        rest.len() > 0 ==> text::white(rest[0]),
    ensures
        text::words(gap + word + rest) == seq![word] + text::words(rest),
{
    let s = gap + word + rest;
    let t = word + rest;
    assert(s =~= gap + t);
    assert(!text::white(word[0]));
    lemma_trim_front(gap, t);
    text::lemma_first_white(t);
    let at = text::first_white(t);
    let n = word.len() as int;
    if at < n {
        assert(t[at] == word[at]);
    }
    if at > n {
        assert(t[n] == rest[0]);
    }
    assert(at == n);
    assert(t.take(at) =~= word);
    assert(t.skip(at) =~= rest);
}

/// A text has another in it where it is that text with something before and after it.
pub proof fn law_has_text(s: Seq<char>, needle: Seq<char>)
    ensures
        text::has_text(s, needle) <==> exists|front: Seq<char>, back: Seq<char>|
            s == #[trigger] ((front + needle) + back),
{
    if text::has_text(s, needle) {
        let i = choose|i: int| text::stands_at(s, needle, i);
        let front = s.take(i);
        let back = s.skip(i + needle.len());
        assert(s =~= (front + needle) + back);
    }
    if exists|front: Seq<char>, back: Seq<char>| s == #[trigger] ((front + needle) + back) {
        let (front, back) = choose|front: Seq<char>, back: Seq<char>|
            s == #[trigger] ((front + needle) + back);
        let i = front.len() as int;
        assert(s.subrange(i, i + needle.len()) =~= needle);
        assert(text::stands_at(s, needle, i));
    }
}

/// Of two texts that differ after a common front the one with the lower character there comes
/// first; the front alone comes before every text that goes on after it.
pub proof fn law_text_before(front: Seq<char>, a: Seq<char>, b: Seq<char>)
    ensures
        a.len() > 0 && b.len() > 0 && a[0] != b[0] ==> (text::text_before(front + a, front + b)
            <==> a[0] < b[0]),
        text::text_before(front, front + b) <==> b.len() > 0,
        !text::text_before(front + a, front),
    decreases front.len(),
{
    let x = front + a;
    let y = front + b;
    if front.len() == 0 {
        assert(x =~= a);
        assert(y =~= b);
    } else {
        let f = front.drop_first();
        law_text_before(f, a, b);
        assert(x.drop_first() =~= f + a);
        assert(y.drop_first() =~= f + b);
        assert(x[0] == front[0] && y[0] == front[0]);
    }
}

/// The commas of a text become dots, and its other characters stay.
pub proof fn law_dotted(s: Seq<char>, i: int)
    ensures
        text::dotted(s).len() == s.len(),
        0 <= i < s.len() && s[i] == ',' ==> text::dotted(s)[i] == '.',
        0 <= i < s.len() && s[i] != ',' ==> text::dotted(s)[i] == s[i],
{
}

/// The texts of strings are theirs one for one.
pub proof fn law_views(v: Seq<String>, i: int)
    ensures
        text::views(v).len() == v.len(),
        0 <= i < v.len() ==> text::views(v)[i] == v[i]@,
{
}

} // verus!
