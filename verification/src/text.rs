//! Cutting up text: where a character first stands, and what is on either
//! side of it.

use vstd::prelude::*;
use vstd::string::*;

verus! {

/// Where `c` first stands in `text`, or the length of `text` where it does
/// not.
pub open spec fn find(text: Seq<char>, c: char) -> nat
    decreases text.len(),
{
    if text.len() == 0 || text[0] == c {
        0
    } else {
        1 + find(text.drop_first(), c)
    }
}

/// What stands before and after the first `c`.
pub open spec fn halves(text: Seq<char>, c: char) -> Option<(Seq<char>, Seq<char>)> {
    let at = find(text, c) as int;
    if at < text.len() {
        Some((text.take(at), text.skip(at + 1)))
    } else {
        None
    }
}

/// What stands before, between and after all the `c`.
pub open spec fn pieces(text: Seq<char>, c: char) -> Seq<Seq<char>>
    decreases text.len(),
{
    match halves(text, c) {
        Some((piece, others)) => seq![piece] + pieces(others, c),
        None => seq![text],
    }
}

/// The first place of a character is the one with none of it before.
pub proof fn lemma_find(text: Seq<char>, c: char, at: int)
    requires
        0 <= at <= text.len(),
        forall|i: int| 0 <= i < at ==> text[i] != c,
        at < text.len() ==> text[at] == c,
    ensures
        find(text, c) == at,
    decreases at,
{
    if at > 0 {
        lemma_find(text.drop_first(), c, at - 1);
    }
}

/// The first place of a character is within the text or right behind it.
pub proof fn lemma_find_bounds(text: Seq<char>, c: char)
    ensures
        find(text, c) <= text.len(),
    decreases text.len(),
{
    if text.len() > 0 && text[0] != c {
        lemma_find_bounds(text.drop_first(), c);
    }
}

/// What `text` has on either side of the first `c`, or `None` where it has
/// no `c`.
#[must_use]
pub fn split_once(text: &str, c: char) -> (parts: Option<(&str, &str)>)
    ensures
        halves(text@, c) == (match parts {
            Some((before, after)) => Some((before@, after@)),
            None => None,
        }),
{
    let len: usize = text.unicode_len();
    let mut at: usize = 0;
    for one in it: text.chars()
        invariant
            it.seq() == text@,
            at == it.index(),
            len == text@.len(),
            forall|i: int| 0 <= i < at ==> text@[i] != c,
    {
        if one == c {
            proof {
                lemma_find(text@, c, at as int);
                assert(text@.subrange(0, at as int) =~= text@.take(at as int));
                assert(text@.subrange(at + 1, len as int) =~= text@.skip(at + 1));
            }
            return Some((text.substring_char(0, at), text.substring_char(at + 1, len)));
        }
        at = at + 1;
    }
    proof {
        lemma_find(text@, c, len as int);
    }
    None
}

/// What `text` has behind `prefix`, or `None` where it begins otherwise.
#[must_use]
pub fn strip_prefix<'a>(text: &'a str, prefix: &str) -> (rest: Option<&'a str>)
    ensures
        rest is Some <==> prefix@.is_prefix_of(text@),
        rest matches Some(rest) ==> rest@ == text@.skip(prefix@.len() as int),
{
    let len: usize = text.unicode_len();
    let mut at: usize = 0;
    for one in it: prefix.chars()
        invariant
            it.seq() == prefix@,
            at == it.index(),
            at <= len == text@.len(),
            forall|i: int| 0 <= i < at ==> text@[i] == prefix@[i],
    {
        if at == len || text.get_char(at) != one {
            return None;
        }
        at = at + 1;
    }
    assert(prefix@ =~= text@.subrange(0, at as int));
    assert(text@.subrange(at as int, len as int) =~= text@.skip(at as int));
    Some(text.substring_char(at, len))
}

/// Whether two texts are the same.
#[must_use]
pub fn same(one: &str, other: &str) -> (equal: bool)
    ensures
        equal == (one@ == other@),
{
    match strip_prefix(one, other) {
        Some(rest) => {
            let equal: bool = rest.is_empty();
            proof {
                if equal {
                    assert(one@ =~= other@);
                }
            }
            equal
        },
        None => false,
    }
}

/// Text with a character between what has none of it and anything else is
/// cut there.
pub proof fn lemma_halves(before: Seq<char>, c: char, after: Seq<char>)
    requires
        !before.contains(c),
    ensures
        halves(before + seq![c] + after, c) == Some((before, after)),
{
    let text = before + seq![c] + after;
    assert forall|i: int| 0 <= i < before.len() implies text[i] != c by {
        assert(before.contains(before[i]));
    }
    lemma_find(text, c, before.len() as int);
    assert(text.take(before.len() as int) =~= before);
    assert(text.skip(before.len() + 1int) =~= after);
}

/// Text without a character is not cut at it, and is one piece.
pub proof fn lemma_no_halves(text: Seq<char>, c: char)
    requires
        !text.contains(c),
    ensures
        halves(text, c) is None,
        pieces(text, c) == seq![text],
{
    assert forall|i: int| 0 <= i < text.len() implies text[i] != c by {
        assert(text.contains(text[i]));
    }
    lemma_find(text, c, text.len() as int);
}

/// Texts one behind the other, with a character between each two.
pub open spec fn joined_by(texts: Seq<Seq<char>>, c: char) -> Seq<char>
    decreases texts.len(),
{
    if texts.len() == 0 {
        Seq::empty()
    } else if texts.len() == 1 {
        texts[0]
    } else {
        texts[0] + seq![c] + joined_by(texts.drop_first(), c)
    }
}

/// Texts that a character joins and that do not have it are the pieces that
/// it cuts them into.
pub proof fn lemma_pieces(texts: Seq<Seq<char>>, c: char)
    requires
        0 < texts.len(),
        forall|i: int| 0 <= i < texts.len() ==> !(#[trigger] texts[i]).contains(c),
    ensures
        pieces(joined_by(texts, c), c) == texts,
    decreases texts.len(),
{
    if texts.len() == 1 {
        lemma_no_halves(texts[0], c);
        assert(texts =~= seq![texts[0]]);
    } else {
        let others = texts.drop_first();
        assert forall|i: int| 0 <= i < others.len() implies !(#[trigger] others[i]).contains(c) by {
            assert(others[i] == texts[i + 1]);
        }
        lemma_pieces(others, c);
        lemma_halves(texts[0], c, joined_by(others, c));
        assert(seq![texts[0]] + others =~= texts);
    }
}

} // verus!
