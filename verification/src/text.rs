//! Texts as sequences of characters: equality, the lexicographic order, and the conversion
//! between string slices and their characters.

use vstd::prelude::*;
use vstd::std_specs::iter::IteratorSpec;

verus! {

/// The strict lexicographic order on texts, by code point.
pub open spec fn text_lt(a: Seq<char>, b: Seq<char>) -> bool
    decreases a.len(),
{
    if b.len() == 0 {
        false
    } else if a.len() == 0 {
        true
    } else if a[0] != b[0] {
        (a[0] as int) < (b[0] as int)
    } else {
        text_lt(a.drop_first(), b.drop_first())
    }
}

/// No text is smaller than itself.
pub proof fn lemma_text_lt_irreflexive(a: Seq<char>)
    ensures
        !text_lt(a, a),
    decreases a.len(),
{
    if a.len() > 0 {
        lemma_text_lt_irreflexive(a.drop_first());
    }
}

/// The order on texts is transitive.
pub proof fn lemma_text_lt_transitive(a: Seq<char>, b: Seq<char>, c: Seq<char>)
    requires
        text_lt(a, b),
        text_lt(b, c),
    ensures
        text_lt(a, c),
    decreases a.len(),
{
    if a.len() > 0 && b.len() > 0 && c.len() > 0 {
        if a[0] == b[0] && b[0] == c[0] {
            lemma_text_lt_transitive(a.drop_first(), b.drop_first(), c.drop_first());
        }
    }
}

/// Two different texts are ordered one way or the other.
pub proof fn lemma_text_lt_total(a: Seq<char>, b: Seq<char>)
    ensures
        a == b || text_lt(a, b) || text_lt(b, a),
    decreases a.len(),
{
    if a.len() == 0 || b.len() == 0 {
        if a.len() == 0 && b.len() == 0 {
            assert(a =~= b);
        }
    } else if a[0] == b[0] {
        lemma_text_lt_total(a.drop_first(), b.drop_first());
        if a.drop_first() == b.drop_first() {
            assert(a =~= seq![a[0]] + a.drop_first());
            assert(b =~= seq![b[0]] + b.drop_first());
        }
    } else {
        assert(a[0] as int != b[0] as int);
    }
}

/// A common start does not change the order of two texts.
pub proof fn lemma_text_lt_after(start: Seq<char>, a: Seq<char>, b: Seq<char>)
    ensures
        text_lt(start + a, start + b) == text_lt(a, b),
    decreases start.len(),
{
    if start.len() == 0 {
        assert(start + a =~= a);
        assert(start + b =~= b);
    } else {
        let rest = start.drop_first();
        assert((start + a).drop_first() =~= rest + a);
        assert((start + b).drop_first() =~= rest + b);
        lemma_text_lt_after(rest, a, b);
    }
}

/// Whether two string slices hold the same characters in the same order.
pub(crate) fn text_eq(a: &str, b: &str) -> (r: bool)
    ensures
        r == (a@ == b@),
{
    let mut first = a.chars();
    let mut second = b.chars();
    let ghost mut start: Seq<char> = Seq::empty();
    assert(a@ =~= start + first.remaining());
    assert(b@ =~= start + second.remaining());
    loop
        invariant
            a@ == start + first.remaining(),
            b@ == start + second.remaining(),
        decreases a@.len() - start.len(),
    {
        let x = first.next();
        let y = second.next();
        match (x, y) {
            (Some(c), Some(d)) => {
                if c != d {
                    assert(a@[start.len() as int] == c);
                    assert(b@[start.len() as int] == d);
                    return false;
                }
                proof {
                    assert(a@ =~= start.push(c) + first.remaining());
                    assert(b@ =~= start.push(c) + second.remaining());
                    start = start.push(c);
                }
            },
            (None, None) => {
                assert(a@ =~= b@);
                return true;
            },
            _ => {
                assert(a@.len() != b@.len());
                return false;
            },
        }
    }
}

/// Whether the first string slice comes before the second in the order of texts.
pub(crate) fn text_less(a: &str, b: &str) -> (r: bool)
    ensures
        r == text_lt(a@, b@),
{
    let mut first = a.chars();
    let mut second = b.chars();
    let ghost mut start: Seq<char> = Seq::empty();
    assert(a@ =~= start + first.remaining());
    assert(b@ =~= start + second.remaining());
    loop
        invariant
            a@ == start + first.remaining(),
            b@ == start + second.remaining(),
        decreases a@.len() - start.len(),
    {
        let ghost left = first.remaining();
        let ghost right = second.remaining();
        proof {
            lemma_text_lt_after(start, left, right);
        }
        let x = first.next();
        let y = second.next();
        match (x, y) {
            (Some(c), Some(d)) => {
                if c != d {
                    return c < d;
                }
                proof {
                    assert(left.drop_first() =~= first.remaining());
                    assert(right.drop_first() =~= second.remaining());
                    assert(a@ =~= start.push(c) + first.remaining());
                    assert(b@ =~= start.push(c) + second.remaining());
                    start = start.push(c);
                }
            },
            (None, Some(_)) => {
                return true;
            },
            _ => {
                return false;
            },
        }
    }
}

/// A string of the given characters: `collect` into a `String`, which appends the characters of
/// the iterator in order.
#[verifier::external_body]
pub(crate) fn string_of(chars: &Vec<char>) -> (r: String)
    ensures
        r@ == chars@,
{
    chars.iter().collect()
}

/// The characters of a string slice, in order.
pub fn chars_of(s: &str) -> (r: Vec<char>)
    ensures
        r@ == s@,
{
    let mut v: Vec<char> = Vec::new();
    for c in it: s.chars()
        invariant
            it.seq() == s@,
            v@ == s@.take(it.index()),
    {
        v.push(c);
        assert(v@ =~= s@.take(it.index() + 1));
    }
    assert(v@ =~= s@);
    v
}

} // verus!
