//! The order of placed words, and sequences of placed words kept in that order without
//! repetition: the form in which a set of placed words is held.

use vstd::prelude::*;
use crate::text::{
    text_lt, text_eq, text_less, lemma_text_lt_irreflexive, lemma_text_lt_transitive,
    lemma_text_lt_total,
};
use crate::word::{Word, WordDirection, WordView};

verus! {

/// The strict order of placed words: by column, then row, then direction (horizontal first),
/// then text.
pub open spec fn word_lt(a: WordView, b: WordView) -> bool {
    if a.x != b.x {
        a.x < b.x
    } else if a.y != b.y {
        a.y < b.y
    } else if a.direction != b.direction {
        a.direction == WordDirection::Right
    } else {
        text_lt(a.text, b.text)
    }
}

/// No placed word is smaller than itself.
pub proof fn lemma_word_lt_irreflexive(a: WordView)
    ensures
        !word_lt(a, a),
{
    lemma_text_lt_irreflexive(a.text);
}

/// The order of placed words is transitive.
pub proof fn lemma_word_lt_transitive(a: WordView, b: WordView, c: WordView)
    requires
        word_lt(a, b),
        word_lt(b, c),
    ensures
        word_lt(a, c),
{
    if a.x == b.x && b.x == c.x && a.y == b.y && b.y == c.y && a.direction == b.direction
        && b.direction == c.direction {
        lemma_text_lt_transitive(a.text, b.text, c.text);
    }
}

/// Two different placed words are ordered one way or the other.
pub proof fn lemma_word_lt_total(a: WordView, b: WordView)
    ensures
        a == b || word_lt(a, b) || word_lt(b, a),
{
    lemma_text_lt_total(a.text, b.text);
}

/// Moving both words by the same vector does not change their order.
pub proof fn lemma_word_lt_shifted(a: WordView, b: WordView, dx: int, dy: int)
    ensures
        word_lt(a.shifted(dx, dy), b.shifted(dx, dy)) == word_lt(a, b),
{
}

/// The mathematical values of a sequence of placed words.
pub open spec fn views<'a>(v: Seq<Word<'a>>) -> Seq<WordView> {
    v.map_values(|w: Word<'a>| w@)
}

/// Each word of the sequence is smaller than all that follow it.
pub open spec fn increasing(q: Seq<WordView>) -> bool {
    forall|i: int, j: int| 0 <= i < j < q.len() ==> word_lt(#[trigger] q[i], #[trigger] q[j])
}

/// The sequence holds exactly the words of the set, in increasing order.
pub open spec fn lists(q: Seq<WordView>, s: Set<WordView>) -> bool {
    increasing(q) && forall|w: WordView| s.contains(w) <==> q.contains(w)
}

/// The words of a set in increasing order.
pub open spec fn sorted_of(s: Set<WordView>) -> Seq<WordView> {
    choose|q: Seq<WordView>| lists(q, s)
}

/// An increasing sequence holds no word twice.
pub proof fn lemma_increasing_distinct(q: Seq<WordView>, i: int, j: int)
    requires
        increasing(q),
        0 <= i < q.len(),
        0 <= j < q.len(),
        q[i] == q[j],
    ensures
        i == j,
{
    lemma_word_lt_irreflexive(q[i]);
}

/// A set of placed words is listed in increasing order by one sequence at most.
pub proof fn lemma_lists_unique(p: Seq<WordView>, q: Seq<WordView>, s: Set<WordView>)
    requires
        lists(p, s),
        lists(q, s),
    ensures
        p == q,
    decreases p.len(),
{
    if p.len() == 0 {
        if q.len() > 0 {
            assert(q.contains(q[0]));
            assert(p.contains(q[0]));
        }
        assert(p =~= q);
    } else {
        assert(p.contains(p[0]));
        assert(q.contains(p[0]));
        let k = choose|k: int| 0 <= k < q.len() && q[k] == p[0];
        assert(q.contains(q[0]));
        let m = choose|m: int| 0 <= m < p.len() && p[m] == q[0];
        if k > 0 {
            if m > 0 {
                lemma_word_lt_transitive(q[0], q[k], p[m]);
            }
            lemma_word_lt_irreflexive(q[0]);
        }
        assert(p[0] == q[0]);
        let p_rest = p.drop_first();
        let q_rest = q.drop_first();
        let s_rest = s.remove(p[0]);
        assert(increasing(p_rest)) by {
            assert forall|i: int, j: int| 0 <= i < j < p_rest.len() implies word_lt(
                #[trigger] p_rest[i],
                #[trigger] p_rest[j],
            ) by {
                assert(word_lt(p[i + 1], p[j + 1]));
            }
        }
        assert(increasing(q_rest)) by {
            assert forall|i: int, j: int| 0 <= i < j < q_rest.len() implies word_lt(
                #[trigger] q_rest[i],
                #[trigger] q_rest[j],
            ) by {
                assert(word_lt(q[i + 1], q[j + 1]));
            }
        }
        assert forall|w: WordView| s_rest.contains(w) <==> p_rest.contains(w) by {
            if s_rest.contains(w) {
                assert(p.contains(w));
                let i = choose|i: int| 0 <= i < p.len() && p[i] == w;
                assert(p_rest[i - 1] == w);
            }
            if p_rest.contains(w) {
                let i = choose|i: int| 0 <= i < p_rest.len() && p_rest[i] == w;
                assert(p[i + 1] == w);
                assert(p.contains(w));
                assert(word_lt(p[0], p[i + 1]));
                lemma_word_lt_irreflexive(w);
            }
        }
        assert forall|w: WordView| s_rest.contains(w) <==> q_rest.contains(w) by {
            if s_rest.contains(w) {
                assert(q.contains(w));
                let i = choose|i: int| 0 <= i < q.len() && q[i] == w;
                assert(q_rest[i - 1] == w);
            }
            if q_rest.contains(w) {
                let i = choose|i: int| 0 <= i < q_rest.len() && q_rest[i] == w;
                assert(q[i + 1] == w);
                assert(q.contains(w));
                assert(word_lt(q[0], q[i + 1]));
                lemma_word_lt_irreflexive(w);
            }
        }
        lemma_lists_unique(p_rest, q_rest, s_rest);
        assert(p =~= seq![p[0]] + p_rest);
        assert(q =~= seq![q[0]] + q_rest);
    }
}

/// A sequence that lists a set in increasing order is the sorted sequence of that set.
pub proof fn lemma_lists_is_sorted_of(q: Seq<WordView>, s: Set<WordView>)
    requires
        lists(q, s),
    ensures
        q == sorted_of(s),
        lists(sorted_of(s), s),
{
    lemma_lists_unique(q, sorted_of(s), s);
}

/// Whether the first placed word comes before the second in the order of placed words.
pub fn word_less(a: &Word, b: &Word) -> (r: bool)
    ensures
        r == word_lt(a@, b@),
{
    if a.position.x != b.position.x {
        a.position.x < b.position.x
    } else if a.position.y != b.position.y {
        a.position.y < b.position.y
    } else if !a.direction.same_as(&b.direction) {
        a.direction.same_as(&WordDirection::Right)
    } else {
        text_less(a.value, b.value)
    }
}

/// Whether two placed words have the same position, direction and text.
pub fn word_same(a: &Word, b: &Word) -> (r: bool)
    ensures
        r == (a@ == b@),
{
    a.position.x == b.position.x && a.position.y == b.position.y && a.direction.same_as(
        &b.direction,
    ) && text_eq(a.value, b.value)
}

/// A word put into an increasing sequence between the words smaller and the words larger than
/// it leaves the sequence increasing, with the word as its one new member.
pub proof fn lemma_insert_at(before: Seq<WordView>, w: WordView, k: int)
    requires
        increasing(before),
        0 <= k <= before.len(),
        forall|i: int| 0 <= i < k ==> word_lt(#[trigger] before[i], w),
        k < before.len() ==> word_lt(w, before[k]),
    ensures
        increasing(before.insert(k, w)),
        forall|x: WordView|
            #![trigger before.insert(k, w).contains(x)]
            before.insert(k, w).contains(x) <==> (before.contains(x) || x == w),
{
    let after = before.insert(k, w);
    assert forall|i: int, j: int| 0 <= i < j < after.len() implies word_lt(
        #[trigger] after[i],
        #[trigger] after[j],
    ) by {
        if j < k {
            assert(word_lt(before[i], before[j]));
        } else if j == k {
        } else if i < k {
            assert(word_lt(before[i], before[j - 1]));
        } else if i == k {
            if j - 1 > k {
                assert(word_lt(before[k], before[j - 1]));
                lemma_word_lt_transitive(w, before[k], before[j - 1]);
            }
        } else {
            assert(word_lt(before[i - 1], before[j - 1]));
        }
    }
    assert forall|x: WordView|
        #![trigger after.contains(x)]
        after.contains(x) <==> (before.contains(x) || x == w) by {
        if after.contains(x) {
            let i = choose|i: int| 0 <= i < after.len() && after[i] == x;
            if i < k {
                assert(before[i] == x);
            } else if i > k {
                assert(before[i - 1] == x);
            }
        }
        if before.contains(x) {
            let i = choose|i: int| 0 <= i < before.len() && before[i] == x;
            if i < k {
                assert(after[i] == x);
            } else {
                assert(after[i + 1] == x);
            }
        }
        if x == w {
            assert(after[k] == x);
        }
    }
}

/// The place of a word in an increasing sequence: behind the words smaller than it.
pub proof fn lemma_place_exists(before: Seq<WordView>, w: WordView, from: int) -> (k: int)
    requires
        0 <= from <= before.len(),
        forall|i: int| 0 <= i < from ==> word_lt(#[trigger] before[i], w),
    ensures
        from <= k <= before.len(),
        forall|i: int| 0 <= i < k ==> word_lt(#[trigger] before[i], w),
        k < before.len() ==> !word_lt(before[k], w),
    decreases before.len() - from,
{
    if from < before.len() && word_lt(before[from], w) {
        lemma_place_exists(before, w, from + 1)
    } else {
        from
    }
}

/// The words of an increasing sequence together with one more word can be listed in
/// increasing order.
pub proof fn lemma_sorted_with(before: Seq<WordView>, w: WordView)
    requires
        increasing(before),
    ensures
        lists(sorted_of(before.to_set().insert(w)), before.to_set().insert(w)),
{
    let all = before.to_set().insert(w);
    if before.contains(w) {
        assert(lists(before, all));
        lemma_lists_is_sorted_of(before, all);
    } else {
        let k = lemma_place_exists(before, w, 0);
        if k < before.len() {
            lemma_word_lt_total(before[k], w);
            assert(before.contains(before[k]));
        }
        lemma_insert_at(before, w, k);
        assert(lists(before.insert(k, w), all));
        lemma_lists_is_sorted_of(before.insert(k, w), all);
    }
}

/// Every set of placed words that are all among the words of a sequence can be listed in
/// increasing order.
pub proof fn lemma_listed_from(among: Seq<WordView>, s: Set<WordView>)
    requires
        forall|w: WordView| s.contains(w) ==> among.contains(w),
    ensures
        lists(sorted_of(s), s),
    decreases among.len(),
{
    if among.len() == 0 {
        let none = Seq::<WordView>::empty();
        assert(lists(none, s));
        lemma_lists_is_sorted_of(none, s);
    } else {
        let last = among.last();
        let front = among.drop_last();
        let fewer = s.remove(last);
        assert forall|w: WordView| fewer.contains(w) implies front.contains(w) by {
            assert(among.contains(w));
            let i = choose|i: int| 0 <= i < among.len() && among[i] == w;
            assert(front[i] == w);
        }
        lemma_listed_from(front, fewer);
        let q = sorted_of(fewer);
        if s.contains(last) {
            lemma_sorted_with(q, last);
            assert(q.to_set().insert(last) =~= s);
        } else {
            assert(fewer =~= s);
        }
    }
}

/// Puts a placed word into an increasing sequence, at its place in the order, and says where;
/// a word that the sequence already holds is not added again.
pub fn insert_word<'a>(v: &mut Vec<Word<'a>>, w: Word<'a>) -> (r: Option<usize>)
    requires
        increasing(views(old(v)@)),
    ensures
        increasing(views(final(v)@)),
        forall|x: WordView|
            #![trigger views(final(v)@).contains(x)]
            views(final(v)@).contains(x) <==> (views(old(v)@).contains(x) || x == w@),
        match r {
            Some(k) => k <= old(v)@.len() && !views(old(v)@).contains(w@) && views(final(v)@)
                == views(old(v)@).insert(k as int, w@),
            None => views(old(v)@).contains(w@) && final(v)@ == old(v)@,
        },
{
    let ghost before = views(v@);
    let mut k: usize = 0;
    while k < v.len() && word_less(&v[k], &w)
        invariant
            k <= v.len(),
            views(v@) == before,
            v@ == old(v)@,
            increasing(before),
            forall|i: int| 0 <= i < k ==> word_lt(#[trigger] before[i], w@),
        decreases v.len() - k,
    {
        k += 1;
    }
    if k < v.len() && word_same(&v[k], &w) {
        assert(before[k as int] == w@);
        assert(before.contains(w@));
        return None;
    }
    v.insert(k, w);
    proof {
        assert(views(v@) =~= before.insert(k as int, w@));
        if k < before.len() {
            lemma_word_lt_total(before[k as int], w@);
        }
        lemma_insert_at(before, w@, k as int);
        if before.contains(w@) {
            let q = choose|q: int| 0 <= q < before.len() && before[q] == w@;
            lemma_word_lt_irreflexive(w@);
            if q >= k {
                if q > k {
                    assert(word_lt(before[k as int], before[q]));
                    lemma_word_lt_transitive(w@, before[k as int], before[q]);
                }
            }
        }
    }
    Some(k)
}

} // verus!
