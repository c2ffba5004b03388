//! What every crossword that the search arrives at has in common: its words are pairwise
//! compatible, hang together by crossings, and are moved as one when the crossword is
//! normalized. The lemmas here say how these properties pass from a crossword to the crossword
//! with one more word.

use vstd::prelude::*;
use crate::crossword::{
    addable, added, can_add, contains, contains_at, crossing_any, distinct_texts, far_x, far_y,
        fits,
    has_text, least_x, least_y, lemma_added, lemma_least_x, lemma_least_y, lemma_normalized_shifted,
    lemma_reach_x, lemma_reach_y, lemma_same_text_same_word, lemma_sorted_with_new,
    lemma_well_formed_normal, lemma_increasing_shifted, placements, reach_x, reach_y, seed, shifted,
    tries, well_formed, CrosswordSettings, CrosswordSizeConstraint,
};
use crate::order::{increasing, lemma_listed_from, lemma_lists_unique, lists, sorted_of};
use crate::word::{
    lemma_intersection_indices_symmetric, lemma_side_touches_head_symmetric,
        WordCompatibilitySettings,
    WordDirection, WordView,
};

verus! {

/// The second word crosses the first at a shared letter.
pub open spec fn touching(a: WordView, b: WordView) -> bool {
    a.crossings(b.text).contains(b)
}

/// Moving both words by the same vector does not change whether they are compatible.
pub proof fn lemma_compatible_shifted(
    settings: WordCompatibilitySettings,
    a: WordView,
    b: WordView,
    dx: int,
    dy: int,
)
    ensures
        settings.compatible(a.shifted(dx, dy), b.shifted(dx, dy)) == settings.compatible(a, b),
{
    let a2 = a.shifted(dx, dy);
    let b2 = b.shifted(dx, dy);
    assert(a2.rect().intersection_indices(b2.rect()) == a.rect().intersection_indices(b.rect()));
    assert(WordCompatibilitySettings::letters_agree(a2, b2)
        == WordCompatibilitySettings::letters_agree(a, b));
}

/// Moving both words by the same vector does not change whether one crosses the other.
pub proof fn lemma_touching_shifted(a: WordView, b: WordView, dx: int, dy: int)
    ensures
        touching(a.shifted(dx, dy), b.shifted(dx, dy)) == touching(a, b),
{
    let a2 = a.shifted(dx, dy);
    let b2 = b.shifted(dx, dy);
    if touching(a, b) {
        let (i, j) = choose|i: int, j: int| #[trigger] a.crosses_at(b.text, i, j) && b
            == a.crossing(b.text, i, j);
        assert(a2.crosses_at(b2.text, i, j));
        assert(b2 == a2.crossing(b2.text, i, j));
    }
    if touching(a2, b2) {
        let (i, j) = choose|i: int, j: int| #[trigger] a2.crosses_at(b2.text, i, j) && b2
            == a2.crossing(b2.text, i, j);
        assert(a.crosses_at(b.text, i, j));
        assert(b == a.crossing(b.text, i, j));
    }
}

/// When one word crosses another, the other crosses the one.
pub proof fn lemma_touching_symmetric(a: WordView, b: WordView)
    requires
        touching(a, b),
    ensures
        touching(b, a),
        a.direction != b.direction,
        a.rect().intersects(b.rect()),
        a.text.len() >= 1,
        b.text.len() >= 1,
{
    let (i, j) = choose|i: int, j: int| #[trigger] a.crosses_at(b.text, i, j) && b
        == a.crossing(b.text, i, j);
    assert(b.crosses_at(a.text, j, i));
    assert(a == b.crossing(a.text, j, i));
}

/// Two words that cross and are compatible have two letters each at least.
pub proof fn lemma_touching_compatible_long(
    settings: WordCompatibilitySettings,
    a: WordView,
    b: WordView,
)
    requires
        touching(a, b),
        settings.compatible(a, b),
    ensures
        a.text.len() >= 2,
        b.text.len() >= 2,
{
    lemma_touching_symmetric(a, b);
    assert(WordCompatibilitySettings::letters_agree(a, b));
    assert(!a.rect().same_direction_as(b.rect()));
}

/// Compatibility does not depend on the order of the two words.
pub proof fn lemma_compatible_symmetric(
    settings: WordCompatibilitySettings,
    a: WordView,
    b: WordView,
)
    ensures
        settings.compatible(a, b) == settings.compatible(b, a),
{
    let ra = a.rect();
    let rb = b.rect();
    lemma_side_touches_head_symmetric(ra, rb);
    lemma_intersection_indices_symmetric(ra, rb);
    assert(ra.corners(rb) == rb.corners(ra));
    assert(ra.intersects(rb) == rb.intersects(ra));
    assert(ra.head_touches_head(rb) == rb.head_touches_head(ra));
    assert(ra.side_touches_side(rb) == rb.side_touches_side(ra));
    assert(WordCompatibilitySettings::letters_agree(a, b)
        == WordCompatibilitySettings::letters_agree(b, a));
}

/// A crossword found inside a crossword that is found inside a third is found inside the
/// third.
pub proof fn lemma_contains_transitive(a: Seq<WordView>, b: Seq<WordView>, c: Seq<WordView>)
    requires
        contains(a, b),
        contains(b, c),
    ensures
        contains(a, c),
{
    let (px, py) = choose|dx: int, dy: int| #[trigger] contains_at(a, b, dx, dy);
    let (qx, qy) = choose|dx: int, dy: int| #[trigger] contains_at(b, c, dx, dy);
    assert forall|k: int| 0 <= k < c.len() implies a.contains((#[trigger] c[k]).shifted(px + qx,
        py + qy)) by {
        let middle = c[k].shifted(qx, qy);
        assert(b.contains(middle));
        let m = choose|m: int| 0 <= m < b.len() && b[m] == middle;
        assert(a.contains(b[m].shifted(px, py)));
        assert(b[m].shifted(px, py) == c[k].shifted(px + qx, py + qy));
    }
    assert(contains_at(a, c, px + qx, py + qy));
}

/// A crossword found inside another is no wider and no higher than the other.
pub proof fn lemma_contained_reach(outer: Seq<WordView>, inner: Seq<WordView>)
    requires
        well_formed(outer),
        well_formed(inner),
        contains(outer, inner),
    ensures
        0 <= reach_x(inner) <= reach_x(outer),
        0 <= reach_y(inner) <= reach_y(outer),
{
    lemma_reach_x(inner);
    lemma_reach_y(inner);
    lemma_reach_x(outer);
    lemma_reach_y(outer);
    if inner.len() > 0 {
        let (dx, dy) = choose|dx: int, dy: int| #[trigger] contains_at(outer, inner, dx, dy);
        lemma_least_x(inner);
        lemma_least_y(inner);
        let kx = choose|i: int| 0 <= i < inner.len() && (#[trigger] inner[i]).x == 0;
        let ky = choose|i: int| 0 <= i < inner.len() && (#[trigger] inner[i]).y == 0;
        assert(outer.contains(inner[kx].shifted(dx, dy)));
        assert(outer.contains(inner[ky].shifted(dx, dy)));
        let ox = choose|i: int| 0 <= i < outer.len() && outer[i] == inner[kx].shifted(dx, dy);
        let oy = choose|i: int| 0 <= i < outer.len() && outer[i] == inner[ky].shifted(dx, dy);
        assert(0 <= outer[ox].x && 0 <= outer[oy].y);
        assert(dx >= 0 && dy >= 0);
        assert forall|k: int| 0 <= k < inner.len()
            implies far_x(#[trigger] inner[k]) <= reach_x(outer)
            && far_y(inner[k]) <= reach_y(outer) by {
            assert(outer.contains(inner[k].shifted(dx, dy)));
            let o = choose|i: int| 0 <= i < outer.len() && outer[i] == inner[k].shifted(dx, dy);
            assert(far_x(outer[o]) <= reach_x(outer) && far_y(outer[o]) <= reach_y(outer));
        }
    }
}

/// A crossword found inside a crossword that meets the constraints on its size meets them
/// too.
pub proof fn lemma_contained_admitted(
    settings: CrosswordSettings,
    outer: Seq<WordView>,
    inner: Seq<WordView>,
)
    requires
        well_formed(outer),
        well_formed(inner),
        contains(outer, inner),
        settings.admits(outer),
    ensures
        settings.admits(inner),
{
    lemma_contained_reach(outer, inner);
    assert forall|i: int| 0 <= i < settings.size_constraints@.len() implies (
    #[trigger] settings.size_constraints@[i]).admits(inner) by {
        let constraint = settings.size_constraints@[i];
        assert(constraint.admits(outer));
        match constraint {
            CrosswordSizeConstraint::MaxArea(a) => {
                assert(reach_x(inner) * reach_y(inner) <= reach_x(outer) * reach_y(outer))
                    by (nonlinear_arith)
                    requires
                        0 <= reach_x(inner) <= reach_x(outer),
                        0 <= reach_y(inner) <= reach_y(outer),
                ;
            },
            _ => {},
        }
    }
}

/// Every perpendicular placement of `text` on the first `m` letters of the word, with letter
/// `i` of the text on the word, whether the letters agree or not.
pub open spec fn row(e: WordView, text: Seq<char>, i: int, m: int) -> Seq<WordView> {
    Seq::new(m as nat, |j: int| e.crossing(text, i, j))
}

/// Every perpendicular placement of `text` with one of its first `n` letters on one of the
/// first `m` letters of the word.
pub open spec fn table(e: WordView, text: Seq<char>, n: int, m: int) -> Seq<WordView>
    decreases n,
{
    if n <= 0 {
        Seq::empty()
    } else {
        table(e, text, n - 1, m) + row(e, text, n - 1, m)
    }
}

/// Every perpendicular placement of `text` with one of its letters on a letter of one of the
/// first `k` words.
pub open spec fn tables(ws: Seq<WordView>, text: Seq<char>, k: int) -> Seq<WordView>
    decreases k,
{
    if k <= 0 {
        Seq::empty()
    } else {
        tables(ws, text, k - 1) + table(ws[k - 1], text, text.len() as int,
            ws[k - 1].text.len() as int)
    }
}

/// The table holds the placement for every pair of a letter of the text and a letter of the
/// word.
proof fn lemma_table_holds(e: WordView, text: Seq<char>, n: int, m: int, i: int, j: int)
    requires
        0 <= i < n,
        0 <= j < m,
    ensures
        table(e, text, n, m).contains(e.crossing(text, i, j)),
    decreases n,
{
    let front = table(e, text, n - 1, m);
    let last = row(e, text, n - 1, m);
    if i == n - 1 {
        assert(last[j] == e.crossing(text, i, j));
        assert((front + last)[front.len() + j] == e.crossing(text, i, j));
    } else {
        lemma_table_holds(e, text, n - 1, m, i, j);
        let q = choose|q: int| 0 <= q < front.len() && front[q] == e.crossing(text, i, j);
        assert((front + last)[q] == e.crossing(text, i, j));
    }
}

/// The tables hold every placement that crosses one of the words.
proof fn lemma_tables_hold(ws: Seq<WordView>, text: Seq<char>, k: int, c: WordView)
    requires
        0 <= k <= ws.len(),
        exists|q: int| 0 <= q < k && (#[trigger] ws[q]).crossings(text).contains(c),
    ensures
        tables(ws, text, k).contains(c),
    decreases k,
{
    let q = choose|q: int| 0 <= q < k && (#[trigger] ws[q]).crossings(text).contains(c);
    let front = tables(ws, text, k - 1);
    let last = table(ws[k - 1], text, text.len() as int, ws[k - 1].text.len() as int);
    if q == k - 1 {
        let e = ws[k - 1];
        let (i, j) = choose|i: int, j: int| #[trigger] e.crosses_at(text, i, j) && c
            == e.crossing(text, i, j);
        lemma_table_holds(e, text, text.len() as int, e.text.len() as int, i, j);
        let p = choose|p: int| 0 <= p < last.len() && last[p] == c;
        assert((front + last)[front.len() + p] == c);
    } else {
        assert(ws[q].crossings(text).contains(c));
        lemma_tables_hold(ws, text, k - 1, c);
        let p = choose|p: int| 0 <= p < front.len() && front[p] == c;
        assert((front + last)[p] == c);
    }
}

/// The ways to add a word to a crossword with at least one word are the placements that
/// cross a word of the crossword and are compatible with all its words, in increasing order.
pub proof fn lemma_placements_listed(
    ws: Seq<WordView>,
    text: Seq<char>,
    settings: WordCompatibilitySettings,
)
    requires
        ws.len() > 0,
    ensures
        lists(placements(ws, text, settings), addable(ws, text, settings)),
{
    let all = tables(ws, text, ws.len() as int);
    let wanted = addable(ws, text, settings);
    assert forall|w: WordView| wanted.contains(w) implies all.contains(w) by {
        assert(crossing_any(ws, text).contains(w));
        lemma_tables_hold(ws, text, ws.len() as int, w);
    }
    lemma_listed_from(all, wanted);
}

/// The words are pairwise compatible, whichever of two words is asked first.
pub open spec fn sound(settings: WordCompatibilitySettings, ws: Seq<WordView>) -> bool {
    forall|i: int, j: int|
        0 <= i < ws.len() && 0 <= j < ws.len() && i != j ==> settings.compatible(
            #[trigger] ws[i],
            #[trigger] ws[j],
        )
}

/// Some word has its text in the set and some word has not.
pub open spec fn splits(ws: Seq<WordView>, part: Set<Seq<char>>) -> bool {
    &&& exists|i: int| 0 <= i < ws.len() && part.contains((#[trigger] ws[i]).text)
    &&& exists|j: int| 0 <= j < ws.len() && !part.contains((#[trigger] ws[j]).text)
}

/// A word with its text in the set is crossed by a word with its text outside.
pub open spec fn bridged(ws: Seq<WordView>, part: Set<Seq<char>>) -> bool {
    exists|i: int, j: int|
        0 <= i < ws.len() && 0 <= j < ws.len() && part.contains(ws[i].text) && !part.contains(
            ws[j].text,
        ) && touching(#[trigger] ws[i], #[trigger] ws[j])
}

/// The words hang together: however they are split in two, a word of one part crosses a word
/// of the other.
pub open spec fn linked(ws: Seq<WordView>) -> bool {
    forall|part: Set<Seq<char>>| #[trigger] splits(ws, part) ==> bridged(ws, part)
}

/// Where there are two words or more, each has two letters at least.
pub open spec fn proper(ws: Seq<WordView>) -> bool {
    ws.len() >= 2 ==> forall|i: int| 0 <= i < ws.len() ==> (#[trigger] ws[i]).text.len() >= 2
}

/// What holds of every crossword that the search arrives at: it is a crossword whose words
/// are pairwise compatible and hang together; a single word lies across; and no word of one
/// letter is among several.
pub open spec fn grown(settings: WordCompatibilitySettings, ws: Seq<WordView>) -> bool {
    &&& well_formed(ws)
    &&& sound(settings, ws)
    &&& linked(ws)
    &&& proper(ws)
    &&& ws.len() == 1 ==> ws[0].direction == WordDirection::Right
}

/// The way is one of the ways in which the search places a word on the crossword.
pub open spec fn placed_by_search(
    settings: WordCompatibilitySettings,
    node: Seq<WordView>,
    way: WordView,
) -> bool {
    if node.len() == 0 {
        way == seed(way.text)
    } else {
        addable(node, way.text, settings).contains(way)
    }
}

/// The words of a crossword with one more word are the words of the crossword and the new
/// word, all moved by one vector.
pub proof fn lemma_added_moved(node: Seq<WordView>, way: WordView) -> (d: (int, int))
    requires
        well_formed(node),
        !has_text(node, way.text),
        fits(node.push(way)),
    ensures
        forall|x: WordView|
            #![trigger added(node, way).contains(x)]
            added(node, way).contains(x) <==> (node.contains(x.shifted(-d.0, -d.1)) || x.shifted(
                -d.0,
                -d.1,
            ) == way),
        forall|k: int| 0 <= k < node.len() ==> added(node,
            way).contains((#[trigger] node[k]).shifted(d.0, d.1)),
        added(node, way).contains(way.shifted(d.0, d.1)),
        contains(added(node, way), node),
{
    let sorted = sorted_of(node.to_set().insert(way));
    let k = lemma_sorted_with_new(node, way);
    let dx = -least_x(sorted);
    let dy = -least_y(sorted);
    let after = added(node, way);
    assert(after == shifted(sorted, dx, dy));
    assert forall|x: WordView|
        #![trigger after.contains(x)]
        after.contains(x) <==> (node.contains(x.shifted(-dx, -dy)) || x.shifted(-dx, -dy) == way)
            by {
        if after.contains(x) {
            let m = choose|m: int| 0 <= m < after.len() && after[m] == x;
            assert(x == sorted[m].shifted(dx, dy));
            assert(x.shifted(-dx, -dy) == sorted[m]);
            assert(sorted.contains(sorted[m]));
        }
        if node.contains(x.shifted(-dx, -dy)) || x.shifted(-dx, -dy) == way {
            let y = x.shifted(-dx, -dy);
            assert(sorted.contains(y));
            let m = choose|m: int| 0 <= m < sorted.len() && sorted[m] == y;
            assert(after[m] == y.shifted(dx, dy));
            assert(y.shifted(dx, dy) == x);
        }
    }
    assert forall|q: int| 0 <= q < node.len()
        implies after.contains((#[trigger] node[q]).shifted(dx, dy)) by {
        assert(node[q].shifted(dx, dy).shifted(-dx, -dy) == node[q]);
        assert(node.contains(node[q]));
    }
    assert(way.shifted(dx, dy).shifted(-dx, -dy) == way);
    assert(contains_at(after, node, dx, dy));
    (dx, dy)
}

/// The words of `after` are the words of `node` and the word `way`, all moved by `(dx, dy)`.
pub open spec fn moved_with(
    node: Seq<WordView>,
    way: WordView,
    after: Seq<WordView>,
    dx: int,
    dy: int,
) -> bool {
    &&& forall|x: WordView|
        #![trigger after.contains(x)]
        after.contains(x) <==> (node.contains(x.shifted(-dx, -dy)) || x.shifted(-dx, -dy) == way)
    &&& forall|k: int| 0 <= k < node.len() ==> after.contains((#[trigger] node[k]).shifted(dx, dy))
    &&& after.contains(way.shifted(dx, dy))
}

/// A word that crosses a word of a crossword and is compatible with it has two letters at
/// least, and so has every word of the crossword.
proof fn lemma_proper_step(
    settings: WordCompatibilitySettings,
    node: Seq<WordView>,
    way: WordView,
    after: Seq<WordView>,
    dx: int,
    dy: int,
    k0: int,
)
    requires
        proper(node),
        0 <= k0 < node.len(),
        touching(node[k0], way),
        settings.compatible(node[k0], way),
        moved_with(node, way, after, dx, dy),
    ensures
        way.text.len() >= 2,
        forall|q: int| 0 <= q < node.len() ==> (#[trigger] node[q]).text.len() >= 2,
        forall|m: int| 0 <= m < after.len() ==> (#[trigger] after[m]).text.len() >= 2,
{
    lemma_touching_compatible_long(settings, node[k0], way);
    assert forall|q: int| 0 <= q < node.len() implies (#[trigger] node[q]).text.len() >= 2 by {
        if node.len() == 1 {
            assert(q == k0);
        }
    }
    assert forall|m: int| 0 <= m < after.len() implies (#[trigger] after[m]).text.len() >= 2 by {
        assert(after.contains(after[m]));
        let y = after[m].shifted(-dx, -dy);
        if node.contains(y) {
            let q = choose|q: int| 0 <= q < node.len() && node[q] == y;
            assert(node[q].text.len() >= 2);
        }
    }
}

/// The words of a crossword with one more word are pairwise compatible, when the words
/// without the new one are and the new one is compatible with each of them.
proof fn lemma_sound_step(
    settings: WordCompatibilitySettings,
    node: Seq<WordView>,
    way: WordView,
    after: Seq<WordView>,
    dx: int,
    dy: int,
)
    requires
        sound(settings, node),
        can_add(node, way, settings),
        distinct_texts(after),
        moved_with(node, way, after, dx, dy),
    ensures
        sound(settings, after),
{
    assert forall|a: int, b: int|
        0 <= a < after.len() && 0 <= b < after.len() && a != b implies settings.compatible(
        #[trigger] after[a],
        #[trigger] after[b],
    ) by {
        assert(after.contains(after[a]) && after.contains(after[b]));
        let ya = after[a].shifted(-dx, -dy);
        let yb = after[b].shifted(-dx, -dy);
        assert(ya.shifted(dx, dy) == after[a] && yb.shifted(dx, dy) == after[b]);
        lemma_compatible_shifted(settings, ya, yb, dx, dy);
        assert(after[a].text != after[b].text);
        if node.contains(ya) && node.contains(yb) {
            let qa = choose|q: int| 0 <= q < node.len() && node[q] == ya;
            let qb = choose|q: int| 0 <= q < node.len() && node[q] == yb;
            assert(qa != qb);
        } else if node.contains(ya) {
            let qa = choose|q: int| 0 <= q < node.len() && node[q] == ya;
            assert(settings.compatible(node[qa], way));
        } else if node.contains(yb) {
            let qb = choose|q: int| 0 <= q < node.len() && node[q] == yb;
            assert(settings.compatible(node[qb], way));
            lemma_compatible_symmetric(settings, way, node[qb]);
        }
    }
}

/// Placing a word as the search does on a crossword that the search arrived at gives a
/// crossword of the same kind.
pub proof fn lemma_grown_added(
    settings: WordCompatibilitySettings,
    node: Seq<WordView>,
    way: WordView,
)
    requires
        grown(settings, node),
        !has_text(node, way.text),
        fits(node.push(way)),
        placed_by_search(settings, node, way),
    ensures
        grown(settings, added(node, way)),
{
    let after = added(node, way);
    lemma_added(node, way);
    let d = lemma_added_moved(node, way);
    let dx = d.0;
    let dy = d.1;
    assert(moved_with(node, way, after, dx, dy));
    if node.len() == 0 {
        assert(after.len() == 1);
        assert(after.contains(after[0]));
        assert(!node.contains(after[0].shifted(-dx, -dy)));
        assert(after[0].shifted(-dx, -dy) == way);
        assert(after[0].direction == WordDirection::Right);
        assert(linked(after)) by {
            assert forall|part: Set<Seq<char>>| #[trigger] splits(after, part)
                implies bridged(after, part) by {
                let i = choose|i: int| 0 <= i < after.len()
                    && part.contains((#[trigger] after[i]).text);
                let j = choose|j: int| 0 <= j < after.len()
                    && !part.contains((#[trigger] after[j]).text);
                assert(i == 0 && j == 0);
            }
        }
    } else {
        let k0 = choose|k: int| 0 <= k < node.len()
            && (#[trigger] node[k]).crossings(way.text).contains(way);
        assert(touching(node[k0], way));
        assert(settings.compatible(node[k0], way));
        lemma_proper_step(settings, node, way, after, dx, dy, k0);
        lemma_sound_step(settings, node, way, after, dx, dy);
        assert(linked(after)) by {
            assert forall|part: Set<Seq<char>>| #[trigger] splits(after, part)
                implies bridged(after, part) by {
                lemma_linked_step(node, way, dx, dy, k0, part);
            }
        }
    }
}

/// A split of a crossword with one more word is bridged, when every split of the crossword
/// without that word is bridged and the new word crosses a word of it.
proof fn lemma_linked_step(
    node: Seq<WordView>,
    way: WordView,
    dx: int,
    dy: int,
    k0: int,
    part: Set<Seq<char>>,
)
    requires
        linked(node),
        0 <= k0 < node.len(),
        touching(node[k0], way),
        forall|x: WordView|
            #![trigger added(node, way).contains(x)]
            added(node, way).contains(x) <==> (node.contains(x.shifted(-dx, -dy)) || x.shifted(-dx,
                -dy)
                == way),
        forall|k: int| 0 <= k < node.len() ==> added(node,
            way).contains((#[trigger] node[k]).shifted(dx, dy)),
        added(node, way).contains(way.shifted(dx, dy)),
        splits(added(node, way), part),
    ensures
        bridged(added(node, way), part),
{
    let after = added(node, way);
    let moved_way = way.shifted(dx, dy);
    let iw = choose|m: int| 0 <= m < after.len() && after[m] == moved_way;
    if splits(node, part) {
        assert(bridged(node, part));
        let (i, j) = choose|i: int, j: int|
            0 <= i < node.len() && 0 <= j < node.len() && part.contains(node[i].text)
                && !part.contains(
                node[j].text,
            ) && touching(#[trigger] node[i], #[trigger] node[j]);
        let a = node[i].shifted(dx, dy);
        let b = node[j].shifted(dx, dy);
        assert(after.contains(a) && after.contains(b));
        let ia = choose|m: int| 0 <= m < after.len() && after[m] == a;
        let ib = choose|m: int| 0 <= m < after.len() && after[m] == b;
        lemma_touching_shifted(node[i], node[j], dx, dy);
        assert(touching(after[ia], after[ib]));
    } else {
        let e = node[k0].shifted(dx, dy);
        assert(after.contains(e));
        let ie = choose|m: int| 0 <= m < after.len() && after[m] == e;
        lemma_touching_shifted(node[k0], way, dx, dy);
        lemma_touching_symmetric(e, moved_way);
        let i = choose|i: int| 0 <= i < after.len() && part.contains((#[trigger] after[i]).text);
        let j = choose|j: int| 0 <= j < after.len() && !part.contains((#[trigger] after[j]).text);
        assert(after.contains(after[i]) && after.contains(after[j]));
        let yi = after[i].shifted(-dx, -dy);
        let yj = after[j].shifted(-dx, -dy);
        // All words of the old crossword lie on one side of the split.
        if part.contains(node[k0].text) {
            assert forall|q: int| 0 <= q < node.len()
                implies part.contains((#[trigger] node[q]).text) by {
            }
            assert(!node.contains(yj)) by {
                if node.contains(yj) {
                    let q = choose|q: int| 0 <= q < node.len() && node[q] == yj;
                    assert(part.contains(node[q].text));
                }
            }
            assert(yj == way);
            assert(touching(after[ie], after[iw]));
        } else {
            assert forall|q: int| 0 <= q < node.len()
                implies !part.contains((#[trigger] node[q]).text) by {
            }
            assert(!node.contains(yi)) by {
                if node.contains(yi) {
                    let q = choose|q: int| 0 <= q < node.len() && node[q] == yi;
                    assert(!part.contains(node[q].text));
                }
            }
            assert(yi == way);
            assert(touching(after[iw], after[ie]));
        }
    }
}

/// A crossword with the same texts as a crossword found inside it is that crossword.
pub proof fn lemma_complete_is_node(full: Seq<WordView>, node: Seq<WordView>)
    requires
        well_formed(full),
        well_formed(node),
        contains(full, node),
        forall|t: Seq<char>| has_text(full, t) <==> has_text(node, t),
    ensures
        full == node,
{
    if node.len() == 0 {
        if full.len() > 0 {
            assert(has_text(full, full[0].text));
        }
        assert(full =~= node);
    } else {
        let (dx, dy) = choose|dx: int, dy: int| #[trigger] contains_at(full, node, dx, dy);
        let moved = shifted(node, dx, dy);
        lemma_increasing_shifted(node, dx, dy);
        assert forall|w: WordView| full.to_set().contains(w) <==> moved.contains(w) by {
            if full.contains(w) {
                let k = choose|k: int| 0 <= k < full.len() && full[k] == w;
                assert(has_text(full, w.text));
                let m = choose|m: int| 0 <= m < node.len() && (#[trigger] node[m]).text == w.text;
                assert(full.contains(node[m].shifted(dx, dy)));
                lemma_same_text_same_word(full, w, node[m].shifted(dx, dy));
                assert(moved[m] == w);
            }
            if moved.contains(w) {
                let m = choose|m: int| 0 <= m < moved.len() && moved[m] == w;
                assert(full.contains(node[m].shifted(dx, dy)));
            }
        }
        assert(lists(full, full.to_set()));
        lemma_lists_unique(full, moved, full.to_set());
        lemma_normalized_shifted(node, dx, dy);
        lemma_well_formed_normal(full);
    }
}

/// The way at `j` of placing word `i` leads to a crossword found inside `full`.
pub open spec fn leads(
    settings: WordCompatibilitySettings,
    node: Seq<WordView>,
    rest: Seq<Seq<char>>,
    i: int,
    j: int,
    full: Seq<WordView>,
) -> bool {
    &&& 0 <= i < rest.len()
    &&& 0 <= j < placements(node, rest[i], settings).len()
    &&& contains(full, added(node, placements(node, rest[i], settings)[j]))
}

/// When a crossword with a word at least is found inside a larger one whose words hang
/// together, a word of the larger one that is not in the smaller crosses a word that is.
proof fn lemma_bridge_out(
    node: Seq<WordView>,
    other: Seq<char>,
    full: Seq<WordView>,
    ox: int,
    oy: int,
) -> (r: (int, int))
    requires
        node.len() > 0,
        linked(full),
        distinct_texts(full),
        contains_at(full, node, ox, oy),
        has_text(full, other),
        !has_text(node, other),
    ensures
        0 <= r.0 < node.len(),
        0 <= r.1 < full.len(),
        !has_text(node, full[r.1].text),
        touching(node[r.0].shifted(ox, oy), full[r.1]),
        full.contains(node[r.0].shifted(ox, oy)),
{
    let part = Set::new(|t: Seq<char>| has_text(node, t));
    assert(full.contains(node[0].shifted(ox, oy)));
    let f0 = choose|k: int| 0 <= k < full.len() && full[k] == node[0].shifted(ox, oy);
    assert(part.contains(full[f0].text));
    let f1 = choose|k: int| 0 <= k < full.len() && (#[trigger] full[k]).text == other;
    assert(!part.contains(full[f1].text));
    assert(splits(full, part));
    assert(bridged(full, part));
    let (ia, ib) = choose|i: int, j: int|
        0 <= i < full.len() && 0 <= j < full.len() && part.contains(full[i].text) && !part.contains(
            full[j].text,
        ) && touching(#[trigger] full[i], #[trigger] full[j]);
    let a = full[ia];
    let m = choose|m: int| 0 <= m < node.len() && (#[trigger] node[m]).text == a.text;
    assert(full.contains(node[m].shifted(ox, oy)));
    assert(full.contains(a));
    lemma_same_text_same_word(full, a, node[m].shifted(ox, oy));
    (m, ib)
}

/// A word of a larger crossword with pairwise compatible words, moved back into a crossword
/// found inside the larger one, is compatible with every word of the smaller one.
proof fn lemma_can_add_back(
    settings: WordCompatibilitySettings,
    node: Seq<WordView>,
    full: Seq<WordView>,
    ox: int,
    oy: int,
    ib: int,
)
    requires
        sound(settings, full),
        contains_at(full, node, ox, oy),
        0 <= ib < full.len(),
        !has_text(node, full[ib].text),
    ensures
        can_add(node, full[ib].shifted(-ox, -oy), settings),
{
    let b = full[ib];
    let way = b.shifted(-ox, -oy);
    assert(way.shifted(ox, oy) == b);
    assert forall|k: int| 0 <= k < node.len() implies settings.compatible(#[trigger] node[k], way)
        by {
        let moved = node[k].shifted(ox, oy);
        assert(full.contains(moved));
        let fk = choose|q: int| 0 <= q < full.len() && full[q] == moved;
        assert(has_text(node, node[k].text));
        assert(fk != ib);
        lemma_compatible_shifted(settings, node[k], way, ox, oy);
    }
}

/// When a crossword is found inside a larger one and a word of the larger one is moved back
/// and added to the smaller, the crossword so made is found inside the larger one too.
proof fn lemma_contains_child(
    node: Seq<WordView>,
    way: WordView,
    full: Seq<WordView>,
    ox: int,
    oy: int,
)
    requires
        well_formed(node),
        !has_text(node, way.text),
        fits(node.push(way)),
        contains_at(full, node, ox, oy),
        full.contains(way.shifted(ox, oy)),
    ensures
        contains(full, added(node, way)),
{
    let d = lemma_added_moved(node, way);
    let after = added(node, way);
    assert forall|k: int| 0 <= k < after.len() implies full.contains(
        (#[trigger] after[k]).shifted(ox - d.0, oy - d.1),
    ) by {
        assert(after.contains(after[k]));
        let y = after[k].shifted(-d.0, -d.1);
        assert(after[k].shifted(ox - d.0, oy - d.1) == y.shifted(ox, oy));
        if node.contains(y) {
            let q = choose|q: int| 0 <= q < node.len() && node[q] == y;
            assert(full.contains(node[q].shifted(ox, oy)));
        }
    }
    assert(contains_at(full, after, ox - d.0, oy - d.1));
}

/// From an empty crossword, placing some word of a larger crossword leads to a crossword
/// found inside the larger one.
proof fn lemma_first_way(
    settings: WordCompatibilitySettings,
    rest: Seq<Seq<char>>,
    full: Seq<WordView>,
) -> (r: (int, int))
    requires
        rest.len() > 0,
        forall|i: int, way: WordView|
            0 <= i < rest.len() && way.text == #[trigger] rest[i] && #[trigger] tries(
                Seq::<WordView>::empty(),
                way,
            ) ==> fits(Seq::<WordView>::empty().push(way)),
        grown(settings, full),
        forall|t: Seq<char>| has_text(full, t) <==> rest.contains(t),
    ensures
        leads(settings, Seq::<WordView>::empty(), rest, r.0, r.1, full),
{
    let node = Seq::<WordView>::empty();
    assert(rest.contains(rest[0]));
    assert(has_text(full, rest[0]));
    let r = lemma_word_across(settings, full);
    let first = full[r];
    assert(has_text(full, first.text));
    assert(rest.contains(first.text));
    let i = choose|i: int| 0 <= i < rest.len() && rest[i] == first.text;
    let way = seed(first.text);
    assert(placements(node, rest[i], settings)[0] == way);
    assert(tries(node, way));
    assert(way.shifted(first.x, first.y) == first);
    assert(contains_at(full, node, first.x, first.y));
    lemma_contains_child(node, way, full, first.x, first.y);
    (i, 0)
}

/// From a crossword found inside a larger crossword of the kind that the search arrives at,
/// one of the ways in which the search places one of the missing words leads to a crossword
/// that is found inside the larger one too.
pub proof fn lemma_next_way(
    settings: WordCompatibilitySettings,
    node: Seq<WordView>,
    rest: Seq<Seq<char>>,
    full: Seq<WordView>,
) -> (r: (int, int))
    requires
        well_formed(node),
        rest.len() > 0,
        forall|i: int| 0 <= i < rest.len() ==> !has_text(node, #[trigger] rest[i]),
        forall|i: int, way: WordView|
            0 <= i < rest.len() && way.text == #[trigger] rest[i] && #[trigger] tries(node, way)
                ==> fits(node.push(way)),
        grown(settings, full),
        contains(full, node),
        forall|t: Seq<char>| has_text(full, t) <==> (has_text(node, t) || rest.contains(t)),
    ensures
        leads(settings, node, rest, r.0, r.1, full),
{
    if node.len() == 0 {
        assert(node =~= Seq::<WordView>::empty());
        lemma_first_way(settings, rest, full)
    } else {
        assert(rest.contains(rest[0]));
        let (ox, oy) = choose|dx: int, dy: int| #[trigger] contains_at(full, node, dx, dy);
        let (m, ib) = lemma_bridge_out(node, rest[0], full, ox, oy);
        let b = full[ib];
        assert(has_text(full, b.text));
        assert(rest.contains(b.text));
        let i = choose|i: int| 0 <= i < rest.len() && rest[i] == b.text;
        let way = b.shifted(-ox, -oy);
        assert(way.shifted(ox, oy) == b);
        lemma_touching_shifted(node[m], way, ox, oy);
        assert(node[m].crossings(way.text).contains(way));
        assert(crossing_any(node, way.text).contains(way));
        lemma_can_add_back(settings, node, full, ox, oy, ib);
        assert(addable(node, way.text, settings).contains(way));
        lemma_placements_listed(node, rest[i], settings);
        let ways = placements(node, rest[i], settings);
        assert(ways.contains(way));
        let j = choose|j: int| 0 <= j < ways.len() && ways[j] == way;
        assert(tries(node, way));
        assert(full.contains(way.shifted(ox, oy)));
        lemma_contains_child(node, way, full, ox, oy);
        (i, j)
    }
}

/// A crossword of the kind that the search arrives at, with a word at least, has a word that
/// lies across.
pub proof fn lemma_word_across(settings: WordCompatibilitySettings, full: Seq<WordView>) -> (r: int)
    requires
        grown(settings, full),
        full.len() > 0,
    ensures
        0 <= r < full.len(),
        full[r].direction == WordDirection::Right,
{
    if full.len() == 1 {
        0
    } else {
        let part = Set::new(|t: Seq<char>| t == full[0].text);
        assert(part.contains(full[0].text));
        assert(full[1].text != full[0].text);
        assert(!part.contains(full[1].text));
        assert(splits(full, part));
        assert(bridged(full, part));
        let (i, j) = choose|i: int, j: int|
            0 <= i < full.len() && 0 <= j < full.len() && part.contains(full[i].text)
                && !part.contains(
                full[j].text,
            ) && touching(#[trigger] full[i], #[trigger] full[j]);
        lemma_touching_symmetric(full[i], full[j]);
        if full[i].direction == WordDirection::Right {
            i
        } else {
            j
        }
    }
}

} // verus!
