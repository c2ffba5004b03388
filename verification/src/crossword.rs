//! The crossword: a set of placed words, no two with the same text, kept in increasing order and
//! moved so that the smallest column and the smallest row among the word positions are zero.

use vstd::prelude::*;
use crate::order::{
    increasing, insert_word, lemma_increasing_distinct, lemma_lists_is_sorted_of,
    lemma_lists_unique, lemma_sorted_with, lemma_word_lt_shifted, lists, sorted_of, views, word_lt,
    word_same,
};
use crate::text::{string_of, text_eq};
use crate::word::{Word, WordCompatibilitySettings, WordDirection, WordPosition, WordView};

verus! {

/// The column just past the word: its position and its length for a word that lies across,
/// its position and one cell for a word that runs down.
pub open spec fn far_x(w: WordView) -> int {
    if w.direction == WordDirection::Right {
        w.x + w.text.len()
    } else {
        w.x + 1
    }
}

/// The row just past the word: its position and its length for a word that runs down, its
/// position and one cell for a word that lies across.
pub open spec fn far_y(w: WordView) -> int {
    if w.direction == WordDirection::Down {
        w.y + w.text.len()
    } else {
        w.y + 1
    }
}

/// The smallest column among the positions of the words; 0 when there is none.
pub open spec fn least_x(ws: Seq<WordView>) -> int
    decreases ws.len(),
{
    if ws.len() == 0 {
        0
    } else if ws.len() == 1 {
        ws[0].x
    } else if ws.last().x < least_x(ws.drop_last()) {
        ws.last().x
    } else {
        least_x(ws.drop_last())
    }
}

/// The smallest row among the positions of the words; 0 when there is none.
pub open spec fn least_y(ws: Seq<WordView>) -> int
    decreases ws.len(),
{
    if ws.len() == 0 {
        0
    } else if ws.len() == 1 {
        ws[0].y
    } else if ws.last().y < least_y(ws.drop_last()) {
        ws.last().y
    } else {
        least_y(ws.drop_last())
    }
}

/// The largest column just past a word, and at least 0: the width of the grid when the
/// smallest column is 0.
pub open spec fn reach_x(ws: Seq<WordView>) -> int
    decreases ws.len(),
{
    if ws.len() == 0 {
        0
    } else if far_x(ws.last()) > reach_x(ws.drop_last()) {
        far_x(ws.last())
    } else {
        reach_x(ws.drop_last())
    }
}

/// The largest row just past a word, and at least 0: the height of the grid when the smallest
/// row is 0.
pub open spec fn reach_y(ws: Seq<WordView>) -> int
    decreases ws.len(),
{
    if ws.len() == 0 {
        0
    } else if far_y(ws.last()) > reach_y(ws.drop_last()) {
        far_y(ws.last())
    } else {
        reach_y(ws.drop_last())
    }
}

/// The words moved by one vector.
pub open spec fn shifted(ws: Seq<WordView>, dx: int, dy: int) -> Seq<WordView> {
    ws.map_values(|w: WordView| w.shifted(dx, dy))
}

/// The words moved so that the smallest column and the smallest row among their positions
/// are 0.
pub open spec fn normalized(ws: Seq<WordView>) -> Seq<WordView> {
    shifted(ws, -least_x(ws), -least_y(ws))
}

/// Some word of the sequence has this text.
pub open spec fn has_text(ws: Seq<WordView>, text: Seq<char>) -> bool {
    exists|i: int| 0 <= i < ws.len() && #[trigger] ws[i].text == text
}

/// No two words of the sequence have the same text.
pub open spec fn distinct_texts(ws: Seq<WordView>) -> bool {
    forall|i: int, j: int|
        0 <= i < ws.len() && 0 <= j < ws.len() && i != j ==> #[trigger] ws[i].text
            != #[trigger] ws[j].text
}

/// After the words are moved so that their smallest column and row are 0, every word still
/// ends within the range of a machine integer.
pub open spec fn fits(ws: Seq<WordView>) -> bool {
    forall|i: int, j: int|
        0 <= i < ws.len() && 0 <= j < ws.len() ==> far_x(#[trigger] ws[i]) - (#[trigger] ws[j]).x
            <= isize::MAX && far_y(ws[i]) - ws[j].y <= isize::MAX
}

/// What holds of the words of every crossword: increasing order, no text twice, no negative
/// coordinate, some word in column 0 and some word in row 0, and every word ending within the
/// range of a machine integer.
pub open spec fn well_formed(ws: Seq<WordView>) -> bool {
    &&& increasing(ws)
    &&& distinct_texts(ws)
    &&& forall|i: int|
        0 <= i < ws.len() ==> 0 <= (#[trigger] ws[i]).x && 0 <= ws[i].y && far_x(ws[i])
            <= isize::MAX && far_y(ws[i]) <= isize::MAX
    &&& ws.len() > 0 ==> least_x(ws) == 0 && least_y(ws) == 0
}

/// The smallest column is a column of some word and no word lies left of it.
pub proof fn lemma_least_x(ws: Seq<WordView>)
    requires
        ws.len() > 0,
    ensures
        forall|i: int| 0 <= i < ws.len() ==> least_x(ws) <= (#[trigger] ws[i]).x,
        exists|i: int| 0 <= i < ws.len() && (#[trigger] ws[i]).x == least_x(ws),
    decreases ws.len(),
{
    if ws.len() == 1 {
        assert(ws[0].x == least_x(ws));
    } else {
        let front = ws.drop_last();
        lemma_least_x(front);
        let k = choose|i: int| 0 <= i < front.len() && (#[trigger] front[i]).x == least_x(front);
        assert(front[k] == ws[k]);
        if ws.last().x < least_x(front) {
            assert(ws[ws.len() - 1].x == least_x(ws));
        } else {
            assert(ws[k].x == least_x(ws));
        }
        assert forall|i: int| 0 <= i < ws.len() implies least_x(ws) <= (#[trigger] ws[i]).x by {
            if i < front.len() {
                assert(front[i] == ws[i]);
            }
        }
    }
}

/// The smallest row is a row of some word and no word lies above it.
pub proof fn lemma_least_y(ws: Seq<WordView>)
    requires
        ws.len() > 0,
    ensures
        forall|i: int| 0 <= i < ws.len() ==> least_y(ws) <= (#[trigger] ws[i]).y,
        exists|i: int| 0 <= i < ws.len() && (#[trigger] ws[i]).y == least_y(ws),
    decreases ws.len(),
{
    if ws.len() == 1 {
        assert(ws[0].y == least_y(ws));
    } else {
        let front = ws.drop_last();
        lemma_least_y(front);
        let k = choose|i: int| 0 <= i < front.len() && (#[trigger] front[i]).y == least_y(front);
        assert(front[k] == ws[k]);
        if ws.last().y < least_y(front) {
            assert(ws[ws.len() - 1].y == least_y(ws));
        } else {
            assert(ws[k].y == least_y(ws));
        }
        assert forall|i: int| 0 <= i < ws.len() implies least_y(ws) <= (#[trigger] ws[i]).y by {
            if i < front.len() {
                assert(front[i] == ws[i]);
            }
        }
    }
}

/// A number that is a column of some word, with no word left of it, is the smallest column.
pub proof fn lemma_least_x_is(ws: Seq<WordView>, m: int, k: int)
    requires
        0 <= k < ws.len(),
        ws[k].x == m,
        forall|i: int| 0 <= i < ws.len() ==> m <= (#[trigger] ws[i]).x,
    ensures
        least_x(ws) == m,
{
    lemma_least_x(ws);
    let q = choose|i: int| 0 <= i < ws.len() && (#[trigger] ws[i]).x == least_x(ws);
    assert(m <= ws[q].x);
    assert(least_x(ws) <= ws[k].x);
}

/// A number that is a row of some word, with no word above it, is the smallest row.
pub proof fn lemma_least_y_is(ws: Seq<WordView>, m: int, k: int)
    requires
        0 <= k < ws.len(),
        ws[k].y == m,
        forall|i: int| 0 <= i < ws.len() ==> m <= (#[trigger] ws[i]).y,
    ensures
        least_y(ws) == m,
{
    lemma_least_y(ws);
    let q = choose|i: int| 0 <= i < ws.len() && (#[trigger] ws[i]).y == least_y(ws);
    assert(m <= ws[q].y);
    assert(least_y(ws) <= ws[k].y);
}

/// Moving all words by one vector moves the smallest column and row by it.
pub proof fn lemma_least_shifted(ws: Seq<WordView>, dx: int, dy: int)
    requires
        ws.len() > 0,
    ensures
        least_x(shifted(ws, dx, dy)) == least_x(ws) + dx,
        least_y(shifted(ws, dx, dy)) == least_y(ws) + dy,
{
    let moved = shifted(ws, dx, dy);
    lemma_least_x(ws);
    lemma_least_y(ws);
    let kx = choose|i: int| 0 <= i < ws.len() && (#[trigger] ws[i]).x == least_x(ws);
    let ky = choose|i: int| 0 <= i < ws.len() && (#[trigger] ws[i]).y == least_y(ws);
    assert forall|i: int| 0 <= i < moved.len() implies least_x(ws) + dx <= (#[trigger] moved[i]).x
        by {
        assert(moved[i] == ws[i].shifted(dx, dy));
    }
    assert forall|i: int| 0 <= i < moved.len() implies least_y(ws) + dy <= (#[trigger] moved[i]).y
        by {
        assert(moved[i] == ws[i].shifted(dx, dy));
    }
    assert(moved[kx] == ws[kx].shifted(dx, dy));
    assert(moved[ky] == ws[ky].shifted(dx, dy));
    lemma_least_x_is(moved, least_x(ws) + dx, kx);
    lemma_least_y_is(moved, least_y(ws) + dy, ky);
}

/// After normalizing, the smallest column and the smallest row among the word positions are
/// 0, and normalizing once more changes nothing.
pub proof fn lemma_normalized_idempotent(ws: Seq<WordView>)
    ensures
        ws.len() > 0 ==> least_x(normalized(ws)) == 0 && least_y(normalized(ws)) == 0,
        normalized(normalized(ws)) == normalized(ws),
{
    let once = normalized(ws);
    if ws.len() > 0 {
        lemma_least_shifted(ws, -least_x(ws), -least_y(ws));
        assert forall|i: int| 0 <= i < once.len() implies normalized(once)[i] == once[i] by {
            assert(once[i].shifted(0, 0) == once[i]);
        }
    }
    assert(normalized(once) =~= once);
}

/// Moving all words by one vector keeps them in increasing order.
pub proof fn lemma_increasing_shifted(ws: Seq<WordView>, dx: int, dy: int)
    requires
        increasing(ws),
    ensures
        increasing(shifted(ws, dx, dy)),
{
    let moved = shifted(ws, dx, dy);
    assert forall|i: int, j: int| 0 <= i < j < moved.len() implies word_lt(
        #[trigger] moved[i],
        #[trigger] moved[j],
    ) by {
        lemma_word_lt_shifted(ws[i], ws[j], dx, dy);
        assert(word_lt(ws[i], ws[j]));
    }
}

/// The largest column just past a word is at least 0, at least that of every word, and, when
/// there is a word, that of some word.
pub proof fn lemma_reach_x(ws: Seq<WordView>)
    ensures
        0 <= reach_x(ws),
        forall|i: int| 0 <= i < ws.len() ==> far_x(#[trigger] ws[i]) <= reach_x(ws),
        reach_x(ws) == 0 || exists|i: int| 0 <= i < ws.len() && far_x(#[trigger] ws[i])
            == reach_x(ws),
    decreases ws.len(),
{
    if ws.len() > 0 {
        let front = ws.drop_last();
        lemma_reach_x(front);
        assert forall|i: int| 0 <= i < ws.len() implies far_x(#[trigger] ws[i]) <= reach_x(ws) by {
            if i < front.len() {
                assert(front[i] == ws[i]);
            }
        }
        if far_x(ws.last()) > reach_x(front) {
            assert(far_x(ws[ws.len() - 1]) == reach_x(ws));
        } else if reach_x(front) != 0 {
            let k = choose|i: int| 0 <= i < front.len() && far_x(#[trigger] front[i])
                == reach_x(front);
            assert(front[k] == ws[k]);
            assert(far_x(ws[k]) == reach_x(ws));
        }
    }
}

/// The largest row just past a word is at least 0, at least that of every word, and, when
/// there is a word, that of some word.
pub proof fn lemma_reach_y(ws: Seq<WordView>)
    ensures
        0 <= reach_y(ws),
        forall|i: int| 0 <= i < ws.len() ==> far_y(#[trigger] ws[i]) <= reach_y(ws),
        reach_y(ws) == 0 || exists|i: int| 0 <= i < ws.len() && far_y(#[trigger] ws[i])
            == reach_y(ws),
    decreases ws.len(),
{
    if ws.len() > 0 {
        let front = ws.drop_last();
        lemma_reach_y(front);
        assert forall|i: int| 0 <= i < ws.len() implies far_y(#[trigger] ws[i]) <= reach_y(ws) by {
            if i < front.len() {
                assert(front[i] == ws[i]);
            }
        }
        if far_y(ws.last()) > reach_y(front) {
            assert(far_y(ws[ws.len() - 1]) == reach_y(ws));
        } else if reach_y(front) != 0 {
            let k = choose|i: int| 0 <= i < front.len() && far_y(#[trigger] front[i])
                == reach_y(front);
            assert(front[k] == ws[k]);
            assert(far_y(ws[k]) == reach_y(ws));
        }
    }
}

/// The word at `i` is the first of the sequence with its text.
pub open spec fn first_of_text(ws: Seq<WordView>, i: int) -> bool {
    forall|k: int| 0 <= k < i ==> (#[trigger] ws[k]).text != ws[i].text
}

/// The words of a list without those whose text an earlier word of the list already has.
pub open spec fn gathered(ws: Seq<WordView>) -> Set<WordView> {
    Set::new(|w: WordView| exists|i: int| 0 <= i < ws.len() && #[trigger] ws[i] == w
        && first_of_text(ws, i))
}

/// The place of the word with this text.
pub open spec fn text_index(ws: Seq<WordView>, text: Seq<char>) -> int {
    choose|i: int| 0 <= i < ws.len() && #[trigger] ws[i].text == text
}

/// The words of a crossword after a word is added: unchanged when a word with that text is
/// there already, else with the word at its place in the order, and normalized.
pub open spec fn added(ws: Seq<WordView>, w: WordView) -> Seq<WordView> {
    if has_text(ws, w.text) {
        ws
    } else {
        normalized(sorted_of(ws.to_set().insert(w)))
    }
}

/// The words of a crossword after the word with this text is removed: unchanged when there is
/// none, else without it, and normalized.
pub open spec fn removed(ws: Seq<WordView>, text: Seq<char>) -> Seq<WordView> {
    if has_text(ws, text) {
        normalized(ws.remove(text_index(ws, text)))
    } else {
        ws
    }
}

/// Words that all belong to a list that fits fit as well.
pub proof fn lemma_fits_among(part: Seq<WordView>, all: Seq<WordView>)
    requires
        fits(all),
        forall|i: int| 0 <= i < part.len() ==> all.contains(#[trigger] part[i]),
    ensures
        fits(part),
{
    assert forall|i: int, j: int| 0 <= i < part.len() && 0 <= j < part.len() implies far_x(
        #[trigger] part[i],
    ) - (#[trigger] part[j]).x <= isize::MAX && far_y(part[i]) - part[j].y <= isize::MAX by {
        assert(all.contains(part[i]));
        assert(all.contains(part[j]));
        let a = choose|a: int| 0 <= a < all.len() && all[a] == part[i];
        let b = choose|b: int| 0 <= b < all.len() && all[b] == part[j];
        assert(far_x(all[a]) - all[b].x <= isize::MAX);
    }
}

/// Increasing words with distinct texts that fit are, once normalized, the words of a
/// crossword.
pub proof fn lemma_normalized_well_formed(ws: Seq<WordView>)
    requires
        increasing(ws),
        distinct_texts(ws),
        fits(ws),
    ensures
        well_formed(normalized(ws)),
{
    let out = normalized(ws);
    lemma_increasing_shifted(ws, -least_x(ws), -least_y(ws));
    lemma_normalized_idempotent(ws);
    assert forall|i: int, j: int| 0 <= i < out.len() && 0 <= j < out.len() && i != j implies (
    #[trigger] out[i]).text != (#[trigger] out[j]).text by {
        assert(ws[i].text != ws[j].text);
    }
    if ws.len() > 0 {
        lemma_least_x(ws);
        lemma_least_y(ws);
        let kx = choose|i: int| 0 <= i < ws.len() && (#[trigger] ws[i]).x == least_x(ws);
        let ky = choose|i: int| 0 <= i < ws.len() && (#[trigger] ws[i]).y == least_y(ws);
        assert forall|i: int| 0 <= i < out.len() implies 0 <= (#[trigger] out[i]).x && 0
            <= out[i].y && far_x(out[i]) <= isize::MAX && far_y(out[i]) <= isize::MAX by {
            assert(out[i] == ws[i].shifted(-least_x(ws), -least_y(ws)));
            assert(far_x(ws[i]) - ws[kx].x <= isize::MAX);
            assert(far_y(ws[i]) - ws[ky].y <= isize::MAX);
        }
    }
}

/// The words of a crossword fit, and normalizing them changes nothing.
pub proof fn lemma_well_formed_normal(ws: Seq<WordView>)
    requires
        well_formed(ws),
    ensures
        fits(ws),
        normalized(ws) == ws,
{
    assert forall|i: int| 0 <= i < ws.len() implies normalized(ws)[i] == ws[i] by {
        assert(ws[i].shifted(0, 0) == ws[i]);
    }
    assert(normalized(ws) =~= ws);
}

/// Every word of `inner`, moved by `(dx, dy)`, is a word of `outer`.
pub open spec fn contains_at(outer: Seq<WordView>, inner: Seq<WordView>, dx: int, dy: int) -> bool {
    forall|k: int| 0 <= k < inner.len() ==> outer.contains((#[trigger] inner[k]).shifted(dx, dy))
}

/// `inner` is found inside `outer`: one vector moves every word of `inner` onto a word of
/// `outer` with the same text and direction.
pub open spec fn contains(outer: Seq<WordView>, inner: Seq<WordView>) -> bool {
    exists|dx: int, dy: int| #[trigger] contains_at(outer, inner, dx, dy)
}

/// Every crossword is found inside itself.
pub proof fn lemma_contains_reflexive(ws: Seq<WordView>)
    ensures
        contains(ws, ws),
{
    assert forall|k: int| 0 <= k < ws.len() implies ws.contains((#[trigger] ws[k]).shifted(0, 0))
        by {
        assert(ws[k].shifted(0, 0) == ws[k]);
    }
    assert(contains_at(ws, ws, 0, 0));
}

/// Among words with distinct texts, two with the same text are the same word.
pub proof fn lemma_same_text_same_word(ws: Seq<WordView>, a: WordView, b: WordView)
    requires
        distinct_texts(ws),
        ws.contains(a),
        ws.contains(b),
        a.text == b.text,
    ensures
        a == b,
{
    let i = choose|i: int| 0 <= i < ws.len() && ws[i] == a;
    let j = choose|j: int| 0 <= j < ws.len() && ws[j] == b;
    if i != j {
        assert(ws[i].text != ws[j].text);
    }
}

/// The word is compatible with every word of the crossword.
pub open spec fn can_add(
    ws: Seq<WordView>,
    w: WordView,
    settings: WordCompatibilitySettings,
) -> bool {
    forall|k: int| 0 <= k < ws.len() ==> settings.compatible(#[trigger] ws[k], w)
}

/// The placement of the first word of a crossword: horizontal, at the origin.
pub open spec fn seed(text: Seq<char>) -> WordView {
    WordView { x: 0, y: 0, direction: WordDirection::Right, text }
}

/// Every placement of `text` that crosses some word of the crossword at a shared letter.
pub open spec fn crossing_any(ws: Seq<WordView>, text: Seq<char>) -> Set<WordView> {
    Set::new(|c: WordView| exists|k: int| 0 <= k < ws.len()
        && (#[trigger] ws[k]).crossings(text).contains(c))
}

/// The placements of `text` that cross some word of the crossword and are compatible with
/// every word of it.
pub open spec fn addable(
    ws: Seq<WordView>,
    text: Seq<char>,
    settings: WordCompatibilitySettings,
) -> Set<WordView> {
    Set::new(|c: WordView| crossing_any(ws, text).contains(c) && can_add(ws, c, settings))
}

/// The ways to add a word with this text: the seed for an empty crossword, else the addable
/// placements in increasing order.
pub open spec fn placements(
    ws: Seq<WordView>,
    text: Seq<char>,
    settings: WordCompatibilitySettings,
) -> Seq<WordView> {
    if ws.len() == 0 {
        seq![seed(text)]
    } else {
        sorted_of(addable(ws, text, settings))
    }
}

/// The letter that a word puts on a cell, if the word covers the cell.
pub open spec fn letter_on(w: WordView, x: int, y: int) -> Option<char> {
    match w.direction {
        WordDirection::Right => if y == w.y && w.x <= x < w.x + w.text.len() {
            Some(w.text[x - w.x])
        } else {
            None
        },
        WordDirection::Down => if x == w.x && w.y <= y < w.y + w.text.len() {
            Some(w.text[y - w.y])
        } else {
            None
        },
    }
}

/// The character on a cell of the grid: the letter of the last word, in order, that covers the
/// cell; a space when no word covers it.
pub open spec fn cell(ws: Seq<WordView>, x: int, y: int) -> char
    decreases ws.len(),
{
    if ws.len() == 0 {
        ' '
    } else {
        match letter_on(ws.last(), x, y) {
            Some(c) => c,
            None => cell(ws.drop_last(), x, y),
        }
    }
}

/// A frame line: a dash for each cell and for each gap between and around the cells, and a
/// line end.
pub open spec fn frame(width: int) -> Seq<char> {
    Seq::new((2 * width + 1) as nat, |i: int| '-').push('\n')
}

/// The first `n` cells of row `y`, with one space between neighbours.
pub open spec fn spaced(ws: Seq<WordView>, y: int, n: int) -> Seq<char>
    decreases n,
{
    if n <= 0 {
        Seq::empty()
    } else if n == 1 {
        seq![cell(ws, 0, y)]
    } else {
        spaced(ws, y, n - 1).push(' ').push(cell(ws, n - 1, y))
    }
}

/// Row `y` as a line: a bar, the cells with one space between neighbours, a bar, a line end.
pub open spec fn line(ws: Seq<WordView>, y: int) -> Seq<char> {
    (seq!['|'] + spaced(ws, y, reach_x(ws))).push('|').push('\n')
}

/// The first `n` rows as lines.
pub open spec fn lines(ws: Seq<WordView>, n: int) -> Seq<char>
    decreases n,
{
    if n <= 0 {
        Seq::empty()
    } else {
        lines(ws, n - 1) + line(ws, n - 1)
    }
}

/// The crossword as text: a frame line, the rows as lines, a frame line.
pub open spec fn rendered(ws: Seq<WordView>) -> Seq<char> {
    frame(reach_x(ws)) + lines(ws, reach_y(ws)) + frame(reach_x(ws))
}

/// A placement that the search may try on a crossword: the seed on an empty one, else one
/// that crosses a word of the crossword at a shared letter.
pub open spec fn tries(ws: Seq<WordView>, c: WordView) -> bool {
    if ws.len() == 0 {
        c == seed(c.text)
    } else {
        crossing_any(ws, c.text).contains(c)
    }
}

/// The words of a crossword and one word with a new text, in increasing order: the texts are
/// distinct, the words fit, and without the new word the sequence is the crossword.
pub proof fn lemma_sorted_with_new(node: Seq<WordView>, w: WordView) -> (k: int)
    requires
        well_formed(node),
        !has_text(node, w.text),
        fits(node.push(w)),
    ensures
        increasing(sorted_of(node.to_set().insert(w))),
        distinct_texts(sorted_of(node.to_set().insert(w))),
        fits(sorted_of(node.to_set().insert(w))),
        0 <= k < sorted_of(node.to_set().insert(w)).len(),
        sorted_of(node.to_set().insert(w))[k] == w,
        sorted_of(node.to_set().insert(w)).remove(k) == node,
        forall|x: WordView|
            #![trigger sorted_of(node.to_set().insert(w)).contains(x)]
            sorted_of(node.to_set().insert(w)).contains(x) <==> (node.contains(x) || x == w),
{
    let all = node.to_set().insert(w);
    let sorted = sorted_of(all);
    lemma_sorted_with(node, w);
    assert(sorted.contains(w));
    let k = choose|k: int| 0 <= k < sorted.len() && sorted[k] == w;
    assert forall|i: int| 0 <= i < node.len() implies (#[trigger] node[i]).text != w.text by {
    }
    assert(distinct_texts(sorted)) by {
        assert forall|i: int, j: int|
            0 <= i < sorted.len() && 0 <= j < sorted.len() && i != j implies (
        #[trigger] sorted[i]).text != (#[trigger] sorted[j]).text by {
            assert(sorted.contains(sorted[i]));
            assert(sorted.contains(sorted[j]));
            if sorted[i] == sorted[j] {
                lemma_increasing_distinct(sorted, i, j);
            }
            if sorted[i] != w && sorted[j] != w {
                if sorted[i].text == sorted[j].text {
                    lemma_same_text_same_word(node, sorted[i], sorted[j]);
                }
            } else if sorted[i] == w {
                let b = choose|b: int| 0 <= b < node.len() && node[b] == sorted[j];
                assert(node[b].text != w.text);
            } else {
                let a = choose|a: int| 0 <= a < node.len() && node[a] == sorted[i];
                assert(node[a].text != w.text);
            }
        }
    }
    assert(fits(sorted)) by {
        let all_seq = node.push(w);
        assert forall|i: int| 0 <= i < sorted.len() implies all_seq.contains(#[trigger] sorted[i])
            by {
            assert(sorted.contains(sorted[i]));
            if sorted[i] == w {
                assert(all_seq[node.len() as int] == w);
            } else {
                let q = choose|q: int| 0 <= q < node.len() && node[q] == sorted[i];
                assert(all_seq[q] == sorted[i]);
            }
        }
        lemma_fits_among(sorted, all_seq);
    }
    assert(sorted.remove(k) == node) by {
        let rest = sorted.remove(k);
        assert forall|a: int, b: int| 0 <= a < b < rest.len() implies word_lt(
            #[trigger] rest[a],
            #[trigger] rest[b],
        ) by {
            let a0 = if a < k { a } else { a + 1 };
            let b0 = if b < k { b } else { b + 1 };
            assert(word_lt(sorted[a0], sorted[b0]));
        }
        assert forall|x: WordView| node.to_set().contains(x) <==> rest.contains(x) by {
            if node.contains(x) {
                assert(sorted.contains(x));
                let q = choose|q: int| 0 <= q < sorted.len() && sorted[q] == x;
                let q0 = choose|q0: int| 0 <= q0 < node.len() && node[q0] == x;
                assert(node[q0].text != w.text);
                assert(q != k);
                if q < k {
                    assert(rest[q] == x);
                } else {
                    assert(rest[q - 1] == x);
                }
            }
            if rest.contains(x) {
                let q = choose|q: int| 0 <= q < rest.len() && rest[q] == x;
                let q0 = if q < k { q } else { q + 1 };
                assert(sorted[q0] == x);
                assert(sorted.contains(x));
                if x == w {
                    lemma_increasing_distinct(sorted, q0, k);
                }
            }
        }
        assert(lists(node, node.to_set()));
        lemma_lists_unique(rest, node, node.to_set());
    }
    k
}

/// Moving a crossword with at least one word and normalizing the result gives the crossword
/// back.
pub proof fn lemma_normalized_shifted(node: Seq<WordView>, dx: int, dy: int)
    requires
        well_formed(node),
    ensures
        normalized(shifted(node, dx, dy)) == node,
{
    if node.len() > 0 {
        lemma_least_shifted(node, dx, dy);
        let back = normalized(shifted(node, dx, dy));
        assert forall|i: int| 0 <= i < node.len() implies back[i] == node[i] by {
            assert(node[i].shifted(dx, dy).shifted(-dx, -dy) == node[i]);
        }
        assert(back =~= node);
    } else {
        assert(normalized(shifted(node, dx, dy)) =~= node);
    }
}

/// Adding a word with a new text to a crossword gives a crossword with one word more, from
/// which removing the word gives the first crossword back.
pub proof fn lemma_added(node: Seq<WordView>, w: WordView)
    requires
        well_formed(node),
        !has_text(node, w.text),
        fits(node.push(w)),
    ensures
        well_formed(added(node, w)),
        removed(added(node, w), w.text) == node,
        added(node, w).len() == node.len() + 1,
        forall|t: Seq<char>| has_text(added(node, w), t) <==> (has_text(node, t) || t == w.text),
{
    let sorted = sorted_of(node.to_set().insert(w));
    let k = lemma_sorted_with_new(node, w);
    let dx = -least_x(sorted);
    let dy = -least_y(sorted);
    let after = added(node, w);
    assert(after == shifted(sorted, dx, dy));
    lemma_normalized_well_formed(sorted);
    assert(sorted.len() == node.len() + 1) by {
        assert(sorted.remove(k).len() == sorted.len() - 1);
    }
    assert(removed(after, w.text) == node) by {
        assert(after[k].text == w.text);
        let t = text_index(after, w.text);
        if t != k {
            assert(after[t].text != after[k].text);
        }
        assert(after.remove(k) =~= shifted(sorted.remove(k), dx, dy));
        lemma_normalized_shifted(node, dx, dy);
    }
    assert forall|t: Seq<char>| has_text(after, t) <==> (has_text(node, t) || t == w.text) by {
        if has_text(after, t) {
            let i = choose|i: int| 0 <= i < after.len() && (#[trigger] after[i]).text == t;
            assert(sorted[i].text == t);
            assert(sorted.contains(sorted[i]));
            if sorted[i] != w {
                let q = choose|q: int| 0 <= q < node.len() && node[q] == sorted[i];
                assert(node[q].text == t);
            }
        }
        if has_text(node, t) {
            let q = choose|q: int| 0 <= q < node.len() && (#[trigger] node[q]).text == t;
            assert(node.contains(node[q]));
            assert(sorted.contains(node[q]));
            let i = choose|i: int| 0 <= i < sorted.len() && sorted[i] == node[q];
            assert(after[i].text == t);
        }
        if t == w.text {
            assert(after[k].text == t);
        }
    }
}

/// A placement that the search may try fits with the crossword, when the crossword leaves
/// room for one more word of that length.
pub proof fn lemma_try_fits(node: Seq<WordView>, c: WordView)
    requires
        well_formed(node),
        tries(node, c),
        reach_x(node) + c.text.len() + 1 <= isize::MAX,
        reach_y(node) + c.text.len() + 1 <= isize::MAX,
    ensures
        fits(node.push(c)),
        c.representable(),
{
    let all = node.push(c);
    lemma_reach_x(node);
    lemma_reach_y(node);
    if node.len() > 0 {
        let k = choose|k: int| 0 <= k < node.len()
            && (#[trigger] node[k]).crossings(c.text).contains(c);
        let e = node[k];
        let (i, j) = choose|i: int, j: int| #[trigger] e.crosses_at(c.text, i, j) && c
            == e.crossing(c.text, i, j);
        assert(far_x(e) <= reach_x(node) && far_y(e) <= reach_y(node));
        assert(0 <= e.x && 0 <= e.y);
        assert forall|a: int, b: int| 0 <= a < all.len() && 0 <= b < all.len() implies far_x(
            #[trigger] all[a],
        ) - (#[trigger] all[b]).x <= isize::MAX && far_y(all[a]) - all[b].y <= isize::MAX by {
            if a < node.len() {
                assert(all[a] == node[a]);
                assert(far_x(node[a]) <= reach_x(node) && far_y(node[a]) <= reach_y(node));
            }
            if b < node.len() {
                assert(all[b] == node[b]);
                assert(0 <= node[b].x && 0 <= node[b].y);
            }
        }
    } else {
        assert forall|a: int, b: int| 0 <= a < all.len() && 0 <= b < all.len() implies far_x(
            #[trigger] all[a],
        ) - (#[trigger] all[b]).x <= isize::MAX && far_y(all[a]) - all[b].y <= isize::MAX by {
            assert(all[a] == c && all[b] == c);
        }
    }
}

/// Adding a placement that the search may try makes the grid wider and higher by no more than
/// the length of the word and one.
pub proof fn lemma_added_reach(node: Seq<WordView>, c: WordView)
    requires
        well_formed(node),
        !has_text(node, c.text),
        tries(node, c),
        fits(node.push(c)),
    ensures
        reach_x(added(node, c)) <= reach_x(node) + c.text.len() + 1,
        reach_y(added(node, c)) <= reach_y(node) + c.text.len() + 1,
{
    let all = node.to_set().insert(c);
    let sorted = sorted_of(all);
    lemma_sorted_with(node, c);
    let after = added(node, c);
    let lx = least_x(sorted);
    let ly = least_y(sorted);
    assert(sorted.contains(c));
    lemma_least_x(sorted);
    lemma_least_y(sorted);
    lemma_reach_x(node);
    lemma_reach_y(node);
    lemma_reach_x(after);
    lemma_reach_y(after);
    let ax = choose|i: int| 0 <= i < sorted.len() && (#[trigger] sorted[i]).x == lx;
    let ay = choose|i: int| 0 <= i < sorted.len() && (#[trigger] sorted[i]).y == ly;
    assert(sorted.contains(sorted[ax]));
    assert(sorted.contains(sorted[ay]));
    let ic = choose|i: int| 0 <= i < sorted.len() && sorted[i] == c;
    assert(lx <= sorted[ic].x && ly <= sorted[ic].y);
    // The least coordinates are those of the new word or of a word of the crossword.
    assert(lx == c.x || lx >= 0) by {
        if sorted[ax] != c {
            let q = choose|q: int| 0 <= q < node.len() && node[q] == sorted[ax];
            assert(0 <= node[q].x);
        }
    }
    assert(ly == c.y || ly >= 0) by {
        if sorted[ay] != c {
            let q = choose|q: int| 0 <= q < node.len() && node[q] == sorted[ay];
            assert(0 <= node[q].y);
        }
    }
    if node.len() > 0 {
        let k = choose|k: int| 0 <= k < node.len()
            && (#[trigger] node[k]).crossings(c.text).contains(c);
        let e = node[k];
        let (i, j) = choose|i: int, j: int| #[trigger] e.crosses_at(c.text, i, j) && c
            == e.crossing(c.text, i, j);
        assert(far_x(e) <= reach_x(node) && far_y(e) <= reach_y(node));
        assert(0 <= e.x && 0 <= e.y);
        assert(node.contains(e));
        assert(sorted.contains(e));
        let ie = choose|q: int| 0 <= q < sorted.len() && sorted[q] == e;
        assert(lx <= sorted[ie].x && ly <= sorted[ie].y);
        assert forall|m: int| 0 <= m < after.len()
            implies far_x(#[trigger] after[m]) <= reach_x(node)
            + c.text.len() + 1 && far_y(after[m]) <= reach_y(node) + c.text.len() + 1 by {
            assert(after[m] == sorted[m].shifted(-lx, -ly));
            assert(sorted.contains(sorted[m]));
            if sorted[m] != c {
                let q = choose|q: int| 0 <= q < node.len() && node[q] == sorted[m];
                assert(far_x(node[q]) <= reach_x(node) && far_y(node[q]) <= reach_y(node));
            }
        }
    } else {
        assert forall|m: int| 0 <= m < after.len()
            implies far_x(#[trigger] after[m]) <= reach_x(node)
            + c.text.len() + 1 && far_y(after[m]) <= reach_y(node) + c.text.len() + 1 by {
            assert(after[m] == sorted[m].shifted(-lx, -ly));
            assert(sorted.contains(sorted[m]));
            assert(sorted[m] == c);
            assert(sorted[ax] == c && sorted[ay] == c);
        }
    }
}

/// The constraints that a crossword may have to meet on its size.
#[derive(Clone, Copy, Debug, PartialEq, Eq, PartialOrd, Ord)]
pub enum CrosswordSizeConstraint {
    /// The grid is at most this many columns wide.
    MaxLength(usize),
    /// The grid is at most this many rows high.
    MaxHeight(usize),
    /// The grid has at most this many cells.
    MaxArea(usize),
    /// No constraint.
    Unlimited,
}

/// The settings of a crossword: the constraints on its size, all of which must hold.
#[derive(Clone, Debug, PartialEq, Eq, PartialOrd, Ord)]
pub struct CrosswordSettings {
    pub size_constraints: Vec<CrosswordSizeConstraint>,
}

/// A crossword: placed words, no two with the same text, normalized.
#[derive(Debug, PartialEq, Eq, PartialOrd, Ord)]
pub struct Crossword<'a> {
    words: Vec<Word<'a>>,
}

impl<'a> View for Crossword<'a> {
    type V = Seq<WordView>;

    closed spec fn view(&self) -> Seq<WordView> {
        views(self.words@)
    }
}

/// The place of the first word with this text, if there is one.
fn position_of<'a>(v: &Vec<Word<'a>>, text: &str) -> (r: Option<usize>)
    ensures
        match r {
            Some(i) => i < v@.len() && v@[i as int]@.text == text@,
            None => !has_text(views(v@), text@),
        },
{
    let mut k: usize = 0;
    while k < v.len()
        invariant
            k <= v@.len(),
            forall|i: int| 0 <= i < k ==> (#[trigger] views(v@)[i]).text != text@,
        decreases v@.len() - k,
    {
        if text_eq(v[k].value, text) {
            return Some(k);
        }
        k += 1;
    }
    None
}

/// A copy of the words.
fn copy_words<'a>(v: &Vec<Word<'a>>) -> (r: Vec<Word<'a>>)
    ensures
        r@ == v@,
{
    let mut out: Vec<Word<'a>> = Vec::new();
    let mut k: usize = 0;
    while k < v.len()
        invariant
            k <= v@.len(),
            out@ == v@.take(k as int),
        decreases v@.len() - k,
    {
        out.push(v[k]);
        assert(out@ =~= v@.take(k + 1));
        k += 1;
    }
    assert(out@ =~= v@);
    out
}

/// The words of a list without those whose text an earlier word of the list has, in
/// increasing order.
fn gather<'a>(words: &[Word<'a>]) -> (v: Vec<Word<'a>>)
    ensures
        views(v@) == sorted_of(gathered(views(words@))),
        increasing(views(v@)),
        distinct_texts(views(v@)),
{
    let ghost ws = views(words@);
    let mut v: Vec<Word<'a>> = Vec::new();
    let mut k: usize = 0;
    while k < words.len()
        invariant
            k <= words@.len(),
            ws == views(words@),
            increasing(views(v@)),
            distinct_texts(views(v@)),
            forall|i: int| 0 <= i < k ==> has_text(views(v@), (#[trigger] ws[i]).text),
            forall|x: WordView|
                #![trigger views(v@).contains(x)]
                views(v@).contains(x) <==> exists|i: int|
                    0 <= i < k && #[trigger] ws[i] == x && first_of_text(ws, i),
        decreases words@.len() - k,
    {
        let word = words[k];
        let ghost before = views(v@);
        assert(ws[k as int] == word@);
        let found = position_of(&v, word.value);
        if found.is_none() {
            insert_word(&mut v, word);
            proof {
                let after = views(v@);
                assert(first_of_text(ws, k as int)) by {
                    assert forall|q: int| 0 <= q < k implies (#[trigger] ws[q]).text
                        != ws[k as int].text by {
                        assert(has_text(before, ws[q].text));
                    }
                }
                assert forall|i: int, j: int|
                    0 <= i < after.len() && 0 <= j < after.len() && i != j implies (
                #[trigger] after[i]).text != (#[trigger] after[j]).text by {
                    assert(after.contains(after[i]));
                    assert(after.contains(after[j]));
                    if after[i] == after[j] {
                        lemma_increasing_distinct(after, i, j);
                    }
                    if after[i] != word@ && after[j] != word@ {
                        let a = choose|a: int| 0 <= a < before.len() && before[a] == after[i];
                        let b = choose|b: int| 0 <= b < before.len() && before[b] == after[j];
                        assert(a != b);
                    } else if after[i] == word@ {
                        let b = choose|b: int| 0 <= b < before.len() && before[b] == after[j];
                        assert(before[b].text != word@.text);
                    } else {
                        let a = choose|a: int| 0 <= a < before.len() && before[a] == after[i];
                        assert(before[a].text != word@.text);
                    }
                }
                assert forall|i: int| 0 <= i < k + 1 implies has_text(
                    after,
                    (#[trigger] ws[i]).text,
                ) by {
                    if i < k {
                        let q = choose|q: int| 0 <= q < before.len()
                            && (#[trigger] before[q]).text == ws[i].text;
                        assert(after.contains(before[q]));
                        let q2 = choose|q2: int| 0 <= q2 < after.len() && after[q2]
                            == before[q];
                        assert(after[q2].text == ws[i].text);
                    } else {
                        assert(after.contains(word@));
                        let q2 = choose|q2: int| 0 <= q2 < after.len() && after[q2] == word@;
                        assert(after[q2].text == ws[i].text);
                    }
                }
                assert forall|x: WordView|
                    #![trigger after.contains(x)]
                    after.contains(x) <==> exists|i: int|
                        0 <= i < k + 1 && #[trigger] ws[i] == x && first_of_text(ws, i) by {
                    if after.contains(x) {
                        if before.contains(x) {
                            let i = choose|i: int| 0 <= i < k && #[trigger] ws[i] == x
                                && first_of_text(ws, i);
                            assert(0 <= i < k + 1);
                        } else {
                            assert(ws[k as int] == x);
                        }
                    }
                    if exists|i: int| 0 <= i < k + 1 && #[trigger] ws[i] == x
                        && first_of_text(ws, i) {
                        let i = choose|i: int| 0 <= i < k + 1 && #[trigger] ws[i] == x
                            && first_of_text(ws, i);
                        if i < k {
                            assert(before.contains(x));
                        }
                    }
                }
            }
        } else {
            proof {
                assert(!first_of_text(ws, k as int)) by {
                    assert(before[found->0 as int].text == word@.text);
                    let q = choose|q: int| 0 <= q < before.len() && (#[trigger] before[q]).text
                        == word@.text;
                    assert(before.contains(before[q]));
                    let i = choose|i: int| 0 <= i < k && #[trigger] ws[i] == before[q]
                        && first_of_text(ws, i);
                    assert(ws[i].text == ws[k as int].text);
                }
                assert forall|x: WordView|
                    #![trigger before.contains(x)]
                    before.contains(x) <==> exists|i: int|
                        0 <= i < k + 1 && #[trigger] ws[i] == x && first_of_text(ws, i) by {
                    if before.contains(x) {
                        let i = choose|i: int| 0 <= i < k && #[trigger] ws[i] == x
                            && first_of_text(ws, i);
                        assert(0 <= i < k + 1);
                    }
                    if exists|i: int| 0 <= i < k + 1 && #[trigger] ws[i] == x
                        && first_of_text(ws, i) {
                        let i = choose|i: int| 0 <= i < k + 1 && #[trigger] ws[i] == x
                            && first_of_text(ws, i);
                        assert(i < k);
                    }
                }
            }
        }
        k += 1;
    }
    proof {
        let got = views(v@);
        assert forall|w: WordView| gathered(ws).contains(w) <==> got.contains(w) by {
            if gathered(ws).contains(w) {
                let i = choose|i: int| 0 <= i < ws.len() && #[trigger] ws[i] == w
                    && first_of_text(ws, i);
                assert(0 <= i < k);
            }
            if got.contains(w) {
                let i = choose|i: int| 0 <= i < k && #[trigger] ws[i] == w && first_of_text(ws,
                    i);
                assert(gathered(ws).contains(w));
            }
        }
        lemma_lists_is_sorted_of(got, gathered(ws));
    }
    v
}

/// The column and the row just past the last cell of a word.
fn far_corner(word: &Word) -> (r: (i128, i128))
    ensures
        r.0 == far_x(word@),
        r.1 == far_y(word@),
        isize::MIN <= r.0 <= isize::MAX + usize::MAX,
        isize::MIN <= r.1 <= isize::MAX + usize::MAX,
{
    let length = word.value.unicode_len();
    let mut end_x: i128 = word.position.x as i128 + 1;
    let mut end_y: i128 = word.position.y as i128 + 1;
    match word.direction {
        WordDirection::Right => {
            end_x = word.position.x as i128 + length as i128;
        },
        WordDirection::Down => {
            end_y = word.position.y as i128 + length as i128;
        },
    }
    (end_x, end_y)
}

/// The smallest column and the smallest row among the positions of the words.
fn least_corner<'a>(v: &Vec<Word<'a>>) -> (r: (isize, isize))
    requires
        v@.len() > 0,
    ensures
        r.0 == least_x(views(v@)),
        r.1 == least_y(views(v@)),
{
    let ghost ws = views(v@);
    let mut min_x: isize = v[0].position.x;
    let mut min_y: isize = v[0].position.y;
    let mut k: usize = 1;
    assert(ws.take(1).len() == 1 && ws.take(1)[0] == ws[0]);
    while k < v.len()
        invariant
            1 <= k <= v@.len(),
            ws == views(v@),
            min_x == least_x(ws.take(k as int)),
            min_y == least_y(ws.take(k as int)),
        decreases v@.len() - k,
    {
        assert(ws.take(k + 1).drop_last() =~= ws.take(k as int));
        assert(ws.take(k + 1).last() == ws[k as int]);
        if v[k].position.x < min_x {
            min_x = v[k].position.x;
        }
        if v[k].position.y < min_y {
            min_y = v[k].position.y;
        }
        k += 1;
    }
    assert(ws.take(k as int) =~= ws);
    (min_x, min_y)
}

/// Checks whether the words, moved so that their smallest column and row are 0, all end
/// within the range of a machine integer.
fn fit<'a>(v: &Vec<Word<'a>>) -> (r: bool)
    ensures
        r == fits(views(v@)),
{
    let ghost ws = views(v@);
    if v.len() == 0 {
        return true;
    }
    let least = least_corner(v);
    proof {
        lemma_least_x(ws);
        lemma_least_y(ws);
    }
    let ghost kx = choose|i: int| 0 <= i < ws.len() && (#[trigger] ws[i]).x == least_x(ws);
    let ghost ky = choose|i: int| 0 <= i < ws.len() && (#[trigger] ws[i]).y == least_y(ws);
    let mut k: usize = 0;
    while k < v.len()
        invariant
            k <= v@.len(),
            ws == views(v@),
            least.0 == least_x(ws),
            least.1 == least_y(ws),
            0 <= kx < ws.len() && ws[kx].x == least_x(ws),
            0 <= ky < ws.len() && ws[ky].y == least_y(ws),
            forall|i: int|
                0 <= i < k ==> far_x(#[trigger] ws[i]) - least_x(ws) <= isize::MAX && far_y(ws[i])
                    - least_y(ws) <= isize::MAX,
        decreases v@.len() - k,
    {
        let far = far_corner(&v[k]);
        assert(ws[k as int] == v@[k as int]@);
        let wide = far.0 - least.0 as i128 > isize::MAX as i128;
        let high = far.1 - least.1 as i128 > isize::MAX as i128;
        if wide || high {
            assert(far_x(ws[k as int]) - ws[kx].x > isize::MAX || far_y(ws[k as int]) - ws[ky].y
                > isize::MAX);
            return false;
        }
        k += 1;
    }
    assert forall|i: int, j: int| 0 <= i < ws.len() && 0 <= j < ws.len() implies far_x(
        #[trigger] ws[i],
    ) - (#[trigger] ws[j]).x <= isize::MAX && far_y(ws[i]) - ws[j].y <= isize::MAX by {
        assert(least_x(ws) <= ws[j].x && least_y(ws) <= ws[j].y);
    }
    true
}

/// The words moved so that the smallest column and the smallest row among their positions
/// are 0.
fn normalize_words<'a>(v: &Vec<Word<'a>>) -> (r: Vec<Word<'a>>)
    requires
        fits(views(v@)),
    ensures
        views(r@) == normalized(views(v@)),
{
    let ghost ws = views(v@);
    let mut out: Vec<Word<'a>> = Vec::new();
    if v.len() == 0 {
        assert(views(out@) =~= normalized(ws));
        return out;
    }
    let least = least_corner(v);
    let min_x = least.0;
    let min_y = least.1;
    proof {
        lemma_least_x(ws);
        lemma_least_y(ws);
    }
    let ghost kx = choose|i: int| 0 <= i < ws.len() && (#[trigger] ws[i]).x == least_x(ws);
    let ghost ky = choose|i: int| 0 <= i < ws.len() && (#[trigger] ws[i]).y == least_y(ws);
    let mut i: usize = 0;
    while i < v.len()
        invariant
            i <= v@.len(),
            ws == views(v@),
            fits(ws),
            min_x == least_x(ws),
            min_y == least_y(ws),
            0 <= kx < ws.len() && ws[kx].x == least_x(ws),
            0 <= ky < ws.len() && ws[ky].y == least_y(ws),
            forall|q: int| 0 <= q < ws.len() ==> least_x(ws) <= (#[trigger] ws[q]).x,
            forall|q: int| 0 <= q < ws.len() ==> least_y(ws) <= (#[trigger] ws[q]).y,
            views(out@) == normalized(ws).take(i as int),
        decreases v@.len() - i,
    {
        let word = v[i];
        proof {
            assert(ws[i as int] == word@);
            assert(far_x(ws[i as int]) - ws[kx].x <= isize::MAX);
            assert(far_y(ws[i as int]) - ws[ky].y <= isize::MAX);
            assert(least_x(ws) <= ws[i as int].x);
            assert(least_y(ws) <= ws[i as int].y);
        }
        let moved = Word {
            position: WordPosition {
                x: (word.position.x as i128 - min_x as i128) as isize,
                y: (word.position.y as i128 - min_y as i128) as isize,
            },
            direction: word.direction,
            value: word.value,
        };
        assert(moved@ == ws[i as int].shifted(-least_x(ws), -least_y(ws)));
        assert(moved@ == normalized(ws)[i as int]);
        let ghost prior = views(out@);
        out.push(moved);
        assert(views(out@) =~= prior.push(moved@));
        assert(views(out@) =~= normalized(ws).take(i + 1));
        i += 1;
    }
    assert(normalized(ws).take(i as int) =~= normalized(ws));
    out
}

impl<'a> Clone for Crossword<'a> {
    fn clone(&self) -> (r: Self)
        ensures
            r@ == self@,
    {
        proof {
            use_type_invariant(self);
        }
        Crossword { words: copy_words(&self.words) }
    }
}

impl<'a> Default for Crossword<'a> {
    fn default() -> (r: Self)
        ensures
            r@ == Seq::<WordView>::empty(),
    {
        let words: Vec<Word<'a>> = Vec::new();
        assert(views(words@) =~= Seq::<WordView>::empty());
        Crossword { words }
    }
}

impl<'a> Crossword<'a> {
    /// What holds of every crossword: its words are in order, have distinct texts, fit, and
    /// are normalized. Whoever holds a crossword learns this of it by `use_type_invariant`.
    #[verifier::type_invariant]
    pub open spec fn inv(self) -> bool {
        well_formed(self@)
    }

    /// A crossword of the given words, normalized once. Of several words with one text the
    /// first is kept, and the words that are kept must fit. Nothing is checked of how the words
    /// lie to each other.
    pub fn new(words: &[Word<'a>]) -> (r: Crossword<'a>)
        requires
            fits(sorted_of(gathered(views(words@)))),
        ensures
            r@ == normalized(sorted_of(gathered(views(words@)))),
            well_formed(r@),
    {
        let v = gather(words);
        proof {
            lemma_normalized_well_formed(views(v@));
        }
        let normal = normalize_words(&v);
        Crossword { words: normal }
    }

    /// Checks whether a crossword can be made of the given words on this machine: whether
    /// the words that are kept, moved so that their smallest column and row are 0, all end
    /// within the range of a machine integer.
    pub fn words_fit(words: &[Word<'a>]) -> (r: bool)
        ensures
            r == fits(sorted_of(gathered(views(words@)))),
    {
        let v = gather(words);
        fit(&v)
    }

    /// Moves the words so that the smallest column and the smallest row among their positions
    /// are 0.
    pub fn normalize(&mut self)
        ensures
            final(self)@ == normalized(old(self)@),
            well_formed(final(self)@),
    {
        proof {
            use_type_invariant(&*self);
            lemma_well_formed_normal(self@);
            lemma_normalized_well_formed(self@);
        }
        let normal = normalize_words(&self.words);
        self.words = normal;
    }

    /// Checks whether the crossword with one more word can be held on this machine: whether
    /// its words and the new one, moved so that their smallest column and row are 0, all end
    /// within the range of a machine integer.
    pub fn can_hold(&self, word: &Word<'a>) -> (r: bool)
        ensures
            r == fits(self@.push(word@)),
    {
        let mut v = copy_words(&self.words);
        v.push(*word);
        assert(views(v@) =~= self@.push(word@));
        fit(&v)
    }

    /// Adds the word, unless a word with the same text is there already, and normalizes.
    /// Nothing is checked of how the word lies to the others.
    pub fn add_word(&mut self, word: &Word<'a>)
        requires
            !has_text(old(self)@, word@.text) ==> fits(old(self)@.push(word@)),
        ensures
            final(self)@ == added(old(self)@, word@),
            well_formed(final(self)@),
    {
        proof {
            use_type_invariant(&*self);
        }
        let ghost before = self@;
        let found = position_of(&self.words, word.value);
        if found.is_some() {
            assert(before[found->0 as int].text == word@.text);
            return;
        }
        let mut v = copy_words(&self.words);
        insert_word(&mut v, *word);
        proof {
            let after = views(v@);
            let all = before.push(word@);
            assert forall|w: WordView| before.to_set().insert(word@).contains(w)
                <==> after.contains(w) by {
            }
            lemma_lists_is_sorted_of(after, before.to_set().insert(word@));
            assert forall|i: int| 0 <= i < after.len() implies all.contains(#[trigger] after[i])
                by {
                assert(after.contains(after[i]));
                if after[i] == word@ {
                    assert(all[before.len() as int] == word@);
                } else {
                    let q = choose|q: int| 0 <= q < before.len() && before[q] == after[i];
                    assert(all[q] == after[i]);
                }
            }
            lemma_fits_among(after, all);
            assert forall|i: int, j: int|
                0 <= i < after.len() && 0 <= j < after.len() && i != j implies (
            #[trigger] after[i]).text != (#[trigger] after[j]).text by {
                assert(after.contains(after[i]));
                assert(after.contains(after[j]));
                if after[i] == after[j] {
                    lemma_increasing_distinct(after, i, j);
                }
                if after[i] != word@ && after[j] != word@ {
                    let a = choose|a: int| 0 <= a < before.len() && before[a] == after[i];
                    let b = choose|b: int| 0 <= b < before.len() && before[b] == after[j];
                    assert(a != b);
                } else if after[i] == word@ {
                    let b = choose|b: int| 0 <= b < before.len() && before[b] == after[j];
                    assert(before[b].text != word@.text);
                } else {
                    let a = choose|a: int| 0 <= a < before.len() && before[a] == after[i];
                    assert(before[a].text != word@.text);
                }
            }
            lemma_normalized_well_formed(after);
        }
        let normal = normalize_words(&v);
        self.words = normal;
    }

    /// Removes the word with this text, if there is one, and normalizes.
    pub fn remove_word(&mut self, word: &str)
        ensures
            final(self)@ == removed(old(self)@, word@),
            well_formed(final(self)@),
    {
        proof {
            use_type_invariant(&*self);
        }
        let ghost before = self@;
        match position_of(&self.words, word) {
            None => {},
            Some(i) => {
                let mut v = copy_words(&self.words);
                v.remove(i);
                proof {
                    let after = views(v@);
                    assert(before[i as int].text == word@);
                    assert(has_text(before, word@));
                    let t = text_index(before, word@);
                    assert(t == i);
                    assert(after =~= before.remove(i as int));
                    assert forall|a: int, b: int| 0 <= a < b < after.len() implies word_lt(
                        #[trigger] after[a],
                        #[trigger] after[b],
                    ) by {
                        let a0 = if a < i { a } else { a + 1 };
                        let b0 = if b < i { b } else { b + 1 };
                        assert(word_lt(before[a0], before[b0]));
                    }
                    assert forall|a: int, b: int|
                        0 <= a < after.len() && 0 <= b < after.len() && a != b implies (
                    #[trigger] after[a]).text != (#[trigger] after[b]).text by {
                        let a0 = if a < i { a } else { a + 1 };
                        let b0 = if b < i { b } else { b + 1 };
                        assert(before[a0].text != before[b0].text);
                    }
                    lemma_well_formed_normal(before);
                    assert forall|a: int| 0 <= a < after.len() implies before.contains(
                        #[trigger] after[a],
                    ) by {
                        let a0 = if a < i { a } else { a + 1 };
                        assert(before[a0] == after[a]);
                    }
                    lemma_fits_among(after, before);
                    lemma_normalized_well_formed(after);
                }
                let normal = normalize_words(&v);
                self.words = normal;
            },
        }
    }

    /// The word with this text, if there is one.
    pub fn find_word(&self, word: &str) -> (r: Option<&Word<'a>>)
        ensures
            match r {
                Some(w) => self@.contains(w@) && w@.text == word@,
                None => !has_text(self@, word@),
            },
    {
        match position_of(&self.words, word) {
            None => None,
            Some(i) => {
                assert(self@[i as int] == self.words@[i as int]@);
                Some(&self.words[i])
            },
        }
    }
}

impl CrosswordSizeConstraint {
    /// Whether a crossword with these words meets the constraint.
    pub open spec fn admits(self, ws: Seq<WordView>) -> bool {
        match self {
            CrosswordSizeConstraint::MaxLength(l) => reach_x(ws) <= l,
            CrosswordSizeConstraint::MaxHeight(h) => reach_y(ws) <= h,
            CrosswordSizeConstraint::MaxArea(a) => reach_x(ws) * reach_y(ws) <= a,
            CrosswordSizeConstraint::Unlimited => true,
        }
    }

    /// Checks whether the crossword meets the constraint.
    pub fn is_crossword_valid(&self, cw: &Crossword) -> (r: bool)
        ensures
            r == self.admits(cw@),
    {
        let size = cw.get_size();
        match *self {
            CrosswordSizeConstraint::MaxLength(l) => size.0 <= l,
            CrosswordSizeConstraint::MaxHeight(h) => size.1 <= h,
            CrosswordSizeConstraint::MaxArea(a) => {
                assert(0 <= size.0 * size.1 <= usize::MAX * usize::MAX) by (nonlinear_arith)
                    requires
                        0 <= size.0 <= usize::MAX,
                        0 <= size.1 <= usize::MAX,
                ;
                size.0 as u128 * size.1 as u128 <= a as u128
            },
            CrosswordSizeConstraint::Unlimited => true,
        }
    }
}

impl Default for CrosswordSizeConstraint {
    fn default() -> (r: Self)
        ensures
            r == CrosswordSizeConstraint::Unlimited,
    {
        CrosswordSizeConstraint::Unlimited
    }
}

impl CrosswordSettings {
    /// Whether a crossword with these words meets every constraint.
    pub open spec fn admits(self, ws: Seq<WordView>) -> bool {
        forall|i: int| 0 <= i < self.size_constraints@.len()
            ==> (#[trigger] self.size_constraints@[i]).admits(ws)
    }

    /// Checks whether the crossword meets every constraint.
    pub fn is_crossword_valid(&self, cw: &Crossword) -> (r: bool)
        ensures
            r == self.admits(cw@),
    {
        let mut k: usize = 0;
        while k < self.size_constraints.len()
            invariant
                k <= self.size_constraints@.len(),
                forall|i: int| 0 <= i < k ==> (#[trigger] self.size_constraints@[i]).admits(cw@),
            decreases self.size_constraints@.len() - k,
        {
            if !self.size_constraints[k].is_crossword_valid(cw) {
                return false;
            }
            k += 1;
        }
        true
    }
}

impl Default for CrosswordSettings {
    fn default() -> (r: Self)
        ensures
            r.size_constraints@.len() == 0,
    {
        CrosswordSettings { size_constraints: Vec::new() }
    }
}

impl<'a> Crossword<'a> {
    /// Checks whether another crossword is found inside this one, moved by some vector.
    pub fn contains_crossword(&self, other: &Crossword) -> (r: bool)
        ensures
            r == contains(self@, other@),
    {
        proof {
            use_type_invariant(self);
            use_type_invariant(other);
        }
        let ghost outer = self@;
        let ghost inner = other@;
        let mut offset: Option<(isize, isize)> = None;
        let mut k: usize = 0;
        while k < other.words.len()
            invariant
                k <= other.words@.len(),
                outer == views(self.words@),
                inner == views(other.words@),
                well_formed(outer),
                well_formed(inner),
                k == 0 ==> offset is None,
                k > 0 ==> offset is Some,
                offset matches Some(d) ==> forall|q: int| 0 <= q < k
                    ==> outer.contains((#[trigger] inner[q]).shifted(d.0 as int, d.1 as int)),
            decreases other.words@.len() - k,
        {
            let other_word = other.words[k];
            assert(inner[k as int] == other_word@);
            match position_of(&self.words, other_word.value) {
                None => {
                    proof {
                        assert forall|dx: int, dy: int| !contains_at(outer, inner, dx, dy) by {
                            if contains_at(outer, inner, dx, dy) {
                                let moved = inner[k as int].shifted(dx, dy);
                                assert(outer.contains(moved));
                                let m = choose|m: int| 0 <= m < outer.len() && outer[m] == moved;
                                assert(outer[m].text == other_word@.text);
                            }
                        }
                    }
                    return false;
                },
                Some(m) => {
                    let cur_word = self.words[m];
                    assert(outer[m as int] == cur_word@);
                    assert(outer.contains(cur_word@));
                    if !cur_word.direction.same_as(&other_word.direction) {
                        proof {
                            assert forall|dx: int, dy: int| !contains_at(outer, inner, dx, dy) by {
                                if contains_at(outer, inner, dx, dy) {
                                    let moved = inner[k as int].shifted(dx, dy);
                                    assert(outer.contains(moved));
                                    lemma_same_text_same_word(outer, moved, cur_word@);
                                }
                            }
                        }
                        return false;
                    }
                    let d = (
                        cur_word.position.x - other_word.position.x,
                        cur_word.position.y - other_word.position.y,
                    );
                    assert(cur_word@ == other_word@.shifted(d.0 as int, d.1 as int));
                    match offset {
                        None => {
                            offset = Some(d);
                        },
                        Some(o) => {
                            if o.0 != d.0 || o.1 != d.1 {
                                proof {
                                    assert forall|dx: int, dy: int| !contains_at(outer, inner, dx,
                                        dy) by {
                                        if contains_at(outer, inner, dx, dy) {
                                            let first = inner[0].shifted(dx, dy);
                                            let known = inner[0].shifted(o.0 as int, o.1 as int);
                                            assert(outer.contains(first));
                                            assert(outer.contains(known));
                                            lemma_same_text_same_word(outer, first, known);
                                            let moved = inner[k as int].shifted(dx, dy);
                                            assert(outer.contains(moved));
                                            lemma_same_text_same_word(outer, moved, cur_word@);
                                        }
                                    }
                                }
                                return false;
                            }
                        },
                    }
                },
            }
            k += 1;
        }
        proof {
            match offset {
                None => {
                    assert(contains_at(outer, inner, 0, 0));
                },
                Some(d) => {
                    assert(contains_at(outer, inner, d.0 as int, d.1 as int));
                },
            }
        }
        true
    }

    /// Whether two crosswords hold the same words.
    pub fn equals(&self, other: &Crossword) -> (r: bool)
        ensures
            r == (self@ == other@),
    {
        assert(self@.len() == self.words@.len() && other@.len() == other.words@.len());
        if self.words.len() != other.words.len() {
            return false;
        }
        let mut k: usize = 0;
        while k < self.words.len()
            invariant
                k <= self.words@.len(),
                self.words@.len() == other.words@.len(),
                self@.len() == self.words@.len() && other@.len() == other.words@.len(),
                forall|i: int| 0 <= i < k ==> self@[i] == other@[i],
            decreases self.words@.len() - k,
        {
            assert(self@[k as int] == self.words@[k as int]@);
            assert(other@[k as int] == other.words@[k as int]@);
            if !word_same(&self.words[k], &other.words[k]) {
                return false;
            }
            k += 1;
        }
        assert(self@ =~= other@);
        true
    }

    /// The words, in increasing order.
    pub fn words(&self) -> (r: Vec<Word<'a>>)
        ensures
            views(r@) == self@,
    {
        copy_words(&self.words)
    }

    /// Checks whether a word is compatible with every word of the crossword.
    pub fn can_word_be_added(
        &self,
        word: &Word<'a>,
        word_compatibility_settings: &WordCompatibilitySettings,
    ) -> (r: bool)
        ensures
            r == can_add(self@, word@, *word_compatibility_settings),
    {
        let mut k: usize = 0;
        while k < self.words.len()
            invariant
                k <= self.words@.len(),
                forall|i: int| 0 <= i < k
                    ==> word_compatibility_settings.compatible(#[trigger] self@[i], word@),
            decreases self.words@.len() - k,
        {
            assert(self@[k as int] == self.words@[k as int]@);
            if !word_compatibility_settings.are_words_compatible(&self.words[k], word) {
                return false;
            }
            k += 1;
        }
        true
    }

    /// Adds to `out` the candidates that are compatible with every word of the crossword.
    fn keep_addable(
        &self,
        candidates: &Vec<Word<'a>>,
        settings: &WordCompatibilitySettings,
        out: &mut Vec<Word<'a>>,
    )
        requires
            increasing(views(old(out)@)),
        ensures
            increasing(views(final(out)@)),
            forall|x: WordView|
                #![trigger views(final(out)@).contains(x)]
                views(final(out)@).contains(x) <==> (views(old(out)@).contains(x)
                    || (views(candidates@).contains(x) && can_add(self@, x, *settings))),
    {
        let ghost start = views(out@);
        let ghost cands = views(candidates@);
        let mut t: usize = 0;
        while t < candidates.len()
            invariant
                t <= candidates@.len(),
                cands == views(candidates@),
                increasing(views(out@)),
                forall|x: WordView|
                    #![trigger views(out@).contains(x)]
                    views(out@).contains(x) <==> (start.contains(x) || (exists|q: int| 0 <= q < t
                        && #[trigger] cands[q] == x && can_add(self@, x, *settings))),
            decreases candidates@.len() - t,
        {
            let candidate = candidates[t];
            let ghost before = views(out@);
            assert(cands[t as int] == candidate@);
            if self.can_word_be_added(&candidate, settings) {
                insert_word(out, candidate);
            }
            proof {
                let after = views(out@);
                assert forall|x: WordView|
                    #![trigger after.contains(x)]
                    after.contains(x) <==> (start.contains(x) || (exists|q: int| 0 <= q < t + 1
                        && #[trigger] cands[q] == x && can_add(self@, x, *settings))) by {
                    if after.contains(x) && !start.contains(x) {
                        if before.contains(x) {
                            let q = choose|q: int| 0 <= q < t && #[trigger] cands[q] == x
                                && can_add(self@, x, *settings);
                            assert(0 <= q < t + 1);
                        } else {
                            assert(cands[t as int] == x);
                        }
                    }
                    if exists|q: int| 0 <= q < t + 1 && #[trigger] cands[q] == x && can_add(self@,
                        x, *settings) {
                        let q = choose|q: int| 0 <= q < t + 1 && #[trigger] cands[q] == x
                            && can_add(self@, x, *settings);
                        if q < t {
                            assert(before.contains(x));
                        }
                    }
                }
            }
            t += 1;
        }
        proof {
            let after = views(out@);
            assert forall|x: WordView|
                #![trigger after.contains(x)]
                after.contains(x) <==> (start.contains(x) || (cands.contains(x) && can_add(self@,
                    x, *settings))) by {
                if cands.contains(x) && can_add(self@, x, *settings) {
                    let q = choose|q: int| 0 <= q < cands.len() && cands[q] == x;
                    assert(cands[q] == x);
                }
                if after.contains(x) && !start.contains(x) {
                    let q = choose|q: int| 0 <= q < t && #[trigger] cands[q] == x && can_add(self@,
                        x, *settings);
                    assert(cands.contains(x));
                }
            }
        }
    }

    /// Every way to add a word with this text: for an empty crossword the placement at the
    /// origin, horizontal; else every placement that crosses a word of the crossword at a
    /// shared letter and is compatible with all of them, in increasing order.
    pub fn calculate_possible_ways_to_add_word(
        &self,
        word: &'a str,
        word_compatibility_settings: &WordCompatibilitySettings,
    ) -> (r: Vec<Word<'a>>)
        requires
            word@.len() <= isize::MAX,
        ensures
            views(r@) == placements(self@, word@, *word_compatibility_settings),
            self@.len() > 0 ==> lists(
                views(r@),
                addable(self@, word@, *word_compatibility_settings),
            ),
            forall|j: int|
                0 <= j < r@.len() ==> tries(self@, #[trigger] views(r@)[j]) && views(r@)[j].text
                    == word@,
    {
        proof {
            use_type_invariant(self);
        }
        let ghost ws = self@;
        let ghost text = word@;
        let mut out: Vec<Word<'a>> = Vec::new();
        if self.words.len() == 0 {
            let first = Word { position: WordPosition { x: 0, y: 0 },
                direction: WordDirection::Right, value: word };
            out.push(first);
            assert(views(out@) =~= seq![seed(text)]);
            return out;
        }
        let mut k: usize = 0;
        while k < self.words.len()
            invariant
                k <= self.words@.len(),
                ws == views(self.words@),
                ws == self@,
                text == word@,
                text.len() <= isize::MAX,
                well_formed(ws),
                increasing(views(out@)),
                forall|x: WordView|
                    #![trigger views(out@).contains(x)]
                    views(out@).contains(x) <==> ((exists|q: int| 0 <= q < k
                        && (#[trigger] ws[q]).crossings(text).contains(x)) && can_add(ws, x,
                        *word_compatibility_settings)),
            decreases self.words@.len() - k,
        {
            let cur_word = self.words[k];
            let ghost before = views(out@);
            proof {
                assert(ws[k as int] == cur_word@);
                assert forall|c: WordView| cur_word@.crossings(text).contains(c)
                    implies c.representable() by {
                    let (i, j) = choose|i: int, j: int| #[trigger] cur_word@.crosses_at(text, i, j)
                        && c == cur_word@.crossing(text, i, j);
                    assert(0 <= ws[k as int].x && far_x(ws[k as int]) <= isize::MAX);
                    assert(0 <= ws[k as int].y && far_y(ws[k as int]) <= isize::MAX);
                }
            }
            let candidates = cur_word.calculate_possible_ways_to_add_word(word);
            self.keep_addable(&candidates, word_compatibility_settings, &mut out);
            proof {
                let after = views(out@);
                let cands = views(candidates@);
                assert forall|x: WordView|
                    #![trigger after.contains(x)]
                    after.contains(x) <==> ((exists|q: int| 0 <= q < k + 1
                        && (#[trigger] ws[q]).crossings(text).contains(x)) && can_add(ws, x,
                        *word_compatibility_settings)) by {
                    if after.contains(x) {
                        if before.contains(x) {
                            let q = choose|q: int| 0 <= q < k
                                && (#[trigger] ws[q]).crossings(text).contains(x);
                            assert(0 <= q < k + 1);
                        } else {
                            assert(cands.contains(x));
                            assert(ws[k as int].crossings(text).contains(x));
                        }
                    }
                    if (exists|q: int| 0 <= q < k + 1
                        && (#[trigger] ws[q]).crossings(text).contains(x)) && can_add(ws, x,
                        *word_compatibility_settings) {
                        let q = choose|q: int| 0 <= q < k + 1
                            && (#[trigger] ws[q]).crossings(text).contains(x);
                        if q < k {
                            assert(before.contains(x));
                        } else {
                            assert(cands.contains(x));
                        }
                    }
                }
            }
            k += 1;
        }
        proof {
            let got = views(out@);
            let goal = addable(ws, text, *word_compatibility_settings);
            assert forall|w: WordView| goal.contains(w) <==> got.contains(w) by {
                if goal.contains(w) {
                    let q = choose|q: int| 0 <= q < ws.len()
                        && (#[trigger] ws[q]).crossings(text).contains(w);
                    assert(0 <= q < k);
                }
                if got.contains(w) {
                    let q = choose|q: int| 0 <= q < k
                        && (#[trigger] ws[q]).crossings(text).contains(w);
                    assert(crossing_any(ws, text).contains(w));
                }
            }
            lemma_lists_is_sorted_of(got, goal);
            assert forall|j: int| 0 <= j < got.len() implies tries(ws, #[trigger] got[j])
                && got[j].text
                == text by {
                assert(got.contains(got[j]));
                let q = choose|q: int| 0 <= q < k
                    && (#[trigger] ws[q]).crossings(text).contains(got[j]);
                assert(got[j].text == text);
                assert(crossing_any(ws, text).contains(got[j]));
            }
        }
        out
    }

    /// The size of the smallest grid that holds the crossword: columns, then rows.
    pub fn get_size(&self) -> (r: (usize, usize))
        ensures
            r.0 == reach_x(self@),
            r.1 == reach_y(self@),
    {
        proof {
            use_type_invariant(self);
        }
        let ghost ws = self@;
        let mut max_x: isize = 0;
        let mut max_y: isize = 0;
        let mut k: usize = 0;
        while k < self.words.len()
            invariant
                k <= self.words@.len(),
                ws == views(self.words@),
                well_formed(ws),
                0 <= max_x,
                0 <= max_y,
                max_x == reach_x(ws.take(k as int)),
                max_y == reach_y(ws.take(k as int)),
            decreases self.words@.len() - k,
        {
            let word = self.words[k];
            proof {
                assert(ws.take(k + 1).drop_last() =~= ws.take(k as int));
                assert(ws.take(k + 1).last() == ws[k as int]);
                assert(ws[k as int] == word@);
                assert(0 <= ws[k as int].x && far_x(ws[k as int]) <= isize::MAX);
                assert(0 <= ws[k as int].y && far_y(ws[k as int]) <= isize::MAX);
            }
            let far = far_corner(&word);
            let end_x = far.0;
            let end_y = far.1;
            if end_x > max_x as i128 {
                max_x = end_x as isize;
            }
            if end_y > max_y as i128 {
                max_y = end_y as isize;
            }
            k += 1;
        }
        assert(ws.take(k as int) =~= ws);
        (max_x as usize, max_y as usize)
    }
}

impl<'a> Crossword<'a> {
    /// The character on a cell of the grid.
    fn letter_at(&self, x: usize, y: usize) -> (r: char)
        ensures
            r == cell(self@, x as int, y as int),
    {
        proof {
            use_type_invariant(self);
        }
        let ghost ws = self@;
        let mut k: usize = self.words.len();
        assert(ws.take(k as int) =~= ws);
        while k > 0
            invariant
                k <= self.words@.len(),
                ws == views(self.words@),
                well_formed(ws),
                cell(ws, x as int, y as int) == cell(ws.take(k as int), x as int, y as int),
            decreases k,
        {
            let word = self.words[k - 1];
            proof {
                assert(ws.take(k as int).drop_last() =~= ws.take(k - 1));
                assert(ws.take(k as int).last() == ws[k - 1]);
                assert(ws[k - 1] == word@);
                assert(0 <= ws[k - 1].x && 0 <= ws[k - 1].y);
            }
            let length = word.value.unicode_len();
            let word_x = word.position.x as usize;
            let word_y = word.position.y as usize;
            match word.direction {
                WordDirection::Right => {
                    if y == word_y && word_x <= x && x - word_x < length {
                        return word.value.get_char(x - word_x);
                    }
                },
                WordDirection::Down => {
                    if x == word_x && word_y <= y && y - word_y < length {
                        return word.value.get_char(y - word_y);
                    }
                },
            }
            k -= 1;
        }
        assert(ws.take(0).len() == 0);
        ' '
    }

    /// The grid as rows of characters, a space on every cell that no word covers.
    pub fn generate_char_table(&self) -> (r: Vec<Vec<char>>)
        ensures
            r@.len() == reach_y(self@),
            forall|y: int| 0 <= y < r@.len() ==> (#[trigger] r@[y])@.len() == reach_x(self@),
            forall|x: int, y: int|
                0 <= y < reach_y(self@) && 0 <= x < reach_x(self@) ==> #[trigger] r@[y]@[x]
                    == cell(self@, x, y),
    {
        let size = self.get_size();
        let mut table: Vec<Vec<char>> = Vec::new();
        let mut y: usize = 0;
        while y < size.1
            invariant
                y <= size.1,
                size.0 == reach_x(self@),
                size.1 == reach_y(self@),
                table@.len() == y,
                forall|q: int| 0 <= q < y ==> (#[trigger] table@[q])@.len() == size.0,
                forall|p: int, q: int| 0 <= q < y && 0 <= p < size.0 ==> #[trigger] table@[q]@[p]
                    == cell(self@, p, q),
            decreases size.1 - y,
        {
            let mut row: Vec<char> = Vec::new();
            let mut x: usize = 0;
            while x < size.0
                invariant
                    x <= size.0,
                    row@.len() == x,
                    forall|p: int| 0 <= p < x ==> #[trigger] row@[p] == cell(self@, p, y as int),
                decreases size.0 - x,
            {
                let c = self.letter_at(x, y);
                row.push(c);
                x += 1;
            }
            table.push(row);
            y += 1;
        }
        table
    }

    /// Appends a frame line for a grid of the given width.
    fn push_frame(out: &mut Vec<char>, width: usize)
        requires
            width <= isize::MAX,
        ensures
            final(out)@ == old(out)@ + frame(width as int),
    {
        let ghost start = out@;
        let count: usize = 2 * width + 1;
        let mut i: usize = 0;
        while i < count
            invariant
                i <= count,
                out@ == start + Seq::new(i as nat, |j: int| '-'),
            decreases count - i,
        {
            out.push('-');
            assert(out@ =~= start + Seq::new((i + 1) as nat, |j: int| '-'));
            i += 1;
        }
        out.push('\n');
        assert(out@ =~= start + frame(width as int));
    }

    /// A printable form of the crossword: a frame line, each row between bars with one space
    /// between neighbouring cells, and a frame line, each ended by a line end.
    pub fn generate_string(&self) -> (r: String)
        ensures
            r@ == rendered(self@),
    {
        proof {
            use_type_invariant(self);
            lemma_reach_x(self@);
        }
        let ghost ws = self@;
        let size = self.get_size();
        let mut out: Vec<char> = Vec::new();
        Self::push_frame(&mut out, size.0);
        assert(out@ =~= frame(reach_x(ws)));
        let mut y: usize = 0;
        while y < size.1
            invariant
                y <= size.1,
                ws == self@,
                size.0 == reach_x(ws),
                size.1 == reach_y(ws),
                out@ == frame(reach_x(ws)) + lines(ws, y as int),
            decreases size.1 - y,
        {
            let ghost start = out@;
            out.push('|');
            let mut x: usize = 0;
            while x < size.0
                invariant
                    x <= size.0,
                    ws == self@,
                    out@ == start.push('|') + spaced(ws, y as int, x as int),
                decreases size.0 - x,
            {
                if x > 0 {
                    out.push(' ');
                }
                let c = self.letter_at(x, y);
                out.push(c);
                assert(out@ =~= start.push('|') + spaced(ws, y as int, x + 1));
                x += 1;
            }
            out.push('|');
            out.push('\n');
            assert(out@ =~= start + line(ws, y as int));
            assert(out@ =~= frame(reach_x(ws)) + lines(ws, y + 1));
            y += 1;
        }
        Self::push_frame(&mut out, size.0);
        assert(out@ =~= rendered(ws));
        string_of(&out)
    }
}

} // verus!
