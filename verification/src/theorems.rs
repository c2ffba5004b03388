//! What the search finds: exactly the crosswords that hold every word of the request, meet the
//! constraints on their size, and whose words are pairwise compatible and hang together by
//! crossings. This holds whether or not the search leaves out the crosswords that contain an
//! explored one, so that leaving them out changes nothing but the steps taken.

use vstd::prelude::*;
use crate::arrangement::{
    bridged, grown, leads, lemma_complete_is_node, lemma_contained_admitted,
        lemma_contains_transitive,
    lemma_grown_added, lemma_next_way, lemma_placements_listed, placed_by_search, splits,
};
use crate::crossword::{
    added, contains, contains_at, fits, has_text, lemma_added, lemma_contains_reflexive,
        placements, reach_x,
    reach_y, removed, seed, tries,
};
use crate::generator::CrosswordGeneratorSettings;
use crate::order::{
    lemma_insert_at, lemma_lists_is_sorted_of, lemma_place_exists, lemma_word_lt_total, lists,
    sorted_of, word_lt,
};
use crate::search::{
    canonical, covered, enter, expand, extends, lemma_child_ok, lemma_room_insert,
        lemma_room_positive,
    node_ok, pruned, recorded, results, results_plain, room, seeds_of, SearchState,
};
use crate::text::lemma_text_lt_irreflexive;
use crate::word::WordView;

verus! {

/// A crossword that answers a request: it holds the words of the request and no others, meets
/// the constraints on its size, and is of the kind that the search arrives at.
pub open spec fn goal(
    settings: CrosswordGeneratorSettings,
    words: Set<Seq<char>>,
    full: Seq<WordView>,
) -> bool {
    &&& grown(settings.word_compatibility_settings, full)
    &&& settings.crossword_settings.admits(full)
    &&& forall|t: Seq<char>| has_text(full, t) <==> words.contains(t)
}

/// The search for the words of a request can be at this crossword with these words still to
/// be placed.
pub open spec fn at_node(
    settings: CrosswordGeneratorSettings,
    words: Set<Seq<char>>,
    node: Seq<WordView>,
    rest: Seq<Seq<char>>,
) -> bool {
    &&& node_ok(node, rest)
    &&& grown(settings.word_compatibility_settings, node)
    &&& forall|t: Seq<char>| words.contains(t) <==> (has_text(node, t) || rest.contains(t))
}

/// The words of a request can be searched on this machine: they can be listed in increasing
/// order, and their letters with one cell for each word can be counted in a machine integer.
pub open spec fn searchable(words: Set<Seq<char>>) -> bool {
    &&& node_ok(Seq::<WordView>::empty(), canonical(words))
    &&& forall|t: Seq<char>| words.contains(t) <==> canonical(words).contains(t)
}

/// Every crossword found so far answers the request.
pub open spec fn all_goals(
    settings: CrosswordGeneratorSettings,
    words: Set<Seq<char>>,
    found: Seq<Seq<WordView>>,
) -> bool {
    forall|k: int| 0 <= k < found.len() ==> goal(settings, words, #[trigger] found[k])
}

/// Every answer to the request that contains an explored crossword is found already.
pub open spec fn bases_done(
    settings: CrosswordGeneratorSettings,
    words: Set<Seq<char>>,
    st: SearchState,
) -> bool {
    st.pruning ==> forall|b: int, full: Seq<WordView>|
        0 <= b < st.bases.len() && goal(settings, words, full) && #[trigger] contains(full,
            st.bases[b])
            ==> st.found.contains(full)
}

/// Every answer to the request that contains the crossword is found, or a way that the
/// expansion has not tried yet leads to a crossword that the answer contains.
pub open spec fn pending(
    settings: CrosswordGeneratorSettings,
    words: Set<Seq<char>>,
    st: SearchState,
    rest: Seq<Seq<char>>,
    i: int,
    j: int,
) -> bool {
    forall|full: Seq<WordView>|
        goal(settings, words, full) && #[trigger] contains(full, st.crossword)
            ==> st.found.contains(full)
            || exists|p: int, q: int|
            #[trigger] leads(settings.word_compatibility_settings, st.crossword, rest, p, q, full)
                && (p > i
                || (p == i && q >= j))
}

/// Every answer to the request that contains the crossword is found.
pub open spec fn all_found(
    settings: CrosswordGeneratorSettings,
    words: Set<Seq<char>>,
    node: Seq<WordView>,
    st: SearchState,
) -> bool {
    forall|full: Seq<WordView>|
        goal(settings, words, full) && #[trigger] contains(full, node) ==> st.found.contains(full)
}

/// Each of the ways to place a word is a placement that the search may try, of that word.
pub proof fn lemma_way_facts(
    settings: CrosswordGeneratorSettings,
    node: Seq<WordView>,
    text: Seq<char>,
    j: int,
)
    requires
        0 <= j < placements(node, text, settings.word_compatibility_settings).len(),
    ensures
        ({
            let way = placements(node, text, settings.word_compatibility_settings)[j];
            way.text == text && tries(node, way)
                && placed_by_search(settings.word_compatibility_settings, node, way)
        }),
{
    let ways = placements(node, text, settings.word_compatibility_settings);
    if node.len() > 0 {
        lemma_placements_listed(node, text, settings.word_compatibility_settings);
        assert(ways.contains(ways[j]));
        let way = ways[j];
        let k = choose|k: int| 0 <= k < node.len()
            && (#[trigger] node[k]).crossings(text).contains(way);
        assert(way.text == text);
    }
}

/// The words still to be placed after one of them is placed are the others.
pub proof fn lemma_rest_without(rest: Seq<Seq<char>>, i: int, t: Seq<char>)
    requires
        0 <= i < rest.len(),
        forall|a: int, b: int|
            0 <= a < rest.len() && 0 <= b < rest.len() && a != b
                ==> #[trigger] rest[a] != #[trigger] rest[b],
    ensures
        rest.remove(i).contains(t) <==> (rest.contains(t) && t != rest[i]),
{
    let others = rest.remove(i);
    if others.contains(t) {
        let q = choose|q: int| 0 <= q < others.len() && others[q] == t;
        let q0 = if q < i { q } else { q + 1 };
        assert(rest[q0] == t);
    }
    if rest.contains(t) && t != rest[i] {
        let q = choose|q: int| 0 <= q < rest.len() && rest[q] == t;
        let q0 = if q < i { q } else { q - 1 };
        assert(others[q0] == t);
    }
}

/// Placing one of the words still to be placed, in one of the ways to place it, leads to a
/// crossword at which the search can be with the other words; taking the word off gives the
/// first crossword back.
pub proof fn lemma_child_node(
    settings: CrosswordGeneratorSettings,
    words: Set<Seq<char>>,
    node: Seq<WordView>,
    rest: Seq<Seq<char>>,
    i: int,
    j: int,
)
    requires
        at_node(settings, words, node, rest),
        0 <= i < rest.len(),
        0 <= j < placements(node, rest[i], settings.word_compatibility_settings).len(),
    ensures
        ({
            let way = placements(node, rest[i], settings.word_compatibility_settings)[j];
            &&& way.text == rest[i]
            &&& at_node(settings, words, added(node, way), rest.remove(i))
            &&& removed(added(node, way), way.text) == node
        }),
{
    let way = placements(node, rest[i], settings.word_compatibility_settings)[j];
    lemma_way_facts(settings, node, rest[i], j);
    lemma_child_ok(node, rest, i, way);
    lemma_added(node, way);
    lemma_grown_added(settings.word_compatibility_settings, node, way);
    assert forall|t: Seq<char>| words.contains(t) <==> (has_text(added(node, way), t)
        || rest.remove(i).contains(t)) by {
        lemma_rest_without(rest, i, t);
        assert(rest.contains(rest[i]));
    }
}

/// A crossword that stays among the explored ones was among them before.
pub proof fn lemma_pruned_among(bases: Seq<Seq<WordView>>, crossword: Seq<WordView>, k: int)
    requires
        0 <= k < pruned(bases, crossword).len(),
    ensures
        bases.contains(pruned(bases, crossword)[k]),
    decreases bases.len(),
{
    if bases.len() > 0 {
        let front = bases.drop_last();
        let kept = pruned(front, crossword);
        if contains(bases.last(), crossword) || k < kept.len() {
            lemma_pruned_among(front, crossword, k);
            let q = choose|q: int| 0 <= q < front.len() && front[q] == kept[k];
            assert(bases[q] == kept[k]);
        } else {
            assert(bases[bases.len() - 1] == pruned(bases, crossword)[k]);
        }
    }
}

/// At a crossword that is left at once, every answer that contains it is found already.
proof fn lemma_blocked_found(
    settings: CrosswordGeneratorSettings,
    words: Set<Seq<char>>,
    st: SearchState,
    rest: Seq<Seq<char>>,
)
    requires
        at_node(settings, words, st.crossword, rest),
        bases_done(settings, words, st),
        st.blocked(settings),
    ensures
        all_found(settings, words, st.crossword, st),
{
    let node = st.crossword;
    assert forall|full: Seq<WordView>|
        goal(settings, words, full) && #[trigger] contains(full, node)
            implies st.found.contains(full) by {
        if !settings.crossword_settings.admits(node) {
            lemma_contained_admitted(settings.crossword_settings, full, node);
        } else {
            let b = choose|b: int| 0 <= b < st.bases.len() && contains(node,
                #[trigger] st.bases[b]);
            lemma_contains_transitive(full, node, st.bases[b]);
        }
    }
}

/// At a crossword on which every word is placed, the crossword is the one answer that
/// contains it.
proof fn lemma_leaf_found(
    settings: CrosswordGeneratorSettings,
    words: Set<Seq<char>>,
    st: SearchState,
    rest: Seq<Seq<char>>,
)
    requires
        at_node(settings, words, st.crossword, rest),
        rest.len() == 0,
        all_goals(settings, words, st.found),
        bases_done(settings, words, st),
        !st.blocked(settings),
    ensures
        all_goals(settings, words, st.emitted().found),
        bases_done(settings, words, st.emitted()),
        all_found(settings, words, st.crossword, st.emitted()),
        extends(st.found, st.emitted().found),
{
    let node = st.crossword;
    let after = st.emitted();
    assert(goal(settings, words, node));
    assert forall|k: int| 0 <= k < after.found.len() implies goal(settings, words,
        #[trigger] after.found[k]) by {
        if k < st.found.len() {
            assert(after.found[k] == st.found[k]);
        }
    }
    assert forall|full: Seq<WordView>| st.found.contains(full) implies after.found.contains(full)
        by {
        let k = choose|k: int| 0 <= k < st.found.len() && st.found[k] == full;
        assert(after.found[k] == full);
    }
    assert forall|full: Seq<WordView>|
        goal(settings, words, full) && #[trigger] contains(full, node)
            implies after.found.contains(full) by {
        lemma_complete_is_node(full, node);
        assert(after.found[st.found.len() as int] == node);
    }
}

/// At a crossword that is expanded, a way to place one of the words leads towards every
/// answer that contains the crossword.
proof fn lemma_pending_start(
    settings: CrosswordGeneratorSettings,
    words: Set<Seq<char>>,
    st: SearchState,
    rest: Seq<Seq<char>>,
)
    requires
        at_node(settings, words, st.crossword, rest),
        rest.len() > 0,
    ensures
        pending(settings, words, st, rest, 0, 0),
{
    let node = st.crossword;
    assert forall|i: int, way: WordView|
        0 <= i < rest.len() && way.text == #[trigger] rest[i] && #[trigger] tries(node, way)
            implies fits(
        node.push(way),
    ) by {
        lemma_child_ok(node, rest, i, way);
    }
    assert forall|full: Seq<WordView>|
        goal(settings, words, full) && #[trigger] contains(full, node)
            implies st.found.contains(full)
        || exists|p: int, q: int|
        #[trigger] leads(settings.word_compatibility_settings, node, rest, p, q, full) && (p > 0
            || (p == 0
            && q >= 0)) by {
        let r = lemma_next_way(settings.word_compatibility_settings, node, rest, full);
        assert(leads(settings.word_compatibility_settings, node, rest, r.0, r.1, full));
    }
}

/// When no way is left for the word in turn, what is pending is pending for the next word.
proof fn lemma_pending_turn(
    settings: CrosswordGeneratorSettings,
    words: Set<Seq<char>>,
    st: SearchState,
    rest: Seq<Seq<char>>,
    i: int,
)
    requires
        0 <= i < rest.len(),
        pending(
            settings,
            words,
            st,
            rest,
            i,
            placements(st.crossword, rest[i], settings.word_compatibility_settings).len() as int,
        ),
    ensures
        pending(settings, words, st.ticked(), rest, i + 1, 0),
        i + 1 == rest.len() ==> all_found(settings, words, st.crossword, st.ticked()),
{
    let node = st.crossword;
    let n = placements(node, rest[i], settings.word_compatibility_settings).len() as int;
    assert forall|full: Seq<WordView>|
        goal(settings, words, full) && #[trigger] contains(full, node)
            implies st.found.contains(full)
        || exists|p: int, q: int|
        #[trigger] leads(settings.word_compatibility_settings, node, rest, p, q, full)
            && (p > i + 1 || (p
            == i + 1 && q >= 0)) by {
        if !st.found.contains(full) {
            let (p, q) = choose|p: int, q: int|
                #[trigger] leads(settings.word_compatibility_settings, node, rest, p, q, full)
                    && (p > i || (p
                    == i && q >= n));
            assert(p > i);
        }
    }
    if i + 1 == rest.len() {
        assert forall|full: Seq<WordView>|
            goal(settings, words, full) && #[trigger] contains(full, node)
                implies st.found.contains(full) by {
            if !st.found.contains(full) {
                let (p, q) = choose|p: int, q: int|
                    #[trigger] leads(settings.word_compatibility_settings, node, rest, p, q, full)
                        && (p > i
                        || (p == i && q >= n));
                assert(p > i);
            }
        }
    }
}

/// After a way is tried and the crossword it led to is explored and recorded, what was
/// pending and is not found is pending for the next way.
proof fn lemma_after_child(
    settings: CrosswordGeneratorSettings,
    words: Set<Seq<char>>,
    st: SearchState,
    rest: Seq<Seq<char>>,
    i: int,
    j: int,
    inner: SearchState,
)
    requires
        at_node(settings, words, st.crossword, rest),
        0 <= i < rest.len(),
        0 <= j < placements(st.crossword, rest[i], settings.word_compatibility_settings).len(),
        pending(settings, words, st, rest, i, j),
        inner.pruning == st.pruning,
        inner.crossword == added(
            st.crossword,
            placements(st.crossword, rest[i], settings.word_compatibility_settings)[j],
        ),
        all_goals(settings, words, inner.found),
        bases_done(settings, words, inner),
        all_found(settings, words, inner.crossword, inner),
        extends(st.found, inner.found),
    ensures
        ({
            let way = placements(st.crossword, rest[i], settings.word_compatibility_settings)[j];
            let back = inner.backtracked(way.text);
            &&& back.crossword == st.crossword
            &&& back.pruning == st.pruning
            &&& back.found == inner.found
            &&& bases_done(settings, words, back)
            &&& pending(settings, words, back, rest, i, j + 1)
        }),
{
    let node = st.crossword;
    let way = placements(node, rest[i], settings.word_compatibility_settings)[j];
    let child = added(node, way);
    let back = inner.backtracked(way.text);
    lemma_child_node(settings, words, node, rest, i, j);
    if back.pruning {
        assert forall|b: int, full: Seq<WordView>|
            0 <= b < back.bases.len() && goal(settings, words, full) && #[trigger] contains(
                full,
                back.bases[b],
            ) implies back.found.contains(full) by {
            let kept = pruned(inner.bases, child);
            if b < kept.len() {
                lemma_pruned_among(inner.bases, child, b);
                let q = choose|q: int| 0 <= q < inner.bases.len() && inner.bases[q] == kept[b];
                assert(contains(full, inner.bases[q]));
            } else {
                assert(back.bases[b] == child);
            }
        }
    }
    assert forall|full: Seq<WordView>|
        goal(settings, words, full) && #[trigger] contains(full, node)
            implies back.found.contains(full)
        || exists|p: int, q: int|
        #[trigger] leads(settings.word_compatibility_settings, node, rest, p, q, full) && (p > i
            || (p == i
            && q >= j + 1)) by {
        if st.found.contains(full) {
            let k = choose|k: int| 0 <= k < st.found.len() && st.found[k] == full;
            assert(inner.found[k] == full);
        } else {
            let (p, q) = choose|p: int, q: int|
                #[trigger] leads(settings.word_compatibility_settings, node, rest, p, q, full)
                    && (p > i || (p
                    == i && q >= j));
            if p == i && q == j {
                assert(contains(full, child));
            }
        }
    }
}

/// The search from a crossword finds answers to the request only, and every answer that
/// contains the crossword; it ends at the crossword it started from.
pub proof fn lemma_enter_exact(
    settings: CrosswordGeneratorSettings,
    words: Set<Seq<char>>,
    st: SearchState,
    rest: Seq<Seq<char>>,
)
    requires
        at_node(settings, words, st.crossword, rest),
        all_goals(settings, words, st.found),
        bases_done(settings, words, st),
    ensures
        ({
            let r = enter(settings, st, rest);
            &&& r.crossword == st.crossword
            &&& r.pruning == st.pruning
            &&& all_goals(settings, words, r.found)
            &&& bases_done(settings, words, r)
            &&& all_found(settings, words, st.crossword, r)
            &&& extends(st.found, r.found)
        }),
    decreases rest.len(), 1nat, 0nat, 0nat,
{
    let t = st.ticked();
    assert(bases_done(settings, words, t));
    if t.blocked(settings) {
        lemma_blocked_found(settings, words, t, rest);
    } else if rest.len() == 0 {
        lemma_leaf_found(settings, words, t, rest);
    } else {
        lemma_pending_start(settings, words, t, rest);
        lemma_expand_exact(settings, words, t, rest, 0, 0);
    }
}

/// The rest of an expansion finds answers to the request only, and every answer that
/// contains the crossword and was not found before; it ends at the crossword it started
/// from.
pub proof fn lemma_expand_exact(
    settings: CrosswordGeneratorSettings,
    words: Set<Seq<char>>,
    st: SearchState,
    rest: Seq<Seq<char>>,
    i: int,
    j: int,
)
    requires
        at_node(settings, words, st.crossword, rest),
        0 <= i < rest.len(),
        0 <= j <= placements(st.crossword, rest[i], settings.word_compatibility_settings).len(),
        all_goals(settings, words, st.found),
        bases_done(settings, words, st),
        pending(settings, words, st, rest, i, j),
    ensures
        ({
            let r = expand(
                settings,
                st,
                rest,
                i,
                placements(st.crossword, rest[i], settings.word_compatibility_settings),
                j,
            );
            &&& r.crossword == st.crossword
            &&& r.pruning == st.pruning
            &&& all_goals(settings, words, r.found)
            &&& bases_done(settings, words, r)
            &&& all_found(settings, words, st.crossword, r)
            &&& extends(st.found, r.found)
        }),
    decreases
            rest.len(),
            0nat,
            rest.len() - i,
            placements(st.crossword, rest[i], settings.word_compatibility_settings).len() - j,
{
    let node = st.crossword;
    let ways = placements(node, rest[i], settings.word_compatibility_settings);
    let t = st.ticked();
    assert(bases_done(settings, words, t));
    assert(pending(settings, words, t, rest, i, j));
    if j < ways.len() {
        let way = ways[j];
        lemma_child_node(settings, words, node, rest, i, j);
        let down = t.with_word(way);
        assert(bases_done(settings, words, down));
        lemma_enter_exact(settings, words, down, rest.remove(i));
        let inner = enter(settings, down, rest.remove(i));
        lemma_after_child(settings, words, t, rest, i, j, inner);
        let back = inner.backtracked(way.text);
        lemma_expand_exact(settings, words, back, rest, i, j + 1);
    } else if i + 1 < rest.len() {
        lemma_pending_turn(settings, words, t, rest, i);
        let turned = t.ticked();
        assert(turned.crossword == node);
        assert(bases_done(settings, words, turned));
        assert(pending(settings, words, turned, rest, i + 1, 0));
        lemma_expand_exact(settings, words, t, rest, i + 1, 0);
    } else {
        lemma_pending_turn(settings, words, st, rest, i);
    }
}

/// The texts of a list, each once, can be listed in increasing order, and need no more room
/// than the list.
pub proof fn lemma_canonical_room(list: Seq<Seq<char>>)
    ensures
        lists(sorted_of(seeds_of(list.to_set())), seeds_of(list.to_set())),
        room(canonical(list.to_set())) <= room(list),
    decreases list.len(),
{
    let all = seeds_of(list.to_set());
    if list.len() == 0 {
        let none = Seq::<WordView>::empty();
        assert(lists(none, all));
        lemma_lists_is_sorted_of(none, all);
        assert(canonical(list.to_set()) =~= Seq::<Seq<char>>::empty());
    } else {
        let front = list.drop_last();
        let last = list.last();
        lemma_canonical_room(front);
        let fewer = seeds_of(front.to_set());
        let q = sorted_of(fewer);
        let w = seed(last);
        assert forall|t: Seq<char>| list.contains(t) <==> (front.contains(t) || t == last) by {
            if list.contains(t) {
                let k = choose|k: int| 0 <= k < list.len() && list[k] == t;
                if k < front.len() {
                    assert(front[k] == t);
                }
            }
            if front.contains(t) {
                let k = choose|k: int| 0 <= k < front.len() && front[k] == t;
                assert(list[k] == t);
            }
            if t == last {
                assert(list[list.len() - 1] == t);
            }
        }
        lemma_room_positive(front);
        if front.contains(last) {
            assert(all =~= fewer);
        } else {
            let k = lemma_place_exists(q, w, 0);
            assert(!q.contains(w)) by {
                if q.contains(w) {
                    assert(fewer.contains(w));
                }
            }
            if k < q.len() {
                lemma_word_lt_total(q[k], w);
                assert(q.contains(q[k]));
            }
            lemma_insert_at(q, w, k);
            let more = q.insert(k, w);
            assert forall|x: WordView| all.contains(x) <==> more.contains(x) by {
                if all.contains(x) {
                    if x.text != last {
                        assert(fewer.contains(x));
                    }
                }
                if more.contains(x) {
                    if x != w {
                        assert(fewer.contains(x));
                    }
                }
            }
            lemma_lists_is_sorted_of(more, all);
            let texts_before = q.map_values(|x: WordView| x.text);
            let texts_after = more.map_values(|x: WordView| x.text);
            assert(texts_after =~= texts_before.insert(k, last));
            lemma_room_insert(texts_before, k, last);
        }
    }
}

/// The words of a list whose letters, with one cell for each word, can be counted in a
/// machine integer can be searched.
pub proof fn lemma_searchable(list: Seq<Seq<char>>)
    requires
        room(list) <= isize::MAX,
    ensures
        searchable(list.to_set()),
{
    let words = list.to_set();
    let sorted = sorted_of(seeds_of(words));
    let texts = canonical(words);
    lemma_canonical_room(list);
    assert(reach_x(Seq::<WordView>::empty()) == 0);
    assert(reach_y(Seq::<WordView>::empty()) == 0);
    assert forall|i: int, j: int| 0 <= i < texts.len() && 0 <= j < texts.len() && i != j
        implies #[trigger] texts[i]
        != #[trigger] texts[j] by {
        let (lo, hi) = if i < j { (i, j) } else { (j, i) };
        assert(word_lt(sorted[lo], sorted[hi]));
        assert(sorted.contains(sorted[lo]) && sorted.contains(sorted[hi]));
        lemma_text_lt_irreflexive(sorted[lo].text);
    }
    assert forall|t: Seq<char>| words.contains(t) <==> texts.contains(t) by {
        if words.contains(t) {
            assert(seeds_of(words).contains(seed(t)));
            assert(sorted.contains(seed(t)));
            let p = choose|p: int| 0 <= p < sorted.len() && sorted[p] == seed(t);
            assert(texts[p] == t);
        }
        if texts.contains(t) {
            let p = choose|p: int| 0 <= p < texts.len() && texts[p] == t;
            assert(sorted.contains(sorted[p]));
        }
    }
}

/// The search finds exactly the answers to the request, whether or not it leaves out the
/// crosswords that contain an explored one.
pub proof fn theorem_found_exactly(
    settings: CrosswordGeneratorSettings,
    words: Set<Seq<char>>,
    pruning: bool,
)
    requires
        searchable(words),
    ensures
        forall|full: Seq<WordView>|
            #![trigger goal(settings, words, full)]
            enter(settings, SearchState { pruning, ..SearchState::start() },
                canonical(words)).found.contains(
                full,
            ) <==> goal(settings, words, full),
{
    let st = SearchState { pruning, ..SearchState::start() };
    let none = Seq::<WordView>::empty();
    let rest = canonical(words);
    assert(grown(settings.word_compatibility_settings, none)) by {
        assert forall|part: Set<Seq<char>>| #[trigger] splits(none, part) implies bridged(
            none,
            part,
        ) by {
        }
    }
    assert(at_node(settings, words, none, rest));
    lemma_enter_exact(settings, words, st, rest);
    let r = enter(settings, st, rest);
    assert forall|full: Seq<WordView>|
        #![trigger goal(settings, words, full)]
        r.found.contains(full) <==> goal(settings, words, full) by {
        if r.found.contains(full) {
            let k = choose|k: int| 0 <= k < r.found.len() && r.found[k] == full;
            assert(goal(settings, words, r.found[k]));
        }
        if goal(settings, words, full) {
            assert(contains_at(full, none, 0, 0));
            assert(contains(full, none));
        }
    }
}

/// Leaving out the crosswords that contain an explored one does not change which crosswords
/// the search finds.
pub proof fn theorem_pruning_changes_nothing(
    settings: CrosswordGeneratorSettings,
    list: Seq<Seq<char>>,
)
    requires
        room(list) <= isize::MAX,
    ensures
        forall|full: Seq<WordView>|
            results(settings, list.to_set()).contains(full) <==> results_plain(settings,
                list.to_set()).contains(
                full,
            ),
{
    let words = list.to_set();
    lemma_searchable(list);
    theorem_found_exactly(settings, words, true);
    theorem_found_exactly(settings, words, false);
    assert(SearchState { pruning: true, ..SearchState::start() } == SearchState::start());
    assert(SearchState { pruning: false, ..SearchState::start() } == SearchState::start_plain());
    assert forall|full: Seq<WordView>|
        results(settings, words).contains(full) <==> results_plain(settings, words).contains(full)
            by {
        assert(results(settings, words).contains(full) <==> goal(settings, words, full));
        assert(results_plain(settings, words).contains(full) <==> goal(settings, words, full));
    }
}

/// The crosswords that the search finds for the words of a list are exactly the answers to
/// the request.
pub proof fn theorem_results_are_the_answers(
    settings: CrosswordGeneratorSettings,
    list: Seq<Seq<char>>,
)
    requires
        room(list) <= isize::MAX,
    ensures
        forall|full: Seq<WordView>|
            #![trigger goal(settings, list.to_set(), full)]
            results(settings, list.to_set()).contains(full) <==> goal(settings, list.to_set(),
                full),
{
    lemma_searchable(list);
    theorem_found_exactly(settings, list.to_set(), true);
    assert(SearchState { pruning: true, ..SearchState::start() } == SearchState::start());
}

/// No crossword is found twice, and every crossword found contains an explored crossword,
/// but for the crossword that the search is at, which may just have been found.
pub open spec fn found_once(st: SearchState) -> bool {
    &&& st.found.no_duplicates()
    &&& forall|k: int|
        0 <= k < st.found.len() ==> covered(st.bases, #[trigger] st.found[k]) || st.found[k]
            == st.crossword
}

/// No crossword is found twice, and every crossword found contains an explored crossword.
pub open spec fn found_and_recorded(st: SearchState) -> bool {
    &&& st.found.no_duplicates()
    &&& forall|k: int| 0 <= k < st.found.len() ==> covered(st.bases, #[trigger] st.found[k])
}

/// A crossword that contains an explored crossword contains one after another crossword is
/// recorded, when it contains that crossword or the explored one stays.
proof fn lemma_covered_recorded(
    bases: Seq<Seq<WordView>>,
    crossword: Seq<WordView>,
    full: Seq<WordView>,
)
    requires
        covered(bases, full) || full == crossword,
    ensures
        covered(recorded(bases, crossword), full),
    decreases bases.len(),
{
    let after = recorded(bases, crossword);
    let kept = pruned(bases, crossword);
    assert(after[kept.len() as int] == crossword);
    if full == crossword {
        lemma_contains_reflexive(crossword);
    } else {
        let b = choose|b: int| 0 <= b < bases.len() && contains(full, #[trigger] bases[b]);
        if contains(bases[b], crossword) {
            lemma_contains_transitive(full, bases[b], crossword);
        } else {
            lemma_pruned_keeps(bases, crossword, b);
            let q = choose|q: int| 0 <= q < kept.len() && kept[q] == bases[b];
            assert(after[q] == bases[b]);
        }
    }
}

/// An explored crossword that does not contain the recorded one stays among the explored.
proof fn lemma_pruned_keeps(bases: Seq<Seq<WordView>>, crossword: Seq<WordView>, b: int)
    requires
        0 <= b < bases.len(),
        !contains(bases[b], crossword),
    ensures
        pruned(bases, crossword).contains(bases[b]),
    decreases bases.len(),
{
    let front = bases.drop_last();
    let kept = pruned(front, crossword);
    if b == bases.len() - 1 {
        assert(pruned(bases, crossword)[kept.len() as int] == bases[b]);
    } else {
        lemma_pruned_keeps(front, crossword, b);
        let q = choose|q: int| 0 <= q < kept.len() && kept[q] == front[b];
        if !contains(bases.last(), crossword) {
            assert(pruned(bases, crossword)[q] == bases[b]);
        }
    }
}

/// A search that leaves out the crosswords that contain an explored one finds no crossword
/// twice.
pub proof fn lemma_enter_once(
    settings: CrosswordGeneratorSettings,
    st: SearchState,
    rest: Seq<Seq<char>>,
)
    requires
        st.pruning,
        found_and_recorded(st),
    ensures
        found_once(enter(settings, st, rest)),
        enter(settings, st, rest).pruning,
    decreases rest.len(), 1nat, 0nat, 0nat,
{
    let t = st.ticked();
    if t.blocked(settings) {
    } else if rest.len() == 0 {
        let after = t.emitted();
        assert forall|a: int, b: int|
            0 <= a < after.found.len() && 0 <= b < after.found.len() && a != b
                implies after.found[a]
            != after.found[b] by {
            if a < t.found.len() && b < t.found.len() {
                assert(t.found[a] != t.found[b]);
            } else if a < t.found.len() {
                assert(covered(t.bases, t.found[a]));
            } else {
                assert(covered(t.bases, t.found[b]));
            }
        }
    } else {
        lemma_expand_once(
            settings,
            t,
            rest,
            0,
            placements(t.crossword, rest[0], settings.word_compatibility_settings),
            0,
        );
    }
}

/// The rest of an expansion that leaves out the crosswords that contain an explored one
/// finds no crossword twice.
pub proof fn lemma_expand_once(
    settings: CrosswordGeneratorSettings,
    st: SearchState,
    rest: Seq<Seq<char>>,
    i: int,
    ways: Seq<WordView>,
    j: int,
)
    requires
        st.pruning,
        found_and_recorded(st),
    ensures
        found_and_recorded(expand(settings, st, rest, i, ways, j)),
        expand(settings, st, rest, i, ways, j).pruning,
    decreases rest.len(), 0nat, rest.len() - i, ways.len() - j,
{
    let t = st.ticked();
    if i < 0 || i >= rest.len() || j < 0 {
    } else if j < ways.len() {
        let down = t.with_word(ways[j]);
        lemma_enter_once(settings, down, rest.remove(i));
        let inner = enter(settings, down, rest.remove(i));
        let back = inner.backtracked(ways[j].text);
        assert forall|k: int| 0 <= k < back.found.len() implies covered(back.bases,
            #[trigger] back.found[k]) by {
            lemma_covered_recorded(inner.bases, inner.crossword, inner.found[k]);
        }
        lemma_expand_once(settings, back, rest, i, ways, j + 1);
    } else if i + 1 < rest.len() {
        lemma_expand_once(
            settings,
            t,
            rest,
            i + 1,
            placements(t.crossword, rest[i + 1], settings.word_compatibility_settings),
            0,
        );
    }
}

/// The search finds no crossword twice.
pub proof fn theorem_results_without_repeats(
    settings: CrosswordGeneratorSettings,
    words: Set<Seq<char>>,
)
    ensures
        results(settings, words).no_duplicates(),
{
    lemma_enter_once(settings, SearchState::start(), canonical(words));
}

} // verus!
