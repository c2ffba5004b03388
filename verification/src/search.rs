//! The search as a mathematical function: a depth-first walk over the ways to place the
//! remaining words one by one, which leaves out every crossword that breaks a constraint on
//! its size or contains a crossword whose completions were explored before.

use vstd::prelude::*;
use crate::crossword::{
    added, contains, fits, has_text, lemma_added, lemma_added_reach, lemma_try_fits, placements,
    reach_x, reach_y, removed, seed, tries, well_formed,
};
use crate::generator::CrosswordGeneratorSettings;
use crate::order::sorted_of;
use crate::word::WordView;

verus! {

/// What the search holds at any moment: the crossword it works on, the crosswords whose
/// completions are explored, the crosswords found so far in the order in which they were
/// found, the number of steps taken, and whether a crossword that contains an explored one is
/// left out.
pub struct SearchState {
    pub pruning: bool,
    pub crossword: Seq<WordView>,
    pub bases: Seq<Seq<WordView>>,
    pub found: Seq<Seq<WordView>>,
    pub steps: nat,
}

/// The place of the search inside one crossword: the words that are still to be placed, which
/// of them is being placed, the ways to place it, and which of these is being tried.
pub struct FrameView {
    pub rest: Seq<Seq<char>>,
    pub index: int,
    pub ways: Seq<WordView>,
    pub step: int,
}

/// The crossword contains one of the explored crosswords.
pub open spec fn covered(bases: Seq<Seq<WordView>>, crossword: Seq<WordView>) -> bool {
    exists|i: int| 0 <= i < bases.len() && contains(crossword, #[trigger] bases[i])
}

/// The explored crosswords without those that contain the given one.
pub open spec fn pruned(bases: Seq<Seq<WordView>>, crossword: Seq<WordView>) -> Seq<Seq<WordView>>
    decreases bases.len(),
{
    if bases.len() == 0 {
        bases
    } else if contains(bases.last(), crossword) {
        pruned(bases.drop_last(), crossword)
    } else {
        pruned(bases.drop_last(), crossword).push(bases.last())
    }
}

/// The explored crosswords after one more is explored: those that contain it leave, and it
/// joins.
pub open spec fn recorded(
    bases: Seq<Seq<WordView>>,
    crossword: Seq<WordView>,
) -> Seq<Seq<WordView>> {
    pruned(bases, crossword).push(crossword)
}

impl SearchState {
    /// The search before its first step: an empty crossword, nothing explored, nothing found.
    pub open spec fn start() -> SearchState {
        SearchState {
            pruning: true,
            crossword: Seq::empty(),
            bases: Seq::empty(),
            found: Seq::empty(),
            steps: 0,
        }
    }

    /// The search before its first step, when no crossword is to be left out for containing an
    /// explored one.
    pub open spec fn start_plain() -> SearchState {
        SearchState { pruning: false, ..Self::start() }
    }

    /// The crossword is to be left at once: it breaks a constraint on its size, or it
    /// contains an explored crossword and such crosswords are left out.
    pub open spec fn blocked(self, settings: CrosswordGeneratorSettings) -> bool {
        !settings.crossword_settings.admits(self.crossword) || (self.pruning && covered(
            self.bases,
            self.crossword,
        ))
    }

    /// One step later.
    pub open spec fn ticked(self) -> SearchState {
        SearchState { steps: self.steps + 1, ..self }
    }

    /// With one more word on the crossword.
    pub open spec fn with_word(self, w: WordView) -> SearchState {
        SearchState { crossword: added(self.crossword, w), ..self }
    }

    /// With the crossword among those found.
    pub open spec fn emitted(self) -> SearchState {
        SearchState { found: self.found.push(self.crossword), ..self }
    }

    /// Back from a crossword whose completions are now explored: it is recorded, and the word
    /// with this text leaves the crossword.
    pub open spec fn backtracked(self, text: Seq<char>) -> SearchState {
        SearchState {
            crossword: removed(self.crossword, text),
            bases: recorded(self.bases, self.crossword),
            ..self
        }
    }
}

/// The search from a crossword on which the words `rest` are still to be placed. A crossword
/// that breaks a constraint or contains an explored crossword is left at once; a crossword
/// with no word left to place is found; any other is expanded.
pub open spec fn enter(
    settings: CrosswordGeneratorSettings,
    st: SearchState,
    rest: Seq<Seq<char>>,
) -> SearchState
    decreases rest.len(), 1nat, 0nat, 0nat,
{
    let st = st.ticked();
    if st.blocked(settings) {
        st
    } else if rest.len() == 0 {
        st.emitted()
    } else {
        expand(
            settings,
            st,
            rest,
            0,
            placements(st.crossword, rest[0], settings.word_compatibility_settings),
            0,
        )
    }
}

/// The rest of the expansion of a crossword, from way `j` of placing word `i` on: each way is
/// tried in turn, by placing the word, searching from the crossword so made, recording that
/// crossword and taking the word off again; then the next word has its turn.
pub open spec fn expand(
    settings: CrosswordGeneratorSettings,
    st: SearchState,
    rest: Seq<Seq<char>>,
    i: int,
    ways: Seq<WordView>,
    j: int,
) -> SearchState
    decreases rest.len(), 0nat, rest.len() - i, ways.len() - j,
{
    let st = st.ticked();
    if i < 0 || i >= rest.len() || j < 0 {
        st
    } else if j < ways.len() {
        let inner = enter(settings, st.with_word(ways[j]), rest.remove(i));
        expand(settings, inner.backtracked(ways[j].text), rest, i, ways, j + 1)
    } else if i + 1 < rest.len() {
        expand(
            settings,
            st,
            rest,
            i + 1,
            placements(st.crossword, rest[i + 1], settings.word_compatibility_settings),
            0,
        )
    } else {
        st
    }
}

/// The rest of the search from the inside of nested expansions. The last frame is the
/// crossword being expanded; in each frame below it, the way at `step` is the one that led to
/// the frame above.
pub open spec fn resume(
    settings: CrosswordGeneratorSettings,
    frames: Seq<FrameView>,
    st: SearchState,
) -> SearchState
    decreases frames.len(),
{
    if frames.len() == 0 {
        st
    } else {
        let top = frames.last();
        let done = expand(settings, st, top.rest, top.index, top.ways, top.step);
        let below = frames.drop_last();
        if below.len() == 0 {
            done
        } else {
            let parent = below.last();
            resume(
                settings,
                below.drop_last().push(FrameView { step: parent.step + 1, ..parent }),
                done.backtracked(parent.ways[parent.step].text),
            )
        }
    }
}

/// The second sequence starts with the first.
pub open spec fn extends(a: Seq<Seq<WordView>>, b: Seq<Seq<WordView>>) -> bool {
    a.len() <= b.len() && forall|i: int| 0 <= i < a.len() ==> a[i] == b[i]
}

/// A search from a crossword takes at least one step and keeps what was found before.
pub proof fn lemma_enter_grows(
    settings: CrosswordGeneratorSettings,
    st: SearchState,
    rest: Seq<Seq<char>>,
)
    ensures
        enter(settings, st, rest).steps > st.steps,
        extends(st.found, enter(settings, st, rest).found),
    decreases rest.len(), 1nat, 0nat, 0nat,
{
    let t = st.ticked();
    if t.blocked(settings) {
    } else if rest.len() == 0 {
    } else {
        lemma_expand_grows(
            settings,
            t,
            rest,
            0,
            placements(t.crossword, rest[0], settings.word_compatibility_settings),
            0,
        );
    }
}

/// An expansion takes at least one step and keeps what was found before.
pub proof fn lemma_expand_grows(
    settings: CrosswordGeneratorSettings,
    st: SearchState,
    rest: Seq<Seq<char>>,
    i: int,
    ways: Seq<WordView>,
    j: int,
)
    ensures
        expand(settings, st, rest, i, ways, j).steps > st.steps,
        extends(st.found, expand(settings, st, rest, i, ways, j).found),
    decreases rest.len(), 0nat, rest.len() - i, ways.len() - j,
{
    let t = st.ticked();
    if i < 0 || i >= rest.len() || j < 0 {
    } else if j < ways.len() {
        let inner = enter(settings, t.with_word(ways[j]), rest.remove(i));
        lemma_enter_grows(settings, t.with_word(ways[j]), rest.remove(i));
        lemma_expand_grows(settings, inner.backtracked(ways[j].text), rest, i, ways, j + 1);
    } else if i + 1 < rest.len() {
        lemma_expand_grows(
            settings,
            t,
            rest,
            i + 1,
            placements(t.crossword, rest[i + 1], settings.word_compatibility_settings),
            0,
        );
    }
}

/// The rest of a search takes no step back and keeps what was found before; from inside an
/// expansion it takes at least one step.
pub proof fn lemma_resume_grows(
    settings: CrosswordGeneratorSettings,
    frames: Seq<FrameView>,
    st: SearchState,
)
    ensures
        resume(settings, frames, st).steps >= st.steps,
        frames.len() > 0 ==> resume(settings, frames, st).steps > st.steps,
        extends(st.found, resume(settings, frames, st).found),
    decreases frames.len(),
{
    if frames.len() > 0 {
        let top = frames.last();
        let done = expand(settings, st, top.rest, top.index, top.ways, top.step);
        lemma_expand_grows(settings, st, top.rest, top.index, top.ways, top.step);
        let below = frames.drop_last();
        if below.len() > 0 {
            let parent = below.last();
            lemma_resume_grows(
                settings,
                below.drop_last().push(FrameView { step: parent.step + 1, ..parent }),
                done.backtracked(parent.ways[parent.step].text),
            );
        }
    }
}

/// The texts of a set as words that lie across at the origin.
pub open spec fn seeds_of(words: Set<Seq<char>>) -> Set<WordView> {
    Set::new(|w: WordView| words.contains(w.text) && w == seed(w.text))
}

/// The texts of a set in increasing order.
pub open spec fn canonical(words: Set<Seq<char>>) -> Seq<Seq<char>> {
    sorted_of(seeds_of(words)).map_values(|w: WordView| w.text)
}

/// The whole search for the crosswords of a set of words.
pub open spec fn search(
    settings: CrosswordGeneratorSettings,
    words: Set<Seq<char>>,
) -> SearchState {
    enter(settings, SearchState::start(), canonical(words))
}

/// The crosswords of a set of words, in the order in which the search finds them.
pub open spec fn results(
    settings: CrosswordGeneratorSettings,
    words: Set<Seq<char>>,
) -> Seq<Seq<WordView>> {
    search(settings, words).found
}

/// The crosswords of a set of words that the search finds when it leaves no crossword out for
/// containing an explored one.
pub open spec fn results_plain(
    settings: CrosswordGeneratorSettings,
    words: Set<Seq<char>>,
) -> Seq<Seq<WordView>> {
    enter(settings, SearchState::start_plain(), canonical(words)).found
}

/// The crosswords of a request depend on which words are listed, not on the order in which
/// they are listed nor on how often: two lists with the same texts, such as a list and any
/// permutation of it, have the same crosswords in the same order.
pub proof fn lemma_results_ignore_order(
    settings: CrosswordGeneratorSettings,
    first: Seq<Seq<char>>,
    second: Seq<Seq<char>>,
)
    requires
        forall|text: Seq<char>| first.contains(text) <==> second.contains(text),
    ensures
        results(settings, first.to_set()) == results(settings, second.to_set()),
{
    assert(first.to_set() =~= second.to_set());
}

/// The cells that the texts need when laid end to end with one cell after each.
pub open spec fn room(texts: Seq<Seq<char>>) -> int
    decreases texts.len(),
{
    if texts.len() == 0 {
        0
    } else {
        room(texts.drop_last()) + texts.last().len() + 1
    }
}

/// Every text takes part of the room, and the room without one text is smaller by that part.
pub proof fn lemma_room_remove(texts: Seq<Seq<char>>, i: int)
    requires
        0 <= i < texts.len(),
    ensures
        room(texts.remove(i)) == room(texts) - texts[i].len() - 1,
        room(texts.remove(i)) >= 0,
    decreases texts.len(),
{
    let front = texts.drop_last();
    if i == texts.len() - 1 {
        assert(texts.remove(i) =~= front);
    } else {
        lemma_room_remove(front, i);
        assert(texts.remove(i).drop_last() =~= front.remove(i));
        assert(texts.remove(i).last() == texts.last());
    }
    lemma_room_positive(texts.remove(i));
}

/// The room is never negative.
pub proof fn lemma_room_positive(texts: Seq<Seq<char>>)
    ensures
        room(texts) >= 0,
    decreases texts.len(),
{
    if texts.len() > 0 {
        lemma_room_positive(texts.drop_last());
    }
}

/// The first texts of a list need no more room than the list.
pub proof fn lemma_room_prefix(texts: Seq<Seq<char>>, k: int)
    requires
        0 <= k <= texts.len(),
    ensures
        room(texts.take(k)) <= room(texts),
    decreases texts.len() - k,
{
    if k < texts.len() {
        assert(texts.take(k + 1).drop_last() =~= texts.take(k));
        lemma_room_prefix(texts, k + 1);
    } else {
        assert(texts.take(k) =~= texts);
    }
}

/// The room with one more text is larger by the part of that text.
pub proof fn lemma_room_insert(texts: Seq<Seq<char>>, i: int, text: Seq<char>)
    requires
        0 <= i <= texts.len(),
    ensures
        room(texts.insert(i, text)) == room(texts) + text.len() + 1,
{
    let more = texts.insert(i, text);
    assert(more.remove(i) =~= texts);
    lemma_room_remove(more, i);
}

/// The frame with the next way in turn.
pub open spec fn stepped(frame: FrameView) -> FrameView {
    FrameView { step: frame.step + 1, ..frame }
}

/// The rest of a search after the last frame is done and the search is in the state `done`.
pub open spec fn leave(
    settings: CrosswordGeneratorSettings,
    frames: Seq<FrameView>,
    done: SearchState,
) -> SearchState {
    let below = frames.drop_last();
    if below.len() == 0 {
        done
    } else {
        resume(
            settings,
            below.drop_last().push(stepped(below.last())),
            done.backtracked(below.last().ways[below.last().step].text),
        )
    }
}

/// The rest of a search is the rest of the expansion of the last frame, and then what
/// follows when that frame is left.
pub proof fn lemma_resume_unfold(
    settings: CrosswordGeneratorSettings,
    frames: Seq<FrameView>,
    st: SearchState,
)
    requires
        frames.len() > 0,
    ensures
        resume(settings, frames, st) == leave(
            settings,
            frames,
            expand(settings, st, frames.last().rest, frames.last().index, frames.last().ways,
                frames.last().step),
        ),
{
}

/// The machine runs the recursion: resumed in the one frame of a crossword that is to be
/// expanded, with the ways to place its first word, it ends in the state in which the
/// recursive search from that crossword ends, with the same crosswords found in the same
/// order.
pub proof fn lemma_machine_runs_the_recursion(
    settings: CrosswordGeneratorSettings,
    st: SearchState,
    rest: Seq<Seq<char>>,
)
    requires
        rest.len() > 0,
        !st.ticked().blocked(settings),
    ensures
        resume(
            settings,
            seq![
                FrameView {
                    rest,
                    index: 0,
                    ways: placements(st.crossword, rest[0], settings.word_compatibility_settings),
                    step: 0,
                },
            ],
            st.ticked(),
        ) == enter(settings, st, rest),
{
    let frame = FrameView {
        rest,
        index: 0,
        ways: placements(st.crossword, rest[0], settings.word_compatibility_settings),
        step: 0,
    };
    lemma_resume_unfold(settings, seq![frame], st.ticked());
    assert(seq![frame].drop_last().len() == 0);
}

/// Replacing the last frame does not change what follows when it is left.
pub proof fn lemma_leave_replaced(
    settings: CrosswordGeneratorSettings,
    frames: Seq<FrameView>,
    top: FrameView,
    done: SearchState,
)
    requires
        frames.len() > 0,
    ensures
        leave(settings, frames.drop_last().push(top), done) == leave(settings, frames, done),
{
    assert(frames.drop_last().push(top).drop_last() =~= frames.drop_last());
}

/// Trying the way in turn leads to a crossword that is left at once: the search goes on with
/// the next way.
pub proof fn lemma_resume_skip(
    settings: CrosswordGeneratorSettings,
    frames: Seq<FrameView>,
    st: SearchState,
)
    requires
        frames.len() > 0,
        0 <= frames.last().index < frames.last().rest.len(),
        0 <= frames.last().step < frames.last().ways.len(),
        ({
            let top = frames.last();
            let inside = st.ticked().with_word(top.ways[top.step]).ticked();
            inside.blocked(settings)
        }),
    ensures
        ({
            let top = frames.last();
            let way = top.ways[top.step];
            let inside = st.ticked().with_word(way).ticked();
            resume(settings, frames, st) == resume(
                settings,
                frames.drop_last().push(stepped(top)),
                inside.backtracked(way.text),
            )
        }),
{
    let top = frames.last();
    let way = top.ways[top.step];
    let inside = st.ticked().with_word(way).ticked();
    let others = top.rest.remove(top.index);
    assert(enter(settings, st.ticked().with_word(way), others) == inside);
    let next = frames.drop_last().push(stepped(top));
    lemma_resume_unfold(settings, frames, st);
    lemma_resume_unfold(settings, next, inside.backtracked(way.text));
    lemma_leave_replaced(
        settings,
        frames,
        stepped(top),
        expand(settings, inside.backtracked(way.text), top.rest, top.index, top.ways, top.step + 1),
    );
}

/// Trying the way in turn places the last word: the crossword is found, and the search goes
/// on with the next way.
pub proof fn lemma_resume_find(
    settings: CrosswordGeneratorSettings,
    frames: Seq<FrameView>,
    st: SearchState,
)
    requires
        frames.len() > 0,
        0 <= frames.last().index < frames.last().rest.len(),
        0 <= frames.last().step < frames.last().ways.len(),
        frames.last().rest.len() == 1,
        ({
            let top = frames.last();
            let inside = st.ticked().with_word(top.ways[top.step]).ticked();
            !inside.blocked(settings)
        }),
    ensures
        ({
            let top = frames.last();
            let way = top.ways[top.step];
            let inside = st.ticked().with_word(way).ticked();
            resume(settings, frames, st) == resume(
                settings,
                frames.drop_last().push(stepped(top)),
                inside.emitted().backtracked(way.text),
            )
        }),
{
    let top = frames.last();
    let way = top.ways[top.step];
    let inside = st.ticked().with_word(way).ticked();
    let others = top.rest.remove(top.index);
    assert(others.len() == 0);
    assert(enter(settings, st.ticked().with_word(way), others) == inside.emitted());
    let next = frames.drop_last().push(stepped(top));
    lemma_resume_unfold(settings, frames, st);
    lemma_resume_unfold(settings, next, inside.emitted().backtracked(way.text));
    lemma_leave_replaced(
        settings,
        frames,
        stepped(top),
        expand(settings, inside.emitted().backtracked(way.text), top.rest, top.index, top.ways,
            top.step + 1),
    );
}

/// Trying the way in turn leads to a crossword that is expanded: the search goes on in a new
/// frame for that crossword.
pub proof fn lemma_resume_descend(
    settings: CrosswordGeneratorSettings,
    frames: Seq<FrameView>,
    st: SearchState,
)
    requires
        frames.len() > 0,
        0 <= frames.last().index < frames.last().rest.len(),
        0 <= frames.last().step < frames.last().ways.len(),
        frames.last().rest.len() > 1,
        ({
            let top = frames.last();
            let inside = st.ticked().with_word(top.ways[top.step]).ticked();
            !inside.blocked(settings)
        }),
    ensures
        ({
            let top = frames.last();
            let way = top.ways[top.step];
            let inside = st.ticked().with_word(way).ticked();
            let others = top.rest.remove(top.index);
            resume(settings, frames, st) == resume(
                settings,
                frames.push(
                    FrameView {
                        rest: others,
                        index: 0,
                        ways: placements(inside.crossword, others[0],
                            settings.word_compatibility_settings),
                        step: 0,
                    },
                ),
                inside,
            )
        }),
{
    let top = frames.last();
    let way = top.ways[top.step];
    let inside = st.ticked().with_word(way).ticked();
    let others = top.rest.remove(top.index);
    let child = FrameView {
        rest: others,
        index: 0,
        ways: placements(inside.crossword, others[0], settings.word_compatibility_settings),
        step: 0,
    };
    let within = expand(settings, inside, others, 0, child.ways, 0);
    assert(enter(settings, st.ticked().with_word(way), others) == within);
    let deeper = frames.push(child);
    assert(deeper.drop_last() =~= frames);
    lemma_resume_unfold(settings, frames, st);
    lemma_resume_unfold(settings, deeper, inside);
    let next = frames.drop_last().push(stepped(top));
    lemma_resume_unfold(settings, next, within.backtracked(way.text));
    lemma_leave_replaced(
        settings,
        frames,
        stepped(top),
        expand(settings, within.backtracked(way.text), top.rest, top.index, top.ways, top.step + 1),
    );
}

/// No way is left for the word in turn, and another word is: the search goes on with the ways
/// to place the next word.
pub proof fn lemma_resume_advance(
    settings: CrosswordGeneratorSettings,
    frames: Seq<FrameView>,
    st: SearchState,
)
    requires
        frames.len() > 0,
        0 <= frames.last().index,
        frames.last().index + 1 < frames.last().rest.len(),
        frames.last().step == frames.last().ways.len(),
    ensures
        ({
            let top = frames.last();
            resume(settings, frames, st) == resume(
                settings,
                frames.drop_last().push(
                    FrameView {
                        rest: top.rest,
                        index: top.index + 1,
                        ways: placements(
                            st.crossword,
                            top.rest[top.index + 1],
                            settings.word_compatibility_settings,
                        ),
                        step: 0,
                    },
                ),
                st.ticked(),
            )
        }),
{
    let top = frames.last();
    let turned = FrameView {
        rest: top.rest,
        index: top.index + 1,
        ways: placements(st.crossword, top.rest[top.index + 1],
            settings.word_compatibility_settings),
        step: 0,
    };
    let next = frames.drop_last().push(turned);
    lemma_resume_unfold(settings, frames, st);
    lemma_resume_unfold(settings, next, st.ticked());
    lemma_leave_replaced(
        settings,
        frames,
        turned,
        expand(settings, st.ticked(), turned.rest, turned.index, turned.ways, 0),
    );
}

/// No way is left for the last word in turn: the frame is left.
pub proof fn lemma_resume_ascend(
    settings: CrosswordGeneratorSettings,
    frames: Seq<FrameView>,
    st: SearchState,
)
    requires
        frames.len() > 0,
        0 <= frames.last().index < frames.last().rest.len(),
        frames.last().index + 1 == frames.last().rest.len(),
        frames.last().step == frames.last().ways.len(),
    ensures
        resume(settings, frames, st) == leave(settings, frames, st.ticked()),
{
    lemma_resume_unfold(settings, frames, st);
}

/// What the search relies on in every crossword that it enters: the words form a crossword,
/// none of the texts still to be placed is on it, no text is to be placed twice, and the grid
/// leaves room for the words still to be placed.
pub open spec fn node_ok(node: Seq<WordView>, rest: Seq<Seq<char>>) -> bool {
    &&& well_formed(node)
    &&& forall|i: int| 0 <= i < rest.len() ==> !has_text(node, #[trigger] rest[i])
    &&& forall|i: int, j: int|
        0 <= i < rest.len() && 0 <= j < rest.len() && i != j
            ==> #[trigger] rest[i] != #[trigger] rest[j]
    &&& reach_x(node) + room(rest) <= isize::MAX
    &&& reach_y(node) + room(rest) <= isize::MAX
}

/// A way to place one of the remaining words leads to a crossword that the search can enter
/// with the other words, and taking the word off again gives the first crossword back.
pub proof fn lemma_child_ok(node: Seq<WordView>, rest: Seq<Seq<char>>, i: int, c: WordView)
    requires
        node_ok(node, rest),
        0 <= i < rest.len(),
        tries(node, c),
        c.text == rest[i],
    ensures
        fits(node.push(c)),
        !has_text(node, c.text),
        node_ok(added(node, c), rest.remove(i)),
        removed(added(node, c), c.text) == node,
{
    let others = rest.remove(i);
    lemma_room_remove(rest, i);
    lemma_try_fits(node, c);
    lemma_added(node, c);
    lemma_added_reach(node, c);
    assert forall|q: int| 0 <= q < others.len() implies !has_text(added(node, c),
        #[trigger] others[q]) by {
        let q0 = if q < i { q } else { q + 1 };
        assert(others[q] == rest[q0]);
        assert(!has_text(node, rest[q0]));
        assert(rest[q0] != rest[i]);
    }
    assert forall|p: int, q: int|
        0 <= p < others.len() && 0 <= q < others.len() && p != q implies #[trigger] others[p]
        != #[trigger] others[q] by {
        let p0 = if p < i { p } else { p + 1 };
        let q0 = if q < i { q } else { q + 1 };
        assert(others[p] == rest[p0] && others[q] == rest[q0]);
    }
}

} // verus!
