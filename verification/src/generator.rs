//! The search for every crossword of a set of words: settings, the request, the recursion and
//! the resumable machine that yields one crossword at a time.

use vstd::prelude::*;
use corosensei::stack::DefaultStack;
use corosensei::{CoroutineResult, ScopedCoroutine, Yielder};
use crate::crossword::{
    added, contains, placements, reach_x, reach_y, seed, tries, Crossword, CrosswordSettings,
};
use crate::order::{increasing, insert_word, lemma_lists_is_sorted_of, views, word_lt};
use crate::search::{
    canonical, covered, enter, expand, FrameView, lemma_child_ok, lemma_resume_advance,
    lemma_resume_ascend, lemma_resume_descend, lemma_resume_find, lemma_resume_grows,
    lemma_resume_skip, lemma_resume_unfold, lemma_room_insert, lemma_room_positive,
    lemma_room_prefix, lemma_room_remove, node_ok, pruned, recorded, results, resume, room,
    search, seeds_of, SearchState, stepped,
};
use crate::text::lemma_text_lt_irreflexive;
use crate::theorems::{goal, theorem_results_are_the_answers, theorem_results_without_repeats};
use crate::word::{Word, WordCompatibilitySettings, WordDirection, WordPosition, WordView};

verus! {

/// The settings of a search: which contacts between words are allowed, and the constraints on
/// the size of a crossword.
#[derive(Clone, Debug, PartialEq, Eq, PartialOrd, Ord)]
pub struct CrosswordGeneratorSettings {
    pub word_compatibility_settings: WordCompatibilitySettings,
    pub crossword_settings: CrosswordSettings,
}

impl Default for CrosswordGeneratorSettings {
    fn default() -> (r: Self)
        ensures
            !r.word_compatibility_settings.side_by_side,
            !r.word_compatibility_settings.head_by_head,
            !r.word_compatibility_settings.side_by_head,
            r.word_compatibility_settings.corner_by_corner,
            r.crossword_settings.size_constraints@.len() == 0,
    {
        CrosswordGeneratorSettings {
            word_compatibility_settings: WordCompatibilitySettings::default(),
            crossword_settings: CrosswordSettings::default(),
        }
    }
}

/// A request for every crossword of a set of words. A word that is listed twice counts once.
#[derive(Clone, Debug, PartialEq, Eq, PartialOrd, Ord)]
pub struct CrosswordGenerator {
    pub words: Vec<String>,
    pub settings: CrosswordGeneratorSettings,
}

impl Default for CrosswordGenerator {
    fn default() -> (r: Self)
        ensures
            r.words@.len() == 0,
            r.settings.crossword_settings.size_constraints@.len() == 0,
            !r.settings.word_compatibility_settings.side_by_side,
            !r.settings.word_compatibility_settings.head_by_head,
            !r.settings.word_compatibility_settings.side_by_head,
            r.settings.word_compatibility_settings.corner_by_corner,
    {
        CrosswordGenerator { words: Vec::new(), settings: CrosswordGeneratorSettings::default() }
    }
}

/// The texts of a list of words.
pub open spec fn word_texts(words: Seq<String>) -> Seq<Seq<char>> {
    words.map_values(|s: String| s@)
}

/// The texts of a list of string slices.
pub open spec fn texts<'a>(words: Seq<&'a str>) -> Seq<Seq<char>> {
    words.map_values(|s: &'a str| s@)
}

/// The words of each crossword of a list.
pub open spec fn crosswords<'a>(list: Seq<Crossword<'a>>) -> Seq<Seq<WordView>> {
    list.map_values(|c: Crossword<'a>| c@)
}

/// The texts of placed words.
pub open spec fn texts_of(words: Seq<WordView>) -> Seq<Seq<char>> {
    words.map_values(|w: WordView| w.text)
}

/// The words of a request in increasing order, each once.
fn canonical_words<'a>(words: &'a Vec<String>) -> (r: Vec<&'a str>)
    ensures
        texts(r@) == canonical(word_texts(words@).to_set()),
        room(texts(r@)) <= room(word_texts(words@)),
        forall|t: Seq<char>| word_texts(words@).contains(t) <==> texts(r@).contains(t),
        forall|i: int, j: int|
            0 <= i < r@.len() && 0 <= j < r@.len() && i != j ==> #[trigger] texts(r@)[i]
                != #[trigger] texts(r@)[j],
{
    let ghost given = word_texts(words@);
    let mut seeds: Vec<Word<'a>> = Vec::new();
    let mut k: usize = 0;
    assert(texts_of(views(seeds@)) =~= Seq::<Seq<char>>::empty());
    while k < words.len()
        invariant
            k <= words@.len(),
            given == word_texts(words@),
            increasing(views(seeds@)),
            forall|x: WordView|
                #![trigger views(seeds@).contains(x)]
                views(seeds@).contains(x) <==> exists|q: int|
                    0 <= q < k && x == seed(#[trigger] given[q]),
            room(texts_of(views(seeds@))) <= room(given.take(k as int)),
        decreases words@.len() - k,
    {
        let value: &'a str = words[k].as_str();
        let word = Word { position: WordPosition { x: 0, y: 0 }, direction: WordDirection::Right,
            value };
        let ghost before = views(seeds@);
        assert(word@ == seed(given[k as int]));
        let place = insert_word(&mut seeds, word);
        proof {
            let after = views(seeds@);
            assert(given.take(k + 1).drop_last() =~= given.take(k as int));
            assert(given.take(k + 1).last() == given[k as int]);
            lemma_room_positive(given.take(k as int));
            match place {
                Some(p) => {
                    assert(texts_of(after) =~= texts_of(before).insert(p as int, word@.text));
                    lemma_room_insert(texts_of(before), p as int, word@.text);
                },
                None => {
                    assert(after == before);
                },
            }
            assert forall|x: WordView|
                #![trigger after.contains(x)]
                after.contains(x) <==> exists|q: int|
                    0 <= q < k + 1 && x == seed(#[trigger] given[q]) by {
                if after.contains(x) {
                    if before.contains(x) {
                        let q = choose|q: int| 0 <= q < k && x == seed(#[trigger] given[q]);
                        assert(0 <= q < k + 1);
                    } else {
                        assert(x == seed(given[k as int]));
                    }
                }
                if exists|q: int| 0 <= q < k + 1 && x == seed(#[trigger] given[q]) {
                    let q = choose|q: int| 0 <= q < k + 1 && x == seed(#[trigger] given[q]);
                    if q < k {
                        assert(before.contains(x));
                    }
                }
            }
        }
        k += 1;
    }
    assert(given.take(k as int) =~= given);
    let ghost sorted = views(seeds@);
    proof {
        let all = seeds_of(given.to_set());
        assert forall|w: WordView| all.contains(w) <==> sorted.contains(w) by {
            if all.contains(w) {
                assert(given.contains(w.text));
                let q = choose|q: int| 0 <= q < given.len() && given[q] == w.text;
                assert(w == seed(given[q]));
            }
            if sorted.contains(w) {
                let q = choose|q: int| 0 <= q < k && w == seed(#[trigger] given[q]);
                assert(given.contains(given[q]));
            }
        }
        lemma_lists_is_sorted_of(sorted, all);
    }
    let mut out: Vec<&'a str> = Vec::new();
    let mut i: usize = 0;
    while i < seeds.len()
        invariant
            i <= seeds@.len(),
            sorted == views(seeds@),
            texts(out@) == texts_of(sorted).take(i as int),
        decreases seeds@.len() - i,
    {
        let ghost prior = texts(out@);
        out.push(seeds[i].value);
        assert(sorted[i as int].text == seeds@[i as int].value@);
        assert(texts(out@) =~= prior.push(seeds@[i as int].value@));
        assert(texts(out@) =~= texts_of(sorted).take(i + 1));
        i += 1;
    }
    proof {
        assert(texts_of(sorted).take(i as int) =~= texts_of(sorted));
        assert forall|t: Seq<char>| given.contains(t) <==> texts_of(sorted).contains(t) by {
            if given.contains(t) {
                let q = choose|q: int| 0 <= q < given.len() && given[q] == t;
                assert(sorted.contains(seed(given[q])));
                let p = choose|p: int| 0 <= p < sorted.len() && sorted[p] == seed(given[q]);
                assert(texts_of(sorted)[p] == t);
            }
            if texts_of(sorted).contains(t) {
                let p = choose|p: int| 0 <= p < sorted.len() && texts_of(sorted)[p] == t;
                assert(sorted.contains(sorted[p]));
                let q = choose|q: int| 0 <= q < k && sorted[p] == seed(#[trigger] given[q]);
                assert(given[q] == t);
            }
        }
        assert forall|a: int, b: int|
            0 <= a < out@.len() && 0 <= b < out@.len() && a != b implies #[trigger] texts(out@)[a]
            != #[trigger] texts(out@)[b] by {
            let (lo, hi) = if a < b { (a, b) } else { (b, a) };
            assert(word_lt(sorted[lo], sorted[hi]));
            assert(sorted.contains(sorted[lo]));
            assert(sorted.contains(sorted[hi]));
            lemma_text_lt_irreflexive(sorted[lo].text);
        }
    }
    out
}

/// The words without the one at `index`.
fn remaining_without<'a>(words: &Vec<&'a str>, index: usize) -> (r: Vec<&'a str>)
    requires
        index < words@.len(),
    ensures
        texts(r@) == texts(words@).remove(index as int),
{
    let mut out: Vec<&'a str> = Vec::new();
    let mut k: usize = 0;
    while k < words.len()
        invariant
            k <= words@.len(),
            index < words@.len(),
            texts(out@) == if k <= index {
                texts(words@).take(k as int)
            } else {
                texts(words@).remove(index as int).take(k - 1)
            },
        decreases words@.len() - k,
    {
        let ghost prior = texts(out@);
        if k != index {
            out.push(words[k]);
            assert(texts(out@) =~= prior.push(words@[k as int]@));
        }
        proof {
            assert(texts(words@)[k as int] == words@[k as int]@);
            if k < index {
                assert(texts(out@) =~= texts(words@).take(k + 1));
            } else if k == index {
                assert(texts(out@) =~= texts(words@).remove(index as int).take(k as int));
            } else {
                assert(texts(out@) =~= texts(words@).remove(index as int).take(k as int));
            }
        }
        k += 1;
    }
    assert(texts(words@).remove(index as int).take(k - 1) =~= texts(words@).remove(index as int));
    out
}

/// Checks whether the crossword contains one of the explored crosswords.
fn is_covered<'a>(bases: &Vec<Crossword<'a>>, crossword: &Crossword<'a>) -> (r: bool)
    ensures
        r == covered(crosswords(bases@), crossword@),
{
    let mut k: usize = 0;
    while k < bases.len()
        invariant
            k <= bases@.len(),
            forall|i: int| 0 <= i < k ==> !contains(crossword@, #[trigger] crosswords(bases@)[i]),
        decreases bases@.len() - k,
    {
        assert(crosswords(bases@)[k as int] == bases@[k as int]@);
        if crossword.contains_crossword(&bases[k]) {
            return true;
        }
        k += 1;
    }
    false
}

/// Records a crossword as explored: the explored crosswords that contain it leave, and it
/// joins.
fn record<'a>(bases: &mut Vec<Crossword<'a>>, crossword: &Crossword<'a>)
    ensures
        crosswords(final(bases)@) == recorded(crosswords(old(bases)@), crossword@),
{
    let ghost before = crosswords(bases@);
    let mut kept: Vec<Crossword<'a>> = Vec::new();
    let mut k: usize = 0;
    assert(before.take(0) =~= Seq::<Seq<WordView>>::empty());
    assert(crosswords(kept@) =~= Seq::<Seq<WordView>>::empty());
    while k < bases.len()
        invariant
            k <= bases@.len(),
            before == crosswords(bases@),
            crosswords(kept@) == pruned(before.take(k as int), crossword@),
        decreases bases@.len() - k,
    {
        proof {
            assert(before.take(k + 1).drop_last() =~= before.take(k as int));
            assert(before.take(k + 1).last() == bases@[k as int]@);
        }
        if !bases[k].contains_crossword(crossword) {
            let ghost prior = crosswords(kept@);
            let copy = bases[k].clone();
            kept.push(copy);
            assert(crosswords(kept@) =~= prior.push(bases@[k as int]@));
        }
        k += 1;
    }
    assert(before.take(k as int) =~= before);
    let ghost prior = crosswords(kept@);
    kept.push(crossword.clone());
    assert(crosswords(kept@) =~= prior.push(crossword@));
    *bases = kept;
}

impl CrosswordGenerator {
    /// The state of a search that holds these values.
    pub open spec fn state<'a>(
        crossword: Crossword<'a>,
        bases: Seq<Crossword<'a>>,
        found: Seq<Crossword<'a>>,
        steps: nat,
    ) -> SearchState {
        SearchState {
            pruning: true,
            crossword: crossword@,
            bases: crosswords(bases),
            found: crosswords(found),
            steps,
        }
    }

    /// The search from a crossword, as a recursion: every crossword found is added to `found`,
    /// and handed to the yielder where there is one. The crossword is changed while the search
    /// runs and is the same again at the end.
    fn crossword_iter_rec_impl<'a>(
        &self,
        yielder: Option<&Yielder<(), Crossword<'a>>>,
        current_crossword: &mut Crossword<'a>,
        remained_words: &Vec<&'a str>,
        full_created_crossword_bases: &mut Vec<Crossword<'a>>,
        found: &mut Vec<Crossword<'a>>,
        Ghost(steps): Ghost<nat>,
    )
        requires
            node_ok(old(current_crossword)@, texts(remained_words@)),
        ensures
            Self::state(
                *final(current_crossword),
                final(full_created_crossword_bases)@,
                final(found)@,
                enter(
                    self.settings,
                    Self::state(
                        *old(current_crossword),
                        old(full_created_crossword_bases)@,
                        old(found)@,
                        steps,
                    ),
                    texts(remained_words@),
                ).steps,
            ) == enter(
                self.settings,
                Self::state(
                    *old(current_crossword),
                    old(full_created_crossword_bases)@,
                    old(found)@,
                    steps,
                ),
                texts(remained_words@),
            ),
            final(current_crossword)@ == old(current_crossword)@,
        decreases remained_words@.len(),
    {
        let ghost rest = texts(remained_words@);
        let ghost node = current_crossword@;
        let ghost entry = Self::state(*current_crossword, full_created_crossword_bases@, found@,
            steps);
        let ghost goal = enter(self.settings, entry, rest);
        let ghost mut count: nat = steps + 1;

        if !self.settings.crossword_settings.is_crossword_valid(current_crossword) {
            return;
        }
        if is_covered(full_created_crossword_bases, current_crossword) {
            return;
        }
        if remained_words.len() == 0 {
            let ghost prior = crosswords(found@);
            found.push(current_crossword.clone());
            assert(crosswords(found@) =~= prior.push(node));
            if let Some(waiting) = yielder {
                hand_over(waiting, current_crossword.clone());
            }
            return;
        }
        let mut i: usize = 0;
        while i < remained_words.len()
            invariant
                i <= remained_words@.len(),
                rest == texts(remained_words@),
                current_crossword@ == node,
                node_ok(node, rest),
                i < rest.len() ==> expand(
                    self.settings,
                    Self::state(*current_crossword, full_created_crossword_bases@, found@, count),
                    rest,
                    i as int,
                    placements(node, rest[i as int], self.settings.word_compatibility_settings),
                    0,
                ) == goal,
                i == rest.len() ==> Self::state(
                    *current_crossword,
                    full_created_crossword_bases@,
                    found@,
                    count,
                ) == goal,
            decreases remained_words@.len() - i,
        {
            let current_word = remained_words[i];
            assert(rest[i as int] == current_word@);
            proof {
                lemma_room_positive(rest);
                lemma_room_remove(rest, i as int);
            }
            let new_remained_words = remaining_without(remained_words, i);
            let ways = current_crossword.calculate_possible_ways_to_add_word(
                current_word,
                &self.settings.word_compatibility_settings,
            );
            let ghost plan = views(ways@);
            let mut j: usize = 0;
            while j < ways.len()
                invariant
                    j <= ways@.len(),
                    i < remained_words@.len(),
                    rest == texts(remained_words@),
                    texts(new_remained_words@) == rest.remove(i as int),
                    plan == views(ways@),
                    current_crossword@ == node,
                    node_ok(node, rest),
                    forall|q: int|
                        0 <= q < plan.len() ==> tries(node, #[trigger] plan[q]) && plan[q].text
                            == rest[i as int],
                    expand(
                        self.settings,
                        Self::state(*current_crossword, full_created_crossword_bases@, found@,
                            count),
                        rest,
                        i as int,
                        plan,
                        j as int,
                    ) == goal,
                decreases ways@.len() - j,
            {
                let step = ways[j];
                assert(plan[j as int] == step@);
                proof {
                    lemma_child_ok(node, rest, i as int, step@);
                }
                let ghost here = Self::state(
                    *current_crossword,
                    full_created_crossword_bases@,
                    found@,
                    count,
                ).ticked();
                current_crossword.add_word(&step);
                let ghost down = Self::state(
                    *current_crossword,
                    full_created_crossword_bases@,
                    found@,
                    (count + 1) as nat,
                );
                assert(down == here.with_word(step@));
                let ghost inner = enter(self.settings, down, rest.remove(i as int));
                self.crossword_iter_rec_impl(
                    yielder,
                    current_crossword,
                    &new_remained_words,
                    full_created_crossword_bases,
                    found,
                    Ghost((count + 1) as nat),
                );
                proof {
                    count = inner.steps;
                }
                record(full_created_crossword_bases, current_crossword);
                current_crossword.remove_word(step.value);
                assert(Self::state(*current_crossword, full_created_crossword_bases@, found@, count)
                    == inner.backtracked(step@.text));
                j += 1;
            }
            proof {
                count = count + 1;
            }
            i += 1;
        }
    }
}

/// The place of the machine inside one crossword: the words still to be placed on it, which of
/// them is being placed, the ways to place it, and which of these is being tried.
struct Frame<'a> {
    remained_words: Vec<&'a str>,
    word_index: usize,
    steps: Vec<Word<'a>>,
    step_index: usize,
    node: Ghost<Seq<WordView>>,
}

impl<'a> Frame<'a> {
    /// A frame for a crossword on which these words are still to be placed, before the ways to
    /// place the first of them are known.
    fn new(remained_words: Vec<&'a str>, Ghost(node): Ghost<Seq<WordView>>) -> (r: Frame<'a>)
        ensures
            r.remained_words == remained_words,
            r.word_index == 0,
            r.steps@.len() == 0,
            r.step_index == 0,
            r.node@ == node,
    {
        Frame { remained_words, word_index: 0, steps: Vec::new(), step_index: 0, node: Ghost(node) }
    }

    /// The frame as the mathematical value that the search is defined on.
    spec fn view(self) -> FrameView {
        FrameView {
            rest: texts(self.remained_words@),
            index: self.word_index as int,
            ways: views(self.steps@),
            step: self.step_index as int,
        }
    }

    /// The frame belongs to a crossword that the search can work on, and every way in it is a
    /// way to place the word in turn on that crossword.
    spec fn ok(self) -> bool {
        &&& node_ok(self.node@, texts(self.remained_words@))
        &&& self.word_index < self.remained_words@.len()
        &&& self.step_index <= self.steps@.len()
        &&& forall|q: int|
            0 <= q < self.steps@.len() ==> tries(self.node@, #[trigger] views(self.steps@)[q])
                && views(self.steps@)[q].text == texts(self.remained_words@)[self.word_index as int]
    }

    /// The frame `child` belongs to the crossword that the way in turn of `self` leads to.
    spec fn leads_to(self, child: Frame<'a>) -> bool {
        &&& self.step_index < self.steps@.len()
        &&& child.node@ == added(self.node@, views(self.steps@)[self.step_index as int])
    }
}

/// The frames as the mathematical values that the search is defined on.
spec fn frames_of<'a>(stack: Seq<Frame<'a>>) -> Seq<FrameView> {
    stack.map_values(|f: Frame<'a>| f@)
}

/// There is a frame, every frame is in order, and each leads to the next.
spec fn chain_ok<'a>(stack: Seq<Frame<'a>>) -> bool {
    &&& stack.len() > 0
    &&& forall|k: int| 0 <= k < stack.len() ==> (#[trigger] stack[k]).ok()
    &&& forall|k: int| 0 <= k < stack.len() - 1 ==> (#[trigger] stack[k]).leads_to(stack[k + 1])
}

/// The last frame may be replaced by one in order for the same crossword.
proof fn lemma_chain_replace<'a>(stack: Seq<Frame<'a>>, top: Frame<'a>)
    requires
        chain_ok(stack),
        top.ok(),
        top.node@ == stack.last().node@,
    ensures
        chain_ok(stack.drop_last().push(top)),
        frames_of(stack.drop_last().push(top)) == frames_of(stack).drop_last().push(top@),
{
    let next = stack.drop_last().push(top);
    assert forall|k: int| 0 <= k < next.len() implies (#[trigger] next[k]).ok() by {
        if k < stack.len() - 1 {
            assert(next[k] == stack[k]);
        }
    }
    assert forall|k: int| 0 <= k < next.len() - 1
        implies (#[trigger] next[k]).leads_to(next[k + 1]) by {
        assert(next[k] == stack[k]);
        assert(stack[k].leads_to(stack[k + 1]));
    }
    assert(frames_of(next) =~= frames_of(stack).drop_last().push(top@));
}

/// A frame in order may be added for the crossword that the way in turn of the last frame
/// leads to.
proof fn lemma_chain_push<'a>(stack: Seq<Frame<'a>>, child: Frame<'a>)
    requires
        chain_ok(stack),
        child.ok(),
        stack.last().leads_to(child),
    ensures
        chain_ok(stack.push(child)),
        frames_of(stack.push(child)) == frames_of(stack).push(child@),
{
    let next = stack.push(child);
    assert forall|k: int| 0 <= k < next.len() implies (#[trigger] next[k]).ok() by {
        if k < stack.len() {
            assert(next[k] == stack[k]);
        }
    }
    assert forall|k: int| 0 <= k < next.len() - 1
        implies (#[trigger] next[k]).leads_to(next[k + 1]) by {
        assert(next[k] == stack[k]);
        if k < stack.len() - 1 {
            assert(stack[k].leads_to(stack[k + 1]));
        }
    }
    assert(frames_of(next) =~= frames_of(stack).push(child@));
}

/// The last frame may be taken off when it is not the only one.
proof fn lemma_chain_pop<'a>(stack: Seq<Frame<'a>>)
    requires
        chain_ok(stack),
        stack.len() > 1,
    ensures
        chain_ok(stack.drop_last()),
        frames_of(stack.drop_last()) == frames_of(stack).drop_last(),
        stack.drop_last().last().leads_to(stack.last()),
{
    let next = stack.drop_last();
    assert forall|k: int| 0 <= k < next.len() implies (#[trigger] next[k]).ok() by {
        assert(next[k] == stack[k]);
    }
    assert forall|k: int| 0 <= k < next.len() - 1
        implies (#[trigger] next[k]).leads_to(next[k + 1]) by {
        assert(next[k] == stack[k]);
        assert(stack[k].leads_to(stack[k + 1]));
    }
    assert(frames_of(next) =~= frames_of(stack).drop_last());
    assert(stack[stack.len() - 2].leads_to(stack[stack.len() - 1]));
}

/// What one step of the machine comes to.
enum Progress<'a> {
    Going,
    Found(Crossword<'a>),
    Finished,
}

/// The search as a machine that can be stopped after every crossword found and resumed later.
pub struct CrosswordIterator<'a> {
    settings: &'a CrosswordGeneratorSettings,
    current_crossword: Crossword<'a>,
    full_created_crossword_bases: Vec<Crossword<'a>>,
    frame_stack: Vec<Frame<'a>>,
    started: bool,
    ended: bool,
    found: Ghost<Seq<Seq<WordView>>>,
    count: Ghost<nat>,
    goal: Ghost<SearchState>,
}

impl<'a> CrosswordIterator<'a> {
    /// What the machine holds, as a state of the search.
    spec fn state(self) -> SearchState {
        SearchState {
            pruning: true,
            crossword: self.current_crossword@,
            bases: crosswords(self.full_created_crossword_bases@),
            found: self.found@,
            steps: self.count@,
        }
    }

    /// The frames of the machine, the innermost last.
    spec fn frames(self) -> Seq<FrameView> {
        frames_of(self.frame_stack@)
    }

    /// Every frame is in order, each leads to the next, and the crossword is that of the last.
    spec fn chained(self) -> bool {
        chain_ok(self.frame_stack@) && self.current_crossword@ == self.frame_stack@.last().node@
    }

    /// Before the first step: one frame with all the words, an empty crossword, nothing
    /// explored and nothing found.
    spec fn fresh(self) -> bool {
        &&& self.frame_stack@.len() == 1
        &&& self.frame_stack@[0].node@ == Seq::<WordView>::empty()
        &&& self.frame_stack@[0].word_index == 0
        &&& self.frame_stack@[0].step_index == 0
        &&& node_ok(Seq::<WordView>::empty(), texts(self.frame_stack@[0].remained_words@))
        &&& self.state() == SearchState::start()
        &&& self.goal@ == enter(*self.settings, self.state(),
            texts(self.frame_stack@[0].remained_words@))
    }

    /// In the middle of the search.
    spec fn running(self) -> bool {
        &&& self.started
        &&& !self.ended
        &&& self.chained()
        &&& resume(*self.settings, self.frames(), self.state()) == self.goal@
    }

    /// The machine is in order: it has not started, or is in the middle of a search of which it
    /// holds what is left to do, or has ended.
    pub closed spec fn wf(self) -> bool {
        if self.ended {
            self.state() == self.goal@
        } else if !self.started {
            self.fresh()
        } else {
            self.running()
        }
    }

    /// Every crossword that the machine yields from its first step to its end, in order.
    pub closed spec fn results(self) -> Seq<Seq<WordView>> {
        self.goal@.found
    }

    /// The number of crosswords yielded so far.
    pub closed spec fn emitted(self) -> nat {
        self.found@.len()
    }

    /// The steps that are left to take.
    spec fn left(self) -> int {
        self.goal@.steps - self.count@
    }

    /// Takes the word off the crossword again after the crossword it led to is explored.
    fn retreat(&mut self, step: &Word<'a>)
        ensures
            final(self).state() == old(self).state().backtracked(step@.text),
            final(self).settings == old(self).settings,
            final(self).frame_stack == old(self).frame_stack,
            final(self).started == old(self).started,
            final(self).ended == old(self).ended,
            final(self).goal == old(self).goal,
    {
        record(&mut self.full_created_crossword_bases, &self.current_crossword);
        self.current_crossword.remove_word(step.value);
    }

    /// One step of the machine, when a way to place the word in turn is left to try: the word
    /// is placed; the crossword so made is left at once, or found, or gets a frame of its own.
    fn try_way(&mut self) -> (r: Progress<'a>)
        requires
            old(self).running(),
            old(self).frame_stack@.last().step_index < old(self).frame_stack@.last().steps@.len(),
        ensures
            final(self).running(),
            final(self).settings == old(self).settings,
            final(self).goal == old(self).goal,
            final(self).count@ > old(self).count@,
            match r {
                Progress::Going => final(self).found@ == old(self).found@,
                Progress::Found(c) => final(self).found@ == old(self).found@.push(c@),
                Progress::Finished => false,
            },
    {
        let ghost frames0 = self.frames();
        let ghost st0 = self.state();
        let ghost stack0 = self.frame_stack@;
        let ghost settings = *self.settings;
        let mut frame = self.frame_stack.pop().unwrap();
        let ghost top0 = frame;
        proof {
            assert(top0 == stack0[stack0.len() - 1]);
            assert(top0.ok());
            assert(frames0.last() == top0@);
            assert(self.frame_stack@ =~= stack0.drop_last());
            lemma_room_positive(top0@.rest);
            lemma_room_remove(top0@.rest, top0@.index);
        }
        let words_left = frame.remained_words.len();
        assert(frame.steps@.len() == frame.steps.len());
        let step = frame.steps[frame.step_index];
        proof {
            assert(views(top0.steps@)[top0.step_index as int] == step@);
            lemma_child_ok(top0.node@, top0@.rest, top0@.index, step@);
        }
        self.current_crossword.add_word(&step);
        self.count = Ghost((self.count@ + 2) as nat);
        let ghost inside = st0.ticked().with_word(step@).ticked();
        assert(self.state() == inside);
        let valid = self.settings.crossword_settings.is_crossword_valid(&self.current_crossword);
        let blocked = !valid || is_covered(&self.full_created_crossword_bases,
            &self.current_crossword);
        if blocked || words_left == 1 {
            proof {
                if blocked {
                    lemma_resume_skip(settings, frames0, st0);
                } else {
                    lemma_resume_find(settings, frames0, st0);
                }
            }
            let mut out: Option<Crossword<'a>> = None;
            if !blocked {
                self.found = Ghost(self.found@.push(self.current_crossword@));
                out = Some(self.current_crossword.clone());
            }
            self.retreat(&step);
            frame.step_index = frame.step_index + 1;
            self.frame_stack.push(frame);
            proof {
                assert(self.frame_stack@ =~= stack0.drop_last().push(frame));
                assert(frame@ == stepped(top0@));
                lemma_chain_replace(stack0, frame);
            }
            return match out {
                Some(crossword) => Progress::Found(crossword),
                None => Progress::Going,
            };
        }
        let others = remaining_without(&frame.remained_words, frame.word_index);
        proof {
            lemma_room_positive(texts(others@));
            lemma_room_remove(texts(others@), 0);
        }
        let first = others[0];
        assert(texts(others@)[0] == first@);
        let ways = self.current_crossword.calculate_possible_ways_to_add_word(
            first,
            &self.settings.word_compatibility_settings,
        );
        proof {
            lemma_resume_descend(settings, frames0, st0);
        }
        let child = Frame {
            remained_words: others,
            word_index: 0,
            steps: ways,
            step_index: 0,
            node: Ghost(self.current_crossword@),
        };
        self.frame_stack.push(frame);
        self.frame_stack.push(child);
        proof {
            assert(self.frame_stack@ =~= stack0.push(child));
            assert(child.ok());
            assert(top0.leads_to(child));
            lemma_chain_push(stack0, child);
        }
        Progress::Going
    }

    /// One step of the machine, when no way is left for the word in turn and another word is:
    /// the next word has its turn.
    fn turn_word(&mut self)
        requires
            old(self).running(),
            old(self).frame_stack@.last().step_index == old(self).frame_stack@.last().steps@.len(),
            old(self).frame_stack@.last().word_index + 1
                < old(self).frame_stack@.last().remained_words@.len(),
        ensures
            final(self).running(),
            final(self).settings == old(self).settings,
            final(self).goal == old(self).goal,
            final(self).count@ > old(self).count@,
            final(self).found@ == old(self).found@,
    {
        let ghost frames0 = self.frames();
        let ghost st0 = self.state();
        let ghost stack0 = self.frame_stack@;
        let ghost settings = *self.settings;
        let mut frame = self.frame_stack.pop().unwrap();
        let ghost top0 = frame;
        proof {
            assert(top0 == stack0[stack0.len() - 1]);
            assert(top0.ok());
            assert(frames0.last() == top0@);
            assert(self.frame_stack@ =~= stack0.drop_last());
            lemma_room_positive(top0@.rest);
            lemma_room_remove(top0@.rest, top0@.index + 1);
            lemma_resume_advance(settings, frames0, st0);
        }
        assert(frame.remained_words@.len() == frame.remained_words.len());
        self.count = Ghost((self.count@ + 1) as nat);
        frame.word_index = frame.word_index + 1;
        let word = frame.remained_words[frame.word_index];
        assert(top0@.rest[top0@.index + 1] == word@);
        frame.steps = self.current_crossword.calculate_possible_ways_to_add_word(
            word,
            &self.settings.word_compatibility_settings,
        );
        frame.step_index = 0;
        self.frame_stack.push(frame);
        proof {
            assert(self.frame_stack@ =~= stack0.drop_last().push(frame));
            assert(frame.ok());
            lemma_chain_replace(stack0, frame);
        }
    }

    /// One step of the machine, when no way is left for the last word in turn: the frame is
    /// left, and in the frame below the next way has its turn.
    fn leave_frame(&mut self) -> (r: Progress<'a>)
        requires
            old(self).running(),
            old(self).frame_stack@.last().step_index == old(self).frame_stack@.last().steps@.len(),
            old(self).frame_stack@.last().word_index + 1
                == old(self).frame_stack@.last().remained_words@.len(),
        ensures
            final(self).wf(),
            final(self).started,
            final(self).settings == old(self).settings,
            final(self).goal == old(self).goal,
            final(self).count@ > old(self).count@,
            final(self).found@ == old(self).found@,
            match r {
                Progress::Going => !final(self).ended,
                Progress::Found(c) => false,
                Progress::Finished => final(self).ended,
            },
    {
        let ghost frames0 = self.frames();
        let ghost st0 = self.state();
        let ghost stack0 = self.frame_stack@;
        let ghost settings = *self.settings;
        let frame = self.frame_stack.pop().unwrap();
        proof {
            assert(frame == stack0[stack0.len() - 1]);
            assert(frame.ok());
            assert(frames0.last() == frame@);
            assert(self.frame_stack@ =~= stack0.drop_last());
            lemma_resume_ascend(settings, frames0, st0);
        }
        self.count = Ghost((self.count@ + 1) as nat);
        if self.frame_stack.len() == 0 {
            self.ended = true;
            proof {
                assert(frames0.drop_last().len() == 0);
            }
            return Progress::Finished;
        }
        proof {
            lemma_chain_pop(stack0);
        }
        let mut parent = self.frame_stack.pop().unwrap();
        let ghost parent0 = parent;
        proof {
            assert(parent0 == stack0.drop_last().last());
            assert(parent0.ok());
            assert(frames0.drop_last().last() == parent0@);
            assert(self.frame_stack@ =~= stack0.drop_last().drop_last());
        }
            assert(parent.steps@.len() == parent.steps.len());
        let step = parent.steps[parent.step_index];
        proof {
            assert(views(parent0.steps@)[parent0.step_index as int] == step@);
            lemma_child_ok(parent0.node@, parent0@.rest, parent0@.index, step@);
        }
        self.retreat(&step);
        parent.step_index = parent.step_index + 1;
        self.frame_stack.push(parent);
        proof {
            assert(self.frame_stack@ =~= stack0.drop_last().drop_last().push(parent));
            assert(parent@ == stepped(parent0@));
            assert(parent.ok());
            lemma_chain_replace(stack0.drop_last(), parent);
        }
        Progress::Going
    }

    /// One step of the machine.
    fn step(&mut self) -> (r: Progress<'a>)
        requires
            old(self).running(),
        ensures
            final(self).wf(),
            final(self).started,
            final(self).settings == old(self).settings,
            final(self).goal == old(self).goal,
            final(self).count@ > old(self).count@,
            match r {
                Progress::Going => !final(self).ended && final(self).found@ == old(self).found@,
                Progress::Found(c) => !final(self).ended && final(self).found@
                    == old(self).found@.push(c@),
                Progress::Finished => final(self).ended && final(self).found@ == old(self).found@,
            },
    {
        let top = self.frame_stack.len() - 1;
        assert(self.frame_stack@[top as int].ok());
        let ways_known = self.frame_stack[top].steps.len();
        let words_left = self.frame_stack[top].remained_words.len();
        let way_in_turn = self.frame_stack[top].step_index;
        let word_in_turn = self.frame_stack[top].word_index;
        if way_in_turn < ways_known {
            self.try_way()
        } else if word_in_turn + 1 < words_left {
            self.turn_word();
            Progress::Going
        } else {
            self.leave_frame()
        }
    }

    /// The next crossword of the search, or `None` when there is no more.
    pub fn next(&mut self) -> (r: Option<Crossword<'a>>)
        requires
            old(self).wf(),
        ensures
            final(self).wf(),
            final(self).results() == old(self).results(),
            match r {
                Some(c) => old(self).emitted() < old(self).results().len() && c@
                    == old(self).results()[old(
                    self,
                ).emitted() as int] && final(self).emitted() == old(self).emitted() + 1,
                None => old(self).emitted() == old(self).results().len() && final(self).emitted()
                    == old(
                    self,
                ).emitted(),
            },
    {
        if self.ended {
            return None;
        }
        if !self.started {
            self.started = true;
            self.count = Ghost((self.count@ + 1) as nat);
            let ghost rest = texts(self.frame_stack@[0].remained_words@);
            let valid =
                self.settings.crossword_settings.is_crossword_valid(&self.current_crossword);
            let blocked = !valid || is_covered(&self.full_created_crossword_bases,
                &self.current_crossword);
            if blocked {
                self.ended = true;
                return None;
            }
            let mut frame = self.frame_stack.pop().unwrap();
            if frame.remained_words.len() == 0 {
                self.found = Ghost(self.found@.push(self.current_crossword@));
                self.ended = true;
                return Some(self.current_crossword.clone());
            }
            proof {
                lemma_room_positive(rest);
                lemma_room_remove(rest, 0);
            }
            let word = frame.remained_words[0];
            assert(rest[0] == word@);
            frame.steps = self.current_crossword.calculate_possible_ways_to_add_word(
                word,
                &self.settings.word_compatibility_settings,
            );
            self.frame_stack.push(frame);
            proof {
                assert(self.frame_stack@ =~= seq![frame]);
                assert(self.frames() =~= seq![frame@]);
                lemma_resume_unfold(*self.settings, self.frames(), self.state());
                assert(self.frames().drop_last().len() == 0);
                assert(frame.ok());
            }
        }
        loop
            invariant
                self.running(),
                self.goal == old(self).goal,
                self.found == old(self).found,
            decreases self.left(),
        {
            proof {
                lemma_resume_grows(*self.settings, self.frames(), self.state());
            }
            let progress = self.step();
            proof {
                if !self.ended {
                    lemma_resume_grows(*self.settings, self.frames(), self.state());
                }
            }
            match progress {
                Progress::Going => {},
                Progress::Found(c) => {
                    return Some(c);
                },
                Progress::Finished => {
                    return None;
                },
            }
        }
    }
}

impl CrosswordGenerator {
    /// Checks whether the words of the request can be searched on this machine: whether
    /// their letters, with one cell for each word, can be counted in a machine integer.
    pub fn has_room(&self) -> (r: bool)
        ensures
            r == (room(word_texts(self.words@)) <= isize::MAX),
    {
        let ghost all = word_texts(self.words@);
        let limit: usize = isize::MAX as usize;
        let mut total: usize = 0;
        let mut k: usize = 0;
        while k < self.words.len()
            invariant
                k <= self.words@.len(),
                all == word_texts(self.words@),
                limit == isize::MAX,
                total <= limit,
                total == room(all.take(k as int)),
            decreases self.words@.len() - k,
        {
            let length = self.words[k].as_str().unicode_len();
            proof {
                assert(all.take(k + 1).drop_last() =~= all.take(k as int));
                assert(all.take(k + 1).last() == self.words@[k as int]@);
                lemma_room_prefix(all, k + 1);
            }
            if length >= limit - total {
                return false;
            }
            total = total + length + 1;
            k += 1;
        }
        assert(all.take(k as int) =~= all);
        true
    }

    /// The machine for this request, before its first step.
    pub fn crossword_iter(&self) -> (r: CrosswordIterator<'_>)
        requires
            room(word_texts(self.words@)) <= isize::MAX,
        ensures
            r.wf(),
            r.emitted() == 0,
            r.results() == results(self.settings, word_texts(self.words@).to_set()),
            r.results().no_duplicates(),
            forall|full: Seq<WordView>|
                #![trigger goal(self.settings, word_texts(self.words@).to_set(), full)]
                r.results().contains(full) <==> goal(self.settings,
                    word_texts(self.words@).to_set(), full),
    {
        proof {
            theorem_results_are_the_answers(self.settings, word_texts(self.words@));
            theorem_results_without_repeats(self.settings, word_texts(self.words@).to_set());
        }
        let words = canonical_words(&self.words);
        let current_crossword = Crossword::default();
        let ghost rest = texts(words@);
        let ghost node = Seq::<WordView>::empty();
        let frame = Frame::new(words, Ghost(node));
        let mut frame_stack: Vec<Frame<'_>> = Vec::new();
        frame_stack.push(frame);
        let full_created_crossword_bases: Vec<Crossword<'_>> = Vec::new();
        proof {
            assert(crosswords(full_created_crossword_bases@) =~= Seq::<Seq<WordView>>::empty());
            assert(reach_x(node) == 0 && reach_y(node) == 0);
        }
        CrosswordIterator {
            settings: &self.settings,
            current_crossword,
            full_created_crossword_bases,
            frame_stack,
            started: false,
            ended: false,
            found: Ghost(Seq::empty()),
            count: Ghost(0),
            goal: Ghost(search(self.settings, word_texts(self.words@).to_set())),
        }
    }
}

impl CrosswordGenerator {
    /// Every crossword of the words of the request, each once, in the order in which the
    /// resumable machine yields them.
    pub fn generate_crosswords(&self) -> (r: Vec<Crossword<'_>>)
        requires
            room(word_texts(self.words@)) <= isize::MAX,
        ensures
            crosswords(r@) == results(self.settings, word_texts(self.words@).to_set()),
            crosswords(r@).no_duplicates(),
            forall|full: Seq<WordView>|
                #![trigger goal(self.settings, word_texts(self.words@).to_set(), full)]
                crosswords(r@).contains(full) <==> goal(
                    self.settings,
                    word_texts(self.words@).to_set(),
                    full,
                ),
    {
        proof {
            theorem_results_are_the_answers(self.settings, word_texts(self.words@));
            theorem_results_without_repeats(self.settings, word_texts(self.words@).to_set());
        }
        let mut machine = self.crossword_iter();
        let mut found: Vec<Crossword<'_>> = Vec::new();
        let mut more = true;
        assert(crosswords(found@) =~= machine.results().take(0));
        while more
            invariant
                machine.wf(),
                machine.results() == results(self.settings, word_texts(self.words@).to_set()),
                machine.emitted() <= machine.results().len(),
                crosswords(found@) == machine.results().take(machine.emitted() as int),
                !more ==> machine.emitted() == machine.results().len(),
            decreases machine.results().len() - machine.emitted() + if more { 1int } else { 0int },
        {
            let ghost prior = crosswords(found@);
            match machine.next() {
                Some(crossword) => {
                    found.push(crossword);
                    assert(crosswords(found@) =~= prior.push(crossword@));
                    assert(crosswords(found@) =~= machine.results().take(machine.emitted() as int));
                },
                None => {
                    more = false;
                },
            }
        }
        assert(machine.results().take(machine.emitted() as int) =~= machine.results());
        found
    }

    /// Every crossword of the words of the request, each once, in the order in which the
    /// recursion finds them: the same crosswords in the same order as the resumable machine
    /// yields.
    pub fn generate_crosswords_rec(&self) -> (r: Vec<Crossword<'_>>)
        requires
            room(word_texts(self.words@)) <= isize::MAX,
        ensures
            crosswords(r@) == results(self.settings, word_texts(self.words@).to_set()),
            crosswords(r@).no_duplicates(),
            forall|full: Seq<WordView>|
                #![trigger goal(self.settings, word_texts(self.words@).to_set(), full)]
                crosswords(r@).contains(full) <==> goal(
                    self.settings,
                    word_texts(self.words@).to_set(),
                    full,
                ),
    {
        proof {
            theorem_results_are_the_answers(self.settings, word_texts(self.words@));
            theorem_results_without_repeats(self.settings, word_texts(self.words@).to_set());
        }
        let words = canonical_words(&self.words);
        let mut crossword = Crossword::default();
        let mut bases: Vec<Crossword<'_>> = Vec::new();
        let mut found: Vec<Crossword<'_>> = Vec::new();
        proof {
            assert(crosswords(bases@) =~= Seq::<Seq<WordView>>::empty());
            assert(crosswords(found@) =~= Seq::<Seq<WordView>>::empty());
            assert(reach_x(crossword@) == 0 && reach_y(crossword@) == 0);
            assert(Self::state(crossword, bases@, found@, 0) == SearchState::start());
        }
        self.crossword_iter_rec_impl(None, &mut crossword, &words, &mut bases, &mut found,
            Ghost(0));
        found
    }
}

/// The handle through which a coroutine of corosensei gives a value to whoever resumed it.
#[verifier::external_type_specification]
#[verifier::external_body]
#[verifier::reject_recursive_types(Input)]
#[verifier::reject_recursive_types(Yield)]
pub struct ExYielder<Input, Yield>(Yielder<Input, Yield>);

/// The recursive search as a sequence that yields one crossword at a time: a coroutine of
/// corosensei that runs the recursion on a stack of its own. Dropping the sequence before its
/// end unwinds that stack, which needs a build that unwinds on panic.
#[verifier::external_body]
pub struct CrosswordIteratorRecursive<'a> {
    generating_coroutine: ScopedCoroutine<'a, (), Crossword<'a>, (), DefaultStack>,
}

/// Whether the coroutine of the sequence has run to its end.
pub uninterp spec fn finished(sequence: CrosswordIteratorRecursive<'_>) -> bool;

/// What the coroutine of the sequence gives when it is resumed next: the words of the
/// crossword that it hands over, or nothing when it runs to its end.
pub uninterp spec fn resumed(sequence: CrosswordIteratorRecursive<'_>) -> Option<Seq<WordView>>;

/// The words of a crossword that may be there.
pub open spec fn shown<'a>(crossword: Option<Crossword<'a>>) -> Option<Seq<WordView>> {
    match crossword {
        Some(c) => Some(c@),
        None => None,
    }
}

/// Gives a crossword to whoever resumed the coroutine, and waits to be resumed: `suspend` of
/// corosensei. When the sequence is dropped before its end, corosensei unwinds the coroutine
/// from inside this call, which then does not return; the unwinding ends inside the drop.
#[verifier::external_body]
fn hand_over<'a>(yielder: &Yielder<(), Crossword<'a>>, crossword: Crossword<'a>) {
    yielder.suspend(crossword)
}

/// A coroutine that runs the recursive search of a request when it is first resumed: `new` of
/// corosensei's `ScopedCoroutine`, which sets the coroutine up without running it, so that
/// the coroutine it returns has not run to its end.
#[verifier::external_body]
fn start_coroutine<'a>(generator: &'a CrosswordGenerator) -> (r: CrosswordIteratorRecursive<'a>)
    requires
        room(word_texts(generator.words@)) <= isize::MAX,
    ensures
        !finished(r),
{
    CrosswordIteratorRecursive {
        generating_coroutine: ScopedCoroutine::new(
            move |yielder, _| generator.run_recursive(yielder),
        ),
    }
}

/// Whether the coroutine has run to its end: `done` of corosensei.
#[verifier::external_body]
fn is_finished<'a>(sequence: &CrosswordIteratorRecursive<'a>) -> (r: bool)
    ensures
        r == finished(*sequence),
{
    sequence.generating_coroutine.done()
}

/// Runs the coroutine until it gives a crossword or ends: `resume` of corosensei, which must
/// not be called on a coroutine that has ended, which gives what the coroutine hands over or
/// nothing when the coroutine returns, and which leaves a coroutine that returned ended.
#[verifier::external_body]
fn resume_coroutine<'a>(sequence: &mut CrosswordIteratorRecursive<'a>) -> (r: Option<Crossword<'a>>)
    requires
        !finished(*old(sequence)),
    ensures
        shown(r) == resumed(*old(sequence)),
        r is None ==> finished(*final(sequence)),
{
    match sequence.generating_coroutine.resume(()) {
        CoroutineResult::Yield(crossword) => Some(crossword),
        CoroutineResult::Return(()) => None,
    }
}

impl<'a> CrosswordIteratorRecursive<'a> {
    /// The next crossword that the recursion hands over, or `None` when the recursion has
    /// ended; after `None` every call gives `None`. A sequence that has not ended is resumed,
    /// and what its coroutine gives is returned.
    pub fn next(&mut self) -> (r: Option<Crossword<'a>>)
        ensures
            finished(*old(self)) ==> r is None && *final(self) == *old(self),
            !finished(*old(self)) ==> shown(r) == resumed(*old(self)),
            r is None ==> finished(*final(self)),
    {
        if is_finished(self) {
            None
        } else {
            resume_coroutine(self)
        }
    }
}

impl CrosswordGenerator {
    /// The whole recursive search of the request, with every crossword found handed to the
    /// yielder.
    fn run_recursive<'a>(&'a self, yielder: &Yielder<(), Crossword<'a>>)
        requires
            room(word_texts(self.words@)) <= isize::MAX,
    {
        let words = canonical_words(&self.words);
        let mut crossword = Crossword::default();
        let mut bases: Vec<Crossword<'a>> = Vec::new();
        let mut found: Vec<Crossword<'a>> = Vec::new();
        proof {
            assert(reach_x(crossword@) == 0 && reach_y(crossword@) == 0);
        }
        self.crossword_iter_rec_impl(Some(yielder), &mut crossword, &words, &mut bases, &mut found,
            Ghost(0));
    }

    /// The recursive search of the request as a sequence that yields one crossword at a time.
    /// The sequence is new: no step of the search is taken before the first crossword is
    /// asked for, and the sequence has not run to its end.
    pub fn crossword_iter_rec(&self) -> (r: CrosswordIteratorRecursive<'_>)
        requires
            room(word_texts(self.words@)) <= isize::MAX,
        ensures
            !finished(r),
    {
        start_coroutine(self)
    }
}

} // verus!
