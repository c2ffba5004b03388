use crossword_generator::crossword::{Crossword, CrosswordSizeConstraint};
use crossword_generator::generator::{CrosswordGenerator, CrosswordGeneratorSettings};
use crossword_generator::word::{Word, WordDirection, WordPosition};

fn request(words: &[&str]) -> CrosswordGenerator {
    let mut generator = CrosswordGenerator::default();
    generator.settings = CrosswordGeneratorSettings::default();
    generator.words = words.iter().map(|s| s.to_lowercase()).collect();
    generator
}

fn across(value: &'static str, x: isize, y: isize) -> Word<'static> {
    Word { position: WordPosition { x, y }, direction: WordDirection::Right, value }
}

fn down(value: &'static str, x: isize, y: isize) -> Word<'static> {
    Word { position: WordPosition { x, y }, direction: WordDirection::Down, value }
}

fn drain_machine(generator: &CrosswordGenerator) -> Vec<Crossword<'_>> {
    let mut machine = generator.crossword_iter();
    let mut seen = Vec::new();
    while let Some(crossword) = machine.next() {
        seen.push(crossword);
    }
    assert!(machine.next().is_none());
    seen
}

fn drain_recursion(generator: &CrosswordGenerator) -> Vec<Crossword<'_>> {
    let mut sequence = generator.crossword_iter_rec();
    let mut seen = Vec::new();
    while let Some(crossword) = sequence.next() {
        seen.push(crossword);
    }
    assert!(sequence.next().is_none());
    seen
}

#[test]
fn test_run() {
    let mut generator = request(&["Hello", "world", "asdf", "myname", "sesame", "yeeee"]);
    generator.settings.crossword_settings.size_constraints.push(CrosswordSizeConstraint::MaxLength(13));
    generator.settings.word_compatibility_settings.side_by_head = true;
    assert_eq!(drain_machine(&generator).len(), drain_recursion(&generator).len());
}

#[test]
fn no_word_gives_the_empty_crossword_once() {
    let generator = request(&[]);
    let empty = Crossword::new(&[]);
    assert_eq!(drain_machine(&generator), vec![empty.clone()]);
    assert_eq!(drain_recursion(&generator), vec![empty.clone()]);
    assert_eq!(generator.generate_crosswords(), vec![empty.clone()]);
    assert_eq!(generator.generate_crosswords_rec(), vec![empty]);
}

#[test]
fn one_word_lies_across_at_the_origin() {
    let generator = request(&["cat"]);
    let only = Crossword::new(&[across("cat", 0, 0)]);
    assert_eq!(drain_machine(&generator), vec![only.clone()]);
    assert_eq!(drain_recursion(&generator), vec![only.clone()]);
    assert_eq!(generator.generate_crosswords(), vec![only]);
}

#[test]
fn two_words_cross_at_their_shared_letter() {
    let generator = request(&["cat", "toy"]);
    let found = generator.generate_crosswords();
    let cat_first = Crossword::new(&[across("cat", 0, 0), down("toy", 2, 0)]);
    let toy_first = Crossword::new(&[across("toy", 0, 0), down("cat", 0, -2)]);
    assert_eq!(found, vec![cat_first, toy_first]);
}

#[test]
fn words_without_a_shared_letter_give_nothing() {
    let generator = request(&["cat", "pig"]);
    assert!(generator.generate_crosswords().is_empty());
    assert!(drain_recursion(&generator).is_empty());
}

#[test]
fn both_engines_find_the_same_crosswords_in_the_same_order() {
    for words in [
        vec![],
        vec!["hello"],
        vec!["hello", "local"],
        vec!["hello", "local", "cat"],
        vec!["cat", "and", "toy", "local"],
        vec!["aa", "ab", "ba"],
    ] {
        let generator = request(&words);
        let machine = drain_machine(&generator);
        assert_eq!(machine, drain_recursion(&generator), "{:?}", words);
        assert_eq!(machine, generator.generate_crosswords_rec(), "{:?}", words);
        assert_eq!(machine, generator.generate_crosswords(), "{:?}", words);
    }
}

#[test]
fn no_crossword_is_found_twice() {
    let generator = request(&["hello", "local", "cat", "toy"]);
    let found = drain_machine(&generator);
    assert!(!found.is_empty());
    for (i, first) in found.iter().enumerate() {
        for second in &found[i + 1..] {
            assert_ne!(first, second);
        }
    }
}

#[test]
fn the_order_and_repetition_of_the_words_do_not_matter() {
    let sorted = request(&["and", "cat", "local", "toy"]);
    let shuffled = request(&["toy", "local", "and", "cat", "toy", "and"]);
    assert_eq!(sorted.generate_crosswords(), shuffled.generate_crosswords());
    assert_eq!(sorted.generate_crosswords(), shuffled.generate_crosswords_rec());
}

#[test]
fn every_crossword_found_holds_every_word_and_meets_the_constraints() {
    let unconstrained = request(&["hello", "local", "cat"]);
    let free = unconstrained.generate_crosswords();
    assert_eq!(free.len(), 14);

    let mut narrow = request(&["hello", "local", "cat"]);
    narrow.settings.crossword_settings.size_constraints.push(CrosswordSizeConstraint::MaxLength(5));
    assert_eq!(narrow.generate_crosswords().len(), 11);

    let mut low = request(&["hello", "local", "cat"]);
    low.settings.crossword_settings.size_constraints.push(CrosswordSizeConstraint::MaxHeight(5));
    assert_eq!(low.generate_crosswords().len(), 11);

    let mut small = request(&["hello", "local", "cat"]);
    small.settings.crossword_settings.size_constraints.push(CrosswordSizeConstraint::MaxLength(5));
    small.settings.crossword_settings.size_constraints.push(CrosswordSizeConstraint::MaxArea(25));
    small.settings.crossword_settings.size_constraints.push(CrosswordSizeConstraint::Unlimited);
    let found = small.generate_crosswords();
    assert_eq!(found.len(), 8);
    for crossword in &found {
        assert!(small.settings.crossword_settings.is_crossword_valid(crossword));
        assert_eq!(crossword.get_size(), (5, 5));
        for text in ["hello", "local", "cat"] {
            assert!(crossword.find_word(text).is_some());
        }
        assert!(free.contains(crossword));
    }

    let mut tiny = request(&["hello", "local", "cat"]);
    tiny.settings.crossword_settings.size_constraints.push(CrosswordSizeConstraint::MaxArea(24));
    assert!(tiny.generate_crosswords().is_empty());
}

#[test]
fn a_word_of_one_letter_is_never_crossed() {
    let generator = request(&["a", "ab"]);
    assert!(generator.generate_crosswords().is_empty());
    assert!(generator.generate_crosswords_rec().is_empty());
}

#[test]
fn the_machine_can_be_left_after_any_crossword() {
    let generator = request(&["hello", "local", "cat"]);
    let all = drain_machine(&generator);
    assert!(all.len() > 2);
    let mut machine = generator.crossword_iter();
    assert_eq!(machine.next().as_ref(), Some(&all[0]));
    assert_eq!(machine.next().as_ref(), Some(&all[1]));
    let mut sequence = generator.crossword_iter_rec();
    assert_eq!(sequence.next().as_ref(), Some(&all[0]));
}

/// Every crossword reachable by placing the remaining words one by one, with no crossword
/// left out for containing another.
fn explore<'a>(
    generator: &CrosswordGenerator,
    crossword: &mut Crossword<'a>,
    remaining: &[&'a str],
    found: &mut std::collections::BTreeSet<Crossword<'a>>,
) {
    if !generator.settings.crossword_settings.is_crossword_valid(crossword) {
        return;
    }
    if remaining.is_empty() {
        found.insert(crossword.clone());
        return;
    }
    for (index, text) in remaining.iter().enumerate() {
        let others: Vec<&'a str> =
            remaining.iter().enumerate().filter(|(i, _)| *i != index).map(|(_, t)| *t).collect();
        let ways = crossword
            .calculate_possible_ways_to_add_word(text, &generator.settings.word_compatibility_settings);
        for way in ways {
            crossword.add_word(&way);
            explore(generator, crossword, &others, found);
            crossword.remove_word(way.value);
        }
    }
}

#[test]
fn leaving_out_explored_crosswords_loses_none() {
    for (words, allow_touching) in [
        (vec!["cat", "toy"], false),
        (vec!["hello", "local", "cat"], false),
        (vec!["hello", "local", "cat", "toy"], true),
        (vec!["aa", "ab", "ba"], true),
        (vec!["cat", "pig"], false),
    ] {
        let mut generator = request(&words);
        generator.settings.word_compatibility_settings.side_by_head = allow_touching;
        generator.settings.word_compatibility_settings.side_by_side = allow_touching;
        generator.settings.crossword_settings.size_constraints.push(CrosswordSizeConstraint::MaxArea(60));
        let mut sorted: Vec<&str> = generator.words.iter().map(|s| s.as_str()).collect();
        sorted.sort();
        let mut all = std::collections::BTreeSet::new();
        explore(&generator, &mut Crossword::default(), &sorted, &mut all);
        let found: std::collections::BTreeSet<Crossword> = generator.generate_crosswords().into_iter().collect();
        assert_eq!(found, all, "{:?}", words);
        assert_eq!(found.len(), generator.generate_crosswords().len());
    }
}

#[test]
fn short_words_leave_room_for_the_search() {
    assert!(request(&[]).has_room());
    assert!(request(&["hello", "local", "cat"]).has_room());
    assert!(request(&["", "", ""]).has_room());
}
