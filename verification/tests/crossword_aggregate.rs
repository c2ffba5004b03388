use std::collections::BTreeSet;

use crossword_generator::crossword::Crossword;
use crossword_generator::word::{Word, WordCompatibilitySettings, WordDirection, WordPosition};

fn across(value: &'static str, x: isize, y: isize) -> Word<'static> {
    Word { position: WordPosition { x, y }, direction: WordDirection::Right, value }
}

fn down(value: &'static str, x: isize, y: isize) -> Word<'static> {
    Word { position: WordPosition { x, y }, direction: WordDirection::Down, value }
}

/// The five-word grid of "hello", "local", "cat", "and" and "toy", one cell up and left of
/// where a crossword keeps it.
fn five_words() -> Crossword<'static> {
    Crossword::new(&[
        across("hello", -1, -1),
        down("local", 1, -1),
        across("cat", 1, 1),
        down("and", 2, 1),
        down("toy", 3, 1),
    ])
}

#[test]
fn test_crossword_contains_crossword() {
    let cw = five_words();
    let mut whole = five_words();
    let mut corner = Crossword::new(&[across("cat", 2, 1), down("and", 3, 1), down("toy", 4, 1)]);
    let mut apart = Crossword::new(&[down("and", 2, 2), down("toy", 3, 1)]);
    whole.normalize();
    corner.normalize();
    apart.normalize();

    assert_eq!(
        [cw.contains_crossword(&whole), cw.contains_crossword(&corner), cw.contains_crossword(&apart)],
        [true, true, false]
    );
}

#[test]
fn test_crossword_generate_string() {
    let expected = [
        "-----------",
        "|h e l l o|",
        "|    o    |",
        "|    c a t|",
        "|    a n o|",
        "|    l d y|",
        "-----------",
        "",
    ]
    .join("\n");
    assert_eq!(five_words().generate_string(), expected);
}

#[test]
fn test_crossword_normalize() {
    let mut cw = five_words();
    cw.normalize();

    let normal = Crossword::new(&[
        across("hello", 0, 0),
        down("local", 2, 0),
        across("cat", 2, 2),
        down("and", 3, 2),
        down("toy", 4, 2),
    ]);
    assert_eq!(cw, normal);
}

#[test]
fn test_crossword_remove_word() {
    let mut cw = five_words();
    cw.remove_word("toy");

    let without = Crossword::new(&[
        across("hello", 0, 0),
        down("local", 2, 0),
        across("cat", 2, 2),
        down("and", 3, 2),
    ]);
    assert_eq!(cw, without);
}

#[test]
fn test_crossword_calculate_possible_ways_to_add_word() {
    let cw = Crossword::new(&[across("hello", 0, 0), down("local", 2, 0), across("tac", 0, 2)]);
    let ways: BTreeSet<Word> = cw
        .calculate_possible_ways_to_add_word("hatlo", &WordCompatibilitySettings::default())
        .into_iter()
        .collect();

    let expected: BTreeSet<Word> =
        [down("hatlo", 0, 0), across("hatlo", -1, 4), down("hatlo", 4, -4)].into_iter().collect();
    assert_eq!(ways, expected);
}
