use std::ops::RangeInclusive;

use crossword_generator::word::{Word, WordCompatibilitySettings, WordDirection, WordPosition};

fn placed(value: &'static str, direction: WordDirection, x: isize, y: isize) -> Word<'static> {
    Word { position: WordPosition { x, y }, direction, value }
}

/// Moves "arcax" over every position of the window, row by row, and records what `probe` says
/// of it against "hayastan" at the origin.
fn sweep(
    fixed: WordDirection,
    moving: WordDirection,
    ys: RangeInclusive<isize>,
    xs: RangeInclusive<isize>,
    probe: &dyn Fn(&Word, &Word) -> bool,
) -> Vec<isize> {
    let first = placed("hayastan", fixed, 0, 0);
    let mut seen = Vec::new();
    for y in ys {
        for x in xs.clone() {
            let second = placed("arcax", moving, x, y);
            seen.push(if probe(&first, &second) { 1 } else { 0 });
        }
    }
    seen
}

/// Reads a picture of the window: one digit per position, letters for the four settings.
fn picture(rows: &[&str], a: isize, b: isize, c: isize, d: isize) -> Vec<isize> {
    let mut cells = Vec::new();
    for row in rows {
        for symbol in row.chars() {
            cells.push(match symbol {
                '0' | '.' => 0,
                '1' | '#' => 1,
                'a' => a,
                'b' => b,
                'c' => c,
                'd' => d,
                other => panic!("unexpected symbol {:?}", other),
            });
        }
    }
    cells
}

fn plain(rows: &[&str]) -> Vec<isize> {
    picture(rows, 0, 0, 0, 0)
}

const RIGHT: WordDirection = WordDirection::Right;
const DOWN: WordDirection = WordDirection::Down;

#[test]
fn test_word_bounding_box_same_direction_as() {
    let same = |a: WordDirection, b: WordDirection| {
        placed("hayastan", a, 0, 0)
            .get_bounding_box()
            .same_direction_as(&placed("arcax", b, 0, 0).get_bounding_box())
    };
    assert!(same(RIGHT, RIGHT));
    assert!(!same(DOWN, RIGHT));
    assert!(same(DOWN, DOWN));
}

#[test]
fn test_word_bounding_box_intersects() {
    let probe = |f: &Word, s: &Word| f.get_bounding_box().intersects(&s.get_bounding_box());
    assert_eq!(
        sweep(RIGHT, RIGHT, -2..=2, -6..=9, &probe),
        plain(&[
            "................",
            "................",
            "..############..",
            "................",
            "................",
        ]),
        "hor_hor"
    );
    assert_eq!(
        sweep(DOWN, DOWN, -6..=9, -2..=2, &probe),
        plain(&[
            ".....", ".....", "..#..", "..#..", "..#..", "..#..", "..#..", "..#..", "..#..",
            "..#..", "..#..", "..#..", "..#..", "..#..", ".....", ".....",
        ]),
        "ver_ver"
    );
    assert_eq!(
        sweep(RIGHT, DOWN, -6..=2, -2..=9, &probe),
        plain(&[
            "............",
            "............",
            "..########..",
            "..########..",
            "..########..",
            "..########..",
            "..########..",
            "............",
            "............",
        ]),
        "hor_ver"
    );
}

#[test]
fn test_word_bounding_box_side_touches_side() {
    let probe = |f: &Word, s: &Word| f.get_bounding_box().side_touches_side(&s.get_bounding_box());
    assert_eq!(
        sweep(RIGHT, RIGHT, -2..=2, -6..=9, &probe),
        plain(&[
            "................",
            "..############..",
            "................",
            "..############..",
            "................",
        ]),
        "hor_hor"
    );
    assert_eq!(
        sweep(DOWN, DOWN, -6..=9, -2..=2, &probe),
        plain(&[
            ".....", ".....", ".#.#.", ".#.#.", ".#.#.", ".#.#.", ".#.#.", ".#.#.", ".#.#.",
            ".#.#.", ".#.#.", ".#.#.", ".#.#.", ".#.#.", ".....", ".....",
        ]),
        "ver_ver"
    );
    assert_eq!(
        sweep(RIGHT, DOWN, -6..=2, -2..=9, &probe),
        plain(&["............"; 9]),
        "hor_ver"
    );
}

#[test]
fn test_word_bounding_box_side_touches_head() {
    let probe = |f: &Word, s: &Word| f.get_bounding_box().side_touches_head(&s.get_bounding_box());
    assert_eq!(
        sweep(RIGHT, RIGHT, -2..=2, -6..=9, &probe),
        plain(&["................"; 5]),
        "hor_hor"
    );
    assert_eq!(sweep(DOWN, DOWN, -6..=9, -2..=2, &probe), plain(&["....."; 16]), "ver_ver");
    assert_eq!(
        sweep(RIGHT, DOWN, -6..=2, -2..=9, &probe),
        plain(&[
            "............",
            "..########..",
            ".#........#.",
            ".#........#.",
            ".#........#.",
            ".#........#.",
            ".#........#.",
            "..########..",
            "............",
        ]),
        "hor_ver"
    );
}

#[test]
fn test_word_bounding_box_head_touches_head() {
    let probe = |f: &Word, s: &Word| f.get_bounding_box().head_touches_head(&s.get_bounding_box());
    assert_eq!(
        sweep(RIGHT, RIGHT, -2..=2, -6..=9, &probe),
        plain(&[
            "................",
            "................",
            ".#............#.",
            "................",
            "................",
        ]),
        "hor_hor"
    );
    assert_eq!(
        sweep(DOWN, DOWN, -6..=9, -2..=2, &probe),
        plain(&[
            ".....", "..#..", ".....", ".....", ".....", ".....", ".....", ".....", ".....",
            ".....", ".....", ".....", ".....", ".....", "..#..", ".....",
        ]),
        "ver_ver"
    );
    assert_eq!(
        sweep(RIGHT, DOWN, -6..=2, -2..=9, &probe),
        plain(&["............"; 9]),
        "hor_ver"
    );
}

#[test]
fn test_word_bounding_box_corners() {
    let probe = |f: &Word, s: &Word| f.get_bounding_box().corners(&s.get_bounding_box());
    assert_eq!(
        sweep(RIGHT, RIGHT, -2..=2, -6..=9, &probe),
        plain(&[
            "................",
            ".#............#.",
            "................",
            ".#............#.",
            "................",
        ]),
        "hor_hor"
    );
    assert_eq!(
        sweep(DOWN, DOWN, -6..=9, -2..=2, &probe),
        plain(&[
            ".....", ".#.#.", ".....", ".....", ".....", ".....", ".....", ".....", ".....",
            ".....", ".....", ".....", ".....", ".....", ".#.#.", ".....",
        ]),
        "ver_ver"
    );
    assert_eq!(
        sweep(RIGHT, DOWN, -6..=2, -2..=9, &probe),
        plain(&[
            "............",
            ".#........#.",
            "............",
            "............",
            "............",
            "............",
            "............",
            ".#........#.",
            "............",
        ]),
        "hor_ver"
    );
}

#[test]
fn test_word_bounding_box_get_intersection_indices() {
    let indices = |first: Word, second: Word| {
        first.get_bounding_box().get_intersection_indices(&second.get_bounding_box())
    };
    assert_eq!(indices(placed("hayastan", RIGHT, 0, 0), placed("arcax", RIGHT, 0, 0)), None);
    assert_eq!(indices(placed("hayastan", DOWN, 0, 0), placed("arcax", RIGHT, 0, 0)), Some((0, 0)));
    assert_eq!(indices(placed("hayastan", DOWN, 0, 0), placed("arcax", RIGHT, -1, 2)), Some((2, 1)));
    assert_eq!(indices(placed("hayastan", DOWN, 0, 0), placed("arcax", RIGHT, 2, 2)), None);
}

#[test]
fn test_word_compatibility_settings_are_words_compatible() {
    for code in 0..16isize {
        let (a, b, c, d) = (code / 8 % 2, code / 4 % 2, code / 2 % 2, code % 2);
        let settings = WordCompatibilitySettings {
            side_by_side: a != 0,
            head_by_head: b != 0,
            side_by_head: c != 0,
            corner_by_corner: d != 0,
        };
        let probe = |f: &Word, s: &Word| settings.are_words_compatible(f, s);

        assert_eq!(
            sweep(RIGHT, RIGHT, -2..=2, -6..=9, &probe),
            picture(
                &[
                    "1111111111111111",
                    "1daaaaaaaaaaaad1",
                    "1b000000000000b1",
                    "1daaaaaaaaaaaad1",
                    "1111111111111111",
                ],
                a, b, c, d
            ),
            "hor_hor with settings {:?}",
            settings
        );
        assert_eq!(
            sweep(DOWN, DOWN, -6..=9, -2..=2, &probe),
            picture(
                &[
                    "11111", "1dbd1", "1a0a1", "1a0a1", "1a0a1", "1a0a1", "1a0a1", "1a0a1",
                    "1a0a1", "1a0a1", "1a0a1", "1a0a1", "1a0a1", "1a0a1", "1dbd1", "11111",
                ],
                a, b, c, d
            ),
            "ver_ver with settings {:?}",
            settings
        );
        assert_eq!(
            sweep(RIGHT, DOWN, -6..=2, -2..=9, &probe),
            picture(
                &[
                    "111111111111",
                    "1dccccccccd1",
                    "1c00000000c1",
                    "1c01010010c1",
                    "1c00000000c1",
                    "1c00000000c1",
                    "1c01010010c1",
                    "1dccccccccd1",
                    "111111111111",
                ],
                a, b, c, d
            ),
            "hor_ver with settings {:?}",
            settings
        );
    }
}
