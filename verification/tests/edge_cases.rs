use crossword_generator::crossword::{Crossword, CrosswordSettings, CrosswordSizeConstraint};
use crossword_generator::word::{Word, WordCompatibilitySettings, WordDirection, WordPosition};

fn across(value: &'static str, x: isize, y: isize) -> Word<'static> {
    Word { position: WordPosition { x, y }, direction: WordDirection::Right, value }
}

fn down(value: &'static str, x: isize, y: isize) -> Word<'static> {
    Word { position: WordPosition { x, y }, direction: WordDirection::Down, value }
}

fn hello_local() -> Crossword<'static> {
    Crossword::new(&[across("hello", 0, 0), down("local", 2, 0)])
}

const ALL: WordCompatibilitySettings = WordCompatibilitySettings {
    side_by_side: true,
    head_by_head: true,
    side_by_head: true,
    corner_by_corner: true,
};

#[test]
fn default_settings_allow_corners_only() {
    let settings = WordCompatibilitySettings::default();
    assert_eq!(
        settings,
        WordCompatibilitySettings {
            side_by_side: false,
            head_by_head: false,
            side_by_head: false,
            corner_by_corner: true,
        }
    );
    assert_eq!(Word::default(), across("", 0, 0));
    assert_eq!(CrosswordSizeConstraint::default(), CrosswordSizeConstraint::Unlimited);
    assert!(CrosswordSettings::default().size_constraints.is_empty());
}

#[test]
fn opposite_swaps_the_directions() {
    assert_eq!(WordDirection::Right.opposite(), WordDirection::Down);
    assert_eq!(WordDirection::Down.opposite(), WordDirection::Right);
    assert!(WordDirection::Right.same_as(&WordDirection::Right));
    assert!(!WordDirection::Right.same_as(&WordDirection::Down));
}

#[test]
fn the_box_of_a_word_is_one_cell_thick() {
    let flat = across("hello", -3, 7).get_bounding_box();
    assert_eq!((flat.x, flat.y, flat.w, flat.h), (-3, 7, 5, 1));
    let tall = down("hello", -3, 7).get_bounding_box();
    assert_eq!((tall.x, tall.y, tall.w, tall.h), (-3, 7, 1, 5));
    let accented = across("héllo", 0, 0).get_bounding_box();
    assert_eq!(accented.w, 5);
}

#[test]
fn the_predicates_do_not_depend_on_the_order_of_the_boxes() {
    let fixed = across("hayastan", 0, 0).get_bounding_box();
    for moving in [WordDirection::Right, WordDirection::Down] {
        for y in -7..=3 {
            for x in -7..=10 {
                let other = Word { position: WordPosition { x, y }, direction: moving, value: "arcax" }
                    .get_bounding_box();
                assert_eq!(fixed.intersects(&other), other.intersects(&fixed));
                assert_eq!(fixed.corners(&other), other.corners(&fixed));
                assert_eq!(fixed.side_touches_side(&other), other.side_touches_side(&fixed));
                assert_eq!(fixed.head_touches_head(&other), other.head_touches_head(&fixed));
                assert_eq!(fixed.side_touches_head(&other), other.side_touches_head(&fixed));
                assert_eq!(fixed.same_direction_as(&other), other.same_direction_as(&fixed));
            }
        }
    }
}

#[test]
fn a_single_cell_goes_with_either_direction() {
    let cell = down("a", 0, 0).get_bounding_box();
    let beside = down("abc", 1, 0).get_bounding_box();
    assert!(cell.side_touches_side(&beside));
    assert!(beside.side_touches_side(&cell));
    assert!(!cell.head_touches_head(&beside));
    assert!(!beside.head_touches_head(&cell));

    let below = down("abc", 0, 1).get_bounding_box();
    assert!(cell.head_touches_head(&below));
    assert!(below.head_touches_head(&cell));
    assert!(!cell.side_touches_side(&below));
    assert!(!below.side_touches_side(&cell));

    let row = across("abc", 1, 0).get_bounding_box();
    assert!(cell.head_touches_head(&row));
    assert!(row.head_touches_head(&cell));
    let under = across("abc", 0, 1).get_bounding_box();
    assert!(cell.side_touches_side(&under));
    assert!(under.side_touches_side(&cell));

    let neighbour = across("b", 1, 0).get_bounding_box();
    assert!(cell.side_touches_side(&neighbour) && neighbour.side_touches_side(&cell));
    assert!(cell.head_touches_head(&neighbour) && neighbour.head_touches_head(&cell));
}

#[test]
fn the_predicates_do_not_depend_on_the_order_with_a_single_cell() {
    for fixed_direction in [WordDirection::Right, WordDirection::Down] {
        let fixed = Word { position: WordPosition { x: 0, y: 0 }, direction: fixed_direction, value: "a" }
            .get_bounding_box();
        for (value, moving) in [
            ("b", WordDirection::Right),
            ("b", WordDirection::Down),
            ("arcax", WordDirection::Right),
            ("arcax", WordDirection::Down),
        ] {
            for y in -7..=3 {
                for x in -7..=3 {
                    let other =
                        Word { position: WordPosition { x, y }, direction: moving, value }.get_bounding_box();
                    assert_eq!(fixed.intersects(&other), other.intersects(&fixed));
                    assert_eq!(fixed.corners(&other), other.corners(&fixed));
                    assert_eq!(fixed.side_touches_side(&other), other.side_touches_side(&fixed));
                    assert_eq!(fixed.head_touches_head(&other), other.head_touches_head(&fixed));
                    assert_eq!(fixed.side_touches_head(&other), other.side_touches_head(&fixed));
                    assert_eq!(
                        ALL.are_words_compatible(
                            &Word { position: WordPosition { x: 0, y: 0 }, direction: fixed_direction, value: "a" },
                            &Word { position: WordPosition { x, y }, direction: moving, value },
                        ),
                        ALL.are_words_compatible(
                            &Word { position: WordPosition { x, y }, direction: moving, value },
                            &Word { position: WordPosition { x: 0, y: 0 }, direction: fixed_direction, value: "a" },
                        )
                    );
                }
            }
        }
    }
}

#[test]
fn with_every_contact_allowed_only_overlap_and_disagreement_forbid() {
    let first = across("hayastan", 0, 0);
    for y in -6..=2 {
        for x in -6..=9 {
            let crossing = down("arcax", x, y);
            let boxes_meet = first.get_bounding_box().intersects(&crossing.get_bounding_box());
            let agree = boxes_meet
                && "hayastan".chars().nth(x as usize) == "arcax".chars().nth((0 - y) as usize);
            assert_eq!(ALL.are_words_compatible(&first, &crossing), !boxes_meet || agree);

            let parallel = across("arcax", x, y);
            let overlap = first.get_bounding_box().intersects(&parallel.get_bounding_box());
            assert_eq!(ALL.are_words_compatible(&first, &parallel), !overlap);
        }
    }
}

#[test]
fn a_crossing_word_of_one_letter_is_incompatible() {
    assert!(!ALL.are_words_compatible(&across("a", 0, 0), &down("abc", 0, 0)));
    assert!(!ALL.are_words_compatible(&across("abc", 0, 0), &down("a", 0, 0)));
}

#[test]
fn every_pair_of_equal_letters_gives_a_candidate() {
    let ways = across("hello", 0, 0).calculate_possible_ways_to_add_word("local");
    assert_eq!(
        ways,
        vec![
            down("local", 2, -4),
            down("local", 2, 0),
            down("local", 3, -4),
            down("local", 3, 0),
            down("local", 4, -1),
        ]
    );
    let ways = down("hello", 1, 1).calculate_possible_ways_to_add_word("local");
    assert_eq!(
        ways,
        vec![
            across("local", -3, 3),
            across("local", -3, 4),
            across("local", 0, 5),
            across("local", 1, 3),
            across("local", 1, 4),
        ]
    );
    assert!(across("hello", 0, 0).calculate_possible_ways_to_add_word("track").is_empty());
    assert!(across("hello", 0, 0).calculate_possible_ways_to_add_word("").is_empty());
    assert_eq!(
        across("aa", 0, 0).calculate_possible_ways_to_add_word("aa"),
        vec![down("aa", 0, -1), down("aa", 0, 0), down("aa", 1, -1), down("aa", 1, 0)]
    );
}

#[test]
fn the_words_of_a_crossword_are_kept_in_order() {
    let mixed = Crossword::new(&[down("bee", 0, 0), across("bat", 0, 0), across("bad", 0, 0), across("zoo", -1, 5)]);
    let sorted = Crossword::new(&[across("zoo", -1, 5), across("bad", 0, 0), across("bat", 0, 0), down("bee", 0, 0)]);
    assert_eq!(mixed, sorted);
    assert!(mixed.equals(&sorted));
    assert_eq!(format!("{:?}", mixed), format!("{:?}", sorted));
    assert_eq!(mixed.find_word("zoo"), Some(&across("zoo", 0, 5)));
    assert_eq!(mixed.find_word("bad"), Some(&across("bad", 1, 0)));
    assert_eq!(mixed.find_word("ba"), None);
    assert_eq!(mixed.words().len(), 4);
    assert_eq!(mixed.words()[0], across("zoo", 0, 5));
    assert_eq!(mixed.words()[3], down("bee", 1, 0));
}

#[test]
fn of_two_words_with_one_text_the_first_is_kept() {
    let crossword = Crossword::new(&[across("cat", 3, 3), down("cat", 0, 0), across("dog", 5, 5)]);
    assert_eq!(crossword, Crossword::new(&[across("cat", 0, 0), across("dog", 2, 2)]));
}

#[test]
fn normalizing_twice_changes_nothing() {
    let mut crossword = Crossword::new(&[across("hello", 4, -9), down("local", 6, -9)]);
    assert_eq!(crossword, hello_local());
    crossword.normalize();
    assert_eq!(crossword, hello_local());
    crossword.normalize();
    assert_eq!(crossword, hello_local());
    assert_eq!(crossword.find_word("hello").unwrap().position, WordPosition { x: 0, y: 0 });
}

#[test]
fn normalizing_looks_at_positions_only() {
    let crossword = Crossword::new(&[across("cat", 5, 7), down("toy", 7, 7)]);
    assert_eq!(crossword.find_word("cat"), Some(&across("cat", 0, 0)));
    assert_eq!(crossword.find_word("toy"), Some(&down("toy", 2, 0)));
    assert_eq!(crossword.get_size(), (3, 3));
}

#[test]
fn adding_a_word_with_a_known_text_changes_nothing() {
    let mut crossword = hello_local();
    crossword.add_word(&down("hello", 9, 9));
    assert_eq!(crossword, hello_local());
    crossword.add_word(&down("halo", 0, -1));
    assert_eq!(
        crossword,
        Crossword::new(&[across("hello", 0, 1), down("local", 2, 1), down("halo", 0, 0)])
    );
    crossword.remove_word("halo");
    assert_eq!(crossword, hello_local());
}

#[test]
fn removing_an_unknown_word_changes_nothing() {
    let mut crossword = hello_local();
    crossword.remove_word("hell");
    assert_eq!(crossword, hello_local());
    crossword.remove_word("hello");
    assert_eq!(crossword, Crossword::new(&[down("local", 0, 0)]));
    crossword.remove_word("local");
    assert_eq!(crossword, Crossword::default());
    assert_eq!(crossword.get_size(), (0, 0));
}

#[test]
fn a_crossword_contains_itself_and_its_moved_parts() {
    let crossword = hello_local();
    assert!(crossword.contains_crossword(&crossword));
    assert!(crossword.contains_crossword(&Crossword::default()));
    assert!(Crossword::default().contains_crossword(&Crossword::default()));
    assert!(!Crossword::default().contains_crossword(&crossword));
    assert!(crossword.contains_crossword(&Crossword::new(&[down("local", 0, 0)])));
    assert!(!crossword.contains_crossword(&Crossword::new(&[across("local", 0, 0)])));
    assert!(!crossword.contains_crossword(&Crossword::new(&[across("hello", 0, 0), down("local", 3, 0)])));
    assert!(!crossword.contains_crossword(&Crossword::new(&[down("halo", 0, 0)])));
}

#[test]
fn the_first_word_is_placed_across_at_the_origin() {
    let ways = Crossword::default().calculate_possible_ways_to_add_word("hello", &WordCompatibilitySettings::default());
    assert_eq!(ways, vec![across("hello", 0, 0)]);
}

#[test]
fn the_ways_to_add_a_word_cross_a_word_and_touch_none() {
    let crossword = hello_local();
    let ways = crossword.calculate_possible_ways_to_add_word("halo", &WordCompatibilitySettings::default());
    assert_eq!(
        ways,
        vec![down("halo", 0, 0), across("halo", 0, 4), across("halo", 1, 3), down("halo", 4, -3)]
    );
    for way in &ways {
        assert!(crossword.can_word_be_added(way, &WordCompatibilitySettings::default()));
    }
    assert!(!crossword.can_word_be_added(&down("halo", 3, -2), &WordCompatibilitySettings::default()));
    assert!(crossword
        .calculate_possible_ways_to_add_word("buzz", &WordCompatibilitySettings::default())
        .is_empty());
}

#[test]
fn the_size_spans_every_word() {
    assert_eq!(hello_local().get_size(), (5, 5));
    assert_eq!(Crossword::new(&[across("", 0, 0)]).get_size(), (0, 1));
    assert_eq!(Crossword::new(&[down("", 0, 0)]).get_size(), (1, 0));
    assert_eq!(Crossword::new(&[across("", 2, 0), down("ab", 0, 0)]).get_size(), (2, 2));
    assert_eq!(Crossword::new(&[across("", 0, 0)]).generate_string(), "-\n||\n-\n");
    assert_eq!(Crossword::new(&[down("a", 0, 0)]).get_size(), (1, 1));
    assert_eq!(Crossword::new(&[across("hello", 0, 0), across("enter", 3, 3)]).get_size(), (8, 4));
}

#[test]
fn the_table_holds_a_space_where_no_word_lies() {
    assert_eq!(
        hello_local().generate_char_table(),
        vec![
            vec!['h', 'e', 'l', 'l', 'o'],
            vec![' ', ' ', 'o', ' ', ' '],
            vec![' ', ' ', 'c', ' ', ' '],
            vec![' ', ' ', 'a', ' ', ' '],
            vec![' ', ' ', 'l', ' ', ' '],
        ]
    );
    assert!(Crossword::default().generate_char_table().is_empty());
}

#[test]
fn where_words_disagree_the_later_word_shows() {
    let crossword = Crossword::new(&[across("cat", 0, 0), down("dog", 0, 0)]);
    assert_eq!(crossword.generate_string(), "-------\n|d a t|\n|o    |\n|g    |\n-------\n");
}

#[test]
fn an_empty_crossword_is_two_frame_lines() {
    assert_eq!(Crossword::default().generate_string(), "-\n-\n");
    assert_eq!(Crossword::new(&[across("a", 0, 0)]).generate_string(), "---\n|a|\n---\n");
}

#[test]
fn each_constraint_bounds_its_own_measure() {
    let crossword = Crossword::new(&[across("hello", 0, 0), down("like", 2, 0), across("enter", 2, 3)]);
    assert_eq!(crossword.get_size(), (7, 4));
    assert!(CrosswordSizeConstraint::MaxLength(7).is_crossword_valid(&crossword));
    assert!(!CrosswordSizeConstraint::MaxLength(6).is_crossword_valid(&crossword));
    assert!(CrosswordSizeConstraint::MaxHeight(4).is_crossword_valid(&crossword));
    assert!(!CrosswordSizeConstraint::MaxHeight(3).is_crossword_valid(&crossword));
    assert!(CrosswordSizeConstraint::MaxArea(28).is_crossword_valid(&crossword));
    assert!(!CrosswordSizeConstraint::MaxArea(27).is_crossword_valid(&crossword));
    assert!(CrosswordSizeConstraint::Unlimited.is_crossword_valid(&crossword));
    assert!(CrosswordSizeConstraint::MaxArea(usize::MAX).is_crossword_valid(&crossword));

    let mut settings = CrosswordSettings::default();
    assert!(settings.is_crossword_valid(&crossword));
    settings.size_constraints.push(CrosswordSizeConstraint::MaxLength(7));
    settings.size_constraints.push(CrosswordSizeConstraint::MaxArea(28));
    assert!(settings.is_crossword_valid(&crossword));
    settings.size_constraints.push(CrosswordSizeConstraint::MaxHeight(3));
    assert!(!settings.is_crossword_valid(&crossword));
}

#[test]
fn words_fit_when_the_normalized_grid_ends_within_the_machine_range() {
    assert!(Crossword::words_fit(&[]));
    assert!(Crossword::words_fit(&[across("hello", -1, -1), down("local", 1, -1)]));
    assert!(Crossword::words_fit(&[across("hello", isize::MAX - 4, isize::MIN)]));
    assert!(Crossword::words_fit(&[across("hello", isize::MIN, 0), down("local", -3, 0)]));
    assert!(Crossword::words_fit(&[across("hello", 0, 0), across("toy", isize::MAX - 3, 0)]));
    assert!(!Crossword::words_fit(&[across("hello", 0, 0), across("toy", isize::MAX - 2, 0)]));
    assert!(!Crossword::words_fit(&[down("hello", 0, 0), down("toy", 0, isize::MAX - 2)]));
    assert!(!Crossword::words_fit(&[across("a", -1, 0), down("b", isize::MAX, 0)]));
    assert!(Crossword::words_fit(&[across("a", -1, 0), down("b", isize::MAX - 2, 0)]));
    // A word whose text an earlier word has is not kept, and does not count.
    assert!(Crossword::words_fit(&[across("a", 0, 0), down("a", isize::MAX, isize::MAX)]));
}

#[test]
fn a_crossword_can_hold_a_word_that_keeps_the_grid_within_the_machine_range() {
    let crossword = hello_local();
    assert!(crossword.can_hold(&down("halo", 0, -1)));
    assert!(crossword.can_hold(&across("far", isize::MAX - 3, 0)));
    assert!(!crossword.can_hold(&across("far", isize::MAX - 2, 0)));
    assert!(crossword.can_hold(&down("far", 0, isize::MIN + 6)));
    assert!(!crossword.can_hold(&down("far", 0, isize::MIN + 5)));
    assert!(Crossword::default().can_hold(&across("far", isize::MAX, isize::MIN)));
}

#[test]
fn a_word_can_be_crossed_where_the_crossings_have_coordinates() {
    assert!(across("hello", 0, 0).can_be_crossed_by("local"));
    assert!(across("hello", isize::MAX, isize::MIN).can_be_crossed_by("track"));
    assert!(across("hello", isize::MAX, 0).can_be_crossed_by("hat"));
    assert!(!across("hello", isize::MAX, 0).can_be_crossed_by("eat"));
    assert!(across("hello", 0, isize::MIN).can_be_crossed_by("hat"));
    assert!(!across("hello", 0, isize::MIN).can_be_crossed_by("oh"));
    assert!(down("hello", isize::MIN, 0).can_be_crossed_by("hat"));
    assert!(!down("hello", isize::MIN, 0).can_be_crossed_by("oh"));
    assert!(!down("hello", 0, isize::MAX - 3).can_be_crossed_by("o"));
    assert!(down("hello", 0, isize::MAX - 4).can_be_crossed_by("o"));
}
