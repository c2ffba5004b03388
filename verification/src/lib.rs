//! Enumeration of every way a set of words can be interlocked into a crossword grid.
//!
//! - [`word`]: placed words, their bounding boxes, the spatial predicates on pairs of boxes, the
//!   rule that decides whether two placed words may coexist, and the placements of a new word
//!   that cross a placed one.
//! - [`crossword`]: the set of placed words, kept normalized, with the ways to add a word, the
//!   size, containment and the printable form.
//! - [`generator`]: the search for every crossword of a set of words, as a recursion and as a
//!   machine that yields one crossword at a time and can be resumed.
//! - [`search`]: the search as a mathematical function, against which both forms are verified.
//! - [`theorems`]: what the search finds, stated without the search, and that leaving out the
//!   crosswords that contain an explored one changes nothing of it; [`arrangement`] holds the
//!   lemmas on single crosswords that the theorems rest on.
//! - [`order`] and [`text`]: the order of placed words and of texts.

pub mod arrangement;
pub mod crossword;
pub mod generator;
pub mod order;
pub mod search;
pub mod text;
pub mod theorems;
pub mod word;
