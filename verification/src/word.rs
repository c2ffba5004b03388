//! Placed words: their positions, directions and bounding boxes, the spatial predicates on
//! pairs of boxes, and the rule that decides whether two placed words may coexist.

use vstd::prelude::*;
use itertools::Itertools;
use crate::order::{increasing, insert_word, lists, views};
use crate::text::chars_of;

verus! {

/// Which kinds of contact between two placed words are allowed.
#[derive(Clone, Copy, Debug, PartialEq, Eq, PartialOrd, Ord)]
pub struct WordCompatibilitySettings {
    /// Words of the same direction may lie in neighbouring rows or columns.
    pub side_by_side: bool,
    /// Words of the same direction may follow each other without a gap.
    pub head_by_head: bool,
    /// The end of a word may touch the flank of a perpendicular word.
    pub side_by_head: bool,
    /// Two words may touch at a single diagonal corner.
    pub corner_by_corner: bool,
}

/// The position of the first letter of a word on the grid.
#[derive(Clone, Copy, Debug, PartialEq, Eq, PartialOrd, Ord)]
pub struct WordPosition {
    pub x: isize,
    pub y: isize,
}

/// The direction in which a word runs.
#[derive(Clone, Copy, Debug, PartialEq, Eq, PartialOrd, Ord)]
pub enum WordDirection {
    Right,
    Down,
}

/// A word placed on the grid.
#[derive(Clone, Copy, Debug, PartialEq, Eq, PartialOrd, Ord)]
pub struct Word<'a> {
    pub position: WordPosition,
    pub direction: WordDirection,
    pub value: &'a str,
}

/// The rectangle that a placed word occupies, in machine integers.
#[derive(Clone, Copy, Debug, PartialEq, Eq, PartialOrd, Ord)]
pub struct WordBoundingBox {
    pub x: isize,
    pub y: isize,
    pub w: usize,
    pub h: usize,
}

/// A placed word as a mathematical value: integer coordinates, a direction and the sequence
/// of its characters.
pub struct WordView {
    pub x: int,
    pub y: int,
    pub direction: WordDirection,
    pub text: Seq<char>,
}

/// The rectangle of grid cells that a placed word occupies, over the integers.
pub struct Rect {
    pub x: int,
    pub y: int,
    pub w: int,
    pub h: int,
}

impl Rect {
    /// A rectangle has the shape of a word when it is one cell thick.
    pub open spec fn shaped(self) -> bool {
        self.w >= 0 && self.h >= 0 && (self.w == 1 || self.h == 1)
    }

    /// Both rectangles are one cell wide, or both are one cell high.
    pub open spec fn same_direction_as(self, other: Rect) -> bool {
        (self.w == 1 && other.w == 1) || (self.h == 1 && other.h == 1)
    }

    /// The projections of the two rectangles on the horizontal axis overlap.
    pub open spec fn overlaps_x(self, other: Rect) -> bool {
        self.x < other.x + other.w && self.x + self.w > other.x
    }

    /// The projections of the two rectangles on the vertical axis overlap.
    pub open spec fn overlaps_y(self, other: Rect) -> bool {
        self.y < other.y + other.h && self.y + self.h > other.y
    }

    /// The rectangles share at least one cell; a shared boundary line is not enough.
    pub open spec fn intersects(self, other: Rect) -> bool {
        self.overlaps_x(other) && self.overlaps_y(other)
    }

    /// Two rectangles of the same direction lie side by side: both are one cell high, in
    /// neighbouring rows, and overlap along the row; or both are one cell wide, in neighbouring
    /// columns, and overlap along the column. A single cell goes with either direction.
    pub open spec fn side_touches_side(self, other: Rect) -> bool {
        ||| self.h == 1 && other.h == 1 && (self.y - other.y == 1 || other.y - self.y == 1)
            && self.overlaps_x(other)
        ||| self.w == 1 && other.w == 1 && (self.x - other.x == 1 || other.x - self.x == 1)
            && self.overlaps_y(other)
    }

    /// Two rectangles of the same direction follow each other without a gap: both are one
    /// cell high, in one row, and the end of one meets the start of the other; or both are
    /// one cell wide, in one column, and the end of one meets the start of the other. A
    /// single cell goes with either direction.
    pub open spec fn head_touches_head(self, other: Rect) -> bool {
        ||| self.h == 1 && other.h == 1 && self.y == other.y && (self.x + self.w == other.x
            || other.x + other.w == self.x)
        ||| self.w == 1 && other.w == 1 && self.x == other.x && (self.y + self.h == other.y
            || other.y + other.h == self.y)
    }

    /// The horizontal rectangle `self` and the vertical rectangle `ver` are adjacent along
    /// exactly one of the four edges, while their projections otherwise overlap loosely.
    pub open spec fn flank_meets_end(self, ver: Rect) -> bool {
        let right = self.x + self.w == ver.x;
        let left = self.x == ver.x + 1;
        let above = self.y + 1 == ver.y;
        let below = self.y == ver.y + ver.h;
        &&& self.x + self.w >= ver.x
        &&& self.x <= ver.x + 1
        &&& self.y + 1 >= ver.y
        &&& self.y <= ver.y + ver.h
        &&& (if right { 1int } else { 0 }) + (if left { 1int } else { 0 })
            + (if above { 1int } else { 0 }) + (if below { 1int } else { 0 }) == 1
    }

    /// Two rectangles of different direction, the end of one touching the flank of the other
    /// without crossing it. The horizontal one is `self` when `self` is one cell high.
    pub open spec fn side_touches_head(self, other: Rect) -> bool {
        !self.same_direction_as(other) && if self.h == 1 {
            self.flank_meets_end(other)
        } else {
            other.flank_meets_end(self)
        }
    }

    /// A corner of one rectangle coincides with the diagonally opposite corner of the other.
    pub open spec fn corners(self, other: Rect) -> bool {
        ||| (self.x == other.x + other.w && self.y == other.y + other.h)
        ||| (self.x + self.w == other.x && self.y == other.y + other.h)
        ||| (self.x + self.w == other.x && self.y + self.h == other.y)
        ||| (self.x == other.x + other.w && self.y + self.h == other.y)
    }

    /// For two crossing rectangles of different direction, the index into `self` and the index
    /// into `other` of the cell they share.
    pub open spec fn intersection_indices(self, other: Rect) -> Option<(int, int)> {
        if !self.intersects(other) || self.same_direction_as(other) {
            None
        } else if self.h == 1 {
            Some((other.x - self.x, self.y - other.y))
        } else {
            Some((other.y - self.y, self.x - other.x))
        }
    }
}

/// Intersection does not depend on the order of the two rectangles.
pub proof fn lemma_intersects_symmetric(a: Rect, b: Rect)
    ensures
        a.intersects(b) == b.intersects(a),
{
}

/// Corner contact does not depend on the order of the two rectangles.
pub proof fn lemma_corners_symmetric(a: Rect, b: Rect)
    ensures
        a.corners(b) == b.corners(a),
{
}

/// Having the same direction does not depend on the order of the two rectangles.
pub proof fn lemma_same_direction_symmetric(a: Rect, b: Rect)
    ensures
        a.same_direction_as(b) == b.same_direction_as(a),
{
}

/// Side contact does not depend on the order of the two rectangles.
pub proof fn lemma_side_touches_side_symmetric(a: Rect, b: Rect)
    ensures
        a.side_touches_side(b) == b.side_touches_side(a),
{
}

/// Head contact does not depend on the order of the two rectangles.
pub proof fn lemma_head_touches_head_symmetric(a: Rect, b: Rect)
    ensures
        a.head_touches_head(b) == b.head_touches_head(a),
{
}

/// For rectangles that have the shape of a word, the contact of an end with a flank does not
/// depend on the order of the two rectangles.
pub proof fn lemma_side_touches_head_symmetric(a: Rect, b: Rect)
    requires
        a.shaped(),
        b.shaped(),
    ensures
        a.side_touches_head(b) == b.side_touches_head(a),
{
}

/// The two indices of a shared cell swap when the rectangles are swapped.
pub proof fn lemma_intersection_indices_symmetric(a: Rect, b: Rect)
    requires
        a.shaped(),
        b.shaped(),
    ensures
        a.intersection_indices(b) matches Some(p) ==> b.intersection_indices(a) == Some(
            (p.1, p.0),
        ),
        a.intersection_indices(b) is None ==> b.intersection_indices(a) is None,
{
}

impl WordView {
    /// The rectangle that the word occupies: as long as the text along its direction, one
    /// cell across.
    pub open spec fn rect(self) -> Rect {
        match self.direction {
            WordDirection::Right => Rect { x: self.x, y: self.y, w: self.text.len() as int, h: 1 },
            WordDirection::Down => Rect { x: self.x, y: self.y, w: 1, h: self.text.len() as int },
        }
    }

    /// The word moved by `(dx, dy)`.
    pub open spec fn shifted(self, dx: int, dy: int) -> WordView {
        WordView { x: self.x + dx, y: self.y + dy, direction: self.direction, text: self.text }
    }

    /// Both coordinates fit in a machine integer.
    pub open spec fn representable(self) -> bool {
        isize::MIN <= self.x <= isize::MAX && isize::MIN <= self.y <= isize::MAX
    }

    /// Letter `i` of `text` equals letter `j` of this word, so that a word with that text can
    /// cross this one there.
    pub open spec fn crosses_at(self, text: Seq<char>, i: int, j: int) -> bool {
        0 <= i < text.len() && 0 <= j < self.text.len() && text[i] == self.text[j]
    }

    /// The perpendicular placement of `text` whose letter `i` lies on letter `j` of this word.
    pub open spec fn crossing(self, text: Seq<char>, i: int, j: int) -> WordView {
        match self.direction {
            WordDirection::Right => WordView {
                x: self.x + j,
                y: self.y - i,
                direction: WordDirection::Down,
                text,
            },
            WordDirection::Down => WordView {
                x: self.x - i,
                y: self.y + j,
                direction: WordDirection::Right,
                text,
            },
        }
    }

    /// Every placement of `text` that crosses this word at a shared letter.
    pub open spec fn crossings(self, text: Seq<char>) -> Set<WordView> {
        Set::new(
            |c: WordView|
                exists|i: int, j: int|
                    #[trigger] self.crosses_at(text, i, j) && c == self.crossing(text, i, j),
        )
    }
}

impl<'a> View for Word<'a> {
    type V = WordView;

    open spec fn view(&self) -> WordView {
        WordView {
            x: self.position.x as int,
            y: self.position.y as int,
            direction: self.direction,
            text: self.value@,
        }
    }
}

impl View for WordBoundingBox {
    type V = Rect;

    open spec fn view(&self) -> Rect {
        Rect { x: self.x as int, y: self.y as int, w: self.w as int, h: self.h as int }
    }
}

impl Default for WordPosition {
    fn default() -> (r: Self)
        ensures
            r.x == 0,
            r.y == 0,
    {
        WordPosition { x: 0, y: 0 }
    }
}

impl Default for WordDirection {
    fn default() -> (r: Self)
        ensures
            r == WordDirection::Right,
    {
        WordDirection::Right
    }
}

impl<'a> Default for Word<'a> {
    fn default() -> (r: Self)
        ensures
            r@ == (WordView { x: 0, y: 0, direction: WordDirection::Right,
                text: Seq::<char>::empty() }),
    {
        let value: &'a str = "";
        proof {
            reveal_strlit("");
            assert(value@ =~= Seq::<char>::empty());
        }
        Word { position: WordPosition { x: 0, y: 0 }, direction: WordDirection::Right, value }
    }
}

impl Default for WordCompatibilitySettings {
    fn default() -> (r: Self)
        ensures
            !r.side_by_side,
            !r.head_by_head,
            !r.side_by_head,
            r.corner_by_corner,
    {
        WordCompatibilitySettings {
            side_by_side: false,
            head_by_head: false,
            side_by_head: false,
            corner_by_corner: true,
        }
    }
}

impl WordDirection {
    /// The other direction.
    pub open spec fn flipped(self) -> WordDirection {
        match self {
            WordDirection::Down => WordDirection::Right,
            WordDirection::Right => WordDirection::Down,
        }
    }

    /// The other direction.
    pub fn opposite(&self) -> (r: WordDirection)
        ensures
            r == self.flipped(),
    {
        match *self {
            WordDirection::Down => WordDirection::Right,
            WordDirection::Right => WordDirection::Down,
        }
    }

    /// Whether two directions are the same.
    pub fn same_as(&self, other: &WordDirection) -> (r: bool)
        ensures
            r == (*self == *other),
    {
        match (*self, *other) {
            (WordDirection::Right, WordDirection::Right) => true,
            (WordDirection::Down, WordDirection::Down) => true,
            _ => false,
        }
    }
}

impl WordBoundingBox {
    /// Whether both boxes are one cell wide, or both one cell high.
    pub fn same_direction_as(&self, other: &WordBoundingBox) -> (r: bool)
        ensures
            r == self@.same_direction_as(other@),
    {
        (self.w == 1 && other.w == 1) || (self.h == 1 && other.h == 1)
    }

    /// Whether the boxes overlap when looked at from above.
    fn overlaps_x(&self, other: &WordBoundingBox) -> (r: bool)
        ensures
            r == self@.overlaps_x(other@),
    {
        let sx: i128 = self.x as i128;
        let ox: i128 = other.x as i128;
        sx < ox + other.w as i128 && sx + self.w as i128 > ox
    }

    /// Whether the boxes overlap when looked at from the side.
    fn overlaps_y(&self, other: &WordBoundingBox) -> (r: bool)
        ensures
            r == self@.overlaps_y(other@),
    {
        let sy: i128 = self.y as i128;
        let oy: i128 = other.y as i128;
        sy < oy + other.h as i128 && sy + self.h as i128 > oy
    }

    /// Whether the boxes share a cell.
    pub fn intersects(&self, other: &WordBoundingBox) -> (r: bool)
        ensures
            r == self@.intersects(other@),
    {
        self.overlaps_x(other) && self.overlaps_y(other)
    }

    /// Whether two boxes of the same direction lie side by side.
    pub fn side_touches_side(&self, other: &WordBoundingBox) -> (r: bool)
        ensures
            r == self@.side_touches_side(other@),
    {
        let sx: i128 = self.x as i128;
        let sy: i128 = self.y as i128;
        let ox: i128 = other.x as i128;
        let oy: i128 = other.y as i128;
        let in_rows = self.h == 1 && other.h == 1 && (sy - oy == 1 || oy - sy == 1)
            && self.overlaps_x(other);
        let in_columns = self.w == 1 && other.w == 1 && (sx - ox == 1 || ox - sx == 1)
            && self.overlaps_y(other);
        in_rows || in_columns
    }

    /// Whether this horizontal box and the vertical box `ver` are adjacent along exactly one
    /// edge.
    fn flank_meets_end(&self, ver: &WordBoundingBox) -> (r: bool)
        ensures
            r == self@.flank_meets_end(ver@),
    {
        let hx: i128 = self.x as i128;
        let hy: i128 = self.y as i128;
        let hw: i128 = self.w as i128;
        let vx: i128 = ver.x as i128;
        let vy: i128 = ver.y as i128;
        let vh: i128 = ver.h as i128;
        let mut met: u8 = 0;
        if hx + hw == vx {
            met = met + 1;
        }
        if hx == vx + 1 {
            met = met + 1;
        }
        if hy + 1 == vy {
            met = met + 1;
        }
        if hy == vy + vh {
            met = met + 1;
        }
        hx + hw >= vx && hx <= vx + 1 && hy + 1 >= vy && hy <= vy + vh && met == 1
    }

    /// Whether the end of one box touches the flank of the other, of another direction.
    pub fn side_touches_head(&self, other: &WordBoundingBox) -> (r: bool)
        ensures
            r == self@.side_touches_head(other@),
    {
        if self.same_direction_as(other) {
            return false;
        }
        if self.h == 1 {
            self.flank_meets_end(other)
        } else {
            other.flank_meets_end(self)
        }
    }

    /// Whether two boxes of the same direction follow each other without a gap.
    pub fn head_touches_head(&self, other: &WordBoundingBox) -> (r: bool)
        ensures
            r == self@.head_touches_head(other@),
    {
        let sx: i128 = self.x as i128;
        let sy: i128 = self.y as i128;
        let ox: i128 = other.x as i128;
        let oy: i128 = other.y as i128;
        let in_row = self.h == 1 && other.h == 1 && sy == oy && (sx + self.w as i128 == ox || ox
            + other.w as i128 == sx);
        let in_column = self.w == 1 && other.w == 1 && sx == ox && (sy + self.h as i128 == oy
            || oy + other.h as i128 == sy);
        in_row || in_column
    }

    /// Whether the boxes touch at diagonally opposite corners.
    pub fn corners(&self, other: &WordBoundingBox) -> (r: bool)
        ensures
            r == self@.corners(other@),
    {
        let sx: i128 = self.x as i128;
        let sy: i128 = self.y as i128;
        let sw: i128 = self.w as i128;
        let sh: i128 = self.h as i128;
        let ox: i128 = other.x as i128;
        let oy: i128 = other.y as i128;
        let ow: i128 = other.w as i128;
        let oh: i128 = other.h as i128;
        (sx == ox + ow && sy == oy + oh) || (sx + sw == ox && sy == oy + oh) || (sx + sw == ox
            && sy + sh == oy) || (sx == ox + ow && sy + sh == oy)
    }

    /// The indices, into the word of `self` and into the word of `other`, of the cell that two
    /// crossing boxes share; `None` when they do not intersect or have the same direction.
    pub fn get_intersection_indices(&self, other: &WordBoundingBox) -> (r: Option<(usize, usize)>)
        requires
            self@.shaped(),
            other@.shaped(),
        ensures
            match r {
                Some(p) => self@.intersection_indices(other@) == Some((p.0 as int, p.1 as int)),
                None => self@.intersection_indices(other@) is None,
            },
    {
        if !self.intersects(other) {
            return None;
        }
        if self.same_direction_as(other) {
            return None;
        }
        let sx: i128 = self.x as i128;
        let sy: i128 = self.y as i128;
        let ox: i128 = other.x as i128;
        let oy: i128 = other.y as i128;
        if self.h == 1 {
            Some(((ox - sx) as usize, (sy - oy) as usize))
        } else {
            Some(((oy - sy) as usize, (sx - ox) as usize))
        }
    }
}

impl WordCompatibilitySettings {
    /// Whether the letters of the two words agree on the cell where they cross.
    pub open spec fn letters_agree(first: WordView, second: WordView) -> bool {
        match first.rect().intersection_indices(second.rect()) {
            Some(p) => 0 <= p.0 < first.text.len() && 0 <= p.1 < second.text.len()
                && first.text[p.0] == second.text[p.1],
            None => false,
        }
    }

    /// Whether two placed words may coexist under these settings.
    pub open spec fn compatible(self, first: WordView, second: WordView) -> bool {
        let a = first.rect();
        let b = second.rect();
        if a.corners(b) && !self.corner_by_corner {
            false
        } else if first.direction == second.direction {
            &&& !(a.head_touches_head(b) && !self.head_by_head)
            &&& !(a.side_touches_side(b) && !self.side_by_side)
            &&& !a.intersects(b)
        } else {
            &&& !(a.side_touches_head(b) && !self.side_by_head)
            &&& (a.intersects(b) ==> Self::letters_agree(first, second))
        }
    }

    /// Checks whether two placed words may coexist under these settings.
    pub fn are_words_compatible(&self, first: &Word, second: &Word) -> (r: bool)
        ensures
            r == self.compatible(first@, second@),
    {
        let first_bb = first.get_bounding_box();
        let second_bb = second.get_bounding_box();

        if first_bb.corners(&second_bb) && !self.corner_by_corner {
            return false;
        }
        if first.direction.same_as(&second.direction) {
            if first_bb.head_touches_head(&second_bb) && !self.head_by_head {
                return false;
            }
            if first_bb.side_touches_side(&second_bb) && !self.side_by_side {
                return false;
            }
            if first_bb.intersects(&second_bb) {
                return false;
            }
            true
        } else {
            if first_bb.side_touches_head(&second_bb) && !self.side_by_head {
                return false;
            }
            if first_bb.intersects(&second_bb) {
                return match first_bb.get_intersection_indices(&second_bb) {
                    Some(p) => {
                        let first_char = first.value.get_char(p.0);
                        let second_char = second.value.get_char(p.1);
                        first_char == second_char
                    },
                    None => false,
                };
            }
            true
        }
    }
}

/// With every kind of contact allowed, two words are incompatible only when they run in the
/// same direction and overlap, or cross and disagree on the letter of the shared cell.
pub proof fn lemma_compatible_when_all_allowed(
    settings: WordCompatibilitySettings,
    first: WordView,
    second: WordView,
)
    requires
        settings.side_by_side,
        settings.head_by_head,
        settings.side_by_head,
        settings.corner_by_corner,
    ensures
        settings.compatible(first, second) == !(first.rect().intersects(second.rect()) && (
        first.direction == second.direction || !WordCompatibilitySettings::letters_agree(
            first,
            second,
        ))),
{
}

impl<'a> Word<'a> {
    /// The rectangle that the word occupies.
    pub fn get_bounding_box(&self) -> (r: WordBoundingBox)
        ensures
            r@ == self@.rect(),
    {
        match self.direction {
            WordDirection::Right => WordBoundingBox {
                x: self.position.x,
                y: self.position.y,
                w: self.value.unicode_len(),
                h: 1,
            },
            WordDirection::Down => WordBoundingBox {
                x: self.position.x,
                y: self.position.y,
                w: 1,
                h: self.value.unicode_len(),
            },
        }
    }
}

/// Every pair of an item of `first` and an item of `second`: `cartesian_product` of itertools,
/// which walks `second` once for each item of `first`, in order.
#[verifier::external_body]
fn index_pairs(first: &Vec<usize>, second: &Vec<usize>) -> (r: Vec<(usize, usize)>)
    ensures
        r@.len() == first@.len() * second@.len(),
        forall|i: int, j: int|
            #![trigger first@[i], second@[j]]
            0 <= i < first@.len() && 0 <= j < second@.len() ==> r@[i * second@.len() + j] == (
                first@[i],
                second@[j],
            ),
{
    first.iter().copied().cartesian_product(second.iter().copied()).collect()
}

/// The numbers from 0 up to `n`, without `n`.
fn indices(n: usize) -> (r: Vec<usize>)
    ensures
        r@.len() == n,
        forall|i: int| 0 <= i < n ==> r@[i] == i,
{
    let mut v: Vec<usize> = Vec::new();
    let mut i: usize = 0;
    while i < n
        invariant
            i <= n,
            v@.len() == i,
            forall|q: int| 0 <= q < i ==> v@[q] == q,
        decreases n - i,
    {
        v.push(i);
        i += 1;
    }
    v
}

/// A position in a table of `n` rows and `m` columns, counted row by row, splits into its row
/// and its column.
proof fn lemma_cell_of_index(q: int, n: int, m: int)
    requires
        0 <= n,
        0 <= m,
        0 <= q < n * m,
    ensures
        0 < m,
        0 <= q / m < n,
        0 <= q % m < m,
        (q / m) * m + q % m == q,
{
    assert(0 < m) by (nonlinear_arith)
        requires
            0 <= n,
            0 <= m,
            0 <= q < n * m,
    ;
    vstd::arithmetic::div_mod::lemma_fundamental_div_mod(q, m);
    vstd::arithmetic::div_mod::lemma_mod_pos_bound(q, m);
    let d = q / m;
    let r = q % m;
    assert(q == m * d + r);
    assert(0 <= d < n) by (nonlinear_arith)
        requires
            q == m * d + r,
            0 <= r < m,
            0 <= q < n * m,
            0 <= n,
    ;
    assert(d * m + r == q) by (nonlinear_arith)
        requires
            q == m * d + r,
    ;
}

/// Row `i` and column `j` of a table of `n` rows and `m` columns lie at position `i * m + j`.
proof fn lemma_index_of_cell(i: int, j: int, n: int, m: int)
    requires
        0 <= i < n,
        0 <= j < m,
    ensures
        0 <= i * m + j < n * m,
{
    assert(0 <= i * m + j < n * m) by (nonlinear_arith)
        requires
            0 <= i < n,
            0 <= j < m,
    ;
}

impl<'a> Word<'a> {
    /// Checks whether every placement of `word` that crosses this word at a shared letter
    /// has coordinates within the range of a machine integer.
    pub fn can_be_crossed_by(&self, word: &str) -> (r: bool)
        ensures
            r == (forall|c: WordView| self@.crossings(word@).contains(c) ==> c.representable()),
    {
        let new_chars = chars_of(word);
        let own_chars = chars_of(self.value);
        let ghost this = self@;
        let ghost text = word@;
        let mut i: usize = 0;
        while i < new_chars.len()
            invariant
                i <= new_chars@.len(),
                new_chars@ == text,
                own_chars@ == this.text,
                text == word@,
                this == self@,
                forall|p: int, q: int|
                    0 <= p < i && #[trigger] this.crosses_at(text, p, q) ==> this.crossing(
                        text,
                        p,
                        q,
                    ).representable(),
            decreases new_chars@.len() - i,
        {
            let mut j: usize = 0;
            while j < own_chars.len()
                invariant
                    i < new_chars@.len(),
                    j <= own_chars@.len(),
                    new_chars@ == text,
                    own_chars@ == this.text,
                    text == word@,
                    this == self@,
                    forall|p: int, q: int|
                        0 <= p < i && #[trigger] this.crosses_at(text, p, q) ==> this.crossing(
                            text,
                            p,
                            q,
                        ).representable(),
                    forall|q: int|
                        0 <= q < j && #[trigger] this.crosses_at(text, i as int, q)
                            ==> this.crossing(text, i as int, q).representable(),
                decreases own_chars@.len() - j,
            {
                if new_chars[i] == own_chars[j] {
                    let (x, y): (i128, i128) = match self.direction {
                        WordDirection::Right => (
                            self.position.x as i128 + j as i128,
                            self.position.y as i128 - i as i128,
                        ),
                        WordDirection::Down => (
                            self.position.x as i128 - i as i128,
                            self.position.y as i128 + j as i128,
                        ),
                    };
                    let ghost c = this.crossing(text, i as int, j as int);
                    assert(x == c.x && y == c.y);
                    if x < isize::MIN as i128 || x > isize::MAX as i128 || y < isize::MIN as i128
                        || y > isize::MAX as i128 {
                        proof {
                            assert(this.crosses_at(text, i as int, j as int));
                            assert(this.crossings(text).contains(c));
                            assert(!c.representable());
                        }
                        return false;
                    }
                }
                j += 1;
            }
            proof {
                assert forall|p: int, q: int|
                    0 <= p < i + 1 && #[trigger] this.crosses_at(text, p, q) implies this.crossing(
                    text,
                    p,
                    q,
                ).representable() by {
                    if p == i {
                        assert(0 <= q < j);
                    }
                }
            }
            i += 1;
        }
        proof {
            assert forall|c: WordView| this.crossings(text).contains(c) implies c.representable()
                by {
                let (p, q) = choose|p: int, q: int|
                    #[trigger] this.crosses_at(text, p, q) && c == this.crossing(text, p, q);
                assert(0 <= p < i);
            }
        }
        true
    }

    /// Every placement of `word` that crosses this word at a shared letter, in increasing
    /// order. Nothing is checked against other words.
    pub fn calculate_possible_ways_to_add_word(&self, word: &'a str) -> (r: Vec<Word<'a>>)
        requires
            forall|c: WordView| self@.crossings(word@).contains(c) ==> c.representable(),
        ensures
            lists(views(r@), self@.crossings(word@)),
    {
        let new_chars = chars_of(word);
        let own_chars = chars_of(self.value);
        let rows = indices(new_chars.len());
        let columns = indices(own_chars.len());
        let pairs = index_pairs(&rows, &columns);
        let ghost n = new_chars@.len() as int;
        let ghost m = own_chars@.len() as int;
        let ghost this = self@;
        let ghost text = word@;
        let mut pos_ways: Vec<Word<'a>> = Vec::new();
        let mut k: usize = 0;
        while k < pairs.len()
            invariant
                k <= pairs@.len(),
                pairs@.len() == n * m,
                n == new_chars@.len(),
                m == own_chars@.len(),
                new_chars@ == text,
                own_chars@ == this.text,
                text == word@,
                this == self@,
                forall|i: int, j: int|
                    #![trigger rows@[i], columns@[j]]
                    0 <= i < n && 0 <= j < m ==> pairs@[i * m + j] == (rows@[i], columns@[j]),
                rows@.len() == n,
                columns@.len() == m,
                forall|i: int| 0 <= i < n ==> rows@[i] == i,
                forall|j: int| 0 <= j < m ==> columns@[j] == j,
                forall|c: WordView| this.crossings(text).contains(c) ==> c.representable(),
                increasing(views(pos_ways@)),
                forall|x: WordView|
                    views(pos_ways@).contains(x) <==> exists|q: int|
                        0 <= q < k && #[trigger] this.crosses_at(
                            text,
                            pairs@[q].0 as int,
                            pairs@[q].1 as int,
                        ) && x == this.crossing(text, pairs@[q].0 as int, pairs@[q].1 as int),
            decreases pairs@.len() - k,
        {
            let word_ind = pairs[k].0;
            let self_ind = pairs[k].1;
            proof {
                lemma_cell_of_index(k as int, n, m);
                let i = k as int / m;
                let j = k as int % m;
                assert(pairs@[i * m + j] == (rows@[i], columns@[j]));
            }
            let ghost before = views(pos_ways@);
            if new_chars[word_ind] == own_chars[self_ind] {
                let ghost c = this.crossing(text, word_ind as int, self_ind as int);
                proof {
                    assert(this.crosses_at(text, word_ind as int, self_ind as int));
                    assert(this.crossings(text).contains(c));
                    assert(c.representable());
                    assert(c.x == match this.direction {
                        WordDirection::Right => this.x + self_ind,
                        WordDirection::Down => this.x - word_ind,
                    });
                }
                let position = match self.direction {
                    WordDirection::Right => WordPosition {
                        x: (self.position.x as i128 + self_ind as i128) as isize,
                        y: (self.position.y as i128 - word_ind as i128) as isize,
                    },
                    WordDirection::Down => WordPosition {
                        x: (self.position.x as i128 - word_ind as i128) as isize,
                        y: (self.position.y as i128 + self_ind as i128) as isize,
                    },
                };
                let way = Word { position, direction: self.direction.opposite(), value: word };
                assert(way@ == c);
                insert_word(&mut pos_ways, way);
            }
            proof {
                let after = views(pos_ways@);
                assert forall|x: WordView| after.contains(x) <==> exists|q: int|
                    0 <= q < k + 1 && #[trigger] this.crosses_at(
                        text,
                        pairs@[q].0 as int,
                        pairs@[q].1 as int,
                    ) && x == this.crossing(text, pairs@[q].0 as int, pairs@[q].1 as int) by {
                    if after.contains(x) {
                        if before.contains(x) {
                            let q = choose|q: int|
                                0 <= q < k && #[trigger] this.crosses_at(
                                    text,
                                    pairs@[q].0 as int,
                                    pairs@[q].1 as int,
                                ) && x == this.crossing(text, pairs@[q].0 as int,
                                    pairs@[q].1 as int);
                            assert(0 <= q < k + 1);
                        } else {
                            assert(this.crosses_at(
                                text,
                                pairs@[k as int].0 as int,
                                pairs@[k as int].1 as int,
                            ));
                        }
                    }
                    if exists|q: int|
                        0 <= q < k + 1 && #[trigger] this.crosses_at(
                            text,
                            pairs@[q].0 as int,
                            pairs@[q].1 as int,
                        ) && x == this.crossing(text, pairs@[q].0 as int, pairs@[q].1 as int) {
                        let q = choose|q: int|
                            0 <= q < k + 1 && #[trigger] this.crosses_at(
                                text,
                                pairs@[q].0 as int,
                                pairs@[q].1 as int,
                            ) && x == this.crossing(text, pairs@[q].0 as int, pairs@[q].1 as int);
                        if q < k {
                            assert(before.contains(x));
                        }
                    }
                }
            }
            k += 1;
        }
        proof {
            let out = views(pos_ways@);
            assert forall|x: WordView| this.crossings(text).contains(x) <==> out.contains(x) by {
                if this.crossings(text).contains(x) {
                    let (i, j) = choose|i: int, j: int|
                        #[trigger] this.crosses_at(text, i, j) && x == this.crossing(text, i, j);
                    lemma_index_of_cell(i, j, n, m);
                    let q = i * m + j;
                    assert(pairs@[q] == (rows@[i], columns@[j]));
                    assert(this.crosses_at(text, pairs@[q].0 as int, pairs@[q].1 as int));
                }
                if out.contains(x) {
                    let q = choose|q: int|
                        0 <= q < k && #[trigger] this.crosses_at(
                            text,
                            pairs@[q].0 as int,
                            pairs@[q].1 as int,
                        ) && x == this.crossing(text, pairs@[q].0 as int, pairs@[q].1 as int);
                    assert(this.crossings(text).contains(x));
                }
            }
        }
        pos_ways
    }
}

} // verus!
