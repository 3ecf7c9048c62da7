//! Claims on a sheet of fabric: rectangles of cells, the cells that two or
//! more claims cover, and the claim that overlaps no other.

use vstd::prelude::*;
use crate::flags::{bits_of, flags_from_elem, get_flag, set_flag};
use crate::pattern::{captures, captures_view, pattern_captures, read_usize_group, usize_group};

verus! {

/// The number of cells in a row of the sheet.
pub const CLOTH_WIDTH: usize = 1000;

/// The number of cells of the sheet.
pub const CLOTH_CELLS: usize = 1_000_000;

/// The form of a claim: its number, then the distances of the rectangle from
/// the left and the top edge, then its width and height.
pub const CLAIM_PATTERN: &'static str = r"^#\d+ @ (\d+),(\d+): (\d+)x(\d+)";

/// A rectangle of cells: the columns from `x1` up to but not including `x2`,
/// in the rows from `y1` up to but not including `y2`.
#[derive(Clone, Copy, Debug, PartialEq, Eq, Structural)]
pub struct Rect {
    pub x1: usize,
    pub y1: usize,
    pub x2: usize,
    pub y2: usize,
}

/// Whether the rectangle holds the point in column `x` and row `y`.
pub open spec fn holds(rect: Rect, x: int, y: int) -> bool {
    rect.x1 <= x < rect.x2 && rect.y1 <= y < rect.y2
}

/// Whether two rectangles have a point in common.
pub open spec fn overlap(a: Rect, b: Rect) -> bool {
    exists|x: int, y: int| #[trigger] holds(a, x, y) && holds(b, x, y)
}

/// The rectangle that captured groups describe: the groups are the left
/// edge, the top edge, the width and the height. `None` without a match, or
/// where a number is missing or an edge is further out than a `usize` holds.
pub open spec fn rect_from(found: Option<Seq<Option<Seq<char>>>>) -> Option<Rect> {
    match found {
        Some(groups) => match (
            usize_group(groups, 1),
            usize_group(groups, 2),
            usize_group(groups, 3),
            usize_group(groups, 4),
        ) {
            (Some(x1), Some(y1), Some(width), Some(height)) => if x1 + width <= usize::MAX && y1
                + height <= usize::MAX {
                Some(Rect { x1, y1, x2: (x1 + width) as usize, y2: (y1 + height) as usize })
            } else {
                None
            },
            _ => None,
        },
        None => None,
    }
}

/// The rectangle that the line claims, if it is a claim.
pub open spec fn claim_of(line: Seq<char>) -> Option<Rect> {
    rect_from(pattern_captures(CLAIM_PATTERN@, line))
}

/// Reads the rectangle out of what the pattern captured.
pub fn rect_from_captures(found: &Option<Vec<Option<String>>>) -> (r: Option<Rect>)
    ensures
        r == rect_from(captures_view(*found)),
{
    match found {
        Some(groups) => {
            let x1 = read_usize_group(groups, 1);
            let y1 = read_usize_group(groups, 2);
            let width = read_usize_group(groups, 3);
            let height = read_usize_group(groups, 4);
            match (x1, y1, width, height) {
                (Some(x1), Some(y1), Some(width), Some(height)) => {
                    match (x1.checked_add(width), y1.checked_add(height)) {
                        (Some(x2), Some(y2)) => Some(Rect { x1, y1, x2, y2 }),
                        _ => None,
                    }
                },
                _ => None,
            }
        },
        None => None,
    }
}

/// Reads a claim of the form `#<number> @ <left>,<top>: <width>x<height>`;
/// `None` where the line is no claim.
pub fn try_parse_line(line: &str) -> (r: Option<Rect>)
    ensures
        r == claim_of(line@),
{
    let found = captures(CLAIM_PATTERN, line);
    match rect_from_captures(&found) {
        // The line is a claim, so it can be read as one.
        Some(_) => Some(parse_line(line)),
        None => None,
    }
}

/// Reads a claim of the form `#<number> @ <left>,<top>: <width>x<height>`.
pub fn parse_line(line: &str) -> (rect: Rect)
    requires
        claim_of(line@) is Some,
    ensures
        claim_of(line@) == Some(rect),
{
    let found = captures(CLAIM_PATTERN, line);
    rect_from_captures(&found).unwrap()
}

/// How often a cell is counted: never more than twice.
pub open spec fn capped(claims: nat) -> u8 {
    if claims >= 2 {
        2
    } else {
        claims as u8
    }
}

/// How many of the first `upto` cells are marked as claimed twice or more.
pub open spec fn twice_below(marks: Seq<u8>, upto: int) -> nat
    decreases upto,
{
    if upto <= 0 {
        0
    } else {
        twice_below(marks, upto - 1) + if marks[upto - 1] > 1 {
            1nat
        } else {
            0nat
        }
    }
}

/// The sheet of fabric: for each cell, row after row, the number of claims
/// on it, counted up to 2.
pub struct Cloth {
    cells: Vec<u8>,
}

impl Cloth {
    /// The mark of each cell: 0, 1, or 2 for two claims or more.
    pub closed spec fn marks(&self) -> Seq<u8> {
        self.cells@
    }

    /// The sheet has all its cells, and no mark is above 2.
    pub closed spec fn wf(&self) -> bool {
        &&& self.cells@.len() == CLOTH_CELLS
        &&& forall|cell: int| 0 <= cell < CLOTH_CELLS ==> #[trigger] self.cells@[cell] <= 2
    }

    /// A sheet without claims.
    pub fn new() -> (cloth: Cloth)
        ensures
            cloth.wf(),
            cloth.marks().len() == CLOTH_CELLS,
            forall|cell: int| 0 <= cell < CLOTH_CELLS ==> #[trigger] cloth.marks()[cell] == 0,
    {
        let mut cells: Vec<u8> = Vec::new();
        let mut made: usize = 0;
        while made < CLOTH_CELLS
            invariant
                made <= CLOTH_CELLS,
                cells.len() == made,
                forall|cell: int| 0 <= cell < made ==> #[trigger] cells@[cell] == 0,
            decreases CLOTH_CELLS - made,
        {
            cells.push(0);
            made = made + 1;
        }
        Cloth { cells }
    }

    /// Counts one more claim on the cell in column `x` of row `y`.
    pub fn claim_point(&mut self, x: usize, y: usize)
        requires
            old(self).wf(),
            y * CLOTH_WIDTH + x < CLOTH_CELLS,
        ensures
            final(self).wf(),
            final(self).marks() == old(self).marks().update(
                y * CLOTH_WIDTH + x,
                if old(self).marks()[y * CLOTH_WIDTH + x] >= 2 {
                    2u8
                } else {
                    (old(self).marks()[y * CLOTH_WIDTH + x] + 1) as u8
                },
            ),
    {
        let pos: usize = y * CLOTH_WIDTH + x;
        let mark: u8 = self.cells[pos];
        let next: u8 = if mark >= 2 {
            2
        } else {
            mark + 1
        };
        self.cells.set(pos, next);
    }

    /// The number of cells with two claims or more.
    pub fn count_claimed_by_at_least_two(&self) -> (count: usize)
        requires
            self.wf(),
        ensures
            count == twice_below(self.marks(), CLOTH_CELLS as int),
    {
        let mut count: usize = 0;
        let mut cell: usize = 0;
        while cell < CLOTH_CELLS
            invariant
                self.wf(),
                cell <= CLOTH_CELLS,
                count <= cell,
                count == twice_below(self.marks(), cell as int),
            decreases CLOTH_CELLS - cell,
        {
            if self.cells[cell] > 1 {
                count = count + 1;
            }
            cell = cell + 1;
        }
        count
    }
}

/// Whether every point of the rectangle has a cell on the sheet.
pub open spec fn on_cloth(rect: Rect) -> bool {
    rect.x1 < rect.x2 && rect.y1 < rect.y2 ==> (rect.y2 - 1) * CLOTH_WIDTH + (rect.x2 - 1)
        < CLOTH_CELLS
}

/// Whether a point of the rectangle in row `y` has the cell `cell`: the cell
/// of a point is its row times the width of the sheet, plus its column.
pub open spec fn row_claims(rect: Rect, y: int, cell: int) -> bool {
    rect.x1 <= cell - y * CLOTH_WIDTH < rect.x2
}

/// In how many of its rows before row `upto` the rectangle has a point with
/// the cell `cell`.
pub open spec fn rows_claiming(rect: Rect, upto: int, cell: int) -> nat
    decreases upto - rect.y1,
{
    if upto <= rect.y1 {
        0
    } else {
        rows_claiming(rect, upto - 1, cell) + if row_claims(rect, upto - 1, cell) {
            1nat
        } else {
            0nat
        }
    }
}

/// How many points of the rectangle have the cell `cell`. That is 1 or 0 for
/// a rectangle that ends within the width of the sheet.
pub open spec fn claims_on(rect: Rect, cell: int) -> nat {
    rows_claiming(rect, rect.y2 as int, cell)
}

/// How many points of all the rectangles have the cell `cell`.
pub open spec fn coverage(claims: Seq<Rect>, cell: int) -> nat
    decreases claims.len(),
{
    if claims.len() == 0 {
        0
    } else {
        coverage(claims.drop_last(), cell) + claims_on(claims.last(), cell)
    }
}

/// How many of the first `upto` cells two points or more have.
pub open spec fn contested_below(claims: Seq<Rect>, upto: int) -> nat
    decreases upto,
{
    if upto <= 0 {
        0
    } else {
        contested_below(claims, upto - 1) + if coverage(claims, upto - 1) >= 2 {
            1nat
        } else {
            0nat
        }
    }
}

/// How many cells of the sheet two points or more have.
pub open spec fn contested(claims: Seq<Rect>) -> nat {
    contested_below(claims, CLOTH_CELLS as int)
}

/// Where each mark is the number of points that have the cell, counted up to
/// 2, the cells marked twice are the cells that two points or more have.
proof fn lemma_marks_count(marks: Seq<u8>, claims: Seq<Rect>, upto: int)
    requires
        0 <= upto <= marks.len(),
        forall|cell: int| 0 <= cell < marks.len() ==> #[trigger] marks[cell] == capped(
            coverage(claims, cell),
        ),
    ensures
        twice_below(marks, upto) == contested_below(claims, upto),
    decreases upto,
{
    if upto > 0 {
        lemma_marks_count(marks, claims, upto - 1);
    }
}

/// A rectangle that ends within the width of the sheet has one point with a
/// cell that lies in it, and none with any other cell.
pub proof fn lemma_claims_on_within_width(rect: Rect, x: int, y: int)
    requires
        rect.x2 <= CLOTH_WIDTH,
        0 <= x < CLOTH_WIDTH,
        0 <= y,
    ensures
        claims_on(rect, y * CLOTH_WIDTH + x) == if holds(rect, x, y) {
            1nat
        } else {
            0nat
        },
{
    lemma_rows_claiming_within_width(rect, rect.y2 as int, x, y);
}

proof fn lemma_rows_claiming_within_width(rect: Rect, upto: int, x: int, y: int)
    requires
        rect.x2 <= CLOTH_WIDTH,
        0 <= x < CLOTH_WIDTH,
        0 <= y,
    ensures
        rows_claiming(rect, upto, y * CLOTH_WIDTH + x) == if rect.x1 <= x < rect.x2 && rect.y1
            <= y < upto {
            1nat
        } else {
            0nat
        },
    decreases upto - rect.y1,
{
    if upto > rect.y1 {
        lemma_rows_claiming_within_width(rect, upto - 1, x, y);
    }
}

/// The number of cells of the sheet that two claims or more cover.
pub fn count_claimed_by_at_least_two(claims: &[Rect]) -> (count: usize)
    requires
        forall|i: int| 0 <= i < claims.len() ==> on_cloth(#[trigger] claims[i]),
    ensures
        count == contested(claims@),
{
    let mut cloth = Cloth::new();
    let mut at: usize = 0;
    assert(claims@.take(0) =~= Seq::<Rect>::empty());
    while at < claims.len()
        invariant
            at <= claims.len(),
            cloth.wf(),
            cloth.marks().len() == CLOTH_CELLS,
            forall|i: int| 0 <= i < claims.len() ==> on_cloth(#[trigger] claims[i]),
            forall|cell: int|
                0 <= cell < CLOTH_CELLS ==> #[trigger] cloth.marks()[cell] == capped(
                    coverage(claims@.take(at as int), cell),
                ),
        decreases claims.len() - at,
    {
        let rect: Rect = claims[at];
        let ghost done = claims@.take(at as int);
        assert(on_cloth(claims[at as int]));
        let mut y: usize = rect.y1;
        while y < rect.y2
            invariant
                rect.y1 <= y,
                rect.y1 < rect.y2 ==> y <= rect.y2,
                rect.y1 >= rect.y2 ==> y == rect.y1,
                on_cloth(rect),
                cloth.wf(),
                cloth.marks().len() == CLOTH_CELLS,
                forall|cell: int|
                    0 <= cell < CLOTH_CELLS ==> #[trigger] cloth.marks()[cell] == capped(
                        coverage(done, cell) + rows_claiming(rect, y as int, cell),
                    ),
            decreases rect.y2 - y,
        {
            let mut x: usize = rect.x1;
            while x < rect.x2
                invariant
                    rect.y1 <= y < rect.y2,
                    rect.x1 <= x,
                    rect.x1 < rect.x2 ==> x <= rect.x2,
                    rect.x1 >= rect.x2 ==> x == rect.x1,
                    on_cloth(rect),
                    cloth.wf(),
                    cloth.marks().len() == CLOTH_CELLS,
                    forall|cell: int|
                        0 <= cell < CLOTH_CELLS ==> #[trigger] cloth.marks()[cell] == capped(
                            coverage(done, cell) + rows_claiming(rect, y as int, cell)
                                + if rect.x1 <= cell - y * CLOTH_WIDTH < x {
                                1nat
                            } else {
                                0nat
                            },
                        ),
                decreases rect.x2 - x,
            {
                cloth.claim_point(x, y);
                x = x + 1;
            }
            proof {
                assert forall|cell: int| 0 <= cell < CLOTH_CELLS implies #[trigger] cloth.marks()[cell]
                    == capped(coverage(done, cell) + rows_claiming(rect, y + 1, cell)) by {
                    assert(rows_claiming(rect, y + 1, cell) == rows_claiming(rect, y as int, cell)
                        + if row_claims(rect, y as int, cell) {
                        1nat
                    } else {
                        0nat
                    });
                }
            }
            y = y + 1;
        }
        proof {
            assert(claims@.take(at + 1).drop_last() =~= done);
            assert(claims@.take(at + 1).last() == rect);
            assert forall|cell: int| 0 <= cell < CLOTH_CELLS implies #[trigger] cloth.marks()[cell]
                == capped(coverage(claims@.take(at + 1), cell)) by {
                if rect.y1 < rect.y2 {
                    assert(y == rect.y2);
                } else {
                    assert(rows_claiming(rect, y as int, cell) == 0);
                    assert(rows_claiming(rect, rect.y2 as int, cell) == 0);
                }
                assert(rows_claiming(rect, y as int, cell) == claims_on(rect, cell));
            }
        }
        at = at + 1;
    }
    proof {
        assert(claims@.take(at as int) =~= claims@);
        lemma_marks_count(cloth.marks(), claims@, CLOTH_CELLS as int);
    }
    cloth.count_claimed_by_at_least_two()
}

/// Whether two rectangles have a point in common.
pub fn is_overlap(r1: &Rect, r2: &Rect) -> (overlapping: bool)
    ensures
        overlapping == overlap(*r1, *r2),
{
    let left: usize = if r1.x1 >= r2.x1 {
        r1.x1
    } else {
        r2.x1
    };
    let right: usize = if r1.x2 <= r2.x2 {
        r1.x2
    } else {
        r2.x2
    };
    let top: usize = if r1.y1 >= r2.y1 {
        r1.y1
    } else {
        r2.y1
    };
    let bottom: usize = if r1.y2 <= r2.y2 {
        r1.y2
    } else {
        r2.y2
    };
    proof {
        if left < right && top < bottom {
            assert(holds(*r1, left as int, top as int) && holds(*r2, left as int, top as int));
        }
    }
    left < right && top < bottom
}

/// Whether rectangle `i` has a point in common with another of the
/// rectangles.
pub open spec fn overlaps_another(rects: Seq<Rect>, i: int) -> bool {
    exists|j: int| 0 <= j < rects.len() && j != i && overlap(rects[i], #[trigger] rects[j])
}

/// Whether the pair of rectangles `p` and `q`, with `p` before `q`, has been
/// compared when the comparing has come to the pair `i` and `j`.
spec fn compared(p: int, q: int, i: int, j: int) -> bool {
    p < i || (p == i && q < j)
}

/// Whether rectangle `k` is known to overlap another when the comparing has
/// come to the pair `i` and `j`.
spec fn marked(rects: Seq<Rect>, k: int, i: int, j: int) -> bool {
    exists|m: int|
        0 <= m < rects.len() && m != k && overlap(rects[k], #[trigger] rects[m]) && compared(
            if k < m {
                k
            } else {
                m
            },
            if k < m {
                m
            } else {
                k
            },
            i,
            j,
        )
}

/// The number, counted from 1, of the first rectangle that overlaps no other;
/// 0 where each overlaps another.
pub fn find_non_overlapping_id(rects: &[Rect]) -> (id: usize)
    ensures
        id == 0 ==> forall|i: int| 0 <= i < rects.len() ==> overlaps_another(rects@, i),
        id > 0 ==> id <= rects.len() && !overlaps_another(rects@, id - 1) && forall|i: int|
            0 <= i < id - 1 ==> overlaps_another(rects@, i),
{
    let length: usize = rects.len();
    let mut overlaps = flags_from_elem(length, false);
    let mut i: usize = 0;
    while i < length
        invariant
            i <= length,
            length == rects.len(),
            bits_of(overlaps).len() == length,
            forall|k: int|
                0 <= k < length ==> (#[trigger] bits_of(overlaps)[k] <==> marked(
                    rects@,
                    k,
                    i as int,
                    i + 1,
                )),
        decreases length - i,
    {
        let mut j: usize = i + 1;
        while j < length
            invariant
                i < length,
                i < j <= length,
                length == rects.len(),
                bits_of(overlaps).len() == length,
                forall|k: int|
                    0 <= k < length ==> (#[trigger] bits_of(overlaps)[k] <==> marked(
                        rects@,
                        k,
                        i as int,
                        j as int,
                    )),
            decreases length - j,
        {
            let ghost before = bits_of(overlaps);
            let found: bool = is_overlap(&rects[i], &rects[j]);
            if found {
                set_flag(&mut overlaps, i, true);
                set_flag(&mut overlaps, j, true);
            }
            proof {
                assert(overlap(rects@[i as int], rects@[j as int]) == overlap(
                    rects@[j as int],
                    rects@[i as int],
                )) by {
                    lemma_overlap_symmetric(rects@[i as int], rects@[j as int]);
                }
                assert forall|k: int| 0 <= k < length implies (#[trigger] bits_of(overlaps)[k]
                    <==> marked(rects@, k, i as int, j + 1)) by {
                    lemma_marked_step(rects@, k, i as int, j as int);
                }
            }
            j = j + 1;
        }
        proof {
            assert forall|k: int| 0 <= k < length implies (#[trigger] bits_of(overlaps)[k]
                <==> marked(rects@, k, i + 1, i + 2)) by {
                lemma_marked_row(rects@, k, i as int);
            }
        }
        i = i + 1;
    }
    let mut at: usize = 0;
    while at < length
        invariant
            at <= length,
            length == rects.len(),
            bits_of(overlaps).len() == length,
            forall|k: int|
                0 <= k < length ==> (#[trigger] bits_of(overlaps)[k] <==> marked(
                    rects@,
                    k,
                    length as int,
                    length + 1,
                )),
            forall|k: int| 0 <= k < at ==> overlaps_another(rects@, k),
        decreases length - at,
    {
        proof {
            lemma_marked_all(rects@, at as int);
        }
        match get_flag(&overlaps, at) {
            Some(has_overlap) => {
                if !has_overlap {
                    return at + 1;
                }
            },
            None => {},
        }
        at = at + 1;
    }
    0
}

/// Two rectangles overlap whichever of them is named first.
pub proof fn lemma_overlap_symmetric(a: Rect, b: Rect)
    ensures
        overlap(a, b) == overlap(b, a),
{
    if overlap(a, b) {
        let (x, y) = choose|x: int, y: int| #[trigger] holds(a, x, y) && holds(b, x, y);
        assert(holds(b, x, y) && holds(a, x, y));
    }
    if overlap(b, a) {
        let (x, y) = choose|x: int, y: int| #[trigger] holds(b, x, y) && holds(a, x, y);
        assert(holds(a, x, y) && holds(b, x, y));
    }
}

/// Comparing the pair `i` and `j` marks these two where they overlap, and
/// changes nothing else.
proof fn lemma_marked_step(rects: Seq<Rect>, k: int, i: int, j: int)
    requires
        0 <= i < j < rects.len(),
        0 <= k < rects.len(),
    ensures
        marked(rects, k, i, j + 1) <==> marked(rects, k, i, j) || ((k == i || k == j) && overlap(
            rects[i],
            rects[j],
        )),
{
    lemma_overlap_symmetric(rects[i], rects[j]);
    if marked(rects, k, i, j) {
        let m = choose|m: int|
            0 <= m < rects.len() && m != k && overlap(rects[k], #[trigger] rects[m]) && compared(
                if k < m {
                    k
                } else {
                    m
                },
                if k < m {
                    m
                } else {
                    k
                },
                i,
                j,
            );
        assert(0 <= m < rects.len() && m != k && overlap(rects[k], rects[m]) && compared(
            if k < m {
                k
            } else {
                m
            },
            if k < m {
                m
            } else {
                k
            },
            i,
            j + 1,
        ));
    }
    if (k == i || k == j) && overlap(rects[i], rects[j]) {
        let m = if k == i {
            j
        } else {
            i
        };
        assert(0 <= m < rects.len() && m != k && overlap(rects[k], rects[m]) && compared(
            if k < m {
                k
            } else {
                m
            },
            if k < m {
                m
            } else {
                k
            },
            i,
            j + 1,
        ));
    }
    if marked(rects, k, i, j + 1) {
        let m = choose|m: int|
            0 <= m < rects.len() && m != k && overlap(rects[k], #[trigger] rects[m]) && compared(
                if k < m {
                    k
                } else {
                    m
                },
                if k < m {
                    m
                } else {
                    k
                },
                i,
                j + 1,
            );
        let p = if k < m {
            k
        } else {
            m
        };
        let q = if k < m {
            m
        } else {
            k
        };
        if p == i && q == j {
        } else {
            assert(0 <= m < rects.len() && m != k && overlap(rects[k], rects[m]) && compared(
                p,
                q,
                i,
                j,
            ));
        }
    }
}

/// When rectangle `i` has been compared with all behind it, the comparing
/// has come to the pair of the next rectangle and the one behind that.
proof fn lemma_marked_row(rects: Seq<Rect>, k: int, i: int)
    requires
        0 <= i < rects.len(),
        0 <= k < rects.len(),
    ensures
        marked(rects, k, i, rects.len() as int) <==> marked(rects, k, i + 1, i + 2),
{
    if marked(rects, k, i, rects.len() as int) {
        let m = choose|m: int|
            0 <= m < rects.len() && m != k && overlap(rects[k], #[trigger] rects[m]) && compared(
                if k < m {
                    k
                } else {
                    m
                },
                if k < m {
                    m
                } else {
                    k
                },
                i,
                rects.len() as int,
            );
        assert(0 <= m < rects.len() && m != k && overlap(rects[k], rects[m]) && compared(
            if k < m {
                k
            } else {
                m
            },
            if k < m {
                m
            } else {
                k
            },
            i + 1,
            i + 2,
        ));
    }
    if marked(rects, k, i + 1, i + 2) {
        let m = choose|m: int|
            0 <= m < rects.len() && m != k && overlap(rects[k], #[trigger] rects[m]) && compared(
                if k < m {
                    k
                } else {
                    m
                },
                if k < m {
                    m
                } else {
                    k
                },
                i + 1,
                i + 2,
            );
        assert(0 <= m < rects.len() && m != k && overlap(rects[k], rects[m]) && compared(
            if k < m {
                k
            } else {
                m
            },
            if k < m {
                m
            } else {
                k
            },
            i,
            rects.len() as int,
        ));
    }
}

/// When all pairs have been compared, the rectangles marked are those that
/// overlap another.
proof fn lemma_marked_all(rects: Seq<Rect>, k: int)
    requires
        0 <= k < rects.len(),
    ensures
        marked(rects, k, rects.len() as int, (rects.len() + 1) as int) <==> overlaps_another(rects, k),
{
    let n = rects.len() as int;
    if marked(rects, k, n, n + 1) {
        let m = choose|m: int|
            0 <= m < rects.len() && m != k && overlap(rects[k], #[trigger] rects[m]) && compared(
                if k < m {
                    k
                } else {
                    m
                },
                if k < m {
                    m
                } else {
                    k
                },
                n,
                n + 1,
            );
        assert(0 <= m < rects.len() && m != k && overlap(rects[k], rects[m]));
    }
    if overlaps_another(rects, k) {
        let m = choose|m: int|
            0 <= m < rects.len() && m != k && overlap(rects[k], #[trigger] rects[m]);
        assert(0 <= m < rects.len() && m != k && overlap(rects[k], rects[m]) && compared(
            if k < m {
                k
            } else {
                m
            },
            if k < m {
                m
            } else {
                k
            },
            n,
            n + 1,
        ));
    }
}

} // verus!
