//! Ordering the three corners of a triangle from the lowest row on screen
//! (largest `y`) to the highest.
use vstd::prelude::*;

verus! {

/// A triangle corner: something with a screen position `(x, y)`.
pub trait Corner {
    spec fn column_of(&self) -> u32;

    spec fn row_of(&self) -> u32;

    fn row(&self) -> (y: u32)
        ensures
            y == self.row_of(),
    ;
}

impl Corner for (u32, u32) {
    open spec fn column_of(&self) -> u32 {
        self.0
    }

    open spec fn row_of(&self) -> u32 {
        self.1
    }

    fn row(&self) -> (y: u32) {
        self.1
    }
}

impl Corner for (u32, u32, u8, u8, u8) {
    open spec fn column_of(&self) -> u32 {
        self.0
    }

    open spec fn row_of(&self) -> u32 {
        self.1
    }

    fn row(&self) -> (y: u32) {
        self.1
    }
}

/// The corner of `t` at position `i` (0, 1 or 2).
pub open spec fn corner<V>(t: (V, V, V), i: int) -> V {
    if i == 0 {
        t.0
    } else if i == 1 {
        t.1
    } else {
        t.2
    }
}

/// Corner `i` comes before corner `j` of `t`: it lies on a larger row, or on
/// the same row and later in `t`.
pub open spec fn comes_before<V: Corner>(t: (V, V, V), i: int, j: int) -> bool {
    corner(t, i).row_of() > corner(t, j).row_of() || (corner(t, i).row_of() == corner(
        t,
        j,
    ).row_of() && i > j)
}

/// `r` holds the corners of `t`, each once, in the order of `comes_before`.
pub open spec fn ordered_by_row<V: Corner>(t: (V, V, V), r: (V, V, V)) -> bool {
    exists|i: int, j: int, k: int|
        #![trigger corner(t, i), corner(t, j), corner(t, k)]
        0 <= i < 3 && 0 <= j < 3 && 0 <= k < 3 && i != j && j != k && i != k && r == (
            corner(t, i),
            corner(t, j),
            corner(t, k),
        ) && comes_before(t, i, j) && comes_before(t, j, k)
}

/// The screen position of a corner.
pub open spec fn spot<V: Corner>(v: V) -> (u32, u32) {
    (v.column_of(), v.row_of())
}

/// The rows of the three corners of `t`, in order.
pub open spec fn corner_rows<V: Corner>(t: (V, V, V)) -> (u32, u32, u32) {
    (t.0.row_of(), t.1.row_of(), t.2.row_of())
}

/// The corners of `t` in the order of `comes_before`.
pub open spec fn sorted_by_row<V: Corner>(t: (V, V, V)) -> (V, V, V) {
    choose|r: (V, V, V)| ordered_by_row(t, r)
}

/// The corners of `points` from the largest row to the smallest; of two
/// corners on one row, the later one in `points` comes first.
pub fn order_by_row<V: Corner + Copy>(points: (V, V, V)) -> (sorted: (V, V, V))
    ensures
        ordered_by_row(points, sorted),
        sorted == sorted_by_row(points),
        sorted.0.row_of() >= sorted.1.row_of() >= sorted.2.row_of(),
{
    let r = order_rows(points);
    proof {
        lemma_order_unique(points, r, sorted_by_row(points));
    }
    r
}

fn order_rows<V: Corner + Copy>(points: (V, V, V)) -> (sorted: (V, V, V))
    ensures
        ordered_by_row(points, sorted),
        sorted.0.row_of() >= sorted.1.row_of() >= sorted.2.row_of(),
{
    let t = points;
    let y0 = t.0.row();
    let y1 = t.1.row();
    let y2 = t.2.row();
    if y0 > y1 {
        if y1 > y2 {
            assert(corner(t, 0) == t.0 && corner(t, 1) == t.1 && corner(t, 2) == t.2);
            (t.0, t.1, t.2)
        } else {
            if y0 > y2 {
                assert(corner(t, 0) == t.0 && corner(t, 2) == t.2 && corner(t, 1) == t.1);
                (t.0, t.2, t.1)
            } else {
                assert(corner(t, 2) == t.2 && corner(t, 0) == t.0 && corner(t, 1) == t.1);
                (t.2, t.0, t.1)
            }
        }
    } else {
        if y0 > y2 {
            assert(corner(t, 1) == t.1 && corner(t, 0) == t.0 && corner(t, 2) == t.2);
            (t.1, t.0, t.2)
        } else {
            if y1 > y2 {
                assert(corner(t, 1) == t.1 && corner(t, 2) == t.2 && corner(t, 0) == t.0);
                (t.1, t.2, t.0)
            } else {
                assert(corner(t, 2) == t.2 && corner(t, 1) == t.1 && corner(t, 0) == t.0);
                (t.2, t.1, t.0)
            }
        }
    }
}

/// The order of `comes_before` is fixed by the corners: two orderings of the
/// same corners are the same triple.
pub proof fn lemma_order_unique<V: Corner>(t: (V, V, V), r1: (V, V, V), r2: (V, V, V))
    requires
        ordered_by_row(t, r1),
        ordered_by_row(t, r2),
    ensures
        r1 == r2,
{
    let (i1, j1, k1) = choose|i: int, j: int, k: int|
        #![trigger corner(t, i), corner(t, j), corner(t, k)]
        0 <= i < 3 && 0 <= j < 3 && 0 <= k < 3 && i != j && j != k && i != k && r1 == (
            corner(t, i),
            corner(t, j),
            corner(t, k),
        ) && comes_before(t, i, j) && comes_before(t, j, k);
    let (i2, j2, k2) = choose|i: int, j: int, k: int|
        #![trigger corner(t, i), corner(t, j), corner(t, k)]
        0 <= i < 3 && 0 <= j < 3 && 0 <= k < 3 && i != j && j != k && i != k && r2 == (
            corner(t, i),
            corner(t, j),
            corner(t, k),
        ) && comes_before(t, i, j) && comes_before(t, j, k);
    assert(i1 == i2 && j1 == j2 && k1 == k2);
}

/// Every triple of corners has an ordering by row.
pub proof fn lemma_ordered_exists<V: Corner>(t: (V, V, V))
    ensures
        ordered_by_row(t, sorted_by_row(t)),
{
    let (y0, y1, y2) = (t.0.row_of(), t.1.row_of(), t.2.row_of());
    assert(corner(t, 0) == t.0 && corner(t, 1) == t.1 && corner(t, 2) == t.2);
    if y0 > y1 {
        if y1 > y2 {
            assert(ordered_by_row(t, (t.0, t.1, t.2)));
        } else if y0 > y2 {
            assert(ordered_by_row(t, (t.0, t.2, t.1)));
        } else {
            assert(ordered_by_row(t, (t.2, t.0, t.1)));
        }
    } else if y0 > y2 {
        assert(ordered_by_row(t, (t.1, t.0, t.2)));
    } else if y1 > y2 {
        assert(ordered_by_row(t, (t.1, t.2, t.0)));
    } else {
        assert(ordered_by_row(t, (t.2, t.1, t.0)));
    }
}

/// When no two corners share a row, the order by row does not depend on the
/// order in which the corners are listed: listing them as `t.i, t.j, t.k`,
/// for any arrangement `i, j, k` of `0, 1, 2`, gives the same triple.
pub proof fn law_order_ignores_listing<V: Corner>(t: (V, V, V), i: int, j: int, k: int)
    requires
        0 <= i < 3,
        0 <= j < 3,
        0 <= k < 3,
        i != j,
        j != k,
        i != k,
        t.0.row_of() != t.1.row_of(),
        t.0.row_of() != t.2.row_of(),
        t.1.row_of() != t.2.row_of(),
    ensures
        sorted_by_row((corner(t, i), corner(t, j), corner(t, k))) == sorted_by_row(t),
{
    let u = (corner(t, i), corner(t, j), corner(t, k));
    let r = sorted_by_row(t);
    lemma_ordered_exists(t);
    lemma_ordered_exists(u);
    let (a, b, c) = choose|a: int, b: int, c: int|
        #![trigger corner(t, a), corner(t, b), corner(t, c)]
        0 <= a < 3 && 0 <= b < 3 && 0 <= c < 3 && a != b && b != c && a != c && r == (
            corner(t, a),
            corner(t, b),
            corner(t, c),
        ) && comes_before(t, a, b) && comes_before(t, b, c);
    let pos = |m: int|
        if m == i {
            0int
        } else if m == j {
            1int
        } else {
            2int
        };
    assert(corner(u, pos(a)) == corner(t, a));
    assert(corner(u, pos(b)) == corner(t, b));
    assert(corner(u, pos(c)) == corner(t, c));
    assert(comes_before(u, pos(a), pos(b)));
    assert(comes_before(u, pos(b), pos(c)));
    assert(ordered_by_row(u, r));
    lemma_order_unique(u, r, sorted_by_row(u));
}

} // verus!
