//! Traversal of the cells of one precision that overlap a bounding box,
//! row by row from the south-west corner: each row eastward, rows northward.

use crate::bounding_box::BoundingBox;
use crate::geohash_bits::{
    lemma_round_trip, axis_index, cell_edge, latitude_span, lemma_axis_contains, lemma_cell_width, lemma_edge_value,
    longitude_span, GeohashBits, Precision,
};
use crate::location::{LATITUDE_MIN, LONGITUDE_MIN};
use crate::Neighbor;
use vstd::arithmetic::power2::{lemma2_to64, lemma2_to64_rest, lemma_pow2_pos, pow2};
use vstd::prelude::*;

verus! {

/// The rectangle of cell `c` and the box overlap, edges included.
pub open spec fn cell_intersects(bounds: BoundingBox, c: GeohashBits) -> bool {
    &&& bounds.spec_min().longitude <= cell_edge(
        LONGITUDE_MIN as int,
        longitude_span(),
        c.lon_bits() + 1,
        c.spec_binary_precision(),
    )
    &&& cell_edge(LONGITUDE_MIN as int, longitude_span(), c.lon_bits(), c.spec_binary_precision())
        <= bounds.spec_max().longitude
    &&& bounds.spec_min().latitude <= cell_edge(
        LATITUDE_MIN as int,
        latitude_span(),
        c.lat_index() + 1,
        c.lat_precision(),
    )
    &&& cell_edge(LATITUDE_MIN as int, latitude_span(), c.lat_index(), c.lat_precision())
        <= bounds.spec_max().latitude
}

/// Cell `x` of width `w` along an axis overlaps the interval `[a, b]` of
/// offsets, edges included.
pub open spec fn overlaps(a: int, b: int, w: int, x: nat) -> bool {
    a <= (x + 1) * w && x * w <= b
}

/// The column of the box's west edge at `p` bits per axis.
pub open spec fn first_column(bounds: BoundingBox, p: nat) -> nat {
    axis_index(bounds.spec_min().longitude - LONGITUDE_MIN, longitude_span(), p)
}

/// The column of the box's east edge.
pub open spec fn last_column(bounds: BoundingBox, p: nat) -> nat {
    axis_index(bounds.spec_max().longitude - LONGITUDE_MIN, longitude_span(), p)
}

/// The row of the box's south edge.
pub open spec fn first_row(bounds: BoundingBox, p: nat) -> nat {
    axis_index(bounds.spec_min().latitude - LATITUDE_MIN, latitude_span(), p)
}

/// The row of the box's north edge.
pub open spec fn last_row(bounds: BoundingBox, p: nat) -> nat {
    axis_index(bounds.spec_max().latitude - LATITUDE_MIN, latitude_span(), p)
}

/// Columns the traversal visits in each row.
pub open spec fn column_count(bounds: BoundingBox, p: nat) -> nat {
    (last_column(bounds, p) - first_column(bounds, p) + 1) as nat
}

/// Rows the traversal visits.
pub open spec fn row_count(bounds: BoundingBox, p: nat) -> nat {
    (last_row(bounds, p) - first_row(bounds, p) + 1) as nat
}

/// Cells the traversal hands out: the columns from the west edge's to the
/// east edge's, times the rows from the south edge's to the north edge's.
pub open spec fn cell_count(bounds: BoundingBox, p: nat) -> nat {
    column_count(bounds, p) * row_count(bounds, p)
}

/// The traversal would run past the last column (or row) and wrap round
/// to the first, which also overlaps the box: the box reaches the east (or
/// north) edge of the space while its west (south) edge lies in the first
/// column (row).
pub open spec fn wraps(bounds: BoundingBox, p: nat) -> bool {
    ||| last_column(bounds, p) == pow2(p) - 1 && bounds.spec_min().longitude - LONGITUDE_MIN
        <= longitude_span() / (pow2(p) as int)
    ||| last_row(bounds, p) == pow2(p) - 1 && bounds.spec_min().latitude - LATITUDE_MIN
        <= latitude_span() / (pow2(p) as int)
}

/// The box's west (or south) edge lies exactly on an inner cell edge, so
/// that the cells west (south) of it touch it.
pub open spec fn min_on_inner_edge(bounds: BoundingBox, p: nat) -> bool {
    let a = bounds.spec_min().longitude - LONGITUDE_MIN;
    let c = bounds.spec_min().latitude - LATITUDE_MIN;
    ||| 0 < a < longitude_span() && a % (longitude_span() / (pow2(p) as int)) == 0
    ||| 0 < c < latitude_span() && c % (latitude_span() / (pow2(p) as int)) == 0
}

/// The cell in column `x` and row `y` at `p` bits per axis.
pub open spec fn grid_cell(p: u8, x: nat, y: nat) -> GeohashBits {
    GeohashBits::from_fields(Precision::Bits(p), y, x)
}

/// Which cells of one axis overlap an interval `[a, b]` of offsets.
proof fn lemma_axis_grid(a: int, b: int, span_exp: u64, p: u64)
    requires
        1 <= p <= 32,
        span_exp == 34 || span_exp == 35,
        0 <= a <= b <= 45 * pow2(span_exp as nat),
    ensures
        ({
            let span = (45 * pow2(span_exp as nat)) as int;
            let big_p = pow2(p as nat);
            let w = (45 * pow2((span_exp - p) as nat)) as int;
            let i0 = axis_index(a, span, p as nat);
            let i1 = axis_index(b, span, p as nat);
            &&& span / (big_p as int) == w
            &&& w > 0
            &&& i0 <= i1 < big_p
            &&& forall|x: nat| i0 <= x <= i1 ==> #[trigger] overlaps(a, b, w, x)
            &&& forall|x: nat| x < big_p && #[trigger] overlaps(a, b, w, x) ==> x <= i1
            &&& forall|x: nat|
                x < big_p && #[trigger] overlaps(a, b, w, x) && !(0 < a < span && a % w == 0)
                    ==> i0 <= x
            &&& i1 + 1 < big_p ==> !overlaps(a, b, w, (i1 + 1) as nat)
            &&& !(a <= w) ==> !overlaps(a, b, w, 0)
        }),
{
    let span = (45 * pow2(span_exp as nat)) as int;
    let big_p = pow2(p as nat) as int;
    let w = lemma_cell_width(span_exp, p) as int;
    lemma_pow2_pos(p as nat);
    vstd::arithmetic::mul::lemma_mul_is_commutative(w, big_p);
    vstd::arithmetic::div_mod::lemma_div_multiples_vanish(w, big_p);
    lemma_axis_contains(a, span_exp, p);
    lemma_axis_contains(b, span_exp, p);
    let i0 = axis_index(a, span, p as nat) as int;
    let i1 = axis_index(b, span, p as nat) as int;
    if i1 < i0 {
        assert((i1 + 1) * w <= i0 * w) by (nonlinear_arith)
            requires
                i1 + 1 <= i0,
                w > 0,
        ;
    }
    assert((0 + 1) * w == w && 0 * w == 0) by (nonlinear_arith);
    if i1 + 1 < big_p {
        assert(!overlaps(a, b, w, (i1 + 1) as nat));
    }
    assert forall|x: nat| i0 <= x <= i1 implies #[trigger] overlaps(a, b, w, x) by {
        assert((i0 + 1) * w <= (x + 1) * w && x * w <= i1 * w) by (nonlinear_arith)
            requires
                i0 <= x <= i1,
                w > 0,
        ;
    }
    assert forall|x: nat| x < big_p && #[trigger] overlaps(a, b, w, x) implies x <= i1 by {
        if x > i1 {
            assert((i1 + 1) * w <= x * w) by (nonlinear_arith)
                requires
                    i1 + 1 <= x,
                    w > 0,
            ;
        }
    }
    assert forall|x: nat|
        x < big_p && #[trigger] overlaps(a, b, w, x) && !(0 < a < span && a % w == 0) implies i0
        <= x by {
        if x < i0 {
            assert((x + 1) * w <= i0 * w) by (nonlinear_arith)
                requires
                    x + 1 <= i0,
                    w > 0,
            ;
            if a == span {
                assert(i0 == big_p - 1) by {
                    if i0 + 1 < big_p {
                        assert((i0 + 1) * w <= big_p * w) by (nonlinear_arith)
                            requires
                                i0 + 1 <= big_p,
                                w > 0,
                        ;
                    }
                }
                assert(i0 * w < big_p * w) by (nonlinear_arith)
                    requires
                        i0 < big_p,
                        w > 0,
                ;
            } else {
                vstd::arithmetic::div_mod::lemma_mod_multiples_basic((x + 1) as int, w);
                assert(0 < (x + 1) * w) by (nonlinear_arith)
                    requires
                        w > 0,
                ;
            }
        }
    }
}

/// A cursor over the cells of one precision that overlap a box. It holds
/// the first cell of the current row and the cell to hand out next, if any.
pub struct GeohashIterator {
    bounds: BoundingBox,
    lat_baseline: GeohashBits,
    current: Option<GeohashBits>,
}

impl GeohashIterator {
    /// The box being covered.
    pub closed spec fn spec_bounds(self) -> BoundingBox {
        self.bounds
    }

    /// The first cell of the current row.
    pub closed spec fn spec_baseline(self) -> GeohashBits {
        self.lat_baseline
    }

    /// The cell to hand out next; `None` once the traversal is over.
    pub closed spec fn spec_current(self) -> Option<GeohashBits> {
        self.current
    }

    /// A valid box, and cells of one valid precision.
    pub open spec fn wf(self) -> bool {
        &&& self.spec_bounds().wf()
        &&& self.spec_baseline().wf()
        &&& (self.spec_current() matches Some(c) ==> c.wf() && c.spec_precision()
            == self.spec_baseline().spec_precision())
    }

    /// The traversal of `bounds` at `bit_precision` bits per axis, before
    /// its first step: it starts at the cell of the south-west corner.
    pub closed spec fn spec_new(bounds: BoundingBox, bit_precision: u8) -> GeohashIterator {
        let start = GeohashBits::spec_from_location(
            bounds.spec_min(),
            Precision::Bits(bit_precision),
        );
        GeohashIterator { bounds, lat_baseline: start, current: Some(start) }
    }

    /// The state after one step: on to the east neighbour while it overlaps
    /// the box, else to the start of the next row north while that
    /// overlaps, else done.
    pub closed spec fn spec_next(self) -> GeohashIterator {
        match self.current {
            None => self,
            Some(c) => {
                let east = c.spec_neighbor(Neighbor::East);
                if cell_intersects(self.bounds, east) {
                    GeohashIterator { current: Some(east), ..self }
                } else {
                    let north = self.lat_baseline.spec_neighbor(Neighbor::North);
                    if cell_intersects(self.bounds, north) {
                        GeohashIterator { lat_baseline: north, current: Some(north), ..self }
                    } else {
                        GeohashIterator { lat_baseline: north, current: None, ..self }
                    }
                }
            },
        }
    }

    /// `next` is one step on from this state: the box is kept; an exhausted
    /// traversal stays as it is; otherwise the cursor moves to the east
    /// neighbour when that overlaps the box, else the first cell of the row
    /// moves one north and becomes the cursor when it overlaps the box, and
    /// the traversal ends when it does not.
    pub open spec fn steps_to(self, next: GeohashIterator) -> bool {
        &&& next.spec_bounds() == self.spec_bounds()
        &&& match self.spec_current() {
            None => next == self,
            Some(c) => {
                let east = c.spec_neighbor(Neighbor::East);
                let north = self.spec_baseline().spec_neighbor(Neighbor::North);
                if cell_intersects(self.spec_bounds(), east) {
                    &&& next.spec_baseline() == self.spec_baseline()
                    &&& next.spec_current() == Some(east)
                } else {
                    &&& next.spec_baseline() == north
                    &&& next.spec_current() == (if cell_intersects(self.spec_bounds(), north) {
                        Some(north)
                    } else {
                        None
                    })
                }
            },
        }
    }

    /// The start state in terms of the accessors.
    pub proof fn lemma_spec_new(bounds: BoundingBox, bit_precision: u8)
        ensures
            GeohashIterator::spec_new(bounds, bit_precision).spec_bounds() == bounds,
            GeohashIterator::spec_new(bounds, bit_precision).spec_baseline()
                == GeohashBits::spec_from_location(bounds.spec_min(), Precision::Bits(bit_precision)),
            GeohashIterator::spec_new(bounds, bit_precision).spec_current() == Some(
                GeohashIterator::spec_new(bounds, bit_precision).spec_baseline(),
            ),
    {
    }

    /// One step in terms of the accessors.
    pub proof fn lemma_spec_next(self)
        ensures
            self.steps_to(self.spec_next()),
    {
    }

    /// The state after `k` steps.
    pub open spec fn after(self, k: nat) -> GeohashIterator
        decreases k,
    {
        if k == 0 {
            self
        } else {
            self.after((k - 1) as nat).spec_next()
        }
    }

    /// Starts a traversal of `bounds` at `bit_precision` bits per axis.
    pub fn new(bounds: BoundingBox, bit_precision: u8) -> (r: GeohashIterator)
        requires
            bounds.wf(),
            1 <= bit_precision <= 32,
        ensures
            r == GeohashIterator::spec_new(bounds, bit_precision),
            r.wf(),
            r.spec_bounds() == bounds,
            r.spec_baseline() == GeohashBits::spec_from_location(
                bounds.spec_min(),
                Precision::Bits(bit_precision),
            ),
            r.spec_current() == Some(r.spec_baseline()),
    {
        let lat_baseline = GeohashBits::from_location(
            bounds.min(),
            Precision::Bits(bit_precision),
        ).unwrap();
        GeohashIterator { bounds, lat_baseline, current: Some(lat_baseline) }
    }

    /// Moves the cursor one cell on.
    fn advance_current(&mut self)
        requires
            old(self).wf(),
        ensures
            final(self).wf(),
            *final(self) == old(self).spec_next(),
            old(self).steps_to(*final(self)),
    {
        // advance eastward until we are out of the bounds then advance northward
        if let Some(bits) = self.current {
            let bits = bits.neighbor(&Neighbor::East);
            if self.bounds.intersects(&bits.bounding_box()) {
                self.current = Some(bits);
            } else {
                self.lat_baseline = self.lat_baseline.neighbor(&Neighbor::North);
                if self.bounds.intersects(&self.lat_baseline.bounding_box()) {
                    self.current = Some(self.lat_baseline);
                } else {
                    self.current = None;
                }
            }
        }
    }

    /// Hands out the current cell and moves on; `None` once every
    /// overlapping cell has been handed out.
    pub fn next(&mut self) -> (r: Option<GeohashBits>)
        requires
            old(self).wf(),
        ensures
            r == old(self).spec_current(),
            *final(self) == old(self).spec_next(),
            old(self).steps_to(*final(self)),
            final(self).wf(),
    {
        let value = self.current;
        self.advance_current();
        value
    }
}

/// Whether a cell of the grid overlaps the box, axis by axis.
proof fn lemma_grid_intersects(bounds: BoundingBox, p: u8, x: nat, y: nat)
    requires
        bounds.wf(),
        1 <= p <= 32,
        x < pow2(p as nat),
        y < pow2(p as nat),
    ensures
        grid_cell(p, x, y).wf(),
        grid_cell(p, x, y).spec_precision() == Precision::Bits(p),
        grid_cell(p, x, y).lon_bits() == x,
        grid_cell(p, x, y).lat_bits() == y,
        cell_intersects(bounds, grid_cell(p, x, y)) == (overlaps(
            bounds.spec_min().longitude - LONGITUDE_MIN,
            bounds.spec_max().longitude - LONGITUDE_MIN,
            longitude_span() / (pow2(p as nat) as int),
            x,
        ) && overlaps(
            bounds.spec_min().latitude - LATITUDE_MIN,
            bounds.spec_max().latitude - LATITUDE_MIN,
            latitude_span() / (pow2(p as nat) as int),
            y,
        )),
{
    lemma2_to64();
    lemma2_to64_rest();
    GeohashBits::lemma_from_fields(Precision::Bits(p), y, x);
    let q = p as u64;
    lemma_edge_value(LONGITUDE_MIN as int, 35, x, q);
    lemma_edge_value(LONGITUDE_MIN as int, 35, x + 1, q);
    lemma_edge_value(LATITUDE_MIN as int, 34, y, q);
    lemma_edge_value(LATITUDE_MIN as int, 34, y + 1, q);
    let w = lemma_cell_width(35, q) as int;
    let h = lemma_cell_width(34, q) as int;
    let big_p = pow2(p as nat) as int;
    lemma_pow2_pos(p as nat);
    vstd::arithmetic::mul::lemma_mul_is_commutative(w, big_p);
    vstd::arithmetic::div_mod::lemma_div_multiples_vanish(w, big_p);
    vstd::arithmetic::mul::lemma_mul_is_commutative(h, big_p);
    vstd::arithmetic::div_mod::lemma_div_multiples_vanish(h, big_p);
}

/// The traversal of `bounds` in column `x` and row `y`.
spec fn state_at(bounds: BoundingBox, p: u8, x: nat, y: nat) -> GeohashIterator {
    GeohashIterator {
        bounds,
        lat_baseline: grid_cell(p, first_column(bounds, p as nat), y),
        current: Some(grid_cell(p, x, y)),
    }
}

/// The facts about the columns and rows of a box that the traversal uses.
proof fn lemma_box_grid(bounds: BoundingBox, p: u8)
    requires
        bounds.wf(),
        1 <= p <= 32,
    ensures
        ({
            let a = bounds.spec_min().longitude - LONGITUDE_MIN;
            let b = bounds.spec_max().longitude - LONGITUDE_MIN;
            let c = bounds.spec_min().latitude - LATITUDE_MIN;
            let d = bounds.spec_max().latitude - LATITUDE_MIN;
            let w = longitude_span() / (pow2(p as nat) as int);
            let h = latitude_span() / (pow2(p as nat) as int);
            let x0 = first_column(bounds, p as nat);
            let x1 = last_column(bounds, p as nat);
            let y0 = first_row(bounds, p as nat);
            let y1 = last_row(bounds, p as nat);
            let big_p = pow2(p as nat);
            &&& w > 0 && h > 0
            &&& x0 <= x1 < big_p
            &&& y0 <= y1 < big_p
            &&& forall|x: nat| x0 <= x <= x1 ==> #[trigger] overlaps(a, b, w, x)
            &&& forall|y: nat| y0 <= y <= y1 ==> #[trigger] overlaps(c, d, h, y)
            &&& forall|x: nat| x < big_p && #[trigger] overlaps(a, b, w, x) ==> x <= x1
            &&& forall|y: nat| y < big_p && #[trigger] overlaps(c, d, h, y) ==> y <= y1
            &&& forall|x: nat|
                x < big_p && #[trigger] overlaps(a, b, w, x) && !(0 < a < longitude_span() && a % w
                    == 0) ==> x0 <= x
            &&& forall|y: nat|
                y < big_p && #[trigger] overlaps(c, d, h, y) && !(0 < c < latitude_span() && c % h
                    == 0) ==> y0 <= y
            &&& x1 + 1 < big_p ==> !overlaps(a, b, w, (x1 + 1) as nat)
            &&& !(a <= w) ==> !overlaps(a, b, w, 0)
            &&& y1 + 1 < big_p ==> !overlaps(c, d, h, (y1 + 1) as nat)
            &&& !(c <= h) ==> !overlaps(c, d, h, 0)
        }),
{
    lemma2_to64();
    lemma2_to64_rest();
    lemma_axis_grid(
        bounds.spec_min().longitude - LONGITUDE_MIN,
        bounds.spec_max().longitude - LONGITUDE_MIN,
        35,
        p as u64,
    );
    lemma_axis_grid(
        bounds.spec_min().latitude - LATITUDE_MIN,
        bounds.spec_max().latitude - LATITUDE_MIN,
        34,
        p as u64,
    );
}

/// One step of the traversal inside the rectangle of columns and rows.
proof fn lemma_step(bounds: BoundingBox, p: u8, x: nat, y: nat)
    requires
        bounds.wf(),
        1 <= p <= 32,
        !wraps(bounds, p as nat),
        first_column(bounds, p as nat) <= x <= last_column(bounds, p as nat),
        first_row(bounds, p as nat) <= y <= last_row(bounds, p as nat),
    ensures
        state_at(bounds, p, x, y).wf(),
        x < last_column(bounds, p as nat) ==> state_at(bounds, p, x, y).spec_next() == state_at(
            bounds,
            p,
            x + 1,
            y,
        ),
        x == last_column(bounds, p as nat) && y < last_row(bounds, p as nat) ==> state_at(
            bounds,
            p,
            x,
            y,
        ).spec_next() == state_at(bounds, p, first_column(bounds, p as nat), y + 1),
        x == last_column(bounds, p as nat) && y == last_row(bounds, p as nat) ==> state_at(
            bounds,
            p,
            x,
            y,
        ).spec_next().spec_current() is None,
{
    lemma_box_grid(bounds, p);
    let big_p = pow2(p as nat);
    let x0 = first_column(bounds, p as nat);
    let x1 = last_column(bounds, p as nat);
    let y1 = last_row(bounds, p as nat);
    let c = grid_cell(p, x, y);
    let base = grid_cell(p, x0, y);
    lemma_grid_intersects(bounds, p, x, y);
    lemma_grid_intersects(bounds, p, x0, y);
    c.lemma_neighbor_fields(Neighbor::East);
    base.lemma_neighbor_fields(Neighbor::North);
    let east = c.spec_neighbor(Neighbor::East);
    let north = base.spec_neighbor(Neighbor::North);
    east.lemma_from_own_fields();
    north.lemma_from_own_fields();
    let ex = ((x + 1) as int % (big_p as int)) as nat;
    let ny = ((y + 1) as int % (big_p as int)) as nat;
    lemma_pow2_pos(p as nat);
    if x + 1 < big_p {
        vstd::arithmetic::div_mod::lemma_small_mod(x + 1, big_p);
    } else {
        vstd::arithmetic::div_mod::lemma_mod_self_0(big_p as int);
    }
    if y + 1 < big_p {
        vstd::arithmetic::div_mod::lemma_small_mod(y + 1, big_p);
    } else {
        vstd::arithmetic::div_mod::lemma_mod_self_0(big_p as int);
    }
    assert(east == grid_cell(p, ex, y));
    assert(north == grid_cell(p, x0, ny));
    lemma_grid_intersects(bounds, p, ex, y);
    lemma_grid_intersects(bounds, p, x0, ny);
}

/// After `r` whole rows and `c` more cells the traversal stands in column
/// `first_column + c` of row `first_row + r`.
proof fn lemma_after(bounds: BoundingBox, p: u8, r: nat, c: nat)
    requires
        bounds.wf(),
        1 <= p <= 32,
        !wraps(bounds, p as nat),
        r < row_count(bounds, p as nat),
        c < column_count(bounds, p as nat),
    ensures
        GeohashIterator::spec_new(bounds, p).after(r * column_count(bounds, p as nat) + c)
            == state_at(
            bounds,
            p,
            first_column(bounds, p as nat) + c,
            first_row(bounds, p as nat) + r,
        ),
    decreases r, c,
{
    lemma_box_grid(bounds, p);
    let n = column_count(bounds, p as nat);
    let x0 = first_column(bounds, p as nat);
    let y0 = first_row(bounds, p as nat);
    let start = GeohashIterator::spec_new(bounds, p);
    if c > 0 {
        lemma_after(bounds, p, r, (c - 1) as nat);
        lemma_step(bounds, p, (x0 + c - 1) as nat, y0 + r);
        assert(r * n + c == (r * n + (c - 1)) + 1);
    } else if r > 0 {
        lemma_after(bounds, p, (r - 1) as nat, (n - 1) as nat);
        lemma_step(bounds, p, (x0 + n - 1) as nat, (y0 + r - 1) as nat);
        assert(r * n == ((r - 1) * n + (n - 1)) + 1) by (nonlinear_arith)
            requires
                r > 0,
                n > 0,
        ;
    } else {
        assert(r * n + c == 0) by (nonlinear_arith)
            requires
                r == 0,
                c == 0,
        ;
        assert(start == state_at(bounds, p, x0, y0));
    }
}

/// The traversal after `k` steps, for `k` below the cell count.
proof fn lemma_after_k(bounds: BoundingBox, p: u8, k: nat)
    requires
        bounds.wf(),
        1 <= p <= 32,
        !wraps(bounds, p as nat),
        k < cell_count(bounds, p as nat),
    ensures
        ({
            let n = column_count(bounds, p as nat);
            &&& n > 0
            &&& k / n < row_count(bounds, p as nat)
            &&& GeohashIterator::spec_new(bounds, p).after(k) == state_at(
                bounds,
                p,
                first_column(bounds, p as nat) + k % n,
                first_row(bounds, p as nat) + k / n,
            )
        }),
{
    lemma_box_grid(bounds, p);
    let n = column_count(bounds, p as nat) as int;
    let rows = row_count(bounds, p as nat) as int;
    vstd::arithmetic::div_mod::lemma_fundamental_div_mod(k as int, n);
    vstd::arithmetic::div_mod::lemma_mod_pos_bound(k as int, n);
    vstd::arithmetic::div_mod::lemma_div_pos_is_pos(k as int, n);
    let ki = k as int;
    assert(ki / n < rows) by (nonlinear_arith)
        requires
            ki == n * (ki / n) + ki % n,
            0 <= ki % n,
            ki < n * rows,
            n > 0,
    ;
    vstd::arithmetic::mul::lemma_mul_is_commutative(n, k as int / n);
    lemma_after(bounds, p, (k / (n as nat)) as nat, (k % (n as nat)) as nat);
}

/// A traversal of a box that does not wrap round an edge of the space ends:
/// the first `cell_count` calls of `next` hand out a cell, the one after
/// them hands out none.
pub proof fn lemma_traversal_ends(bounds: BoundingBox, p: u8)
    requires
        bounds.wf(),
        1 <= p <= 32,
        !wraps(bounds, p as nat),
    ensures
        forall|k: nat|
            k < cell_count(bounds, p as nat) ==> (#[trigger] GeohashIterator::spec_new(
                bounds,
                p,
            ).after(k)).spec_current() is Some,
        GeohashIterator::spec_new(bounds, p).after(cell_count(bounds, p as nat)).spec_current() is None,
{
    lemma_box_grid(bounds, p);
    assert forall|k: nat| k < cell_count(bounds, p as nat) implies (
    #[trigger] GeohashIterator::spec_new(bounds, p).after(k)).spec_current() is Some by {
        lemma_after_k(bounds, p, k);
    }
    let n = column_count(bounds, p as nat);
    let rows = row_count(bounds, p as nat);
    assert(n * rows >= 1) by (nonlinear_arith)
        requires
            n >= 1,
            rows >= 1,
    ;
    let last = (cell_count(bounds, p as nat) - 1) as nat;
    assert(last == (rows - 1) * n + (n - 1)) by (nonlinear_arith)
        requires
            last == n * rows - 1,
            n > 0,
            rows > 0,
    ;
    lemma_after(bounds, p, (rows - 1) as nat, (n - 1) as nat);
    lemma_step(
        bounds,
        p,
        last_column(bounds, p as nat),
        last_row(bounds, p as nat),
    );
    assert(GeohashIterator::spec_new(bounds, p).after(last + 1) == GeohashIterator::spec_new(
        bounds,
        p,
    ).after(last).spec_next());
}

/// A traversal of a box that does not wrap round an edge of the space
/// hands out only cells of its precision that overlap the box, and none
/// twice; unless the box's south-west corner lies on an inner cell edge, it
/// hands out every such cell.
pub proof fn lemma_traversal_covers(bounds: BoundingBox, p: u8)
    requires
        bounds.wf(),
        1 <= p <= 32,
        !wraps(bounds, p as nat),
    ensures
        forall|k: nat|
            k < cell_count(bounds, p as nat) ==> ((#[trigger] GeohashIterator::spec_new(
                bounds,
                p,
            ).after(k)).spec_current() matches Some(c) && c.wf() && c.spec_precision()
                == Precision::Bits(p) && cell_intersects(bounds, c)),
        forall|j: nat, k: nat|
            j < k < cell_count(bounds, p as nat) ==> (#[trigger] GeohashIterator::spec_new(
                bounds,
                p,
            ).after(j)).spec_current() != (#[trigger] GeohashIterator::spec_new(
                bounds,
                p,
            ).after(k)).spec_current(),
        !min_on_inner_edge(bounds, p as nat) ==> forall|c: GeohashBits|
            c.wf() && c.spec_precision() == Precision::Bits(p) && #[trigger] cell_intersects(
                bounds,
                c,
            ) ==> exists|k: nat|
                k < cell_count(bounds, p as nat) && #[trigger] GeohashIterator::spec_new(
                    bounds,
                    p,
                ).after(k).spec_current() == Some(c),
{
    lemma_box_grid(bounds, p);
    let n = column_count(bounds, p as nat);
    let x0 = first_column(bounds, p as nat);
    let y0 = first_row(bounds, p as nat);
    let start = GeohashIterator::spec_new(bounds, p);
    assert forall|k: nat| k < cell_count(bounds, p as nat) implies ((
    #[trigger] start.after(k)).spec_current() matches Some(c) && c.wf() && c.spec_precision()
        == Precision::Bits(p) && cell_intersects(bounds, c)) by {
        lemma_after_k(bounds, p, k);
        lemma_grid_intersects(bounds, p, x0 + k % n, y0 + k / n);
    }
    assert forall|j: nat, k: nat| j < k < cell_count(bounds, p as nat) implies (
    #[trigger] start.after(j)).spec_current() != (#[trigger] start.after(k)).spec_current() by {
        lemma_after_k(bounds, p, j);
        lemma_after_k(bounds, p, k);
        lemma_grid_intersects(bounds, p, x0 + j % n, y0 + j / n);
        lemma_grid_intersects(bounds, p, x0 + k % n, y0 + k / n);
        vstd::arithmetic::div_mod::lemma_fundamental_div_mod(j as int, n as int);
        vstd::arithmetic::div_mod::lemma_fundamental_div_mod(k as int, n as int);
    }
    if !min_on_inner_edge(bounds, p as nat) {
        assert forall|c: GeohashBits|
            c.wf() && c.spec_precision() == Precision::Bits(p) && #[trigger] cell_intersects(
                bounds,
                c,
            ) implies exists|k: nat|
            k < cell_count(bounds, p as nat) && #[trigger] start.after(k).spec_current() == Some(
                c,
            ) by {
            c.lemma_fields_bounded();
            c.lemma_from_own_fields();
            let x = c.lon_bits();
            let y = c.lat_bits();
            lemma_grid_intersects(bounds, p, x, y);
            let k = ((y - y0) * n + (x - x0)) as nat;
            assert(k < cell_count(bounds, p as nat)) by (nonlinear_arith)
                requires
                    k == (y - y0) * n + (x - x0),
                    0 <= x - x0 < n,
                    0 <= y - y0 < row_count(bounds, p as nat),
                    cell_count(bounds, p as nat) == n * row_count(bounds, p as nat),
            ;
            vstd::arithmetic::div_mod::lemma_fundamental_div_mod_converse(
                k as int,
                n as int,
                (y - y0) as int,
                (x - x0) as int,
            );
            lemma_after_k(bounds, p, k);
        }
    }
}

/// The order of a traversal of a box that does not wrap round an edge of
/// the space: row by row from the south-west corner's row northward, each
/// row eastward from the corner's column. Step `k` stands in column
/// `first_column + k % column_count` of row `first_row + k / column_count`.
pub proof fn lemma_traversal_order(bounds: BoundingBox, p: u8, k: nat)
    requires
        bounds.wf(),
        1 <= p <= 32,
        !wraps(bounds, p as nat),
        k < cell_count(bounds, p as nat),
    ensures
        ({
            let n = column_count(bounds, p as nat);
            let it = GeohashIterator::spec_new(bounds, p).after(k);
            &&& n > 0
            &&& it.spec_bounds() == bounds
            &&& it.spec_current() == Some(
                grid_cell(p, first_column(bounds, p as nat) + k % n, first_row(bounds, p as nat) + k / n),
            )
            &&& it.spec_baseline() == grid_cell(
                p,
                first_column(bounds, p as nat),
                first_row(bounds, p as nat) + k / n,
            )
        }),
{
    lemma_after_k(bounds, p, k);
}

/// Every cell a traversal hands out, after any number of steps and for
/// every box, is a cell of its precision that overlaps the box.
pub proof fn lemma_traversal_stays_inside(bounds: BoundingBox, p: u8, k: nat)
    requires
        bounds.wf(),
        1 <= p <= 32,
    ensures
        GeohashIterator::spec_new(bounds, p).after(k).spec_bounds() == bounds,
        GeohashIterator::spec_new(bounds, p).after(k).spec_baseline().wf(),
        GeohashIterator::spec_new(bounds, p).after(k).spec_baseline().spec_precision()
            == Precision::Bits(p),
        GeohashIterator::spec_new(bounds, p).after(k).spec_current() matches Some(c) ==> c.wf()
            && c.spec_precision() == Precision::Bits(p) && cell_intersects(bounds, c),
    decreases k,
{
    let start = GeohashIterator::spec_new(bounds, p);
    if k == 0 {
        lemma2_to64();
        lemma2_to64_rest();
        let loc = bounds.spec_min();
        let c = GeohashBits::spec_from_location(loc, Precision::Bits(p));
        lemma_axis_contains(loc.longitude - LONGITUDE_MIN, 35, p as u64);
        lemma_axis_contains(loc.latitude - LATITUDE_MIN, 34, p as u64);
        GeohashBits::lemma_from_fields(
            Precision::Bits(p),
            axis_index(loc.latitude - LATITUDE_MIN, latitude_span(), p as nat),
            axis_index(loc.longitude - LONGITUDE_MIN, longitude_span(), p as nat),
        );
        lemma_round_trip(loc, Precision::Bits(p), c);
    } else {
        lemma_traversal_stays_inside(bounds, p, (k - 1) as nat);
        let prev = start.after((k - 1) as nat);
        prev.lemma_spec_next();
        prev.spec_baseline().lemma_neighbor_fields(Neighbor::North);
        if let Some(c) = prev.spec_current() {
            c.lemma_neighbor_fields(Neighbor::East);
        }
    }
}

} // verus!
