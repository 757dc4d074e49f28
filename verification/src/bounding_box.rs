//! Axis-aligned boxes of integer points, with the raster order that maps
//! the points of a box to the indices of a flat array.
//!
//! A point `(x, y, z)` of a box with minimum corner `min`, width `w` (along
//! x) and length `l` (along z) has the index
//! `(x - min.x) + (z - min.z) * w + (y - min.y) * w * l`: x varies fastest,
//! then z, then y.

use vstd::arithmetic::div_mod::{
    lemma_div_denominator,
    lemma_fundamental_div_mod,
    lemma_fundamental_div_mod_converse,
    lemma_multiply_divide_lt,
};
use vstd::prelude::*;

verus! {

/// The index of the offsets `(dx, dy, dz)` in a grid of width `w` and
/// length `l`.
pub open spec fn grid_index(w: int, l: int, dx: int, dy: int, dz: int) -> int {
    dx + dz * w + dy * w * l
}

/// The offsets `(dx, dy, dz)` that stand at `index` in a grid of width `w`
/// and length `l`.
pub open spec fn grid_offsets(w: int, l: int, index: int) -> (int, int, int) {
    (index % w, index / (w * l), (index / w) % l)
}

/// The index of offsets inside a grid lies inside the array, and the
/// offsets are found again from it.
pub proof fn lemma_grid_index(w: int, h: int, l: int, dx: int, dy: int, dz: int)
    requires
        0 <= dx < w,
        0 <= dy < h,
        0 <= dz < l,
    ensures
        0 <= grid_index(w, l, dx, dy, dz) < w * h * l,
        grid_offsets(w, l, grid_index(w, l, dx, dy, dz)) == (dx, dy, dz),
        0 <= dz * w + dx < w * l,
        dy * w * l == dy * (w * l),
        w * h * l == h * (w * l),
{
    let i = grid_index(w, l, dx, dy, dz);
    let row = dz * w + dx;
    assert(dy * w * l == dy * (w * l)) by (nonlinear_arith);
    assert(w * h * l == h * (w * l)) by (nonlinear_arith);
    assert(0 <= row < w * l) by (nonlinear_arith)
        requires
            0 <= dx < w,
            0 <= dz < l,
            row == dz * w + dx,
    ;
    assert(0 <= dy * (w * l) + row < h * (w * l)) by (nonlinear_arith)
        requires
            0 <= dy < h,
            0 <= row < w * l,
    ;
    assert(i == (dz + dy * l) * w + dx) by (nonlinear_arith)
        requires
            i == dx + dz * w + dy * w * l,
    ;
    lemma_fundamental_div_mod_converse(i, w, dz + dy * l, dx);
    lemma_fundamental_div_mod_converse(dz + dy * l, l, dy, dz);
    lemma_fundamental_div_mod_converse(i, w * l, dy, row);
}

/// The offsets of an index inside the array lie inside the grid, and the
/// index is found again from them.
pub proof fn lemma_grid_offsets(w: int, h: int, l: int, index: int)
    requires
        0 < w,
        0 < h,
        0 < l,
        0 <= index < w * h * l,
    ensures
        0 <= grid_offsets(w, l, index).0 < w,
        0 <= grid_offsets(w, l, index).1 < h,
        0 <= grid_offsets(w, l, index).2 < l,
        grid_index(
            w,
            l,
            grid_offsets(w, l, index).0,
            grid_offsets(w, l, index).1,
            grid_offsets(w, l, index).2,
        ) == index,
{
    let q = index / w;
    let dx = index % w;
    let dz = q % l;
    let dy = index / (w * l);
    assert(0 < w * l) by (nonlinear_arith)
        requires
            0 < w,
            0 < l,
    ;
    assert(w * h * l == (w * l) * h) by (nonlinear_arith);
    lemma_div_denominator(index, w, l);
    assert(dy == q / l);
    lemma_fundamental_div_mod(index, w);
    lemma_fundamental_div_mod(q, l);
    lemma_multiply_divide_lt(index, w * l, h);
    assert(0 <= dy) by (nonlinear_arith)
        requires
            dy == index / (w * l),
            0 <= index,
            0 < w * l,
    ;
    assert(dx + dz * w + dy * w * l == index) by (nonlinear_arith)
        requires
            index == w * q + dx,
            q == l * dy + dz,
    ;
}

/// The smaller of two integers.
pub fn min_i32(a: i32, b: i32) -> (r: i32)
    ensures
        r == if a <= b { a } else { b },
{
    if a <= b {
        a
    } else {
        b
    }
}

/// The larger of two integers.
pub fn max_i32(a: i32, b: i32) -> (r: i32)
    ensures
        r == if a >= b { a } else { b },
{
    if a >= b {
        a
    } else {
        b
    }
}

/// The far corner of the extent that starts at `position` and has the
/// signed size `size`: `position + size - sign(size)`.
pub open spec fn extent_end(position: int, size: int) -> int {
    if size > 0 {
        position + size - 1
    } else if size < 0 {
        position + size + 1
    } else {
        position
    }
}

/// An axis-aligned box; both corners belong to it.
#[derive(Debug, Clone, Copy, Eq)]
pub struct BoundingBox {
    pub min: (i32, i32, i32),
    pub max: (i32, i32, i32),
}

impl BoundingBox {
    /// The number of points along x.
    pub open spec fn width(&self) -> int {
        self.max.0 - self.min.0 + 1
    }

    /// The number of points along y.
    pub open spec fn height(&self) -> int {
        self.max.1 - self.min.1 + 1
    }

    /// The number of points along z.
    pub open spec fn length(&self) -> int {
        self.max.2 - self.min.2 + 1
    }

    /// The minimum corner is not beyond the maximum corner on any axis.
    pub open spec fn ordered(&self) -> bool {
        &&& self.min.0 <= self.max.0
        &&& self.min.1 <= self.max.1
        &&& self.min.2 <= self.max.2
    }

    /// The three dimensions are representable as `i32`.
    pub open spec fn dimensions_fit(&self) -> bool {
        &&& i32::MIN <= self.width() <= i32::MAX
        &&& i32::MIN <= self.height() <= i32::MAX
        &&& i32::MIN <= self.length() <= i32::MAX
    }

    /// The box is ordered and its dimensions are representable.
    pub open spec fn valid(&self) -> bool {
        self.ordered() && self.dimensions_fit()
    }

    /// The number of points of the box.
    pub open spec fn spec_volume(&self) -> int {
        self.width() * self.height() * self.length()
    }

    /// The box has at most 1024 points along each axis. The volume of such
    /// a box can be the length of an array on every machine, which is why
    /// the bounds on a volume name this case first: a caller with such a box
    /// has nothing to multiply.
    pub open spec fn small(&self) -> bool {
        &&& self.width() <= 1024
        &&& self.height() <= 1024
        &&& self.length() <= 1024
    }

    /// Whether the point `(x, y, z)` belongs to the box.
    pub open spec fn has_point(&self, x: int, y: int, z: int) -> bool {
        &&& self.min.0 <= x <= self.max.0
        &&& self.min.1 <= y <= self.max.1
        &&& self.min.2 <= z <= self.max.2
    }

    /// The index of the point `(x, y, z)` in raster order.
    pub open spec fn spec_index(&self, x: int, y: int, z: int) -> int {
        grid_index(self.width(), self.length(), x - self.min.0, y - self.min.1, z - self.min.2)
    }

    /// The point that stands at `index` in raster order.
    pub open spec fn spec_coords(&self, index: int) -> (int, int, int) {
        let d = grid_offsets(self.width(), self.length(), index);
        (d.0 + self.min.0, d.1 + self.min.1, d.2 + self.min.2)
    }

    /// The smallest box that covers `self` and `other`.
    pub open spec fn spec_union(&self, other: &BoundingBox) -> BoundingBox {
        BoundingBox {
            min: (
                if self.min.0 <= other.min.0 { self.min.0 } else { other.min.0 },
                if self.min.1 <= other.min.1 { self.min.1 } else { other.min.1 },
                if self.min.2 <= other.min.2 { self.min.2 } else { other.min.2 },
            ),
            max: (
                if self.max.0 >= other.max.0 { self.max.0 } else { other.max.0 },
                if self.max.1 >= other.max.1 { self.max.1 } else { other.max.1 },
                if self.max.2 >= other.max.2 { self.max.2 } else { other.max.2 },
            ),
        }
    }

    /// The box that the anchor `position` and the signed `size` describe.
    pub open spec fn spec_from_position_and_size(
        position: (i32, i32, i32),
        size: (i32, i32, i32),
    ) -> (int, int, int, int, int, int) {
        let e0 = extent_end(position.0 as int, size.0 as int);
        let e1 = extent_end(position.1 as int, size.1 as int);
        let e2 = extent_end(position.2 as int, size.2 as int);
        (
            if position.0 <= e0 { position.0 as int } else { e0 },
            if position.1 <= e1 { position.1 as int } else { e1 },
            if position.2 <= e2 { position.2 as int } else { e2 },
            if position.0 >= e0 { position.0 as int } else { e0 },
            if position.1 >= e1 { position.1 as int } else { e1 },
            if position.2 >= e2 { position.2 as int } else { e2 },
        )
    }

    /// The box with the given corners.
    pub fn new(min: (i32, i32, i32), max: (i32, i32, i32)) -> (r: Self)
        ensures
            r.min == min,
            r.max == max,
    {
        BoundingBox { min, max }
    }

    /// Whether `point` belongs to the box.
    pub fn contains(&self, point: (i32, i32, i32)) -> (r: bool)
        ensures
            r == self.has_point(point.0 as int, point.1 as int, point.2 as int),
    {
        point.0 >= self.min.0 && point.0 <= self.max.0 && point.1 >= self.min.1 && point.1
            <= self.max.1 && point.2 >= self.min.2 && point.2 <= self.max.2
    }

    /// Whether the two boxes share a point.
    pub fn intersects(&self, other: &BoundingBox) -> (r: bool)
        ensures
            r == (self.min.0 <= other.max.0 && self.max.0 >= other.min.0 && self.min.1
                <= other.max.1 && self.max.1 >= other.min.1 && self.min.2 <= other.max.2
                && self.max.2 >= other.min.2),
            self.ordered() && other.ordered() ==> (r <==> exists|x: int, y: int, z: int|
                self.has_point(x, y, z) && other.has_point(x, y, z)),
    {
        let r = self.min.0 <= other.max.0 && self.max.0 >= other.min.0 && self.min.1 <= other.max.1
            && self.max.1 >= other.min.1 && self.min.2 <= other.max.2 && self.max.2
            >= other.min.2;
        proof {
            if self.ordered() && other.ordered() && r {
                let b = self.spec_union(other);
                let x = if self.min.0 >= other.min.0 { self.min.0 as int } else { other.min.0 as int };
                let y = if self.min.1 >= other.min.1 { self.min.1 as int } else { other.min.1 as int };
                let z = if self.min.2 >= other.min.2 { self.min.2 as int } else { other.min.2 as int };
                assert(self.has_point(x, y, z) && other.has_point(x, y, z));
            }
        }
        r
    }

    /// The smallest box that covers both boxes.
    pub fn union(&self, other: &BoundingBox) -> (r: BoundingBox)
        ensures
            r == self.spec_union(other),
    {
        BoundingBox {
            min: (
                min_i32(self.min.0, other.min.0),
                min_i32(self.min.1, other.min.1),
                min_i32(self.min.2, other.min.2),
            ),
            max: (
                max_i32(self.max.0, other.max.0),
                max_i32(self.max.1, other.max.1),
                max_i32(self.max.2, other.max.2),
            ),
        }
    }

    /// The index of a point of the box in raster order.
    pub fn coords_to_index(&self, x: i32, y: i32, z: i32) -> (r: usize)
        requires
            self.valid(),
            self.has_point(x as int, y as int, z as int),
            self.small() || self.spec_volume() <= usize::MAX,
        ensures
            r == self.spec_index(x as int, y as int, z as int),
            r < self.spec_volume(),
    {
        proof {
            self.lemma_small_volume();
        }
        let w: u64 = (self.max.0 as i64 - self.min.0 as i64 + 1) as u64;
        let l: u64 = (self.max.2 as i64 - self.min.2 as i64 + 1) as u64;
        let dx: u64 = (x as i64 - self.min.0 as i64) as u64;
        let dy: u64 = (y as i64 - self.min.1 as i64) as u64;
        let dz: u64 = (z as i64 - self.min.2 as i64) as u64;
        proof {
            lemma_grid_index(
                self.width(),
                self.height(),
                self.length(),
                dx as int,
                dy as int,
                dz as int,
            );
            assert(0 <= dz * w <= dz * w + dx);
            assert(dy * w <= dy * w * l) by (nonlinear_arith)
                requires
                    0 <= dy,
                    0 <= w,
                    1 <= l,
            ;
            assert(0 <= dy * w) by (nonlinear_arith)
                requires
                    0 <= dy,
                    0 <= w,
            ;
        }
        let index: u64 = dx + dz * w + dy * w * l;
        index as usize
    }

    /// The point of the box that stands at `index` in raster order.
    pub fn index_to_coords(&self, index: usize) -> (r: (i32, i32, i32))
        requires
            self.valid(),
            index < self.spec_volume(),
        ensures
            (r.0 as int, r.1 as int, r.2 as int) == self.spec_coords(index as int),
            self.has_point(r.0 as int, r.1 as int, r.2 as int),
            self.spec_index(r.0 as int, r.1 as int, r.2 as int) == index,
    {
        let w: u64 = (self.max.0 as i64 - self.min.0 as i64 + 1) as u64;
        let l: u64 = (self.max.2 as i64 - self.min.2 as i64 + 1) as u64;
        let i: u64 = index as u64;
        proof {
            lemma_grid_offsets(self.width(), self.height(), self.length(), index as int);
            assert(0 < w * l <= 0x7fff_ffff * 0x7fff_ffff) by (nonlinear_arith)
                requires
                    0 < w <= 0x7fff_ffff,
                    0 < l <= 0x7fff_ffff,
            ;
        }
        let dx: u64 = i % w;
        let dy: u64 = i / (w * l);
        let dz: u64 = (i / w) % l;
        (
            (dx as i64 + self.min.0 as i64) as i32,
            (dy as i64 + self.min.1 as i64) as i32,
            (dz as i64 + self.min.2 as i64) as i32,
        )
    }

    /// The width, height and length of the box.
    pub fn get_dimensions(&self) -> (r: (i32, i32, i32))
        requires
            self.dimensions_fit(),
        ensures
            r.0 == self.width(),
            r.1 == self.height(),
            r.2 == self.length(),
    {
        (
            (self.max.0 as i64 - self.min.0 as i64 + 1) as i32,
            (self.max.1 as i64 - self.min.1 as i64 + 1) as i32,
            (self.max.2 as i64 - self.min.2 as i64 + 1) as i32,
        )
    }

    /// The minimum corner of the box and its dimensions.
    pub fn to_position_and_size(&self) -> (r: ((i32, i32, i32), (i32, i32, i32)))
        requires
            self.dimensions_fit(),
        ensures
            r.0 == self.min,
            r.1.0 == self.width(),
            r.1.1 == self.height(),
            r.1.2 == self.length(),
    {
        (self.min, self.get_dimensions())
    }

    /// The box that starts at the anchor `position` and extends by `size`:
    /// on each axis a positive size covers `[position, position + size)`,
    /// a negative one `(position + size, position]`, and size 0 covers the
    /// anchor alone.
    pub fn from_position_and_size(position: (i32, i32, i32), size: (i32, i32, i32)) -> (r: Self)
        requires
            i32::MIN <= extent_end(position.0 as int, size.0 as int) <= i32::MAX,
            i32::MIN <= extent_end(position.1 as int, size.1 as int) <= i32::MAX,
            i32::MIN <= extent_end(position.2 as int, size.2 as int) <= i32::MAX,
        ensures
            (
                r.min.0 as int,
                r.min.1 as int,
                r.min.2 as int,
                r.max.0 as int,
                r.max.1 as int,
                r.max.2 as int,
            ) == Self::spec_from_position_and_size(position, size),
            r.ordered(),
    {
        let e0 = extent_end_i32(position.0, size.0);
        let e1 = extent_end_i32(position.1, size.1);
        let e2 = extent_end_i32(position.2, size.2);
        BoundingBox {
            min: (min_i32(position.0, e0), min_i32(position.1, e1), min_i32(position.2, e2)),
            max: (max_i32(position.0, e0), max_i32(position.1, e1), max_i32(position.2, e2)),
        }
    }

    /// The number of points of the box.
    pub fn volume(&self) -> (r: u64)
        requires
            self.valid(),
            self.small() || self.spec_volume() <= u64::MAX,
        ensures
            r == self.spec_volume(),
    {
        proof {
            self.lemma_small_volume();
        }
        let w: u64 = (self.max.0 as i64 - self.min.0 as i64 + 1) as u64;
        let h: u64 = (self.max.1 as i64 - self.min.1 as i64 + 1) as u64;
        let l: u64 = (self.max.2 as i64 - self.min.2 as i64 + 1) as u64;
        proof {
            assert(0 <= w * h <= w * h * l) by (nonlinear_arith)
                requires
                    1 <= w,
                    1 <= h,
                    1 <= l,
            ;
        }
        w * h * l
    }

    /// The volume of an ordered box is positive, and that of a small one
    /// is at most 1024 * 1024 * 1024.
    pub proof fn lemma_small_volume(&self)
        requires
            self.ordered(),
        ensures
            0 < self.spec_volume(),
            self.small() ==> self.spec_volume() <= 0x4000_0000,
    {
        let w = self.width();
        let h = self.height();
        let l = self.length();
        assert(0 < w * h * l) by (nonlinear_arith)
            requires
                0 < w,
                0 < h,
                0 < l,
        ;
        if self.small() {
            assert(w * h * l <= 0x4000_0000) by (nonlinear_arith)
                requires
                    0 < w <= 1024,
                    0 < h <= 1024,
                    0 < l <= 1024,
            ;
        }
    }

    /// Every index below the volume is the index of the point that stands
    /// at it, and that point belongs to the box.
    pub proof fn lemma_index_of_coords(&self, index: int)
        requires
            self.ordered(),
            0 <= index < self.spec_volume(),
        ensures
            self.has_point(
                self.spec_coords(index).0,
                self.spec_coords(index).1,
                self.spec_coords(index).2,
            ),
            self.spec_index(
                self.spec_coords(index).0,
                self.spec_coords(index).1,
                self.spec_coords(index).2,
            ) == index,
    {
        lemma_grid_offsets(self.width(), self.height(), self.length(), index);
    }

    /// Every point of the box stands at its index, which lies below the
    /// volume.
    pub proof fn lemma_coords_of_index(&self, x: int, y: int, z: int)
        requires
            self.has_point(x, y, z),
        ensures
            0 <= self.spec_index(x, y, z) < self.spec_volume(),
            self.spec_coords(self.spec_index(x, y, z)) == (x, y, z),
    {
        lemma_grid_index(
            self.width(),
            self.height(),
            self.length(),
            x - self.min.0,
            y - self.min.1,
            z - self.min.2,
        );
    }

    /// The union of two ordered boxes is ordered and covers both.
    pub proof fn lemma_union_covers(&self, other: &BoundingBox)
        requires
            self.ordered(),
            other.ordered(),
        ensures
            self.spec_union(other).ordered(),
            forall|x: int, y: int, z: int|
                self.has_point(x, y, z) || other.has_point(x, y, z) ==> #[trigger] self.spec_union(
                    other,
                ).has_point(x, y, z),
    {
    }
}

impl PartialEq for BoundingBox {
    fn eq(&self, other: &Self) -> (r: bool) {
        self.min.0 == other.min.0 && self.min.1 == other.min.1 && self.min.2 == other.min.2
            && self.max.0 == other.max.0 && self.max.1 == other.max.1 && self.max.2
            == other.max.2
    }
}

impl vstd::std_specs::cmp::PartialEqSpecImpl for BoundingBox {
    open spec fn obeys_eq_spec() -> bool {
        true
    }

    open spec fn eq_spec(&self, other: &Self) -> bool {
        *self == *other
    }
}

/// The far corner of an extent, computed without overflow.
pub fn extent_end_i32(position: i32, size: i32) -> (r: i32)
    requires
        i32::MIN <= extent_end(position as int, size as int) <= i32::MAX,
    ensures
        r == extent_end(position as int, size as int),
{
    let p: i64 = position as i64;
    let s: i64 = size as i64;
    if size > 0 {
        (p + s - 1) as i32
    } else if size < 0 {
        (p + s + 1) as i32
    } else {
        position
    }
}

} // verus!
