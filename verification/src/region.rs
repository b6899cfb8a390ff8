//! Axis-aligned rectangles on the integer grid.
//!
//! A [`Region`] is closed: it contains its four edges.  Every test in this
//! module uses that one convention, so two regions that share an edge
//! intersect, and a region contains itself.

use vstd::prelude::*;

verus! {

/// A position on the grid.
#[derive(Clone, Copy, Debug, PartialEq, Eq, Hash, Structural)]
pub struct Point {
    pub x: i64,
    pub y: i64,
}

/// A closed axis-aligned rectangle, given by its minimum and maximum corners.
#[derive(Clone, Copy, Debug, PartialEq, Eq, Hash, Structural)]
pub struct Region {
    pub min: Point,
    pub max: Point,
}

/// The smaller of two coordinates.
pub open spec fn min_coord(a: i64, b: i64) -> i64 {
    if a <= b {
        a
    } else {
        b
    }
}

/// The larger of two coordinates.
pub open spec fn max_coord(a: i64, b: i64) -> i64 {
    if a <= b {
        b
    } else {
        a
    }
}

/// The midpoint of `lo..=hi`, rounded towards `lo`.
pub open spec fn midpoint(lo: i64, hi: i64) -> int {
    lo + (hi - lo) / 2
}

impl Point {
    pub fn new(x: i64, y: i64) -> (p: Point)
        ensures
            p == (Point { x, y }),
    {
        Point { x, y }
    }
}

impl Region {
    /// The minimum corner is not beyond the maximum corner on either axis.
    pub open spec fn wf(&self) -> bool {
        self.min.x <= self.max.x && self.min.y <= self.max.y
    }

    /// Width along the x axis.
    pub open spec fn width(&self) -> int {
        self.max.x - self.min.x
    }

    /// Height along the y axis.
    pub open spec fn height(&self) -> int {
        self.max.y - self.min.y
    }

    /// Width times height.
    pub open spec fn area(&self) -> int {
        self.width() * self.height()
    }

    pub open spec fn spec_contains_point(&self, p: Point) -> bool {
        self.min.x <= p.x <= self.max.x && self.min.y <= p.y <= self.max.y
    }

    pub open spec fn spec_contains_region(&self, other: &Region) -> bool {
        &&& self.min.x <= other.min.x
        &&& other.max.x <= self.max.x
        &&& self.min.y <= other.min.y
        &&& other.max.y <= self.max.y
    }

    pub open spec fn spec_intersects(&self, other: &Region) -> bool {
        &&& self.min.x <= other.max.x
        &&& other.min.x <= self.max.x
        &&& self.min.y <= other.max.y
        &&& other.min.y <= self.max.y
    }

    /// The two regions share more than boundary points: their interiors meet.
    pub open spec fn overlaps(&self, other: &Region) -> bool {
        &&& max_coord(self.min.x, other.min.x) < min_coord(self.max.x, other.max.x)
        &&& max_coord(self.min.y, other.min.y) < min_coord(self.max.y, other.max.y)
    }

    pub open spec fn spec_center(&self) -> Point {
        Point {
            x: midpoint(self.min.x, self.max.x) as i64,
            y: midpoint(self.min.y, self.max.y) as i64,
        }
    }

    /// The north-east quadrant: from the center to the maximum corner.
    pub open spec fn north_east(&self) -> Region {
        Region { min: self.spec_center(), max: self.max }
    }

    /// The north-west quadrant.
    pub open spec fn north_west(&self) -> Region {
        Region {
            min: Point { x: self.min.x, y: self.spec_center().y },
            max: Point { x: self.spec_center().x, y: self.max.y },
        }
    }

    /// The south-east quadrant.
    pub open spec fn south_east(&self) -> Region {
        Region {
            min: Point { x: self.spec_center().x, y: self.min.y },
            max: Point { x: self.max.x, y: self.spec_center().y },
        }
    }

    /// The south-west quadrant: from the minimum corner to the center.
    pub open spec fn south_west(&self) -> Region {
        Region { min: self.min, max: self.spec_center() }
    }

    /// The four quadrants in the order north-east, north-west, south-east,
    /// south-west.
    pub open spec fn spec_quadrants(&self) -> Seq<Region> {
        seq![self.north_east(), self.north_west(), self.south_east(), self.south_west()]
    }

    /// The region spanned by two opposite corners, given in any order.
    pub fn new(x0: i64, y0: i64, x1: i64, y1: i64) -> (r: Region)
        ensures
            r.wf(),
            r.min == (Point { x: min_coord(x0, x1), y: min_coord(y0, y1) }),
            r.max == (Point { x: max_coord(x0, x1), y: max_coord(y0, y1) }),
    {
        Region {
            min: Point { x: if x0 <= x1 { x0 } else { x1 }, y: if y0 <= y1 { y0 } else { y1 } },
            max: Point { x: if x0 <= x1 { x1 } else { x0 }, y: if y0 <= y1 { y1 } else { y0 } },
        }
    }

    /// Whether the corners are in order: the exec form of [`Region::wf`].
    pub fn is_well_formed(&self) -> (b: bool)
        ensures
            b == self.wf(),
    {
        self.min.x <= self.max.x && self.min.y <= self.max.y
    }

    /// Whether `p` lies in the region, edges included.
    #[verifier::when_used_as_spec(spec_contains_point)]
    pub fn contains_point(&self, p: Point) -> (b: bool)
        ensures
            b == self.spec_contains_point(p),
    {
        self.min.x <= p.x && p.x <= self.max.x && self.min.y <= p.y && p.y <= self.max.y
    }

    /// Whether `other` lies entirely within the region; it may touch the edges.
    #[verifier::when_used_as_spec(spec_contains_region)]
    pub fn contains_region(&self, other: &Region) -> (b: bool)
        ensures
            b == self.spec_contains_region(other),
    {
        self.min.x <= other.min.x && other.max.x <= self.max.x && self.min.y <= other.min.y
            && other.max.y <= self.max.y
    }

    /// Whether the two regions have a point in common.
    #[verifier::when_used_as_spec(spec_intersects)]
    pub fn intersects(&self, other: &Region) -> (b: bool)
        ensures
            b == self.spec_intersects(other),
    {
        self.min.x <= other.max.x && other.min.x <= self.max.x && self.min.y <= other.max.y
            && other.min.y <= self.max.y
    }

    /// The point halfway between the corners, rounded towards the minimum
    /// corner.
    #[verifier::when_used_as_spec(spec_center)]
    pub fn center(&self) -> (c: Point)
        requires
            self.wf(),
        ensures
            c == self.spec_center(),
            self.contains_point(c),
    {
        let half_w: i128 = (self.max.x as i128 - self.min.x as i128) / 2;
        let half_h: i128 = (self.max.y as i128 - self.min.y as i128) / 2;
        Point { x: (self.min.x as i128 + half_w) as i64, y: (self.min.y as i128 + half_h) as i64 }
    }

    /// Splits the region at its center into four quadrants, in the order
    /// north-east, north-west, south-east, south-west.
    pub fn quadrants(&self) -> (q: [Region; 4])
        requires
            self.wf(),
        ensures
            q@ == self.spec_quadrants(),
    {
        let c = self.center();
        [
            Region { min: c, max: self.max },
            Region { min: Point { x: self.min.x, y: c.y }, max: Point { x: c.x, y: self.max.y } },
            Region { min: Point { x: c.x, y: self.min.y }, max: Point { x: self.max.x, y: c.y } },
            Region { min: self.min, max: c },
        ]
    }
}

/// Containment of regions is containment of their points: a region holds
/// another well-formed region exactly when it holds every point of it.
pub proof fn law_contains_region_iff_all_points(outer: Region, inner: Region)
    requires
        inner.wf(),
    ensures
        outer.contains_region(&inner) <==> (forall|p: Point| #[trigger]
            inner.contains_point(p) ==> outer.contains_point(p)),
{
    if forall|p: Point| #[trigger] inner.contains_point(p) ==> outer.contains_point(p) {
        assert(inner.contains_point(inner.min));
        assert(inner.contains_point(inner.max));
    }
}

/// Two well-formed regions intersect exactly when some point lies in both.
pub proof fn law_intersects_iff_common_point(a: Region, b: Region)
    requires
        a.wf(),
        b.wf(),
    ensures
        a.intersects(&b) <==> (exists|p: Point| #[trigger]
            a.contains_point(p) && b.contains_point(p)),
{
    if a.intersects(&b) {
        let p = Point { x: max_coord(a.min.x, b.min.x), y: max_coord(a.min.y, b.min.y) };
        assert(a.contains_point(p) && b.contains_point(p));
    }
}

/// Containment is reflexive and transitive, and a region that holds a
/// well-formed region intersects it.
pub proof fn law_containment_order(a: Region, b: Region, c: Region)
    ensures
        a.contains_region(&a),
        a.contains_region(&b) && b.contains_region(&c) ==> a.contains_region(&c),
        a.contains_region(&b) && b.wf() ==> a.intersects(&b),
{
}

/// The four quadrants of a well-formed region partition it: each lies within
/// the region, together they cover every point of it, no two of them share
/// more than an edge, and their areas add up to the area of the region.
pub proof fn lemma_quadrants_partition(r: Region)
    requires
        r.wf(),
    ensures
        r.spec_quadrants().len() == 4,
        r.contains_point(r.spec_center()),
        forall|i: int|
            0 <= i < 4 ==> (#[trigger] r.spec_quadrants()[i]).wf() && r.contains_region(
                &r.spec_quadrants()[i],
            ),
        forall|p: Point| #[trigger]
            r.contains_point(p) <==> (exists|i: int|
                0 <= i < 4 && (#[trigger] r.spec_quadrants()[i]).contains_point(p)),
        forall|i: int, j: int|
            #![trigger r.spec_quadrants()[i], r.spec_quadrants()[j]]
            0 <= i < 4 && 0 <= j < 4 && i != j ==> !r.spec_quadrants()[i].overlaps(
                &r.spec_quadrants()[j],
            ),
        r.north_east().area() + r.north_west().area() + r.south_east().area()
            + r.south_west().area() == r.area(),
{
    assert(r.spec_quadrants().len() == 4);
    let c = r.spec_center();
    let w1 = c.x - r.min.x;
    let w2 = r.max.x - c.x;
    let h1 = c.y - r.min.y;
    let h2 = r.max.y - c.y;
    assert(w2 * h2 + w1 * h2 + w2 * h1 + w1 * h1 == (w1 + w2) * (h1 + h2)) by (nonlinear_arith);
}

/// The quadrants are as equal as the grid lets them be: along each axis the
/// two halves have the same extent where the region's extent is even, and
/// the half towards the maximum corner is longer by one where it is odd.
pub proof fn law_quadrants_sizes(r: Region)
    requires
        r.wf(),
    ensures
        r.south_west().width() == r.north_west().width(),
        r.south_east().width() == r.north_east().width(),
        r.south_west().height() == r.south_east().height(),
        r.north_west().height() == r.north_east().height(),
        r.south_west().width() + r.south_east().width() == r.width(),
        r.south_west().height() + r.north_west().height() == r.height(),
        r.south_east().width() - r.south_west().width() == r.width() % 2,
        r.north_west().height() - r.south_west().height() == r.height() % 2,
{
}

} // verus!
