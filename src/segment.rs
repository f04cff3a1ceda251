use vstd::prelude::*;

verus! {

/// A piece's place in the original, unbroken arrangement of the cube.
///
/// The unit cube is cut into a grid of `divisions` cells along each axis, and
/// the piece occupies cell `(x, y, z)` of it. Its edge length is therefore
/// `1 / divisions`, and its reference position (its centre) lies at
/// `((x + 1/2) / divisions - 1/2, ...)` when the whole cube is centred on the
/// origin. Subdivision only ever refines the grid, so this description is
/// exact for every piece the cube can hold.
#[derive(Clone, Copy, Debug, PartialEq, Eq, Structural)]
pub struct Segment {
    pub x: u64,
    pub y: u64,
    pub z: u64,
    pub divisions: u64,
}

/// Whether a point lies in the cell `c` of a grid of `divisions` cells along
/// one axis. The point's coordinate is `p / scale`, measured from the cube's
/// lower corner; each cell is half-open, so neighbouring cells do not overlap.
pub open spec fn axis_contains(c: int, divisions: int, p: int, scale: int) -> bool {
    c * scale <= p * divisions < (c + 1) * scale
}

impl Segment {
    /// The cell really lies inside the unit cube.
    pub open spec fn wf(self) -> bool {
        &&& self.divisions > 0
        &&& self.x < self.divisions
        &&& self.y < self.divisions
        &&& self.z < self.divisions
    }

    /// Whether the point `p / scale` (from the cube's lower corner) lies in
    /// this piece's original volume.
    pub open spec fn contains(self, p: (int, int, int), scale: int) -> bool {
        &&& axis_contains(self.x as int, self.divisions as int, p.0, scale)
        &&& axis_contains(self.y as int, self.divisions as int, p.1, scale)
        &&& axis_contains(self.z as int, self.divisions as int, p.2, scale)
    }

    /// Whether the grid of a subdivision into `count` parts per axis fits the
    /// integers it is stored in.
    pub open spec fn can_subdivide(self, count: u32) -> bool {
        self.divisions * count <= u64::MAX
    }

    /// Whether `loc` names one of the `count³` parts of a subdivision.
    pub open spec fn valid_loc(count: u32, loc: (u32, u32, u32)) -> bool {
        loc.0 < count && loc.1 < count && loc.2 < count
    }

    /// The part at `loc` when this piece is cut into `count` parts along each
    /// axis: one cell of a grid that is `count` times finer.
    pub open spec fn child(self, count: u32, loc: (u32, u32, u32)) -> Segment {
        Segment {
            x: (self.x * count + loc.0) as u64,
            y: (self.y * count + loc.1) as u64,
            z: (self.z * count + loc.2) as u64,
            divisions: (self.divisions * count) as u64,
        }
    }

    /// The single piece that fills the whole cube.
    pub fn whole() -> (r: Segment)
        ensures
            r == (Segment { x: 0, y: 0, z: 0, divisions: 1 }),
            r.wf(),
    {
        Segment { x: 0, y: 0, z: 0, divisions: 1 }
    }

    /// Whether the piece's edge length `1 / divisions` is at least
    /// `1 / min_length_recip`.
    pub fn is_at_least(&self, min_length_recip: u64) -> (r: bool)
        ensures
            r == (self.divisions <= min_length_recip),
    {
        self.divisions <= min_length_recip
    }

    /// The part at `loc` of this piece cut into `count³` equal parts.
    pub fn subdivide(&self, count: u32, loc: (u32, u32, u32)) -> (r: Segment)
        requires
            self.wf(),
            count > 0,
            Segment::valid_loc(count, loc),
            self.can_subdivide(count),
        ensures
            r == self.child(count, loc),
            r.wf(),
            r.x == self.x * count + loc.0,
            r.y == self.y * count + loc.1,
            r.z == self.z * count + loc.2,
            r.divisions == self.divisions * count,
    {
        proof {
            lemma_child_index_fits(self.x as int, self.divisions as int, count as int, loc.0 as int);
            lemma_child_index_fits(self.y as int, self.divisions as int, count as int, loc.1 as int);
            lemma_child_index_fits(self.z as int, self.divisions as int, count as int, loc.2 as int);
        }
        let n = count as u64;
        Segment {
            x: self.x * n + loc.0 as u64,
            y: self.y * n + loc.1 as u64,
            z: self.z * n + loc.2 as u64,
            divisions: self.divisions * n,
        }
    }
}

proof fn lemma_child_index_fits(c: int, d: int, n: int, i: int)
    requires
        0 <= c < d,
        0 <= i < n,
    ensures
        0 <= c * n + i < d * n,
{
    assert(0 <= c * n + i < d * n) by (nonlinear_arith)
        requires
            0 <= c < d,
            0 <= i < n,
    ;
}

/// Along one axis, a point lies in a cell exactly when it lies in one of the
/// `n` cells that the cell is cut into, and in no more than one of them.
proof fn lemma_axis_refines(c: int, d: int, n: int, p: int, scale: int)
    requires
        d > 0,
        n > 0,
        scale > 0,
    ensures
        axis_contains(c, d, p, scale) ==> {
            let i = (p * d * n) / scale - c * n;
            0 <= i < n && axis_contains(c * n + i, d * n, p, scale)
        },
        forall|i: int|
            0 <= i < n && #[trigger] axis_contains(c * n + i, d * n, p, scale) ==> axis_contains(
                c,
                d,
                p,
                scale,
            ),
        forall|i: int, j: int|
            #![trigger axis_contains(c * n + i, d * n, p, scale), axis_contains(c * n + j, d * n, p, scale)]
            axis_contains(c * n + i, d * n, p, scale) && axis_contains(c * n + j, d * n, p, scale)
                ==> i == j,
{
    let t = p * d * n;
    assert(t == p * (d * n)) by (nonlinear_arith)
        requires
            t == p * d * n,
    ;
    if axis_contains(c, d, p, scale) {
        let q = t / scale;
        assert(q * scale <= t < (q + 1) * scale) by (nonlinear_arith)
            requires
                scale > 0,
                q == t / scale,
        ;
        assert(c * n * scale <= t < (c + 1) * n * scale) by (nonlinear_arith)
            requires
                c * scale <= p * d < (c + 1) * scale,
                t == p * d * n,
                n > 0,
        ;
        assert(c * n <= q < c * n + n) by (nonlinear_arith)
            requires
                q * scale <= t < (q + 1) * scale,
                c * n * scale <= t < (c + 1) * n * scale,
                scale > 0,
        ;
        let i = q - c * n;
        assert((c * n + i) * scale <= t < (c * n + i + 1) * scale);
    }
    assert forall|i: int|
        0 <= i < n && #[trigger] axis_contains(c * n + i, d * n, p, scale) implies axis_contains(
            c,
            d,
            p,
            scale,
        ) by {
        assert(axis_contains(c, d, p, scale)) by (nonlinear_arith)
            requires
                0 <= i < n,
                (c * n + i) * scale <= p * (d * n) < (c * n + i + 1) * scale,
                n > 0,
                scale > 0,
        ;
    }
    assert forall|i: int, j: int|
        #![trigger axis_contains(c * n + i, d * n, p, scale), axis_contains(c * n + j, d * n, p, scale)]
        axis_contains(c * n + i, d * n, p, scale) && axis_contains(c * n + j, d * n, p, scale)
            implies i == j by {
        assert(i == j) by (nonlinear_arith)
            requires
                (c * n + i) * scale <= t < (c * n + i + 1) * scale,
                (c * n + j) * scale <= t < (c * n + j + 1) * scale,
                scale > 0,
        ;
    }
}

/// Cutting a piece into `count³` parts tiles it exactly: a point lies in the
/// piece if and only if it lies in some part, and no point lies in two
/// different parts. Each part's edge is the piece's edge divided by `count`.
pub proof fn lemma_subdivide_tiles(parent: Segment, count: u32, p: (int, int, int), scale: int)
    requires
        parent.wf(),
        count > 0,
        parent.can_subdivide(count),
        scale > 0,
    ensures
        forall|loc: (u32, u32, u32)|
            Segment::valid_loc(count, loc) ==> (#[trigger] parent.child(count, loc)).divisions
                == parent.divisions * count,
        parent.contains(p, scale) <==> exists|loc: (u32, u32, u32)|
            Segment::valid_loc(count, loc) && #[trigger] parent.child(count, loc).contains(p, scale),
        forall|a: (u32, u32, u32), b: (u32, u32, u32)|
            Segment::valid_loc(count, a) && Segment::valid_loc(count, b) && (#[trigger] parent.child(
                count,
                a,
            )).contains(p, scale) && (#[trigger] parent.child(count, b)).contains(p, scale) ==> a
                == b,
{
    let d = parent.divisions as int;
    let n = count as int;
    assert forall|loc: (u32, u32, u32)| Segment::valid_loc(count, loc) implies {
        let ch = #[trigger] parent.child(count, loc);
        &&& ch.divisions == d * n
        &&& ch.x == parent.x * n + loc.0
        &&& ch.y == parent.y * n + loc.1
        &&& ch.z == parent.z * n + loc.2
    } by {
        lemma_child_index_fits(parent.x as int, d, n, loc.0 as int);
        lemma_child_index_fits(parent.y as int, d, n, loc.1 as int);
        lemma_child_index_fits(parent.z as int, d, n, loc.2 as int);
    }
    lemma_axis_refines(parent.x as int, d, n, p.0, scale);
    lemma_axis_refines(parent.y as int, d, n, p.1, scale);
    lemma_axis_refines(parent.z as int, d, n, p.2, scale);
    if parent.contains(p, scale) {
        let ix = (p.0 * d * n) / scale - parent.x * n;
        let iy = (p.1 * d * n) / scale - parent.y * n;
        let iz = (p.2 * d * n) / scale - parent.z * n;
        let loc = (ix as u32, iy as u32, iz as u32);
        assert(Segment::valid_loc(count, loc));
        assert(parent.child(count, loc).contains(p, scale));
    }
    assert forall|loc: (u32, u32, u32)|
        Segment::valid_loc(count, loc) && #[trigger] parent.child(count, loc).contains(
            p,
            scale,
        ) implies parent.contains(p, scale) by {
        assert(axis_contains(parent.x * n + loc.0, d * n, p.0, scale));
        assert(axis_contains(parent.y * n + loc.1, d * n, p.1, scale));
        assert(axis_contains(parent.z * n + loc.2, d * n, p.2, scale));
    }
    assert forall|a: (u32, u32, u32), b: (u32, u32, u32)|
        Segment::valid_loc(count, a) && Segment::valid_loc(count, b) && (#[trigger] parent.child(
            count,
            a,
        )).contains(p, scale) && (#[trigger] parent.child(count, b)).contains(p, scale) implies a
        == b by {
        assert(axis_contains(parent.x * n + a.0, d * n, p.0, scale));
        assert(axis_contains(parent.x * n + b.0, d * n, p.0, scale));
        assert(axis_contains(parent.y * n + a.1, d * n, p.1, scale));
        assert(axis_contains(parent.y * n + b.1, d * n, p.1, scale));
        assert(axis_contains(parent.z * n + a.2, d * n, p.2, scale));
        assert(axis_contains(parent.z * n + b.2, d * n, p.2, scale));
    }
}

} // verus!
