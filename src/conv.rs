use vstd::arithmetic::div_mod::{lemma_mod_add_multiples_vanish, lemma_small_mod};
use vstd::prelude::*;

verus! {

/// A point of the plane with exact integer coordinates.
#[derive(Clone, Copy, PartialEq, Eq, Structural, Debug)]
pub struct Point {
    pub x: i32,
    pub y: i32,
}

impl Point {
    pub fn new(x: i32, y: i32) -> (r: Self)
        ensures
            r.x == x,
            r.y == y,
    {
        Point { x, y }
    }
}

/// Cross product of the vectors `o -> a` and `o -> b`: positive when `o, a, b`
/// turn counter-clockwise, zero when they are collinear.
pub open spec fn cross(o: Point, a: Point, b: Point) -> int {
    (a.x - o.x) * (b.y - o.y) - (a.y - o.y) * (b.x - o.x)
}

/// Dot product of the vectors `o -> a` and `o -> b`.
pub open spec fn dot(o: Point, a: Point, b: Point) -> int {
    (a.x - o.x) * (b.x - o.x) + (a.y - o.y) * (b.y - o.y)
}

/// `p` lies on the line through `a` and `b`.
pub open spec fn collinear(a: Point, b: Point, p: Point) -> bool {
    cross(a, b, p) == 0
}

/// `p` lies on the closed segment from `a` to `b`.
pub open spec fn on_segment(a: Point, b: Point, p: Point) -> bool {
    collinear(a, b, p) && dot(p, a, b) <= 0
}

/// The directed edge `a -> b` is seen from `p`: `p` lies strictly on its right.
pub open spec fn lit(a: Point, b: Point, p: Point) -> bool {
    cross(p, a, b) < 0
}

/// The `i`-th vertex of `v`, counted around the cycle.
pub open spec fn cyc(v: Seq<Point>, i: int) -> Point {
    v[i % (v.len() as int)]
}

/// Edge `e` of the cycle `v`, from vertex `e` to vertex `e + 1`, is seen from `p`.
pub open spec fn edge_lit(v: Seq<Point>, e: int, p: Point) -> bool {
    lit(cyc(v, e), cyc(v, e + 1), p)
}

/// A directed segment between two points, carrying the geometric tests of the hull.
pub struct Segment {
    p: Point,
    q: Point,
}

fn diff(a: i32, b: i32) -> (r: i128)
    ensures
        r == b - a,
{
    b as i128 - a as i128
}

impl Segment {
    fn new(p: Point, q: Point) -> (r: Self)
        ensures
            r.p == p,
            r.q == q,
    {
        Segment { p, q }
    }

    /// Dot product of the two segments' vectors.
    fn dot(&self, that: &Segment) -> (r: i128)
        ensures
            r == (self.q.x - self.p.x) * (that.q.x - that.p.x) + (self.q.y - self.p.y) * (that.q.y - that.p.y),
    {
        let ax = diff(self.p.x, self.q.x);
        let ay = diff(self.p.y, self.q.y);
        let bx = diff(that.p.x, that.q.x);
        let by = diff(that.p.y, that.q.y);
        proof {
            lemma_product_bound(ax as int, bx as int);
            lemma_product_bound(ay as int, by as int);
        }
        ax * bx + ay * by
    }

    /// Cross product of the two segments' vectors.
    fn mul(&self, that: &Segment) -> (r: i128)
        ensures
            r == (self.q.x - self.p.x) * (that.q.y - that.p.y) - (self.q.y - self.p.y) * (that.q.x - that.p.x),
    {
        let ax = diff(self.p.x, self.q.x);
        let ay = diff(self.p.y, self.q.y);
        let bx = diff(that.p.x, that.q.x);
        let by = diff(that.p.y, that.q.y);
        proof {
            lemma_product_bound(ax as int, by as int);
            lemma_product_bound(ay as int, bx as int);
        }
        ax * by - ay * bx
    }

    /// `pt` lies on the line of the segment.
    fn inline(&self, pt: Point) -> (r: bool)
        ensures
            r == collinear(self.p, self.q, pt),
    {
        self.mul(&Segment::new(self.p, pt)) == 0
    }

    /// `pt` lies on the segment, between its ends (ends included).
    fn within(&self, pt: Point) -> (r: bool)
        ensures
            r == on_segment(self.p, self.q, pt),
    {
        let pa = Segment::new(pt, self.p);
        let pb = Segment::new(pt, self.q);
        self.inline(pt) && pa.dot(&pb) <= 0
    }

    /// The directed segment is seen from `pt`: `pt` lies strictly on its right.
    fn is_light(&self, pt: Point) -> (r: bool)
        ensures
            r == lit(self.p, self.q, pt),
    {
        let pa = Segment::new(pt, self.p);
        let pb = Segment::new(pt, self.q);
        let s = pa.mul(&pb);
        proof {
            lemma_cross_rotate(pt, self.p, self.q);
        }
        s < 0 || (s == 0 && !self.inline(pt))
    }
}

/// The cross product does not change when its three points are rotated.
pub proof fn lemma_cross_rotate(o: Point, a: Point, b: Point)
    ensures
        cross(o, a, b) == cross(a, b, o),
        cross(o, a, b) == -cross(o, b, a),
{
    assert(cross(o, a, b) == cross(a, b, o)) by (nonlinear_arith);
    assert(cross(o, a, b) == -cross(o, b, a)) by (nonlinear_arith);
}

proof fn lemma_product_bound(a: int, b: int)
    requires
        -0x1_0000_0000 <= a <= 0x1_0000_0000,
        -0x1_0000_0000 <= b <= 0x1_0000_0000,
    ensures
        -0x1_0000_0000_0000_0000 <= a * b <= 0x1_0000_0000_0000_0000,
{
    assert(-0x1_0000_0000_0000_0000 <= a * b <= 0x1_0000_0000_0000_0000) by (nonlinear_arith)
        requires -0x1_0000_0000 <= a <= 0x1_0000_0000, -0x1_0000_0000 <= b <= 0x1_0000_0000;
}

/// Edge `e` and edge `e + n` of a cycle of `n` vertices are the same edge.
proof fn lemma_edge_shift(v: Seq<Point>, e: int, p: Point)
    requires
        v.len() > 0,
    ensures
        edge_lit(v, e + v.len(), p) == edge_lit(v, e, p),
{
    let n = v.len() as int;
    lemma_mod_add_multiples_vanish(e, n);
    lemma_mod_add_multiples_vanish(e + 1, n);
    assert(e + n + 1 == n + (e + 1));
}

/// An edge index below `2n` may be reduced modulo `n`.
proof fn lemma_edge_mod(v: Seq<Point>, x: int, p: Point)
    requires
        v.len() > 0,
        0 <= x < 2 * v.len(),
    ensures
        edge_lit(v, x % (v.len() as int), p) == edge_lit(v, x, p),
        cyc(v, x % (v.len() as int)) == cyc(v, x),
        cyc(v, x % (v.len() as int) + 1) == cyc(v, x + 1),
        x < v.len() ==> x % (v.len() as int) == x,
        x >= v.len() ==> x % (v.len() as int) == x - v.len(),
{
    let n = v.len() as int;
    if x < n {
        lemma_small_mod(x as nat, n as nat);
    } else {
        lemma_small_mod((x - n) as nat, n as nat);
        lemma_mod_add_multiples_vanish(x - n, n);
        lemma_edge_shift(v, x - n, p);
        lemma_cyc_shift(v, x - n);
        lemma_cyc_shift(v, x - n + 1);
    }
}

/// `(a + b) % n`, for `a` and `b` below `n`, without overflow.
fn wrap_add(a: usize, b: usize, n: usize) -> (r: usize)
    requires
        a < n,
        b < n,
    ensures
        r == (a + b) % (n as int),
        r < n,
{
    proof {
        if a + b < n {
            lemma_small_mod((a + b) as nat, n as nat);
        } else {
            lemma_small_mod((a + b - n) as nat, n as nat);
            lemma_mod_add_multiples_vanish(a + b - n, n as int);
        }
    }
    if b < n - a {
        a + b
    } else {
        b - (n - a)
    }
}

/// Twice the signed area of the triangle `(0, 0), a, b`.
pub open spec fn shoelace_term(a: Point, b: Point) -> int {
    a.x * b.y - b.x * a.y
}

/// The sum of the shoelace terms of the `m` edges of the cycle `v` that start
/// at vertices `st`, `st + 1`, ...
pub open spec fn edge_terms(v: Seq<Point>, st: int, m: int) -> int
    decreases m,
{
    if m <= 0 {
        0
    } else {
        edge_terms(v, st, m - 1) + shoelace_term(cyc(v, st + m - 1), cyc(v, st + m))
    }
}

/// Twice the signed area of the polygon `v` (the shoelace formula): positive
/// when `v` winds counter-clockwise, zero for fewer than three vertices.
pub open spec fn shoelace(v: Seq<Point>) -> int {
    edge_terms(v, 0, v.len() as int)
}

/// Twice the area that the `m` edges of `v` from vertex `st` on span with `p`,
/// each edge counted positive when `p` sees it.
pub open spec fn fan(v: Seq<Point>, p: Point, st: int, m: int) -> int
    decreases m,
{
    if m <= 0 {
        0
    } else {
        fan(v, p, st, m - 1) - cross(p, cyc(v, st + m - 1), cyc(v, st + m))
    }
}

proof fn lemma_cyc_shift(v: Seq<Point>, i: int)
    requires
        v.len() > 0,
    ensures
        cyc(v, i + v.len()) == cyc(v, i),
{
    lemma_mod_add_multiples_vanish(i, v.len() as int);
    assert(i + v.len() == v.len() + i);
}

proof fn lemma_terms_split(v: Seq<Point>, st: int, a: int, b: int)
    requires
        a >= 0,
        b >= 0,
    ensures
        edge_terms(v, st, a + b) == edge_terms(v, st, a) + edge_terms(v, st + a, b),
    decreases b,
{
    if b > 0 {
        lemma_terms_split(v, st, a, b - 1);
        assert(st + (a + b) - 1 == st + a + b - 1);
    }
}

proof fn lemma_fan_split(v: Seq<Point>, p: Point, st: int, a: int, b: int)
    requires
        a >= 0,
        b >= 0,
    ensures
        fan(v, p, st, a + b) == fan(v, p, st, a) + fan(v, p, st + a, b),
    decreases b,
{
    if b > 0 {
        lemma_fan_split(v, p, st, a, b - 1);
    }
}

proof fn lemma_terms_shift(v: Seq<Point>, st: int, m: int)
    requires
        v.len() > 0,
        m >= 0,
    ensures
        edge_terms(v, st + v.len(), m) == edge_terms(v, st, m),
    decreases m,
{
    if m > 0 {
        lemma_terms_shift(v, st, m - 1);
        lemma_cyc_shift(v, st + m - 1);
        lemma_cyc_shift(v, st + m);
    }
}

proof fn lemma_fan_shift(v: Seq<Point>, p: Point, st: int, m: int)
    requires
        v.len() > 0,
        m >= 0,
    ensures
        fan(v, p, st + v.len(), m) == fan(v, p, st, m),
    decreases m,
{
    if m > 0 {
        lemma_fan_shift(v, p, st, m - 1);
        lemma_cyc_shift(v, st + m - 1);
        lemma_cyc_shift(v, st + m);
    }
}

/// The shoelace sum of a cycle may start at any vertex.
proof fn lemma_terms_rotate(v: Seq<Point>, st: int)
    requires
        v.len() > 0,
        st >= 0,
    ensures
        edge_terms(v, st, v.len() as int) == shoelace(v),
{
    let n = v.len() as int;
    lemma_terms_split(v, 0, st, n);
    lemma_terms_split(v, 0, n, st);
    lemma_terms_shift(v, 0, st);
}

/// `cross(p, a, b)` split into shoelace terms.
pub proof fn lemma_cross_terms(p: Point, a: Point, b: Point)
    ensures
        cross(p, a, b) == shoelace_term(a, b) + shoelace_term(p, a) - shoelace_term(p, b),
{
    assert(cross(p, a, b) == shoelace_term(a, b) + shoelace_term(p, a) - shoelace_term(p, b)) by (nonlinear_arith);
}

proof fn lemma_fan_closed(v: Seq<Point>, p: Point, st: int, m: int)
    requires
        m >= 0,
    ensures
        fan(v, p, st, m) == -(edge_terms(v, st, m) + shoelace_term(p, cyc(v, st)) - shoelace_term(p, cyc(v, st + m))),
    decreases m,
{
    if m > 0 {
        lemma_fan_closed(v, p, st, m - 1);
        lemma_cross_terms(p, cyc(v, st + m - 1), cyc(v, st + m));
    }
}

proof fn lemma_term_bound(a: Point, b: Point)
    ensures
        -0x8000_0000_0000_0000 <= shoelace_term(a, b) <= 0x8000_0000_0000_0000,
{
    assert(-0x4000_0000_0000_0000 <= a.x * b.y <= 0x4000_0000_0000_0000) by (nonlinear_arith)
        requires -0x8000_0000 <= a.x <= 0x7fff_ffff, -0x8000_0000 <= b.y <= 0x7fff_ffff;
    assert(-0x4000_0000_0000_0000 <= b.x * a.y <= 0x4000_0000_0000_0000) by (nonlinear_arith)
        requires -0x8000_0000 <= b.x <= 0x7fff_ffff, -0x8000_0000 <= a.y <= 0x7fff_ffff;
}

proof fn lemma_terms_bound(v: Seq<Point>, st: int, m: int)
    requires
        m >= 0,
    ensures
        -(m * 0x8000_0000_0000_0000) <= edge_terms(v, st, m) <= m * 0x8000_0000_0000_0000,
    decreases m,
{
    if m > 0 {
        lemma_terms_bound(v, st, m - 1);
        lemma_term_bound(cyc(v, st + m - 1), cyc(v, st + m));
    }
}

/// A fan of `m` edges is bounded as a polygon of `m + 2` edges is.
proof fn lemma_fan_bound(v: Seq<Point>, p: Point, st: int, m: int)
    requires
        m >= 0,
    ensures
        -((m + 2) * 0x8000_0000_0000_0000) <= fan(v, p, st, m) <= (m + 2) * 0x8000_0000_0000_0000,
{
    lemma_fan_closed(v, p, st, m);
    lemma_terms_bound(v, st, m);
    lemma_term_bound(p, cyc(v, st));
    lemma_term_bound(p, cyc(v, st + m));
}

proof fn lemma_prefix_terms(w: Seq<Point>, v: Seq<Point>, st: int, c: int, m: int)
    requires
        w.len() == c + 1,
        1 <= c,
        0 <= m <= c - 1,
        forall|i: int| 0 <= i < c ==> #[trigger] w[i] == cyc(v, st + i),
    ensures
        edge_terms(w, 0, m) == edge_terms(v, st, m),
    decreases m,
{
    if m > 0 {
        lemma_prefix_terms(w, v, st, c, m - 1);
        lemma_small_mod((m - 1) as nat, (c + 1) as nat);
        lemma_small_mod(m as nat, (c + 1) as nat);
        assert(w[m - 1] == cyc(v, st + (m - 1)));
        assert(w[m] == cyc(v, st + m));
    }
}

/// Cutting a run of edges out of the cycle `v` and putting `p` in its place
/// adds to twice the area exactly the fan of the cut edges seen from `p`.
pub proof fn lemma_shoelace_trimmed(v: Seq<Point>, p: Point, st: int, c: int, w: Seq<Point>)
    requires
        0 <= st < v.len(),
        1 <= c <= v.len(),
        w == Seq::new(c as nat, |i: int| cyc(v, st + i)).push(p),
    ensures
        shoelace(w) == shoelace(v) + fan(v, p, st + c - 1, v.len() - c + 1),
{
    let n = v.len() as int;
    assert forall|i: int| 0 <= i < c implies #[trigger] w[i] == cyc(v, st + i) by {}
    lemma_prefix_terms(w, v, st, c, c - 1);
    lemma_small_mod((c - 1) as nat, (c + 1) as nat);
    lemma_small_mod(c as nat, (c + 1) as nat);
    vstd::arithmetic::div_mod::lemma_mod_self_0(c + 1);
    assert(w[c - 1] == cyc(v, st + (c - 1)));
    assert(w[c] == p);
    assert(shoelace(w) == edge_terms(w, 0, c - 1) + shoelace_term(cyc(v, st + c - 1), p) + shoelace_term(p, cyc(v, st))) by {
        assert(edge_terms(w, 0, c + 1) == edge_terms(w, 0, c) + shoelace_term(cyc(w, c), cyc(w, c + 1)));
        assert(edge_terms(w, 0, c) == edge_terms(w, 0, c - 1) + shoelace_term(cyc(w, c - 1), cyc(w, c)));
    }
    lemma_terms_rotate(v, st);
    lemma_terms_split(v, st, c - 1, n - c + 1);
    lemma_fan_closed(v, p, st + c - 1, n - c + 1);
    lemma_cyc_shift(v, st);
    assert(st + c - 1 + (n - c + 1) == st + n);
}

/// What one insertion did to the hull.
#[derive(Clone, Copy, PartialEq, Eq, Structural, Debug)]
pub enum ChangeOutcome {
    /// The point lies inside the hull or on its boundary; nothing changed.
    UnchangedInterior,
    /// The hull is that single point already; nothing changed.
    UnchangedDuplicate,
    /// The hull is a segment and the point extends it along its line.
    ExtendedDegenerate,
    /// The point became a vertex of the hull.
    Grew,
}

/// The step on a two-vertex hull `[a, b]`: a point on the segment changes
/// nothing, a point on its line beyond it replaces the end it passed, and any
/// other point makes a triangle wound counter-clockwise.
pub open spec fn segment_step(a: Point, b: Point, p: Point, r: ChangeOutcome, w: Seq<Point>) -> bool {
    if on_segment(a, b, p) {
        r == ChangeOutcome::UnchangedInterior && w == seq![a, b]
    } else if collinear(a, b, p) {
        r == ChangeOutcome::ExtendedDegenerate && w == seq![if on_segment(a, p, b) { a } else { b }, p]
    } else {
        r == ChangeOutcome::Grew && w == if cross(p, a, b) < 0 {
            seq![a, p, b]
        } else {
            seq![b, p, a]
        }
    }
}

/// `w` is the cycle `v` with a run of edges seen from `p` cut out and `p` put in
/// their place: `w` keeps the `c` vertices of `v` from position `st` on, then
/// `p`; every edge from the last kept vertex round to the first is seen from
/// `p`, and the two kept edges next to `p` are not.
pub open spec fn trimmed(v: Seq<Point>, p: Point, st: int, c: int, w: Seq<Point>) -> bool {
    let n = v.len() as int;
    &&& 0 <= st < n
    &&& 1 <= c <= n
    &&& w == Seq::new(c as nat, |i: int| cyc(v, st + i)).push(p)
    &&& forall|i: int| c - 1 <= i < n ==> #[trigger] edge_lit(v, st + i, p)
    &&& c >= 2 ==> !edge_lit(v, st, p) && !edge_lit(v, st + c - 2, p)
}

/// The step on a hull of three or more vertices.
pub open spec fn polygon_step(v: Seq<Point>, p: Point, r: ChangeOutcome, w: Seq<Point>) -> bool {
    &&& (r == ChangeOutcome::UnchangedInterior) == (forall|e: int| 0 <= e < v.len() ==> !#[trigger] edge_lit(v, e, p))
    &&& r == ChangeOutcome::UnchangedInterior ==> w == v
    &&& r != ChangeOutcome::UnchangedInterior ==> r == ChangeOutcome::Grew && exists|st: int, c: int| trimmed(v, p, st, c, w)
}

/// One insertion of `p` into the hull `v`, giving `w` and the outcome `r`,
/// by the number of vertices of `v`.
pub open spec fn insert_step(v: Seq<Point>, p: Point, r: ChangeOutcome, w: Seq<Point>) -> bool {
    if v.len() == 0 {
        r == ChangeOutcome::Grew && w == seq![p]
    } else if v.len() == 1 {
        if p == v[0] {
            r == ChangeOutcome::UnchangedDuplicate && w == v
        } else {
            r == ChangeOutcome::Grew && w == seq![p, v[0]]
        }
    } else if v.len() == 2 {
        segment_step(v[0], v[1], p, r, w)
    } else {
        polygon_step(v, p, r, w)
    }
}

/// Inserting again a point of a hull of one or two vertices (the vertex, or
/// any point of the segment), or a point that sees no edge of a larger hull,
/// leaves the hull exactly as it was.
pub proof fn lemma_reinsert_unchanged(v: Seq<Point>, p: Point, r: ChangeOutcome, w: Seq<Point>)
    requires
        insert_step(v, p, r, w),
        (v.len() == 1 && p == v[0])
            || (v.len() == 2 && on_segment(v[0], v[1], p))
            || (v.len() >= 3 && forall|e: int| 0 <= e < v.len() ==> !#[trigger] edge_lit(v, e, p)),
    ensures
        w == v,
        r == ChangeOutcome::UnchangedDuplicate || r == ChangeOutcome::UnchangedInterior,
{
    if v.len() == 2 {
        assert(v =~= seq![v[0], v[1]]);
    }
}

/// A hull that grows from two vertices to three is a triangle wound
/// counter-clockwise: each of its three corners turns strictly left.
pub proof fn lemma_triangle_winds_left(v: Seq<Point>, p: Point, r: ChangeOutcome, w: Seq<Point>)
    requires
        insert_step(v, p, r, w),
        v.len() == 2,
        w.len() == 3,
    ensures
        cross(w[0], w[1], w[2]) > 0,
        cross(w[1], w[2], w[0]) > 0,
        cross(w[2], w[0], w[1]) > 0,
{
    let a = v[0];
    let b = v[1];
    lemma_cross_rotate(p, a, b);
    lemma_cross_rotate(a, b, p);
    lemma_cross_rotate(b, p, a);
    lemma_cross_rotate(a, p, b);
    lemma_cross_rotate(p, b, a);
    lemma_cross_rotate(b, a, p);
}

/// When a hull of three or more vertices grows, the two corners beside the
/// new vertex `p` do not turn right: the last kept vertex before `p` and the
/// first kept vertex after it each see `p` on the left of, or on, their edge.
pub proof fn lemma_grown_corners_not_right(v: Seq<Point>, p: Point, r: ChangeOutcome, w: Seq<Point>)
    requires
        insert_step(v, p, r, w),
        v.len() >= 3,
        r == ChangeOutcome::Grew,
        w.len() >= 3,
    ensures
        cross(w[w.len() - 3], w[w.len() - 2], p) >= 0,
        cross(p, w[0], w[1]) >= 0,
        w.last() == p,
{
    let (st, c) = choose|st: int, c: int| trimmed(v, p, st, c, w);
    assert(w[c as int] == p);
    assert(c >= 2);
    assert(w[0] == cyc(v, st));
    assert(w[1] == cyc(v, st + 1));
    assert(w[c - 2] == cyc(v, st + c - 2));
    assert(w[c - 1] == cyc(v, st + c - 1));
    assert(st + c - 2 + 1 == st + c - 1);
    lemma_cross_rotate(p, cyc(v, st + c - 2), cyc(v, st + c - 1));
}

/// The convex hull of the points inserted so far, kept as a cycle of vertices
/// that insertion builds counter-clockwise, with twice its area. Coordinates
/// are exact integers, so every geometric test is exact.
pub struct ConvexHull {
    vertices: Vec<Point>,
    /// Twice the area, kept up to date insertion by insertion.
    area2: i128,
}

/// Twice the area of hulls of one, two and three vertices.
proof fn lemma_small_shoelace(a: Point, b: Point, c: Point)
    ensures
        shoelace(seq![a]) == 0,
        shoelace(seq![a, b]) == 0,
        shoelace(seq![a, b, c]) == cross(a, b, c),
{
    vstd::arithmetic::div_mod::lemma_mod_self_0(1);
    lemma_small_mod(0, 1);
    vstd::arithmetic::div_mod::lemma_mod_self_0(2);
    lemma_small_mod(0, 2);
    lemma_small_mod(1, 2);
    vstd::arithmetic::div_mod::lemma_mod_self_0(3);
    lemma_small_mod(0, 3);
    lemma_small_mod(1, 3);
    lemma_small_mod(2, 3);
    let s1 = seq![a];
    let s2 = seq![a, b];
    let s3 = seq![a, b, c];
    assert(edge_terms(s1, 0, 0) == 0);
    assert(edge_terms(s2, 0, 0) == 0);
    assert(edge_terms(s3, 0, 0) == 0);
    assert(cyc(s1, 0) == s1[0] && cyc(s1, 1) == s1[0]);
    assert(cyc(s2, 0) == s2[0] && cyc(s2, 1) == s2[1] && cyc(s2, 2) == s2[0]);
    assert(cyc(s3, 0) == s3[0] && cyc(s3, 1) == s3[1] && cyc(s3, 2) == s3[2] && cyc(s3, 3) == s3[0]);
    assert(edge_terms(s1, 0, 1) == shoelace_term(s1[0], s1[0]));
    assert(edge_terms(s2, 0, 2) == shoelace_term(s2[0], s2[1]) + shoelace_term(s2[1], s2[0])) by {
        assert(edge_terms(s2, 0, 1) == shoelace_term(s2[0], s2[1]));
    }
    assert(edge_terms(s3, 0, 3) == shoelace_term(a, b) + shoelace_term(b, c) + shoelace_term(c, a)) by {
        assert(edge_terms(s3, 0, 1) == shoelace_term(s3[0], s3[1]));
        assert(edge_terms(s3, 0, 2) == edge_terms(s3, 0, 1) + shoelace_term(s3[1], s3[2]));
    }
    assert(cross(a, b, c) == shoelace_term(a, b) + shoelace_term(b, c) + shoelace_term(c, a)) by (nonlinear_arith);
}

impl View for ConvexHull {
    type V = Seq<Point>;

    closed spec fn view(&self) -> Seq<Point> {
        self.vertices@
    }
}

impl ConvexHull {
    /// The kept twice-area is that of the vertices.
    pub closed spec fn wf(&self) -> bool {
        self.area2 == shoelace(self.vertices@)
    }

    /// The empty hull.
    pub fn new() -> (r: Self)
        ensures
            r.wf(),
            r@ == Seq::<Point>::empty(),
    {
        ConvexHull { vertices: Vec::new(), area2: 0 }
    }

    /// The vertices, in cyclic order.
    pub fn vertices(&self) -> (r: &Vec<Point>)
        ensures
            r@ == self@,
    {
        &self.vertices
    }

    /// Twice the area of the hull, as kept through the insertions.
    pub fn twice_area(&self) -> (r: i128)
        requires
            self.wf(),
        ensures
            r == shoelace(self@),
    {
        self.area2
    }

    /// Twice the area of the hull, summed afresh by the shoelace formula over its vertices.
    pub fn twice_area_from_vertices(&self) -> (r: i128)
        ensures
            r == shoelace(self@),
    {
        let n = self.vertices.len();
        let mut acc: i128 = 0;
        let mut k: usize = 0;
        while k < n
            invariant
                n == self@.len(),
                k <= n,
                acc == edge_terms(self@, 0, k as int),
                -(k * 0x8000_0000_0000_0000) <= acc <= k * 0x8000_0000_0000_0000,
            decreases n - k,
        {
            let t = if k + 1 < n { k + 1 } else { 0 };
            proof {
                lemma_small_mod(k as nat, n as nat);
                if k + 1 < n {
                    lemma_small_mod((k + 1) as nat, n as nat);
                } else {
                    vstd::arithmetic::div_mod::lemma_mod_self_0(n as int);
                }
            }
            let a = self.vertices[k];
            let b = self.vertices[t];
            proof {
                lemma_product_bound(a.x as int, b.y as int);
                lemma_product_bound(b.x as int, a.y as int);
                assert(-0x4000_0000_0000_0000 <= a.x * b.y <= 0x4000_0000_0000_0000) by (nonlinear_arith)
                    requires -0x8000_0000 <= a.x <= 0x7fff_ffff, -0x8000_0000 <= b.y <= 0x7fff_ffff;
                assert(-0x4000_0000_0000_0000 <= b.x * a.y <= 0x4000_0000_0000_0000) by (nonlinear_arith)
                    requires -0x8000_0000 <= b.x <= 0x7fff_ffff, -0x8000_0000 <= a.y <= 0x7fff_ffff;
                assert(k + 1 <= usize::MAX);
                assert((k + 1) * 0x8000_0000_0000_0000 <= 0x7fff_ffff_ffff_ffff_ffff_ffff_ffff_ffff) by (nonlinear_arith)
                    requires k + 1 <= 0xffff_ffff_ffff_ffff;
                assert((k + 1) * 0x8000_0000_0000_0000 == k * 0x8000_0000_0000_0000 + 0x8000_0000_0000_0000) by (nonlinear_arith);
            }
            let term = a.x as i128 * b.y as i128 - b.x as i128 * a.y as i128;
            acc = acc + term;
            k = k + 1;
        }
        acc
    }

    /// Inserts `p` and reports what became of the hull.
    pub fn add_point(&mut self, p: Point) -> (r: ChangeOutcome)
        requires
            old(self).wf(),
            old(self)@.len() < usize::MAX - 2,
        ensures
            final(self).wf(),
            insert_step(old(self)@, p, r, final(self)@),
    {
        let n = self.vertices.len();
        if n == 0 {
            self.process_empty(p)
        } else if n == 1 {
            self.process_point(p)
        } else if n == 2 {
            self.process_segment(p)
        } else {
            self.process_polygon(p)
        }
    }

    fn process_empty(&mut self, p: Point) -> (r: ChangeOutcome)
        ensures
            final(self).wf(),
            r == ChangeOutcome::Grew,
            final(self)@ == seq![p],
    {
        self.vertices = Vec::new();
        self.vertices.push(p);
        self.area2 = 0;
        proof {
            lemma_small_shoelace(p, p, p);
            assert(self@ =~= seq![p]);
        }
        ChangeOutcome::Grew
    }

    fn process_point(&mut self, p: Point) -> (r: ChangeOutcome)
        requires
            old(self).wf(),
            old(self)@.len() == 1,
        ensures
            final(self).wf(),
            if p == old(self)@[0] {
                r == ChangeOutcome::UnchangedDuplicate && final(self)@ == old(self)@
            } else {
                r == ChangeOutcome::Grew && final(self)@ == seq![p, old(self)@[0]]
            },
    {
        let a = self.vertices[0];
        if p != a {
            self.vertices = vec![p, a];
            self.area2 = 0;
            proof {
                lemma_small_shoelace(p, a, a);
            }
            ChangeOutcome::Grew
        } else {
            ChangeOutcome::UnchangedDuplicate
        }
    }

    fn process_segment(&mut self, p: Point) -> (r: ChangeOutcome)
        requires
            old(self).wf(),
            old(self)@.len() == 2,
        ensures
            final(self).wf(),
            segment_step(old(self)@[0], old(self)@[1], p, r, final(self)@),
    {
        let a = self.vertices[0];
        let b = self.vertices[1];
        let ab = Segment::new(a, b);
        if ab.within(p) {
            proof {
                assert(self@ =~= seq![a, b]);
            }
            return ChangeOutcome::UnchangedInterior;
        }
        if ab.inline(p) {
            let x = if Segment::new(a, p).within(b) { a } else { b };
            self.vertices = vec![x, p];
            self.area2 = 0;
            proof {
                lemma_small_shoelace(x, p, p);
            }
            return ChangeOutcome::ExtendedDegenerate;
        }
        let pa = Segment::new(p, a);
        let pb = Segment::new(p, b);
        let s = pa.mul(&pb);
        proof {
            lemma_cross_terms(p, a, b);
            lemma_term_bound(a, b);
            lemma_term_bound(p, a);
            lemma_term_bound(p, b);
            lemma_cross_rotate(a, p, b);
            lemma_cross_rotate(p, b, a);
            lemma_cross_rotate(b, p, a);
        }
        if s < 0 {
            self.vertices = vec![a, p, b];
            self.area2 = -s;
            proof {
                lemma_small_shoelace(a, p, b);
            }
        } else {
            self.vertices = vec![b, p, a];
            self.area2 = s;
            proof {
                lemma_small_shoelace(b, p, a);
            }
        }
        ChangeOutcome::Grew
    }

    /// Whether edge `s` of the cycle, from vertex `s` to the next, is seen from `p`.
    fn edge_is_lit(&self, s: usize, p: Point) -> (r: bool)
        requires
            s < self@.len(),
        ensures
            r == edge_lit(self@, s as int, p),
    {
        let n = self.vertices.len();
        let t = if s + 1 < n { s + 1 } else { 0 };
        proof {
            lemma_small_mod(s as nat, n as nat);
            if s + 1 < n {
                lemma_small_mod((s + 1) as nat, n as nat);
            } else {
                vstd::arithmetic::div_mod::lemma_mod_self_0(n as int);
            }
        }
        Segment::new(self.vertices[s], self.vertices[t]).is_light(p)
    }

    /// Twice the area of the triangle that edge `s` of the cycle makes with
    /// `p`, positive when `p` sees the edge.
    fn edge_gain(&self, s: usize, p: Point) -> (r: i128)
        requires
            s < self@.len(),
        ensures
            r == -cross(p, cyc(self@, s as int), cyc(self@, s + 1)),
    {
        let n = self.vertices.len();
        let t = if s + 1 < n { s + 1 } else { 0 };
        proof {
            lemma_small_mod(s as nat, n as nat);
            if s + 1 < n {
                lemma_small_mod((s + 1) as nat, n as nat);
            } else {
                vstd::arithmetic::div_mod::lemma_mod_self_0(n as int);
            }
        }
        let a = self.vertices[s];
        let b = self.vertices[t];
        let c = Segment::new(p, a).mul(&Segment::new(p, b));
        proof {
            lemma_cross_terms(p, a, b);
            lemma_term_bound(a, b);
            lemma_term_bound(p, a);
            lemma_term_bound(p, b);
        }
        -c
    }

    fn process_polygon(&mut self, p: Point) -> (r: ChangeOutcome)
        requires
            old(self).wf(),
            old(self)@.len() >= 3,
            old(self)@.len() < usize::MAX - 2,
        ensures
            final(self).wf(),
            polygon_step(old(self)@, p, r, final(self)@),
    {
        let ghost v = self@;
        let n = self.vertices.len();
        let mut k: usize = 0;
        while k < n && !self.edge_is_lit(k, p)
            invariant
                self@ == v,
                n == v.len(),
                k <= n,
                forall|e: int| 0 <= e < k ==> !#[trigger] edge_lit(v, e, p),
            decreases n - k,
        {
            k = k + 1;
        }
        if k == n {
            return ChangeOutcome::UnchangedInterior;
        }
        self.del_edges(p, k)
    }

    /// Cuts out the run of edges seen from `p` around the seen edge `k`, and puts `p` in its place.
    fn del_edges(&mut self, p: Point, k: usize) -> (r: ChangeOutcome)
        requires
            old(self).wf(),
            old(self)@.len() >= 3,
            old(self)@.len() < usize::MAX - 2,
            k < old(self)@.len(),
            edge_lit(old(self)@, k as int, p),
        ensures
            final(self).wf(),
            r == ChangeOutcome::Grew,
            exists|st: int, c: int| trimmed(old(self)@, p, st, c, final(self)@),
    {
        let ghost v = self@;
        let n = self.vertices.len();
        // Forward: edges k .. k + f - 1 are seen; `gain` is their fan.
        let mut gain: i128 = self.edge_gain(k, p);
        proof {
            assert(fan(v, p, k as int, 0) == 0);
        }
        let mut f: usize = 1;
        while f < n && self.edge_is_lit(wrap_add(k, f, n), p)
            invariant
                self@ == v,
                n == v.len(),
                n >= 3,
                n < usize::MAX - 2,
                k < n,
                1 <= f <= n,
                forall|t: int| 0 <= t < f ==> #[trigger] edge_lit(v, k + t, p),
                gain == fan(v, p, k as int, f as int),
            decreases n - f,
        {
            proof {
                lemma_edge_mod(v, k + f, p);
                lemma_fan_bound(v, p, k as int, f + 1);
            }
            let g = self.edge_gain(wrap_add(k, f, n), p);
            gain = gain + g;
            f = f + 1;
        }
        proof {
            if f < n {
                lemma_edge_mod(v, k + f, p);
            }
        }
        // Backward: edges k + n - 1 - t, for t below b, are seen; `gain`
        // is the fan of all the seen edges met so far.
        let mut b: usize = 0;
        proof {
            lemma_fan_shift(v, p, k as int, f as int);
        }
        while f + b < n && self.edge_is_lit(wrap_add(k, n - 1 - b, n), p)
            invariant
                self@ == v,
                n == v.len(),
                n >= 3,
                n < usize::MAX - 2,
                k < n,
                1 <= f <= n,
                f + b <= n,
                forall|t: int| 0 <= t < b ==> #[trigger] edge_lit(v, k + n - 1 - t, p),
                gain == fan(v, p, k + n - b, f + b),
            decreases n - f - b,
        {
            proof {
                lemma_edge_mod(v, k + n - 1 - b, p);
                lemma_fan_split(v, p, k + n - b - 1, 1, f + b);
                lemma_fan_bound(v, p, k + n - b - 1, f + b + 1);
                assert(fan(v, p, k + n - b - 1, 0) == 0);
                assert(fan(v, p, k + n - b - 1, 1) == -cross(p, cyc(v, k + n - b - 1), cyc(v, k + n - b)));
            }
            let g = self.edge_gain(wrap_add(k, n - 1 - b, n), p);
            gain = g + gain;
            b = b + 1;
        }
        proof {
            if f + b < n {
                lemma_edge_mod(v, k + n - 1 - b, p);
            }
        }
        let keep = n - f - b + 1;
        let st = if f < n { wrap_add(k, f, n) } else { k };
        let ghost st_int: int = if k + f < n { k + f } else { k + f - n };
        proof {
            if f < n {
                lemma_edge_mod(v, k + f, p);
            } else {
                assert(b == 0);
                lemma_small_mod((k + f - n) as nat, n as nat);
            }
            assert(st == st_int);
        }
        let mut w: Vec<Point> = Vec::new();
        let mut i: usize = 0;
        while i < keep
            invariant
                self@ == v,
                n == v.len(),
                n >= 3,
                st < n,
                keep <= n,
                i <= keep,
                w@ == Seq::new(i as nat, |j: int| cyc(v, st + j)),
            decreases keep - i,
        {
            let idx = wrap_add(st, i, n);
            w.push(self.vertices[idx]);
            proof {
                assert(w@ =~= Seq::new((i + 1) as nat, |j: int| cyc(v, st + j)));
            }
            i = i + 1;
        }
        w.push(p);
        proof {
            let c = keep as int;
            let sti = st as int;
            if k + f >= n {
                lemma_fan_shift(v, p, k - b, f + b);
            }
            assert(sti + c - 1 == if k + f < n { k + n - b } else { k - b });
            lemma_shoelace_trimmed(v, p, sti, c, w@);
            lemma_terms_bound(w@, 0, c + 1);
        }
        self.area2 = self.area2 + gain;
        self.vertices = w;
        proof {
            let c = keep as int;
            let sti = st as int;
            assert forall|i: int| c - 1 <= i < n implies #[trigger] edge_lit(v, sti + i, p) by {
                let e = sti + i;
                if k + f < n {
                    if e >= k + n {
                        assert(edge_lit(v, k + (e - n - k), p));
                        lemma_edge_shift(v, e - n, p);
                    } else {
                        assert(edge_lit(v, k + n - 1 - (k + n - 1 - e), p));
                    }
                } else {
                    if e >= k {
                        assert(edge_lit(v, k + (e - k), p));
                    } else {
                        assert(edge_lit(v, k + n - 1 - (k - 1 - e), p));
                        lemma_edge_shift(v, e, p);
                    }
                }
            }
            if c >= 2 {
                if k + f >= n {
                    lemma_edge_shift(v, sti, p);
                    lemma_edge_shift(v, sti + c - 2, p);
                }
            }
            assert(trimmed(v, p, sti, c, self@));
        }
        ChangeOutcome::Grew
    }
}

} // verus!
