//! Contour extraction from labeled regions using deterministic grid-edge tracing.
//!
//! For each color region, the tracer walks the exposed pixel edges and stitches
//! them into closed polygon loops. This preserves interior holes and emits
//! deterministic contour winding for SVG generation.
//!
//! A pixel `(x, y)` occupies the unit square between the grid vertices `(x, y)`
//! and `(x + 1, y + 1)`. Every exposed side of a region pixel is a directed
//! boundary edge, oriented so that the region lies to the right of it (with `y`
//! growing downwards): top sides run right, right sides run down, bottom sides
//! run left and left sides run up. Edges are identified by their start vertex and
//! direction, with directions numbered `0` left, `1` up, `2` down, `3` right (the
//! order of their end points).

use vstd::prelude::*;

use crate::result::TracedRegionSummary;
use crate::segment::{PaletteColor, SegmentationResult};
use crate::sort::{merge_sort, sorted_by_key, LexKey, SortKey};

verus! {

/// A 2D integer point.
#[derive(Debug, Clone, Copy, PartialEq, Eq, Hash, PartialOrd, Ord, Structural)]
pub struct Point {
    /// Horizontal coordinate.
    pub x: i32,
    /// Vertical coordinate (growing downwards).
    pub y: i32,
}

impl Point {
    /// Create a point.
    pub fn new(x: i32, y: i32) -> (r: Self)
        ensures
            r.x == x,
            r.y == y,
    {
        Point { x, y }
    }
}

/// A contour: a closed sequence of points.
pub type Contour = Vec<Point>;

/// Pixel `(x, y)` lies inside the image and carries the label `target`.
pub open spec fn in_mask(labels: Seq<u8>, w: int, h: int, target: u8, x: int, y: int) -> bool {
    0 <= x < w && 0 <= y < h && labels[y * w + x] == target
}

/// The directed edge leaving vertex `(x, y)` in direction `d` is an exposed side
/// of a pixel labeled `target`, with that pixel on its right.
pub open spec fn is_boundary_edge(
    labels: Seq<u8>,
    w: int,
    h: int,
    target: u8,
    x: int,
    y: int,
    d: int,
) -> bool {
    if d == 0 {
        // bottom side of pixel (x - 1, y - 1)
        in_mask(labels, w, h, target, x - 1, y - 1) && !in_mask(labels, w, h, target, x - 1, y)
    } else if d == 1 {
        // left side of pixel (x, y - 1)
        in_mask(labels, w, h, target, x, y - 1) && !in_mask(labels, w, h, target, x - 1, y - 1)
    } else if d == 2 {
        // right side of pixel (x - 1, y)
        in_mask(labels, w, h, target, x - 1, y) && !in_mask(labels, w, h, target, x, y)
    } else if d == 3 {
        // top side of pixel (x, y)
        in_mask(labels, w, h, target, x, y) && !in_mask(labels, w, h, target, x, y - 1)
    } else {
        false
    }
}

/// Horizontal offset of direction `d`.
pub open spec fn dir_dx(d: int) -> int {
    if d == 0 {
        -1
    } else if d == 3 {
        1
    } else {
        0
    }
}

/// Vertical offset of direction `d`.
pub open spec fn dir_dy(d: int) -> int {
    if d == 1 {
        -1
    } else if d == 2 {
        1
    } else {
        0
    }
}

/// The direction of the unit step from `p` to `q`, or `-1` if it is no unit step.
pub open spec fn step_dir(p: Point, q: Point) -> int {
    if q.x == p.x - 1 && q.y == p.y {
        0
    } else if q.x == p.x && q.y == p.y - 1 {
        1
    } else if q.x == p.x && q.y == p.y + 1 {
        2
    } else if q.x == p.x + 1 && q.y == p.y {
        3
    } else {
        -1
    }
}

/// The direction after a right turn from direction `d` (with `y` growing
/// downwards: left turns to up, up to right, right to down, down to left).
pub open spec fn turn_right(d: int) -> int {
    if d == 0 {
        1
    } else if d == 1 {
        3
    } else if d == 3 {
        2
    } else {
        0
    }
}

/// The direction after a left turn from direction `d`.
pub open spec fn turn_left(d: int) -> int {
    if d == 0 {
        2
    } else if d == 1 {
        0
    } else if d == 3 {
        1
    } else {
        3
    }
}

/// The edge a contour continues with after the edge `e`: at the vertex where
/// `e` ends, the first boundary edge among a right turn, going straight and a
/// left turn.
pub open spec fn next_edge(labels: Seq<u8>, w: int, h: int, target: u8, e: (int, int, int)) -> (int, int, int) {
    let x = e.0 + dir_dx(e.2);
    let y = e.1 + dir_dy(e.2);
    if is_boundary_edge(labels, w, h, target, x, y, turn_right(e.2)) {
        (x, y, turn_right(e.2))
    } else if is_boundary_edge(labels, w, h, target, x, y, e.2) {
        (x, y, e.2)
    } else {
        (x, y, turn_left(e.2))
    }
}

/// The edge (start vertex and direction) taken by a closed contour at position `i`.
pub open spec fn edge_of(c: Seq<Point>, i: int) -> (int, int, int) {
    (c[i].x as int, c[i].y as int, step_dir(c[i], c[(i + 1) % (c.len() as int)]))
}

/// Lexicographic order of edges: by start x, start y, then direction.
pub open spec fn edge_le(a: (int, int, int), b: (int, int, int)) -> bool {
    a.0 < b.0 || (a.0 == b.0 && (a.1 < b.1 || (a.1 == b.1 && a.2 <= b.2)))
}

/// `c` is a closed loop of at least four boundary edges of the `target` region
/// that turns as far right as it can: each edge is followed by the first
/// boundary edge among a right turn, going straight and a left turn.
pub open spec fn is_boundary_loop(labels: Seq<u8>, w: int, h: int, target: u8, c: Seq<Point>) -> bool {
    &&& c.len() >= 4
    &&& forall|i: int|
        0 <= i < c.len() ==> is_boundary_edge(
            labels,
            w,
            h,
            target,
            #[trigger] edge_of(c, i).0,
            edge_of(c, i).1,
            edge_of(c, i).2,
        )
    &&& forall|i: int|
        0 <= i < c.len() ==> edge_of(c, (i + 1) % (c.len() as int)) == #[trigger] next_edge(
            labels,
            w,
            h,
            target,
            edge_of(c, i),
        )
}

/// Smallest x coordinate of a point sequence.
pub open spec fn min_x(c: Seq<Point>) -> int
    decreases c.len(),
{
    if c.len() == 0 {
        0
    } else if c.len() == 1 {
        c[0].x as int
    } else {
        let m = min_x(c.drop_last());
        if (c.last().x as int) < m {
            c.last().x as int
        } else {
            m
        }
    }
}

/// Smallest y coordinate of a point sequence.
pub open spec fn min_y(c: Seq<Point>) -> int
    decreases c.len(),
{
    if c.len() == 0 {
        0
    } else if c.len() == 1 {
        c[0].y as int
    } else {
        let m = min_y(c.drop_last());
        if (c.last().y as int) < m {
            c.last().y as int
        } else {
            m
        }
    }
}

/// Contours are emitted ordered by topmost row, leftmost column, start row,
/// start column and then length.
pub open spec fn contour_order_le(a: Seq<Point>, b: Seq<Point>) -> bool {
    let ka = (min_y(a), min_x(a), a[0].y as int, a[0].x as int, a.len() as int);
    let kb = (min_y(b), min_x(b), b[0].y as int, b[0].x as int, b.len() as int);
    ka.0 < kb.0 || (ka.0 == kb.0 && (ka.1 < kb.1 || (ka.1 == kb.1 && (ka.2 < kb.2 || (ka.2
        == kb.2 && (ka.3 < kb.3 || (ka.3 == kb.3 && ka.4 <= kb.4)))))))
}

/// `cs` is the grid-edge tracing of the `target` region: closed boundary loops
/// that turn right wherever they can (so pixels that touch only at a corner
/// are traced apart), each start with their least edge, use every boundary
/// edge of the region exactly once, and are listed in contour order.
pub open spec fn is_region_tracing(
    labels: Seq<u8>,
    w: int,
    h: int,
    target: u8,
    cs: Seq<Seq<Point>>,
) -> bool {
    &&& forall|k: int| 0 <= k < cs.len() ==> is_boundary_loop(labels, w, h, target, #[trigger] cs[k])
    &&& forall|k: int, i: int|
        0 <= k < cs.len() && 0 <= i < cs[k].len() ==> edge_le(edge_of(cs[k], 0), #[trigger] edge_of(cs[k], i))
    &&& forall|k1: int, i1: int, k2: int, i2: int|
        0 <= k1 < cs.len() && 0 <= i1 < cs[k1].len() && 0 <= k2 < cs.len() && 0 <= i2 < cs[k2].len()
            && #[trigger] edge_of(cs[k1], i1) == #[trigger] edge_of(cs[k2], i2) ==> k1 == k2 && i1 == i2
    &&& forall|x: int, y: int, d: int|
        #[trigger] is_boundary_edge(labels, w, h, target, x, y, d) ==> exists|k: int, i: int|
            0 <= k < cs.len() && 0 <= i < cs[k].len() && #[trigger] edge_of(cs[k], i) == (x, y, d)
    &&& forall|k1: int, k2: int| 0 <= k1 < k2 < cs.len() ==> contour_order_le(#[trigger] cs[k1], #[trigger] cs[k2])
}

// ---------------------------------------------------------------------------
// Grid bookkeeping

spec fn slot_index(h: int, x: int, y: int, d: int) -> int {
    (x * (h + 1) + y) * 4 + d
}

spec fn in_grid(w: int, h: int, x: int, y: int, d: int) -> bool {
    0 <= x <= w && 0 <= y <= h && 0 <= d < 4
}

proof fn lemma_pixel_index(x: int, y: int, w: int, h: int)
    requires
        0 <= x < w,
        0 <= y < h,
    ensures
        0 <= y * w + x < w * h,
{
    assert(0 <= y * w) by (nonlinear_arith)
        requires
            0 <= y,
            0 <= w,
    ;
    assert(y * w + x < w * h) by (nonlinear_arith)
        requires
            0 <= x < w,
            0 <= y < h,
    ;
}

proof fn lemma_vertex_lex(a: int, b: int, a2: int, b2: int, h: int)
    requires
        0 <= b <= h,
        0 <= b2 <= h,
        0 <= a,
        0 <= a2,
        a < a2 || (a == a2 && b < b2),
    ensures
        a * (h + 1) + b < a2 * (h + 1) + b2,
{
    if a < a2 {
        assert((a + 1) * (h + 1) <= a2 * (h + 1)) by (nonlinear_arith)
            requires
                a + 1 <= a2,
                h + 1 > 0,
        ;
        assert((a + 1) * (h + 1) == a * (h + 1) + h + 1) by (nonlinear_arith);
    }
}

proof fn lemma_vertex_bound(a: int, b: int, w: int, h: int)
    requires
        0 <= a <= w,
        0 <= b <= h,
    ensures
        0 <= a * (h + 1) + b < (w + 1) * (h + 1),
{
    assert(0 <= a * (h + 1)) by (nonlinear_arith)
        requires
            0 <= a,
            0 <= h,
    ;
    lemma_vertex_lex(a, b, w + 1, 0, h);
    assert((w + 1) * (h + 1) == (w + 1) * (h + 1) + 0);
}

proof fn lemma_slot_bound(x: int, y: int, d: int, w: int, h: int)
    requires
        in_grid(w, h, x, y, d),
    ensures
        0 <= slot_index(h, x, y, d) < (w + 1) * (h + 1) * 4,
{
    lemma_vertex_bound(x, y, w, h);
    assert((x * (h + 1) + y) * 4 + d < (w + 1) * (h + 1) * 4) by (nonlinear_arith)
        requires
            x * (h + 1) + y < (w + 1) * (h + 1),
            0 <= d < 4,
    ;
}

proof fn lemma_slot_injective(a: int, b: int, c: int, a2: int, b2: int, c2: int, h: int)
    requires
        0 <= a,
        0 <= a2,
        0 <= b <= h,
        0 <= b2 <= h,
        0 <= c < 4,
        0 <= c2 < 4,
        slot_index(h, a, b, c) == slot_index(h, a2, b2, c2),
    ensures
        a == a2 && b == b2 && c == c2,
{
    let v = a * (h + 1) + b;
    let v2 = a2 * (h + 1) + b2;
    assert(v == v2 && c == c2);
    if a < a2 || (a == a2 && b < b2) {
        lemma_vertex_lex(a, b, a2, b2, h);
    } else if a2 < a || (a == a2 && b2 < b) {
        lemma_vertex_lex(a2, b2, a, b, h);
    }
}

fn in_mask_at(labels: &Vec<u8>, w: usize, h: usize, target: u8, x: i64, y: i64) -> (r: bool)
    requires
        labels@.len() >= w * h,
        w < 0x8000_0000,
        h < 0x8000_0000,
        -1 <= x <= w,
        -1 <= y <= h,
    ensures
        r == in_mask(labels@, w as int, h as int, target, x as int, y as int),
{
    if x < 0 || y < 0 || x >= w as i64 || y >= h as i64 {
        false
    } else {
        let n = labels.len();
        let xu = x as usize;
        let yu = y as usize;
        proof {
            lemma_pixel_index(xu as int, yu as int, w as int, h as int);
        }
        labels[yu * w + xu] == target
    }
}

fn boundary_edge_at(labels: &Vec<u8>, w: usize, h: usize, target: u8, x: usize, y: usize, d: usize) -> (r: bool)
    requires
        labels@.len() >= w * h,
        w < 0x8000_0000,
        h < 0x8000_0000,
        x <= w,
        y <= h,
        d < 4,
    ensures
        r == is_boundary_edge(labels@, w as int, h as int, target, x as int, y as int, d as int),
{
    let xi = x as i64;
    let yi = y as i64;
    if d == 0 {
        in_mask_at(labels, w, h, target, xi - 1, yi - 1) && !in_mask_at(labels, w, h, target, xi - 1, yi)
    } else if d == 1 {
        in_mask_at(labels, w, h, target, xi, yi - 1) && !in_mask_at(labels, w, h, target, xi - 1, yi - 1)
    } else if d == 2 {
        in_mask_at(labels, w, h, target, xi - 1, yi) && !in_mask_at(labels, w, h, target, xi, yi)
    } else {
        in_mask_at(labels, w, h, target, xi, yi) && !in_mask_at(labels, w, h, target, xi, yi - 1)
    }
}

/// Mark every boundary edge of the `target` region in a table indexed by edge slot.
fn collect_boundary_edges(labels: &Vec<u8>, w: usize, h: usize, target: u8) -> (r: Vec<bool>)
    requires
        labels@.len() >= w * h,
        w < 0x8000_0000,
        h < 0x8000_0000,
        (w + 1) * (h + 1) * 4 <= usize::MAX,
    ensures
        r@.len() == (w + 1) * (h + 1) * 4,
        forall|x: int, y: int, d: int|
            in_grid(w as int, h as int, x, y, d) ==> r@[#[trigger] slot_index(h as int, x, y, d)]
                == is_boundary_edge(labels@, w as int, h as int, target, x, y, d),
{
    let mut edges: Vec<bool> = Vec::new();
    let mut x: usize = 0;
    while x <= w
        invariant
            labels@.len() >= w * h,
            w < 0x8000_0000,
            h < 0x8000_0000,
            (w + 1) * (h + 1) * 4 <= usize::MAX,
            x <= w + 1,
            edges@.len() == (x * (h + 1)) * 4,
            forall|a: int, b: int, c: int|
                in_grid(w as int, h as int, a, b, c) && a < x ==> edges@[#[trigger] slot_index(h as int, a, b, c)]
                    == is_boundary_edge(labels@, w as int, h as int, target, a, b, c),
        decreases w + 1 - x,
    {
        let mut y: usize = 0;
        while y <= h
            invariant
                labels@.len() >= w * h,
                w < 0x8000_0000,
                h < 0x8000_0000,
                (w + 1) * (h + 1) * 4 <= usize::MAX,
                x <= w,
                y <= h + 1,
                edges@.len() == (x * (h + 1) + y) * 4,
                forall|a: int, b: int, c: int|
                    in_grid(w as int, h as int, a, b, c) && (a < x || (a == x && b < y)) ==> edges@[#[trigger] slot_index(h as int, a, b, c)]
                        == is_boundary_edge(labels@, w as int, h as int, target, a, b, c),
            decreases h + 1 - y,
        {
            proof {
                lemma_vertex_bound(x as int, y as int, w as int, h as int);
                assert((x * (h + 1) + y) * 4 + 4 <= (w + 1) * (h + 1) * 4) by (nonlinear_arith)
                    requires
                        x * (h + 1) + y < (w + 1) * (h + 1),
                ;
            }
            let ghost old_edges = edges@;
            let e0 = boundary_edge_at(labels, w, h, target, x, y, 0);
            let e1 = boundary_edge_at(labels, w, h, target, x, y, 1);
            let e2 = boundary_edge_at(labels, w, h, target, x, y, 2);
            let e3 = boundary_edge_at(labels, w, h, target, x, y, 3);
            edges.push(e0);
            edges.push(e1);
            edges.push(e2);
            edges.push(e3);
            proof {
                assert forall|a: int, b: int, c: int|
                    in_grid(w as int, h as int, a, b, c) && (a < x || (a == x && b < y + 1)) implies edges@[#[trigger] slot_index(h as int, a, b, c)]
                        == is_boundary_edge(labels@, w as int, h as int, target, a, b, c) by {
                    if a < x || (a == x && b < y) {
                        lemma_vertex_lex(a, b, x as int, y as int, h as int);
                    }
                }
            }
            y += 1;
        }
        proof {
            assert((x * (h + 1) + (h + 1)) == (x + 1) * (h + 1)) by (nonlinear_arith);
        }
        x += 1;
    }
    edges
}


// ---------------------------------------------------------------------------
// Degree bookkeeping of the still unused edges

spec fn b2i(b: bool) -> int {
    if b {
        1
    } else {
        0
    }
}

spec fn out_deg(un: Map<(int, int, int), bool>, x: int, y: int) -> int {
    b2i(un[(x, y, 0)]) + b2i(un[(x, y, 1)]) + b2i(un[(x, y, 2)]) + b2i(un[(x, y, 3)])
}

spec fn in_deg(un: Map<(int, int, int), bool>, x: int, y: int) -> int {
    b2i(un[(x + 1, y, 0)]) + b2i(un[(x, y + 1, 1)]) + b2i(un[(x, y - 1, 2)]) + b2i(
        un[(x - 1, y, 3)],
    )
}

/// Every vertex has as many unused edges leaving it as entering it.
spec fn degree_balanced(un: Map<(int, int, int), bool>) -> bool {
    forall|x: int, y: int| #[trigger] out_deg(un, x, y) == in_deg(un, x, y)
}

spec fn edge_map(labels: Seq<u8>, w: int, h: int, target: u8) -> Map<(int, int, int), bool> {
    Map::total(|t: (int, int, int)| is_boundary_edge(labels, w, h, target, t.0, t.1, t.2))
}

spec fn mirrors(un: Map<(int, int, int), bool>, unused: Seq<bool>, w: int, h: int) -> bool {
    forall|x: int, y: int, d: int|
        in_grid(w, h, x, y, d) ==> unused[#[trigger] slot_index(h, x, y, d)] == un[(x, y, d)]
}

spec fn only_edges(un: Map<(int, int, int), bool>, labels: Seq<u8>, w: int, h: int, target: u8) -> bool {
    forall|t: (int, int, int)| #[trigger] un[t] ==> is_boundary_edge(labels, w, h, target, t.0, t.1, t.2)
}

/// Boundary edges enter and leave every vertex equally often.
proof fn lemma_edges_balanced(labels: Seq<u8>, w: int, h: int, target: u8)
    ensures
        degree_balanced(edge_map(labels, w, h, target)),
{
}

/// A boundary edge ends inside the vertex grid.
proof fn lemma_edge_ends_in_grid(labels: Seq<u8>, w: int, h: int, target: u8, x: int, y: int, d: int)
    requires
        is_boundary_edge(labels, w, h, target, x, y, d),
    ensures
        in_grid(w, h, x, y, d),
        0 <= x + dir_dx(d) <= w,
        0 <= y + dir_dy(d) <= h,
{
}

/// An edge and its reversal are never both boundary edges.
proof fn lemma_no_reverse_edges(labels: Seq<u8>, w: int, h: int, target: u8, x: int, y: int, d: int)
    requires
        is_boundary_edge(labels, w, h, target, x, y, d),
    ensures
        !is_boundary_edge(labels, w, h, target, x + dir_dx(d), y + dir_dy(d), 3 - d),
{
}

/// The edge after a boundary edge is a boundary edge too.
proof fn lemma_next_edge_is_boundary(labels: Seq<u8>, w: int, h: int, target: u8, e: (int, int, int))
    requires
        is_boundary_edge(labels, w, h, target, e.0, e.1, e.2),
    ensures
        is_boundary_edge(
            labels,
            w,
            h,
            target,
            next_edge(labels, w, h, target, e).0,
            next_edge(labels, w, h, target, e).1,
            next_edge(labels, w, h, target, e).2,
        ),
{
}

/// Distinct boundary edges continue with distinct edges.
proof fn lemma_next_edge_injective(labels: Seq<u8>, w: int, h: int, target: u8, e1: (int, int, int), e2: (int, int, int))
    requires
        is_boundary_edge(labels, w, h, target, e1.0, e1.1, e1.2),
        is_boundary_edge(labels, w, h, target, e2.0, e2.1, e2.2),
        next_edge(labels, w, h, target, e1) == next_edge(labels, w, h, target, e2),
    ensures
        e1 == e2,
{
}

/// Unused edges come in the pairs a contour joins: a boundary edge is unused
/// exactly when the edge after it is.
spec fn pairs_unused(un: Map<(int, int, int), bool>, labels: Seq<u8>, w: int, h: int, target: u8) -> bool {
    forall|t: (int, int, int)|
        is_boundary_edge(labels, w, h, target, t.0, t.1, t.2) ==> un[t] == un[#[trigger] next_edge(
            labels,
            w,
            h,
            target,
            t,
        )]
}

/// The vertex where edge `e` ends.
spec fn edge_end(e: (int, int, int)) -> (int, int) {
    (e.0 + dir_dx(e.2), e.1 + dir_dy(e.2))
}

/// When the least unused edge `o` starts a walk, every unused edge that ends
/// where `o` starts continues with `o`: at a vertex with two edges in and two
/// out, the in-edge that is not paired with `o` starts before `o`, so it is
/// used already.
proof fn lemma_start_in_edges(
    labels: Seq<u8>,
    w: int,
    h: int,
    target: u8,
    un: Map<(int, int, int), bool>,
    o: (int, int, int),
)
    requires
        un[o],
        only_edges(un, labels, w, h, target),
        pairs_unused(un, labels, w, h, target),
        forall|t: (int, int, int)| #[trigger] un[t] ==> edge_le(o, t),
    ensures
        forall|e: (int, int, int)|
            un[e] && #[trigger] edge_end(e) == (o.0, o.1) ==> next_edge(labels, w, h, target, e) == o,
{
    let x = o.0;
    let y = o.1;
    let a = (x + 1, y, 0int);
    let b = (x, y + 1, 1int);
    let c = (x, y - 1, 2int);
    let d = (x - 1, y, 3int);
    assert(!un[c]) by {
        if un[c] {
            assert(edge_le(o, c));
        }
    }
    assert(!un[d]) by {
        if un[d] {
            assert(edge_le(o, d));
        }
    }
    assert(is_boundary_edge(labels, w, h, target, o.0, o.1, o.2));
    assert forall|e: (int, int, int)|
        un[e] && #[trigger] edge_end(e) == (o.0, o.1) implies next_edge(labels, w, h, target, e) == o by {
        assert(is_boundary_edge(labels, w, h, target, e.0, e.1, e.2));
        assert(e == a || e == b || e == c || e == d);
        if is_boundary_edge(labels, w, h, target, a.0, a.1, a.2) {
            assert(un[a] == un[next_edge(labels, w, h, target, a)]);
        }
        if is_boundary_edge(labels, w, h, target, b.0, b.1, b.2) {
            assert(un[b] == un[next_edge(labels, w, h, target, b)]);
        }
        if is_boundary_edge(labels, w, h, target, c.0, c.1, c.2) {
            assert(un[c] == un[next_edge(labels, w, h, target, c)]);
        }
        if is_boundary_edge(labels, w, h, target, d.0, d.1, d.2) {
            assert(un[d] == un[next_edge(labels, w, h, target, d)]);
        }
    }
}

spec fn count_true(s: Seq<bool>) -> nat
    decreases s.len(),
{
    if s.len() == 0 {
        0
    } else {
        count_true(s.drop_last()) + (if s.last() {
            1nat
        } else {
            0nat
        })
    }
}

proof fn lemma_count_true_clear(s: Seq<bool>, i: int)
    requires
        0 <= i < s.len(),
        s[i],
    ensures
        count_true(s.update(i, false)) + 1 == count_true(s),
    decreases s.len(),
{
    let t = s.update(i, false);
    if i == s.len() - 1 {
        assert(t.drop_last() =~= s.drop_last());
    } else {
        assert(t.drop_last() =~= s.drop_last().update(i, false));
        lemma_count_true_clear(s.drop_last(), i);
    }
}

fn slot_of(h: usize, x: usize, y: usize, d: usize, Ghost(w): Ghost<int>) -> (r: usize)
    requires
        x <= w,
        y <= h,
        d < 4,
        (w + 1) * (h + 1) * 4 <= usize::MAX,
    ensures
        r == slot_index(h as int, x as int, y as int, d as int),
        r < (w + 1) * (h + 1) * 4,
{
    proof {
        lemma_vertex_bound(x as int, y as int, w, h as int);
        assert((x * (h + 1) + y) * 4 + d < (w + 1) * (h + 1) * 4) by (nonlinear_arith)
            requires
                x * (h + 1) + y < (w + 1) * (h + 1),
                d < 4,
        ;
    }
    proof {
        assert(h + 1 <= (w + 1) * (h + 1)) by (nonlinear_arith)
            requires
                w >= 0,
                h >= 0,
        ;
        assert(0 <= x * (h + 1) <= x * (h + 1) + y);
    }
    let hp = h + 1;
    let v = x * hp + y;
    v * 4 + d
}

/// Pick the edge to continue along at vertex `(x, y)` after arriving in
/// direction `cd`: the first unused edge among a right turn, going straight, a
/// left turn and reversing.
fn choose_next_dir(unused: &Vec<bool>, w: usize, h: usize, x: usize, y: usize, cd: usize) -> (r: Option<usize>)
    requires
        x <= w,
        y <= h,
        cd < 4,
        (w + 1) * (h + 1) * 4 <= usize::MAX,
        unused@.len() == (w + 1) * (h + 1) * 4,
    ensures
        r matches Some(nd) ==> nd < 4 && unused@[slot_index(h as int, x as int, y as int, nd as int)],
        r matches Some(nd) ==> (unused@[slot_index(h as int, x as int, y as int, turn_right(cd as int))] ==> nd
            == turn_right(cd as int)),
        r matches Some(nd) ==> (unused@[slot_index(h as int, x as int, y as int, cd as int)] ==> nd == turn_right(
            cd as int,
        ) || nd == cd),
        r matches Some(nd) ==> (unused@[slot_index(h as int, x as int, y as int, turn_left(cd as int))] ==> nd
            == turn_right(cd as int) || nd == cd || nd == turn_left(cd as int)),
        r is None ==> forall|d: int| 0 <= d < 4 ==> !unused@[slot_index(h as int, x as int, y as int, d)],
{
    let right: usize = if cd == 0 { 1 } else if cd == 1 { 3 } else if cd == 3 { 2 } else { 0 };
    let left: usize = if cd == 0 { 2 } else if cd == 1 { 0 } else if cd == 3 { 1 } else { 3 };
    let back: usize = 3 - cd;
    let s_right = slot_of(h, x, y, right, Ghost(w as int));
    if unused[s_right] {
        return Some(right);
    }
    let s_straight = slot_of(h, x, y, cd, Ghost(w as int));
    if unused[s_straight] {
        return Some(cd);
    }
    let s_left = slot_of(h, x, y, left, Ghost(w as int));
    if unused[s_left] {
        return Some(left);
    }
    let s_back = slot_of(h, x, y, back, Ghost(w as int));
    if unused[s_back] {
        return Some(back);
    }
    None
}

spec fn partial_edge(c: Seq<Point>, i: int) -> (int, int, int) {
    (c[i].x as int, c[i].y as int, step_dir(c[i], c[i + 1]))
}

#[verifier::opaque]
spec fn loop_edges_owned(
    un0: Map<(int, int, int), bool>,
    un: Map<(int, int, int), bool>,
    own: Map<(int, int, int), (int, int)>,
    c: Seq<Point>,
    k: int,
) -> bool {
    forall|i: int|
        0 <= i < c.len() ==> un0[#[trigger] edge_of(c, i)] && !un[edge_of(c, i)] && own.dom().contains(
            edge_of(c, i),
        ) && own[edge_of(c, i)] == (k, i)
}

#[verifier::opaque]
spec fn owners_cover(
    un0: Map<(int, int, int), bool>,
    un: Map<(int, int, int), bool>,
    own: Map<(int, int, int), (int, int)>,
    c: Seq<Point>,
    k: int,
) -> bool {
    forall|t: (int, int, int)|
        un0[t] && !un[t] ==> #[trigger] own.dom().contains(t) && own[t].0 == k && 0 <= own[t].1 < c.len()
            && edge_of(c, own[t].1) == t
}

#[verifier::opaque]
spec fn owners_kept(
    own0: Map<(int, int, int), (int, int)>,
    un0: Map<(int, int, int), bool>,
    own: Map<(int, int, int), (int, int)>,
) -> bool {
    forall|t: (int, int, int)|
        own0.dom().contains(t) && !un0[t] ==> #[trigger] own.dom().contains(t) && own[t] == own0[t]
}

spec fn points_in_grid(c: Seq<Point>, w: int, h: int) -> bool {
    forall|i: int| 0 <= i < c.len() ==> 0 <= #[trigger] c[i].x <= w && 0 <= c[i].y <= h
}

spec fn pt(x: int, y: int) -> Point {
    Point { x: x as i32, y: y as i32 }
}

spec fn full_domain<V>(m: Map<(int, int, int), V>) -> bool {
    forall|t: (int, int, int)| #[trigger] m.dom().contains(t)
}

/// State of a walk that started with edge `(sx, sy, sd)`, has visited the
/// points `c` and is about to take the still unused edge `(cx, cy, cd)`.
#[verifier::opaque]
spec fn walk_inv(
    labels: Seq<u8>,
    w: int,
    h: int,
    target: u8,
    un0: Map<(int, int, int), bool>,
    own0: Map<(int, int, int), (int, int)>,
    k: int,
    sx: int,
    sy: int,
    sd: int,
    unused: Seq<bool>,
    un: Map<(int, int, int), bool>,
    own: Map<(int, int, int), (int, int)>,
    c: Seq<Point>,
    cx: int,
    cy: int,
    cd: int,
) -> bool {
    &&& 0 <= w < 0x8000_0000
    &&& 0 <= h < 0x8000_0000
    &&& unused.len() == (w + 1) * (h + 1) * 4
    &&& c.len() >= 1
    &&& c[0] == pt(sx, sy)
    &&& c.last() == pt(cx, cy)
    &&& 0 <= cx <= w
    &&& 0 <= cy <= h
    &&& 0 <= cd < 4
    &&& mirrors(un, unused, w, h)
    &&& only_edges(un, labels, w, h, target)
    &&& only_edges(un0, labels, w, h, target)
    &&& un0[(sx, sy, sd)]
    &&& full_domain(un)
    &&& full_domain(un0)
    &&& un[(cx, cy, cd)]
    &&& forall|t: (int, int, int)| #[trigger] un[t] ==> un0[t]
    &&& forall|i: int|
        0 <= i < c.len() - 1 ==> un0[#[trigger] partial_edge(c, i)] && !un[partial_edge(c, i)]
            && own.dom().contains(partial_edge(c, i)) && own[partial_edge(c, i)] == (k, i)
    &&& forall|t: (int, int, int)|
        un0[t] && !un[t] ==> #[trigger] own.dom().contains(t) && own[t].0 == k && 0 <= own[t].1 < c.len()
            - 1 && partial_edge(c, own[t].1) == t
    &&& forall|t: (int, int, int)|
        own0.dom().contains(t) && !un0[t] ==> #[trigger] own.dom().contains(t) && own[t] == own0[t]
    &&& c.len() == 1 ==> cx == sx && cy == sy && cd == sd && un == un0
    &&& c.len() > 1 ==> !(cx == sx && cy == sy)
    &&& c.len() > 1 ==> step_dir(c[0], c[1]) == sd
    &&& c.len() > 1 ==> forall|x: int, y: int|
        #[trigger] out_deg(un, x, y) + b2i(x == sx && y == sy) == in_deg(un, x, y) + b2i(
            x == cx && y == cy,
        )
    &&& c.len() == 1 ==> degree_balanced(un)
    &&& (cx + cy - sx - sy - (c.len() - 1)) % 2 == 0
    &&& points_in_grid(c, w, h)
    &&& pairs_unused(un0, labels, w, h, target)
    &&& forall|e: (int, int, int)|
        un0[e] && #[trigger] edge_end(e) == (sx, sy) ==> next_edge(labels, w, h, target, e) == (sx, sy, sd)
    &&& forall|i: int|
        0 <= i < c.len() - 2 ==> partial_edge(c, i + 1) == #[trigger] next_edge(
            labels,
            w,
            h,
            target,
            partial_edge(c, i),
        )
    &&& c.len() > 1 ==> (cx, cy, cd) == next_edge(labels, w, h, target, partial_edge(c, c.len() - 2))
}

proof fn lemma_walk_start(
    labels: Seq<u8>,
    w: int,
    h: int,
    target: u8,
    un0: Map<(int, int, int), bool>,
    own0: Map<(int, int, int), (int, int)>,
    k: int,
    sx: int,
    sy: int,
    sd: int,
    unused: Seq<bool>,
)
    requires
        0 <= w < 0x8000_0000,
        0 <= h < 0x8000_0000,
        unused.len() == (w + 1) * (h + 1) * 4,
        mirrors(un0, unused, w, h),
        only_edges(un0, labels, w, h, target),
        degree_balanced(un0),
        un0[(sx, sy, sd)],
        full_domain(un0),
        0 <= sx <= w,
        0 <= sy <= h,
        0 <= sd < 4,
        pairs_unused(un0, labels, w, h, target),
        forall|e: (int, int, int)|
            un0[e] && #[trigger] edge_end(e) == (sx, sy) ==> next_edge(labels, w, h, target, e) == (sx, sy, sd),
    ensures
        walk_inv(labels, w, h, target, un0, own0, k, sx, sy, sd, unused, un0, own0, seq![pt(sx, sy)], sx, sy, sd),
{
    reveal(walk_inv);
}

proof fn lemma_walk_slot(
    labels: Seq<u8>,
    w: int,
    h: int,
    target: u8,
    un0: Map<(int, int, int), bool>,
    own0: Map<(int, int, int), (int, int)>,
    k: int,
    sx: int,
    sy: int,
    sd: int,
    unused: Seq<bool>,
    un: Map<(int, int, int), bool>,
    own: Map<(int, int, int), (int, int)>,
    c: Seq<Point>,
    cx: int,
    cy: int,
    cd: int,
)
    requires
        walk_inv(labels, w, h, target, un0, own0, k, sx, sy, sd, unused, un, own, c, cx, cy, cd),
    ensures
        0 <= slot_index(h, cx, cy, cd) < unused.len(),
        unused[slot_index(h, cx, cy, cd)],
        0 <= cx + dir_dx(cd) <= w,
        0 <= cy + dir_dy(cd) <= h,
        0 <= cx <= w,
        0 <= cy <= h,
        0 <= cd < 4,
{
    reveal(walk_inv);
    lemma_slot_bound(cx, cy, cd, w, h);
    lemma_edge_ends_in_grid(labels, w, h, target, cx, cy, cd);
}

proof fn lemma_consume_mirrors(
    un: Map<(int, int, int), bool>,
    unused: Seq<bool>,
    w: int,
    h: int,
    cx: int,
    cy: int,
    cd: int,
)
    requires
        0 <= w,
        0 <= h,
        unused.len() == (w + 1) * (h + 1) * 4,
        mirrors(un, unused, w, h),
        full_domain(un),
        in_grid(w, h, cx, cy, cd),
    ensures
        mirrors(
            un.insert((cx, cy, cd), false),
            unused.update(slot_index(h, cx, cy, cd), false),
            w,
            h,
        ),
{
    let cur = (cx, cy, cd);
    let un2 = un.insert(cur, false);
    let unused2 = unused.update(slot_index(h, cx, cy, cd), false);
    lemma_slot_bound(cx, cy, cd, w, h);
    assert forall|x: int, y: int, d: int| in_grid(w, h, x, y, d) implies unused2[#[trigger] slot_index(
        h,
        x,
        y,
        d,
    )] == un2[(x, y, d)] by {
        lemma_slot_bound(x, y, d, w, h);
        if (x, y, d) != cur {
            if slot_index(h, x, y, d) == slot_index(h, cx, cy, cd) {
                lemma_slot_injective(x, y, d, cx, cy, cd, h);
            }
            assert(un.dom().contains((x, y, d)));
        }
    }
}

proof fn lemma_walk_close(
    labels: Seq<u8>,
    w: int,
    h: int,
    target: u8,
    un0: Map<(int, int, int), bool>,
    own0: Map<(int, int, int), (int, int)>,
    k: int,
    sx: int,
    sy: int,
    sd: int,
    unused: Seq<bool>,
    un: Map<(int, int, int), bool>,
    own: Map<(int, int, int), (int, int)>,
    c: Seq<Point>,
    cx: int,
    cy: int,
    cd: int,
)
    requires
        walk_inv(labels, w, h, target, un0, own0, k, sx, sy, sd, unused, un, own, c, cx, cy, cd),
        cx + dir_dx(cd) == sx,
        cy + dir_dy(cd) == sy,
    ensures
        ({
            let un2 = un.insert((cx, cy, cd), false);
            let own2 = own.insert((cx, cy, cd), (k, c.len() - 1));
            let unused2 = unused.update(slot_index(h, cx, cy, cd), false);
            &&& mirrors(un2, unused2, w, h)
            &&& only_edges(un2, labels, w, h, target)
            &&& full_domain(un2)
            &&& degree_balanced(un2)
            &&& is_boundary_loop(labels, w, h, target, c)
            &&& c[0] == pt(sx, sy)
            &&& edge_of(c, 0) == (sx, sy, sd)
            &&& loop_edges_owned(un0, un2, own2, c, k)
            &&& forall|t: (int, int, int)| #[trigger] un2[t] ==> un0[t]
            &&& owners_cover(un0, un2, own2, c, k)
            &&& owners_kept(own0, un0, own2)
            &&& points_in_grid(c, w, h)
            &&& pairs_unused(un2, labels, w, h, target)
        }),
{
    reveal(walk_inv);
    let cur = (cx, cy, cd);
    let un2 = un.insert(cur, false);
    let own2 = own.insert(cur, (k, c.len() - 1));
    lemma_consume_mirrors(un, unused, w, h, cx, cy, cd);
    assert(c.len() > 1);
    if c.len() == 2 {
        assert(partial_edge(c, 0) == (sx, sy, sd));
        lemma_no_reverse_edges(labels, w, h, target, sx, sy, sd);
        assert(cd == 3 - sd);
    }
    assert(c.len() >= 4);
    assert forall|x: int, y: int| #[trigger] out_deg(un2, x, y) == in_deg(un2, x, y) by {
        assert(out_deg(un, x, y) + b2i(x == sx && y == sy) == in_deg(un, x, y) + b2i(x == cx && y == cy));
    }
    assert forall|i: int| 0 <= i < c.len() implies #[trigger] edge_of(c, i) == if i < c.len() - 1 {
        partial_edge(c, i)
    } else {
        cur
    } by {
        if i < c.len() - 1 {
            vstd::arithmetic::div_mod::lemma_small_mod((i + 1) as nat, c.len());
        } else {
            vstd::arithmetic::div_mod::lemma_mod_self_0(c.len() as int);
        }
    }
    assert forall|i: int| 0 <= i < c.len() implies is_boundary_edge(
        labels,
        w,
        h,
        target,
        #[trigger] edge_of(c, i).0,
        edge_of(c, i).1,
        edge_of(c, i).2,
    ) by {
        assert(un0[edge_of(c, i)]);
    }
    let n = c.len() as int;
    assert(edge_of(c, 0) == (sx, sy, sd)) by {
        assert(edge_of(c, 0) == partial_edge(c, 0));
    }
    assert(next_edge(labels, w, h, target, cur) == (sx, sy, sd)) by {
        assert(un0[cur]);
        assert(edge_end(cur) == (sx, sy));
    }
    assert forall|i: int| 0 <= i < n implies edge_of(c, (i + 1) % n) == #[trigger] next_edge(
        labels,
        w,
        h,
        target,
        edge_of(c, i),
    ) by {
        if i < n - 1 {
            vstd::arithmetic::div_mod::lemma_small_mod((i + 1) as nat, n as nat);
            assert(edge_of(c, i) == partial_edge(c, i));
            if i < n - 2 {
                assert(edge_of(c, i + 1) == partial_edge(c, i + 1));
                assert(partial_edge(c, i + 1) == next_edge(labels, w, h, target, partial_edge(c, i)));
            } else {
                assert(edge_of(c, i + 1) == cur);
            }
        } else {
            vstd::arithmetic::div_mod::lemma_mod_self_0(n);
            assert(edge_of(c, i) == cur);
        }
    }
    assert(loop_edges_owned(un0, un2, own2, c, k)) by {
        reveal(loop_edges_owned);
    }
    assert forall|i: int| 0 <= i < n implies !un2[#[trigger] edge_of(c, i)] && un0[edge_of(c, i)] by {
        reveal(loop_edges_owned);
    }
    assert(owners_cover(un0, un2, own2, c, k)) by {
        reveal(owners_cover);
        assert forall|t: (int, int, int)|
            un0[t] && !un2[t] implies #[trigger] own2.dom().contains(t) && own2[t].0 == k && 0 <= own2[t].1
                < c.len() && edge_of(c, own2[t].1) == t by {
            if t != cur {
                assert(!un[t]);
                assert(own.dom().contains(t));
                assert(edge_of(c, own2[t].1) == partial_edge(c, own2[t].1));
            } else {
                assert(edge_of(c, c.len() - 1) == cur);
            }
        }
    }
    assert(owners_kept(own0, un0, own2)) by {
        reveal(owners_kept);
        assert forall|t: (int, int, int)|
            own0.dom().contains(t) && !un0[t] implies #[trigger] own2.dom().contains(t) && own2[t] == own0[t] by {
            assert(own.dom().contains(t));
            assert(t != cur);
        }
    }
    assert forall|t: (int, int, int)|
        is_boundary_edge(labels, w, h, target, t.0, t.1, t.2) implies un2[t] == un2[#[trigger] next_edge(
        labels,
        w,
        h,
        target,
        t,
    )] by {
        let nt = next_edge(labels, w, h, target, t);
        lemma_next_edge_is_boundary(labels, w, h, target, t);
        assert(un0[t] == un0[nt]);
        if un2[t] && !un2[nt] {
            assert(un0[nt]);
            reveal(owners_cover);
            assert(own2.dom().contains(nt));
            let j = own2[nt].1;
            let jp = if j == 0 {
                n - 1
            } else {
                j - 1
            };
            assert((jp + 1) % n == j) by {
                if j == 0 {
                    vstd::arithmetic::div_mod::lemma_mod_self_0(n);
                } else {
                    vstd::arithmetic::div_mod::lemma_small_mod(j as nat, n as nat);
                }
            }
            assert(edge_of(c, j) == next_edge(labels, w, h, target, edge_of(c, jp)));
            lemma_next_edge_injective(labels, w, h, target, t, edge_of(c, jp));
            assert(!un2[edge_of(c, jp)]);
        }
        if !un2[t] && un2[nt] {
            assert(un0[t]);
            reveal(owners_cover);
            assert(own2.dom().contains(t));
            let j = own2[t].1;
            assert(edge_of(c, (j + 1) % n) == nt);
            assert(0 <= (j + 1) % n < n);
            assert(!un2[edge_of(c, (j + 1) % n)]);
        }
    }
}

proof fn lemma_walk_continue(
    labels: Seq<u8>,
    w: int,
    h: int,
    target: u8,
    un0: Map<(int, int, int), bool>,
    own0: Map<(int, int, int), (int, int)>,
    k: int,
    sx: int,
    sy: int,
    sd: int,
    unused: Seq<bool>,
    un: Map<(int, int, int), bool>,
    own: Map<(int, int, int), (int, int)>,
    c: Seq<Point>,
    cx: int,
    cy: int,
    cd: int,
)
    requires
        walk_inv(labels, w, h, target, un0, own0, k, sx, sy, sd, unused, un, own, c, cx, cy, cd),
        !(cx + dir_dx(cd) == sx && cy + dir_dy(cd) == sy),
    ensures
        ({
            let nx = cx + dir_dx(cd);
            let ny = cy + dir_dy(cd);
            let un2 = un.insert((cx, cy, cd), false);
            let own2 = own.insert((cx, cy, cd), (k, c.len() - 1));
            let unused2 = unused.update(slot_index(h, cx, cy, cd), false);
            &&& 0 <= nx <= w
            &&& 0 <= ny <= h
            &&& mirrors(un2, unused2, w, h)
            &&& full_domain(un2)
            &&& out_deg(un2, nx, ny) >= 1
            &&& only_edges(un2, labels, w, h, target)
            &&& un2[next_edge(labels, w, h, target, (cx, cy, cd))]
            &&& next_edge(labels, w, h, target, (cx, cy, cd)).0 == nx
            &&& next_edge(labels, w, h, target, (cx, cy, cd)).1 == ny
            &&& forall|nd: int|
                0 <= nd < 4 && un2[(nx, ny, nd)] && (nx, ny, nd) == next_edge(labels, w, h, target, (cx, cy, cd))
                    ==> walk_inv(
                    labels,
                    w,
                    h,
                    target,
                    un0,
                    own0,
                    k,
                    sx,
                    sy,
                    sd,
                    unused2,
                    un2,
                    own2,
                    c.push(pt(nx, ny)),
                    nx,
                    ny,
                    nd,
                )
        }),
{
    reveal(walk_inv);
    let cur = (cx, cy, cd);
    let nx = cx + dir_dx(cd);
    let ny = cy + dir_dy(cd);
    let un2 = un.insert(cur, false);
    let own2 = own.insert(cur, (k, c.len() - 1));
    let unused2 = unused.update(slot_index(h, cx, cy, cd), false);
    let c2 = c.push(pt(nx, ny));
    lemma_consume_mirrors(un, unused, w, h, cx, cy, cd);
    lemma_edge_ends_in_grid(labels, w, h, target, cx, cy, cd);
    lemma_slot_bound(cx, cy, cd, w, h);
    assert(unused2.len() == unused.len());
    assert forall|t: (int, int, int)|
        own0.dom().contains(t) && !un0[t] implies #[trigger] own2.dom().contains(t) && own2[t] == own0[t] by {
        assert(own.dom().contains(t));
        assert(t != cur);
    }
    assert forall|x: int, y: int|
        #[trigger] out_deg(un2, x, y) + b2i(x == sx && y == sy) == in_deg(un2, x, y) + b2i(
            x == nx && y == ny,
        ) by {
        if c.len() == 1 {
            assert(out_deg(un, x, y) == in_deg(un, x, y));
        } else {
            assert(out_deg(un, x, y) + b2i(x == sx && y == sy) == in_deg(un, x, y) + b2i(
                x == cx && y == cy,
            ));
        }
    }
    assert(out_deg(un2, nx, ny) + b2i(nx == sx && ny == sy) == in_deg(un2, nx, ny) + b2i(nx == nx && ny == ny));
    let ncur = next_edge(labels, w, h, target, cur);
    assert(un0[cur]);
    lemma_next_edge_is_boundary(labels, w, h, target, cur);
    assert(un2[ncur]) by {
        assert(ncur != cur);
        if !un[ncur] {
            assert(un0[cur] == un0[ncur]);
            assert(un0[ncur]);
            assert(own.dom().contains(ncur));
            let i = own[ncur].1;
            assert(0 <= i < c.len() - 1 && partial_edge(c, i) == ncur);
            if i == 0 {
                assert(partial_edge(c, 0).0 == sx && partial_edge(c, 0).1 == sy);
                assert(false);
            } else {
                assert(partial_edge(c, i) == next_edge(labels, w, h, target, partial_edge(c, i - 1)));
                assert(un0[partial_edge(c, i - 1)]);
                lemma_next_edge_injective(labels, w, h, target, cur, partial_edge(c, i - 1));
                assert(!un[partial_edge(c, i - 1)]);
            }
        }
    }
    assert forall|nd: int|
        0 <= nd < 4 && un2[(nx, ny, nd)] && (nx, ny, nd) == ncur implies walk_inv(
        labels,
        w,
        h,
        target,
        un0,
        own0,
        k,
        sx,
        sy,
        sd,
        unused2,
        un2,
        own2,
        c2,
        nx,
        ny,
        nd,
    ) by {
        assert(partial_edge(c2, c.len() - 1) == cur);
        assert forall|i: int| 0 <= i < c2.len() - 1 implies #[trigger] partial_edge(c2, i) == if i < c.len()
            - 1 {
            partial_edge(c, i)
        } else {
            cur
        } by {
        }
        assert forall|t: (int, int, int)|
            un0[t] && !un2[t] implies #[trigger] own2.dom().contains(t) && own2[t].0 == k && 0 <= own2[t].1
                < c2.len() - 1 && partial_edge(c2, own2[t].1) == t by {
            if t != cur {
                assert(!un[t]);
                assert(own.dom().contains(t));
            }
        }
        assert forall|i: int| 0 <= i < c2.len() implies 0 <= #[trigger] c2[i].x <= w && 0 <= c2[i].y <= h by {
            if i < c.len() {
                assert(c2[i] == c[i]);
            }
        }
        assert(points_in_grid(c2, w, h));
        assert(c2[0] == pt(sx, sy));
        assert(c2.last() == pt(nx, ny));
        assert(forall|t: (int, int, int)| #[trigger] un2[t] ==> un0[t]);
        assert(forall|i: int|
            0 <= i < c2.len() - 1 ==> un0[#[trigger] partial_edge(c2, i)] && !un2[partial_edge(c2, i)]
                && own2.dom().contains(partial_edge(c2, i)) && own2[partial_edge(c2, i)] == (k, i));
        if c.len() == 1 {
            assert(c2[1] == pt(nx, ny));
            assert(step_dir(c2[0], c2[1]) == sd);
        } else {
            assert(c2[1] == c[1]);
        }
        assert((nx + ny - sx - sy - (c2.len() - 1)) % 2 == 0);
        assert(only_edges(un2, labels, w, h, target));
        assert(full_domain(un2));
        assert(unused2.len() == (w + 1) * (h + 1) * 4);
        assert(mirrors(un2, unused2, w, h));
        assert(un2[(nx, ny, nd)]);
        assert forall|i: int| 0 <= i < c2.len() - 2 implies partial_edge(c2, i + 1) == #[trigger] next_edge(
            labels,
            w,
            h,
            target,
            partial_edge(c2, i),
        ) by {
            assert(partial_edge(c2, i) == partial_edge(c, i));
            if i < c.len() - 2 {
                assert(partial_edge(c2, i + 1) == partial_edge(c, i + 1));
                assert(partial_edge(c, i + 1) == next_edge(labels, w, h, target, partial_edge(c, i)));
            } else {
                assert(partial_edge(c2, i + 1) == cur);
            }
        }
        assert((nx, ny, nd) == next_edge(labels, w, h, target, partial_edge(c2, c2.len() - 2)));
        assert(c2.len() > 1 ==> forall|x: int, y: int|
            #[trigger] out_deg(un2, x, y) + b2i(x == sx && y == sy) == in_deg(un2, x, y) + b2i(
                x == nx && y == ny,
            ));
    }
}

#[verifier::spinoff_prover]
/// Follow unused boundary edges from the edge `(sx, sy, sd)` until the walk
/// returns to its start vertex, consuming every edge it takes.
fn trace_loop(
    labels: &Vec<u8>,
    w: usize,
    h: usize,
    target: u8,
    unused: &mut Vec<bool>,
    sx: usize,
    sy: usize,
    sd: usize,
    Ghost(un0): Ghost<Map<(int, int, int), bool>>,
    Ghost(own0): Ghost<Map<(int, int, int), (int, int)>>,
    Ghost(k): Ghost<int>,
) -> (r: (Vec<Point>, Ghost<Map<(int, int, int), bool>>, Ghost<Map<(int, int, int), (int, int)>>))
    requires
        labels@.len() >= w * h,
        w < 0x8000_0000,
        h < 0x8000_0000,
        (w + 1) * (h + 1) * 4 <= usize::MAX,
        old(unused)@.len() == (w + 1) * (h + 1) * 4,
        mirrors(un0, old(unused)@, w as int, h as int),
        only_edges(un0, labels@, w as int, h as int, target),
        degree_balanced(un0),
        un0[(sx as int, sy as int, sd as int)],
        full_domain(un0),
        sx <= w,
        sy <= h,
        sd < 4,
        pairs_unused(un0, labels@, w as int, h as int, target),
        forall|e: (int, int, int)|
            un0[e] && #[trigger] edge_end(e) == (sx as int, sy as int) ==> next_edge(labels@, w as int, h as int, target, e)
                == (sx as int, sy as int, sd as int),
    ensures
        final(unused)@.len() == old(unused)@.len(),
        mirrors(r.1@, final(unused)@, w as int, h as int),
        only_edges(r.1@, labels@, w as int, h as int, target),
        full_domain(r.1@),
        degree_balanced(r.1@),
        is_boundary_loop(labels@, w as int, h as int, target, r.0@),
        r.0@[0] == pt(sx as int, sy as int),
        edge_of(r.0@, 0) == (sx as int, sy as int, sd as int),
        loop_edges_owned(un0, r.1@, r.2@, r.0@, k),
        forall|t: (int, int, int)| #[trigger] r.1@[t] ==> un0[t],
        owners_cover(un0, r.1@, r.2@, r.0@, k),
        owners_kept(own0, un0, r.2@),
        points_in_grid(r.0@, w as int, h as int),
        pairs_unused(r.1@, labels@, w as int, h as int, target),
{
    let ghost wi = w as int;
    let ghost hi = h as int;
    let ghost mut un = un0;
    let ghost mut own = own0;
    let mut c: Vec<Point> = Vec::new();
    c.push(Point { x: sx as i32, y: sy as i32 });
    let mut cx = sx;
    let mut cy = sy;
    let mut cd = sd;
    proof {
        assert(c@ =~= seq![pt(sx as int, sy as int)]);
        lemma_walk_start(labels@, wi, hi, target, un0, own0, k, sx as int, sy as int, sd as int, unused@);
    }
    loop
        invariant
            labels@.len() >= w * h,
            w < 0x8000_0000,
            h < 0x8000_0000,
            (w + 1) * (h + 1) * 4 <= usize::MAX,
            unused@.len() == old(unused)@.len(),
            unused@.len() == (w + 1) * (h + 1) * 4,
            wi == w,
            hi == h,
            walk_inv(labels@, wi, hi, target, un0, own0, k, sx as int, sy as int, sd as int, unused@, un, own, c@, cx as int, cy as int, cd as int),
        decreases count_true(unused@),
    {
        proof {
            lemma_walk_slot(labels@, wi, hi, target, un0, own0, k, sx as int, sy as int, sd as int, unused@, un, own, c@, cx as int, cy as int, cd as int);
        }
        let slot = slot_of(h, cx, cy, cd, Ghost(wi));
        let ghost old_un = un;
        let ghost old_own = own;
        let ghost old_unused = unused@;
        let ghost old_c = c@;
        proof {
            lemma_count_true_clear(unused@, slot as int);
        }
        unused.set(slot, false);
        let nx: usize = if cd == 0 { cx - 1 } else if cd == 3 { cx + 1 } else { cx };
        let ny: usize = if cd == 1 { cy - 1 } else if cd == 2 { cy + 1 } else { cy };
        if nx == sx && ny == sy {
            proof {
                lemma_walk_close(labels@, wi, hi, target, un0, own0, k, sx as int, sy as int, sd as int, old_unused, old_un, old_own, c@, cx as int, cy as int, cd as int);
                un = old_un.insert((cx as int, cy as int, cd as int), false);
                own = old_own.insert((cx as int, cy as int, cd as int), (k, c@.len() - 1));
            }
            return (c, Ghost(un), Ghost(own));
        }
        proof {
            lemma_walk_continue(labels@, wi, hi, target, un0, own0, k, sx as int, sy as int, sd as int, old_unused, old_un, old_own, c@, cx as int, cy as int, cd as int);
            un = old_un.insert((cx as int, cy as int, cd as int), false);
            own = old_own.insert((cx as int, cy as int, cd as int), (k, c@.len() - 1));
        }
        c.push(Point { x: nx as i32, y: ny as i32 });
        let next = choose_next_dir(unused, w, h, nx, ny, cd);
        let nd = match next {
            Some(nd) => nd,
            None => {
                proof {
                    assert forall|d: int| 0 <= d < 4 implies !un[(nx as int, ny as int, d)] by {
                        assert(unused@[slot_index(hi, nx as int, ny as int, d)] == un[(nx as int, ny as int, d)]);
                    }
                    assert(false);
                }
                0
            },
        };
        proof {
            assert(unused@[slot_index(hi, nx as int, ny as int, nd as int)] == un[(nx as int, ny as int, nd as int)]);
            assert(c@ == old_c.push(pt(nx as int, ny as int)));
            let ncur = next_edge(labels@, wi, hi, target, (cx as int, cy as int, cd as int));
            let rt = turn_right(cd as int);
            let lt = turn_left(cd as int);
            assert(unused@[slot_index(hi, nx as int, ny as int, rt)] == un[(nx as int, ny as int, rt)]);
            assert(unused@[slot_index(hi, nx as int, ny as int, cd as int)] == un[(nx as int, ny as int, cd as int)]);
            assert(unused@[slot_index(hi, nx as int, ny as int, lt)] == un[(nx as int, ny as int, lt)]);
            if !is_boundary_edge(labels@, wi, hi, target, nx as int, ny as int, rt) {
                assert(!un[(nx as int, ny as int, rt)]);
            }
            if !is_boundary_edge(labels@, wi, hi, target, nx as int, ny as int, cd as int) {
                assert(!un[(nx as int, ny as int, cd as int)]);
            }
            assert(nd as int == ncur.2);
        }
        cx = nx;
        cy = ny;
        cd = nd;
    }
}

/// State of the scan over all edges in edge order, which has reached edge
/// `(cx, cy, cd)` and traced the loops `cs` so far.
#[verifier::opaque]
spec fn scan_inv(
    labels: Seq<u8>,
    w: int,
    h: int,
    target: u8,
    unused: Seq<bool>,
    un: Map<(int, int, int), bool>,
    own: Map<(int, int, int), (int, int)>,
    cs: Seq<Seq<Point>>,
    cx: int,
    cy: int,
    cd: int,
) -> bool {
    &&& 0 <= w < 0x8000_0000
    &&& 0 <= h < 0x8000_0000
    &&& unused.len() == (w + 1) * (h + 1) * 4
    &&& mirrors(un, unused, w, h)
    &&& only_edges(un, labels, w, h, target)
    &&& full_domain(un)
    &&& degree_balanced(un)
    &&& pairs_unused(un, labels, w, h, target)
    &&& forall|t: (int, int, int)| #[trigger] un[t] ==> edge_le((cx, cy, cd), t)
    &&& forall|j: int|
        0 <= j < cs.len() ==> is_boundary_loop(labels, w, h, target, #[trigger] cs[j]) && points_in_grid(
            cs[j],
            w,
            h,
        )
    &&& forall|j: int, i: int|
        0 <= j < cs.len() && 0 <= i < cs[j].len() ==> edge_le(edge_of(cs[j], 0), #[trigger] edge_of(cs[j], i))
            && !un[edge_of(cs[j], i)] && own.dom().contains(edge_of(cs[j], i)) && own[edge_of(cs[j], i)] == (j, i)
    &&& forall|t: (int, int, int)|
        is_boundary_edge(labels, w, h, target, t.0, t.1, t.2) && !un[t] ==> #[trigger] own.dom().contains(t)
            && 0 <= own[t].0 < cs.len() && 0 <= own[t].1 < cs[own[t].0].len() && edge_of(cs[own[t].0], own[t].1)
            == t
}

proof fn lemma_scan_start(labels: Seq<u8>, w: int, h: int, target: u8, unused: Seq<bool>)
    requires
        0 <= w < 0x8000_0000,
        0 <= h < 0x8000_0000,
        unused.len() == (w + 1) * (h + 1) * 4,
        forall|x: int, y: int, d: int|
            in_grid(w, h, x, y, d) ==> unused[#[trigger] slot_index(h, x, y, d)] == is_boundary_edge(
                labels,
                w,
                h,
                target,
                x,
                y,
                d,
            ),
    ensures
        scan_inv(
            labels,
            w,
            h,
            target,
            unused,
            edge_map(labels, w, h, target),
            Map::empty(),
            Seq::empty(),
            0,
            0,
            0,
        ),
{
    reveal(scan_inv);
    let un = edge_map(labels, w, h, target);
    lemma_edges_balanced(labels, w, h, target);
    assert forall|t: (int, int, int)| is_boundary_edge(labels, w, h, target, t.0, t.1, t.2) implies un[t]
        == un[#[trigger] next_edge(labels, w, h, target, t)] by {
        lemma_next_edge_is_boundary(labels, w, h, target, t);
    }
    assert forall|t: (int, int, int)| #[trigger] un[t] implies edge_le((0, 0, 0), t) by {
        lemma_edge_ends_in_grid(labels, w, h, target, t.0, t.1, t.2);
    }
}

/// Skip the edge at the cursor, which is not (or no longer) unused.
#[verifier::spinoff_prover]
proof fn lemma_scan_skip(
    labels: Seq<u8>,
    w: int,
    h: int,
    target: u8,
    unused: Seq<bool>,
    un: Map<(int, int, int), bool>,
    own: Map<(int, int, int), (int, int)>,
    cs: Seq<Seq<Point>>,
    cx: int,
    cy: int,
    cd: int,
    nx: int,
    ny: int,
    nd: int,
)
    requires
        scan_inv(labels, w, h, target, unused, un, own, cs, cx, cy, cd),
        in_grid(w, h, cx, cy, cd),
        !un[(cx, cy, cd)],
        (cd < 3 && nx == cx && ny == cy && nd == cd + 1) || (cd == 3 && cy < h && nx == cx && ny == cy
            + 1 && nd == 0) || (cd == 3 && cy == h && nx == cx + 1 && ny == 0 && nd == 0),
    ensures
        scan_inv(labels, w, h, target, unused, un, own, cs, nx, ny, nd),
{
    reveal(scan_inv);
    assert forall|t: (int, int, int)| #[trigger] un[t] implies edge_le((nx, ny, nd), t) by {
        lemma_edge_ends_in_grid(labels, w, h, target, t.0, t.1, t.2);
    }
}

/// Record a freshly traced loop that started at the cursor edge.
proof fn lemma_scan_add_loop(
    labels: Seq<u8>,
    w: int,
    h: int,
    target: u8,
    unused: Seq<bool>,
    un: Map<(int, int, int), bool>,
    own: Map<(int, int, int), (int, int)>,
    cs: Seq<Seq<Point>>,
    cx: int,
    cy: int,
    cd: int,
    unused2: Seq<bool>,
    un2: Map<(int, int, int), bool>,
    own2: Map<(int, int, int), (int, int)>,
    c: Seq<Point>,
)
    requires
        scan_inv(labels, w, h, target, unused, un, own, cs, cx, cy, cd),
        un[(cx, cy, cd)],
        unused2.len() == unused.len(),
        mirrors(un2, unused2, w, h),
        only_edges(un2, labels, w, h, target),
        full_domain(un2),
        degree_balanced(un2),
        is_boundary_loop(labels, w, h, target, c),
        edge_of(c, 0) == (cx, cy, cd),
        loop_edges_owned(un, un2, own2, c, cs.len() as int),
        forall|t: (int, int, int)| #[trigger] un2[t] ==> un[t],
        owners_cover(un, un2, own2, c, cs.len() as int),
        owners_kept(own, un, own2),
        points_in_grid(c, w, h),
        pairs_unused(un2, labels, w, h, target),
    ensures
        scan_inv(labels, w, h, target, unused2, un2, own2, cs.push(c), cx, cy, cd),
        !un2[(cx, cy, cd)],
{
    reveal(scan_inv);
    reveal(loop_edges_owned);
    reveal(owners_cover);
    reveal(owners_kept);
    let n = cs.len() as int;
    let cs2 = cs.push(c);
    assert(cs2[n] == c);
    assert forall|j: int| 0 <= j < cs2.len() implies is_boundary_loop(labels, w, h, target, #[trigger] cs2[j])
        && points_in_grid(cs2[j], w, h) by {
        if j < n {
            assert(cs2[j] == cs[j]);
        }
    }
    assert forall|j: int, i: int|
        0 <= j < cs2.len() && 0 <= i < cs2[j].len() implies edge_le(edge_of(cs2[j], 0), #[trigger] edge_of(cs2[j], i))
            && !un2[edge_of(cs2[j], i)] && own2.dom().contains(edge_of(cs2[j], i)) && own2[edge_of(cs2[j], i)]
            == (j, i) by {
        if j < n {
            assert(cs2[j] == cs[j]);
            assert(own.dom().contains(edge_of(cs[j], i)));
        } else {
            assert(un[edge_of(c, i)]);
            assert(un[edge_of(c, 0)]);
        }
    }
    assert forall|t: (int, int, int)|
        is_boundary_edge(labels, w, h, target, t.0, t.1, t.2) && !un2[t] implies #[trigger] own2.dom().contains(t)
            && 0 <= own2[t].0 < cs2.len() && 0 <= own2[t].1 < cs2[own2[t].0].len() && edge_of(
            cs2[own2[t].0],
            own2[t].1,
        ) == t by {
        if un[t] {
        } else {
            assert(own.dom().contains(t));
            assert(cs2[own[t].0] == cs[own[t].0]);
        }
    }
    assert(un[edge_of(c, 0)]);
}

/// When the scan has passed every edge, the traced loops use every boundary
/// edge exactly once.
proof fn lemma_scan_finish(
    labels: Seq<u8>,
    w: int,
    h: int,
    target: u8,
    unused: Seq<bool>,
    un: Map<(int, int, int), bool>,
    own: Map<(int, int, int), (int, int)>,
    gcs: Seq<Seq<Point>>,
    cx: int,
    cy: int,
    cd: int,
)
    requires
        scan_inv(labels, w, h, target, unused, un, own, gcs, cx, cy, cd),
        cx == w + 1,
    ensures
        forall|j: int| 0 <= j < gcs.len() ==> is_boundary_loop(labels, w, h, target, #[trigger] gcs[j])
            && points_in_grid(gcs[j], w, h),
        forall|j: int, i: int|
            0 <= j < gcs.len() && 0 <= i < gcs[j].len() ==> edge_le(edge_of(gcs[j], 0), #[trigger] edge_of(gcs[j], i)),
        forall|x: int, y: int, d: int|
            #[trigger] is_boundary_edge(labels, w, h, target, x, y, d) ==> exists|k: int, i: int|
                0 <= k < gcs.len() && 0 <= i < gcs[k].len() && #[trigger] edge_of(gcs[k], i) == (x, y, d),
        forall|k1: int, i1: int, k2: int, i2: int|
            0 <= k1 < gcs.len() && 0 <= i1 < gcs[k1].len() && 0 <= k2 < gcs.len() && 0 <= i2 < gcs[k2].len()
                && #[trigger] edge_of(gcs[k1], i1) == #[trigger] edge_of(gcs[k2], i2) ==> k1 == k2 && i1 == i2,
{
    reveal(scan_inv);
    assert forall|t: (int, int, int)| !un[t] by {
        if un[t] {
            lemma_edge_ends_in_grid(labels, w, h, target, t.0, t.1, t.2);
        }
    }
    assert forall|x: int, y: int, d: int|
        #[trigger] is_boundary_edge(labels, w, h, target, x, y, d) implies exists|k: int, i: int|
            0 <= k < gcs.len() && 0 <= i < gcs[k].len() && #[trigger] edge_of(gcs[k], i) == (x, y, d) by {
        let t = (x, y, d);
        assert(!un[t]);
        assert(own.dom().contains(t));
        let k = own[t].0;
        let i = own[t].1;
        assert(edge_of(gcs[k], i) == t);
    }
    assert forall|k1: int, i1: int, k2: int, i2: int|
        0 <= k1 < gcs.len() && 0 <= i1 < gcs[k1].len() && 0 <= k2 < gcs.len() && 0 <= i2 < gcs[k2].len()
            && #[trigger] edge_of(gcs[k1], i1) == #[trigger] edge_of(gcs[k2], i2) implies k1 == k2 && i1 == i2 by {
        assert(own[edge_of(gcs[k1], i1)] == (k1, i1));
        assert(own[edge_of(gcs[k2], i2)] == (k2, i2));
    }
}

/// Trace all loops of one region, in the order of their least edges.
fn trace_region_loops(labels: &Vec<u8>, w: usize, h: usize, target: u8) -> (r: (Vec<Vec<Point>>, Ghost<Seq<Seq<Point>>>))
    requires
        labels@.len() >= w * h,
        w < 0x8000_0000,
        h < 0x8000_0000,
        (w + 1) * (h + 1) * 4 <= usize::MAX,
    ensures
        r.0@.len() == r.1@.len(),
        forall|j: int| 0 <= j < r.0@.len() ==> (#[trigger] r.0@[j])@ == r.1@[j],
        forall|j: int| 0 <= j < r.1@.len() ==> is_boundary_loop(labels@, w as int, h as int, target, #[trigger] r.1@[j])
            && points_in_grid(r.1@[j], w as int, h as int),
        forall|j: int, i: int|
            0 <= j < r.1@.len() && 0 <= i < r.1@[j].len() ==> edge_le(edge_of(r.1@[j], 0), #[trigger] edge_of(r.1@[j], i)),
        forall|k1: int, i1: int, k2: int, i2: int|
            0 <= k1 < r.1@.len() && 0 <= i1 < r.1@[k1].len() && 0 <= k2 < r.1@.len() && 0 <= i2 < r.1@[k2].len()
                && #[trigger] edge_of(r.1@[k1], i1) == #[trigger] edge_of(r.1@[k2], i2) ==> k1 == k2 && i1 == i2,
        forall|x: int, y: int, d: int|
            #[trigger] is_boundary_edge(labels@, w as int, h as int, target, x, y, d) ==> exists|k: int, i: int|
                0 <= k < r.1@.len() && 0 <= i < r.1@[k].len() && #[trigger] edge_of(r.1@[k], i) == (x, y, d),
{
    let ghost wi = w as int;
    let ghost hi = h as int;
    let mut unused = collect_boundary_edges(labels, w, h, target);
    let ghost mut un = edge_map(labels@, wi, hi, target);
    let ghost mut own: Map<(int, int, int), (int, int)> = Map::empty();
    let ghost mut gcs: Seq<Seq<Point>> = Seq::empty();
    let mut contours: Vec<Vec<Point>> = Vec::new();
    proof {
        lemma_scan_start(labels@, wi, hi, target, unused@);
    }
    let mut x: usize = 0;
    let mut y: usize = 0;
    let mut d: usize = 0;
    while x <= w
        invariant
            labels@.len() >= w * h,
            w < 0x8000_0000,
            h < 0x8000_0000,
            (w + 1) * (h + 1) * 4 <= usize::MAX,
            wi == w,
            hi == h,
            unused@.len() == (w + 1) * (h + 1) * 4,
            x <= w + 1,
            x <= w ==> y <= h && d < 4,
            x == w + 1 ==> y == 0 && d == 0,
            contours@.len() == gcs.len(),
            forall|j: int| 0 <= j < contours@.len() ==> (#[trigger] contours@[j])@ == gcs[j],
            scan_inv(labels@, wi, hi, target, unused@, un, own, gcs, x as int, y as int, d as int),
        decreases w + 1 - x, h + 1 - y, 4 - d,
    {
        let slot = slot_of(h, x, y, d, Ghost(wi));
        if unused[slot] {
            let ghost gun = un;
            let ghost gown = own;
            let ghost old_unused = unused@;
            proof {
                reveal(scan_inv);
                assert(un[(x as int, y as int, d as int)] == unused@[slot_index(hi, x as int, y as int, d as int)]);
                lemma_start_in_edges(labels@, wi, hi, target, un, (x as int, y as int, d as int));
            }
            let (c, Ghost(un2), Ghost(own2)) = trace_loop(labels, w, h, target, &mut unused, x, y, d, Ghost(gun), Ghost(gown), Ghost(gcs.len() as int));
            proof {
                lemma_scan_add_loop(labels@, wi, hi, target, old_unused, gun, gown, gcs, x as int, y as int, d as int, unused@, un2, own2, c@);
            }
            let ghost cseq = c@;
            contours.push(c);
            proof {
                un = un2;
                own = own2;
                gcs = gcs.push(cseq);
                assert(forall|j: int| 0 <= j < contours@.len() ==> (#[trigger] contours@[j])@ == gcs[j]);
            }
        }
        let ghost ox = x as int;
        let ghost oy = y as int;
        let ghost od = d as int;
        if d < 3 {
            d += 1;
        } else if y < h {
            d = 0;
            y += 1;
        } else {
            d = 0;
            y = 0;
            x += 1;
        }
        proof {
            assert(!un[(ox, oy, od)]) by {
                reveal(scan_inv);
                assert(un[(ox, oy, od)] == unused@[slot_index(hi, ox, oy, od)]);
            }
            lemma_scan_skip(labels@, wi, hi, target, unused@, un, own, gcs, ox, oy, od, x as int, y as int, d as int);
        }
    }
    proof {
        lemma_scan_finish(labels@, wi, hi, target, unused@, un, own, gcs, x as int, y as int, d as int);
    }
    (contours, Ghost(gcs))
}

proof fn lemma_min_bounds(c: Seq<Point>, w: int, h: int)
    requires
        c.len() > 0,
        points_in_grid(c, w, h),
    ensures
        0 <= min_x(c) <= w,
        0 <= min_y(c) <= h,
    decreases c.len(),
{
    if c.len() > 1 {
        let p = c.drop_last();
        assert forall|i: int| 0 <= i < p.len() implies 0 <= #[trigger] p[i].x <= w && 0 <= p[i].y <= h by {
            assert(p[i] == c[i]);
        }
        lemma_min_bounds(p, w, h);
    }
}

fn contour_min_xy(c: &Vec<Point>) -> (r: (i32, i32))
    requires
        c@.len() > 0,
    ensures
        r.0 as int == min_x(c@),
        r.1 as int == min_y(c@),
{
    let mut mx = c[0].x;
    let mut my = c[0].y;
    let mut i: usize = 1;
    proof {
        assert(c@.subrange(0, 1).len() == 1);
    }
    while i < c.len()
        invariant
            1 <= i <= c@.len(),
            mx as int == min_x(c@.subrange(0, i as int)),
            my as int == min_y(c@.subrange(0, i as int)),
        decreases c@.len() - i,
    {
        proof {
            assert(c@.subrange(0, i + 1).drop_last() =~= c@.subrange(0, i as int));
        }
        if c[i].x < mx {
            mx = c[i].x;
        }
        if c[i].y < my {
            my = c[i].y;
        }
        i += 1;
    }
    proof {
        assert(c@.subrange(0, c@.len() as int) =~= c@);
    }
    (mx, my)
}

fn copy_points(c: &Vec<Point>) -> (r: Vec<Point>)
    ensures
        r@ == c@,
{
    let mut r: Vec<Point> = Vec::new();
    let mut i: usize = 0;
    while i < c.len()
        invariant
            i <= c@.len(),
            r@ == c@.subrange(0, i as int),
        decreases c@.len() - i,
    {
        r.push(c[i]);
        i += 1;
    }
    proof {
        assert(c@.subrange(0, c@.len() as int) =~= c@);
    }
    r
}

spec fn in_perm(p: Seq<int>, k: int) -> bool {
    exists|j: int| 0 <= j < p.len() && p[j] == k
}

spec fn contour_key(c: Seq<Point>, j: int) -> LexKey {
    LexKey {
        k0: (min_y(c) * 0x1_0000_0000 + min_x(c)) as u64,
        k1: (c[0].y * 0x1_0000_0000 + c[0].x) as u64,
        k2: c.len() as u64,
        k3: j as u64,
    }
}

proof fn lemma_contour_key_order(a: Seq<Point>, ja: int, b: Seq<Point>, jb: int, w: int, h: int)
    requires
        a.len() > 0,
        b.len() > 0,
        a.len() < 0x1_0000_0000_0000_0000,
        b.len() < 0x1_0000_0000_0000_0000,
        0 <= ja < 0x1_0000_0000_0000_0000,
        0 <= jb < 0x1_0000_0000_0000_0000,
        points_in_grid(a, w, h),
        points_in_grid(b, w, h),
        0 <= w < 0x8000_0000,
        0 <= h < 0x8000_0000,
        contour_key(a, ja).precedes(contour_key(b, jb)),
    ensures
        contour_order_le(a, b),
{
    lemma_min_bounds(a, w, h);
    lemma_min_bounds(b, w, h);
    assert(0 <= a[0].x <= w && 0 <= a[0].y <= h);
    assert(0 <= b[0].x <= w && 0 <= b[0].y <= h);
}

/// Order traced loops by contour order, keeping loops with equal keys in their
/// tracing order.
#[verifier::spinoff_prover]
fn order_contours(
    contours: Vec<Vec<Point>>,
    Ghost(gcs): Ghost<Seq<Seq<Point>>>,
    Ghost(w): Ghost<int>,
    Ghost(h): Ghost<int>,
) -> (r: (Vec<Vec<Point>>, Ghost<Seq<int>>))
    requires
        contours@.len() == gcs.len(),
        forall|j: int| 0 <= j < contours@.len() ==> (#[trigger] contours@[j])@ == gcs[j],
        forall|j: int| 0 <= j < gcs.len() ==> (#[trigger] gcs[j]).len() > 0 && points_in_grid(gcs[j], w, h),
        0 <= w < 0x8000_0000,
        0 <= h < 0x8000_0000,
    ensures
        r.0@.len() == gcs.len(),
        r.1@.len() == gcs.len(),
        forall|j: int| 0 <= j < r.0@.len() ==> 0 <= #[trigger] r.1@[j] < gcs.len() && r.0@[j]@ == gcs[r.1@[j]],
        forall|j1: int, j2: int|
            0 <= j1 < r.1@.len() && 0 <= j2 < r.1@.len() && j1 != j2 ==> #[trigger] r.1@[j1] != #[trigger] r.1@[j2],
        forall|k: int| 0 <= k < gcs.len() ==> #[trigger] in_perm(r.1@, k),
        forall|j1: int, j2: int|
            0 <= j1 < j2 < r.0@.len() ==> contour_order_le(#[trigger] r.0@[j1]@, #[trigger] r.0@[j2]@),
{
    let n = contours.len();
    let mut keys: Vec<LexKey> = Vec::new();
    let mut j: usize = 0;
    while j < n
        invariant
            n == contours@.len(),
            contours@.len() == gcs.len(),
            forall|j: int| 0 <= j < contours@.len() ==> (#[trigger] contours@[j])@ == gcs[j],
            forall|j: int| 0 <= j < gcs.len() ==> (#[trigger] gcs[j]).len() > 0 && points_in_grid(gcs[j], w, h),
            0 <= w < 0x8000_0000,
            0 <= h < 0x8000_0000,
            j <= n,
            keys@.len() == j,
            forall|i: int| 0 <= i < j ==> #[trigger] keys@[i] == contour_key(gcs[i], i),
            forall|i: int| 0 <= i < j ==> (#[trigger] gcs[i]).len() <= usize::MAX,
        decreases n - j,
    {
        let c = &contours[j];
        let (mx, my) = contour_min_xy(c);
        proof {
            assert(c@ == gcs[j as int]);
            lemma_min_bounds(c@, w, h);
            assert(0 <= c@[0].x <= w && 0 <= c@[0].y <= h);
        }
        let key = LexKey {
            k0: (my as u64) * 0x1_0000_0000 + (mx as u64),
            k1: (c[0].y as u64) * 0x1_0000_0000 + (c[0].x as u64),
            k2: c.len() as u64,
            k3: j as u64,
        };
        keys.push(key);
        j += 1;
    }
    let ghost gkeys = keys@;
    proof {
        assert forall|a: int, b: int| 0 <= a < gkeys.len() && 0 <= b < gkeys.len() && a != b implies gkeys[a]
            != gkeys[b] by {
            assert(gkeys[a].k3 == a as u64 && gkeys[b].k3 == b as u64);
        }
        assert(gkeys.no_duplicates());
        gkeys.lemma_multiset_has_no_duplicates();
    }
    let sorted = merge_sort(keys);
    let ghost perm = Seq::new(sorted@.len(), |j: int| sorted@[j].k3 as int);
    proof {
        broadcast use vstd::seq_lib::group_to_multiset_ensures;

        assert forall|j: int| 0 <= j < sorted@.len() implies gkeys.contains(#[trigger] sorted@[j]) by {
            assert(sorted@.contains(sorted@[j]));
            assert(sorted@.to_multiset().count(sorted@[j]) > 0);
            assert(gkeys.to_multiset().count(sorted@[j]) > 0);
            assert(gkeys.contains(sorted@[j]));
        }
        assert forall|x: LexKey| sorted@.to_multiset().contains(x) implies sorted@.to_multiset().count(x) == 1 by {
            assert(gkeys.to_multiset().contains(x));
        }
        sorted@.lemma_multiset_has_no_duplicates_conv();
    }
    let mut out: Vec<Vec<Point>> = Vec::new();
    let mut j: usize = 0;
    while j < n
        invariant
            n == contours@.len(),
            contours@.len() == gcs.len(),
            forall|j: int| 0 <= j < contours@.len() ==> (#[trigger] contours@[j])@ == gcs[j],
            sorted@.len() == n,
            gkeys.len() == n,
            forall|i: int| 0 <= i < n ==> #[trigger] gkeys[i] == contour_key(gcs[i], i),
            forall|i: int| 0 <= i < n ==> (#[trigger] gcs[i]).len() <= usize::MAX,
            forall|j: int| 0 <= j < sorted@.len() ==> gkeys.contains(#[trigger] sorted@[j]),
            perm == Seq::new(sorted@.len(), |j: int| sorted@[j].k3 as int),
            j <= n,
            out@.len() == j,
            forall|i: int| 0 <= i < j ==> 0 <= #[trigger] perm[i] < n && out@[i]@ == gcs[perm[i]],
        decreases n - j,
    {
        let idx = sorted[j].k3 as usize;
        proof {
            let i = choose|i: int| 0 <= i < gkeys.len() && gkeys[i] == sorted@[j as int];
            assert(sorted@[j as int].k3 == i);
        }
        let c = copy_points(&contours[idx]);
        out.push(c);
        j += 1;
    }
    proof {
        broadcast use vstd::seq_lib::group_to_multiset_ensures;

        assert forall|j1: int, j2: int|
            0 <= j1 < perm.len() && 0 <= j2 < perm.len() && j1 != j2 implies #[trigger] perm[j1] != #[trigger] perm[j2] by {
            let i1 = choose|i: int| 0 <= i < gkeys.len() && gkeys[i] == sorted@[j1];
            let i2 = choose|i: int| 0 <= i < gkeys.len() && gkeys[i] == sorted@[j2];
            assert(sorted@[j1] != sorted@[j2]);
        }
        assert forall|k: int| 0 <= k < gcs.len() implies #[trigger] in_perm(perm, k) by {
            assert(gkeys.contains(gkeys[k]));
            assert(gkeys.to_multiset().count(gkeys[k]) > 0);
            assert(sorted@.to_multiset().count(gkeys[k]) > 0);
            assert(sorted@.contains(gkeys[k]));
            let j = choose|j: int| 0 <= j < sorted@.len() && sorted@[j] == gkeys[k];
            assert(perm[j] == k);
        }
        assert forall|j1: int, j2: int| 0 <= j1 < j2 < out@.len() implies contour_order_le(
            #[trigger] out@[j1]@,
            #[trigger] out@[j2]@,
        ) by {
            let i1 = perm[j1];
            let i2 = perm[j2];
            assert(sorted@[j1].precedes(sorted@[j2]));
            assert(gkeys[i1] == sorted@[j1]) by {
                let i = choose|i: int| 0 <= i < gkeys.len() && gkeys[i] == sorted@[j1];
                assert(gkeys[i].k3 == i);
            }
            assert(gkeys[i2] == sorted@[j2]) by {
                let i = choose|i: int| 0 <= i < gkeys.len() && gkeys[i] == sorted@[j2];
                assert(gkeys[i].k3 == i);
            }
            assert(gcs[i1].len() <= usize::MAX && gcs[i2].len() <= usize::MAX);
            lemma_contour_key_order(gcs[i1], i1, gcs[i2], i2, w, h);
        }
    }
    (out, Ghost(perm))
}

/// The point sequences of a list of contours.
pub open spec fn contours_view(cs: Seq<Vec<Point>>) -> Seq<Seq<Point>> {
    cs.map_values(|c: Vec<Point>| c@)
}

/// Trace all contours of the pixels labeled `target`.
fn trace_color_contours(labels: &Vec<u8>, w: usize, h: usize, target: u8) -> (r: Vec<Contour>)
    requires
        labels@.len() >= w * h,
        w < 0x8000_0000,
        h < 0x8000_0000,
        (w + 1) * (h + 1) * 4 <= usize::MAX,
    ensures
        is_region_tracing(labels@, w as int, h as int, target, contours_view(r@)),
{
    let (loops, Ghost(gcs)) = trace_region_loops(labels, w, h, target);
    let (out, Ghost(perm)) = order_contours(loops, Ghost(gcs), Ghost(w as int), Ghost(h as int));
    proof {
        let v = contours_view(out@);
        assert(v.len() == out@.len());
        assert forall|k: int| 0 <= k < v.len() implies #[trigger] v[k] == gcs[perm[k]] by {
        }
        assert forall|k: int| 0 <= k < v.len() implies is_boundary_loop(labels@, w as int, h as int, target, #[trigger] v[k]) by {
            assert(v[k] == gcs[perm[k]]);
        }
        assert forall|k: int, i: int|
            0 <= k < v.len() && 0 <= i < v[k].len() implies edge_le(edge_of(v[k], 0), #[trigger] edge_of(v[k], i)) by {
            assert(v[k] == gcs[perm[k]]);
        }
        assert forall|k1: int, i1: int, k2: int, i2: int|
            0 <= k1 < v.len() && 0 <= i1 < v[k1].len() && 0 <= k2 < v.len() && 0 <= i2 < v[k2].len()
                && #[trigger] edge_of(v[k1], i1) == #[trigger] edge_of(v[k2], i2) implies k1 == k2 && i1 == i2 by {
            assert(v[k1] == gcs[perm[k1]]);
            assert(v[k2] == gcs[perm[k2]]);
            assert(edge_of(gcs[perm[k1]], i1) == edge_of(gcs[perm[k2]], i2));
        }
        assert forall|x: int, y: int, d: int|
            #[trigger] is_boundary_edge(labels@, w as int, h as int, target, x, y, d) implies exists|k: int, i: int|
                0 <= k < v.len() && 0 <= i < v[k].len() && #[trigger] edge_of(v[k], i) == (x, y, d) by {
            let (k, i) = choose|k: int, i: int|
                0 <= k < gcs.len() && 0 <= i < gcs[k].len() && #[trigger] edge_of(gcs[k], i) == (x, y, d);
            assert(in_perm(perm, k));
            let j = choose|j: int| 0 <= j < perm.len() && perm[j] == k;
            assert(v[j] == gcs[k]);
            assert(edge_of(v[j], i) == (x, y, d));
        }
        assert forall|k1: int, k2: int| 0 <= k1 < k2 < v.len() implies contour_order_le(#[trigger] v[k1], #[trigger] v[k2]) by {
            assert(v[k1] == out@[k1]@);
            assert(v[k2] == out@[k2]@);
        }
    }
    out
}

/// The region of pixels labeled `target` is not empty.
pub open spec fn region_nonempty(labels: Seq<u8>, w: int, h: int, target: u8) -> bool {
    exists|x: int, y: int| #[trigger] in_mask(labels, w, h, target, x, y)
}

proof fn lemma_region_has_edge(labels: Seq<u8>, w: int, h: int, target: u8, x: int, y: int)
    requires
        in_mask(labels, w, h, target, x, y),
    ensures
        exists|a: int, b: int, d: int| #[trigger] is_boundary_edge(labels, w, h, target, a, b, d),
    decreases y,
{
    if !in_mask(labels, w, h, target, x, y - 1) {
        assert(is_boundary_edge(labels, w, h, target, x, y, 3));
    } else {
        lemma_region_has_edge(labels, w, h, target, x, y - 1);
    }
}

/// Extract contours for all color regions.
///
/// Returns a list of `(palette_index, contours)` pairs, one for every palette
/// index whose region is not empty, in increasing index order.
pub fn extract_contours(seg: &SegmentationResult) -> (r: Vec<(u8, Vec<Contour>)>)
    requires
        seg.labels@.len() >= seg.width * seg.height,
        seg.width < 0x8000_0000,
        seg.height < 0x8000_0000,
        (seg.width + 1) * (seg.height + 1) * 4 <= usize::MAX,
    ensures
        forall|k: int|
            0 <= k < r@.len() ==> (#[trigger] r@[k]).0 < seg.palette@.len()
                && r@[k].1@.len() > 0 && is_region_tracing(
                seg.labels@,
                seg.width as int,
                seg.height as int,
                r@[k].0,
                contours_view(r@[k].1@),
            ),
        forall|k1: int, k2: int| 0 <= k1 < k2 < r@.len() ==> (#[trigger] r@[k1]).0 < (#[trigger] r@[k2]).0,
        forall|c: u8|
            c < seg.palette@.len() && #[trigger] region_nonempty(
                seg.labels@,
                seg.width as int,
                seg.height as int,
                c,
            ) ==> exists|k: int| 0 <= k < r@.len() && (#[trigger] r@[k]).0 == c,
{
    let w = seg.width as usize;
    let h = seg.height as usize;
    let n: usize = if seg.palette.len() < 256 { seg.palette.len() } else { 256 };
    let mut result: Vec<(u8, Vec<Contour>)> = Vec::new();
    let mut color: usize = 0;
    while color < n
        invariant
            seg.labels@.len() >= w * h,
            w == seg.width,
            h == seg.height,
            w < 0x8000_0000,
            h < 0x8000_0000,
            (w + 1) * (h + 1) * 4 <= usize::MAX,
            n <= seg.palette@.len(),
            n == seg.palette@.len() || n == 256,
            n <= 256,
            color <= n,
            forall|k: int|
                0 <= k < result@.len() ==> (#[trigger] result@[k]).0 < color && result@[k].1@.len() > 0
                    && is_region_tracing(seg.labels@, w as int, h as int, result@[k].0, contours_view(result@[k].1@)),
            forall|k1: int, k2: int| 0 <= k1 < k2 < result@.len() ==> (#[trigger] result@[k1]).0 < (#[trigger] result@[k2]).0,
            forall|c: int|
                0 <= c < color && #[trigger] region_nonempty(seg.labels@, w as int, h as int, c as u8)
                    ==> exists|k: int| 0 <= k < result@.len() && (#[trigger] result@[k]).0 == c,
        decreases n - color,
    {
        let target = color as u8;
        let contours = trace_color_contours(&seg.labels, w, h, target);
        let ghost old_result = result@;
        if contours.len() > 0 {
            result.push((target, contours));
            proof {
                assert forall|k: int| 0 <= k < result@.len() - 1 implies #[trigger] result@[k] == old_result[k] by {
                }
            }
        } else {
            proof {
                if region_nonempty(seg.labels@, w as int, h as int, target) {
                    let (x, y) = choose|x: int, y: int| #[trigger] in_mask(seg.labels@, w as int, h as int, target, x, y);
                    lemma_region_has_edge(seg.labels@, w as int, h as int, target, x, y);
                    let (a, b, d) = choose|a: int, b: int, d: int|
                        #[trigger] is_boundary_edge(seg.labels@, w as int, h as int, target, a, b, d);
                    assert(contours_view(contours@).len() == 0);
                    assert(false);
                }
            }
        }
        proof {
            assert forall|c: int|
                0 <= c < color + 1 && #[trigger] region_nonempty(seg.labels@, w as int, h as int, c as u8)
                    implies exists|k: int| 0 <= k < result@.len() && (#[trigger] result@[k]).0 == c by {
                if c < color {
                    let k = choose|k: int| 0 <= k < old_result.len() && (#[trigger] old_result[k]).0 == c;
                    assert(result@[k] == old_result[k]);
                } else {
                    assert(c as u8 == target);
                    assert(result@[result@.len() - 1].0 == c);
                }
            }
        }
        color += 1;
    }
    proof {
        assert forall|c: u8|
            c < seg.palette@.len() && #[trigger] region_nonempty(seg.labels@, w as int, h as int, c)
                implies exists|k: int| 0 <= k < result@.len() && (#[trigger] result@[k]).0 == c by {
            let ci: int = c as int;
            assert(ci as u8 == c);
            assert(region_nonempty(seg.labels@, w as int, h as int, ci as u8));
        }
    }
    result
}

/// Cross product term of the shoelace formula for the edge from `p` to `q`.
pub open spec fn cross(p: Point, q: Point) -> int {
    p.x * q.y - q.x * p.y
}

/// Sum of the first `n` shoelace terms of a closed contour.
pub open spec fn shoelace_prefix(c: Seq<Point>, n: int) -> int
    decreases n,
{
    if n <= 0 {
        0
    } else {
        shoelace_prefix(c, n - 1) + cross(c[n - 1], c[n % (c.len() as int)])
    }
}

/// Twice the signed area of a contour (shoelace formula); contours with fewer
/// than three points have no area. With `y` growing downwards, outer boundaries
/// traced with the region on their right have positive area and holes negative.
pub open spec fn twice_signed_area(c: Seq<Point>) -> int {
    if c.len() < 3 {
        0
    } else {
        shoelace_prefix(c, c.len() as int)
    }
}

/// Twice the signed area of a contour, computed exactly.
pub fn contour_twice_signed_area(contour: &Contour) -> (r: i128)
    requires
        contour@.len() < 0x4000_0000_0000_0000,
    ensures
        r as int == twice_signed_area(contour@),
{
    let n = contour.len();
    if n < 3 {
        return 0;
    }
    let mut acc: i128 = 0;
    let mut i: usize = 0;
    while i < n
        invariant
            n == contour@.len(),
            3 <= n < 0x4000_0000_0000_0000,
            i <= n,
            acc as int == shoelace_prefix(contour@, i as int),
            -(i as int) * 0x8000_0000_0000_0000 <= acc as int <= (i as int) * 0x8000_0000_0000_0000,
        decreases n - i,
    {
        let j = if i + 1 == n { 0 } else { i + 1 };
        proof {
            if i + 1 < n {
                vstd::arithmetic::div_mod::lemma_small_mod((i + 1) as nat, n as nat);
            } else {
                vstd::arithmetic::div_mod::lemma_mod_self_0(n as int);
            }
        }
        let a = contour[i];
        let b = contour[j];
        let xa = a.x as i128;
        let ya = a.y as i128;
        let xb = b.x as i128;
        let yb = b.y as i128;
        proof {
            assert(-0x8000_0000 <= xa < 0x8000_0000);
            assert(xa * yb <= 0x4000_0000_0000_0000 && xa * yb >= -0x4000_0000_0000_0000) by (nonlinear_arith)
                requires
                    -0x8000_0000 <= xa < 0x8000_0000,
                    -0x8000_0000 <= yb < 0x8000_0000,
            ;
            assert(xb * ya <= 0x4000_0000_0000_0000 && xb * ya >= -0x4000_0000_0000_0000) by (nonlinear_arith)
                requires
                    -0x8000_0000 <= xb < 0x8000_0000,
                    -0x8000_0000 <= ya < 0x8000_0000,
            ;
        }
        acc = acc + (xa * yb - xb * ya);
        i += 1;
    }
    acc
}

/// Return `true` when the contour represents an interior hole.
pub fn contour_is_hole(contour: &Contour) -> (r: bool)
    requires
        contour@.len() < 0x4000_0000_0000_0000,
    ensures
        r == (twice_signed_area(contour@) < 0),
{
    contour_twice_signed_area(contour) < 0
}

/// Contour, hole and point totals of a set of contour groups.
#[derive(Debug, Clone, Copy, Default, PartialEq, Eq)]
pub struct ContourStageSummary {
    /// Number of contours.
    pub contours: usize,
    /// Number of contours that are holes.
    pub holes: usize,
    /// Number of contour points.
    pub points: usize,
}

/// Number of holes among the first `n` contours.
pub open spec fn hole_count(cs: Seq<Seq<Point>>, n: int) -> int
    decreases n,
{
    if n <= 0 {
        0
    } else {
        hole_count(cs, n - 1) + (if twice_signed_area(cs[n - 1]) < 0 {
            1int
        } else {
            0int
        })
    }
}

/// Number of points in the first `n` contours.
pub open spec fn point_count(cs: Seq<Seq<Point>>, n: int) -> int
    decreases n,
{
    if n <= 0 {
        0
    } else {
        point_count(cs, n - 1) + cs[n - 1].len()
    }
}

/// Contour totals over the first `n` groups.
pub open spec fn group_totals(groups: Seq<(u8, Vec<Contour>)>, n: int) -> (int, int, int)
    decreases n,
{
    if n <= 0 {
        (0, 0, 0)
    } else {
        let t = group_totals(groups, n - 1);
        let cs = contours_view(groups[n - 1].1@);
        (t.0 + cs.len(), t.1 + hole_count(cs, cs.len() as int), t.2 + point_count(cs, cs.len() as int))
    }
}

proof fn lemma_hole_count_bound(cs: Seq<Seq<Point>>, n: int)
    requires
        0 <= n <= cs.len(),
    ensures
        0 <= hole_count(cs, n) <= n,
        0 <= point_count(cs, n),
    decreases n,
{
    if n > 0 {
        lemma_hole_count_bound(cs, n - 1);
    }
}

proof fn lemma_group_totals_mono(groups: Seq<(u8, Vec<Contour>)>, m: int, n: int)
    requires
        0 <= m <= n <= groups.len(),
    ensures
        0 <= group_totals(groups, m).0 <= group_totals(groups, n).0,
        0 <= group_totals(groups, m).1 <= group_totals(groups, n).1,
        0 <= group_totals(groups, m).2 <= group_totals(groups, n).2,
        group_totals(groups, n).1 <= group_totals(groups, n).0,
        group_totals(groups, m).1 <= group_totals(groups, m).0,
    decreases n,
{
    if n > 0 {
        if m < n {
            lemma_group_totals_mono(groups, m, n - 1);
        } else {
            lemma_group_totals_mono(groups, m - 1, n - 1);
        }
        let cs = contours_view(groups[n - 1].1@);
        lemma_hole_count_bound(cs, cs.len() as int);
    }
    if m > 0 {
        lemma_group_totals_mono(groups, m - 1, m - 1);
        let cs = contours_view(groups[m - 1].1@);
        lemma_hole_count_bound(cs, cs.len() as int);
    }
}

/// Count the contours, holes and points of a set of contour groups.
pub fn summarize_contours(contour_groups: &Vec<(u8, Vec<Contour>)>) -> (r: ContourStageSummary)
    requires
        group_totals(contour_groups@, contour_groups@.len() as int).0 <= usize::MAX,
        group_totals(contour_groups@, contour_groups@.len() as int).2 <= usize::MAX,
        forall|g: int, k: int|
            0 <= g < contour_groups@.len() && 0 <= k < contour_groups@[g].1@.len() ==> (
            #[trigger] contour_groups@[g].1@[k])@.len() < 0x4000_0000_0000_0000,
    ensures
        r.contours as int == group_totals(contour_groups@, contour_groups@.len() as int).0,
        r.holes as int == group_totals(contour_groups@, contour_groups@.len() as int).1,
        r.points as int == group_totals(contour_groups@, contour_groups@.len() as int).2,
{
    let ghost gs = contour_groups@;
    let ghost total = group_totals(gs, gs.len() as int);
    let mut summary = ContourStageSummary { contours: 0, holes: 0, points: 0 };
    let mut g: usize = 0;
    while g < contour_groups.len()
        invariant
            gs == contour_groups@,
            total == group_totals(gs, gs.len() as int),
            total.0 <= usize::MAX,
            total.2 <= usize::MAX,
            forall|g: int, k: int|
                0 <= g < gs.len() && 0 <= k < gs[g].1@.len() ==> (#[trigger] gs[g].1@[k])@.len() < 0x4000_0000_0000_0000,
            g <= gs.len(),
            summary.contours as int == group_totals(gs, g as int).0,
            summary.holes as int == group_totals(gs, g as int).1,
            summary.points as int == group_totals(gs, g as int).2,
        decreases gs.len() - g,
    {
        let contours = &contour_groups[g].1;
        let ghost cs = contours_view(contours@);
        proof {
            lemma_group_totals_mono(gs, g + 1, gs.len() as int);
            lemma_group_totals_mono(gs, g as int, g + 1);
            lemma_hole_count_bound(cs, cs.len() as int);
        }
        let mut holes: usize = 0;
        let mut points: usize = 0;
        let mut k: usize = 0;
        while k < contours.len()
            invariant
                cs == contours_view(contours@),
                contours@ == gs[g as int].1@,
                g < gs.len(),
                forall|g: int, k: int|
                    0 <= g < gs.len() && 0 <= k < gs[g].1@.len() ==> (#[trigger] gs[g].1@[k])@.len() < 0x4000_0000_0000_0000,
                k <= cs.len(),
                holes as int == hole_count(cs, k as int),
                points as int == point_count(cs, k as int),
                summary.points as int + point_count(cs, cs.len() as int) <= usize::MAX,
                summary.points as int + point_count(cs, cs.len() as int) == group_totals(gs, g + 1).2,
            decreases cs.len() - k,
        {
            proof {
                lemma_hole_count_bound(cs, k + 1);
                assert(point_count(cs, k + 1) <= point_count(cs, cs.len() as int)) by {
                    lemma_point_count_mono(cs, k + 1, cs.len() as int);
                }
                assert(cs[k as int] == contours@[k as int]@);
            }
            if contour_is_hole(&contours[k]) {
                holes += 1;
            }
            points += contours[k].len();
            k += 1;
        }
        summary.contours += contours.len();
        summary.holes += holes;
        summary.points += points;
        g += 1;
    }
    summary
}

proof fn lemma_point_count_mono(cs: Seq<Seq<Point>>, m: int, n: int)
    requires
        0 <= m <= n <= cs.len(),
    ensures
        0 <= point_count(cs, m) <= point_count(cs, n),
    decreases n,
{
    if n > 0 && m < n {
        lemma_point_count_mono(cs, m, n - 1);
    }
    if n > 0 && m == n {
        lemma_point_count_mono(cs, m - 1, n - 1);
    }
}

/// The groups whose color indexes a palette of `palette_len` colors, in order.
pub open spec fn palette_groups(groups: Seq<(u8, Vec<Contour>)>, palette_len: int) -> Seq<(u8, Vec<Contour>)>
    decreases groups.len(),
{
    if groups.len() == 0 {
        seq![]
    } else {
        let kept = palette_groups(groups.drop_last(), palette_len);
        if (groups.last().0 as int) < palette_len {
            kept.push(groups.last())
        } else {
            kept
        }
    }
}

/// One summary per contour group whose color indexes the palette, in order:
/// the palette color, the number of contours, of holes among them, and of
/// their points.
pub fn region_summaries(palette: &Vec<PaletteColor>, contour_groups: &Vec<(u8, Vec<Contour>)>) -> (r: Vec<
    TracedRegionSummary,
>)
    requires
        forall|g: int|
            0 <= g < contour_groups@.len() ==> point_count(
                contours_view(#[trigger] contour_groups@[g].1@),
                contour_groups@[g].1@.len() as int,
            ) <= usize::MAX,
        forall|g: int, k: int|
            0 <= g < contour_groups@.len() && 0 <= k < contour_groups@[g].1@.len() ==> (
            #[trigger] contour_groups@[g].1@[k])@.len() < 0x4000_0000_0000_0000,
    ensures
        r@.len() == palette_groups(contour_groups@, palette@.len() as int).len(),
        forall|i: int|
            0 <= i < r@.len() ==> {
                let g = #[trigger] palette_groups(contour_groups@, palette@.len() as int)[i];
                let cs = contours_view(g.1@);
                &&& r@[i].spec_color() == palette@[g.0 as int]
                &&& r@[i].spec_contour_count() == cs.len()
                &&& r@[i].spec_hole_count() == hole_count(cs, cs.len() as int)
                &&& r@[i].spec_total_points() == point_count(cs, cs.len() as int)
            },
{
    let ghost gs = contour_groups@;
    let ghost n = palette@.len() as int;
    let mut regions: Vec<TracedRegionSummary> = Vec::new();
    let mut g: usize = 0;
    while g < contour_groups.len()
        invariant
            gs == contour_groups@,
            n == palette@.len(),
            forall|g: int|
                0 <= g < gs.len() ==> point_count(contours_view(#[trigger] gs[g].1@), gs[g].1@.len() as int)
                    <= usize::MAX,
            forall|g: int, k: int|
                0 <= g < gs.len() && 0 <= k < gs[g].1@.len() ==> (#[trigger] gs[g].1@[k])@.len() < 0x4000_0000_0000_0000,
            g <= gs.len(),
            regions@.len() == palette_groups(gs.subrange(0, g as int), n).len(),
            forall|i: int|
                0 <= i < regions@.len() ==> {
                    let pg = #[trigger] palette_groups(gs.subrange(0, g as int), n)[i];
                    let cs = contours_view(pg.1@);
                    &&& regions@[i].spec_color() == palette@[pg.0 as int]
                    &&& regions@[i].spec_contour_count() == cs.len()
                    &&& regions@[i].spec_hole_count() == hole_count(cs, cs.len() as int)
                    &&& regions@[i].spec_total_points() == point_count(cs, cs.len() as int)
                },
        decreases gs.len() - g,
    {
        let ghost before = palette_groups(gs.subrange(0, g as int), n);
        proof {
            assert(gs.subrange(0, g + 1).drop_last() =~= gs.subrange(0, g as int));
            assert(gs.subrange(0, g + 1).last() == gs[g as int]);
        }
        let color_index = contour_groups[g].0;
        if (color_index as usize) < palette.len() {
            let contours = &contour_groups[g].1;
            let ghost cs = contours_view(contours@);
            let mut holes: usize = 0;
            let mut points: usize = 0;
            let mut k: usize = 0;
            while k < contours.len()
                invariant
                    cs == contours_view(contours@),
                    contours@ == gs[g as int].1@,
                    g < gs.len(),
                    point_count(cs, cs.len() as int) <= usize::MAX,
                    forall|k: int| 0 <= k < cs.len() ==> (#[trigger] cs[k]).len() < 0x4000_0000_0000_0000,
                    k <= cs.len(),
                    holes as int == hole_count(cs, k as int),
                    points as int == point_count(cs, k as int),
                decreases cs.len() - k,
            {
                proof {
                    lemma_hole_count_bound(cs, k + 1);
                    lemma_point_count_mono(cs, k + 1, cs.len() as int);
                    assert(cs[k as int] == contours@[k as int]@);
                    assert(gs[g as int].1@[k as int]@.len() < 0x4000_0000_0000_0000);
                }
                if contour_is_hole(&contours[k]) {
                    holes += 1;
                }
                points += contours[k].len();
                k += 1;
            }
            let summary = TracedRegionSummary::new(palette[color_index as usize], contours.len(), holes, points);
            regions.push(summary);
            proof {
                assert(palette_groups(gs.subrange(0, g + 1), n) == before.push(gs[g as int]));
            }
        } else {
            proof {
                assert(palette_groups(gs.subrange(0, g + 1), n) == before);
            }
        }
        g += 1;
    }
    proof {
        assert(gs.subrange(0, gs.len() as int) =~= gs);
    }
    regions
}

} // verus!
